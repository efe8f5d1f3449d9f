use ssh_agent_lib::proto::extension::QueryResponse;
use ssh_agent_mux::proto::{
    connect, query_answer, reply_in_time, session_bind_message, ConnectOutcome, MuxError, Request,
    CONNECT_TIMEOUT, SESSION_BIND_TIMEOUT, SIGN_TIMEOUT, UPSTREAM_TIMEOUT,
};

#[test]
fn time_limits() {
    assert_eq!(SIGN_TIMEOUT, 60);
    assert_eq!(SESSION_BIND_TIMEOUT, 30);
    assert_eq!(UPSTREAM_TIMEOUT, 10);
    assert_eq!(CONNECT_TIMEOUT, 2);
}

#[test]
fn replies_in_time() {
    let reply: Result<u32, MuxError<u8, String>> = reply_in_time(Some(Ok(5)));
    assert!(matches!(reply, Ok(5)));
    let reply: Result<u32, MuxError<u8, String>> = reply_in_time(Some(Err(MuxError::Failure)));
    assert!(matches!(reply, Err(MuxError::Failure)));
    let reply: Result<u32, MuxError<u8, String>> = reply_in_time(Some(Err(MuxError::Upstream(9))));
    assert!(matches!(reply, Err(MuxError::Upstream(9))));
    match reply_in_time::<u32, u8>(None) {
        Err(MuxError::Other(reason)) => assert_eq!(reason, "timeout"),
        other => panic!("{:?}", other),
    }
}

#[test]
fn outcomes_of_connecting() {
    let r: Result<u32, MuxError<u8, String>> = connect(b"/a", ConnectOutcome::Connected(3));
    assert!(matches!(r, Ok(3)));
    let r: Result<u32, MuxError<u8, String>> = connect(b"/a", ConnectOutcome::Refused(4));
    assert!(matches!(r, Err(MuxError::Upstream(4))));
    let r: Result<u32, MuxError<u8, String>> = connect(b"/run/\xff", ConnectOutcome::TimedOut);
    match r {
        Err(MuxError::Other(reason)) => {
            assert_eq!(reason, "Timeout connecting to agent at /run/\u{fffd}")
        }
        other => panic!("{:?}", other),
    }
}

#[test]
fn answer_to_a_query() {
    let answer = query_answer();
    assert_eq!(answer.name, "query");
    let mut expected = vec![0, 0, 0, 28, 0, 0, 0, 24];
    expected.extend_from_slice(b"session-bind@openssh.com");
    assert_eq!(answer.details, expected);

    let details: ssh_agent_lib::proto::Unparsed = answer.details.into();
    let parsed: QueryResponse = details.parse().unwrap();
    assert_eq!(parsed.extensions, vec!["session-bind@openssh.com"]);
}

#[test]
fn requests_to_all_agents() {
    let listing: Request<Vec<u8>> = Request::Identities { limit: 10 };
    assert_eq!(listing.limit(), 10);
    assert!(matches!(listing.copy(), Request::Identities { limit: 10 }));
    let bind = Request::SessionBind {
        details: vec![4, 5],
        limit: 30,
    };
    assert_eq!(bind.limit(), 30);
    match bind.copy() {
        Request::SessionBind { details, limit: 30 } => {
            let message = session_bind_message(details);
            assert_eq!(message.name, "session-bind@openssh.com");
            assert_eq!(message.details, vec![4, 5]);
        }
        other => panic!("{:?}", other),
    }
}
