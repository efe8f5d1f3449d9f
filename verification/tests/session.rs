use ssh_agent_mux::known_keys::KnownPubKeys;
use ssh_agent_mux::peer::PeerInfo;
use ssh_agent_mux::proto::{Extension, Identity, MuxError, Request, SignRequest, SocketPath};
use ssh_agent_mux::session::{
    Action, Event, FindAgent, MuxAgent, MuxSession, Refresh, SessionBind, SignAction, SignEvent,
    SignInfo, Signing,
};
use ssh_agent_mux::step::Step;

type Error = MuxError<u8, String>;
type Listing = Result<Vec<Identity>, Error>;
type Binding = Result<Option<Extension>, Error>;
type Signed = SignEvent<String, u32, u8, &'static str>;

const A: &[u8] = b"/run/a.sock";
const B: &[u8] = b"/run/b.sock";
const C: &[u8] = b"/run/c.sock";

fn session(paths: &[&[u8]]) -> MuxSession<u32> {
    MuxAgent::new(paths.iter().map(|p| p.to_vec()).collect()).new_session(None)
}

fn ids(keys: &[&str]) -> Vec<Identity> {
    keys.iter()
        .map(|k| Identity {
            pubkey: k.as_bytes().to_vec(),
            comment: format!("comment of {}", k),
        })
        .collect()
}

fn keys_of(ids: &[Identity]) -> Vec<String> {
    ids.iter()
        .map(|id| String::from_utf8(id.pubkey.clone()).unwrap())
        .collect()
}

/// Drives the contacting of all agents: `open` gives the connection that is
/// opened to a path, if one can be. Returns what was sent.
fn contact_all<R, T>(
    open: impl Fn(&[u8]) -> Option<u32>,
    step: impl FnMut(Event<SocketPath, u32, R>) -> Step<Action<SocketPath, u32>, T>,
) -> Vec<(SocketPath, u32)> {
    send_all(open, |_| {}, step)
}

/// As `contact_all`; `check` looks at each request that is sent.
fn send_all<R, T>(
    open: impl Fn(&[u8]) -> Option<u32>,
    check: impl Fn(&Request<Vec<u8>>),
    mut step: impl FnMut(Event<SocketPath, u32, R>) -> Step<Action<SocketPath, u32>, T>,
) -> Vec<(SocketPath, u32)> {
    let mut sent = Vec::new();
    let mut event = Event::Proceed;
    loop {
        event = match step(event) {
            Step::Perform(Action::Connect { path }) => {
                let opened = open(&path);
                Event::Connected { path, opened }
            }
            Step::Perform(Action::Send {
                path,
                client,
                request,
            }) => {
                check(&request);
                sent.push((path, client));
                Event::Proceed
            }
            Step::Perform(Action::Collect) => return sent,
            Step::Return(_) => panic!("returned before the answers"),
        };
    }
}

fn refresh_with(
    session: &mut MuxSession<u32>,
    known: &mut KnownPubKeys,
    open: impl Fn(&[u8]) -> Option<u32>,
    answers: impl Fn(&[u8], u32) -> Listing,
) -> Vec<Identity> {
    let mut refresh = Refresh::begin(known);
    let sent = contact_all(open, |event: Event<SocketPath, u32, Listing>| {
        session.refresh_identities(known, &mut refresh, event)
    });
    for (path, client) in sent {
        let reply = answers(&path, client);
        let event = Event::Answered {
            path,
            client,
            reply,
        };
        assert!(matches!(
            session.refresh_identities(known, &mut refresh, event),
            Step::Perform(Action::Collect)
        ));
    }
    let end: Event<SocketPath, u32, Listing> = Event::Drained;
    match session.refresh_identities(known, &mut refresh, end) {
        Step::Return(ids) => ids,
        other => panic!("{:?}", other),
    }
}

fn begin_bind(session: &MuxSession<u32>) -> SessionBind {
    let request = Extension {
        name: "session-bind@openssh.com".to_string(),
        details: vec![1, 2, 3],
    };
    let step: Step<SessionBind, Binding> = session.extension(&request);
    match step {
        Step::Perform(bind) => bind,
        other => panic!("{:?}", other),
    }
}

fn bind_with(
    session: &mut MuxSession<u32>,
    open: impl Fn(&[u8]) -> Option<u32>,
    answers: impl Fn(&[u8], u32) -> Binding,
) -> Binding {
    let mut bind = begin_bind(session);
    let sent = contact_all(open, |event: Event<SocketPath, u32, Binding>| {
        session.session_bind(&mut bind, event)
    });
    for (path, client) in sent {
        let reply = answers(&path, client);
        let event = Event::Answered {
            path,
            client,
            reply,
        };
        assert!(matches!(
            session.session_bind(&mut bind, event),
            Step::Perform(Action::Collect)
        ));
    }
    let end: Event<SocketPath, u32, Binding> = Event::Drained;
    match session.session_bind(&mut bind, end) {
        Step::Return(result) => result,
        other => panic!("{:?}", other),
    }
}

fn request(pubkey: &[u8], data: &[u8]) -> SignRequest<Vec<u8>> {
    SignRequest {
        pubkey: pubkey.to_vec(),
        data: data.to_vec(),
        flags: 2,
    }
}

fn info() -> SignInfo {
    SignInfo::new(
        request(b"k", b"data"),
        "SHA256:fp".to_string(),
        "0123456789abcdef".to_string(),
    )
}

/// A request for the key `k`, which the agent at `path` is known to hold.
fn signing(path: &[u8]) -> Signing {
    let mut known = KnownPubKeys::new();
    known.record(path, &ids(&["k"]));
    match Signing::begin(&mut known, info()) {
        Step::Return(signing) => signing,
        other => panic!("{:?}", other),
    }
}

/// Looks for the agent that holds the key `k`, which is not known.
fn find_signer(
    s: &mut MuxSession<u32>,
    known: &mut KnownPubKeys,
    answers: impl Fn(&[u8]) -> Listing,
) -> Signing {
    let mut search = match Signing::begin(known, info()) {
        Step::Perform(search) => search,
        other => panic!("{:?}", other),
    };
    let sent = contact_all(number, |event: Event<SocketPath, u32, Listing>| {
        s.find_signer(known, &mut search, event)
    });
    for (path, client) in sent {
        let reply = answers(&path);
        let event = Event::Answered {
            path,
            client,
            reply,
        };
        assert!(matches!(
            s.find_signer(known, &mut search, event),
            Step::Perform(Action::Collect)
        ));
    }
    let end: Event<SocketPath, u32, Listing> = Event::Drained;
    match s.find_signer(known, &mut search, end) {
        Step::Return(signing) => signing,
        other => panic!("{:?}", other),
    }
}

fn number(path: &[u8]) -> Option<u32> {
    Some(path[5] as u32)
}

// ---------------------------------------------------------------------------

#[test]
fn new_sessions_are_fresh() {
    let agent = MuxAgent::new(vec![A.to_vec(), B.to_vec()]);
    assert_eq!(agent.agent_count(), 2);
    assert_eq!(agent.clone().agent_count(), 2);
    let mut one: MuxSession<u32> = agent.new_session(None);
    let two: MuxSession<u32> = agent.new_session(None);
    let mut known = KnownPubKeys::new();
    refresh_with(&mut one, &mut known, number, |_, _| Ok(ids(&[])));
    assert!(one.is_connected(A) && one.is_connected(B));
    assert!(!two.is_connected(A) && !two.is_connected(B));
}

#[test]
fn displayed_peer_of_a_session() {
    let agent = MuxAgent::new(vec![]);
    let unknown: MuxSession<u32> = agent.new_session(None);
    assert_eq!(unknown.peer_display(), "<unknown>");
    let peer = PeerInfo::new(7, 8, 9, Some("ssh host".to_string()));
    let known: MuxSession<u32> = agent.new_session(Some(peer));
    assert_eq!(known.peer_display(), "pid=7(ssh host) uid=8");
}

#[test]
fn every_agent_is_contacted_in_order() {
    let mut s = session(&[A, B, C]);
    let mut known = KnownPubKeys::new();
    let mut refresh = Refresh::begin(&mut known);
    let sent = contact_all(number, |event: Event<SocketPath, u32, Listing>| {
        s.refresh_identities(&mut known, &mut refresh, event)
    });
    assert_eq!(
        sent,
        vec![
            (A.to_vec(), b'a' as u32),
            (B.to_vec(), b'b' as u32),
            (C.to_vec(), b'c' as u32)
        ]
    );
}

#[test]
fn no_agents_list_no_identities() {
    let mut s = session(&[]);
    let mut known = KnownPubKeys::new();
    known.record(A, &ids(&["old"]));
    let listed = refresh_with(&mut s, &mut known, number, |_, _| panic!("no agent"));
    assert!(listed.is_empty());
    assert!(!known.contains_key(b"old"));
}

#[test]
fn refresh_merges_what_agents_list() {
    let mut s = session(&[A, B]);
    let mut known = KnownPubKeys::new();
    known.record(C, &ids(&["gone"]));
    let listed = refresh_with(&mut s, &mut known, number, |path, _| {
        Ok(if path == A {
            ids(&["k1", "shared"])
        } else {
            ids(&["shared", "k2"])
        })
    });
    assert_eq!(keys_of(&listed), vec!["k1", "shared", "shared", "k2"]);
    assert_eq!(listed[0].comment, "comment of k1");
    assert_eq!(known.get(b"k1"), Some(A.to_vec()));
    assert_eq!(known.get(b"k2"), Some(B.to_vec()));
    assert_eq!(known.get(b"shared"), Some(B.to_vec()));
    assert_eq!(known.get(b"gone"), None);
}

#[test]
fn refresh_leaves_out_agents_that_fail() {
    let mut s = session(&[A, B, C]);
    let mut known = KnownPubKeys::new();
    let open = |path: &[u8]| if path == A { None } else { number(path) };
    let listed = refresh_with(&mut s, &mut known, open, |path, _| {
        if path == B {
            Err(MuxError::Upstream(1))
        } else {
            Ok(ids(&["k3"]))
        }
    });
    assert_eq!(keys_of(&listed), vec!["k3"]);
    assert!(!s.is_connected(A));
    assert!(!s.is_connected(B));
    assert!(s.is_connected(C));
}

#[test]
fn refresh_survives_lost_tasks() {
    let mut s = session(&[A]);
    let mut known = KnownPubKeys::new();
    let mut refresh = Refresh::begin(&mut known);
    contact_all(number, |event: Event<SocketPath, u32, Listing>| {
        s.refresh_identities(&mut known, &mut refresh, event)
    });
    let lost: Event<SocketPath, u32, Listing> = Event::Lost;
    assert!(matches!(
        s.refresh_identities(&mut known, &mut refresh, lost),
        Step::Perform(Action::Collect)
    ));
    let end: Event<SocketPath, u32, Listing> = Event::Drained;
    match s.refresh_identities(&mut known, &mut refresh, end) {
        Step::Return(ids) => assert!(ids.is_empty()),
        other => panic!("{:?}", other),
    }
    assert!(!s.is_connected(A));
}

#[test]
fn refresh_reuses_open_connections() {
    let mut s = session(&[A]);
    let mut known = KnownPubKeys::new();
    refresh_with(&mut s, &mut known, |_| Some(11), |_, _| Ok(ids(&["k1"])));
    let listed = refresh_with(
        &mut s,
        &mut known,
        |_| panic!("there is a connection"),
        |_, client| {
            assert_eq!(client, 11);
            Ok(ids(&["k1"]))
        },
    );
    assert_eq!(keys_of(&listed), vec!["k1"]);
    assert_eq!(s.connection_mut(A), Some(&mut 11));
}

#[test]
fn a_path_that_is_configured_twice() {
    let mut s = session(&[A, A]);
    let mut known = KnownPubKeys::new();
    refresh_with(&mut s, &mut known, |_| Some(1), |_, _| Ok(ids(&[])));
    let mut refresh = Refresh::begin(&mut known);
    let sent = contact_all(
        |_| Some(2),
        |event: Event<SocketPath, u32, Listing>| {
            s.refresh_identities(&mut known, &mut refresh, event)
        },
    );
    assert_eq!(sent, vec![(A.to_vec(), 1), (A.to_vec(), 2)]);
}

#[test]
fn a_known_key_is_found_at_once() {
    let mut known = KnownPubKeys::new();
    known.record(B, &ids(&["k1"]));
    match FindAgent::begin(&mut known, b"k1") {
        Step::Return(found) => assert_eq!(found, Some(B.to_vec())),
        other => panic!("{:?}", other),
    }
    assert!(known.contains_key(b"k1"));
}

fn find(s: &mut MuxSession<u32>, known: &mut KnownPubKeys, key: &[u8]) -> Option<SocketPath> {
    let mut search = match FindAgent::begin(known, key) {
        Step::Return(found) => return found,
        Step::Perform(search) => search,
    };
    let sent = contact_all(number, |event: Event<SocketPath, u32, Listing>| {
        s.get_agent_sock_for_pubkey(known, &mut search, event)
    });
    for (path, client) in sent {
        let event: Event<SocketPath, u32, Listing> = Event::Answered {
            path,
            client,
            reply: Ok(ids(&["k1", "k2"])),
        };
        assert!(matches!(
            s.get_agent_sock_for_pubkey(known, &mut search, event),
            Step::Perform(Action::Collect)
        ));
    }
    let end: Event<SocketPath, u32, Listing> = Event::Drained;
    match s.get_agent_sock_for_pubkey(known, &mut search, end) {
        Step::Return(found) => found,
        other => panic!("{:?}", other),
    }
}

#[test]
fn an_unknown_key_is_looked_for() {
    let mut s = session(&[A]);
    let mut known = KnownPubKeys::new();
    known.record(B, &ids(&["old"]));
    assert_eq!(find(&mut s, &mut known, b"k2"), Some(A.to_vec()));
    assert!(!known.contains_key(b"old"));
    assert_eq!(find(&mut s, &mut known, b"nobody"), None);
    assert!(known.contains_key(b"k1"));
}

#[test]
fn query_names_the_supported_extension() {
    let s = session(&[A]);
    let request = Extension {
        name: "query".to_string(),
        details: vec![],
    };
    let step: Step<SessionBind, Binding> = s.extension(&request);
    match step {
        Step::Return(Ok(Some(answer))) => {
            assert_eq!(answer.name, "query");
            assert!(answer.details.ends_with(b"session-bind@openssh.com"));
            assert_eq!(answer.details.len(), 32);
        }
        other => panic!("{:?}", other),
    }
}

#[test]
fn other_extensions_fail() {
    let s = session(&[A]);
    for name in ["", "Query", "session-bind", "session-bind@openssh.com "] {
        let request = Extension {
            name: name.to_string(),
            details: vec![],
        };
        let step: Step<SessionBind, Binding> = s.extension(&request);
        assert!(matches!(step, Step::Return(Err(MuxError::Failure))));
    }
}

#[test]
fn bind_succeeds_when_an_agent_accepts() {
    let mut s = session(&[A, B, C]);
    let result = bind_with(&mut s, number, |path, _| match path {
        p if p == A => Err(MuxError::Failure),
        p if p == B => Ok(None),
        _ => Err(MuxError::Other("timeout".to_string())),
    });
    assert!(matches!(result, Ok(None)));
    assert!(s.is_connected(A));
    assert!(s.is_connected(B));
    assert!(!s.is_connected(C));
}

#[test]
fn bind_fails_when_no_agent_accepts() {
    let mut s = session(&[A, B, C]);
    let open = |path: &[u8]| if path == C { None } else { number(path) };
    let result = bind_with(&mut s, open, |path, _| {
        if path == A {
            Err(MuxError::Failure)
        } else {
            Err(MuxError::Upstream(3))
        }
    });
    assert!(matches!(result, Err(MuxError::Failure)));
    assert!(s.is_connected(A));
    assert!(!s.is_connected(B));
    assert!(!s.is_connected(C));
    let mut none = session(&[]);
    let result = bind_with(&mut none, number, |_, _| Ok(None));
    assert!(matches!(result, Err(MuxError::Failure)));
}

#[test]
fn unexpected_data_in_an_accepting_reply_is_ignored() {
    let mut s = session(&[A]);
    let result = bind_with(&mut s, number, |_, _| {
        Ok(Some(Extension {
            name: "surprise".to_string(),
            details: vec![1],
        }))
    });
    assert!(matches!(result, Ok(None)));
    assert!(s.is_connected(A));
}

#[test]
fn session_bind_then_sign_use_one_connection() {
    let mut s = session(&[A, B]);
    let result = bind_with(
        &mut s,
        |path| Some(100 + number(path).unwrap()),
        |_, _| Ok(None),
    );
    assert!(matches!(result, Ok(None)));
    let bound = 100 + b'b' as u32;

    // A refresh in between goes over the same connections.
    let mut known = KnownPubKeys::new();
    refresh_with(
        &mut s,
        &mut known,
        |_| panic!("there is a connection"),
        |path, _| Ok(if path == B { ids(&["k"]) } else { vec![] }),
    );

    let found = match Signing::begin(&mut known, info()) {
        Step::Return(found) => found,
        other => panic!("{:?}", other),
    };
    match s.sign(&found, Signed::Announced) {
        Step::Perform(SignAction::Sign { path, .. }) => {
            assert_eq!(path, B.to_vec());
            assert_eq!(s.connection_mut(&path), Some(&mut bound.clone()));
        }
        other => panic!("{:?}", other),
    }
}

#[test]
fn sign_without_an_agent() {
    let mut s = session(&[A]);
    let found = find_signer(&mut s, &mut KnownPubKeys::new(), |_| Ok(ids(&["other"])));
    assert!(!found.is_routed());
    for event in [Signed::Begin, Signed::Announced, Signed::Signed { reply: None }] {
        match s.sign(&found, event) {
            Step::Return(Err(MuxError::Other(reason))) => {
                assert_eq!(reason, "No agent found for public key: SHA256:fp")
            }
            other => panic!("{:?}", other),
        }
    }
    assert!(s.is_connected(A));
}

#[test]
fn sign_goes_to_the_agent_that_lists_the_key() {
    let mut s = session(&[A, B, C]);
    let mut known = KnownPubKeys::new();
    let found = find_signer(&mut s, &mut known, |path| {
        Ok(if path == B { ids(&["k"]) } else { ids(&["l"]) })
    });
    assert!(found.is_routed());
    assert_eq!(found.info().request.pubkey, b"k".to_vec());
    assert_eq!(found.info().id, "0123456");
    match s.sign(&found, Signed::Begin) {
        Step::Perform(SignAction::Announce { path, .. }) => assert_eq!(path, B.to_vec()),
        other => panic!("{:?}", other),
    }
    match s.sign(&found, Signed::Announced) {
        Step::Perform(SignAction::Sign { path, .. }) => assert_eq!(path, B.to_vec()),
        other => panic!("{:?}", other),
    }
}

#[test]
fn sign_is_announced() {
    let agent = MuxAgent::new(vec![A.to_vec()]);
    let peer = PeerInfo::new(7, 8, 9, Some("ssh host".to_string()));
    let mut s: MuxSession<u32> = agent.new_session(Some(peer));
    match s.sign(&signing(A), Signed::Begin) {
        Step::Perform(SignAction::Announce { path, title, body }) => {
            assert_eq!(path, A.to_vec());
            assert_eq!(title, "ssh-agent-mux: sign [id 0123456]");
            assert_eq!(body, "key SHA256:fp\npeer pid=7(ssh host) uid=8");
        }
        other => panic!("{:?}", other),
    }
}

#[test]
fn sign_connects_and_keeps_the_connection() {
    let mut s = session(&[A]);
    let job = signing(A);
    match s.sign(&job, Signed::Announced) {
        Step::Perform(SignAction::Connect { path }) => assert_eq!(path, A.to_vec()),
        other => panic!("{:?}", other),
    }
    match s.sign(&job, Signed::Connected { opened: Ok(5) }) {
        Step::Perform(SignAction::Sign { path, .. }) => assert_eq!(path, A.to_vec()),
        other => panic!("{:?}", other),
    }
    assert_eq!(s.connection_mut(A), Some(&mut 5));
    let signed = Signed::Signed {
        reply: Some(Ok("signature")),
    };
    assert!(matches!(
        s.sign(&job, signed),
        Step::Return(Ok("signature"))
    ));
    match s.sign(&job, Signed::Announced) {
        Step::Perform(SignAction::Sign { path, .. }) => assert_eq!(path, A.to_vec()),
        other => panic!("{:?}", other),
    }
    assert_eq!(s.connection_mut(A), Some(&mut 5));
}

#[test]
fn sign_that_cannot_connect() {
    let mut s = session(&[A]);
    let refused = Signed::Connected {
        opened: Err(MuxError::Upstream(13)),
    };
    assert!(matches!(
        s.sign(&signing(A), refused),
        Step::Return(Err(MuxError::Upstream(13)))
    ));
    assert!(!s.is_connected(A));
}

#[test]
fn failed_signing_connects_anew() {
    for reply in [None, Some(Err(MuxError::Upstream(2)))] {
        let timed_out = reply.is_none();
        let mut s = session(&[A, B]);
        let mut known = KnownPubKeys::new();
        refresh_with(&mut s, &mut known, number, |_, _| Ok(vec![]));
        match s.sign(&signing(A), Signed::Signed { reply }) {
            Step::Return(Err(MuxError::Failure)) => assert!(timed_out),
            Step::Return(Err(MuxError::Upstream(2))) => assert!(!timed_out),
            other => panic!("{:?}", other),
        }
        assert!(!s.is_connected(A));
        assert!(s.is_connected(B));
        assert!(matches!(
            s.sign(&signing(A), Signed::Announced),
            Step::Perform(SignAction::Connect { .. })
        ));
    }
}

#[test]
fn naming_a_request() {
    let named = SignInfo::new(request(&[1], b""), "fp".to_string(), "abc".to_string());
    assert_eq!(named.id, "abc");
    assert_eq!(named.request.pubkey, vec![1]);
    assert_eq!(info().id, "0123456");
}

#[test]
fn fingerprint_of_a_key() {
    let mut blob = vec![0, 0, 0, 11];
    blob.extend_from_slice(b"ssh-ed25519");
    blob.extend_from_slice(&[0, 0, 0, 32]);
    blob.extend(1..=32u8);
    let named = SignInfo::of_request(request(&blob, b"hello")).unwrap();
    assert_eq!(named.request.pubkey, blob);
    assert_eq!(
        named.fingerprint,
        "SHA256:mKqU+0K8OhKmA8bBQi9Rz0Q5l7/g160hIP+rJYSTNj4"
    );
    assert_eq!(
        named.hash,
        "2cf24dba5fb0a30e26e83b2ac5b9e29e1b161e5c1fa7425e73043362938b9824"
    );
    assert_eq!(named.id, "2cf24db");
    assert!(SignInfo::of_request(request(b"not a key", b"hello")).is_none());
}

#[test]
fn connections_are_kept_under_any_spelling_of_a_path() {
    let mut s = session(&[b"/run//a.sock", b"/run/b.sock"]);
    let mut known = KnownPubKeys::new();
    refresh_with(&mut s, &mut known, |_| Some(4), |_, _| Ok(ids(&["k1"])));
    assert!(s.is_connected(b"/run/./a.sock"));
    assert_eq!(s.connection_mut(A), Some(&mut 4));
    assert!(!s.is_connected(b"run/a.sock"));
    // A key is led to the path as it is configured.
    let mut one = session(&[b"/run//a.sock"]);
    assert_eq!(
        find(&mut one, &mut KnownPubKeys::new(), b"k1"),
        Some(b"/run//a.sock".to_vec())
    );
    assert!(matches!(
        s.sign(&signing(A), Signed::Announced),
        Step::Perform(SignAction::Sign { .. })
    ));
}

#[test]
fn a_socket_that_is_configured_in_two_spellings() {
    let mut s = session(&[b"/run/a.sock", b"/run//a.sock"]);
    let mut known = KnownPubKeys::new();
    refresh_with(&mut s, &mut known, |_| Some(1), |_, _| Ok(ids(&[])));
    let mut refresh = Refresh::begin(&mut known);
    let sent = contact_all(
        |_| Some(2),
        |event: Event<SocketPath, u32, Listing>| {
            s.refresh_identities(&mut known, &mut refresh, event)
        },
    );
    assert_eq!(
        sent,
        vec![(b"/run/a.sock".to_vec(), 1), (b"/run//a.sock".to_vec(), 2)]
    );
}

#[test]
fn a_key_that_two_agents_list_is_signed_by_the_last() {
    let mut s = session(&[A, B]);
    let mut known = KnownPubKeys::new();
    assert_eq!(find(&mut s, &mut known, b"k1"), Some(B.to_vec()));
    match s.sign(&signing(B), Signed::Announced) {
        Step::Perform(SignAction::Sign { path, .. }) => {
            assert_eq!(s.connection_mut(&path), Some(&mut (b'b' as u32)))
        }
        other => panic!("{:?}", other),
    }
}

#[test]
fn sessions_share_the_known_keys() {
    let agent = MuxAgent::new(vec![A.to_vec()]);
    let mut one: MuxSession<u32> = agent.new_session(None);
    let two: MuxSession<u32> = agent.clone().new_session(None);
    let other: MuxSession<u32> = MuxAgent::new(vec![A.to_vec()]).new_session(None);
    assert!(!two.known_keys().try_lock().unwrap().contains_key(b"k1"));
    let keys = one.known_keys().clone();
    refresh_with(&mut one, &mut keys.try_lock().unwrap(), number, |_, _| {
        Ok(ids(&["k1"]))
    });
    assert_eq!(
        two.known_keys().try_lock().unwrap().get(b"k1"),
        Some(A.to_vec())
    );
    assert!(one.is_connected(A));
    assert!(!two.is_connected(A));
    assert!(!other.known_keys().try_lock().unwrap().contains_key(b"k1"));
}

#[test]
fn a_failing_agent_hides_nothing() {
    let answers = |path: &[u8], _: u32| match path {
        p if p == A => Ok(ids(&["k1", "k2"])),
        p if p == B => Ok(ids(&["k2", "k3"])),
        _ => Err(MuxError::Upstream(1)),
    };
    let mut expected = Vec::new();
    let configured: [&[&[u8]]; 4] = [&[A, B], &[C, A, B], &[A, C, B], &[B, A, C]];
    for paths in configured {
        let mut known = KnownPubKeys::new();
        let mut s = session(paths);
        let mut listed = keys_of(&refresh_with(&mut s, &mut known, number, answers));
        listed.sort();
        if expected.is_empty() {
            expected = listed.clone();
        }
        assert_eq!(listed, expected);
        for key in ["k1", "k2", "k3"] {
            assert!(known.contains_key(key.as_bytes()));
        }
    }
    assert_eq!(expected, vec!["k1", "k2", "k2", "k3"]);
}

#[test]
fn session_bind_goes_over_the_open_connection() {
    let mut s = session(&[A, B]);
    let mut known = KnownPubKeys::new();
    let first = |path: &[u8]| if path == A { Some(11) } else { None };
    refresh_with(&mut s, &mut known, first, |_, _| Ok(vec![]));
    let result = bind_with(
        &mut s,
        |path| {
            assert_eq!(path, B);
            Some(12)
        },
        |path, client| {
            assert_eq!(client, if path == A { 11 } else { 12 });
            Ok(None)
        },
    );
    assert!(matches!(result, Ok(None)));
    assert_eq!(s.connection_mut(A), Some(&mut 11));
}

#[test]
fn a_refresh_asks_for_identities() {
    let mut s = session(&[A, B]);
    let mut known = KnownPubKeys::new();
    for _ in 0..2 {
        let mut refresh = Refresh::begin(&mut known);
        let sent = send_all(
            number,
            |request| assert!(matches!(request, Request::Identities { limit: 10 })),
            |event: Event<SocketPath, u32, Listing>| {
                s.refresh_identities(&mut known, &mut refresh, event)
            },
        );
        assert_eq!(sent.len(), 2);
    }
}

#[test]
fn session_bind_forwards_the_request() {
    let mut s = session(&[A, B]);
    refresh_with(&mut s, &mut KnownPubKeys::new(), number, |path, _| {
        if path == A {
            Ok(vec![])
        } else {
            Err(MuxError::Failure)
        }
    });
    let mut bind = begin_bind(&s);
    let sent = send_all(
        number,
        |request| match request {
            Request::SessionBind { details, limit } => {
                assert_eq!(details, &vec![1, 2, 3]);
                assert_eq!(*limit, 30);
            }
            other => panic!("{:?}", other),
        },
        |event: Event<SocketPath, u32, Binding>| s.session_bind(&mut bind, event),
    );
    assert_eq!(sent.len(), 2);
}

#[test]
fn sign_sends_the_request() {
    let mut s = session(&[A]);
    let job = signing(A);
    let opened = Signed::Connected { opened: Ok(1) };
    for event in [opened, Signed::Announced] {
        match s.sign(&job, event) {
            Step::Perform(SignAction::Sign {
                path,
                request,
                limit,
            }) => {
                assert_eq!(path, A.to_vec());
                assert_eq!(request.pubkey, b"k".to_vec());
                assert_eq!(request.data, b"data".to_vec());
                assert_eq!(request.flags, 2);
                assert_eq!(limit, 60);
            }
            other => panic!("{:?}", other),
        }
    }
}

#[test]
fn a_lost_task_hides_nothing_of_the_others() {
    let mut s = session(&[A, B]);
    let mut known = KnownPubKeys::new();
    let mut refresh = Refresh::begin(&mut known);
    let sent = contact_all(number, |event: Event<SocketPath, u32, Listing>| {
        s.refresh_identities(&mut known, &mut refresh, event)
    });
    let (path, client) = sent[1].clone();
    let answer: Event<SocketPath, u32, Listing> = Event::Answered {
        path,
        client,
        reply: Ok(ids(&["k1", "k2"])),
    };
    for event in [Event::Lost, answer] {
        assert!(matches!(
            s.refresh_identities(&mut known, &mut refresh, event),
            Step::Perform(Action::Collect)
        ));
    }
    let end: Event<SocketPath, u32, Listing> = Event::Drained;
    match s.refresh_identities(&mut known, &mut refresh, end) {
        Step::Return(ids) => assert_eq!(keys_of(&ids), vec!["k1", "k2"]),
        other => panic!("{:?}", other),
    }
    assert_eq!(known.get(b"k2"), Some(B.to_vec()));
    assert!(!s.is_connected(A));
}
