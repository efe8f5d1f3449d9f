//! What requests, replies and answers stand for: nothing is lost between the
//! values that come in or go out and what the operations are said to do with
//! them.
use vstd::prelude::*;
use crate::paths::path_key;
use crate::peer::PeerInfo;
use crate::proto::{
    connected, identity_views, result_view, ConnectOutcome, Extension, Identity, IdentityView,
    MuxError, Request, SignRequest, SocketPath,
};
use crate::session::{
    bind_next, bind_reply, bind_step_is, event_view, listing, listing_request, listing_step, path_step,
    path_views, peer_text, refresh_next, sign_event, sign_step, Action, BindState, Event, RefreshState,
    SignAction, SignEvent,
};
use crate::step::Step;
use crate::text::utf8_lossy;

verus! {

// ---------------------------------------------------------------------------
// Values
// ---------------------------------------------------------------------------
/// A list of identities is read whole: each one, in its place, with its key and
/// its comment.
pub proof fn identities_are_read_whole(ids: Seq<Identity>)
    ensures
        identity_views(ids).len() == ids.len(),
        forall|i: int|
            0 <= i < ids.len() ==> (#[trigger] identity_views(ids)[i]).pubkey == ids[i].pubkey@
                && identity_views(ids)[i].comment == ids[i].comment@,
{
}

/// The configured sockets are read whole: each one, in its place.
pub proof fn paths_are_read_whole(paths: Seq<SocketPath>)
    ensures
        path_views(paths).len() == paths.len(),
        forall|i: int| 0 <= i < paths.len() ==> #[trigger] path_views(paths)[i] == paths[i]@,
{
}

/// Requests are read whole.
pub proof fn requests_are_read_whole(details: Vec<u8>, limit: u64, sign: SignRequest<Vec<u8>>)
    ensures
        (Request::<Vec<u8>>::Identities { limit })@ == (Request::<Seq<u8>>::Identities { limit }),
        (Request::SessionBind { details, limit })@ == (Request::SessionBind {
            details: details@,
            limit,
        }),
        sign@.pubkey == sign.pubkey@,
        sign@.data == sign.data@,
        sign@.flags == sign.flags,
        (Request::<Vec<u8>>::Identities { limit }).time_limit() == limit,
        (Request::SessionBind { details, limit }).time_limit() == limit,
{
}

/// An agent has ten seconds to list its identities.
pub proof fn listing_takes_ten_seconds_at_most()
    ensures
        listing_request() == (Request::<Seq<u8>>::Identities { limit: 10 }),
{
}

/// What is asked for is what is handed out: the same socket, the same
/// connection and the same request.
pub proof fn actions_are_read_whole<C>(path: SocketPath, client: C, request: Request<Vec<u8>>)
    ensures
        (Action::<SocketPath, C>::Connect { path })@ == (Action::<Seq<u8>, C>::Connect {
            path: path@,
        }),
        (Action::Send { path, client, request })@ == (Action::Send {
            path: path@,
            client,
            request: request@,
        }),
        (Action::<SocketPath, C>::Collect)@ == Action::<Seq<u8>, C>::Collect,
{
}

/// Events are read whole: the same socket, the same connection, and whatever
/// the reply amounts to.
pub proof fn events_are_read_whole<C, R, V>(
    path: SocketPath,
    opened: Option<C>,
    client: C,
    reply: R,
    read: spec_fn(R) -> V,
)
    ensures
        event_view(Event::<SocketPath, C, R>::Proceed, read) == Event::<Seq<u8>, C, V>::Proceed,
        event_view(Event::<SocketPath, C, R>::Connected { path, opened }, read) == (Event::<
            Seq<u8>,
            C,
            V,
        >::Connected { path: path@, opened }),
        event_view(Event::Answered { path, client, reply }, read) == (Event::Answered {
            path: path@,
            client,
            reply: read(reply),
        }),
        event_view(Event::<SocketPath, C, R>::Lost, read) == Event::<Seq<u8>, C, V>::Lost,
        event_view(Event::<SocketPath, C, R>::Drained, read) == Event::<Seq<u8>, C, V>::Drained,
{
}

/// Results and errors are handed on unchanged.
pub proof fn results_are_handed_on<T, E>(value: T, reason: String, upstream: E)
    ensures
        result_view(Ok::<T, MuxError<E, String>>(value)) == Ok::<T, MuxError<E, Seq<char>>>(value),
        result_view(Err::<T, MuxError<E, String>>(MuxError::Failure)) == Err::<
            T,
            MuxError<E, Seq<char>>,
        >(MuxError::Failure),
        result_view(Err::<T, MuxError<E, String>>(MuxError::Other(reason))) == Err::<
            T,
            MuxError<E, Seq<char>>,
        >(MuxError::Other(reason@)),
        result_view(Err::<T, MuxError<E, String>>(MuxError::Upstream(upstream))) == Err::<
            T,
            MuxError<E, Seq<char>>,
        >(MuxError::Upstream(upstream)),
{
}

/// A connection is used as it was opened, a refusal is handed on, and one that
/// took too long is reported with the socket.
pub proof fn connecting_has_three_outcomes<C, E>(path: Seq<u8>, client: C, refusal: E)
    ensures
        connected(path, ConnectOutcome::<C, E>::Connected(client)) == Ok::<
            C,
            MuxError<E, Seq<char>>,
        >(client),
        connected(path, ConnectOutcome::<C, E>::Refused(refusal)) == Err::<
            C,
            MuxError<E, Seq<char>>,
        >(MuxError::Upstream(refusal)),
        connected(path, ConnectOutcome::<C, E>::TimedOut) == Err::<C, MuxError<E, Seq<char>>>(
            MuxError::Other("Timeout connecting to agent at "@ + utf8_lossy(path)),
        ),
{
}

/// A client is shown as it displays itself, and as `<unknown>` when it is not
/// known.
pub proof fn client_is_shown(peer: PeerInfo)
    ensures
        peer_text(Some(peer)) == peer.display_text(),
        peer_text(None) == "<unknown>"@,
{
}

/// What a listing or a search returns is what is handed out.
pub proof fn answers_are_handed_out_whole<C>(
    action: Action<SocketPath, C>,
    ids: Vec<Identity>,
    path: SocketPath,
)
    ensures
        listing_step(Step::<Action<SocketPath, C>, Vec<Identity>>::Perform(action)) == Step::<
            Action<Seq<u8>, C>,
            Seq<IdentityView>,
        >::Perform(action@),
        ({
            let step = listing_step(Step::<Action<SocketPath, C>, Vec<Identity>>::Return(ids));
            &&& step matches Step::Return(listed) && listed.len() == ids@.len()
            &&& forall|i: int|
                0 <= i < ids@.len() ==> (#[trigger] step->Return_0[i]).pubkey == ids@[i].pubkey@
                    && step->Return_0[i].comment == ids@[i].comment@
        }),
        path_step(Step::<Action<SocketPath, C>, Option<SocketPath>>::Perform(action)) == Step::<
            Action<Seq<u8>, C>,
            Option<Seq<u8>>,
        >::Perform(action@),
        path_step(Step::<Action<SocketPath, C>, Option<SocketPath>>::Return(Some(path))) == Step::<
            Action<Seq<u8>, C>,
            Option<Seq<u8>>,
        >::Return(Some(path@)),
        path_step(Step::<Action<SocketPath, C>, Option<SocketPath>>::Return(None)) == Step::<
            Action<Seq<u8>, C>,
            Option<Seq<u8>>,
        >::Return(None),
{
}

/// What happens in signing is read whole.
pub proof fn sign_events_are_read_whole<C, E, S>(
    client: C,
    signature: S,
    error: MuxError<E, String>,
)
    ensures
        sign_event(SignEvent::<String, C, E, S>::Begin) == SignEvent::<Seq<char>, C, E, S>::Begin,
        sign_event(SignEvent::<String, C, E, S>::Announced) == SignEvent::<
            Seq<char>,
            C,
            E,
            S,
        >::Announced,
        sign_event(SignEvent::<String, C, E, S>::Connected { opened: Ok(client) }) == (SignEvent::<
            Seq<char>,
            C,
            E,
            S,
        >::Connected { opened: Ok(client) }),
        sign_event(SignEvent::<String, C, E, S>::Connected { opened: Err(error) }) == (SignEvent::<
            Seq<char>,
            C,
            E,
            S,
        >::Connected { opened: Err(error@) }),
        sign_event(SignEvent::<String, C, E, S>::Signed { reply: Some(Ok(signature)) }) == (
        SignEvent::<Seq<char>, C, E, S>::Signed { reply: Some(Ok(signature)) }),
        sign_event(SignEvent::<String, C, E, S>::Signed { reply: Some(Err(error)) }) == (
        SignEvent::<Seq<char>, C, E, S>::Signed { reply: Some(Err(error@)) }),
        sign_event(SignEvent::<String, C, E, S>::Signed { reply: None }) == (SignEvent::<
            Seq<char>,
            C,
            E,
            S,
        >::Signed { reply: None }),
{
}

/// What signing asks for and returns is what is handed out.
pub proof fn sign_steps_are_handed_out_whole<E, S>(
    path: SocketPath,
    title: String,
    body: String,
    request: SignRequest<Vec<u8>>,
    limit: u64,
    signature: S,
    error: MuxError<E, String>,
)
    ensures
        sign_step::<E, S>(Step::Perform(SignAction::Announce { path, title, body })) == Step::<
            SignAction<Seq<u8>, Seq<char>>,
            Result<S, MuxError<E, Seq<char>>>,
        >::Perform(SignAction::Announce { path: path@, title: title@, body: body@ }),
        sign_step::<E, S>(Step::Perform(SignAction::Connect { path })) == Step::<
            SignAction<Seq<u8>, Seq<char>>,
            Result<S, MuxError<E, Seq<char>>>,
        >::Perform(SignAction::Connect { path: path@ }),
        sign_step::<E, S>(Step::Perform(SignAction::Sign { path, request, limit })) == Step::<
            SignAction<Seq<u8>, Seq<char>>,
            Result<S, MuxError<E, Seq<char>>>,
        >::Perform(SignAction::Sign { path: path@, request: request@, limit }),
        sign_step::<E, S>(Step::Return(Ok(signature))) == Step::<
            SignAction<Seq<u8>, Seq<char>>,
            Result<S, MuxError<E, Seq<char>>>,
        >::Return(Ok(signature)),
        sign_step::<E, S>(Step::Return(Err(error))) == Step::<
            SignAction<Seq<u8>, Seq<char>>,
            Result<S, MuxError<E, Seq<char>>>,
        >::Return(Err(error@)),
{
}

// ---------------------------------------------------------------------------
// Replies
// ---------------------------------------------------------------------------
/// Everything that an agent lists is taken over. Behind the identities listed
/// so far come all those of the reply, each with its key and its comment; each
/// of their keys is known and leads to the agent; what is known of other keys
/// stays; and the connection is kept. A reply that is an error changes nothing
/// and keeps nothing. The agents have all been contacted, as they have when
/// replies come.
pub proof fn listings_are_taken_over_whole<C, E>(
    paths: Seq<Seq<u8>>,
    s: RefreshState<C>,
    path: SocketPath,
    client: C,
    reply: Result<Vec<Identity>, MuxError<E, String>>,
    key: Seq<u8>,
)
    requires
        s.next >= paths.len(),
    ensures
        ({
            let event = event_view(
                Event::Answered { path, client, reply },
                |r: Result<Vec<Identity>, MuxError<E, String>>| listing(r),
            );
            let (after, step) = refresh_next(paths, s, event);
            &&& step == Step::<Action<Seq<u8>, C>, Seq<IdentityView>>::Perform(Action::Collect)
            &&& after.next == s.next
            &&& reply matches Ok(ids) ==> {
                let n = s.identities.len();
                &&& after.identities.len() == n + ids@.len()
                &&& forall|i: int|
                    0 <= i < n ==> #[trigger] after.identities[i] == s.identities[i]
                &&& forall|i: int| #![trigger ids@[i]]
                    0 <= i < ids@.len() ==> after.identities[n + i].pubkey == ids@[i].pubkey@
                        && after.identities[n + i].comment == ids@[i].comment@
                &&& forall|i: int| #![trigger ids@[i]]
                    0 <= i < ids@.len() ==> after.known.contains_key(ids@[i].pubkey@)
                        && after.known[ids@[i].pubkey@] == path@
                &&& (forall|i: int| #![trigger ids@[i]]
                    0 <= i < ids@.len() ==> ids@[i].pubkey@ != key) ==> {
                    &&& after.known.contains_key(key) == s.known.contains_key(key)
                    &&& s.known.contains_key(key) ==> after.known[key] == s.known[key]
                }
                &&& after.connections == s.connections.insert(path_key(path@), client)
            }
            &&& reply is Err ==> after == s
        }),
{
    match reply {
        Ok(ids) => {
            let views = identity_views(ids@);
            crate::known_keys::all_listed_keys_lead_there(s.known, path@, views, key);
            let event = event_view(
                Event::Answered { path, client, reply },
                |r: Result<Vec<Identity>, MuxError<E, String>>| listing(r),
            );
            let after = refresh_next(paths, s, event).0;
            assert forall|i: int| #![trigger ids@[i]] 0 <= i < ids@.len() implies {
                &&& after.identities[s.identities.len() + i].pubkey == ids@[i].pubkey@
                &&& after.identities[s.identities.len() + i].comment == ids@[i].comment@
                &&& after.known.contains_key(ids@[i].pubkey@)
                &&& after.known[ids@[i].pubkey@] == path@
            } by {
                assert(views[i].pubkey == ids@[i].pubkey@);
            }
            if forall|i: int| #![trigger ids@[i]]
                0 <= i < ids@.len() ==> ids@[i].pubkey@ != key {
                assert forall|i: int| 0 <= i < views.len() implies (#[trigger] views[i]).pubkey
                    != key by {
                    assert(ids@[i].pubkey@ != key);
                }
            }
        },
        Err(_) => {},
    }
}

/// A refresh returns the identities listed so far, all of them and in order.
pub proof fn listed_identities_are_returned<C>(
    paths: Seq<Seq<u8>>,
    s: RefreshState<C>,
    step: Step<Action<SocketPath, C>, Vec<Identity>>,
)
    requires
        listing_step(step) == refresh_next(paths, s, Event::Drained).1,
    ensures
        step matches Step::Return(ids) && ids@.len() == s.identities.len(),
        forall|i: int|
            0 <= i < s.identities.len() ==> (#[trigger] step->Return_0@[i]).pubkey@
                == s.identities[i].pubkey && step->Return_0@[i].comment@ == s.identities[i].comment,
{
    match step {
        Step::Return(ids) => {
            assert forall|i: int| 0 <= i < s.identities.len() implies (#[trigger] ids@[i]).pubkey@
                == s.identities[i].pubkey && ids@[i].comment@ == s.identities[i].comment by {
                assert(identity_views(ids@)[i] == s.identities[i]);
            }
        },
        Step::Perform(_) => {},
    }
}

/// Any acceptance counts, with or without data, and keeps the connection; the
/// plain failure keeps the connection and counts for nothing; any other error
/// does neither. The agents have all been contacted.
pub proof fn bind_replies_are_told_apart<C, E>(
    paths: Seq<Seq<u8>>,
    s: BindState<C>,
    path: SocketPath,
    client: C,
    reply: Result<Option<Extension>, MuxError<E, String>>,
)
    requires
        s.next >= paths.len(),
    ensures
        ({
            let event = event_view(
                Event::Answered { path, client, reply },
                |r: Result<Option<Extension>, MuxError<E, String>>| bind_reply(r),
            );
            let (after, step) = bind_next(paths, s, event);
            let kept = s.connections.insert(path_key(path@), client);
            &&& step == Step::<Action<Seq<u8>, C>, bool>::Perform(Action::Collect)
            &&& after.next == s.next && after.request == s.request
            &&& reply is Ok ==> after.any_succeeded && after.connections == kept
            &&& reply matches Err(MuxError::Failure) ==> after.any_succeeded == s.any_succeeded
                && after.connections == kept
            &&& reply matches Err(e) ==> e !is Failure ==> after == s
        }),
{
}

/// The client is told of success, without data, exactly when an agent has
/// accepted, and of the plain failure otherwise.
pub proof fn bind_outcome_is_reported<C, E>(
    paths: Seq<Seq<u8>>,
    s: BindState<C>,
    step: Step<Action<SocketPath, C>, Result<Option<Extension>, MuxError<E, String>>>,
)
    requires
        bind_step_is(step, bind_next(paths, s, Event::Drained).1),
    ensures
        s.any_succeeded ==> step == Step::<
            Action<SocketPath, C>,
            Result<Option<Extension>, MuxError<E, String>>,
        >::Return(Ok(None)),
        !s.any_succeeded ==> step == Step::<
            Action<SocketPath, C>,
            Result<Option<Extension>, MuxError<E, String>>,
        >::Return(Err(MuxError::Failure)),
{
}

/// While a session-bind goes on, what is asked for is what is handed out.
pub proof fn bind_actions_are_handed_out<C, E>(
    step: Step<Action<SocketPath, C>, Result<Option<Extension>, MuxError<E, String>>>,
    action: Action<Seq<u8>, C>,
)
    requires
        bind_step_is(step, Step::Perform(action)),
    ensures
        step matches Step::Perform(a) && a@ == action,
{
}

} // verus!
