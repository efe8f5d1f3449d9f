//! Signing.
use vstd::prelude::*;
use crate::laws::bind::{
    bind_driven, bind_run, bind_start, bound_connection_is_kept, sound_answer_from,
};
use crate::laws::fan::{configured_key, connected_within, is_configured_once};
use crate::laws::refresh::{
    binding_survives_a_refresh, event_lists, refresh_driven, refresh_knows_the_listed_keys,
    refresh_run, refresh_start, routes_are_connected,
};
use crate::paths::path_key;
use crate::proto::{IdentityView, MuxError, Request, SocketPath, SIGN_TIMEOUT};
use crate::session::{
    find_step, peer_text, search_step_is, send_request, sign_next, Action, BindEvent, Event,
    ListingEvent, MuxSession, SignAction, SignContext, SignEvent, SignInfo, Signing,
};
use crate::step::Step;

verus! {

// ---------------------------------------------------------------------------
// Runs
// ---------------------------------------------------------------------------
/// What a step of signing amounts to.
pub type SigningStep<E, S> = Step<
    SignAction<Seq<u8>, Seq<char>>,
    Result<S, MuxError<E, Seq<char>>>,
>;

/// The open connections after a run of events.
pub open spec fn sign_run<C, E, S>(
    context: SignContext,
    connections: Map<Seq<u8>, C>,
    events: Seq<SignEvent<Seq<char>, C, E, S>>,
) -> Map<Seq<u8>, C>
    decreases events.len(),
{
    if events.len() == 0 {
        connections
    } else {
        sign_next(context, sign_run(context, connections, events.drop_last()), events.last()).0
    }
}

/// The steps of signing on a run of events.
pub open spec fn sign_steps<C, E, S>(
    context: SignContext,
    connections: Map<Seq<u8>, C>,
    events: Seq<SignEvent<Seq<char>, C, E, S>>,
) -> Seq<SigningStep<E, S>>
    decreases events.len(),
{
    if events.len() == 0 {
        Seq::empty()
    } else {
        let before = events.drop_last();
        sign_steps(context, connections, before).push(
            sign_next(context, sign_run(context, connections, before), events.last()).1,
        )
    }
}

/// The socket that an action is about.
pub open spec fn sign_action_path(action: SignAction<Seq<u8>, Seq<char>>) -> Seq<u8> {
    match action {
        SignAction::Announce { path, .. } => path,
        SignAction::Connect { path } => path,
        SignAction::Sign { path, .. } => path,
    }
}

/// The step that sends the request over the open connection to `path`.
pub open spec fn signs_at<E, S>(context: SignContext, path: Seq<u8>) -> SigningStep<E, S> {
    Step::Perform(send_request(context, path))
}

// ---------------------------------------------------------------------------
// Where a request goes
// ---------------------------------------------------------------------------
/// Where a key is led to.
pub open spec fn route_of(known: Map<Seq<u8>, Seq<u8>>, key: Seq<u8>) -> Option<Seq<u8>> {
    if known.contains_key(key) {
        Some(known[key])
    } else {
        None
    }
}

/// The agent that is known to hold the key is the one that is asked for the
/// signature. Without such an agent nothing is done, and the answer says so.
pub proof fn request_goes_to_the_agent_of_the_key<C, E, S>(
    known: Map<Seq<u8>, Seq<u8>>,
    context: SignContext,
    connections: Map<Seq<u8>, C>,
    event: SignEvent<Seq<char>, C, E, S>,
)
    requires
        context.route == route_of(known, context.request.pubkey),
    ensures
        ({
            let key = context.request.pubkey;
            let (after, step) = sign_next(context, connections, event);
            &&& step matches Step::Perform(action) ==> known.contains_key(key) && sign_action_path(
                action,
            ) == known[key]
            &&& !known.contains_key(key) ==> after == connections && step == SigningStep::<
                E,
                S,
            >::Return(
                Err(MuxError::Other("No agent found for public key: "@ + context.fingerprint)),
            )
        }),
{
}

/// What the agent is asked to sign is the very request that came in.
pub proof fn agent_gets_the_sign_request<C, E, S>(
    context: SignContext,
    connections: Map<Seq<u8>, C>,
    event: SignEvent<Seq<char>, C, E, S>,
)
    ensures
        sign_next(context, connections, event).1 matches Step::Perform(
            SignAction::Sign { request, limit, .. },
        ) ==> request == context.request && limit == SIGN_TIMEOUT,
{
}

/// A request is sent only over a connection that is open.
pub proof fn signing_goes_over_an_open_connection<C, E, S>(
    context: SignContext,
    connections: Map<Seq<u8>, C>,
    event: SignEvent<Seq<char>, C, E, S>,
)
    ensures
        ({
            let (after, step) = sign_next(context, connections, event);
            step matches Step::Perform(SignAction::Sign { path, .. }) ==> after.contains_key(
                path_key(path),
            )
        }),
{
}

/// Whether every step goes to configured agents only.
pub open spec fn sign_steps_within<E, S>(
    paths: Seq<Seq<u8>>,
    steps: Seq<SigningStep<E, S>>,
) -> bool {
    forall|i: int| 0 <= i < steps.len() ==> sign_step_within(paths, #[trigger] steps[i])
}

/// Whether a step goes to configured agents only.
pub open spec fn sign_step_within<E, S>(paths: Seq<Seq<u8>>, step: SigningStep<E, S>) -> bool {
    step matches Step::Perform(action) ==> paths.contains(sign_action_path(action))
}

/// Signing with a key that is led to a configured agent goes to configured
/// agents only and keeps connections to no others.
pub proof fn signing_stays_within_configured_agents<C, E, S>(
    paths: Seq<Seq<u8>>,
    context: SignContext,
    connections: Map<Seq<u8>, C>,
    events: Seq<SignEvent<Seq<char>, C, E, S>>,
)
    requires
        connected_within(paths, connections),
        context.route matches Some(path) ==> paths.contains(path),
    ensures
        connected_within(paths, sign_run(context, connections, events)),
        sign_steps_within(paths, sign_steps(context, connections, events)),
    decreases events.len(),
{
    if events.len() > 0 {
        let before = events.drop_last();
        signing_stays_within_configured_agents(paths, context, connections, before);
        match context.route {
            Some(path) => {
                configured_key(paths, path);
            },
            None => {},
        }
        let steps = sign_steps(context, connections, before);
        let all = sign_steps(context, connections, events);
        assert forall|i: int| 0 <= i < all.len() implies sign_step_within(
            paths,
            #[trigger] all[i],
        ) by {
            if i < steps.len() {
                assert(all[i] == steps[i]);
            }
        }
    }
}

// ---------------------------------------------------------------------------
// Over which connection
// ---------------------------------------------------------------------------
/// Signing with a key that an agent has just listed goes to an agent over a
/// connection that its list came back over, without connecting anew.
pub proof fn listed_key_is_signed_at_once<C, E, S>(
    paths: Seq<Seq<u8>>,
    connections: Map<Seq<u8>, C>,
    events: Seq<ListingEvent<C>>,
    i: int,
    context: SignContext,
)
    requires
        refresh_driven(paths, refresh_start(connections), events),
        0 <= i < events.len(),
        event_lists(events[i], context.request.pubkey),
        context.route == route_of(
            refresh_run(paths, refresh_start(connections), events).known,
            context.request.pubkey,
        ),
    ensures
        ({
            let key = context.request.pubkey;
            let s = refresh_run(paths, refresh_start(connections), events);
            &&& s.known.contains_key(key)
            &&& s.connections.contains_key(path_key(s.known[key]))
            &&& sign_next::<C, E, S>(context, s.connections, SignEvent::Announced) == (
                s.connections,
                signs_at::<E, S>(context, s.known[key]),
            )
        }),
{
    refresh_knows_the_listed_keys(paths, connections, events, context.request.pubkey);
    routes_are_connected(paths, connections, events, context.request.pubkey);
}

/// Session-bind followed by sign go through the same upstream connection, so
/// that the binding is retained for the signature: once the agent at `path`
/// has answered over its connection, signing there uses that connection and
/// opens no other.
pub proof fn bound_connection_is_used_to_sign<C, E, S>(
    paths: Seq<Seq<u8>>,
    connections: Map<Seq<u8>, C>,
    request: Request<Seq<u8>>,
    events: Seq<BindEvent<C>>,
    path: Seq<u8>,
    i: int,
    context: SignContext,
)
    requires
        bind_driven(paths, bind_start(connections, request), events),
        0 <= i < events.len(),
        sound_answer_from(events[i], path_key(path)),
        forall|j: int|
            i < j < events.len() ==> !sound_answer_from(#[trigger] events[j], path_key(path)),
        context.route == Some(path),
    ensures
        ({
            let after = bind_run(paths, bind_start(connections, request), events).connections;
            &&& after.contains_key(path_key(path))
            &&& events[i] matches Event::Answered { client, .. } && after[path_key(path)] == client
            &&& sign_next::<C, E, S>(context, after, SignEvent::Announced) == (
                after,
                signs_at::<E, S>(context, path),
            )
        }),
{
    bound_connection_is_kept(paths, connections, request, events, path_key(path), i);
}

/// Session-bind, then a refresh, then sign: the signature is asked for over the
/// very connection over which the agent has accepted the binding, when that
/// agent turns out to hold the key. The agent is one that is configured once.
pub proof fn bound_connection_signs_after_a_refresh<C, E, S>(
    paths: Seq<Seq<u8>>,
    connections: Map<Seq<u8>, C>,
    request: Request<Seq<u8>>,
    binds: Seq<BindEvent<C>>,
    i: int,
    lists: Seq<ListingEvent<C>>,
    k: int,
    context: SignContext,
)
    requires
        is_configured_once(paths, k),
        bind_driven(paths, bind_start(connections, request), binds),
        0 <= i < binds.len(),
        sound_answer_from(binds[i], path_key(paths[k])),
        forall|j: int|
            i < j < binds.len() ==> !sound_answer_from(#[trigger] binds[j], path_key(paths[k])),
        ({
            let key = context.request.pubkey;
            let bound = bind_run(paths, bind_start(connections, request), binds).connections;
            let s = refresh_run(paths, refresh_start(bound), lists);
            &&& refresh_driven(paths, refresh_start(bound), lists)
            &&& s.known.contains_key(key)
            &&& path_key(s.known[key]) == path_key(paths[k])
            &&& context.route == route_of(s.known, key)
        }),
    ensures
        ({
            let key = context.request.pubkey;
            let bound = bind_run(paths, bind_start(connections, request), binds).connections;
            let s = refresh_run(paths, refresh_start(bound), lists);
            let place = path_key(s.known[key]);
            &&& s.connections.contains_key(place)
            &&& binds[i] matches Event::Answered { client, .. } && s.connections[place] == client
            &&& sign_next::<C, E, S>(context, s.connections, SignEvent::Announced) == (
                s.connections,
                signs_at::<E, S>(context, s.known[key]),
            )
        }),
{
    let bound = bind_run(paths, bind_start(connections, request), binds).connections;
    bound_connection_is_kept(paths, connections, request, binds, path_key(paths[k]), i);
    routes_are_connected(paths, bound, lists, context.request.pubkey);
    binding_survives_a_refresh(paths, bound, lists, k);
}

/// A connection that has served for one signature serves for the next one.
pub proof fn signing_keeps_the_connection<C, E, S>(
    context: SignContext,
    connections: Map<Seq<u8>, C>,
    path: Seq<u8>,
    signature: S,
)
    requires
        context.route == Some(path),
        connections.contains_key(path_key(path)),
    ensures
        ({
            let (after, step) = sign_next::<C, E, S>(
                context,
                connections,
                SignEvent::Signed { reply: Some(Ok(signature)) },
            );
            &&& step == SigningStep::<E, S>::Return(Ok(signature))
            &&& sign_next::<C, E, S>(context, after, SignEvent::Announced) == (
                connections,
                signs_at::<E, S>(context, path),
            )
        }),
{
}

/// After signing over a connection failed or timed out, that connection and no
/// other is gone, and the next request to that agent connects anew.
pub proof fn failed_signing_connects_anew<C, E, S>(
    context: SignContext,
    connections: Map<Seq<u8>, C>,
    path: Seq<u8>,
    reply: Option<Result<S, MuxError<E, Seq<char>>>>,
)
    requires
        context.route == Some(path),
        reply is None || reply->0 is Err,
    ensures
        ({
            let (after, step) = sign_next::<C, E, S>(
                context,
                connections,
                SignEvent::Signed { reply },
            );
            &&& step matches Step::Return(Err(e)) && e == (match reply {
                Some(Err(given)) => given,
                _ => MuxError::Failure,
            })
            &&& after == connections.remove(path_key(path))
            &&& sign_next::<C, E, S>(context, after, SignEvent::Announced).1 == SigningStep::<
                E,
                S,
            >::Perform(SignAction::Connect { path })
        }),
{
}

// ---------------------------------------------------------------------------
// From the request to the signature
// ---------------------------------------------------------------------------
/// Whether an event may come after these steps: signing begins once, and what
/// is reported is what the last step asked for.
pub open spec fn sign_may_follow<C, E, S>(
    event: SignEvent<Seq<char>, C, E, S>,
    steps: Seq<SigningStep<E, S>>,
) -> bool {
    match event {
        SignEvent::Begin => steps.len() == 0,
        SignEvent::Announced => steps.len() > 0 && (steps.last() matches Step::Perform(
            SignAction::Announce { .. },
        )),
        SignEvent::Connected { .. } => steps.len() > 0 && (steps.last() matches Step::Perform(
            SignAction::Connect { .. },
        )),
        SignEvent::Signed { .. } => steps.len() > 0 && (steps.last() matches Step::Perform(
            SignAction::Sign { .. },
        )),
    }
}

/// Whether signing is driven.
pub open spec fn sign_driven<C, E, S>(
    context: SignContext,
    connections: Map<Seq<u8>, C>,
    events: Seq<SignEvent<Seq<char>, C, E, S>>,
) -> bool
    decreases events.len(),
{
    events.len() > 0 ==> sign_driven(context, connections, events.drop_last()) && sign_may_follow(
        events.last(),
        sign_steps(context, connections, events.drop_last()),
    )
}

/// How often a request is sent.
pub open spec fn sign_requests<E, S>(steps: Seq<SigningStep<E, S>>) -> nat
    decreases steps.len(),
{
    if steps.len() == 0 {
        0
    } else {
        sign_requests(steps.drop_last()) + if steps.last() matches Step::Perform(
            SignAction::Sign { .. },
        ) {
            1nat
        } else {
            0nat
        }
    }
}

/// A request with an agent goes through, whatever it is. It is announced; then
/// sent to that agent, once, over the open connection or a new one; and what is
/// returned is the agent's reply, or the plain failure when none came in time.
/// It is returned without being sent only when connecting failed, and then with
/// that error. As long as nothing is returned, the next thing is asked for.
pub proof fn request_is_sent_and_the_reply_returned<C, E, S>(
    context: SignContext,
    path: Seq<u8>,
    connections: Map<Seq<u8>, C>,
    events: Seq<SignEvent<Seq<char>, C, E, S>>,
)
    requires
        context.route == Some(path),
        sign_driven(context, connections, events),
        events.len() > 0,
    ensures
        ({
            let steps = sign_steps(context, connections, events);
            let n = sign_requests(steps);
            &&& steps.len() == events.len()
            &&& events[0] == SignEvent::<Seq<char>, C, E, S>::Begin
            &&& steps[0] == SigningStep::<E, S>::Perform(
                SignAction::Announce {
                    path,
                    title: "ssh-agent-mux: sign [id "@ + context.id + "]"@,
                    body: "key "@ + context.fingerprint + "\npeer "@ + context.peer,
                },
            )
            &&& match steps.last() {
                Step::Return(result) => match events.last() {
                    SignEvent::Connected { opened: Err(e) } => n == 0 && result == Err::<
                        S,
                        MuxError<E, Seq<char>>,
                    >(e),
                    SignEvent::Signed { reply } => n == 1 && result == (match reply {
                        Some(given) => given,
                        None => Err(MuxError::Failure),
                    }),
                    _ => false,
                },
                Step::Perform(SignAction::Announce { path: p, .. }) => n == 0 && p == path
                    && events.last() is Begin,
                Step::Perform(SignAction::Connect { path: p }) => n == 0 && p == path
                    && events.last() is Announced && !connections.contains_key(path_key(path)),
                Step::Perform(SignAction::Sign { path: p, request, limit }) => n == 1 && p == path
                    && request.pubkey == context.request.pubkey && request.data
                    == context.request.data && request.flags == context.request.flags && limit
                    == 60,
            }
        }),
    decreases events.len(),
{
    let before = events.drop_last();
    let steps = sign_steps(context, connections, before);
    let all = sign_steps(context, connections, events);
    assert(all.drop_last() =~= steps);
    lemma_connections_while_signing(context, path, connections, before);
    if before.len() > 0 {
        request_is_sent_and_the_reply_returned(context, path, connections, before);
        assert(events[0] == before[0]);
        assert(all[0] == steps[0]);
    } else {
        assert(steps.len() == 0);
        assert(sign_requests(steps) == 0);
    }
}

proof fn lemma_connections_while_signing<C, E, S>(
    context: SignContext,
    path: Seq<u8>,
    connections: Map<Seq<u8>, C>,
    events: Seq<SignEvent<Seq<char>, C, E, S>>,
)
    requires
        context.route == Some(path),
        sign_driven(context, connections, events),
    ensures
        ({
            let steps = sign_steps(context, connections, events);
            &&& steps.len() == events.len()
            &&& steps.len() == 0 || (steps.last() matches Step::Perform(SignAction::Announce { .. }))
                ==> sign_run(context, connections, events) == connections
        }),
    decreases events.len(),
{
    if events.len() > 0 {
        lemma_connections_while_signing(context, path, connections, events.drop_last());
    }
}

/// Which connection signing leaves behind: the one that was open, or the one
/// that was opened, as long as the agent signs or has not answered yet; none
/// after an error or a timeout; and the connections to other agents as they
/// were.
pub proof fn signing_leaves_connections<C, E, S>(
    context: SignContext,
    path: Seq<u8>,
    connections: Map<Seq<u8>, C>,
    client: C,
    signature: S,
    error: MuxError<E, Seq<char>>,
)
    requires
        context.route == Some(path),
    ensures
        ({
            let place = path_key(path);
            &&& sign_next::<C, E, S>(context, connections, SignEvent::Begin).0 == connections
            &&& sign_next::<C, E, S>(context, connections, SignEvent::Announced).0 == connections
            &&& sign_next::<C, E, S>(
                context,
                connections,
                SignEvent::Connected { opened: Ok(client) },
            ).0 == connections.insert(place, client)
            &&& sign_next::<C, E, S>(
                context,
                connections,
                SignEvent::Connected { opened: Err(error) },
            ).0 == connections
            &&& sign_next::<C, E, S>(
                context,
                connections,
                SignEvent::Signed { reply: Some(Ok(signature)) },
            ).0 == connections
            &&& sign_next::<C, E, S>(
                context,
                connections,
                SignEvent::Signed { reply: Some(Err(error)) },
            ).0 == connections.remove(place)
            &&& sign_next::<C, E, S>(context, connections, SignEvent::Signed { reply: None }).0
                == connections.remove(place)
        }),
{
}

/// What signing goes by is the request, where its key leads, and who asks.
pub proof fn signing_goes_by_the_request<C>(session: MuxSession<C>, signing: Signing)
    ensures
        ({
            let context = session.sign_context(&signing);
            let info = signing.request();
            &&& context.request.pubkey == info.request.pubkey@
            &&& context.request.data == info.request.data@
            &&& context.request.flags == info.request.flags
            &&& context.route == signing.route()
            &&& context.fingerprint == info.fingerprint@
            &&& context.id == info.id@
            &&& context.peer == peer_text(session.client())
        }),
{
}

/// From the start of a search to its end a request stays what it is, and is
/// then sent as it came: the same key, data and flags.
pub proof fn searched_request_is_sent_as_it_came<C, E, S>(
    session: MuxSession<C>,
    step: Step<Action<SocketPath, C>, Signing>,
    asked: SignInfo,
    found: Option<Seq<u8>>,
    connections: Map<Seq<u8>, C>,
    event: SignEvent<Seq<char>, C, E, S>,
)
    requires
        search_step_is(step, asked, Step::Return(found)),
    ensures
        step matches Step::Return(signing) && {
            let sent = sign_next(session.sign_context(&signing), connections, event).1;
            &&& signing.route() == found
            &&& signing.request().request.pubkey@ == asked.request.pubkey@
            &&& signing.request().request.data@ == asked.request.data@
            &&& signing.request().request.flags == asked.request.flags
            &&& signing.request().fingerprint@ == asked.fingerprint@
            &&& signing.request().hash@ == asked.hash@
            &&& signing.request().id@ == asked.id@
            &&& sent matches Step::Perform(SignAction::Sign { path, request, .. }) ==> {
                &&& found == Some(path)
                &&& request.pubkey == asked.request.pubkey@
                &&& request.data == asked.request.data@
                &&& request.flags == asked.request.flags
            }
        },
{
}

/// While a search goes on, what is asked for is what is handed out.
pub proof fn search_actions_are_handed_out<C>(
    step: Step<Action<SocketPath, C>, Signing>,
    asked: SignInfo,
    action: Action<Seq<u8>, C>,
)
    requires
        search_step_is(step, asked, Step::Perform(action)),
    ensures
        step matches Step::Perform(a) && a@ == action,
{
}

/// A search ends where the key is known to lead, and goes on until all agents
/// have been asked.
pub proof fn search_ends_where_the_key_leads<C>(
    known: Map<Seq<u8>, Seq<u8>>,
    key: Seq<u8>,
    action: Action<Seq<u8>, C>,
    ids: Seq<IdentityView>,
)
    ensures
        find_step(known, key, Step::Perform(action)) == Step::<
            Action<Seq<u8>, C>,
            Option<Seq<u8>>,
        >::Perform(action),
        known.contains_key(key) ==> find_step::<C>(known, key, Step::Return(ids)) == Step::<
            Action<Seq<u8>, C>,
            Option<Seq<u8>>,
        >::Return(Some(known[key])),
        !known.contains_key(key) ==> find_step::<C>(known, key, Step::Return(ids)) == Step::<
            Action<Seq<u8>, C>,
            Option<Seq<u8>>,
        >::Return(None),
{
}

} // verus!
