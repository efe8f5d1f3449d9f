//! Binding a session.
use vstd::prelude::*;
use crate::laws::fan::{
    agent_is_sent_one_request, agents_get_the_request,
    answers_come_after_all_contacts, asks, asks_within,
    connected_within, fan_asks, fan_driven, fan_run, goes_over, is_all_contacted,
    is_configured_once, is_opened, may_follow, open_connection_is_used,
    operation_stays_within_configured_agents, sends_only, sent, tasks_to, FanState,
};
use crate::paths::path_key;
use crate::proto::Request;
use crate::session::{bind_next, Action, BindEvent, BindReply, BindState, Event};
use crate::step::Step;

verus! {

/// The state of a session-bind after a run of events.
pub open spec fn bind_run<C>(
    paths: Seq<Seq<u8>>,
    s: BindState<C>,
    events: Seq<BindEvent<C>>,
) -> BindState<C>
    decreases events.len(),
{
    if events.len() == 0 {
        s
    } else {
        bind_next(paths, bind_run(paths, s, events.drop_last()), events.last()).0
    }
}

/// The steps of a session-bind on a run of events.
pub open spec fn bind_steps<C>(
    paths: Seq<Seq<u8>>,
    s: BindState<C>,
    events: Seq<BindEvent<C>>,
) -> Seq<Step<Action<Seq<u8>, C>, bool>>
    decreases events.len(),
{
    if events.len() == 0 {
        Seq::empty()
    } else {
        let before = events.drop_last();
        bind_steps(paths, s, before).push(
            bind_next(paths, bind_run(paths, s, before), events.last()).1,
        )
    }
}

/// Whether a session-bind is driven.
pub open spec fn bind_driven<C>(
    paths: Seq<Seq<u8>>,
    s: BindState<C>,
    events: Seq<BindEvent<C>>,
) -> bool
    decreases events.len(),
{
    events.len() > 0 ==> bind_driven(paths, s, events.drop_last()) && may_follow(
        events.last(),
        events.drop_last(),
        asks(bind_steps(paths, s, events.drop_last())),
    )
}

/// The state in which a session-bind begins.
pub open spec fn bind_start<C>(
    connections: Map<Seq<u8>, C>,
    request: Request<Seq<u8>>,
) -> BindState<C> {
    BindState { request, next: 0, connections, any_succeeded: false }
}

/// Whether an event is an agent's acceptance of the binding.
pub open spec fn event_accepts<C>(event: BindEvent<C>) -> bool {
    event matches Event::Answered { reply: BindReply::Accepted, .. }
}

/// Whether an event is an answer over a sound connection, to the path that
/// `place` is the plainest spelling of: the agent accepts the binding, or does
/// not support it.
pub open spec fn sound_answer_from<C>(event: BindEvent<C>, place: Seq<u8>) -> bool {
    event matches Event::Answered { path, reply, .. } && path_key(path) == place && reply !is Broken
}

/// Session-bind succeeds, without data, exactly when some agent accepts it; it
/// is otherwise answered with the plain failure.
pub proof fn bind_succeeds_when_an_agent_accepts<C>(
    paths: Seq<Seq<u8>>,
    connections: Map<Seq<u8>, C>,
    request: Request<Seq<u8>>,
    events: Seq<BindEvent<C>>,
)
    ensures
        bind_run(paths, bind_start(connections, request), events).any_succeeded <==> exists|i: int|
            0 <= i < events.len() && event_accepts(#[trigger] events[i]),
        bind_next(
            paths,
            bind_run(paths, bind_start(connections, request), events),
            Event::Drained,
        ).1 == Step::<Action<Seq<u8>, C>, bool>::Return(
            exists|i: int| 0 <= i < events.len() && event_accepts(#[trigger] events[i]),
        ),
    decreases events.len(),
{
    if events.len() > 0 {
        let before = events.drop_last();
        let n = events.len() - 1;
        bind_succeeds_when_an_agent_accepts(paths, connections, request, before);
        if exists|i: int| 0 <= i < events.len() && event_accepts(#[trigger] events[i]) {
            let i = choose|i: int| 0 <= i < events.len() && event_accepts(#[trigger] events[i]);
            if i < n {
                assert(event_accepts(before[i]));
            }
        }
        if exists|i: int| 0 <= i < before.len() && event_accepts(#[trigger] before[i]) {
            let i = choose|i: int| 0 <= i < before.len() && event_accepts(#[trigger] before[i]);
            assert(event_accepts(events[i]));
        }
        if event_accepts(events.last()) {
            assert(event_accepts(events[n]));
        }
    }
}

/// After which replies a session-bind keeps a connection.
pub open spec fn keeps_after_binding() -> spec_fn(BindReply) -> bool {
    |reply: BindReply| reply !is Broken
}

/// The part of a session-bind's state that decides whom it contacts.
pub open spec fn bind_fan<C>(s: BindState<C>) -> FanState<C> {
    FanState { next: s.next, connections: s.connections, request: s.request }
}

/// A session-bind is an operation on all agents that keeps the connections that
/// are not broken.
pub proof fn bind_asks_all_agents<C>(
    paths: Seq<Seq<u8>>,
    s: BindState<C>,
    events: Seq<BindEvent<C>>,
)
    ensures
        bind_fan(bind_run(paths, s, events)) == fan_run(
            paths,
            bind_fan(s),
            events,
            keeps_after_binding(),
        ),
        asks(bind_steps(paths, s, events)) == fan_asks(
            paths,
            bind_fan(s),
            events,
            keeps_after_binding(),
        ),
        bind_driven(paths, s, events) == fan_driven(
            paths,
            bind_fan(s),
            events,
            keeps_after_binding(),
        ),
    decreases events.len(),
{
    if events.len() > 0 {
        bind_asks_all_agents(paths, s, events.drop_last());
    }
    assert(asks(bind_steps(paths, s, events)) =~= fan_asks(
        paths,
        bind_fan(s),
        events,
        keeps_after_binding(),
    ));
}

proof fn lemma_bind_answered<C>(
    paths: Seq<Seq<u8>>,
    s: BindState<C>,
    events: Seq<BindEvent<C>>,
    i: int,
)
    requires
        bind_driven(paths, s, events),
        0 <= i < events.len(),
        events[i] is Answered,
    ensures
        bind_run(paths, s, events.take(i)).next >= paths.len(),
        bind_run(paths, s, events).next >= paths.len(),
{
    bind_asks_all_agents(paths, s, events);
    bind_asks_all_agents(paths, s, events.take(i));
    answers_come_after_all_contacts(paths, bind_fan(s), events, keeps_after_binding(), i);
}

/// An agent that accepts the binding, or does not support it, keeps its
/// connection: the one that its last such answer came back over.
pub proof fn bound_connection_is_kept<C>(
    paths: Seq<Seq<u8>>,
    connections: Map<Seq<u8>, C>,
    request: Request<Seq<u8>>,
    events: Seq<BindEvent<C>>,
    place: Seq<u8>,
    i: int,
)
    requires
        bind_driven(paths, bind_start(connections, request), events),
        0 <= i < events.len(),
        sound_answer_from(events[i], place),
        forall|j: int| i < j < events.len() ==> !sound_answer_from(#[trigger] events[j], place),
    ensures
        ({
            let after = bind_run(paths, bind_start(connections, request), events).connections;
            &&& after.contains_key(place)
            &&& events[i] matches Event::Answered { client, .. } && after[place] == client
        }),
    decreases events.len(),
{
    let start = bind_start(connections, request);
    let before = events.drop_last();
    lemma_bind_answered(paths, start, events, i);
    if i < events.len() - 1 {
        assert forall|j: int| i < j < before.len() implies !sound_answer_from(
            #[trigger] before[j],
            place,
        ) by {
            assert(!sound_answer_from(events[j], place));
        }
        assert(!sound_answer_from(events[events.len() - 1], place));
        assert(before[i] == events[i]);
        bound_connection_is_kept(paths, connections, request, before, place, i);
        lemma_bind_answered(paths, start, before, i);
    } else {
        assert(events.take(i) == before);
    }
}

/// A connection that session-bind finds broken is not kept, nor is one to an
/// agent that was lost.
pub proof fn broken_connections_are_dropped<C>(
    paths: Seq<Seq<u8>>,
    connections: Map<Seq<u8>, C>,
    request: Request<Seq<u8>>,
    events: Seq<BindEvent<C>>,
    k: int,
)
    requires
        0 <= k < paths.len(),
        bind_run(paths, bind_start(connections, request), events).next > k,
        forall|i: int|
            0 <= i < events.len() ==> !sound_answer_from(#[trigger] events[i], path_key(paths[k])),
    ensures
        !bind_run(paths, bind_start(connections, request), events).connections.contains_key(
            path_key(paths[k]),
        ),
    decreases events.len(),
{
    if events.len() > 0 {
        let before = events.drop_last();
        assert forall|i: int| 0 <= i < before.len() implies !sound_answer_from(
            #[trigger] before[i],
            path_key(paths[k]),
        ) by {
            assert(!sound_answer_from(events[i], path_key(paths[k])));
        }
        assert(!sound_answer_from(events[events.len() - 1], path_key(paths[k])));
        let s = bind_run(paths, bind_start(connections, request), before);
        if s.next > k {
            broken_connections_are_dropped(paths, connections, request, before, k);
        }
    }
}

/// A session-bind sends an agent that is configured once one request at most.
/// Once all agents have been contacted, it has sent one exactly when a
/// connection to the agent was open or could be opened.
pub proof fn bind_asks_an_agent_once<C>(
    paths: Seq<Seq<u8>>,
    connections: Map<Seq<u8>, C>,
    request: Request<Seq<u8>>,
    events: Seq<BindEvent<C>>,
    k: int,
)
    requires
        is_configured_once(paths, k),
        bind_driven(paths, bind_start(connections, request), events),
    ensures
        ({
            let place = path_key(paths[k]);
            let asks = asks(bind_steps(paths, bind_start(connections, request), events));
            &&& tasks_to(sent(asks), place) <= 1
            &&& is_all_contacted(asks) ==> (tasks_to(sent(asks), place) == 1
                <==> connections.contains_key(place) || is_opened(events, place))
        }),
{
    bind_asks_all_agents(paths, bind_start(connections, request), events);
    agent_is_sent_one_request(paths, connections, request, events, keeps_after_binding(), k);
}

/// Every agent is sent the very session-bind that came in.
pub proof fn bind_forwards_the_request<C>(
    paths: Seq<Seq<u8>>,
    connections: Map<Seq<u8>, C>,
    request: Request<Seq<u8>>,
    events: Seq<BindEvent<C>>,
    i: int,
)
    requires
        0 <= i < events.len(),
    ensures
        sends_only(
            asks(bind_steps(paths, bind_start(connections, request), events))[i],
            request,
        ),
{
    let start = bind_start(connections, request);
    bind_asks_all_agents(paths, start, events);
    agents_get_the_request(paths, bind_fan(start), events, keeps_after_binding());
}

/// A session-bind goes to an agent over the connection that is open, which
/// stays open until the agent's turn comes, and whatever connection to the
/// agent remains afterwards is that one. This takes an agent that is configured
/// once.
pub proof fn bind_goes_over_the_open_connection<C>(
    paths: Seq<Seq<u8>>,
    connections: Map<Seq<u8>, C>,
    request: Request<Seq<u8>>,
    events: Seq<BindEvent<C>>,
    k: int,
)
    requires
        is_configured_once(paths, k),
        connections.contains_key(path_key(paths[k])),
        bind_driven(paths, bind_start(connections, request), events),
    ensures
        ({
            let place = path_key(paths[k]);
            let after = bind_run(paths, bind_start(connections, request), events);
            let asks = asks(bind_steps(paths, bind_start(connections, request), events));
            &&& after.connections.contains_key(place) ==> after.connections[place]
                == connections[place]
            &&& after.next <= k ==> after.connections.contains_key(place)
            &&& forall|i: int|
                0 <= i < asks.len() ==> goes_over(#[trigger] asks[i], place, connections[place])
        }),
{
    bind_asks_all_agents(paths, bind_start(connections, request), events);
    open_connection_is_used(paths, connections, request, events, keeps_after_binding(), k);
}

/// A session-bind goes to configured agents only and keeps connections to no
/// others.
pub proof fn bind_stays_within_configured_agents<C>(
    paths: Seq<Seq<u8>>,
    connections: Map<Seq<u8>, C>,
    request: Request<Seq<u8>>,
    events: Seq<BindEvent<C>>,
)
    requires
        connected_within(paths, connections),
        bind_driven(paths, bind_start(connections, request), events),
    ensures
        connected_within(
            paths,
            bind_run(paths, bind_start(connections, request), events).connections,
        ),
        asks_within(paths, asks(bind_steps(paths, bind_start(connections, request), events))),
{
    bind_asks_all_agents(paths, bind_start(connections, request), events);
    operation_stays_within_configured_agents(
        paths,
        connections,
        request,
        events,
        keeps_after_binding(),
    );
}

} // verus!
