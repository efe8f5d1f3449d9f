//! A multiplexer as a whole: any history of operations of any number of
//! sessions.
use vstd::prelude::*;
use crate::laws::bind::{
    bind_driven, bind_run, bind_start, bind_stays_within_configured_agents, bind_steps,
};
use crate::laws::fan::{asks, asks_within, connected_within};
use crate::laws::refresh::{
    event_lists, refresh_driven, refresh_knows_the_listed_keys, refresh_run, refresh_start,
    refresh_stays_within_configured_agents, refresh_steps, routed_within,
};
use crate::laws::signing::{
    route_of, sign_run, sign_steps, sign_steps_within, signing_stays_within_configured_agents,
};
use crate::proto::Request;
use crate::session::{BindEvent, ListingEvent, SignContext, SignEvent};

verus! {

/// The state of a multiplexer.
pub struct AgentState<C> {
    /// The open connections of each session.
    pub sessions: Map<nat, Map<Seq<u8>, C>>,
    /// The known keys, which the sessions share.
    pub known: Map<Seq<u8>, Seq<u8>>,
    /// The key of a session's sign request and where it goes, once that has
    /// been looked up.
    pub routes: Map<nat, (Seq<u8>, Option<Seq<u8>>)>,
}

/// An operation of session `n`. The events are those that came before it
/// ended, or before the client went away.
pub enum Operation<C, E, S> {
    /// The session is created.
    Open { n: nat },
    /// The session ends.
    Close { n: nat },
    /// Refreshes the known keys.
    Refresh { n: nat, lists: Seq<ListingEvent<C>> },
    /// Forwards a session-bind.
    Bind { n: nat, request: Request<Seq<u8>>, binds: Seq<BindEvent<C>> },
    /// Looks up the agent that holds `key`, for a sign request.
    LookUp { n: nat, key: Seq<u8> },
    /// Signs, at the agent that was looked up.
    Sign { n: nat, context: SignContext, events: Seq<SignEvent<Seq<char>, C, E, S>> },
}

/// The session that an operation belongs to.
pub open spec fn session_of<C, E, S>(op: Operation<C, E, S>) -> nat {
    match op {
        Operation::Open { n } => n,
        Operation::Close { n } => n,
        Operation::Refresh { n, .. } => n,
        Operation::Bind { n, .. } => n,
        Operation::LookUp { n, .. } => n,
        Operation::Sign { n, .. } => n,
    }
}

/// A multiplexer without sessions, to which no key is known.
pub open spec fn agent_start<C>() -> AgentState<C> {
    AgentState { sessions: Map::empty(), known: Map::empty(), routes: Map::empty() }
}

/// The state after an operation.
pub open spec fn agent_next<C, E, S>(
    paths: Seq<Seq<u8>>,
    s: AgentState<C>,
    op: Operation<C, E, S>,
) -> AgentState<C> {
    match op {
        Operation::Open { n } => AgentState { sessions: s.sessions.insert(n, Map::empty()), ..s },
        Operation::Close { n } => AgentState {
            sessions: s.sessions.remove(n),
            routes: s.routes.remove(n),
            ..s
        },
        Operation::Refresh { n, lists: events } => {
            let after = refresh_run(paths, refresh_start(s.sessions[n]), events);
            AgentState {
                sessions: s.sessions.insert(n, after.connections),
                known: after.known,
                ..s
            }
        },
        Operation::Bind { n, request, binds: events } => {
            let after = bind_run(paths, bind_start(s.sessions[n], request), events);
            AgentState { sessions: s.sessions.insert(n, after.connections), ..s }
        },
        Operation::LookUp { n, key } => AgentState {
            routes: s.routes.insert(n, (key, route_of(s.known, key))),
            ..s
        },
        Operation::Sign { n, context, events } => AgentState {
            sessions: s.sessions.insert(n, sign_run(context, s.sessions[n], events)),
            ..s
        },
    }
}

/// Whether an operation may come next: it is one of a session that there is, it
/// is driven, and a sign request goes where its key was looked up.
pub open spec fn may_come<C, E, S>(
    paths: Seq<Seq<u8>>,
    s: AgentState<C>,
    op: Operation<C, E, S>,
) -> bool {
    match op {
        Operation::Open { n } => !s.sessions.contains_key(n),
        Operation::Close { n } => s.sessions.contains_key(n),
        Operation::Refresh { n, lists: events } => s.sessions.contains_key(n) && refresh_driven(
            paths,
            refresh_start(s.sessions[n]),
            events,
        ),
        Operation::Bind { n, request, binds: events } => s.sessions.contains_key(n) && bind_driven(
            paths,
            bind_start(s.sessions[n], request),
            events,
        ),
        Operation::LookUp { n, key } => s.sessions.contains_key(n),
        Operation::Sign { n, context, events } => s.sessions.contains_key(n)
            && s.routes.contains_key(n) && (context.request.pubkey, context.route) == s.routes[n],
    }
}

/// The state after a history of operations.
pub open spec fn after_history<C, E, S>(
    paths: Seq<Seq<u8>>,
    history: Seq<Operation<C, E, S>>,
) -> AgentState<C>
    decreases history.len(),
{
    if history.len() == 0 {
        agent_start()
    } else {
        agent_next(paths, after_history(paths, history.drop_last()), history.last())
    }
}

/// Whether a history of operations may come about.
pub open spec fn is_history<C, E, S>(
    paths: Seq<Seq<u8>>,
    history: Seq<Operation<C, E, S>>,
) -> bool
    decreases history.len(),
{
    history.len() > 0 ==> is_history(paths, history.drop_last()) && may_come(
        paths,
        after_history(paths, history.drop_last()),
        history.last(),
    )
}

/// Whether connections, known keys and looked-up requests lead to configured
/// agents only.
pub open spec fn agent_within<C>(paths: Seq<Seq<u8>>, s: AgentState<C>) -> bool {
    &&& forall|n: nat| #[trigger]
        s.sessions.contains_key(n) ==> connected_within(paths, s.sessions[n])
    &&& routed_within(paths, s.known)
    &&& forall|n: nat| #[trigger]
        s.routes.contains_key(n) ==> (s.routes[n].1 matches Some(path) ==> paths.contains(path))
}

/// Whether an operation goes to configured agents only.
pub open spec fn operation_within<C, E, S>(
    paths: Seq<Seq<u8>>,
    s: AgentState<C>,
    op: Operation<C, E, S>,
) -> bool {
    match op {
        Operation::Refresh { n, lists: events } => asks_within(
            paths,
            asks(refresh_steps(paths, refresh_start(s.sessions[n]), events)),
        ),
        Operation::Bind { n, request, binds: events } => asks_within(
            paths,
            asks(bind_steps(paths, bind_start(s.sessions[n], request), events)),
        ),
        Operation::Sign { n, context, events } => sign_steps_within(
            paths,
            sign_steps(context, s.sessions[n], events),
        ),
        _ => true,
    }
}

/// Whatever the sessions have done, no connection, no known key and no sign
/// request leads to an agent that is not configured, and the next operation
/// goes to none either.
pub proof fn history_stays_within_configured_agents<C, E, S>(
    paths: Seq<Seq<u8>>,
    history: Seq<Operation<C, E, S>>,
    op: Operation<C, E, S>,
)
    requires
        is_history(paths, history),
    ensures
        agent_within(paths, after_history(paths, history)),
        may_come(paths, after_history(paths, history), op) ==> operation_within(
            paths,
            after_history(paths, history),
            op,
        ),
    decreases history.len(),
{
    let s = after_history(paths, history);
    if history.len() > 0 {
        let before = history.drop_last();
        history_stays_within_configured_agents(paths, before, history.last());
        lemma_operation_within(paths, after_history(paths, before), history.last());
    }
    if may_come(paths, s, op) {
        lemma_operation_within(paths, s, op);
    }
}

proof fn lemma_operation_within<C, E, S>(
    paths: Seq<Seq<u8>>,
    s: AgentState<C>,
    op: Operation<C, E, S>,
)
    requires
        agent_within(paths, s),
        may_come(paths, s, op),
    ensures
        agent_within(paths, agent_next(paths, s, op)),
        operation_within(paths, s, op),
{
    let after = agent_next(paths, s, op);
    let n = session_of(op);
    match op {
        Operation::Refresh { n, lists: events } => {
            refresh_stays_within_configured_agents(paths, s.sessions[n], events);
        },
        Operation::Bind { n, request, binds: events } => {
            bind_stays_within_configured_agents(paths, s.sessions[n], request, events);
        },
        Operation::Sign { n, context, events } => {
            signing_stays_within_configured_agents(paths, context, s.sessions[n], events);
        },
        _ => {},
    }
    assert forall|m: nat| #[trigger] after.sessions.contains_key(m) implies connected_within(
        paths,
        after.sessions[m],
    ) by {
        if m != n {
            assert(s.sessions.contains_key(m));
        }
    }
    assert forall|m: nat| #[trigger] after.routes.contains_key(m) implies (
    after.routes[m].1 matches Some(path) ==> paths.contains(path)) by {
        if m != n {
            assert(s.routes.contains_key(m));
        }
    }
}

/// Sessions share no connection: an operation of one session leaves the
/// connections of every other as they are, and a new session has none.
pub proof fn sessions_share_no_connections<C, E, S>(
    paths: Seq<Seq<u8>>,
    s: AgentState<C>,
    op: Operation<C, E, S>,
    m: nat,
)
    requires
        m != session_of(op),
    ensures
        agent_next(paths, s, op).sessions.contains_key(m) == s.sessions.contains_key(m),
        s.sessions.contains_key(m) ==> agent_next(paths, s, op).sessions[m] == s.sessions[m],
        op matches Operation::Open { n } ==> agent_next(paths, s, op) == (AgentState {
            sessions: s.sessions.insert(n, Map::empty()),
            ..s
        }),
{
}

/// Sessions share the known keys: a key that was listed to one session is found
/// at once in every other, and one that was not listed to it is not.
pub proof fn sessions_share_the_known_keys<C, E, S>(
    paths: Seq<Seq<u8>>,
    s: AgentState<C>,
    n: nat,
    events: Seq<ListingEvent<C>>,
    m: nat,
    key: Seq<u8>,
)
    ensures
        ({
            let learned = agent_next(paths, s, Operation::<C, E, S>::Refresh { n, lists: events });
            let found = agent_next(paths, learned, Operation::<C, E, S>::LookUp { n: m, key });
            &&& found.known == learned.known
            &&& found.routes[m] == (key, route_of(learned.known, key))
            &&& found.routes[m].1 is Some <==> exists|i: int|
                0 <= i < events.len() && #[trigger] event_lists(events[i], key)
        }),
{
    refresh_knows_the_listed_keys(paths, s.sessions[n], events, key);
}

} // verus!
