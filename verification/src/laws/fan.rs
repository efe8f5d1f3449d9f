//! Operations on all upstream agents: whom they contact, over which
//! connections, and which connections they keep.
use vstd::multiset::Multiset;
use vstd::prelude::*;
use vstd::seq_lib::group_to_multiset_ensures;
use crate::paths::{path_key, path_keys};
use crate::proto::Request;
use crate::session::{contact, Action, Event};
use crate::step::Step;

verus! {

// ---------------------------------------------------------------------------
// Contacting the upstream agents
// ---------------------------------------------------------------------------
/// The state after contacting `n` agents one after the other.
pub open spec fn after_contacting<C>(
    paths: Seq<Seq<u8>>,
    connections: Map<Seq<u8>, C>,
    request: Request<Seq<u8>>,
    n: nat,
) -> (nat, Map<Seq<u8>, C>)
    decreases n,
{
    if n == 0 {
        (0, connections)
    } else {
        let (next, left) = after_contacting(paths, connections, request, (n - 1) as nat);
        let (after, rest, _) = contact(paths, next, left, request);
        (after, rest)
    }
}

/// The socket that an action is about.
pub open spec fn action_path<C>(action: Action<Seq<u8>, C>) -> Option<Seq<u8>> {
    match action {
        Action::Connect { path } => Some(path),
        Action::Send { path, .. } => Some(path),
        Action::Collect => None,
    }
}

/// Every configured agent is contacted, once for each time it is configured
/// and in that order, and only then are replies collected.
pub proof fn every_agent_is_contacted<C>(
    paths: Seq<Seq<u8>>,
    connections: Map<Seq<u8>, C>,
    request: Request<Seq<u8>>,
    n: nat,
)
    requires
        n <= paths.len(),
    ensures
        ({
            let (next, left) = after_contacting(paths, connections, request, n);
            let (_, _, action) = contact(paths, next, left, request);
            &&& next == n
            &&& n < paths.len() ==> action_path(action) == Some(paths[n as int])
            &&& n == paths.len() ==> action == Action::<Seq<u8>, C>::Collect
        }),
    decreases n,
{
    if n > 0 {
        every_agent_is_contacted(paths, connections, request, (n - 1) as nat);
    }
}

/// A request goes out over the connection that is open to the agent, if one
/// is: a new one is opened only to an agent without.
pub proof fn open_connections_are_reused<C>(
    paths: Seq<Seq<u8>>,
    next: nat,
    connections: Map<Seq<u8>, C>,
    request: Request<Seq<u8>>,
)
    requires
        next < paths.len(),
    ensures
        ({
            let path = paths[next as int];
            let key = path_key(path);
            let (_, left, action) = contact(paths, next, connections, request);
            &&& connections.contains_key(key) ==> action == (Action::Send {
                path,
                client: connections[key],
                request,
            })
            &&& !connections.contains_key(key) ==> action == Action::<Seq<u8>, C>::Connect { path }
            &&& !left.contains_key(key)
            &&& forall|k: Seq<u8>|
                k != key ==> left.contains_key(k) == connections.contains_key(k) && (
                left.contains_key(k) ==> left[k] == connections[k])
        }),
{
}

// ---------------------------------------------------------------------------
// Runs that are driven
// ---------------------------------------------------------------------------
/// What a step asks for; `None` when the operation is over.
pub open spec fn asked<C, V>(step: Step<Action<Seq<u8>, C>, V>) -> Option<Action<Seq<u8>, C>> {
    match step {
        Step::Perform(action) => Some(action),
        Step::Return(_) => None,
    }
}

/// What the steps of an operation ask for.
pub open spec fn asks<C, V>(steps: Seq<Step<Action<Seq<u8>, C>, V>>) -> Seq<
    Option<Action<Seq<u8>, C>>,
> {
    steps.map_values(|s: Step<Action<Seq<u8>, C>, V>| asked(s))
}

/// The tasks that were started, in order: each is a request that goes to a path
/// over a connection.
pub open spec fn sent<C>(asks: Seq<Option<Action<Seq<u8>, C>>>) -> Seq<(Seq<u8>, C)>
    decreases asks.len(),
{
    if asks.len() == 0 {
        Seq::empty()
    } else {
        match asks.last() {
            Some(Action::Send { path, client, .. }) => sent(asks.drop_last()).push((path, client)),
            _ => sent(asks.drop_last()),
        }
    }
}

/// The tasks that ended with an answer, in the order of the answers.
pub open spec fn handed_back<C, R>(events: Seq<Event<Seq<u8>, C, R>>) -> Seq<(Seq<u8>, C)>
    decreases events.len(),
{
    if events.len() == 0 {
        Seq::empty()
    } else {
        match events.last() {
            Event::Answered { path, client, .. } => handed_back(events.drop_last()).push(
                (path, client),
            ),
            _ => handed_back(events.drop_last()),
        }
    }
}

/// How many tasks were lost.
pub open spec fn lost<C, R>(events: Seq<Event<Seq<u8>, C, R>>) -> nat
    decreases events.len(),
{
    if events.len() == 0 {
        0
    } else {
        lost(events.drop_last()) + if events.last() is Lost {
            1nat
        } else {
            0nat
        }
    }
}

/// How many tasks are left to wait for.
pub open spec fn tasks_left<C, R>(
    events: Seq<Event<Seq<u8>, C, R>>,
    asks: Seq<Option<Action<Seq<u8>, C>>>,
) -> int {
    sent(asks).len() - handed_back(events).len() - lost(events)
}

/// Whether the last step asks for a task to be waited for.
pub open spec fn is_collecting<C>(asks: Seq<Option<Action<Seq<u8>, C>>>) -> bool {
    asks.len() > 0 && asks.last() == Some(Action::<Seq<u8>, C>::Collect)
}

/// Whether the operation collects answers or is over.
pub open spec fn is_all_contacted<C>(asks: Seq<Option<Action<Seq<u8>, C>>>) -> bool {
    asks.len() > 0 && (asks.last() is None || is_collecting(asks))
}

/// Whether an event may come after these events and what the steps asked for:
/// what is reported is what the last step asked for. A task is answered once,
/// or lost, and hands back the connection that it was started with.
pub open spec fn may_follow<C, R>(
    event: Event<Seq<u8>, C, R>,
    before: Seq<Event<Seq<u8>, C, R>>,
    asks: Seq<Option<Action<Seq<u8>, C>>>,
) -> bool {
    match event {
        Event::Proceed => asks.len() == 0 || (asks.last() matches Some(Action::Send { .. })),
        Event::Connected { path, .. } => asks.len() > 0 && asks.last() == Some(
            Action::<Seq<u8>, C>::Connect { path },
        ),
        Event::Answered { path, client, .. } => is_collecting(asks) && tasks_left(before, asks) > 0
            && handed_back(before).to_multiset().count((path, client)) < sent(
            asks,
        ).to_multiset().count((path, client)),
        Event::Lost => is_collecting(asks) && tasks_left(before, asks) > 0,
        Event::Drained => is_collecting(asks) && tasks_left(before, asks) == 0,
    }
}

// ---------------------------------------------------------------------------
// What the operations have in common
// ---------------------------------------------------------------------------
/// The part of an operation's state that decides whom it contacts.
pub struct FanState<C> {
    /// How many agents have been contacted.
    pub next: nat,
    /// The open connections that are not in use.
    pub connections: Map<Seq<u8>, C>,
    /// The request that goes to the agents.
    pub request: Request<Seq<u8>>,
}

/// The state in which an operation begins.
pub open spec fn fan_start<C>(
    connections: Map<Seq<u8>, C>,
    request: Request<Seq<u8>>,
) -> FanState<C> {
    FanState { next: 0, connections, request }
}

/// Contacts the next agent.
pub open spec fn fan_on<C>(paths: Seq<Seq<u8>>, s: FanState<C>) -> (
    FanState<C>,
    Option<Action<Seq<u8>, C>>,
) {
    let (next, connections, action) = contact(paths, s.next, s.connections, s.request);
    (FanState { next, connections, request: s.request }, Some(action))
}

/// One step of an operation on all agents. `keep` says after which replies a
/// connection is kept.
pub open spec fn fan_next<C, R>(
    paths: Seq<Seq<u8>>,
    s: FanState<C>,
    event: Event<Seq<u8>, C, R>,
    keep: spec_fn(R) -> bool,
) -> (FanState<C>, Option<Action<Seq<u8>, C>>) {
    match event {
        Event::Connected { path, opened: Some(client) } => (
            s,
            Some(Action::Send { path, client, request: s.request }),
        ),
        Event::Answered { path, client, reply } => if keep(reply) {
            fan_on(
                paths,
                FanState { connections: s.connections.insert(path_key(path), client), ..s },
            )
        } else {
            fan_on(paths, s)
        },
        Event::Drained => (s, None),
        _ => fan_on(paths, s),
    }
}

/// The state after a run of events.
pub open spec fn fan_run<C, R>(
    paths: Seq<Seq<u8>>,
    s: FanState<C>,
    events: Seq<Event<Seq<u8>, C, R>>,
    keep: spec_fn(R) -> bool,
) -> FanState<C>
    decreases events.len(),
{
    if events.len() == 0 {
        s
    } else {
        fan_next(paths, fan_run(paths, s, events.drop_last(), keep), events.last(), keep).0
    }
}

/// What the steps on a run of events ask for.
pub open spec fn fan_asks<C, R>(
    paths: Seq<Seq<u8>>,
    s: FanState<C>,
    events: Seq<Event<Seq<u8>, C, R>>,
    keep: spec_fn(R) -> bool,
) -> Seq<Option<Action<Seq<u8>, C>>>
    decreases events.len(),
{
    if events.len() == 0 {
        Seq::empty()
    } else {
        let before = events.drop_last();
        fan_asks(paths, s, before, keep).push(
            fan_next(paths, fan_run(paths, s, before, keep), events.last(), keep).1,
        )
    }
}

/// Whether a run is driven.
pub open spec fn fan_driven<C, R>(
    paths: Seq<Seq<u8>>,
    s: FanState<C>,
    events: Seq<Event<Seq<u8>, C, R>>,
    keep: spec_fn(R) -> bool,
) -> bool
    decreases events.len(),
{
    events.len() > 0 ==> fan_driven(paths, s, events.drop_last(), keep) && may_follow(
        events.last(),
        events.drop_last(),
        fan_asks(paths, s, events.drop_last(), keep),
    )
}

/// Answers come only once every agent has been contacted.
pub proof fn answers_come_after_all_contacts<C, R>(
    paths: Seq<Seq<u8>>,
    s: FanState<C>,
    events: Seq<Event<Seq<u8>, C, R>>,
    keep: spec_fn(R) -> bool,
    i: int,
)
    requires
        fan_driven(paths, s, events, keep),
        0 <= i < events.len(),
        events[i] is Answered,
    ensures
        fan_run(paths, s, events.take(i), keep).next >= paths.len(),
        fan_run(paths, s, events, keep).next >= paths.len(),
    decreases events.len(),
{
    let before = events.drop_last();
    if i < events.len() - 1 {
        assert(before[i] == events[i]);
        answers_come_after_all_contacts(paths, s, before, keep, i);
        assert(before.take(i) == events.take(i));
    } else {
        assert(events.take(i) == before);
        assert(before.len() > 0);
    }
}

/// Whether what is sent, if anything is, is `request`.
pub open spec fn sends_only<C>(
    ask: Option<Action<Seq<u8>, C>>,
    request: Request<Seq<u8>>,
) -> bool {
    ask matches Some(Action::Send { request: r, .. }) ==> r == request
}

/// Every agent is sent the very request that the operation began with.
pub proof fn agents_get_the_request<C, R>(
    paths: Seq<Seq<u8>>,
    s: FanState<C>,
    events: Seq<Event<Seq<u8>, C, R>>,
    keep: spec_fn(R) -> bool,
)
    ensures
        fan_run(paths, s, events, keep).request == s.request,
        forall|i: int|
            0 <= i < events.len() ==> sends_only(
                #[trigger] fan_asks(paths, s, events, keep)[i],
                s.request,
            ),
        fan_asks(paths, s, events, keep).len() == events.len(),
    decreases events.len(),
{
    if events.len() > 0 {
        let before = events.drop_last();
        agents_get_the_request(paths, s, before, keep);
        let asks = fan_asks(paths, s, before, keep);
        let all = fan_asks(paths, s, events, keep);
        assert forall|i: int| 0 <= i < events.len() implies sends_only(
            #[trigger] all[i],
            s.request,
        ) by {
            if i < before.len() {
                assert(all[i] == asks[i]);
            }
        }
    }
}

// ---------------------------------------------------------------------------
// Agents that are configured once
// ---------------------------------------------------------------------------
/// Whether the agent at place `k` is configured there only, in any spelling.
pub open spec fn is_configured_once(paths: Seq<Seq<u8>>, k: int) -> bool {
    &&& 0 <= k < paths.len()
    &&& forall|j: int|
        0 <= j < paths.len() && j != k ==> path_key(#[trigger] paths[j]) != path_key(paths[k])
}

/// Whether something that is asked for and goes to the path that `place` is the
/// plainest spelling of goes over `client`.
pub open spec fn goes_over<C>(
    ask: Option<Action<Seq<u8>, C>>,
    place: Seq<u8>,
    client: C,
) -> bool {
    match ask {
        Some(Action::Connect { path }) => path_key(path) != place,
        Some(Action::Send { path, client: c, .. }) => path_key(path) == place ==> c == client,
        _ => true,
    }
}

/// An operation goes to an agent over the connection that is open, which stays
/// open until the agent's turn comes, and whenever there is a connection to
/// the agent afterwards, it is that one. This takes an agent that is
/// configured once: where it is configured again, a second connection is
/// opened to it.
pub proof fn open_connection_is_used<C, R>(
    paths: Seq<Seq<u8>>,
    connections: Map<Seq<u8>, C>,
    request: Request<Seq<u8>>,
    events: Seq<Event<Seq<u8>, C, R>>,
    keep: spec_fn(R) -> bool,
    k: int,
)
    requires
        is_configured_once(paths, k),
        connections.contains_key(path_key(paths[k])),
        fan_driven(paths, fan_start(connections, request), events, keep),
    ensures
        ({
            let place = path_key(paths[k]);
            let after = fan_run(paths, fan_start(connections, request), events, keep);
            let asks = fan_asks(paths, fan_start(connections, request), events, keep);
            &&& after.connections.contains_key(place) ==> after.connections[place]
                == connections[place]
            &&& after.next <= k ==> after.connections.contains_key(place)
            &&& forall|i: int|
                0 <= i < asks.len() ==> goes_over(#[trigger] asks[i], place, connections[place])
        }),
    decreases events.len(),
{
    if events.len() > 0 {
        let place = path_key(paths[k]);
        let client = connections[place];
        let start = fan_start(connections, request);
        let before = events.drop_last();
        open_connection_is_used(paths, connections, request, before, keep, k);
        let s = fan_run(paths, start, before, keep);
        let asks = fan_asks(paths, start, before, keep);
        let (after, ask) = fan_next(paths, s, events.last(), keep);
        match events.last() {
            Event::Answered { path, client: c, .. } => {
                lemma_sent_somewhere(asks, path, c);
                let j = choose|j: int|
                    0 <= j < asks.len() && is_send(#[trigger] asks[j], path, c);
                assert(goes_over(asks[j], place, client));
            },
            Event::Connected { path, .. } => {
                assert(goes_over(asks[asks.len() - 1], place, client));
            },
            _ => {},
        }
        if s.next < paths.len() && s.next != k {
            assert(path_key(paths[s.next as int]) != place);
        }
        assert(goes_over(ask, place, client));
        let all = fan_asks(paths, start, events, keep);
        assert forall|i: int| 0 <= i < all.len() implies goes_over(
            #[trigger] all[i],
            place,
            client,
        ) by {
            if i < asks.len() {
                assert(all[i] == asks[i]);
            }
        }
    }
}

/// Whether a request is sent to `path` over `client`.
pub open spec fn is_send<C>(
    ask: Option<Action<Seq<u8>, C>>,
    path: Seq<u8>,
    client: C,
) -> bool {
    ask matches Some(Action::Send { path: p, client: c, .. }) && p == path && c == client
}

proof fn lemma_sent_somewhere<C>(asks: Seq<Option<Action<Seq<u8>, C>>>, path: Seq<u8>, client: C)
    requires
        sent(asks).to_multiset().count((path, client)) > 0,
    ensures
        exists|j: int|
            0 <= j < asks.len() && is_send(#[trigger] asks[j], path, client),
    decreases asks.len(),
{
    broadcast use group_to_multiset_ensures;

    assert(sent(asks).contains((path, client)));
    if asks.len() > 0 {
        let before = asks.drop_last();
        if !is_send(asks.last(), path, client) {
            let i = choose|i: int| 0 <= i < sent(asks).len() && sent(asks)[i] == (path, client);
            assert(sent(before)[i] == (path, client));
            assert(sent(before).contains((path, client)));
            lemma_sent_somewhere(before, path, client);
            let j = choose|j: int|
                0 <= j < before.len() && is_send(#[trigger] before[j], path, client);
            assert(asks[j] == before[j]);
        } else {
            assert(is_send(asks[asks.len() - 1], path, client));
        }
    }
}

/// How many tasks go to the path that `place` is the plainest spelling of.
pub open spec fn tasks_to<C>(tasks: Seq<(Seq<u8>, C)>, place: Seq<u8>) -> nat
    decreases tasks.len(),
{
    if tasks.len() == 0 {
        0
    } else {
        tasks_to(tasks.drop_last(), place) + if path_key(tasks.last().0) == place {
            1nat
        } else {
            0nat
        }
    }
}

/// Whether a connection was opened to the path that `place` is the plainest
/// spelling of.
pub open spec fn opens_to<C, R>(event: Event<Seq<u8>, C, R>, place: Seq<u8>) -> bool {
    event matches Event::Connected { path, opened: Some(_) } && path_key(path) == place
}

/// Whether some event opens a connection there.
pub open spec fn is_opened<C, R>(events: Seq<Event<Seq<u8>, C, R>>, place: Seq<u8>) -> bool {
    exists|i: int| 0 <= i < events.len() && opens_to(#[trigger] events[i], place)
}

/// Whether the last step asks for a connection to be opened there.
spec fn is_connecting<C>(asks: Seq<Option<Action<Seq<u8>, C>>>, place: Seq<u8>) -> bool {
    asks.len() > 0 && (asks.last() matches Some(Action::Connect { path }) && path_key(path)
        == place)
}

proof fn lemma_sends<C, R>(
    paths: Seq<Seq<u8>>,
    connections: Map<Seq<u8>, C>,
    request: Request<Seq<u8>>,
    events: Seq<Event<Seq<u8>, C, R>>,
    keep: spec_fn(R) -> bool,
    k: int,
)
    requires
        is_configured_once(paths, k),
        fan_driven(paths, fan_start(connections, request), events, keep),
    ensures
        ({
            let place = path_key(paths[k]);
            let s = fan_run(paths, fan_start(connections, request), events, keep);
            let asks = fan_asks(paths, fan_start(connections, request), events, keep);
            let n = tasks_to(sent(asks), place);
            let open = connections.contains_key(place);
            &&& s.next <= k ==> n == 0 && !is_opened(events, place) && !is_connecting(asks, place)
                && s.connections.contains_key(place) == open
            &&& s.next > k && open ==> n == 1 && !is_opened(events, place) && !is_connecting(
                asks,
                place,
            )
            &&& s.next > k && !open ==> n == (if is_opened(events, place) {
                1nat
            } else {
                0nat
            }) && (is_connecting(asks, place) ==> n == 0)
            &&& is_all_contacted(asks) ==> s.next >= paths.len()
        }),
    decreases events.len(),
{
    let place = path_key(paths[k]);
    let start = fan_start(connections, request);
    if events.len() > 0 {
        let before = events.drop_last();
        lemma_sends(paths, connections, request, before, keep, k);
        let s = fan_run(paths, start, before, keep);
        let asks = fan_asks(paths, start, before, keep);
        let all = fan_asks(paths, start, events, keep);
        assert(all.drop_last() == asks);
        let e = events.last();
        assert(is_opened(events, place) == (is_opened(before, place) || opens_to(e, place))) by {
            if is_opened(events, place) {
                let i = choose|i: int|
                    0 <= i < events.len() && opens_to(#[trigger] events[i], place);
                if i < before.len() {
                    assert(opens_to(before[i], place));
                }
            }
            if is_opened(before, place) {
                let i = choose|i: int|
                    0 <= i < before.len() && opens_to(#[trigger] before[i], place);
                assert(opens_to(events[i], place));
            }
            if opens_to(e, place) {
                assert(opens_to(events[events.len() - 1], place));
            }
        }
        if s.next < paths.len() && s.next != k {
            assert(path_key(paths[s.next as int]) != place);
        }
        match all.last() {
            Some(Action::Send { path, client, .. }) => {
                assert(sent(all).drop_last() == sent(asks));
                assert(sent(all).last() == (path, client));
            },
            _ => {
                assert(sent(all) == sent(asks));
            },
        }
    } else {
        assert(!is_opened(events, place));
    }
}

/// An agent that is configured once is sent one request at most. Once all
/// agents have been contacted, it has been sent one exactly when a connection
/// to it was open or could be opened.
pub proof fn agent_is_sent_one_request<C, R>(
    paths: Seq<Seq<u8>>,
    connections: Map<Seq<u8>, C>,
    request: Request<Seq<u8>>,
    events: Seq<Event<Seq<u8>, C, R>>,
    keep: spec_fn(R) -> bool,
    k: int,
)
    requires
        is_configured_once(paths, k),
        fan_driven(paths, fan_start(connections, request), events, keep),
    ensures
        ({
            let place = path_key(paths[k]);
            let asks = fan_asks(paths, fan_start(connections, request), events, keep);
            &&& tasks_to(sent(asks), place) <= 1
            &&& is_all_contacted(asks) ==> (tasks_to(sent(asks), place) == 1
                <==> connections.contains_key(place) || is_opened(events, place))
        }),
{
    lemma_sends(paths, connections, request, events, keep, k);
}

/// Every answer ends a task of its own.
pub proof fn answers_end_tasks<C, R>(
    paths: Seq<Seq<u8>>,
    s: FanState<C>,
    events: Seq<Event<Seq<u8>, C, R>>,
    keep: spec_fn(R) -> bool,
)
    requires
        fan_driven(paths, s, events, keep),
    ensures
        handed_back(events).to_multiset().subset_of(
            sent(fan_asks(paths, s, events, keep)).to_multiset(),
        ),
        tasks_left(events, fan_asks(paths, s, events, keep)) >= 0,
    decreases events.len(),
{
    broadcast use group_to_multiset_ensures;

    if events.len() > 0 {
        let before = events.drop_last();
        answers_end_tasks(paths, s, before, keep);
        let asks = fan_asks(paths, s, before, keep);
        let all = fan_asks(paths, s, events, keep);
        assert(all.drop_last() == asks);
        let back = handed_back(before);
        match events.last() {
            Event::Answered { path, client, .. } => {
                assert(handed_back(events).to_multiset() == back.to_multiset().insert(
                    (path, client),
                ));
            },
            _ => {},
        }
        match all.last() {
            Some(Action::Send { path, client, .. }) => {
                assert(sent(all).to_multiset() == sent(asks).to_multiset().insert((path, client)));
            },
            _ => {},
        }
    } else {
        assert(handed_back(events) == Seq::<(Seq<u8>, C)>::empty());
    }
}

/// When an operation ends without a lost task, every request that was sent has
/// been answered.
pub proof fn every_task_is_answered<C, R>(
    paths: Seq<Seq<u8>>,
    s: FanState<C>,
    events: Seq<Event<Seq<u8>, C, R>>,
    keep: spec_fn(R) -> bool,
)
    requires
        fan_driven(paths, s, events, keep),
        events.len() > 0,
        events.last() is Drained,
        lost(events) == 0,
    ensures
        handed_back(events).to_multiset() == sent(fan_asks(paths, s, events, keep)).to_multiset(),
{
    broadcast use group_to_multiset_ensures;

    let before = events.drop_last();
    let asks = fan_asks(paths, s, before, keep);
    let all = fan_asks(paths, s, events, keep);
    assert(all.drop_last() == asks);
    answers_end_tasks(paths, s, events, keep);
    lemma_same_size(handed_back(events).to_multiset(), sent(all).to_multiset());
}

proof fn lemma_same_size<T>(a: Multiset<T>, b: Multiset<T>)
    requires
        a.subset_of(b),
        a.len() == b.len(),
    ensures
        a == b,
{
    broadcast use vstd::multiset::group_multiset_axioms;

    let rest = b.sub(a);
    assert(rest.len() == 0);
    assert forall|x: T| a.count(x) == b.count(x) by {
        assert(rest.count(x) <= rest.len());
    }
    assert(a =~= b);
}

/// How many tasks go somewhere depends on the tasks, not on their order, and
/// fewer tasks go there as fewer go anywhere.
pub proof fn fewer_tasks<C>(a: Seq<(Seq<u8>, C)>, b: Seq<(Seq<u8>, C)>, place: Seq<u8>)
    requires
        a.to_multiset().subset_of(b.to_multiset()),
    ensures
        tasks_to(a, place) <= tasks_to(b, place),
    decreases a.len(),
{
    broadcast use group_to_multiset_ensures;

    if a.len() > 0 {
        let x = a.last();
        assert(a.drop_last().push(x) == a);
        assert(a.to_multiset() == a.drop_last().to_multiset().insert(x));
        assert(a.to_multiset().count(x) > 0);
        assert(b.contains(x));
        let j = choose|j: int| 0 <= j < b.len() && b[j] == x;
        let c = b.remove(j);
        assert(c.to_multiset() == b.to_multiset().remove(x));
        assert forall|y: (Seq<u8>, C)| a.drop_last().to_multiset().count(y)
            <= c.to_multiset().count(y) by {
            assert(a.to_multiset().count(y) <= b.to_multiset().count(y));
        }
        fewer_tasks(a.drop_last(), c, place);
        lemma_tasks_remove(b, j, place);
    }
}

proof fn lemma_tasks_remove<C>(b: Seq<(Seq<u8>, C)>, j: int, place: Seq<u8>)
    requires
        0 <= j < b.len(),
    ensures
        tasks_to(b, place) == tasks_to(b.remove(j), place) + if path_key(b[j].0) == place {
            1nat
        } else {
            0nat
        },
    decreases b.len(),
{
    if j == b.len() - 1 {
        assert(b.remove(j) == b.drop_last());
    } else {
        let c = b.drop_last();
        lemma_tasks_remove(c, j, place);
        assert(b.remove(j).drop_last() == c.remove(j));
        assert(b.remove(j).last() == b.last());
    }
}

/// An agent that is configured once answers once at most.
pub proof fn agent_answers_once<C, R>(
    paths: Seq<Seq<u8>>,
    connections: Map<Seq<u8>, C>,
    request: Request<Seq<u8>>,
    events: Seq<Event<Seq<u8>, C, R>>,
    keep: spec_fn(R) -> bool,
    k: int,
    i: int,
    j: int,
)
    requires
        is_configured_once(paths, k),
        fan_driven(paths, fan_start(connections, request), events, keep),
        0 <= i < j < events.len(),
    ensures
        !(is_answer_from(events[i], path_key(paths[k])) && is_answer_from(
            events[j],
            path_key(paths[k]),
        )),
{
    let place = path_key(paths[k]);
    let asks = fan_asks(paths, fan_start(connections, request), events, keep);
    agent_is_sent_one_request(paths, connections, request, events, keep, k);
    answers_end_tasks(paths, fan_start(connections, request), events, keep);
    fewer_tasks(handed_back(events), sent(asks), place);
    if is_answer_from(events[i], place) && is_answer_from(events[j], place) {
        lemma_two_answers(events, place, i, j);
    }
}

/// Whether an event is an answer from the path that `place` is the plainest
/// spelling of.
pub open spec fn is_answer_from<C, R>(event: Event<Seq<u8>, C, R>, place: Seq<u8>) -> bool {
    event matches Event::Answered { path, .. } && path_key(path) == place
}

proof fn lemma_one_answer<C, R>(events: Seq<Event<Seq<u8>, C, R>>, place: Seq<u8>, i: int)
    requires
        0 <= i < events.len(),
        is_answer_from(events[i], place),
    ensures
        tasks_to(handed_back(events), place) >= 1,
    decreases events.len(),
{
    let before = events.drop_last();
    lemma_answer_step(events, place);
    if i < events.len() - 1 {
        assert(before[i] == events[i]);
        lemma_one_answer(before, place, i);
    }
}

proof fn lemma_answer_step<C, R>(events: Seq<Event<Seq<u8>, C, R>>, place: Seq<u8>)
    requires
        events.len() > 0,
    ensures
        tasks_to(handed_back(events), place) == tasks_to(handed_back(events.drop_last()), place)
            + if is_answer_from(events.last(), place) {
            1nat
        } else {
            0nat
        },
{
    let back = handed_back(events.drop_last());
    match events.last() {
        Event::Answered { path, client, .. } => {
            assert(back.push((path, client)).drop_last() == back);
        },
        _ => {},
    }
}

proof fn lemma_two_answers<C, R>(events: Seq<Event<Seq<u8>, C, R>>, place: Seq<u8>, i: int, j: int)
    requires
        0 <= i < j < events.len(),
        is_answer_from(events[i], place),
        is_answer_from(events[j], place),
    ensures
        tasks_to(handed_back(events), place) >= 2,
    decreases events.len(),
{
    let before = events.drop_last();
    lemma_answer_step(events, place);
    assert(before[i] == events[i]);
    if j < events.len() - 1 {
        assert(before[j] == events[j]);
        lemma_two_answers(before, place, i, j);
    } else {
        lemma_one_answer(before, place, i);
    }
}

// ---------------------------------------------------------------------------
// Configured agents only
// ---------------------------------------------------------------------------
/// Whether every open connection leads to a configured agent.
pub open spec fn connected_within<C>(paths: Seq<Seq<u8>>, connections: Map<Seq<u8>, C>) -> bool {
    forall|place: Seq<u8>| #[trigger]
        connections.contains_key(place) ==> path_keys(paths).contains(place)
}

/// Whether everything that is asked for goes to configured agents only.
pub open spec fn asks_within<C>(
    paths: Seq<Seq<u8>>,
    asks: Seq<Option<Action<Seq<u8>, C>>>,
) -> bool {
    forall|i: int| 0 <= i < asks.len() ==> ask_within(paths, #[trigger] asks[i])
}

/// Whether what is asked for goes to configured agents only.
pub open spec fn ask_within<C>(paths: Seq<Seq<u8>>, ask: Option<Action<Seq<u8>, C>>) -> bool {
    ask matches Some(action) ==> match action_path(action) {
        Some(path) => paths.contains(path),
        None => true,
    }
}

/// The plainest spelling of a configured path is that of a configured path.
pub proof fn configured_key(paths: Seq<Seq<u8>>, path: Seq<u8>)
    requires
        paths.contains(path),
    ensures
        path_keys(paths).contains(path_key(path)),
{
    let i = choose|i: int| 0 <= i < paths.len() && paths[i] == path;
    assert(path_keys(paths)[i] == path_key(path));
}

/// An operation goes to configured agents only and keeps connections to no
/// others, and only configured agents answer.
pub proof fn operation_stays_within_configured_agents<C, R>(
    paths: Seq<Seq<u8>>,
    connections: Map<Seq<u8>, C>,
    request: Request<Seq<u8>>,
    events: Seq<Event<Seq<u8>, C, R>>,
    keep: spec_fn(R) -> bool,
)
    requires
        connected_within(paths, connections),
        fan_driven(paths, fan_start(connections, request), events, keep),
    ensures
        connected_within(
            paths,
            fan_run(paths, fan_start(connections, request), events, keep).connections,
        ),
        asks_within(paths, fan_asks(paths, fan_start(connections, request), events, keep)),
        events.len() > 0 ==> (events.last() matches Event::Answered { path, .. }
            ==> paths.contains(path)),
    decreases events.len(),
{
    if events.len() > 0 {
        let start = fan_start(connections, request);
        let before = events.drop_last();
        operation_stays_within_configured_agents(paths, connections, request, before, keep);
        let s = fan_run(paths, start, before, keep);
        let asks = fan_asks(paths, start, before, keep);
        let (after, ask) = fan_next(paths, s, events.last(), keep);
        match events.last() {
            Event::Connected { path, .. } => {
                assert(ask_within(paths, asks[asks.len() - 1]));
            },
            Event::Answered { path, client, .. } => {
                lemma_sent_somewhere(asks, path, client);
                let j = choose|j: int|
                    0 <= j < asks.len() && is_send(#[trigger] asks[j], path, client);
                assert(ask_within(paths, asks[j]));
                configured_key(paths, path);
            },
            _ => {},
        }
        if s.next < paths.len() {
            assert(paths.contains(paths[s.next as int]));
        }
        assert(ask_within(paths, ask));
        let all = fan_asks(paths, start, events, keep);
        assert forall|i: int| 0 <= i < all.len() implies ask_within(paths, #[trigger] all[i]) by {
            if i < asks.len() {
                assert(all[i] == asks[i]);
            }
        }
    }
}

} // verus!
