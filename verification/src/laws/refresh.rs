//! Refreshing the known keys.
use vstd::multiset::Multiset;
use vstd::prelude::*;
use vstd::seq_lib::group_to_multiset_ensures;
use crate::known_keys::{lists_key, with_keys_at};
use crate::laws::fan::{
    agent_answers_once, agent_is_sent_one_request, agents_get_the_request,
    answers_come_after_all_contacts,
    answers_end_tasks, asks,
    asks_within, connected_within, every_task_is_answered, fan_asks, fan_driven, fan_run, goes_over,
    handed_back, is_all_contacted, is_configured_once, is_opened, lost, may_follow,
    open_connection_is_used, operation_stays_within_configured_agents, sends_only, sent,
    tasks_to, FanState,
};
use crate::paths::path_key;
use crate::proto::IdentityView;
use crate::session::{
    find_step, listing_request, refresh_next, Action, Event, ListingEvent, RefreshState,
};
use crate::step::Step;

verus! {

/// The state of a refresh after a run of events.
pub open spec fn refresh_run<C>(
    paths: Seq<Seq<u8>>,
    s: RefreshState<C>,
    events: Seq<ListingEvent<C>>,
) -> RefreshState<C>
    decreases events.len(),
{
    if events.len() == 0 {
        s
    } else {
        refresh_next(paths, refresh_run(paths, s, events.drop_last()), events.last()).0
    }
}

/// The steps of a refresh on a run of events.
pub open spec fn refresh_steps<C>(
    paths: Seq<Seq<u8>>,
    s: RefreshState<C>,
    events: Seq<ListingEvent<C>>,
) -> Seq<Step<Action<Seq<u8>, C>, Seq<IdentityView>>>
    decreases events.len(),
{
    if events.len() == 0 {
        Seq::empty()
    } else {
        let before = events.drop_last();
        refresh_steps(paths, s, before).push(
            refresh_next(paths, refresh_run(paths, s, before), events.last()).1,
        )
    }
}

/// Whether a refresh is driven.
pub open spec fn refresh_driven<C>(
    paths: Seq<Seq<u8>>,
    s: RefreshState<C>,
    events: Seq<ListingEvent<C>>,
) -> bool
    decreases events.len(),
{
    events.len() > 0 ==> refresh_driven(paths, s, events.drop_last()) && may_follow(
        events.last(),
        events.drop_last(),
        asks(refresh_steps(paths, s, events.drop_last())),
    )
}

/// The state in which a refresh begins.
pub open spec fn refresh_start<C>(connections: Map<Seq<u8>, C>) -> RefreshState<C> {
    RefreshState { next: 0, connections, known: Map::empty(), identities: Seq::empty() }
}

/// The identities that an event brings.
pub open spec fn identities_in<C>(event: ListingEvent<C>) -> Seq<IdentityView> {
    match event {
        Event::Answered { reply: Some(ids), .. } => ids,
        _ => Seq::empty(),
    }
}

/// Whether an event is an agent's list that holds `key`.
pub open spec fn event_lists<C>(event: ListingEvent<C>, key: Seq<u8>) -> bool {
    lists_key(identities_in(event), key)
}

/// Whether an event is the good answer of the agent at the path that `place`
/// is the plainest spelling of.
pub open spec fn lists_from<C>(event: ListingEvent<C>, place: Seq<u8>) -> bool {
    event matches Event::Answered { path, reply: Some(_), .. } && path_key(path) == place
}

/// The identities that all events bring, in the order of the events.
pub open spec fn all_identities<C>(events: Seq<ListingEvent<C>>) -> Seq<IdentityView>
    decreases events.len(),
{
    if events.len() == 0 {
        Seq::empty()
    } else {
        all_identities(events.drop_last()) + identities_in(events.last())
    }
}

/// Whether the operation is still going on after these events.
pub open spec fn undrained<C, R>(events: Seq<Event<Seq<u8>, C, R>>) -> bool {
    forall|i: int| 0 <= i < events.len() ==> (#[trigger] events[i]) !is Drained
}

/// What a refresh returns is all that the agents list, agent by agent in the
/// order in which they answer.
pub proof fn refresh_returns_what_agents_list<C>(
    paths: Seq<Seq<u8>>,
    connections: Map<Seq<u8>, C>,
    events: Seq<ListingEvent<C>>,
)
    requires
        undrained(events),
    ensures
        refresh_run(paths, refresh_start(connections), events).identities == all_identities(
            events,
        ),
        refresh_next(
            paths,
            refresh_run(paths, refresh_start(connections), events),
            Event::Drained,
        ).1 == Step::<Action<Seq<u8>, C>, Seq<IdentityView>>::Return(all_identities(events)),
    decreases events.len(),
{
    if events.len() > 0 {
        let before = events.drop_last();
        assert forall|i: int| 0 <= i < before.len() implies (#[trigger] before[i]) !is Drained by {
            assert(events[i] !is Drained);
        }
        assert(events[events.len() - 1] !is Drained);
        refresh_returns_what_agents_list(paths, connections, before);
        let s = refresh_run(paths, refresh_start(connections), before);
        assert(s.identities + Seq::<IdentityView>::empty() =~= s.identities);
    }
}

/// After a refresh a key is known exactly when some agent has listed it, and
/// what was known before is forgotten.
pub proof fn refresh_knows_the_listed_keys<C>(
    paths: Seq<Seq<u8>>,
    connections: Map<Seq<u8>, C>,
    events: Seq<ListingEvent<C>>,
    key: Seq<u8>,
)
    ensures
        refresh_run(paths, refresh_start(connections), events).known.contains_key(key) <==> exists|
            i: int,
        |
            0 <= i < events.len() && #[trigger] event_lists(events[i], key),
    decreases events.len(),
{
    if events.len() > 0 {
        let before = events.drop_last();
        let n = events.len() - 1;
        refresh_knows_the_listed_keys(paths, connections, before, key);
        refresh_step_of_a_key(
            paths,
            refresh_run(paths, refresh_start(connections), before),
            events.last(),
            key,
        );
        if exists|i: int| 0 <= i < events.len() && #[trigger] event_lists(events[i], key) {
            let i = choose|i: int|
                0 <= i < events.len() && #[trigger] event_lists(events[i], key);
            if i < n {
                assert(event_lists(before[i], key));
            }
        }
        if exists|i: int| 0 <= i < before.len() && #[trigger] event_lists(before[i], key) {
            let i = choose|i: int|
                0 <= i < before.len() && #[trigger] event_lists(before[i], key);
            assert(event_lists(events[i], key));
        }
        if event_lists(events.last(), key) {
            assert(event_lists(events[n], key));
        }
    }
}

/// What one step of a refresh makes of a key: an agent that lists it has it led
/// there, and nothing else changes it.
pub proof fn refresh_step_of_a_key<C>(
    paths: Seq<Seq<u8>>,
    s: RefreshState<C>,
    event: ListingEvent<C>,
    key: Seq<u8>,
)
    ensures
        ({
            let after = refresh_next(paths, s, event).0;
            &&& after.known.contains_key(key) == (s.known.contains_key(key) || event_lists(
                event,
                key,
            ))
            &&& event_lists(event, key) ==> (event matches Event::Answered { path, .. }
                && after.known[key] == path)
            &&& !event_lists(event, key) && s.known.contains_key(key) ==> after.known[key]
                == s.known[key]
        }),
{
    match event {
        Event::Answered { path, client, reply: Some(ids) } => {
            let known = with_keys_at(s.known, path, ids);
            assert(refresh_next(paths, s, event).0.known == known);
        },
        _ => {
            assert(!event_lists(event, key));
        },
    }
}

/// A key that several agents list is led to the one that listed it last.
pub proof fn refresh_leads_to_the_last_lister<C>(
    paths: Seq<Seq<u8>>,
    connections: Map<Seq<u8>, C>,
    events: Seq<ListingEvent<C>>,
    key: Seq<u8>,
    i: int,
)
    requires
        0 <= i < events.len(),
        event_lists(events[i], key),
        forall|j: int| i < j < events.len() ==> !event_lists(#[trigger] events[j], key),
    ensures
        ({
            let known = refresh_run(paths, refresh_start(connections), events).known;
            &&& known.contains_key(key)
            &&& events[i] matches Event::Answered { path, .. } && known[key] == path
        }),
    decreases events.len(),
{
    let before = events.drop_last();
    let s = refresh_run(paths, refresh_start(connections), before);
    refresh_step_of_a_key(paths, s, events.last(), key);
    if i < events.len() - 1 {
        assert forall|j: int| i < j < before.len() implies !event_lists(
            #[trigger] before[j],
            key,
        ) by {
            assert(!event_lists(events[j], key));
        }
        assert(!event_lists(events[events.len() - 1], key));
        refresh_leads_to_the_last_lister(paths, connections, before, key, i);
    }
}

/// The keys that are known after a refresh are the keys of the identities that
/// it returns: every identity that a client is shown can be signed with.
pub proof fn known_keys_are_the_listed_identities<C>(
    paths: Seq<Seq<u8>>,
    connections: Map<Seq<u8>, C>,
    events: Seq<ListingEvent<C>>,
    key: Seq<u8>,
)
    requires
        undrained(events),
    ensures
        ({
            let s = refresh_run(paths, refresh_start(connections), events);
            s.known.contains_key(key) <==> lists_key(s.identities, key)
        }),
    decreases events.len(),
{
    let start = refresh_start(connections);
    let after = refresh_run(paths, start, events);
    if events.len() > 0 {
        let before = events.drop_last();
        assert forall|i: int| 0 <= i < before.len() implies (#[trigger] before[i]) !is Drained by {
            assert(events[i] !is Drained);
        }
        assert(events[events.len() - 1] !is Drained);
        known_keys_are_the_listed_identities(paths, connections, before, key);
        let s = refresh_run(paths, start, before);
        refresh_step_of_a_key(paths, s, events.last(), key);
        let more = identities_in(events.last());
        assert(after.identities =~= s.identities + more);
        lemma_lists_key_add(s.identities, more, key);
    }
}

proof fn lemma_lists_key_add(a: Seq<IdentityView>, b: Seq<IdentityView>, key: Seq<u8>)
    ensures
        lists_key(a + b, key) == (lists_key(a, key) || lists_key(b, key)),
{
    let both = a + b;
    if lists_key(both, key) {
        let i = choose|i: int| 0 <= i < both.len() && (#[trigger] both[i]).pubkey == key;
        if i < a.len() {
            assert(a[i].pubkey == key);
        } else {
            assert(b[i - a.len()].pubkey == key);
        }
    }
    if lists_key(a, key) {
        let i = choose|i: int| 0 <= i < a.len() && (#[trigger] a[i]).pubkey == key;
        assert(both[i].pubkey == key);
    }
    if lists_key(b, key) {
        let i = choose|i: int| 0 <= i < b.len() && (#[trigger] b[i]).pubkey == key;
        assert(both[i + a.len()].pubkey == key);
    }
}

/// After which replies a refresh keeps a connection.
pub open spec fn keeps_after_listing() -> spec_fn(Option<Seq<IdentityView>>) -> bool {
    |reply: Option<Seq<IdentityView>>| reply is Some
}

/// The part of a refresh's state that decides whom it contacts.
pub open spec fn refresh_fan<C>(s: RefreshState<C>) -> FanState<C> {
    FanState { next: s.next, connections: s.connections, request: listing_request() }
}

/// A refresh is an operation on all agents that keeps the connections to those
/// that give a list.
pub proof fn refresh_asks_all_agents<C>(
    paths: Seq<Seq<u8>>,
    s: RefreshState<C>,
    events: Seq<ListingEvent<C>>,
)
    ensures
        refresh_fan(refresh_run(paths, s, events)) == fan_run(
            paths,
            refresh_fan(s),
            events,
            keeps_after_listing(),
        ),
        asks(refresh_steps(paths, s, events)) == fan_asks(
            paths,
            refresh_fan(s),
            events,
            keeps_after_listing(),
        ),
        refresh_driven(paths, s, events) == fan_driven(
            paths,
            refresh_fan(s),
            events,
            keeps_after_listing(),
        ),
    decreases events.len(),
{
    if events.len() > 0 {
        let before = events.drop_last();
        refresh_asks_all_agents(paths, s, before);
        assert(asks(refresh_steps(paths, s, events)) =~= fan_asks(
            paths,
            refresh_fan(s),
            events,
            keeps_after_listing(),
        ));
    } else {
        assert(asks(refresh_steps(paths, s, events)) =~= fan_asks(
            paths,
            refresh_fan(s),
            events,
            keeps_after_listing(),
        ));
    }
}

proof fn lemma_refresh_answered<C>(
    paths: Seq<Seq<u8>>,
    s: RefreshState<C>,
    events: Seq<ListingEvent<C>>,
    i: int,
)
    requires
        refresh_driven(paths, s, events),
        0 <= i < events.len(),
        events[i] is Answered,
    ensures
        refresh_run(paths, s, events.take(i)).next >= paths.len(),
        refresh_run(paths, s, events).next >= paths.len(),
{
    refresh_asks_all_agents(paths, s, events);
    refresh_asks_all_agents(paths, s, events.take(i));
    answers_come_after_all_contacts(paths, refresh_fan(s), events, keeps_after_listing(), i);
}

/// An agent that answers a refresh keeps its connection: the one that its last
/// good answer came back over.
pub proof fn answering_agents_stay_connected<C>(
    paths: Seq<Seq<u8>>,
    connections: Map<Seq<u8>, C>,
    events: Seq<ListingEvent<C>>,
    place: Seq<u8>,
    i: int,
)
    requires
        refresh_driven(paths, refresh_start(connections), events),
        0 <= i < events.len(),
        lists_from(events[i], place),
        forall|j: int| i < j < events.len() ==> !lists_from(#[trigger] events[j], place),
    ensures
        ({
            let after = refresh_run(paths, refresh_start(connections), events);
            &&& after.connections.contains_key(place)
            &&& events[i] matches Event::Answered { client, .. } && after.connections[place]
                == client
        }),
    decreases events.len(),
{
    let start = refresh_start(connections);
    let before = events.drop_last();
    lemma_refresh_answered(paths, start, events, i);
    if i < events.len() - 1 {
        assert forall|j: int| i < j < before.len() implies !lists_from(
            #[trigger] before[j],
            place,
        ) by {
            assert(!lists_from(events[j], place));
        }
        assert(!lists_from(events[events.len() - 1], place));
        assert(before[i] == events[i]);
        answering_agents_stay_connected(paths, connections, before, place, i);
        lemma_refresh_answered(paths, start, before, i);
    } else {
        assert(events.take(i) == before);
    }
}

/// An agent that gives no good answer loses its connection: it could not be
/// reached, failed, did not answer in time, or was lost.
pub proof fn silent_agents_are_dropped<C>(
    paths: Seq<Seq<u8>>,
    connections: Map<Seq<u8>, C>,
    events: Seq<ListingEvent<C>>,
    k: int,
)
    requires
        0 <= k < paths.len(),
        refresh_run(paths, refresh_start(connections), events).next > k,
        forall|i: int|
            0 <= i < events.len() ==> !lists_from(#[trigger] events[i], path_key(paths[k])),
    ensures
        !refresh_run(paths, refresh_start(connections), events).connections.contains_key(
            path_key(paths[k]),
        ),
    decreases events.len(),
{
    if events.len() > 0 {
        let before = events.drop_last();
        assert forall|i: int| 0 <= i < before.len() implies !lists_from(
            #[trigger] before[i],
            path_key(paths[k]),
        ) by {
            assert(!lists_from(events[i], path_key(paths[k])));
        }
        assert(!lists_from(events[events.len() - 1], path_key(paths[k])));
        let s = refresh_run(paths, refresh_start(connections), before);
        if s.next > k {
            silent_agents_are_dropped(paths, connections, before, k);
        }
    }
}

/// Whenever a refresh leads a key to an agent, there is an open connection to
/// that agent.
pub proof fn routes_are_connected<C>(
    paths: Seq<Seq<u8>>,
    connections: Map<Seq<u8>, C>,
    events: Seq<ListingEvent<C>>,
    key: Seq<u8>,
)
    requires
        refresh_driven(paths, refresh_start(connections), events),
    ensures
        ({
            let after = refresh_run(paths, refresh_start(connections), events);
            after.known.contains_key(key) ==> after.connections.contains_key(
                path_key(after.known[key]),
            )
        }),
    decreases events.len(),
{
    let start = refresh_start(connections);
    if events.len() > 0 {
        let before = events.drop_last();
        routes_are_connected(paths, connections, before, key);
        refresh_step_of_a_key(paths, refresh_run(paths, start, before), events.last(), key);
        if event_lists(events.last(), key) {
            lemma_refresh_answered(paths, start, events, events.len() - 1);
            assert(events.take(events.len() - 1) == before);
        } else if refresh_run(paths, start, before).known.contains_key(key) {
            refresh_knows_the_listed_keys(paths, connections, before, key);
            let i = choose|i: int|
                0 <= i < before.len() && #[trigger] event_lists(before[i], key);
            lemma_refresh_answered(paths, start, before, i);
        }
    }
}

/// A search for an unknown key ends at an agent that has listed it, and in
/// vain exactly when none has.
pub proof fn search_ends_at_a_lister<C>(
    paths: Seq<Seq<u8>>,
    connections: Map<Seq<u8>, C>,
    events: Seq<ListingEvent<C>>,
    key: Seq<u8>,
)
    ensures
        ({
            let s = refresh_run(paths, refresh_start(connections), events);
            let (after, inner) = refresh_next(paths, s, Event::Drained);
            let found = find_step(after.known, key, inner);
            &&& found is Return
            &&& found == Step::<Action<Seq<u8>, C>, Option<Seq<u8>>>::Return(None)
                <==> !exists|i: int|
                0 <= i < events.len() && #[trigger] event_lists(events[i], key)
            &&& found matches Step::Return(Some(path)) ==> exists|i: int|
                0 <= i < events.len() && #[trigger] event_lists(events[i], key) && lists_from(
                    events[i],
                    path_key(path),
                )
        }),
{
    refresh_knows_the_listed_keys(paths, connections, events, key);
    if exists|i: int| 0 <= i < events.len() && #[trigger] event_lists(events[i], key) {
        let n = lemma_last_lister(events, key);
        refresh_leads_to_the_last_lister(paths, connections, events, key, n);
    }
}

proof fn lemma_last_lister<C>(events: Seq<ListingEvent<C>>, key: Seq<u8>) -> (n: int)
    requires
        exists|i: int| 0 <= i < events.len() && #[trigger] event_lists(events[i], key),
    ensures
        0 <= n < events.len(),
        event_lists(events[n], key),
        forall|j: int| n < j < events.len() ==> !event_lists(#[trigger] events[j], key),
    decreases events.len(),
{
    let i = choose|i: int| 0 <= i < events.len() && #[trigger] event_lists(events[i], key);
    let last = events.len() - 1;
    if event_lists(events[last], key) {
        last
    } else {
        let before = events.drop_last();
        assert(event_lists(before[i], key));
        let n = lemma_last_lister(before, key);
        assert forall|j: int| n < j < events.len() implies !event_lists(
            #[trigger] events[j],
            key,
        ) by {
            if j < last {
                assert(!event_lists(before[j], key));
            }
        }
        n
    }
}

// ---------------------------------------------------------------------------
// Whom a refresh asks
// ---------------------------------------------------------------------------
/// A refresh sends an agent that is configured once one request at most. Once
/// all agents have been contacted, it has sent one exactly when a connection to
/// the agent was open or could be opened.
pub proof fn refresh_asks_an_agent_once<C>(
    paths: Seq<Seq<u8>>,
    connections: Map<Seq<u8>, C>,
    events: Seq<ListingEvent<C>>,
    k: int,
)
    requires
        is_configured_once(paths, k),
        refresh_driven(paths, refresh_start(connections), events),
    ensures
        ({
            let place = path_key(paths[k]);
            let asks = asks(refresh_steps(paths, refresh_start(connections), events));
            &&& tasks_to(sent(asks), place) <= 1
            &&& is_all_contacted(asks) ==> (tasks_to(sent(asks), place) == 1
                <==> connections.contains_key(place) || is_opened(events, place))
        }),
{
    refresh_asks_all_agents(paths, refresh_start(connections), events);
    agent_is_sent_one_request(paths, connections, listing_request(), events, keeps_after_listing(), k);
}

/// A refresh asks every agent for its identities, and for nothing else.
pub proof fn refresh_asks_for_identities<C>(
    paths: Seq<Seq<u8>>,
    connections: Map<Seq<u8>, C>,
    events: Seq<ListingEvent<C>>,
    i: int,
)
    requires
        0 <= i < events.len(),
    ensures
        sends_only(
            asks(refresh_steps(paths, refresh_start(connections), events))[i],
            listing_request(),
        ),
{
    let start = refresh_start(connections);
    refresh_asks_all_agents(paths, start, events);
    agents_get_the_request(paths, refresh_fan(start), events, keeps_after_listing());
}

/// What a refresh returns holds one block at most of an agent that is
/// configured once: no two events are lists of that agent.
pub proof fn refresh_returns_one_block_per_agent<C>(
    paths: Seq<Seq<u8>>,
    connections: Map<Seq<u8>, C>,
    events: Seq<ListingEvent<C>>,
    k: int,
    i: int,
    j: int,
)
    requires
        is_configured_once(paths, k),
        refresh_driven(paths, refresh_start(connections), events),
        0 <= i < j < events.len(),
        lists_from(events[i], path_key(paths[k])),
    ensures
        !lists_from(events[j], path_key(paths[k])),
{
    refresh_asks_all_agents(paths, refresh_start(connections), events);
    agent_answers_once(
        paths,
        connections,
        listing_request(),
        events,
        keeps_after_listing(),
        k,
        i,
        j,
    );
}

/// A refresh does not cost a binding: it goes to an agent over the connection
/// that is open, which stays open until the agent's turn comes, and whenever
/// there is a connection to the agent afterwards, it is that one. This takes
/// an agent that is configured once: where it is configured again, a second
/// connection is opened to it.
pub proof fn binding_survives_a_refresh<C>(
    paths: Seq<Seq<u8>>,
    connections: Map<Seq<u8>, C>,
    events: Seq<ListingEvent<C>>,
    k: int,
)
    requires
        is_configured_once(paths, k),
        connections.contains_key(path_key(paths[k])),
        refresh_driven(paths, refresh_start(connections), events),
    ensures
        ({
            let place = path_key(paths[k]);
            let after = refresh_run(paths, refresh_start(connections), events);
            let asks = asks(refresh_steps(paths, refresh_start(connections), events));
            &&& after.connections.contains_key(place) ==> after.connections[place]
                == connections[place]
            &&& after.next <= k ==> after.connections.contains_key(place)
            &&& forall|i: int|
                0 <= i < asks.len() ==> goes_over(#[trigger] asks[i], place, connections[place])
        }),
{
    refresh_asks_all_agents(paths, refresh_start(connections), events);
    open_connection_is_used(paths, connections, listing_request(), events, keeps_after_listing(), k);
}

/// Whether every known key is led to a configured agent.
pub open spec fn routed_within(paths: Seq<Seq<u8>>, known: Map<Seq<u8>, Seq<u8>>) -> bool {
    forall|key: Seq<u8>| #[trigger] known.contains_key(key) ==> paths.contains(known[key])
}

/// A refresh goes to configured agents only, keeps connections to no others,
/// and leads keys to no others.
pub proof fn refresh_stays_within_configured_agents<C>(
    paths: Seq<Seq<u8>>,
    connections: Map<Seq<u8>, C>,
    events: Seq<ListingEvent<C>>,
)
    requires
        connected_within(paths, connections),
        refresh_driven(paths, refresh_start(connections), events),
    ensures
        ({
            let after = refresh_run(paths, refresh_start(connections), events);
            &&& connected_within(paths, after.connections)
            &&& routed_within(paths, after.known)
            &&& asks_within(paths, asks(refresh_steps(paths, refresh_start(connections), events)))
        }),
    decreases events.len(),
{
    let start = refresh_start(connections);
    refresh_asks_all_agents(paths, start, events);
    operation_stays_within_configured_agents(
        paths,
        connections,
        listing_request(),
        events,
        keeps_after_listing(),
    );
    if events.len() > 0 {
        let before = events.drop_last();
        refresh_stays_within_configured_agents(paths, connections, before);
        let s = refresh_run(paths, start, before);
        let after = refresh_run(paths, start, events);
        assert forall|key: Seq<u8>| #[trigger] after.known.contains_key(key) implies paths.contains(
            after.known[key],
        ) by {
            refresh_step_of_a_key(paths, s, events.last(), key);
        }
    }
}

// ---------------------------------------------------------------------------
// Agents that fail
// ---------------------------------------------------------------------------
/// An event that brings no identities, such as the failure of an agent, takes
/// nothing away from what the others bring: without it, the same identities
/// would be returned and the same keys known, led to the same agents.
pub proof fn silent_events_hide_nothing<C>(
    paths: Seq<Seq<u8>>,
    connections: Map<Seq<u8>, C>,
    events: Seq<ListingEvent<C>>,
    i: int,
)
    requires
        0 <= i < events.len(),
        identities_in(events[i]).len() == 0,
    ensures
        all_identities(events.remove(i)) == all_identities(events),
        refresh_run(paths, refresh_start(connections), events.remove(i)).known == refresh_run(
            paths,
            refresh_start(connections),
            events,
        ).known,
    decreases events.len(),
{
    let start = refresh_start(connections);
    let before = events.drop_last();
    let fewer = events.remove(i);
    let s = refresh_run(paths, start, before);
    if i == events.len() - 1 {
        assert(fewer == before);
        assert(all_identities(before) + identities_in(events[i]) =~= all_identities(before));
        let known = refresh_run(paths, start, events).known;
        assert forall|key: Seq<u8>| #![trigger known.contains_key(key)]
            known.contains_key(key) == s.known.contains_key(key) && (known.contains_key(key)
                ==> known[key] == s.known[key]) by {
            refresh_step_of_a_key(paths, s, events.last(), key);
            assert(!event_lists(events.last(), key));
        }
        assert(known =~= s.known);
    } else {
        assert(before[i] == events[i]);
        silent_events_hide_nothing(paths, connections, before, i);
        assert(fewer.drop_last() == before.remove(i));
        assert(fewer.last() == events.last());
        let t = refresh_run(paths, start, fewer.drop_last());
        lemma_known_alone(paths, s, t, events.last());
    }
}

proof fn lemma_known_alone<C>(
    paths: Seq<Seq<u8>>,
    s: RefreshState<C>,
    t: RefreshState<C>,
    event: ListingEvent<C>,
)
    requires
        s.known == t.known,
    ensures
        refresh_next(paths, s, event).0.known == refresh_next(paths, t, event).0.known,
{
}

/// Whether an event fits agents of which `lists` says what each lists: `None`
/// for one that cannot be reached, fails, does not answer in time, or whose task
/// is lost.
pub open spec fn answers_as<C>(
    event: ListingEvent<C>,
    lists: spec_fn(Seq<u8>) -> Option<Seq<IdentityView>>,
) -> bool {
    match event {
        Event::Connected { path, opened } => lists(path) is Some ==> opened is Some,
        Event::Answered { path, reply, .. } => reply == lists(path),
        _ => true,
    }
}

/// Whether all events do.
pub open spec fn all_answer_as<C>(
    events: Seq<ListingEvent<C>>,
    lists: spec_fn(Seq<u8>) -> Option<Seq<IdentityView>>,
) -> bool {
    forall|i: int| 0 <= i < events.len() ==> answers_as(#[trigger] events[i], lists)
}

/// What the agent at `path` lists, in no order.
pub open spec fn list_of(
    lists: spec_fn(Seq<u8>) -> Option<Seq<IdentityView>>,
    path: Seq<u8>,
) -> Multiset<IdentityView> {
    match lists(path) {
        Some(ids) => ids.to_multiset(),
        None => Multiset::empty(),
    }
}

/// What the agents at `paths` list together, in no order.
pub open spec fn lists_of(
    lists: spec_fn(Seq<u8>) -> Option<Seq<IdentityView>>,
    paths: Seq<Seq<u8>>,
) -> Multiset<IdentityView>
    decreases paths.len(),
{
    if paths.len() == 0 {
        Multiset::empty()
    } else {
        lists_of(lists, paths.drop_last()).add(list_of(lists, paths.last()))
    }
}

/// Where the tasks go.
pub open spec fn task_paths<C>(tasks: Seq<(Seq<u8>, C)>) -> Seq<Seq<u8>> {
    tasks.map_values(|t: (Seq<u8>, C)| t.0)
}

proof fn lemma_lists_push<C>(
    lists: spec_fn(Seq<u8>) -> Option<Seq<IdentityView>>,
    tasks: Seq<(Seq<u8>, C)>,
    task: (Seq<u8>, C),
)
    ensures
        lists_of(lists, task_paths(tasks.push(task))) == lists_of(lists, task_paths(tasks)).add(
            list_of(lists, task.0),
        ),
{
    assert(task_paths(tasks.push(task)).drop_last() =~= task_paths(tasks));
}

proof fn lemma_lists_remove(
    lists: spec_fn(Seq<u8>) -> Option<Seq<IdentityView>>,
    paths: Seq<Seq<u8>>,
    j: int,
)
    requires
        0 <= j < paths.len(),
    ensures
        lists_of(lists, paths) == lists_of(lists, paths.remove(j)).add(list_of(lists, paths[j])),
    decreases paths.len(),
{
    broadcast use vstd::multiset::group_multiset_axioms;

    if j == paths.len() - 1 {
        assert(paths.remove(j) == paths.drop_last());
    } else {
        let front = paths.drop_last();
        lemma_lists_remove(lists, front, j);
        assert(paths.remove(j).drop_last() == front.remove(j));
        assert(lists_of(lists, paths) =~= lists_of(lists, paths.remove(j)).add(
            list_of(lists, paths[j]),
        ));
    }
}

/// Whether every task of an agent that lists something has been answered.
pub open spec fn good_tasks_are_answered<C>(
    tasks: Seq<(Seq<u8>, C)>,
    answered: Seq<(Seq<u8>, C)>,
    lists: spec_fn(Seq<u8>) -> Option<Seq<IdentityView>>,
) -> bool {
    forall|task: (Seq<u8>, C)|
        lists(task.0) is Some ==> #[trigger] tasks.to_multiset().count(task)
            <= answered.to_multiset().count(task)
}

/// When no task is lost, every task has been answered at the end.
pub proof fn all_tasks_are_answered_when_none_is_lost<C>(
    paths: Seq<Seq<u8>>,
    connections: Map<Seq<u8>, C>,
    events: Seq<ListingEvent<C>>,
    lists: spec_fn(Seq<u8>) -> Option<Seq<IdentityView>>,
)
    requires
        refresh_driven(paths, refresh_start(connections), events),
        events.len() > 0,
        events.last() is Drained,
        lost(events) == 0,
    ensures
        good_tasks_are_answered(
            sent(asks(refresh_steps(paths, refresh_start(connections), events))),
            handed_back(events),
            lists,
        ),
{
    let start = refresh_start(connections);
    refresh_asks_all_agents(paths, start, events);
    every_task_is_answered(paths, refresh_fan(start), events, keeps_after_listing());
}

proof fn lemma_good_lists_alone<C>(
    lists: spec_fn(Seq<u8>) -> Option<Seq<IdentityView>>,
    a: Seq<(Seq<u8>, C)>,
    b: Seq<(Seq<u8>, C)>,
)
    requires
        forall|task: (Seq<u8>, C)|
            lists(task.0) is Some ==> #[trigger] a.to_multiset().count(task)
                == b.to_multiset().count(task),
    ensures
        lists_of(lists, task_paths(a)) == lists_of(lists, task_paths(b)),
    decreases a.len() + b.len(),
{
    broadcast use group_to_multiset_ensures;

    if a.len() > 0 {
        let x = a.last();
        let front = a.drop_last();
        assert(front.push(x) == a);
        assert(a.to_multiset() == front.to_multiset().insert(x));
        lemma_lists_push(lists, front, x);
        if lists(x.0) is Some {
            assert(a.contains(x) && a.to_multiset().count(x) > 0);
            assert(b.to_multiset().count(x) > 0 && b.contains(x));
            let j = choose|j: int| 0 <= j < b.len() && b[j] == x;
            let c = b.remove(j);
            assert(c.to_multiset() == b.to_multiset().remove(x));
            assert forall|task: (Seq<u8>, C)| lists(task.0) is Some implies
                #[trigger] front.to_multiset().count(task) == c.to_multiset().count(task) by {
                assert(a.to_multiset().count(task) == b.to_multiset().count(task));
            }
            lemma_good_lists_alone(lists, front, c);
            lemma_lists_remove(lists, task_paths(b), j);
            assert(task_paths(b).remove(j) =~= task_paths(c));
        } else {
            assert forall|task: (Seq<u8>, C)| lists(task.0) is Some implies
                #[trigger] front.to_multiset().count(task) == b.to_multiset().count(task) by {
                assert(a.to_multiset().count(task) == b.to_multiset().count(task));
            }
            lemma_good_lists_alone(lists, front, b);
            lemma_add_nothing(lists_of(lists, task_paths(front)));
        }
    } else if b.len() > 0 {
        let x = b.last();
        let front = b.drop_last();
        assert(front.push(x) == b);
        assert(b.to_multiset() == front.to_multiset().insert(x));
        assert(b.contains(x) && b.to_multiset().count(x) > 0);
        assert(!a.contains(x) && a.to_multiset().count(x) == 0);
        assert forall|task: (Seq<u8>, C)| lists(task.0) is Some implies
            #[trigger] a.to_multiset().count(task) == front.to_multiset().count(task) by {
            assert(a.to_multiset().count(task) == b.to_multiset().count(task));
        }
        lemma_lists_push(lists, front, x);
        lemma_good_lists_alone(lists, a, front);
        lemma_add_nothing(lists_of(lists, task_paths(front)));
    } else {
        assert(task_paths(a) =~= task_paths(b));
    }
}

proof fn lemma_add_nothing(m: Multiset<IdentityView>)
    ensures
        m.add(Multiset::empty()) == m,
{
    broadcast use vstd::multiset::group_multiset_axioms;

    assert(m.add(Multiset::empty()) =~= m);
}

proof fn lemma_lists_so_far<C>(
    paths: Seq<Seq<u8>>,
    connections: Map<Seq<u8>, C>,
    events: Seq<ListingEvent<C>>,
    lists: spec_fn(Seq<u8>) -> Option<Seq<IdentityView>>,
)
    requires
        refresh_driven(paths, refresh_start(connections), events),
        all_answer_as(events, lists),
    ensures
        ({
            let s = refresh_run(paths, refresh_start(connections), events);
            let asks = asks(refresh_steps(paths, refresh_start(connections), events));
            let under_way = if asks.len() > 0 && (asks.last() matches Some(
                Action::Connect { .. },
            )) {
                list_of(lists, asks.last()->0->Connect_path)
            } else {
                Multiset::empty()
            };
            &&& s.next <= paths.len()
            &&& lists_of(lists, task_paths(sent(asks))).add(under_way) == lists_of(
                lists,
                paths.take(s.next as int),
            )
            &&& all_identities(events).to_multiset() == lists_of(
                lists,
                task_paths(handed_back(events)),
            )
            &&& is_all_contacted(asks) ==> s.next == paths.len()
        }),
    decreases events.len(),
{
    broadcast use vstd::multiset::group_multiset_axioms;

    let start = refresh_start(connections);
    let all = asks(refresh_steps(paths, start, events));
    if events.len() > 0 {
        let before = events.drop_last();
        assert forall|i: int| 0 <= i < before.len() implies answers_as(
            #[trigger] before[i],
            lists,
        ) by {
            assert(answers_as(events[i], lists));
        }
        lemma_lists_so_far(paths, connections, before, lists);
        let s = refresh_run(paths, start, before);
        let asks = asks(refresh_steps(paths, start, before));
        let (after, step) = refresh_next(paths, s, events.last());
        assert(all.drop_last() =~= asks);
        let event = events.last();
        assert(answers_as(events[events.len() - 1], lists));
        if s.next < paths.len() {
            assert(paths.take(s.next as int + 1).drop_last() =~= paths.take(s.next as int));
        }
        match all.last() {
            Some(Action::Send { path, client, .. }) => {
                lemma_lists_push(lists, sent(asks), (path, client));
            },
            _ => {},
        }
        let ids = all_identities(before);
        match event {
            Event::Answered { path, client, .. } => {
                vstd::seq_lib::lemma_multiset_commutative(ids, identities_in(event));
                lemma_lists_push(lists, handed_back(before), (path, client));
                assert(identities_in(event).to_multiset() =~= list_of(lists, path)) by {
                    broadcast use group_to_multiset_ensures;

                    if lists(path) is None {
                        assert(identities_in(event).len() == 0);
                        assert(identities_in(event).to_multiset().len() == 0);
                    }
                }
            },
            _ => {
                assert(ids + identities_in(event) =~= ids);
            },
        }
        assert(lists_of(lists, task_paths(sent(all))).add(
            if all.last() matches Some(Action::Connect { .. }) {
                list_of(lists, all.last()->0->Connect_path)
            } else {
                Multiset::empty()
            },
        ) =~= lists_of(lists, paths.take(after.next as int)));
    } else {
        broadcast use group_to_multiset_ensures;

        assert(paths.take(0) =~= Seq::<Seq<u8>>::empty());
        assert(task_paths(sent(all)) =~= Seq::<Seq<u8>>::empty());
        assert(task_paths(handed_back(events)) =~= Seq::<Seq<u8>>::empty());
        assert(all_identities(events).to_multiset().len() == 0);
        assert(all_identities(events).to_multiset() =~= Multiset::<IdentityView>::empty());
        assert(lists_of(lists, Seq::empty()).add(Multiset::empty()) =~= Multiset::<
            IdentityView,
        >::empty());
    }
}

/// A refresh that runs to its end returns what the agents list that can be
/// reached and answer, all of it and nothing else, whatever tasks of other
/// agents are lost.
pub proof fn refresh_returns_every_list<C>(
    paths: Seq<Seq<u8>>,
    connections: Map<Seq<u8>, C>,
    events: Seq<ListingEvent<C>>,
    lists: spec_fn(Seq<u8>) -> Option<Seq<IdentityView>>,
)
    requires
        refresh_driven(paths, refresh_start(connections), events),
        all_answer_as(events, lists),
        events.len() > 0,
        events.last() is Drained,
        good_tasks_are_answered(
            sent(asks(refresh_steps(paths, refresh_start(connections), events))),
            handed_back(events),
            lists,
        ),
    ensures
        ({
            let steps = refresh_steps(paths, refresh_start(connections), events);
            steps.last() matches Step::Return(ids) && ids.to_multiset() == lists_of(lists, paths)
        }),
{
    let start = refresh_start(connections);
    let before = events.drop_last();
    let all = asks(refresh_steps(paths, start, events));
    lemma_lists_so_far(paths, connections, events, lists);
    lemma_drained_last(paths, start, events);
    refresh_asks_all_agents(paths, start, events);
    answers_end_tasks(paths, refresh_fan(start), events, keeps_after_listing());
    assert forall|task: (Seq<u8>, C)| lists(task.0) is Some implies #[trigger] handed_back(
        events,
    ).to_multiset().count(task) == sent(all).to_multiset().count(task) by {
        assert(sent(all).to_multiset().count(task) <= handed_back(events).to_multiset().count(
            task,
        ));
    }
    lemma_good_lists_alone(lists, handed_back(events), sent(all));
    refresh_returns_what_agents_list(paths, connections, before);
    assert(all_identities(before) + Seq::<IdentityView>::empty() =~= all_identities(before));
    assert(paths.take(paths.len() as int) =~= paths);
    lemma_add_nothing(lists_of(lists, task_paths(sent(all))));
}

proof fn lemma_drained_last<C>(
    paths: Seq<Seq<u8>>,
    s: RefreshState<C>,
    events: Seq<ListingEvent<C>>,
)
    requires
        refresh_driven(paths, s, events),
    ensures
        forall|i: int| 0 <= i < events.len() - 1 ==> (#[trigger] events[i]) !is Drained,
        events.len() > 0 ==> undrained(events.drop_last()),
    decreases events.len(),
{
    if events.len() > 1 {
        let before = events.drop_last();
        lemma_drained_last(paths, s, before);
        let asks = asks(refresh_steps(paths, s, before));
        assert(before.last() !is Drained) by {
            if before.last() is Drained {
                assert(asks.last() is None);
            }
        }
        assert forall|i: int| 0 <= i < events.len() - 1 implies (#[trigger] events[i])
            !is Drained by {
            assert(before[i] == events[i]);
            if i < before.len() - 1 {
                assert(before[i] !is Drained);
            }
        }
    }
}

/// An agent that cannot be reached, fails, does not answer in time, or whose
/// task is lost, hides nothing of the others: with and without it, a refresh returns the same
/// identities, in whatever order, and the same keys are known.
pub proof fn failing_agent_hides_nothing<C>(
    paths: Seq<Seq<u8>>,
    k: int,
    failing: Seq<u8>,
    lists: spec_fn(Seq<u8>) -> Option<Seq<IdentityView>>,
    connections: Map<Seq<u8>, C>,
    events: Seq<ListingEvent<C>>,
    other_connections: Map<Seq<u8>, C>,
    other_events: Seq<ListingEvent<C>>,
)
    requires
        0 <= k <= paths.len(),
        lists(failing) is None,
        refresh_driven(paths, refresh_start(connections), events),
        all_answer_as(events, lists),
        events.len() > 0,
        events.last() is Drained,
        good_tasks_are_answered(
            sent(asks(refresh_steps(paths, refresh_start(connections), events))),
            handed_back(events),
            lists,
        ),
        refresh_driven(
            paths.insert(k, failing),
            refresh_start(other_connections),
            other_events,
        ),
        all_answer_as(other_events, lists),
        other_events.len() > 0,
        other_events.last() is Drained,
        good_tasks_are_answered(
            sent(
                asks(
                    refresh_steps(
                        paths.insert(k, failing),
                        refresh_start(other_connections),
                        other_events,
                    ),
                ),
            ),
            handed_back(other_events),
            lists,
        ),
    ensures
        ({
            let more = paths.insert(k, failing);
            let start = refresh_start(connections);
            let other_start = refresh_start(other_connections);
            let returned = refresh_steps(paths, start, events).last();
            let other_returned = refresh_steps(more, other_start, other_events).last();
            &&& returned is Return
            &&& other_returned is Return
            &&& returned->Return_0.to_multiset() == other_returned->Return_0.to_multiset()
            &&& refresh_run(paths, start, events).known.dom() == refresh_run(
                more,
                other_start,
                other_events,
            ).known.dom()
        }),
{
    let more = paths.insert(k, failing);
    let start = refresh_start(connections);
    let other_start = refresh_start(other_connections);
    refresh_returns_every_list(paths, connections, events, lists);
    refresh_returns_every_list(more, other_connections, other_events, lists);
    lemma_lists_remove(lists, more, k);
    assert(more.remove(k) =~= paths);
    assert(lists_of(lists, more) =~= lists_of(lists, paths)) by {
        broadcast use vstd::multiset::group_multiset_axioms;

    }
    let known = refresh_run(paths, start, events).known;
    let other_known = refresh_run(more, other_start, other_events).known;
    let ids = refresh_run(paths, start, events.drop_last()).identities;
    let other_ids = refresh_run(more, other_start, other_events.drop_last()).identities;
    lemma_drained_last(paths, start, events);
    lemma_drained_last(more, other_start, other_events);
    assert forall|key: Seq<u8>| known.contains_key(key) == other_known.contains_key(key) by {
        known_keys_are_the_listed_identities(paths, connections, events.drop_last(), key);
        known_keys_are_the_listed_identities(
            more,
            other_connections,
            other_events.drop_last(),
            key,
        );
        if lists_key(ids, key) {
            lemma_same_keys(ids, other_ids, key);
        }
        if lists_key(other_ids, key) {
            lemma_same_keys(other_ids, ids, key);
        }
    }
    assert(known.dom() =~= other_known.dom());
}

proof fn lemma_same_keys(a: Seq<IdentityView>, b: Seq<IdentityView>, key: Seq<u8>)
    requires
        a.to_multiset() == b.to_multiset(),
        lists_key(a, key),
    ensures
        lists_key(b, key),
{
    broadcast use group_to_multiset_ensures;

    let i = choose|i: int| 0 <= i < a.len() && (#[trigger] a[i]).pubkey == key;
    assert(a.contains(a[i]) && a.to_multiset().count(a[i]) > 0);
    assert(b.to_multiset().count(a[i]) > 0 && b.contains(a[i]));
    let j = choose|j: int| 0 <= j < b.len() && b[j] == a[i];
    assert(b[j].pubkey == key);
}

} // verus!
