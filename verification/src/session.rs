//! Sessions: what the multiplexer does for one client.
//!
//! Each client connection gets its own [`MuxSession`] with its own set of
//! upstream agent connections. This preserves session-bind state across
//! operations: when a client sends session-bind followed by sign, both go
//! through the same upstream connection, so the host key binding is retained
//! for the signature.
//!
//! A session performs no I/O: the caller drives every operation, one [`Step`]
//! at a time. `C` is the type of an upstream connection.
use vstd::prelude::*;
use vstd::string::StringExecFns;
use vstd::utf8::{
    encode_utf8, encode_utf8_decode_utf8, encode_utf8_valid_utf8, is_ascii_chars,
    is_ascii_chars_encode_utf8, is_char_boundary, is_char_boundary_iff_is_leading_byte,
    is_char_boundary_start_end_of_seq,
};
use crate::byte_map::ByteMap;
use crate::known_keys::{made_with, share, shared_keys, with_keys_at, KnownPubKeys, SharedKeys};
use crate::notify::{hash, hex, is_hex_digit, sha256, sign_body, sign_title, ID_LEN};
use crate::paths::{path_key, plain_path};
use crate::peer::PeerInfo;
use crate::proto::{
    fingerprint, identity_views, key_fingerprint, query_answer, result_view, Extension, Identity,
    IdentityView, MuxError, PubKey, Request, SignRequest, SocketPath, SESSION_BIND_TIMEOUT,
    SIGN_TIMEOUT, UPSTREAM_TIMEOUT,
};
use crate::step::Step;
use crate::text::copy_bytes;

verus! {

// ---------------------------------------------------------------------------
// Sessions
// ---------------------------------------------------------------------------
/// Per-client session with persistent upstream connections.
pub struct MuxSession<C> {
    socket_paths: Vec<SocketPath>,
    known_keys: SharedKeys,
    upstream: ByteMap<C>,
    peer: Option<PeerInfo>,
}

/// The bytes of each path.
pub open spec fn path_views(paths: Seq<SocketPath>) -> Seq<Seq<u8>> {
    paths.map_values(|p: SocketPath| p@)
}

/// The displayed peer of a session.
pub open spec fn peer_text(peer: Option<PeerInfo>) -> Seq<char> {
    match peer {
        Some(p) => p.display_text(),
        None => "<unknown>"@,
    }
}

impl<C> MuxSession<C> {
    /// The sockets of the configured upstream agents, in order.
    pub closed spec fn paths(&self) -> Seq<Seq<u8>> {
        path_views(self.socket_paths@)
    }

    /// The open connections, each under the plainest spelling of the path of
    /// the socket that it leads to.
    pub closed spec fn connections(&self) -> Map<Seq<u8>, C> {
        self.upstream@
    }

    /// The handle to the known keys.
    pub closed spec fn keys(&self) -> SharedKeys {
        self.known_keys
    }

    /// The client, where it is known.
    pub closed spec fn client(&self) -> Option<PeerInfo> {
        self.peer
    }

    /// No socket has two connections.
    pub closed spec fn well_formed(&self) -> bool {
        self.upstream.well_formed()
    }

    /// The client as text.
    pub fn peer_display(&self) -> (out: String)
        ensures
            out@ == peer_text(self.client()),
    {
        match &self.peer {
            Some(p) => p.to_string(),
            None => "<unknown>".to_string(),
        }
    }

    /// The handle to the known keys, which are to be locked for every operation
    /// that reads or refreshes them.
    pub fn known_keys(&self) -> (keys: &SharedKeys)
        ensures
            *keys == self.keys(),
    {
        &self.known_keys
    }

    /// Whether there is an open connection to `path`.
    pub fn is_connected(&self, path: &[u8]) -> (yes: bool)
        requires
            self.well_formed(),
        ensures
            yes == self.connections().contains_key(path_key(path@)),
    {
        self.upstream.contains_key(plain_path(path).as_slice())
    }

    /// The open connection to `path`.
    pub fn connection_mut(&mut self, path: &[u8]) -> (client: Option<&mut C>)
        requires
            old(self).well_formed(),
        ensures
            final(self).well_formed(),
            final(self).paths() == old(self).paths(),
            final(self).client() == old(self).client(),
            final(self).keys() == old(self).keys(),
            client is Some == old(self).connections().contains_key(path_key(path@)),
            client matches Some(c) ==> {
                &&& *c == old(self).connections()[path_key(path@)]
                &&& final(self).connections() == old(self).connections().insert(
                    path_key(path@),
                    *final(c),
                )
            },
            client is None ==> final(self).connections() == old(self).connections(),
    {
        let key = plain_path(path);
        self.upstream.get_mut(key.as_slice())
    }
}

/// Shared agent state: creates a fresh [`MuxSession`] (with no open
/// connections) per client. The sessions share the known keys with the agent,
/// with its clones, and with each other.
pub struct MuxAgent {
    socket_paths: Vec<SocketPath>,
    known_keys: SharedKeys,
}

fn copy_paths(paths: &Vec<SocketPath>) -> (copy: Vec<SocketPath>)
    ensures
        path_views(copy@) == path_views(paths@),
{
    let mut copy: Vec<SocketPath> = Vec::new();
    let mut i: usize = 0;
    while i < paths.len()
        invariant
            i <= paths@.len(),
            copy@.len() == i,
            forall|j: int| 0 <= j < i ==> (#[trigger] copy@[j])@ == paths@[j]@,
        decreases paths@.len() - i,
    {
        copy.push(copy_bytes(paths[i].as_slice()));
        i += 1;
    }
    proof {
        assert(path_views(copy@) =~= path_views(paths@));
    }
    copy
}

impl MuxAgent {
    /// The sockets of the configured upstream agents, in order.
    pub closed spec fn paths(&self) -> Seq<Seq<u8>> {
        path_views(self.socket_paths@)
    }

    /// The handle to the known keys.
    pub closed spec fn keys(&self) -> SharedKeys {
        self.known_keys
    }

    /// An agent that multiplexes the agents at `socket_paths`.
    pub fn new(socket_paths: Vec<SocketPath>) -> (agent: MuxAgent)
        ensures
            agent.paths() == path_views(socket_paths@),
            made_with(*agent.keys()) == Map::<Seq<u8>, Seq<u8>>::empty(),
    {
        MuxAgent { socket_paths, known_keys: shared_keys() }
    }

    /// How many upstream agents are configured.
    pub fn agent_count(&self) -> (n: usize)
        ensures
            n == self.paths().len(),
    {
        self.socket_paths.len()
    }

    /// A session for a newly accepted client.
    pub fn new_session<C>(&self, peer: Option<PeerInfo>) -> (session: MuxSession<C>)
        ensures
            session.well_formed(),
            session.paths() == self.paths(),
            session.keys() == self.keys(),
            session.connections() == Map::<Seq<u8>, C>::empty(),
            session.client() == peer,
    {
        MuxSession {
            socket_paths: copy_paths(&self.socket_paths),
            known_keys: share(&self.known_keys),
            upstream: ByteMap::new(),
            peer,
        }
    }
}

impl Clone for MuxAgent {
    fn clone(&self) -> (copy: MuxAgent)
        ensures
            copy.paths() == self.paths(),
            copy.keys() == self.keys(),
    {
        MuxAgent {
            socket_paths: copy_paths(&self.socket_paths),
            known_keys: share(&self.known_keys),
        }
    }
}

// ---------------------------------------------------------------------------
// Asking all upstream agents
// ---------------------------------------------------------------------------
/// What an operation on all upstream agents asks for.
#[derive(Debug)]
pub enum Action<P, C> {
    /// Connect to `path`, and report [`Event::Connected`].
    Connect { path: P },
    /// Start a task that sends `request` over `client` and waits for the answer
    /// as long as the request says, and report [`Event::Proceed`] at once.
    Send { path: P, client: C, request: Request<P> },
    /// Wait for a task to end, and report [`Event::Answered`] or
    /// [`Event::Lost`]; [`Event::Drained`] when no task is left.
    Collect,
}

/// What happened, in an operation on all upstream agents. `R` is the reply.
#[derive(Debug)]
pub enum Event<P, C, R> {
    /// The operation may go on.
    Proceed,
    /// The attempt to connect to `path` ended; `opened` is `None` if it failed.
    Connected { path: P, opened: Option<C> },
    /// A task ended: it hands back its connection and the reply.
    Answered { path: P, client: C, reply: R },
    /// A task was lost, and its connection with it.
    Lost,
    /// No task is left.
    Drained,
}

impl<C> View for Action<SocketPath, C> {
    type V = Action<Seq<u8>, C>;

    open spec fn view(&self) -> Action<Seq<u8>, C> {
        match *self {
            Action::Connect { path } => Action::Connect { path: path@ },
            Action::Send { path, client, request } => Action::Send {
                path: path@,
                client,
                request: request@,
            },
            Action::Collect => Action::Collect,
        }
    }
}

/// The next agent to contact with `request`, out of `paths` from `next` on: over
/// its open connection, which is then in use, or over one to be opened. Once
/// all have been contacted, the replies are collected.
pub open spec fn contact<C>(
    paths: Seq<Seq<u8>>,
    next: nat,
    connections: Map<Seq<u8>, C>,
    request: Request<Seq<u8>>,
) -> (nat, Map<Seq<u8>, C>, Action<Seq<u8>, C>) {
    if next < paths.len() {
        let path = paths[next as int];
        let key = path_key(path);
        if connections.contains_key(key) {
            (
                next + 1,
                connections.remove(key),
                Action::Send { path, client: connections[key], request },
            )
        } else {
            (next + 1, connections, Action::Connect { path })
        }
    } else {
        (next, connections, Action::Collect)
    }
}

impl<C> MuxSession<C> {
    fn contact_next(&mut self, next: &mut usize, request: &Request<Vec<u8>>) -> (action: Action<
        SocketPath,
        C,
    >)
        requires
            old(self).well_formed(),
        ensures
            final(self).well_formed(),
            final(self).paths() == old(self).paths(),
            final(self).client() == old(self).client(),
            final(self).keys() == old(self).keys(),
            (*final(next) as nat, final(self).connections(), action@) == contact(
                old(self).paths(),
                *old(next) as nat,
                old(self).connections(),
                request@,
            ),
    {
        if *next < self.socket_paths.len() {
            let path = copy_bytes(self.socket_paths[*next].as_slice());
            *next = *next + 1;
            let key = plain_path(path.as_slice());
            match self.upstream.remove(key.as_slice()) {
                Some(client) => Action::Send { path, client, request: request.copy() },
                None => {
                    proof {
                        assert(self.upstream@ =~= old(self).upstream@);
                    }
                    Action::Connect { path }
                },
            }
        } else {
            Action::Collect
        }
    }
}

/// An event as mathematical values; `read` says what a reply amounts to.
pub open spec fn event_view<C, R, V>(
    event: Event<SocketPath, C, R>,
    read: spec_fn(R) -> V,
) -> Event<Seq<u8>, C, V> {
    match event {
        Event::Proceed => Event::Proceed,
        Event::Connected { path, opened } => Event::Connected { path: path@, opened },
        Event::Answered { path, client, reply } => Event::Answered {
            path: path@,
            client,
            reply: read(reply),
        },
        Event::Lost => Event::Lost,
        Event::Drained => Event::Drained,
    }
}

// ---------------------------------------------------------------------------
// Listing identities
// ---------------------------------------------------------------------------
/// A refresh of the known keys that is under way.
#[derive(Debug)]
pub struct Refresh {
    next: usize,
    identities: Vec<Identity>,
}

/// Everything that a refresh reads and changes.
pub struct RefreshState<C> {
    /// How many agents have been contacted.
    pub next: nat,
    /// The open connections that are not in use.
    pub connections: Map<Seq<u8>, C>,
    /// The known keys.
    pub known: Map<Seq<u8>, Seq<u8>>,
    /// The identities listed so far.
    pub identities: Seq<IdentityView>,
}

/// An event of a refresh. The reply is the list of identities, or `None` when
/// the agent failed to give one.
pub type ListingEvent<C> = Event<Seq<u8>, C, Option<Seq<IdentityView>>>;

/// What a reply to a request for identities amounts to.
pub open spec fn listing<E>(reply: Result<Vec<Identity>, MuxError<E, String>>) -> Option<
    Seq<IdentityView>,
> {
    match reply {
        Ok(ids) => Some(identity_views(ids@)),
        Err(_) => None,
    }
}

/// The request that a refresh sends.
pub open spec fn listing_request() -> Request<Seq<u8>> {
    Request::Identities { limit: UPSTREAM_TIMEOUT }
}

/// Contacts the next agent.
pub open spec fn refresh_on<C>(paths: Seq<Seq<u8>>, s: RefreshState<C>) -> (
    RefreshState<C>,
    Step<Action<Seq<u8>, C>, Seq<IdentityView>>,
) {
    let (next, connections, action) = contact(paths, s.next, s.connections, listing_request());
    (RefreshState { next, connections, ..s }, Step::Perform(action))
}

/// One step of a refresh. An agent that answers with its identities keeps its
/// connection, and each of its keys is led to it. An agent that cannot be
/// reached, fails to answer or is lost is left out, without its connection.
pub open spec fn refresh_next<C>(
    paths: Seq<Seq<u8>>,
    s: RefreshState<C>,
    event: ListingEvent<C>,
) -> (RefreshState<C>, Step<Action<Seq<u8>, C>, Seq<IdentityView>>) {
    match event {
        Event::Connected { path, opened: Some(client) } => (
            s,
            Step::Perform(Action::Send { path, client, request: listing_request() }),
        ),
        Event::Answered { path, client, reply: Some(ids) } => refresh_on(
            paths,
            RefreshState {
                next: s.next,
                connections: s.connections.insert(path_key(path), client),
                known: with_keys_at(s.known, path, ids),
                identities: s.identities + ids,
            },
        ),
        Event::Drained => (
            RefreshState { identities: Seq::empty(), ..s },
            Step::Return(s.identities),
        ),
        _ => refresh_on(paths, s),
    }
}

/// A step of an operation that returns identities, as mathematical values.
pub open spec fn listing_step<C>(step: Step<Action<SocketPath, C>, Vec<Identity>>) -> Step<
    Action<Seq<u8>, C>,
    Seq<IdentityView>,
> {
    match step {
        Step::Perform(action) => Step::Perform(action@),
        Step::Return(ids) => Step::Return(identity_views(ids@)),
    }
}

impl Refresh {
    /// How many agents have been contacted.
    pub closed spec fn contacted(&self) -> nat {
        self.next as nat
    }

    /// The identities listed so far.
    pub closed spec fn listed(&self) -> Seq<IdentityView> {
        identity_views(self.identities@)
    }

    /// Starts a refresh: every key is forgotten.
    pub fn begin(known: &mut KnownPubKeys) -> (refresh: Refresh)
        ensures
            final(known).well_formed(),
            final(known)@ == Map::<Seq<u8>, Seq<u8>>::empty(),
            refresh.contacted() == 0,
            refresh.listed() == Seq::<IdentityView>::empty(),
    {
        known.clear();
        let refresh = Refresh { next: 0, identities: Vec::new() };
        proof {
            assert(refresh.listed() =~= Seq::<IdentityView>::empty());
        }
        refresh
    }
}

impl<C> MuxSession<C> {
    /// The state of a refresh in this session.
    pub open spec fn refresh_state(&self, known: &KnownPubKeys, refresh: &Refresh) -> RefreshState<
        C,
    > {
        RefreshState {
            next: refresh.contacted(),
            connections: self.connections(),
            known: known@,
            identities: refresh.listed(),
        }
    }

    /// One step of a refresh, which lists the identities of all upstream agents
    /// and relearns which agent holds which key.
    pub fn refresh_identities<E>(
        &mut self,
        known: &mut KnownPubKeys,
        refresh: &mut Refresh,
        event: Event<SocketPath, C, Result<Vec<Identity>, MuxError<E, String>>>,
    ) -> (step: Step<Action<SocketPath, C>, Vec<Identity>>)
        requires
            old(self).well_formed(),
            old(known).well_formed(),
        ensures
            final(self).well_formed(),
            final(known).well_formed(),
            final(self).paths() == old(self).paths(),
            final(self).client() == old(self).client(),
            final(self).keys() == old(self).keys(),
            (
                final(self).refresh_state(final(known), final(refresh)),
                listing_step(step),
            ) == refresh_next(
                old(self).paths(),
                old(self).refresh_state(old(known), old(refresh)),
                event_view(
                    event,
                    |r: Result<Vec<Identity>, MuxError<E, String>>| listing(r),
                ),
            ),
    {
        match event {
            Event::Connected { path, opened } => {
                match opened {
                    Some(client) => {
                        let request = Request::Identities { limit: UPSTREAM_TIMEOUT };
                        return Step::Perform(Action::Send { path, client, request });
                    },
                    None => {},
                }
            },
            Event::Answered { path, client, reply } => {
                match reply {
                    Ok(ids) => {
                        known.record(path.as_slice(), &ids);
                        let ghost before = refresh.identities@;
                        let ghost more = ids@;
                        let mut ids = ids;
                        refresh.identities.append(&mut ids);
                        self.upstream.insert(plain_path(path.as_slice()), client);
                        proof {
                            assert(identity_views(before + more) =~= identity_views(before)
                                + identity_views(more));
                        }
                    },
                    Err(_) => {},
                }
            },
            Event::Drained => {
                let mut identities: Vec<Identity> = Vec::new();
                identities.append(&mut refresh.identities);
                proof {
                    assert(identities@ =~= old(refresh).identities@);
                    assert(refresh.listed() =~= Seq::<IdentityView>::empty());
                }
                return Step::Return(identities);
            },
            Event::Proceed => {},
            Event::Lost => {},
        }
        let request = Request::Identities { limit: UPSTREAM_TIMEOUT };
        Step::Perform(self.contact_next(&mut refresh.next, &request))
    }
}

// ---------------------------------------------------------------------------
// Finding the agent that holds a key
// ---------------------------------------------------------------------------
/// A search for the agent that holds a key, while the known keys are
/// refreshed.
#[derive(Debug)]
pub struct FindAgent {
    pubkey: PubKey,
    refresh: Refresh,
}

impl FindAgent {
    /// The key that is looked for.
    pub closed spec fn key(&self) -> Seq<u8> {
        self.pubkey@
    }

    /// The refresh that is under way.
    pub closed spec fn refreshing(&self) -> Refresh {
        self.refresh
    }

    /// Starts to look for the agent that holds `pubkey`. A key that is known
    /// is found at once; otherwise the known keys are refreshed.
    pub fn begin(known: &mut KnownPubKeys, pubkey: &[u8]) -> (step: Step<
        FindAgent,
        Option<SocketPath>,
    >)
        requires
            old(known).well_formed(),
        ensures
            final(known).well_formed(),
            old(known)@.contains_key(pubkey@) ==> {
                &&& final(known)@ == old(known)@
                &&& step matches Step::Return(Some(path)) && path@ == old(known)@[pubkey@]
            },
            !old(known)@.contains_key(pubkey@) ==> {
                &&& final(known)@ == Map::<Seq<u8>, Seq<u8>>::empty()
                &&& step matches Step::Perform(search) && search.key() == pubkey@
                    && search.refreshing().contacted() == 0
                    && search.refreshing().listed() == Seq::<IdentityView>::empty()
            },
    {
        if known.contains_key(pubkey) {
            Step::Return(known.get(pubkey))
        } else {
            let refresh = Refresh::begin(known);
            Step::Perform(FindAgent { pubkey: copy_bytes(pubkey), refresh })
        }
    }
}

/// The step of a search that corresponds to a step of its refresh: the result
/// is where the key is led to once all agents have been asked.
pub open spec fn find_step<C>(
    known: Map<Seq<u8>, Seq<u8>>,
    key: Seq<u8>,
    step: Step<Action<Seq<u8>, C>, Seq<IdentityView>>,
) -> Step<Action<Seq<u8>, C>, Option<Seq<u8>>> {
    match step {
        Step::Perform(action) => Step::Perform(action),
        Step::Return(_) => Step::Return(
            if known.contains_key(key) {
                Some(known[key])
            } else {
                None
            },
        ),
    }
}

/// A step of an operation that returns a path, as mathematical values.
pub open spec fn path_step<C>(step: Step<Action<SocketPath, C>, Option<SocketPath>>) -> Step<
    Action<Seq<u8>, C>,
    Option<Seq<u8>>,
> {
    match step {
        Step::Perform(action) => Step::Perform(action@),
        Step::Return(Some(path)) => Step::Return(Some(path@)),
        Step::Return(None) => Step::Return(None),
    }
}

impl<C> MuxSession<C> {
    /// One step of a search for the agent that holds a key: the step of its
    /// refresh, and the agent found once that is over.
    pub fn get_agent_sock_for_pubkey<E>(
        &mut self,
        known: &mut KnownPubKeys,
        search: &mut FindAgent,
        event: Event<SocketPath, C, Result<Vec<Identity>, MuxError<E, String>>>,
    ) -> (step: Step<Action<SocketPath, C>, Option<SocketPath>>)
        requires
            old(self).well_formed(),
            old(known).well_formed(),
        ensures
            final(self).well_formed(),
            final(known).well_formed(),
            final(self).paths() == old(self).paths(),
            final(self).client() == old(self).client(),
            final(self).keys() == old(self).keys(),
            final(search).key() == old(search).key(),
            ({
                let (state, inner) = refresh_next(
                    old(self).paths(),
                    old(self).refresh_state(old(known), &old(search).refreshing()),
                    event_view(
                        event,
                        |r: Result<Vec<Identity>, MuxError<E, String>>| listing(r),
                    ),
                );
                &&& final(self).refresh_state(final(known), &final(search).refreshing()) == state
                &&& path_step(step) == find_step(state.known, old(search).key(), inner)
            }),
    {
        match self.refresh_identities(known, &mut search.refresh, event) {
            Step::Perform(action) => Step::Perform(action),
            Step::Return(_) => Step::Return(known.get(search.pubkey.as_slice())),
        }
    }
}

// ---------------------------------------------------------------------------
// Extensions
// ---------------------------------------------------------------------------
/// A session-bind request that is being forwarded to all upstream agents.
#[derive(Debug)]
pub struct SessionBind {
    request: Request<Vec<u8>>,
    next: usize,
    any_succeeded: bool,
}

/// Everything that forwarding a session-bind reads and changes.
pub struct BindState<C> {
    /// The request that is forwarded.
    pub request: Request<Seq<u8>>,
    /// How many agents have been contacted.
    pub next: nat,
    /// The open connections that are not in use.
    pub connections: Map<Seq<u8>, C>,
    /// Whether an agent has accepted the binding.
    pub any_succeeded: bool,
}

/// What a reply to session-bind amounts to.
pub enum BindReply {
    /// The agent has bound the connection.
    Accepted,
    /// The agent does not support session-bind; its connection is sound.
    Unsupported,
    /// The connection is broken.
    Broken,
}

/// An event of forwarding a session-bind.
pub type BindEvent<C> = Event<Seq<u8>, C, BindReply>;

/// Reads a reply to session-bind. Data in an accepting reply is ignored.
pub open spec fn bind_reply<E>(reply: Result<Option<Extension>, MuxError<E, String>>) -> BindReply {
    match reply {
        Ok(_) => BindReply::Accepted,
        Err(MuxError::Failure) => BindReply::Unsupported,
        Err(_) => BindReply::Broken,
    }
}

/// Contacts the next agent.
pub open spec fn bind_on<C>(paths: Seq<Seq<u8>>, s: BindState<C>) -> (
    BindState<C>,
    Step<Action<Seq<u8>, C>, bool>,
) {
    let (next, connections, action) = contact(paths, s.next, s.connections, s.request);
    (BindState { next, connections, ..s }, Step::Perform(action))
}

/// One step of forwarding a session-bind. An agent that accepts it, and one
/// that does not support it, keep their connections; a broken connection is
/// dropped. The result is whether any agent has accepted.
pub open spec fn bind_next<C>(
    paths: Seq<Seq<u8>>,
    s: BindState<C>,
    event: BindEvent<C>,
) -> (BindState<C>, Step<Action<Seq<u8>, C>, bool>) {
    match event {
        Event::Connected { path, opened: Some(client) } => (
            s,
            Step::Perform(Action::Send { path, client, request: s.request }),
        ),
        Event::Answered { path, client, reply: BindReply::Accepted } => bind_on(
            paths,
            BindState {
                connections: s.connections.insert(path_key(path), client),
                any_succeeded: true,
                ..s
            },
        ),
        Event::Answered { path, client, reply: BindReply::Unsupported } => bind_on(
            paths,
            BindState { connections: s.connections.insert(path_key(path), client), ..s },
        ),
        Event::Drained => (s, Step::Return(s.any_succeeded)),
        _ => bind_on(paths, s),
    }
}

/// A step of session-bind as mathematical values; `accepted` is what the
/// returned result stands for: success without data, or the plain failure.
pub open spec fn bind_step_is<C, E>(
    step: Step<Action<SocketPath, C>, Result<Option<Extension>, MuxError<E, String>>>,
    expected: Step<Action<Seq<u8>, C>, bool>,
) -> bool {
    match expected {
        Step::Perform(action) => step matches Step::Perform(a) && a@ == action,
        Step::Return(accepted) => step == Step::<
            Action<SocketPath, C>,
            Result<Option<Extension>, MuxError<E, String>>,
        >::Return(
            if accepted {
                Ok(None)
            } else {
                Err(MuxError::Failure)
            },
        ),
    }
}

impl SessionBind {
    /// The request that is forwarded.
    pub closed spec fn forwarded(&self) -> Request<Seq<u8>> {
        self.request@
    }

    /// How many agents have been contacted.
    pub closed spec fn contacted(&self) -> nat {
        self.next as nat
    }

    /// Whether an agent has accepted the binding.
    pub closed spec fn accepted(&self) -> bool {
        self.any_succeeded
    }
}

impl<C> MuxSession<C> {
    /// The state of a session-bind in this session.
    pub open spec fn bind_state(&self, bind: &SessionBind) -> BindState<C> {
        BindState {
            request: bind.forwarded(),
            next: bind.contacted(),
            connections: self.connections(),
            any_succeeded: bind.accepted(),
        }
    }

    /// Begins to handle an extension request. `query` is answered with the one
    /// supported extension; session-bind is to be forwarded; anything else
    /// fails.
    pub fn extension<E>(&self, request: &Extension) -> (step: Step<
        SessionBind,
        Result<Option<Extension>, MuxError<E, String>>,
    >)
        ensures
            request.name@ == "query"@ ==> (step matches Step::Return(Ok(Some(answer)))
                && answer.name@ == "query"@ && answer.details@ == crate::proto::name_list(
                seq!["session-bind@openssh.com"@],
            )),
            request.name@ == "session-bind@openssh.com"@ ==> (step matches Step::Perform(bind)
                && bind.contacted() == 0 && !bind.accepted() && bind.forwarded() == (
            Request::SessionBind { details: request.details@, limit: SESSION_BIND_TIMEOUT })),
            request.name@ != "query"@ && request.name@ != "session-bind@openssh.com"@ ==> (
            step matches Step::Return(Err(MuxError::Failure))),
    {
        proof {
            reveal_strlit("query");
            reveal_strlit("session-bind@openssh.com");
            assert("query"@.len() != "session-bind@openssh.com"@.len());
        }
        if request.name == "query".to_string() {
            Step::Return(Ok(Some(query_answer())))
        } else if request.name == "session-bind@openssh.com".to_string() {
            let request = Request::SessionBind {
                details: copy_bytes(request.details.as_slice()),
                limit: SESSION_BIND_TIMEOUT,
            };
            Step::Perform(SessionBind { request, next: 0, any_succeeded: false })
        } else {
            Step::Return(Err(MuxError::Failure))
        }
    }

    /// One step of forwarding a session-bind to all upstream agents.
    pub fn session_bind<E>(
        &mut self,
        bind: &mut SessionBind,
        event: Event<SocketPath, C, Result<Option<Extension>, MuxError<E, String>>>,
    ) -> (step: Step<Action<SocketPath, C>, Result<Option<Extension>, MuxError<E, String>>>)
        requires
            old(self).well_formed(),
        ensures
            final(self).well_formed(),
            final(self).paths() == old(self).paths(),
            final(self).client() == old(self).client(),
            final(self).keys() == old(self).keys(),
            ({
                let (state, expected) = bind_next(
                    old(self).paths(),
                    old(self).bind_state(old(bind)),
                    event_view(
                        event,
                        |r: Result<Option<Extension>, MuxError<E, String>>| bind_reply(r),
                    ),
                );
                &&& final(self).bind_state(final(bind)) == state
                &&& bind_step_is(step, expected)
            }),
    {
        match event {
            Event::Connected { path, opened } => {
                match opened {
                    Some(client) => {
                        let request = bind.request.copy();
                        return Step::Perform(Action::Send { path, client, request });
                    },
                    None => {},
                }
            },
            Event::Answered { path, client, reply } => {
                match reply {
                    Ok(_) => {
                        bind.any_succeeded = true;
                        self.upstream.insert(plain_path(path.as_slice()), client);
                    },
                    Err(MuxError::Failure) => {
                        self.upstream.insert(plain_path(path.as_slice()), client);
                    },
                    Err(_) => {},
                }
            },
            Event::Drained => {
                return Step::Return(
                    if bind.any_succeeded {
                        Ok(None)
                    } else {
                        Err(MuxError::Failure)
                    },
                );
            },
            Event::Proceed => {},
            Event::Lost => {},
        }
        Step::Perform(self.contact_next(&mut bind.next, &bind.request))
    }
}

// ---------------------------------------------------------------------------
// Signing
// ---------------------------------------------------------------------------
/// A sign request, and how it is named to the user.
#[derive(Debug)]
pub struct SignInfo {
    /// The request.
    pub request: SignRequest<Vec<u8>>,
    /// The fingerprint of the key.
    pub fingerprint: String,
    /// The digest of the data to be signed, in hexadecimal.
    pub hash: String,
    /// The short id of the request: the beginning of `hash`.
    pub id: String,
}

impl SignInfo {
    /// Names a request with the given fingerprint and digest; the id is the
    /// first [`ID_LEN`] bytes of the digest's text.
    pub fn new(request: SignRequest<Vec<u8>>, fingerprint: String, hash: String) -> (info:
        SignInfo)
        requires
            encode_utf8(hash@).len() > ID_LEN ==> is_char_boundary(
                encode_utf8(hash@),
                ID_LEN as int,
            ),
        ensures
            info.request == request,
            info.fingerprint == fingerprint,
            info.hash == hash,
            encode_utf8(hash@).len() <= ID_LEN ==> info.id@ == hash@,
            encode_utf8(hash@).len() > ID_LEN ==> encode_utf8(info.id@) == encode_utf8(hash@).take(
                ID_LEN as int,
            ),
    {
        let id = if hash.as_str().as_bytes().len() <= ID_LEN {
            hash.as_str().to_string()
        } else {
            hash.as_str().split_at(ID_LEN).0.to_string()
        };
        SignInfo { request, fingerprint, hash, id }
    }

    /// Names a request, by the fingerprint of its key and the digest of its
    /// data; `None` when its key is not the encoding of a public key.
    pub fn of_request(request: SignRequest<Vec<u8>>) -> (info: Option<SignInfo>)
        ensures
            info is Some == key_fingerprint(request.pubkey@) is Some,
            info matches Some(i) ==> {
                &&& i.request == request
                &&& key_fingerprint(request.pubkey@) == Some(i.fingerprint@)
                &&& i.hash@ == hex(sha256(request.data@))
                &&& i.id@ == hex(sha256(request.data@)).take(ID_LEN as int)
            },
    {
        match fingerprint(request.pubkey.as_slice()) {
            Some(shown) => {
                let hash = hash(request.data.as_slice());
                proof {
                    assert(is_ascii_chars(hash@)) by {
                        assert forall|i: int| 0 <= i < hash@.len() implies '\0' <= #[trigger] hash@[i]
                            <= '\u{7f}' by {
                            assert(is_hex_digit(hash@[i]));
                        }
                    }
                    lemma_ascii_prefix(hash@, ID_LEN as int);
                }
                let info = SignInfo::new(request, shown, hash);
                proof {
                    encode_utf8_decode_utf8(info.id@);
                    encode_utf8_decode_utf8(hash@.take(ID_LEN as int));
                }
                Some(info)
            },
            None => None,
        }
    }

    fn copy(&self) -> (copy: SignInfo)
        ensures
            same_request(copy, *self),
    {
        SignInfo {
            request: self.request.copy(),
            fingerprint: self.fingerprint.as_str().to_string(),
            hash: self.hash.as_str().to_string(),
            id: self.id.as_str().to_string(),
        }
    }
}

/// Whether two requests are the same and are named alike.
pub open spec fn same_request(a: SignInfo, b: SignInfo) -> bool {
    &&& a.request@ == b.request@
    &&& a.fingerprint@ == b.fingerprint@
    &&& a.hash@ == b.hash@
    &&& a.id@ == b.id@
}

proof fn lemma_ascii_prefix(s: Seq<char>, n: int)
    requires
        is_ascii_chars(s),
        0 <= n <= s.len(),
    ensures
        encode_utf8(s).len() == s.len(),
        is_char_boundary(encode_utf8(s), n),
        encode_utf8(s.take(n)) == encode_utf8(s).take(n),
{
    let front = s.take(n);
    assert(is_ascii_chars(front));
    is_ascii_chars_encode_utf8(s);
    is_ascii_chars_encode_utf8(front);
    assert(encode_utf8(front) =~= encode_utf8(s).take(n)) by {
        assert forall|i: int| 0 <= i < n implies encode_utf8(front)[i] == encode_utf8(s)[i] by {
            assert(front[i] == s[i]);
        }
    }
    encode_utf8_valid_utf8(s);
    if n < s.len() {
        is_char_boundary_iff_is_leading_byte(encode_utf8(s), n);
    } else {
        is_char_boundary_start_end_of_seq(encode_utf8(s));
    }
}

/// A sign request whose agent is being looked for.
#[derive(Debug)]
pub struct SignSearch {
    info: SignInfo,
    search: FindAgent,
}

/// A sign request whose agent has been looked for.
#[derive(Debug)]
pub struct Signing {
    info: SignInfo,
    found: Option<SocketPath>,
}

impl SignSearch {
    /// The request.
    pub closed spec fn request(&self) -> SignInfo {
        self.info
    }

    /// The key that is looked for.
    pub closed spec fn key(&self) -> Seq<u8> {
        self.search.key()
    }

    /// The refresh that is under way.
    pub closed spec fn refreshing(&self) -> Refresh {
        self.search.refreshing()
    }
}

impl Signing {
    /// The request.
    pub closed spec fn request(&self) -> SignInfo {
        self.info
    }

    /// The socket of the agent that holds the key; `None` if there is none.
    pub closed spec fn route(&self) -> Option<Seq<u8>> {
        match self.found {
            Some(path) => Some(path@),
            None => None,
        }
    }

    /// The request.
    pub fn info(&self) -> (info: &SignInfo)
        ensures
            *info == self.request(),
    {
        &self.info
    }

    /// Whether an agent was found that holds the key.
    pub fn is_routed(&self) -> (yes: bool)
        ensures
            yes == self.route() is Some,
    {
        self.found.is_some()
    }

    /// Starts to look for the agent that holds the key of the request. A key
    /// that is known is found at once; otherwise the known keys are refreshed.
    pub fn begin(known: &mut KnownPubKeys, info: SignInfo) -> (step: Step<SignSearch, Signing>)
        requires
            old(known).well_formed(),
        ensures
            final(known).well_formed(),
            old(known)@.contains_key(info.request.pubkey@) ==> {
                &&& final(known)@ == old(known)@
                &&& step matches Step::Return(signing) && signing.request() == info
                    && signing.route() == Some(old(known)@[info.request.pubkey@])
            },
            !old(known)@.contains_key(info.request.pubkey@) ==> {
                &&& final(known)@ == Map::<Seq<u8>, Seq<u8>>::empty()
                &&& step matches Step::Perform(search) && search.request() == info && search.key()
                    == info.request.pubkey@ && search.refreshing().contacted() == 0
                    && search.refreshing().listed() == Seq::<IdentityView>::empty()
            },
    {
        match FindAgent::begin(known, info.request.pubkey.as_slice()) {
            Step::Return(found) => Step::Return(Signing { info, found }),
            Step::Perform(search) => Step::Perform(SignSearch { info, search }),
        }
    }
}

/// Whether a step of a search for the agent of `request` is the one that is
/// expected: the same action, or the request with the agent that was found.
pub open spec fn search_step_is<C>(
    step: Step<Action<SocketPath, C>, Signing>,
    request: SignInfo,
    expected: Step<Action<Seq<u8>, C>, Option<Seq<u8>>>,
) -> bool {
    match expected {
        Step::Perform(action) => step matches Step::Perform(a) && a@ == action,
        Step::Return(found) => step matches Step::Return(signing) && same_request(
            signing.request(),
            request,
        ) && signing.route() == found,
    }
}

impl<C> MuxSession<C> {
    /// One step of a search for the agent that holds the key of a sign request.
    pub fn find_signer<E>(
        &mut self,
        known: &mut KnownPubKeys,
        search: &mut SignSearch,
        event: Event<SocketPath, C, Result<Vec<Identity>, MuxError<E, String>>>,
    ) -> (step: Step<Action<SocketPath, C>, Signing>)
        requires
            old(self).well_formed(),
            old(known).well_formed(),
        ensures
            final(self).well_formed(),
            final(known).well_formed(),
            final(self).paths() == old(self).paths(),
            final(self).client() == old(self).client(),
            final(self).keys() == old(self).keys(),
            final(search).request() == old(search).request(),
            final(search).key() == old(search).key(),
            ({
                let (state, inner) = refresh_next(
                    old(self).paths(),
                    old(self).refresh_state(old(known), &old(search).refreshing()),
                    event_view(
                        event,
                        |r: Result<Vec<Identity>, MuxError<E, String>>| listing(r),
                    ),
                );
                &&& final(self).refresh_state(final(known), &final(search).refreshing()) == state
                &&& search_step_is(
                    step,
                    old(search).request(),
                    find_step(state.known, old(search).key(), inner),
                )
            }),
            step matches Step::Return(signing) ==> {
                &&& signing.request().request.pubkey@ == old(search).request().request.pubkey@
                &&& signing.request().request.data@ == old(search).request().request.data@
                &&& signing.request().request.flags == old(search).request().request.flags
            },
    {
        match self.get_agent_sock_for_pubkey(known, &mut search.search, event) {
            Step::Perform(action) => Step::Perform(action),
            Step::Return(found) => Step::Return(Signing { info: search.info.copy(), found }),
        }
    }
}

/// What signing asks for. `P` is a path, `T` is text.
#[derive(Debug)]
pub enum SignAction<P, T> {
    /// Announce the request to the user, and report
    /// [`SignEvent::Announced`], whether that worked or not. `path` is where
    /// the request will go.
    Announce { path: P, title: T, body: T },
    /// Connect to `path`, and report [`SignEvent::Connected`].
    Connect { path: P },
    /// Send `request` over the open connection to `path`, wait for the reply for
    /// `limit` seconds, and report [`SignEvent::Signed`].
    Sign { path: P, request: SignRequest<P>, limit: u64 },
}

/// What happened, in signing. `T` is text, `C` a connection, `E` an upstream
/// error and `S` a signature.
#[derive(Debug)]
pub enum SignEvent<T, C, E, S> {
    /// Signing may begin.
    Begin,
    /// The request was announced.
    Announced,
    /// The attempt to connect ended.
    Connected { opened: Result<C, MuxError<E, T>> },
    /// The agent replied, or did not reply in time (`None`).
    Signed { reply: Option<Result<S, MuxError<E, T>>> },
}

/// A sign event as mathematical values.
pub open spec fn sign_event<C, E, S>(event: SignEvent<String, C, E, S>) -> SignEvent<
    Seq<char>,
    C,
    E,
    S,
> {
    match event {
        SignEvent::Begin => SignEvent::Begin,
        SignEvent::Announced => SignEvent::Announced,
        SignEvent::Connected { opened } => SignEvent::Connected { opened: result_view(opened) },
        SignEvent::Signed { reply: Some(reply) } => SignEvent::Signed {
            reply: Some(result_view(reply)),
        },
        SignEvent::Signed { reply: None } => SignEvent::Signed { reply: None },
    }
}

/// A step of signing as mathematical values.
pub open spec fn sign_step<E, S>(
    step: Step<SignAction<SocketPath, String>, Result<S, MuxError<E, String>>>,
) -> Step<SignAction<Seq<u8>, Seq<char>>, Result<S, MuxError<E, Seq<char>>>> {
    match step {
        Step::Perform(SignAction::Announce { path, title, body }) => Step::Perform(
            SignAction::Announce { path: path@, title: title@, body: body@ },
        ),
        Step::Perform(SignAction::Connect { path }) => Step::Perform(
            SignAction::Connect { path: path@ },
        ),
        Step::Perform(SignAction::Sign { path, request, limit }) => Step::Perform(
            SignAction::Sign { path: path@, request: request@, limit },
        ),
        Step::Return(r) => Step::Return(result_view(r)),
    }
}

/// What signing reads and does not change.
pub struct SignContext {
    /// The request.
    pub request: SignRequest<Seq<u8>>,
    /// Where the key of the request is led to.
    pub route: Option<Seq<u8>>,
    /// The fingerprint of the key.
    pub fingerprint: Seq<char>,
    /// The id of the request.
    pub id: Seq<char>,
    /// The displayed client.
    pub peer: Seq<char>,
}

/// What is sent to the agent at `path`: the request as it came.
pub open spec fn send_request(context: SignContext, path: Seq<u8>) -> SignAction<
    Seq<u8>,
    Seq<char>,
> {
    SignAction::Sign { path, request: context.request, limit: SIGN_TIMEOUT }
}

/// One step of signing. The agent that holds the key is used over its open
/// connection, or over a new one that is then kept. A connection over which
/// signing failed or timed out is dropped. Without an agent nothing is done.
pub open spec fn sign_next<C, E, S>(
    context: SignContext,
    connections: Map<Seq<u8>, C>,
    event: SignEvent<Seq<char>, C, E, S>,
) -> (
    Map<Seq<u8>, C>,
    Step<SignAction<Seq<u8>, Seq<char>>, Result<S, MuxError<E, Seq<char>>>>,
) {
    match context.route {
        None => (
            connections,
            Step::Return(
                Err(MuxError::Other("No agent found for public key: "@ + context.fingerprint)),
            ),
        ),
        Some(path) => match event {
            SignEvent::Begin => (
                connections,
                Step::Perform(
                    SignAction::Announce {
                        path,
                        title: "ssh-agent-mux: sign [id "@ + context.id + "]"@,
                        body: "key "@ + context.fingerprint + "\npeer "@ + context.peer,
                    },
                ),
            ),
            SignEvent::Announced => (
                connections,
                if connections.contains_key(path_key(path)) {
                    Step::Perform(send_request(context, path))
                } else {
                    Step::Perform(SignAction::Connect { path })
                },
            ),
            SignEvent::Connected { opened: Ok(client) } => (
                connections.insert(path_key(path), client),
                Step::Perform(send_request(context, path)),
            ),
            SignEvent::Connected { opened: Err(e) } => (connections, Step::Return(Err(e))),
            SignEvent::Signed { reply: Some(Ok(signature)) } => (
                connections,
                Step::Return(Ok(signature)),
            ),
            SignEvent::Signed { reply: Some(Err(e)) } => (
                connections.remove(path_key(path)),
                Step::Return(Err(e)),
            ),
            SignEvent::Signed { reply: None } => (
                connections.remove(path_key(path)),
                Step::Return(Err(MuxError::Failure)),
            ),
        },
    }
}

impl<C> MuxSession<C> {
    /// What signing reads, in this session.
    pub open spec fn sign_context(&self, signing: &Signing) -> SignContext {
        SignContext {
            request: signing.request().request@,
            route: signing.route(),
            fingerprint: signing.request().fingerprint@,
            id: signing.request().id@,
            peer: peer_text(self.client()),
        }
    }

    /// One step of signing, once the agent that holds the key has been looked
    /// for.
    pub fn sign<E, S>(&mut self, signing: &Signing, event: SignEvent<String, C, E, S>) -> (step:
        Step<SignAction<SocketPath, String>, Result<S, MuxError<E, String>>>)
        requires
            old(self).well_formed(),
        ensures
            final(self).well_formed(),
            final(self).paths() == old(self).paths(),
            final(self).client() == old(self).client(),
            final(self).keys() == old(self).keys(),
            (final(self).connections(), sign_step(step)) == sign_next(
                old(self).sign_context(signing),
                old(self).connections(),
                sign_event(event),
            ),
            step matches Step::Perform(SignAction::Sign { path, request, limit }) ==> {
                &&& signing.route() == Some(path@)
                &&& request@ == signing.request().request@
                &&& limit == SIGN_TIMEOUT
            },
    {
        let path = match &signing.found {
            None => {
                let mut text = "No agent found for public key: ".to_string();
                text.append(signing.info.fingerprint.as_str());
                return Step::Return(Err(MuxError::Other(text)));
            },
            Some(path) => copy_bytes(path.as_slice()),
        };
        match event {
            SignEvent::Begin => {
                let title = sign_title(signing.info.id.as_str());
                let peer = self.peer_display();
                let body = sign_body(signing.info.fingerprint.as_str(), peer.as_str());
                Step::Perform(SignAction::Announce { path, title, body })
            },
            SignEvent::Announced => Step::Perform(self.ensure_connected(path, &signing.info.request)),
            SignEvent::Connected { opened } => match opened {
                Ok(client) => {
                    self.upstream.insert(plain_path(path.as_slice()), client);
                    let request = signing.info.request.copy();
                    Step::Perform(SignAction::Sign { path, request, limit: SIGN_TIMEOUT })
                },
                Err(e) => Step::Return(Err(e)),
            },
            SignEvent::Signed { reply } => match reply {
                Some(Ok(signature)) => Step::Return(Ok(signature)),
                Some(Err(e)) => {
                    let _ = self.upstream.remove(plain_path(path.as_slice()).as_slice());
                    Step::Return(Err(e))
                },
                None => {
                    let _ = self.upstream.remove(plain_path(path.as_slice()).as_slice());
                    Step::Return(Err(MuxError::Failure))
                },
            },
        }
    }

    /// The request is sent once a connection to `path` is open.
    fn ensure_connected(&self, path: SocketPath, request: &SignRequest<Vec<u8>>) -> (action:
        SignAction<SocketPath, String>)
        requires
            self.well_formed(),
        ensures
            self.connections().contains_key(path_key(path@)) ==> {
                &&& action is Sign
                &&& action->Sign_path == path
                &&& action->request@ == request@
                &&& action->limit == SIGN_TIMEOUT
            },
            !self.connections().contains_key(path_key(path@)) ==> {
                &&& action is Connect
                &&& action->Connect_path == path
            },
    {
        if self.is_connected(path.as_slice()) {
            SignAction::Sign { path, request: request.copy(), limit: SIGN_TIMEOUT }
        } else {
            SignAction::Connect { path }
        }
    }
}

} // verus!
