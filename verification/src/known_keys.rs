//! Which upstream agent holds which key.
use std::sync::Arc;
use tokio::sync::Mutex;
use vstd::prelude::*;
use crate::byte_map::ByteMap;
use crate::proto::{identity_views, Identity, IdentityView, SocketPath};
use crate::text::copy_bytes;

verus! {

/// `tokio::sync::Mutex`, of which nothing is claimed but that it is a type.
#[verifier::external_type_specification]
#[verifier::external_body]
#[verifier::reject_recursive_types(T)]
pub struct ExMutex<T: ?Sized>(Mutex<T>);

/// What a mutex was made with. What it holds later is not said by its value.
pub uninterp spec fn made_with(keys: Mutex<KnownPubKeys>) -> Map<Seq<u8>, Seq<u8>>;

/// Calls `tokio::sync::Mutex::new`: an unlocked mutex around `keys`. What it is
/// made with is named [`made_with`]. What it holds changes behind a shared
/// reference, so nothing more is claimed.
#[verifier::external_body]
fn mutex_of(keys: KnownPubKeys) -> (mutex: Mutex<KnownPubKeys>)
    ensures
        made_with(mutex) == keys@,
{
    Mutex::new(keys)
}

/// Known keys that several sessions have in common: whoever holds a handle
/// locks the one map that all of them lead to.
pub type SharedKeys = Arc<Mutex<KnownPubKeys>>;

/// Known keys to be shared, none of them known yet.
pub fn shared_keys() -> (keys: SharedKeys)
    ensures
        made_with(*keys) == Map::<Seq<u8>, Seq<u8>>::empty(),
{
    Arc::new(mutex_of(KnownPubKeys::new()))
}

/// Calls `Arc::clone`: another handle to the same map.
#[verifier::external_body]
pub(crate) fn share(keys: &SharedKeys) -> (handle: SharedKeys)
    ensures
        handle == *keys,
{
    keys.clone()
}

/// The keys that upstream agents have listed, each with the socket of the
/// agent that listed it last. Shared by all sessions of one multiplexer.
pub struct KnownPubKeys {
    routes: ByteMap<SocketPath>,
}

/// Whether `key` is among the keys of `ids`.
pub open spec fn lists_key(ids: Seq<IdentityView>, key: Seq<u8>) -> bool {
    exists|i: int| 0 <= i < ids.len() && (#[trigger] ids[i]).pubkey == key
}

/// `routes`, with every key of `ids` led to `path`.
pub open spec fn with_keys_at(
    routes: Map<Seq<u8>, Seq<u8>>,
    path: Seq<u8>,
    ids: Seq<IdentityView>,
) -> Map<Seq<u8>, Seq<u8>> {
    routes.union_prefer_right(Map::new(|k: Seq<u8>| lists_key(ids, k), |k: Seq<u8>| path))
}

impl View for KnownPubKeys {
    type V = Map<Seq<u8>, Seq<u8>>;

    closed spec fn view(&self) -> Map<Seq<u8>, Seq<u8>> {
        self.routes@.map_values(|p: SocketPath| p@)
    }
}

impl KnownPubKeys {
    /// No key occurs twice.
    pub closed spec fn well_formed(&self) -> bool {
        self.routes.well_formed()
    }

    /// No key is known.
    pub fn new() -> (known: KnownPubKeys)
        ensures
            known.well_formed(),
            known@ == Map::<Seq<u8>, Seq<u8>>::empty(),
    {
        let known = KnownPubKeys { routes: ByteMap::new() };
        proof {
            assert(known@ =~= Map::<Seq<u8>, Seq<u8>>::empty());
        }
        known
    }

    /// Forgets every key.
    pub fn clear(&mut self)
        ensures
            final(self).well_formed(),
            final(self)@ == Map::<Seq<u8>, Seq<u8>>::empty(),
    {
        self.routes.clear();
        proof {
            assert(self@ =~= Map::<Seq<u8>, Seq<u8>>::empty());
        }
    }

    /// Whether an agent is known to hold `key`.
    pub fn contains_key(&self, key: &[u8]) -> (yes: bool)
        requires
            self.well_formed(),
        ensures
            yes == self@.contains_key(key@),
    {
        self.routes.contains_key(key)
    }

    /// The socket of the agent that holds `key`.
    pub fn get(&self, key: &[u8]) -> (path: Option<SocketPath>)
        requires
            self.well_formed(),
        ensures
            path is Some == self@.contains_key(key@),
            path matches Some(p) ==> p@ == self@[key@],
    {
        match self.routes.get(key) {
            Some(p) => Some(copy_bytes(p.as_slice())),
            None => None,
        }
    }

    /// Leads every key of `ids` to `path`, whatever it was led to before.
    pub fn record(&mut self, path: &[u8], ids: &Vec<Identity>)
        requires
            old(self).well_formed(),
        ensures
            final(self).well_formed(),
            final(self)@ == with_keys_at(old(self)@, path@, identity_views(ids@)),
    {
        let ghost views = identity_views(ids@);
        let mut i: usize = 0;
        proof {
            assert(self@ =~= with_keys_at(old(self)@, path@, views.take(0)));
        }
        while i < ids.len()
            invariant
                i <= ids@.len(),
                views == identity_views(ids@),
                self.well_formed(),
                self@ == with_keys_at(old(self)@, path@, views.take(i as int)),
            decreases ids@.len() - i,
        {
            let ghost before = self@;
            let key = copy_bytes(ids[i].pubkey.as_slice());
            let target = copy_bytes(path);
            self.routes.insert(key, target);
            proof {
                assert(self@ =~= before.insert(key@, path@));
                lemma_one_more(old(self)@, path@, views, i as int);
            }
            i += 1;
        }
        proof {
            assert(views.take(views.len() as int) == views);
        }
    }
}

proof fn lemma_one_more(
    routes: Map<Seq<u8>, Seq<u8>>,
    path: Seq<u8>,
    ids: Seq<IdentityView>,
    i: int,
)
    requires
        0 <= i < ids.len(),
    ensures
        with_keys_at(routes, path, ids.take(i + 1)) == with_keys_at(
            routes,
            path,
            ids.take(i),
        ).insert(ids[i].pubkey, path),
{
    let less = ids.take(i);
    let more = ids.take(i + 1);
    assert forall|k: Seq<u8>| lists_key(more, k) == (lists_key(less, k) || k == ids[i].pubkey) by {
        if lists_key(more, k) {
            let j = choose|j: int| 0 <= j < more.len() && (#[trigger] more[j]).pubkey == k;
            if j < i {
                assert(less[j].pubkey == k);
            }
        }
        if lists_key(less, k) {
            let j = choose|j: int| 0 <= j < less.len() && (#[trigger] less[j]).pubkey == k;
            assert(more[j].pubkey == k);
        }
        if k == ids[i].pubkey {
            assert(more[i].pubkey == k);
        }
    }
    assert(with_keys_at(routes, path, more) =~= with_keys_at(routes, path, less).insert(
        ids[i].pubkey,
        path,
    ));
}

/// Every key of a list leads to the agent that gave the list, and every other
/// key leads to where it led before, or nowhere.
pub proof fn all_listed_keys_lead_there(
    routes: Map<Seq<u8>, Seq<u8>>,
    path: Seq<u8>,
    ids: Seq<IdentityView>,
    key: Seq<u8>,
)
    ensures
        forall|i: int|
            0 <= i < ids.len() ==> with_keys_at(routes, path, ids).contains_key(
                (#[trigger] ids[i]).pubkey,
            ) && with_keys_at(routes, path, ids)[ids[i].pubkey] == path,
        (forall|i: int| 0 <= i < ids.len() ==> (#[trigger] ids[i]).pubkey != key) ==> {
            &&& with_keys_at(routes, path, ids).contains_key(key) == routes.contains_key(key)
            &&& routes.contains_key(key) ==> with_keys_at(routes, path, ids)[key] == routes[key]
        },
{
    assert forall|i: int| 0 <= i < ids.len() implies with_keys_at(routes, path, ids).contains_key(
        (#[trigger] ids[i]).pubkey,
    ) && with_keys_at(routes, path, ids)[ids[i].pubkey] == path by {
        assert(lists_key(ids, ids[i].pubkey));
    }
}

} // verus!
