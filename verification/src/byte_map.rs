//! A small map keyed by byte strings.
use vstd::prelude::*;
use crate::text::same_bytes;

verus! {

spec fn same_at<V>(a: Map<Seq<u8>, V>, b: Map<Seq<u8>, V>, k: Seq<u8>) -> bool {
    a.contains_key(k) == b.contains_key(k) && (a.contains_key(k) ==> a[k] == b[k])
}

proof fn lemma_same<V>(a: Map<Seq<u8>, V>, b: Map<Seq<u8>, V>)
    requires
        forall|k: Seq<u8>| same_at(a, b, k),
    ensures
        a == b,
{
    assert forall|k: Seq<u8>| a.contains_key(k) == b.contains_key(k) by {
        assert(same_at(a, b, k));
    }
    assert forall|k: Seq<u8>| a.contains_key(k) implies a[k] == b[k] by {
        assert(same_at(a, b, k));
    }
    assert(a =~= b);
}

/// A map from byte strings (socket paths, public keys) to values. It is seen
/// as a mathematical map; the order of its entries is of no consequence.
pub struct ByteMap<V> {
    entries: Vec<(Vec<u8>, V)>,
}

impl<V> View for ByteMap<V> {
    type V = Map<Seq<u8>, V>;

    closed spec fn view(&self) -> Map<Seq<u8>, V> {
        Map::new(|k: Seq<u8>| self.has(k), |k: Seq<u8>| self.entries@[self.place(k)].1)
    }
}

impl<V> ByteMap<V> {
    /// No key occurs twice.
    pub closed spec fn well_formed(&self) -> bool {
        forall|i: int, j: int|
            #![trigger self.entries@[i], self.entries@[j]]
            0 <= i < j < self.entries@.len() ==> self.entries@[i].0@ != self.entries@[j].0@
    }

    spec fn has(&self, k: Seq<u8>) -> bool {
        exists|i: int| 0 <= i < self.entries@.len() && (#[trigger] self.entries@[i]).0@ == k
    }

    spec fn place(&self, k: Seq<u8>) -> int {
        choose|i: int| 0 <= i < self.entries@.len() && (#[trigger] self.entries@[i]).0@ == k
    }

    proof fn lemma_entry(&self, i: int)
        requires
            self.well_formed(),
            0 <= i < self.entries@.len(),
        ensures
            self@.contains_key(self.entries@[i].0@),
            self@[self.entries@[i].0@] == self.entries@[i].1,
    {
        let k = self.entries@[i].0@;
        assert(self.has(k));
        let p = self.place(k);
        assert(0 <= p < self.entries@.len() && self.entries@[p].0@ == k);
    }

    proof fn lemma_key(&self, k: Seq<u8>) -> (i: int)
        requires
            self.well_formed(),
            self@.contains_key(k),
        ensures
            0 <= i < self.entries@.len(),
            self.entries@[i].0@ == k,
            self@[k] == self.entries@[i].1,
    {
        assert(self.has(k));
        self.place(k)
    }

    /// The empty map.
    pub fn new() -> (m: ByteMap<V>)
        ensures
            m.well_formed(),
            m@ == Map::<Seq<u8>, V>::empty(),
    {
        let m = ByteMap { entries: Vec::new() };
        proof {
            assert(m@ =~= Map::<Seq<u8>, V>::empty());
        }
        m
    }

    fn find(&self, key: &[u8]) -> (at: Option<usize>)
        requires
            self.well_formed(),
        ensures
            at is Some == self@.contains_key(key@),
            at matches Some(i) ==> i < self.entries@.len() && self.entries@[i as int].0@ == key@
                && self@[key@] == self.entries@[i as int].1,
    {
        let mut i: usize = 0;
        while i < self.entries.len()
            invariant
                self.well_formed(),
                i <= self.entries@.len(),
                forall|j: int| 0 <= j < i ==> (#[trigger] self.entries@[j]).0@ != key@,
            decreases self.entries@.len() - i,
        {
            if same_bytes(self.entries[i].0.as_slice(), key) {
                proof {
                    self.lemma_entry(i as int);
                }
                return Some(i);
            }
            i += 1;
        }
        proof {
            if self@.contains_key(key@) {
                let p = self.lemma_key(key@);
            }
        }
        None
    }

    /// Whether `key` has a value.
    pub fn contains_key(&self, key: &[u8]) -> (yes: bool)
        requires
            self.well_formed(),
        ensures
            yes == self@.contains_key(key@),
    {
        self.find(key).is_some()
    }

    /// The value of `key`.
    pub fn get(&self, key: &[u8]) -> (value: Option<&V>)
        requires
            self.well_formed(),
        ensures
            value == (if self@.contains_key(key@) {
                Some(&self@[key@])
            } else {
                None
            }),
    {
        match self.find(key) {
            Some(i) => Some(&self.entries[i].1),
            None => None,
        }
    }

    /// Mutable access to the value of `key`.
    pub fn get_mut(&mut self, key: &[u8]) -> (value: Option<&mut V>)
        requires
            old(self).well_formed(),
        ensures
            final(self).well_formed(),
            value is Some == old(self)@.contains_key(key@),
            value matches Some(v) ==> {
                &&& *v == old(self)@[key@]
                &&& final(self)@ == old(self)@.insert(key@, *final(v))
            },
            value is None ==> final(self)@ == old(self)@,
    {
        match self.find(key) {
            Some(i) => {
                let ghost before = *self;
                let ghost name = self.entries@[i as int].0;
                proof {
                    assert forall|after: ByteMap<V>|
                        after.entries@ == before.entries@.update(
                            i as int,
                            (name, after.entries@[i as int].1),
                        ) implies after.well_formed() && #[trigger] after@ == before@.insert(
                        key@,
                        after.entries@[i as int].1,
                    ) by {
                        after.lemma_updated(before, i as int, key@, after.entries@[i as int].1);
                    }
                }
                Some(&mut self.entries[i].1)
            },
            None => None,
        }
    }

    /// Gives `key` the value `value`, in place of the one it has, if any.
    pub fn insert(&mut self, key: Vec<u8>, value: V)
        requires
            old(self).well_formed(),
        ensures
            final(self).well_formed(),
            final(self)@ == old(self)@.insert(key@, value),
    {
        match self.find(key.as_slice()) {
            Some(i) => {
                self.entries[i] = (key, value);
                proof {
                    self.lemma_updated(*old(self), i as int, key@, value);
                }
            },
            None => {
                self.entries.push((key, value));
                proof {
                    self.lemma_pushed(*old(self), key, value);
                }
            },
        }
    }

    /// Takes the value of `key` out of the map.
    pub fn remove(&mut self, key: &[u8]) -> (value: Option<V>)
        requires
            old(self).well_formed(),
        ensures
            final(self).well_formed(),
            final(self)@ == old(self)@.remove(key@),
            value == (if old(self)@.contains_key(key@) {
                Some(old(self)@[key@])
            } else {
                None
            }),
    {
        match self.find(key) {
            Some(i) => {
                let (_, value) = self.entries.remove(i);
                proof {
                    self.lemma_removed(*old(self), i as int);
                }
                Some(value)
            },
            None => {
                proof {
                    assert(self@.remove(key@) =~= self@);
                }
                None
            },
        }
    }

    /// Takes all values out of the map.
    pub fn clear(&mut self)
        ensures
            final(self).well_formed(),
            final(self)@ == Map::<Seq<u8>, V>::empty(),
    {
        self.entries.clear();
        proof {
            assert(self@ =~= Map::<Seq<u8>, V>::empty());
        }
    }

    proof fn lemma_updated(&self, before: ByteMap<V>, i: int, key: Seq<u8>, value: V)
        requires
            before.well_formed(),
            0 <= i < before.entries@.len(),
            before.entries@[i].0@ == key,
            self.entries@.len() == before.entries@.len(),
            self.entries@[i].0@ == key,
            self.entries@[i].1 == value,
            forall|j: int|
                0 <= j < self.entries@.len() && j != i ==> #[trigger] self.entries@[j]
                    == before.entries@[j],
        ensures
            self.well_formed(),
            self@ == before@.insert(key, value),
    {
        assert(self.well_formed()) by {
            assert forall|a: int, b: int|
                #![trigger self.entries@[a], self.entries@[b]]
                0 <= a < b < self.entries@.len() implies self.entries@[a].0@
                != self.entries@[b].0@ by {
                assert(before.entries@[a].0@ != before.entries@[b].0@);
            }
        }
        let after = before@.insert(key, value);
        assert forall|k: Seq<u8>| same_at(self@, after, k) by {
            self.lemma_entry(i);
            if self@.contains_key(k) {
                let p = self.lemma_key(k);
                if p != i {
                    before.lemma_entry(p);
                    assert(before.entries@[p].0@ == k);
                    assert(k != key);
                }
            }
            if before@.contains_key(k) {
                let p = before.lemma_key(k);
                self.lemma_entry(p);
                if p != i {
                    assert(self.entries@[p] == before.entries@[p]);
                }
            }
        }
        lemma_same(self@, after);
    }

    proof fn lemma_pushed(&self, before: ByteMap<V>, key: Vec<u8>, value: V)
        requires
            before.well_formed(),
            !before@.contains_key(key@),
            self.entries@ == before.entries@.push((key, value)),
        ensures
            self.well_formed(),
            self@ == before@.insert(key@, value),
    {
        let n = before.entries@.len() as int;
        assert(self.well_formed()) by {
            assert forall|a: int, b: int|
                #![trigger self.entries@[a], self.entries@[b]]
                0 <= a < b < self.entries@.len() implies self.entries@[a].0@
                != self.entries@[b].0@ by {
                assert(self.entries@[a] == before.entries@[a]);
                if b == n {
                    before.lemma_entry(a);
                } else {
                    assert(self.entries@[b] == before.entries@[b]);
                }
            }
        }
        let after = before@.insert(key@, value);
        assert forall|k: Seq<u8>| same_at(self@, after, k) by {
            self.lemma_entry(n);
            if self@.contains_key(k) {
                let p = self.lemma_key(k);
                if p != n {
                    assert(self.entries@[p] == before.entries@[p]);
                    before.lemma_entry(p);
                }
            }
            if before@.contains_key(k) {
                let p = before.lemma_key(k);
                assert(self.entries@[p] == before.entries@[p]);
                self.lemma_entry(p);
            }
        }
        lemma_same(self@, after);
    }

    proof fn lemma_removed(&self, before: ByteMap<V>, i: int)
        requires
            before.well_formed(),
            0 <= i < before.entries@.len(),
            self.entries@ == before.entries@.remove(i),
        ensures
            self.well_formed(),
            self@ == before@.remove(before.entries@[i].0@),
    {
        let key = before.entries@[i].0@;
        assert forall|a: int| 0 <= a < self.entries@.len() implies #[trigger] self.entries@[a]
            == before.entries@[if a < i {
            a
        } else {
            a + 1
        }] by {}
        assert(self.well_formed());
        let after = before@.remove(key);
        assert forall|k: Seq<u8>| same_at(self@, after, k) by {
            if self@.contains_key(k) {
                let p = self.lemma_key(k);
                let q = if p < i {
                    p
                } else {
                    p + 1
                };
                assert(self.entries@[p] == before.entries@[q]);
                before.lemma_entry(q);
                assert(k != key);
            }
            if before@.contains_key(k) && k != key {
                let q = before.lemma_key(k);
                let p = if q < i {
                    q
                } else {
                    q - 1
                };
                assert(self.entries@[p] == before.entries@[q]);
                self.lemma_entry(p);
            }
        }
        lemma_same(self@, after);
    }
}

} // verus!
