//! A typed resource registry: one value per resource identity.

use vstd::prelude::*;

verus! {

/// One registered resource: its identity and its word payload.
pub struct ResourceEntry {
    pub key: u64,
    pub value: Vec<u64>,
}

/// World-global values keyed by resource identity, at most one per key.
pub struct Resources {
    pub entries: Vec<ResourceEntry>,
}

impl Resources {
    pub open spec fn spec_contains(self, key: u64) -> bool {
        exists|i: int| 0 <= i < self.entries@.len() && (#[trigger] self.entries@[i]).key == key
    }

    pub open spec fn index_of(self, key: u64) -> int {
        choose|i: int| 0 <= i < self.entries@.len() && (#[trigger] self.entries@[i]).key == key
    }

    /// The payload stored under `key`.
    pub open spec fn spec_value(self, key: u64) -> Seq<u64> {
        self.entries@[self.index_of(key)].value@
    }

    /// Each key appears at most once.
    pub open spec fn wf(self) -> bool {
        forall|i: int, j: int|
            0 <= i < j < self.entries@.len() ==> (#[trigger] self.entries@[i]).key != (
            #[trigger] self.entries@[j]).key
    }

    pub fn new() -> (r: Self)
        ensures
            r.wf(),
            forall|k: u64| !r.spec_contains(k),
    {
        Self { entries: Vec::new() }
    }

    fn position_of(&self, key: u64) -> (r: Option<usize>)
        requires
            self.wf(),
        ensures
            match r {
                Some(i) => i < self.entries@.len() && self.entries@[i as int].key == key && i
                    == self.index_of(key) && self.spec_contains(key),
                None => !self.spec_contains(key),
            },
    {
        let mut i: usize = 0;
        while i < self.entries.len()
            invariant
                self.wf(),
                i <= self.entries@.len(),
                forall|j: int| 0 <= j < i ==> (#[trigger] self.entries@[j]).key != key,
            decreases self.entries@.len() - i,
        {
            if self.entries[i].key == key {
                proof {
                    let j2 = self.index_of(key);
                    if j2 != i as int {
                        assert(self.entries@[j2].key == key);
                    }
                }
                return Some(i);
            }
            i = i + 1;
        }
        None
    }

    /// Stores `value` under `key`, replacing any prior value.
    pub fn insert(&mut self, key: u64, value: Vec<u64>)
        requires
            old(self).wf(),
        ensures
            final(self).wf(),
            final(self).spec_contains(key),
            final(self).spec_value(key) == value@,
            forall|k: u64| k != key ==> (final(self).spec_contains(k) <==> old(self).spec_contains(
                k,
            )),
            forall|k: u64|
                k != key && old(self).spec_contains(k) ==> final(self).spec_value(k) == old(
                    self,
                ).spec_value(k),
    {
        let ghost s0 = *old(self);
        match self.position_of(key) {
            Some(i) => {
                self.entries[i] = ResourceEntry { key, value };
                proof {
                    let k0 = i as int;
                    assert(self.entries@[k0].key == key);
                    assert(self.index_of(key) == k0) by {
                        let j2 = self.index_of(key);
                        if j2 != k0 {
                            assert(s0.entries@[j2].key == key);
                            assert(s0.index_of(key) == k0);
                        }
                    }
                    assert forall|k: u64| k != key && s0.spec_contains(k) implies final(
                    self).spec_contains(k) && final(self).spec_value(k) == s0.spec_value(k) by {
                        let j = s0.index_of(k);
                        assert(s0.entries@[j].key == k);
                        assert(j != k0);
                        assert(self.entries@[j].key == k);
                        assert(self.index_of(k) == j) by {
                            let j2 = self.index_of(k);
                            if j2 != j && j2 != k0 {
                                assert(s0.entries@[j2].key == k);
                            }
                        }
                    }
                    assert forall|k: u64| k != key && final(self).spec_contains(k) implies
                        s0.spec_contains(k) by {
                        let j = self.index_of(k);
                        assert(self.entries@[j].key == k);
                        assert(j != k0);
                        assert(s0.entries@[j].key == k);
                    }
                }
            },
            None => {
                self.entries.push(ResourceEntry { key, value });
                proof {
                    let k0 = s0.entries@.len() as int;
                    assert(self.entries@[k0].key == key);
                    assert(self.index_of(key) == k0) by {
                        let j2 = self.index_of(key);
                        if j2 != k0 {
                            assert(s0.entries@[j2].key == key);
                        }
                    }
                    assert forall|k: u64| k != key && s0.spec_contains(k) implies final(
                    self).spec_contains(k) && final(self).spec_value(k) == s0.spec_value(k) by {
                        let j = s0.index_of(k);
                        assert(s0.entries@[j].key == k);
                        assert(self.entries@[j].key == k);
                        assert(self.index_of(k) == j) by {
                            let j2 = self.index_of(k);
                            if j2 != j && j2 < k0 {
                                assert(s0.entries@[j2].key == k);
                            }
                        }
                    }
                    assert forall|k: u64| k != key && final(self).spec_contains(k) implies
                        s0.spec_contains(k) by {
                        let j = self.index_of(k);
                        assert(self.entries@[j].key == k);
                        assert(j != k0);
                        assert(s0.entries@[j].key == k);
                    }
                }
            },
        }
    }

    /// The resource stored under `key`.
    pub fn get(&self, key: u64) -> (r: Option<&Vec<u64>>)
        requires
            self.wf(),
        ensures
            match r {
                Some(v) => self.spec_contains(key) && v@ == self.spec_value(key),
                None => !self.spec_contains(key),
            },
    {
        match self.position_of(key) {
            Some(i) => Some(&self.entries[i].value),
            None => None,
        }
    }

    /// A mutable reference to the resource stored under `key`. The final
    /// registry is the old one with that entry's payload replaced by whatever
    /// the caller leaves behind the reference; `lemma_resources_update` turns
    /// this into the map-level view.
    pub fn get_mut(&mut self, key: u64) -> (r: Option<&mut Vec<u64>>)
        requires
            old(self).wf(),
        ensures
            match r {
                Some(v) => {
                    &&& old(self).spec_contains(key)
                    &&& v@ == old(self).spec_value(key)
                    &&& 0 <= old(self).index_of(key) < old(self).entries@.len()
                    &&& final(self).entries@ == old(self).entries@.update(
                        old(self).index_of(key),
                        (ResourceEntry { key, value: *final(v) }),
                    )
                },
                None => !old(self).spec_contains(key) && *final(self) == *old(self),
            },
    {
        let i = match self.position_of(key) {
            Some(i) => i,
            None => { return None },
        };
        let entry = &mut self.entries[i];
        let v = &mut entry.value;
        Some(v)
    }

    /// Removes and returns the resource stored under `key`.
    pub fn remove(&mut self, key: u64) -> (r: Option<Vec<u64>>)
        requires
            old(self).wf(),
        ensures
            final(self).wf(),
            !final(self).spec_contains(key),
            match r {
                Some(v) => old(self).spec_contains(key) && v@ == old(self).spec_value(key),
                None => !old(self).spec_contains(key) && *final(self) == *old(self),
            },
            forall|k: u64| k != key ==> (final(self).spec_contains(k) <==> old(self).spec_contains(
                k,
            )),
            forall|k: u64|
                k != key && old(self).spec_contains(k) ==> final(self).spec_value(k) == old(
                    self,
                ).spec_value(k),
    {
        let ghost s0 = *old(self);
        let i = match self.position_of(key) {
            Some(i) => i,
            None => { return None },
        };
        let entry = self.entries.remove(i);
        proof {
            let k0 = i as int;
            assert(!self.spec_contains(key)) by {
                if self.spec_contains(key) {
                    let j = self.index_of(key);
                    assert(self.entries@[j].key == key);
                    if j < k0 {
                        assert(s0.entries@[j].key == key);
                    } else {
                        assert(s0.entries@[j + 1].key == key);
                    }
                }
            }
            assert forall|k: u64| k != key && s0.spec_contains(k) implies final(
            self).spec_contains(k) && final(self).spec_value(k) == s0.spec_value(k) by {
                let j = s0.index_of(k);
                assert(s0.entries@[j].key == k);
                assert(j != k0);
                let j2: int = if j < k0 {
                    j
                } else {
                    j - 1
                };
                assert(self.entries@[j2].key == k);
                assert(self.index_of(k) == j2) by {
                    let j3 = self.index_of(k);
                    if j3 != j2 {
                        if j3 < k0 {
                            assert(s0.entries@[j3].key == k);
                            assert(s0.index_of(k) == j);
                        } else {
                            assert(s0.entries@[j3 + 1].key == k);
                        }
                    }
                }
            }
            assert forall|k: u64| k != key && final(self).spec_contains(k) implies
                s0.spec_contains(k) by {
                let j = self.index_of(k);
                assert(self.entries@[j].key == k);
                if j < k0 {
                    assert(s0.entries@[j].key == k);
                } else {
                    assert(s0.entries@[j + 1].key == k);
                }
            }
            assert forall|p: int, q: int|
                0 <= p < q < self.entries@.len() implies (#[trigger] self.entries@[p]).key != (
            #[trigger] self.entries@[q]).key by {
                let p2: int = if p < k0 {
                    p
                } else {
                    p + 1
                };
                let q2: int = if q < k0 {
                    q
                } else {
                    q + 1
                };
                assert(s0.entries@[p2].key == self.entries@[p].key);
                assert(s0.entries@[q2].key == self.entries@[q].key);
            }
        }
        Some(entry.value)
    }

    /// Whether a resource is stored under `key`.
    pub fn contains(&self, key: u64) -> (r: bool)
        requires
            self.wf(),
        ensures
            r == self.spec_contains(key),
    {
        match self.position_of(key) {
            Some(_) => true,
            None => false,
        }
    }
}

/// Replacing one entry's payload — keeping its key — preserves the registry
/// invariant and changes exactly that key's value.
pub proof fn lemma_resources_update(s0: Resources, s1: Resources, i: int, e: ResourceEntry)
    requires
        s0.wf(),
        0 <= i < s0.entries@.len(),
        e.key == s0.entries@[i].key,
        s1.entries@ == s0.entries@.update(i, e),
    ensures
        s1.wf(),
        s1.spec_contains(e.key),
        s1.spec_value(e.key) == e.value@,
        forall|k: u64| k != e.key ==> (s1.spec_contains(k) <==> s0.spec_contains(k)),
        forall|k: u64| k != e.key && s0.spec_contains(k) ==> s1.spec_value(k) == s0.spec_value(k),
{
    let key = e.key;
    assert(s1.entries@[i].key == key);
    assert(s1.index_of(key) == i) by {
        let j2 = s1.index_of(key);
        if j2 != i {
            assert(s0.entries@[j2].key == key);
        }
    }
    assert forall|k: u64| k != key && s0.spec_contains(k) implies s1.spec_contains(k)
        && s1.spec_value(k) == s0.spec_value(k) by {
        let j = s0.index_of(k);
        assert(s0.entries@[j].key == k);
        assert(j != i);
        assert(s1.entries@[j].key == k);
        assert(s1.index_of(k) == j) by {
            let j2 = s1.index_of(k);
            if j2 != j && j2 != i {
                assert(s0.entries@[j2].key == k);
            }
        }
    }
    assert forall|k: u64| k != key && s1.spec_contains(k) implies s0.spec_contains(k) by {
        let j = s1.index_of(k);
        assert(s1.entries@[j].key == k);
        assert(j != i);
        assert(s0.entries@[j].key == k);
    }
}

} // verus!
