//! Bundles: the ordered collections of components handed to `spawn`.

use vstd::prelude::*;

use crate::archetype::{copy_words, sorted_strict};

verus! {

/// One component inside a bundle: its type identity and its word payload.
pub struct BundleEntry {
    pub comp: u64,
    pub value: Vec<u64>,
}

/// A finite collection of components, one value per component type, in the
/// order the caller declared them. The declaration order may differ from the
/// signature sort order; the world matches columns by component identity.
pub struct Bundle {
    pub entries: Vec<BundleEntry>,
}

/// Whether some entry among the first `n` of `s` declares component `c`.
pub open spec fn entries_have_prefix(s: Seq<BundleEntry>, n: int, c: u64) -> bool {
    exists|k: int| 0 <= k < n && (#[trigger] s[k]).comp == c
}

/// Whether some entry of `s` declares component `c`.
pub open spec fn entries_have(s: Seq<BundleEntry>, c: u64) -> bool {
    entries_have_prefix(s, s.len() as int, c)
}

/// When a bundle declares `c`, `index_of` names a real entry for it.
pub proof fn lemma_bundle_index(b: Bundle, c: u64)
    requires
        b.spec_has(c),
    ensures
        0 <= b.index_of(c) < b.entries@.len(),
        b.entries@[b.index_of(c)].comp == c,
{
    let k = choose|k: int| 0 <= k < b.entries@.len() as int && (#[trigger] b.entries@[k]).comp == c;
    assert(exists|i: int| 0 <= i < b.entries@.len() && (#[trigger] b.entries@[i]).comp == c);
}

impl Bundle {
    pub open spec fn len_spec(self) -> int {
        self.entries@.len() as int
    }

    pub open spec fn spec_has(self, c: u64) -> bool {
        entries_have(self.entries@, c)
    }

    pub open spec fn index_of(self, c: u64) -> int {
        choose|i: int| 0 <= i < self.entries@.len() && (#[trigger] self.entries@[i]).comp == c
    }

    /// The payload declared for component `c`.
    pub open spec fn spec_value(self, c: u64) -> Seq<u64> {
        self.entries@[self.index_of(c)].value@
    }

    /// Each component type appears at most once.
    pub open spec fn wf(self) -> bool {
        forall|i: int, j: int|
            0 <= i < j < self.entries@.len() ==> (#[trigger] self.entries@[i]).comp != (
            #[trigger] self.entries@[j]).comp
    }

    pub fn new() -> (r: Self)
        ensures
            r.wf(),
            r.len_spec() == 0,
            forall|c: u64| !r.spec_has(c),
    {
        Self { entries: Vec::new() }
    }

    /// Adds component `comp` with payload `value`; when the bundle already
    /// declares `comp`, the payload is replaced instead.
    pub fn with(self, comp: u64, value: Vec<u64>) -> (r: Self)
        requires
            self.wf(),
        ensures
            r.wf(),
            r.spec_has(comp),
            r.spec_value(comp) == value@,
            forall|c: u64| c != comp ==> (r.spec_has(c) <==> self.spec_has(c)),
            forall|c: u64|
                c != comp && self.spec_has(c) ==> r.spec_value(c) == self.spec_value(c),
    {
        let mut entries = self.entries;
        let ghost entries0 = entries@;
        let mut i: usize = 0;
        while i < entries.len()
            invariant
                entries@ == entries0,
                entries0 == self.entries@,
                self.wf(),
                i <= entries0.len(),
                forall|j: int| 0 <= j < i ==> (#[trigger] entries0[j]).comp != comp,
            decreases entries0.len() - i,
        {
            if entries[i].comp == comp {
                entries[i] = BundleEntry { comp, value };
                let r = Self { entries };
                proof {
                    let k = i as int;
                    assert(r.entries@[k].comp == comp);
                    assert forall|c: u64| c != comp && self.spec_has(c) implies r.spec_has(c)
                        && r.spec_value(c) == self.spec_value(c) by {
                        lemma_bundle_index(self, c);
                        let j = self.index_of(c);
                        assert(entries0[j].comp == c);
                        assert(j != k);
                        assert(r.entries@[j].comp == c);
                        assert(r.index_of(c) == j) by {
                            let j2 = r.index_of(c);
                            if j2 != j {
                                if j2 == k {
                                } else {
                                    assert(entries0[j2].comp == c);
                                }
                            }
                        }
                    }
                    assert forall|c: u64| c != comp && r.spec_has(c) implies self.spec_has(c) by {
                        lemma_bundle_index(r, c);
                        let j = r.index_of(c);
                        assert(r.entries@[j].comp == c);
                        assert(j != k);
                        assert(entries0[j].comp == c);
                    }
                    assert(r.index_of(comp) == k) by {
                        let j2 = r.index_of(comp);
                        if j2 != k {
                            assert(entries0[j2].comp == comp);
                        }
                    }
                }
                return r;
            }
            i = i + 1;
        }
        entries.push(BundleEntry { comp, value });
        let r = Self { entries };
        proof {
            let k = entries0.len() as int;
            assert(r.entries@[k].comp == comp);
            assert(r.index_of(comp) == k) by {
                let j2 = r.index_of(comp);
                if j2 != k {
                    assert(entries0[j2].comp == comp);
                }
            }
            assert forall|c: u64| c != comp && self.spec_has(c) implies r.spec_has(c)
                && r.spec_value(c) == self.spec_value(c) by {
                lemma_bundle_index(self, c);
                let j = self.index_of(c);
                assert(entries0[j].comp == c);
                assert(r.entries@[j].comp == c);
                assert(r.index_of(c) == j) by {
                    let j2 = r.index_of(c);
                    if j2 != j && j2 < k {
                        assert(entries0[j2].comp == c);
                    }
                }
            }
            assert forall|c: u64| c != comp && r.spec_has(c) implies self.spec_has(c) by {
                lemma_bundle_index(r, c);
                let j = r.index_of(c);
                assert(r.entries@[j].comp == c);
                assert(j != k);
                assert(entries0[j].comp == c);
            }
        }
        r
    }

    pub fn len(&self) -> (r: usize)
        ensures
            r == self.len_spec(),
    {
        self.entries.len()
    }

    /// Whether every component type appears at most once.
    pub fn check_distinct(&self) -> (r: bool)
        ensures
            r == self.wf(),
    {
        let mut i: usize = 0;
        while i < self.entries.len()
            invariant
                i <= self.entries@.len(),
                forall|p: int, j: int|
                    0 <= p < j < self.entries@.len() && p < i ==> (#[trigger] self.entries@[p]).comp
                        != (#[trigger] self.entries@[j]).comp,
            decreases self.entries@.len() - i,
        {
            let mut j: usize = i + 1;
            while j < self.entries.len()
                invariant
                    i < j <= self.entries@.len() || (i as int == self.entries@.len() - 1 && j
                        == self.entries@.len()),
                    i < self.entries@.len(),
                    forall|k: int|
                        i < k < j ==> (#[trigger] self.entries@[k]).comp != self.entries@[i as int].comp,
                decreases self.entries@.len() - j,
            {
                if self.entries[j].comp == self.entries[i].comp {
                    return false;
                }
                j = j + 1;
            }
            i = i + 1;
        }
        true
    }

    pub fn is_empty(&self) -> (r: bool)
        ensures
            r == (self.len_spec() == 0),
    {
        self.entries.is_empty()
    }

    /// The component identities in declaration order.
    pub fn type_ids(&self) -> (r: Vec<u64>)
        ensures
            r@.len() == self.entries@.len(),
            forall|i: int| 0 <= i < r@.len() ==> r@[i] == (#[trigger] self.entries@[i]).comp,
    {
        let mut r: Vec<u64> = Vec::new();
        let mut i: usize = 0;
        while i < self.entries.len()
            invariant
                i <= self.entries@.len(),
                r@.len() == i,
                forall|j: int| 0 <= j < i ==> r@[j] == (#[trigger] self.entries@[j]).comp,
            decreases self.entries@.len() - i,
        {
            r.push(self.entries[i].comp);
            i = i + 1;
        }
        r
    }

    /// The entries reordered so that their component identities are strictly
    /// increasing; payloads follow their components.
    pub fn sorted_entries(&self) -> (r: Vec<BundleEntry>)
        requires
            self.wf(),
        ensures
            r@.len() == self.entries@.len(),
            sorted_strict(Seq::new(r@.len(), |i: int| r@[i].comp)),
            forall|c: u64| #[trigger] entries_have(r@, c) <==> self.spec_has(c),
            forall|i: int|
                0 <= i < r@.len() ==> self.spec_has((#[trigger] r@[i]).comp) && r@[i].value@
                    == self.spec_value(r@[i].comp),
    {
        let mut r: Vec<BundleEntry> = Vec::new();
        let mut i: usize = 0;
        while i < self.entries.len()
            invariant
                self.wf(),
                i <= self.entries@.len(),
                r@.len() == i,
                sorted_strict(Seq::new(r@.len(), |k: int| r@[k].comp)),
                forall|c: u64|
                    #[trigger] entries_have(r@, c) <==> entries_have_prefix(
                        self.entries@,
                        i as int,
                        c,
                    ),
                forall|k: int|
                    0 <= k < r@.len() ==> self.spec_has((#[trigger] r@[k]).comp) && r@[k].value@
                        == self.spec_value(r@[k].comp),
            decreases self.entries@.len() - i,
        {
            let ghost r0 = r@;
            let comp = self.entries[i].comp;
            let value = copy_words(&self.entries[i].value);
            proof {
                assert(self.entries@[i as int].comp == comp);
                assert(self.spec_has(comp));
                lemma_bundle_index(*self, comp);
                assert(self.index_of(comp) == i as int) by {
                    let j = self.index_of(comp);
                    if j != i as int {
                        assert(self.entries@[j].comp == comp);
                    }
                }
                assert(!entries_have(r0, comp)) by {
                    if entries_have(r0, comp) {
                        assert(entries_have_prefix(self.entries@, i as int, comp));
                        let k2 = choose|k: int|
                            0 <= k < i && (#[trigger] self.entries@[k]).comp == comp;
                        assert(self.entries@[k2].comp == self.entries@[i as int].comp);
                        assert(false);
                    }
                }
            }
            // find the sorted position for comp
            let mut pos: usize = 0;
            while pos < r.len() && r[pos].comp < comp
                invariant
                    r@ == r0,
                    pos <= r0.len(),
                    forall|k: int| 0 <= k < pos ==> (#[trigger] r0[k]).comp < comp,
                decreases r0.len() - pos,
            {
                pos = pos + 1;
            }
            proof {
                let comps0 = Seq::new(r0.len(), |k: int| r0[k].comp);
                if (pos as int) < r0.len() {
                    assert(r0[pos as int].comp != comp);
                    assert(r0[pos as int].comp > comp);
                }
                assert forall|k: int| pos <= k < r0.len() implies (#[trigger] r0[k]).comp
                    > comp by {
                    if k > pos {
                        assert(comps0[pos as int] < comps0[k]);
                    }
                }
            }
            r.insert(pos, BundleEntry { comp, value });
            proof {
                let rr = r@;
                let comps = Seq::new(rr.len(), |k: int| rr[k].comp);
                let comps0 = Seq::new(r0.len(), |k: int| r0[k].comp);
                assert forall|k: int| 0 <= k < rr.len() implies rr[k] == (if k < pos {
                    r0[k]
                } else if k == pos {
                    rr[pos as int]
                } else {
                    r0[k - 1]
                }) by {}
                assert forall|p: int, q: int| 0 <= p < q < comps.len() implies comps[p]
                    < comps[q] by {
                    if q < pos {
                        assert(comps0[p] < comps0[q]);
                    } else if p < pos && q == pos {
                        assert(r0[p].comp < comp);
                    } else if p < pos && q > pos {
                        assert(r0[p].comp < comp);
                        assert(r0[q - 1].comp > comp);
                    } else if p == pos {
                        assert(r0[q - 1].comp > comp);
                    } else {
                        assert(comps0[p - 1] < comps0[q - 1]);
                    }
                }
                assert forall|c: u64| #[trigger] entries_have(rr, c) implies entries_have_prefix(
                    self.entries@,
                    i + 1,
                    c,
                ) by {
                    let k = choose|k: int| 0 <= k < rr.len() && (#[trigger] rr[k]).comp == c;
                    if k == pos {
                        assert(self.entries@[i as int].comp == c);
                    } else if k < pos {
                        assert(r0[k].comp == c);
                        assert(entries_have(r0, c));
                        assert(entries_have_prefix(self.entries@, i as int, c));
                        let k2 = choose|k2: int|
                            0 <= k2 < i && (#[trigger] self.entries@[k2]).comp == c;
                        assert(self.entries@[k2].comp == c);
                    } else {
                        assert(r0[k - 1].comp == c);
                        assert(entries_have(r0, c));
                        assert(entries_have_prefix(self.entries@, i as int, c));
                        let k2 = choose|k2: int|
                            0 <= k2 < i && (#[trigger] self.entries@[k2]).comp == c;
                        assert(self.entries@[k2].comp == c);
                    }
                }
                assert forall|c: u64| #[trigger] entries_have_prefix(self.entries@, i + 1, c)
                    implies entries_have(rr, c) by {
                    let k = choose|k: int|
                        0 <= k < i + 1 && (#[trigger] self.entries@[k]).comp == c;
                    if k == i as int {
                        assert(rr[pos as int].comp == c);
                    } else {
                        assert(entries_have_prefix(self.entries@, i as int, c));
                        assert(entries_have(r0, c));
                        let k2 = choose|k2: int| 0 <= k2 < r0.len() && (#[trigger] r0[k2]).comp == c;
                        if k2 < pos {
                            assert(rr[k2].comp == c);
                        } else {
                            assert(rr[k2 + 1].comp == c);
                        }
                    }
                }
                assert forall|k: int| 0 <= k < rr.len() implies self.spec_has(
                    (#[trigger] rr[k]).comp,
                ) && rr[k].value@ == self.spec_value(rr[k].comp) by {
                    if k < pos {
                        assert(r0[k] == rr[k]);
                    } else if k > pos {
                        assert(r0[k - 1] == rr[k]);
                    }
                }
            }
            i = i + 1;
        }
        r
    }
}

} // verus!
