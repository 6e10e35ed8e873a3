//! The query engine: value-level descriptions of a row shape, archetype
//! matching, per-row filters, and deterministic iteration.

use vstd::prelude::*;

use crate::archetype::{Archetype, ArchetypeMap};
use crate::system::{contains_comp, SystemAccess};

verus! {

/// One term of a query: a component to read or write, an optional component,
/// or a filter.
#[derive(Clone, Copy, PartialEq, Eq, Structural, Debug)]
pub enum QueryTerm {
    /// The row must carry the component; its payload is fetched read-only.
    Read(u64),
    /// The row must carry the component; its payload is fetched for writing.
    Write(u64),
    /// Fetches the payload when present; matches every archetype.
    OptRead(u64),
    /// Fetches the payload for writing when present; matches every archetype.
    OptWrite(u64),
    /// The row must carry the component; nothing is fetched.
    With(u64),
    /// The row must not carry the component; nothing is fetched.
    Without(u64),
    /// The row must carry the component, written after the given tick;
    /// nothing is fetched.
    Changed(u64, u64),
}

/// Whether an archetype with signature `sig` can hold rows for this term.
pub open spec fn term_matches_sig(t: QueryTerm, sig: Seq<u64>) -> bool {
    match t {
        QueryTerm::Read(c) => sig.contains(c),
        QueryTerm::Write(c) => sig.contains(c),
        QueryTerm::OptRead(c) => true,
        QueryTerm::OptWrite(c) => true,
        QueryTerm::With(c) => sig.contains(c),
        QueryTerm::Without(c) => !sig.contains(c),
        QueryTerm::Changed(c, since) => sig.contains(c),
    }
}

/// Whether `row` of a matching archetype passes this term's per-row filter.
pub open spec fn term_matches_row(t: QueryTerm, arch: Archetype, row: int) -> bool {
    match t {
        QueryTerm::Changed(c, since) => arch.tick_of(row, c) > since,
        _ => true,
    }
}

/// What the fetched item for this term must be: the component payload for
/// reads and writes, present-or-absent payload for optionals, nothing for
/// filters.
pub open spec fn item_ok(t: QueryTerm, arch: Archetype, row: int, item: Option<Vec<u64>>) -> bool {
    match t {
        QueryTerm::Read(c) => item matches Some(v) && item.unwrap()@ == arch.value_of(row, c),
        QueryTerm::Write(c) => item matches Some(v) && item.unwrap()@ == arch.value_of(row, c),
        QueryTerm::OptRead(c) => if arch.has_comp(c) {
            item matches Some(v) && item.unwrap()@ == arch.value_of(row, c)
        } else {
            item is None
        },
        QueryTerm::OptWrite(c) => if arch.has_comp(c) {
            item matches Some(v) && item.unwrap()@ == arch.value_of(row, c)
        } else {
            item is None
        },
        _ => item is None,
    }
}

/// A query: the conjunction of its terms.
pub struct Query {
    pub terms: Vec<QueryTerm>,
}

impl Query {
    pub open spec fn spec_matches_sig(self, sig: Seq<u64>) -> bool {
        forall|i: int| 0 <= i < self.terms@.len() ==> term_matches_sig(#[trigger] self.terms@[i], sig)
    }

    pub open spec fn spec_matches_row(self, arch: Archetype, row: int) -> bool {
        forall|i: int|
            0 <= i < self.terms@.len() ==> term_matches_row(#[trigger] self.terms@[i], arch, row)
    }

    pub fn new() -> (r: Self)
        ensures
            r.terms@.len() == 0,
    {
        Self { terms: Vec::new() }
    }

    /// Appends one term to the query.
    pub fn with_term(self, t: QueryTerm) -> (r: Self)
        ensures
            r.terms@ == self.terms@.push(t),
    {
        let mut terms = self.terms;
        terms.push(t);
        Self { terms }
    }

    /// Whether an archetype with these component types can hold matching rows.
    pub fn matches_archetype(&self, types: &Vec<u64>) -> (r: bool)
        ensures
            r == self.spec_matches_sig(types@),
    {
        let mut i: usize = 0;
        while i < self.terms.len()
            invariant
                i <= self.terms@.len(),
                forall|j: int| 0 <= j < i ==> term_matches_sig(#[trigger] self.terms@[j], types@),
            decreases self.terms@.len() - i,
        {
            let ok = match self.terms[i] {
                QueryTerm::Read(c) => contains_comp(types, c),
                QueryTerm::Write(c) => contains_comp(types, c),
                QueryTerm::OptRead(_) => true,
                QueryTerm::OptWrite(_) => true,
                QueryTerm::With(c) => contains_comp(types, c),
                QueryTerm::Without(c) => !contains_comp(types, c),
                QueryTerm::Changed(c, _) => contains_comp(types, c),
            };
            if !ok {
                return false;
            }
            i = i + 1;
        }
        true
    }

    /// Whether `row` of a matching archetype passes every per-row filter.
    pub fn matches_row(&self, arch: &Archetype, row: usize) -> (r: bool)
        requires
            arch.wf(),
            row < arch.len_spec(),
            self.spec_matches_sig(arch.sig()),
        ensures
            r == self.spec_matches_row(*arch, row as int),
    {
        let mut i: usize = 0;
        while i < self.terms.len()
            invariant
                arch.wf(),
                row < arch.len_spec(),
                self.spec_matches_sig(arch.sig()),
                i <= self.terms@.len(),
                forall|j: int|
                    0 <= j < i ==> term_matches_row(#[trigger] self.terms@[j], *arch, row as int),
            decreases self.terms@.len() - i,
        {
            let ok = match self.terms[i] {
                QueryTerm::Changed(c, since) => {
                    proof {
                        assert(term_matches_sig(self.terms@[i as int], arch.sig()));
                    }
                    arch.component_changed(row, c, since)
                },
                _ => true,
            };
            if !ok {
                return false;
            }
            i = i + 1;
        }
        true
    }

    /// The component types this query reads.
    pub fn read_types(&self) -> (r: Vec<u64>)
        ensures
            forall|c: u64|
                #[trigger] r@.contains(c) <==> (exists|i: int|
                    0 <= i < self.terms@.len() && match #[trigger] self.terms@[i] {
                        QueryTerm::Read(c2) => c2 == c,
                        QueryTerm::OptRead(c2) => c2 == c,
                        QueryTerm::With(c2) => c2 == c,
                        QueryTerm::Changed(c2, _) => c2 == c,
                        _ => false,
                    }),
    {
        let mut r: Vec<u64> = Vec::new();
        let mut i: usize = 0;
        while i < self.terms.len()
            invariant
                i <= self.terms@.len(),
                forall|c: u64|
                    #[trigger] r@.contains(c) <==> (exists|j: int|
                        0 <= j < i && match #[trigger] self.terms@[j] {
                            QueryTerm::Read(c2) => c2 == c,
                            QueryTerm::OptRead(c2) => c2 == c,
                            QueryTerm::With(c2) => c2 == c,
                            QueryTerm::Changed(c2, _) => c2 == c,
                            _ => false,
                        }),
            decreases self.terms@.len() - i,
        {
            let ghost r0 = r@;
            let found: Option<u64> = match self.terms[i] {
                QueryTerm::Read(c) => Some(c),
                QueryTerm::OptRead(c) => Some(c),
                QueryTerm::With(c) => Some(c),
                QueryTerm::Changed(c, _) => Some(c),
                _ => None,
            };
            if let Some(c) = found {
                r.push(c);
                proof {
                    assert(r@[r@.len() - 1] == c);
                    assert forall|c2: u64| #[trigger] r@.contains(c2) implies r0.contains(c2) || c2
                        == c by {
                        let k = choose|k: int| 0 <= k < r@.len() && r@[k] == c2;
                        if k < r@.len() - 1 {
                            assert(r0[k] == c2);
                        }
                    }
                    assert forall|c2: u64| r0.contains(c2) implies #[trigger] r@.contains(c2) by {
                        let k = choose|k: int| 0 <= k < r0.len() && r0[k] == c2;
                        assert(r@[k] == c2);
                    }
                }
            }
            i = i + 1;
        }
        r
    }

    /// The component types this query writes.
    pub fn write_types(&self) -> (r: Vec<u64>)
        ensures
            forall|c: u64|
                #[trigger] r@.contains(c) <==> (exists|i: int|
                    0 <= i < self.terms@.len() && match #[trigger] self.terms@[i] {
                        QueryTerm::Write(c2) => c2 == c,
                        QueryTerm::OptWrite(c2) => c2 == c,
                        _ => false,
                    }),
    {
        let mut r: Vec<u64> = Vec::new();
        let mut i: usize = 0;
        while i < self.terms.len()
            invariant
                i <= self.terms@.len(),
                forall|c: u64|
                    #[trigger] r@.contains(c) <==> (exists|j: int|
                        0 <= j < i && match #[trigger] self.terms@[j] {
                            QueryTerm::Write(c2) => c2 == c,
                            QueryTerm::OptWrite(c2) => c2 == c,
                            _ => false,
                        }),
            decreases self.terms@.len() - i,
        {
            let ghost r0 = r@;
            let found: Option<u64> = match self.terms[i] {
                QueryTerm::Write(c) => Some(c),
                QueryTerm::OptWrite(c) => Some(c),
                _ => None,
            };
            if let Some(c) = found {
                r.push(c);
                proof {
                    assert(r@[r@.len() - 1] == c);
                    assert forall|c2: u64| #[trigger] r@.contains(c2) implies r0.contains(c2) || c2
                        == c by {
                        let k = choose|k: int| 0 <= k < r@.len() && r@[k] == c2;
                        if k < r@.len() - 1 {
                            assert(r0[k] == c2);
                        }
                    }
                    assert forall|c2: u64| r0.contains(c2) implies #[trigger] r@.contains(c2) by {
                        let k = choose|k: int| 0 <= k < r0.len() && r0[k] == c2;
                        assert(r@[k] == c2);
                    }
                }
            }
            i = i + 1;
        }
        r
    }

    /// The access declaration this query implies, for the scheduler.
    pub fn access(&self) -> (r: SystemAccess)
        ensures
            forall|c: u64|
                #[trigger] r.reads@.contains(c) <==> (exists|i: int|
                    0 <= i < self.terms@.len() && match #[trigger] self.terms@[i] {
                        QueryTerm::Read(c2) => c2 == c,
                        QueryTerm::OptRead(c2) => c2 == c,
                        QueryTerm::With(c2) => c2 == c,
                        QueryTerm::Changed(c2, _) => c2 == c,
                        _ => false,
                    }),
            forall|c: u64|
                #[trigger] r.writes@.contains(c) <==> (exists|i: int|
                    0 <= i < self.terms@.len() && match #[trigger] self.terms@[i] {
                        QueryTerm::Write(c2) => c2 == c,
                        QueryTerm::OptWrite(c2) => c2 == c,
                        _ => false,
                    }),
    {
        SystemAccess { reads: self.read_types(), writes: self.write_types() }
    }
}

/// A filter requiring the component to be present.
#[derive(Clone, Copy, PartialEq, Eq, Structural, Debug)]
pub struct With {
    pub comp: u64,
}

impl With {
    pub fn term(&self) -> (r: QueryTerm)
        ensures
            r == QueryTerm::With(self.comp),
    {
        QueryTerm::With(self.comp)
    }
}

/// A filter requiring the component to be absent.
#[derive(Clone, Copy, PartialEq, Eq, Structural, Debug)]
pub struct Without {
    pub comp: u64,
}

impl Without {
    pub fn term(&self) -> (r: QueryTerm)
        ensures
            r == QueryTerm::Without(self.comp),
    {
        QueryTerm::Without(self.comp)
    }
}

/// A filter requiring the component to have been written after `since`.
#[derive(Clone, Copy, PartialEq, Eq, Structural, Debug)]
pub struct Changed {
    pub comp: u64,
    pub since: u64,
}

impl Changed {
    pub fn term(&self) -> (r: QueryTerm)
        ensures
            r == QueryTerm::Changed(self.comp, self.since),
    {
        QueryTerm::Changed(self.comp, self.since)
    }
}

/// Whether `(a, row)` names a row that the query matches.
pub open spec fn match_at(map: ArchetypeMap, q: Query, a: int, row: int) -> bool {
    &&& 0 <= a < map.count()
    &&& 0 <= row < map.arch(a).len_spec()
    &&& q.spec_matches_sig(map.arch(a).sig())
    &&& q.spec_matches_row(map.arch(a), row)
}

/// Position `(a1, r1)` comes strictly before `(a2, r2)` in query order:
/// archetype insertion order, then row order.
pub open spec fn pos_lt(a1: int, r1: int, a2: int, r2: int) -> bool {
    a1 < a2 || (a1 == a2 && r1 < r2)
}

/// A cursor over the archetype store that yields matching row positions in
/// deterministic query order.
pub struct QueryIter {
    pub archetype_index: usize,
    pub row_index: usize,
}

impl QueryIter {
    pub fn new() -> (r: Self)
        ensures
            r.archetype_index == 0,
            r.row_index == 0,
    {
        Self { archetype_index: 0, row_index: 0 }
    }

    /// The next matching position at or after the cursor, advancing the
    /// cursor past it; `None` once no matching position remains.
    pub fn next(&mut self, map: &ArchetypeMap, q: &Query) -> (r: Option<(usize, usize)>)
        requires
            map.wf(),
        ensures
            match r {
                Some(pos) => {
                    &&& match_at(*map, *q, pos.0 as int, pos.1 as int)
                    &&& !pos_lt(
                        pos.0 as int,
                        pos.1 as int,
                        old(self).archetype_index as int,
                        old(self).row_index as int,
                    )
                    &&& forall|b: int, r2: int|
                        !pos_lt(
                            b,
                            r2,
                            old(self).archetype_index as int,
                            old(self).row_index as int,
                        ) && pos_lt(b, r2, pos.0 as int, pos.1 as int) ==> !match_at(
                            *map,
                            *q,
                            b,
                            r2,
                        )
                    &&& final(self).archetype_index == pos.0
                    &&& final(self).row_index == pos.1 + 1
                },
                None => forall|b: int, r2: int|
                    !pos_lt(
                        b,
                        r2,
                        old(self).archetype_index as int,
                        old(self).row_index as int,
                    ) ==> !match_at(*map, *q, b, r2),
            },
    {
        let ghost a0 = old(self).archetype_index as int;
        let ghost r0 = old(self).row_index as int;
        while self.archetype_index < map.archetypes.len()
            invariant
                map.wf(),
                a0 == old(self).archetype_index as int,
                r0 == old(self).row_index as int,
                !pos_lt(self.archetype_index as int, self.row_index as int, a0, r0),
                forall|b: int, r2: int|
                    !pos_lt(b, r2, a0, r0) && pos_lt(
                        b,
                        r2,
                        self.archetype_index as int,
                        self.row_index as int,
                    ) ==> !match_at(*map, *q, b, r2),
            decreases map.count() - self.archetype_index, (if (self.archetype_index as int)
                < map.count() && self.row_index as int <= map.arch(
                self.archetype_index as int,
            ).len_spec() {
                map.arch(self.archetype_index as int).len_spec() - self.row_index
            } else {
                0int
            }),
        {
            let a = self.archetype_index;
            proof {
                assert(map.arch(a as int).wf());
            }
            let arch = &map.archetypes[a];
            if !q.matches_archetype(&arch.types) {
                proof {
                    assert forall|b: int, r2: int|
                        !pos_lt(b, r2, a0, r0) && pos_lt(b, r2, a as int + 1, 0) implies !match_at(
                        *map,
                        *q,
                        b,
                        r2,
                    ) by {
                        if !(pos_lt(b, r2, a as int, self.row_index as int)) {
                            if 0 <= b < map.count() && 0 <= r2 {
                                assert(b == a as int);
                                assert(!q.spec_matches_sig(map.arch(b).sig()));
                            }
                        }
                    }
                }
                self.archetype_index = a + 1;
                self.row_index = 0;
                continue ;
            }
            if self.row_index >= arch.entities.len() {
                proof {
                    assert forall|b: int, r2: int|
                        !pos_lt(b, r2, a0, r0) && pos_lt(b, r2, a as int + 1, 0) implies !match_at(
                        *map,
                        *q,
                        b,
                        r2,
                    ) by {
                        if !(pos_lt(b, r2, a as int, self.row_index as int)) {
                            if 0 <= b < map.count() && 0 <= r2 {
                                assert(b == a as int);
                                assert(r2 >= map.arch(b).len_spec());
                            }
                        }
                    }
                }
                self.archetype_index = a + 1;
                self.row_index = 0;
                continue ;
            }
            let row = self.row_index;
            if q.matches_row(arch, row) {
                self.row_index = row + 1;
                proof {
                    assert(match_at(*map, *q, a as int, row as int));
                }
                return Some((a, row));
            }
            proof {
                assert forall|b: int, r2: int|
                    !pos_lt(b, r2, a0, r0) && pos_lt(b, r2, a as int, row as int + 1) implies
                    !match_at(*map, *q, b, r2) by {
                    if !(pos_lt(b, r2, a as int, row as int)) {
                        if 0 <= b < map.count() && 0 <= r2 {
                            assert(b == a as int && r2 == row as int);
                            assert(!q.spec_matches_row(map.arch(b), r2));
                        }
                    }
                }
            }
            self.row_index = row + 1;
        }
        proof {
            assert forall|b: int, r2: int| !pos_lt(b, r2, a0, r0) implies !match_at(
                *map,
                *q,
                b,
                r2,
            ) by {
                if match_at(*map, *q, b, r2) {
                    assert(b < map.count());
                    assert(pos_lt(b, r2, self.archetype_index as int, self.row_index as int));
                }
            }
        }
        None
    }
}

/// Fetches the item for one term from a matching row.
pub fn fetch_item(arch: &Archetype, row: usize, t: &QueryTerm) -> (r: Option<Vec<u64>>)
    requires
        arch.wf(),
        row < arch.len_spec(),
        term_matches_sig(*t, arch.sig()),
    ensures
        item_ok(*t, *arch, row as int, r),
{
    match t {
        QueryTerm::Read(c) => {
            match arch.get_component(row, *c) {
                Some(v) => Some(crate::archetype::copy_words(v)),
                None => { vstd::pervasive::unreached() },
            }
        },
        QueryTerm::Write(c) => {
            match arch.get_component(row, *c) {
                Some(v) => Some(crate::archetype::copy_words(v)),
                None => { vstd::pervasive::unreached() },
            }
        },
        QueryTerm::OptRead(c) => {
            match arch.get_component(row, *c) {
                Some(v) => Some(crate::archetype::copy_words(v)),
                None => None,
            }
        },
        QueryTerm::OptWrite(c) => {
            match arch.get_component(row, *c) {
                Some(v) => Some(crate::archetype::copy_words(v)),
                None => None,
            }
        },
        _ => None,
    }
}

} // verus!
