//! Column-major component storage: typed columns, archetypes, and the
//! archetype map with its transition graph.

use vstd::prelude::*;

use crate::component::BundleEntry;
use crate::entity::Entity;
use crate::system::contains_comp;

verus! {

/// A signature is a strictly increasing sequence of component identities:
/// sorted, with no duplicates.
pub open spec fn sorted_strict(s: Seq<u64>) -> bool {
    forall|i: int, j: int| 0 <= i < j < s.len() ==> s[i] < s[j]
}

/// The position of component `c` inside signature `s`.
pub open spec fn sig_index(s: Seq<u64>, c: u64) -> int {
    choose|i: int| 0 <= i < s.len() && s[i] == c
}

/// In a strictly sorted signature every component sits at exactly one
/// position, so `sig_index` returns the position where the component was seen.
pub proof fn lemma_sig_index(s: Seq<u64>, c: u64, i: int)
    requires
        sorted_strict(s),
        0 <= i < s.len(),
        s[i] == c,
    ensures
        s.contains(c),
        sig_index(s, c) == i,
{
    assert(s.contains(c));
    let j = sig_index(s, c);
    assert(0 <= j < s.len() && s[j] == c);
    if j < i {
        assert(s[j] < s[i]);
    } else if i < j {
        assert(s[i] < s[j]);
    }
}

/// Two signatures hold exactly the same component identities, in whatever
/// order and multiplicity.
pub open spec fn same_members(a: Seq<u64>, b: Seq<u64>) -> bool {
    forall|x: u64| #![trigger a.contains(x)] #![trigger b.contains(x)] a.contains(x)
        <==> b.contains(x)
}

/// Strictly sorted signatures are canonical: two of them with the same
/// members are the same sequence.
pub proof fn lemma_sorted_same_members_equal(a: Seq<u64>, b: Seq<u64>)
    requires
        sorted_strict(a),
        sorted_strict(b),
        same_members(a, b),
    ensures
        a == b,
    decreases a.len(),
{
    if a.len() == 0 {
        if b.len() > 0 {
            assert(b.contains(b[0]));
            assert(a.contains(b[0]));
        }
        assert(a =~= b);
    } else {
        assert(a.contains(a[0]));
        assert(b.contains(a[0]));
        if b.len() == 0 {
            assert(false);
        }
        let j = choose|j: int| 0 <= j < b.len() && b[j] == a[0];
        assert(b[0] <= a[0]) by {
            if j > 0 {
                assert(b[0] < b[j]);
            }
        }
        assert(b.contains(b[0]));
        assert(a.contains(b[0]));
        let i = choose|i: int| 0 <= i < a.len() && a[i] == b[0];
        assert(a[0] <= b[0]) by {
            if i > 0 {
                assert(a[0] < a[i]);
            }
        }
        assert(a[0] == b[0]);
        let at = a.drop_first();
        let bt = b.drop_first();
        assert(sorted_strict(at)) by {
            assert forall|p: int, q: int| 0 <= p < q < at.len() implies at[p] < at[q] by {
                assert(at[p] == a[p + 1] && at[q] == a[q + 1]);
            }
        }
        assert(sorted_strict(bt)) by {
            assert forall|p: int, q: int| 0 <= p < q < bt.len() implies bt[p] < bt[q] by {
                assert(bt[p] == b[p + 1] && bt[q] == b[q + 1]);
            }
        }
        assert(same_members(at, bt)) by {
            assert forall|x: u64| #[trigger] at.contains(x) implies bt.contains(x) by {
                let k = choose|k: int| 0 <= k < at.len() && at[k] == x;
                assert(a[k + 1] == x);
                assert(a[0] < x);
                assert(a.contains(x));
                assert(b.contains(x));
                let m = choose|m: int| 0 <= m < b.len() && b[m] == x;
                assert(m != 0);
                assert(bt[m - 1] == x);
            }
            assert forall|x: u64| #[trigger] bt.contains(x) implies at.contains(x) by {
                let k = choose|k: int| 0 <= k < bt.len() && bt[k] == x;
                assert(b[k + 1] == x);
                assert(b[0] < x);
                assert(b.contains(x));
                assert(a.contains(x));
                let m = choose|m: int| 0 <= m < a.len() && a[m] == x;
                assert(m != 0);
                assert(at[m - 1] == x);
            }
        }
        lemma_sorted_same_members_equal(at, bt);
        assert(a =~= b) by {
            assert(at.len() == bt.len());
            assert(a.len() == at.len() + 1);
            assert(b.len() == bt.len() + 1);
            assert forall|k: int| 0 <= k < a.len() implies a[k] == b[k] by {
                if k > 0 {
                    assert(at[k - 1] == bt[k - 1]);
                }
            }
        }
    }
}

/// `to` is `from` with component `c` added: still sorted, and holding exactly
/// the members of `from` plus `c`.
pub open spec fn sig_with_added(from: Seq<u64>, c: u64, to: Seq<u64>) -> bool {
    &&& sorted_strict(to)
    &&& forall|x: u64| #[trigger] to.contains(x) <==> (from.contains(x) || x == c)
}

/// `to` is `from` with component `c` removed: still sorted, and holding
/// exactly the members of `from` other than `c`.
pub open spec fn sig_with_removed(from: Seq<u64>, c: u64, to: Seq<u64>) -> bool {
    &&& sorted_strict(to)
    &&& forall|x: u64| #[trigger] to.contains(x) <==> (from.contains(x) && x != c)
}

/// How a column's capacity grows when one more slot is needed: double it,
/// starting from four slots.
pub open spec fn grown_capacity(cap: usize) -> usize {
    if cap == 0 {
        4usize
    } else if cap <= usize::MAX / 2 {
        (2 * cap) as usize
    } else {
        usize::MAX
    }
}

/// One component type's storage inside an archetype: a value per row, a
/// change tick per row, and the capacity the allocation policy has reached.
pub struct Column {
    pub values: Vec<Vec<u64>>,
    pub changed_ticks: Vec<u64>,
    pub capacity: usize,
}

impl Column {
    pub open spec fn len_spec(self) -> int {
        self.values@.len() as int
    }

    /// The payload words stored at `row`.
    pub open spec fn value_at(self, row: int) -> Seq<u64> {
        self.values@[row]@
    }

    /// The tick at which `row` was last written.
    pub open spec fn tick_at(self, row: int) -> u64 {
        self.changed_ticks@[row]
    }

    pub open spec fn wf(self) -> bool {
        &&& self.values@.len() == self.changed_ticks@.len()
        &&& self.values@.len() <= self.capacity
    }

    pub fn new() -> (c: Self)
        ensures
            c.wf(),
            c.len_spec() == 0,
            c.capacity == 0,
    {
        Self { values: Vec::new(), changed_ticks: Vec::new(), capacity: 0 }
    }

    pub fn len(&self) -> (r: usize)
        ensures
            r == self.len_spec(),
    {
        self.values.len()
    }

    /// Makes room for `additional` more slots beyond the current capacity,
    /// saturating at the address-space limit.
    pub fn reserve(&mut self, additional: usize)
        requires
            old(self).wf(),
        ensures
            final(self).wf(),
            final(self).values@ == old(self).values@,
            final(self).changed_ticks@ == old(self).changed_ticks@,
            final(self).capacity == if additional <= usize::MAX - old(self).capacity {
                (old(self).capacity + additional) as usize
            } else {
                usize::MAX
            },
    {
        if additional == 0 {
            return ;
        }
        if additional <= usize::MAX - self.capacity {
            self.capacity = self.capacity + additional;
        } else {
            self.capacity = usize::MAX;
        }
        self.values.reserve(additional);
        self.changed_ticks.reserve(additional);
    }

    /// Doubles the capacity (minimum four slots), keeping the contents.
    fn grow(&mut self)
        requires
            old(self).wf(),
        ensures
            final(self).wf(),
            final(self).values@ == old(self).values@,
            final(self).changed_ticks@ == old(self).changed_ticks@,
            final(self).capacity == grown_capacity(old(self).capacity),
    {
        let new_capacity: usize = if self.capacity == 0 {
            4
        } else if self.capacity <= usize::MAX / 2 {
            2 * self.capacity
        } else {
            usize::MAX
        };
        self.reserve(new_capacity - self.capacity);
    }

    /// Appends one slot holding an empty placeholder value, stamped with
    /// `tick`; the caller is expected to write the slot before reading it.
    /// Grows the capacity when the new row does not fit.
    pub fn push_slot(&mut self, tick: u64)
        requires
            old(self).wf(),
            old(self).len_spec() < usize::MAX,
        ensures
            final(self).wf(),
            final(self).len_spec() == old(self).len_spec() + 1,
            final(self).value_at(old(self).len_spec()) == Seq::<u64>::empty(),
            final(self).tick_at(old(self).len_spec()) == tick,
            forall|i: int|
                0 <= i < old(self).len_spec() ==> final(self).value_at(i) == old(self).value_at(i)
                    && final(self).tick_at(i) == old(self).tick_at(i),
            final(self).capacity == if old(self).len_spec() < old(self).capacity {
                old(self).capacity
            } else {
                grown_capacity(old(self).capacity)
            },
    {
        if self.values.len() == self.capacity {
            self.grow();
        }
        self.values.push(Vec::new());
        self.changed_ticks.push(tick);
    }

    /// Overwrites the slot at `row` without looking at its prior contents,
    /// and records `tick` as its last write.
    pub fn write_at(&mut self, row: usize, value: Vec<u64>, tick: u64)
        requires
            old(self).wf(),
            row < old(self).len_spec(),
        ensures
            final(self).wf(),
            final(self).len_spec() == old(self).len_spec(),
            final(self).capacity == old(self).capacity,
            final(self).value_at(row as int) == value@,
            final(self).tick_at(row as int) == tick,
            forall|i: int|
                0 <= i < old(self).len_spec() && i != row ==> final(self).value_at(i) == old(
                    self,
                ).value_at(i) && final(self).tick_at(i) == old(self).tick_at(i),
    {
        self.values[row] = value;
        self.changed_ticks[row] = tick;
    }

    /// A shared reference to the value at `row`.
    pub fn read_at(&self, row: usize) -> (r: &Vec<u64>)
        requires
            row < self.len_spec(),
        ensures
            r@ == self.value_at(row as int),
    {
        &self.values[row]
    }

    /// Copies the value out of `row`; the slot itself is untouched and the
    /// caller takes over responsibility for it.
    pub fn take_at(&self, row: usize) -> (v: Vec<u64>)
        requires
            row < self.len_spec(),
        ensures
            v@ == self.value_at(row as int),
    {
        copy_words(&self.values[row])
    }

    /// A mutable reference to the value at `row`; taking it records `tick` as
    /// the row's last write.
    pub fn get_mut_at(&mut self, row: usize, tick: u64) -> (r: &mut Vec<u64>)
        requires
            old(self).wf(),
            row < old(self).len_spec(),
        ensures
            r@ == old(self).value_at(row as int),
            final(self).values@ == old(self).values@.update(row as int, *final(r)),
            final(self).changed_ticks@ == old(self).changed_ticks@.update(row as int, tick),
            final(self).capacity == old(self).capacity,
            final(self).wf(),
    {
        self.changed_ticks[row] = tick;
        &mut self.values[row]
    }

    /// Removes the slot at `row` by moving the last slot's value and tick over
    /// it (a plain move of the last row when `row` is the last row).
    pub fn swap_remove_at(&mut self, row: usize)
        requires
            old(self).wf(),
            row < old(self).len_spec(),
        ensures
            final(self).wf(),
            final(self).capacity == old(self).capacity,
            final(self).len_spec() == old(self).len_spec() - 1,
            forall|i: int|
                0 <= i < final(self).len_spec() && i != row ==> final(self).value_at(i) == old(
                    self,
                ).value_at(i) && final(self).tick_at(i) == old(self).tick_at(i),
            row < final(self).len_spec() ==> final(self).value_at(row as int) == old(
                self,
            ).value_at(old(self).len_spec() - 1) && final(self).tick_at(row as int) == old(
                self,
            ).tick_at(old(self).len_spec() - 1),
    {
        self.values.swap_remove(row);
        self.changed_ticks.swap_remove(row);
    }
}

/// The table of every entity that carries exactly one set of component types:
/// one column per component type in the sorted signature, plus the owning
/// entity of each row.
pub struct Archetype {
    pub id: usize,
    pub types: Vec<u64>,
    pub columns: Vec<Column>,
    pub entities: Vec<Entity>,
    pub tick: u64,
}

impl Archetype {
    /// The sorted component signature.
    pub open spec fn sig(self) -> Seq<u64> {
        self.types@
    }

    pub open spec fn len_spec(self) -> int {
        self.entities@.len() as int
    }

    pub open spec fn entity_at(self, row: int) -> Entity {
        self.entities@[row]
    }

    pub open spec fn has_comp(self, c: u64) -> bool {
        self.sig().contains(c)
    }

    /// The column storing component `c`.
    pub open spec fn col_of(self, c: u64) -> Column {
        self.columns@[sig_index(self.sig(), c)]
    }

    /// The payload of component `c` in `row`.
    pub open spec fn value_of(self, row: int, c: u64) -> Seq<u64> {
        self.col_of(c).value_at(row)
    }

    /// The tick at which component `c` in `row` was last written.
    pub open spec fn tick_of(self, row: int, c: u64) -> u64 {
        self.col_of(c).tick_at(row)
    }

    /// The signature is sorted and duplicate-free, there is one column per
    /// signature entry, and every column is exactly as long as the entity
    /// vector.
    pub open spec fn wf(self) -> bool {
        &&& sorted_strict(self.types@)
        &&& self.columns@.len() == self.types@.len()
        &&& forall|c: int|
            0 <= c < self.columns@.len() ==> (#[trigger] self.columns@[c]).wf()
                && self.columns@[c].len_spec() == self.entities@.len()
    }

    /// Creates an empty archetype for the given sorted signature, with one
    /// empty column per component type, as a map entry at index `id`.
    pub fn new(id: usize, types: Vec<u64>) -> (a: Self)
        requires
            sorted_strict(types@),
        ensures
            a.wf(),
            a.id == id,
            a.sig() == types@,
            a.len_spec() == 0,
            a.tick == 0,
    {
        let mut columns: Vec<Column> = Vec::new();
        let mut i: usize = 0;
        while i < types.len()
            invariant
                i <= types@.len(),
                columns@.len() == i,
                forall|c: int|
                    0 <= c < i ==> (#[trigger] columns@[c]).wf() && columns@[c].len_spec() == 0,
            decreases types@.len() - i,
        {
            columns.push(Column::new());
            i = i + 1;
        }
        Self { id, types, columns, entities: Vec::new(), tick: 0 }
    }

    pub fn id(&self) -> (r: usize)
        ensures
            r == self.id,
    {
        self.id
    }

    pub fn types(&self) -> (r: &Vec<u64>)
        ensures
            r@ == self.sig(),
    {
        &self.types
    }

    pub fn len(&self) -> (r: usize)
        ensures
            r == self.len_spec(),
    {
        self.entities.len()
    }

    pub fn is_empty(&self) -> (r: bool)
        ensures
            r == (self.len_spec() == 0),
    {
        self.entities.is_empty()
    }

    pub fn entities(&self) -> (r: &Vec<Entity>)
        ensures
            r@ == self.entities@,
    {
        &self.entities
    }

    /// Stamps the archetype with the current world tick; subsequent writes
    /// record this tick.
    pub fn set_tick(&mut self, tick: u64)
        requires
            old(self).wf(),
        ensures
            final(self).wf(),
            *final(self) == (Archetype { tick, ..*old(self) }),
    {
        self.tick = tick;
    }

    /// The index of the column that stores `comp`, if the signature has it.
    pub fn find_column(&self, comp: u64) -> (r: Option<usize>)
        requires
            sorted_strict(self.sig()),
        ensures
            match r {
                Some(ci) => self.has_comp(comp) && ci == sig_index(self.sig(), comp) && 0 <= ci
                    < self.sig().len(),
                None => !self.has_comp(comp),
            },
    {
        let mut i: usize = 0;
        while i < self.types.len()
            invariant
                i <= self.types@.len(),
                sorted_strict(self.sig()),
                forall|j: int| 0 <= j < i ==> self.types@[j] != comp,
            decreases self.types@.len() - i,
        {
            if self.types[i] == comp {
                proof {
                    lemma_sig_index(self.sig(), comp, i as int);
                }
                return Some(i);
            }
            i = i + 1;
        }
        proof {
            assert(!self.sig().contains(comp));
        }
        None
    }

    /// Appends a row owned by `entity`: every column gains one placeholder
    /// slot stamped with the archetype's tick, and the caller is expected to
    /// write each slot afterwards.
    pub fn push_entity(&mut self, entity: Entity)
        requires
            old(self).wf(),
            old(self).len_spec() < usize::MAX,
        ensures
            final(self).wf(),
            final(self).id == old(self).id,
            final(self).tick == old(self).tick,
            final(self).sig() == old(self).sig(),
            final(self).len_spec() == old(self).len_spec() + 1,
            final(self).entity_at(old(self).len_spec()) == entity,
            forall|r: int|
                0 <= r < old(self).len_spec() ==> final(self).entity_at(r) == old(self).entity_at(
                    r,
                ),
            forall|r: int, c: u64|
                0 <= r < old(self).len_spec() && old(self).has_comp(c) ==> final(self).value_of(
                    r,
                    c,
                ) == old(self).value_of(r, c) && final(self).tick_of(r, c) == old(self).tick_of(
                    r,
                    c,
                ),
            forall|c: u64|
                old(self).has_comp(c) ==> final(self).value_of(old(self).len_spec(), c)
                    == Seq::<u64>::empty() && final(self).tick_of(old(self).len_spec(), c) == old(
                    self,
                ).tick,
    {
        let ghost old_self = *old(self);
        let tick = self.tick;
        let mut i: usize = 0;
        while i < self.columns.len()
            invariant
                old_self.wf(),
                old_self.len_spec() < usize::MAX,
                i <= self.columns@.len(),
                self.columns@.len() == old_self.columns@.len(),
                self.types@ == old_self.types@,
                self.entities@ == old_self.entities@,
                self.id == old_self.id,
                self.tick == old_self.tick,
                tick == old_self.tick,
                forall|c: int| i <= c < self.columns@.len() ==> self.columns@[c] == old_self.columns@[c],
                forall|c: int|
                    0 <= c < i ==> (#[trigger] self.columns@[c]).wf() && self.columns@[c].len_spec()
                        == old_self.len_spec() + 1 && self.columns@[c].value_at(old_self.len_spec())
                        == Seq::<u64>::empty() && self.columns@[c].tick_at(old_self.len_spec())
                        == tick,
                forall|c: int, r: int|
                    0 <= c < i && 0 <= r < old_self.len_spec() ==> (#[trigger] self.columns@[c].value_at(
                        r,
                    )) == old_self.columns@[c].value_at(r) && self.columns@[c].tick_at(r)
                        == old_self.columns@[c].tick_at(r),
            decreases self.columns@.len() - i,
        {
            proof {
                assert(self.columns@[i as int] == old_self.columns@[i as int]);
                assert(old_self.columns@[i as int].wf());
            }
            let col = &mut self.columns[i];
            col.push_slot(tick);
            i = i + 1;
        }
        self.entities.push(entity);
        proof {
            assert forall|r: int, c: u64|
                0 <= r < old_self.len_spec() && old_self.has_comp(c) implies self.value_of(r, c)
                == old_self.value_of(r, c) && self.tick_of(r, c) == old_self.tick_of(r, c) by {
                let ci = sig_index(old_self.sig(), c);
                assert(0 <= ci < old_self.sig().len());
            }
            assert forall|c: u64| old_self.has_comp(c) implies self.value_of(
                old_self.len_spec(),
                c,
            ) == Seq::<u64>::empty() && self.tick_of(old_self.len_spec(), c) == old_self.tick by {
                let ci = sig_index(old_self.sig(), c);
                assert(0 <= ci < old_self.sig().len());
            }
        }
    }

    /// Writes `value` as component `comp` of `row` and records the archetype
    /// tick as the row's last write for that component.
    pub fn set_component(&mut self, row: usize, comp: u64, value: Vec<u64>)
        requires
            old(self).wf(),
            old(self).has_comp(comp),
            row < old(self).len_spec(),
        ensures
            final(self).wf(),
            final(self).id == old(self).id,
            final(self).tick == old(self).tick,
            final(self).sig() == old(self).sig(),
            final(self).len_spec() == old(self).len_spec(),
            final(self).entities@ == old(self).entities@,
            final(self).value_of(row as int, comp) == value@,
            final(self).tick_of(row as int, comp) == old(self).tick,
            forall|r: int, c: u64|
                0 <= r < old(self).len_spec() && old(self).has_comp(c) && !(r == row && c == comp)
                    ==> final(self).value_of(r, c) == old(self).value_of(r, c) && final(self).tick_of(r, c) == old(self).tick_of(r, c),
    {
        let ci = match self.find_column(comp) {
            Some(ci) => ci,
            None => { vstd::pervasive::unreached() },
        };
        let tick = self.tick;
        let col = &mut self.columns[ci];
        col.write_at(row, value, tick);
        proof {
            assert forall|r: int, c: u64|
                0 <= r < old(self).len_spec() && old(self).has_comp(c) && !(r == row && c
                    == comp) implies self.value_of(r, c) == old(self).value_of(r, c)
                && self.tick_of(r, c) == old(self).tick_of(r, c) by {
                let cj = sig_index(old(self).sig(), c);
                assert(0 <= cj < old(self).sig().len());
                if c == comp {
                    assert(cj == ci);
                } else {
                    assert(old(self).sig()[cj] == c && old(self).sig()[ci as int] == comp);
                    assert(cj != ci);
                }
            }
        }
    }

    /// The component payload of `row`, if the signature has `comp` and the
    /// row exists.
    pub fn get_component(&self, row: usize, comp: u64) -> (r: Option<&Vec<u64>>)
        requires
            self.wf(),
        ensures
            match r {
                Some(v) => self.has_comp(comp) && row < self.len_spec() && v@ == self.value_of(
                    row as int,
                    comp,
                ),
                None => !self.has_comp(comp) || row >= self.len_spec(),
            },
    {
        let ci = match self.find_column(comp) {
            Some(ci) => ci,
            None => { return None },
        };
        if row >= self.entities.len() {
            return None;
        }
        Some(self.columns[ci].read_at(row))
    }

    /// A mutable reference to the component payload of `row`; taking it
    /// records the archetype tick as the row's last write for `comp`.
    pub fn get_component_mut(&mut self, row: usize, comp: u64) -> (r: Option<&mut Vec<u64>>)
        requires
            old(self).wf(),
        ensures
            match r {
                Some(v) => {
                    &&& old(self).has_comp(comp)
                    &&& row < old(self).len_spec()
                    &&& v@ == old(self).value_of(row as int, comp)
                    &&& final(self).wf()
                    &&& final(self).id == old(self).id
                    &&& final(self).tick == old(self).tick
                    &&& final(self).sig() == old(self).sig()
                    &&& final(self).types@ == old(self).types@
                    &&& final(self).len_spec() == old(self).len_spec()
                    &&& final(self).entities@ == old(self).entities@
                    &&& final(self).value_of(row as int, comp) == final(v)@
                    &&& final(self).tick_of(row as int, comp) == old(self).tick
                    &&& final(self).columns@.len() == old(self).columns@.len()
                    &&& forall|cj: int|
                        0 <= cj < old(self).columns@.len() && cj != sig_index(old(self).sig(), comp)
                            ==> final(self).columns@[cj] == old(self).columns@[cj]
                    &&& final(self).columns@[sig_index(old(self).sig(), comp)].values@ == old(
                        self,
                    ).columns@[sig_index(old(self).sig(), comp)].values@.update(
                        row as int,
                        *final(v),
                    )
                    &&& final(self).columns@[sig_index(old(self).sig(), comp)].changed_ticks@
                        == old(self).columns@[sig_index(old(self).sig(), comp)].changed_ticks@.update(
                        row as int,
                        old(self).tick,
                    )
                    &&& final(self).columns@[sig_index(old(self).sig(), comp)].capacity == old(
                        self,
                    ).columns@[sig_index(old(self).sig(), comp)].capacity
                    &&& forall|r2: int, c: u64|
                        0 <= r2 < old(self).len_spec() && old(self).has_comp(c) && !(r2 == row && c
                            == comp) ==> final(self).value_of(r2, c) == old(self).value_of(r2, c)
                            && final(self).tick_of(r2, c) == old(self).tick_of(r2, c)
                },
                None => (!old(self).has_comp(comp) || row >= old(self).len_spec()) && *final(self)
                    == *old(self),
            },
    {
        let ci = match self.find_column(comp) {
            Some(ci) => ci,
            None => { return None },
        };
        if row >= self.entities.len() {
            return None;
        }
        let tick = self.tick;
        let col = &mut self.columns[ci];
        proof {
            assert forall|c: u64| old(self).has_comp(c) implies 0 <= sig_index(
                old(self).sig(),
                c,
            ) < old(self).sig().len() && (c != comp ==> sig_index(old(self).sig(), c)
                != ci) by {
                let cj = sig_index(old(self).sig(), c);
                assert(old(self).sig()[cj] == c);
                assert(old(self).sig()[ci as int] == comp);
            }
        }
        let v = col.get_mut_at(row, tick);
        Some(v)
    }

    /// Whether component `comp` of `row` was written after `since_tick`.
    pub fn component_changed(&self, row: usize, comp: u64, since_tick: u64) -> (r: bool)
        requires
            self.wf(),
        ensures
            r == (self.has_comp(comp) && row < self.len_spec() && self.tick_of(row as int, comp)
                > since_tick),
    {
        let ci = match self.find_column(comp) {
            Some(ci) => ci,
            None => { return false },
        };
        if row >= self.entities.len() {
            return false;
        }
        self.columns[ci].changed_ticks[row] > since_tick
    }

    /// Copies the component payload of `row` out; the slot keeps its bytes
    /// and the caller is expected to remove or overwrite the row.
    pub fn take_component(&self, row: usize, comp: u64) -> (r: Option<Vec<u64>>)
        requires
            self.wf(),
        ensures
            match r {
                Some(v) => self.has_comp(comp) && row < self.len_spec() && v@ == self.value_of(
                    row as int,
                    comp,
                ),
                None => !self.has_comp(comp) || row >= self.len_spec(),
            },
    {
        let ci = match self.find_column(comp) {
            Some(ci) => ci,
            None => { return None },
        };
        if row >= self.entities.len() {
            return None;
        }
        Some(self.columns[ci].take_at(row))
    }

    /// Removes `row` by moving the last row over it, in the entity vector and
    /// in every column; returns the entity that was at the end — the one that
    /// moved into `row` — so the caller can update its recorded location. The
    /// caller settles what happens to the removed payloads.
    pub fn remove_entity(&mut self, row: usize) -> (e: Entity)
        requires
            old(self).wf(),
            row < old(self).len_spec(),
        ensures
            final(self).wf(),
            final(self).id == old(self).id,
            final(self).tick == old(self).tick,
            final(self).sig() == old(self).sig(),
            final(self).len_spec() == old(self).len_spec() - 1,
            e == old(self).entity_at(old(self).len_spec() - 1),
            forall|r: int|
                0 <= r < final(self).len_spec() && r != row ==> final(self).entity_at(r) == old(
                    self,
                ).entity_at(r),
            row < final(self).len_spec() ==> final(self).entity_at(row as int) == old(
                self,
            ).entity_at(old(self).len_spec() - 1),
            forall|r: int, c: u64|
                0 <= r < final(self).len_spec() && r != row && old(self).has_comp(c) ==> final(self).value_of(r, c) == old(self).value_of(r, c) && final(self).tick_of(r, c) == old(
                    self,
                ).tick_of(r, c),
            forall|c: u64|
                row < final(self).len_spec() && old(self).has_comp(c) ==> final(self).value_of(
                    row as int,
                    c,
                ) == old(self).value_of(old(self).len_spec() - 1, c) && #[trigger] final(self).tick_of(row as int, c) == old(self).tick_of(old(self).len_spec() - 1, c),
    {
        let ghost old_self = *old(self);
        let entity = self.entities[self.entities.len() - 1];
        let _removed = self.entities.swap_remove(row);
        let mut i: usize = 0;
        while i < self.columns.len()
            invariant
                old_self.wf(),
                row < old_self.len_spec(),
                i <= self.columns@.len(),
                self.columns@.len() == old_self.columns@.len(),
                self.types@ == old_self.types@,
                self.id == old_self.id,
                self.tick == old_self.tick,
                self.entities@ == old_self.entities@.update(
                    row as int,
                    old_self.entities@.last(),
                ).drop_last(),
                forall|c: int| i <= c < self.columns@.len() ==> self.columns@[c] == old_self.columns@[c],
                forall|c: int|
                    0 <= c < i ==> (#[trigger] self.columns@[c]).wf() && self.columns@[c].len_spec()
                        == old_self.len_spec() - 1,
                forall|c: int, r: int|
                    0 <= c < i && 0 <= r < old_self.len_spec() - 1 && r != row ==> (
                    #[trigger] self.columns@[c].value_at(r)) == old_self.columns@[c].value_at(r)
                        && self.columns@[c].tick_at(r) == old_self.columns@[c].tick_at(r),
                forall|c: int|
                    0 <= c < i && row < old_self.len_spec() - 1 ==> (
                    #[trigger] self.columns@[c]).value_at(row as int) == old_self.columns@[c].value_at(
                        old_self.len_spec() - 1,
                    ) && self.columns@[c].tick_at(row as int) == old_self.columns@[c].tick_at(
                        old_self.len_spec() - 1,
                    ),
            decreases self.columns@.len() - i,
        {
            proof {
                assert(self.columns@[i as int] == old_self.columns@[i as int]);
                assert(old_self.columns@[i as int].wf());
            }
            let col = &mut self.columns[i];
            col.swap_remove_at(row);
            i = i + 1;
        }
        proof {
            assert forall|r: int, c: u64|
                0 <= r < self.len_spec() && r != row && old_self.has_comp(c) implies self.value_of(
                r,
                c,
            ) == old_self.value_of(r, c) && self.tick_of(r, c) == old_self.tick_of(r, c) by {
                let ci = sig_index(old_self.sig(), c);
                assert(0 <= ci < old_self.sig().len());
            }
            assert forall|c: u64|
                row < self.len_spec() && old_self.has_comp(c) implies self.value_of(row as int, c)
                == old_self.value_of(old_self.len_spec() - 1, c) && self.tick_of(row as int, c)
                == old_self.tick_of(old_self.len_spec() - 1, c) by {
                let ci = sig_index(old_self.sig(), c);
                assert(0 <= ci < old_self.sig().len());
            }
        }
        entity
    }

    /// Copies one component payload — and its change tick — from a row of
    /// another archetype into a row of this one. Used while migrating an
    /// entity; the source slot is left as is and is logically handed over.
    pub fn copy_component_from(
        &mut self,
        to_row: usize,
        from: &Archetype,
        from_row: usize,
        comp: u64,
    )
        requires
            old(self).wf(),
            from.wf(),
            old(self).has_comp(comp),
            from.has_comp(comp),
            to_row < old(self).len_spec(),
            from_row < from.len_spec(),
        ensures
            final(self).wf(),
            final(self).id == old(self).id,
            final(self).tick == old(self).tick,
            final(self).sig() == old(self).sig(),
            final(self).len_spec() == old(self).len_spec(),
            final(self).entities@ == old(self).entities@,
            final(self).value_of(to_row as int, comp) == from.value_of(from_row as int, comp),
            final(self).tick_of(to_row as int, comp) == from.tick_of(from_row as int, comp),
            forall|r: int, c: u64|
                0 <= r < old(self).len_spec() && old(self).has_comp(c) && !(r == to_row && c
                    == comp) ==> final(self).value_of(r, c) == old(self).value_of(r, c) && final(self).tick_of(r, c) == old(self).tick_of(r, c),
    {
        let fci = match from.find_column(comp) {
            Some(ci) => ci,
            None => { vstd::pervasive::unreached() },
        };
        let tci = match self.find_column(comp) {
            Some(ci) => ci,
            None => { vstd::pervasive::unreached() },
        };
        let value = from.columns[fci].take_at(from_row);
        let tick = from.columns[fci].changed_ticks[from_row];
        let col = &mut self.columns[tci];
        col.write_at(to_row, value, tick);
        proof {
            assert forall|r: int, c: u64|
                0 <= r < old(self).len_spec() && old(self).has_comp(c) && !(r == to_row && c
                    == comp) implies self.value_of(r, c) == old(self).value_of(r, c)
                && self.tick_of(r, c) == old(self).tick_of(r, c) by {
                let cj = sig_index(old(self).sig(), c);
                assert(0 <= cj < old(self).sig().len());
                if c == comp {
                    assert(cj == tci);
                } else {
                    assert(old(self).sig()[cj] == c && old(self).sig()[tci as int] == comp);
                    assert(cj != tci);
                }
            }
        }
    }

    /// Writes `value` as component `comp` of `row`, recording `tick` — not
    /// the archetype tick — as the row's last write. Migration uses this to
    /// carry a moved row's original change ticks along.
    pub fn write_component_with_tick(&mut self, row: usize, comp: u64, value: Vec<u64>, tick: u64)
        requires
            old(self).wf(),
            old(self).has_comp(comp),
            row < old(self).len_spec(),
        ensures
            final(self).wf(),
            final(self).id == old(self).id,
            final(self).tick == old(self).tick,
            final(self).sig() == old(self).sig(),
            final(self).len_spec() == old(self).len_spec(),
            final(self).entities@ == old(self).entities@,
            final(self).value_of(row as int, comp) == value@,
            final(self).tick_of(row as int, comp) == tick,
            forall|r: int, c: u64|
                0 <= r < old(self).len_spec() && old(self).has_comp(c) && !(r == row && c == comp)
                    ==> final(self).value_of(r, c) == old(self).value_of(r, c) && final(self).tick_of(
                    r,
                    c,
                ) == old(self).tick_of(r, c),
    {
        let ci = match self.find_column(comp) {
            Some(ci) => ci,
            None => { vstd::pervasive::unreached() },
        };
        let col = &mut self.columns[ci];
        col.write_at(row, value, tick);
        proof {
            assert forall|r: int, c: u64|
                0 <= r < old(self).len_spec() && old(self).has_comp(c) && !(r == row && c
                    == comp) implies self.value_of(r, c) == old(self).value_of(r, c)
                && self.tick_of(r, c) == old(self).tick_of(r, c) by {
                let cj = sig_index(old(self).sig(), c);
                assert(0 <= cj < old(self).sig().len());
                if c == comp {
                    assert(cj == ci);
                } else {
                    assert(old(self).sig()[cj] == c && old(self).sig()[ci as int] == comp);
                    assert(cj != ci);
                }
            }
        }
    }

    /// The payloads and change ticks of one row, aligned with the signature:
    /// entry `i` belongs to component `sig()[i]`.
    pub fn read_row(&self, row: usize) -> (r: (Vec<Vec<u64>>, Vec<u64>))
        requires
            self.wf(),
            row < self.len_spec(),
        ensures
            r.0@.len() == self.sig().len(),
            r.1@.len() == self.sig().len(),
            forall|i: int|
                0 <= i < self.sig().len() ==> (#[trigger] r.0@[i])@ == self.value_of(
                    row as int,
                    self.sig()[i],
                ) && r.1@[i] == self.tick_of(row as int, self.sig()[i]),
    {
        let mut values: Vec<Vec<u64>> = Vec::new();
        let mut ticks: Vec<u64> = Vec::new();
        let mut i: usize = 0;
        while i < self.columns.len()
            invariant
                self.wf(),
                row < self.len_spec(),
                i <= self.columns@.len(),
                values@.len() == i,
                ticks@.len() == i,
                forall|j: int|
                    0 <= j < i ==> (#[trigger] values@[j])@ == self.columns@[j].value_at(row as int)
                        && ticks@[j] == self.columns@[j].tick_at(row as int),
            decreases self.columns@.len() - i,
        {
            let v = self.columns[i].take_at(row);
            let t = self.columns[i].changed_ticks[row];
            values.push(v);
            ticks.push(t);
            proof {
                assert(values@[i as int] == v);
                assert(ticks@[i as int] == t);
                assert(t == self.columns@[i as int].tick_at(row as int));
            }
            i = i + 1;
        }
        proof {
            assert forall|j: int| 0 <= j < self.sig().len() implies (#[trigger] values@[j])@
                == self.value_of(row as int, self.sig()[j]) && ticks@[j] == self.tick_of(
                row as int,
                self.sig()[j],
            ) by {
                lemma_sig_index(self.sig(), self.sig()[j], j);
            }
        }
        (values, ticks)
    }

    /// Appends a row owned by `entity` whose column payloads come from
    /// `entries`, one entry per signature position in order; every slot is
    /// stamped with the archetype tick.
    pub fn push_row(&mut self, entity: Entity, entries: &Vec<BundleEntry>)
        requires
            old(self).wf(),
            old(self).len_spec() < usize::MAX,
            entries@.len() == old(self).sig().len(),
            forall|i: int|
                0 <= i < entries@.len() ==> (#[trigger] entries@[i]).comp == old(self).sig()[i],
        ensures
            final(self).wf(),
            final(self).id == old(self).id,
            final(self).tick == old(self).tick,
            final(self).sig() == old(self).sig(),
            final(self).len_spec() == old(self).len_spec() + 1,
            final(self).entity_at(old(self).len_spec()) == entity,
            forall|r: int|
                0 <= r < old(self).len_spec() ==> final(self).entity_at(r) == old(self).entity_at(
                    r,
                ),
            forall|r: int, c: u64|
                0 <= r < old(self).len_spec() && old(self).has_comp(c) ==> final(self).value_of(
                    r,
                    c,
                ) == old(self).value_of(r, c) && final(self).tick_of(r, c) == old(self).tick_of(
                    r,
                    c,
                ),
            forall|i: int|
                0 <= i < entries@.len() ==> final(self).value_of(
                    old(self).len_spec(),
                    (#[trigger] entries@[i]).comp,
                ) == entries@[i].value@ && final(self).tick_of(old(self).len_spec(), entries@[i].comp)
                    == old(self).tick,
    {
        let ghost w = *old(self);
        let row = self.entities.len();
        self.push_entity(entity);
        let tick = self.tick;
        let mut i: usize = 0;
        while i < entries.len()
            invariant
                w.wf(),
                row == w.len_spec(),
                entries@.len() == w.sig().len(),
                forall|j: int|
                    0 <= j < entries@.len() ==> (#[trigger] entries@[j]).comp == w.sig()[j],
                i <= entries@.len(),
                tick == w.tick,
                self.wf(),
                self.id == w.id,
                self.tick == w.tick,
                self.sig() == w.sig(),
                self.len_spec() == w.len_spec() + 1,
                self.entity_at(row as int) == entity,
                forall|r: int| 0 <= r < row ==> self.entity_at(r) == w.entity_at(r),
                forall|r: int, c: u64|
                    0 <= r < row && w.has_comp(c) ==> self.value_of(r, c) == w.value_of(r, c)
                        && self.tick_of(r, c) == w.tick_of(r, c),
                forall|j: int|
                    0 <= j < i ==> self.value_of(row as int, (#[trigger] entries@[j]).comp)
                        == entries@[j].value@ && self.tick_of(row as int, entries@[j].comp)
                        == w.tick,
            decreases entries@.len() - i,
        {
            let comp = entries[i].comp;
            let value = copy_words(&entries[i].value);
            proof {
                assert(entries@[i as int].comp == w.sig()[i as int]);
                lemma_sig_index(w.sig(), comp, i as int);
                assert(self.has_comp(comp));
            }
            let ghost pre = *self;
            self.set_component(row, comp, value);
            proof {
                assert forall|j: int|
                    0 <= j < i implies self.value_of(row as int, (#[trigger] entries@[j]).comp)
                    == entries@[j].value@ && self.tick_of(row as int, entries@[j].comp)
                    == w.tick by {
                    assert(entries@[j].comp == w.sig()[j]);
                    assert(w.sig()[j] != comp);
                    assert(pre.value_of(row as int, entries@[j].comp) == entries@[j].value@);
                }
            }
            i = i + 1;
        }
        proof {
            assert forall|i2: int| 0 <= i2 < entries@.len() implies self.value_of(
                row as int,
                (#[trigger] entries@[i2]).comp,
            ) == entries@[i2].value@ && self.tick_of(row as int, entries@[i2].comp) == w.tick by {}
        }
    }

    /// Grows every column's capacity — and the entity vector's — by
    /// `additional` slots, so each column can hold its current rows plus
    /// `additional` more (saturating at the address-space limit).
    pub fn reserve(&mut self, additional: usize)
        requires
            old(self).wf(),
        ensures
            final(self).wf(),
            final(self).id == old(self).id,
            final(self).tick == old(self).tick,
            final(self).sig() == old(self).sig(),
            final(self).len_spec() == old(self).len_spec(),
            final(self).entities@ == old(self).entities@,
            final(self).columns@.len() == old(self).columns@.len(),
            forall|ci: int|
                0 <= ci < old(self).columns@.len() ==> (#[trigger] final(self).columns@[ci]).capacity
                    == if additional <= usize::MAX - old(self).columns@[ci].capacity {
                    (old(self).columns@[ci].capacity + additional) as usize
                } else {
                    usize::MAX
                },
            forall|r: int, c: u64|
                0 <= r < old(self).len_spec() && old(self).has_comp(c) ==> final(self).value_of(
                    r,
                    c,
                ) == old(self).value_of(r, c) && final(self).tick_of(r, c) == old(self).tick_of(
                    r,
                    c,
                ),
    {
        let ghost old_self = *old(self);
        let mut i: usize = 0;
        while i < self.columns.len()
            invariant
                old_self.wf(),
                i <= self.columns@.len(),
                self.columns@.len() == old_self.columns@.len(),
                self.types@ == old_self.types@,
                self.entities@ == old_self.entities@,
                self.id == old_self.id,
                self.tick == old_self.tick,
                forall|c: int| i <= c < self.columns@.len() ==> self.columns@[c] == old_self.columns@[c],
                forall|c: int|
                    0 <= c < i ==> (#[trigger] self.columns@[c]).wf() && self.columns@[c].len_spec()
                        == old_self.len_spec() && self.columns@[c].values@
                        == old_self.columns@[c].values@ && self.columns@[c].changed_ticks@
                        == old_self.columns@[c].changed_ticks@ && self.columns@[c].capacity == (
                    if additional <= usize::MAX - old_self.columns@[c].capacity {
                        (old_self.columns@[c].capacity + additional) as usize
                    } else {
                        usize::MAX
                    }),
            decreases self.columns@.len() - i,
        {
            proof {
                assert(self.columns@[i as int] == old_self.columns@[i as int]);
                assert(old_self.columns@[i as int].wf());
            }
            let col = &mut self.columns[i];
            col.reserve(additional);
            i = i + 1;
        }
        self.entities.reserve(additional);
        proof {
            assert forall|r: int, c: u64|
                0 <= r < old_self.len_spec() && old_self.has_comp(c) implies self.value_of(r, c)
                == old_self.value_of(r, c) && self.tick_of(r, c) == old_self.tick_of(r, c) by {
                let ci = sig_index(old_self.sig(), c);
                assert(0 <= ci < old_self.sig().len());
            }
        }
    }
}

/// One cached transition edge: starting from archetype `from`, adding or
/// removing component `comp` lands in archetype `to`.
#[derive(Clone, Copy)]
pub struct Edge {
    pub from: usize,
    pub comp: u64,
    pub is_add: bool,
    pub to: usize,
}

/// Owns every archetype, deduplicated by signature, in an append-only vector
/// whose indices double as archetype ids; caches structural-transition edges.
pub struct ArchetypeMap {
    pub archetypes: Vec<Archetype>,
    pub edges: Vec<Edge>,
}

impl ArchetypeMap {
    pub open spec fn count(self) -> int {
        self.archetypes@.len() as int
    }

    pub open spec fn arch(self, a: int) -> Archetype {
        self.archetypes@[a]
    }

    /// A cached edge must point at the archetype whose signature really is
    /// the source signature with the component added or removed.
    pub open spec fn edge_ok(self, e: Edge) -> bool {
        &&& 0 <= e.from < self.count()
        &&& 0 <= e.to < self.count()
        &&& if e.is_add {
            sig_with_added(self.arch(e.from as int).sig(), e.comp, self.arch(e.to as int).sig())
        } else {
            sig_with_removed(self.arch(e.from as int).sig(), e.comp, self.arch(e.to as int).sig())
        }
    }

    pub open spec fn wf(self) -> bool {
        &&& forall|a: int|
            0 <= a < self.count() ==> (#[trigger] self.arch(a)).wf() && self.arch(a).id == a
        &&& forall|a: int, b: int|
            0 <= a < b < self.count() ==> self.arch(a).sig() != self.arch(b).sig()
        &&& forall|i: int| 0 <= i < self.edges@.len() ==> self.edge_ok(#[trigger] self.edges@[i])
    }

    pub fn new() -> (r: Self)
        ensures
            r.wf(),
            r.count() == 0,
            r.edges@.len() == 0,
    {
        Self { archetypes: Vec::new(), edges: Vec::new() }
    }

    pub fn len(&self) -> (r: usize)
        ensures
            r == self.count(),
    {
        self.archetypes.len()
    }

    /// The index of the archetype whose signature equals `types`, if any.
    fn find_by_signature(&self, types: &Vec<u64>) -> (r: Option<usize>)
        ensures
            match r {
                Some(a) => a < self.count() && self.arch(a as int).sig() == types@,
                None => forall|a: int| 0 <= a < self.count() ==> self.arch(a).sig() != types@,
            },
    {
        let mut a: usize = 0;
        while a < self.archetypes.len()
            invariant
                a <= self.count(),
                forall|b: int| 0 <= b < a ==> self.arch(b).sig() != types@,
            decreases self.count() - a,
        {
            if sig_eq(&self.archetypes[a].types, types) {
                return Some(a);
            }
            a = a + 1;
        }
        None
    }

    /// The index of the archetype for this signature, appending a fresh,
    /// empty archetype when none exists yet. The signature is sorted — and
    /// stripped of duplicates — here, so any ordering of the same component
    /// set resolves to the same archetype.
    pub fn get_or_create(&mut self, types: Vec<u64>) -> (idx: usize)
        requires
            old(self).wf(),
        ensures
            final(self).wf(),
            idx < final(self).count(),
            sorted_strict(final(self).arch(idx as int).sig()),
            same_members(final(self).arch(idx as int).sig(), types@),
            (idx as int) < old(self).count() ==> *final(self) == *old(self),
            (idx as int) >= old(self).count() ==> {
                &&& final(self).count() == old(self).count() + 1
                &&& idx == old(self).count()
                &&& final(self).arch(idx as int).len_spec() == 0
                &&& final(self).arch(idx as int).tick == 0
                &&& forall|a: int|
                    0 <= a < old(self).count() ==> !same_members(
                        (#[trigger] old(self).arch(a)).sig(),
                        types@,
                    )
            },
            forall|a: int| 0 <= a < old(self).count() ==> final(self).arch(a) == old(self).arch(a),
            final(self).count() >= old(self).count(),
            final(self).edges@ == old(self).edges@,
    {
        let sorted = sorted_signature(&types);
        let ghost sorted_view = sorted@;
        if let Some(a) = self.find_by_signature(&sorted) {
            proof {
                assert(0 <= a < self.count() && self.arch(a as int).sig() == sorted_view);
            }
            return a;
        }
        let idx = self.archetypes.len();
        let arch = Archetype::new(idx, sorted);
        self.archetypes.push(arch);
        proof {
            assert forall|a: int| 0 <= a < old(self).count() implies !same_members(
                (#[trigger] old(self).arch(a)).sig(),
                types@,
            ) by {
                if same_members(old(self).arch(a).sig(), types@) {
                    assert(same_members(old(self).arch(a).sig(), sorted_view));
                    assert(old(self).arch(a).wf());
                    lemma_sorted_same_members_equal(old(self).arch(a).sig(), sorted_view);
                    assert(old(self).arch(a).sig() == sorted_view);
                }
            }
        }
        proof {
            assert forall|a: int| 0 <= a < self.count() implies (#[trigger] self.arch(a)).wf()
                && self.arch(a).id == a by {
                if a < old(self).count() {
                    assert(old(self).arch(a).wf() && old(self).arch(a).id == a);
                }
            }
            assert forall|a: int, b: int| 0 <= a < b < self.count() implies self.arch(a).sig()
                != self.arch(b).sig() by {
                if b < old(self).count() {
                    assert(old(self).arch(a).sig() != old(self).arch(b).sig());
                } else {
                    assert(old(self).arch(a).sig() != sorted_view);
                }
            }
            assert forall|i: int| 0 <= i < self.edges@.len() implies self.edge_ok(
                #[trigger] self.edges@[i],
            ) by {
                assert(old(self).edge_ok(old(self).edges@[i]));
                let e = self.edges@[i];
                assert(self.arch(e.from as int) == old(self).arch(e.from as int));
                assert(self.arch(e.to as int) == old(self).arch(e.to as int));
            }
        }
        idx
    }

    pub fn get(&self, index: usize) -> (r: Option<&Archetype>)
        ensures
            match r {
                Some(a) => index < self.count() && *a == self.arch(index as int),
                None => index >= self.count(),
            },
    {
        if index < self.archetypes.len() {
            Some(&self.archetypes[index])
        } else {
            None
        }
    }

    pub fn get_mut(&mut self, index: usize) -> (r: Option<&mut Archetype>)
        ensures
            match r {
                Some(a) => {
                    &&& index < old(self).count()
                    &&& *a == old(self).arch(index as int)
                    &&& final(self).archetypes@ == old(self).archetypes@.update(
                        index as int,
                        *final(a),
                    )
                    &&& final(self).edges@ == old(self).edges@
                },
                None => index >= old(self).count() && *final(self) == *old(self),
            },
    {
        if index < self.archetypes.len() {
            Some(&mut self.archetypes[index])
        } else {
            None
        }
    }

    /// Looks up the cached edge for adding `comp` to archetype `from`.
    /// `None` means no such edge has been cached.
    pub fn find_archetype_with_added(&self, from: usize, comp: u64) -> (r: Option<usize>)
        requires
            self.wf(),
        ensures
            match r {
                Some(to) => to < self.count() && from < self.count() && sig_with_added(
                    self.arch(from as int).sig(),
                    comp,
                    self.arch(to as int).sig(),
                ),
                None => forall|k: int|
                    0 <= k < self.edges@.len() ==> !((#[trigger] self.edges@[k]).from == from
                        && self.edges@[k].comp == comp && self.edges@[k].is_add),
            },
    {
        self.find_edge(from, comp, true)
    }

    /// Looks up the cached edge for removing `comp` from archetype `from`.
    /// `None` means no such edge has been cached.
    pub fn find_archetype_with_removed(&self, from: usize, comp: u64) -> (r: Option<usize>)
        requires
            self.wf(),
        ensures
            match r {
                Some(to) => to < self.count() && from < self.count() && sig_with_removed(
                    self.arch(from as int).sig(),
                    comp,
                    self.arch(to as int).sig(),
                ),
                None => forall|k: int|
                    0 <= k < self.edges@.len() ==> !((#[trigger] self.edges@[k]).from == from
                        && self.edges@[k].comp == comp && !self.edges@[k].is_add),
            },
    {
        self.find_edge(from, comp, false)
    }

    fn find_edge(&self, from: usize, comp: u64, is_add: bool) -> (r: Option<usize>)
        requires
            self.wf(),
        ensures
            match r {
                Some(to) => self.edge_ok(Edge { from, comp, is_add, to }),
                None => forall|k: int|
                    0 <= k < self.edges@.len() ==> !((#[trigger] self.edges@[k]).from == from
                        && self.edges@[k].comp == comp && self.edges@[k].is_add == is_add),
            },
    {
        let mut i: usize = 0;
        while i < self.edges.len()
            invariant
                self.wf(),
                i <= self.edges@.len(),
                forall|k: int|
                    0 <= k < i ==> !((#[trigger] self.edges@[k]).from == from && self.edges@[k].comp
                        == comp && self.edges@[k].is_add == is_add),
            decreases self.edges@.len() - i,
        {
            let e = &self.edges[i];
            if e.from == from && e.comp == comp && e.is_add == is_add {
                proof {
                    assert(self.edge_ok(self.edges@[i as int]));
                }
                return Some(e.to);
            }
            i = i + 1;
        }
        None
    }

    /// Resolves — creating it if needed — the archetype whose signature is
    /// `from`'s signature plus `comp`, and caches the edge. When `from`
    /// already carries `comp`, the union is `from`'s own signature, so the
    /// edge points back at `from`.
    pub fn create_archetype_with_added(&mut self, from: usize, comp: u64) -> (to: usize)
        requires
            old(self).wf(),
            from < old(self).count(),
        ensures
            final(self).wf(),
            to < final(self).count(),
            sig_with_added(
                old(self).arch(from as int).sig(),
                comp,
                final(self).arch(to as int).sig(),
            ),
            forall|a: int| 0 <= a < old(self).count() ==> final(self).arch(a) == old(self).arch(a),
            final(self).count() >= old(self).count(),
            final(self).count() == old(self).count() || (final(self).count() == old(self).count()
                + 1 && to as int == old(self).count()),
            to >= old(self).count() ==> final(self).count() == old(self).count() + 1 && final(self).arch(to as int).len_spec() == 0 && final(self).arch(to as int).tick == 0,
            final(self).edges@ == old(self).edges@.push(
                Edge { from, comp, is_add: true, to },
            ),
    {
        proof {
            assert(self.arch(from as int).wf());
        }
        let comp_present = match self.archetypes[from].find_column(comp) {
            Some(_) => true,
            None => false,
        };
        let to = if comp_present {
            proof {
                assert(sig_with_added(
                    self.arch(from as int).sig(),
                    comp,
                    self.arch(from as int).sig(),
                ));
            }
            from
        } else {
            let new_types = sig_insert_exec(&self.archetypes[from].types, comp);
            self.get_or_create(new_types)
        };
        let ghost mid = *self;
        let edge = Edge { from, comp, is_add: true, to };
        proof {
            assert(mid.edge_ok(edge));
        }
        self.edges.push(edge);
        proof {
            assert(self.archetypes@ == mid.archetypes@);
            assert forall|a: int| 0 <= a < self.count() implies (#[trigger] self.arch(a)).wf()
                && self.arch(a).id == a by {
                assert(self.arch(a) == mid.arch(a));
                assert(mid.arch(a).wf());
            }
            assert forall|a: int, b: int| 0 <= a < b < self.count() implies self.arch(a).sig()
                != self.arch(b).sig() by {
                assert(mid.arch(a).sig() != mid.arch(b).sig());
            }
            assert forall|i: int| 0 <= i < self.edges@.len() implies self.edge_ok(
                #[trigger] self.edges@[i],
            ) by {
                if i < self.edges@.len() - 1 {
                    assert(mid.edge_ok(mid.edges@[i]));
                } else {
                    assert(self.edges@[i] == edge);
                }
            }
        }
        to
    }

    /// Resolves — creating it if needed — the archetype whose signature is
    /// `from`'s signature minus `comp`, and caches the edge. When `from` does
    /// not carry `comp`, the difference is `from`'s own signature.
    pub fn create_archetype_with_removed(&mut self, from: usize, comp: u64) -> (to: usize)
        requires
            old(self).wf(),
            from < old(self).count(),
        ensures
            final(self).wf(),
            to < final(self).count(),
            sig_with_removed(
                old(self).arch(from as int).sig(),
                comp,
                final(self).arch(to as int).sig(),
            ),
            forall|a: int| 0 <= a < old(self).count() ==> final(self).arch(a) == old(self).arch(a),
            final(self).count() >= old(self).count(),
            final(self).count() == old(self).count() || (final(self).count() == old(self).count()
                + 1 && to as int == old(self).count()),
            to >= old(self).count() ==> final(self).count() == old(self).count() + 1 && final(self).arch(to as int).len_spec() == 0 && final(self).arch(to as int).tick == 0,
            final(self).edges@ == old(self).edges@.push(
                Edge { from, comp, is_add: false, to },
            ),
    {
        proof {
            assert(self.arch(from as int).wf());
        }
        let new_types = sig_remove_exec(&self.archetypes[from].types, comp);
        let to = self.get_or_create(new_types);
        let ghost mid = *self;
        let edge = Edge { from, comp, is_add: false, to };
        proof {
            assert(mid.edge_ok(edge));
        }
        self.edges.push(edge);
        proof {
            assert(self.archetypes@ == mid.archetypes@);
            assert forall|a: int| 0 <= a < self.count() implies (#[trigger] self.arch(a)).wf()
                && self.arch(a).id == a by {
                assert(self.arch(a) == mid.arch(a));
                assert(mid.arch(a).wf());
            }
            assert forall|a: int, b: int| 0 <= a < b < self.count() implies self.arch(a).sig()
                != self.arch(b).sig() by {
                assert(mid.arch(a).sig() != mid.arch(b).sig());
            }
            assert forall|i: int| 0 <= i < self.edges@.len() implies self.edge_ok(
                #[trigger] self.edges@[i],
            ) by {
                if i < self.edges@.len() - 1 {
                    assert(mid.edge_ok(mid.edges@[i]));
                } else {
                    assert(self.edges@[i] == edge);
                }
            }
        }
        to
    }
}

/// Signatures are unique across the archetype store: two archetypes with the
/// same signature are the same archetype. In particular, every cached edge
/// with the same source and component names the same target.
pub proof fn lemma_unique_signature(m: ArchetypeMap, a: int, b: int)
    requires
        m.wf(),
        0 <= a < m.count(),
        0 <= b < m.count(),
        m.arch(a).sig() == m.arch(b).sig(),
    ensures
        a == b,
{
    if a < b {
        assert(m.arch(a).sig() != m.arch(b).sig());
    } else if b < a {
        assert(m.arch(b).sig() != m.arch(a).sig());
    }
}

/// Whether two signatures hold the same identities in the same order.
fn sig_eq(a: &Vec<u64>, b: &Vec<u64>) -> (r: bool)
    ensures
        r == (a@ == b@),
{
    if a.len() != b.len() {
        return false;
    }
    let mut i: usize = 0;
    while i < a.len()
        invariant
            a@.len() == b@.len(),
            i <= a@.len(),
            forall|j: int| 0 <= j < i ==> a@[j] == b@[j],
        decreases a@.len() - i,
    {
        if a[i] != b[i] {
            return false;
        }
        i = i + 1;
    }
    proof {
        assert(a@ =~= b@);
    }
    true
}

/// Builds the signature `types` with `comp` spliced in at its sorted position.
fn sig_insert_exec(types: &Vec<u64>, comp: u64) -> (r: Vec<u64>)
    requires
        sorted_strict(types@),
        !types@.contains(comp),
    ensures
        sig_with_added(types@, comp, r@),
        r@.len() == types@.len() + 1,
{
    let ghost t = types@;
    let mut r: Vec<u64> = Vec::new();
    let mut i: usize = 0;
    while i < types.len() && types[i] < comp
        invariant
            sorted_strict(t),
            t == types@,
            i <= t.len(),
            r@ == t.subrange(0, i as int),
            forall|j: int| 0 <= j < i ==> t[j] < comp,
        decreases t.len() - i,
    {
        r.push(types[i]);
        proof {
            assert(r@ =~= t.subrange(0, i + 1));
        }
        i = i + 1;
    }
    let ghost mid = i as int;
    proof {
        if mid < t.len() {
            assert(t[mid] != comp) by {
                if t[mid] == comp {
                    assert(t.contains(comp));
                }
            }
            assert(t[mid] >= comp);
        }
    }
    r.push(comp);
    proof {
        assert(r@ =~= t.subrange(0, mid) + seq![comp] + t.subrange(mid, mid));
    }
    while i < types.len()
        invariant
            sorted_strict(t),
            t == types@,
            !t.contains(comp),
            0 <= mid <= i <= t.len(),
            r@ == t.subrange(0, mid) + seq![comp] + t.subrange(mid, i as int),
            forall|j: int| 0 <= j < mid ==> t[j] < comp,
            mid < t.len() ==> comp < t[mid],
        decreases t.len() - i,
    {
        r.push(types[i]);
        proof {
            assert(r@ =~= t.subrange(0, mid) + seq![comp] + t.subrange(mid, i + 1));
        }
        i = i + 1;
    }
    proof {
        let rr = r@;
        assert(rr == t.subrange(0, mid) + seq![comp] + t.subrange(mid, t.len() as int));
        assert(rr.len() == t.len() + 1);
        assert forall|k: int| 0 <= k < rr.len() implies rr[k] == (if k < mid {
            t[k]
        } else if k == mid {
            comp
        } else {
            t[k - 1]
        }) by {}
        assert forall|x: u64| #[trigger] rr.contains(x) implies (t.contains(x) || x == comp) by {
            let k = choose|k: int| 0 <= k < rr.len() && rr[k] == x;
            if k < mid {
                assert(t[k] == x);
            } else if k > mid {
                assert(t[k - 1] == x);
            }
        }
        assert forall|x: u64| t.contains(x) || x == comp implies #[trigger] rr.contains(x) by {
            if x == comp {
                assert(rr[mid] == comp);
            } else {
                let k = choose|k: int| 0 <= k < t.len() && t[k] == x;
                if k < mid {
                    assert(rr[k] == x);
                } else {
                    assert(rr[k + 1] == x);
                }
            }
        }
        assert forall|p: int, q: int| 0 <= p < q < rr.len() implies rr[p] < rr[q] by {
            if q < mid {
            } else if p < mid && q == mid {
                assert(t[p] < comp);
            } else if p < mid && q > mid {
                assert(t[p] < comp);
                assert(mid < t.len() && comp < t[mid]);
                assert(mid <= q - 1 < t.len());
                assert(t[mid] <= t[q - 1]);
            } else if p == mid {
                assert(mid < t.len() && comp < t[mid]);
                assert(t[mid] <= t[q - 1]);
            } else {
                assert(t[p - 1] < t[q - 1]);
            }
        }
    }
    r
}

/// Builds the signature `types` with `comp` struck out; `types` is returned
/// unchanged when it does not hold `comp`.
fn sig_remove_exec(types: &Vec<u64>, comp: u64) -> (r: Vec<u64>)
    requires
        sorted_strict(types@),
    ensures
        sig_with_removed(types@, comp, r@),
{
    let ghost t = types@;
    let mut r: Vec<u64> = Vec::new();
    let mut i: usize = 0;
    while i < types.len() && types[i] != comp
        invariant
            sorted_strict(t),
            t == types@,
            i <= t.len(),
            r@ == t.subrange(0, i as int),
            forall|j: int| 0 <= j < i ==> t[j] != comp,
        decreases t.len() - i,
    {
        r.push(types[i]);
        proof {
            assert(r@ =~= t.subrange(0, i + 1));
        }
        i = i + 1;
    }
    if i == types.len() {
        // `comp` is absent: the copy is the whole signature.
        proof {
            assert(r@ =~= t);
            assert forall|x: u64| #[trigger] r@.contains(x) implies (t.contains(x) && x
                != comp) by {
                let k = choose|k: int| 0 <= k < t.len() && t[k] == x;
            }
        }
        return r;
    }
    let ghost mid = i as int;
    proof {
        assert(t[mid] == comp);
    }
    i = i + 1;
    while i < types.len()
        invariant
            sorted_strict(t),
            t == types@,
            0 <= mid < i <= t.len(),
            t[mid] == comp,
            r@ == t.subrange(0, mid) + t.subrange(mid + 1, i as int),
        decreases t.len() - i,
    {
        r.push(types[i]);
        proof {
            assert(r@ =~= t.subrange(0, mid) + t.subrange(mid + 1, i + 1));
        }
        i = i + 1;
    }
    proof {
        let rr = r@;
        assert(rr == t.subrange(0, mid) + t.subrange(mid + 1, t.len() as int));
        assert(rr.len() == t.len() - 1);
        assert forall|k: int| 0 <= k < rr.len() implies rr[k] == (if k < mid {
            t[k]
        } else {
            t[k + 1]
        }) by {}
        assert forall|p: int, q: int| 0 <= p < q < rr.len() implies rr[p] < rr[q] by {
            if p < mid && q >= mid {
                assert(t[p] < t[q + 1]);
            }
        }
        assert forall|x: u64| #[trigger] rr.contains(x) implies (t.contains(x) && x != comp) by {
            let k = choose|k: int| 0 <= k < rr.len() && rr[k] == x;
            if k < mid {
                assert(t[k] == x);
                assert(t[k] < t[mid]);
            } else {
                assert(t[k + 1] == x);
                assert(t[mid] < t[k + 1]);
            }
        }
        assert forall|x: u64| t.contains(x) && x != comp implies #[trigger] rr.contains(x) by {
            let k = choose|k: int| 0 <= k < t.len() && t[k] == x;
            if k < mid {
                assert(rr[k] == x);
            } else {
                assert(k != mid);
                assert(rr[k - 1] == x);
            }
        }
    }
    r
}

/// The identities of `types` as a signature: sorted ascending, duplicates
/// dropped.
pub fn sorted_signature(types: &Vec<u64>) -> (r: Vec<u64>)
    ensures
        sorted_strict(r@),
        same_members(r@, types@),
{
    let ghost t = types@;
    let mut r: Vec<u64> = Vec::new();
    let mut i: usize = 0;
    while i < types.len()
        invariant
            t == types@,
            i <= t.len(),
            sorted_strict(r@),
            forall|x: u64| #[trigger] r@.contains(x) <==> t.subrange(0, i as int).contains(x),
        decreases t.len() - i,
    {
        let ghost r0 = r@;
        let c = types[i];
        if !contains_comp(&r, c) {
            let next = sig_insert_exec(&r, c);
            r = next;
        }
        proof {
            assert forall|x: u64| #[trigger] r@.contains(x) implies t.subrange(0, i + 1).contains(
                x,
            ) by {
                if x == c {
                    assert(t.subrange(0, i + 1)[i as int] == c);
                } else {
                    assert(r0.contains(x));
                    assert(t.subrange(0, i as int).contains(x));
                    let k = choose|k: int|
                        0 <= k < i && #[trigger] t.subrange(0, i as int)[k] == x;
                    assert(t.subrange(0, i + 1)[k] == x);
                }
            }
            assert forall|x: u64| t.subrange(0, i + 1).contains(x) implies #[trigger] r@.contains(
                x,
            ) by {
                let k = choose|k: int| 0 <= k < i + 1 && #[trigger] t.subrange(0, i + 1)[k] == x;
                if k < i {
                    assert(t.subrange(0, i as int)[k] == x);
                    assert(r0.contains(x));
                } else {
                    assert(x == c);
                }
            }
        }
        i = i + 1;
    }
    proof {
        assert(t.subrange(0, t.len() as int) =~= t);
    }
    r
}

/// Copies a word payload. Word payloads stand for the raw bytes of one
/// component value, so this is the model's bitwise copy.
pub fn copy_words(v: &Vec<u64>) -> (r: Vec<u64>)
    ensures
        r@ == v@,
{
    let mut r: Vec<u64> = Vec::new();
    let mut i: usize = 0;
    while i < v.len()
        invariant
            i <= v@.len(),
            r@ == v@.subrange(0, i as int),
        decreases v@.len() - i,
    {
        r.push(v[i]);
        i = i + 1;
    }
    proof {
        assert(r@ =~= v@);
    }
    r
}

} // verus!
