//! Conflict-aware scheduling: systems declare component read and write sets,
//! and a schedule partitions them into batches whose members never touch the
//! same component type in a conflicting way.

use vstd::prelude::*;

verus! {

/// The fixed, ordered list of stages a staged schedule runs through.
#[derive(Clone, Copy, PartialEq, Eq, Structural, Hash, Debug)]
pub enum Stage {
    PreUpdate,
    Update,
    PostUpdate,
    Render,
}

/// What one system touches: the component types it reads and the ones it
/// writes. The host runs the system itself; the scheduler only needs this
/// declaration.
pub struct SystemAccess {
    pub reads: Vec<u64>,
    pub writes: Vec<u64>,
}

/// Two systems conflict when one writes a component type the other reads or
/// writes.
#[verifier::opaque]
pub open spec fn conflicts(a: SystemAccess, b: SystemAccess) -> bool {
    ||| exists|c: u64| a.writes@.contains(c) && #[trigger] b.writes@.contains(c)
    ||| exists|c: u64| a.writes@.contains(c) && #[trigger] b.reads@.contains(c)
    ||| exists|c: u64| a.reads@.contains(c) && #[trigger] b.writes@.contains(c)
}

/// Two non-conflicting systems have disjoint write sets, and neither reads
/// what the other writes: exactly the condition that lets them share a batch.
pub proof fn lemma_nonconflict_disjoint(a: SystemAccess, b: SystemAccess, c: u64)
    requires
        !conflicts(a, b),
    ensures
        !(a.writes@.contains(c) && b.writes@.contains(c)),
        !(a.writes@.contains(c) && b.reads@.contains(c)),
        !(a.reads@.contains(c) && b.writes@.contains(c)),
{
    reveal(conflicts);
}

/// A conflict does not depend on the order of the two systems.
pub proof fn lemma_conflicts_symmetric(a: SystemAccess, b: SystemAccess)
    ensures
        conflicts(a, b) == conflicts(b, a),
{
    reveal(conflicts);
    if conflicts(a, b) {
        if exists|c: u64| a.writes@.contains(c) && #[trigger] b.writes@.contains(c) {
            let c = choose|c: u64| a.writes@.contains(c) && #[trigger] b.writes@.contains(c);
            assert(b.writes@.contains(c) && a.writes@.contains(c));
        } else if exists|c: u64| a.writes@.contains(c) && #[trigger] b.reads@.contains(c) {
            let c = choose|c: u64| a.writes@.contains(c) && #[trigger] b.reads@.contains(c);
            assert(b.reads@.contains(c) && a.writes@.contains(c));
        } else {
            let c = choose|c: u64| a.reads@.contains(c) && #[trigger] b.writes@.contains(c);
            assert(b.writes@.contains(c) && a.reads@.contains(c));
        }
    }
    if conflicts(b, a) {
        if exists|c: u64| b.writes@.contains(c) && #[trigger] a.writes@.contains(c) {
            let c = choose|c: u64| b.writes@.contains(c) && #[trigger] a.writes@.contains(c);
            assert(a.writes@.contains(c) && b.writes@.contains(c));
        } else if exists|c: u64| b.writes@.contains(c) && #[trigger] a.reads@.contains(c) {
            let c = choose|c: u64| b.writes@.contains(c) && #[trigger] a.reads@.contains(c);
            assert(a.reads@.contains(c) && b.writes@.contains(c));
        } else {
            let c = choose|c: u64| b.reads@.contains(c) && #[trigger] a.writes@.contains(c);
            assert(a.writes@.contains(c) && b.reads@.contains(c));
        }
    }
}

/// Whether `v` holds `c`.
pub(crate) fn contains_comp(v: &Vec<u64>, c: u64) -> (r: bool)
    ensures
        r == v@.contains(c),
{
    let mut i: usize = 0;
    while i < v.len()
        invariant
            i <= v@.len(),
            forall|j: int| 0 <= j < i ==> v@[j] != c,
        decreases v@.len() - i,
    {
        if v[i] == c {
            assert(v@.contains(c));
            return true;
        }
        i = i + 1;
    }
    assert(!v@.contains(c));
    false
}

/// Whether two systems conflict: a shared write, or a write overlapping the
/// other system's reads.
pub fn systems_conflict(a: &SystemAccess, b: &SystemAccess) -> (r: bool)
    ensures
        r == conflicts(*a, *b),
{
    proof {
        reveal(conflicts);
    }
    let mut i: usize = 0;
    while i < a.writes.len()
        invariant
            i <= a.writes@.len(),
            forall|j: int|
                0 <= j < i ==> !b.writes@.contains(#[trigger] a.writes@[j]) && !b.reads@.contains(
                    a.writes@[j],
                ),
        decreases a.writes@.len() - i,
    {
        let c = a.writes[i];
        if contains_comp(&b.writes, c) || contains_comp(&b.reads, c) {
            proof {
                reveal(conflicts);
                assert(a.writes@.contains(c));
            }
            return true;
        }
        i = i + 1;
    }
    let mut i: usize = 0;
    while i < a.reads.len()
        invariant
            i <= a.reads@.len(),
            forall|j: int| 0 <= j < i ==> !b.writes@.contains(#[trigger] a.reads@[j]),
        decreases a.reads@.len() - i,
    {
        let c = a.reads[i];
        if contains_comp(&b.writes, c) {
            proof {
                reveal(conflicts);
                assert(a.reads@.contains(c));
            }
            return true;
        }
        i = i + 1;
    }
    proof {
        reveal(conflicts);
        if conflicts(*a, *b) {
            if exists|c: u64| a.writes@.contains(c) && #[trigger] b.writes@.contains(c) {
                let c = choose|c: u64|
                    a.writes@.contains(c) && #[trigger] b.writes@.contains(c);
                let j = choose|j: int| 0 <= j < a.writes@.len() && a.writes@[j] == c;
                assert(false);
            } else if exists|c: u64| a.writes@.contains(c) && #[trigger] b.reads@.contains(c) {
                let c = choose|c: u64| a.writes@.contains(c) && #[trigger] b.reads@.contains(c);
                let j = choose|j: int| 0 <= j < a.writes@.len() && a.writes@[j] == c;
                assert(false);
            } else {
                let c = choose|c: u64| a.reads@.contains(c) && #[trigger] b.writes@.contains(c);
                let j = choose|j: int| 0 <= j < a.reads@.len() && a.reads@[j] == c;
                assert(false);
            }
        }
    }
    false
}

/// The number of systems in the first `b` batches.
pub open spec fn batches_prefix_len(bs: Seq<Vec<usize>>, b: int) -> int
    decreases b,
{
    if b <= 0 {
        0
    } else {
        batches_prefix_len(bs, b - 1) + bs[b - 1]@.len()
    }
}

proof fn lemma_batches_prefix_agree(bs1: Seq<Vec<usize>>, bs2: Seq<Vec<usize>>, b: int)
    requires
        0 <= b <= bs1.len(),
        b <= bs2.len(),
        forall|j: int| 0 <= j < b ==> (#[trigger] bs1[j])@.len() == bs2[j]@.len(),
    ensures
        batches_prefix_len(bs1, b) == batches_prefix_len(bs2, b),
    decreases b,
{
    if b > 0 {
        lemma_batches_prefix_agree(bs1, bs2, b - 1);
    }
}

/// The batches are packed first-fit over insertion order: every batch after
/// the first opens exactly because its first system conflicts with a member
/// of the batch before it.
pub open spec fn first_fit_packed(systems: Seq<SystemAccess>, bs: Seq<Vec<usize>>) -> bool {
    forall|b: int|
        1 <= b < bs.len() ==> exists|k: int|
            0 <= k < bs[b - 1]@.len() && conflicts(
                systems[(#[trigger] bs[b])@[0] as int],
                systems[(#[trigger] bs[b - 1]@[k]) as int],
            )
}

/// A schedule that packs systems into conflict-free batches, first-fit over
/// insertion order: each system joins the current batch unless it conflicts
/// with a member, in which case it opens a new batch.
pub struct ParallelSchedule {
    pub systems: Vec<SystemAccess>,
}

impl ParallelSchedule {
    pub fn new() -> (r: Self)
        ensures
            r.systems@.len() == 0,
    {
        Self { systems: Vec::new() }
    }

    /// Registers one system by its access declaration.
    pub fn add_system(&mut self, access: SystemAccess)
        ensures
            final(self).systems@ == old(self).systems@.push(access),
    {
        self.systems.push(access);
    }

    pub fn len(&self) -> (r: usize)
        ensures
            r == self.systems@.len(),
    {
        self.systems.len()
    }

    /// Packs the registered systems, in insertion order, into batches such
    /// that no two systems in one batch conflict. The batches cover system
    /// indices `0..n` contiguously and in order; a batch after the first
    /// begins exactly because its first system conflicts with a member of the
    /// batch before it.
    #[verifier::rlimit(100)]
    #[verifier::spinoff_prover]
    pub fn compute_batches(&self) -> (batches: Vec<Vec<usize>>)
        ensures
            batches_prefix_len(batches@, batches@.len() as int) == self.systems@.len(),
            forall|b: int| 0 <= b < batches@.len() ==> (#[trigger] batches@[b])@.len() > 0,
            forall|b: int, k: int|
                0 <= b < batches@.len() && 0 <= k < batches@[b]@.len() ==> (#[trigger] batches@[b]@[k])
                    as int == batches_prefix_len(batches@, b) + k,
            forall|b: int, k1: int, k2: int|
                0 <= b < batches@.len() && 0 <= k1 < batches@[b]@.len() && 0 <= k2 < batches@[b]@.len()
                    && k1 != k2 ==> !conflicts(
                    self.systems@[(#[trigger] batches@[b]@[k1]) as int],
                    self.systems@[(#[trigger] batches@[b]@[k2]) as int],
                ),
            first_fit_packed(self.systems@, batches@),
    {
        let n = self.systems.len();
        let mut batches: Vec<Vec<usize>> = Vec::new();
        let mut i: usize = 0;
        while i < n
            invariant
                n == self.systems@.len(),
                i <= n,
                batches_prefix_len(batches@, batches@.len() as int) == i,
                i > 0 ==> batches@.len() > 0,
                i == 0 ==> batches@.len() == 0,
                forall|b: int| 0 <= b < batches@.len() ==> (#[trigger] batches@[b])@.len() > 0,
                forall|b: int, k: int|
                    0 <= b < batches@.len() && 0 <= k < batches@[b]@.len() ==> (
                    #[trigger] batches@[b]@[k]) as int == batches_prefix_len(batches@, b) + k,
                forall|b: int, k1: int, k2: int|
                    0 <= b < batches@.len() && 0 <= k1 < batches@[b]@.len() && 0 <= k2
                        < batches@[b]@.len() && k1 != k2 ==> !conflicts(
                        self.systems@[(#[trigger] batches@[b]@[k1]) as int],
                        self.systems@[(#[trigger] batches@[b]@[k2]) as int],
                    ),
                first_fit_packed(self.systems@, batches@),
            decreases n - i,
        {
            let ghost bs0 = batches@;
            if batches.len() == 0 {
                let mut first: Vec<usize> = Vec::new();
                first.push(i);
                batches.push(first);
                proof {
                    assert(batches_prefix_len(batches@, 0) == 0);
                    assert(batches_prefix_len(batches@, 1) == 1);
                }
            } else {
                let last = batches.len() - 1;
                let ghost members = batches@[last as int]@;
                proof {
                    assert(batches_prefix_len(batches@, batches@.len() as int)
                        == batches_prefix_len(batches@, last as int) + members.len());
                    assert forall|j: int| 0 <= j < members.len() implies (#[trigger] members[j])
                        < i by {
                        assert(batches@[last as int]@[j] as int == batches_prefix_len(
                            batches@,
                            last as int,
                        ) + j);
                    }
                }
                // does system i conflict with any member of the current batch?
                let mut conflict = false;
                let mut k: usize = 0;
                while k < batches[last].len() && !conflict
                    invariant
                        batches@ == bs0,
                        batches@[last as int]@ == members,
                        last < batches@.len(),
                        i < self.systems@.len(),
                        n == self.systems@.len(),
                        k <= members.len(),
                        forall|j: int| 0 <= j < members.len() ==> (#[trigger] members[j]) < i,
                        conflict ==> exists|j: int|
                            0 <= j < members.len() && conflicts(
                                self.systems@[i as int],
                                self.systems@[(#[trigger] members[j]) as int],
                            ),
                        !conflict ==> forall|j: int|
                            0 <= j < k ==> !conflicts(
                                self.systems@[i as int],
                                self.systems@[(#[trigger] members[j]) as int],
                            ),
                    decreases members.len() - k, (if conflict { 0int } else { 1int }),
                {
                    let m = batches[last][k];
                    if systems_conflict(&self.systems[i], &self.systems[m]) {
                        conflict = true;
                        proof {
                            assert(members[k as int] == m);
                        }
                    } else {
                        k = k + 1;
                    }
                }
                proof {
                    if !conflict {
                        assert(k >= members.len());
                    }
                }
                if !conflict {
                    let slot = &mut batches[last];
                    slot.push(i);
                    proof {
                        let bs1 = batches@;
                        assert(bs1 == bs0.update(last as int, bs1[last as int]));
                        assert(bs1[last as int]@ == members.push(i));
                        assert forall|b: int| 0 <= b <= last as int implies batches_prefix_len(
                            bs1,
                            b,
                        ) == batches_prefix_len(bs0, b) by {
                            lemma_batches_prefix_agree(bs1, bs0, b);
                        }
                        assert(batches_prefix_len(bs1, bs1.len() as int) == i + 1);
                        assert forall|b: int, kk: int|
                            0 <= b < bs1.len() && 0 <= kk < bs1[b]@.len() implies (
                        #[trigger] bs1[b]@[kk]) as int == batches_prefix_len(bs1, b) + kk by {
                            if b < last as int {
                                assert(bs1[b] == bs0[b]);
                                assert(bs0[b]@[kk] as int == batches_prefix_len(bs0, b) + kk);
                            } else {
                                if kk < bs1[b]@.len() - 1 {
                                    assert(bs1[b]@[kk] == members[kk]);
                                    assert(members[kk] as int == batches_prefix_len(bs0, b) + kk);
                                } else {
                                    assert(bs1[b]@[kk] == i);
                                }
                            }
                        }
                        assert forall|b: int, k1: int, k2: int|
                            0 <= b < bs1.len() && 0 <= k1 < bs1[b]@.len() && 0 <= k2
                                < bs1[b]@.len() && k1 != k2 implies !conflicts(
                            self.systems@[(#[trigger] bs1[b]@[k1]) as int],
                            self.systems@[(#[trigger] bs1[b]@[k2]) as int],
                        ) by {
                            if b < last as int {
                                assert(bs1[b] == bs0[b]);
                                assert(!conflicts(
                                    self.systems@[(bs0[b]@[k1]) as int],
                                    self.systems@[(bs0[b]@[k2]) as int],
                                ));
                            } else {
                                let newlen = bs1[b]@.len();
                                if k1 < newlen - 1 && k2 < newlen - 1 {
                                    assert(bs1[b]@[k1] == members[k1] && bs1[b]@[k2]
                                        == members[k2]);
                                    assert(bs0[b]@[k1] == members[k1] && bs0[b]@[k2]
                                        == members[k2]);
                                    assert(!conflicts(
                                        self.systems@[(bs0[b]@[k1]) as int],
                                        self.systems@[(bs0[b]@[k2]) as int],
                                    ));
                                } else if k1 == newlen - 1 {
                                    assert(bs1[b]@[k1] == i && bs1[b]@[k2] == members[k2]);
                                    assert(!conflicts(
                                        self.systems@[i as int],
                                        self.systems@[(members[k2]) as int],
                                    ));
                                } else {
                                    assert(bs1[b]@[k2] == i && bs1[b]@[k1] == members[k1]);
                                    assert(!conflicts(
                                        self.systems@[i as int],
                                        self.systems@[(members[k1]) as int],
                                    ));
                                    lemma_conflicts_symmetric(
                                        self.systems@[(members[k1]) as int],
                                        self.systems@[i as int],
                                    );
                                }
                            }
                        }
                        assert forall|b: int| 1 <= b < bs1.len() implies exists|kk: int|
                            0 <= kk < bs1[b - 1]@.len() && conflicts(
                                self.systems@[(#[trigger] bs1[b])@[0] as int],
                                self.systems@[(#[trigger] bs1[b - 1]@[kk]) as int],
                            ) by {
                            let kw = choose|kk: int|
                                0 <= kk < bs0[b - 1]@.len() && conflicts(
                                    self.systems@[(bs0[b])@[0] as int],
                                    self.systems@[(#[trigger] bs0[b - 1]@[kk]) as int],
                                );
                            assert(bs1[b - 1] == bs0[b - 1]);
                            if b == last as int {
                                assert(bs1[b]@[0] == members[0]);
                                assert(bs0[b]@[0] == members[0]);
                            } else {
                                assert(bs1[b] == bs0[b]);
                            }
                            assert(0 <= kw < bs1[b - 1]@.len() && conflicts(
                                self.systems@[(bs1[b])@[0] as int],
                                self.systems@[(bs1[b - 1]@[kw]) as int],
                            ));
                        }
                    }
                } else {
                    let mut fresh: Vec<usize> = Vec::new();
                    fresh.push(i);
                    batches.push(fresh);
                    proof {
                        let bs1 = batches@;
                        assert forall|b: int| 0 <= b <= bs0.len() implies batches_prefix_len(
                            bs1,
                            b,
                        ) == batches_prefix_len(bs0, b) by {
                            lemma_batches_prefix_agree(bs1, bs0, b);
                        }
                        assert(bs1[bs1.len() - 1]@[0] == i);
                        assert(batches_prefix_len(bs1, bs1.len() as int) == i + 1);
                        assert forall|b: int, kk: int|
                            0 <= b < bs1.len() && 0 <= kk < bs1[b]@.len() implies (
                        #[trigger] bs1[b]@[kk]) as int == batches_prefix_len(bs1, b) + kk by {
                            if b < bs0.len() {
                                assert(bs1[b] == bs0[b]);
                                assert(bs0[b]@[kk] as int == batches_prefix_len(bs0, b) + kk);
                            }
                        }
                        assert forall|b: int, k1: int, k2: int|
                            0 <= b < bs1.len() && 0 <= k1 < bs1[b]@.len() && 0 <= k2
                                < bs1[b]@.len() && k1 != k2 implies !conflicts(
                            self.systems@[(#[trigger] bs1[b]@[k1]) as int],
                            self.systems@[(#[trigger] bs1[b]@[k2]) as int],
                        ) by {
                            if b < bs0.len() {
                                assert(bs1[b] == bs0[b]);
                                assert(!conflicts(
                                    self.systems@[(bs0[b]@[k1]) as int],
                                    self.systems@[(bs0[b]@[k2]) as int],
                                ));
                            }
                        }
                        assert forall|b: int| 1 <= b < bs1.len() implies exists|kk: int|
                            0 <= kk < bs1[b - 1]@.len() && conflicts(
                                self.systems@[(#[trigger] bs1[b])@[0] as int],
                                self.systems@[(#[trigger] bs1[b - 1]@[kk]) as int],
                            ) by {
                            if b < bs0.len() {
                                assert(bs1[b] == bs0[b] && bs1[b - 1] == bs0[b - 1]);
                                let kw = choose|kk: int|
                                    0 <= kk < bs0[b - 1]@.len() && conflicts(
                                        self.systems@[(bs0[b])@[0] as int],
                                        self.systems@[(#[trigger] bs0[b - 1]@[kk]) as int],
                                    );
                                assert(0 <= kw < bs1[b - 1]@.len() && conflicts(
                                    self.systems@[(bs1[b])@[0] as int],
                                    self.systems@[(bs1[b - 1]@[kw]) as int],
                                ));
                            } else {
                                assert(bs1[b - 1] == bs0[b - 1]);
                                let jw = choose|j: int|
                                    0 <= j < members.len() && conflicts(
                                        self.systems@[i as int],
                                        self.systems@[(#[trigger] members[j]) as int],
                                    );
                                assert(bs1[b]@[0] == i);
                                assert(bs1[b - 1]@[jw] == members[jw]);
                                assert(0 <= jw < bs1[b - 1]@.len() && conflicts(
                                    self.systems@[(bs1[b])@[0] as int],
                                    self.systems@[(bs1[b - 1]@[jw]) as int],
                                ));
                            }
                        }
                    }
                }
            }
            i = i + 1;
        }
        batches
    }
}

/// Systems grouped by stage; stages run in their fixed order, and within one
/// stage systems run in insertion order.
pub struct Schedule {
    pub pre_update: ParallelSchedule,
    pub update: ParallelSchedule,
    pub post_update: ParallelSchedule,
    pub render: ParallelSchedule,
}

impl Schedule {
    pub open spec fn stage_systems(self, stage: Stage) -> Seq<SystemAccess> {
        match stage {
            Stage::PreUpdate => self.pre_update.systems@,
            Stage::Update => self.update.systems@,
            Stage::PostUpdate => self.post_update.systems@,
            Stage::Render => self.render.systems@,
        }
    }

    pub fn new() -> (r: Self)
        ensures
            forall|s: Stage| r.stage_systems(s).len() == 0,
    {
        Self {
            pre_update: ParallelSchedule::new(),
            update: ParallelSchedule::new(),
            post_update: ParallelSchedule::new(),
            render: ParallelSchedule::new(),
        }
    }

    /// Registers a system's access declaration under `stage`.
    pub fn add_system(&mut self, stage: Stage, access: SystemAccess)
        ensures
            final(self).stage_systems(stage) == old(self).stage_systems(stage).push(access),
            forall|s: Stage|
                s != stage ==> final(self).stage_systems(s) == old(self).stage_systems(s),
    {
        match stage {
            Stage::PreUpdate => self.pre_update.add_system(access),
            Stage::Update => self.update.add_system(access),
            Stage::PostUpdate => self.post_update.add_system(access),
            Stage::Render => self.render.add_system(access),
        }
    }

    /// Registers a system's access declaration under the update stage.
    pub fn add_update_system(&mut self, access: SystemAccess)
        ensures
            final(self).stage_systems(Stage::Update) == old(self).stage_systems(
                Stage::Update,
            ).push(access),
            forall|s: Stage|
                s != Stage::Update ==> final(self).stage_systems(s) == old(self).stage_systems(s),
    {
        self.add_system(Stage::Update, access);
    }

    /// The batches for one stage, packed as `ParallelSchedule::compute_batches`.
    pub fn stage_batches(&self, stage: Stage) -> (batches: Vec<Vec<usize>>)
        ensures
            batches_prefix_len(batches@, batches@.len() as int) == self.stage_systems(stage).len(),
            forall|b: int, k1: int, k2: int|
                0 <= b < batches@.len() && 0 <= k1 < batches@[b]@.len() && 0 <= k2 < batches@[b]@.len()
                    && k1 != k2 ==> !conflicts(
                    self.stage_systems(stage)[(#[trigger] batches@[b]@[k1]) as int],
                    self.stage_systems(stage)[(#[trigger] batches@[b]@[k2]) as int],
                ),
            forall|b: int, k: int|
                0 <= b < batches@.len() && 0 <= k < batches@[b]@.len() ==> (#[trigger] batches@[b]@[k])
                    as int == batches_prefix_len(batches@, b) + k,
            forall|b: int| 0 <= b < batches@.len() ==> (#[trigger] batches@[b])@.len() > 0,
            first_fit_packed(self.stage_systems(stage), batches@),
    {
        match stage {
            Stage::PreUpdate => self.pre_update.compute_batches(),
            Stage::Update => self.update.compute_batches(),
            Stage::PostUpdate => self.post_update.compute_batches(),
            Stage::Render => self.render.compute_batches(),
        }
    }
}

} // verus!
