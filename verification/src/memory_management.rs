//! Hazard-pointer registry: safe-reclamation bookkeeping for the skip list.
//!
//! The registry holds one record per participant. A record owns a small
//! array of protected slots and a retired set. A retired node may be freed
//! only once no slot in the whole registry protects it; `scan` performs that
//! check and `help_scan` drains the retired sets of released records.

use vstd::prelude::*;

verus! {

broadcast use vstd::seq_lib::group_seq_properties;

/// One registry record: protected-pointer slots, an ownership flag, and the
/// retired set with its cardinality. Nodes are identified by their index in
/// the arena that owns them; an empty slot holds `None`.
pub struct HazarPointerRecord {
    pub hazard_pointers: Vec<Option<usize>>,
    pub active: bool,
    pub r_list: Vec<usize>,
    pub r_count: usize,
}

impl HazarPointerRecord {
    /// The retired count is the cardinality of the retired set.
    pub open spec fn wf(&self) -> bool {
        &&& self.r_count == self.r_list@.len()
        &&& forall|a: int, b: int|
            0 <= a < b < self.r_list@.len() ==> self.r_list@[a] != self.r_list@[b]
    }

    /// Some slot of this record protects `n`.
    pub open spec fn slot_holds(&self, n: usize) -> bool {
        exists|j: int|
            0 <= j < self.hazard_pointers@.len() && self.hazard_pointers@[j] == Some(n)
    }

    /// `n` sits in this record's retired set.
    pub open spec fn has_retired(&self, n: usize) -> bool {
        self.r_list@.contains(n)
    }
}

/// The registry: an append-only list of records and the running total of
/// protected slots ever handed out.
pub struct HprRegistry {
    pub records: Vec<HazarPointerRecord>,
    pub total_hp_count: u32,
}

impl HprRegistry {
    /// No node sits in two records' retired sets at once: a node is retired
    /// by one owner, and draining moves it rather than copying it.
    pub open spec fn disjoint_retired(&self) -> bool {
        forall|a: int, b: int, n: usize|
            0 <= a < self.records@.len() && 0 <= b < self.records@.len() && a != b && (
            #[trigger] self.records@[a].has_retired(n)) ==> !(#[trigger] self.records@[
                b
            ].has_retired(n))
    }

    pub open spec fn wf(&self) -> bool {
        &&& forall|i: int| 0 <= i < self.records@.len() ==> (#[trigger] self.records@[i]).wf()
        &&& self.disjoint_retired()
    }

    /// Some slot of some record protects `n`.
    pub open spec fn protected(&self, n: usize) -> bool {
        exists|i: int| 0 <= i < self.records@.len() && (#[trigger] self.records@[i]).slot_holds(n)
    }

    /// `n` sits in some record's retired set.
    pub open spec fn retired(&self, n: usize) -> bool {
        exists|i: int| 0 <= i < self.records@.len() && (#[trigger] self.records@[i]).has_retired(n)
    }

    /// Some record is released and can be reused.
    pub open spec fn has_inactive(&self) -> bool {
        exists|i: int| 0 <= i < self.records@.len() && !(#[trigger] self.records@[i]).active
    }

    /// A fresh registry with no records.
    pub fn new() -> (r: HprRegistry)
        ensures
            r.wf(),
            r.records@.len() == 0,
            r.total_hp_count == 0,
    {
        HprRegistry { records: Vec::new(), total_hp_count: 0 }
    }
}

/// `n` is protected by records before `i`, or by slots before `j` of record `i`.
spec fn protected_prefix(reg: &HprRegistry, i: int, j: int, n: usize) -> bool {
    ||| (exists|a: int| 0 <= a < i && (#[trigger] reg.records@[a]).slot_holds(n))
    ||| (0 <= i < reg.records@.len() && exists|b: int|
        0 <= b < j && reg.records@[i].hazard_pointers@[b] == Some(n))
}

proof fn lemma_protected_prefix_step(reg: &HprRegistry, i: int, j: int, n: usize)
    requires
        0 <= i < reg.records@.len(),
        0 <= j < reg.records@[i].hazard_pointers@.len(),
    ensures
        protected_prefix(reg, i, j + 1, n) <==> (protected_prefix(reg, i, j, n)
            || reg.records@[i].hazard_pointers@[j] == Some(n)),
{
    if protected_prefix(reg, i, j + 1, n) && !protected_prefix(reg, i, j, n) {
        if !(exists|a: int| 0 <= a < i && (#[trigger] reg.records@[a]).slot_holds(n)) {
            let b = choose|b: int|
                0 <= b < j + 1 && reg.records@[i].hazard_pointers@[b] == Some(n);
            assert(b == j);
        }
    }
    if reg.records@[i].hazard_pointers@[j] == Some(n) {
        assert(0 <= j < j + 1 && reg.records@[i].hazard_pointers@[j] == Some(n));
    }
    if protected_prefix(reg, i, j, n) {
        if !(exists|a: int| 0 <= a < i && (#[trigger] reg.records@[a]).slot_holds(n)) {
            let b = choose|b: int| 0 <= b < j && reg.records@[i].hazard_pointers@[b] == Some(n);
            assert(0 <= b < j + 1 && reg.records@[i].hazard_pointers@[b] == Some(n));
        }
    }
}

proof fn lemma_protected_prefix_record(reg: &HprRegistry, i: int, n: usize)
    requires
        0 <= i < reg.records@.len(),
    ensures
        protected_prefix(reg, i, reg.records@[i].hazard_pointers@.len() as int, n)
            <==> protected_prefix(reg, i + 1, 0, n),
{
    let m = reg.records@[i].hazard_pointers@.len() as int;
    if protected_prefix(reg, i, m, n) {
        if !(exists|a: int| 0 <= a < i && (#[trigger] reg.records@[a]).slot_holds(n)) {
            let b = choose|b: int| 0 <= b < m && reg.records@[i].hazard_pointers@[b] == Some(n);
            assert((reg.records@[i]).slot_holds(n));
            assert(0 <= i < i + 1 && (reg.records@[i]).slot_holds(n));
        }
    }
    if protected_prefix(reg, i + 1, 0, n) {
        let a = choose|a: int| 0 <= a < i + 1 && (#[trigger] reg.records@[a]).slot_holds(n);
        if a == i {
            let b = choose|b: int|
                0 <= b < reg.records@[i].hazard_pointers@.len()
                    && reg.records@[i].hazard_pointers@[b] == Some(n);
            assert(0 <= b < m && reg.records@[i].hazard_pointers@[b] == Some(n));
        }
    }
}

proof fn lemma_protected_prefix_full(reg: &HprRegistry, n: usize)
    ensures
        protected_prefix(reg, reg.records@.len() as int, 0, n) <==> reg.protected(n),
{
}

/// Two registries whose records carry the same protected slots protect the
/// same nodes.
proof fn lemma_protected_frame(r1: &HprRegistry, r2: &HprRegistry)
    requires
        r1.records@.len() == r2.records@.len(),
        forall|i: int|
            0 <= i < r1.records@.len() ==> (#[trigger] r1.records@[i]).hazard_pointers
                == r2.records@[i].hazard_pointers,
    ensures
        forall|n: usize| #[trigger] r1.protected(n) <==> r2.protected(n),
{
    assert forall|n: usize| #[trigger] r1.protected(n) implies r2.protected(n) by {
        let i = choose|i: int|
            0 <= i < r1.records@.len() && (#[trigger] r1.records@[i]).slot_holds(n);
        let b = choose|b: int|
            0 <= b < r1.records@[i].hazard_pointers@.len() && r1.records@[
                i
            ].hazard_pointers@[b] == Some(n);
        assert(r2.records@[i].hazard_pointers@[b] == Some(n));
        assert((r2.records@[i]).slot_holds(n));
    }
    assert forall|n: usize| #[trigger] r2.protected(n) implies r1.protected(n) by {
        let i = choose|i: int|
            0 <= i < r2.records@.len() && (#[trigger] r2.records@[i]).slot_holds(n);
        let b = choose|b: int|
            0 <= b < r2.records@[i].hazard_pointers@.len() && r2.records@[
                i
            ].hazard_pointers@[b] == Some(n);
        assert(r1.records@[i].hazard_pointers@[b] == Some(n));
        assert((r1.records@[i]).slot_holds(n));
    }
}

/// Registries whose records carry the same retired sets are disjoint
/// together.
proof fn lemma_disjoint_frame(r1: &HprRegistry, r2: &HprRegistry)
    requires
        r2.disjoint_retired(),
        r1.records@.len() == r2.records@.len(),
        forall|i: int|
            0 <= i < r1.records@.len() ==> (#[trigger] r1.records@[i]).r_list
                == r2.records@[i].r_list,
    ensures
        r1.disjoint_retired(),
{
    assert forall|a: int, b: int, n: usize|
        0 <= a < r1.records@.len() && 0 <= b < r1.records@.len() && a != b && (
    #[trigger] r1.records@[a].has_retired(n)) implies !(#[trigger] r1.records@[b].has_retired(
        n,
    )) by {
        assert(r2.records@[a].has_retired(n));
        if r1.records@[b].has_retired(n) {
            assert(r2.records@[b].has_retired(n));
        }
    }
}

/// Two registries whose records carry the same retired sets have the same
/// retired nodes.
pub proof fn lemma_retired_frame(r1: &HprRegistry, r2: &HprRegistry)
    requires
        r1.records@.len() == r2.records@.len(),
        forall|i: int|
            0 <= i < r1.records@.len() ==> (#[trigger] r1.records@[i]).r_list
                == r2.records@[i].r_list,
    ensures
        forall|n: usize| #[trigger] r1.retired(n) <==> r2.retired(n),
{
    assert forall|n: usize| #[trigger] r1.retired(n) implies r2.retired(n) by {
        let i = choose|i: int|
            0 <= i < r1.records@.len() && (#[trigger] r1.records@[i]).has_retired(n);
        assert((r2.records@[i]).has_retired(n));
    }
    assert forall|n: usize| #[trigger] r2.retired(n) implies r1.retired(n) by {
        let i = choose|i: int|
            0 <= i < r2.records@.len() && (#[trigger] r2.records@[i]).has_retired(n);
        assert((r1.records@[i]).has_retired(n));
    }
}

proof fn lemma_index_prefix_step(s: Seq<usize>, t: int, n: usize)
    requires
        0 <= t < s.len(),
    ensures
        (exists|p: int| 0 <= p < t + 1 && s[p] == n) <==> ((exists|p: int|
            0 <= p < t && s[p] == n) || s[t] == n),
{
    if (exists|p: int| 0 <= p < t + 1 && s[p] == n) {
        let p = choose|p: int| 0 <= p < t + 1 && s[p] == n;
        if p < t {
            assert(0 <= p < t && s[p] == n);
        }
    }
    if (exists|p: int| 0 <= p < t && s[p] == n) {
        let p = choose|p: int| 0 <= p < t && s[p] == n;
        assert(0 <= p < t + 1 && s[p] == n);
    }
    if s[t] == n {
        assert(0 <= t < t + 1 && s[t] == n);
    }
}

proof fn lemma_index_prefix_full(s: Seq<usize>, n: usize)
    ensures
        (exists|p: int| 0 <= p < s.len() && s[p] == n) <==> s.contains(n),
{
}

fn vec_append(dst: &mut Vec<usize>, src: &Vec<usize>)
    ensures
        final(dst)@ == old(dst)@ + src@,
{
    let mut i: usize = 0;
    while i < src.len()
        invariant
            i <= src@.len(),
            dst@ == old(dst)@ + src@.subrange(0, i as int),
        decreases src@.len() - i,
    {
        dst.push(src[i]);
        proof {
            assert(dst@ =~= old(dst)@ + src@.subrange(0, i + 1));
        }
        i = i + 1;
    }
    proof {
        assert(dst@ =~= old(dst)@ + src@);
    }
}

fn vec_contains(v: &Vec<usize>, x: usize) -> (r: bool)
    ensures
        r == v@.contains(x),
{
    let mut i: usize = 0;
    while i < v.len()
        invariant
            i <= v@.len(),
            forall|t: int| 0 <= t < i ==> v@[t] != x,
        decreases v@.len() - i,
    {
        if v[i] == x {
            return true;
        }
        i = i + 1;
    }
    false
}

impl HazarPointerRecord {
    /// Hands out a record with `active` set: the first released record if
    /// one exists, else a fresh record pushed onto the registry, growing the
    /// global slot total by `per_record_hp_count`.
    pub fn allocate_hp_record(reg: &mut HprRegistry, per_record_hp_count: u32) -> (idx: usize)
        requires
            old(reg).wf(),
            old(reg).total_hp_count + per_record_hp_count <= u32::MAX,
        ensures
            final(reg).wf(),
            idx < final(reg).records@.len(),
            final(reg).records@[idx as int].active,
            old(reg).has_inactive() ==> {
                &&& final(reg).records@.len() == old(reg).records@.len()
                &&& final(reg).total_hp_count == old(reg).total_hp_count
                &&& !old(reg).records@[idx as int].active
                &&& forall|j: int| 0 <= j < idx ==> (#[trigger] old(reg).records@[j]).active
                &&& forall|j: int|
                    0 <= j < final(reg).records@.len() && j != idx ==> final(reg).records@[j]
                        == old(reg).records@[j]
                &&& final(reg).records@[idx as int].hazard_pointers == old(reg).records@[
                    idx as int
                ].hazard_pointers
                &&& final(reg).records@[idx as int].r_list == old(reg).records@[idx as int].r_list
                &&& final(reg).records@[idx as int].r_count == old(reg).records@[
                    idx as int
                ].r_count
            },
            !old(reg).has_inactive() ==> {
                &&& idx == old(reg).records@.len()
                &&& final(reg).records@.len() == old(reg).records@.len() + 1
                &&& final(reg).total_hp_count == old(reg).total_hp_count + per_record_hp_count
                &&& forall|j: int|
                    0 <= j < old(reg).records@.len() ==> final(reg).records@[j] == old(reg).records@[j]
                &&& final(reg).records@[idx as int].hazard_pointers@.len()
                    == per_record_hp_count
                &&& forall|j: int|
                    0 <= j < per_record_hp_count ==> final(reg).records@[
                        idx as int
                    ].hazard_pointers@[j] is None
                &&& final(reg).records@[idx as int].r_list@.len() == 0
                &&& final(reg).records@[idx as int].r_count == 0
            },
    {
        let n: usize = reg.records.len();
        let mut i: usize = 0;
        while i < n
            invariant
                n == reg.records@.len(),
                i <= n,
                *reg == *old(reg),
                old(reg).wf(),
                forall|j: int| 0 <= j < i ==> (#[trigger] reg.records@[j]).active,
            decreases n - i,
        {
            if !reg.records[i].active {
                proof {
                    assert(!old(reg).records@[i as int].active);
                }
                reg.records[i].active = true;
                proof {
                    assert(reg.records@[i as int].active);
                    assert(reg.records@[i as int].r_list == old(reg).records@[i as int].r_list);
                    assert(reg.records@[i as int].r_count == old(reg).records@[i as int].r_count);
                    assert(reg.records@[i as int].wf());
                    assert(forall|t: int|
                        0 <= t < reg.records@.len() && t != i ==> reg.records@[t] == old(
                            reg,
                        ).records@[t]);
                }
                proof {
                    assert forall|t: int|
                        0 <= t < reg.records@.len() implies (#[trigger] reg.records@[t]).r_list
                        == old(reg).records@[t].r_list by {
                    }
                    lemma_disjoint_frame(reg, old(reg));
                }
                return i;
            }
            i = i + 1;
        }
        reg.total_hp_count = reg.total_hp_count + per_record_hp_count;
        let mut slots: Vec<Option<usize>> = Vec::new();
        let mut j: u32 = 0;
        while j < per_record_hp_count
            invariant
                j <= per_record_hp_count,
                slots@.len() == j,
                forall|t: int| 0 <= t < j ==> slots@[t] is None,
            decreases per_record_hp_count - j,
        {
            slots.push(None);
            j = j + 1;
        }
        let rec = HazarPointerRecord {
            hazard_pointers: slots,
            active: true,
            r_list: Vec::new(),
            r_count: 0,
        };
        reg.records.push(rec);
        proof {
            assert forall|a: int, b: int, n2: usize|
                0 <= a < reg.records@.len() && 0 <= b < reg.records@.len() && a != b && (
            #[trigger] reg.records@[a].has_retired(n2)) implies !(#[trigger] reg.records@[
                b
            ].has_retired(n2)) by {
                assert(a != n as int);
                assert(reg.records@[a] == old(reg).records@[a]);
                if b != n as int {
                    assert(reg.records@[b] == old(reg).records@[b]);
                } else {
                    assert(reg.records@[b].r_list@.len() == 0);
                }
            }
        }
        n
    }

    /// Releases a record: every protected slot is cleared, then the record
    /// is marked inactive. Its retired set is kept for a later `help_scan`.
    pub fn retire_hp_record(reg: &mut HprRegistry, idx: usize)
        requires
            old(reg).wf(),
            idx < old(reg).records@.len(),
        ensures
            final(reg).wf(),
            final(reg).records@.len() == old(reg).records@.len(),
            final(reg).total_hp_count == old(reg).total_hp_count,
            forall|j: int|
                0 <= j < final(reg).records@.len() && j != idx ==> final(reg).records@[j] == old(reg).records@[j],
            !final(reg).records@[idx as int].active,
            final(reg).records@[idx as int].hazard_pointers@.len() == old(reg).records@[
                idx as int
            ].hazard_pointers@.len(),
            forall|j: int|
                0 <= j < final(reg).records@[idx as int].hazard_pointers@.len() ==> final(reg).records@[idx as int].hazard_pointers@[j] is None,
            final(reg).records@[idx as int].r_list == old(reg).records@[idx as int].r_list,
            final(reg).records@[idx as int].r_count == old(reg).records@[idx as int].r_count,
    {
        let m: usize = reg.records[idx].hazard_pointers.len();
        let mut j: usize = 0;
        while j < m
            invariant
                idx < reg.records@.len(),
                reg.records@.len() == old(reg).records@.len(),
                reg.total_hp_count == old(reg).total_hp_count,
                m == reg.records@[idx as int].hazard_pointers@.len(),
                j <= m,
                forall|t: int|
                    0 <= t < reg.records@.len() && t != idx ==> reg.records@[t] == old(reg).records@[t],
                reg.records@[idx as int].active == old(reg).records@[idx as int].active,
                reg.records@[idx as int].r_list == old(reg).records@[idx as int].r_list,
                reg.records@[idx as int].r_count == old(reg).records@[idx as int].r_count,
                forall|t: int|
                    0 <= t < j ==> reg.records@[idx as int].hazard_pointers@[t] is None,
                old(reg).wf(),
                reg.wf(),
            decreases m - j,
        {
            reg.records[idx].hazard_pointers[j] = None;
            proof {
                assert forall|t: int|
                    0 <= t < reg.records@.len() implies (#[trigger] reg.records@[t]).r_list
                    == old(reg).records@[t].r_list by {
                }
                lemma_disjoint_frame(reg, old(reg));
            }
            j = j + 1;
        }
        reg.records[idx].active = false;
        proof {
            assert forall|t: int|
                0 <= t < reg.records@.len() implies (#[trigger] reg.records@[t]).r_list == old(
                reg,
            ).records@[t].r_list by {
            }
            lemma_disjoint_frame(reg, old(reg));
        }
    }

    /// Publishes `node` in the given protected slot of a record.
    pub fn protect(reg: &mut HprRegistry, idx: usize, slot: usize, node: usize)
        requires
            old(reg).wf(),
            idx < old(reg).records@.len(),
            slot < old(reg).records@[idx as int].hazard_pointers@.len(),
        ensures
            final(reg).wf(),
            final(reg).records@.len() == old(reg).records@.len(),
            final(reg).total_hp_count == old(reg).total_hp_count,
            forall|j: int|
                0 <= j < final(reg).records@.len() && j != idx ==> final(reg).records@[j] == old(reg).records@[j],
            final(reg).records@[idx as int].active == old(reg).records@[idx as int].active,
            final(reg).records@[idx as int].r_list == old(reg).records@[idx as int].r_list,
            final(reg).records@[idx as int].r_count == old(reg).records@[idx as int].r_count,
            final(reg).records@[idx as int].hazard_pointers@ == old(reg).records@[
                idx as int
            ].hazard_pointers@.update(slot as int, Some(node)),
    {
        reg.records[idx].hazard_pointers[slot] = Some(node);
        proof {
            assert forall|t: int|
                0 <= t < reg.records@.len() implies (#[trigger] reg.records@[t]).r_list == old(
                reg,
            ).records@[t].r_list by {
            }
            lemma_disjoint_frame(reg, old(reg));
        }
    }

    /// Clears a protected slot of a record.
    pub fn unprotect(reg: &mut HprRegistry, idx: usize, slot: usize)
        requires
            old(reg).wf(),
            idx < old(reg).records@.len(),
            slot < old(reg).records@[idx as int].hazard_pointers@.len(),
        ensures
            final(reg).wf(),
            final(reg).records@.len() == old(reg).records@.len(),
            final(reg).total_hp_count == old(reg).total_hp_count,
            forall|j: int|
                0 <= j < final(reg).records@.len() && j != idx ==> final(reg).records@[j] == old(reg).records@[j],
            final(reg).records@[idx as int].active == old(reg).records@[idx as int].active,
            final(reg).records@[idx as int].r_list == old(reg).records@[idx as int].r_list,
            final(reg).records@[idx as int].r_count == old(reg).records@[idx as int].r_count,
            final(reg).records@[idx as int].hazard_pointers@ == old(reg).records@[
                idx as int
            ].hazard_pointers@.update(slot as int, None::<usize>),
    {
        reg.records[idx].hazard_pointers[slot] = None;
        proof {
            assert forall|t: int|
                0 <= t < reg.records@.len() implies (#[trigger] reg.records@[t]).r_list == old(
                reg,
            ).records@[t].r_list by {
            }
            lemma_disjoint_frame(reg, old(reg));
        }
    }

    /// Walks the registry once, collecting every protected node, then
    /// partitions the record's retired set: protected nodes stay retired,
    /// the rest are freed. No freed node is protected by any slot of any
    /// record at the time of the walk.
    fn scan(reg: &mut HprRegistry, idx: usize) -> (freed: Vec<usize>)
        requires
            old(reg).wf(),
            idx < old(reg).records@.len(),
        ensures
            final(reg).wf(),
            final(reg).records@.len() == old(reg).records@.len(),
            final(reg).total_hp_count == old(reg).total_hp_count,
            forall|j: int|
                0 <= j < final(reg).records@.len() && j != idx ==> final(reg).records@[j]
                    == old(reg).records@[j],
            final(reg).records@[idx as int].active == old(reg).records@[idx as int].active,
            final(reg).records@[idx as int].hazard_pointers == old(reg).records@[
                idx as int
            ].hazard_pointers,
            forall|n: usize|
                #[trigger] final(reg).records@[idx as int].r_list@.contains(n) <==> (old(
                    reg,
                ).records@[idx as int].r_list@.contains(n) && old(reg).protected(n)),
            forall|n: usize|
                #[trigger] freed@.contains(n) <==> (old(reg).records@[idx as int].r_list@.contains(
                    n,
                ) && !old(reg).protected(n)),
            forall|a: int, b: int| 0 <= a < b < freed@.len() ==> freed@[a] != freed@[b],
            forall|n: usize| #[trigger] freed@.contains(n) ==> !final(reg).retired(n),
    {
        let n_recs: usize = reg.records.len();
        let mut hp_all: Vec<usize> = Vec::new();
        let mut i: usize = 0;
        while i < n_recs
            invariant
                n_recs == reg.records@.len(),
                i <= n_recs,
                *reg == *old(reg),
                old(reg).wf(),
                idx < n_recs,
                forall|n: usize|
                    #[trigger] hp_all@.contains(n) <==> protected_prefix(old(reg), i as int, 0, n),
            decreases n_recs - i,
        {
            let n_slots: usize = reg.records[i].hazard_pointers.len();
            let mut j: usize = 0;
            while j < n_slots
                invariant
                    n_recs == reg.records@.len(),
                    i < n_recs,
                    *reg == *old(reg),
                    old(reg).wf(),
                    n_slots == reg.records@[i as int].hazard_pointers@.len(),
                    j <= n_slots,
                    forall|n: usize|
                        #[trigger] hp_all@.contains(n) <==> protected_prefix(
                            old(reg),
                            i as int,
                            j as int,
                            n,
                        ),
                decreases n_slots - j,
            {
                let slot: Option<usize> = reg.records[i].hazard_pointers[j];
                match slot {
                    Some(p) => {
                        hp_all.push(p);
                    },
                    None => {
                    },
                }
                proof {
                    assert forall|n: usize|
                        #[trigger] hp_all@.contains(n) <==> protected_prefix(
                            old(reg),
                            i as int,
                            j + 1,
                            n,
                        ) by {
                        lemma_protected_prefix_step(old(reg), i as int, j as int, n);
                    }
                }
                j = j + 1;
            }
            proof {
                assert forall|n: usize|
                    #[trigger] hp_all@.contains(n) <==> protected_prefix(
                        old(reg),
                        i + 1,
                        0,
                        n,
                    ) by {
                    lemma_protected_prefix_record(old(reg), i as int, n);
                }
            }
            i = i + 1;
        }
        proof {
            assert forall|n: usize| #[trigger] hp_all@.contains(n) <==> old(reg).protected(n) by {
                lemma_protected_prefix_full(old(reg), n);
            }
        }
        let r_len: usize = reg.records[idx].r_list.len();
        let mut kept: Vec<usize> = Vec::new();
        let mut freed: Vec<usize> = Vec::new();
        let mut t: usize = 0;
        while t < r_len
            invariant
                *reg == *old(reg),
                old(reg).wf(),
                idx < reg.records@.len(),
                r_len == reg.records@[idx as int].r_list@.len(),
                t <= r_len,
                forall|n: usize|
                    #[trigger] hp_all@.contains(n) <==> old(reg).protected(n),
                forall|n: usize|
                    #[trigger] kept@.contains(n) <==> ((exists|p: int|
                        0 <= p < t && old(reg).records@[idx as int].r_list@[p] == n) && old(
                        reg,
                    ).protected(n)),
                forall|n: usize|
                    #[trigger] freed@.contains(n) <==> ((exists|p: int|
                        0 <= p < t && old(reg).records@[idx as int].r_list@[p] == n) && !old(
                        reg,
                    ).protected(n)),
                forall|a: int, b: int| 0 <= a < b < kept@.len() ==> kept@[a] != kept@[b],
                forall|a: int, b: int| 0 <= a < b < freed@.len() ==> freed@[a] != freed@[b],
            decreases r_len - t,
        {
            let node: usize = reg.records[idx].r_list[t];
            let ghost rl = old(reg).records@[idx as int].r_list@;
            proof {
                assert(old(reg).records@[idx as int].wf());
                assert forall|p: int| 0 <= p < t implies rl[p] != node by {
                    assert(rl[p] != rl[t as int]);
                }
            }
            let ghost kept0 = kept@;
            let ghost freed0 = freed@;
            if vec_contains(&hp_all, node) {
                kept.push(node);
                proof {
                    assert(!kept0.contains(node)) by {
                        if kept0.contains(node) {
                            let p = choose|p: int| 0 <= p < t && rl[p] == node;
                        }
                    }
                    assert forall|a: int, b: int|
                        0 <= a < b < kept@.len() implies kept@[a] != kept@[b] by {
                        if b == kept@.len() - 1 {
                            assert(kept@[a] == kept0[a]);
                            if kept@[a] == node {
                                assert(kept0.contains(node));
                            }
                        }
                    }
                }
            } else {
                freed.push(node);
                proof {
                    assert(!freed0.contains(node)) by {
                        if freed0.contains(node) {
                            let p = choose|p: int| 0 <= p < t && rl[p] == node;
                        }
                    }
                    assert forall|a: int, b: int|
                        0 <= a < b < freed@.len() implies freed@[a] != freed@[b] by {
                        if b == freed@.len() - 1 {
                            assert(freed@[a] == freed0[a]);
                            if freed@[a] == node {
                                assert(freed0.contains(node));
                            }
                        }
                    }
                }
            }
            proof {
                assert forall|n: usize|
                    #[trigger] kept@.contains(n) <==> ((exists|p: int|
                        0 <= p < t + 1 && rl[p] == n) && old(reg).protected(n)) by {
                    lemma_index_prefix_step(rl, t as int, n);
                }
                assert forall|n: usize|
                    #[trigger] freed@.contains(n) <==> ((exists|p: int|
                        0 <= p < t + 1 && rl[p] == n) && !old(reg).protected(n)) by {
                    lemma_index_prefix_step(rl, t as int, n);
                }
            }
            t = t + 1;
        }
        let kept_len: usize = kept.len();
        reg.records[idx].r_list = kept;
        reg.records[idx].r_count = kept_len;
        proof {
            let rl = old(reg).records@[idx as int].r_list@;
            assert forall|n: usize|
                #[trigger] reg.records@[idx as int].r_list@.contains(n) <==> (rl.contains(n)
                    && old(reg).protected(n)) by {
                lemma_index_prefix_full(rl, n);
            }
            assert forall|n: usize|
                #[trigger] freed@.contains(n) <==> (rl.contains(n) && !old(reg).protected(n)) by {
                lemma_index_prefix_full(rl, n);
            }
            assert forall|a: int, b: int, n2: usize|
                0 <= a < reg.records@.len() && 0 <= b < reg.records@.len() && a != b && (
            #[trigger] reg.records@[a].has_retired(n2)) implies !(#[trigger] reg.records@[
                b
            ].has_retired(n2)) by {
                assert(old(reg).records@[a].has_retired(n2)) by {
                    if a != idx {
                        assert(reg.records@[a] == old(reg).records@[a]);
                    }
                }
                if reg.records@[b].has_retired(n2) {
                    assert(old(reg).records@[b].has_retired(n2)) by {
                        if b != idx {
                            assert(reg.records@[b] == old(reg).records@[b]);
                        }
                    }
                }
            }
            assert forall|n: usize| #[trigger] freed@.contains(n) implies !reg.retired(n) by {
                if reg.retired(n) {
                    let w = choose|w: int|
                        0 <= w < reg.records@.len() && (#[trigger] reg.records@[w]).has_retired(
                            n,
                        );
                    if w == idx {
                        assert(old(reg).protected(n));
                    } else {
                        assert(reg.records@[w] == old(reg).records@[w]);
                        assert(old(reg).records@[w].has_retired(n));
                        assert(old(reg).records@[idx as int].has_retired(n));
                    }
                }
            }
        }
        freed
    }

    /// Takes over each released record, drains its retired set into this
    /// record's, and scans whenever the count crosses the threshold. Retired
    /// nodes are never lost and never invented, nothing freed was
    /// protected, and nothing is freed twice.
    pub fn help_scan(reg: &mut HprRegistry, idx: usize, max_r_count: usize) -> (freed: Vec<usize>)
        requires
            old(reg).wf(),
            idx < old(reg).records@.len(),
            old(reg).records@[idx as int].active,
        ensures
            final(reg).wf(),
            final(reg).records@.len() == old(reg).records@.len(),
            final(reg).total_hp_count == old(reg).total_hp_count,
            final(reg).records@[idx as int].active,
            forall|j: int|
                0 <= j < final(reg).records@.len() ==> (#[trigger] final(reg).records@[j]).active
                    == old(reg).records@[j].active,
            forall|j: int|
                0 <= j < final(reg).records@.len() ==> (#[trigger] final(reg).records@[
                    j
                ]).hazard_pointers == old(reg).records@[j].hazard_pointers,
            forall|j: int|
                0 <= j < final(reg).records@.len() && j != idx && old(reg).records@[j].active
                    ==> final(reg).records@[j] == old(reg).records@[j],
            forall|j: int|
                0 <= j < final(reg).records@.len() && j != idx && !old(reg).records@[j].active
                    ==> (#[trigger] final(reg).records@[j]).r_list@.len() == 0,
            forall|n: usize|
                #[trigger] final(reg).retired(n) ==> old(reg).retired(n),
            forall|n: usize| #[trigger] freed@.contains(n) ==> old(reg).retired(n),
            forall|n: usize|
                #[trigger] old(reg).retired(n) ==> final(reg).retired(n) || freed@.contains(n),
            forall|n: usize| #[trigger] freed@.contains(n) ==> !old(reg).protected(n),
            forall|n: usize|
                #[trigger] old(reg).records@[idx as int].r_list@.contains(n)
                    ==> final(reg).records@[idx as int].r_list@.contains(n)
                    || freed@.contains(n),
            forall|a: int, b: int| 0 <= a < b < freed@.len() ==> freed@[a] != freed@[b],
            forall|n: usize| #[trigger] freed@.contains(n) ==> !final(reg).retired(n),
    {
        let n_recs: usize = reg.records.len();
        let mut freed: Vec<usize> = Vec::new();
        proof {
            assert forall|n: usize, u: int|
                0 <= u < n_recs && u != idx && (#[trigger] reg.records@[
                    idx as int
                ].r_list@.contains(n)) && (#[trigger] old(reg).records@[u].has_retired(n)) implies
                false by {
                assert(old(reg).records@[idx as int].has_retired(n));
            }
        }
        let mut j: usize = 0;
        while j < n_recs
            invariant
                old(reg).wf(),
                reg.wf(),
                idx < n_recs,
                n_recs == reg.records@.len(),
                n_recs == old(reg).records@.len(),
                j <= n_recs,
                reg.total_hp_count == old(reg).total_hp_count,
                reg.records@[idx as int].active,
                forall|t: int|
                    0 <= t < n_recs ==> (#[trigger] reg.records@[t]).active == old(
                        reg,
                    ).records@[t].active,
                forall|t: int|
                    0 <= t < n_recs ==> (#[trigger] reg.records@[t]).hazard_pointers == old(
                        reg,
                    ).records@[t].hazard_pointers,
                forall|t: int|
                    0 <= t < n_recs && t != idx && old(reg).records@[t].active ==> reg.records@[t]
                        == old(reg).records@[t],
                forall|t: int|
                    j <= t < n_recs && t != idx ==> reg.records@[t] == old(reg).records@[t],
                forall|t: int|
                    0 <= t < j && t != idx && !old(reg).records@[t].active ==> (
                    #[trigger] reg.records@[t]).r_list@.len() == 0,
                forall|n: usize| #[trigger] reg.retired(n) ==> old(reg).retired(n),
                forall|n: usize| #[trigger] freed@.contains(n) ==> old(reg).retired(n),
                forall|n: usize|
                    #[trigger] old(reg).retired(n) ==> reg.retired(n) || freed@.contains(n),
                forall|n: usize| #[trigger] freed@.contains(n) ==> !old(reg).protected(n),
                forall|n: usize| #[trigger] reg.protected(n) <==> old(reg).protected(n),
                forall|n: usize|
                    #[trigger] old(reg).records@[idx as int].r_list@.contains(n)
                        ==> reg.records@[idx as int].r_list@.contains(n) || freed@.contains(n),
                forall|a: int, b: int| 0 <= a < b < freed@.len() ==> freed@[a] != freed@[b],
                forall|n: usize| #[trigger] freed@.contains(n) ==> !reg.retired(n),
                forall|n: usize, u: int|
                    j <= u < n_recs && u != idx && (#[trigger] reg.records@[
                        idx as int
                    ].r_list@.contains(n)) && (#[trigger] old(reg).records@[u].has_retired(n))
                        ==> false,
            decreases n_recs - j,
        {
            let ghost reg_top = *reg;
            if j != idx && !reg.records[j].active {
                reg.records[j].active = true;
                let ghost reg_taken = *reg;
                let d_len: usize = reg.records[j].r_list.len();
                let mut drained: Vec<usize> = Vec::new();
                let mut t: usize = 0;
                while t < d_len
                    invariant
                        j < reg.records@.len(),
                        *reg == reg_taken,
                        d_len == reg.records@[j as int].r_list@.len(),
                        t <= d_len,
                        drained@ == reg.records@[j as int].r_list@.subrange(0, t as int),
                    decreases d_len - t,
                {
                    let node: usize = reg.records[j].r_list[t];
                    drained.push(node);
                    proof {
                        assert(drained@ =~= reg.records@[j as int].r_list@.subrange(0, t + 1));
                    }
                    t = t + 1;
                }
                proof {
                    assert(drained@ =~= reg.records@[j as int].r_list@);
                }
                reg.records[j].r_list = Vec::new();
                reg.records[j].r_count = 0;
                proof {
                    assert(drained@ == reg_top.records@[j as int].r_list@);
                    assert(reg_top.records@[j as int] == old(reg).records@[j as int]);
                    assert forall|u: int|
                        0 <= u < n_recs implies (#[trigger] reg.records@[u]).hazard_pointers
                        == old(reg).records@[u].hazard_pointers by {
                        assert(reg_top.records@[u].hazard_pointers == old(
                            reg,
                        ).records@[u].hazard_pointers);
                    }
                    lemma_protected_frame(reg, old(reg));
                    assert forall|n: usize| #[trigger] drained@.contains(n) implies old(
                        reg,
                    ).retired(n) by {
                        assert((old(reg).records@[j as int]).has_retired(n));
                    }
                    assert forall|n: usize| #[trigger] reg.retired(n) implies old(reg).retired(
                        n,
                    ) by {
                        let i = choose|i: int|
                            0 <= i < reg.records@.len() && (#[trigger] reg.records@[
                                i
                            ]).has_retired(n);
                        assert(i != j);
                        assert((reg_top.records@[i]).has_retired(n));
                        assert(reg_top.retired(n));
                    }
                    assert forall|n: usize| #[trigger] old(reg).retired(n) implies reg.retired(n)
                        || freed@.contains(n) || (exists|p: int|
                        0 <= p < d_len && drained@[p] == n) by {
                        if reg_top.retired(n) {
                            let i = choose|i: int|
                                0 <= i < reg_top.records@.len() && (#[trigger] reg_top.records@[
                                    i
                                ]).has_retired(n);
                            if i == j {
                                let p = choose|p: int|
                                    0 <= p < drained@.len() && drained@[p] == n;
                                assert(0 <= p < d_len && drained@[p] == n);
                            } else {
                                assert(reg.records@[i] == reg_top.records@[i]);
                                assert((reg.records@[i]).has_retired(n));
                            }
                        }
                    }
                    assert(reg.wf()) by {
                        assert forall|a: int, b: int, n2: usize|
                            0 <= a < reg.records@.len() && 0 <= b < reg.records@.len() && a != b
                                && (#[trigger] reg.records@[a].has_retired(n2)) implies !(
                        #[trigger] reg.records@[b].has_retired(n2)) by {
                            assert(a != j);
                            assert(reg_top.records@[a].has_retired(n2));
                            if reg.records@[b].has_retired(n2) {
                                assert(b != j);
                                assert(reg_top.records@[b].has_retired(n2));
                            }
                        }
                    }
                    // the drained nodes sit in no record now: they were only
                    // in the drained record, which is empty
                    assert forall|p: int, u: int|
                        0 <= p < d_len && 0 <= u < n_recs implies !(#[trigger] reg.records@[
                        u
                    ]).has_retired(#[trigger] drained@[p]) by {
                        assert(old(reg).records@[j as int].has_retired(drained@[p]));
                        if reg.records@[u].has_retired(drained@[p]) {
                            assert(u != j);
                            assert(reg_top.records@[u].has_retired(drained@[p]));
                            if u == idx {
                                assert(false);
                            } else {
                                assert(reg_top.records@[u] == old(reg).records@[u]) by {
                                    if u < j && !old(reg).records@[u].active {
                                        assert(reg_top.records@[u].r_list@.len() == 0);
                                        assert(false);
                                    }
                                }
                                assert(old(reg).records@[u].has_retired(drained@[p]));
                            }
                        }
                    }
                    // drained nodes are not among the already freed ones
                    assert forall|p: int, q: int|
                        0 <= p < d_len && 0 <= q < freed@.len() implies (#[trigger] drained@[p])
                        != #[trigger] freed@[q] by {
                        if drained@[p] == freed@[q] {
                            assert(freed@.contains(freed@[q]));
                            assert(!reg_top.retired(freed@[q]));
                            assert(reg_top.records@[j as int].has_retired(drained@[p]));
                            assert(reg_top.retired(drained@[p]));
                        }
                    }
                    assert(forall|a: int, b: int|
                        0 <= a < b < d_len ==> drained@[a] != drained@[b]) by {
                        assert(old(reg).records@[j as int].wf());
                    }
                }
                let mut t: usize = 0;
                while t < d_len
                    invariant
                        old(reg).wf(),
                        reg.wf(),
                        idx < n_recs,
                        j < n_recs,
                        j != idx,
                        n_recs == reg.records@.len(),
                        n_recs == old(reg).records@.len(),
                        d_len == drained@.len(),
                        t <= d_len,
                        reg.total_hp_count == old(reg).total_hp_count,
                        reg.records@[idx as int].active,
                        reg.records@[j as int].active,
                        reg.records@[j as int].r_list@.len() == 0,
                        forall|u: int|
                            0 <= u < n_recs ==> (#[trigger] reg.records@[u]).active == (if u == j {
                                true
                            } else {
                                old(reg).records@[u].active
                            }),
                        forall|u: int|
                            0 <= u < n_recs ==> (#[trigger] reg.records@[u]).hazard_pointers
                                == old(reg).records@[u].hazard_pointers,
                        forall|u: int|
                            0 <= u < j && u != idx && !old(reg).records@[u].active ==> (
                            #[trigger] reg.records@[u]).r_list@.len() == 0,
                        forall|u: int|
                            j < u < n_recs && u != idx ==> reg.records@[u] == old(reg).records@[u],
                        forall|u: int|
                            0 <= u < n_recs && u != idx && u != j && old(reg).records@[u].active
                                ==> reg.records@[u] == old(reg).records@[u],
                        forall|n: usize| #[trigger] reg.protected(n) <==> old(reg).protected(n),
                        forall|n: usize| #[trigger] drained@.contains(n) ==> old(reg).retired(n),
                        forall|n: usize| #[trigger] reg.retired(n) ==> old(reg).retired(n),
                        forall|n: usize| #[trigger] freed@.contains(n) ==> old(reg).retired(n),
                        forall|n: usize|
                            #[trigger] old(reg).retired(n) ==> reg.retired(n) || freed@.contains(n)
                                || (exists|p: int| t <= p < d_len && drained@[p] == n),
                        forall|n: usize| #[trigger] freed@.contains(n) ==> !old(reg).protected(n),
                        forall|n: usize|
                            #[trigger] old(reg).records@[idx as int].r_list@.contains(n)
                                ==> reg.records@[idx as int].r_list@.contains(n)
                                || freed@.contains(n),
                        forall|a: int, b: int| 0 <= a < b < freed@.len() ==> freed@[a] != freed@[b],
                        forall|n: usize| #[trigger] freed@.contains(n) ==> !reg.retired(n),
                        forall|p: int, u: int|
                            t <= p < d_len && 0 <= u < n_recs ==> !(#[trigger] reg.records@[
                                u
                            ]).has_retired(#[trigger] drained@[p]),
                        forall|p: int, q: int|
                            t <= p < d_len && 0 <= q < freed@.len() ==> (#[trigger] drained@[p])
                                != #[trigger] freed@[q],
                        forall|a: int, b: int| 0 <= a < b < d_len ==> drained@[a] != drained@[b],
                        forall|n: usize, u: int|
                            j < u < n_recs && u != idx && (#[trigger] reg.records@[
                                idx as int
                            ].r_list@.contains(n)) && (#[trigger] old(reg).records@[
                                u
                            ].has_retired(n)) ==> false,
                    decreases d_len - t,
                {
                    let ghost reg_d = *reg;
                    let ghost freed_d = freed@;
                    let node: usize = drained[t];
                    proof {
                        assert(drained@.contains(node));
                    }
                    if !vec_contains(&reg.records[idx].r_list, node) {
                        let ghost rl0 = reg.records@[idx as int].r_list@;
                        reg.records[idx].r_list.push(node);
                        let new_len: usize = reg.records[idx].r_list.len();
                        reg.records[idx].r_count = new_len;
                        proof {
                            assert forall|a: int, b: int|
                                0 <= a < b < reg.records@[idx as int].r_list@.len() implies
                                reg.records@[idx as int].r_list@[a] != reg.records@[
                                idx as int
                            ].r_list@[b] by {
                                let rl = reg.records@[idx as int].r_list@;
                                assert(reg_d.records@[idx as int].wf());
                                if b == rl.len() - 1 {
                                    assert(rl[a] == rl0[a]);
                                    if rl[a] == node {
                                        assert(rl0.contains(node));
                                    }
                                }
                            }
                            assert(reg.records@[idx as int].wf());
                        }
                    }
                    proof {
                        assert(reg.records@[idx as int].r_list@.contains(node));
                        assert((reg.records@[idx as int]).has_retired(node));
                        assert(reg.retired(node));
                        assert forall|u: int|
                            0 <= u < n_recs implies (#[trigger] reg.records@[u]).hazard_pointers
                            == old(reg).records@[u].hazard_pointers by {
                            assert(reg_d.records@[u].hazard_pointers == old(
                                reg,
                            ).records@[u].hazard_pointers);
                        }
                        lemma_protected_frame(reg, old(reg));
                        assert(reg.wf()) by {
                            assert forall|a: int, b: int, n2: usize|
                                0 <= a < reg.records@.len() && 0 <= b < reg.records@.len() && a
                                    != b && (#[trigger] reg.records@[a].has_retired(n2)) implies
                                !(#[trigger] reg.records@[b].has_retired(n2)) by {
                                if a == idx {
                                    if n2 == node {
                                        assert(reg.records@[b] == reg_d.records@[b]);
                                        assert(!reg_d.records@[b].has_retired(drained@[t as int]));
                                    } else {
                                        assert(reg_d.records@[a].has_retired(n2));
                                        if reg.records@[b].has_retired(n2) {
                                            assert(reg_d.records@[b].has_retired(n2));
                                        }
                                    }
                                } else {
                                    assert(reg.records@[a] == reg_d.records@[a]);
                                    assert(reg_d.records@[a].has_retired(n2));
                                    if reg.records@[b].has_retired(n2) {
                                        if b == idx {
                                            if n2 == node {
                                                assert(!reg_d.records@[a].has_retired(
                                                    drained@[t as int],
                                                ));
                                            } else {
                                                assert(reg_d.records@[b].has_retired(n2));
                                            }
                                        } else {
                                            assert(reg_d.records@[b].has_retired(n2));
                                        }
                                    }
                                }
                            }
                        }
                        assert forall|p: int, u: int|
                            t + 1 <= p < d_len && 0 <= u < n_recs implies !(
                        #[trigger] reg.records@[u]).has_retired(#[trigger] drained@[p]) by {
                            assert(!reg_d.records@[u].has_retired(drained@[p]));
                            if reg.records@[u].has_retired(drained@[p]) {
                                if u == idx {
                                    assert(drained@[p] != drained@[t as int]);
                                } else {
                                    assert(reg.records@[u] == reg_d.records@[u]);
                                }
                            }
                        }
                        assert forall|n: usize| #[trigger] freed@.contains(n) implies !reg.retired(
                            n,
                        ) by {
                            assert(!reg_d.retired(n));
                            let q = choose|q: int| 0 <= q < freed@.len() && freed@[q] == n;
                            assert(drained@[t as int] != freed@[q]);
                            if reg.retired(n) {
                                let i = choose|i: int|
                                    0 <= i < reg.records@.len() && (#[trigger] reg.records@[
                                        i
                                    ]).has_retired(n);
                                if i == idx {
                                    if n != node {
                                        assert(reg_d.records@[idx as int].has_retired(n));
                                        assert(reg_d.retired(n));
                                    }
                                } else {
                                    assert(reg.records@[i] == reg_d.records@[i]);
                                    assert(reg_d.records@[i].has_retired(n));
                                    assert(reg_d.retired(n));
                                }
                            }
                        }
                        assert forall|n: usize, u: int|
                            j < u < n_recs && u != idx && (#[trigger] reg.records@[
                                idx as int
                            ].r_list@.contains(n)) && (#[trigger] old(reg).records@[
                                u
                            ].has_retired(n)) implies false by {
                            if n == node {
                                assert(old(reg).records@[j as int].has_retired(node));
                                assert(old(reg).records@[u].has_retired(node));
                                assert(old(reg).disjoint_retired());
                            } else {
                                assert(reg_d.records@[idx as int].r_list@.contains(n));
                            }
                        }
                        assert forall|n: usize| #[trigger] reg.retired(n) implies old(
                            reg,
                        ).retired(n) by {
                            let i = choose|i: int|
                                0 <= i < reg.records@.len() && (#[trigger] reg.records@[
                                    i
                                ]).has_retired(n);
                            if i == idx {
                                if n != node {
                                    assert(reg_d.records@[idx as int].r_list@.contains(n));
                                    assert((reg_d.records@[idx as int]).has_retired(n));
                                    assert(reg_d.retired(n));
                                }
                            } else {
                                assert((reg_d.records@[i]).has_retired(n));
                                assert(reg_d.retired(n));
                            }
                        }
                        assert forall|n: usize| #[trigger] old(reg).retired(n) implies
                            reg.retired(n) || freed@.contains(n) || (exists|p: int|
                            t + 1 <= p < d_len && drained@[p] == n) by {
                            if reg_d.retired(n) {
                                let i = choose|i: int|
                                    0 <= i < reg_d.records@.len() && (#[trigger] reg_d.records@[
                                        i
                                    ]).has_retired(n);
                                if i == idx {
                                    assert(reg.records@[idx as int].r_list@.contains(n));
                                    assert((reg.records@[idx as int]).has_retired(n));
                                } else {
                                    assert((reg.records@[i]).has_retired(n));
                                }
                            } else if !freed_d.contains(n) {
                                if (exists|p: int| t <= p < d_len && drained@[p] == n) {
                                    let p = choose|p: int| t <= p < d_len && drained@[p] == n;
                                    if p == t {
                                        assert(n == node);
                                        assert(reg.retired(n));
                                    } else {
                                        assert(t + 1 <= p < d_len && drained@[p] == n);
                                    }
                                }
                            }
                        }
                    }
                    if reg.records[idx].r_count >= max_r_count {
                        let ghost reg_s = *reg;
                        let ghost freed_s = freed@;
                        let f: Vec<usize> = Self::scan(reg, idx);
                        vec_append(&mut freed, &f);
                        proof {
                            assert forall|u: int|
                                0 <= u < n_recs implies (#[trigger] reg.records@[
                                u
                            ]).hazard_pointers == old(reg).records@[u].hazard_pointers by {
                                assert(reg_s.records@[u].hazard_pointers == old(
                                    reg,
                                ).records@[u].hazard_pointers);
                            }
                            lemma_protected_frame(reg, old(reg));
                            lemma_protected_frame(&reg_s, old(reg));
                            assert forall|n: usize| #[trigger] reg.retired(n) implies old(
                                reg,
                            ).retired(n) by {
                                let i = choose|i: int|
                                    0 <= i < reg.records@.len() && (#[trigger] reg.records@[
                                        i
                                    ]).has_retired(n);
                                if i == idx {
                                    assert(reg_s.records@[idx as int].r_list@.contains(n));
                                    assert((reg_s.records@[idx as int]).has_retired(n));
                                } else {
                                    assert((reg_s.records@[i]).has_retired(n));
                                }
                                assert(reg_s.retired(n));
                            }
                            assert forall|n: usize| #[trigger] freed@.contains(n) implies old(
                                reg,
                            ).retired(n) && !old(reg).protected(n) by {
                                if freed_s.contains(n) {
                                } else {
                                    assert(f@.contains(n));
                                    assert(reg_s.records@[idx as int].r_list@.contains(n));
                                    assert((reg_s.records@[idx as int]).has_retired(n));
                                    assert(reg_s.retired(n));
                                    assert(!reg_s.protected(n));
                                }
                            }
                            assert forall|n: usize| #[trigger] old(reg).retired(n) implies
                                reg.retired(n) || freed@.contains(n) || (exists|p: int|
                                t + 1 <= p < d_len && drained@[p] == n) by {
                                if reg_s.retired(n) {
                                    let i = choose|i: int|
                                        0 <= i < reg_s.records@.len() && (
                                        #[trigger] reg_s.records@[i]).has_retired(n);
                                    if i == idx {
                                        if reg_s.protected(n) {
                                            assert(reg.records@[idx as int].r_list@.contains(n));
                                            assert((reg.records@[idx as int]).has_retired(n));
                                            assert(reg.retired(n));
                                        } else {
                                            assert(f@.contains(n));
                                            assert(freed@.contains(n));
                                        }
                                    } else {
                                        assert((reg.records@[i]).has_retired(n));
                                        assert(reg.retired(n));
                                    }
                                } else if freed_s.contains(n) {
                                    assert(freed@.contains(n));
                                }
                            }
                            assert forall|n: usize|
                                #[trigger] old(reg).records@[idx as int].r_list@.contains(n)
                                    implies reg.records@[idx as int].r_list@.contains(n)
                                    || freed@.contains(n) by {
                                if reg_s.records@[idx as int].r_list@.contains(n) {
                                    if reg_s.protected(n) {
                                        assert(reg.records@[idx as int].r_list@.contains(n));
                                    } else {
                                        assert(f@.contains(n));
                                        assert(freed@.contains(n));
                                    }
                                } else {
                                    assert(freed_s.contains(n));
                                    assert(freed@.contains(n));
                                }
                            }
                            assert forall|a: int, b: int|
                                0 <= a < b < freed@.len() implies freed@[a] != freed@[b] by {
                                assert(freed@ == freed_s + f@);
                                let fl = freed_s.len() as int;
                                if b < fl {
                                } else if a >= fl {
                                    assert(freed@[a] == f@[a - fl] && freed@[b] == f@[b - fl]);
                                } else {
                                    assert(freed@[a] == freed_s[a]);
                                    assert(freed@[b] == f@[b - fl]);
                                    if freed@[a] == freed@[b] {
                                        assert(f@.contains(freed@[b]));
                                        assert(reg_s.records@[idx as int].r_list@.contains(
                                            freed@[b],
                                        ));
                                        assert((reg_s.records@[idx as int]).has_retired(
                                            freed@[b],
                                        ));
                                        assert(reg_s.retired(freed@[b]));
                                        assert(freed_s.contains(freed@[a]));
                                        assert(!reg_s.retired(freed@[a]));
                                    }
                                }
                            }
                            assert forall|n: usize| #[trigger] freed@.contains(n) implies
                                !reg.retired(n) by {
                                if freed_s.contains(n) {
                                    assert(!reg_s.retired(n));
                                    if reg.retired(n) {
                                        let i = choose|i: int|
                                            0 <= i < reg.records@.len() && (
                                            #[trigger] reg.records@[i]).has_retired(n);
                                        if i == idx {
                                            assert(reg_s.records@[idx as int].r_list@.contains(
                                                n,
                                            ));
                                            assert((reg_s.records@[idx as int]).has_retired(n));
                                            assert(reg_s.retired(n));
                                        } else {
                                            assert(reg.records@[i] == reg_s.records@[i]);
                                            assert(reg_s.records@[i].has_retired(n));
                                            assert(reg_s.retired(n));
                                        }
                                    }
                                } else {
                                    assert(f@.contains(n));
                                }
                            }
                            assert forall|p: int, u: int|
                                t + 1 <= p < d_len && 0 <= u < n_recs implies !(
                            #[trigger] reg.records@[u]).has_retired(#[trigger] drained@[p]) by {
                                assert(!reg_s.records@[u].has_retired(drained@[p]));
                                if reg.records@[u].has_retired(drained@[p]) {
                                    if u == idx {
                                        assert(reg_s.records@[idx as int].r_list@.contains(
                                            drained@[p],
                                        ));
                                    } else {
                                        assert(reg.records@[u] == reg_s.records@[u]);
                                    }
                                }
                            }
                            assert forall|p: int, q: int|
                                t + 1 <= p < d_len && 0 <= q < freed@.len() implies (
                            #[trigger] drained@[p]) != #[trigger] freed@[q] by {
                                if drained@[p] == freed@[q] {
                                    assert(freed@.contains(freed@[q]));
                                    if freed_s.contains(freed@[q]) {
                                        let q2 = choose|q2: int|
                                            0 <= q2 < freed_s.len() && freed_s[q2] == freed@[q];
                                        assert(drained@[p] != freed_s[q2]);
                                    } else {
                                        assert(f@.contains(freed@[q]));
                                        assert(reg_s.records@[idx as int].r_list@.contains(
                                            freed@[q],
                                        ));
                                        assert(!(reg_s.records@[idx as int]).has_retired(
                                            drained@[p],
                                        ));
                                    }
                                }
                            }
                            assert forall|n: usize, u: int|
                                j < u < n_recs && u != idx && (#[trigger] reg.records@[
                                    idx as int
                                ].r_list@.contains(n)) && (#[trigger] old(reg).records@[
                                    u
                                ].has_retired(n)) implies false by {
                                assert(reg_s.records@[idx as int].r_list@.contains(n));
                            }
                        }
                    }
                    t = t + 1;
                }
                let ghost reg_e = *reg;
                reg.records[j].active = false;
                proof {
                    assert forall|u: int|
                        0 <= u < n_recs implies (#[trigger] reg.records@[u]).hazard_pointers
                        == old(reg).records@[u].hazard_pointers by {
                        assert(reg_e.records@[u].hazard_pointers == old(
                            reg,
                        ).records@[u].hazard_pointers);
                    }
                    lemma_protected_frame(reg, old(reg));
                    assert forall|i: int|
                        0 <= i < reg.records@.len() implies (#[trigger] reg.records@[i]).r_list
                        == reg_e.records@[i].r_list by {
                    }
                    lemma_retired_frame(reg, &reg_e);
                }
            }
            j = j + 1;
        }
        freed
    }

    /// Retires a node into the record's retired set (a duplicate retire of
    /// a node this record already holds changes nothing); once the count
    /// reaches `max_r_count`, runs `scan` and then `help_scan`, returning
    /// every node freed. Below the threshold the only change is the
    /// insertion; at or above it, every unprotected node of this record's
    /// retired set is freed. Nothing freed was protected by any slot,
    /// nothing is freed twice, and retired nodes are never lost and never
    /// invented.
    pub fn retire_node(
        reg: &mut HprRegistry,
        idx: usize,
        node: usize,
        max_r_count: usize,
    ) -> (freed: Vec<usize>)
        requires
            old(reg).wf(),
            idx < old(reg).records@.len(),
            old(reg).records@[idx as int].active,
            !old(reg).retired(node) || old(reg).records@[idx as int].has_retired(node),
        ensures
            final(reg).wf(),
            final(reg).records@.len() == old(reg).records@.len(),
            final(reg).total_hp_count == old(reg).total_hp_count,
            forall|j: int|
                0 <= j < final(reg).records@.len() ==> (#[trigger] final(reg).records@[j]).active
                    == old(reg).records@[j].active,
            forall|j: int|
                0 <= j < final(reg).records@.len() ==> (#[trigger] final(reg).records@[
                    j
                ]).hazard_pointers == old(reg).records@[j].hazard_pointers,
            forall|n: usize|
                #[trigger] final(reg).retired(n) ==> old(reg).retired(n) || n == node,
            forall|n: usize|
                #[trigger] freed@.contains(n) ==> old(reg).retired(n) || n == node,
            forall|n: usize|
                #[trigger] old(reg).retired(n) ==> final(reg).retired(n) || freed@.contains(n),
            final(reg).retired(node) || freed@.contains(node),
            forall|n: usize| #[trigger] freed@.contains(n) ==> !old(reg).protected(n),
            final(reg).records@[idx as int].r_list@.contains(node) || freed@.contains(node),
            old(reg).records@[idx as int].r_list@.contains(node) && old(reg).records@[
                idx as int
            ].r_list@.len() < max_r_count ==> *final(reg) == *old(reg) && freed@.len() == 0,
            !old(reg).records@[idx as int].r_list@.contains(node) && old(reg).records@[
                idx as int
            ].r_list@.len() + 1 < max_r_count ==> {
                &&& freed@.len() == 0
                &&& forall|j: int|
                    0 <= j < final(reg).records@.len() && j != idx ==> final(reg).records@[j]
                        == old(reg).records@[j]
                &&& final(reg).records@[idx as int].r_list@ == old(reg).records@[
                    idx as int
                ].r_list@.push(node)
                &&& final(reg).records@[idx as int].r_count == old(reg).records@[
                    idx as int
                ].r_list@.len() + 1
                &&& final(reg).records@[idx as int].active == old(reg).records@[
                    idx as int
                ].active
                &&& final(reg).records@[idx as int].hazard_pointers == old(reg).records@[
                    idx as int
                ].hazard_pointers
            },
            (if old(reg).records@[idx as int].r_list@.contains(node) {
                old(reg).records@[idx as int].r_list@.len() as int
            } else {
                old(reg).records@[idx as int].r_list@.len() as int + 1
            }) >= max_r_count ==> forall|n: usize|
                (old(reg).records@[idx as int].r_list@.contains(n) || n == node) && !old(
                    reg,
                ).protected(n) ==> #[trigger] freed@.contains(n),
            forall|a: int, b: int| 0 <= a < b < freed@.len() ==> freed@[a] != freed@[b],
            forall|n: usize| #[trigger] freed@.contains(n) ==> !final(reg).retired(n),
    {
        if !vec_contains(&reg.records[idx].r_list, node) {
            let ghost rl0 = reg.records@[idx as int].r_list@;
            reg.records[idx].r_list.push(node);
            let new_len: usize = reg.records[idx].r_list.len();
            reg.records[idx].r_count = new_len;
            proof {
                assert forall|a: int, b: int|
                    0 <= a < b < reg.records@[idx as int].r_list@.len() implies reg.records@[
                    idx as int
                ].r_list@[a] != reg.records@[idx as int].r_list@[b] by {
                    let rl = reg.records@[idx as int].r_list@;
                    assert(old(reg).records@[idx as int].wf());
                    if b == rl.len() - 1 {
                        assert(rl[a] == rl0[a]);
                        if rl[a] == node {
                            assert(rl0.contains(node));
                        }
                    }
                }
                assert(reg.records@[idx as int].wf());
                assert(reg.wf()) by {
                    assert forall|a: int, b: int, n2: usize|
                        0 <= a < reg.records@.len() && 0 <= b < reg.records@.len() && a != b && (
                    #[trigger] reg.records@[a].has_retired(n2)) implies !(
                    #[trigger] reg.records@[b].has_retired(n2)) by {
                        if a == idx && n2 == node {
                            assert(reg.records@[b] == old(reg).records@[b]);
                            if old(reg).records@[b].has_retired(node) {
                                assert(old(reg).retired(node));
                            }
                        } else if a == idx {
                            assert(old(reg).records@[a].has_retired(n2));
                            if reg.records@[b].has_retired(n2) {
                                assert(old(reg).records@[b].has_retired(n2));
                            }
                        } else {
                            assert(reg.records@[a] == old(reg).records@[a]);
                            assert(old(reg).records@[a].has_retired(n2));
                            if reg.records@[b].has_retired(n2) {
                                if b == idx && n2 == node {
                                    assert(old(reg).retired(n2));
                                } else if b == idx {
                                    assert(old(reg).records@[b].has_retired(n2));
                                } else {
                                    assert(old(reg).records@[b].has_retired(n2));
                                }
                            }
                        }
                    }
                }
            }
        }
        let ghost reg_a = *reg;
        proof {
            assert(reg.records@[idx as int].r_list@.contains(node));
            assert((reg.records@[idx as int]).has_retired(node));
            assert(reg_a.retired(node));
            lemma_protected_frame(&reg_a, old(reg));
            assert forall|n: usize| #[trigger] reg_a.retired(n) implies old(reg).retired(n) || n
                == node by {
                let i = choose|i: int|
                    0 <= i < reg_a.records@.len() && (#[trigger] reg_a.records@[i]).has_retired(n);
                if i == idx {
                    if n != node {
                        assert(old(reg).records@[idx as int].r_list@.contains(n));
                        assert((old(reg).records@[idx as int]).has_retired(n));
                    }
                } else {
                    assert((old(reg).records@[i]).has_retired(n));
                }
            }
            assert forall|n: usize| #[trigger] old(reg).retired(n) implies reg_a.retired(n) by {
                let i = choose|i: int|
                    0 <= i < old(reg).records@.len() && (#[trigger] old(reg).records@[
                        i
                    ]).has_retired(n);
                if i == idx {
                    assert(reg_a.records@[idx as int].r_list@.contains(n));
                    assert((reg_a.records@[idx as int]).has_retired(n));
                } else {
                    assert((reg_a.records@[i]).has_retired(n));
                }
            }
        }
        let mut freed: Vec<usize> = Vec::new();
        if reg.records[idx].r_count >= max_r_count {
            let f: Vec<usize> = Self::scan(reg, idx);
            let ghost reg_b = *reg;
            proof {
                lemma_protected_frame(&reg_b, old(reg));
                assert forall|n: usize| #[trigger] reg_b.retired(n) implies reg_a.retired(n) by {
                    let i = choose|i: int|
                        0 <= i < reg_b.records@.len() && (#[trigger] reg_b.records@[
                            i
                        ]).has_retired(n);
                    if i == idx {
                        assert(reg_a.records@[idx as int].r_list@.contains(n));
                        assert((reg_a.records@[idx as int]).has_retired(n));
                    } else {
                        assert((reg_a.records@[i]).has_retired(n));
                    }
                }
                assert forall|n: usize| #[trigger] reg_a.retired(n) implies reg_b.retired(n)
                    || f@.contains(n) by {
                    let i = choose|i: int|
                        0 <= i < reg_a.records@.len() && (#[trigger] reg_a.records@[
                            i
                        ]).has_retired(n);
                    if i == idx {
                        if reg_a.protected(n) {
                            assert(reg_b.records@[idx as int].r_list@.contains(n));
                            assert((reg_b.records@[idx as int]).has_retired(n));
                        }
                    } else {
                        assert((reg_b.records@[i]).has_retired(n));
                    }
                }
                assert forall|n: usize| #[trigger] f@.contains(n) implies reg_a.retired(n) && !old(
                    reg,
                ).protected(n) by {
                    assert(reg_a.records@[idx as int].r_list@.contains(n));
                    assert((reg_a.records@[idx as int]).has_retired(n));
                }
            }
            vec_append(&mut freed, &f);
            let f2: Vec<usize> = Self::help_scan(reg, idx, max_r_count);
            proof {
                assert forall|n: usize| #[trigger] reg.retired(n) implies reg_b.retired(n) by {
                }
                assert forall|n: usize| #[trigger] f2@.contains(n) implies reg_b.retired(n)
                    && !old(reg).protected(n) by {
                    assert(!reg_b.protected(n));
                }
            }
            vec_append(&mut freed, &f2);
            proof {
                assert(freed@ == f@ + f2@);
                // the retired node stays in this record or was freed
                assert(reg.records@[idx as int].r_list@.contains(node) || freed@.contains(
                    node,
                )) by {
                    if reg_b.records@[idx as int].r_list@.contains(node) {
                        assert(reg.records@[idx as int].r_list@.contains(node) || f2@.contains(
                            node,
                        ));
                    } else {
                        assert(f@.contains(node));
                    }
                }
                // every unprotected node of this record's retired set was freed
                assert forall|n: usize|
                    (old(reg).records@[idx as int].r_list@.contains(n) || n == node) && !old(
                        reg,
                    ).protected(n) implies #[trigger] freed@.contains(n) by {
                    assert(reg_a.records@[idx as int].r_list@.contains(n));
                    assert(!reg_a.protected(n));
                    assert(f@.contains(n));
                }
                // freed holds no duplicates: scan's output is duplicate-free
                // and already off every retired set when help_scan runs
                assert forall|a: int, b: int|
                    0 <= a < b < freed@.len() implies freed@[a] != freed@[b] by {
                    let fl = f@.len() as int;
                    if b < fl {
                    } else if a >= fl {
                        assert(freed@[a] == f2@[a - fl] && freed@[b] == f2@[b - fl]);
                    } else {
                        assert(freed@[a] == f@[a]);
                        assert(freed@[b] == f2@[b - fl]);
                        if freed@[a] == freed@[b] {
                            assert(f@.contains(freed@[a]));
                            assert(!reg_b.retired(freed@[a]));
                            assert(f2@.contains(freed@[b]));
                            assert(reg_b.retired(freed@[b]));
                        }
                    }
                }
                assert forall|n: usize| #[trigger] freed@.contains(n) implies !reg.retired(n) by {
                    if f@.contains(n) {
                        assert(!reg_b.retired(n));
                        if reg.retired(n) {
                            assert(reg_b.retired(n));
                        }
                    } else {
                        assert(f2@.contains(n));
                    }
                }
            }
        }
        freed
    }
}

} // verus!
