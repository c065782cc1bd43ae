//! The resource inventory: a three-level tree of nodes, NUMA domains and
//! slots, with per-slot job ownership, and the counting theory the placement
//! phases are proved against.

use vstd::prelude::*;

use crate::Error;

verus! {

/// The wire record one probe emits: the host it ran on, its rank (signed,
/// the missing-rank sentinel being negative), the NUMA domains it sees and,
/// positionally, the processing units of each domain.
#[derive(Debug)]
pub struct JobDesc {
    pub host: String,
    pub rank: i32,
    pub numa: Vec<usize>,
    pub pu: Vec<Vec<usize>>,
}

impl JobDesc {
    /// The record invariant: one PU list per NUMA index.
    pub open spec fn wf(self) -> bool {
        self.pu@.len() == self.numa@.len()
    }
}

/// The atomic scheduling unit: one rank's PU group within one NUMA domain,
/// owned by at most one job.
#[derive(Debug)]
pub struct Slot {
    pub rank: i32,
    pub pu: Vec<usize>,
    pub job: Option<u32>,
}

/// A NUMA domain: its OS index and the slots it holds, in insertion order.
#[derive(Debug)]
pub struct Numa {
    pub id: usize,
    pub slots: Vec<Slot>,
}

/// A node of the allocation: its host name and its NUMA domains.
#[derive(Debug)]
pub struct Node {
    pub host: String,
    pub numas: Vec<Numa>,
}

/// The whole inventory.
#[derive(Debug)]
pub struct ProcMap {
    pub nodes: Vec<Node>,
}

// ---------------------------------------------------------------------------
// Counting theory
// ---------------------------------------------------------------------------

pub open spec fn free01(s: Slot) -> nat {
    if s.job is None {
        1
    } else {
        0
    }
}

pub open spec fn job01(s: Slot, j: u32) -> nat {
    if s.job == Some(j) {
        1
    } else {
        0
    }
}

pub open spec fn slots_free(s: Seq<Slot>) -> nat
    decreases s.len(),
{
    if s.len() == 0 {
        0
    } else {
        slots_free(s.drop_last()) + free01(s.last())
    }
}

pub open spec fn slots_job(s: Seq<Slot>, j: u32) -> nat
    decreases s.len(),
{
    if s.len() == 0 {
        0
    } else {
        slots_job(s.drop_last(), j) + job01(s.last(), j)
    }
}

pub open spec fn numa_free(n: Numa) -> nat {
    slots_free(n.slots@)
}

pub open spec fn numa_job(n: Numa, j: u32) -> nat {
    slots_job(n.slots@, j)
}

pub open spec fn numas_free(ns: Seq<Numa>) -> nat
    decreases ns.len(),
{
    if ns.len() == 0 {
        0
    } else {
        numas_free(ns.drop_last()) + numa_free(ns.last())
    }
}

pub open spec fn numas_job(ns: Seq<Numa>, j: u32) -> nat
    decreases ns.len(),
{
    if ns.len() == 0 {
        0
    } else {
        numas_job(ns.drop_last(), j) + numa_job(ns.last(), j)
    }
}

pub open spec fn numas_total(ns: Seq<Numa>) -> nat
    decreases ns.len(),
{
    if ns.len() == 0 {
        0
    } else {
        numas_total(ns.drop_last()) + ns.last().slots@.len()
    }
}

pub open spec fn node_free(nd: Node) -> nat {
    numas_free(nd.numas@)
}

pub open spec fn node_job(nd: Node, j: u32) -> nat {
    numas_job(nd.numas@, j)
}

pub open spec fn node_total(nd: Node) -> nat {
    numas_total(nd.numas@)
}

pub open spec fn nodes_free(xs: Seq<Node>) -> nat
    decreases xs.len(),
{
    if xs.len() == 0 {
        0
    } else {
        nodes_free(xs.drop_last()) + node_free(xs.last())
    }
}

pub open spec fn nodes_job(xs: Seq<Node>, j: u32) -> nat
    decreases xs.len(),
{
    if xs.len() == 0 {
        0
    } else {
        nodes_job(xs.drop_last(), j) + node_job(xs.last(), j)
    }
}

pub open spec fn nodes_total(xs: Seq<Node>) -> nat
    decreases xs.len(),
{
    if xs.len() == 0 {
        0
    } else {
        nodes_total(xs.drop_last()) + node_total(xs.last())
    }
}

impl ProcMap {
    /// How many slots of the inventory are still free.
    pub open spec fn spec_free(self) -> nat {
        nodes_free(self.nodes@)
    }

    /// How many slots of the inventory the job `j` owns.
    pub open spec fn spec_job(self, j: u32) -> nat {
        nodes_job(self.nodes@, j)
    }

    /// How many slots the inventory holds in all.
    pub open spec fn spec_total(self) -> nat {
        nodes_total(self.nodes@)
    }
}

// Updating one slot moves the counts by the difference of the two slots.
pub proof fn lemma_slots_update(s: Seq<Slot>, i: int, v: Slot)
    requires
        0 <= i < s.len(),
    ensures
        slots_free(s.update(i, v)) + free01(s[i]) == slots_free(s) + free01(v),
        forall|j: u32|
            slots_job(s.update(i, v), j) + job01(s[i], j) == slots_job(s, j) + job01(v, j),
        s.update(i, v).len() == s.len(),
    decreases s.len(),
{
    let t = s.update(i, v);
    if i == s.len() - 1 {
        assert(t.drop_last() =~= s.drop_last());
        assert(t.last() == v);
    } else {
        assert(t.drop_last() =~= s.drop_last().update(i, v));
        assert(t.last() == s.last());
        lemma_slots_update(s.drop_last(), i, v);
    }
}

pub proof fn lemma_numas_update(ns: Seq<Numa>, i: int, v: Numa)
    requires
        0 <= i < ns.len(),
    ensures
        numas_free(ns.update(i, v)) + numa_free(ns[i]) == numas_free(ns) + numa_free(v),
        forall|j: u32|
            numas_job(ns.update(i, v), j) + numa_job(ns[i], j) == numas_job(ns, j) + numa_job(v, j),
        numas_total(ns.update(i, v)) + ns[i].slots@.len() == numas_total(ns) + v.slots@.len(),
    decreases ns.len(),
{
    let t = ns.update(i, v);
    if i == ns.len() - 1 {
        assert(t.drop_last() =~= ns.drop_last());
        assert(t.last() == v);
    } else {
        assert(t.drop_last() =~= ns.drop_last().update(i, v));
        assert(t.last() == ns.last());
        lemma_numas_update(ns.drop_last(), i, v);
    }
}

pub proof fn lemma_nodes_update(xs: Seq<Node>, i: int, v: Node)
    requires
        0 <= i < xs.len(),
    ensures
        nodes_free(xs.update(i, v)) + node_free(xs[i]) == nodes_free(xs) + node_free(v),
        forall|j: u32|
            nodes_job(xs.update(i, v), j) + node_job(xs[i], j) == nodes_job(xs, j) + node_job(v, j),
        nodes_total(xs.update(i, v)) + node_total(xs[i]) == nodes_total(xs) + node_total(v),
    decreases xs.len(),
{
    let t = xs.update(i, v);
    if i == xs.len() - 1 {
        assert(t.drop_last() =~= xs.drop_last());
        assert(t.last() == v);
    } else {
        assert(t.drop_last() =~= xs.drop_last().update(i, v));
        assert(t.last() == xs.last());
        lemma_nodes_update(xs.drop_last(), i, v);
    }
}

// Counting a prefix one element further.
pub proof fn lemma_slots_prefix(s: Seq<Slot>, i: int)
    requires
        0 <= i < s.len(),
    ensures
        slots_free(s.subrange(0, i + 1)) == slots_free(s.subrange(0, i)) + free01(s[i]),
        forall|j: u32|
            slots_job(s.subrange(0, i + 1), j) == slots_job(s.subrange(0, i), j) + job01(s[i], j),
        s.subrange(0, i + 1).len() == i + 1,
{
    assert(s.subrange(0, i + 1).drop_last() =~= s.subrange(0, i));
    assert(s.subrange(0, i + 1).last() == s[i]);
}

pub proof fn lemma_numas_prefix(ns: Seq<Numa>, i: int)
    requires
        0 <= i < ns.len(),
    ensures
        numas_free(ns.subrange(0, i + 1)) == numas_free(ns.subrange(0, i)) + numa_free(ns[i]),
        forall|j: u32|
            numas_job(ns.subrange(0, i + 1), j) == numas_job(ns.subrange(0, i), j) + numa_job(
                ns[i],
                j,
            ),
        numas_total(ns.subrange(0, i + 1)) == numas_total(ns.subrange(0, i)) + ns[i].slots@.len(),
{
    assert(ns.subrange(0, i + 1).drop_last() =~= ns.subrange(0, i));
    assert(ns.subrange(0, i + 1).last() == ns[i]);
}

pub proof fn lemma_nodes_prefix(xs: Seq<Node>, i: int)
    requires
        0 <= i < xs.len(),
    ensures
        nodes_free(xs.subrange(0, i + 1)) == nodes_free(xs.subrange(0, i)) + node_free(xs[i]),
        forall|j: u32|
            nodes_job(xs.subrange(0, i + 1), j) == nodes_job(xs.subrange(0, i), j) + node_job(
                xs[i],
                j,
            ),
        nodes_total(xs.subrange(0, i + 1)) == nodes_total(xs.subrange(0, i)) + node_total(xs[i]),
{
    assert(xs.subrange(0, i + 1).drop_last() =~= xs.subrange(0, i));
    assert(xs.subrange(0, i + 1).last() == xs[i]);
}

// A count of free slots is zero exactly when every slot is taken.
pub proof fn lemma_slots_free_zero(s: Seq<Slot>)
    ensures
        (slots_free(s) == 0) <==> (forall|i: int|
            0 <= i < s.len() ==> (#[trigger] s[i]).job is Some),
    decreases s.len(),
{
    if s.len() > 0 {
        lemma_slots_free_zero(s.drop_last());
        assert(forall|i: int| 0 <= i < s.len() - 1 ==> s.drop_last()[i] == s[i]);
        assert(s.last() == s[s.len() - 1]);
    }
}

pub proof fn lemma_numas_free_zero(ns: Seq<Numa>)
    ensures
        (numas_free(ns) == 0) <==> (forall|l: int|
            0 <= l < ns.len() ==> numa_free(#[trigger] ns[l]) == 0),
    decreases ns.len(),
{
    if ns.len() > 0 {
        lemma_numas_free_zero(ns.drop_last());
        assert(forall|l: int| 0 <= l < ns.len() - 1 ==> ns.drop_last()[l] == ns[l]);
        assert(ns.last() == ns[ns.len() - 1]);
    }
}

pub proof fn lemma_nodes_free_zero(xs: Seq<Node>)
    ensures
        (nodes_free(xs) == 0) <==> (forall|k: int|
            0 <= k < xs.len() ==> node_free(#[trigger] xs[k]) == 0),
    decreases xs.len(),
{
    if xs.len() > 0 {
        lemma_nodes_free_zero(xs.drop_last());
        assert(forall|k: int| 0 <= k < xs.len() - 1 ==> xs.drop_last()[k] == xs[k]);
        assert(xs.last() == xs[xs.len() - 1]);
    }
}

// Free slots never outnumber slots.
pub proof fn lemma_slots_free_le_total(s: Seq<Slot>)
    ensures
        slots_free(s) <= s.len(),
        forall|j: u32| slots_job(s, j) <= s.len(),
    decreases s.len(),
{
    if s.len() > 0 {
        lemma_slots_free_le_total(s.drop_last());
        assert forall|j: u32| slots_job(s, j) <= s.len() by {
            assert(slots_job(s.drop_last(), j) <= s.drop_last().len());
        }
    }
}

pub proof fn lemma_numas_free_le_total(ns: Seq<Numa>)
    ensures
        numas_free(ns) <= numas_total(ns),
        forall|j: u32| numas_job(ns, j) <= numas_total(ns),
    decreases ns.len(),
{
    if ns.len() > 0 {
        lemma_numas_free_le_total(ns.drop_last());
        lemma_slots_free_le_total(ns.last().slots@);
        assert forall|j: u32| numas_job(ns, j) <= numas_total(ns) by {
            assert(numas_job(ns.drop_last(), j) <= numas_total(ns.drop_last()));
            assert(slots_job(ns.last().slots@, j) <= ns.last().slots@.len());
        }
    }
}

pub proof fn lemma_nodes_free_le_total(xs: Seq<Node>)
    ensures
        nodes_free(xs) <= nodes_total(xs),
        forall|j: u32| nodes_job(xs, j) <= nodes_total(xs),
    decreases xs.len(),
{
    if xs.len() > 0 {
        lemma_nodes_free_le_total(xs.drop_last());
        lemma_numas_free_le_total(xs.last().numas@);
        assert forall|j: u32| nodes_job(xs, j) <= nodes_total(xs) by {
            assert(nodes_job(xs.drop_last(), j) <= nodes_total(xs.drop_last()));
            assert(numas_job(xs.last().numas@, j) <= numas_total(xs.last().numas@));
        }
    }
}

// Prefix counts never outgrow the whole.
pub proof fn lemma_numas_total_prefix_le(ns: Seq<Numa>, i: int)
    requires
        0 <= i <= ns.len(),
    ensures
        numas_total(ns.subrange(0, i)) <= numas_total(ns),
    decreases ns.len() - i,
{
    if i == ns.len() {
        assert(ns.subrange(0, i) =~= ns);
    } else {
        lemma_numas_prefix(ns, i);
        lemma_numas_total_prefix_le(ns, i + 1);
    }
}

pub proof fn lemma_nodes_total_prefix_le(xs: Seq<Node>, i: int)
    requires
        0 <= i <= xs.len(),
    ensures
        nodes_total(xs.subrange(0, i)) <= nodes_total(xs),
    decreases xs.len() - i,
{
    if i == xs.len() {
        assert(xs.subrange(0, i) =~= xs);
    } else {
        lemma_nodes_prefix(xs, i);
        lemma_nodes_total_prefix_le(xs, i + 1);
    }
}

// ---------------------------------------------------------------------------
// Monotone change: a slot once assigned keeps its assignment; ranks and PU
// sets never change.
// ---------------------------------------------------------------------------

pub open spec fn slot_le(a: Slot, b: Slot) -> bool {
    &&& b.rank == a.rank
    &&& b.pu@ == a.pu@
    &&& (a.job is Some ==> b.job == a.job)
}

pub open spec fn numa_le(a: Numa, b: Numa) -> bool {
    &&& b.id == a.id
    &&& a.slots@.len() == b.slots@.len()
    &&& forall|i: int| 0 <= i < a.slots@.len() ==> slot_le(#[trigger] a.slots@[i], b.slots@[i])
}

pub open spec fn node_le(a: Node, b: Node) -> bool {
    &&& b.host@ == a.host@
    &&& a.numas@.len() == b.numas@.len()
    &&& forall|l: int| 0 <= l < a.numas@.len() ==> numa_le(#[trigger] a.numas@[l], b.numas@[l])
}

pub open spec fn pm_le(a: ProcMap, b: ProcMap) -> bool {
    &&& a.nodes@.len() == b.nodes@.len()
    &&& forall|k: int| 0 <= k < a.nodes@.len() ==> node_le(#[trigger] a.nodes@[k], b.nodes@[k])
}

pub proof fn lemma_numa_le_refl(a: Numa)
    ensures
        numa_le(a, a),
{
}

pub proof fn lemma_node_le_refl(a: Node)
    ensures
        node_le(a, a),
{
    assert forall|l: int| 0 <= l < a.numas@.len() implies numa_le(
        #[trigger] a.numas@[l],
        a.numas@[l],
    ) by {
        lemma_numa_le_refl(a.numas@[l]);
    }
}

pub proof fn lemma_pm_le_refl(a: ProcMap)
    ensures
        pm_le(a, a),
{
    assert forall|k: int| 0 <= k < a.nodes@.len() implies node_le(
        #[trigger] a.nodes@[k],
        a.nodes@[k],
    ) by {
        lemma_node_le_refl(a.nodes@[k]);
    }
}

pub proof fn lemma_pm_le_trans(a: ProcMap, b: ProcMap, c: ProcMap)
    requires
        pm_le(a, b),
        pm_le(b, c),
    ensures
        pm_le(a, c),
{
    assert forall|k: int| 0 <= k < a.nodes@.len() implies node_le(
        #[trigger] a.nodes@[k],
        c.nodes@[k],
    ) by {
        let na = a.nodes@[k];
        let nb = b.nodes@[k];
        let nc = c.nodes@[k];
        assert(node_le(na, nb));
        assert(node_le(nb, nc));
        assert forall|l: int| 0 <= l < na.numas@.len() implies numa_le(
            #[trigger] na.numas@[l],
            nc.numas@[l],
        ) by {
            assert(numa_le(na.numas@[l], nb.numas@[l]));
            assert(numa_le(nb.numas@[l], nc.numas@[l]));
            assert forall|i: int| 0 <= i < na.numas@[l].slots@.len() implies slot_le(
                #[trigger] na.numas@[l].slots@[i],
                nc.numas@[l].slots@[i],
            ) by {
                assert(slot_le(na.numas@[l].slots@[i], nb.numas@[l].slots@[i]));
                assert(slot_le(nb.numas@[l].slots@[i], nc.numas@[l].slots@[i]));
            }
        }
    }
}

// ---------------------------------------------------------------------------
// Container membership of a job
// ---------------------------------------------------------------------------

/// The NUMA domain holds at least one slot of job `j`.
pub open spec fn numa_has_job(n: Numa, j: u32) -> bool {
    exists|i: int| 0 <= i < n.slots@.len() && (#[trigger] n.slots@[i]).job == Some(j)
}

/// The node holds at least one slot of job `j`.
pub open spec fn node_has_job(nd: Node, j: u32) -> bool {
    exists|l: int| 0 <= l < nd.numas@.len() && numa_has_job(#[trigger] nd.numas@[l], j)
}

pub proof fn lemma_numa_has_le(a: Numa, b: Numa, j: u32)
    requires
        numa_le(a, b),
        numa_has_job(a, j),
    ensures
        numa_has_job(b, j),
{
    let i = choose|i: int| 0 <= i < a.slots@.len() && (#[trigger] a.slots@[i]).job == Some(j);
    assert(slot_le(a.slots@[i], b.slots@[i]));
    assert(b.slots@[i].job == Some(j));
}

pub proof fn lemma_node_has_le(a: Node, b: Node, j: u32)
    requires
        node_le(a, b),
        node_has_job(a, j),
    ensures
        node_has_job(b, j),
{
    let l = choose|l: int| 0 <= l < a.numas@.len() && numa_has_job(#[trigger] a.numas@[l], j);
    assert(numa_le(a.numas@[l], b.numas@[l]));
    lemma_numa_has_le(a.numas@[l], b.numas@[l], j);
    assert(numa_has_job(b.numas@[l], j));
}

// ---------------------------------------------------------------------------
// Acquisition primitives
// ---------------------------------------------------------------------------

impl Slot {
    /// Whether the slot still has no job.
    pub fn is_free(&self) -> (r: bool)
        ensures
            r == (self.job is None),
    {
        self.job.is_none()
    }

    /// Bind the slot to a job; a taken slot refuses.
    pub fn acquire(&mut self, jobid: u32) -> (r: Result<(), Error>)
        ensures
            match r {
                Ok(()) => {
                    &&& old(self).job is None
                    &&& final(self).job == Some(jobid)
                    &&& final(self).rank == old(self).rank
                    &&& final(self).pu@ == old(self).pu@
                },
                Err(e) => {
                    &&& old(self).job is Some
                    &&& *final(self) == *old(self)
                    &&& e == Error::SlotTaken
                },
            },
            r is Ok <==> old(self).job is None,
            slot_le(*old(self), *final(self)),
    {
        if self.job.is_some() {
            return Err(Error::SlotTaken);
        }
        self.job = Some(jobid);
        Ok(())
    }
}

/// The position of the first free slot of a sequence.
pub open spec fn first_free_slot(s: Seq<Slot>) -> int
    decreases s.len(),
{
    if s.len() == 0 {
        0
    } else if s[0].job is None {
        0
    } else {
        1 + first_free_slot(s.drop_first())
    }
}

pub proof fn lemma_first_free_slot(s: Seq<Slot>)
    ensures
        slots_free(s) > 0 ==> {
            &&& 0 <= first_free_slot(s) < s.len()
            &&& s[first_free_slot(s)].job is None
            &&& forall|i: int| 0 <= i < first_free_slot(s) ==> (#[trigger] s[i]).job is Some
        },
    decreases s.len(),
{
    lemma_slots_free_zero(s);
    if s.len() > 0 && slots_free(s) > 0 && !(s[0].job is None) {
        let t = s.drop_first();
        assert(t =~= s.subrange(1, s.len() as int));
        lemma_slots_free_zero(t);
        assert(forall|i: int| 0 <= i < t.len() ==> t[i] == s[i + 1]);
        if slots_free(t) == 0 {
            assert forall|i: int| 0 <= i < s.len() implies (#[trigger] s[i]).job is Some by {
                if i > 0 {
                    assert(t[i - 1].job is Some);
                }
            }
        }
        lemma_first_free_slot(t);
        assert forall|i: int| 0 <= i < first_free_slot(s) implies (#[trigger] s[i]).job
            is Some by {
            if i > 0 {
                assert(t[i - 1].job is Some);
            }
        }
    }
}

impl Numa {
    /// Bind the first free slot of this domain to `jobid`.
    pub fn acquire(&mut self, jobid: u32) -> (r: Result<(), Error>)
        ensures
            r is Ok <==> numa_free(*old(self)) > 0,
            match r {
                Ok(()) => {
                    &&& final(self).slots@ == old(self).slots@.update(
                        first_free_slot(old(self).slots@),
                        (Slot {
                            rank: old(self).slots@[first_free_slot(old(self).slots@)].rank,
                            pu: old(self).slots@[first_free_slot(old(self).slots@)].pu,
                            job: Some(jobid),
                        }),
                    )
                    &&& numa_free(*final(self)) + 1 == numa_free(*old(self))
                    &&& numa_job(*final(self), jobid) == numa_job(*old(self), jobid) + 1
                    &&& forall|j2: u32|
                        j2 != jobid ==> numa_job(*final(self), j2) == numa_job(*old(self), j2)
                    &&& numa_has_job(*final(self), jobid)
                },
                Err(e) => {
                    &&& *final(self) == *old(self)
                    &&& e == (Error::NoFreeSlotOnNuma { id: old(self).id })
                },
            },
            final(self).id == old(self).id,
            final(self).slots@.len() == old(self).slots@.len(),
            numa_le(*old(self), *final(self)),
    {
        proof {
            lemma_first_free_slot(self.slots@);
            lemma_slots_free_zero(self.slots@);
        }
        let n: usize = self.slots.len();
        let mut i: usize = 0;
        while i < n
            invariant
                0 <= i <= n,
                n == self.slots@.len(),
                *self == *old(self),
                forall|k: int| 0 <= k < i ==> (#[trigger] self.slots@[k]).job is Some,
            decreases n - i,
        {
            if self.slots[i].job.is_none() {
                proof {
                    lemma_first_free_slot(self.slots@);
                    lemma_slots_free_zero(self.slots@);
                    assert(slots_free(self.slots@) > 0) by {
                        if slots_free(self.slots@) == 0 {
                            assert(self.slots@[i as int].job is Some);
                        }
                    };
                    // i is the first free position
                    assert(first_free_slot(self.slots@) == i) by {
                        let f = first_free_slot(self.slots@);
                        if f < i {
                            assert(self.slots@[f].job is Some);
                        }
                        if f > i {
                            assert(self.slots@[i as int].job is Some);
                        }
                    };
                    lemma_slots_update(
                        self.slots@,
                        i as int,
                        (Slot {
                            rank: self.slots@[i as int].rank,
                            pu: self.slots@[i as int].pu,
                            job: Some(jobid),
                        }),
                    );
                }
                let slot: &mut Slot = &mut self.slots[i];
                slot.job = Some(jobid);
                proof {
                    assert(self.slots@[i as int].job == Some(jobid));
                    assert(numa_has_job(*self, jobid));
                    assert forall|k: int| 0 <= k < old(self).slots@.len() implies slot_le(
                        #[trigger] old(self).slots@[k],
                        self.slots@[k],
                    ) by {
                        if k != i {
                            assert(self.slots@[k] == old(self).slots@[k]);
                        }
                    }
                }
                return Ok(());
            }
            i = i + 1;
        }
        proof {
            lemma_slots_free_zero(self.slots@);
        }
        Err(Error::NoFreeSlotOnNuma { id: self.id })
    }
}

/// The position of the first NUMA domain with a free slot.
pub open spec fn first_free_numa(ns: Seq<Numa>) -> int
    decreases ns.len(),
{
    if ns.len() == 0 {
        0
    } else if numa_free(ns[0]) > 0 {
        0
    } else {
        1 + first_free_numa(ns.drop_first())
    }
}

/// A domain with room behind an all-full prefix is the first with room.
pub proof fn lemma_first_free_numa_is(ns: Seq<Numa>, l: int)
    requires
        0 <= l < ns.len(),
        numa_free(ns[l]) > 0,
        forall|k: int| 0 <= k < l ==> numa_free(#[trigger] ns[k]) == 0,
    ensures
        first_free_numa(ns) == l,
    decreases ns.len(),
{
    if l > 0 {
        assert(numa_free(ns[0]) == 0);
        assert(forall|k: int| 0 <= k < ns.drop_first().len() ==> ns.drop_first()[k] == ns[k
            + 1]);
        lemma_first_free_numa_is(ns.drop_first(), l - 1);
    }
}

impl Node {
    /// Bind one slot of the first NUMA domain that still has room: its
    /// first free slot, in insertion order.
    pub fn acquire(&mut self, jobid: u32) -> (r: Result<(), Error>)
        ensures
            r is Ok <==> node_free(*old(self)) > 0,
            match r {
                Ok(()) => {
                    let f = first_free_numa(old(self).numas@);
                    let s = first_free_slot(old(self).numas@[f].slots@);
                    &&& node_free(*final(self)) + 1 == node_free(*old(self))
                    &&& node_job(*final(self), jobid) == node_job(*old(self), jobid) + 1
                    &&& forall|j2: u32|
                        j2 != jobid ==> node_job(*final(self), j2) == node_job(*old(self), j2)
                    &&& node_has_job(*final(self), jobid)
                    &&& 0 <= f < old(self).numas@.len()
                    &&& final(self).numas@[f].id == old(self).numas@[f].id
                    &&& final(self).numas@[f].slots@ == old(self).numas@[f].slots@.update(
                        s,
                        (Slot {
                            rank: old(self).numas@[f].slots@[s].rank,
                            pu: old(self).numas@[f].slots@[s].pu,
                            job: Some(jobid),
                        }),
                    )
                    &&& forall|l2: int|
                        0 <= l2 < old(self).numas@.len() && l2 != f ==> final(self).numas@[l2]
                            == old(self).numas@[l2]
                },
                Err(e) => {
                    &&& final(self).numas@ == old(self).numas@
                    &&& e == (Error::NoFreeSlotOnNode { host: old(self).host })
                },
            },
            final(self).host == old(self).host,
            final(self).numas@.len() == old(self).numas@.len(),
            node_le(*old(self), *final(self)),
    {
        let n: usize = self.numas.len();
        let mut l: usize = 0;
        while l < n
            invariant
                0 <= l <= n,
                n == self.numas@.len(),
                self.numas@ == old(self).numas@,
                self.host == old(self).host,
                forall|k: int| 0 <= k < l ==> numa_free(#[trigger] self.numas@[k]) == 0,
            decreases n - l,
        {
            let numa: &mut Numa = &mut self.numas[l];
            let r: Result<(), Error> = numa.acquire(jobid);
            match r {
                Ok(()) => {
                    proof {
                        lemma_numas_update(old(self).numas@, l as int, self.numas@[l as int]);
                        assert(numa_has_job(self.numas@[l as int], jobid));
                        assert(node_has_job(*self, jobid));
                        lemma_first_free_numa_is(old(self).numas@, l as int);
                        assert forall|k: int| 0 <= k < old(self).numas@.len() implies numa_le(
                            #[trigger] old(self).numas@[k],
                            self.numas@[k],
                        ) by {
                            if k != l {
                                assert(self.numas@[k] == old(self).numas@[k]);
                                lemma_numa_le_refl(self.numas@[k]);
                            }
                        }
                    }
                    return Ok(());
                },
                Err(_) => {
                    proof {
                        assert(self.numas@ =~= old(self).numas@);
                    }
                },
            }
            l = l + 1;
        }
        proof {
            lemma_numas_free_zero(self.numas@);
            assert forall|k: int| 0 <= k < old(self).numas@.len() implies numa_le(
                #[trigger] old(self).numas@[k],
                self.numas@[k],
            ) by {
                lemma_numa_le_refl(self.numas@[k]);
            }
        }
        Err(Error::NoFreeSlotOnNode { host: self.host.clone() })
    }
}

// Prefix free counts never outgrow the whole.
pub proof fn lemma_slots_free_prefix_le(s: Seq<Slot>, i: int)
    requires
        0 <= i <= s.len(),
    ensures
        slots_free(s.subrange(0, i)) <= slots_free(s),
    decreases s.len() - i,
{
    if i == s.len() {
        assert(s.subrange(0, i) =~= s);
    } else {
        lemma_slots_prefix(s, i);
        lemma_slots_free_prefix_le(s, i + 1);
    }
}

pub proof fn lemma_numas_free_prefix_le(ns: Seq<Numa>, i: int)
    requires
        0 <= i <= ns.len(),
    ensures
        numas_free(ns.subrange(0, i)) <= numas_free(ns),
    decreases ns.len() - i,
{
    if i == ns.len() {
        assert(ns.subrange(0, i) =~= ns);
    } else {
        lemma_numas_prefix(ns, i);
        lemma_numas_free_prefix_le(ns, i + 1);
    }
}

pub proof fn lemma_nodes_free_prefix_le(xs: Seq<Node>, i: int)
    requires
        0 <= i <= xs.len(),
    ensures
        nodes_free(xs.subrange(0, i)) <= nodes_free(xs),
    decreases xs.len() - i,
{
    if i == xs.len() {
        assert(xs.subrange(0, i) =~= xs);
    } else {
        lemma_nodes_prefix(xs, i);
        lemma_nodes_free_prefix_le(xs, i + 1);
    }
}

// A longer prefix holds at least as many free slots.
pub proof fn lemma_slots_free_prefix_mono(s: Seq<Slot>, a: int, b: int)
    requires
        0 <= a <= b <= s.len(),
    ensures
        slots_free(s.subrange(0, a)) <= slots_free(s.subrange(0, b)),
    decreases b - a,
{
    if a < b {
        lemma_slots_free_prefix_mono(s, a, b - 1);
        lemma_slots_prefix(s, b - 1);
    }
}

pub proof fn lemma_numas_free_prefix_mono(ns: Seq<Numa>, a: int, b: int)
    requires
        0 <= a <= b <= ns.len(),
    ensures
        numas_free(ns.subrange(0, a)) <= numas_free(ns.subrange(0, b)),
    decreases b - a,
{
    if a < b {
        lemma_numas_free_prefix_mono(ns, a, b - 1);
        lemma_numas_prefix(ns, b - 1);
    }
}

pub proof fn lemma_nodes_free_prefix_mono(xs: Seq<Node>, a: int, b: int)
    requires
        0 <= a <= b <= xs.len(),
    ensures
        nodes_free(xs.subrange(0, a)) <= nodes_free(xs.subrange(0, b)),
    decreases b - a,
{
    if a < b {
        lemma_nodes_free_prefix_mono(xs, a, b - 1);
        lemma_nodes_prefix(xs, b - 1);
    }
}

impl Numa {
    /// Acquire up to `want` free slots of this domain for `jobid`, walking
    /// the slots in insertion order: exactly the first free slots are
    /// taken, as many as wanted, or every free slot when fewer remain.
    pub fn acquire_upto(&mut self, jobid: u32, want: usize) -> (got: usize)
        ensures
            got <= want,
            got <= numa_free(*old(self)),
            got == want || got == numa_free(*old(self)),
            numa_free(*final(self)) + got == numa_free(*old(self)),
            numa_job(*final(self), jobid) == numa_job(*old(self), jobid) + got,
            forall|j2: u32|
                j2 != jobid ==> numa_job(*final(self), j2) == numa_job(*old(self), j2),
            final(self).id == old(self).id,
            final(self).slots@.len() == old(self).slots@.len(),
            numa_le(*old(self), *final(self)),
            forall|q: int|
                0 <= q < old(self).slots@.len() ==> final(self).slots@[q] == (if old(self).slots@[q].job is None && slots_free(old(self).slots@.subrange(0, q)) < want {
                    (Slot {
                        rank: old(self).slots@[q].rank,
                        pu: old(self).slots@[q].pu,
                        job: Some(jobid),
                    })
                } else {
                    old(self).slots@[q]
                }),
    {
        let n: usize = self.slots.len();
        let mut i: usize = 0;
        let mut got: usize = 0;
        proof {
            assert(old(self).slots@.subrange(0, 0) =~= Seq::<Slot>::empty());
        }
        while i < n && got < want
            invariant
                0 <= i <= n,
                got <= want,
                n == self.slots@.len(),
                n == old(self).slots@.len(),
                self.id == old(self).id,
                forall|k: int| i <= k < n ==> self.slots@[k] == old(self).slots@[k],
                forall|k: int|
                    0 <= k < n ==> slot_le(#[trigger] old(self).slots@[k], self.slots@[k]),
                slots_free(self.slots@) + got == slots_free(old(self).slots@),
                slots_job(self.slots@, jobid) == slots_job(old(self).slots@, jobid) + got,
                forall|j2: u32|
                    j2 != jobid ==> slots_job(self.slots@, j2) == slots_job(old(self).slots@, j2),
                got <= slots_free(old(self).slots@.subrange(0, i as int)),
                got == want || got == slots_free(old(self).slots@.subrange(0, i as int)),
                forall|q: int|
                    0 <= q < i ==> self.slots@[q] == (if old(self).slots@[q].job is None
                        && slots_free(old(self).slots@.subrange(0, q)) < want {
                        (Slot {
                            rank: old(self).slots@[q].rank,
                            pu: old(self).slots@[q].pu,
                            job: Some(jobid),
                        })
                    } else {
                        old(self).slots@[q]
                    }),
            decreases n - i,
        {
            proof {
                lemma_slots_prefix(old(self).slots@, i as int);
            }
            let ghost prev = self.slots@;
            if self.slots[i].job.is_none() {
                proof {
                    lemma_slots_update(
                        self.slots@,
                        i as int,
                        (Slot {
                            rank: self.slots@[i as int].rank,
                            pu: self.slots@[i as int].pu,
                            job: Some(jobid),
                        }),
                    );
                }
                let slot: &mut Slot = &mut self.slots[i];
                slot.job = Some(jobid);
                got = got + 1;
                proof {
                    assert forall|k: int| 0 <= k < n implies slot_le(
                        #[trigger] old(self).slots@[k],
                        self.slots@[k],
                    ) by {
                        if k != i {
                            assert(self.slots@[k] == prev[k]);
                        } else {
                            assert(slot_le(old(self).slots@[k], prev[k]));
                        }
                    }
                }
            }
            i = i + 1;
        }
        proof {
            lemma_slots_free_prefix_le(old(self).slots@, i as int);
            if i == n {
                assert(old(self).slots@.subrange(0, n as int) =~= old(self).slots@);
            }
            assert forall|q: int| 0 <= q < old(self).slots@.len() implies self.slots@[q] == (
            if old(self).slots@[q].job is None && slots_free(old(self).slots@.subrange(0, q))
                < want {
                (Slot {
                    rank: old(self).slots@[q].rank,
                    pu: old(self).slots@[q].pu,
                    job: Some(jobid),
                })
            } else {
                old(self).slots@[q]
            }) by {
                if q >= i {
                    assert(self.slots@[q] == old(self).slots@[q]);
                    assert(got == want);
                    lemma_slots_free_prefix_mono(old(self).slots@, i as int, q);
                    assert(slots_free(old(self).slots@.subrange(0, q)) >= want);
                }
            }
        }
        got
    }
}

impl Node {
    /// Acquire up to `want` free slots of this node for `jobid`, walking
    /// its NUMA domains in order.
    pub fn acquire_upto(&mut self, jobid: u32, want: usize) -> (got: usize)
        ensures
            got <= want,
            got <= node_free(*old(self)),
            got == want || got == node_free(*old(self)),
            node_free(*final(self)) + got == node_free(*old(self)),
            node_job(*final(self), jobid) == node_job(*old(self), jobid) + got,
            forall|j2: u32|
                j2 != jobid ==> node_job(*final(self), j2) == node_job(*old(self), j2),
            final(self).host == old(self).host,
            final(self).numas@.len() == old(self).numas@.len(),
            node_le(*old(self), *final(self)),
            forall|l: int, q: int|
                0 <= l < old(self).numas@.len() && 0 <= q < old(self).numas@[l].slots@.len() ==> (#[trigger] final(self).numas@[l].slots@[q]) == (
                if old(self).numas@[l].slots@[q].job is None && numas_free(
                    old(self).numas@.subrange(0, l),
                ) + slots_free(old(self).numas@[l].slots@.subrange(0, q)) < want {
                    (Slot {
                        rank: old(self).numas@[l].slots@[q].rank,
                        pu: old(self).numas@[l].slots@[q].pu,
                        job: Some(jobid),
                    })
                } else {
                    old(self).numas@[l].slots@[q]
                }),
    {
        let n: usize = self.numas.len();
        let mut l: usize = 0;
        let mut got: usize = 0;
        proof {
            assert(old(self).numas@.subrange(0, 0) =~= Seq::<Numa>::empty());
        }
        while l < n && got < want
            invariant
                0 <= l <= n,
                got <= want,
                n == self.numas@.len(),
                n == old(self).numas@.len(),
                self.host == old(self).host,
                forall|k: int| l <= k < n ==> self.numas@[k] == old(self).numas@[k],
                forall|k: int|
                    0 <= k < n ==> numa_le(#[trigger] old(self).numas@[k], self.numas@[k]),
                numas_free(self.numas@) + got == numas_free(old(self).numas@),
                numas_job(self.numas@, jobid) == numas_job(old(self).numas@, jobid) + got,
                forall|j2: u32|
                    j2 != jobid ==> numas_job(self.numas@, j2) == numas_job(old(self).numas@, j2),
                got <= numas_free(old(self).numas@.subrange(0, l as int)),
                got == want || got == numas_free(old(self).numas@.subrange(0, l as int)),
                forall|l2: int, q: int|
                    0 <= l2 < l && 0 <= q < old(self).numas@[l2].slots@.len() ==> (
                    #[trigger] self.numas@[l2].slots@[q]) == (if old(self).numas@[l2].slots@[q].job is None && numas_free(
                        old(self).numas@.subrange(0, l2),
                    ) + slots_free(old(self).numas@[l2].slots@.subrange(0, q)) < want {
                        (Slot {
                            rank: old(self).numas@[l2].slots@[q].rank,
                            pu: old(self).numas@[l2].slots@[q].pu,
                            job: Some(jobid),
                        })
                    } else {
                        old(self).numas@[l2].slots@[q]
                    }),
            decreases n - l,
        {
            proof {
                lemma_numas_prefix(old(self).numas@, l as int);
            }
            let ghost prev = self.numas@;
            let ghost got0 = got;
            let numa: &mut Numa = &mut self.numas[l];
            let sub: usize = numa.acquire_upto(jobid, want - got);
            got = got + sub;
            proof {
                lemma_numas_update(prev, l as int, self.numas@[l as int]);
                assert forall|l2: int, q: int|
                    0 <= l2 < l + 1 && 0 <= q < old(self).numas@[l2].slots@.len() implies (
                #[trigger] self.numas@[l2].slots@[q]) == (if old(self).numas@[l2].slots@[q].job
                    is None && numas_free(old(self).numas@.subrange(0, l2)) + slots_free(
                    old(self).numas@[l2].slots@.subrange(0, q),
                ) < want {
                    (Slot {
                        rank: old(self).numas@[l2].slots@[q].rank,
                        pu: old(self).numas@[l2].slots@[q].pu,
                        job: Some(jobid),
                    })
                } else {
                    old(self).numas@[l2].slots@[q]
                }) by {
                    if l2 < l {
                        assert(self.numas@[l2] == prev[l2]);
                        assert(prev[l2].slots@[q] == (if old(self).numas@[l2].slots@[q].job
                            is None && numas_free(old(self).numas@.subrange(0, l2))
                            + slots_free(old(self).numas@[l2].slots@.subrange(0, q)) < want {
                            (Slot {
                                rank: old(self).numas@[l2].slots@[q].rank,
                                pu: old(self).numas@[l2].slots@[q].pu,
                                job: Some(jobid),
                            })
                        } else {
                            old(self).numas@[l2].slots@[q]
                        }));
                    } else {
                        assert(prev[l2] == old(self).numas@[l2]);
                        assert(got0 == numas_free(old(self).numas@.subrange(0, l as int)));
                        assert(self.numas@[l2].slots@[q] == (if prev[l2].slots@[q].job is None
                            && slots_free(prev[l2].slots@.subrange(0, q)) < want - got0 {
                            (Slot {
                                rank: prev[l2].slots@[q].rank,
                                pu: prev[l2].slots@[q].pu,
                                job: Some(jobid),
                            })
                        } else {
                            prev[l2].slots@[q]
                        }));
                    }
                }
                assert forall|k: int| 0 <= k < n implies numa_le(
                    #[trigger] old(self).numas@[k],
                    self.numas@[k],
                ) by {
                    if k != l {
                        assert(self.numas@[k] == prev[k]);
                    } else {
                        assert(numa_le(old(self).numas@[k], prev[k]));
                        assert(numa_le(prev[k], self.numas@[k]));
                        let a = old(self).numas@[k];
                        let b = prev[k];
                        let c = self.numas@[k];
                        assert forall|q: int| 0 <= q < a.slots@.len() implies slot_le(
                            #[trigger] a.slots@[q],
                            c.slots@[q],
                        ) by {
                            assert(slot_le(a.slots@[q], b.slots@[q]));
                            assert(slot_le(b.slots@[q], c.slots@[q]));
                        }
                    }
                }
            }
            l = l + 1;
        }
        proof {
            lemma_numas_free_prefix_le(old(self).numas@, l as int);
            if l == n {
                assert(old(self).numas@.subrange(0, n as int) =~= old(self).numas@);
            }
            assert forall|l2: int, q: int|
                0 <= l2 < old(self).numas@.len() && 0 <= q < old(self).numas@[l2].slots@.len() implies (#[trigger] self.numas@[l2].slots@[q]) == (
            if old(self).numas@[l2].slots@[q].job is None && numas_free(
                old(self).numas@.subrange(0, l2),
            ) + slots_free(old(self).numas@[l2].slots@.subrange(0, q)) < want {
                (Slot {
                    rank: old(self).numas@[l2].slots@[q].rank,
                    pu: old(self).numas@[l2].slots@[q].pu,
                    job: Some(jobid),
                })
            } else {
                old(self).numas@[l2].slots@[q]
            }) by {
                if l2 >= l {
                    assert(self.numas@[l2] == old(self).numas@[l2]);
                    assert(got == want);
                    lemma_numas_free_prefix_mono(old(self).numas@, l as int, l2);
                    lemma_slots_free_le_total(old(self).numas@[l2].slots@.subrange(0, q));
                    assert(numas_free(old(self).numas@.subrange(0, l2)) >= want);
                }
            }
        }
        got
    }
}

impl ProcMap {
    /// Acquire up to `want` free slots of the whole inventory for `jobid`,
    /// walking nodes, NUMA domains and slots in order.
    pub fn acquire_upto(&mut self, jobid: u32, want: usize) -> (got: usize)
        ensures
            got <= want,
            got <= old(self).spec_free(),
            got == want || got == old(self).spec_free(),
            final(self).spec_free() + got == old(self).spec_free(),
            final(self).spec_job(jobid) == old(self).spec_job(jobid) + got,
            forall|j2: u32|
                j2 != jobid ==> final(self).spec_job(j2) == old(self).spec_job(j2),
            final(self).nodes@.len() == old(self).nodes@.len(),
            pm_le(*old(self), *final(self)),
            final(self).spec_total() == old(self).spec_total(),
            forall|k: int, l: int, q: int|
                0 <= k < old(self).nodes@.len() && 0 <= l < old(self).nodes@[k].numas@.len() && 0
                    <= q < old(self).nodes@[k].numas@[l].slots@.len() ==> (#[trigger] final(self).nodes@[k].numas@[l].slots@[q]) == (if old(self).nodes@[k].numas@[l].slots@[
                    q].job is None && nodes_free(old(self).nodes@.subrange(0, k)) + numas_free(
                    old(self).nodes@[k].numas@.subrange(0, l),
                ) + slots_free(old(self).nodes@[k].numas@[l].slots@.subrange(0, q)) < want {
                    (Slot {
                        rank: old(self).nodes@[k].numas@[l].slots@[q].rank,
                        pu: old(self).nodes@[k].numas@[l].slots@[q].pu,
                        job: Some(jobid),
                    })
                } else {
                    old(self).nodes@[k].numas@[l].slots@[q]
                }),
    {
        let n: usize = self.nodes.len();
        let mut k: usize = 0;
        let mut got: usize = 0;
        proof {
            assert(old(self).nodes@.subrange(0, 0) =~= Seq::<Node>::empty());
        }
        while k < n && got < want
            invariant
                0 <= k <= n,
                got <= want,
                n == self.nodes@.len(),
                n == old(self).nodes@.len(),
                forall|q: int| k <= q < n ==> self.nodes@[q] == old(self).nodes@[q],
                forall|q: int|
                    0 <= q < n ==> node_le(#[trigger] old(self).nodes@[q], self.nodes@[q]),
                nodes_free(self.nodes@) + got == nodes_free(old(self).nodes@),
                nodes_job(self.nodes@, jobid) == nodes_job(old(self).nodes@, jobid) + got,
                forall|j2: u32|
                    j2 != jobid ==> nodes_job(self.nodes@, j2) == nodes_job(old(self).nodes@, j2),
                nodes_total(self.nodes@) == nodes_total(old(self).nodes@),
                got <= nodes_free(old(self).nodes@.subrange(0, k as int)),
                got == want || got == nodes_free(old(self).nodes@.subrange(0, k as int)),
                forall|k2: int, l: int, q: int|
                    0 <= k2 < k && 0 <= l < old(self).nodes@[k2].numas@.len() && 0 <= q < old(self).nodes@[k2].numas@[l].slots@.len() ==> (#[trigger] self.nodes@[k2].numas@[
                        l].slots@[q]) == (if old(self).nodes@[k2].numas@[l].slots@[q].job
                        is None && nodes_free(old(self).nodes@.subrange(0, k2)) + numas_free(
                        old(self).nodes@[k2].numas@.subrange(0, l),
                    ) + slots_free(old(self).nodes@[k2].numas@[l].slots@.subrange(0, q))
                        < want {
                        (Slot {
                            rank: old(self).nodes@[k2].numas@[l].slots@[q].rank,
                            pu: old(self).nodes@[k2].numas@[l].slots@[q].pu,
                            job: Some(jobid),
                        })
                    } else {
                        old(self).nodes@[k2].numas@[l].slots@[q]
                    }),
            decreases n - k,
        {
            proof {
                lemma_nodes_prefix(old(self).nodes@, k as int);
            }
            let ghost prev = self.nodes@;
            let ghost got0 = got;
            let node: &mut Node = &mut self.nodes[k];
            let ghost nt = node_total(*node);
            let sub: usize = node.acquire_upto(jobid, want - got);
            got = got + sub;
            proof {
                lemma_nodes_update(prev, k as int, self.nodes@[k as int]);
                assert forall|k2: int, l: int, q: int|
                    0 <= k2 < k + 1 && 0 <= l < old(self).nodes@[k2].numas@.len() && 0 <= q
                        < old(self).nodes@[k2].numas@[l].slots@.len() implies (
                #[trigger] self.nodes@[k2].numas@[l].slots@[q]) == (if old(self).nodes@[
                    k2].numas@[l].slots@[q].job is None && nodes_free(
                    old(self).nodes@.subrange(0, k2),
                ) + numas_free(old(self).nodes@[k2].numas@.subrange(0, l)) + slots_free(
                    old(self).nodes@[k2].numas@[l].slots@.subrange(0, q),
                ) < want {
                    (Slot {
                        rank: old(self).nodes@[k2].numas@[l].slots@[q].rank,
                        pu: old(self).nodes@[k2].numas@[l].slots@[q].pu,
                        job: Some(jobid),
                    })
                } else {
                    old(self).nodes@[k2].numas@[l].slots@[q]
                }) by {
                    if k2 < k {
                        assert(self.nodes@[k2] == prev[k2]);
                        assert(prev[k2].numas@[l].slots@[q] == (if old(self).nodes@[k2].numas@[
                            l].slots@[q].job is None && nodes_free(
                            old(self).nodes@.subrange(0, k2),
                        ) + numas_free(old(self).nodes@[k2].numas@.subrange(0, l))
                            + slots_free(
                            old(self).nodes@[k2].numas@[l].slots@.subrange(0, q),
                        ) < want {
                            (Slot {
                                rank: old(self).nodes@[k2].numas@[l].slots@[q].rank,
                                pu: old(self).nodes@[k2].numas@[l].slots@[q].pu,
                                job: Some(jobid),
                            })
                        } else {
                            old(self).nodes@[k2].numas@[l].slots@[q]
                        }));
                    } else {
                        assert(prev[k2] == old(self).nodes@[k2]);
                        assert(got0 == nodes_free(old(self).nodes@.subrange(0, k as int)));
                        assert(self.nodes@[k2].numas@[l].slots@[q] == (if prev[k2].numas@[
                            l].slots@[q].job is None && numas_free(
                            prev[k2].numas@.subrange(0, l),
                        ) + slots_free(prev[k2].numas@[l].slots@.subrange(0, q)) < want - got0 {
                            (Slot {
                                rank: prev[k2].numas@[l].slots@[q].rank,
                                pu: prev[k2].numas@[l].slots@[q].pu,
                                job: Some(jobid),
                            })
                        } else {
                            prev[k2].numas@[l].slots@[q]
                        }));
                    }
                }
                assert(node_total(self.nodes@[k as int]) == nt) by {
                    lemma_node_le_total(prev[k as int], self.nodes@[k as int]);
                }
                assert forall|q: int| 0 <= q < n implies node_le(
                    #[trigger] old(self).nodes@[q],
                    self.nodes@[q],
                ) by {
                    if q != k {
                        assert(self.nodes@[q] == prev[q]);
                    } else {
                        lemma_node_le_trans(old(self).nodes@[q], prev[q], self.nodes@[q]);
                    }
                }
            }
            k = k + 1;
        }
        proof {
            lemma_nodes_free_prefix_le(old(self).nodes@, k as int);
            if k == n {
                assert(old(self).nodes@.subrange(0, n as int) =~= old(self).nodes@);
            }
            assert forall|k2: int, l: int, q: int|
                0 <= k2 < old(self).nodes@.len() && 0 <= l < old(self).nodes@[k2].numas@.len() && 0 <= q < old(self).nodes@[k2].numas@[l].slots@.len() implies (#[trigger] self.nodes@[k2].numas@[
                l].slots@[q]) == (if old(self).nodes@[k2].numas@[l].slots@[q].job is None
                && nodes_free(old(self).nodes@.subrange(0, k2)) + numas_free(
                old(self).nodes@[k2].numas@.subrange(0, l),
            ) + slots_free(old(self).nodes@[k2].numas@[l].slots@.subrange(0, q)) < want {
                (Slot {
                    rank: old(self).nodes@[k2].numas@[l].slots@[q].rank,
                    pu: old(self).nodes@[k2].numas@[l].slots@[q].pu,
                    job: Some(jobid),
                })
            } else {
                old(self).nodes@[k2].numas@[l].slots@[q]
            }) by {
                if k2 >= k {
                    assert(self.nodes@[k2] == old(self).nodes@[k2]);
                    assert(got == want);
                    lemma_nodes_free_prefix_mono(old(self).nodes@, k as int, k2);
                    lemma_numas_free_prefix_le(old(self).nodes@[k2].numas@, l);
                    lemma_numas_free_le_total(old(self).nodes@[k2].numas@.subrange(0, l));
                    lemma_slots_free_le_total(old(self).nodes@[k2].numas@[l].slots@.subrange(
                        0,
                        q,
                    ));
                    assert(nodes_free(old(self).nodes@.subrange(0, k2)) >= want);
                }
            }
        }
        got
    }
}

// Monotone change keeps the shape, so it keeps the slot totals.
pub proof fn lemma_numa_le_total(a: Numa, b: Numa)
    requires
        numa_le(a, b),
    ensures
        a.slots@.len() == b.slots@.len(),
{
}

pub proof fn lemma_node_le_total(a: Node, b: Node)
    requires
        node_le(a, b),
    ensures
        node_total(a) == node_total(b),
{
    lemma_numas_le_total(a.numas@, b.numas@);
}

pub proof fn lemma_numas_le_total(a: Seq<Numa>, b: Seq<Numa>)
    requires
        a.len() == b.len(),
        forall|l: int| 0 <= l < a.len() ==> numa_le(#[trigger] a[l], b[l]),
    ensures
        numas_total(a) == numas_total(b),
    decreases a.len(),
{
    if a.len() > 0 {
        assert(forall|l: int| 0 <= l < a.len() - 1 ==> a.drop_last()[l] == a[l]);
        assert(forall|l: int| 0 <= l < b.len() - 1 ==> b.drop_last()[l] == b[l]);
        lemma_numas_le_total(a.drop_last(), b.drop_last());
        assert(numa_le(a[a.len() - 1], b[b.len() - 1]));
    }
}

pub proof fn lemma_node_le_trans(a: Node, b: Node, c: Node)
    requires
        node_le(a, b),
        node_le(b, c),
    ensures
        node_le(a, c),
{
    assert forall|l: int| 0 <= l < a.numas@.len() implies numa_le(
        #[trigger] a.numas@[l],
        c.numas@[l],
    ) by {
        assert(numa_le(a.numas@[l], b.numas@[l]));
        assert(numa_le(b.numas@[l], c.numas@[l]));
        assert forall|i: int| 0 <= i < a.numas@[l].slots@.len() implies slot_le(
            #[trigger] a.numas@[l].slots@[i],
            c.numas@[l].slots@[i],
        ) by {
            assert(slot_le(a.numas@[l].slots@[i], b.numas@[l].slots@[i]));
            assert(slot_le(b.numas@[l].slots@[i], c.numas@[l].slots@[i]));
        }
    }
}

// ---------------------------------------------------------------------------
// Counting executables
// ---------------------------------------------------------------------------

/// Anything of the inventory tree that can say how many slots it holds.
pub trait CountChild {
    /// How many slots this element holds.
    spec fn spec_count(&self) -> nat;

    /// Executable count.
    fn count(&self) -> (r: i32)
        requires
            self.spec_count() <= i32::MAX as nat,
        ensures
            r as int == self.spec_count() as int,
    ;
}

impl CountChild for Slot {
    open spec fn spec_count(&self) -> nat {
        1
    }

    fn count(&self) -> (r: i32) {
        1
    }
}

impl CountChild for Numa {
    open spec fn spec_count(&self) -> nat {
        self.slots@.len()
    }

    fn count(&self) -> (r: i32) {
        self.slots.len() as i32
    }
}

impl CountChild for Node {
    open spec fn spec_count(&self) -> nat {
        node_total(*self)
    }

    fn count(&self) -> (r: i32) {
        let n: usize = self.numas.len();
        let mut l: usize = 0;
        let mut acc: i32 = 0;
        proof {
            assert(self.numas@.subrange(0, 0) =~= Seq::<Numa>::empty());
        }
        while l < n
            invariant
                0 <= l <= n,
                n == self.numas@.len(),
                node_total(*self) <= i32::MAX as nat,
                acc as int == numas_total(self.numas@.subrange(0, l as int)) as int,
            decreases n - l,
        {
            proof {
                lemma_numas_prefix(self.numas@, l as int);
                lemma_numas_total_prefix_le(self.numas@, l + 1);
            }
            let c: i32 = self.numas[l].count();
            acc = acc + c;
            l = l + 1;
        }
        proof {
            assert(self.numas@.subrange(0, n as int) =~= self.numas@);
        }
        acc
    }
}

impl CountChild for ProcMap {
    open spec fn spec_count(&self) -> nat {
        self.spec_total()
    }

    fn count(&self) -> (r: i32) {
        let n: usize = self.nodes.len();
        let mut k: usize = 0;
        let mut acc: i32 = 0;
        proof {
            assert(self.nodes@.subrange(0, 0) =~= Seq::<Node>::empty());
        }
        while k < n
            invariant
                0 <= k <= n,
                n == self.nodes@.len(),
                nodes_total(self.nodes@) <= i32::MAX as nat,
                acc as int == nodes_total(self.nodes@.subrange(0, k as int)) as int,
            decreases n - k,
        {
            proof {
                lemma_nodes_prefix(self.nodes@, k as int);
                lemma_nodes_total_prefix_le(self.nodes@, k + 1);
            }
            let c: i32 = self.nodes[k].count();
            acc = acc + c;
            k = k + 1;
        }
        proof {
            assert(self.nodes@.subrange(0, n as int) =~= self.nodes@);
        }
        acc
    }
}

impl Numa {
    /// How many slots of this domain are still free.
    pub fn free_count(&self) -> (r: usize)
        ensures
            r == numa_free(*self),
    {
        let n: usize = self.slots.len();
        let mut i: usize = 0;
        let mut acc: usize = 0;
        proof {
            assert(self.slots@.subrange(0, 0) =~= Seq::<Slot>::empty());
        }
        while i < n
            invariant
                0 <= i <= n,
                n == self.slots@.len(),
                acc <= i,
                acc == slots_free(self.slots@.subrange(0, i as int)),
            decreases n - i,
        {
            proof {
                lemma_slots_prefix(self.slots@, i as int);
            }
            if self.slots[i].job.is_none() {
                acc = acc + 1;
            }
            i = i + 1;
        }
        proof {
            assert(self.slots@.subrange(0, n as int) =~= self.slots@);
        }
        acc
    }
}

impl Node {
    /// How many slots of this node are still free.
    pub fn free_count(&self) -> (r: usize)
        requires
            node_total(*self) <= usize::MAX,
        ensures
            r == node_free(*self),
    {
        let n: usize = self.numas.len();
        let mut l: usize = 0;
        let mut acc: usize = 0;
        proof {
            assert(self.numas@.subrange(0, 0) =~= Seq::<Numa>::empty());
        }
        while l < n
            invariant
                0 <= l <= n,
                n == self.numas@.len(),
                node_total(*self) <= usize::MAX,
                acc == numas_free(self.numas@.subrange(0, l as int)),
            decreases n - l,
        {
            proof {
                lemma_numas_prefix(self.numas@, l as int);
                lemma_numas_free_prefix_le(self.numas@, l + 1);
                lemma_numas_free_le_total(self.numas@);
            }
            let c: usize = self.numas[l].free_count();
            acc = acc + c;
            l = l + 1;
        }
        proof {
            assert(self.numas@.subrange(0, n as int) =~= self.numas@);
        }
        acc
    }
}

impl ProcMap {
    /// How many slots of the whole inventory are still free.
    pub fn count_free_slots(&self) -> (r: usize)
        requires
            self.spec_total() <= usize::MAX,
        ensures
            r == self.spec_free(),
    {
        let n: usize = self.nodes.len();
        let mut k: usize = 0;
        let mut acc: usize = 0;
        proof {
            assert(self.nodes@.subrange(0, 0) =~= Seq::<Node>::empty());
        }
        while k < n
            invariant
                0 <= k <= n,
                n == self.nodes@.len(),
                nodes_total(self.nodes@) <= usize::MAX,
                acc == nodes_free(self.nodes@.subrange(0, k as int)),
            decreases n - k,
        {
            proof {
                lemma_nodes_prefix(self.nodes@, k as int);
                lemma_nodes_free_prefix_le(self.nodes@, k + 1);
                lemma_nodes_free_le_total(self.nodes@);
                lemma_nodes_total_prefix_le(self.nodes@, k + 1);
            }
            let c: usize = self.nodes[k].free_count();
            acc = acc + c;
            k = k + 1;
        }
        proof {
            assert(self.nodes@.subrange(0, n as int) =~= self.nodes@);
        }
        acc
    }

    /// The node positions of the inventory, in walk order.
    pub fn each_node(&self) -> (v: Vec<usize>)
        ensures
            v@.len() == self.nodes@.len(),
            forall|t: int| 0 <= t < v@.len() ==> v@[t] == t,
    {
        let n: usize = self.nodes.len();
        let mut v: Vec<usize> = Vec::new();
        let mut k: usize = 0;
        while k < n
            invariant
                0 <= k <= n,
                v@.len() == k,
                forall|t: int| 0 <= t < k ==> v@[t] == t,
            decreases n - k,
        {
            v.push(k);
            k = k + 1;
        }
        v
    }

    /// The NUMA positions of the inventory, as pairs of node index and
    /// domain index, in walk order: every domain appears exactly once.
    pub fn each_numa(&self) -> (v: Vec<(usize, usize)>)
        ensures
            forall|t: int| 0 <= t < v@.len() ==> (#[trigger] v@[t]).0 < self.nodes@.len()
                && v@[t].1 < self.nodes@[v@[t].0 as int].numas@.len(),
            forall|t1: int, t2: int| 0 <= t1 < t2 < v@.len() ==> (v@[t1].0 < v@[t2].0 || (
            v@[t1].0 == v@[t2].0 && v@[t1].1 < v@[t2].1)),
            forall|k: int, l: int| 0 <= k < self.nodes@.len() && 0 <= l < self.nodes@[
                k].numas@.len() ==> #[trigger] pair_in(v@, k, l),
    {
        let n: usize = self.nodes.len();
        let mut v: Vec<(usize, usize)> = Vec::new();
        let mut k: usize = 0;
        while k < n
            invariant
                0 <= k <= n,
                n == self.nodes@.len(),
                forall|t: int| 0 <= t < v@.len() ==> (#[trigger] v@[t]).0 < k && v@[t].1
                    < self.nodes@[v@[t].0 as int].numas@.len(),
                forall|t1: int, t2: int| 0 <= t1 < t2 < v@.len() ==> (v@[t1].0 < v@[t2].0 || (
                v@[t1].0 == v@[t2].0 && v@[t1].1 < v@[t2].1)),
                forall|k2: int, l2: int| 0 <= k2 < k && 0 <= l2 < self.nodes@[
                    k2].numas@.len() ==> #[trigger] pair_in(v@, k2, l2),
            decreases n - k,
        {
            let m: usize = self.nodes[k].numas.len();
            let mut l: usize = 0;
            while l < m
                invariant
                    0 <= l <= m,
                    0 <= k < n,
                    n == self.nodes@.len(),
                    m == self.nodes@[k as int].numas@.len(),
                    forall|t: int| 0 <= t < v@.len() ==> ((#[trigger] v@[t]).0 < k || (v@[t].0
                        == k && v@[t].1 < l)) && v@[t].0 < self.nodes@.len() && v@[t].1
                        < self.nodes@[v@[t].0 as int].numas@.len(),
                    forall|t1: int, t2: int| 0 <= t1 < t2 < v@.len() ==> (v@[t1].0 < v@[t2].0 || (
                    v@[t1].0 == v@[t2].0 && v@[t1].1 < v@[t2].1)),
                    forall|k2: int, l2: int| 0 <= k2 < k && 0 <= l2 < self.nodes@[
                        k2].numas@.len() ==> #[trigger] pair_in(v@, k2, l2),
                    forall|l2: int| 0 <= l2 < l ==> #[trigger] pair_in(v@, k as int, l2),
                decreases m - l,
            {
                let ghost vold = v@;
                v.push((k, l));
                proof {
                    assert(v@[v@.len() - 1] == (k, l));
                    assert forall|k2: int, l2: int| 0 <= k2 < k && 0 <= l2 < self.nodes@[
                        k2].numas@.len() implies #[trigger] pair_in(v@, k2, l2) by {
                        assert(pair_in(vold, k2, l2));
                        let t0 = choose|t: int|
                            0 <= t < vold.len() && vold[t].0 == k2 && vold[t].1 == l2;
                        assert(v@[t0].0 == k2 && v@[t0].1 == l2);
                    }
                    assert forall|l2: int| 0 <= l2 < l + 1 implies #[trigger] pair_in(
                        v@,
                        k as int,
                        l2,
                    ) by {
                        if l2 < l {
                            assert(pair_in(vold, k as int, l2));
                            let t0 = choose|t: int|
                                0 <= t < vold.len() && vold[t].0 == k as int && vold[t].1 == l2;
                            assert(v@[t0].0 == k as int && v@[t0].1 == l2);
                        } else {
                            assert(v@[v@.len() - 1] == (k, l));
                            assert(v@[v@.len() - 1].0 == k as int && v@[v@.len() - 1].1 == l2);
                        }
                    }
                }
                l = l + 1;
            }
            k = k + 1;
        }
        v
    }

    /// The slot positions of the inventory, as triples of node, domain and
    /// slot index, in walk order: every slot appears exactly once.
    pub fn each_slot(&self) -> (v: Vec<(usize, usize, usize)>)
        ensures
            forall|t: int| 0 <= t < v@.len() ==> (#[trigger] v@[t]).0 < self.nodes@.len()
                && v@[t].1 < self.nodes@[v@[t].0 as int].numas@.len() && v@[t].2 < self.nodes@[
                v@[t].0 as int].numas@[v@[t].1 as int].slots@.len(),
            forall|t1: int, t2: int| 0 <= t1 < t2 < v@.len() ==> trip_lt(v@[t1], v@[t2]),
            forall|k: int, l: int, i: int| 0 <= k < self.nodes@.len() && 0 <= l < self.nodes@[
                k].numas@.len() && 0 <= i < self.nodes@[k].numas@[l].slots@.len()
                ==> #[trigger] trip_in(v@, k, l, i),
    {
        let n: usize = self.nodes.len();
        let mut v: Vec<(usize, usize, usize)> = Vec::new();
        let mut k: usize = 0;
        while k < n
            invariant
                0 <= k <= n,
                n == self.nodes@.len(),
                forall|t: int| 0 <= t < v@.len() ==> (#[trigger] v@[t]).0 < k && v@[t].1
                    < self.nodes@[v@[t].0 as int].numas@.len() && v@[t].2 < self.nodes@[
                    v@[t].0 as int].numas@[v@[t].1 as int].slots@.len(),
                forall|t1: int, t2: int| 0 <= t1 < t2 < v@.len() ==> trip_lt(v@[t1], v@[t2]),
                forall|k2: int, l2: int, i2: int| 0 <= k2 < k && 0 <= l2 < self.nodes@[
                    k2].numas@.len() && 0 <= i2 < self.nodes@[k2].numas@[l2].slots@.len()
                    ==> #[trigger] trip_in(v@, k2, l2, i2),
            decreases n - k,
        {
            let m: usize = self.nodes[k].numas.len();
            let mut l: usize = 0;
            while l < m
                invariant
                    0 <= l <= m,
                    0 <= k < n,
                    n == self.nodes@.len(),
                    m == self.nodes@[k as int].numas@.len(),
                    forall|t: int| 0 <= t < v@.len() ==> ((#[trigger] v@[t]).0 < k || (v@[t].0
                        == k && v@[t].1 < l)) && v@[t].0 < self.nodes@.len() && v@[t].1
                        < self.nodes@[v@[t].0 as int].numas@.len() && v@[t].2 < self.nodes@[
                        v@[t].0 as int].numas@[v@[t].1 as int].slots@.len(),
                    forall|t1: int, t2: int| 0 <= t1 < t2 < v@.len() ==> trip_lt(v@[t1], v@[t2]),
                    forall|k2: int, l2: int, i2: int| 0 <= k2 < k && 0 <= l2 < self.nodes@[
                        k2].numas@.len() && 0 <= i2 < self.nodes@[k2].numas@[l2].slots@.len()
                        ==> #[trigger] trip_in(v@, k2, l2, i2),
                    forall|l2: int, i2: int| 0 <= l2 < l && 0 <= i2 < self.nodes@[
                        k as int].numas@[l2].slots@.len() ==> #[trigger] trip_in(
                    v@, k as int, l2, i2),
                decreases m - l,
            {
                let w: usize = self.nodes[k].numas[l].slots.len();
                let mut i: usize = 0;
                while i < w
                    invariant
                        0 <= i <= w,
                        0 <= l < m,
                        0 <= k < n,
                        n == self.nodes@.len(),
                        m == self.nodes@[k as int].numas@.len(),
                        w == self.nodes@[k as int].numas@[l as int].slots@.len(),
                        forall|t: int| 0 <= t < v@.len() ==> ((#[trigger] v@[t]).0 < k || (
                        v@[t].0 == k && v@[t].1 < l) || (v@[t].0 == k && v@[t].1 == l && v@[t].2
                            < i)) && v@[t].0 < self.nodes@.len() && v@[t].1 < self.nodes@[
                        v@[t].0 as int].numas@.len() && v@[t].2 < self.nodes@[
                        v@[t].0 as int].numas@[v@[t].1 as int].slots@.len(),
                        forall|t1: int, t2: int| 0 <= t1 < t2 < v@.len() ==> trip_lt(
                        v@[t1], v@[t2]),
                        forall|k2: int, l2: int, i2: int| 0 <= k2 < k && 0 <= l2 < self.nodes@[
                            k2].numas@.len() && 0 <= i2 < self.nodes@[k2].numas@[
                            l2].slots@.len() ==> #[trigger] trip_in(v@, k2, l2, i2),
                        forall|l2: int, i2: int| 0 <= l2 < l && 0 <= i2 < self.nodes@[
                            k as int].numas@[l2].slots@.len() ==> #[trigger] trip_in(
                        v@, k as int, l2, i2),
                        forall|i2: int| 0 <= i2 < i ==> #[trigger] trip_in(
                        v@, k as int, l as int, i2),
                    decreases w - i,
                {
                    let ghost vold = v@;
                    v.push((k, l, i));
                    proof {
                        assert(v@[v@.len() - 1] == (k, l, i));
                        assert forall|k2: int, l2: int, i2: int| 0 <= k2 < k && 0 <= l2
                            < self.nodes@[k2].numas@.len() && 0 <= i2 < self.nodes@[k2].numas@[
                            l2].slots@.len() implies #[trigger] trip_in(v@, k2, l2, i2) by {
                            assert(trip_in(vold, k2, l2, i2));
                            let t0 = choose|t: int|
                                0 <= t < vold.len() && vold[t].0 == k2 && vold[t].1 == l2
                                    && vold[t].2 == i2;
                            assert(v@[t0].0 == k2 && v@[t0].1 == l2 && v@[t0].2 == i2);
                        }
                        assert forall|l2: int, i2: int| 0 <= l2 < l && 0 <= i2 < self.nodes@[
                            k as int].numas@[l2].slots@.len() implies #[trigger] trip_in(
                            v@,
                            k as int,
                            l2,
                            i2,
                        ) by {
                            assert(trip_in(vold, k as int, l2, i2));
                            let t0 = choose|t: int|
                                0 <= t < vold.len() && vold[t].0 == k as int && vold[t].1 == l2
                                    && vold[t].2 == i2;
                            assert(v@[t0].0 == k as int && v@[t0].1 == l2 && v@[t0].2 == i2);
                        }
                        assert forall|i2: int| 0 <= i2 < i + 1 implies #[trigger] trip_in(
                            v@,
                            k as int,
                            l as int,
                            i2,
                        ) by {
                            if i2 < i {
                                assert(trip_in(vold, k as int, l as int, i2));
                                let t0 = choose|t: int|
                                    0 <= t < vold.len() && vold[t].0 == k as int && vold[t].1
                                        == l as int && vold[t].2 == i2;
                                assert(v@[t0].0 == k as int && v@[t0].1 == l as int && v@[t0].2
                                    == i2);
                            } else {
                                assert(v@[v@.len() - 1] == (k, l, i));
                                assert(v@[v@.len() - 1].0 == k as int && v@[v@.len() - 1].1
                                    == l as int && v@[v@.len() - 1].2 == i2);
                            }
                        }
                    }
                    i = i + 1;
                }
                l = l + 1;
            }
            k = k + 1;
        }
        v
    }
}

/// Strict walk order on slot positions: node-major, then domain, then slot.
pub open spec fn trip_lt(a: (usize, usize, usize), b: (usize, usize, usize)) -> bool {
    a.0 < b.0 || (a.0 == b.0 && a.1 < b.1) || (a.0 == b.0 && a.1 == b.1 && a.2 < b.2)
}

/// The pair stands somewhere in the list.
pub open spec fn pair_in(v: Seq<(usize, usize)>, k: int, l: int) -> bool {
    exists|t: int| 0 <= t < v.len() && v[t].0 == k && v[t].1 == l
}

/// The triple stands somewhere in the list.
pub open spec fn trip_in(v: Seq<(usize, usize, usize)>, k: int, l: int, i: int) -> bool {
    exists|t: int| 0 <= t < v.len() && v[t].0 == k && v[t].1 == l && v[t].2 == i
}


// ---------------------------------------------------------------------------
// Inventory build
// ---------------------------------------------------------------------------

/// How many slots a run of probe reports contributes: one per NUMA entry.
pub open spec fn reports_total(rs: Seq<JobDesc>) -> nat
    decreases rs.len(),
{
    if rs.len() == 0 {
        0
    } else {
        reports_total(rs.drop_last()) + rs.last().numa@.len()
    }
}

pub proof fn lemma_reports_prefix(rs: Seq<JobDesc>, i: int)
    requires
        0 <= i < rs.len(),
    ensures
        reports_total(rs.subrange(0, i + 1)) == reports_total(rs.subrange(0, i))
            + rs[i].numa@.len(),
{
    assert(rs.subrange(0, i + 1).drop_last() =~= rs.subrange(0, i));
    assert(rs.subrange(0, i + 1).last() == rs[i]);
}

impl Node {
    /// Well-formed: NUMA OS indices are unique within the node.
    pub open spec fn wf(self) -> bool {
        forall|l1: int, l2: int| 0 <= l1 < l2 < self.numas@.len() ==> (
        #[trigger] self.numas@[l1]).id != (#[trigger] self.numas@[l2]).id
    }

    /// The index of the domain with the given OS index, appending an empty
    /// domain when none exists yet.
    fn find_or_add_numa(&mut self, id: usize) -> (l: usize)
        requires
            old(self).wf(),
        ensures
            final(self).wf(),
            l < final(self).numas@.len(),
            final(self).numas@[l as int].id == id,
            final(self).host == old(self).host,
            forall|q: int| 0 <= q < old(self).numas@.len() ==> final(self).numas@[q] == old(self).numas@[q],
            final(self).numas@ == old(self).numas@ || (final(self).numas@.len() == old(self).numas@.len() + 1 && l == old(self).numas@.len() && final(self).numas@[
                l as int].slots@.len() == 0),
            node_free(*final(self)) == node_free(*old(self)),
            node_total(*final(self)) == node_total(*old(self)),
            forall|j: u32| node_job(*final(self), j) == node_job(*old(self), j),
    {
        let n: usize = self.numas.len();
        let mut l: usize = 0;
        while l < n
            invariant
                0 <= l <= n,
                n == self.numas@.len(),
                *self == *old(self),
                old(self).wf(),
                forall|q: int| 0 <= q < l ==> (#[trigger] self.numas@[q]).id != id,
            decreases n - l,
        {
            if self.numas[l].id == id {
                proof {
                    assert(*self == *old(self));
                    assert(old(self).wf());
                }
                return l;
            }
            l = l + 1;
        }
        let ghost numas0 = self.numas@;
        self.numas.push(Numa { id, slots: Vec::new() });
        proof {
            assert(self.numas@.drop_last() =~= numas0);
            assert(self.numas@.last().slots@ =~= Seq::<Slot>::empty());
            assert forall|j: u32| numas_job(self.numas@, j) == numas_job(numas0, j) by {
                assert(slots_job(self.numas@.last().slots@, j) == 0);
            }
        }
        n
    }
}

/// The slot a report's NUMA entry contributes is in the inventory: under a
/// node with the report's host, in a domain with the entry's OS index, with
/// the report's rank and the entry's PU list.
pub open spec fn report_slot_present(pm: ProcMap, rep: JobDesc, t: int) -> bool {
    exists|k: int, l: int, i: int|
        0 <= k < pm.nodes@.len() && 0 <= l < pm.nodes@[k].numas@.len() && 0 <= i < pm.nodes@[
            k].numas@[l].slots@.len() && pm.nodes@[k].host@ == rep.host@ && (
        #[trigger] pm.nodes@[k].numas@[l].slots@[i]).rank == rep.rank && pm.nodes@[
            k].numas@[l].id == rep.numa@[t] && pm.nodes@[k].numas@[l].slots@[i].pu@ == rep.pu@[
            t]@
}

impl ProcMap {
    /// Well-formed: host names are unique and every node is well-formed.
    pub open spec fn wf(self) -> bool {
        &&& forall|k1: int, k2: int| 0 <= k1 < k2 < self.nodes@.len() ==> (
        #[trigger] self.nodes@[k1]).host@ != (#[trigger] self.nodes@[k2]).host@
        &&& forall|k: int| 0 <= k < self.nodes@.len() ==> (#[trigger] self.nodes@[k]).wf()
    }

    /// The index of the node with the given host name, appending an empty
    /// node when none exists yet.
    fn find_or_add_node(&mut self, host: &String) -> (k: usize)
        requires
            old(self).wf(),
        ensures
            final(self).wf(),
            k < final(self).nodes@.len(),
            final(self).nodes@[k as int].host@ == host@,
            forall|q: int| 0 <= q < old(self).nodes@.len() ==> final(self).nodes@[q] == old(self).nodes@[q],
            final(self).nodes@ == old(self).nodes@ || (final(self).nodes@.len() == old(self).nodes@.len() + 1 && k == old(self).nodes@.len() && final(self).nodes@[
                k as int].numas@.len() == 0),
            final(self).spec_free() == old(self).spec_free(),
            final(self).spec_total() == old(self).spec_total(),
            forall|j: u32| final(self).spec_job(j) == old(self).spec_job(j),
    {
        let n: usize = self.nodes.len();
        let mut k: usize = 0;
        while k < n
            invariant
                0 <= k <= n,
                n == self.nodes@.len(),
                *self == *old(self),
                old(self).wf(),
                forall|q: int| 0 <= q < k ==> (#[trigger] self.nodes@[q]).host@ != host@,
            decreases n - k,
        {
            if string_eq(&self.nodes[k].host, host) {
                proof {
                    assert(*self == *old(self));
                    assert(old(self).wf());
                }
                return k;
            }
            k = k + 1;
        }
        let ghost nodes0 = self.nodes@;
        self.nodes.push(Node { host: host.clone(), numas: Vec::new() });
        proof {
            assert(self.nodes@.drop_last() =~= nodes0);
            assert(self.nodes@.last().numas@ =~= Seq::<Numa>::empty());
            assert forall|j: u32| nodes_job(self.nodes@, j) == nodes_job(nodes0, j) by {
                assert(numas_job(self.nodes@.last().numas@, j) == 0);
            }
        }
        n
    }

    /// Build the inventory out of the probe reports, in receipt order: each
    /// report contributes one free slot per NUMA entry, under its host's
    /// node and the entry's domain.
    pub fn init(reports: &Vec<JobDesc>) -> (pm: ProcMap)
        requires
            forall|r: int| 0 <= r < reports@.len() ==> (#[trigger] reports@[r]).wf(),
            reports_total(reports@) <= i32::MAX as nat,
        ensures
            pm.wf(),
            pm.spec_total() == reports_total(reports@),
            pm.spec_free() == pm.spec_total(),
            forall|j: u32| pm.spec_job(j) == 0,
            forall|r: int, t: int|
                0 <= r < reports@.len() && 0 <= t < reports@[r].numa@.len()
                    ==> #[trigger] report_slot_present(pm, reports@[r], t),
            forall|k: int| 0 <= k < pm.nodes@.len() ==> exists|r: int|
                0 <= r < reports@.len() && (#[trigger] pm.nodes@[k]).host@ == reports@[r].host@,
            forall|k: int, l: int|
                0 <= k < pm.nodes@.len() && 0 <= l < pm.nodes@[k].numas@.len() ==> exists|
                    r: int,
                    t2: int,
                |
                    0 <= r < reports@.len() && 0 <= t2 < reports@[r].numa@.len() && (
                    #[trigger] pm.nodes@[k].numas@[l]).id == reports@[r].numa@[t2]
                        && pm.nodes@[k].host@ == reports@[r].host@,
    {
        let mut pm = ProcMap { nodes: Vec::new() };
        proof {
            assert(pm.nodes@ =~= Seq::<Node>::empty());
            assert(reports@.subrange(0, 0) =~= Seq::<JobDesc>::empty());
        }
        let nr: usize = reports.len();
        let mut r: usize = 0;
        while r < nr
            invariant
                0 <= r <= nr,
                nr == reports@.len(),
                forall|q: int| 0 <= q < reports@.len() ==> (#[trigger] reports@[q]).wf(),
                reports_total(reports@) <= i32::MAX as nat,
                pm.wf(),
                pm.spec_total() == reports_total(reports@.subrange(0, r as int)),
                pm.spec_free() == pm.spec_total(),
                forall|j: u32| pm.spec_job(j) == 0,
                forall|r2: int, t2: int|
                    0 <= r2 < r && 0 <= t2 < reports@[r2].numa@.len()
                        ==> #[trigger] report_slot_present(pm, reports@[r2], t2),
                forall|k: int| 0 <= k < pm.nodes@.len() ==> exists|r2: int|
                    0 <= r2 < nr && (#[trigger] pm.nodes@[k]).host@ == reports@[r2].host@,
                forall|k: int, l: int|
                    0 <= k < pm.nodes@.len() && 0 <= l < pm.nodes@[k].numas@.len() ==> exists|
                        r2: int,
                        t2: int,
                    |
                        0 <= r2 < nr && 0 <= t2 < reports@[r2].numa@.len() && (
                        #[trigger] pm.nodes@[k].numas@[l]).id == reports@[r2].numa@[t2]
                            && pm.nodes@[k].host@ == reports@[r2].host@,
            decreases nr - r,
        {
            let cnt: usize = reports[r].numa.len();
            let mut tpos: usize = 0;
            proof {
                lemma_reports_prefix(reports@, r as int);
            }
            while tpos < cnt
                invariant
                    0 <= tpos <= cnt,
                    0 <= r < nr,
                    nr == reports@.len(),
                    forall|q: int| 0 <= q < reports@.len() ==> (#[trigger] reports@[q]).wf(),
                    cnt == reports@[r as int].numa@.len(),
                    reports_total(reports@) <= i32::MAX as nat,
                    reports_total(reports@.subrange(0, r + 1)) == reports_total(
                        reports@.subrange(0, r as int),
                    ) + cnt,
                    pm.wf(),
                    pm.spec_total() == reports_total(reports@.subrange(0, r as int)) + tpos,
                    pm.spec_free() == pm.spec_total(),
                    forall|j: u32| pm.spec_job(j) == 0,
                    forall|r2: int, t2: int|
                        0 <= r2 < r && 0 <= t2 < reports@[r2].numa@.len()
                            ==> #[trigger] report_slot_present(pm, reports@[r2], t2),
                    forall|t2: int| 0 <= t2 < tpos ==> #[trigger] report_slot_present(
                        pm,
                        reports@[r as int],
                        t2,
                    ),
                    forall|k: int| 0 <= k < pm.nodes@.len() ==> exists|r2: int|
                        0 <= r2 < nr && (#[trigger] pm.nodes@[k]).host@ == reports@[r2].host@,
                    forall|k: int, l: int|
                        0 <= k < pm.nodes@.len() && 0 <= l < pm.nodes@[k].numas@.len()
                            ==> exists|r2: int, t2: int|
                            0 <= r2 < nr && 0 <= t2 < reports@[r2].numa@.len() && (
                            #[trigger] pm.nodes@[k].numas@[l]).id == reports@[r2].numa@[t2]
                                && pm.nodes@[k].host@ == reports@[r2].host@,
                decreases cnt - tpos,
            {
                let ghost pm0 = pm;
                let host: String = reports[r].host.clone();
                let rank: i32 = reports[r].rank;
                let numa_id: usize = reports[r].numa[tpos];
                let pu: Vec<usize> = copy_indices(&reports[r].pu[tpos]);
                let ghost pu_snapshot = pu;
                let k: usize = pm.find_or_add_node(&host);
                let ghost pm1 = pm;
                let node: &mut Node = &mut pm.nodes[k];
                let ghost node0 = *node;
                let l: usize = node.find_or_add_numa(numa_id);
                let ghost node1 = *node;
                let numa: &mut Numa = &mut node.numas[l];
                let ghost numa0 = *numa;
                numa.slots.push(Slot { rank, pu, job: None });
                proof {
                    // slot level: one more free slot, no owner anywhere
                    assert(numa.slots@.drop_last() =~= numa0.slots@);
                    assert(numa_free(*numa) == numa_free(numa0) + 1);
                    assert forall|j: u32| numa_job(*numa, j) == numa_job(numa0, j) by {
                        assert(job01(numa.slots@.last(), j) == 0);
                    }
                    // numa level
                    lemma_numas_update(node1.numas@, l as int, *numa);
                    // node level
                    lemma_nodes_update(pm1.nodes@, k as int, *node);
                    assert forall|j: u32| pm.spec_job(j) == 0 by {
                        assert(numa_job(*numa, j) == numa_job(numa0, j));
                        assert(numas_job(node.numas@, j) + numa_job(node1.numas@[l as int], j)
                            == numas_job(node1.numas@, j) + numa_job(*numa, j));
                        assert(node_job(node1, j) == node_job(node0, j));
                        assert(nodes_job(pm.nodes@, j) + node_job(pm1.nodes@[k as int], j)
                            == nodes_job(pm1.nodes@, j) + node_job(*node, j));
                        assert(pm1.spec_job(j) == 0);
                    }
                    // well-formedness: ids and hosts untouched
                    assert forall|k2: int| 0 <= k2 < pm.nodes@.len() implies (
                    #[trigger] pm.nodes@[k2]).wf() by {
                        if k2 == k {
                            assert forall|l1: int, l2: int| 0 <= l1 < l2
                                < pm.nodes@[k2].numas@.len() implies (
                            #[trigger] pm.nodes@[k2].numas@[l1]).id != (
                            #[trigger] pm.nodes@[k2].numas@[l2]).id by {
                                assert(pm.nodes@[k2].numas@[l1].id == node1.numas@[l1].id);
                                assert(pm.nodes@[k2].numas@[l2].id == node1.numas@[l2].id);
                                assert(node1.wf());
                            }
                        } else {
                            assert(pm.nodes@[k2] == pm1.nodes@[k2]);
                        }
                    }
                    assert forall|k1: int, k2: int| 0 <= k1 < k2 < pm.nodes@.len() implies (
                    #[trigger] pm.nodes@[k1]).host@ != (#[trigger] pm.nodes@[k2]).host@ by {
                        assert(pm.nodes@[k1].host@ == pm1.nodes@[k1].host@);
                        assert(pm.nodes@[k2].host@ == pm1.nodes@[k2].host@);
                    }
                    // every container present came out of some report
                    assert forall|k2: int| 0 <= k2 < pm.nodes@.len() implies exists|r2: int|
                        0 <= r2 < nr && (#[trigger] pm.nodes@[k2]).host@
                            == reports@[r2].host@ by {
                        assert(pm.nodes@[k2].host@ == pm1.nodes@[k2].host@);
                        if k2 < pm0.nodes@.len() {
                            assert(pm1.nodes@[k2] == pm0.nodes@[k2]);
                            let r2 = choose|r2: int|
                                0 <= r2 < nr && pm0.nodes@[k2].host@ == reports@[r2].host@;
                            assert(pm.nodes@[k2].host@ == reports@[r2].host@);
                        } else {
                            assert(pm1.nodes@[k2].host@ == host@);
                            assert(pm.nodes@[k2].host@ == reports@[r as int].host@);
                        }
                    }
                    assert forall|k2: int, l2: int|
                        0 <= k2 < pm.nodes@.len() && 0 <= l2
                            < pm.nodes@[k2].numas@.len() implies exists|r2: int, t2: int|
                        0 <= r2 < nr && 0 <= t2 < reports@[r2].numa@.len() && (
                        #[trigger] pm.nodes@[k2].numas@[l2]).id == reports@[r2].numa@[t2]
                            && pm.nodes@[k2].host@ == reports@[r2].host@ by {
                        if k2 != k {
                            assert(pm.nodes@[k2] == pm1.nodes@[k2]);
                            if k2 < pm0.nodes@.len() {
                                assert(pm1.nodes@[k2] == pm0.nodes@[k2]);
                                let (r2, t2) = choose|r2: int, t2: int|
                                    0 <= r2 < nr && 0 <= t2 < reports@[r2].numa@.len()
                                        && pm0.nodes@[k2].numas@[l2].id == reports@[r2].numa@[
                                        t2] && pm0.nodes@[k2].host@ == reports@[r2].host@;
                                assert(pm.nodes@[k2].numas@[l2].id == reports@[r2].numa@[t2]
                                    && pm.nodes@[k2].host@ == reports@[r2].host@);
                            } else {
                                assert(pm1.nodes@[k2].numas@.len() == 0);
                            }
                        } else {
                            assert(pm.nodes@[k2].host@ == pm1.nodes@[k2].host@);
                            assert(pm.nodes@[k2].numas@[l2].id == node1.numas@[l2].id);
                            if l2 < node0.numas@.len() {
                                assert(node1.numas@[l2] == node0.numas@[l2]);
                                assert(pm1.nodes@[k2] == node0);
                                if k2 < pm0.nodes@.len() {
                                    assert(pm0.nodes@[k2] == node0);
                                    let (r2, t2) = choose|r2: int, t2: int|
                                        0 <= r2 < nr && 0 <= t2 < reports@[r2].numa@.len()
                                            && pm0.nodes@[k2].numas@[l2].id == reports@[
                                            r2].numa@[t2] && pm0.nodes@[k2].host@ == reports@[
                                            r2].host@;
                                    assert(pm.nodes@[k2].numas@[l2].id == reports@[r2].numa@[
                                        t2] && pm.nodes@[k2].host@ == reports@[r2].host@);
                                } else {
                                    assert(node0.numas@.len() == 0);
                                }
                            } else {
                                assert(node1.numas@[l2].id == numa_id);
                                assert(pm.nodes@[k2].numas@[l2].id == reports@[
                                    r as int].numa@[tpos as int] && pm.nodes@[k2].host@
                                    == reports@[r as int].host@);
                            }
                        }
                    }
                    // the places that existed before this step are untouched
                    assert forall|k2: int, l2: int, i2: int|
                        0 <= k2 < pm0.nodes@.len() && 0 <= l2 < pm0.nodes@[k2].numas@.len() && 0
                            <= i2 < pm0.nodes@[k2].numas@[l2].slots@.len() implies 0 <= k2
                        < pm.nodes@.len() && 0 <= l2 < pm.nodes@[k2].numas@.len() && 0 <= i2
                        < pm.nodes@[k2].numas@[l2].slots@.len() && pm.nodes@[k2].host@
                        == pm0.nodes@[k2].host@ && pm.nodes@[k2].numas@[l2].id == pm0.nodes@[
                        k2].numas@[l2].id && (#[trigger] pm.nodes@[k2].numas@[l2].slots@[i2])
                        == pm0.nodes@[k2].numas@[l2].slots@[i2] by {
                        if k2 != k {
                            assert(pm.nodes@[k2] == pm1.nodes@[k2]);
                            assert(pm1.nodes@[k2] == pm0.nodes@[k2]);
                        } else {
                            assert(pm1.nodes@[k2] == node0);
                            if l2 != l {
                                assert(pm.nodes@[k2].numas@[l2] == node1.numas@[l2]);
                                assert(node1.numas@[l2] == node0.numas@[l2]);
                            } else {
                                assert(pm.nodes@[k2].numas@[l2].id == node1.numas@[l2].id);
                                assert(node1.numas@[l2].id == node0.numas@[l2].id);
                                assert(pm.nodes@[k2].numas@[l2].slots@[i2] == node1.numas@[
                                    l2].slots@[i2]);
                                assert(node1.numas@[l2].slots@[i2] == node0.numas@[l2].slots@[
                                    i2]);
                            }
                        }
                    }
                    assert forall|r2: int, t2: int|
                        0 <= r2 < r && 0 <= t2 < reports@[r2].numa@.len() implies
                        #[trigger] report_slot_present(pm, reports@[r2], t2) by {
                        assert(report_slot_present(pm0, reports@[r2], t2));
                        let (k2, l2, i2) = choose|k2: int, l2: int, i2: int|
                            0 <= k2 < pm0.nodes@.len() && 0 <= l2 < pm0.nodes@[
                                k2].numas@.len() && 0 <= i2 < pm0.nodes@[k2].numas@[
                                l2].slots@.len() && pm0.nodes@[k2].host@ == reports@[r2].host@
                                && (#[trigger] pm0.nodes@[k2].numas@[l2].slots@[i2]).rank
                                == reports@[r2].rank && pm0.nodes@[k2].numas@[l2].id
                                == reports@[r2].numa@[t2] && pm0.nodes@[k2].numas@[l2].slots@[
                                i2].pu@ == reports@[r2].pu@[t2]@;
                        assert(pm.nodes@[k2].numas@[l2].slots@[i2] == pm0.nodes@[k2].numas@[
                            l2].slots@[i2]);
                    }
                    assert forall|t2: int| 0 <= t2 < tpos + 1 implies
                        #[trigger] report_slot_present(pm, reports@[r as int], t2) by {
                        if t2 < tpos {
                            assert(report_slot_present(pm0, reports@[r as int], t2));
                            let (k2, l2, i2) = choose|k2: int, l2: int, i2: int|
                                0 <= k2 < pm0.nodes@.len() && 0 <= l2 < pm0.nodes@[
                                    k2].numas@.len() && 0 <= i2 < pm0.nodes@[k2].numas@[
                                    l2].slots@.len() && pm0.nodes@[k2].host@ == reports@[
                                    r as int].host@ && (#[trigger] pm0.nodes@[k2].numas@[
                                    l2].slots@[i2]).rank == reports@[r as int].rank
                                    && pm0.nodes@[k2].numas@[l2].id == reports@[r as int].numa@[
                                    t2] && pm0.nodes@[k2].numas@[l2].slots@[i2].pu@ == reports@[
                                    r as int].pu@[t2]@;
                            assert(pm.nodes@[k2].numas@[l2].slots@[i2] == pm0.nodes@[k2].numas@[
                                l2].slots@[i2]);
                        } else {
                            let iw = pm.nodes@[k as int].numas@[l as int].slots@.len() - 1;
                            assert(pm.nodes@[k as int].numas@[l as int].slots@[iw].rank
                                == reports@[r as int].rank);
                            assert(pm.nodes@[k as int].numas@[l as int].slots@[iw].pu@
                                == reports@[r as int].pu@[t2]@);
                            assert(pm.nodes@[k as int].numas@[l as int].id == reports@[
                                r as int].numa@[t2]);
                            assert(pm.nodes@[k as int].host@ == reports@[r as int].host@);
                        }
                    }
                }
                tpos = tpos + 1;
            }
            proof {
                assert(pm.spec_total() == reports_total(reports@.subrange(0, r + 1)));
            }
            r = r + 1;
        }
        proof {
            assert(reports@.subrange(0, nr as int) =~= reports@);
            assert forall|k: int, l: int|
                0 <= k < pm.nodes@.len() && 0 <= l < pm.nodes@[k].numas@.len() implies exists|
                r: int,
                t2: int,
            |
                0 <= r < reports@.len() && 0 <= t2 < reports@[r].numa@.len() && (
                #[trigger] pm.nodes@[k].numas@[l]).id == reports@[r].numa@[t2]
                    && pm.nodes@[k].host@ == reports@[r].host@ by {
                let (r2, t2) = choose|r2: int, t2: int|
                    0 <= r2 < nr && 0 <= t2 < reports@[r2].numa@.len() && pm.nodes@[k].numas@[
                        l].id == reports@[r2].numa@[t2] && pm.nodes@[k].host@ == reports@[
                        r2].host@;
                assert(0 <= r2 < reports@.len() && 0 <= t2 < reports@[r2].numa@.len()
                    && pm.nodes@[k].numas@[l].id == reports@[r2].numa@[t2] && pm.nodes@[
                    k].host@ == reports@[r2].host@);
            }
        }
        pm
    }
}

/// Character-for-character equality of two host names.
fn string_eq(a: &String, b: &String) -> (r: bool)
    ensures
        r == (a@ == b@),
{
    let x: &String = a;
    let y: &String = b;
    *x == *y
}

/// Copy a list of PU indices.
pub fn copy_indices(v: &Vec<usize>) -> (r: Vec<usize>)
    ensures
        r@ == v@,
{
    let mut r: Vec<usize> = Vec::new();
    let mut i: usize = 0;
    while i < v.len()
        invariant
            0 <= i <= v@.len(),
            r@ == v@.subrange(0, i as int),
        decreases v@.len() - i,
    {
        r.push(v[i]);
        proof {
            assert(r@ =~= v@.subrange(0, i + 1));
        }
        i = i + 1;
    }
    proof {
        assert(r@ =~= v@);
    }
    r
}


// ---------------------------------------------------------------------------
// Slot pretty range and per-rank grouping
// ---------------------------------------------------------------------------

/// The PU list is an unbroken ascending run.
pub open spec fn is_contig(pu: Seq<usize>) -> bool {
    forall|i: int| 0 <= i < pu.len() ==> #[trigger] pu[i] == pu[0] + i
}

/// The elements of a PU list, comma separated.
pub open spec fn comma_list(pu: Seq<usize>) -> Seq<char>
    decreases pu.len(),
{
    if pu.len() == 0 {
        Seq::empty()
    } else if pu.len() == 1 {
        crate::numfmt::dec_of(pu[0] as int)
    } else {
        comma_list(pu.drop_last()) + seq![',', ' '] + crate::numfmt::dec_of(pu.last() as int)
    }
}

/// The pretty form of a PU list: a dash range when unbroken and longer than
/// one, the bracketed list otherwise.
pub open spec fn spec_range(pu: Seq<usize>) -> Seq<char> {
    if is_contig(pu) && pu.len() > 1 {
        crate::numfmt::dec_of(pu[0] as int) + seq!['-'] + crate::numfmt::dec_of(
            pu[pu.len() - 1] as int,
        )
    } else {
        "pu: ["@ + comma_list(pu) + seq![']']
    }
}

impl Slot {
    /// The pretty form of this slot's PU set.
    pub fn range(&self) -> (r: String)
        ensures
            r@ == spec_range(self.pu@),
    {
        let n: usize = self.pu.len();
        let mut contig: bool = true;
        let mut i: usize = 0;
        while i < n
            invariant
                0 <= i <= n,
                n == self.pu@.len(),
                contig == (forall|q: int| 0 <= q < i ==> #[trigger] self.pu@[q] == self.pu@[0]
                    + q),
            decreases n - i,
        {
            if !(self.pu[i] >= self.pu[0] && self.pu[i] - self.pu[0] == i) {
                contig = false;
            }
            i = i + 1;
        }
        if contig && n > 1 {
            let mut s: String = crate::numfmt::u64_to_dec(self.pu[0] as u64);
            proof {
                reveal_strlit("-");
            }
            s.append("-");
            crate::numfmt::push_u64_dec(&mut s, self.pu[n - 1] as u64);
            proof {
                assert(s@ =~= spec_range(self.pu@));
            }
            s
        } else {
            proof {
                reveal_strlit("pu: [");
                reveal_strlit("]");
                reveal_strlit(", ");
            }
            let mut s: String = String::new();
            s.append("pu: [");
            let mut q: usize = 0;
            proof {
                assert(self.pu@.subrange(0, 0) =~= Seq::<usize>::empty());
                assert(s@ =~= "pu: ["@ + comma_list(self.pu@.subrange(0, 0)));
            }
            while q < n
                invariant
                    0 <= q <= n,
                    n == self.pu@.len(),
                    s@ == "pu: ["@ + comma_list(self.pu@.subrange(0, q as int)),
                decreases n - q,
            {
                proof {
                    reveal_strlit(", ");
                    assert(self.pu@.subrange(0, q + 1).drop_last() =~= self.pu@.subrange(
                        0,
                        q as int,
                    ));
                    assert(self.pu@.subrange(0, q + 1).last() == self.pu@[q as int]);
                }
                if q > 0 {
                    s.append(", ");
                }
                crate::numfmt::push_u64_dec(&mut s, self.pu[q] as u64);
                proof {
                    assert(s@ =~= "pu: ["@ + comma_list(self.pu@.subrange(0, q + 1)));
                }
                q = q + 1;
            }
            proof {
                assert(self.pu@.subrange(0, n as int) =~= self.pu@);
            }
            s.append("]");
            proof {
                assert(s@ =~= spec_range(self.pu@));
            }
            s
        }
    }
}

/// How many slots of the run carry the given rank.
pub open spec fn count_rank(s: Seq<Slot>, r: i32) -> nat
    decreases s.len(),
{
    if s.len() == 0 {
        0
    } else {
        count_rank(s.drop_last(), r) + if s.last().rank == r {
            1nat
        } else {
            0nat
        }
    }
}

/// The position of the first slot with the given rank.
pub open spec fn first_rank(s: Seq<Slot>, r: i32) -> int
    decreases s.len(),
{
    if s.len() == 0 {
        0
    } else if s[0].rank == r {
        0
    } else {
        1 + first_rank(s.drop_first(), r)
    }
}

pub proof fn lemma_count_rank_le(s: Seq<Slot>, r: i32)
    ensures
        count_rank(s, r) <= s.len(),
    decreases s.len(),
{
    if s.len() > 0 {
        lemma_count_rank_le(s.drop_last(), r);
    }
}

pub proof fn lemma_count_rank_prefix(s: Seq<Slot>, i: int, r: i32)
    requires
        0 <= i < s.len(),
    ensures
        count_rank(s.subrange(0, i + 1), r) == count_rank(s.subrange(0, i), r) + (
        if s[i].rank == r {
            1nat
        } else {
            0nat
        }),
{
    assert(s.subrange(0, i + 1).drop_last() =~= s.subrange(0, i));
    assert(s.subrange(0, i + 1).last() == s[i]);
}

/// A slot whose rank is new at position `i` is the first with it.
pub proof fn lemma_first_rank_is(s: Seq<Slot>, i: int, r: i32)
    requires
        0 <= i < s.len(),
        s[i].rank == r,
        forall|q: int| 0 <= q < i ==> (#[trigger] s[q]).rank != r,
    ensures
        first_rank(s, r) == i,
    decreases s.len(),
{
    if i > 0 {
        assert(s[0].rank != r);
        assert(forall|q: int| 0 <= q < s.drop_first().len() ==> s.drop_first()[q] == s[q + 1]);
        lemma_first_rank_is(s.drop_first(), i - 1, r);
    }
}

impl Numa {
    /// Group this domain's slots by rank, in first-appearance order: each
    /// entry carries the rank, the job of the first slot seen with that
    /// rank, and how many slots share the rank.
    #[verifier::rlimit(80)]
    pub fn count_by_rank(&self) -> (v: Vec<((i32, Option<u32>), i32)>)
        requires
            self.slots@.len() <= i32::MAX,
        ensures
            forall|p1: int, p2: int| 0 <= p1 < p2 < v@.len() ==> (#[trigger] v@[p1]).0.0 != (
            #[trigger] v@[p2]).0.0,
            forall|p: int| 0 <= p < v@.len() ==> (#[trigger] v@[p]).1 as int == count_rank(
                self.slots@,
                v@[p].0.0,
            ) && 0 <= first_rank(self.slots@, v@[p].0.0) < self.slots@.len() && v@[p].0.1
                == self.slots@[first_rank(self.slots@, v@[p].0.0)].job,
            forall|i: int| 0 <= i < self.slots@.len() ==> exists|p: int|
                0 <= p < v@.len() && (#[trigger] v@[p]).0.0 == (#[trigger] self.slots@[i]).rank,
            forall|p1: int, p2: int| 0 <= p1 < p2 < v@.len() ==> first_rank(
                self.slots@,
                v@[p1].0.0,
            ) < first_rank(self.slots@, v@[p2].0.0),
            counts_total(v@) == self.slots@.len(),
    {
        let mut v: Vec<((i32, Option<u32>), i32)> = Vec::new();
        let n: usize = self.slots.len();
        let mut i: usize = 0;
        proof {
            assert(self.slots@.subrange(0, 0) =~= Seq::<Slot>::empty());
        }
        while i < n
            invariant
                0 <= i <= n,
                n == self.slots@.len(),
                n <= i32::MAX,
                forall|p1: int, p2: int| 0 <= p1 < p2 < v@.len() ==> (#[trigger] v@[p1]).0.0 != (
                #[trigger] v@[p2]).0.0,
                forall|p: int| 0 <= p < v@.len() ==> (#[trigger] v@[p]).1 as int == count_rank(
                    self.slots@.subrange(0, i as int),
                    v@[p].0.0,
                ) && 0 <= first_rank(self.slots@, v@[p].0.0) < self.slots@.len() && v@[p].0.1
                    == self.slots@[first_rank(self.slots@, v@[p].0.0)].job,
                forall|q: int| 0 <= q < i ==> exists|p: int|
                    0 <= p < v@.len() && (#[trigger] v@[p]).0.0 == (
                    #[trigger] self.slots@[q]).rank,
                forall|p: int| 0 <= p < v@.len() ==> (#[trigger] v@[p]).1 >= 1,
                forall|p1: int, p2: int| 0 <= p1 < p2 < v@.len() ==> first_rank(
                    self.slots@,
                    v@[p1].0.0,
                ) < first_rank(self.slots@, v@[p2].0.0),
                forall|p: int| 0 <= p < v@.len() ==> 0 <= first_rank(
                    self.slots@,
                    (#[trigger] v@[p]).0.0,
                ) < i,
                counts_total(v@) == i,
            decreases n - i,
        {
            let rank: i32 = self.slots[i].rank;
            let job: Option<u32> = self.slots[i].job;
            let nv: usize = v.len();
            let mut p: usize = 0;
            proof {
                lemma_count_rank_prefix(self.slots@, i as int, rank);
                lemma_count_rank_le(self.slots@.subrange(0, i as int), rank);
                assert(self.slots@.subrange(0, i as int).len() == i);
            }
            while p < nv && v[p].0.0 != rank
                invariant
                    0 <= p <= nv,
                    nv == v@.len(),
                    forall|p2: int| 0 <= p2 < p ==> (#[trigger] v@[p2]).0.0 != rank,
                decreases nv - p,
            {
                p = p + 1;
            }
            let ghost vold = v@;
            if p < nv {
                let e: &mut ((i32, Option<u32>), i32) = &mut v[p];
                let c: i32 = e.1;
                proof {
                    assert(vold[p as int].1 as int == count_rank(
                        self.slots@.subrange(0, i as int),
                        rank,
                    ));
                    lemma_count_rank_le(self.slots@.subrange(0, i + 1), rank);
                    assert(self.slots@.subrange(0, i + 1).len() == i + 1);
                }
                e.1 = c + 1;
                proof {
                    assert(v@ == vold.update(p as int, ((rank, vold[p as int].0.1), (
                    vold[p as int].1 + 1) as i32)));
                    lemma_counts_total_update(
                        vold,
                        p as int,
                        ((rank, vold[p as int].0.1), (vold[p as int].1 + 1) as i32),
                    );
                    assert forall|p1: int, p2: int| 0 <= p1 < p2 < v@.len() implies first_rank(
                        self.slots@,
                        v@[p1].0.0,
                    ) < first_rank(self.slots@, v@[p2].0.0) by {
                        assert(v@[p1].0.0 == vold[p1].0.0);
                        assert(v@[p2].0.0 == vold[p2].0.0);
                    }
                    assert forall|q: int| 0 <= q < i + 1 implies exists|p2: int|
                        0 <= p2 < v@.len() && (#[trigger] v@[p2]).0.0 == (
                        #[trigger] self.slots@[q]).rank by {
                        if q < i {
                            let p0 = choose|p2: int|
                                0 <= p2 < vold.len() && (#[trigger] vold[p2]).0.0
                                    == self.slots@[q].rank;
                            assert(v@[p0].0.0 == self.slots@[q].rank);
                        } else {
                            assert(v@[p as int].0.0 == rank);
                        }
                    }
                    assert forall|p2: int| 0 <= p2 < v@.len() implies (#[trigger] v@[p2]).1
                        as int == count_rank(self.slots@.subrange(0, i + 1), v@[p2].0.0) by {
                        if p2 != p {
                            assert(v@[p2] == vold[p2]);
                            assert(v@[p2].0.0 != rank);
                            lemma_count_rank_prefix(self.slots@, i as int, v@[p2].0.0);
                        }
                    }
                }
            } else {
                proof {
                    assert forall|q: int| 0 <= q < i implies (#[trigger] self.slots@[q]).rank
                        != rank by {
                        let p0 = choose|p2: int|
                            0 <= p2 < vold.len() && (#[trigger] vold[p2]).0.0
                                == self.slots@[q].rank;
                    }
                    lemma_first_rank_is(self.slots@, i as int, rank);
                    assert(count_rank(self.slots@.subrange(0, i as int), rank) == 0) by {
                        lemma_count_rank_zero(self.slots@.subrange(0, i as int), rank);
                    }
                }
                v.push(((rank, job), 1));
                proof {
                    assert(v@[v@.len() - 1].0.0 == rank);
                    assert(v@.drop_last() =~= vold);
                    assert forall|p1: int, p2: int| 0 <= p1 < p2 < v@.len() implies first_rank(
                        self.slots@,
                        v@[p1].0.0,
                    ) < first_rank(self.slots@, v@[p2].0.0) by {
                        if p2 == v@.len() - 1 {
                            assert(v@[p1].0.0 == vold[p1].0.0);
                            assert(first_rank(self.slots@, vold[p1].0.0) < i);
                            assert(first_rank(self.slots@, rank) == i);
                        } else {
                            assert(v@[p1].0.0 == vold[p1].0.0);
                            assert(v@[p2].0.0 == vold[p2].0.0);
                        }
                    }
                    assert forall|q: int| 0 <= q < i + 1 implies exists|p2: int|
                        0 <= p2 < v@.len() && (#[trigger] v@[p2]).0.0 == (
                        #[trigger] self.slots@[q]).rank by {
                        if q < i {
                            let p0 = choose|p2: int|
                                0 <= p2 < vold.len() && (#[trigger] vold[p2]).0.0
                                    == self.slots@[q].rank;
                            assert(v@[p0].0.0 == self.slots@[q].rank);
                        } else {
                            assert(v@[v@.len() - 1].0.0 == rank);
                        }
                    }
                    assert forall|p2: int| 0 <= p2 < v@.len() implies (#[trigger] v@[p2]).1
                        as int == count_rank(self.slots@.subrange(0, i + 1), v@[p2].0.0) by {
                        if p2 < v@.len() - 1 {
                            assert(v@[p2] == vold[p2]);
                            assert(v@[p2].0.0 != rank);
                            lemma_count_rank_prefix(self.slots@, i as int, v@[p2].0.0);
                        }
                    }
                }
            }
            i = i + 1;
        }
        proof {
            assert(self.slots@.subrange(0, n as int) =~= self.slots@);
        }
        v
    }
}

/// Sum of the per-rank counts of a grouping.
pub open spec fn counts_total(v: Seq<((i32, Option<u32>), i32)>) -> int
    decreases v.len(),
{
    if v.len() == 0 {
        0
    } else {
        counts_total(v.drop_last()) + v.last().1
    }
}

pub proof fn lemma_counts_total_update(v: Seq<((i32, Option<u32>), i32)>, p: int, e: (
    (i32, Option<u32>),
    i32,
))
    requires
        0 <= p < v.len(),
    ensures
        counts_total(v.update(p, e)) + v[p].1 == counts_total(v) + e.1,
    decreases v.len(),
{
    let u = v.update(p, e);
    if p == v.len() - 1 {
        assert(u.drop_last() =~= v.drop_last());
        assert(u.last() == e);
    } else {
        assert(u.drop_last() =~= v.drop_last().update(p, e));
        assert(u.last() == v.last());
        lemma_counts_total_update(v.drop_last(), p, e);
    }
}

/// The first occurrence of a rank is no later than any occurrence.
pub proof fn lemma_first_rank_le(s: Seq<Slot>, q: int, r: i32)
    requires
        0 <= q < s.len(),
        s[q].rank == r,
    ensures
        first_rank(s, r) <= q,
    decreases s.len(),
{
    if q > 0 && s[0].rank != r {
        assert(forall|k: int| 0 <= k < s.drop_first().len() ==> s.drop_first()[k] == s[k + 1]);
        lemma_first_rank_le(s.drop_first(), q - 1, r);
    }
}

/// A run without the rank counts none of it.
pub proof fn lemma_count_rank_zero(s: Seq<Slot>, r: i32)
    requires
        forall|q: int| 0 <= q < s.len() ==> (#[trigger] s[q]).rank != r,
    ensures
        count_rank(s, r) == 0,
    decreases s.len(),
{
    if s.len() > 0 {
        assert(forall|q: int| 0 <= q < s.len() - 1 ==> s.drop_last()[q] == s[q]);
        lemma_count_rank_zero(s.drop_last(), r);
    }
}


// A slot's assignment is counted: membership gives a positive count.
pub proof fn lemma_slots_job_pos(s: Seq<Slot>, i: int, j: u32)
    requires
        0 <= i < s.len(),
        s[i].job == Some(j),
    ensures
        slots_job(s, j) > 0,
    decreases s.len(),
{
    if i == s.len() - 1 {
        assert(s.last() == s[i]);
    } else {
        assert(s.drop_last()[i] == s[i]);
        lemma_slots_job_pos(s.drop_last(), i, j);
    }
}

pub proof fn lemma_numas_job_pos(ns: Seq<Numa>, l: int, j: u32)
    requires
        0 <= l < ns.len(),
        numa_job(ns[l], j) > 0,
    ensures
        numas_job(ns, j) > 0,
    decreases ns.len(),
{
    if l == ns.len() - 1 {
        assert(ns.last() == ns[l]);
    } else {
        assert(ns.drop_last()[l] == ns[l]);
        lemma_numas_job_pos(ns.drop_last(), l, j);
    }
}

pub proof fn lemma_nodes_job_pos(xs: Seq<Node>, k: int, j: u32)
    requires
        0 <= k < xs.len(),
        node_job(xs[k], j) > 0,
    ensures
        nodes_job(xs, j) > 0,
    decreases xs.len(),
{
    if k == xs.len() - 1 {
        assert(xs.last() == xs[k]);
    } else {
        assert(xs.drop_last()[k] == xs[k]);
        lemma_nodes_job_pos(xs.drop_last(), k, j);
    }
}

/// A slot that carries job `j` makes the inventory's count of `j` positive.
pub proof fn lemma_job_membership(xs: Seq<Node>, k: int, l: int, i: int, j: u32)
    requires
        0 <= k < xs.len(),
        0 <= l < xs[k].numas@.len(),
        0 <= i < xs[k].numas@[l].slots@.len(),
        xs[k].numas@[l].slots@[i].job == Some(j),
    ensures
        nodes_job(xs, j) > 0,
{
    lemma_slots_job_pos(xs[k].numas@[l].slots@, i, j);
    lemma_numas_job_pos(xs[k].numas@, l, j);
    lemma_nodes_job_pos(xs, k, j);
}

} // verus!
