//! The placement solver: three phases in strict order.  Phase 1 serves the
//! `E` jobs (one slot on every container of their locality), phase 2 the
//! fixed-count jobs, phase 3 shares whatever is left among the `A` jobs.

use vstd::prelude::*;

use crate::Error;
use crate::joblist::Loc;
use crate::joblist::Order;
use crate::joblist::OrderClass;
use crate::joblist::JobEntry;
use crate::joblist::JobList;
use crate::joblist::count_class;
use crate::map::lemma_pm_le_trans;
use crate::map::ProcMap;
use crate::map::Numa;
use crate::map::Node;
use crate::map::Slot;
use crate::map::slot_le;
use crate::map::numa_free;
use crate::map::numa_job;
use crate::map::numa_has_job;
use crate::map::node_free;
use crate::map::node_job;
use crate::map::node_has_job;
use crate::map::numa_le;
use crate::map::node_le;
use crate::map::pm_le;
use crate::map::slots_job;
use crate::map::numas_job;
use crate::map::nodes_job;
use crate::map::lemma_numas_update;
use crate::map::lemma_nodes_update;
use crate::map::lemma_numa_le_refl;
use crate::map::lemma_node_le_refl;
use crate::map::lemma_node_le_trans;
use crate::map::lemma_numa_has_le;
use crate::map::lemma_node_has_le;
use crate::map::pair_in;

verus! {

/// Every container at level `l` of the inventory still has room: a free
/// slot in every NUMA domain, in every node, or every slot free.
pub open spec fn locality_has_room(pm: ProcMap, l: Loc) -> bool {
    match l {
        Loc::Numa => forall|k: int, q: int|
            0 <= k < pm.nodes@.len() && 0 <= q < pm.nodes@[k].numas@.len() ==> numa_free(
                #[trigger] pm.nodes@[k].numas@[q],
            ) > 0,
        Loc::Node => forall|k: int|
            0 <= k < pm.nodes@.len() ==> node_free(#[trigger] pm.nodes@[k]) > 0,
        Loc::Slot => forall|k: int, q: int, i: int|
            0 <= k < pm.nodes@.len() && 0 <= q < pm.nodes@[k].numas@.len() && 0 <= i
                < pm.nodes@[k].numas@[q].slots@.len() ==> (
            #[trigger] pm.nodes@[k].numas@[q].slots@[i]).job is None,
    }
}

/// Room is a function of the node list alone.
pub proof fn lemma_room_congruent(a: ProcMap, b: ProcMap, l: Loc)
    requires
        a.nodes@ == b.nodes@,
    ensures
        locality_has_room(a, l) == locality_has_room(b, l),
{
    match l {
        Loc::Numa => {
            if locality_has_room(a, l) {
                assert forall|k: int, q: int|
                    0 <= k < b.nodes@.len() && 0 <= q
                        < b.nodes@[k].numas@.len() implies numa_free(
                    #[trigger] b.nodes@[k].numas@[q],
                ) > 0 by {
                    assert(numa_free(a.nodes@[k].numas@[q]) > 0);
                }
            }
            if locality_has_room(b, l) {
                assert forall|k: int, q: int|
                    0 <= k < a.nodes@.len() && 0 <= q
                        < a.nodes@[k].numas@.len() implies numa_free(
                    #[trigger] a.nodes@[k].numas@[q],
                ) > 0 by {
                    assert(numa_free(b.nodes@[k].numas@[q]) > 0);
                }
            }
        },
        Loc::Node => {
            if locality_has_room(a, l) {
                assert forall|k: int| 0 <= k < b.nodes@.len() implies node_free(
                    #[trigger] b.nodes@[k],
                ) > 0 by {
                    assert(node_free(a.nodes@[k]) > 0);
                }
            }
            if locality_has_room(b, l) {
                assert forall|k: int| 0 <= k < a.nodes@.len() implies node_free(
                    #[trigger] a.nodes@[k],
                ) > 0 by {
                    assert(node_free(b.nodes@[k]) > 0);
                }
            }
        },
        Loc::Slot => {
            if locality_has_room(a, l) {
                assert forall|k: int, q: int, i: int|
                    0 <= k < b.nodes@.len() && 0 <= q < b.nodes@[k].numas@.len() && 0 <= i
                        < b.nodes@[k].numas@[q].slots@.len() implies (#[trigger] b.nodes@[
                    k].numas@[q].slots@[i]).job is None by {
                    assert(a.nodes@[k].numas@[q].slots@[i].job is None);
                }
            }
            if locality_has_room(b, l) {
                assert forall|k: int, q: int, i: int|
                    0 <= k < a.nodes@.len() && 0 <= q < a.nodes@[k].numas@.len() && 0 <= i
                        < a.nodes@[k].numas@[q].slots@.len() implies (#[trigger] a.nodes@[
                    k].numas@[q].slots@[i]).job is None by {
                    assert(b.nodes@[k].numas@[q].slots@[i].job is None);
                }
            }
        },
    }
}

/// Job `x` owns a slot in every container at level `l` of the inventory.
pub open spec fn each_satisfied(pm: ProcMap, x: u32, l: Loc) -> bool {
    match l {
        Loc::Numa => forall|k: int, q: int|
            0 <= k < pm.nodes@.len() && 0 <= q < pm.nodes@[k].numas@.len() ==> numa_has_job(
                #[trigger] pm.nodes@[k].numas@[q],
                x,
            ),
        Loc::Node => forall|k: int|
            0 <= k < pm.nodes@.len() ==> node_has_job(#[trigger] pm.nodes@[k], x),
        Loc::Slot => forall|k: int, q: int, i: int|
            0 <= k < pm.nodes@.len() && 0 <= q < pm.nodes@[k].numas@.len() && 0 <= i
                < pm.nodes@[k].numas@[q].slots@.len() ==> (
            #[trigger] pm.nodes@[k].numas@[q].slots@[i]).job == Some(x),
    }
}

/// Monotone change preserves container membership.
pub proof fn lemma_each_satisfied_le(a: ProcMap, b: ProcMap, x: u32, l: Loc)
    requires
        pm_le(a, b),
        each_satisfied(a, x, l),
    ensures
        each_satisfied(b, x, l),
{
    match l {
        Loc::Numa => {
            assert forall|k: int, q: int|
                0 <= k < b.nodes@.len() && 0 <= q < b.nodes@[k].numas@.len() implies numa_has_job(
                #[trigger] b.nodes@[k].numas@[q],
                x,
            ) by {
                assert(node_le(a.nodes@[k], b.nodes@[k]));
                assert(numa_le(a.nodes@[k].numas@[q], b.nodes@[k].numas@[q]));
                assert(numa_has_job(a.nodes@[k].numas@[q], x));
                lemma_numa_has_le(a.nodes@[k].numas@[q], b.nodes@[k].numas@[q], x);
            }
        },
        Loc::Node => {
            assert forall|k: int| 0 <= k < b.nodes@.len() implies node_has_job(
                #[trigger] b.nodes@[k],
                x,
            ) by {
                assert(node_le(a.nodes@[k], b.nodes@[k]));
                assert(node_has_job(a.nodes@[k], x));
                lemma_node_has_le(a.nodes@[k], b.nodes@[k], x);
            }
        },
        Loc::Slot => {
            assert forall|k: int, q: int, i: int|
                0 <= k < b.nodes@.len() && 0 <= q < b.nodes@[k].numas@.len() && 0 <= i
                    < b.nodes@[k].numas@[q].slots@.len() implies (
            #[trigger] b.nodes@[k].numas@[q].slots@[i]).job == Some(x) by {
                assert(node_le(a.nodes@[k], b.nodes@[k]));
                assert(numa_le(a.nodes@[k].numas@[q], b.nodes@[k].numas@[q]));
                assert(slot_le(a.nodes@[k].numas@[q].slots@[i], b.nodes@[k].numas@[q].slots@[i]));
                assert(a.nodes@[k].numas@[q].slots@[i].job == Some(x));
            }
        },
    }
}

impl ProcMap {
    /// Phase-1 walk at `numa` locality: one slot of every NUMA domain for
    /// job `x`.  Succeeds exactly when every domain has a free slot.
    fn map_each_numa(&mut self, x: u32) -> (r: Result<(), Error>)
        ensures
            pm_le(*old(self), *final(self)),
            final(self).spec_total() == old(self).spec_total(),
            forall|j2: u32| j2 != x ==> final(self).spec_job(j2) == old(self).spec_job(j2),
            final(self).spec_free() + final(self).spec_job(x) == old(self).spec_free() + old(
                self,
            ).spec_job(x),
            r is Ok <==> locality_has_room(*old(self), Loc::Numa),
            r is Ok ==> each_satisfied(*final(self), x, Loc::Numa),
            r is Ok ==> forall|k: int, q: int|
                0 <= k < old(self).nodes@.len() && 0 <= q < old(self).nodes@[k].numas@.len()
                    ==> numa_job(#[trigger] final(self).nodes@[k].numas@[q], x) == numa_job(
                    old(self).nodes@[k].numas@[q],
                    x,
                ) + 1,
            r is Err ==> r->Err_0 is NoFreeSlotOnNuma,
    {
        let pairs: Vec<(usize, usize)> = self.each_numa();
        let np: usize = pairs.len();
        let mut t: usize = 0;
        while t < np
            invariant
                0 <= t <= np,
                np == pairs@.len(),
                self.nodes@.len() == old(self).nodes@.len(),
                pm_le(*old(self), *self),
                self.spec_total() == old(self).spec_total(),
                forall|j2: u32| j2 != x ==> self.spec_job(j2) == old(self).spec_job(j2),
                self.spec_free() + self.spec_job(x) == old(self).spec_free() + old(
                    self,
                ).spec_job(x),
                forall|t2: int| 0 <= t2 < pairs@.len() ==> (#[trigger] pairs@[t2]).0 < old(
                    self,
                ).nodes@.len() && pairs@[t2].1 < old(self).nodes@[
                    pairs@[t2].0 as int].numas@.len(),
                forall|t1: int, t2: int| 0 <= t1 < t2 < pairs@.len() ==> (pairs@[t1].0
                    < pairs@[t2].0 || (pairs@[t1].0 == pairs@[t2].0 && pairs@[t1].1
                    < pairs@[t2].1)),
                forall|k: int, q: int| 0 <= k < old(self).nodes@.len() && 0 <= q < old(
                    self,
                ).nodes@[k].numas@.len() ==> #[trigger] pair_in(pairs@, k, q),
                forall|t2: int| 0 <= t2 < t ==> numa_free(
                    #[trigger] old(self).nodes@[pairs@[t2].0 as int].numas@[pairs@[t2].1 as int],
                ) > 0,
                forall|t2: int| 0 <= t2 < t ==> numa_has_job(
                    #[trigger] self.nodes@[pairs@[t2].0 as int].numas@[pairs@[t2].1 as int],
                    x,
                ),
                forall|t2: int| 0 <= t2 < t ==> numa_job(
                    #[trigger] self.nodes@[pairs@[t2].0 as int].numas@[pairs@[t2].1 as int],
                    x,
                ) == numa_job(
                    old(self).nodes@[pairs@[t2].0 as int].numas@[pairs@[t2].1 as int],
                    x,
                ) + 1,
                forall|t2: int| t <= t2 < np ==> #[trigger] self.nodes@[
                    pairs@[t2].0 as int].numas@[pairs@[t2].1 as int] == old(self).nodes@[
                    pairs@[t2].0 as int].numas@[pairs@[t2].1 as int],
            decreases np - t,
        {
            let k: usize = pairs[t].0;
            let q: usize = pairs[t].1;
            proof {
                assert(node_le(old(self).nodes@[k as int], self.nodes@[k as int]));
                assert(numa_le(
                    old(self).nodes@[k as int].numas@[q as int],
                    self.nodes@[k as int].numas@[q as int],
                ));
            }
            let ghost prev = *self;
            let node: &mut Node = &mut self.nodes[k];
            let ghost pnode = *node;
            let numa: &mut Numa = &mut node.numas[q];
            let res: Result<(), Error> = numa.acquire(x);
            proof {
                lemma_numas_update(pnode.numas@, q as int, node.numas@[q as int]);
                lemma_nodes_update(prev.nodes@, k as int, *node);
                assert forall|kk: int| 0 <= kk < self.nodes@.len() implies node_le(
                    #[trigger] prev.nodes@[kk],
                    self.nodes@[kk],
                ) by {
                    if kk != k {
                        assert(self.nodes@[kk] == prev.nodes@[kk]);
                        lemma_node_le_refl(self.nodes@[kk]);
                    } else {
                        assert forall|qq: int| 0 <= qq < pnode.numas@.len() implies numa_le(
                            #[trigger] pnode.numas@[qq],
                            self.nodes@[kk].numas@[qq],
                        ) by {
                            if qq != q {
                                assert(self.nodes@[kk].numas@[qq] == pnode.numas@[qq]);
                                lemma_numa_le_refl(pnode.numas@[qq]);
                            }
                        }
                    }
                }
                assert(pm_le(prev, *self));
                assert forall|kk: int| 0 <= kk < self.nodes@.len() implies node_le(
                    #[trigger] old(self).nodes@[kk],
                    self.nodes@[kk],
                ) by {
                    lemma_node_le_trans(old(self).nodes@[kk], prev.nodes@[kk], self.nodes@[kk]);
                }
                assert forall|j2: u32| j2 != x implies self.spec_job(j2) == prev.spec_job(
                    j2,
                ) by {
                    assert(numa_job(node.numas@[q as int], j2) == numa_job(
                        pnode.numas@[q as int],
                        j2,
                    ));
                    assert(numas_job(node.numas@, j2) + numa_job(pnode.numas@[q as int], j2)
                        == numas_job(pnode.numas@, j2) + numa_job(node.numas@[q as int], j2));
                    assert(nodes_job(self.nodes@, j2) + node_job(prev.nodes@[k as int], j2)
                        == nodes_job(prev.nodes@, j2) + node_job(*node, j2));
                }
            }
            proof {
                assert forall|t2: int| t + 1 <= t2 < np implies #[trigger] self.nodes@[
                    pairs@[t2].0 as int].numas@[pairs@[t2].1 as int] == old(self).nodes@[
                    pairs@[t2].0 as int].numas@[pairs@[t2].1 as int] by {
                    assert(pairs@[t as int].0 < pairs@[t2].0 || (pairs@[t as int].0
                        == pairs@[t2].0 && pairs@[t as int].1 < pairs@[t2].1));
                    if pairs@[t2].0 as int != k as int {
                        assert(self.nodes@[pairs@[t2].0 as int] == prev.nodes@[
                            pairs@[t2].0 as int]);
                    } else {
                        assert(self.nodes@[pairs@[t2].0 as int].numas@[pairs@[t2].1 as int]
                            == pnode.numas@[pairs@[t2].1 as int]);
                    }
                }
            }
            match res {
                Ok(()) => {
                    proof {
                        assert(self.nodes@[k as int].numas@ == pnode.numas@.update(
                            q as int,
                            self.nodes@[k as int].numas@[q as int],
                        ));
                        assert forall|t2: int| 0 <= t2 < t + 1 implies numa_job(
                            #[trigger] self.nodes@[pairs@[t2].0 as int].numas@[
                                pairs@[t2].1 as int],
                            x,
                        ) == numa_job(
                            old(self).nodes@[pairs@[t2].0 as int].numas@[pairs@[t2].1 as int],
                            x,
                        ) + 1 by {
                            if t2 < t {
                                assert(crate::map::trip_lt(
                                    (pairs@[t2].0, pairs@[t2].1, 0),
                                    (pairs@[t as int].0, pairs@[t as int].1, 0),
                                ) || pairs@[t2].0 != pairs@[t as int].0 || pairs@[t2].1
                                    != pairs@[t as int].1);
                                if pairs@[t2].0 as int != k as int {
                                    assert(self.nodes@[pairs@[t2].0 as int] == prev.nodes@[
                                        pairs@[t2].0 as int]);
                                } else {
                                    assert(pairs@[t2].1 != pairs@[t as int].1);
                                    assert(self.nodes@[pairs@[t2].0 as int].numas@[
                                        pairs@[t2].1 as int] == pnode.numas@[
                                        pairs@[t2].1 as int]);
                                }
                                assert(numa_job(
                                    prev.nodes@[pairs@[t2].0 as int].numas@[
                                        pairs@[t2].1 as int],
                                    x,
                                ) == numa_job(
                                    old(self).nodes@[pairs@[t2].0 as int].numas@[
                                        pairs@[t2].1 as int],
                                    x,
                                ) + 1);
                            } else {
                                assert(prev.nodes@[k as int].numas@[q as int] == old(
                                    self,
                                ).nodes@[k as int].numas@[q as int]);
                            }
                        }
                        assert forall|t2: int| 0 <= t2 < t + 1 implies numa_has_job(
                            #[trigger] self.nodes@[pairs@[t2].0 as int].numas@[
                                pairs@[t2].1 as int],
                            x,
                        ) by {
                            if t2 < t {
                                assert(numa_has_job(
                                    prev.nodes@[pairs@[t2].0 as int].numas@[pairs@[t2].1 as int],
                                    x,
                                ));
                                assert(numa_le(
                                    prev.nodes@[pairs@[t2].0 as int].numas@[pairs@[t2].1 as int],
                                    self.nodes@[pairs@[t2].0 as int].numas@[pairs@[t2].1 as int],
                                ));
                                lemma_numa_has_le(
                                    prev.nodes@[pairs@[t2].0 as int].numas@[pairs@[t2].1 as int],
                                    self.nodes@[pairs@[t2].0 as int].numas@[pairs@[t2].1 as int],
                                    x,
                                );
                            } else {
                                assert(numa_has_job(self.nodes@[k as int].numas@[q as int], x));
                            }
                        }
                        assert(numa_free(old(self).nodes@[k as int].numas@[q as int]) > 0) by {
                            assert(prev.nodes@[pairs@[t as int].0 as int].numas@[
                                pairs@[t as int].1 as int] == old(self).nodes@[
                                pairs@[t as int].0 as int].numas@[pairs@[t as int].1 as int]);
                            assert(numa_free(prev.nodes@[k as int].numas@[q as int]) > 0);
                        }
                    }
                },
                Err(e) => {
                    proof {
                        assert(prev.nodes@[pairs@[t as int].0 as int].numas@[
                            pairs@[t as int].1 as int] == old(self).nodes@[
                            pairs@[t as int].0 as int].numas@[pairs@[t as int].1 as int]);
                        assert(numa_free(old(self).nodes@[k as int].numas@[q as int]) == 0);
                    }
                    return Err(e);
                },
            }
            t = t + 1;
        }
        proof {
            assert forall|k: int, q: int|
                0 <= k < self.nodes@.len() && 0 <= q
                    < self.nodes@[k].numas@.len() implies numa_has_job(
                #[trigger] self.nodes@[k].numas@[q],
                x,
            ) by {
                assert(pair_in(pairs@, k, q));
                let t2 = choose|t2: int|
                    0 <= t2 < pairs@.len() && pairs@[t2].0 == k && pairs@[t2].1 == q;
                assert(numa_has_job(
                    self.nodes@[pairs@[t2].0 as int].numas@[pairs@[t2].1 as int],
                    x,
                ));
            }
            assert forall|k: int, q: int|
                0 <= k < old(self).nodes@.len() && 0 <= q < old(
                    self,
                ).nodes@[k].numas@.len() implies numa_free(#[trigger] old(self).nodes@[k].numas@[q])
                > 0 by {
                assert(pair_in(pairs@, k, q));
                let t2 = choose|t2: int|
                    0 <= t2 < pairs@.len() && pairs@[t2].0 == k && pairs@[t2].1 == q;
                assert(numa_free(
                    old(self).nodes@[pairs@[t2].0 as int].numas@[pairs@[t2].1 as int],
                ) > 0);
            }
            assert forall|k: int, q: int|
                0 <= k < old(self).nodes@.len() && 0 <= q < old(
                    self,
                ).nodes@[k].numas@.len() implies numa_job(#[trigger] self.nodes@[k].numas@[q], x)
                == numa_job(old(self).nodes@[k].numas@[q], x) + 1 by {
                assert(pair_in(pairs@, k, q));
                let t2 = choose|t2: int|
                    0 <= t2 < pairs@.len() && pairs@[t2].0 == k && pairs@[t2].1 == q;
                assert(numa_job(
                    self.nodes@[pairs@[t2].0 as int].numas@[pairs@[t2].1 as int],
                    x,
                ) == numa_job(
                    old(self).nodes@[pairs@[t2].0 as int].numas@[pairs@[t2].1 as int],
                    x,
                ) + 1);
            }
        }
        Ok(())
    }
}


impl ProcMap {
    /// Phase-1 walk at `node` locality: one slot of every node for job `x`.
    /// Succeeds exactly when every node has a free slot.
    fn map_each_node(&mut self, x: u32) -> (r: Result<(), Error>)
        ensures
            pm_le(*old(self), *final(self)),
            final(self).spec_total() == old(self).spec_total(),
            forall|j2: u32| j2 != x ==> final(self).spec_job(j2) == old(self).spec_job(j2),
            final(self).spec_free() + final(self).spec_job(x) == old(self).spec_free() + old(
                self,
            ).spec_job(x),
            r is Ok <==> locality_has_room(*old(self), Loc::Node),
            r is Ok ==> each_satisfied(*final(self), x, Loc::Node),
            r is Ok ==> forall|k: int|
                0 <= k < old(self).nodes@.len() ==> node_job(#[trigger] final(self).nodes@[k], x)
                    == node_job(old(self).nodes@[k], x) + 1,
            r is Err ==> r->Err_0 is NoFreeSlotOnNode,
    {
        let n: usize = self.nodes.len();
        let mut k: usize = 0;
        while k < n
            invariant
                0 <= k <= n,
                n == self.nodes@.len(),
                n == old(self).nodes@.len(),
                pm_le(*old(self), *self),
                self.spec_total() == old(self).spec_total(),
                forall|j2: u32| j2 != x ==> self.spec_job(j2) == old(self).spec_job(j2),
                self.spec_free() + self.spec_job(x) == old(self).spec_free() + old(
                    self,
                ).spec_job(x),
                forall|k2: int| 0 <= k2 < k ==> node_free(#[trigger] old(self).nodes@[k2]) > 0,
                forall|k2: int| 0 <= k2 < k ==> node_has_job(#[trigger] self.nodes@[k2], x),
                forall|k2: int| 0 <= k2 < k ==> node_job(#[trigger] self.nodes@[k2], x)
                    == node_job(old(self).nodes@[k2], x) + 1,
                forall|k2: int| k <= k2 < n ==> self.nodes@[k2] == old(self).nodes@[k2],
            decreases n - k,
        {
            let ghost prev = *self;
            let node: &mut Node = &mut self.nodes[k];
            let res: Result<(), Error> = node.acquire(x);
            proof {
                lemma_nodes_update(prev.nodes@, k as int, *node);
                crate::map::lemma_node_le_total(prev.nodes@[k as int], *node);
                assert forall|kk: int| 0 <= kk < self.nodes@.len() implies node_le(
                    #[trigger] prev.nodes@[kk],
                    self.nodes@[kk],
                ) by {
                    if kk != k {
                        assert(self.nodes@[kk] == prev.nodes@[kk]);
                        lemma_node_le_refl(self.nodes@[kk]);
                    }
                }
                assert(pm_le(prev, *self));
                assert forall|kk: int| 0 <= kk < self.nodes@.len() implies node_le(
                    #[trigger] old(self).nodes@[kk],
                    self.nodes@[kk],
                ) by {
                    lemma_node_le_trans(old(self).nodes@[kk], prev.nodes@[kk], self.nodes@[kk]);
                }
            }
            match res {
                Ok(()) => {
                    proof {
                        assert(node_free(old(self).nodes@[k as int]) > 0);
                        assert forall|k2: int| 0 <= k2 < k + 1 implies node_has_job(
                            #[trigger] self.nodes@[k2],
                            x,
                        ) by {
                            if k2 < k {
                                assert(node_has_job(prev.nodes@[k2], x));
                                lemma_node_has_le(prev.nodes@[k2], self.nodes@[k2], x);
                            } else {
                                assert(node_has_job(*node, x));
                            }
                        }
                    }
                },
                Err(e) => {
                    proof {
                        assert(node_free(old(self).nodes@[k as int]) == 0);
                    }
                    return Err(e);
                },
            }
            k = k + 1;
        }
        Ok(())
    }

    /// Phase-1 walk at `slot` locality: every slot of the inventory for job
    /// `x`.  Succeeds exactly when every slot is still free.
    fn map_each_slot(&mut self, x: u32) -> (r: Result<(), Error>)
        ensures
            pm_le(*old(self), *final(self)),
            final(self).spec_total() == old(self).spec_total(),
            forall|j2: u32| j2 != x ==> final(self).spec_job(j2) == old(self).spec_job(j2),
            final(self).spec_free() + final(self).spec_job(x) == old(self).spec_free() + old(
                self,
            ).spec_job(x),
            r is Ok <==> locality_has_room(*old(self), Loc::Slot),
            r is Ok ==> each_satisfied(*final(self), x, Loc::Slot),
            r is Err ==> r->Err_0 == Error::SlotTaken,
    {
        let trips: Vec<(usize, usize, usize)> = self.each_slot();
        let np: usize = trips.len();
        let mut t: usize = 0;
        while t < np
            invariant
                0 <= t <= np,
                np == trips@.len(),
                self.nodes@.len() == old(self).nodes@.len(),
                pm_le(*old(self), *self),
                self.spec_total() == old(self).spec_total(),
                forall|j2: u32| j2 != x ==> self.spec_job(j2) == old(self).spec_job(j2),
                self.spec_free() + self.spec_job(x) == old(self).spec_free() + old(
                    self,
                ).spec_job(x),
                forall|t2: int| 0 <= t2 < trips@.len() ==> (#[trigger] trips@[t2]).0 < old(
                    self,
                ).nodes@.len() && trips@[t2].1 < old(self).nodes@[trips@[t2].0 as int].numas@.len()
                    && trips@[t2].2 < old(self).nodes@[trips@[t2].0 as int].numas@[
                    trips@[t2].1 as int].slots@.len(),
                forall|t1: int, t2: int| 0 <= t1 < t2 < trips@.len() ==> crate::map::trip_lt(
                    trips@[t1],
                    trips@[t2],
                ),
                forall|k: int, q: int, i: int| 0 <= k < old(self).nodes@.len() && 0 <= q < old(
                    self,
                ).nodes@[k].numas@.len() && 0 <= i < old(self).nodes@[k].numas@[q].slots@.len()
                    ==> #[trigger] crate::map::trip_in(trips@, k, q, i),
                forall|t2: int| 0 <= t2 < t ==> (#[trigger] old(self).nodes@[
                    trips@[t2].0 as int].numas@[trips@[t2].1 as int].slots@[
                    trips@[t2].2 as int]).job is None,
                forall|t2: int| 0 <= t2 < t ==> (#[trigger] self.nodes@[
                    trips@[t2].0 as int].numas@[trips@[t2].1 as int].slots@[
                    trips@[t2].2 as int]).job == Some(x),
                forall|t2: int| t <= t2 < np ==> #[trigger] self.nodes@[
                    trips@[t2].0 as int].numas@[trips@[t2].1 as int].slots@[trips@[t2].2 as int]
                    == old(self).nodes@[trips@[t2].0 as int].numas@[trips@[t2].1 as int].slots@[
                    trips@[t2].2 as int],
            decreases np - t,
        {
            let k: usize = trips[t].0;
            let q: usize = trips[t].1;
            let i: usize = trips[t].2;
            let ghost prev = *self;
            let node: &mut Node = &mut self.nodes[k];
            let ghost pnode = *node;
            let numa: &mut Numa = &mut node.numas[q];
            let ghost pnuma = *numa;
            let slot: &mut Slot = &mut numa.slots[i];
            let res: Result<(), Error> = slot.acquire(x);
            proof {
                crate::map::lemma_slots_update(pnuma.slots@, i as int, numa.slots@[i as int]);
                lemma_numas_update(pnode.numas@, q as int, node.numas@[q as int]);
                lemma_nodes_update(prev.nodes@, k as int, *node);
                assert forall|kk: int| 0 <= kk < self.nodes@.len() implies node_le(
                    #[trigger] prev.nodes@[kk],
                    self.nodes@[kk],
                ) by {
                    if kk != k {
                        assert(self.nodes@[kk] == prev.nodes@[kk]);
                        lemma_node_le_refl(self.nodes@[kk]);
                    } else {
                        assert forall|qq: int| 0 <= qq < pnode.numas@.len() implies numa_le(
                            #[trigger] pnode.numas@[qq],
                            self.nodes@[kk].numas@[qq],
                        ) by {
                            if qq != q {
                                assert(self.nodes@[kk].numas@[qq] == pnode.numas@[qq]);
                                lemma_numa_le_refl(pnode.numas@[qq]);
                            } else {
                                assert forall|ii: int|
                                    0 <= ii < pnuma.slots@.len() implies slot_le(
                                    #[trigger] pnuma.slots@[ii],
                                    self.nodes@[kk].numas@[qq].slots@[ii],
                                ) by {
                                    if ii != i {
                                        assert(self.nodes@[kk].numas@[qq].slots@[ii]
                                            == pnuma.slots@[ii]);
                                    }
                                }
                            }
                        }
                    }
                }
                assert(pm_le(prev, *self));
                assert forall|kk: int| 0 <= kk < self.nodes@.len() implies node_le(
                    #[trigger] old(self).nodes@[kk],
                    self.nodes@[kk],
                ) by {
                    lemma_node_le_trans(old(self).nodes@[kk], prev.nodes@[kk], self.nodes@[kk]);
                }
                assert forall|j2: u32| j2 != x implies self.spec_job(j2) == prev.spec_job(
                    j2,
                ) by {
                    assert(slots_job(numa.slots@, j2) + crate::map::job01(
                        pnuma.slots@[i as int],
                        j2,
                    ) == slots_job(pnuma.slots@, j2) + crate::map::job01(
                        numa.slots@[i as int],
                        j2,
                    ));
                    assert(numas_job(node.numas@, j2) + numa_job(pnode.numas@[q as int], j2)
                        == numas_job(pnode.numas@, j2) + numa_job(node.numas@[q as int], j2));
                    assert(nodes_job(self.nodes@, j2) + node_job(prev.nodes@[k as int], j2)
                        == nodes_job(prev.nodes@, j2) + node_job(*node, j2));
                }
                assert forall|t2: int| t + 1 <= t2 < np implies #[trigger] self.nodes@[
                    trips@[t2].0 as int].numas@[trips@[t2].1 as int].slots@[trips@[t2].2 as int]
                    == old(self).nodes@[trips@[t2].0 as int].numas@[trips@[t2].1 as int].slots@[
                    trips@[t2].2 as int] by {
                    assert(crate::map::trip_lt(trips@[t as int], trips@[t2]));
                    if trips@[t2].0 as int != k as int {
                        assert(self.nodes@[trips@[t2].0 as int] == prev.nodes@[
                            trips@[t2].0 as int]);
                    } else if trips@[t2].1 as int != q as int {
                        assert(self.nodes@[trips@[t2].0 as int].numas@[trips@[t2].1 as int]
                            == pnode.numas@[trips@[t2].1 as int]);
                    } else {
                        assert(self.nodes@[trips@[t2].0 as int].numas@[trips@[t2].1 as int].slots@[
                            trips@[t2].2 as int] == pnuma.slots@[trips@[t2].2 as int]);
                    }
                }
            }
            match res {
                Ok(()) => {
                    proof {
                        assert(old(self).nodes@[k as int].numas@[q as int].slots@[i as int].job
                            is None);
                        assert forall|t2: int| 0 <= t2 < t + 1 implies (#[trigger] self.nodes@[
                            trips@[t2].0 as int].numas@[trips@[t2].1 as int].slots@[
                            trips@[t2].2 as int]).job == Some(x) by {
                            if t2 < t {
                                assert(slot_le(
                                    prev.nodes@[trips@[t2].0 as int].numas@[
                                        trips@[t2].1 as int].slots@[trips@[t2].2 as int],
                                    self.nodes@[trips@[t2].0 as int].numas@[
                                        trips@[t2].1 as int].slots@[trips@[t2].2 as int],
                                ));
                            }
                        }
                    }
                },
                Err(e) => {
                    proof {
                        assert(old(self).nodes@[k as int].numas@[q as int].slots@[i as int].job
                            is Some);
                    }
                    return Err(e);
                },
            }
            t = t + 1;
        }
        proof {
            assert forall|k: int, q: int, i: int|
                0 <= k < self.nodes@.len() && 0 <= q < self.nodes@[k].numas@.len() && 0 <= i
                    < self.nodes@[k].numas@[q].slots@.len() implies (#[trigger] self.nodes@[
                k].numas@[q].slots@[i]).job == Some(x) by {
                assert(crate::map::trip_in(trips@, k, q, i));
                let t2 = choose|t2: int|
                    0 <= t2 < trips@.len() && trips@[t2].0 == k && trips@[t2].1 == q
                        && trips@[t2].2 == i;
                assert((self.nodes@[trips@[t2].0 as int].numas@[trips@[t2].1 as int].slots@[
                    trips@[t2].2 as int]).job == Some(x));
            }
            assert forall|k: int, q: int, i: int|
                0 <= k < old(self).nodes@.len() && 0 <= q < old(self).nodes@[k].numas@.len() && 0
                    <= i < old(self).nodes@[k].numas@[q].slots@.len() implies (#[trigger] old(
                self,
            ).nodes@[k].numas@[q].slots@[i]).job is None by {
                assert(crate::map::trip_in(trips@, k, q, i));
                let t2 = choose|t2: int|
                    0 <= t2 < trips@.len() && trips@[t2].0 == k && trips@[t2].1 == q
                        && trips@[t2].2 == i;
                assert((old(self).nodes@[trips@[t2].0 as int].numas@[trips@[t2].1 as int].slots@[
                    trips@[t2].2 as int]).job is None);
            }
        }
        Ok(())
    }
}


impl ProcMap {
    /// The locality-aware allocation walk of the counted phases: acquire
    /// `size` slots for `jobid` at the given locality.  At `slot` locality
    /// the walk is linear over all slots.  At `numa` and `node` locality it
    /// makes repeated passes over the containers, taking one slot from each;
    /// with `on_each` a container without room fails the walk at once, and
    /// without it only a pass that acquires nothing does.
    pub fn map_for_defined_size(
        &mut self,
        level: Loc,
        size: usize,
        jobid: u32,
        on_each: bool,
    ) -> (r: Result<(), Error>)
        ensures
            pm_le(*old(self), *final(self)),
            final(self).spec_total() == old(self).spec_total(),
            final(self).nodes@.len() == old(self).nodes@.len(),
            forall|j2: u32| j2 != jobid ==> final(self).spec_job(j2) == old(self).spec_job(j2),
            final(self).spec_free() + final(self).spec_job(jobid) == old(self).spec_free() + old(
                self,
            ).spec_job(jobid),
            r is Ok ==> final(self).spec_job(jobid) == old(self).spec_job(jobid) + size,
            r is Err ==> old(self).spec_free() < size || (!(level is Slot) && on_each),
            (level is Slot || !on_each) ==> (r is Ok <==> size <= old(self).spec_free()),
            size == 0 ==> r is Ok,
            level is Slot && r is Err ==> r->Err_0 == (Error::NotEnoughSlots { requested: size })
                && final(self).spec_free() == 0,
            !(level is Slot) && !on_each && r is Err ==> final(self).spec_free() == 0
                && r->Err_0 is NoRoomLeft,
            !(level is Slot) && on_each && r is Err ==> r->Err_0 is NoRoomOnEach || r->Err_0
                is NoRoomLeft,
    {
        match level {
            Loc::Slot => {
                let got: usize = self.acquire_upto(jobid, size);
                if got < size {
                    Err(Error::NotEnoughSlots { requested: size })
                } else {
                    Ok(())
                }
            },
            Loc::Numa => self.defined_size_numa(size, jobid, on_each),
            Loc::Node => self.defined_size_node(size, jobid, on_each),
        }
    }

    /// Repeated passes over the NUMA domains, one slot per domain and pass.
    fn defined_size_numa(&mut self, size: usize, jobid: u32, on_each: bool) -> (r: Result<
        (),
        Error,
    >)
        ensures
            pm_le(*old(self), *final(self)),
            final(self).spec_total() == old(self).spec_total(),
            final(self).nodes@.len() == old(self).nodes@.len(),
            forall|j2: u32| j2 != jobid ==> final(self).spec_job(j2) == old(self).spec_job(j2),
            final(self).spec_free() + final(self).spec_job(jobid) == old(self).spec_free() + old(
                self,
            ).spec_job(jobid),
            r is Ok ==> final(self).spec_job(jobid) == old(self).spec_job(jobid) + size,
            r is Err ==> old(self).spec_free() < size || on_each,
            !on_each ==> (r is Ok <==> size <= old(self).spec_free()),
            size == 0 ==> r is Ok,
            !on_each && r is Err ==> final(self).spec_free() == 0 && r->Err_0 is NoRoomLeft,
            on_each && r is Err ==> r->Err_0 is NoRoomOnEach || r->Err_0 is NoRoomLeft,
    {
        let mut number_to_alloc: usize = size;
        while number_to_alloc > 0
            invariant
                number_to_alloc <= size,
                self.nodes@.len() == old(self).nodes@.len(),
                pm_le(*old(self), *self),
                self.spec_total() == old(self).spec_total(),
                forall|j2: u32| j2 != jobid ==> self.spec_job(j2) == old(self).spec_job(j2),
                self.spec_job(jobid) == old(self).spec_job(jobid) + (size - number_to_alloc),
                self.spec_free() + (size - number_to_alloc) == old(self).spec_free(),
            decreases number_to_alloc,
        {
            let ghost nta0 = number_to_alloc;
            let ghost pass0 = *self;
            let pairs: Vec<(usize, usize)> = self.each_numa();
            let np: usize = pairs.len();
            let mut did_alloc: bool = false;
            let mut t: usize = 0;
            while t < np && number_to_alloc > 0
                invariant
                    0 <= t <= np,
                    np == pairs@.len(),
                    number_to_alloc <= nta0,
                    nta0 <= size,
                    did_alloc ==> number_to_alloc < nta0,
                    !did_alloc ==> number_to_alloc == nta0,
                    number_to_alloc > 0 || did_alloc,
                    nta0 > 0,
                    self.nodes@.len() == old(self).nodes@.len(),
                    pm_le(*old(self), *self),
                    pm_le(pass0, *self),
                    self.spec_total() == old(self).spec_total(),
                    forall|j2: u32| j2 != jobid ==> self.spec_job(j2) == old(self).spec_job(j2),
                    self.spec_job(jobid) == old(self).spec_job(jobid) + (size - number_to_alloc),
                    self.spec_free() + (size - number_to_alloc) == old(self).spec_free(),
                    forall|t2: int| 0 <= t2 < pairs@.len() ==> (#[trigger] pairs@[t2]).0
                        < pass0.nodes@.len() && pairs@[t2].1 < pass0.nodes@[
                        pairs@[t2].0 as int].numas@.len(),
                    forall|k: int, q: int| 0 <= k < pass0.nodes@.len() && 0 <= q
                        < pass0.nodes@[k].numas@.len() ==> #[trigger] pair_in(pairs@, k, q),
                    forall|k: int| 0 <= k < pass0.nodes@.len() ==> pass0.nodes@[k].numas@.len()
                        == (#[trigger] self.nodes@[k]).numas@.len(),
                    !did_alloc ==> (forall|t2: int| 0 <= t2 < t ==> numa_free(
                        #[trigger] self.nodes@[pairs@[t2].0 as int].numas@[pairs@[t2].1 as int],
                    ) == 0),
                decreases np - t,
            {
                let k: usize = pairs[t].0;
                let q: usize = pairs[t].1;
                let ghost prev = *self;
                let node: &mut Node = &mut self.nodes[k];
                let ghost pnode = *node;
                let numa: &mut Numa = &mut node.numas[q];
                let res: Result<(), Error> = numa.acquire(jobid);
                proof {
                    lemma_numas_update(pnode.numas@, q as int, node.numas@[q as int]);
                    lemma_nodes_update(prev.nodes@, k as int, *node);
                    assert forall|kk: int| 0 <= kk < self.nodes@.len() implies node_le(
                        #[trigger] prev.nodes@[kk],
                        self.nodes@[kk],
                    ) by {
                        if kk != k {
                            assert(self.nodes@[kk] == prev.nodes@[kk]);
                            lemma_node_le_refl(self.nodes@[kk]);
                        } else {
                            assert forall|qq: int| 0 <= qq < pnode.numas@.len() implies numa_le(
                                #[trigger] pnode.numas@[qq],
                                self.nodes@[kk].numas@[qq],
                            ) by {
                                if qq != q {
                                    assert(self.nodes@[kk].numas@[qq] == pnode.numas@[qq]);
                                    lemma_numa_le_refl(pnode.numas@[qq]);
                                }
                            }
                        }
                    }
                    assert(pm_le(prev, *self));
                    assert forall|kk: int| 0 <= kk < self.nodes@.len() implies node_le(
                        #[trigger] old(self).nodes@[kk],
                        self.nodes@[kk],
                    ) by {
                        lemma_node_le_trans(
                            old(self).nodes@[kk],
                            prev.nodes@[kk],
                            self.nodes@[kk],
                        );
                    }
                    assert forall|kk: int| 0 <= kk < self.nodes@.len() implies node_le(
                        #[trigger] pass0.nodes@[kk],
                        self.nodes@[kk],
                    ) by {
                        lemma_node_le_trans(pass0.nodes@[kk], prev.nodes@[kk], self.nodes@[kk]);
                    }
                    assert forall|j2: u32| j2 != jobid implies self.spec_job(j2)
                        == prev.spec_job(j2) by {
                        assert(numa_job(node.numas@[q as int], j2) == numa_job(
                            pnode.numas@[q as int],
                            j2,
                        ));
                        assert(numas_job(node.numas@, j2) + numa_job(pnode.numas@[q as int], j2)
                            == numas_job(pnode.numas@, j2) + numa_job(
                            node.numas@[q as int],
                            j2,
                        ));
                        assert(nodes_job(self.nodes@, j2) + node_job(prev.nodes@[k as int], j2)
                            == nodes_job(prev.nodes@, j2) + node_job(*node, j2));
                    }
                }
                match res {
                    Ok(()) => {
                        did_alloc = true;
                        number_to_alloc = number_to_alloc - 1;
                    },
                    Err(_) => {
                        if on_each {
                            return Err(Error::NoRoomOnEach);
                        }
                        proof {
                            assert(self.nodes@[k as int].numas@ =~= pnode.numas@);
                            if !did_alloc {
                                assert forall|t2: int| 0 <= t2 < t + 1 implies numa_free(
                                    #[trigger] self.nodes@[pairs@[t2].0 as int].numas@[
                                        pairs@[t2].1 as int],
                                ) == 0 by {
                                    if pairs@[t2].0 as int == k as int {
                                        assert(self.nodes@[pairs@[t2].0 as int].numas@[
                                            pairs@[t2].1 as int] == pnode.numas@[
                                            pairs@[t2].1 as int]);
                                    } else {
                                        assert(self.nodes@[pairs@[t2].0 as int] == prev.nodes@[
                                            pairs@[t2].0 as int]);
                                    }
                                    if t2 < t {
                                        assert(numa_free(
                                            prev.nodes@[pairs@[t2].0 as int].numas@[
                                                pairs@[t2].1 as int],
                                        ) == 0);
                                    } else {
                                        assert(numa_free(
                                            prev.nodes@[k as int].numas@[q as int],
                                        ) == 0);
                                    }
                                }
                            }
                        }
                    },
                }
                t = t + 1;
            }
            if !did_alloc {
                proof {
                    assert forall|k: int, q: int|
                        0 <= k < self.nodes@.len() && 0 <= q
                            < self.nodes@[k].numas@.len() implies numa_free(
                        #[trigger] self.nodes@[k].numas@[q],
                    ) == 0 by {
                        assert(pair_in(pairs@, k, q));
                        let t2 = choose|t2: int|
                            0 <= t2 < pairs@.len() && pairs@[t2].0 == k && pairs@[t2].1 == q;
                        assert(numa_free(
                            self.nodes@[pairs@[t2].0 as int].numas@[pairs@[t2].1 as int],
                        ) == 0);
                    }
                    assert forall|k: int| 0 <= k < self.nodes@.len() implies node_free(
                        #[trigger] self.nodes@[k],
                    ) == 0 by {
                        crate::map::lemma_numas_free_zero(self.nodes@[k].numas@);
                    }
                    crate::map::lemma_nodes_free_zero(self.nodes@);
                    assert(self.spec_free() == 0);
                }
                return Err(Error::NoRoomLeft { left: number_to_alloc });
            }
        }
        Ok(())
    }

    /// Repeated passes over the nodes, one slot per node and pass.
    fn defined_size_node(&mut self, size: usize, jobid: u32, on_each: bool) -> (r: Result<
        (),
        Error,
    >)
        ensures
            pm_le(*old(self), *final(self)),
            final(self).spec_total() == old(self).spec_total(),
            final(self).nodes@.len() == old(self).nodes@.len(),
            forall|j2: u32| j2 != jobid ==> final(self).spec_job(j2) == old(self).spec_job(j2),
            final(self).spec_free() + final(self).spec_job(jobid) == old(self).spec_free() + old(
                self,
            ).spec_job(jobid),
            r is Ok ==> final(self).spec_job(jobid) == old(self).spec_job(jobid) + size,
            r is Err ==> old(self).spec_free() < size || on_each,
            !on_each ==> (r is Ok <==> size <= old(self).spec_free()),
            size == 0 ==> r is Ok,
            !on_each && r is Err ==> final(self).spec_free() == 0 && r->Err_0 is NoRoomLeft,
            on_each && r is Err ==> r->Err_0 is NoRoomOnEach || r->Err_0 is NoRoomLeft,
    {
        let mut number_to_alloc: usize = size;
        while number_to_alloc > 0
            invariant
                number_to_alloc <= size,
                self.nodes@.len() == old(self).nodes@.len(),
                pm_le(*old(self), *self),
                self.spec_total() == old(self).spec_total(),
                forall|j2: u32| j2 != jobid ==> self.spec_job(j2) == old(self).spec_job(j2),
                self.spec_job(jobid) == old(self).spec_job(jobid) + (size - number_to_alloc),
                self.spec_free() + (size - number_to_alloc) == old(self).spec_free(),
            decreases number_to_alloc,
        {
            let ghost nta0 = number_to_alloc;
            let n: usize = self.nodes.len();
            let mut did_alloc: bool = false;
            let mut k: usize = 0;
            while k < n && number_to_alloc > 0
                invariant
                    0 <= k <= n,
                    n == self.nodes@.len(),
                    number_to_alloc <= nta0,
                    nta0 <= size,
                    did_alloc ==> number_to_alloc < nta0,
                    !did_alloc ==> number_to_alloc == nta0,
                    number_to_alloc > 0 || did_alloc,
                    nta0 > 0,
                    self.nodes@.len() == old(self).nodes@.len(),
                    pm_le(*old(self), *self),
                    self.spec_total() == old(self).spec_total(),
                    forall|j2: u32| j2 != jobid ==> self.spec_job(j2) == old(self).spec_job(j2),
                    self.spec_job(jobid) == old(self).spec_job(jobid) + (size - number_to_alloc),
                    self.spec_free() + (size - number_to_alloc) == old(self).spec_free(),
                    !did_alloc ==> (forall|k2: int| 0 <= k2 < k ==> node_free(
                        #[trigger] self.nodes@[k2],
                    ) == 0),
                decreases n - k,
            {
                let ghost prev = *self;
                let node: &mut Node = &mut self.nodes[k];
                let res: Result<(), Error> = node.acquire(jobid);
                proof {
                    lemma_nodes_update(prev.nodes@, k as int, *node);
                    crate::map::lemma_node_le_total(prev.nodes@[k as int], *node);
                    assert forall|kk: int| 0 <= kk < self.nodes@.len() implies node_le(
                        #[trigger] prev.nodes@[kk],
                        self.nodes@[kk],
                    ) by {
                        if kk != k {
                            assert(self.nodes@[kk] == prev.nodes@[kk]);
                            lemma_node_le_refl(self.nodes@[kk]);
                        }
                    }
                    assert(pm_le(prev, *self));
                    assert forall|kk: int| 0 <= kk < self.nodes@.len() implies node_le(
                        #[trigger] old(self).nodes@[kk],
                        self.nodes@[kk],
                    ) by {
                        lemma_node_le_trans(
                            old(self).nodes@[kk],
                            prev.nodes@[kk],
                            self.nodes@[kk],
                        );
                    }
                }
                match res {
                    Ok(()) => {
                        did_alloc = true;
                        number_to_alloc = number_to_alloc - 1;
                    },
                    Err(_) => {
                        if on_each {
                            return Err(Error::NoRoomOnEach);
                        }
                        proof {
                            if !did_alloc {
                                assert forall|k2: int| 0 <= k2 < k + 1 implies node_free(
                                    #[trigger] self.nodes@[k2],
                                ) == 0 by {
                                    if k2 == k {
                                        assert(self.nodes@[k2].numas@ == prev.nodes@[k2].numas@);
                                        assert(node_free(prev.nodes@[k as int]) == 0);
                                    } else {
                                        assert(self.nodes@[k2] == prev.nodes@[k2]);
                                        assert(node_free(prev.nodes@[k2]) == 0);
                                    }
                                }
                            }
                        }
                    },
                }
                k = k + 1;
            }
            if !did_alloc {
                proof {
                    crate::map::lemma_nodes_free_zero(self.nodes@);
                    assert(self.spec_free() == 0);
                }
                return Err(Error::NoRoomLeft { left: number_to_alloc });
            }
        }
        Ok(())
    }
}


/// Sum of the orders of the fixed-count jobs among the first `upto` entries.
pub open spec fn fixed_sum(js: Seq<JobEntry>, upto: int) -> int
    decreases upto,
{
    if upto <= 0 {
        0
    } else {
        fixed_sum(js, upto - 1) + (if js[upto - 1].parsed is Fixed {
            js[upto - 1].parsed->Fixed_0 as int
        } else {
            0
        })
    }
}

pub proof fn lemma_fixed_sum_mono(js: Seq<JobEntry>, a: int, b: int)
    requires
        0 <= a <= b,
    ensures
        fixed_sum(js, a) <= fixed_sum(js, b),
    decreases b - a,
{
    if a < b {
        lemma_fixed_sum_mono(js, a, b - 1);
    }
}

pub proof fn lemma_fixed_sum_flat(js: Seq<JobEntry>, a: int, b: int)
    requires
        0 <= a <= b,
        forall|x: int| a <= x < b ==> !((#[trigger] js[x]).parsed is Fixed),
    ensures
        fixed_sum(js, b) == fixed_sum(js, a),
    decreases b - a,
{
    if a < b {
        lemma_fixed_sum_flat(js, a, b - 1);
    }
}

/// The position of the first `A` job of the list.
pub open spec fn first_all(js: Seq<JobEntry>) -> int
    decreases js.len(),
{
    if js.len() == 0 {
        0
    } else if js[0].parsed is All {
        0
    } else {
        1 + first_all(js.drop_first())
    }
}

pub proof fn lemma_count_class_exists(js: Seq<JobEntry>, c: OrderClass)
    requires
        count_class(js, c) > 0,
    ensures
        exists|x: int| 0 <= x < js.len() && crate::joblist::class_of((#[trigger] js[x]).parsed)
            == c,
    decreases js.len(),
{
    if js.len() > 0 {
        if crate::joblist::class_of(js.last().parsed) == c {
            assert(js[js.len() - 1] == js.last());
        } else {
            lemma_count_class_exists(js.drop_last(), c);
            let x = choose|x: int|
                0 <= x < js.drop_last().len() && crate::joblist::class_of(
                    (#[trigger] js.drop_last()[x]).parsed,
                ) == c;
            assert(js[x] == js.drop_last()[x]);
            assert(crate::joblist::class_of(js[x].parsed) == c);
        }
    }
}

pub proof fn lemma_first_all(js: Seq<JobEntry>)
    requires
        exists|x: int| 0 <= x < js.len() && (#[trigger] js[x]).parsed is All,
    ensures
        0 <= first_all(js) < js.len(),
        js[first_all(js)].parsed is All,
        forall|x: int| 0 <= x < first_all(js) ==> !((#[trigger] js[x]).parsed is All),
    decreases js.len(),
{
    if js.len() > 0 && !(js[0].parsed is All) {
        let w = choose|x: int| 0 <= x < js.len() && (#[trigger] js[x]).parsed is All;
        let d = js.drop_first();
        assert(forall|x: int| 0 <= x < d.len() ==> d[x] == js[x + 1]);
        assert(d[w - 1].parsed is All);
        lemma_first_all(d);
        assert forall|x: int| 0 <= x < first_all(js) implies !((#[trigger] js[x]).parsed
            is All) by {
            if x > 0 {
                assert(!(d[x - 1].parsed is All));
            }
        }
    }
}

impl ProcMap {
    /// Phase 1: serve the `E` jobs in list order, acquiring one slot on
    /// every container of each job's locality.
    pub fn map_each_jobs(&mut self, jobs: &JobList) -> (r: Result<(), Error>)
        requires
            jobs.wf(),
            jobs.jobs@.len() <= u32::MAX,
        ensures
            pm_le(*old(self), *final(self)),
            final(self).spec_total() == old(self).spec_total(),
            final(self).nodes@.len() == old(self).nodes@.len(),
            forall|j2: u32|
                !(j2 < jobs.jobs@.len() && jobs.jobs@[j2 as int].parsed is Each) ==> final(self).spec_job(j2) == old(self).spec_job(j2),
            r is Ok ==> forall|x: int|
                0 <= x < jobs.jobs@.len() && (#[trigger] jobs.jobs@[x]).parsed is Each
                    ==> each_satisfied(*final(self), x as u32, jobs.jobs@[x].spec_loc_or_slot()),
            r is Err ==> r->Err_0.spec_is_capacity(),
            count_class(jobs.jobs@, OrderClass::Each) == 0 ==> r is Ok && *final(self) == *old(
                self,
            ),
            count_class(jobs.jobs@, OrderClass::Each) == 1 ==> (r is Ok <==> (forall|x: int|
                0 <= x < jobs.jobs@.len() && (#[trigger] jobs.jobs@[x]).parsed is Each
                    ==> locality_has_room(*old(self), jobs.jobs@[x].spec_loc_or_slot()))),
    {
        let es: Vec<u32> = jobs.each_jobs();
        let ne: usize = es.len();
        if ne == 0 {
            proof {
                crate::map::lemma_pm_le_refl(*old(self));
            }
            return Ok(());
        }
        let mut t: usize = 0;
        while t < ne
            invariant
                0 <= t <= ne,
                ne == es@.len(),
                ne == count_class(jobs.jobs@, OrderClass::Each),
                jobs.wf(),
                jobs.jobs@.len() <= u32::MAX,
                forall|t2: int| 0 <= t2 < es@.len() ==> #[trigger] es@[t2] < jobs.jobs@.len()
                    && jobs.jobs@[es@[t2] as int].parsed is Each,
                forall|i: int| 0 <= i < jobs.jobs@.len() && (#[trigger] jobs.jobs@[i]).parsed
                    is Each ==> exists|t2: int| 0 <= t2 < es@.len() && es@[t2] == i,
                self.nodes@.len() == old(self).nodes@.len(),
                pm_le(*old(self), *self),
                self.spec_total() == old(self).spec_total(),
                forall|j2: u32|
                    !(j2 < jobs.jobs@.len() && jobs.jobs@[j2 as int].parsed is Each)
                        ==> self.spec_job(j2) == old(self).spec_job(j2),
                forall|t2: int| 0 <= t2 < t ==> each_satisfied(
                    *self,
                    #[trigger] es@[t2],
                    jobs.jobs@[es@[t2] as int].spec_loc_or_slot(),
                ),
                t == 0 ==> self.nodes@ == old(self).nodes@,
                ne == 1 && t == 1 ==> locality_has_room(
                    *old(self),
                    jobs.jobs@[es@[0] as int].spec_loc_or_slot(),
                ),
            decreases ne - t,
        {
            let x: u32 = es[t];
            let ghost prev = *self;
            let res: Result<(), Error> = match jobs.jobs[x as usize].loc {
                Some(Loc::Numa) => self.map_each_numa(x),
                Some(Loc::Node) => self.map_each_node(x),
                Some(Loc::Slot) => self.map_each_slot(x),
                None => {
                    proof {
                        assert(jobs.jobs@[x as int].wf());
                        assert(false);
                    }
                    Ok(())
                },
            };
            match res {
                Ok(()) => {
                    proof {
                        if t == 0 {
                            lemma_room_congruent(prev, *old(self), jobs.jobs@[x as int].spec_loc_or_slot());
                            assert(locality_has_room(
                                *old(self),
                                jobs.jobs@[es@[0] as int].spec_loc_or_slot(),
                            ));
                        }
                    }
                },
                Err(e) => {
                    proof {
                        if ne == 1 {
                            lemma_room_congruent(prev, *old(self), jobs.jobs@[x as int].spec_loc_or_slot());
                            assert(!locality_has_room(
                                *old(self),
                                jobs.jobs@[x as int].spec_loc_or_slot(),
                            ));
                            assert(jobs.jobs@[es@[0] as int].parsed is Each);
                        }
                    }
                    return Err(e);
                },
            }
            proof {
                lemma_pm_le_trans(*old(self), prev, *self);
                assert forall|t2: int| 0 <= t2 < t + 1 implies each_satisfied(
                    *self,
                    #[trigger] es@[t2],
                    jobs.jobs@[es@[t2] as int].spec_loc_or_slot(),
                ) by {
                    if t2 < t {
                        lemma_each_satisfied_le(
                            prev,
                            *self,
                            es@[t2],
                            jobs.jobs@[es@[t2] as int].spec_loc_or_slot(),
                        );
                    } else {
                        assert(each_satisfied(
                            *self,
                            x,
                            jobs.jobs@[x as int].spec_loc_or_slot(),
                        ));
                    }
                }
            }
            t = t + 1;
        }
        proof {
            assert forall|x: int|
                0 <= x < jobs.jobs@.len() && (#[trigger] jobs.jobs@[x]).parsed
                    is Each implies each_satisfied(
                *self,
                x as u32,
                jobs.jobs@[x].spec_loc_or_slot(),
            ) by {
                let t2 = choose|t2: int| 0 <= t2 < es@.len() && es@[t2] == x;
                assert(each_satisfied(
                    *self,
                    es@[t2],
                    jobs.jobs@[es@[t2] as int].spec_loc_or_slot(),
                ));
            }
            if ne == 1 {
                assert forall|x: int|
                    0 <= x < jobs.jobs@.len() && (#[trigger] jobs.jobs@[x]).parsed
                        is Each implies locality_has_room(
                    *old(self),
                    jobs.jobs@[x].spec_loc_or_slot(),
                ) by {
                    let t2 = choose|t2: int| 0 <= t2 < es@.len() && es@[t2] == x;
                    assert(t2 == 0);
                    assert(locality_has_room(
                        *old(self),
                        jobs.jobs@[es@[0] as int].spec_loc_or_slot(),
                    ));
                }
            }
        }
        Ok(())
    }

    /// Phase 2: serve the fixed-count jobs in list order, each at its own
    /// locality, a container without room failing the walk at once.
    pub fn map_fixed_jobs(&mut self, jobs: &JobList) -> (r: Result<(), Error>)
        requires
            jobs.wf(),
            jobs.jobs@.len() <= u32::MAX,
        ensures
            pm_le(*old(self), *final(self)),
            final(self).spec_total() == old(self).spec_total(),
            final(self).nodes@.len() == old(self).nodes@.len(),
            forall|j2: u32|
                !(j2 < jobs.jobs@.len() && jobs.jobs@[j2 as int].parsed is Fixed) ==> final(self).spec_job(j2) == old(self).spec_job(j2),
            r is Ok ==> forall|x: int|
                0 <= x < jobs.jobs@.len() && (#[trigger] jobs.jobs@[x]).parsed is Fixed ==> final(self).spec_job(x as u32) == old(self).spec_job(x as u32)
                    + jobs.jobs@[x].parsed->Fixed_0,
            r is Err ==> r->Err_0.spec_is_capacity(),
            count_class(jobs.jobs@, OrderClass::Fixed) == 0 ==> r is Ok && *final(self) == *old(
                self,
            ),
            (forall|x: int|
                0 <= x < jobs.jobs@.len() && (#[trigger] jobs.jobs@[x]).parsed is Fixed
                    ==> jobs.jobs@[x].spec_loc_or_slot() == Loc::Slot) && fixed_sum(
                jobs.jobs@,
                jobs.jobs@.len() as int,
            ) <= old(self).spec_free() ==> r is Ok,
            count_class(jobs.jobs@, OrderClass::Fixed) == 1 && (forall|x: int|
                0 <= x < jobs.jobs@.len() && (#[trigger] jobs.jobs@[x]).parsed is Fixed
                    ==> jobs.jobs@[x].spec_loc_or_slot() == Loc::Slot) ==> {
                &&& (r is Ok <==> (forall|x: int|
                    0 <= x < jobs.jobs@.len() && (#[trigger] jobs.jobs@[x]).parsed is Fixed
                        ==> jobs.jobs@[x].parsed->Fixed_0 <= old(self).spec_free()))
                &&& (r matches Err(e) ==> final(self).spec_free() == 0 && (forall|x: int|
                    0 <= x < jobs.jobs@.len() && (#[trigger] jobs.jobs@[x]).parsed is Fixed
                        ==> e == (Error::NotEnoughSlots {
                        requested: jobs.jobs@[x].parsed->Fixed_0,
                    })))
            },
    {
        let fx: Vec<u32> = jobs.fixed_jobs();
        let nf: usize = fx.len();
        if nf == 0 {
            proof {
                crate::map::lemma_pm_le_refl(*old(self));
            }
            return Ok(());
        }
        let mut t: usize = 0;
        proof {
            assert forall|y: int| 0 <= y < fx@[0] implies !((#[trigger] jobs.jobs@[y]).parsed
                is Fixed) by {
                if jobs.jobs@[y].parsed is Fixed {
                    let t2 = choose|t2: int| 0 <= t2 < fx@.len() && fx@[t2] == y;
                    if t2 > 0 {
                        assert(fx@[0] < fx@[t2]);
                    }
                }
            }
            lemma_fixed_sum_flat(jobs.jobs@, 0, fx@[0] as int);
        }
        while t < nf
            invariant
                0 <= t <= nf,
                nf == fx@.len(),
                nf == count_class(jobs.jobs@, OrderClass::Fixed),
                nf >= 1,
                jobs.wf(),
                jobs.jobs@.len() <= u32::MAX,
                forall|t2: int| 0 <= t2 < fx@.len() ==> #[trigger] fx@[t2] < jobs.jobs@.len()
                    && jobs.jobs@[fx@[t2] as int].parsed is Fixed,
                forall|t1: int, t2: int| 0 <= t1 < t2 < fx@.len() ==> fx@[t1] < fx@[t2],
                forall|i: int| 0 <= i < jobs.jobs@.len() && (#[trigger] jobs.jobs@[i]).parsed
                    is Fixed ==> exists|t2: int| 0 <= t2 < fx@.len() && fx@[t2] == i,
                self.nodes@.len() == old(self).nodes@.len(),
                pm_le(*old(self), *self),
                self.spec_total() == old(self).spec_total(),
                forall|j2: u32|
                    !(j2 < jobs.jobs@.len() && jobs.jobs@[j2 as int].parsed is Fixed)
                        ==> self.spec_job(j2) == old(self).spec_job(j2),
                forall|t2: int| 0 <= t2 < t ==> self.spec_job(#[trigger] fx@[t2]) == old(
                    self,
                ).spec_job(fx@[t2]) + jobs.jobs@[fx@[t2] as int].parsed->Fixed_0,
                forall|t2: int| t <= t2 < fx@.len() ==> self.spec_job(#[trigger] fx@[t2]) == old(
                    self,
                ).spec_job(fx@[t2]),
                self.spec_free() + fixed_sum(
                    jobs.jobs@,
                    (if t < nf {
                        fx@[t as int] as int
                    } else {
                        jobs.jobs@.len() as int
                    }),
                ) == old(self).spec_free(),
                t == 0 ==> self.nodes@ == old(self).nodes@,
                nf == 1 && t == 1 ==> (forall|x2: int|
                    0 <= x2 < jobs.jobs@.len() && (#[trigger] jobs.jobs@[x2]).parsed is Fixed
                        ==> jobs.jobs@[x2].parsed->Fixed_0 <= old(self).spec_free()),
            decreases nf - t,
        {
            let x: u32 = fx[t];
            let number_to_alloc: usize = match jobs.jobs[x as usize].parsed {
                Order::Fixed(n) => n,
                _ => {
                    proof {
                        assert(false);
                    }
                    0
                },
            };
            let level: Loc = jobs.jobs[x as usize].loc_or_slot();
            let ghost prev = *self;
            let ghost all_slot_loc = forall|x2: int|
                0 <= x2 < jobs.jobs@.len() && (#[trigger] jobs.jobs@[x2]).parsed is Fixed
                    ==> jobs.jobs@[x2].spec_loc_or_slot() == Loc::Slot;
            proof {
                // under the slot-locality budget, this walk cannot fail
                if all_slot_loc {
                    assert(level == Loc::Slot);
                    lemma_fixed_sum_mono(jobs.jobs@, fx@[t as int] + 1, jobs.jobs@.len() as int);
                }
            }
            let res: Result<(), Error> = self.map_for_defined_size(
                level,
                number_to_alloc,
                x,
                true,
            );
            match res {
                Ok(()) => {
                    proof {
                        if nf == 1 {
                            assert(t == 0);
                            assert(prev.spec_free() == old(self).spec_free());
                            if level is Slot {
                                assert(number_to_alloc <= prev.spec_free());
                            } else {
                                assert(number_to_alloc <= prev.spec_free()) by {
                                    assert(prev.spec_free() + number_to_alloc == prev.spec_free()
                                        + (self.spec_job(x) - prev.spec_job(x)));
                                    assert(self.spec_free() + self.spec_job(x)
                                        == prev.spec_free() + prev.spec_job(x));
                                };
                            }
                            assert forall|x2: int|
                                0 <= x2 < jobs.jobs@.len() && (#[trigger] jobs.jobs@[x2]).parsed
                                    is Fixed implies jobs.jobs@[x2].parsed->Fixed_0 <= old(
                                self,
                            ).spec_free() by {
                                let t2 = choose|t2: int| 0 <= t2 < fx@.len() && fx@[t2] == x2;
                                assert(t2 == 0);
                            }
                        }
                    }
                },
                Err(e) => {
                    proof {
                        if all_slot_loc && fixed_sum(jobs.jobs@, jobs.jobs@.len() as int) <= old(
                            self,
                        ).spec_free() {
                            assert(jobs.jobs@[x as int].parsed is Fixed);
                            assert(fixed_sum(jobs.jobs@, fx@[t as int] + 1) == fixed_sum(
                                jobs.jobs@,
                                fx@[t as int] as int,
                            ) + number_to_alloc);
                            assert(fixed_sum(jobs.jobs@, fx@[t as int] + 1) <= fixed_sum(
                                jobs.jobs@,
                                jobs.jobs@.len() as int,
                            ));
                            assert(prev.spec_free() + fixed_sum(
                                jobs.jobs@,
                                fx@[t as int] as int,
                            ) == old(self).spec_free());
                            assert(number_to_alloc <= prev.spec_free());
                            assert(false);
                        }
                        if nf == 1 && all_slot_loc {
                            assert(prev.spec_free() == old(self).spec_free());
                            assert(number_to_alloc > old(self).spec_free());
                            assert(jobs.jobs@[fx@[0] as int].parsed->Fixed_0 > old(
                                self,
                            ).spec_free());
                            assert forall|x2: int|
                                0 <= x2 < jobs.jobs@.len() && (#[trigger] jobs.jobs@[x2]).parsed
                                    is Fixed implies e == (Error::NotEnoughSlots {
                                requested: jobs.jobs@[x2].parsed->Fixed_0,
                            }) by {
                                let t2 = choose|t2: int| 0 <= t2 < fx@.len() && fx@[t2] == x2;
                                assert(t2 == 0);
                            }
                        }
                    }
                    return Err(e);
                },
            }
            proof {
                lemma_pm_le_trans(*old(self), prev, *self);
                assert forall|t2: int| t + 1 <= t2 < fx@.len() implies self.spec_job(
                    #[trigger] fx@[t2],
                ) == old(self).spec_job(fx@[t2]) by {
                    assert(fx@[t as int] < fx@[t2]);
                }
                // move the consumed-budget boundary to the next fixed job
                let b2: int = if t + 1 < nf {
                    fx@[t + 1] as int
                } else {
                    jobs.jobs@.len() as int
                };
                assert forall|y: int| fx@[t as int] + 1 <= y < b2 implies !((
                #[trigger] jobs.jobs@[y]).parsed is Fixed) by {
                    if jobs.jobs@[y].parsed is Fixed {
                        let t2 = choose|t2: int| 0 <= t2 < fx@.len() && fx@[t2] == y;
                        if t2 <= t {
                            assert(fx@[t2] <= fx@[t as int]);
                        } else {
                            if t + 1 < nf {
                                assert(fx@[t + 1] <= fx@[t2]);
                            }
                        }
                    }
                }
                lemma_fixed_sum_flat(jobs.jobs@, fx@[t as int] + 1, b2);
                assert(fixed_sum(jobs.jobs@, fx@[t as int] + 1) == fixed_sum(
                    jobs.jobs@,
                    fx@[t as int] as int,
                ) + number_to_alloc);
            }
            t = t + 1;
        }
        proof {
            assert forall|x: int|
                0 <= x < jobs.jobs@.len() && (#[trigger] jobs.jobs@[x]).parsed
                    is Fixed implies self.spec_job(x as u32) == old(self).spec_job(x as u32)
                + jobs.jobs@[x].parsed->Fixed_0 by {
                let t2 = choose|t2: int| 0 <= t2 < fx@.len() && fx@[t2] == x;
                assert(self.spec_job(fx@[t2]) == old(self).spec_job(fx@[t2]) + jobs.jobs@[
                    fx@[t2] as int].parsed->Fixed_0);
            }
        }
        Ok(())
    }

    /// Phase 3: share every remaining free slot among the `A` jobs.  The
    /// first `A` job of the list takes the quotient plus the remainder of
    /// the division, every later one exactly the quotient; so the phase
    /// consumes the whole free count measured at its entry and cannot fail.
    pub fn map_all_jobs(&mut self, jobs: &JobList) -> (r: Result<(), Error>)
        requires
            jobs.wf(),
            jobs.jobs@.len() <= u32::MAX,
            old(self).spec_total() <= usize::MAX,
        ensures
            pm_le(*old(self), *final(self)),
            final(self).spec_total() == old(self).spec_total(),
            final(self).nodes@.len() == old(self).nodes@.len(),
            forall|j2: u32|
                !(j2 < jobs.jobs@.len() && jobs.jobs@[j2 as int].parsed is All) ==> final(self).spec_job(j2) == old(self).spec_job(j2),
            r is Ok,
            count_class(jobs.jobs@, OrderClass::All) > 0 ==> final(self).spec_free() == 0,
            count_class(jobs.jobs@, OrderClass::All) > 0 ==> forall|x: int|
                0 <= x < jobs.jobs@.len() && (#[trigger] jobs.jobs@[x]).parsed is All ==> final(self).spec_job(x as u32) == old(self).spec_job(x as u32) + (if x == first_all(
                    jobs.jobs@,
                ) {
                    old(self).spec_free() / (count_class(jobs.jobs@, OrderClass::All) as nat)
                        + old(self).spec_free() % (count_class(
                        jobs.jobs@,
                        OrderClass::All,
                    ) as nat)
                } else {
                    old(self).spec_free() / (count_class(jobs.jobs@, OrderClass::All) as nat)
                }),
            count_class(jobs.jobs@, OrderClass::All) == 0 ==> *final(self) == *old(self),
    {
        let remaining: usize = self.count_free_slots();
        let all: Vec<u32> = jobs.all_jobs();
        let kc: usize = all.len();
        if kc == 0 {
            return Ok(());
        }
        let quantum: usize = remaining / kc;
        proof {
            vstd::arithmetic::div_mod::lemma_fundamental_div_mod(remaining as int, kc as int);
            vstd::arithmetic::div_mod::lemma_mod_bound(remaining as int, kc as int);
            assert(quantum * kc == kc * quantum) by (nonlinear_arith);
            assert(quantum * kc <= remaining);
        }
        let rest: usize = remaining - quantum * kc;
        proof {
            assert(rest == remaining % kc);
            assert(rest < kc);
            lemma_first_all(jobs.jobs@);
            assert(all@[0] == first_all(jobs.jobs@)) by {
                let fa = first_all(jobs.jobs@);
                assert(jobs.jobs@[fa].parsed is All);
                let t2 = choose|t2: int| 0 <= t2 < all@.len() && all@[t2] == fa;
                if t2 > 0 {
                    assert(all@[0] < all@[t2]);
                }
                assert(all@[0] <= fa);
                assert(jobs.jobs@[all@[0] as int].parsed is All);
                if all@[0] < fa {
                    assert(!(jobs.jobs@[all@[0] as int].parsed is All));
                }
            }
        }
        let mut t: usize = 0;
        while t < kc
            invariant
                0 <= t <= kc,
                kc == all@.len(),
                kc > 0,
                jobs.wf(),
                jobs.jobs@.len() <= u32::MAX,
                quantum == remaining as int / kc as int,
                rest == remaining as int % kc as int,
                rest < kc,
                remaining == quantum * kc + rest,
                remaining == old(self).spec_free(),
                all@[0] == first_all(jobs.jobs@),
                forall|t2: int| 0 <= t2 < all@.len() ==> #[trigger] all@[t2] < jobs.jobs@.len()
                    && jobs.jobs@[all@[t2] as int].parsed is All,
                forall|t1: int, t2: int| 0 <= t1 < t2 < all@.len() ==> all@[t1] < all@[t2],
                forall|i: int| 0 <= i < jobs.jobs@.len() && (#[trigger] jobs.jobs@[i]).parsed
                    is All ==> exists|t2: int| 0 <= t2 < all@.len() && all@[t2] == i,
                self.nodes@.len() == old(self).nodes@.len(),
                pm_le(*old(self), *self),
                self.spec_total() == old(self).spec_total(),
                forall|j2: u32|
                    !(j2 < jobs.jobs@.len() && jobs.jobs@[j2 as int].parsed is All)
                        ==> self.spec_job(j2) == old(self).spec_job(j2),
                forall|t2: int| 0 <= t2 < t ==> self.spec_job(#[trigger] all@[t2]) == old(
                    self,
                ).spec_job(all@[t2]) + (if t2 == 0 {
                    quantum + rest
                } else {
                    quantum as int
                }),
                forall|t2: int| t <= t2 < all@.len() ==> self.spec_job(#[trigger] all@[t2])
                    == old(self).spec_job(all@[t2]),
                t == 0 ==> self.spec_free() == remaining,
                t >= 1 ==> self.spec_free() == quantum * (kc - t),
            decreases kc - t,
        {
            let x: u32 = all[t];
            proof {
                assert(quantum <= quantum * kc) by (nonlinear_arith)
                    requires
                        kc >= 1,
                        quantum >= 0,
                ;
            }
            let tsize: usize = if t == 0 {
                quantum + rest
            } else {
                quantum
            };
            proof {
                if t == 0 {
                    assert(quantum * kc >= quantum * 1) by (nonlinear_arith)
                        requires
                            kc >= 1,
                            quantum >= 0,
                    ;
                    assert(tsize <= self.spec_free());
                } else {
                    assert(quantum * (kc - t) >= quantum * 1) by (nonlinear_arith)
                        requires
                            kc - t >= 1,
                            quantum >= 0,
                    ;
                    assert(tsize <= self.spec_free());
                }
            }
            let level: Loc = jobs.jobs[x as usize].loc_or_slot();
            let ghost prev = *self;
            let res: Result<(), Error> = self.map_for_defined_size(level, tsize, x, false);
            match res {
                Ok(()) => {},
                Err(e) => {
                    proof {
                        assert(false);
                    }
                    return Err(e);
                },
            }
            proof {
                lemma_pm_le_trans(*old(self), prev, *self);
                assert forall|t2: int| t + 1 <= t2 < all@.len() implies self.spec_job(
                    #[trigger] all@[t2],
                ) == old(self).spec_job(all@[t2]) by {
                    assert(all@[t as int] < all@[t2]);
                }
                if t == 0 {
                    assert(self.spec_free() == remaining - quantum - rest);
                    assert(remaining - quantum - rest == quantum * (kc - 1)) by (nonlinear_arith)
                        requires
                            remaining == quantum * kc + rest,
                            kc >= 1,
                    ;
                } else {
                    assert(self.spec_free() == quantum * (kc - t) - quantum);
                    assert(quantum * (kc - t) - quantum == quantum * (kc - t - 1))
                        by (nonlinear_arith);
                }
            }
            t = t + 1;
        }
        proof {
            assert(self.spec_free() == quantum * (kc - kc));
            assert(quantum * 0 == 0) by (nonlinear_arith);
            assert forall|x: int|
                0 <= x < jobs.jobs@.len() && (#[trigger] jobs.jobs@[x]).parsed
                    is All implies self.spec_job(x as u32) == old(self).spec_job(x as u32) + (
            if x == first_all(jobs.jobs@) {
                old(self).spec_free() / (count_class(jobs.jobs@, OrderClass::All) as nat) + old(
                    self,
                ).spec_free() % (count_class(jobs.jobs@, OrderClass::All) as nat)
            } else {
                old(self).spec_free() / (count_class(jobs.jobs@, OrderClass::All) as nat)
            }) by {
                let t2 = choose|t2: int| 0 <= t2 < all@.len() && all@[t2] == x;
                assert(self.spec_job(all@[t2]) == old(self).spec_job(all@[t2]) + (if t2 == 0 {
                    quantum + rest
                } else {
                    quantum as int
                }));
                if x == first_all(jobs.jobs@) {
                    if t2 > 0 {
                        assert(all@[0] < all@[t2]);
                        assert(jobs.jobs@[all@[0] as int].parsed is All);
                        assert(!(jobs.jobs@[all@[0] as int].parsed is All));
                    }
                } else {
                    if t2 == 0 {
                        assert(all@[0] == first_all(jobs.jobs@));
                    }
                }
                assert(old(self).spec_free() as int / (count_class(
                    jobs.jobs@,
                    OrderClass::All,
                ) as int) == quantum);
            }
        }
        Ok(())
    }

    /// The whole solver: phase 1 (`E` jobs), phase 2 (fixed counts), phase 3
    /// (`A` jobs share the rest), in strict order.
    pub fn map(&mut self, jobs: &JobList) -> (r: Result<(), Error>)
        requires
            jobs.wf(),
            jobs.jobs@.len() <= u32::MAX,
            old(self).spec_total() <= usize::MAX,
        ensures
            pm_le(*old(self), *final(self)),
            final(self).spec_total() == old(self).spec_total(),
            forall|j2: u32|
                j2 >= jobs.jobs@.len() ==> final(self).spec_job(j2) == old(self).spec_job(j2),
            r is Ok ==> forall|x: int|
                0 <= x < jobs.jobs@.len() && (#[trigger] jobs.jobs@[x]).parsed is Each
                    ==> each_satisfied(*final(self), x as u32, jobs.jobs@[x].spec_loc_or_slot()),
            r is Ok ==> forall|x: int|
                0 <= x < jobs.jobs@.len() && (#[trigger] jobs.jobs@[x]).parsed is Fixed ==> final(self).spec_job(x as u32) == old(self).spec_job(x as u32)
                    + jobs.jobs@[x].parsed->Fixed_0,
            r is Ok && count_class(jobs.jobs@, OrderClass::All) > 0 ==> final(self).spec_free()
                == 0,
            r is Ok && count_class(jobs.jobs@, OrderClass::All) > 0 ==> forall|x: int, y: int|
                0 <= x < jobs.jobs@.len() && 0 <= y < jobs.jobs@.len() && (
                #[trigger] jobs.jobs@[x]).parsed is All && (#[trigger] jobs.jobs@[y]).parsed
                    is All && x != first_all(jobs.jobs@) && y != first_all(jobs.jobs@) ==> final(self).spec_job(x as u32) - old(self).spec_job(x as u32) == final(self).spec_job(
                    y as u32,
                ) - old(self).spec_job(y as u32),
            r is Ok && count_class(jobs.jobs@, OrderClass::All) > 0 ==> forall|x: int|
                0 <= x < jobs.jobs@.len() && (#[trigger] jobs.jobs@[x]).parsed is All && x
                    != first_all(jobs.jobs@) ==> {
                    let fa = first_all(jobs.jobs@);
                    let dfirst = final(self).spec_job(fa as u32) - old(self).spec_job(fa as u32);
                    let dx = final(self).spec_job(x as u32) - old(self).spec_job(x as u32);
                    dfirst >= dx && dfirst - dx < count_class(jobs.jobs@, OrderClass::All)
                },
            r is Err ==> r->Err_0.spec_is_capacity(),
            count_class(jobs.jobs@, OrderClass::Each) == 0 && count_class(
                jobs.jobs@,
                OrderClass::Fixed,
            ) == 0 ==> r is Ok,
            count_class(jobs.jobs@, OrderClass::Each) == 0 && (forall|x: int|
                0 <= x < jobs.jobs@.len() && (#[trigger] jobs.jobs@[x]).parsed is Fixed
                    ==> jobs.jobs@[x].spec_loc_or_slot() == Loc::Slot) && fixed_sum(
                jobs.jobs@,
                jobs.jobs@.len() as int,
            ) <= old(self).spec_free() ==> r is Ok,
            count_class(jobs.jobs@, OrderClass::Each) == 0 && count_class(
                jobs.jobs@,
                OrderClass::Fixed,
            ) == 1 && (forall|x: int|
                0 <= x < jobs.jobs@.len() && (#[trigger] jobs.jobs@[x]).parsed is Fixed
                    ==> jobs.jobs@[x].spec_loc_or_slot() == Loc::Slot) ==> {
                &&& (r is Ok <==> (forall|x: int|
                    0 <= x < jobs.jobs@.len() && (#[trigger] jobs.jobs@[x]).parsed is Fixed
                        ==> jobs.jobs@[x].parsed->Fixed_0 <= old(self).spec_free()))
                &&& (r matches Err(e) ==> final(self).spec_free() == 0 && (forall|x: int|
                    0 <= x < jobs.jobs@.len() && (#[trigger] jobs.jobs@[x]).parsed is Fixed
                        ==> e == (Error::NotEnoughSlots {
                        requested: jobs.jobs@[x].parsed->Fixed_0,
                    })))
            },
            count_class(jobs.jobs@, OrderClass::Fixed) == 0 && count_class(
                jobs.jobs@,
                OrderClass::Each,
            ) == 1 ==> (r is Ok <==> (forall|x: int|
                0 <= x < jobs.jobs@.len() && (#[trigger] jobs.jobs@[x]).parsed is Each
                    ==> locality_has_room(*old(self), jobs.jobs@[x].spec_loc_or_slot()))),
    {
        let ghost s0 = *self;
        match self.map_each_jobs(jobs) {
            Ok(()) => {},
            Err(e) => {
                return Err(e);
            },
        }
        let ghost s1 = *self;
        match self.map_fixed_jobs(jobs) {
            Ok(()) => {},
            Err(e) => {
                proof {
                    lemma_pm_le_trans(s0, s1, *self);
                }
                return Err(e);
            },
        }
        let ghost s2 = *self;
        proof {
            lemma_pm_le_trans(s0, s1, s2);
        }
        match self.map_all_jobs(jobs) {
            Ok(()) => {},
            Err(e) => {
                proof {
                    lemma_pm_le_trans(s0, s2, *self);
                }
                return Err(e);
            },
        }
        proof {
            lemma_pm_le_trans(s0, s2, *self);
            let js = jobs.jobs@;
            let kall = count_class(js, OrderClass::All);
            assert forall|x: int|
                0 <= x < js.len() && (#[trigger] js[x]).parsed is Each implies each_satisfied(
                *self,
                x as u32,
                js[x].spec_loc_or_slot(),
            ) by {
                assert(each_satisfied(s1, x as u32, js[x].spec_loc_or_slot()));
                lemma_pm_le_trans(s1, s2, *self);
                lemma_each_satisfied_le(s1, *self, x as u32, js[x].spec_loc_or_slot());
            }
            assert forall|x: int|
                0 <= x < js.len() && (#[trigger] js[x]).parsed is Fixed implies self.spec_job(
                x as u32,
            ) == s0.spec_job(x as u32) + js[x].parsed->Fixed_0 by {
                assert(s1.spec_job(x as u32) == s0.spec_job(x as u32));
                assert(s2.spec_job(x as u32) == s1.spec_job(x as u32) + js[x].parsed->Fixed_0);
                assert(self.spec_job(x as u32) == s2.spec_job(x as u32));
            }
            if kall > 0 {
                assert forall|x: int|
                    0 <= x < js.len() && (#[trigger] js[x]).parsed is All implies self.spec_job(
                    x as u32,
                ) == s0.spec_job(x as u32) + (if x == first_all(js) {
                    s2.spec_free() / (kall as nat) + s2.spec_free() % (kall as nat)
                } else {
                    s2.spec_free() / (kall as nat)
                }) by {
                    assert(s1.spec_job(x as u32) == s0.spec_job(x as u32));
                    assert(s2.spec_job(x as u32) == s1.spec_job(x as u32));
                }
                lemma_count_class_exists(js, OrderClass::All);
                assert(exists|x: int| 0 <= x < js.len() && (#[trigger] js[x]).parsed is All) by {
                    let x = choose|x: int|
                        0 <= x < js.len() && crate::joblist::class_of(
                            (#[trigger] js[x]).parsed,
                        ) == OrderClass::All;
                    assert(js[x].parsed is All);
                }
                lemma_first_all(js);
                vstd::arithmetic::div_mod::lemma_mod_bound(
                    s2.spec_free() as int,
                    kall as int,
                );
            }
        }
        Ok(())
    }
}


/// Law: a slot is unset or owned by a listed job.  In an inventory where no
/// job id at or beyond the list's end owns a slot -- as the solver
/// guarantees when it starts from a fresh inventory -- every assignment
/// names a valid position of the job list.  That an assigned slot is never
/// re-assigned is the monotone-change clause (`pm_le`) of the solver itself.
pub proof fn lemma_unique_assignment(pm: ProcMap, njobs: int)
    requires
        0 <= njobs <= u32::MAX,
        forall|j: u32| j as int >= njobs ==> pm.spec_job(j) == 0,
    ensures
        forall|k: int, l: int, i: int|
            0 <= k < pm.nodes@.len() && 0 <= l < pm.nodes@[k].numas@.len() && 0 <= i
                < pm.nodes@[k].numas@[l].slots@.len() ==> ((
            #[trigger] pm.nodes@[k].numas@[l].slots@[i]).job is None || pm.nodes@[k].numas@[
                l].slots@[i].job->0 < njobs),
{
    assert forall|k: int, l: int, i: int|
        0 <= k < pm.nodes@.len() && 0 <= l < pm.nodes@[k].numas@.len() && 0 <= i < pm.nodes@[
            k].numas@[l].slots@.len() implies ((#[trigger] pm.nodes@[k].numas@[l].slots@[i]).job
        is None || pm.nodes@[k].numas@[l].slots@[i].job->0 < njobs) by {
        let sl = pm.nodes@[k].numas@[l].slots@[i];
        if sl.job is Some && sl.job->0 as int >= njobs {
            crate::map::lemma_job_membership(pm.nodes@, k, l, i, sl.job->0);
            assert(pm.spec_job(sl.job->0) == 0);
        }
    }
}

/// Sum over the first `upto` jobs of how many slots each `A` job gained
/// between two states of the inventory.
pub open spec fn all_deltas(a: ProcMap, b: ProcMap, js: Seq<JobEntry>, upto: int) -> int
    decreases upto,
{
    if upto <= 0 {
        0
    } else {
        all_deltas(a, b, js, upto - 1) + (if js[upto - 1].parsed is All {
            b.spec_job((upto - 1) as u32) - a.spec_job((upto - 1) as u32)
        } else {
            0
        })
    }
}

proof fn lemma_all_deltas_sum(a: ProcMap, b: ProcMap, js: Seq<JobEntry>, upto: int, q: int, r: int)
    requires
        0 <= upto <= js.len() <= u32::MAX,
        0 <= first_all(js) < js.len(),
        js[first_all(js)].parsed is All,
        forall|x: int| 0 <= x < first_all(js) ==> !((#[trigger] js[x]).parsed is All),
        forall|x: int| 0 <= x < js.len() && (#[trigger] js[x]).parsed is All ==> b.spec_job(
            x as u32,
        ) - a.spec_job(x as u32) == (if x == first_all(js) {
            q + r
        } else {
            q
        }),
    ensures
        all_deltas(a, b, js, upto) == q * count_class(js.subrange(0, upto), OrderClass::All) + (
        if first_all(js) < upto {
            r
        } else {
            0
        }),
    decreases upto,
{
    if upto == 0 {
        assert(js.subrange(0, 0) =~= Seq::<JobEntry>::empty());
        assert(q * count_class(js.subrange(0, 0), OrderClass::All) == 0) by (nonlinear_arith)
            requires
                count_class(js.subrange(0, 0), OrderClass::All) == 0,
        ;
    } else {
        lemma_all_deltas_sum(a, b, js, upto - 1, q, r);
        let pre = js.subrange(0, upto);
        assert(pre.drop_last() =~= js.subrange(0, upto - 1));
        assert(pre.last() == js[upto - 1]);
        let c0 = count_class(js.subrange(0, upto - 1), OrderClass::All);
        let c1 = count_class(pre, OrderClass::All);
        if js[upto - 1].parsed is All {
            assert(c1 == c0 + 1);
            assert(first_all(js) <= upto - 1);
            assert(q * (c0 + 1) == q * c0 + q) by (nonlinear_arith);
        } else {
            assert(c1 == c0);
            assert(first_all(js) != upto - 1);
        }
    }
}

/// Law: the slots the `A` jobs gain add up exactly to the free-slot count
/// measured when the sharing phase begins, given the shares that phase
/// guarantees: the quotient to each job and the remainder to the first.
pub proof fn lemma_share_conservation(a: ProcMap, b: ProcMap, js: Seq<JobEntry>)
    requires
        js.len() <= u32::MAX,
        count_class(js, OrderClass::All) > 0,
        forall|x: int| 0 <= x < js.len() && (#[trigger] js[x]).parsed is All ==> b.spec_job(
            x as u32,
        ) - a.spec_job(x as u32) == (if x == first_all(js) {
            a.spec_free() / (count_class(js, OrderClass::All) as nat) + a.spec_free() % (
            count_class(js, OrderClass::All) as nat)
        } else {
            a.spec_free() / (count_class(js, OrderClass::All) as nat)
        }),
    ensures
        all_deltas(a, b, js, js.len() as int) == a.spec_free(),
{
    let kall = count_class(js, OrderClass::All) as int;
    let rr = a.spec_free() as int;
    let q = rr / kall;
    let r = rr % kall;
    lemma_count_class_exists(js, OrderClass::All);
    assert(exists|x: int| 0 <= x < js.len() && (#[trigger] js[x]).parsed is All) by {
        let x = choose|x: int|
            0 <= x < js.len() && crate::joblist::class_of((#[trigger] js[x]).parsed)
                == OrderClass::All;
        assert(js[x].parsed is All);
    }
    lemma_first_all(js);
    lemma_all_deltas_sum(a, b, js, js.len() as int, q, r);
    assert(js.subrange(0, js.len() as int) =~= js);
    assert(count_class(js.subrange(0, js.len() as int), OrderClass::All) == kall);
    assert(first_all(js) < js.len());
    assert(all_deltas(a, b, js, js.len() as int) == q * kall + r);
    vstd::arithmetic::div_mod::lemma_fundamental_div_mod(rr, kall);
    assert(rr == kall * (rr / kall) + rr % kall);
    assert(q * kall == kall * q) by (nonlinear_arith);
    assert(q * kall + r == rr);
}

} // verus!
