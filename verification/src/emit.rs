//! The launcher-file emitter: group the assigned slots' ranks by job id and
//! compose one multi-program line per job that holds any ranks.

use vstd::prelude::*;

use crate::Error;
use crate::joblist::JobEntry;
use crate::joblist::JobList;
use crate::map::Node;
use crate::map::Numa;
use crate::map::ProcMap;
use crate::map::Slot;
use crate::numfmt::dec_of_i64;
use crate::numfmt::push_i32_dec;

verus! {

/// All slots of a run of NUMA domains, in walk order.
pub open spec fn numas_cat(ns: Seq<Numa>) -> Seq<Slot>
    decreases ns.len(),
{
    if ns.len() == 0 {
        Seq::empty()
    } else {
        numas_cat(ns.drop_last()) + ns.last().slots@
    }
}

/// All slots of a run of nodes, in walk order.
pub open spec fn nodes_cat(xs: Seq<Node>) -> Seq<Slot>
    decreases xs.len(),
{
    if xs.len() == 0 {
        Seq::empty()
    } else {
        nodes_cat(xs.drop_last()) + numas_cat(xs.last().numas@)
    }
}

impl ProcMap {
    /// Every slot of the inventory in walk order: node-major, then domain,
    /// then insertion order.
    pub open spec fn all_slots(self) -> Seq<Slot> {
        nodes_cat(self.nodes@)
    }
}

/// The ranks owned by job `j`, in walk order.
pub open spec fn ranks_of(s: Seq<Slot>, j: u32) -> Seq<i32>
    decreases s.len(),
{
    if s.len() == 0 {
        Seq::empty()
    } else {
        ranks_of(s.drop_last(), j) + (if s.last().job == Some(j) {
            seq![s.last().rank]
        } else {
            Seq::<i32>::empty()
        })
    }
}

/// The job ids below `njobs` that own at least one rank, ascending.
pub open spec fn jobs_with_ranks(s: Seq<Slot>, njobs: int) -> Seq<int>
    decreases njobs,
{
    if njobs <= 0 {
        Seq::empty()
    } else {
        jobs_with_ranks(s, njobs - 1) + (if ranks_of(s, (njobs - 1) as u32).len() > 0 {
            seq![njobs - 1]
        } else {
            Seq::<int>::empty()
        })
    }
}

/// The comma-separated rendering of a rank list.
pub open spec fn csv_of(rs: Seq<i32>) -> Seq<char>
    decreases rs.len(),
{
    if rs.len() == 0 {
        Seq::empty()
    } else if rs.len() == 1 {
        dec_of_i64(rs[0] as int)
    } else {
        csv_of(rs.drop_last()) + seq![','] + dec_of_i64(rs.last() as int)
    }
}

/// The space-separated rendering of a command.
pub open spec fn join_cmd(cmd: Seq<String>) -> Seq<char>
    decreases cmd.len(),
{
    if cmd.len() == 0 {
        Seq::empty()
    } else if cmd.len() == 1 {
        cmd[0]@
    } else {
        join_cmd(cmd.drop_last()) + seq![' '] + cmd.last()@
    }
}

/// The multi-program line of job `j`: its rank list, a space, its command.
pub open spec fn line_of(s: Seq<Slot>, js: Seq<JobEntry>, j: int) -> Seq<char> {
    csv_of(ranks_of(s, j as u32)) + seq![' '] + join_cmd(js[j].command@)
}

impl ProcMap {
    /// Group the assigned ranks by job id, in walk order; a slot naming a
    /// job id outside the list fails.
    pub fn per_job_ranks(&self, njobs: usize) -> (r: Result<Vec<Vec<i32>>, Error>)
        requires
            njobs <= u32::MAX,
        ensures
            match r {
                Ok(g) => {
                    &&& g@.len() == njobs
                    &&& forall|j: int|
                        0 <= j < njobs ==> (#[trigger] g@[j])@ == ranks_of(
                            self.all_slots(),
                            j as u32,
                        )
                    &&& forall|p: int|
                        0 <= p < self.all_slots().len() ==> ((#[trigger] self.all_slots()[p]).job
                            is Some ==> self.all_slots()[p].job->0 < njobs)
                },
                Err(e) => {
                    &&& e is NoSuchJob
                    &&& exists|k: int, l: int, i: int|
                        0 <= k < self.nodes@.len() && 0 <= l < self.nodes@[k].numas@.len() && 0
                            <= i < self.nodes@[k].numas@[l].slots@.len() && (
                        #[trigger] self.nodes@[k].numas@[l].slots@[i]).job is Some && self.nodes@[
                            k].numas@[l].slots@[i].job->0 >= njobs
                },
            },
    {
        let mut groups: Vec<Vec<i32>> = Vec::new();
        let mut j: usize = 0;
        while j < njobs
            invariant
                0 <= j <= njobs,
                groups@.len() == j,
                forall|j2: int| 0 <= j2 < j ==> (#[trigger] groups@[j2])@ == Seq::<i32>::empty(),
            decreases njobs - j,
        {
            groups.push(Vec::new());
            j = j + 1;
        }
        let ghost mut done: Seq<Slot> = Seq::empty();
        proof {
            assert(Seq::<Node>::empty() =~= self.nodes@.subrange(0, 0));
            assert(nodes_cat(self.nodes@.subrange(0, 0)) =~= Seq::<Slot>::empty());
            assert forall|j2: int| 0 <= j2 < njobs implies (#[trigger] groups@[j2])@ == ranks_of(
                done,
                j2 as u32,
            ) by {}
        }
        let n: usize = self.nodes.len();
        let mut k: usize = 0;
        while k < n
            invariant
                0 <= k <= n,
                n == self.nodes@.len(),
                njobs <= u32::MAX,
                groups@.len() == njobs,
                done == nodes_cat(self.nodes@.subrange(0, k as int)),
                forall|j2: int| 0 <= j2 < njobs ==> (#[trigger] groups@[j2])@ == ranks_of(
                    done,
                    j2 as u32,
                ),
                forall|p: int| 0 <= p < done.len() ==> ((#[trigger] done[p]).job is Some
                    ==> done[p].job->0 < njobs),
            decreases n - k,
        {
            let m: usize = self.nodes[k].numas.len();
            let mut l: usize = 0;
            proof {
                assert(self.nodes@[k as int].numas@.subrange(0, 0) =~= Seq::<Numa>::empty());
                assert(numas_cat(self.nodes@[k as int].numas@.subrange(0, 0))
                    =~= Seq::<Slot>::empty());
                assert(done + Seq::<Slot>::empty() =~= done);
            }
            while l < m
                invariant
                    0 <= l <= m,
                    0 <= k < n,
                    n == self.nodes@.len(),
                    m == self.nodes@[k as int].numas@.len(),
                    njobs <= u32::MAX,
                    groups@.len() == njobs,
                    done == nodes_cat(self.nodes@.subrange(0, k as int)) + numas_cat(
                        self.nodes@[k as int].numas@.subrange(0, l as int),
                    ),
                    forall|j2: int| 0 <= j2 < njobs ==> (#[trigger] groups@[j2])@ == ranks_of(
                        done,
                        j2 as u32,
                    ),
                    forall|p: int| 0 <= p < done.len() ==> ((#[trigger] done[p]).job is Some
                        ==> done[p].job->0 < njobs),
                decreases m - l,
            {
                let w: usize = self.nodes[k].numas[l].slots.len();
                let mut i: usize = 0;
                proof {
                    assert(self.nodes@[k as int].numas@[l as int].slots@.subrange(0, 0)
                        =~= Seq::<Slot>::empty());
                    assert(done + Seq::<Slot>::empty() =~= done);
                }
                while i < w
                    invariant
                        0 <= i <= w,
                        0 <= l < m,
                        0 <= k < n,
                        n == self.nodes@.len(),
                        m == self.nodes@[k as int].numas@.len(),
                        w == self.nodes@[k as int].numas@[l as int].slots@.len(),
                        njobs <= u32::MAX,
                        groups@.len() == njobs,
                        done == nodes_cat(self.nodes@.subrange(0, k as int)) + numas_cat(
                            self.nodes@[k as int].numas@.subrange(0, l as int),
                        ) + self.nodes@[k as int].numas@[l as int].slots@.subrange(0, i as int),
                        forall|j2: int| 0 <= j2 < njobs ==> (#[trigger] groups@[j2])@
                            == ranks_of(done, j2 as u32),
                        forall|p: int| 0 <= p < done.len() ==> ((#[trigger] done[p]).job is Some
                            ==> done[p].job->0 < njobs),
                    decreases w - i,
                {
                    let ghost slotg = self.nodes@[k as int].numas@[l as int].slots@[i as int];
                    proof {
                        assert(done.push(slotg).drop_last() =~= done);
                        assert(done.push(slotg).last() == slotg);
                        assert(done.push(slotg) =~= nodes_cat(self.nodes@.subrange(0, k as int))
                            + numas_cat(self.nodes@[k as int].numas@.subrange(0, l as int))
                            + self.nodes@[k as int].numas@[l as int].slots@.subrange(
                            0,
                            i + 1,
                        ));
                    }
                    let rank: i32 = self.nodes[k].numas[l].slots[i].rank;
                    let jopt: Option<u32> = self.nodes[k].numas[l].slots[i].job;
                    match jopt {
                        Some(jj) => {
                            if jj as usize >= njobs {
                                proof {
                                    assert((self.nodes@[k as int].numas@[l as int].slots@[
                                        i as int]).job is Some && self.nodes@[
                                        k as int].numas@[l as int].slots@[i as int].job->0
                                        >= njobs);
                                }
                                return Err(Error::NoSuchJob { id: jj as usize });
                            }
                            let ghost groups0 = groups@;
                            let gj: &mut Vec<i32> = &mut groups[jj as usize];
                            gj.push(rank);
                            proof {
                                assert(groups@ == groups0.update(jj as int, *gj));
                                assert forall|j2: int| 0 <= j2 < njobs implies (
                                #[trigger] groups@[j2])@ == ranks_of(
                                    done.push(slotg),
                                    j2 as u32,
                                ) by {
                                    if j2 == jj {
                                        assert(groups@[j2]@ =~= ranks_of(done, j2 as u32)
                                            + seq![slotg.rank]);
                                        assert(ranks_of(done.push(slotg), j2 as u32)
                                            == ranks_of(done, j2 as u32) + seq![slotg.rank]);
                                    } else {
                                        assert(groups@[j2] == groups0[j2]);
                                        assert(ranks_of(done.push(slotg), j2 as u32)
                                            =~= ranks_of(done, j2 as u32));
                                    }
                                }
                                done = done.push(slotg);
                            }
                        },
                        None => {
                            proof {
                                assert forall|j2: int| 0 <= j2 < njobs implies (
                                #[trigger] groups@[j2])@ == ranks_of(
                                    done.push(slotg),
                                    j2 as u32,
                                ) by {
                                    assert(ranks_of(done.push(slotg), j2 as u32) =~= ranks_of(
                                        done,
                                        j2 as u32,
                                    ));
                                }
                                done = done.push(slotg);
                            }
                        },
                    }
                    i = i + 1;
                }
                proof {
                    assert(self.nodes@[k as int].numas@[l as int].slots@.subrange(0, w as int)
                        =~= self.nodes@[k as int].numas@[l as int].slots@);
                    let pre = self.nodes@[k as int].numas@.subrange(0, l + 1);
                    assert(pre.drop_last() =~= self.nodes@[k as int].numas@.subrange(
                        0,
                        l as int,
                    ));
                    assert(pre.last() == self.nodes@[k as int].numas@[l as int]);
                    assert(done =~= nodes_cat(self.nodes@.subrange(0, k as int)) + numas_cat(
                        pre,
                    ));
                }
                l = l + 1;
            }
            proof {
                assert(self.nodes@[k as int].numas@.subrange(0, m as int) =~= self.nodes@[
                    k as int].numas@);
                let pre = self.nodes@.subrange(0, k + 1);
                assert(pre.drop_last() =~= self.nodes@.subrange(0, k as int));
                assert(pre.last() == self.nodes@[k as int]);
                assert(done =~= nodes_cat(pre));
            }
            k = k + 1;
        }
        proof {
            assert(self.nodes@.subrange(0, n as int) =~= self.nodes@);
        }
        Ok(groups)
    }
}


impl ProcMap {
    /// Compose the multi-program file: one line per job that owns any
    /// ranks, ascending by job id; each line is the job's comma-separated
    /// rank list, a space, and its command.
    pub fn to_slurm(&self, jobs: &JobList) -> (r: Result<Vec<String>, Error>)
        requires
            jobs.jobs@.len() <= u32::MAX,
        ensures
            match r {
                Ok(lines) => {
                    &&& lines@.len() == jobs_with_ranks(
                        self.all_slots(),
                        jobs.jobs@.len() as int,
                    ).len()
                    &&& forall|p: int|
                        0 <= p < lines@.len() ==> (#[trigger] lines@[p])@ == line_of(
                            self.all_slots(),
                            jobs.jobs@,
                            jobs_with_ranks(self.all_slots(), jobs.jobs@.len() as int)[p],
                        )
                    &&& forall|p: int|
                        0 <= p < self.all_slots().len() ==> ((#[trigger] self.all_slots()[p]).job
                            is Some ==> self.all_slots()[p].job->0 < jobs.jobs@.len())
                },
                Err(e) => {
                    &&& e is NoSuchJob
                    &&& exists|k: int, l: int, i: int|
                        0 <= k < self.nodes@.len() && 0 <= l < self.nodes@[k].numas@.len() && 0
                            <= i < self.nodes@[k].numas@[l].slots@.len() && (
                        #[trigger] self.nodes@[k].numas@[l].slots@[i]).job is Some && self.nodes@[
                            k].numas@[l].slots@[i].job->0 >= jobs.jobs@.len()
                },
            },
    {
        let njobs: usize = jobs.jobs.len();
        let groups: Vec<Vec<i32>> = match self.per_job_ranks(njobs) {
            Ok(g) => g,
            Err(e) => {
                return Err(e);
            },
        };
        let mut lines: Vec<String> = Vec::new();
        let mut j: usize = 0;
        proof {
            assert(jobs_with_ranks(self.all_slots(), 0).len() == 0);
        }
        while j < njobs
            invariant
                0 <= j <= njobs,
                njobs == jobs.jobs@.len(),
                njobs <= u32::MAX,
                groups@.len() == njobs,
                forall|j2: int| 0 <= j2 < njobs ==> (#[trigger] groups@[j2])@ == ranks_of(
                    self.all_slots(),
                    j2 as u32,
                ),
                lines@.len() == jobs_with_ranks(self.all_slots(), j as int).len(),
                forall|p: int| 0 <= p < lines@.len() ==> (#[trigger] lines@[p])@ == line_of(
                    self.all_slots(),
                    jobs.jobs@,
                    jobs_with_ranks(self.all_slots(), j as int)[p],
                ),
            decreases njobs - j,
        {
            let ghost jw0 = jobs_with_ranks(self.all_slots(), j as int);
            proof {
                assert(jobs_with_ranks(self.all_slots(), j + 1) == jw0 + (if ranks_of(
                    self.all_slots(),
                    j as u32,
                ).len() > 0 {
                    seq![j as int]
                } else {
                    Seq::<int>::empty()
                }));
            }
            if groups[j].len() > 0 {
                let mut line: String = String::new();
                let ranks: &Vec<i32> = &groups[j];
                let nr: usize = ranks.len();
                let mut t: usize = 0;
                proof {
                    assert(ranks@.subrange(0, 0) =~= Seq::<i32>::empty());
                    assert(line@ =~= csv_of(ranks@.subrange(0, 0)));
                }
                while t < nr
                    invariant
                        0 <= t <= nr,
                        nr == ranks@.len(),
                        line@ == csv_of(ranks@.subrange(0, t as int)),
                    decreases nr - t,
                {
                    proof {
                        assert(ranks@.subrange(0, t + 1).drop_last() =~= ranks@.subrange(
                            0,
                            t as int,
                        ));
                        assert(ranks@.subrange(0, t + 1).last() == ranks@[t as int]);
                    }
                    if t > 0 {
                        proof {
                            reveal_strlit(",");
                        }
                        line.append(",");
                    }
                    push_i32_dec(&mut line, ranks[t]);
                    proof {
                        assert(line@ =~= csv_of(ranks@.subrange(0, t + 1)));
                    }
                    t = t + 1;
                }
                proof {
                    reveal_strlit(" ");
                    assert(ranks@.subrange(0, nr as int) =~= ranks@);
                }
                line.append(" ");
                let cmd: &Vec<String> = &jobs.jobs[j].command;
                let nc: usize = cmd.len();
                let mut c: usize = 0;
                let ghost mid = line@;
                proof {
                    assert(cmd@.subrange(0, 0) =~= Seq::<String>::empty());
                    assert(line@ =~= mid + join_cmd(cmd@.subrange(0, 0)));
                }
                while c < nc
                    invariant
                        0 <= c <= nc,
                        nc == cmd@.len(),
                        line@ == mid + join_cmd(cmd@.subrange(0, c as int)),
                    decreases nc - c,
                {
                    proof {
                        assert(cmd@.subrange(0, c + 1).drop_last() =~= cmd@.subrange(
                            0,
                            c as int,
                        ));
                        assert(cmd@.subrange(0, c + 1).last() == cmd@[c as int]);
                    }
                    if c > 0 {
                        proof {
                            reveal_strlit(" ");
                        }
                        line.append(" ");
                    }
                    line.append(cmd[c].as_str());
                    proof {
                        assert(line@ =~= mid + join_cmd(cmd@.subrange(0, c + 1)));
                    }
                    c = c + 1;
                }
                proof {
                    assert(cmd@.subrange(0, nc as int) =~= cmd@);
                    assert(line@ =~= line_of(self.all_slots(), jobs.jobs@, j as int));
                }
                lines.push(line);
                proof {
                    assert(jobs_with_ranks(self.all_slots(), j + 1) =~= jw0 + seq![j as int]);
                    assert forall|p: int| 0 <= p < lines@.len() implies (#[trigger] lines@[p])@
                        == line_of(
                        self.all_slots(),
                        jobs.jobs@,
                        jobs_with_ranks(self.all_slots(), j + 1)[p],
                    ) by {
                        if p < lines@.len() - 1 {
                            assert(jobs_with_ranks(self.all_slots(), j + 1)[p] == jw0[p]);
                        } else {
                            assert(jobs_with_ranks(self.all_slots(), j + 1)[p] == j as int);
                        }
                    }
                }
            } else {
                proof {
                    assert(jobs_with_ranks(self.all_slots(), j + 1) =~= jw0);
                }
            }
            j = j + 1;
        }
        Ok(lines)
    }
}

/// A slot with an assignment contributes its rank to its job's rank list.
pub proof fn lemma_rank_listed(s: Seq<Slot>, p: int, j: u32)
    requires
        0 <= p < s.len(),
        s[p].job == Some(j),
    ensures
        ranks_of(s, j).len() > 0,
    decreases s.len(),
{
    if p == s.len() - 1 {
        assert(s.last() == s[p]);
    } else {
        assert(s.drop_last()[p] == s[p]);
        lemma_rank_listed(s.drop_last(), p, j);
    }
}

/// The emitted job ids are exactly those that own ranks, each exactly once,
/// ascending.
pub proof fn lemma_jobs_with_ranks(s: Seq<Slot>, njobs: int)
    ensures
        forall|q: int| 0 <= q < jobs_with_ranks(s, njobs).len() ==> 0 <= #[trigger] jobs_with_ranks(
            s,
            njobs,
        )[q] < njobs && ranks_of(s, jobs_with_ranks(s, njobs)[q] as u32).len() > 0,
        forall|q1: int, q2: int| 0 <= q1 < q2 < jobs_with_ranks(s, njobs).len()
            ==> jobs_with_ranks(s, njobs)[q1] < jobs_with_ranks(s, njobs)[q2],
        forall|x: int| 0 <= x < njobs && (#[trigger] ranks_of(s, x as u32)).len() > 0 ==> exists|
            q: int,
        | 0 <= q < jobs_with_ranks(s, njobs).len() && #[trigger] jobs_with_ranks(s, njobs)[q]
            == x,
    decreases njobs,
{
    if njobs > 0 {
        lemma_jobs_with_ranks(s, njobs - 1);
        let prev = jobs_with_ranks(s, njobs - 1);
        let cur = jobs_with_ranks(s, njobs);
        assert forall|x: int|
            0 <= x < njobs && (#[trigger] ranks_of(s, x as u32)).len() > 0 implies exists|q: int|
            0 <= q < cur.len() && cur[q] == x by {
            if x < njobs - 1 {
                let q0 = choose|q: int| 0 <= q < prev.len() && #[trigger] prev[q] == x;
                assert(cur[q0] == x);
            } else {
                assert(cur[cur.len() - 1] == x);
            }
        }
    }
}

/// Law: every slot that carries an assignment to a listed job stands in
/// exactly one line of the multi-program file: its job id appears once in
/// the emitted id list, and its rank is on that job's rank list.
pub proof fn lemma_emitter_coverage(s: Seq<Slot>, njobs: int, p: int)
    requires
        0 <= p < s.len(),
        s[p].job is Some,
        (s[p].job->0 as int) < njobs,
    ensures
        ranks_of(s, s[p].job->0).len() > 0,
        exists|q: int| 0 <= q < jobs_with_ranks(s, njobs).len() && #[trigger] jobs_with_ranks(
            s,
            njobs,
        )[q] == s[p].job->0 as int,
        forall|q1: int, q2: int|
            0 <= q1 < jobs_with_ranks(s, njobs).len() && 0 <= q2 < jobs_with_ranks(
                s,
                njobs,
            ).len() && #[trigger] jobs_with_ranks(s, njobs)[q1] == s[p].job->0 as int
                && #[trigger] jobs_with_ranks(s, njobs)[q2] == s[p].job->0 as int ==> q1 == q2,
{
    let j = s[p].job->0;
    lemma_rank_listed(s, p, j);
    lemma_jobs_with_ranks(s, njobs);
    let ji = j as int;
    assert(ji as u32 == j);
    assert((ranks_of(s, ji as u32)).len() > 0);
    assert forall|q1: int, q2: int|
        0 <= q1 < jobs_with_ranks(s, njobs).len() && 0 <= q2 < jobs_with_ranks(s, njobs).len()
            && #[trigger] jobs_with_ranks(s, njobs)[q1] == j as int && #[trigger] jobs_with_ranks(
            s,
            njobs,
        )[q2] == j as int implies q1 == q2 by {
        if q1 < q2 {
            assert(jobs_with_ranks(s, njobs)[q1] < jobs_with_ranks(s, njobs)[q2]);
        }
        if q2 < q1 {
            assert(jobs_with_ranks(s, njobs)[q2] < jobs_with_ranks(s, njobs)[q1]);
        }
    }
}

} // verus!
