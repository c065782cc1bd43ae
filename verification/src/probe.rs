//! The topology probe's decisions: which NUMA entries to report, which host
//! name to claim, and how to read a rank out of the environment.

use vstd::prelude::*;

use crate::Error;
use crate::joblist::dec_val;
use crate::joblist::is_digit_char;
use crate::joblist::lemma_dec_val_prefix_le;

verus! {

/// The host name the probe reports: the override when set, else the
/// machine's own name, else a fixed marker.
pub fn resolve_host(env_host: Option<String>, os_host: Option<String>) -> (h: String)
    ensures
        match env_host {
            Some(e) => h == e,
            None => match os_host {
                Some(o) => h == o,
                None => h@ == "unknown"@,
            },
        },
{
    match env_host {
        Some(e) => e,
        None => match os_host {
            Some(o) => o,
            None => {
                proof {
                    reveal_strlit("unknown");
                }
                let u: String = "unknown".to_owned();
                u
            },
        },
    }
}

/// The digit run of a rank value: what follows an optional minus sign.
pub open spec fn rank_digits(s: Seq<char>) -> Seq<char> {
    if s.len() > 0 && s[0] == '-' {
        s.drop_first()
    } else {
        s
    }
}

pub open spec fn rank_negative(s: Seq<char>) -> bool {
    s.len() > 0 && s[0] == '-'
}

/// A well-formed rank: an optional minus sign, then digits, the value
/// fitting a 32-bit word.
pub open spec fn rank_accepted(s: Seq<char>) -> bool {
    &&& rank_digits(s).len() > 0
    &&& (forall|k: int| 0 <= k < rank_digits(s).len() ==> is_digit_char(rank_digits(s)[k]))
    &&& (if rank_negative(s) {
        dec_val(rank_digits(s)) <= 0x8000_0000
    } else {
        dec_val(rank_digits(s)) <= 0x7fff_ffff
    })
}

pub open spec fn rank_value(s: Seq<char>) -> int {
    if rank_negative(s) {
        -dec_val(rank_digits(s))
    } else {
        dec_val(rank_digits(s))
    }
}

/// Read a decimal rank out of an environment value.
pub fn parse_rank(s: &str) -> (r: Result<i32, Error>)
    ensures
        match r {
            Ok(v) => rank_accepted(s@) && v as int == rank_value(s@),
            Err(e) => !rank_accepted(s@) && e == Error::BadRank,
        },
{
    let n: usize = s.unicode_len();
    if n == 0 {
        return Err(Error::BadRank);
    }
    let neg: bool = s.get_char(0) == '-';
    let start: usize = if neg {
        1
    } else {
        0
    };
    let ghost ds = rank_digits(s@);
    proof {
        assert(ds =~= s@.subrange(start as int, n as int));
    }
    if start == n {
        return Err(Error::BadRank);
    }
    let bound: u64 = if neg {
        0x8000_0000
    } else {
        0x7fff_ffff
    };
    let mut acc: u64 = 0;
    let mut i: usize = start;
    proof {
        assert(ds.subrange(0, 0) =~= Seq::<char>::empty());
    }
    while i < n
        invariant
            start <= i <= n,
            n == s@.len(),
            start == (if rank_negative(s@) {
                1int
            } else {
                0int
            }),
            ds == rank_digits(s@),
            ds == s@.subrange(start as int, n as int),
            ds.len() == n - start,
            bound == (if rank_negative(s@) {
                0x8000_0000u64
            } else {
                0x7fff_ffffu64
            }),
            forall|k: int| 0 <= k < i - start ==> is_digit_char(ds[k]),
            acc == dec_val(ds.subrange(0, i - start)),
            acc <= bound,
        decreases n - i,
    {
        let c: char = s.get_char(i);
        let u: u32 = c as u32;
        proof {
            assert(ds[i - start] == s@[i as int]);
            assert(ds.subrange(0, i - start + 1).drop_last() =~= ds.subrange(0, i - start));
            assert(ds.subrange(0, i - start + 1).last() == ds[i - start]);
        }
        if !(48 <= u && u <= 57) {
            return Err(Error::BadRank);
        }
        let d: u64 = (u - 48) as u64;
        if acc > (bound - d) / 10 {
            proof {
                assert(dec_val(ds.subrange(0, i - start + 1)) > bound) by {
                    assert(dec_val(ds.subrange(0, i - start + 1)) == acc * 10 + d);
                };
                if rank_accepted(s@) {
                    lemma_dec_val_prefix_le(ds, i - start + 1, ds.len() as int);
                    assert(ds.subrange(0, ds.len() as int) =~= ds);
                    assert(false);
                }
            }
            return Err(Error::BadRank);
        }
        acc = acc * 10 + d;
        i = i + 1;
    }
    proof {
        assert(ds.subrange(0, ds.len() as int) =~= ds);
    }
    if neg {
        Ok((-(acc as i64)) as i32)
    } else {
        Ok(acc as i32)
    }
}

/// The rank the probe reports: the primary environment value when set, else
/// the fallback, else the missing-rank sentinel.
pub fn resolve_rank(pmi: Option<String>, pmix: Option<String>) -> (r: Result<i32, Error>)
    ensures
        match pmi {
            Some(p) => match r {
                Ok(v) => rank_accepted(p@) && v as int == rank_value(p@),
                Err(e) => !rank_accepted(p@) && e == Error::BadRank,
            },
            None => match pmix {
                Some(q) => match r {
                    Ok(v) => rank_accepted(q@) && v as int == rank_value(q@),
                    Err(e) => !rank_accepted(q@) && e == Error::BadRank,
                },
                None => r matches Ok(v2) && v2 == -1,
            },
        },
{
    match pmi {
        Some(p) => parse_rank(p.as_str()),
        None => match pmix {
            Some(q) => parse_rank(q.as_str()),
            None => Ok(-1),
        },
    }
}

/// Which NUMA entries the probe keeps: those with a non-empty PU list.
pub open spec fn kept_ids(ids: Seq<usize>, pus: Seq<Vec<usize>>) -> Seq<usize>
    decreases ids.len(),
{
    if ids.len() == 0 || pus.len() != ids.len() {
        Seq::empty()
    } else {
        kept_ids(ids.drop_last(), pus.drop_last()) + (if pus.last()@.len() > 0 {
            seq![ids.last()]
        } else {
            Seq::<usize>::empty()
        })
    }
}

pub open spec fn kept_pus(ids: Seq<usize>, pus: Seq<Vec<usize>>) -> Seq<Seq<usize>>
    decreases ids.len(),
{
    if ids.len() == 0 || pus.len() != ids.len() {
        Seq::empty()
    } else {
        kept_pus(ids.drop_last(), pus.drop_last()) + (if pus.last()@.len() > 0 {
            seq![pus.last()@]
        } else {
            Seq::<Seq<usize>>::empty()
        })
    }
}

/// Drop the NUMA entries whose PU list is empty, keeping the positional
/// pairing of indices and PU lists.
pub fn select_numa(ids: Vec<usize>, pus: Vec<Vec<usize>>) -> (r: (Vec<usize>, Vec<Vec<usize>>))
    requires
        ids@.len() == pus@.len(),
    ensures
        r.0@ == kept_ids(ids@, pus@),
        r.1@.len() == kept_pus(ids@, pus@).len(),
        forall|p: int| 0 <= p < r.1@.len() ==> (#[trigger] r.1@[p])@ == kept_pus(ids@, pus@)[p],
        r.0@.len() == r.1@.len(),
{
    let mut out_ids: Vec<usize> = Vec::new();
    let mut out_pus: Vec<Vec<usize>> = Vec::new();
    let n: usize = ids.len();
    let mut i: usize = 0;
    proof {
        assert(ids@.subrange(0, 0) =~= Seq::<usize>::empty());
        assert(pus@.subrange(0, 0) =~= Seq::<Vec<usize>>::empty());
    }
    while i < n
        invariant
            0 <= i <= n,
            n == ids@.len(),
            n == pus@.len(),
            out_ids@ == kept_ids(ids@.subrange(0, i as int), pus@.subrange(0, i as int)),
            out_pus@.len() == kept_pus(ids@.subrange(0, i as int), pus@.subrange(0, i as int)).len(),
            forall|p: int| 0 <= p < out_pus@.len() ==> (#[trigger] out_pus@[p])@ == kept_pus(
                ids@.subrange(0, i as int),
                pus@.subrange(0, i as int),
            )[p],
            out_ids@.len() == out_pus@.len(),
        decreases n - i,
    {
        let ghost pre_ids = ids@.subrange(0, i as int);
        let ghost pre_pus = pus@.subrange(0, i as int);
        proof {
            assert(ids@.subrange(0, i + 1).drop_last() =~= pre_ids);
            assert(pus@.subrange(0, i + 1).drop_last() =~= pre_pus);
            assert(ids@.subrange(0, i + 1).last() == ids@[i as int]);
            assert(pus@.subrange(0, i + 1).last() == pus@[i as int]);
        }
        if pus[i].len() > 0 {
            out_ids.push(ids[i]);
            let moved: Vec<usize> = crate::map::copy_indices(&pus[i]);
            out_pus.push(moved);
            proof {
                assert(out_ids@ =~= kept_ids(
                    ids@.subrange(0, i + 1),
                    pus@.subrange(0, i + 1),
                ));
                assert(out_pus@.last()@ == pus@[i as int]@);
                assert forall|p: int| 0 <= p < out_pus@.len() implies (#[trigger] out_pus@[p])@
                    == kept_pus(ids@.subrange(0, i + 1), pus@.subrange(0, i + 1))[p] by {}
            }
        } else {
            proof {
                assert(out_ids@ =~= kept_ids(
                    ids@.subrange(0, i + 1),
                    pus@.subrange(0, i + 1),
                ));
                assert(kept_pus(ids@.subrange(0, i + 1), pus@.subrange(0, i + 1)) =~= kept_pus(
                    pre_ids,
                    pre_pus,
                ));
            }
        }
        i = i + 1;
    }
    proof {
        assert(ids@.subrange(0, n as int) =~= ids@);
        assert(pus@.subrange(0, n as int) =~= pus@);
    }
    (out_ids, out_pus)
}

} // verus!
