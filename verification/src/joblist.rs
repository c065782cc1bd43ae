//! The job description side of the scheduler: placement strings, their
//! grammar, and the ordered list of sub-jobs.
//!
//! A placement string has the canonical form `ord [loc]`, where `ord` is
//! `"A"`, `"E"` or a run of decimal digits, and `loc` is one of `numa`,
//! `slot`, `node`.  An `E` order requires the locality token; for the other
//! orders it is optional.

use vstd::prelude::*;

use crate::Error;

verus! {

/// A locality level: the granularity at which a job's placement is counted.
#[derive(Clone, Copy, PartialEq, Eq, Structural, Debug)]
pub enum Loc {
    Numa,
    Slot,
    Node,
}

/// A parsed placement order.
#[derive(Clone, Copy, PartialEq, Eq, Structural, Debug)]
pub enum Order {
    /// `A`: share whatever remains after the other phases.
    All,
    /// `E`: one slot on every container of the job's locality.
    Each,
    /// A decimal count of slots to acquire.
    Fixed(usize),
}

pub open spec fn is_digit_char(c: char) -> bool {
    48 <= c as u32 && c as u32 <= 57
}

pub open spec fn is_lower_char(c: char) -> bool {
    97 <= c as u32 && c as u32 <= 122
}

/// Length of the run of decimal digits that opens `s`.
pub open spec fn digit_prefix_len(s: Seq<char>) -> nat
    decreases s.len(),
{
    if s.len() == 0 || !is_digit_char(s[0]) {
        0
    } else {
        1 + digit_prefix_len(s.drop_first())
    }
}

/// The digit prefix is exactly the longest all-digit prefix of `s`.
pub proof fn lemma_digit_prefix(s: Seq<char>)
    ensures
        digit_prefix_len(s) <= s.len(),
        forall|k: int| 0 <= k < digit_prefix_len(s) ==> is_digit_char(s[k]),
        digit_prefix_len(s) == s.len() || !is_digit_char(s[digit_prefix_len(s) as int]),
    decreases s.len(),
{
    if s.len() > 0 && is_digit_char(s[0]) {
        lemma_digit_prefix(s.drop_first());
        assert forall|k: int| 0 <= k < digit_prefix_len(s) implies is_digit_char(s[k]) by {
            if k > 0 {
                assert(is_digit_char(s.drop_first()[k - 1]));
            }
        }
    }
}

/// A prefix that is all digits and is followed by a non-digit (or the end)
/// is the digit prefix.
pub proof fn lemma_digit_prefix_is(s: Seq<char>, i: int)
    requires
        0 <= i <= s.len(),
        forall|k: int| 0 <= k < i ==> is_digit_char(s[k]),
        i == s.len() || !is_digit_char(s[i]),
    ensures
        digit_prefix_len(s) == i,
    decreases s.len(),
{
    if i == 0 {
    } else {
        assert(is_digit_char(s[0]));
        assert(forall|k: int| 0 <= k < s.drop_first().len() ==> s.drop_first()[k] == s[k + 1]);
        lemma_digit_prefix_is(s.drop_first(), i - 1);
    }
}

/// Number of characters of `s` taken by the order part.
pub open spec fn spec_ord_len(s: Seq<char>) -> nat {
    if s.len() > 0 && (s[0] == 'A' || s[0] == 'E') {
        1
    } else {
        digit_prefix_len(s)
    }
}

/// The order part of `s`.
pub open spec fn spec_ord(s: Seq<char>) -> Seq<char> {
    s.subrange(0, spec_ord_len(s) as int)
}

/// What follows the order part of `s`: the locality token, possibly empty.
pub open spec fn spec_rest(s: Seq<char>) -> Seq<char> {
    s.subrange(spec_ord_len(s) as int, s.len() as int)
}

/// The canonical spelling of a locality level.
pub open spec fn loc_word(l: Loc) -> Seq<char> {
    match l {
        Loc::Numa => "numa"@,
        Loc::Slot => "slot"@,
        Loc::Node => "node"@,
    }
}

pub open spec fn is_loc_word(r: Seq<char>) -> bool {
    r == "numa"@ || r == "slot"@ || r == "node"@
}

/// The placement grammar: `s` is an accepted placement string.
pub open spec fn accepted(s: Seq<char>) -> bool {
    &&& spec_ord_len(s) > 0
    &&& (spec_rest(s).len() == 0 || is_loc_word(spec_rest(s)))
    &&& !(s[0] == 'E' && spec_rest(s).len() == 0)
}

/// Which error a rejected placement string draws.
pub open spec fn parse_error_of(s: Seq<char>) -> Error {
    if spec_ord_len(s) == 0 {
        Error::BadSyntax
    } else if spec_rest(s).len() > 0 && !(forall|k: int|
        0 <= k < spec_rest(s).len() ==> is_lower_char(spec_rest(s)[k])) {
        Error::BadSyntax
    } else if spec_rest(s).len() > 0 {
        Error::UnknownLocality
    } else {
        Error::EachRequiresLocality
    }
}

/// Value of a run of decimal digits, most significant first.
pub open spec fn dec_val(s: Seq<char>) -> int
    decreases s.len(),
{
    if s.len() == 0 {
        0
    } else {
        dec_val(s.drop_last()) * 10 + (s.last() as u32 - 48)
    }
}

pub proof fn lemma_dec_val_nonneg(s: Seq<char>)
    requires
        forall|k: int| 0 <= k < s.len() ==> is_digit_char(s[k]),
    ensures
        dec_val(s) >= 0,
    decreases s.len(),
{
    if s.len() > 0 {
        lemma_dec_val_nonneg(s.drop_last());
    }
}

/// Extending a digit run can only grow its value.
pub proof fn lemma_dec_val_prefix_le(s: Seq<char>, i: int, j: int)
    requires
        forall|k: int| 0 <= k < s.len() ==> is_digit_char(s[k]),
        0 <= i <= j <= s.len(),
    ensures
        dec_val(s.subrange(0, i)) <= dec_val(s.subrange(0, j)),
    decreases j - i,
{
    if i < j {
        lemma_dec_val_prefix_le(s, i, j - 1);
        let p = s.subrange(0, j);
        assert(p.drop_last() =~= s.subrange(0, j - 1));
        assert(forall|k: int| 0 <= k < p.len() ==> is_digit_char(p[k]));
        lemma_dec_val_nonneg(p.drop_last());
    }
}

/// A sub-job as it stands in the description file: the placement string and
/// the command it launches.
#[derive(Debug)]
pub struct Job {
    pub map: String,
    pub command: Vec<String>,
}

impl Job {
    /// Split the placement string into its order part and its locality,
    /// holding it to the grammar.
    pub fn parse(&self) -> (r: Result<(String, Option<Loc>), Error>)
        ensures
            match r {
                Ok(p) => {
                    &&& accepted(self.map@)
                    &&& p.0@ == spec_ord(self.map@)
                    &&& match p.1 {
                        Some(l) => spec_rest(self.map@) == loc_word(l),
                        None => spec_rest(self.map@).len() == 0,
                    }
                },
                Err(e) => !accepted(self.map@) && e == parse_error_of(self.map@),
            },
    {
        let s: &str = self.map.as_str();
        let n: usize = s.unicode_len();
        proof {
            lemma_digit_prefix(self.map@);
        }
        if n == 0 {
            return Err(Error::BadSyntax);
        }
        let c0: char = s.get_char(0);
        let ord_end: usize;
        if c0 == 'A' || c0 == 'E' {
            ord_end = 1;
        } else {
            let mut i: usize = 0;
            let mut stop: bool = false;
            while i < n && !stop
                invariant
                    0 <= i <= n,
                    n == self.map@.len(),
                    s@ == self.map@,
                    forall|k: int| 0 <= k < i ==> is_digit_char(self.map@[k]),
                    stop ==> i < n && !is_digit_char(self.map@[i as int]),
                decreases n - i + (if stop { 0int } else { 1int }),
            {
                let c: char = s.get_char(i);
                let u: u32 = c as u32;
                if 48 <= u && u <= 57 {
                    i = i + 1;
                } else {
                    stop = true;
                }
            }
            proof {
                lemma_digit_prefix_is(self.map@, i as int);
            }
            if i == 0 {
                return Err(Error::BadSyntax);
            }
            ord_end = i;
        }
        assert(spec_ord_len(self.map@) == ord_end);
        let ord: String = s.substring_char(0, ord_end).to_owned();
        if ord_end == n {
            assert(spec_rest(self.map@).len() == 0);
            if c0 == 'E' {
                return Err(Error::EachRequiresLocality);
            }
            return Ok((ord, None));
        }
        let rest: &str = s.substring_char(ord_end, n);
        assert(rest@ == spec_rest(self.map@));
        if str_eqs(rest, "numa") {
            return Ok((ord, Some(Loc::Numa)));
        }
        if str_eqs(rest, "slot") {
            return Ok((ord, Some(Loc::Slot)));
        }
        if str_eqs(rest, "node") {
            return Ok((ord, Some(Loc::Node)));
        }
        // Not a known locality token: tell a lowercase word apart from noise.
        let rn: usize = rest.unicode_len();
        let mut k: usize = 0;
        let mut all_lower: bool = true;
        while k < rn
            invariant
                0 <= k <= rn,
                rn == rest@.len(),
                rest@ == spec_rest(self.map@),
                all_lower == (forall|q: int| 0 <= q < k ==> is_lower_char(rest@[q])),
            decreases rn - k,
        {
            let c: char = rest.get_char(k);
            let u: u32 = c as u32;
            if !(97 <= u && u <= 122) {
                all_lower = false;
            }
            k = k + 1;
        }
        if all_lower {
            Err(Error::UnknownLocality)
        } else {
            Err(Error::BadSyntax)
        }
    }
}

/// Character-for-character equality of two string slices.
fn str_eqs(a: &str, b: &str) -> (r: bool)
    ensures
        r == (a@ == b@),
{
    let sa: String = a.to_owned();
    let sb: String = b.to_owned();
    sa == sb
}

/// Convert the digit run of an order part into a count, watching the
/// machine-word bound.
fn parse_order_digits(ord: &str) -> (r: Result<usize, Error>)
    requires
        ord@.len() > 0,
        forall|k: int| 0 <= k < ord@.len() ==> is_digit_char(ord@[k]),
    ensures
        match r {
            Ok(v) => v == dec_val(ord@),
            Err(e) => e == Error::OrderTooLarge && dec_val(ord@) > usize::MAX,
        },
{
    let n: usize = ord.unicode_len();
    let mut acc: usize = 0;
    let mut i: usize = 0;
    proof {
        assert(ord@.subrange(0, 0) =~= Seq::<char>::empty());
    }
    while i < n
        invariant
            0 <= i <= n,
            n == ord@.len(),
            forall|k: int| 0 <= k < ord@.len() ==> is_digit_char(ord@[k]),
            acc == dec_val(ord@.subrange(0, i as int)),
        decreases n - i,
    {
        let c: char = ord.get_char(i);
        let d: u32 = c as u32 - 48;
        proof {
            assert(ord@.subrange(0, i + 1).drop_last() =~= ord@.subrange(0, i as int));
            assert(ord@.subrange(0, i + 1).last() == ord@[i as int]);
        }
        if acc > (usize::MAX - d as usize) / 10 {
            proof {
                assert(dec_val(ord@.subrange(0, i + 1)) > usize::MAX) by {
                    assert(dec_val(ord@.subrange(0, i + 1)) == acc * 10 + d);
                };
                lemma_dec_val_prefix_le(ord@, i + 1, n as int);
                assert(ord@.subrange(0, n as int) =~= ord@);
            }
            return Err(Error::OrderTooLarge);
        }
        acc = acc * 10 + d as usize;
        i = i + 1;
    }
    proof {
        assert(ord@.subrange(0, n as int) =~= ord@);
    }
    Ok(acc)
}

/// A sub-job after validation: the original placement string, its order part,
/// the pre-parsed order and locality, and the command.  The solver never
/// re-parses.
#[derive(Debug)]
pub struct JobEntry {
    pub map: String,
    pub order: String,
    pub parsed: Order,
    pub loc: Option<Loc>,
    pub command: Vec<String>,
}

/// The pre-parsed order of an accepted placement string.
pub open spec fn parsed_of(s: Seq<char>) -> Order
    recommends
        accepted(s),
{
    if s[0] == 'A' {
        Order::All
    } else if s[0] == 'E' {
        Order::Each
    } else {
        Order::Fixed(dec_val(spec_ord(s)) as usize)
    }
}

/// A placement string the loader takes: accepted by the grammar, with a
/// fixed count that fits the machine word.
pub open spec fn job_accepted(s: Seq<char>) -> bool {
    accepted(s) && (!(s[0] == 'A' || s[0] == 'E') ==> dec_val(spec_ord(s)) <= usize::MAX)
}

/// Which error a rejected job draws at load time.
pub open spec fn load_error_of(s: Seq<char>) -> Error {
    if !accepted(s) {
        parse_error_of(s)
    } else {
        Error::OrderTooLarge
    }
}

impl JobEntry {
    /// Well-formed: the stored parts are exactly what the grammar reads out
    /// of the stored placement string.
    pub open spec fn wf(self) -> bool {
        &&& accepted(self.map@)
        &&& self.order@ == spec_ord(self.map@)
        &&& self.parsed == parsed_of(self.map@)
        &&& match self.loc {
            Some(l) => spec_rest(self.map@) == loc_word(l),
            None => spec_rest(self.map@).len() == 0,
        }
        &&& (self.parsed is Each ==> self.loc is Some)
    }

    /// Validate one description entry into a job entry.
    pub fn from_job(job: Job) -> (r: Result<JobEntry, Error>)
        ensures
            match r {
                Ok(e) => {
                    &&& job_accepted(job.map@)
                    &&& e.wf()
                    &&& e.map@ == job.map@
                    &&& e.command == job.command
                },
                Err(err) => !job_accepted(job.map@) && err == load_error_of(job.map@),
            },
    {
        let parsed_map: (String, Option<Loc>) = match job.parse() {
            Ok(p) => p,
            Err(e) => {
                return Err(e);
            },
        };
        let (order, loc) = parsed_map;
        proof {
            lemma_digit_prefix(job.map@);
        }
        let c0: char = order.as_str().get_char(0);
        let parsed: Order;
        if c0 == 'A' {
            parsed = Order::All;
        } else if c0 == 'E' {
            parsed = Order::Each;
        } else {
            proof {
                lemma_digit_prefix(job.map@);
            }
            let n: usize = match parse_order_digits(order.as_str()) {
                Ok(v) => v,
                Err(e) => {
                    return Err(e);
                },
            };
            parsed = Order::Fixed(n);
        }
        Ok(JobEntry {
            map: job.map,
            order,
            parsed,
            loc,
            command: job.command,
        })
    }

    /// The locality at which this entry is placed: its own, or `slot` when
    /// it names none.
    pub fn loc_or_slot(&self) -> (l: Loc)
        ensures
            l == self.spec_loc_or_slot(),
    {
        match self.loc {
            Some(l) => l,
            None => Loc::Slot,
        }
    }

    pub open spec fn spec_loc_or_slot(self) -> Loc {
        match self.loc {
            Some(l) => l,
            None => Loc::Slot,
        }
    }
}

/// Law: recomposing the order part and the locality token of a well-formed
/// job entry yields the original placement string.
pub proof fn lemma_grammar_round_trip(e: JobEntry)
    requires
        e.wf(),
    ensures
        e.order@ + (match e.loc {
            Some(l) => loc_word(l),
            None => Seq::<char>::empty(),
        }) == e.map@,
{
    let s = e.map@;
    lemma_digit_prefix(s);
    assert(spec_ord(s) + spec_rest(s) =~= s);
    match e.loc {
        Some(l) => {
            assert(e.order@ + loc_word(l) == spec_ord(s) + spec_rest(s));
        },
        None => {
            assert(spec_rest(s) =~= Seq::<char>::empty());
        },
    }
}

/// The ordered list of sub-jobs.  A job's identity is its position here.
#[derive(Debug)]
pub struct JobList {
    pub jobs: Vec<JobEntry>,
}

/// How many entries of `jobs` fall in the given class.
pub open spec fn count_class(jobs: Seq<JobEntry>, c: OrderClass) -> nat
    decreases jobs.len(),
{
    if jobs.len() == 0 {
        0
    } else {
        count_class(jobs.drop_last(), c) + if class_of(jobs.last().parsed) == c {
            1nat
        } else {
            0nat
        }
    }
}

/// The three classes of placement policy.
#[derive(Clone, Copy, PartialEq, Eq, Structural, Debug)]
pub enum OrderClass {
    Each,
    Fixed,
    All,
}

pub open spec fn class_of(o: Order) -> OrderClass {
    match o {
        Order::All => OrderClass::All,
        Order::Each => OrderClass::Each,
        Order::Fixed(_) => OrderClass::Fixed,
    }
}

impl JobList {
    /// Every entry is well-formed.
    pub open spec fn wf(self) -> bool {
        forall|i: int| 0 <= i < self.jobs@.len() ==> (#[trigger] self.jobs@[i]).wf()
    }

    /// Validate an ordered description into a job list, stopping at the
    /// first offending entry.
    pub fn load(jobs: Vec<Job>) -> (r: Result<JobList, Error>)
        ensures
            match r {
                Ok(jl) => {
                    &&& jl.wf()
                    &&& jl.jobs@.len() == jobs@.len()
                    &&& forall|i: int| 0 <= i < jobs@.len() ==> job_accepted(
                        (#[trigger] jobs@[i]).map@,
                    )
                    &&& forall|i: int| 0 <= i < jobs@.len() ==> (#[trigger] jl.jobs@[i]).map@
                        == jobs@[i].map@
                    &&& forall|i: int| 0 <= i < jobs@.len() ==> (#[trigger] jl.jobs@[i]).command@
                        == jobs@[i].command@
                },
                Err(e) => exists|i: int|
                    0 <= i < jobs@.len() && !job_accepted((#[trigger] jobs@[i]).map@)
                        && e == load_error_of(jobs@[i].map@) && forall|k: int|
                        0 <= k < i ==> job_accepted((#[trigger] jobs@[k]).map@),
            },
    {
        let mut out: Vec<JobEntry> = Vec::new();
        let ghost all = jobs@;
        let mut idx: usize = 0;
        let n: usize = jobs.len();
        // Consume the entries front first, keeping their order.
        while idx < n
            invariant
                jobs@ == all,
                n == all.len(),
                0 <= idx <= n,
                out@.len() == idx,
                forall|i: int| 0 <= i < idx ==> job_accepted((#[trigger] all[i]).map@),
                forall|i: int| 0 <= i < idx ==> (#[trigger] out@[i]).wf(),
                forall|i: int| 0 <= i < idx ==> (#[trigger] out@[i]).map@ == all[i].map@,
                forall|i: int| 0 <= i < idx ==> (#[trigger] out@[i]).command@ == all[i].command@,
            decreases n - idx,
        {
            let j: Job = Job {
                map: jobs[idx].map.clone(),
                command: clone_commands(&jobs[idx].command),
            };
            assert(j.map@ == all[idx as int].map@);
            let e: JobEntry = match JobEntry::from_job(j) {
                Ok(e) => e,
                Err(err) => {
                    return Err(err);
                },
            };
            out.push(e);
            idx = idx + 1;
        }
        Ok(JobList { jobs: out })
    }

    /// The job id of the entry at a position, when the position names one.
    pub fn job_id(&self, id: usize) -> (r: Result<u32, Error>)
        ensures
            match r {
                Ok(v) => id < self.jobs@.len() && id <= u32::MAX && v == id,
                Err(e) => (id >= self.jobs@.len() || id > u32::MAX) && e == (Error::NoSuchJob {
                    id,
                }),
            },
    {
        if id < self.jobs.len() && id <= u32::MAX as usize {
            Ok(id as u32)
        } else {
            Err(Error::NoSuchJob { id })
        }
    }

    /// The entry a job id names, when it names one.
    pub fn job_by_id(&self, id: u32) -> (r: Option<&JobEntry>)
        ensures
            match r {
                Some(e) => id < self.jobs@.len() && *e == self.jobs@[id as int],
                None => id >= self.jobs@.len(),
            },
    {
        if (id as usize) < self.jobs.len() {
            Some(&self.jobs[id as usize])
        } else {
            None
        }
    }

    /// The job ids of the given class, in list order.
    fn jobs_of_class(&self, c: OrderClass) -> (v: Vec<u32>)
        requires
            self.jobs@.len() <= u32::MAX,
        ensures
            v@.len() == count_class(self.jobs@, c),
            forall|k: int| 0 <= k < v@.len() ==> #[trigger] v@[k] < self.jobs@.len()
                && class_of(self.jobs@[v@[k] as int].parsed) == c,
            forall|k1: int, k2: int| 0 <= k1 < k2 < v@.len() ==> v@[k1] < v@[k2],
            forall|i: int| 0 <= i < self.jobs@.len()
                && class_of((#[trigger] self.jobs@[i]).parsed) == c ==> exists|k: int|
                0 <= k < v@.len() && v@[k] == i,
    {
        let mut v: Vec<u32> = Vec::new();
        let mut i: usize = 0;
        let n: usize = self.jobs.len();
        proof {
            assert(self.jobs@.subrange(0, 0) =~= Seq::<JobEntry>::empty());
        }
        while i < n
            invariant
                0 <= i <= n,
                n == self.jobs@.len(),
                n <= u32::MAX,
                v@.len() == count_class(self.jobs@.subrange(0, i as int), c),
                forall|k: int| 0 <= k < v@.len() ==> #[trigger] v@[k] < i
                    && class_of(self.jobs@[v@[k] as int].parsed) == c,
                forall|k1: int, k2: int| 0 <= k1 < k2 < v@.len() ==> v@[k1] < v@[k2],
                forall|q: int| 0 <= q < i && class_of((#[trigger] self.jobs@[q]).parsed) == c
                    ==> exists|k: int| 0 <= k < v@.len() && v@[k] == q,
            decreases n - i,
        {
            proof {
                assert(self.jobs@.subrange(0, i + 1).drop_last() =~= self.jobs@.subrange(
                    0,
                    i as int,
                ));
                assert(self.jobs@.subrange(0, i + 1).last() == self.jobs@[i as int]);
            }
            let is_c: bool = match (self.jobs[i].parsed, c) {
                (Order::All, OrderClass::All) => true,
                (Order::Each, OrderClass::Each) => true,
                (Order::Fixed(_), OrderClass::Fixed) => true,
                _ => false,
            };
            let ghost vold = v@;
            if is_c {
                v.push(i as u32);
            }
            proof {
                assert forall|q: int|
                    0 <= q < i + 1 && class_of((#[trigger] self.jobs@[q]).parsed)
                        == c implies exists|k: int| 0 <= k < v@.len() && v@[k] == q by {
                    if q == i {
                        assert(v@[v@.len() - 1] == i as u32);
                    } else {
                        let k0 = choose|k: int| 0 <= k < vold.len() && vold[k] == q;
                        assert(v@[k0] == q);
                    }
                }
            }
            i = i + 1;
        }
        proof {
            assert(self.jobs@.subrange(0, n as int) =~= self.jobs@);
        }
        v
    }

    /// Ids of the fixed-count jobs, in list order.
    pub fn fixed_jobs(&self) -> (v: Vec<u32>)
        requires
            self.jobs@.len() <= u32::MAX,
        ensures
            v@.len() == count_class(self.jobs@, OrderClass::Fixed),
            forall|k: int| 0 <= k < v@.len() ==> #[trigger] v@[k] < self.jobs@.len()
                && self.jobs@[v@[k] as int].parsed is Fixed,
            forall|k1: int, k2: int| 0 <= k1 < k2 < v@.len() ==> v@[k1] < v@[k2],
            forall|i: int| 0 <= i < self.jobs@.len() && (#[trigger] self.jobs@[i]).parsed is Fixed
                ==> exists|k: int| 0 <= k < v@.len() && v@[k] == i,
    {
        self.jobs_of_class(OrderClass::Fixed)
    }

    /// Ids of the `A` jobs, in list order.
    pub fn all_jobs(&self) -> (v: Vec<u32>)
        requires
            self.jobs@.len() <= u32::MAX,
        ensures
            v@.len() == count_class(self.jobs@, OrderClass::All),
            forall|k: int| 0 <= k < v@.len() ==> #[trigger] v@[k] < self.jobs@.len()
                && self.jobs@[v@[k] as int].parsed is All,
            forall|k1: int, k2: int| 0 <= k1 < k2 < v@.len() ==> v@[k1] < v@[k2],
            forall|i: int| 0 <= i < self.jobs@.len() && (#[trigger] self.jobs@[i]).parsed is All
                ==> exists|k: int| 0 <= k < v@.len() && v@[k] == i,
    {
        self.jobs_of_class(OrderClass::All)
    }

    /// Ids of the `E` jobs, in list order.
    pub fn each_jobs(&self) -> (v: Vec<u32>)
        requires
            self.jobs@.len() <= u32::MAX,
        ensures
            v@.len() == count_class(self.jobs@, OrderClass::Each),
            forall|k: int| 0 <= k < v@.len() ==> #[trigger] v@[k] < self.jobs@.len()
                && self.jobs@[v@[k] as int].parsed is Each,
            forall|k1: int, k2: int| 0 <= k1 < k2 < v@.len() ==> v@[k1] < v@[k2],
            forall|i: int| 0 <= i < self.jobs@.len() && (#[trigger] self.jobs@[i]).parsed is Each
                ==> exists|k: int| 0 <= k < v@.len() && v@[k] == i,
    {
        self.jobs_of_class(OrderClass::Each)
    }

    /// How many `A` jobs the list holds.
    pub fn all_jobs_count(&self) -> (n: usize)
        requires
            self.jobs@.len() <= u32::MAX,
        ensures
            n == count_class(self.jobs@, OrderClass::All),
    {
        let v: Vec<u32> = self.jobs_of_class(OrderClass::All);
        v.len()
    }
}

/// Clone a command vector element by element.
fn clone_commands(v: &Vec<String>) -> (r: Vec<String>)
    ensures
        r@ == v@,
{
    let mut r: Vec<String> = Vec::new();
    let mut i: usize = 0;
    while i < v.len()
        invariant
            0 <= i <= v@.len(),
            r@ == v@.subrange(0, i as int),
        decreases v@.len() - i,
    {
        r.push(v[i].clone());
        proof {
            assert(r@ =~= v@.subrange(0, i + 1));
        }
        i = i + 1;
    }
    proof {
        assert(r@ =~= v@);
    }
    r
}

} // verus!
