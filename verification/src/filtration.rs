//! The Filtration: a dense 3-D tensor of simulated values keyed by
//! (scenario, time, process), stored row-major with the process axis
//! innermost.  Values are the raw 64 bits of IEEE doubles; this module never
//! interprets them numerically, it only guarantees layout, seeding and the
//! order of the materialised record set.

use vstd::pervasive::VecAdditionalExecFns;
use vstd::prelude::*;
use vstd::string::StringExecFns;

verus! {

/// One row of the long-format output: the simulated value of one process in
/// one scenario at one time point.  `time` and `value` are IEEE double bits.
pub struct SimRecord {
    pub time: u64,
    pub scenario: i32,
    pub process_name: String,
    pub value: u64,
}

/// The dense state tensor of shape (S, N, P): S scenarios, N time points,
/// P processes.  `values[s*N*P + t*P + p]` is the value of process `p` in
/// scenario `s` at time index `t`.
pub struct Filtration {
    times: Vec<u64>,
    scenarios: Vec<i32>,
    process_names: Vec<String>,
    values: Vec<u64>,
}

/// The value that the seeding pass writes for a process name: the value of
/// the first pair carrying that name, or the bits of 0.0 (which are zero)
/// when the name is absent.
pub open spec fn initial_value_of(pairs: Seq<(String, u64)>, name: Seq<char>) -> u64
    decreases pairs.len(),
{
    if pairs.len() == 0 {
        0u64
    } else if pairs[0].0@ == name {
        pairs[0].1
    } else {
        initial_value_of(pairs.drop_first(), name)
    }
}

impl Filtration {
    pub closed spec fn spec_times(self) -> Seq<u64> {
        self.times@
    }

    pub closed spec fn spec_scenarios(self) -> Seq<i32> {
        self.scenarios@
    }

    pub closed spec fn spec_names(self) -> Seq<String> {
        self.process_names@
    }

    /// Number of time points N.
    pub open spec fn num_times(self) -> int {
        self.spec_times().len() as int
    }

    /// Number of scenarios S.
    pub open spec fn num_scenarios(self) -> int {
        self.spec_scenarios().len() as int
    }

    /// Number of processes P.
    pub open spec fn num_processes(self) -> int {
        self.spec_names().len() as int
    }

    /// Flat offset of (scenario, time, process) in the row-major storage.
    pub open spec fn offset_of(self, s: int, t: int, p: int) -> int {
        s * (self.num_times() * self.num_processes()) + t * self.num_processes() + p
    }

    /// The stored value of process `p` in scenario `s` at time index `t`.
    pub closed spec fn value_at(self, s: int, t: int, p: int) -> u64 {
        self.values@[self.offset_of(s, t, p)]
    }

    pub open spec fn in_range(self, s: int, t: int, p: int) -> bool {
        0 <= s < self.num_scenarios() && 0 <= t < self.num_times() && 0 <= p
            < self.num_processes()
    }

    /// Layout invariant: the backing storage has exactly S*N*P cells.
    pub closed spec fn well_formed(self) -> bool {
        self.values@.len() == self.num_scenarios() * (self.num_times() * self.num_processes())
    }

    /// The grid labels are pairwise distinct, as the data model demands:
    /// times strictly increase, scenario labels are distinct integers and
    /// process names are unique.  Distinct doubles have distinct bits.
    pub open spec fn distinct_axes(self) -> bool {
        &&& forall|i: int, j: int|
            0 <= i < j < self.num_times() ==> self.spec_times()[i] != self.spec_times()[j]
        &&& forall|i: int, j: int|
            0 <= i < j < self.num_scenarios() ==> self.spec_scenarios()[i]
                != self.spec_scenarios()[j]
        &&& forall|i: int, j: int|
            0 <= i < j < self.num_processes() ==> self.spec_names()[i]@ != self.spec_names()[j]@
    }

    /// Builds the tensor over the given grid, zero-filled, then seeds the
    /// first time row of every scenario from the name-keyed initial values
    /// (a missing name defaults to the bits of 0.0).
    pub fn new(
        times: Vec<u64>,
        scenarios: Vec<i32>,
        process_names: Vec<String>,
        initial_values: Option<Vec<(String, u64)>>,
    ) -> (r: Filtration)
        requires
            times@.len() >= 1,
            times@.len() * process_names@.len() <= usize::MAX,
            scenarios@.len() * (times@.len() * process_names@.len()) <= usize::MAX,
        ensures
            r.well_formed(),
            r.spec_times() == times@,
            r.spec_scenarios() == scenarios@,
            r.spec_names() == process_names@,
            forall|s: int, p: int|
                0 <= s < r.num_scenarios() && 0 <= p < r.num_processes() ==> r.value_at(s, 0, p)
                    == (match initial_values {
                    Some(pairs) => initial_value_of(pairs@, r.spec_names()[p]@),
                    None => 0u64,
                }),
            forall|s: int, t: int, p: int|
                r.in_range(s, t, p) && t >= 1 ==> r.value_at(s, t, p) == 0u64,
    {
        let n = times.len();
        let s_count = scenarios.len();
        let p_count = process_names.len();
        let total: usize = s_count * (n * p_count);
        let mut values: Vec<u64> = Vec::new();
        let mut i: usize = 0;
        while i < total
            invariant
                i <= total,
                values@.len() == i,
                forall|j: int| 0 <= j < i ==> values@[j] == 0u64,
            decreases total - i,
        {
            values.push(0u64);
            i = i + 1;
        }
        let mut f = Filtration { times, scenarios, process_names, values };
        proof {
            assert(f.well_formed());
            assert forall|s: int, t: int, p: int| f.in_range(s, t, p) implies f.value_at(s, t, p)
                == 0u64 by {
                lemma_offset_in_bounds(f, s, t, p);
            }
        }
        if let Some(pairs) = initial_values {
            f.set_initial_values(pairs);
        }
        f
    }

    /// O(1) indexed read.
    pub fn get(&self, s: usize, t: usize, p: usize) -> (r: u64)
        requires
            self.well_formed(),
            self.in_range(s as int, t as int, p as int),
        ensures
            r == self.value_at(s as int, t as int, p as int),
    {
        proof {
            lemma_offset_in_bounds(*self, s as int, t as int, p as int);
        }
        let _total = self.values.len();
        let n = self.times.len();
        let p_count = self.process_names.len();
        self.values[s * (n * p_count) + t * p_count + p]
    }

    /// O(1) indexed write.  Only the addressed cell changes; the shape and
    /// the grid never change, so a tensor (such as the Runge-Kutta
    /// scratchpad) is never resized after construction.
    pub fn set(&mut self, s: usize, t: usize, p: usize, v: u64)
        requires
            old(self).well_formed(),
            old(self).in_range(s as int, t as int, p as int),
        ensures
            final(self).well_formed(),
            final(self).spec_times() == old(self).spec_times(),
            final(self).spec_scenarios() == old(self).spec_scenarios(),
            final(self).spec_names() == old(self).spec_names(),
            final(self).value_at(s as int, t as int, p as int) == v,
            forall|s2: int, t2: int, p2: int|
                old(self).in_range(s2, t2, p2) && (s2 != s as int || t2 != t as int || p2
                    != p as int) ==> final(self).value_at(s2, t2, p2) == old(self).value_at(
                    s2,
                    t2,
                    p2,
                ),
    {
        proof {
            lemma_offset_in_bounds(*self, s as int, t as int, p as int);
        }
        let _total = self.values.len();
        let n = self.times.len();
        let p_count = self.process_names.len();
        let idx: usize = s * (n * p_count) + t * p_count + p;
        self.values.set(idx, v);
        proof {
            assert forall|s2: int, t2: int, p2: int|
                old(self).in_range(s2, t2, p2) && (s2 != s as int || t2 != t as int || p2
                    != p as int) implies self.value_at(s2, t2, p2) == old(self).value_at(
                s2,
                t2,
                p2,
            ) by {
                lemma_offset_in_bounds(*old(self), s2, t2, p2);
                if old(self).offset_of(s2, t2, p2) == old(self).offset_of(
                    s as int,
                    t as int,
                    p as int,
                ) {
                    lemma_offset_injective(
                        *old(self),
                        s2,
                        t2,
                        p2,
                        s as int,
                        t as int,
                        p as int,
                    );
                }
            }
        }
    }

    /// Copy of the P-element row for (scenario, time): the snapshot against
    /// which every coefficient of a step is evaluated.
    pub fn row_slice(&self, s: usize, t: usize) -> (r: Vec<u64>)
        requires
            self.well_formed(),
            s < self.num_scenarios(),
            t < self.num_times(),
        ensures
            r@.len() == self.num_processes(),
            forall|p: int| 0 <= p < self.num_processes() ==> r@[p] == self.value_at(
                s as int,
                t as int,
                p,
            ),
    {
        let p_count = self.process_names.len();
        let mut row: Vec<u64> = Vec::new();
        let mut p: usize = 0;
        while p < p_count
            invariant
                p <= p_count,
                p_count == self.num_processes(),
                s < self.num_scenarios(),
                t < self.num_times(),
                self.well_formed(),
                row@.len() == p,
                forall|j: int| 0 <= j < p ==> row@[j] == self.value_at(s as int, t as int, j),
            decreases p_count - p,
        {
            row.push(self.get(s, t, p));
            p = p + 1;
        }
        row
    }

    /// Overwrites the first time row of every scenario with the name-keyed
    /// initial values; a name that is absent from `pairs` leaves the bits of
    /// 0.0.  Rows at later time indices are untouched.
    pub fn set_initial_values(&mut self, pairs: Vec<(String, u64)>)
        requires
            old(self).well_formed(),
            old(self).num_times() >= 1,
        ensures
            final(self).well_formed(),
            final(self).spec_times() == old(self).spec_times(),
            final(self).spec_scenarios() == old(self).spec_scenarios(),
            final(self).spec_names() == old(self).spec_names(),
            forall|s: int, p: int|
                0 <= s < old(self).num_scenarios() && 0 <= p < old(self).num_processes()
                    ==> final(self).value_at(s, 0, p) == initial_value_of(
                    pairs@,
                    old(self).spec_names()[p]@,
                ),
            forall|s2: int, t2: int, p2: int|
                old(self).in_range(s2, t2, p2) && t2 >= 1 ==> final(self).value_at(s2, t2, p2)
                    == old(self).value_at(s2, t2, p2),
    {
        let s_count = self.scenarios.len();
        let p_count = self.process_names.len();
        let mut s: usize = 0;
        while s < s_count
            invariant
                s <= s_count,
                s_count == old(self).num_scenarios(),
                p_count == old(self).num_processes(),
                old(self).num_times() >= 1,
                self.well_formed(),
                self.spec_times() == old(self).spec_times(),
                self.spec_scenarios() == old(self).spec_scenarios(),
                self.spec_names() == old(self).spec_names(),
                forall|s2: int, p2: int|
                    0 <= s2 < s && 0 <= p2 < p_count ==> self.value_at(s2, 0, p2)
                        == initial_value_of(pairs@, old(self).spec_names()[p2]@),
                forall|s2: int, t2: int, p2: int|
                    old(self).in_range(s2, t2, p2) && (t2 >= 1 || s2 >= s) ==> self.value_at(
                        s2,
                        t2,
                        p2,
                    ) == old(self).value_at(s2, t2, p2),
            decreases s_count - s,
        {
            let mut p: usize = 0;
            while p < p_count
                invariant
                    p <= p_count,
                    s < s_count,
                    s_count == old(self).num_scenarios(),
                    p_count == old(self).num_processes(),
                    old(self).num_times() >= 1,
                    self.well_formed(),
                    self.spec_times() == old(self).spec_times(),
                    self.spec_scenarios() == old(self).spec_scenarios(),
                    self.spec_names() == old(self).spec_names(),
                    forall|s2: int, p2: int|
                        0 <= s2 < s && 0 <= p2 < p_count ==> self.value_at(s2, 0, p2)
                            == initial_value_of(pairs@, old(self).spec_names()[p2]@),
                    forall|p2: int|
                        0 <= p2 < p ==> self.value_at(s as int, 0, p2) == initial_value_of(
                            pairs@,
                            old(self).spec_names()[p2]@,
                        ),
                    forall|s2: int, t2: int, p2: int|
                        old(self).in_range(s2, t2, p2) && (t2 >= 1 || s2 > s || (s2 == s && p2
                            >= p)) ==> self.value_at(s2, t2, p2) == old(self).value_at(
                            s2,
                            t2,
                            p2,
                        ),
                decreases p_count - p,
            {
                let v = lookup_initial(&pairs, &self.process_names[p]);
                self.set(s, 0, p, v);
                p = p + 1;
            }
            s = s + 1;
        }
    }

    /// Replaces the whole row for (scenario, time) in one call: the write
    /// the integrator commits at the end of a step.  Nothing outside that
    /// row changes.
    pub fn set_row(&mut self, s: usize, t: usize, row: &Vec<u64>)
        requires
            old(self).well_formed(),
            s < old(self).num_scenarios(),
            t < old(self).num_times(),
            row@.len() == old(self).num_processes(),
        ensures
            final(self).well_formed(),
            final(self).spec_times() == old(self).spec_times(),
            final(self).spec_scenarios() == old(self).spec_scenarios(),
            final(self).spec_names() == old(self).spec_names(),
            forall|p: int| 0 <= p < old(self).num_processes() ==> final(self).value_at(
                s as int,
                t as int,
                p,
            ) == row@[p],
            forall|s2: int, t2: int, p2: int|
                old(self).in_range(s2, t2, p2) && (s2 != s as int || t2 != t as int)
                    ==> final(self).value_at(s2, t2, p2) == old(self).value_at(s2, t2, p2),
    {
        let p_count = self.process_names.len();
        let mut p: usize = 0;
        while p < p_count
            invariant
                p <= p_count,
                p_count == old(self).num_processes(),
                s < old(self).num_scenarios(),
                t < old(self).num_times(),
                row@.len() == old(self).num_processes(),
                self.well_formed(),
                self.spec_times() == old(self).spec_times(),
                self.spec_scenarios() == old(self).spec_scenarios(),
                self.spec_names() == old(self).spec_names(),
                forall|j: int| 0 <= j < p ==> self.value_at(s as int, t as int, j) == row@[j],
                forall|s2: int, t2: int, p2: int|
                    old(self).in_range(s2, t2, p2) && (s2 != s as int || t2 != t as int)
                        ==> self.value_at(s2, t2, p2) == old(self).value_at(s2, t2, p2),
            decreases p_count - p,
        {
            self.set(s, t, p, row[p]);
            p = p + 1;
        }
    }
}

impl Filtration {
    /// Resolves a (time bits, scenario label, process name) key to indices:
    /// the first position of each label on its axis, or `None` when any of
    /// the three is absent.
    fn indices(&self, time: u64, scenario: i32, process_name: &str) -> (r: Option<
        (usize, usize, usize),
    >)
        ensures
            match r {
                Some((t, s, p)) => {
                    &&& t < self.num_times() && self.spec_times()[t as int] == time
                    &&& forall|j: int| 0 <= j < t ==> self.spec_times()[j] != time
                    &&& s < self.num_scenarios() && self.spec_scenarios()[s as int] == scenario
                    &&& forall|j: int| 0 <= j < s ==> self.spec_scenarios()[j] != scenario
                    &&& p < self.num_processes() && self.spec_names()[p as int]@
                        == process_name@
                    &&& forall|j: int| 0 <= j < p ==> self.spec_names()[j]@ != process_name@
                },
                None => {
                    ||| forall|j: int| 0 <= j < self.num_times() ==> self.spec_times()[j] != time
                    ||| forall|j: int|
                        0 <= j < self.num_scenarios() ==> self.spec_scenarios()[j] != scenario
                    ||| forall|j: int|
                        0 <= j < self.num_processes() ==> self.spec_names()[j]@ != process_name@
                },
            },
    {
        let t = match position_u64(&self.times, time) {
            Some(t) => t,
            None => {
                return None;
            },
        };
        let s = match position_i32(&self.scenarios, scenario) {
            Some(s) => s,
            None => {
                return None;
            },
        };
        let p = match position_name(&self.process_names, process_name) {
            Some(p) => p,
            None => {
                return None;
            },
        };
        Some((t, s, p))
    }

    /// A name-keyed access resolves to the triple (t2, s2, p2) when those
    /// are the first positions of the time bits, the scenario label and
    /// the process name on their axes.  At most one triple satisfies this.
    pub open spec fn key_resolves_to(
        self,
        time: u64,
        scenario: i32,
        name: Seq<char>,
        t2: int,
        s2: int,
        p2: int,
    ) -> bool {
        &&& 0 <= t2 < self.num_times() && self.spec_times()[t2] == time
        &&& forall|j: int| 0 <= j < t2 ==> self.spec_times()[j] != time
        &&& 0 <= s2 < self.num_scenarios() && self.spec_scenarios()[s2] == scenario
        &&& forall|j: int| 0 <= j < s2 ==> self.spec_scenarios()[j] != scenario
        &&& 0 <= p2 < self.num_processes() && self.spec_names()[p2]@ == name
        &&& forall|j: int| 0 <= j < p2 ==> self.spec_names()[j]@ != name
    }

    /// Name-keyed read: the value at the triple the key resolves to, or
    /// an error exactly when one of the three labels is not on its axis.
    pub fn value(&self, time: u64, scenario: i32, process_name: &str) -> (r: Result<u64, String>)
        requires
            self.well_formed(),
        ensures
            match r {
                Ok(v) => exists|t: int, s: int, p: int|
                    self.key_resolves_to(time, scenario, process_name@, t, s, p) && v
                        == self.value_at(s, t, p),
                Err(_) => {
                    ||| forall|j: int| 0 <= j < self.num_times() ==> self.spec_times()[j] != time
                    ||| forall|j: int|
                        0 <= j < self.num_scenarios() ==> self.spec_scenarios()[j] != scenario
                    ||| forall|j: int|
                        0 <= j < self.num_processes() ==> self.spec_names()[j]@ != process_name@
                },
            },
    {
        match self.indices(time, scenario, process_name) {
            Some((t, s, p)) => {
                let v = self.get(s, t, p);
                proof {
                    assert(self.key_resolves_to(
                        time,
                        scenario,
                        process_name@,
                        t as int,
                        s as int,
                        p as int,
                    ));
                }
                Ok(v)
            },
            None => Err(String::from_str("no value for the given time, scenario and process")),
        }
    }

    /// Name-keyed write: exactly the cell the key resolves to receives
    /// `new_value`, every other cell is unchanged, and a key that is not
    /// on the grid leaves the tensor entirely unchanged rather than
    /// failing.
    pub fn set_value(&mut self, time: u64, scenario: i32, process_name: &str, new_value: u64)
        requires
            old(self).well_formed(),
        ensures
            final(self).well_formed(),
            final(self).spec_times() == old(self).spec_times(),
            final(self).spec_scenarios() == old(self).spec_scenarios(),
            final(self).spec_names() == old(self).spec_names(),
            forall|t2: int, s2: int, p2: int|
                old(self).key_resolves_to(time, scenario, process_name@, t2, s2, p2)
                    ==> final(self).value_at(s2, t2, p2) == new_value,
            forall|s2: int, t2: int, p2: int|
                old(self).in_range(s2, t2, p2) && !old(self).key_resolves_to(
                    time,
                    scenario,
                    process_name@,
                    t2,
                    s2,
                    p2,
                ) ==> final(self).value_at(s2, t2, p2) == old(self).value_at(s2, t2, p2),
    {
        match self.indices(time, scenario, process_name) {
            Some((t, s, p)) => {
                proof {
                    assert(old(self).key_resolves_to(
                        time,
                        scenario,
                        process_name@,
                        t as int,
                        s as int,
                        p as int,
                    ));
                }
                self.set(s, t, p, new_value);
                proof {
                    assert forall|t2: int, s2: int, p2: int|
                        old(self).key_resolves_to(
                            time,
                            scenario,
                            process_name@,
                            t2,
                            s2,
                            p2,
                        ) implies final(self).value_at(s2, t2, p2) == new_value by {
                        assert(t2 == t as int && s2 == s as int && p2 == p as int);
                    }
                }
            },
            None => {
                proof {
                    assert forall|t2: int, s2: int, p2: int|
                        !old(self).key_resolves_to(
                            time,
                            scenario,
                            process_name@,
                            t2,
                            s2,
                            p2,
                        ) by {}
                }
            },
        }
    }

    /// Exactly the long-format record set the engine owes its caller:
    /// S*N*P records, iterated scenario-outer, time-middle, process-inner.
    pub fn materialise(&self) -> (r: Vec<SimRecord>)
        requires
            self.well_formed(),
        ensures
            self.records_of(r@),
    {
        let n = self.times.len();
        let s_count = self.scenarios.len();
        let p_count = self.process_names.len();
        let mut records: Vec<SimRecord> = Vec::new();
        let mut s: usize = 0;
        while s < s_count
            invariant
                s <= s_count,
                self.well_formed(),
                n == self.num_times(),
                s_count == self.num_scenarios(),
                p_count == self.num_processes(),
                records@.len() == s * (n * p_count),
                forall|k: int|
                    0 <= k < records@.len() ==> self.record_matches(
                        records@[k],
                        k / (n * p_count) as int,
                        (k / p_count as int) % n as int,
                        k % p_count as int,
                    ),
            decreases s_count - s,
        {
            let mut t: usize = 0;
            while t < n
                invariant
                    t <= n,
                    s < s_count,
                    self.well_formed(),
                    n == self.num_times(),
                    s_count == self.num_scenarios(),
                    p_count == self.num_processes(),
                    records@.len() == s * (n * p_count) + t * p_count,
                    forall|k: int|
                        0 <= k < records@.len() ==> self.record_matches(
                            records@[k],
                            k / (n * p_count) as int,
                            (k / p_count as int) % n as int,
                            k % p_count as int,
                        ),
                decreases n - t,
            {
                let mut p: usize = 0;
                while p < p_count
                    invariant
                        p <= p_count,
                        t < n,
                        s < s_count,
                        self.well_formed(),
                        n == self.num_times(),
                        s_count == self.num_scenarios(),
                        p_count == self.num_processes(),
                        records@.len() == s * (n * p_count) + t * p_count + p,
                        forall|k: int|
                            0 <= k < records@.len() ==> self.record_matches(
                                records@[k],
                                k / (n * p_count) as int,
                                (k / p_count as int) % n as int,
                                k % p_count as int,
                            ),
                    decreases p_count - p,
                {
                    proof {
                        lemma_offset_in_bounds(*self, s as int, t as int, p as int);
                        lemma_flat_decompose(
                            n as int,
                            p_count as int,
                            s as int,
                            t as int,
                            p as int,
                        );
                    }
                    let rec = SimRecord {
                        time: self.times[t],
                        scenario: self.scenarios[s],
                        process_name: self.process_names[p].clone(),
                        value: self.get(s, t, p),
                    };
                    records.push(rec);
                    p = p + 1;
                }
                t = t + 1;
                proof {
                    assert((t - 1) * p_count + p_count == t * p_count) by (nonlinear_arith);
                }
            }
            s = s + 1;
            proof {
                assert((s - 1) * (n * p_count) + n * p_count == s * (n * p_count))
                    by (nonlinear_arith);
            }
        }
        proof {
            assert(records@.len() == self.num_scenarios() * (self.num_times()
                * self.num_processes()));
        }
        records
    }

    /// Record `k` of the output names the triple it decodes to and carries
    /// that cell's value.
    pub open spec fn record_matches(self, rec: SimRecord, s: int, t: int, p: int) -> bool {
        &&& rec.scenario == self.spec_scenarios()[s]
        &&& rec.time == self.spec_times()[t]
        &&& rec.process_name@ == self.spec_names()[p]@
        &&& rec.value == self.value_at(s, t, p)
    }

    /// The materialised record set: S*N*P records in scenario-outer,
    /// time-middle, process-inner order.
    pub open spec fn records_of(self, recs: Seq<SimRecord>) -> bool {
        &&& recs.len() == self.num_scenarios() * (self.num_times() * self.num_processes())
        &&& forall|k: int|
            0 <= k < recs.len() ==> self.record_matches(
                recs[k],
                k / (self.num_times() * self.num_processes()),
                (k / self.num_processes()) % self.num_times(),
                k % self.num_processes(),
            )
    }

    /// Every (scenario, time, process name) triple appears at most once in
    /// the materialised record set: together with its length, each triple
    /// appears exactly once.
    pub proof fn lemma_records_unique(self, recs: Seq<SimRecord>)
        requires
            self.well_formed(),
            self.distinct_axes(),
            self.records_of(recs),
        ensures
            forall|j: int, k: int|
                0 <= j < k < recs.len() ==> !(recs[j].scenario == recs[k].scenario && recs[j].time
                    == recs[k].time && recs[j].process_name@ == recs[k].process_name@),
    {
        let n = self.num_times();
        let pc = self.num_processes();
        let sc = self.num_scenarios();
        assert forall|j: int, k: int| 0 <= j < k < recs.len() implies !(recs[j].scenario
            == recs[k].scenario && recs[j].time == recs[k].time && recs[j].process_name@
            == recs[k].process_name@) by {
            lemma_flat_in_range(n, pc, sc, j);
            lemma_flat_in_range(n, pc, sc, k);
            lemma_flat_reconstruct(n, pc, j);
            lemma_flat_reconstruct(n, pc, k);
            let sj = j / (n * pc);
            let tj = (j / pc) % n;
            let pj = j % pc;
            let sk = k / (n * pc);
            let tk = (k / pc) % n;
            let pk = k % pc;
            if recs[j].scenario == recs[k].scenario && recs[j].time == recs[k].time
                && recs[j].process_name@ == recs[k].process_name@ {
                assert(self.spec_scenarios()[sj] == self.spec_scenarios()[sk]);
                assert(sj == sk);
                assert(tj == tk);
                assert(pj == pk);
                assert(sj * (n * pc) == sk * (n * pc));
                assert(tj * pc == tk * pc);
                assert(j == k);
            }
        }
    }
}

/// Looks a process name up in the pair list; first match wins, absence
/// yields the bits of 0.0.
fn lookup_initial(pairs: &Vec<(String, u64)>, name: &String) -> (r: u64)
    ensures
        r == initial_value_of(pairs@, name@),
    decreases pairs@.len(),
{
    proof {
        assert(pairs@.skip(0) =~= pairs@);
    }
    let mut i: usize = 0;
    while i < pairs.len()
        invariant
            i <= pairs@.len(),
            initial_value_of(pairs@, name@) == initial_value_of(pairs@.skip(i as int), name@),
        decreases pairs@.len() - i,
    {
        if pairs[i].0.eq(name) {
            proof {
                assert(pairs@.skip(i as int)[0] == pairs@[i as int]);
            }
            return pairs[i].1;
        }
        proof {
            assert(pairs@.skip(i as int).drop_first() =~= pairs@.skip(i as int + 1));
            assert(pairs@.skip(i as int)[0] == pairs@[i as int]);
        }
        i = i + 1;
    }
    proof {
        assert(pairs@.skip(i as int).len() == 0);
    }
    0u64
}

/// First index of `x` in the time axis, by bits.
fn position_u64(v: &Vec<u64>, x: u64) -> (r: Option<usize>)
    ensures
        match r {
            Some(i) => i < v@.len() && v@[i as int] == x && forall|j: int|
                0 <= j < i ==> v@[j] != x,
            None => forall|j: int| 0 <= j < v@.len() ==> v@[j] != x,
        },
{
    let mut i: usize = 0;
    while i < v.len()
        invariant
            i <= v@.len(),
            forall|j: int| 0 <= j < i ==> v@[j] != x,
        decreases v@.len() - i,
    {
        if v[i] == x {
            return Some(i);
        }
        i = i + 1;
    }
    None
}

/// First index of `x` among the scenario labels.
fn position_i32(v: &Vec<i32>, x: i32) -> (r: Option<usize>)
    ensures
        match r {
            Some(i) => i < v@.len() && v@[i as int] == x && forall|j: int|
                0 <= j < i ==> v@[j] != x,
            None => forall|j: int| 0 <= j < v@.len() ==> v@[j] != x,
        },
{
    let mut i: usize = 0;
    while i < v.len()
        invariant
            i <= v@.len(),
            forall|j: int| 0 <= j < i ==> v@[j] != x,
        decreases v@.len() - i,
    {
        if v[i] == x {
            return Some(i);
        }
        i = i + 1;
    }
    None
}

/// First index whose name has the same characters as `x`.
fn position_name(v: &Vec<String>, x: &str) -> (r: Option<usize>)
    ensures
        match r {
            Some(i) => i < v@.len() && v@[i as int]@ == x@ && forall|j: int|
                0 <= j < i ==> v@[j]@ != x@,
            None => forall|j: int| 0 <= j < v@.len() ==> v@[j]@ != x@,
        },
{
    let key = String::from_str(x);
    let mut i: usize = 0;
    while i < v.len()
        invariant
            i <= v@.len(),
            key@ == x@,
            forall|j: int| 0 <= j < i ==> v@[j]@ != x@,
        decreases v@.len() - i,
    {
        if v[i].eq(&key) {
            return Some(i);
        }
        i = i + 1;
    }
    None
}

/// Decomposing the flat index of an in-range triple recovers the triple.
proof fn lemma_flat_decompose(n: int, pc: int, s: int, t: int, p: int)
    requires
        0 <= t < n,
        0 <= p < pc,
        s >= 0,
    ensures
        (s * (n * pc) + t * pc + p) / (n * pc) == s,
        ((s * (n * pc) + t * pc + p) / pc) % n == t,
        (s * (n * pc) + t * pc + p) % pc == p,
{
    let k = s * (n * pc) + t * pc + p;
    assert(0 <= t * pc + p < n * pc) by (nonlinear_arith)
        requires
            0 <= t < n,
            0 <= p < pc,
    ;
    assert(k / (n * pc) == s) by (nonlinear_arith)
        requires
            k == s * (n * pc) + (t * pc + p),
            0 <= t * pc + p < n * pc,
            s >= 0,
    ;
    assert(k / pc == s * n + t) by (nonlinear_arith)
        requires
            k == s * (n * pc) + t * pc + p,
            0 <= p < pc,
            0 <= t < n,
            s >= 0,
    ;
    assert((s * n + t) % n == t) by (nonlinear_arith)
        requires
            0 <= t < n,
            s >= 0,
    ;
    assert(s * (n * pc) + t * pc == (s * n + t) * pc) by (nonlinear_arith);
    assert(s * n + t >= 0) by (nonlinear_arith)
        requires
            s >= 0,
            n >= 1,
            t >= 0,
    ;
    assert(k % pc == p) by (nonlinear_arith)
        requires
            k == (s * n + t) * pc + p,
            0 <= p < pc,
            s * n + t >= 0,
    ;
}

/// The decoded triple of any index below S*N*P is in range.
proof fn lemma_flat_in_range(n: int, pc: int, sc: int, k: int)
    requires
        n >= 0,
        pc >= 0,
        sc >= 0,
        0 <= k < sc * (n * pc),
    ensures
        0 <= k / (n * pc) < sc,
        0 <= (k / pc) % n < n,
        0 <= k % pc < pc,
        n >= 1,
        pc >= 1,
{
    assert(n * pc >= 1 && n >= 1 && pc >= 1) by (nonlinear_arith)
        requires
            n >= 0,
            pc >= 0,
            sc >= 0,
            0 <= k < sc * (n * pc),
    ;
    assert(0 <= k / (n * pc) < sc) by (nonlinear_arith)
        requires
            0 <= k < sc * (n * pc),
            n * pc >= 1,
    ;
    assert(0 <= (k / pc) % n < n) by (nonlinear_arith)
        requires
            k >= 0,
            pc >= 1,
            n >= 1,
    ;
    assert(0 <= k % pc < pc) by (nonlinear_arith)
        requires
            k >= 0,
            pc >= 1,
    ;
}

/// A flat index is recovered from its decoded (scenario, time, process)
/// triple, so the decoding is injective.
proof fn lemma_flat_reconstruct(n: int, pc: int, x: int)
    requires
        n >= 1,
        pc >= 1,
        x >= 0,
    ensures
        x == (x / (n * pc)) * (n * pc) + ((x / pc) % n) * pc + x % pc,
{
    vstd::arithmetic::div_mod::lemma_fundamental_div_mod(x, pc);
    vstd::arithmetic::div_mod::lemma_fundamental_div_mod(x / pc, n);
    vstd::arithmetic::div_mod::lemma_div_denominator(x, pc, n);
    assert(pc * n == n * pc) by (nonlinear_arith);
    let q = x / (n * pc);
    let r = (x / pc) % n;
    assert(x / pc == n * q + r);
    assert(pc * (n * q + r) == q * (n * pc) + r * pc) by (nonlinear_arith);
}

/// The flat offset of an in-range triple lies inside the storage, and every
/// partial sum of the offset computation stays within the storage size.
proof fn lemma_offset_in_bounds(f: Filtration, s: int, t: int, p: int)
    requires
        f.well_formed(),
        f.in_range(s, t, p),
    ensures
        0 <= f.offset_of(s, t, p) < f.values@.len(),
        0 <= f.num_times() * f.num_processes() <= f.values@.len(),
        0 <= t * f.num_processes() <= f.values@.len(),
        0 <= s * (f.num_times() * f.num_processes()) <= f.values@.len(),
        s * (f.num_times() * f.num_processes()) + t * f.num_processes() <= f.values@.len(),
{
    let n = f.num_times();
    let pc = f.num_processes();
    let sc = f.num_scenarios();
    assert(0 <= t * pc + p < n * pc) by (nonlinear_arith)
        requires
            0 <= t < n,
            0 <= p < pc,
    ;
    assert(s * (n * pc) + (n * pc) <= sc * (n * pc)) by (nonlinear_arith)
        requires
            0 <= s < sc,
            n * pc >= 0,
    ;
    assert(s * (n * pc) >= 0) by (nonlinear_arith)
        requires
            s >= 0,
            n * pc >= 0,
    ;
    assert(n * pc <= 1 * (n * pc)) by (nonlinear_arith);
}

/// Two in-range triples with the same flat offset are the same triple.
proof fn lemma_offset_injective(
    f: Filtration,
    s1: int,
    t1: int,
    p1: int,
    s2: int,
    t2: int,
    p2: int,
)
    requires
        f.in_range(s1, t1, p1),
        f.in_range(s2, t2, p2),
        f.offset_of(s1, t1, p1) == f.offset_of(s2, t2, p2),
    ensures
        s1 == s2,
        t1 == t2,
        p1 == p2,
{
    let n = f.num_times();
    let pc = f.num_processes();
    assert(0 <= t1 * pc + p1 < n * pc) by (nonlinear_arith)
        requires
            0 <= t1 < n,
            0 <= p1 < pc,
    ;
    assert(0 <= t2 * pc + p2 < n * pc) by (nonlinear_arith)
        requires
            0 <= t2 < n,
            0 <= p2 < pc,
    ;
    assert(s1 == s2) by (nonlinear_arith)
        requires
            s1 * (n * pc) + (t1 * pc + p1) == s2 * (n * pc) + (t2 * pc + p2),
            0 <= t1 * pc + p1 < n * pc,
            0 <= t2 * pc + p2 < n * pc,
    ;
    assert(t1 == t2) by (nonlinear_arith)
        requires
            t1 * pc + p1 == t2 * pc + p2,
            0 <= p1 < pc,
            0 <= p2 < pc,
    ;
}

} // verus!
