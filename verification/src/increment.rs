//! Incrementors: typed sources of per-step differentials (dt, Wiener, or
//! Poisson jump count).  Each non-time incrementor keeps a single-slot
//! register caching the last returned value keyed by (time index, scenario
//! index), so that a repeat call in the same step — the Runge-Kutta second
//! stage, or a second term sharing the increment — observes the same
//! realised number.
//!
//! The numeric transform from a uniform draw to an increment is
//! floating-point work that lives outside the verified core; here an
//! increment value is the raw 64 bits of an IEEE double, and the grids of
//! step widths (and their square roots) arrive precomputed as bits.

use vstd::prelude::*;

verus! {

/// The single-slot cache: the last value returned, keyed by the step it was
/// drawn for.
#[derive(Clone, Copy)]
pub struct LastValue {
    pub time_idx: usize,
    pub scenario_idx: usize,
    pub value: u64,
}

/// The time differential: returns the step width dt unconditionally.
#[derive(Clone)]
pub struct TimeIncrementor {
    dts: Vec<u64>,
}

/// A Wiener differential: on a cache miss the driver draws a uniform from
/// source `idx` of the step's vector, maps it through the inverse normal
/// CDF, scales by sqrt(dt) and records the result here.
#[derive(Clone)]
pub struct WienerIncrementor {
    last: Option<LastValue>,
    idx: usize,
    sqrt_dts: Vec<u64>,
}

/// A compound Poisson differential with intensity `lambda` (kept as the
/// literal text it was compiled from): on a miss the driver draws a
/// uniform, inverts the Poisson CDF at intensity lambda*dt and records the
/// jump count here.
#[derive(Clone)]
pub struct JumpIncrementor {
    last: Option<LastValue>,
    idx: usize,
    lambda: String,
    dts: Vec<u64>,
}

/// The closed set of incrementor kinds; position 0 of a process's list is
/// the drift and holds the time incrementor whenever the equation has a dt
/// term.
#[derive(Clone)]
pub enum Incrementor {
    Time(TimeIncrementor),
    Wiener(WienerIncrementor),
    Jump(JumpIncrementor),
}

impl TimeIncrementor {
    pub closed spec fn spec_dts(self) -> Seq<u64> {
        self.dts@
    }

    /// Takes the grid of step widths dt[i] = t[i+1] - t[i] as double bits.
    pub fn new(dts: Vec<u64>) -> (r: TimeIncrementor)
        ensures
            r.spec_dts() == dts@,
    {
        TimeIncrementor { dts }
    }

    /// The time differential for a step is its width, deterministically.
    pub fn sample(&self, time_idx: usize) -> (r: u64)
        requires
            time_idx < self.spec_dts().len(),
        ensures
            r == self.spec_dts()[time_idx as int],
    {
        self.dts[time_idx]
    }
}

impl WienerIncrementor {
    pub closed spec fn spec_idx(self) -> int {
        self.idx as int
    }

    pub closed spec fn spec_sqrt_dts(self) -> Seq<u64> {
        self.sqrt_dts@
    }

    pub closed spec fn spec_last(self) -> Option<LastValue> {
        self.last
    }

    /// The cached value for a step, when the register holds that step.
    pub open spec fn cached_at(self, time_idx: usize, scenario_idx: usize) -> Option<u64> {
        match self.spec_last() {
            Some(lv) => if lv.time_idx == time_idx && lv.scenario_idx == scenario_idx {
                Some(lv.value)
            } else {
                None
            },
            None => None,
        }
    }

    /// Takes the RNG source index this term registered and the grid of
    /// sqrt(dt) values as double bits.  The register starts empty.
    pub fn new(idx: usize, sqrt_dts: Vec<u64>) -> (r: WienerIncrementor)
        ensures
            r.spec_idx() == idx,
            r.spec_sqrt_dts() == sqrt_dts@,
            r.spec_last() is None,
    {
        WienerIncrementor { last: None, idx, sqrt_dts }
    }

    /// Reads the single-slot register for this step; `Some` is exactly the
    /// value recorded for the same (time index, scenario index).
    pub fn cached(&self, time_idx: usize, scenario_idx: usize) -> (r: Option<u64>)
        ensures
            r == self.cached_at(time_idx, scenario_idx),
    {
        match self.last {
            Some(lv) => if lv.time_idx == time_idx && lv.scenario_idx == scenario_idx {
                Some(lv.value)
            } else {
                None
            },
            None => None,
        }
    }

    /// Records the realised increment for this step; afterwards the same
    /// step reads exactly this value and any other step misses.
    pub fn record(&mut self, time_idx: usize, scenario_idx: usize, value: u64)
        ensures
            final(self).spec_idx() == old(self).spec_idx(),
            final(self).spec_sqrt_dts() == old(self).spec_sqrt_dts(),
            final(self).cached_at(time_idx, scenario_idx) == Some(value),
            forall|t2: usize, s2: usize|
                t2 != time_idx || s2 != scenario_idx ==> final(self).cached_at(t2, s2) is None,
    {
        self.last = Some(LastValue { time_idx, scenario_idx, value });
    }

    /// The RNG source index assigned at compilation.
    pub fn source_index(&self) -> (r: usize)
        ensures
            r == self.spec_idx(),
    {
        self.idx
    }

    /// sqrt(dt) of the step, as double bits.
    pub fn sqrt_dt(&self, time_idx: usize) -> (r: u64)
        requires
            time_idx < self.spec_sqrt_dts().len(),
        ensures
            r == self.spec_sqrt_dts()[time_idx as int],
    {
        self.sqrt_dts[time_idx]
    }
}

impl JumpIncrementor {
    pub closed spec fn spec_idx(self) -> int {
        self.idx as int
    }

    pub closed spec fn spec_lambda(self) -> Seq<char> {
        self.lambda@
    }

    pub closed spec fn spec_dts(self) -> Seq<u64> {
        self.dts@
    }

    pub closed spec fn spec_last(self) -> Option<LastValue> {
        self.last
    }

    /// The cached value for a step, when the register holds that step.
    pub open spec fn cached_at(self, time_idx: usize, scenario_idx: usize) -> Option<u64> {
        match self.spec_last() {
            Some(lv) => if lv.time_idx == time_idx && lv.scenario_idx == scenario_idx {
                Some(lv.value)
            } else {
                None
            },
            None => None,
        }
    }

    /// Takes the RNG source index, the intensity literal from the equation
    /// text, and the dt grid as double bits.  The register starts empty.
    pub fn new(idx: usize, lambda: String, dts: Vec<u64>) -> (r: JumpIncrementor)
        ensures
            r.spec_idx() == idx,
            r.spec_lambda() == lambda@,
            r.spec_dts() == dts@,
            r.spec_last() is None,
    {
        JumpIncrementor { last: None, idx, lambda, dts }
    }

    /// Reads the single-slot register for this step.
    pub fn cached(&self, time_idx: usize, scenario_idx: usize) -> (r: Option<u64>)
        ensures
            r == self.cached_at(time_idx, scenario_idx),
    {
        match self.last {
            Some(lv) => if lv.time_idx == time_idx && lv.scenario_idx == scenario_idx {
                Some(lv.value)
            } else {
                None
            },
            None => None,
        }
    }

    /// Records the realised jump count for this step.
    pub fn record(&mut self, time_idx: usize, scenario_idx: usize, value: u64)
        ensures
            final(self).spec_idx() == old(self).spec_idx(),
            final(self).spec_lambda() == old(self).spec_lambda(),
            final(self).spec_dts() == old(self).spec_dts(),
            final(self).cached_at(time_idx, scenario_idx) == Some(value),
            forall|t2: usize, s2: usize|
                t2 != time_idx || s2 != scenario_idx ==> final(self).cached_at(t2, s2) is None,
    {
        self.last = Some(LastValue { time_idx, scenario_idx, value });
    }

    /// The RNG source index assigned at compilation.
    pub fn source_index(&self) -> (r: usize)
        ensures
            r == self.spec_idx(),
    {
        self.idx
    }

    /// dt of the step, as double bits; the effective intensity of the step
    /// is lambda * dt.
    pub fn dt(&self, time_idx: usize) -> (r: u64)
        requires
            time_idx < self.spec_dts().len(),
        ensures
            r == self.spec_dts()[time_idx as int],
    {
        self.dts[time_idx]
    }

    /// The intensity literal, for the driver to parse numerically.
    pub fn lambda_text(&self) -> (r: &String)
        ensures
            r@ == self.spec_lambda(),
    {
        &self.lambda
    }
}

impl Incrementor {
    /// The RNG source index of a stochastic incrementor; the time
    /// incrementor draws nothing.
    pub open spec fn spec_source_index(self) -> Option<int> {
        match self {
            Incrementor::Time(_) => None,
            Incrementor::Wiener(w) => Some(w.spec_idx()),
            Incrementor::Jump(j) => Some(j.spec_idx()),
        }
    }

    pub fn source_index(&self) -> (r: Option<usize>)
        ensures
            match r {
                Some(i) => self.spec_source_index() == Some(i as int),
                None => self.spec_source_index() is None,
            },
    {
        match self {
            Incrementor::Time(_) => None,
            Incrementor::Wiener(w) => Some(w.source_index()),
            Incrementor::Jump(j) => Some(j.source_index()),
        }
    }
}

} // verus!
