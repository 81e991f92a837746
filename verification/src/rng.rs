//! Uniform sources shaped around the engine's access pattern.  Both
//! backends answer `sample(time_idx, scenario_idx, source_idx)` with a
//! 64-bit fixed-point uniform (a draw `u` stands for `u / 2^64`) and cache
//! so that every call for the same step sees the same draws:
//!
//! - the pseudo backend keeps one step's K-vector, refilled from a ChaCha8
//!   stream on a step change;
//! - the Sobol backend keeps one whole scenario path of (N-1)*K scrambled
//!   components, consuming exactly one Sobol point per scenario.

use crate::backend::{chacha_word, ChaChaStream};
use crate::backend::{sobol_count, sobol_dims, sobol_point, SobolSource};
use vstd::prelude::*;

verus! {

/// How many points of the Sobol sequence are skipped as burn-in: the
/// leading points (the first is all zeros) are discarded cosmetically.
pub const SOBOL_BURN_IN: usize = 5;

/// The mask of the 52 low bits that XOR scrambling may flip; the 12 high
/// bits of every component survive scrambling untouched.
pub const MANTISSA_MASK: u64 = 0x000F_FFFF_FFFF_FFFF;

/// One cached vector of uniforms: a single step's K draws for the pseudo
/// backend (`time_idx` set), or a scenario's whole path for the Sobol
/// backend (`time_idx` absent).
pub struct StepCache {
    pub time_idx: Option<usize>,
    pub scenario_idx: usize,
    pub values: Vec<u64>,
}

/// The pseudo-random backend: a ChaCha8 stream with a one-step cache.
pub struct PseudoRng {
    last_step: Option<StepCache>,
    num_increments: usize,
    rng: ChaChaStream,
}

impl PseudoRng {
    /// K, the number of registered non-dt sources.
    pub closed spec fn k(self) -> int {
        self.num_increments as int
    }

    /// Whether the cache currently holds the given step.
    pub closed spec fn has_step(self, time_idx: usize, scenario_idx: usize) -> bool {
        match self.last_step {
            Some(c) => c.time_idx == Some(time_idx) && c.scenario_idx == scenario_idx,
            None => false,
        }
    }

    /// The cached step's draws; empty while nothing is cached.
    pub closed spec fn step_values(self) -> Seq<u64> {
        match self.last_step {
            Some(c) => c.values@,
            None => Seq::empty(),
        }
    }

    /// The stream's provenance: `Some((seed, idx))` when pinned to a
    /// seed with `idx` words drawn so far, `None` when entropy-seeded.
    pub closed spec fn stream_tag(self) -> Option<(u64, int)> {
        self.rng.spec_tag()
    }

    /// The cache, whenever it is filled, holds exactly K draws for one
    /// concrete step.  Constructors establish this and every method keeps
    /// it.
    pub closed spec fn wf(self) -> bool {
        match self.last_step {
            Some(c) => c.values@.len() == self.num_increments && c.time_idx is Some,
            None => true,
        }
    }

    /// A backend over a stream seeded by the operating system, with an
    /// empty cache.
    pub fn new(num_increments: usize) -> (r: PseudoRng)
        ensures
            r.wf(),
            r.k() == num_increments,
            r.stream_tag() is None,
            forall|t: usize, s: usize| !r.has_step(t, s),
    {
        PseudoRng { last_step: None, num_increments, rng: ChaChaStream::from_entropy() }
    }

    /// A backend over a stream pinned to a seed: every draw it will make
    /// is a named word of that seed's stream, so runs are reproducible.
    pub fn from_seed(num_increments: usize, seed: u64) -> (r: PseudoRng)
        ensures
            r.wf(),
            r.k() == num_increments,
            r.stream_tag() == Some((seed, 0int)),
            forall|t: usize, s: usize| !r.has_step(t, s),
    {
        PseudoRng { last_step: None, num_increments, rng: ChaChaStream::from_seed(seed) }
    }

    /// Discards the cache and draws K fresh uniforms for the given step;
    /// on a pinned-seed stream they are the next K words of the stream.
    fn refresh_cache(&mut self, time_idx: usize, scenario_idx: usize)
        ensures
            final(self).wf(),
            final(self).k() == old(self).k(),
            final(self).has_step(time_idx, scenario_idx),
            final(self).step_values().len() == old(self).k(),
            old(self).stream_tag() is None ==> final(self).stream_tag() is None,
            old(self).stream_tag() matches Some((seed, idx)) ==> final(self).stream_tag() == Some(
                (seed, idx + old(self).k()),
            ) && forall|j: int|
                0 <= j < old(self).k() ==> final(self).step_values()[j] == chacha_word(
                    seed,
                    idx + j,
                ),
    {
        let k = self.num_increments;
        let ghost tag0 = old(self).stream_tag();
        let mut values: Vec<u64> = Vec::new();
        let mut i: usize = 0;
        while i < k
            invariant
                i <= k,
                values@.len() == i,
                self.num_increments == old(self).num_increments,
                k == self.num_increments,
                tag0 == old(self).stream_tag(),
                tag0 is None ==> self.rng.spec_tag() is None,
                tag0 matches Some((seed, idx)) ==> self.rng.spec_tag() == Some((seed, idx + i))
                    && forall|j: int| 0 <= j < i ==> values@[j] == chacha_word(seed, idx + j),
            decreases k - i,
        {
            let draw = self.rng.next_u64();
            values.push(draw);
            i = i + 1;
        }
        self.last_step = Some(StepCache { time_idx: Some(time_idx), scenario_idx, values });
    }

    /// One uniform for (step, scenario, source).  Within one step every
    /// call is served from the same cached K-vector: a repeated call
    /// changes nothing and returns the same draw, and a source index
    /// outside the vector defensively yields 0.
    pub fn sample(&mut self, time_idx: usize, scenario_idx: usize, increment_idx: usize) -> (r:
        u64)
        requires
            old(self).wf(),
        ensures
            final(self).wf(),
            final(self).k() == old(self).k(),
            final(self).has_step(time_idx, scenario_idx),
            final(self).step_values().len() == old(self).k(),
            old(self).has_step(time_idx, scenario_idx) ==> *final(self) == *old(self),
            old(self).stream_tag() is None ==> final(self).stream_tag() is None,
            !old(self).has_step(time_idx, scenario_idx) ==> (old(self).stream_tag() matches Some(
                (seed, idx),
            ) ==> final(self).stream_tag() == Some((seed, idx + old(self).k())) && forall|j: int|
                0 <= j < old(self).k() ==> final(self).step_values()[j] == chacha_word(
                    seed,
                    idx + j,
                )),
            r == if increment_idx < final(self).step_values().len() {
                final(self).step_values()[increment_idx as int]
            } else {
                0u64
            },
    {
        let is_cached = match &self.last_step {
            Some(c) => match c.time_idx {
                Some(t) => t == time_idx && c.scenario_idx == scenario_idx,
                None => false,
            },
            None => false,
        };
        if !is_cached {
            self.refresh_cache(time_idx, scenario_idx);
        }
        match &self.last_step {
            Some(c) => if increment_idx < c.values.len() {
                c.values[increment_idx]
            } else {
                0u64
            },
            None => 0u64,
        }
    }
}

/// The XOR scrambler: flips an independent random selection of the 52 low
/// bits of each Sobol component, de-biasing the sequence while the 12 high
/// bits of every component survive untouched.
pub struct XORScrambler {
    rng: ChaChaStream,
}

impl XORScrambler {
    /// The mask stream's provenance: `Some((seed, idx))` when pinned to
    /// a seed with `idx` words drawn so far, `None` when entropy-seeded.
    pub closed spec fn spec_tag(self) -> Option<(u64, int)> {
        self.rng.spec_tag()
    }

    /// A scrambler over its own stream, seeded by the operating system and
    /// independent of the pseudo backend.
    pub fn new() -> (r: XORScrambler)
        ensures
            r.spec_tag() is None,
    {
        XORScrambler { rng: ChaChaStream::from_entropy() }
    }

    /// A scrambler over a stream pinned to a seed: its masks are named
    /// words of that seed's stream, so runs are reproducible.
    pub fn from_seed(seed: u64) -> (r: XORScrambler)
        ensures
            r.spec_tag() == Some((seed, 0int)),
    {
        XORScrambler { rng: ChaChaStream::from_seed(seed) }
    }

    /// XORs a fresh random 52-bit mask into each value.  Only the low 52
    /// bits of a component can change; on a pinned-seed stream each mask
    /// is the next word of the stream cut to 52 bits, so the result is
    /// fixed exactly.
    pub fn scramble(&mut self, values: Vec<u64>) -> (r: Vec<u64>)
        ensures
            r@.len() == values@.len(),
            forall|i: int| 0 <= i < r@.len() ==> r@[i] >> 52 == values@[i] >> 52,
            old(self).spec_tag() is None ==> final(self).spec_tag() is None,
            old(self).spec_tag() matches Some((seed, idx)) ==> final(self).spec_tag() == Some(
                (seed, idx + values@.len()),
            ) && forall|i: int|
                0 <= i < r@.len() ==> r@[i] == values@[i] ^ (chacha_word(seed, idx + i)
                    & MANTISSA_MASK),
    {
        let ghost tag0 = old(self).spec_tag();
        let mut scrambled: Vec<u64> = Vec::new();
        let mut i: usize = 0;
        while i < values.len()
            invariant
                i <= values@.len(),
                scrambled@.len() == i,
                forall|j: int| 0 <= j < i ==> scrambled@[j] >> 52 == values@[j] >> 52,
                tag0 == old(self).spec_tag(),
                tag0 is None ==> self.rng.spec_tag() is None,
                tag0 matches Some((seed, idx)) ==> self.rng.spec_tag() == Some((seed, idx + i))
                    && forall|j: int|
                    0 <= j < i ==> scrambled@[j] == values@[j] ^ (chacha_word(seed, idx + j)
                        & MANTISSA_MASK),
            decreases values@.len() - i,
        {
            let draw = self.rng.next_u64();
            let offset = draw & MANTISSA_MASK;
            let v = values[i];
            let out = v ^ offset;
            proof {
                assert(offset == draw & 0x000F_FFFF_FFFF_FFFFu64);
                assert((v ^ (draw & 0x000F_FFFF_FFFF_FFFFu64)) >> 52u64 == v >> 52u64)
                    by (bit_vector);
            }
            scrambled.push(out);
            i = i + 1;
        }
        scrambled
    }

    /// An independent fair sign for the Runge-Kutta reflection: true and
    /// false each stand for one of the two signs.  Draws from this
    /// scrambler's stream, never from the Sobol sequence; on a
    /// pinned-seed stream the sign is the parity of the next word.
    pub fn draw_sign(&mut self) -> (r: bool)
        ensures
            old(self).spec_tag() is None ==> final(self).spec_tag() is None,
            old(self).spec_tag() matches Some((seed, idx)) ==> final(self).spec_tag() == Some(
                (seed, idx + 1),
            ) && r == (chacha_word(seed, idx) & 1 == 1),
    {
        let draw = self.rng.next_u64();
        draw & 1 == 1
    }
}

/// The scrambled-Sobol backend: one whole scenario path is cached at a
/// time, so each scenario consumes exactly one point of the sequence, as
/// the low-discrepancy construction demands.
pub struct SobolRng {
    last_step: Option<StepCache>,
    num_increments: usize,
    dims: usize,
    source: SobolSource,
    scrambler: XORScrambler,
}

impl SobolRng {
    /// K, the number of registered non-dt sources.
    pub closed spec fn k(self) -> int {
        self.num_increments as int
    }

    /// The dimension of one scenario path: (N-1)*K components.
    pub closed spec fn spec_dims(self) -> int {
        self.dims as int
    }

    /// How many points of the Sobol sequence this backend has consumed:
    /// the burn-in at construction, then one per fresh scenario.
    pub closed spec fn consumed(self) -> int {
        sobol_count(self.source)
    }

    /// The scrambler stream's provenance: `Some((seed, idx))` when
    /// pinned to a seed with `idx` mask words drawn so far, `None` when
    /// entropy-seeded.
    pub closed spec fn scrambler_tag(self) -> Option<(u64, int)> {
        self.scrambler.spec_tag()
    }

    /// The source yields points of exactly the path dimension, and a
    /// filled cache holds either one whole scenario path or, after an
    /// exhausted sequence, nothing.
    pub closed spec fn wf(self) -> bool {
        &&& sobol_dims(self.source) == self.dims as int
        &&& match self.last_step {
            Some(c) => c.values@.len() == self.dims || c.values@.len() == 0,
            None => true,
        }
    }

    /// Whether the cache currently holds the given scenario's path.
    pub closed spec fn has_scenario(self, scenario_idx: usize) -> bool {
        match self.last_step {
            Some(c) => c.scenario_idx == scenario_idx && c.time_idx is None,
            None => false,
        }
    }

    /// The cached scenario's scrambled path, indexed by t*K + source.
    pub closed spec fn path_values(self) -> Seq<u64> {
        match self.last_step {
            Some(c) => c.values@,
            None => Seq::empty(),
        }
    }

    /// A backend for paths of `num_timesteps - 1` steps with K sources per
    /// step, so each scenario consumes one point of dimension (N-1)*K; the
    /// leading points of the sequence are discarded as burn-in.  The
    /// scrambler is seeded by the operating system.
    pub fn new(num_increments: usize, num_timesteps: usize) -> (r: SobolRng)
        requires
            num_timesteps >= 1,
            (num_timesteps - 1) * num_increments <= 21201,
        ensures
            r.wf(),
            r.k() == num_increments,
            r.spec_dims() == (num_timesteps - 1) * num_increments,
            r.consumed() == SOBOL_BURN_IN,
            r.scrambler_tag() is None,
            forall|s: usize| !r.has_scenario(s),
    {
        Self::with_scrambler(num_increments, num_timesteps, XORScrambler::new())
    }

    /// The same backend with the scrambler pinned to a seed: together with
    /// the fixed burn-in this makes two runs draw identical paths.
    pub fn from_seed(num_increments: usize, num_timesteps: usize, seed: u64) -> (r: SobolRng)
        requires
            num_timesteps >= 1,
            (num_timesteps - 1) * num_increments <= 21201,
        ensures
            r.wf(),
            r.k() == num_increments,
            r.spec_dims() == (num_timesteps - 1) * num_increments,
            r.consumed() == SOBOL_BURN_IN,
            r.scrambler_tag() == Some((seed, 0int)),
            forall|s: usize| !r.has_scenario(s),
    {
        Self::with_scrambler(num_increments, num_timesteps, XORScrambler::from_seed(seed))
    }

    fn with_scrambler(num_increments: usize, num_timesteps: usize, scrambler: XORScrambler) -> (r:
        SobolRng)
        requires
            num_timesteps >= 1,
            (num_timesteps - 1) * num_increments <= 21201,
        ensures
            r.wf(),
            r.k() == num_increments,
            r.spec_dims() == (num_timesteps - 1) * num_increments,
            r.consumed() == SOBOL_BURN_IN,
            r.scrambler_tag() == scrambler.spec_tag(),
            forall|s: usize| !r.has_scenario(s),
    {
        let dims = (num_timesteps - 1) * num_increments;
        let mut source = SobolSource::new(dims);
        let mut burned: usize = 0;
        while burned < SOBOL_BURN_IN
            invariant
                burned <= SOBOL_BURN_IN,
                sobol_dims(source) == dims as int,
                sobol_count(source) == burned,
            decreases SOBOL_BURN_IN - burned,
        {
            let _ = source.next_point();
            burned = burned + 1;
        }
        SobolRng { last_step: None, num_increments, dims, source, scrambler }
    }

    /// Pulls the next Sobol point, scrambles it, and installs it as the
    /// given scenario's path: the installed path is the XOR-scramble of
    /// point number `consumed()` of the sequence, so each of its
    /// components keeps the 12 high bits of that point's component.  Only
    /// an exhausted sequence installs an empty path, so that later reads
    /// fall back to 0.
    fn refresh_cache(&mut self, scenario_idx: usize)
        requires
            old(self).wf(),
        ensures
            final(self).wf(),
            final(self).k() == old(self).k(),
            final(self).spec_dims() == old(self).spec_dims(),
            final(self).has_scenario(scenario_idx),
            old(self).consumed() < 0xFFFF_FFFF_FFFF_FFFF ==> final(self).consumed() == old(
                self,
            ).consumed() + 1,
            old(self).consumed() < 0xFFFF_FFFF_FFFF_FFFF ==> final(self).path_values().len()
                == old(self).spec_dims(),
            old(self).consumed() < 0xFFFF_FFFF_FFFF_FFFF ==> forall|i: int|
                0 <= i < final(self).path_values().len() ==> final(self).path_values()[i] >> 52
                    == sobol_point(old(self).spec_dims(), old(self).consumed())[i] >> 52,
            old(self).consumed() >= 0xFFFF_FFFF_FFFF_FFFF ==> final(self).consumed() == old(
                self,
            ).consumed() && final(self).path_values().len() == 0
                && final(self).scrambler_tag() == old(self).scrambler_tag(),
            old(self).scrambler_tag() is None ==> final(self).scrambler_tag() is None,
            old(self).consumed() < 0xFFFF_FFFF_FFFF_FFFF ==> (old(self).scrambler_tag()
                matches Some((seed, idx)) ==> final(self).scrambler_tag() == Some(
                (seed, idx + old(self).spec_dims()),
            ) && forall|i: int|
                0 <= i < final(self).path_values().len() ==> final(self).path_values()[i]
                    == sobol_point(old(self).spec_dims(), old(self).consumed())[i] ^ (
                chacha_word(seed, idx + i) & MANTISSA_MASK)),
    {
        let values = match self.source.next_point() {
            Some(raw) => self.scrambler.scramble(raw),
            None => Vec::new(),
        };
        self.last_step = Some(StepCache { time_idx: None, scenario_idx, values });
    }

    /// One uniform for (step, scenario, source): component t*K + source of
    /// the scenario's cached path.  A fresh scenario consumes exactly one
    /// point of the sequence — the cached path becomes the XOR-scramble of
    /// point number `consumed()`, keeping its 12 high bits per component —
    /// while within one scenario every call is served from the same cached
    /// point: a repeated call changes nothing and returns the same
    /// component.  An index beyond the path defensively yields 0.
    pub fn sample(&mut self, time_idx: usize, scenario_idx: usize, increment_idx: usize) -> (r:
        u64)
        requires
            old(self).wf(),
        ensures
            final(self).wf(),
            final(self).k() == old(self).k(),
            final(self).spec_dims() == old(self).spec_dims(),
            final(self).has_scenario(scenario_idx),
            final(self).path_values().len() == final(self).spec_dims()
                || final(self).path_values().len() == 0,
            old(self).has_scenario(scenario_idx) ==> *final(self) == *old(self),
            !old(self).has_scenario(scenario_idx) && old(self).consumed()
                < 0xFFFF_FFFF_FFFF_FFFF ==> final(self).consumed() == old(self).consumed() + 1,
            !old(self).has_scenario(scenario_idx) && old(self).consumed()
                < 0xFFFF_FFFF_FFFF_FFFF ==> final(self).path_values().len() == old(
                self,
            ).spec_dims(),
            !old(self).has_scenario(scenario_idx) && old(self).consumed()
                < 0xFFFF_FFFF_FFFF_FFFF ==> forall|i: int|
                0 <= i < final(self).path_values().len() ==> final(self).path_values()[i] >> 52
                    == sobol_point(old(self).spec_dims(), old(self).consumed())[i] >> 52,
            !old(self).has_scenario(scenario_idx) && old(self).consumed()
                >= 0xFFFF_FFFF_FFFF_FFFF ==> final(self).consumed() == old(self).consumed()
                && final(self).path_values().len() == 0 && final(self).scrambler_tag() == old(
                self,
            ).scrambler_tag(),
            old(self).scrambler_tag() is None ==> final(self).scrambler_tag() is None,
            !old(self).has_scenario(scenario_idx) && old(self).consumed()
                < 0xFFFF_FFFF_FFFF_FFFF ==> (old(self).scrambler_tag() matches Some((seed, idx))
                ==> final(self).scrambler_tag() == Some((seed, idx + old(self).spec_dims()))
                && forall|i: int|
                0 <= i < final(self).path_values().len() ==> final(self).path_values()[i]
                    == sobol_point(old(self).spec_dims(), old(self).consumed())[i] ^ (
                chacha_word(seed, idx + i) & MANTISSA_MASK)),
            r == {
                let pos = time_idx * final(self).k() + increment_idx;
                if 0 <= pos < final(self).path_values().len() {
                    final(self).path_values()[pos]
                } else {
                    0u64
                }
            },
    {
        let is_cached = match &self.last_step {
            Some(c) => match c.time_idx {
                Some(_) => false,
                None => c.scenario_idx == scenario_idx,
            },
            None => false,
        };
        if !is_cached {
            self.refresh_cache(scenario_idx);
        }
        let pos = match time_idx.checked_mul(self.num_increments) {
            Some(base) => base.checked_add(increment_idx),
            None => None,
        };
        match &self.last_step {
            Some(c) => {
                let len = c.values.len();
                match pos {
                    Some(q) => if q < len {
                        c.values[q]
                    } else {
                        0u64
                    },
                    None => 0u64,
                }
            },
            None => 0u64,
        }
    }
}

} // verus!
