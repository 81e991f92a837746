//! The trusted boundary to the outside random-number machinery: the ChaCha8
//! generator of `rand_chacha`, the Sobol low-discrepancy sequence of the
//! `sobol` crate, and the expression parser of `evalexpr`.  Everything else
//! in this crate is verified against the contracts stated here.

use vstd::prelude::*;

verus! {

#[verifier::external_type_specification]
#[verifier::external_body]
pub struct ExChaCha8Rng(rand_chacha::ChaCha8Rng);

/// A Sobol sequence over the Joe-Kuo D6 extended direction numbers,
/// yielding raw 64-bit points of a fixed dimension.  The struct is opaque
/// because Verus cannot declare the generic iterator it holds.
#[verifier::external_body]
pub struct SobolSource {
    inner: sobol::Sobol<u64>,
    dims: usize,
}

/// The dimension every point of a Sobol source yields: fixed when the
/// source is made and never changing afterwards.
pub uninterp spec fn sobol_dims(s: SobolSource) -> int;

/// How many points a Sobol source has yielded since construction: the
/// next successful draw hands out point number `sobol_count(s)`.
pub uninterp spec fn sobol_count(s: SobolSource) -> int;

/// Point `idx` of the Sobol sequence of dimension `dims` over the
/// Joe-Kuo D6 extended direction numbers: a pure function of the
/// dimension and the index, the same in every process and on every
/// machine.
pub uninterp spec fn sobol_point(dims: int, idx: int) -> Seq<u64>;

/// Word `idx` of the ChaCha8 stream that `seed_from_u64(seed)` opens: the
/// cipher is deterministic and portable, so the word is a function of the
/// seed and the position alone, the same in every process and on every
/// machine.
pub uninterp spec fn chacha_word(seed: u64, idx: int) -> u64;

/// A ChaCha8 stream together with its provenance: pinned to a seed, with
/// the number of words drawn so far, or seeded by the operating system,
/// of which nothing can be promised.
pub struct ChaChaStream {
    inner: rand_chacha::ChaCha8Rng,
    tag: Ghost<Option<(u64, int)>>,
}

/// Relies on rand_chacha's ChaCha8Rng seeded through rand::rng(), which
/// the operating system seeds; nothing is promised of the stream it
/// produces.
#[verifier::external_body]
fn chacha_raw_from_entropy() -> (r: rand_chacha::ChaCha8Rng) {
    <rand_chacha::ChaCha8Rng as rand::SeedableRng>::from_rng(&mut rand::rng())
}

/// Relies on rand_chacha's ChaCha8Rng via SeedableRng::seed_from_u64: the
/// stream it opens is a deterministic, portable function of the seed.
#[verifier::external_body]
fn chacha_raw_from_seed(seed: u64) -> (r: rand_chacha::ChaCha8Rng) {
    <rand_chacha::ChaCha8Rng as rand::SeedableRng>::seed_from_u64(seed)
}

impl ChaChaStream {
    /// `Some((seed, idx))` for a stream pinned to `seed` from which `idx`
    /// words have been drawn; `None` for an entropy-seeded stream.  The
    /// tag is faithful to the inner generator because only the two
    /// constructors below build a stream, and `next_u64` is the one way
    /// to advance it.
    pub closed spec fn spec_tag(self) -> Option<(u64, int)> {
        self.tag@
    }

    /// A stream seeded by the operating system: untagged, nothing is
    /// promised of its words.
    pub fn from_entropy() -> (r: ChaChaStream)
        ensures
            r.spec_tag() is None,
    {
        ChaChaStream { inner: chacha_raw_from_entropy(), tag: Ghost(None) }
    }

    /// A stream pinned to a seed, with no word drawn yet: every word it
    /// will produce is named by `chacha_word`.
    pub fn from_seed(seed: u64) -> (r: ChaChaStream)
        ensures
            r.spec_tag() == Some((seed, 0int)),
    {
        ChaChaStream { inner: chacha_raw_from_seed(seed), tag: Ghost(Some((seed, 0int))) }
    }

    /// Relies on rand_core's Rng::next_u64 on a ChaCha8 stream: one fresh
    /// 64-bit draw, read here as the fixed-point uniform u / 2^64.  On a
    /// pinned-seed stream the draw is word number `idx` of that seed's
    /// stream — the cipher is deterministic — and the position advances;
    /// of an entropy-seeded stream nothing can be promised.
    #[verifier::external_body]
    pub fn next_u64(&mut self) -> (r: u64)
        ensures
            old(self).spec_tag() is None ==> final(self).spec_tag() is None,
            old(self).spec_tag() matches Some((seed, idx)) ==> final(self).spec_tag() == Some(
                (seed, idx + 1),
            ) && r == chacha_word(seed, idx),
    {
        rand::Rng::next_u64(&mut self.inner)
    }
}

impl SobolSource {
    /// Relies on sobol's Sobol::<u64>::new with JoeKuoD6::extended(), whose
    /// direction numbers support up to 21201 dimensions; beyond that the
    /// constructor panics, so the bound is required here.  A fresh source
    /// has yielded no point yet.
    #[verifier::external_body]
    pub fn new(dims: usize) -> (r: SobolSource)
        requires
            dims <= 21201,
        ensures
            sobol_dims(r) == dims,
            sobol_count(r) == 0,
    {
        let params = sobol::params::JoeKuoD6::extended();
        SobolSource { inner: sobol::Sobol::<u64>::new(dims, &params), dims }
    }

    /// Relies on sobol's Iterator::next for Sobol<u64>: it yields point
    /// number `sobol_count` of the sequence — a vector of exactly `dims`
    /// raw 64-bit components determined by the dimension and the index
    /// alone — and advances the count, until 2^64 - 1 points have been
    /// consumed; after that it yields `None` and changes nothing.
    #[verifier::external_body]
    pub fn next_point(&mut self) -> (r: Option<Vec<u64>>)
        ensures
            sobol_dims(*final(self)) == sobol_dims(*old(self)),
            r is Some <==> sobol_count(*old(self)) < 0xFFFF_FFFF_FFFF_FFFF,
            r matches Some(v) ==> v@.len() == sobol_dims(*old(self)) && v@ == sobol_point(
                sobol_dims(*old(self)),
                sobol_count(*old(self)),
            ) && sobol_count(*final(self)) == sobol_count(*old(self)) + 1,
            r is None ==> *final(self) == *old(self),
    {
        self.inner.next()
    }
}

/// Whether evalexpr's grammar accepts an expression text: the result of
/// build_operator_tree on it depends on the text alone.
pub uninterp spec fn expr_accepted(s: Seq<char>) -> bool;

/// Relies on evalexpr's build_operator_tree with its default numeric types:
/// it returns Ok exactly when the expression text parses, and that verdict
/// is a function of the text alone.
#[verifier::external_body]
pub fn expr_parse_check(s: &str) -> (r: bool)
    ensures
        r == expr_accepted(s@),
{
    evalexpr::build_operator_tree::<evalexpr::DefaultNumericTypes>(s).is_ok()
}

} // verus!
