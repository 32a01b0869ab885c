//! Reproducible randomness.
//!
//! A generator is a seed and a position in the stream that the seed gives, so
//! that a draw is a function of values: the number drawn, and the position
//! behind it. The stream is ChaCha with eight rounds.

use rand::Rng as _;
use rand::SeedableRng as _;
use vstd::prelude::*;

verus! {

/// A generator: a seed, and how many words of its stream are used up.
#[derive(Debug)]
pub struct Rng {
    seed: [u8; 32],
    at: u128,
}

/// What a generator is, for contracts.
pub struct RngModel {
    pub seed: Seq<u8>,
    pub at: u128,
}

impl View for Rng {
    type V = RngModel;

    closed spec fn view(&self) -> RngModel {
        RngModel { seed: self.seed@, at: self.at }
    }
}

/// The seed of `ChaCha8Rng::seed_from_u64`.
pub uninterp spec fn expanded_seed(seed: u64) -> Seq<u8>;

/// What `gen_range(lo..=hi)` draws for `u32`, and the position behind it.
pub uninterp spec fn drawn_u32(seed: Seq<u8>, at: u128, lo: u32, hi: u32) -> (u32, u128);

/// What `gen_range(lo..=hi)` draws for `u64`, and the position behind it.
pub uninterp spec fn drawn_u64(seed: Seq<u8>, at: u128, lo: u64, hi: u64) -> (u64, u128);

/// What `gen_range(lo..=hi)` draws for a `usize` of so many bits, and the
/// position behind it.
pub uninterp spec fn drawn_usize(seed: Seq<u8>, at: u128, lo: usize, hi: usize, bits: u32) -> (
    usize,
    u128,
);

/// The text of the fraction that `gen` draws, and the position behind it.
pub uninterp spec fn drawn_fraction(seed: Seq<u8>, at: u128) -> (Seq<char>, u128);

/// `ChaCha8Rng::seed_from_u64`, as the thirty-two bytes it spreads the seed to.
#[verifier::external_body]
fn expand_seed(seed: u64) -> (r: [u8; 32])
    ensures
        r@ == expanded_seed(seed),
{
    rand_chacha::ChaCha8Rng::seed_from_u64(seed).get_seed()
}

/// `gen_range(lo..=hi)` for `u32` on a `ChaCha8Rng` of this seed, set to this
/// word of its stream. The number lies in the range.
#[verifier::external_body]
fn draw_u32(seed: &[u8; 32], at: u128, lo: u32, hi: u32) -> (r: (u32, u128))
    requires
        lo <= hi,
    ensures
        r == drawn_u32(seed@, at, lo, hi),
        lo <= r.0 <= hi,
{
    let mut rng = rand_chacha::ChaCha8Rng::from_seed(*seed);
    rng.set_word_pos(at);
    let value = rng.gen_range(lo..=hi);
    (value, rng.get_word_pos())
}

/// `gen_range(lo..=hi)` for `u64` on a `ChaCha8Rng` of this seed, set to this
/// word of its stream. The number lies in the range.
#[verifier::external_body]
fn draw_u64(seed: &[u8; 32], at: u128, lo: u64, hi: u64) -> (r: (u64, u128))
    requires
        lo <= hi,
    ensures
        r == drawn_u64(seed@, at, lo, hi),
        lo <= r.0 <= hi,
{
    let mut rng = rand_chacha::ChaCha8Rng::from_seed(*seed);
    rng.set_word_pos(at);
    let value = rng.gen_range(lo..=hi);
    (value, rng.get_word_pos())
}

/// `gen_range(lo..=hi)` for `usize` on a `ChaCha8Rng` of this seed, set to
/// this word of its stream. The number lies in the range. How much of the
/// stream a draw uses up depends on the width of `usize`, so a machine of
/// another width may draw another number.
#[verifier::external_body]
fn draw_usize(seed: &[u8; 32], at: u128, lo: usize, hi: usize) -> (r: (usize, u128))
    requires
        lo <= hi,
    ensures
        r == drawn_usize(seed@, at, lo, hi, usize::BITS),
        lo <= r.0 <= hi,
{
    let mut rng = rand_chacha::ChaCha8Rng::from_seed(*seed);
    rng.set_word_pos(at);
    let value = rng.gen_range(lo..=hi);
    (value, rng.get_word_pos())
}

/// `gen` for a fraction in `[0, 1)` on a `ChaCha8Rng` of this seed, set to
/// this word of its stream, as the text that `serde_json` prints for it.
#[verifier::external_body]
fn draw_fraction(seed: &[u8; 32], at: u128) -> (r: (String, u128))
    ensures
        (r.0@, r.1) == drawn_fraction(seed@, at),
{
    let mut rng = rand_chacha::ChaCha8Rng::from_seed(*seed);
    rng.set_word_pos(at);
    let value = serde_json::Number::from_f64(rng.gen()).expect("a fraction below one is finite");
    (value.to_string(), rng.get_word_pos())
}

/// A generator at the start of a seed's stream.
pub open spec fn seeded(seed: u64) -> RngModel {
    RngModel { seed: expanded_seed(seed), at: 0 }
}

/// What a generator draws for a size, and the position behind it.
pub open spec fn drawn_size(rng: RngModel, lo: usize, hi: usize) -> (usize, u128) {
    drawn_usize(rng.seed, rng.at, lo, hi, usize::BITS)
}

/// A generator moved to another position of its stream.
pub open spec fn moved(rng: RngModel, at: u128) -> RngModel {
    RngModel { seed: rng.seed, at }
}

impl Clone for Rng {
    fn clone(&self) -> (r: Self)
        ensures
            r@ == self@,
    {
        Rng { seed: self.seed, at: self.at }
    }
}

impl Rng {
    /// A generator at the start of the stream that a number seeds.
    pub fn from_number(seed: u64) -> (r: Rng)
        ensures
            r@ == seeded(seed),
    {
        Rng { seed: expand_seed(seed), at: 0 }
    }

    /// A generator at the start of the stream that thirty-two bytes seed.
    pub fn from_bytes(seed: [u8; 32]) -> (r: Rng)
        ensures
            r@ == (RngModel { seed: seed@, at: 0 }),
    {
        Rng { seed, at: 0 }
    }

    /// Draws a number from `lo` to `hi`, both included.
    pub fn small_within(&mut self, lo: u32, hi: u32) -> (r: u32)
        requires
            lo <= hi,
        ensures
            r == drawn_u32(old(self)@.seed, old(self)@.at, lo, hi).0,
            final(self)@ == moved(
                old(self)@,
                drawn_u32(old(self)@.seed, old(self)@.at, lo, hi).1,
            ),
            lo <= r <= hi,
    {
        let (value, at) = draw_u32(&self.seed, self.at, lo, hi);
        self.at = at;
        value
    }

    /// Draws a number from `lo` to `hi`, both included.
    pub fn long_within(&mut self, lo: u64, hi: u64) -> (r: u64)
        requires
            lo <= hi,
        ensures
            r == drawn_u64(old(self)@.seed, old(self)@.at, lo, hi).0,
            final(self)@ == moved(
                old(self)@,
                drawn_u64(old(self)@.seed, old(self)@.at, lo, hi).1,
            ),
            lo <= r <= hi,
    {
        let (value, at) = draw_u64(&self.seed, self.at, lo, hi);
        self.at = at;
        value
    }

    /// Draws a size from `lo` to `hi`, both included.
    pub fn size_within(&mut self, lo: usize, hi: usize) -> (r: usize)
        requires
            lo <= hi,
        ensures
            r == drawn_size(old(self)@, lo, hi).0,
            final(self)@ == moved(old(self)@, drawn_size(old(self)@, lo, hi).1),
            lo <= r <= hi,
    {
        let (value, at) = draw_usize(&self.seed, self.at, lo, hi);
        self.at = at;
        value
    }

    /// Draws a fraction in `[0, 1)`, as the text that prints it.
    pub fn fraction(&mut self) -> (r: String)
        ensures
            r@ == drawn_fraction(old(self)@.seed, old(self)@.at).0,
            final(self)@ == moved(
                old(self)@,
                drawn_fraction(old(self)@.seed, old(self)@.at).1,
            ),
    {
        let (value, at) = draw_fraction(&self.seed, self.at);
        self.at = at;
        value
    }
}

} // verus!
