//! The seeded generator behind every fabrication and remapping choice.

use rand::{Rng, SeedableRng};
use vstd::prelude::*;

verus! {

/// The seeded generator, `rand_chacha::ChaCha8Rng`.
#[verifier::external_type_specification]
#[verifier::external_body]
pub struct ExChaCha8Rng(rand_chacha::ChaCha8Rng);

/// The words that make up a generator's state: its key, its place in the
/// stream, and what is left of the current block.
pub uninterp spec fn rng_words(r: rand_chacha::ChaCha8Rng) -> Seq<u32>;

/// The state that a generator starts in.
pub uninterp spec fn seeded_words(seed: u64) -> Seq<u32>;

/// What an inclusive range draw gives in a state, and the state behind it.
pub uninterp spec fn range_step(words: Seq<u32>, lo: u64, hi: u64) -> (u64, Seq<u32>);

/// What a draw of a whole `u64` gives in a state, and the state behind it.
pub uninterp spec fn word_step(words: Seq<u32>) -> (u64, Seq<u32>);

/// What a byte draw gives in a state, and the state behind it.
pub uninterp spec fn byte_step(words: Seq<u32>) -> (u8, Seq<u32>);

/// `rand_core::SeedableRng::seed_from_u64` for `ChaCha8Rng`: the seed alone
/// decides the state.
#[verifier::external_body]
pub(crate) fn rng_from_seed(seed: u64) -> (r: rand_chacha::ChaCha8Rng)
    ensures
        rng_words(r) == seeded_words(seed),
{
    rand_chacha::ChaCha8Rng::seed_from_u64(seed)
}

/// `rand::Rng::gen_range` over an inclusive range of `u64`: the value is in the
/// range, and it and the next state are functions of the state and the range.
#[verifier::external_body]
pub(crate) fn rng_range(rng: &mut rand_chacha::ChaCha8Rng, lo: u64, hi: u64) -> (v: u64)
    requires
        lo <= hi,
    ensures
        lo <= v <= hi,
        (v, rng_words(*final(rng))) == range_step(rng_words(*old(rng)), lo, hi),
{
    rng.gen_range(lo..=hi)
}

/// `rand::Rng::gen` for `u64`: the value and the next state are functions of the
/// state.
#[verifier::external_body]
pub(crate) fn rng_word(rng: &mut rand_chacha::ChaCha8Rng) -> (v: u64)
    ensures
        (v, rng_words(*final(rng))) == word_step(rng_words(*old(rng))),
{
    rng.gen()
}

/// `rand::Rng::gen` for `u8`: the byte and the next state are functions of the
/// state.
#[verifier::external_body]
pub(crate) fn rng_byte(rng: &mut rand_chacha::ChaCha8Rng) -> (v: u8)
    ensures
        (v, rng_words(*final(rng))) == byte_step(rng_words(*old(rng))),
{
    rng.gen()
}

/// A draw under this bound is a chance of 15 in 100: that share of 2^64.
pub const CHANCE_15_IN_100: u64 = 2767011611056432640;

/// A chance of 15 in 100.
pub(crate) fn rng_coin(rng: &mut rand_chacha::ChaCha8Rng) -> (v: bool)
    ensures
        v == (word_step(rng_words(*old(rng))).0 < CHANCE_15_IN_100),
        rng_words(*final(rng)) == word_step(rng_words(*old(rng))).1,
{
    rng_word(rng) < CHANCE_15_IN_100
}

/// An index under `n`.
pub(crate) fn rng_index(rng: &mut rand_chacha::ChaCha8Rng, n: usize) -> (v: usize)
    requires
        n > 0,
    ensures
        v < n,
        (v as u64, rng_words(*final(rng))) == range_step(
            rng_words(*old(rng)),
            0,
            (n - 1) as u64,
        ),
{
    rng_range(rng, 0, n as u64 - 1) as usize
}

} // verus!
