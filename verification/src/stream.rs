//! The reproducible random stream that chunks are drawn from.
//!
//! The stream is `rand_pcg`'s `Pcg32`. Nothing in this file is proved: each
//! item states what the generator does, and everything built on the stream
//! rests on these statements.

use rand::Rng;
use rand::SeedableRng;
use rand_pcg::Lcg64Xsh32;
use vstd::prelude::*;

verus! {

/// `rand_pcg::Lcg64Xsh32`, which `rand_pcg` also names `Pcg32`. Its fields
/// are private to `rand_pcg`, so a generator is carried around as a whole.
#[verifier::external_type_specification]
#[verifier::external_body]
pub struct ExLcg64Xsh32(Lcg64Xsh32);

/// The two 64-bit words a generator holds: the state of its congruential
/// recurrence, then the increment that selects its stream. Every draw is a
/// function of these words and leaves the generator holding new ones.
pub uninterp spec fn stream_words(rng: Lcg64Xsh32) -> Seq<u64>;

/// The words of a generator fresh from `Pcg32::seed_from_u64(seed)`.
pub uninterp spec fn seeded_words(seed: u64) -> Seq<u64>;

/// What `gen_range(0..bound)` on `i32` returns from a generator holding
/// `words`, and the words the generator holds afterwards.
pub uninterp spec fn cell_draw(words: Seq<u64>, bound: i32) -> (i32, Seq<u64>);

/// What `gen::<u32>()` returns from a generator holding `words`, and the
/// words the generator holds afterwards.
pub uninterp spec fn word_draw(words: Seq<u64>) -> (u32, Seq<u64>);

/// Calls `Pcg32::seed_from_u64`, which `rand_core` defines for every seedable
/// generator and documents as value-stable. The contract only names the
/// words of the generator that comes back: they depend on `seed` alone.
#[verifier::external_body]
pub(crate) fn seeded_stream(seed: u64) -> (rng: Lcg64Xsh32)
    ensures
        stream_words(rng) == seeded_words(seed),
{
    Lcg64Xsh32::seed_from_u64(seed)
}

/// Calls `Rng::gen_range(0..bound)` for `i32`. `rand` panics on an empty
/// range, so `bound` must be positive. The value returned and the words left
/// behind depend only on the words held before and on `bound`; the value
/// lies in the half-open range, as `rand` documents.
#[verifier::external_body]
pub(crate) fn draw_cell(rng: &mut Lcg64Xsh32, bound: i32) -> (cell: i32)
    requires
        0 < bound,
    ensures
        (cell, stream_words(*final(rng))) == cell_draw(stream_words(*old(rng)), bound),
        0 <= cell < bound,
{
    rng.gen_range(0..bound)
}

/// Calls `Rng::gen::<u32>()`, which hands out the generator's next 32-bit
/// output. The value returned and the words left behind depend only on the
/// words held before.
#[verifier::external_body]
pub(crate) fn draw_word(rng: &mut Lcg64Xsh32) -> (word: u32)
    ensures
        (word, stream_words(*final(rng))) == word_draw(stream_words(*old(rng))),
{
    rng.gen::<u32>()
}

} // verus!
