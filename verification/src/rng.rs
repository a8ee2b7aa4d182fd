//! Seeded pseudo-random streams, held as plain values.
//!
//! A ChaCha stream is fixed by its seed and by how many 32-bit words of it were
//! read. Keeping just these two makes every draw a function of the generator's
//! value, so a run is replayed from its seed.

use vstd::prelude::*;

use rand::{Rng, RngCore, SeedableRng};
use rand_chacha::ChaCha8Rng;

verus! {

/// The 32-byte seed that `rand_chacha::ChaCha8Rng::seed_from_u64` expands
/// `state` to.
pub uninterp spec fn chacha_seed(state: u64) -> Seq<u8>;

/// What `rand::Rng::gen_range(lo..=hi)` draws from the ChaCha8 stream of `seed`
/// at `word_pos`, and the stream position after it.
pub uninterp spec fn chacha_range(seed: Seq<u8>, word_pos: u128, lo: u64, hi: u64) -> (u64, u128);

/// What `rand::RngCore::next_u64` draws from the ChaCha8 stream of `seed` at
/// `word_pos`, and the stream position after it.
pub uninterp spec fn chacha_next(seed: Seq<u8>, word_pos: u128) -> (u64, u128);

/// Calls `rand_chacha::ChaCha8Rng::seed_from_u64` and reads the seed of the
/// generator that it makes. Trusted: the seed is a function of `state`.
#[verifier::external_body]
fn chacha_seed_from_u64(state: u64) -> (r: [u8; 32])
    ensures
        r@ == chacha_seed(state),
{
    ChaCha8Rng::seed_from_u64(state).get_seed()
}

/// Calls `rand::Rng::gen_range` with an inclusive range on the ChaCha8 stream of
/// `seed` at `word_pos`. Trusted: the draw lies in the range, and the draw and
/// the position after it are a function of the four arguments. The outside
/// function panics on an empty range.
#[verifier::external_body]
fn chacha_gen_range(seed: [u8; 32], word_pos: u128, lo: u64, hi: u64) -> (r: (u64, u128))
    requires
        lo <= hi,
    ensures
        r == chacha_range(seed@, word_pos, lo, hi),
        lo <= r.0 <= hi,
{
    let mut rng = ChaCha8Rng::from_seed(seed);
    rng.set_word_pos(word_pos);
    let drawn = rng.gen_range(lo..=hi);
    (drawn, rng.get_word_pos())
}

/// Calls `rand::RngCore::next_u64` on the ChaCha8 stream of `seed` at
/// `word_pos`. Trusted: the draw and the position after it are a function of the
/// two arguments.
#[verifier::external_body]
fn chacha_next_u64(seed: [u8; 32], word_pos: u128) -> (r: (u64, u128))
    ensures
        r == chacha_next(seed@, word_pos),
{
    let mut rng = ChaCha8Rng::from_seed(seed);
    rng.set_word_pos(word_pos);
    let drawn = rng.next_u64();
    (drawn, rng.get_word_pos())
}

/// A seeded ChaCha8 stream and the position reached in it.
#[derive(Debug, Clone, Copy, PartialEq, Eq)]
pub struct NodeRng {
    pub seed: [u8; 32],
    pub word_pos: u128,
}

/// What a [`NodeRng`] holds.
pub struct NodeRngView {
    pub seed: Seq<u8>,
    pub word_pos: u128,
}

impl View for NodeRng {
    type V = NodeRngView;

    open spec fn view(&self) -> NodeRngView {
        NodeRngView { seed: self.seed@, word_pos: self.word_pos }
    }
}

impl NodeRngView {
    /// The stream of `seed`, from its start.
    pub open spec fn of_seed(seed: Seq<u8>) -> NodeRngView {
        NodeRngView { seed, word_pos: 0 }
    }

    /// A draw from `lo..=hi`.
    pub open spec fn drawn(self, lo: u64, hi: u64) -> u64 {
        chacha_range(self.seed, self.word_pos, lo, hi).0
    }

    /// The stream after a draw from `lo..=hi`.
    pub open spec fn after_draw(self, lo: u64, hi: u64) -> NodeRngView {
        NodeRngView { word_pos: chacha_range(self.seed, self.word_pos, lo, hi).1, ..self }
    }

    /// The next 64 bits of the stream.
    pub open spec fn next(self) -> u64 {
        chacha_next(self.seed, self.word_pos).0
    }

    /// The stream after the next 64 bits of it.
    pub open spec fn after_next(self) -> NodeRngView {
        NodeRngView { word_pos: chacha_next(self.seed, self.word_pos).1, ..self }
    }
}

impl NodeRng {
    /// The stream of a 32-byte seed, from its start.
    pub fn from_seed(seed: [u8; 32]) -> (r: NodeRng)
        ensures
            r@ == NodeRngView::of_seed(seed@),
    {
        NodeRng { seed, word_pos: 0 }
    }

    /// The stream of the seed that `state` expands to, from its start.
    pub fn seed_from_u64(state: u64) -> (r: NodeRng)
        ensures
            r@ == NodeRngView::of_seed(chacha_seed(state)),
    {
        Self::from_seed(chacha_seed_from_u64(state))
    }

    /// Draws a number from `lo..=hi`.
    pub fn gen_range(&mut self, lo: u64, hi: u64) -> (r: u64)
        requires
            lo <= hi,
        ensures
            r == old(self)@.drawn(lo, hi),
            lo <= r <= hi,
            final(self)@ == old(self)@.after_draw(lo, hi),
    {
        let (drawn, word_pos): (u64, u128) = chacha_gen_range(self.seed, self.word_pos, lo, hi);
        self.word_pos = word_pos;
        drawn
    }

    /// Reads the next 64 bits of the stream.
    pub fn next_u64(&mut self) -> (r: u64)
        ensures
            r == old(self)@.next(),
            final(self)@ == old(self)@.after_next(),
    {
        let (drawn, word_pos): (u64, u128) = chacha_next_u64(self.seed, self.word_pos);
        self.word_pos = word_pos;
        drawn
    }
}

} // verus!
