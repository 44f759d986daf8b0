//! Reproducible draws.
//!
//! The stream is that of `ChaCha8Rng` of the crate `rand_chacha`, seeded with
//! `seed_from_u64`. It is held as plain values: the seed and the position in the
//! stream, which together determine every later draw.

use vstd::prelude::*;
use rand::seq::SliceRandom;
use rand::Rng;
use rand_chacha::rand_core::SeedableRng;
use rand_chacha::ChaCha8Rng;

verus! {

/// What `Rng::gen_range(0..bound)` draws from the stream of `seed` at word `at`, and
/// the word at which the stream continues.
pub uninterp spec fn range_draw(seed: u64, at: u128, bound: u64) -> (u64, u128);

/// What `SliceRandom::choose` draws from `options` with the stream of `seed` at
/// word `at`, and the word at which the stream continues.
pub uninterp spec fn choice(seed: u64, at: u128, options: Seq<usize>) -> (usize, u128);

/// What `SliceRandom::shuffle` makes of `values` with the stream of `seed` at word
/// `at`, and the word at which the stream continues.
pub uninterp spec fn shuffling(seed: u64, at: u128, values: Seq<usize>) -> (Seq<usize>, u128);

/// `Rng::gen_range` over `0..bound`, on a `ChaCha8Rng` that is seeded with
/// `seed_from_u64` and moved to word `at` with `set_word_pos`; the second part of
/// the result is `get_word_pos` after the draw. The draw lies below `bound`, and it
/// and the new position depend on the arguments alone. The call panics on an empty
/// range.
#[verifier::external_body]
fn gen_range_below(seed: u64, at: u128, bound: u64) -> (r: (u64, u128))
    requires
        bound > 0,
    ensures
        r == range_draw(seed, at, bound),
        r.0 < bound,
{
    let mut rng = ChaCha8Rng::seed_from_u64(seed);
    rng.set_word_pos(at);
    let drawn = rng.gen_range(0..bound);
    (drawn, rng.get_word_pos())
}

/// `SliceRandom::choose` on a list that is not empty, with the same stream as
/// above. The result is one of the options, and it and the new position depend on
/// the arguments alone.
#[verifier::external_body]
fn choose_from(seed: u64, at: u128, options: &Vec<usize>) -> (r: (usize, u128))
    requires
        options.len() > 0,
    ensures
        r == choice(seed, at, options@),
        options@.contains(r.0),
{
    let mut rng = ChaCha8Rng::seed_from_u64(seed);
    rng.set_word_pos(at);
    let chosen = *options.choose(&mut rng).unwrap();
    (chosen, rng.get_word_pos())
}

/// `SliceRandom::shuffle`, with the same stream as above. The result holds the same
/// values as often as before, and it and the new position depend on the arguments
/// alone.
#[verifier::external_body]
fn shuffle_values(seed: u64, at: u128, values: Vec<usize>) -> (r: (Vec<usize>, u128))
    ensures
        (r.0@, r.1) == shuffling(seed, at, values@),
        r.0@.to_multiset() == values@.to_multiset(),
{
    let mut rng = ChaCha8Rng::seed_from_u64(seed);
    rng.set_word_pos(at);
    let mut shuffled = values;
    shuffled.shuffle(&mut rng);
    (shuffled, rng.get_word_pos())
}

/// A stream of draws: the seed it was made from and how far it has been read.
#[derive(Debug, Clone, Copy, PartialEq, Eq, Structural)]
pub struct RandomStream {
    pub seed: u64,
    pub word: u128,
}

/// The numbers below `n` in order.
pub open spec fn upto(n: nat) -> Seq<usize> {
    Seq::new(n, |i: int| i as usize)
}

impl RandomStream {
    /// The stream of a seed, from its beginning.
    pub open spec fn of(seed: u64) -> RandomStream {
        RandomStream { seed, word: 0 }
    }

    /// A number below `bound`, and the stream after it is drawn.
    pub open spec fn roll(self, bound: int) -> (int, RandomStream) {
        let (v, word) = range_draw(self.seed, self.word, bound as u64);
        (v as int, RandomStream { seed: self.seed, word })
    }

    /// The position of one of `n` options, and the stream after it is chosen.
    pub open spec fn select(self, n: nat) -> (int, RandomStream) {
        let (v, word) = choice(self.seed, self.word, upto(n));
        (v as int, RandomStream { seed: self.seed, word })
    }

    /// The values in another order, and the stream after they are shuffled.
    pub open spec fn permute(self, values: Seq<usize>) -> (Seq<usize>, RandomStream) {
        let (v, word) = shuffling(self.seed, self.word, values);
        (v, RandomStream { seed: self.seed, word })
    }

    /// The stream of a seed, from its beginning.
    pub fn seed_from_u64(seed: u64) -> (r: Self)
        ensures
            r == RandomStream::of(seed),
    {
        RandomStream { seed, word: 0 }
    }

    /// Draw a number below `bound`.
    pub fn below(&mut self, bound: usize) -> (r: usize)
        requires
            bound > 0,
        ensures
            (r as int, *final(self)) == old(self).roll(bound as int),
            r < bound,
    {
        let (v, word) = gen_range_below(self.seed, self.word, bound as u64);
        self.word = word;
        v as usize
    }

    /// Choose one of `n` options by its position.
    pub fn pick(&mut self, n: usize) -> (r: usize)
        requires
            n > 0,
        ensures
            (r as int, *final(self)) == old(self).select(n as nat),
            r < n,
    {
        let options = count(n);
        let (v, word) = choose_from(self.seed, self.word, &options);
        self.word = word;
        v
    }

    /// Put values into another order.
    pub fn shuffle(&mut self, values: Vec<usize>) -> (r: Vec<usize>)
        ensures
            (r@, *final(self)) == old(self).permute(values@),
            r@.to_multiset() == values@.to_multiset(),
    {
        let (v, word) = shuffle_values(self.seed, self.word, values);
        self.word = word;
        v
    }
}

/// The numbers below `n` in order.
pub fn count(n: usize) -> (r: Vec<usize>)
    ensures
        r@ == upto(n as nat),
{
    let mut v: Vec<usize> = Vec::new();
    let mut i: usize = 0;
    while i < n
        invariant
            i <= n,
            v@ == upto(i as nat),
        decreases n - i,
    {
        v.push(i);
        assert(v@ =~= upto(i as nat + 1));
        i = i + 1;
    }
    v
}

/// The stream of a seed starts at its beginning.
pub proof fn law_a_stream_starts_at_its_beginning(seed: u64)
    ensures
        RandomStream::of(seed).seed == seed,
        RandomStream::of(seed).word == 0,
{
}

/// A draw is taken from the stream at the place it has been read to, and the stream goes on
/// from where the draw left it.
pub proof fn law_draws_follow_each_other(r: RandomStream, bound: u64, n: nat, values: Seq<usize>)
    ensures
        ({
            let (v, next) = r.roll(bound as int);
            (v, next.word) == (
                range_draw(r.seed, r.word, bound).0 as int,
                range_draw(r.seed, r.word, bound).1,
            ) && next.seed == r.seed
        }),
        ({
            let (v, next) = r.select(n);
            let options = Seq::new(n, |i: int| i as usize);
            (v, next.word) == (
                choice(r.seed, r.word, options).0 as int,
                choice(r.seed, r.word, options).1,
            ) && next.seed == r.seed
        }),
        ({
            let (v, next) = r.permute(values);
            (v, next.word) == shuffling(r.seed, r.word, values) && next.seed == r.seed
        }),
{
    assert(Seq::new(n, |i: int| i as usize) =~= upto(n));
}

} // verus!
