//! A seeded pseudo-random generator that is a plain value.
//!
//! A ChaCha8 generator is a keystream fixed by its seed, read word by word:
//! the same seed gives the same words on every run and every machine.
//! [`Prng`] keeps the seed and the number of words read. For every draw the
//! generator is rebuilt at that position (`SeedableRng::from_seed`,
//! `ChaCha8Rng::set_word_pos`), the draw is made with the `rand` crate, and
//! the new position is read back (`ChaCha8Rng::get_word_pos`). A draw is then
//! a function of the value it starts from, and copying the value forks the
//! stream.
//!
//! The draws themselves are not proved here. Each is named by a function
//! without a body, and the functions at the end of this file say what this
//! library relies on.

use vstd::prelude::*;
use rand::seq::SliceRandom;
use rand::{Rng, SeedableRng};
use rand_chacha::ChaCha8Rng;
use crate::elements::StateElement;
use crate::weights::{total_weight, weights_of, WEIGHT_LIMIT};
use crate::components::list_view;

verus! {

/// Where a generator stands: the seed of its stream and the number of 32-bit
/// words already read from it.
pub struct PrngState {
    pub seed: Seq<u8>,
    pub pos: int,
}

impl PrngState {
    /// The same stream at another position.
    pub open spec fn at(self, pos: int) -> PrngState {
        PrngState { seed: self.seed, pos }
    }

    /// A draw of `true` with probability `numerator / denominator`: the
    /// boolean drawn, and the generator afterwards.
    pub open spec fn ratio(self, numerator: int, denominator: int) -> (bool, PrngState) {
        let d = ratio_draw(self.seed, self.pos, numerator, denominator);
        (d.0, self.at(d.1))
    }

    /// A uniform draw among `len > 0` items: the index drawn, and the
    /// generator afterwards.
    pub open spec fn index(self, len: int) -> (int, PrngState) {
        let d = index_draw(self.seed, self.pos, len);
        (d.0, self.at(d.1))
    }

    /// A shuffle of `len` items: the order drawn, and the generator
    /// afterwards.
    pub open spec fn order(self, len: int) -> (Seq<int>, PrngState) {
        let d = shuffle_draw(self.seed, self.pos, len);
        (d.0, self.at(d.1))
    }

    /// A draw among items with the given weights: the index drawn, and the
    /// generator afterwards.
    pub open spec fn weighted(self, weights: Seq<nat>) -> (int, PrngState) {
        let d = weighted_draw(self.seed, self.pos, weights);
        (d.0, self.at(d.1))
    }
}

/// A ChaCha8 generator, held as its seed and position.
///
/// The position counts 32-bit words and is a number of 68 bits, as the
/// generator reports it.
#[derive(Debug, Clone, Copy)]
pub struct Prng {
    seed: [u8; 32],
    word_pos: u128,
}

impl View for Prng {
    type V = PrngState;

    closed spec fn view(&self) -> PrngState {
        PrngState { seed: self.seed@, pos: self.word_pos as int }
    }
}

/// The outcome of `Rng::gen_ratio` on a ChaCha8 generator seeded with `seed`
/// that has read `pos` words: the boolean drawn, and the position afterwards.
pub uninterp spec fn ratio_draw(seed: Seq<u8>, pos: int, numerator: int, denominator: int) -> (
    bool,
    int,
);

/// The outcome of `SliceRandom::choose` on a slice of `len > 0` items: the
/// index of the item chosen, and the position afterwards.
pub uninterp spec fn index_draw(seed: Seq<u8>, pos: int, len: int) -> (int, int);

/// The outcome of `SliceRandom::shuffle` on a slice of `len` items: for every
/// index, the index that its item had before; and the position afterwards.
pub uninterp spec fn shuffle_draw(seed: Seq<u8>, pos: int, len: int) -> (Seq<int>, int);

/// The outcome of `SliceRandom::choose_weighted` on items with the given
/// weights: the index of the item chosen, and the position afterwards.
pub uninterp spec fn weighted_draw(seed: Seq<u8>, pos: int, weights: Seq<nat>) -> (int, int);

/// Whether `order` lists every index below `len` exactly once.
pub open spec fn is_permutation(order: Seq<int>, len: int) -> bool {
    &&& order.len() == len
    &&& forall|i: int| 0 <= i < order.len() ==> 0 <= #[trigger] order[i] < len
    &&& forall|i: int, j: int|
        0 <= i < j < order.len() ==> #[trigger] order[i] != #[trigger] order[j]
}

/// `items` rearranged so that position `i` holds the item that stood at
/// `order[i]`.
pub open spec fn permuted<T>(items: Seq<T>, order: Seq<int>) -> Seq<T> {
    Seq::new(order.len(), |i: int| items[order[i]])
}

/// Calls `SeedableRng::from_entropy` for a ChaCha8 generator and returns its
/// seed. Nothing is claimed of the seed: it comes from the operating system.
#[verifier::external_body]
fn entropy_seed() -> (seed: [u8; 32]) {
    ChaCha8Rng::from_entropy().get_seed()
}

/// Calls `Rng::gen_ratio` on the generator rebuilt from `rng`, which returns
/// `true` with probability `numerator / denominator`, and fails unless that
/// is a probability. Claimed: the outcome is [`ratio_draw`] of the generator
/// and the two numbers; as `gen_ratio` documents, it is `false` for a zero
/// numerator and `true` where the two numbers are equal.
#[verifier::external_body]
fn draw_ratio(rng: Prng, numerator: u32, denominator: u32) -> (r: (bool, Prng))
    requires
        0 < denominator,
        numerator <= denominator,
    ensures
        r.0 == ratio_draw(rng@.seed, rng@.pos, numerator as int, denominator as int).0,
        r.1@ == rng@.at(ratio_draw(rng@.seed, rng@.pos, numerator as int, denominator as int).1),
        numerator == 0 ==> !r.0,
        numerator == denominator ==> r.0,
{
    let mut chacha = ChaCha8Rng::from_seed(rng.seed);
    chacha.set_word_pos(rng.word_pos);
    let drawn = chacha.gen_ratio(numerator, denominator);
    (drawn, Prng { seed: rng.seed, word_pos: chacha.get_word_pos() })
}

/// Calls `SliceRandom::choose` on the generator rebuilt from `rng`, which
/// returns a uniformly chosen item of a slice, or `None` for an empty slice
/// without reading the stream. Claimed: the item is the one at the index
/// that [`index_draw`] names, an index of the slice.
#[verifier::external_body]
fn draw_item<T>(rng: Prng, items: &[T]) -> (r: (Option<&T>, Prng))
    ensures
        items@.len() == 0 ==> r.0 is None,
        items@.len() == 0 ==> r.1@ == rng@,
        items@.len() > 0 ==> r.0 == Some(
            &items@[index_draw(rng@.seed, rng@.pos, items@.len() as int).0],
        ),
        r.0 is Some ==> 0 <= index_draw(rng@.seed, rng@.pos, items@.len() as int).0 < items@.len(),
        items@.len() > 0 ==> r.1@ == rng@.at(
            index_draw(rng@.seed, rng@.pos, items@.len() as int).1,
        ),
{
    let mut chacha = ChaCha8Rng::from_seed(rng.seed);
    chacha.set_word_pos(rng.word_pos);
    let chosen = items.choose(&mut chacha);
    (chosen, Prng { seed: rng.seed, word_pos: chacha.get_word_pos() })
}

/// Calls `SliceRandom::shuffle` on the generator rebuilt from `rng`, which
/// rearranges a slice by swapping its items. Claimed: the new order is the
/// permutation that [`shuffle_draw`] names for the slice's length.
#[verifier::external_body]
fn draw_order<T>(rng: Prng, items: &mut Vec<T>) -> (r: Prng)
    ensures
        final(items)@ == permuted(
            old(items)@,
            shuffle_draw(rng@.seed, rng@.pos, old(items)@.len() as int).0,
        ),
        is_permutation(
            shuffle_draw(rng@.seed, rng@.pos, old(items)@.len() as int).0,
            old(items)@.len() as int,
        ),
        r@ == rng@.at(shuffle_draw(rng@.seed, rng@.pos, old(items)@.len() as int).1),
{
    let mut chacha = ChaCha8Rng::from_seed(rng.seed);
    chacha.set_word_pos(rng.word_pos);
    items.shuffle(&mut chacha);
    Prng { seed: rng.seed, word_pos: chacha.get_word_pos() }
}

/// Calls `SliceRandom::choose_weighted` on the generator rebuilt from `rng`,
/// with each entry's count as its weight, which returns an entry with
/// probability proportional to its count, or an error for an empty slice or
/// a zero total. It adds the weights up in a `u64`: the `requires` leaves
/// out the lists whose total does not fit.
/// Claimed: the element is that of the entry at the index that
/// [`weighted_draw`] names for the counts, an index of the slice.
#[verifier::external_body]
fn draw_weighted(rng: Prng, items: &[(StateElement, u64)]) -> (r: (Option<&StateElement>, Prng))
    requires
        total_weight(list_view(items@)) <= WEIGHT_LIMIT,
    ensures
        items@.len() > 0 && total_weight(list_view(items@)) > 0 ==> r.0 == Some(
            &items@[weighted_draw(rng@.seed, rng@.pos, weights_of(list_view(items@))).0].0,
        ),
        r.0 is Some ==> 0 <= weighted_draw(
            rng@.seed,
            rng@.pos,
            weights_of(list_view(items@)),
        ).0 < items@.len(),
        r.0 is Some ==> r.1@ == rng@.at(
            weighted_draw(rng@.seed, rng@.pos, weights_of(list_view(items@))).1,
        ),
{
    let mut chacha = ChaCha8Rng::from_seed(rng.seed);
    chacha.set_word_pos(rng.word_pos);
    let entry = items.choose_weighted(&mut chacha, |item| item.1).ok();
    (entry.map(|e| &e.0), Prng { seed: rng.seed, word_pos: chacha.get_word_pos() })
}

impl Prng {
    #[verifier::type_invariant]
    spec fn in_stream(self) -> bool {
        self.word_pos < 0x10_0000_0000_0000_0000
    }

    /// The generator of `seed`, at the start of its stream.
    pub fn from_seed(seed: [u8; 32]) -> (r: Prng)
        ensures
            r@ == (PrngState { seed: seed@, pos: 0 }),
    {
        Prng { seed, word_pos: 0 }
    }

    /// A generator seeded by the operating system, at the start of its stream.
    pub fn from_entropy() -> (r: Prng)
        ensures
            r@.pos == 0,
    {
        Prng { seed: entropy_seed(), word_pos: 0 }
    }

    /// Draws `true` with probability `numerator / denominator`: never for a
    /// zero numerator, always where the two numbers are equal.
    pub fn gen_ratio(&mut self, numerator: u32, denominator: u32) -> (r: bool)
        requires
            0 < denominator,
            numerator <= denominator,
        ensures
            (r, final(self)@) == old(self)@.ratio(numerator as int, denominator as int),
            numerator == 0 ==> !r,
            numerator == denominator ==> r,
    {
        let (drawn, next) = draw_ratio(*self, numerator, denominator);
        proof {
            use_type_invariant(&next);
        }
        *self = next;
        drawn
    }

    /// Draws one item of `items`, each with the same chance; `None`, and the
    /// generator unchanged, where there is no item.
    pub fn pick<'a, T>(&mut self, items: &'a [T]) -> (r: Option<&'a T>)
        ensures
            items@.len() == 0 ==> r is None && final(self)@ == old(self)@,
            items@.len() > 0 ==> ({
                let d = old(self)@.index(items@.len() as int);
                &&& 0 <= d.0 < items@.len()
                &&& r == Some(&items@[d.0])
                &&& final(self)@ == d.1
            }),
    {
        let (chosen, next) = draw_item(*self, items);
        proof {
            use_type_invariant(&next);
        }
        *self = next;
        chosen
    }

    /// Rearranges `items` into a random order.
    pub fn shuffle<T>(&mut self, items: &mut Vec<T>)
        ensures
            ({
                let d = old(self)@.order(old(items)@.len() as int);
                &&& is_permutation(d.0, old(items)@.len() as int)
                &&& final(items)@ == permuted(old(items)@, d.0)
                &&& final(self)@ == d.1
            }),
    {
        let next = draw_order(*self, items);
        proof {
            use_type_invariant(&next);
        }
        *self = next;
    }

    /// Draws the element of one entry of `items`, each entry with a chance
    /// proportional to its count.
    pub fn pick_weighted<'a>(&mut self, items: &'a [(StateElement, u64)]) -> (r: &'a StateElement)
        requires
            items@.len() > 0,
            0 < total_weight(list_view(items@)) <= WEIGHT_LIMIT,
        ensures
            ({
                let d = old(self)@.weighted(weights_of(list_view(items@)));
                &&& 0 <= d.0 < items@.len()
                &&& *r == items@[d.0].0
                &&& final(self)@ == d.1
            }),
    {
        let (chosen, next) = draw_weighted(*self, items);
        proof {
            use_type_invariant(&next);
        }
        *self = next;
        chosen.unwrap()
    }
}

} // verus!
