use rand::rngs::StdRng;
use rand::{Rng, SeedableRng};
use vstd::prelude::*;

use super::game::total_weight;

verus! {

/// The generator of `rand` that the library draws from.
#[verifier::external_type_specification]
#[verifier::external_body]
pub struct ExStdRng(StdRng);

/// The source of the random numbers of a search: a generator that is set up
/// from a seed, for runs that can be repeated, or from what the system
/// offers.
pub struct Dice {
    generator: StdRng,
}

/// A generator set up from a seed.
///
/// Calls `rand::SeedableRng::seed_from_u64` for `rand::rngs::StdRng`. Nothing
/// is claimed of the generator.
#[verifier::external_body]
fn seeded_generator(seed: u64) -> StdRng {
    StdRng::seed_from_u64(seed)
}

/// A generator set up from what the system offers.
///
/// Calls `rand::SeedableRng::from_entropy` for `rand::rngs::StdRng`. Nothing
/// is claimed of the generator. The call panics where the system has no
/// randomness to give, which no caller can know beforehand.
#[verifier::external_body]
fn fresh_generator() -> StdRng {
    StdRng::from_entropy()
}

/// A random number below `bound`, each as likely as the other.
///
/// Calls `rand::Rng::gen_range` on the generator with the range from zero up
/// to, not including, `bound`. What is taken on trust: that the number lies
/// in that range. The call is not made with an empty range, on which it
/// panics.
#[verifier::external_body]
fn random_below(generator: &mut StdRng, bound: u64) -> (random: u64)
    requires
        bound > 0,
    ensures
        random < bound,
{
    generator.gen_range(0..bound)
}

impl Dice {
    /// Dice that fall differently in every run. What the generator holds
    /// comes from the system: nothing can be said of it.
    pub fn new() -> Dice {
        Dice { generator: fresh_generator() }
    }

    /// Dice that fall the same way whenever they are set up from the same
    /// seed, as long as the generator of `rand` stays the same: `rand` does
    /// not promise that it does, so nothing is claimed of how they fall.
    pub fn seeded(seed: u64) -> Dice {
        Dice { generator: seeded_generator(seed) }
    }

    /// A random number below `bound`. Which number it is lies with the
    /// generator: that it is below the bound is all that holds of every roll.
    pub fn roll(&mut self, bound: u64) -> (random: u64)
        requires
            bound > 0,
        ensures
            random < bound,
    {
        random_below(&mut self.generator, bound)
    }
}

/// The first position at or after `from` at which the weights, summed up from
/// the start of the list, exceed `random`; the length of the list if they
/// never do.
pub open spec fn weighted_slot<T>(items: Seq<(T, u32)>, random: int, from: int) -> int
    decreases items.len() - from,
{
    if from < 0 || from >= items.len() {
        items.len() as int
    } else if total_weight(items.take(from + 1)) > random {
        from
    } else {
        weighted_slot(items, random, from + 1)
    }
}

/// The weights of a longer part of the list sum up to at least as much.
pub proof fn lemma_total_weight_grows<T>(items: Seq<(T, u32)>, shorter: int, longer: int)
    requires
        0 <= shorter <= longer <= items.len(),
    ensures
        total_weight(items.take(shorter)) <= total_weight(items.take(longer)),
    decreases longer - shorter,
{
    if shorter < longer {
        lemma_total_weight_grows(items, shorter, longer - 1);
        assert(items.take(longer).drop_last() =~= items.take(longer - 1));
    }
}

/// One item more adds its weight.
pub proof fn lemma_total_weight_step<T>(items: Seq<(T, u32)>, n: int)
    requires
        0 <= n < items.len(),
    ensures
        total_weight(items.take(n + 1)) == total_weight(items.take(n)) + items[n].1,
{
    assert(items.take(n + 1).drop_last() =~= items.take(n));
}

/// The item that the number `random` falls on when the items are laid out
/// side by side, each as wide as its weight.
pub fn pick_weighted<T>(items: &Vec<(T, u32)>, random: u32) -> (slot: usize)
    requires
        random < total_weight(items@) <= u32::MAX,
    ensures
        slot == weighted_slot(items@, random as int, 0),
        slot < items.len(),
        total_weight(items@.take(slot as int)) <= random < total_weight(items@.take(slot + 1)),
{
    let mut current_weight: u32 = 0;
    let mut i: usize = 0;
    assert(items@.take(0) =~= Seq::empty());
    assert(items@.take(items.len() as int) =~= items@);
    while i < items.len()
        invariant
            i <= items.len(),
            random < total_weight(items@) <= u32::MAX,
            current_weight == total_weight(items@.take(i as int)),
            current_weight <= random,
            weighted_slot(items@, random as int, 0) == weighted_slot(items@, random as int, i as int),
        decreases items.len() - i,
    {
        proof {
            lemma_total_weight_step(items@, i as int);
            lemma_total_weight_grows(items@, i + 1, items.len() as int);
            assert(items@.take(items.len() as int) =~= items@);
        }
        current_weight += items[i].1;
        if current_weight > random {
            return i;
        }
        i += 1;
    }
    proof {
        assert(items@.take(items.len() as int) =~= items@);
        assert(false);
    }
    i
}

/// The sum of the weights.
pub fn sum_weights<T>(items: &Vec<(T, u32)>) -> (total: u32)
    requires
        total_weight(items@) <= u32::MAX,
    ensures
        total == total_weight(items@),
{
    let mut total: u32 = 0;
    let mut i: usize = 0;
    assert(items@.take(0) =~= Seq::empty());
    while i < items.len()
        invariant
            i <= items.len(),
            total_weight(items@) <= u32::MAX,
            total == total_weight(items@.take(i as int)),
        decreases items.len() - i,
    {
        proof {
            lemma_total_weight_step(items@, i as int);
            lemma_total_weight_grows(items@, i + 1, items.len() as int);
            assert(items@.take(items.len() as int) =~= items@);
        }
        total += items[i].1;
        i += 1;
    }
    assert(items@.take(items.len() as int) =~= items@);
    total
}

/// Draws one of the items, each with a chance in proportion to its weight: a
/// random number below the sum of the weights is drawn, and the item it falls
/// on is returned.
pub fn weighted_random<T>(items: Vec<(T, u32)>, dice: &mut Dice) -> (item: T)
    requires
        0 < total_weight(items@) <= u32::MAX,
    ensures
        exists|random: int|
            0 <= random < total_weight(items@) && 0 <= #[trigger] weighted_slot(items@, random, 0)
                < items@.len() && item == items@[weighted_slot(items@, random, 0)].0,
{
    let total_weight = sum_weights(&items);
    let random = dice.roll(total_weight as u64) as u32;
    let slot = pick_weighted(&items, random);
    let mut items = items;
    let picked = items.remove(slot);
    picked.0
}

} // verus!
