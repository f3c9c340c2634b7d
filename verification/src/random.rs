//! Random numbers.

use rand::rngs::SmallRng;
use rand::{Rng, SeedableRng};
use vstd::prelude::*;

verus! {

/// The generator of `rand`, carried around as it is.
#[verifier::external_type_specification]
#[verifier::external_body]
pub struct ExSmallRng(rand::rngs::SmallRng);

/// The first word that a generator with this seed draws on a machine whose
/// pointers have `width` bits.
pub uninterp spec fn first_word(seed: u64, width: u32) -> u64;

/// Calls `SmallRng::seed_from_u64`, then `Rng::gen` once. The generator is
/// deterministic, but `rand` takes one algorithm where pointers have 64 bits
/// and another one elsewhere, so the word depends on the seed and on that
/// width, and on nothing else.
#[verifier::external_body]
pub(crate) fn seeded_word(seed: u64) -> (word: u64)
    ensures
        word == first_word(seed, usize::BITS),
{
    SmallRng::seed_from_u64(seed).gen::<u64>()
}

/// Calls `SmallRng::seed_from_u64`. Nothing is claimed of the generator.
#[verifier::external_body]
pub(crate) fn seeded(seed: u64) -> (rng: SmallRng) {
    SmallRng::seed_from_u64(seed)
}

/// Calls `Rng::gen_range` on the range from zero up to `n`. The number lies
/// in the range; which one it is, is left to chance.
#[verifier::external_body]
pub(crate) fn draw_below(rng: &mut SmallRng, n: usize) -> (x: usize)
    requires
        n > 0,
    ensures
        x < n,
{
    rng.gen_range(0..n)
}

/// Calls `Rng::gen`. Nothing is claimed of the word.
#[verifier::external_body]
pub(crate) fn draw_word(rng: &mut SmallRng) -> (word: u64) {
    rng.gen::<u64>()
}

/// What decorrelates the levels from the ids.
pub const LEVEL_SALT: u64 = 0x9E37_79B9_7F4A_7C15;

/// The seed that the level of a node is drawn with.
pub open spec fn level_seed(id: u64) -> u64 {
    id ^ LEVEL_SALT
}

/// The word that the level of a node is made from. It comes from the id
/// alone, so the same vectors inserted in the same order give the same graph.
pub open spec fn level_word(id: u64) -> u64 {
    first_word(level_seed(id), usize::BITS)
}

/// The word that the level of a node is made from.
pub fn draw_level(id: u64) -> (word: u64)
    ensures
        word == level_word(id),
{
    seeded_word(id ^ LEVEL_SALT)
}

/// Different ids draw from different seeds, all of which there are.
pub proof fn law_every_id_has_its_own_seed(id: u64, other: u64, seed: u64)
    ensures
        level_word(id) == first_word(level_seed(id), usize::BITS),
        id != other ==> level_seed(id) != level_seed(other),
        level_seed(level_seed(seed)) == seed,
{
    let salt = LEVEL_SALT;
    assert(id != other ==> id ^ salt != other ^ salt) by (bit_vector);
    assert((seed ^ salt) ^ salt == seed) by (bit_vector);
}

/// Every answer of `level` is the value of `f` on the link bound and the word.
pub open spec fn assigns<V: Fn(usize, u64) -> usize>(
    level: V,
    f: spec_fn(usize, u64) -> nat,
) -> bool {
    forall|m: usize, word: u64, r: usize| #[trigger]
        call_ensures(level, (m, word), r) ==> r == f(m, word)
}

/// `level` makes a level of any word, and none above `limit`.
pub open spec fn levels_below<V: Fn(usize, u64) -> usize>(level: V, limit: nat) -> bool {
    &&& forall|m: usize, word: u64| #[trigger] call_requires(level, (m, word))
    &&& forall|m: usize, word: u64, r: usize| #[trigger]
        call_ensures(level, (m, word), r) ==> r <= limit
}

} // verus!
