//! The random number generator that level generation and wandering monsters
//! draw from. It is `bracket_random`'s generator; nothing here is proved of
//! it, and each contract below states only what holds of every draw.

use vstd::prelude::*;
use bracket_random::prelude::RandomNumberGenerator;

verus! {

/// `bracket_random`'s `RandomNumberGenerator`, carried through as it is:
/// nothing inside it is seen or claimed.
#[verifier::external_type_specification]
#[verifier::external_body]
pub struct ExRandomNumberGenerator(RandomNumberGenerator);

/// `RandomNumberGenerator::seeded`: a generator whose draws follow from `seed`.
/// Nothing is claimed of the generator that comes back.
pub assume_specification[ RandomNumberGenerator::seeded ](seed: u64) -> RandomNumberGenerator;

/// `RandomNumberGenerator::range` at `i32`: a draw from `min` up to but not
/// including `max`. The outside function panics on an empty range, which
/// `requires` leaves out.
#[verifier::external_body]
pub(crate) fn range(rng: &mut RandomNumberGenerator, min: i32, max: i32) -> (r: i32)
    requires
        min < max,
    ensures
        min <= r < max,
{
    rng.range(min, max)
}

/// `RandomNumberGenerator::roll_dice`: the sum of `n` draws from 1 to
/// `die_type`, so at least `n` and at most `n * die_type`.
#[verifier::external_body]
pub(crate) fn roll_dice(rng: &mut RandomNumberGenerator, n: i32, die_type: i32) -> (r: i32)
    requires
        0 <= n,
        1 <= die_type < i32::MAX,
        n * die_type <= i32::MAX,
    ensures
        n <= r <= n * die_type,
{
    rng.roll_dice(n, die_type)
}

/// `RandomNumberGenerator::random_slice_index`: nothing for an empty list,
/// else an index into it.
#[verifier::external_body]
pub(crate) fn random_slice_index<T>(rng: &mut RandomNumberGenerator, items: &Vec<T>) -> (r: Option<
    usize,
>)
    requires
        items.len() < i32::MAX,
    ensures
        match r {
            Some(i) => i < items.len(),
            None => items.len() == 0,
        },
{
    rng.random_slice_index(items.as_slice())
}

/// `RandomNumberGenerator::random_slice_entry`: nothing for an empty list,
/// else one of its entries.
#[verifier::external_body]
pub(crate) fn random_slice_entry<'a, T>(rng: &mut RandomNumberGenerator, items: &'a Vec<T>) -> (r:
    Option<&'a T>)
    requires
        items.len() < i32::MAX,
    ensures
        match r {
            Some(entry) => exists|i: int| 0 <= i < items.len() && items[i] == *entry,
            None => items.len() == 0,
        },
{
    rng.random_slice_entry(items.as_slice())
}

} // verus!
