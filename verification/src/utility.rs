//! Random choices.

use rand::Rng;
use vstd::prelude::*;

verus! {

/// A random integer of the closed range from `min` to `max`.
///
/// Trusted: the body asks `rand::thread_rng()` for
/// `gen_range(min..max + 1)`. The contract claims only what holds of every
/// draw, namely that the sample lies in the range it was asked for. An empty
/// range makes `gen_range` panic, and `max + 1` must not overflow, so both are
/// left out.
#[verifier::external_body]
pub fn random_int(min: i32, max: i32) -> (r: i32)
    requires
        min <= max,
        max < i32::MAX,
    ensures
        min <= r <= max,
{
    let mut rng = rand::thread_rng();
    rng.gen_range(min..max + 1)
}

/// One of the three axes, drawn at random.
pub fn random_axis() -> (axis: usize)
    ensures
        axis < 3,
{
    let a: i32 = random_int(0, 2);
    index_of_draw(a)
}

/// A random position in a collection of `len` items.
pub fn random_index(len: usize) -> (i: usize)
    requires
        0 < len <= i32::MAX,
    ensures
        i < len,
{
    let int_size: i32 = len as i32;
    let t: i32 = random_int(0, int_size - 1);
    index_of_draw(t)
}

/// The position that a drawn number stands for: the number itself.
pub fn index_of_draw(draw: i32) -> (i: usize)
    requires
        draw >= 0,
    ensures
        i == draw,
{
    draw as usize
}

} // verus!
