use rand::Rng;
use vstd::prelude::*;

verus! {

/// Draws an index uniformly from `0..bound` with `rand::thread_rng().gen_range`.
///
/// Claimed of rand 0.8's `Rng::gen_range` on an exclusive integer range: it
/// panics on an empty range (excluded here by `requires`) and otherwise returns
/// a value inside the range. Which value comes back depends on the thread's
/// random generator and is not stated; `thread_rng` itself panics if the
/// operating system cannot seed it, which no argument can rule out.
#[verifier::external_body]
pub(crate) fn random_below(bound: usize) -> (r: usize)
    requires
        0 < bound,
    ensures
        r < bound,
{
    rand::thread_rng().gen_range(0..bound)
}

/// Draws an `i8` uniformly from `min..max` with `rand::thread_rng().gen_range`.
///
/// Claimed of rand 0.8's `Rng::gen_range` on an exclusive `i8` range: it panics
/// when `min >= max` (excluded by `requires`) and otherwise returns a value in
/// `[min, max)`. The value itself depends on the random generator and is not
/// stated.
#[verifier::external_body]
fn random_i8_between(min: i8, max: i8) -> (r: i8)
    requires
        min < max,
    ensures
        min <= r < max,
{
    rand::thread_rng().gen_range(min..max)
}

/// A random `i8` in the half-open range `[min, max)`.
///
/// The range must not be empty.
pub fn rand_i8_r(min: i8, max: i8) -> (r: i8)
    requires
        min < max,
    ensures
        min <= r < max,
{
    random_i8_between(min, max)
}

} // verus!
