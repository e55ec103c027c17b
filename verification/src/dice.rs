//! A single n-sided die. Each throw is an independent, uniformly random
//! sample of a face value in `[1, sides]`.

use rand::RngExt;
use vstd::prelude::*;

verus! {

/// An n-sided die. A playable die has at least two sides.
pub struct Dice {
    pub sides: usize,
}

/// A die is well formed when it has at least two sides.
pub open spec fn dice_wf(d: Dice) -> bool {
    d.sides >= 2
}

/// Relies on `rand::rng` and `rand::RngExt::random_range`: a uniformly
/// random value from the given range, which is non-empty since `sides >= 1`.
#[verifier::external_body]
fn sample_face(sides: usize) -> (r: usize)
    requires
        sides >= 1,
    ensures
        1 <= r <= sides,
{
    rand::rng().random_range(1..=sides)
}

impl Dice {
    pub fn new(sides: usize) -> (r: Self)
        requires
            sides >= 2,
        ensures
            r.sides == sides,
            dice_wf(r),
    {
        Self { sides }
    }

    /// One throw of the die: a fresh uniform sample in `[1, sides]`. The
    /// value is random, so nothing relates two throws of the same die.
    pub fn throw(&self) -> (r: usize)
        requires
            dice_wf(*self),
        ensures
            1 <= r <= self.sides,
    {
        sample_face(self.sides)
    }

    pub fn sides(&self) -> (r: usize)
        ensures
            r == self.sides,
    {
        self.sides
    }
}

} // verus!
