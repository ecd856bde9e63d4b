use vstd::prelude::*;

verus! {

/// A non-negative rational number `num / den`, used for load factors.
#[derive(Clone, Copy, Debug, PartialEq, Eq, Structural)]
pub struct Ratio {
    pub num: u64,
    pub den: u64,
}

impl Ratio {
    /// A ratio usable as a threshold: strictly positive, with a non-zero
    /// denominator.
    pub open spec fn is_positive(self) -> bool {
        self.num > 0 && self.den > 0
    }

    pub open spec fn new_spec(num: u64, den: u64) -> Ratio {
        Ratio { num, den }
    }

    /// Builds `num / den`.
    pub fn new(num: u64, den: u64) -> (r: Ratio)
        ensures
            r == Ratio::new_spec(num, den),
    {
        Ratio { num, den }
    }
}

} // verus!
