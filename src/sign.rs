//! The three-valued sign tag of a big integer.
use vstd::prelude::*;

verus! {

/// Sign of a big integer; `MZero` is a state of its own, so a zero value never carries a sign.
#[derive(Copy, Clone, Debug, PartialEq, Eq, Structural)]
pub enum MSgn {
    MNeg,
    MZero,
    MPos,
}

impl MSgn {
    /// The sign as the integer -1, 0 or 1.
    pub open spec fn as_int(self) -> int {
        match self {
            MSgn::MNeg => -1,
            MSgn::MZero => 0,
            MSgn::MPos => 1,
        }
    }

    /// Negation: swaps `MPos` and `MNeg`, keeps `MZero`.
    pub open spec fn negated(self) -> MSgn {
        match self {
            MSgn::MNeg => MSgn::MPos,
            MSgn::MZero => MSgn::MZero,
            MSgn::MPos => MSgn::MNeg,
        }
    }

    /// The sign-product table, with `MZero` absorbing.
    pub open spec fn times(self, rhs: MSgn) -> MSgn {
        match (self, rhs) {
            (MSgn::MZero, _) | (_, MSgn::MZero) => MSgn::MZero,
            (MSgn::MPos, MSgn::MPos) | (MSgn::MNeg, MSgn::MNeg) => MSgn::MPos,
            _ => MSgn::MNeg,
        }
    }

    /// The sign of an integer.
    pub open spec fn of_int(x: int) -> MSgn {
        if x < 0 {
            MSgn::MNeg
        } else if x == 0 {
            MSgn::MZero
        } else {
            MSgn::MPos
        }
    }

    pub proof fn lemma_negated_int(self)
        ensures
            self.negated().as_int() == -self.as_int(),
    {
    }

    pub proof fn lemma_times_int(self, rhs: MSgn)
        ensures
            self.times(rhs).as_int() == self.as_int() * rhs.as_int(),
    {
    }
}

impl core::ops::Neg for MSgn {
    type Output = MSgn;

    fn neg(self) -> (r: MSgn)
        ensures
            r == self.negated(),
    {
        match self {
            MSgn::MPos => MSgn::MNeg,
            MSgn::MNeg => MSgn::MPos,
            MSgn::MZero => MSgn::MZero,
        }
    }
}

impl vstd::std_specs::ops::NegSpecImpl for MSgn {
    open spec fn obeys_neg_spec() -> bool {
        true
    }

    open spec fn neg_req(self) -> bool {
        true
    }

    open spec fn neg_spec(self) -> MSgn {
        self.negated()
    }
}

impl vstd::std_specs::ops::MulSpecImpl for MSgn {
    open spec fn obeys_mul_spec() -> bool {
        true
    }

    open spec fn mul_req(self, rhs: MSgn) -> bool {
        true
    }

    open spec fn mul_spec(self, rhs: MSgn) -> MSgn {
        self.times(rhs)
    }
}

impl core::ops::Mul for MSgn {
    type Output = MSgn;

    fn mul(self, rhs: MSgn) -> (r: MSgn)
        ensures
            r == self.times(rhs),
    {
        match (self, rhs) {
            (MSgn::MZero, _) | (_, MSgn::MZero) => MSgn::MZero,
            (MSgn::MPos, MSgn::MPos) | (MSgn::MNeg, MSgn::MNeg) => MSgn::MPos,
            _ => MSgn::MNeg,
        }
    }
}

} // verus!
