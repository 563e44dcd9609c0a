//! The big-integer value type: a sign tag and a little-endian limb sequence.
use crate::model::{
    is_canonical,
    lemma_canonical_unique,
    lemma_pow_positive,
    lemma_val_lower_bound,
    lemma_val_push,
    lemma_val_single,
    limb_base,
    limbs_val,
    pow_base,
};
use std::cmp::Ordering;
use crate::sign::MSgn;
use vstd::prelude::*;

verus! {

/// An integer of unbounded magnitude. `limbs` holds the absolute value in base 2^64,
/// least-significant limb first; `sign` is the sign tag.
#[derive(Debug, Clone)]
pub struct MarInt {
    pub sign: MSgn,
    pub limbs: Vec<u64>,
}

/// The radix of one limb, as a double-width word.
pub const LIMB_BASE: u128 = 0x1_0000_0000_0000_0000;

impl MarInt {
    /// The magnitude that `limbs` encodes.
    pub open spec fn mag(self) -> nat {
        limbs_val(self.limbs@)
    }

    /// The integer this value stands for: the sign tag times the magnitude.
    pub open spec fn value(self) -> int {
        self.sign.as_int() * self.mag()
    }

    /// Canonical form: canonical limbs, and the sign tag is `MZero` exactly for the limbs `[0]`.
    pub open spec fn wf(self) -> bool {
        &&& is_canonical(self.limbs@)
        &&& (self.sign == MSgn::MZero <==> self.limbs@ == seq![0u64])
    }

    /// A copy of this value, limb for limb.
    pub fn duplicate(&self) -> (r: MarInt)
        ensures
            r.sign == self.sign,
            r.limbs@ == self.limbs@,
    {
        MarInt { sign: self.sign, limbs: Self::copy_limbs(self.limbs.as_slice()) }
    }

    /// A fresh vector holding the same limbs as `a`.
    pub fn copy_limbs(a: &[u64]) -> (r: Vec<u64>)
        ensures
            r@ == a@,
    {
        let mut r: Vec<u64> = Vec::with_capacity(a.len());
        let mut i: usize = 0;
        while i < a.len()
            invariant
                i <= a.len(),
                r@ == a@.take(i as int),
            decreases a.len() - i,
        {
            r.push(a[i]);
            i += 1;
            assert(r@ =~= a@.take(i as int));
        }
        assert(a@.take(a.len() as int) =~= a@);
        r
    }
}


/// The absolute value of an integer.
pub open spec fn abs_int(x: int) -> int {
    if x < 0 {
        -x
    } else {
        x
    }
}

/// Truncating division: the quotient rounds toward zero.
pub open spec fn trunc_div(a: int, b: int) -> int {
    if (a < 0) == (b < 0) {
        abs_int(a) / abs_int(b)
    } else {
        -(abs_int(a) / abs_int(b))
    }
}

/// The remainder of truncating division; it carries the dividend's sign.
pub open spec fn trunc_rem(a: int, b: int) -> int {
    if a < 0 {
        -(abs_int(a) % abs_int(b))
    } else {
        abs_int(a) % abs_int(b)
    }
}

impl MarInt {
    /// A canonical value carries the sign of the integer it stands for, and its limbs encode the
    /// integer's absolute value.
    pub proof fn lemma_wf_value(self)
        requires
            self.wf(),
        ensures
            self.sign == MSgn::of_int(self.value()),
            self.mag() == abs_int(self.value()),
            self.value() == 0 <==> self.sign == MSgn::MZero,
            self.value() == 0 <==> self.limbs@ == seq![0u64],
    {
        lemma_val_single(0);
        if self.limbs@ != seq![0u64] {
            if self.limbs@.len() == 1 {
                lemma_val_single(self.limbs@[0]);
                assert(self.limbs@ =~= seq![self.limbs@[0]]);
                assert(self.limbs@[0] != 0);
            } else {
                lemma_val_lower_bound(self.limbs@);
                lemma_pow_positive((self.limbs@.len() - 1) as nat);
            }
        }
    }

    /// Two canonical values that stand for the same integer are equal field by field.
    pub proof fn lemma_wf_unique(x: MarInt, y: MarInt)
        requires
            x.wf(),
            y.wf(),
            x.value() == y.value(),
        ensures
            x.sign == y.sign,
            x.limbs@ == y.limbs@,
    {
        x.lemma_wf_value();
        y.lemma_wf_value();
        lemma_canonical_unique(x.limbs@, y.limbs@);
    }

    /// The zero value.
    pub fn new() -> (r: MarInt)
        ensures
            r.wf(),
            r.value() == 0,
            r.sign == MSgn::MZero,
            r.limbs@ == seq![0u64],
    {
        MarInt { sign: MSgn::MZero, limbs: Self::zero_limbs() }
    }

    /// The zero value.
    pub fn zero() -> (r: MarInt)
        ensures
            r.wf(),
            r.value() == 0,
            r.sign == MSgn::MZero,
            r.limbs@ == seq![0u64],
    {
        Self::new()
    }

    /// The value one.
    pub fn one() -> (r: MarInt)
        ensures
            r.wf(),
            r.value() == 1,
            r.sign == MSgn::MPos,
            r.limbs@ == seq![1u64],
    {
        Self::from_u64(1)
    }

    /// The value of an unsigned 64-bit integer.
    pub fn from_u64(value: u64) -> (r: MarInt)
        ensures
            r.wf(),
            r.value() == value,
            value != 0 ==> r.sign == MSgn::MPos && r.limbs@ == seq![value],
    {
        if value == 0 {
            return Self::zero();
        }
        let r = MarInt { sign: MSgn::MPos, limbs: vec![value] };
        proof {
            assert(r.limbs@ =~= seq![value]);
            lemma_val_single(value);
        }
        r
    }

    /// The value of an unsigned 128-bit integer.
    pub fn from_u128(value: u128) -> (r: MarInt)
        ensures
            r.wf(),
            r.value() == value,
    {
        if value == 0 {
            return Self::zero();
        }
        let (low, high) = Self::split_u128(value);
        let limbs = if high != 0 {
            vec![low, high]
        } else {
            vec![low]
        };
        let r = MarInt { sign: MSgn::MPos, limbs };
        proof {
            lemma_val_single(low);
            if high != 0 {
                assert(r.limbs@ =~= seq![low].push(high));
                lemma_val_push(seq![low], high);
                assert(pow_base(1) == limb_base() * pow_base(0));
                assert(pow_base(1) == limb_base());
                assert(r.mag() == low + high * limb_base());
            } else {
                assert(r.limbs@ =~= seq![low]);
                assert(r.mag() == low);
            }
            assert(r.value() == r.mag());
        }
        r
    }

    /// The value of a signed 128-bit integer.
    pub fn from_i128(value: i128) -> (r: MarInt)
        ensures
            r.wf(),
            r.value() == value,
    {
        if value == 0 {
            return Self::zero();
        }
        let m: u128 = if value < 0 {
            let t: i128 = -(value + 1);
            t as u128 + 1
        } else {
            value as u128
        };
        let mut x = Self::from_u128(m);
        if value < 0 {
            x.sign = MSgn::MNeg;
        }
        x
    }

    /// The value of a signed 128-bit integer; the same as `from_i128`.
    pub fn form_i128(value: i128) -> (r: MarInt)
        ensures
            r.wf(),
            r.value() == value,
    {
        Self::from_i128(value)
    }

    /// Whether the limbs are the canonical zero `[0]`.
    pub fn is_zero(&self) -> (r: bool)
        ensures
            r == (self.limbs@ == seq![0u64]),
            self.wf() ==> (r <==> self.value() == 0),
    {
        proof {
            if self.wf() {
                self.lemma_wf_value();
            }
        }
        Self::is_zero_limbs(self.limbs.as_slice())
    }

    /// The absolute value: a negative sign becomes positive, the limbs stay.
    pub fn abs(&self) -> (r: MarInt)
        ensures
            r.limbs@ == self.limbs@,
            r.value() == abs_int(self.value()),
            self.wf() ==> r.wf(),
    {
        let sign = if self.sign == MSgn::MNeg {
            MSgn::MPos
        } else {
            self.sign
        };
        MarInt { sign, limbs: Self::copy_limbs(self.limbs.as_slice()) }
    }

    /// Compares the magnitudes of two values.
    pub fn abs_cmp(&self, other: &Self) -> (r: Ordering)
        ensures
            r == crate::magnitude::ordering_of(self.mag() as int, other.mag() as int),
    {
        Self::cmp_limbs(self.limbs.as_slice(), other.limbs.as_slice())
    }

    /// Brings the value to canonical form: high zero limbs go, and a zero magnitude gets the
    /// sign `MZero` (a value tagged `MZero` is zero whatever its limbs).
    pub fn normalize(&mut self)
        ensures
            final(self).wf(),
            final(self).value() == old(self).value(),
    {
        Self::trim_trailing_zero(&mut self.limbs);
        proof {
            lemma_val_single(0);
        }
        if self.sign == MSgn::MZero {
            self.limbs = Self::zero_limbs();
        } else if Self::is_zero_limbs(self.limbs.as_slice()) {
            self.sign = MSgn::MZero;
        }
        proof {
            let s0 = old(self).sign.as_int();
            assert(s0 * 0 == 0);
            assert(old(self).value() == s0 * old(self).mag());
        }
    }

    /// A canonical copy of this value.
    pub fn normalized(&self) -> (r: MarInt)
        ensures
            r.wf(),
            r.value() == self.value(),
    {
        let mut r = self.duplicate();
        r.normalize();
        r
    }
}

} // verus!
