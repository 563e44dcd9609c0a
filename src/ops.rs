//! Signed arithmetic on big integers: the sign rules composed with the magnitude operations.
use crate::marint::{abs_int, trunc_div, trunc_rem, MarInt};
use crate::model::{lemma_val_single, limbs_val};
use crate::sign::MSgn;
use core::ops::Neg;
use std::cmp::Ordering;
use vstd::prelude::*;

verus! {

/// Division by a zero divisor.
#[derive(Debug, Clone, Copy, PartialEq, Eq, Structural)]
pub struct DivisionByZero;

/// The value of a sign-tagged magnitude, case by case.
proof fn lemma_signed_value(s: MSgn, m: int)
    ensures
        s == MSgn::MPos ==> s.as_int() * m == m,
        s == MSgn::MNeg ==> s.as_int() * m == -m,
        s == MSgn::MZero ==> s.as_int() * m == 0,
{
}

impl MarInt {
    /// Signed addition; the result is canonical.
    pub fn add_ref(a: &Self, b: &Self) -> (r: Self)
        ensures
            r.wf(),
            r.value() == a.value() + b.value(),
    {
        proof {
            lemma_val_single(0);
            lemma_signed_value(a.sign, a.mag() as int);
            lemma_signed_value(b.sign, b.mag() as int);
        }
        if a.sign == MSgn::MZero || Self::is_zero_limbs(a.limbs.as_slice()) {
            return b.normalized();
        }
        if b.sign == MSgn::MZero || Self::is_zero_limbs(b.limbs.as_slice()) {
            return a.normalized();
        }
        let (sign, limbs) = if a.sign == b.sign {
            (a.sign, Self::add_limbs(a.limbs.as_slice(), b.limbs.as_slice()))
        } else {
            match Self::cmp_limbs(a.limbs.as_slice(), b.limbs.as_slice()) {
                Ordering::Greater => (
                    a.sign,
                    Self::sub_limbs(a.limbs.as_slice(), b.limbs.as_slice()),
                ),
                Ordering::Less => (b.sign, Self::sub_limbs(b.limbs.as_slice(), a.limbs.as_slice())),
                Ordering::Equal => (MSgn::MZero, Self::zero_limbs()),
            }
        };
        let mut out = Self { sign, limbs };
        proof {
            lemma_signed_value(sign, limbs_val(limbs@) as int);
        }
        out.normalize();
        out
    }

    /// Signed subtraction, as the sum with the negated subtrahend; the result is canonical.
    pub fn sub_ref(a: &Self, b: &Self) -> (r: Self)
        ensures
            r.wf(),
            r.value() == a.value() - b.value(),
    {
        let mut nb = b.duplicate();
        let s = b.sign;
        nb.sign = s.neg();
        proof {
            b.sign.lemma_negated_int();
            assert(nb.value() == -b.value()) by (nonlinear_arith)
                requires
                    nb.value() == nb.sign.as_int() * nb.mag(),
                    b.value() == b.sign.as_int() * b.mag(),
                    nb.sign.as_int() == -b.sign.as_int(),
                    nb.mag() == b.mag(),
            ;
        }
        Self::add_ref(a, &nb)
    }

    /// Negation; zero stays zero, so no negative zero arises. The result is canonical.
    pub fn negated(&self) -> (r: Self)
        ensures
            r.wf(),
            r.value() == -self.value(),
    {
        let mut x = self.duplicate();
        let s = self.sign;
        x.sign = s.neg();
        proof {
            self.sign.lemma_negated_int();
            assert(x.value() == -self.value()) by (nonlinear_arith)
                requires
                    x.value() == x.sign.as_int() * x.mag(),
                    self.value() == self.sign.as_int() * self.mag(),
                    x.sign.as_int() == -self.sign.as_int(),
                    x.mag() == self.mag(),
            ;
        }
        x.normalize();
        x
    }

    /// Signed multiplication; the result is canonical.
    pub fn mul_ref(a: &Self, b: &Self) -> (r: Self)
        requires
            a.limbs@.len() + b.limbs@.len() < usize::MAX,
        ensures
            r.wf(),
            r.value() == a.value() * b.value(),
    {
        if a.sign == MSgn::MZero || b.sign == MSgn::MZero || a.is_zero() || b.is_zero() {
            proof {
                lemma_val_single(0);
                lemma_signed_value(a.sign, a.mag() as int);
                lemma_signed_value(b.sign, b.mag() as int);
                assert(a.value() * b.value() == 0) by (nonlinear_arith)
                    requires
                        a.value() == 0 || b.value() == 0,
                ;
            }
            return Self::zero();
        }
        let sign = a.sign * b.sign;
        let limbs = Self::mul_limbs_ref(a.limbs.as_slice(), b.limbs.as_slice());
        let mut out = Self { sign, limbs };
        proof {
            a.sign.lemma_times_int(b.sign);
            let sa = a.sign.as_int();
            let sb = b.sign.as_int();
            let ma = a.mag() as int;
            let mb = b.mag() as int;
            assert((sa * sb) * (ma * mb) == (sa * ma) * (sb * mb)) by (nonlinear_arith);
        }
        out.normalize();
        out
    }

    /// Truncating division with remainder by a non-zero divisor: the quotient rounds toward
    /// zero and the remainder carries the dividend's sign. Both results are canonical.
    pub fn div_rem(&self, rhs: &Self) -> (r: (Self, Self))
        requires
            rhs.value() != 0,
        ensures
            r.0.wf(),
            r.1.wf(),
            r.0.value() == trunc_div(self.value(), rhs.value()),
            r.1.value() == trunc_rem(self.value(), rhs.value()),
    {
        let x = self.normalized();
        let y = rhs.normalized();
        proof {
            x.lemma_wf_value();
            y.lemma_wf_value();
        }
        if x.is_zero() {
            return (Self::zero(), Self::zero());
        }
        let (q_limbs, r_limbs) = Self::longdiv_limbs(x.limbs.as_slice(), y.limbs.as_slice());
        let mut q = Self { sign: x.sign * y.sign, limbs: q_limbs };
        let mut r = Self { sign: x.sign, limbs: r_limbs };
        proof {
            let av = x.mag() as int;
            let bv = y.mag() as int;
            vstd::arithmetic::div_mod::lemma_fundamental_div_mod_converse(
                av,
                bv,
                limbs_val(q_limbs@) as int,
                limbs_val(r_limbs@) as int,
            );
            x.sign.lemma_times_int(y.sign);
            let qq = limbs_val(q_limbs@) as int;
            let rr = limbs_val(r_limbs@) as int;
            lemma_signed_value(x.sign, qq);
            lemma_signed_value(x.sign, rr);
            lemma_signed_value(MSgn::MPos, qq);
            lemma_signed_value(MSgn::MNeg, qq);
            if x.sign == MSgn::MZero {
                assert(x.limbs@ == seq![0u64]);
            }
            assert(q.value() == trunc_div(self.value(), rhs.value()));
            assert(r.value() == trunc_rem(self.value(), rhs.value()));
        }
        q.normalize();
        r.normalize();
        (q, r)
    }

    /// Truncating division with remainder; a zero divisor is reported as an error rather than
    /// a panic. On success the quotient rounds toward zero and the remainder carries the
    /// dividend's sign; both are canonical.
    pub fn divmod(self, other: Self) -> (r: Result<(Self, Self), DivisionByZero>)
        ensures
            other.value() == 0 <==> r is Err,
            r matches Ok((q, m)) ==> q.wf() && m.wf() && q.value() == trunc_div(
                self.value(),
                other.value(),
            ) && m.value() == trunc_rem(self.value(), other.value()),
    {
        let divisor = other.normalized();
        proof {
            divisor.lemma_wf_value();
        }
        if divisor.is_zero() {
            return Err(DivisionByZero);
        }
        Ok(self.div_rem(&divisor))
    }

    /// Euclidean division by a non-zero divisor: the quotient that leaves a remainder in
    /// `[0, |rhs|)`. The result is canonical.
    pub fn div_euclid(&self, rhs: &Self) -> (q: Self)
        requires
            rhs.value() != 0,
        ensures
            q.wf(),
            0 <= self.value() - q.value() * rhs.value() < abs_int(rhs.value()),
    {
        let (q, r) = self.div_rem(rhs);
        proof {
            crate::laws::law_division_identity(self.value(), rhs.value());
        }
        if r.sign == MSgn::MNeg {
            let mut adj = Self::one();
            adj.sign = rhs.sign;
            proof {
                r.lemma_wf_value();
                crate::laws::lemma_euclid_adjust(self.value(), rhs.value(), q.value(), r.value());
                assert(adj.value() == MSgn::of_int(rhs.value()).as_int()) by {
                    assert(adj.mag() == 1);
                    lemma_signed_value(rhs.sign, rhs.mag() as int);
                    lemma_signed_value(adj.sign, 1);
                    if rhs.sign == MSgn::MZero {
                        assert(rhs.value() == 0);
                    }
                    if rhs.mag() == 0 {
                        assert(rhs.sign.as_int() * 0 == 0);
                    }
                }
            }
            return Self::sub_ref(&q, &adj);
        }
        proof {
            r.lemma_wf_value();
            crate::laws::lemma_euclid_keep(self.value(), rhs.value(), q.value(), r.value());
        }
        q
    }

    /// Euclidean remainder by a non-zero divisor: always in `[0, |rhs|)`. The result is
    /// canonical.
    pub fn rem_euclid(&self, rhs: &Self) -> (r: Self)
        requires
            rhs.value() != 0,
        ensures
            r.wf(),
            0 <= r.value() < abs_int(rhs.value()),
            (self.value() - r.value()) % abs_int(rhs.value()) == 0,
    {
        let (q, r) = self.div_rem(rhs);
        proof {
            crate::laws::law_division_identity(self.value(), rhs.value());
            r.lemma_wf_value();
        }
        if r.sign == MSgn::MNeg {
            let m = rhs.abs();
            proof {
                crate::laws::lemma_euclid_adjust(self.value(), rhs.value(), q.value(), r.value());
            }
            return Self::add_ref(&r, &m);
        }
        proof {
            crate::laws::lemma_euclid_keep(self.value(), rhs.value(), q.value(), r.value());
        }
        r
    }
}


// Operator traits. Each `...SpecImpl` states the operator's precondition and declares that no
// spec-level function models its result (`obeys_..._spec` is false); what the operator returns
// is stated by the `ensures` of its method.
impl<'a, 'b> vstd::std_specs::ops::AddSpecImpl<&'b MarInt> for &'a MarInt {
    open spec fn obeys_add_spec() -> bool {
        false
    }

    open spec fn add_req(self, rhs: &'b MarInt) -> bool {
        true
    }

    open spec fn add_spec(self, rhs: &'b MarInt) -> MarInt {
        *self
    }
}

/// Sum of two values, canonical.
impl<'a, 'b> std::ops::Add<&'b MarInt> for &'a MarInt {
    type Output = MarInt;

    fn add(self, rhs: &'b MarInt) -> (r: MarInt)
        ensures
            r.wf(),
            r.value() == self.value() + rhs.value(),
    {
        MarInt::add_ref(self, rhs)
    }
}

impl<'b> vstd::std_specs::ops::AddSpecImpl<&'b MarInt> for MarInt {
    open spec fn obeys_add_spec() -> bool {
        false
    }

    open spec fn add_req(self, rhs: &'b MarInt) -> bool {
        true
    }

    open spec fn add_spec(self, rhs: &'b MarInt) -> MarInt {
        self
    }
}

/// Sum of two values, canonical.
impl<'b> std::ops::Add<&'b MarInt> for MarInt {
    type Output = MarInt;

    fn add(self, rhs: &'b MarInt) -> (r: MarInt)
        ensures
            r.wf(),
            r.value() == self.value() + rhs.value(),
    {
        MarInt::add_ref(&self, rhs)
    }
}

impl<'a> vstd::std_specs::ops::AddSpecImpl<MarInt> for &'a MarInt {
    open spec fn obeys_add_spec() -> bool {
        false
    }

    open spec fn add_req(self, rhs: MarInt) -> bool {
        true
    }

    open spec fn add_spec(self, rhs: MarInt) -> MarInt {
        *self
    }
}

/// Sum of two values, canonical.
impl<'a> std::ops::Add<MarInt> for &'a MarInt {
    type Output = MarInt;

    fn add(self, rhs: MarInt) -> (r: MarInt)
        ensures
            r.wf(),
            r.value() == self.value() + rhs.value(),
    {
        MarInt::add_ref(self, &rhs)
    }
}

impl vstd::std_specs::ops::AddSpecImpl<MarInt> for MarInt {
    open spec fn obeys_add_spec() -> bool {
        false
    }

    open spec fn add_req(self, rhs: MarInt) -> bool {
        true
    }

    open spec fn add_spec(self, rhs: MarInt) -> MarInt {
        self
    }
}

/// Sum of two values, canonical.
impl std::ops::Add<MarInt> for MarInt {
    type Output = MarInt;

    fn add(self, rhs: MarInt) -> (r: MarInt)
        ensures
            r.wf(),
            r.value() == self.value() + rhs.value(),
    {
        MarInt::add_ref(&self, &rhs)
    }
}

impl<'a, 'b> vstd::std_specs::ops::SubSpecImpl<&'b MarInt> for &'a MarInt {
    open spec fn obeys_sub_spec() -> bool {
        false
    }

    open spec fn sub_req(self, rhs: &'b MarInt) -> bool {
        true
    }

    open spec fn sub_spec(self, rhs: &'b MarInt) -> MarInt {
        *self
    }
}

/// Difference of two values, canonical.
impl<'a, 'b> std::ops::Sub<&'b MarInt> for &'a MarInt {
    type Output = MarInt;

    fn sub(self, rhs: &'b MarInt) -> (r: MarInt)
        ensures
            r.wf(),
            r.value() == self.value() - rhs.value(),
    {
        MarInt::sub_ref(self, rhs)
    }
}

impl<'b> vstd::std_specs::ops::SubSpecImpl<&'b MarInt> for MarInt {
    open spec fn obeys_sub_spec() -> bool {
        false
    }

    open spec fn sub_req(self, rhs: &'b MarInt) -> bool {
        true
    }

    open spec fn sub_spec(self, rhs: &'b MarInt) -> MarInt {
        self
    }
}

/// Difference of two values, canonical.
impl<'b> std::ops::Sub<&'b MarInt> for MarInt {
    type Output = MarInt;

    fn sub(self, rhs: &'b MarInt) -> (r: MarInt)
        ensures
            r.wf(),
            r.value() == self.value() - rhs.value(),
    {
        MarInt::sub_ref(&self, rhs)
    }
}

impl<'a> vstd::std_specs::ops::SubSpecImpl<MarInt> for &'a MarInt {
    open spec fn obeys_sub_spec() -> bool {
        false
    }

    open spec fn sub_req(self, rhs: MarInt) -> bool {
        true
    }

    open spec fn sub_spec(self, rhs: MarInt) -> MarInt {
        *self
    }
}

/// Difference of two values, canonical.
impl<'a> std::ops::Sub<MarInt> for &'a MarInt {
    type Output = MarInt;

    fn sub(self, rhs: MarInt) -> (r: MarInt)
        ensures
            r.wf(),
            r.value() == self.value() - rhs.value(),
    {
        MarInt::sub_ref(self, &rhs)
    }
}

impl vstd::std_specs::ops::SubSpecImpl<MarInt> for MarInt {
    open spec fn obeys_sub_spec() -> bool {
        false
    }

    open spec fn sub_req(self, rhs: MarInt) -> bool {
        true
    }

    open spec fn sub_spec(self, rhs: MarInt) -> MarInt {
        self
    }
}

/// Difference of two values, canonical.
impl std::ops::Sub<MarInt> for MarInt {
    type Output = MarInt;

    fn sub(self, rhs: MarInt) -> (r: MarInt)
        ensures
            r.wf(),
            r.value() == self.value() - rhs.value(),
    {
        MarInt::sub_ref(&self, &rhs)
    }
}

impl<'a, 'b> vstd::std_specs::ops::MulSpecImpl<&'b MarInt> for &'a MarInt {
    open spec fn obeys_mul_spec() -> bool {
        false
    }

    open spec fn mul_req(self, rhs: &'b MarInt) -> bool {
        self.limbs@.len() + rhs.limbs@.len() < usize::MAX
    }

    open spec fn mul_spec(self, rhs: &'b MarInt) -> MarInt {
        *self
    }
}

/// Product of two values, canonical.
impl<'a, 'b> std::ops::Mul<&'b MarInt> for &'a MarInt {
    type Output = MarInt;

    fn mul(self, rhs: &'b MarInt) -> (r: MarInt)
        ensures
            r.wf(),
            r.value() == self.value() * rhs.value(),
    {
        MarInt::mul_ref(self, rhs)
    }
}

impl<'b> vstd::std_specs::ops::MulSpecImpl<&'b MarInt> for MarInt {
    open spec fn obeys_mul_spec() -> bool {
        false
    }

    open spec fn mul_req(self, rhs: &'b MarInt) -> bool {
        self.limbs@.len() + rhs.limbs@.len() < usize::MAX
    }

    open spec fn mul_spec(self, rhs: &'b MarInt) -> MarInt {
        self
    }
}

/// Product of two values, canonical.
impl<'b> std::ops::Mul<&'b MarInt> for MarInt {
    type Output = MarInt;

    fn mul(self, rhs: &'b MarInt) -> (r: MarInt)
        ensures
            r.wf(),
            r.value() == self.value() * rhs.value(),
    {
        MarInt::mul_ref(&self, rhs)
    }
}

impl<'a> vstd::std_specs::ops::MulSpecImpl<MarInt> for &'a MarInt {
    open spec fn obeys_mul_spec() -> bool {
        false
    }

    open spec fn mul_req(self, rhs: MarInt) -> bool {
        self.limbs@.len() + rhs.limbs@.len() < usize::MAX
    }

    open spec fn mul_spec(self, rhs: MarInt) -> MarInt {
        *self
    }
}

/// Product of two values, canonical.
impl<'a> std::ops::Mul<MarInt> for &'a MarInt {
    type Output = MarInt;

    fn mul(self, rhs: MarInt) -> (r: MarInt)
        ensures
            r.wf(),
            r.value() == self.value() * rhs.value(),
    {
        MarInt::mul_ref(self, &rhs)
    }
}

impl vstd::std_specs::ops::MulSpecImpl<MarInt> for MarInt {
    open spec fn obeys_mul_spec() -> bool {
        false
    }

    open spec fn mul_req(self, rhs: MarInt) -> bool {
        self.limbs@.len() + rhs.limbs@.len() < usize::MAX
    }

    open spec fn mul_spec(self, rhs: MarInt) -> MarInt {
        self
    }
}

/// Product of two values, canonical.
impl std::ops::Mul<MarInt> for MarInt {
    type Output = MarInt;

    fn mul(self, rhs: MarInt) -> (r: MarInt)
        ensures
            r.wf(),
            r.value() == self.value() * rhs.value(),
    {
        MarInt::mul_ref(&self, &rhs)
    }
}

impl vstd::std_specs::ops::NegSpecImpl for MarInt {
    open spec fn obeys_neg_spec() -> bool {
        false
    }

    open spec fn neg_req(self) -> bool {
        true
    }

    open spec fn neg_spec(self) -> MarInt {
        self
    }
}

/// Negation, canonical: zero stays zero.
impl std::ops::Neg for MarInt {
    type Output = MarInt;

    fn neg(self) -> (r: MarInt)
        ensures
            r.wf(),
            r.value() == -self.value(),
    {
        MarInt::negated(&self)
    }
}

impl<'a> vstd::std_specs::ops::NegSpecImpl for &'a MarInt {
    open spec fn obeys_neg_spec() -> bool {
        false
    }

    open spec fn neg_req(self) -> bool {
        true
    }

    open spec fn neg_spec(self) -> MarInt {
        *self
    }
}

/// Negation, canonical: zero stays zero.
impl<'a> std::ops::Neg for &'a MarInt {
    type Output = MarInt;

    fn neg(self) -> (r: MarInt)
        ensures
            r.wf(),
            r.value() == -self.value(),
    {
        MarInt::negated(self)
    }
}

impl<'a, 'b> vstd::std_specs::ops::DivSpecImpl<&'b MarInt> for &'a MarInt {
    open spec fn obeys_div_spec() -> bool {
        false
    }

    open spec fn div_req(self, rhs: &'b MarInt) -> bool {
        rhs.value() != 0
    }

    open spec fn div_spec(self, rhs: &'b MarInt) -> MarInt {
        *self
    }
}

/// Truncating quotient by a non-zero divisor, canonical.
impl<'a, 'b> std::ops::Div<&'b MarInt> for &'a MarInt {
    type Output = MarInt;

    fn div(self, rhs: &'b MarInt) -> (r: MarInt)
        ensures
            r.wf(),
            r.value() == trunc_div(self.value(), rhs.value()),
    {
        self.div_rem(rhs).0
    }
}

impl<'a, 'b> vstd::std_specs::ops::RemSpecImpl<&'b MarInt> for &'a MarInt {
    open spec fn obeys_rem_spec() -> bool {
        false
    }

    open spec fn rem_req(self, rhs: &'b MarInt) -> bool {
        rhs.value() != 0
    }

    open spec fn rem_spec(self, rhs: &'b MarInt) -> MarInt {
        *self
    }
}

/// Truncating remainder by a non-zero divisor, canonical.
impl<'a, 'b> std::ops::Rem<&'b MarInt> for &'a MarInt {
    type Output = MarInt;

    fn rem(self, rhs: &'b MarInt) -> (r: MarInt)
        ensures
            r.wf(),
            r.value() == trunc_rem(self.value(), rhs.value()),
    {
        self.div_rem(rhs).1
    }
}

/// Adds in place; the receiver is left canonical.
impl<'b> std::ops::AddAssign<&'b MarInt> for MarInt {
    fn add_assign(&mut self, rhs: &'b MarInt)
        ensures
            final(self).wf(),
            final(self).value() == old(self).value() + rhs.value(),
    {
        let out = MarInt::add_ref(self, rhs);
        *self = out;
    }
}

/// Adds in place; the receiver is left canonical.
impl std::ops::AddAssign<MarInt> for MarInt {
    fn add_assign(&mut self, rhs: MarInt)
        ensures
            final(self).wf(),
            final(self).value() == old(self).value() + rhs.value(),
    {
        let out = MarInt::add_ref(self, &rhs);
        *self = out;
    }
}

/// Subtracts in place; the receiver is left canonical.
impl<'b> std::ops::SubAssign<&'b MarInt> for MarInt {
    fn sub_assign(&mut self, rhs: &'b MarInt)
        ensures
            final(self).wf(),
            final(self).value() == old(self).value() - rhs.value(),
    {
        let out = MarInt::sub_ref(self, rhs);
        *self = out;
    }
}

/// Subtracts in place; the receiver is left canonical.
impl std::ops::SubAssign<MarInt> for MarInt {
    fn sub_assign(&mut self, rhs: MarInt)
        ensures
            final(self).wf(),
            final(self).value() == old(self).value() - rhs.value(),
    {
        let out = MarInt::sub_ref(self, &rhs);
        *self = out;
    }
}

/// Multiplies in place; the receiver is left canonical.
impl<'b> std::ops::MulAssign<&'b MarInt> for MarInt {
    fn mul_assign(&mut self, rhs: &'b MarInt)
        requires
            old(self).limbs@.len() + rhs.limbs@.len() < usize::MAX,
        ensures
            final(self).wf(),
            final(self).value() == old(self).value() * rhs.value(),
    {
        let out = MarInt::mul_ref(self, rhs);
        *self = out;
    }
}

/// Multiplies in place; the receiver is left canonical.
impl std::ops::MulAssign<MarInt> for MarInt {
    fn mul_assign(&mut self, rhs: MarInt)
        requires
            old(self).limbs@.len() + rhs.limbs@.len() < usize::MAX,
        ensures
            final(self).wf(),
            final(self).value() == old(self).value() * rhs.value(),
    {
        let out = MarInt::mul_ref(self, &rhs);
        *self = out;
    }
}

} // verus!
