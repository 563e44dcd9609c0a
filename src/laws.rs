//! Laws of the arithmetic, stated over the values that the operations' contracts speak of.
use crate::marint::{abs_int, trunc_div, trunc_rem, MarInt};
use crate::model::{
    lemma_val_bound,
    lemma_val_single,
    lemma_val_split,
    lemma_val_zero_iff,
    limb_base,
    limbs_val,
    pow_base,
};
use crate::sign::MSgn;
use vstd::prelude::*;

verus! {

/// Division identity for truncating division: `quotient * b + remainder == a`, the remainder
/// is smaller than the divisor in absolute value and never has the opposite sign of `a`.
pub proof fn law_division_identity(a: int, b: int)
    requires
        b != 0,
    ensures
        trunc_div(a, b) * b + trunc_rem(a, b) == a,
        abs_int(trunc_rem(a, b)) < abs_int(b),
        a >= 0 ==> trunc_rem(a, b) >= 0,
        a < 0 ==> trunc_rem(a, b) <= 0,
{
    let aa = abs_int(a);
    let bb = abs_int(b);
    let q = aa / bb;
    let r = aa % bb;
    vstd::arithmetic::div_mod::lemma_fundamental_div_mod(aa, bb);
    assert(0 <= r < bb);
    assert(aa == q * bb + r) by (nonlinear_arith)
        requires
            aa == bb * q + r,
    ;
    let t = trunc_div(a, b);
    if b > 0 {
        assert(bb == b);
        if a < 0 {
            assert(t == -q);
            assert(t * b == -(q * bb)) by (nonlinear_arith)
                requires
                    t == -q,
                    bb == b,
            ;
        } else {
            assert(t == q);
        }
    } else {
        assert(bb == -b);
        if a < 0 {
            assert(t == q);
            assert(t * b == -(q * bb)) by (nonlinear_arith)
                requires
                    t == q,
                    bb == -b,
            ;
        } else {
            assert(t == -q);
            assert(t * b == q * bb) by (nonlinear_arith)
                requires
                    t == -q,
                    bb == -b,
            ;
        }
    }
}

/// A negative truncating remainder moves up by `|b|`, and the quotient down by the sign of `b`.
pub proof fn lemma_euclid_adjust(a: int, b: int, q: int, r: int)
    requires
        b != 0,
        q * b + r == a,
        r < 0,
        abs_int(r) < abs_int(b),
    ensures
        0 <= a - (q - MSgn::of_int(b).as_int()) * b < abs_int(b),
        a - (q - MSgn::of_int(b).as_int()) * b == r + abs_int(b),
        0 <= r + abs_int(b) < abs_int(b),
        (a - (r + abs_int(b))) % abs_int(b) == 0,
{
    let s = MSgn::of_int(b).as_int();
    assert((q - s) * b == q * b - s * b) by (nonlinear_arith);
    assert(s * b == abs_int(b));
    let k = q - s;
    assert(a - (r + abs_int(b)) == k * b);
    assert(k * b == (k * s) * abs_int(b)) by (nonlinear_arith)
        requires
            s * b == abs_int(b),
            s * s == 1,
    ;
    vstd::arithmetic::div_mod::lemma_mod_multiples_basic(k * s, abs_int(b));
}

/// A non-negative truncating remainder is already the Euclidean one.
pub proof fn lemma_euclid_keep(a: int, b: int, q: int, r: int)
    requires
        b != 0,
        q * b + r == a,
        r >= 0,
        abs_int(r) < abs_int(b),
    ensures
        0 <= a - q * b < abs_int(b),
        (a - r) % abs_int(b) == 0,
{
    let s = MSgn::of_int(b).as_int();
    assert(s * b == abs_int(b));
    assert(q * b == (q * s) * abs_int(b)) by (nonlinear_arith)
        requires
            s * b == abs_int(b),
            s * s == 1,
    ;
    vstd::arithmetic::div_mod::lemma_mod_multiples_basic(q * s, abs_int(b));
}


/// Addition is commutative: the canonical results of `a + b` and `b + a` are equal, sign and
/// limbs alike.
pub proof fn law_add_commutative(a: MarInt, b: MarInt, ab: MarInt, ba: MarInt)
    requires
        ab.wf(),
        ab.value() == a.value() + b.value(),
        ba.wf(),
        ba.value() == b.value() + a.value(),
    ensures
        ab.sign == ba.sign,
        ab.limbs@ == ba.limbs@,
{
    MarInt::lemma_wf_unique(ab, ba);
}

/// Addition is associative: the canonical results of `(a + b) + c` and `a + (b + c)` are
/// equal, sign and limbs alike.
pub proof fn law_add_associative(
    a: MarInt,
    b: MarInt,
    c: MarInt,
    ab: MarInt,
    ab_c: MarInt,
    bc: MarInt,
    a_bc: MarInt,
)
    requires
        ab.wf(),
        ab.value() == a.value() + b.value(),
        ab_c.wf(),
        ab_c.value() == ab.value() + c.value(),
        bc.wf(),
        bc.value() == b.value() + c.value(),
        a_bc.wf(),
        a_bc.value() == a.value() + bc.value(),
    ensures
        ab_c.sign == a_bc.sign,
        ab_c.limbs@ == a_bc.limbs@,
{
    MarInt::lemma_wf_unique(ab_c, a_bc);
}

/// Multiplication is commutative: the canonical results of `a * b` and `b * a` are equal,
/// sign and limbs alike.
pub proof fn law_mul_commutative(a: MarInt, b: MarInt, ab: MarInt, ba: MarInt)
    requires
        ab.wf(),
        ab.value() == a.value() * b.value(),
        ba.wf(),
        ba.value() == b.value() * a.value(),
    ensures
        ab.sign == ba.sign,
        ab.limbs@ == ba.limbs@,
{
    assert(a.value() * b.value() == b.value() * a.value()) by (nonlinear_arith);
    MarInt::lemma_wf_unique(ab, ba);
}

/// Multiplication is associative: the canonical results of `(a * b) * c` and `a * (b * c)`
/// are equal, sign and limbs alike.
pub proof fn law_mul_associative(
    a: MarInt,
    b: MarInt,
    c: MarInt,
    ab: MarInt,
    ab_c: MarInt,
    bc: MarInt,
    a_bc: MarInt,
)
    requires
        ab.wf(),
        ab.value() == a.value() * b.value(),
        ab_c.wf(),
        ab_c.value() == ab.value() * c.value(),
        bc.wf(),
        bc.value() == b.value() * c.value(),
        a_bc.wf(),
        a_bc.value() == a.value() * bc.value(),
    ensures
        ab_c.sign == a_bc.sign,
        ab_c.limbs@ == a_bc.limbs@,
{
    let (x, y, z) = (a.value(), b.value(), c.value());
    assert((x * y) * z == x * (y * z)) by (nonlinear_arith);
    MarInt::lemma_wf_unique(ab_c, a_bc);
}

/// Subtraction is addition of the negation: the canonical results of `a - b` and `a + (-b)`
/// are equal, sign and limbs alike.
pub proof fn law_sub_is_add_neg(a: MarInt, b: MarInt, d: MarInt, nb: MarInt, s: MarInt)
    requires
        d.wf(),
        d.value() == a.value() - b.value(),
        nb.wf(),
        nb.value() == -b.value(),
        s.wf(),
        s.value() == a.value() + nb.value(),
    ensures
        d.sign == s.sign,
        d.limbs@ == s.limbs@,
{
    MarInt::lemma_wf_unique(d, s);
}

/// Limbs that are all at the maximum encode one less than a power of the base.
proof fn lemma_all_max(x: Seq<u64>)
    requires
        forall|k: int| 0 <= k < x.len() ==> x[k] == u64::MAX,
    ensures
        limbs_val(x) + 1 == pow_base(x.len()),
    decreases x.len(),
{
    if x.len() > 0 {
        let t = x.drop_last();
        lemma_all_max(t);
        let p = pow_base(t.len());
        assert(pow_base(x.len()) == limb_base() * p);
        assert((p - 1) + u64::MAX * p + 1 == limb_base() * p) by (nonlinear_arith);
    }
}

/// Carry propagation: adding one to a magnitude whose limbs are all at the maximum gives one
/// limb more, all zero but a top limb of one.
pub proof fn law_carry_propagation(x: Seq<u64>, r: Seq<u64>)
    requires
        x.len() >= 1,
        forall|k: int| 0 <= k < x.len() ==> x[k] == u64::MAX,
        limbs_val(r) == limbs_val(x) + 1,
        r.len() == x.len() || r.len() == x.len() + 1,
    ensures
        r.len() == x.len() + 1,
        r[x.len() as int] == 1,
        forall|k: int| 0 <= k < x.len() ==> r[k] == 0,
{
    lemma_all_max(x);
    lemma_val_bound(r);
    let n = x.len() as int;
    lemma_val_split(r, n);
    assert(r.skip(n) =~= seq![r[n]]);
    lemma_val_single(r[n]);
    lemma_val_bound(r.take(n));
    let p = pow_base(n as nat);
    let lo = limbs_val(r.take(n));
    let top = r[n] as int;
    assert(top == 1 && lo == 0) by (nonlinear_arith)
        requires
            lo + p * top == p,
            0 <= lo < p,
            top >= 0,
    ;
    lemma_val_zero_iff(r.take(n));
    assert forall|k: int| 0 <= k < n implies r[k] == 0 by {
        assert(r.take(n)[k] == r[k]);
    }
}

} // verus!
