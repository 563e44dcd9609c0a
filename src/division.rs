//! Division of magnitudes: short division by one limb, and long division by a multi-limb
//! divisor with per-digit quotient estimation and correction.
use crate::marint::{MarInt, LIMB_BASE};
use crate::model::{
    is_canonical,
    lemma_canonical_len_order,
    lemma_pow_adds,
    lemma_pow_positive,
    lemma_pow_succ,
    lemma_val_bound,
    lemma_val_cons,
    lemma_val_high_zeros,
    lemma_val_lower_bound,
    lemma_val_single,
    lemma_val_split,
    lemma_val_zero_iff,
    limb_base,
    limbs_val,
    pow_base,
};
use std::cmp::Ordering;
use vstd::prelude::*;

verus! {

/// One step of short division: the next limb joins the running remainder.
proof fn lemma_short_step(x: int, rem: int, vq: int, d: int, cur: int, qd: int, r2: int)
    requires
        d > 0,
        0 <= x < limb_base(),
        0 <= rem < d,
        cur == rem * limb_base() + x,
        cur == qd * d + r2,
        0 <= r2 < d,
    ensures
        x + limb_base() * (vq * d + rem) == (qd + limb_base() * vq) * d + r2,
        0 <= qd < limb_base(),
{
    assert(x + limb_base() * (vq * d + rem) == (qd + limb_base() * vq) * d + r2)
        by (nonlinear_arith)
        requires
            cur == rem * limb_base() + x,
            cur == qd * d + r2,
    ;
    assert(cur < d * limb_base()) by (nonlinear_arith)
        requires
            rem <= d - 1,
            x < limb_base(),
            cur == rem * limb_base() + x,
    ;
    assert(0 <= qd < limb_base()) by (nonlinear_arith)
        requires
            cur == qd * d + r2,
            0 <= r2 < d,
            cur < d * limb_base(),
            cur >= 0,
            d > 0,
    ;
}


proof fn lemma_val_two(s: Seq<u64>)
    requires
        s.len() == 2,
    ensures
        limbs_val(s) == s[0] + limb_base() * s[1],
{
    lemma_val_cons(s);
    assert(s.skip(1) =~= seq![s[1]]);
    lemma_val_single(s[1]);
}

proof fn lemma_val_three(s: Seq<u64>)
    requires
        s.len() == 3,
    ensures
        limbs_val(s) == s[0] + limb_base() * (s[1] + limb_base() * s[2]),
{
    lemma_val_cons(s);
    lemma_val_two(s.skip(1));
}

/// A sequence whose value is below `base^(n-1)` has a zero top limb.
proof fn lemma_top_zero(s: Seq<u64>)
    requires
        s.len() >= 1,
        limbs_val(s) < pow_base((s.len() - 1) as nat),
    ensures
        s.last() == 0,
{
    if s.last() != 0 {
        lemma_val_lower_bound(s);
    }
}

/// The value of a sequence around the window `[j, k)`.
proof fn lemma_val_window(s: Seq<u64>, j: int, k: int)
    requires
        0 <= j <= k <= s.len(),
    ensures
        limbs_val(s) == limbs_val(s.take(j)) + pow_base(j as nat) * limbs_val(s.subrange(j, k))
            + pow_base(k as nat) * limbs_val(s.skip(k)),
{
    lemma_val_split(s, j);
    lemma_val_split(s.skip(j), k - j);
    assert(s.skip(j).take(k - j) =~= s.subrange(j, k));
    assert(s.skip(j).skip(k - j) =~= s.skip(k));
    lemma_pow_adds(j as nat, (k - j) as nat);
    let pj = pow_base(j as nat);
    let pkj = pow_base((k - j) as nat);
    let mid = limbs_val(s.subrange(j, k));
    let hi = limbs_val(s.skip(k));
    assert(pj * (mid + pkj * hi) == pj * mid + (pj * pkj) * hi) by (nonlinear_arith);
}

/// The first quotient estimate, from the top two limbs of the window and the top limb of the
/// divisor, is never too small.
proof fn lemma_estimate_upper(w: int, x: int, top2: int, pw1: int, v: int, y: int, v1: int, qhat: int)
    requires
        w == x + pw1 * top2,
        0 <= x < pw1,
        v == y + pw1 * v1,
        y >= 0,
        v1 > 0,
        qhat >= 0,
        top2 < (qhat + 1) * v1,
    ensures
        w < (qhat + 1) * v,
{
    assert((qhat + 1) * v1 >= top2 + 1);
    assert((qhat + 1) * v >= (qhat + 1) * (pw1 * v1)) by (nonlinear_arith)
        requires
            v == y + pw1 * v1,
            y >= 0,
            qhat >= 0,
    ;
    assert((qhat + 1) * (pw1 * v1) >= pw1 * (top2 + 1)) by (nonlinear_arith)
        requires
            (qhat + 1) * v1 >= top2 + 1,
            pw1 > 0,
    ;
    assert(pw1 * (top2 + 1) == pw1 * top2 + pw1) by (nonlinear_arith);
}

/// When the second divisor limb shows the estimate too large, the estimate times the divisor
/// exceeds the window.
proof fn lemma_estimate_refine(
    w: int,
    x2: int,
    w2: int,
    top2: int,
    pw2: int,
    v: int,
    y2: int,
    v1: int,
    v2: int,
    qhat: int,
    rhat: int,
)
    requires
        w == x2 + pw2 * (w2 + limb_base() * top2),
        0 <= x2 < pw2,
        v == y2 + pw2 * (v2 + limb_base() * v1),
        y2 >= 0,
        top2 == qhat * v1 + rhat,
        qhat * v2 > limb_base() * rhat + w2,
        qhat >= 0,
    ensures
        w < qhat * v,
{
    assert(qhat * v >= pw2 * (qhat * v2 + limb_base() * (qhat * v1))) by (nonlinear_arith)
        requires
            v == y2 + pw2 * (v2 + limb_base() * v1),
            y2 >= 0,
            qhat >= 0,
            pw2 > 0,
    ;
    assert(pw2 * (qhat * v2 + limb_base() * (qhat * v1)) >= pw2 * (w2 + limb_base() * top2 + 1))
        by (nonlinear_arith)
        requires
            qhat * v2 >= limb_base() * rhat + w2 + 1,
            top2 == qhat * v1 + rhat,
            pw2 > 0,
    ;
    assert(pw2 * (w2 + limb_base() * top2 + 1) == pw2 * (w2 + limb_base() * top2) + pw2)
        by (nonlinear_arith);
}

/// A window below `base * v` and an estimate of at least `base` overshoot.
proof fn lemma_estimate_large(w: int, v: int, qhat: int)
    requires
        w < limb_base() * v,
        qhat >= limb_base(),
        v > 0,
    ensures
        w < qhat * v,
{
    assert(limb_base() * v <= qhat * v) by (nonlinear_arith)
        requires
            qhat >= limb_base(),
            v > 0,
    ;
}

/// Undoing the scaling: the scaled remainder is the true remainder times the factor.
proof fn lemma_denormalize(d: int, a: int, bv: int, v: int, q: int, rs: int, r: int, rr: int)
    requires
        d > 0,
        v == bv * d,
        d * a == rs + v * q,
        rs == r * d + rr,
        0 <= rr < d,
        0 <= rs < v,
    ensures
        rr == 0,
        q * bv + r == a,
        r < bv,
{
    let k = a - bv * q - r;
    assert(d * k == rr) by (nonlinear_arith)
        requires
            v == bv * d,
            d * a == rs + v * q,
            rs == r * d + rr,
            k == a - bv * q - r,
    ;
    if k >= 1 {
        assert(d * k >= d) by (nonlinear_arith)
            requires
                k >= 1,
                d > 0,
        ;
    } else if k <= -1 {
        assert(d * k <= -d) by (nonlinear_arith)
            requires
                k <= -1,
                d > 0,
        ;
    }
    assert(k == 0);
    assert(d * k == 0) by (nonlinear_arith)
        requires
            k == 0,
    ;
    assert(r * d < bv * d);
    assert(r < bv) by (nonlinear_arith)
        requires
            r * d < bv * d,
            d > 0,
    ;
}

/// The scaled dividend's top `n` limbs start below the scaled divisor.
proof fn lemma_initial_window(
    uval: int,
    x: int,
    pm1: int,
    r: int,
    v: int,
    d: int,
    bv: int,
    a: int,
    pn1: int,
    pmn: int,
)
    requires
        uval == x + pm1 * r,
        x >= 0,
        r >= 0,
        uval == d * a,
        v == bv * d,
        bv >= pn1,
        pn1 > 0,
        0 <= a < pmn,
        pmn == pm1 * pn1,
        d > 0,
        pm1 > 0,
    ensures
        r < v,
{
    if r >= v {
        assert(pm1 * r >= pm1 * (d * pn1)) by (nonlinear_arith)
            requires
                r >= bv * d,
                bv >= pn1,
                pm1 > 0,
                d > 0,
        ;
        assert(pm1 * (d * pn1) == d * pmn) by (nonlinear_arith)
            requires
                pmn == pm1 * pn1,
        ;
        assert(d * a < d * pmn) by (nonlinear_arith)
            requires
                a < pmn,
                d > 0,
        ;
    }
}

impl MarInt {
    /// Short division by one non-zero limb, from the most significant limb down; returns the
    /// canonical quotient and the remainder.
    pub fn shortdiv_limbs_by_u64(limbs: &[u64], divisor: u64) -> (r: (Vec<u64>, u64))
        requires
            divisor != 0,
        ensures
            limbs_val(r.0@) * divisor + r.1 == limbs_val(limbs@),
            r.1 < divisor,
            is_canonical(r.0@),
    {
        let n = limbs.len();
        let mut quotient = Self::zeros(n);
        let mut rem: u64 = 0;
        let mut i: usize = n;
        proof {
            assert(limbs@.skip(n as int).len() == 0);
            assert(quotient@.skip(n as int).len() == 0);
            assert(0 * (divisor as int) == 0);
        }
        while i > 0
            invariant
                n == limbs.len(),
                quotient@.len() == n,
                i <= n,
                rem < divisor,
                limbs_val(limbs@.skip(i as int)) == limbs_val(quotient@.skip(i as int)) * divisor
                    + rem,
            decreases i,
        {
            i -= 1;
            let cur: u128 = rem as u128 * LIMB_BASE + limbs[i] as u128;
            let qd: u128 = cur / divisor as u128;
            let r2: u128 = cur % divisor as u128;
            proof {
                vstd::arithmetic::div_mod::lemma_fundamental_div_mod(cur as int, divisor as int);
                lemma_short_step(
                    limbs[i as int] as int,
                    rem as int,
                    limbs_val(quotient@.skip(i + 1)) as int,
                    divisor as int,
                    cur as int,
                    qd as int,
                    r2 as int,
                );
                lemma_val_cons(limbs@.skip(i as int));
                assert(limbs@.skip(i as int).skip(1) =~= limbs@.skip(i + 1));
            }
            let ghost before = quotient@;
            quotient.set(i, qd as u64);
            rem = r2 as u64;
            proof {
                lemma_val_cons(quotient@.skip(i as int));
                assert(quotient@.skip(i as int).skip(1) =~= before.skip(i + 1));
            }
        }
        proof {
            assert(limbs@.skip(0) =~= limbs@);
            assert(quotient@.skip(0) =~= quotient@);
        }
        Self::trim_trailing_zero(&mut quotient);
        (quotient, rem)
    }

    /// Short division by one non-zero limb; the same as `shortdiv_limbs_by_u64`.
    pub fn divmod_limbs_by_u64(limbs: &[u64], divisor: u64) -> (r: (Vec<u64>, u64))
        requires
            divisor != 0,
        ensures
            limbs_val(r.0@) * divisor + r.1 == limbs_val(limbs@),
            r.1 < divisor,
            is_canonical(r.0@),
    {
        Self::shortdiv_limbs_by_u64(limbs, divisor)
    }

    /// A fresh vector holding the limbs `lo..hi` of `u`.
    fn copy_range(u: &[u64], lo: usize, hi: usize) -> (r: Vec<u64>)
        requires
            lo <= hi <= u.len(),
        ensures
            r@ == u@.subrange(lo as int, hi as int),
    {
        let mut r: Vec<u64> = Vec::new();
        let mut i = lo;
        while i < hi
            invariant
                lo <= i <= hi,
                hi <= u.len(),
                r@ == u@.subrange(lo as int, i as int),
            decreases hi - i,
        {
            r.push(u[i]);
            i += 1;
            assert(r@ =~= u@.subrange(lo as int, i as int));
        }
        r
    }

    /// Overwrites the limbs of `u` from position `j` on with `w`.
    fn write_window(u: &mut Vec<u64>, j: usize, w: &[u64])
        requires
            j + w.len() <= old(u)@.len(),
        ensures
            final(u)@.len() == old(u)@.len(),
            forall|k: int|
                0 <= k < old(u)@.len() ==> final(u)@[k] == if j <= k < j + w.len() {
                    w@[k - j]
                } else {
                    old(u)@[k]
                },
    {
        let mut i: usize = 0;
        while i < w.len()
            invariant
                i <= w.len(),
                j + w.len() <= u@.len(),
                u@.len() == old(u)@.len(),
                forall|k: int|
                    0 <= k < old(u)@.len() ==> u@[k] == if j <= k < j + i {
                        w@[k - j]
                    } else {
                        old(u)@[k]
                    },
            decreases w.len() - i,
        {
            assert(j + i < u.len());
            u.set(j + i, w[i]);
            i += 1;
        }
    }

    /// Estimates the next quotient digit from the top limbs of the window `w` (n + 1 limbs)
    /// and of the divisor `v` (n limbs), correcting it downward while the second divisor limb
    /// shows it too large. The estimate is never below the true digit.
    fn estimate_digit(w: &[u64], v: &[u64]) -> (qhat: u64)
        requires
            v.len() >= 2,
            w.len() == v.len() + 1,
            v@[v.len() - 1] != 0,
            limbs_val(w@) < limb_base() * limbs_val(v@),
        ensures
            limbs_val(w@) < (qhat + 1) * limbs_val(v@),
    {
        let n = v.len();
        let v1: u128 = v[n - 1] as u128;
        let v2: u128 = v[n - 2] as u128;
        let w2: u128 = w[n - 2] as u128;
        let top2: u128 = w[n] as u128 * LIMB_BASE + w[n - 1] as u128;
        let mut qhat: u128 = top2 / v1;
        let mut rhat: u128 = top2 % v1;
        let ghost wv = limbs_val(w@) as int;
        let ghost vv = limbs_val(v@) as int;
        proof {
            vstd::arithmetic::div_mod::lemma_fundamental_div_mod(top2 as int, v1 as int);
            lemma_val_split(w@, (n - 1) as int);
            lemma_val_split(v@, (n - 1) as int);
            lemma_val_two(w@.skip(n - 1));
            assert(v@.skip(n - 1) =~= seq![v@[n - 1]]);
            lemma_val_single(v@[n - 1]);
            lemma_val_bound(w@.take(n - 1));
            lemma_pow_positive((n - 1) as nat);
            assert(top2 < (qhat + 1) * v1 && top2 == qhat * v1 + rhat) by (nonlinear_arith)
                requires
                    top2 == v1 * qhat + rhat,
                    rhat < v1,
            ;
            lemma_estimate_upper(
                wv,
                limbs_val(w@.take(n - 1)) as int,
                top2 as int,
                pow_base((n - 1) as nat) as int,
                vv,
                limbs_val(v@.take(n - 1)) as int,
                v1 as int,
                qhat as int,
            );
            // the top three limbs of the window and the top two of the divisor
            lemma_val_split(w@, (n - 2) as int);
            lemma_val_split(v@, (n - 2) as int);
            lemma_val_three(w@.skip(n - 2));
            lemma_val_two(v@.skip(n - 2));
            lemma_val_bound(w@.take(n - 2));
            lemma_pow_positive((n - 2) as nat);
        }
        loop
            invariant_except_break
                rhat < LIMB_BASE,
            invariant
                n == v.len(),
                n >= 2,
                w.len() == n + 1,
                v1 == v@[n - 1],
                v2 == v@[n - 2],
                w2 == w@[n - 2],
                v1 > 0,
                top2 == w@[n as int] * LIMB_BASE + w@[n - 1],
                wv == limbs_val(w@),
                vv == limbs_val(v@),
                vv > 0,
                wv < limb_base() * vv,
                wv < (qhat + 1) * vv,
                qhat * v1 + rhat == top2,
                wv == limbs_val(w@.take(n - 2)) + pow_base((n - 2) as nat) * (w2 + limb_base() * (
                w@[n - 1] + limb_base() * w@[n as int])),
                vv == limbs_val(v@.take(n - 2)) + pow_base((n - 2) as nat) * (v2 + limb_base()
                    * v1),
                limbs_val(w@.take(n - 2)) < pow_base((n - 2) as nat),
            ensures
                wv < (qhat + 1) * vv,
            decreases qhat,
        {
            let too_large = if qhat >= LIMB_BASE {
                true
            } else {
                proof {
                    assert(qhat * v2 < LIMB_BASE * LIMB_BASE) by (nonlinear_arith)
                        requires
                            qhat < LIMB_BASE,
                            v2 < LIMB_BASE,
                    ;
                }
                qhat * v2 > LIMB_BASE * rhat + w2
            };
            if !too_large {
                break;
            }
            proof {
                if qhat >= LIMB_BASE {
                    lemma_estimate_large(wv, vv, qhat as int);
                } else {
                    assert(w2 + limb_base() * (w@[n - 1] + limb_base() * w@[n as int]) == w2
                        + limb_base() * top2);
                    lemma_estimate_refine(
                        wv,
                        limbs_val(w@.take(n - 2)) as int,
                        w2 as int,
                        top2 as int,
                        pow_base((n - 2) as nat) as int,
                        vv,
                        limbs_val(v@.take(n - 2)) as int,
                        v1 as int,
                        v2 as int,
                        qhat as int,
                        rhat as int,
                    );
                }
                if qhat == 0 {
                    assert(0 * vv == 0);
                }
            }
            qhat -= 1;
            rhat += v1;
            proof {
                assert(qhat * v1 + rhat == top2) by (nonlinear_arith)
                    requires
                        (qhat + 1) * v1 + (rhat - v1) == top2,
                ;
            }
            if rhat >= LIMB_BASE {
                break;
            }
        }
        if qhat >= LIMB_BASE {
            proof {
                assert(wv < ((LIMB_BASE - 1) + 1) * vv);
            }
            qhat = LIMB_BASE - 1;
        }
        qhat as u64
    }

    /// Lowers the estimate until its product with the divisor fits in the window; returns the
    /// exact quotient digit and that product, one limb longer than the divisor.
    fn correct_digit(w: &[u64], v: &[u64], qhat: u64) -> (r: (u64, Vec<u64>))
        requires
            limbs_val(v@) > 0,
            limbs_val(w@) < (qhat + 1) * limbs_val(v@),
        ensures
            r.0 * limbs_val(v@) <= limbs_val(w@),
            limbs_val(w@) < (r.0 + 1) * limbs_val(v@),
            limbs_val(r.1@) == r.0 * limbs_val(v@),
            r.1@.len() == v@.len() + 1,
    {
        let mut q = qhat;
        let mut prod = Self::mul_by_u64_raw(v, q);
        while matches!(Self::cmp_limbs(w, prod.as_slice()), Ordering::Less)
            invariant
                limbs_val(v@) > 0,
                limbs_val(w@) < (q + 1) * limbs_val(v@),
                limbs_val(prod@) == q * limbs_val(v@),
                prod@.len() == v@.len() + 1,
            decreases q,
        {
            proof {
                if q == 0 {
                    assert(0 * limbs_val(v@) == 0);
                }
            }
            q -= 1;
            prod = Self::mul_by_u64_raw(v, q);
        }
        (q, prod)
    }

    /// Long division of magnitudes with a non-zero divisor; returns the canonical quotient and
    /// remainder. Operands are first brought to canonical form. A one-limb divisor goes to short
    /// division; otherwise both operands are scaled so that the divisor's top limb is at least
    /// half the base, each quotient digit is estimated from the top limbs and corrected, and
    /// the final remainder is scaled back.
    pub fn longdiv_limbs(a: &[u64], b: &[u64]) -> (r: (Vec<u64>, Vec<u64>))
        requires
            limbs_val(b@) > 0,
        ensures
            limbs_val(r.0@) * limbs_val(b@) + limbs_val(r.1@) == limbs_val(a@),
            limbs_val(r.1@) < limbs_val(b@),
            is_canonical(r.0@),
            is_canonical(r.1@),
    {
        let mut an = Self::copy_limbs(a);
        Self::trim_trailing_zero(&mut an);
        let mut bn = Self::copy_limbs(b);
        Self::trim_trailing_zero(&mut bn);
        let ghost av = limbs_val(a@) as int;
        let ghost bv = limbs_val(b@) as int;
        if bn.len() == 1 {
            proof {
                assert(bn@ =~= seq![bn@[0]]);
                lemma_val_single(bn@[0]);
            }
            let (q, r) = Self::shortdiv_limbs_by_u64(an.as_slice(), bn[0]);
            let rv = vec![r];
            proof {
                assert(rv@ =~= seq![r]);
                lemma_val_single(r);
            }
            return (q, rv);
        }
        match Self::cmp_limbs(an.as_slice(), bn.as_slice()) {
            Ordering::Less => {
                proof {
                    lemma_val_single(0);
                    assert(0 * bv == 0);
                }
                return (Self::zero_limbs(), an);
            },
            Ordering::Equal => {
                let q1 = Self::one_limbs();
                proof {
                    assert(limbs_val(q1@) * bv == bv);
                }
                return (q1, Self::zero_limbs());
            },
            Ordering::Greater => {},
        }
        let n = bn.len();
        proof {
            if an.len() < n {
                lemma_canonical_len_order(an@, bn@);
            }
        }
        let m = an.len() - n;
        let top: u64 = bn[n - 1];
        let dq: u128 = LIMB_BASE / (top as u128 + 1);
        let ghost pw1 = pow_base((n - 1) as nat) as int;
        proof {
            assert(top == bn@.last());
            vstd::arithmetic::div_mod::lemma_fundamental_div_mod(
                LIMB_BASE as int,
                top as int + 1,
            );
            assert(dq >= 1 && dq * (top + 1) <= LIMB_BASE && dq * 2 <= LIMB_BASE)
                by (nonlinear_arith)
                requires
                    LIMB_BASE as int == (top + 1) * dq + (LIMB_BASE as int) % (top as int + 1),
                    0 <= (LIMB_BASE as int) % (top as int + 1) < top + 1,
                    1 <= top < LIMB_BASE,
            ;
        }
        let d: u64 = dq as u64;
        let mut u = Self::mul_by_u64_raw(an.as_slice(), d);
        let vraw = Self::mul_by_u64_raw(bn.as_slice(), d);
        proof {
            // the scaled divisor still fits in n limbs, with a non-zero top limb
            lemma_val_split(bn@, (n - 1) as int);
            assert(bn@.skip(n - 1) =~= seq![top]);
            lemma_val_single(top);
            lemma_val_bound(bn@.take(n - 1));
            lemma_pow_succ((n - 1) as nat);
            lemma_pow_positive((n - 1) as nat);
            let x = limbs_val(bn@.take(n - 1)) as int;
            assert(bv * d < pow_base(n as nat)) by (nonlinear_arith)
                requires
                    bv == x + pw1 * top,
                    0 <= x < pw1,
                    d * (top + 1) <= LIMB_BASE,
                    d >= 1,
                    pow_base(n as nat) == LIMB_BASE * pw1,
            ;
            lemma_top_zero(vraw@);
            lemma_val_high_zeros(vraw@, n as int);
        }
        let v = Self::copy_range(vraw.as_slice(), 0, n);
        let ghost vv = limbs_val(v@) as int;
        proof {
            assert(v@ =~= vraw@.take(n as int));
            lemma_val_lower_bound(bn@);
            assert(vv >= bv) by (nonlinear_arith)
                requires
                    vv == bv * d,
                    d >= 1,
                    bv >= 0,
            ;
            lemma_val_split(v@, (n - 1) as int);
            assert(v@.skip(n - 1) =~= seq![v@[n - 1]]);
            lemma_val_single(v@[n - 1]);
            lemma_val_bound(v@.take(n - 1));
            if v@[n - 1] == 0 {
                assert(pw1 * 0 == 0);
            }
            // the top n limbs of the scaled dividend are below the scaled divisor
            lemma_val_split(u@, (m + 1) as int);
            assert(u@.subrange((m + 1) as int, (m + n + 1) as int) =~= u@.skip((m + 1) as int));
            lemma_val_bound(an@);
            lemma_pow_adds((m + 1) as nat, (n - 1) as nat);
            lemma_pow_positive((m + 1) as nat);
            assert(limbs_val(u@) == d * av) by (nonlinear_arith)
                requires
                    limbs_val(u@) == av * d,
            ;
            lemma_initial_window(
                limbs_val(u@) as int,
                limbs_val(u@.take((m + 1) as int)) as int,
                pow_base((m + 1) as nat) as int,
                limbs_val(u@.skip((m + 1) as int)) as int,
                vv,
                d as int,
                bv,
                av,
                pw1,
                pow_base((m + n) as nat) as int,
            );
        }
        let mut q = Self::zeros(m + 1);
        let mut jj: usize = m + 1;
        proof {
            assert(q@.skip((m + 1) as int).len() == 0);
            assert(vv * pow_base((m + 1) as nat) * 0 == 0) by (nonlinear_arith);
        }
        while jj > 0
            invariant
                n == v.len(),
                n >= 2,
                v@[n - 1] != 0,
                vv == limbs_val(v@),
                vv == bv * d,
                vv > 0,
                u@.len() == m + n + 1,
                q@.len() == m + 1,
                jj <= m + 1,
                d * av == limbs_val(u@) + vv * pow_base(jj as nat) * limbs_val(q@.skip(jj as int)),
                forall|k: int| jj + n <= k < u@.len() ==> u@[k] == 0,
                limbs_val(u@.subrange(jj as int, (jj + n) as int)) < vv,
            decreases jj,
        {
            let j = jj - 1;
            assert(j + n + 1 <= u.len());
            let w = Self::copy_range(u.as_slice(), j, j + n + 1);
            let ghost wv = limbs_val(w@) as int;
            proof {
                lemma_val_cons(w@);
                assert(w@.skip(1) =~= u@.subrange(jj as int, (jj + n) as int));
                assert(wv < limb_base() * vv) by (nonlinear_arith)
                    requires
                        wv == w@[0] + limb_base() * limbs_val(w@.skip(1)),
                        limbs_val(w@.skip(1)) < vv,
                        w@[0] < limb_base(),
                ;
            }
            let qhat = Self::estimate_digit(w.as_slice(), v.as_slice());
            let (qd, prod) = Self::correct_digit(w.as_slice(), v.as_slice(), qhat);
            let diff = Self::sub_limbs_raw(w.as_slice(), prod.as_slice());
            let ghost u0 = u@;
            let ghost q0 = q@;
            Self::write_window(&mut u, j, diff.as_slice());
            q.set(j, qd);
            proof {
                let dv = limbs_val(diff@) as int;
                assert(dv < vv) by (nonlinear_arith)
                    requires
                        dv == wv - qd * vv,
                        wv < (qd + 1) * vv,
                ;
                lemma_val_bound(v@);
                lemma_top_zero(diff@);
                // the value of u before and after the window is overwritten
                lemma_val_window(u0, j as int, (j + n + 1) as int);
                lemma_val_window(u@, j as int, (j + n + 1) as int);
                assert(u@.take(j as int) =~= u0.take(j as int));
                assert(u@.subrange(j as int, (j + n + 1) as int) =~= diff@);
                assert(u0.subrange(j as int, (j + n + 1) as int) =~= w@);
                assert(u@.skip((j + n + 1) as int) =~= u0.skip((j + n + 1) as int));
                lemma_val_zero_iff(u0.skip((j + n + 1) as int));
                let lo = limbs_val(u0.take(j as int)) as int;
                let pj = pow_base(j as nat) as int;
                let hi = pow_base((j + n + 1) as nat) * limbs_val(u0.skip((j + n + 1) as int));
                assert(hi == 0) by (nonlinear_arith)
                    requires
                        hi == pow_base((j + n + 1) as nat) * limbs_val(u0.skip((j + n + 1) as int)),
                        limbs_val(u0.skip((j + n + 1) as int)) == 0,
                ;
                // the quotient gains the digit qd at position j
                lemma_val_cons(q@.skip(j as int));
                assert(q@.skip(j as int).skip(1) =~= q0.skip(jj as int));
                lemma_pow_succ(j as nat);
                let vq = limbs_val(q0.skip(jj as int)) as int;
                assert(vv * pow_base(jj as nat) * vq + (lo + pj * wv) == (lo + pj * dv) + vv * pj
                    * (qd + limb_base() * vq)) by (nonlinear_arith)
                    requires
                        pow_base(jj as nat) == limb_base() * pj,
                        dv == wv - qd * vv,
                ;
                // the window's remainder now sits in the limbs j..j+n
                lemma_val_high_zeros(diff@, n as int);
                assert(u@.subrange(j as int, (j + n) as int) =~= diff@.take(n as int));
            }
            jj = j;
        }
        proof {
            assert(q@.skip(0) =~= q@);
            assert(u@.subrange(0, n as int) =~= u@.take(n as int));
            lemma_val_high_zeros(u@, n as int);
            assert(vv * pow_base(0) * limbs_val(q@) == vv * limbs_val(q@));
        }
        let mut rem = u;
        Self::trim_trailing_zero(&mut rem);
        let (r, rr) = Self::shortdiv_limbs_by_u64(rem.as_slice(), d);
        proof {
            lemma_denormalize(
                d as int,
                av,
                bv,
                vv,
                limbs_val(q@) as int,
                limbs_val(rem@) as int,
                limbs_val(r@) as int,
                rr as int,
            );
        }
        Self::trim_trailing_zero(&mut q);
        (q, r)
    }

    /// Quotient and remainder of two magnitudes with a non-zero divisor; the same as
    /// `longdiv_limbs`.
    pub fn divmod_limbs(a: &[u64], b: &[u64]) -> (r: (Vec<u64>, Vec<u64>))
        requires
            limbs_val(b@) > 0,
        ensures
            limbs_val(r.0@) * limbs_val(b@) + limbs_val(r.1@) == limbs_val(a@),
            limbs_val(r.1@) < limbs_val(b@),
            is_canonical(r.0@),
            is_canonical(r.1@),
    {
        Self::longdiv_limbs(a, b)
    }
}

} // verus!
