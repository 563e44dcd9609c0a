//! Operations on magnitudes: little-endian limb sequences read as natural numbers.
use crate::marint::{MarInt, LIMB_BASE};
use crate::model::{
    is_canonical,
    lemma_low_val_full,
    lemma_low_val_succ,
    lemma_low_val_zero,
    lemma_pow_adds,
    lemma_pow_succ,
    lemma_val_bound,
    lemma_val_first_diff,
    lemma_val_high_zeros,
    lemma_val_push,
    lemma_val_sig_prefix_order,
    lemma_val_single,
    lemma_val_take_succ,
    lemma_val_update,
    lemma_val_zero_iff,
    limb_base,
    limbs_val,
    low_val,
    pow_base,
};
use std::cmp::Ordering;
use vstd::prelude::*;

verus! {

/// The ordering of two naturals.
pub open spec fn ordering_of(x: int, y: int) -> Ordering {
    if x < y {
        Ordering::Less
    } else if x == y {
        Ordering::Equal
    } else {
        Ordering::Greater
    }
}

proof fn lemma_double_word_bound(x: u64, y: u64, c: u64, d: u64)
    ensures
        (x as int) * (y as int) + (c as int) + (d as int) < LIMB_BASE * LIMB_BASE,
        (x as int) * (y as int) + (c as int) + (d as int) <= u128::MAX,
{
    assert((x as int) * (y as int) <= (LIMB_BASE - 1) * (LIMB_BASE - 1)) by (nonlinear_arith)
        requires
            x < LIMB_BASE,
            y < LIMB_BASE,
            0 <= x,
            0 <= y,
    ;
}

impl MarInt {
    /// The limbs `[0]`.
    pub fn zero_limbs() -> (r: Vec<u64>)
        ensures
            r@ == seq![0u64],
            limbs_val(r@) == 0,
            is_canonical(r@),
    {
        let r = vec![0u64];
        proof {
            lemma_val_single(0);
            assert(r@ =~= seq![0u64]);
        }
        r
    }

    /// The limbs `[1]`.
    pub fn one_limbs() -> (r: Vec<u64>)
        ensures
            r@ == seq![1u64],
            limbs_val(r@) == 1,
            is_canonical(r@),
    {
        let r = vec![1u64];
        proof {
            lemma_val_single(1);
            assert(r@ =~= seq![1u64]);
        }
        r
    }

    /// The limbs `[0]`; the same as `zero_limbs`.
    pub fn limbs_zero() -> (r: Vec<u64>)
        ensures
            r@ == seq![0u64],
            limbs_val(r@) == 0,
            is_canonical(r@),
    {
        Self::zero_limbs()
    }

    /// The limbs `[1]`; the same as `one_limbs`.
    pub fn limbs_one() -> (r: Vec<u64>)
        ensures
            r@ == seq![1u64],
            limbs_val(r@) == 1,
            is_canonical(r@),
    {
        Self::one_limbs()
    }

    /// Whether the limbs are exactly `[0]`, the canonical zero.
    pub fn is_zero_limbs(limbs: &[u64]) -> (r: bool)
        ensures
            r == (limbs@ == seq![0u64]),
    {
        let r = limbs.len() == 1 && limbs[0] == 0;
        proof {
            if limbs.len() == 1 && limbs[0] == 0 {
                assert(limbs@ =~= seq![0u64]);
            }
        }
        r
    }

    /// Splits a double-width word into its low and high limbs.
    pub fn split_u128(value: u128) -> (r: (u64, u64))
        ensures
            r.0 + LIMB_BASE * r.1 == value,
    {
        ((value % LIMB_BASE) as u64, (value / LIMB_BASE) as u64)
    }

    /// Removes high zero limbs, keeping at least one limb; an empty sequence becomes `[0]`.
    pub fn trim_trailing_zero(limbs: &mut Vec<u64>)
        ensures
            is_canonical(final(limbs)@),
            limbs_val(final(limbs)@) == limbs_val(old(limbs)@),
            old(limbs)@.len() > 0 ==> final(limbs)@ == old(limbs)@.take(
                final(limbs)@.len() as int,
            ),
            old(limbs)@.len() > 0 ==> final(limbs)@.len() <= old(limbs)@.len(),
    {
        while limbs.len() > 1 && limbs[limbs.len() - 1] == 0
            invariant
                limbs_val(limbs@) == limbs_val(old(limbs)@),
                limbs@.len() <= old(limbs)@.len(),
                limbs@ == old(limbs)@.take(limbs@.len() as int),
                old(limbs)@.len() > 0 ==> limbs@.len() > 0,
            decreases limbs.len(),
        {
            let ghost before = limbs@;
            limbs.pop();
            proof {
                assert(limbs@ =~= before.drop_last());
                assert(before.last() == 0);
                assert(limbs_val(before) == limbs_val(limbs@) + 0 * pow_base((before.len() - 1) as nat));
                assert(limbs@ =~= old(limbs)@.take(limbs@.len() as int));
            }
        }
        if limbs.len() == 0 {
            limbs.push(0);
            proof {
                assert(limbs@ =~= seq![0u64]);
                lemma_val_single(0);
            }
        }
    }

    /// Brings limbs to canonical form; the same as `trim_trailing_zero`.
    pub fn normalize_limbs(limbs: &mut Vec<u64>)
        ensures
            is_canonical(final(limbs)@),
            limbs_val(final(limbs)@) == limbs_val(old(limbs)@),
    {
        Self::trim_trailing_zero(limbs);
    }

    /// The number of limbs up to and including the highest non-zero one.
    fn significant_len(a: &[u64]) -> (n: usize)
        ensures
            n <= a.len(),
            forall|k: int| n <= k < a.len() ==> a@[k] == 0,
            n > 0 ==> a@[n - 1] != 0,
    {
        let mut n = a.len();
        while n > 0 && a[n - 1] == 0
            invariant
                n <= a.len(),
                forall|k: int| n <= k < a.len() ==> a@[k] == 0,
            decreases n,
        {
            n -= 1;
        }
        n
    }

    /// Compares two magnitudes by the numbers they encode. On canonical limbs this is the
    /// longer-is-greater rule, then the limbs from the most significant down.
    pub fn cmp_limbs(a: &[u64], b: &[u64]) -> (r: Ordering)
        ensures
            r == ordering_of(limbs_val(a@) as int, limbs_val(b@) as int),
    {
        let la = Self::significant_len(a);
        let lb = Self::significant_len(b);
        if la != lb {
            proof {
                if la < lb {
                    lemma_val_sig_prefix_order(b@, lb as int, a@, la as int);
                } else {
                    lemma_val_sig_prefix_order(a@, la as int, b@, lb as int);
                }
            }
            return if la > lb {
                Ordering::Greater
            } else {
                Ordering::Less
            };
        }
        proof {
            lemma_val_high_zeros(a@, la as int);
            lemma_val_high_zeros(b@, lb as int);
        }
        let ghost ta = a@.take(la as int);
        let ghost tb = b@.take(lb as int);
        let mut i = la;
        while i > 0
            invariant
                i <= la,
                la == lb,
                la <= a.len(),
                lb <= b.len(),
                ta == a@.take(la as int),
                tb == b@.take(lb as int),
                limbs_val(a@) == limbs_val(ta),
                limbs_val(b@) == limbs_val(tb),
                forall|k: int| i <= k < la ==> a@[k] == b@[k],
            decreases i,
        {
            i -= 1;
            if a[i] != b[i] {
                proof {
                    if a[i as int] < b[i as int] {
                        lemma_val_first_diff(ta, tb, i as int);
                    } else {
                        lemma_val_first_diff(tb, ta, i as int);
                    }
                }
                return if a[i] > b[i] {
                    Ordering::Greater
                } else {
                    Ordering::Less
                };
            }
        }
        proof {
            assert(ta =~= tb);
        }
        Ordering::Equal
    }

    /// Schoolbook addition with a rippling carry; the result is canonical.
    pub fn add_limbs(a: &[u64], b: &[u64]) -> (r: Vec<u64>)
        ensures
            limbs_val(r@) == limbs_val(a@) + limbs_val(b@),
            is_canonical(r@),
    {
        let n = if a.len() > b.len() {
            a.len()
        } else {
            b.len()
        };
        let mut result: Vec<u64> = Vec::new();
        let mut carry: u64 = 0;
        let mut i: usize = 0;
        proof {
            lemma_low_val_zero(a@);
            lemma_low_val_zero(b@);
        }
        while i < n
            invariant
                n == a.len() || n == b.len(),
                a.len() <= n,
                b.len() <= n,
                i <= n,
                result@.len() == i,
                carry <= 1,
                limbs_val(result@) + carry * pow_base(i as nat) == low_val(a@, i as nat) + low_val(
                    b@,
                    i as nat,
                ),
            decreases n - i,
        {
            let x: u64 = if i < a.len() {
                a[i]
            } else {
                0
            };
            let y: u64 = if i < b.len() {
                b[i]
            } else {
                0
            };
            let s: u128 = x as u128 + y as u128 + carry as u128;
            let (lo, hi) = Self::split_u128(s);
            proof {
                lemma_low_val_succ(a@, i as nat);
                lemma_low_val_succ(b@, i as nat);
                lemma_val_push(result@, lo);
                lemma_pow_succ(i as nat);
                let p = pow_base(i as nat) as int;
                assert(lo * p + hi * (limb_base() * p) == x * p + y * p + carry * p)
                    by (nonlinear_arith)
                    requires
                        lo + limb_base() * hi == x + y + carry,
                ;
            }
            result.push(lo);
            carry = hi;
            i += 1;
        }
        proof {
            lemma_low_val_full(a@, n as nat);
            lemma_low_val_full(b@, n as nat);
        }
        if carry != 0 {
            proof {
                lemma_val_push(result@, carry);
            }
            result.push(carry);
        }
        Self::trim_trailing_zero(&mut result);
        result
    }

    /// Schoolbook subtraction with a rippling borrow, for `b <= a`; the result is canonical.
    pub fn sub_limbs(a: &[u64], b: &[u64]) -> (r: Vec<u64>)
        requires
            limbs_val(b@) <= limbs_val(a@),
        ensures
            limbs_val(r@) == limbs_val(a@) - limbs_val(b@),
            is_canonical(r@),
    {
        let r = Self::sub_limbs_raw(a, b);
        let mut r = r;
        Self::trim_trailing_zero(&mut r);
        r
    }

    /// Subtraction for `b <= a`, leaving the result at the longer operand's length, untrimmed.
    pub(crate) fn sub_limbs_raw(a: &[u64], b: &[u64]) -> (r: Vec<u64>)
        requires
            limbs_val(b@) <= limbs_val(a@),
        ensures
            limbs_val(r@) == limbs_val(a@) - limbs_val(b@),
            r@.len() == if a.len() > b.len() {
                a.len()
            } else {
                b.len()
            },
    {
        let n = if a.len() > b.len() {
            a.len()
        } else {
            b.len()
        };
        let mut result: Vec<u64> = Vec::with_capacity(n);
        let mut borrow: u64 = 0;
        let mut i: usize = 0;
        proof {
            lemma_low_val_zero(a@);
            lemma_low_val_zero(b@);
        }
        while i < n
            invariant
                n == a.len() || n == b.len(),
                a.len() <= n,
                b.len() <= n,
                i <= n,
                result@.len() == i,
                borrow <= 1,
                limbs_val(result@) + low_val(b@, i as nat) == low_val(a@, i as nat) + borrow
                    * pow_base(i as nat),
            decreases n - i,
        {
            let x: u64 = if i < a.len() {
                a[i]
            } else {
                0
            };
            let y: u64 = if i < b.len() {
                b[i]
            } else {
                0
            };
            let t: u128 = y as u128 + borrow as u128;
            let ghost ob = borrow;
            let d: u64;
            if x as u128 >= t {
                d = (x as u128 - t) as u64;
                borrow = 0;
            } else {
                d = (x as u128 + LIMB_BASE - t) as u64;
                borrow = 1;
            }
            proof {
                lemma_low_val_succ(a@, i as nat);
                lemma_low_val_succ(b@, i as nat);
                lemma_val_push(result@, d);
                lemma_pow_succ(i as nat);
                let p = pow_base(i as nat) as int;
                assert(d * p + y * p + ob * p == x * p + borrow * (limb_base() * p))
                    by (nonlinear_arith)
                    requires
                        d + y + ob == x + limb_base() * borrow,
                ;
            }
            result.push(d);
            i += 1;
        }
        proof {
            lemma_low_val_full(a@, n as nat);
            lemma_low_val_full(b@, n as nat);
            lemma_val_bound(result@);
            if borrow == 1 {
                assert(borrow * pow_base(n as nat) == pow_base(n as nat));
            }
        }
        result
    }

    /// Multiplies a magnitude by one limb; the result is canonical.
    pub fn limbs_mul_by_u64(limbs: &[u64], u: u64) -> (r: Vec<u64>)
        ensures
            limbs_val(r@) == limbs_val(limbs@) * u,
            is_canonical(r@),
            r@.len() <= limbs@.len() + 1,
    {
        let r = Self::mul_by_u64_raw(limbs, u);
        let mut r = r;
        Self::trim_trailing_zero(&mut r);
        r
    }

    /// Multiplies a magnitude by one limb, keeping every limb: the result has one limb more.
    pub(crate) fn mul_by_u64_raw(limbs: &[u64], u: u64) -> (r: Vec<u64>)
        ensures
            limbs_val(r@) == limbs_val(limbs@) * u,
            r@.len() == limbs@.len() + 1,
    {
        let mut result: Vec<u64> = Vec::new();
        let mut carry: u64 = 0;
        let mut i: usize = 0;
        proof {
            assert(limbs@.take(0) =~= Seq::<u64>::empty());
            assert(limbs_val(limbs@.take(0)) == 0);
            assert(0 * (u as int) == 0);
            assert(0 * pow_base(0) == 0);
        }
        while i < limbs.len()
            invariant
                i <= limbs.len(),
                result@.len() == i,
                limbs_val(result@) + carry * pow_base(i as nat) == limbs_val(limbs@.take(i as int))
                    * u,
            decreases limbs.len() - i,
        {
            proof {
                lemma_double_word_bound(limbs[i as int], u, carry, 0);
            }
            let m: u128 = limbs[i] as u128 * u as u128 + carry as u128;
            let (lo, hi) = Self::split_u128(m);
            proof {
                lemma_val_take_succ(limbs@, i as int);
                lemma_val_push(result@, lo);
                lemma_pow_succ(i as nat);
                let p = pow_base(i as nat) as int;
                let x = limbs[i as int] as int;
                let v = limbs_val(limbs@.take(i as int)) as int;
                assert(lo * p + hi * (limb_base() * p) - carry * p == (v + x * p) * u - v * u)
                    by (nonlinear_arith)
                    requires
                        lo + limb_base() * hi == x * u + carry,
                ;
            }
            result.push(lo);
            carry = hi;
            i += 1;
        }
        proof {
            assert(limbs@.take(limbs.len() as int) =~= limbs@);
            lemma_val_push(result@, carry);
        }
        result.push(carry);
        result
    }

    /// Adds one limb to a magnitude, growing it by a limb only when the carry leaves the top.
    pub fn limbs_add_by_u64(limbs: &[u64], u: u64) -> (r: Vec<u64>)
        ensures
            limbs_val(r@) == limbs_val(limbs@) + u,
            r@.len() == limbs@.len() || r@.len() == limbs@.len() + 1,
            r@.len() == limbs@.len() + 1 ==> r@.last() == 1 || limbs@.len() == 0,
            is_canonical(limbs@) ==> is_canonical(r@),
    {
        let mut result = Self::copy_limbs(limbs);
        if u == 0 {
            return result;
        }
        let mut carry: u64 = u;
        let mut i: usize = 0;
        proof {
            assert(pow_base(0) == 1);
            assert(carry * pow_base(0) == carry);
        }
        while carry != 0
            invariant
                i <= limbs.len() + 1,
                i > 0 ==> carry <= 1,
                i > limbs.len() ==> carry == 0,
                result@.len() == if i > limbs.len() {
                    i as int
                } else {
                    limbs.len() as int
                },
                forall|k: int| i <= k < limbs.len() ==> result@[k] == limbs@[k],
                i > 0 && carry == 0 ==> result@[i - 1] != 0,
                limbs_val(result@) + carry * pow_base(i as nat) == limbs_val(limbs@) + u,
                i == limbs.len() + 1 ==> result@.last() == 1 || limbs.len() == 0,
            decreases limbs.len() + 1 - i,
        {
            if i == result.len() {
                proof {
                    lemma_val_push(result@, 0);
                    assert(0 * pow_base(result@.len()) == 0);
                }
                result.push(0);
            }
            assert(i < result.len());
            let m: u128 = result[i] as u128 + carry as u128;
            let (lo, hi) = Self::split_u128(m);
            proof {
                lemma_val_update(result@, i as int, lo);
                lemma_pow_succ(i as nat);
                let p = pow_base(i as nat) as int;
                let old_limb = result@[i as int] as int;
                assert(lo * p + hi * (limb_base() * p) == old_limb * p + carry * p)
                    by (nonlinear_arith)
                    requires
                        lo + limb_base() * hi == old_limb + carry,
                ;
            }
            result.set(i, lo);
            carry = hi;
            i += 1;
        }
        proof {
            if is_canonical(limbs@) && result@.len() == limbs@.len() && limbs@.len() > 1 {
                if i <= limbs.len() - 1 {
                    assert(result@[limbs.len() - 1] == limbs@[limbs.len() - 1]);
                }
            }
        }
        result
    }

    /// A vector of `n` zero limbs.
    pub(crate) fn zeros(n: usize) -> (r: Vec<u64>)
        ensures
            r@.len() == n,
            forall|k: int| 0 <= k < n ==> r@[k] == 0,
    {
        let mut r: Vec<u64> = Vec::new();
        let mut i: usize = 0;
        while i < n
            invariant
                i <= n,
                r@.len() == i,
                forall|k: int| 0 <= k < i ==> r@[k] == 0,
            decreases n - i,
        {
            r.push(0);
            i += 1;
        }
        r
    }

    /// Schoolbook multiplication of two magnitudes; the result is canonical.
    pub fn mul_limbs_ref(a: &[u64], b: &[u64]) -> (r: Vec<u64>)
        requires
            a.len() + b.len() < usize::MAX,
        ensures
            limbs_val(r@) == limbs_val(a@) * limbs_val(b@),
            is_canonical(r@),
    {
        if Self::is_zero_limbs(a) || Self::is_zero_limbs(b) {
            proof {
                lemma_val_single(0);
                assert(limbs_val(a@) * limbs_val(b@) == 0) by (nonlinear_arith)
                    requires
                        limbs_val(a@) == 0 || limbs_val(b@) == 0,
                ;
            }
            return Self::zero_limbs();
        }
        let la = a.len();
        let lb = b.len();
        let mut acc = Self::zeros(la + lb + 1);
        proof {
            lemma_val_zero_iff(acc@);
            assert(a@.take(0) =~= Seq::<u64>::empty());
            assert(limbs_val(a@.take(0)) == 0);
            assert(0 * limbs_val(b@) == 0);
        }
        let mut i: usize = 0;
        while i < la
            invariant
                la == a.len(),
                lb == b.len(),
                la + lb < usize::MAX,
                i <= la,
                acc@.len() == la + lb + 1,
                limbs_val(acc@) == limbs_val(a@.take(i as int)) * limbs_val(b@),
                forall|k: int| i + lb <= k < acc@.len() ==> acc@[k] == 0,
            decreases la - i,
        {
            let ai = a[i];
            let mut carry: u64 = 0;
            let mut j: usize = 0;
            let ghost x = limbs_val(a@.take(i as int)) * limbs_val(b@);
            let ghost pi = pow_base(i as nat);
            proof {
                assert(b@.take(0) =~= Seq::<u64>::empty());
                assert(limbs_val(b@.take(0)) == 0);
                assert(ai * 0 * pi == 0) by (nonlinear_arith);
                assert(0 * pow_base(i as nat) == 0);
            }
            while j < lb
                invariant
                    la == a.len(),
                    lb == b.len(),
                    la + lb < usize::MAX,
                    i < la,
                    j <= lb,
                    ai == a@[i as int],
                    pi == pow_base(i as nat),
                    acc@.len() == la + lb + 1,
                    limbs_val(acc@) + carry * pow_base((i + j) as nat) == x + ai * limbs_val(
                        b@.take(j as int),
                    ) * pi,
                    forall|k: int| i + lb <= k < acc@.len() ==> acc@[k] == 0,
                decreases lb - j,
            {
                let old_limb = acc[i + j];
                proof {
                    lemma_double_word_bound(ai, b[j as int], carry, old_limb);
                }
                let t: u128 = old_limb as u128 + ai as u128 * b[j] as u128 + carry as u128;
                let (lo, hi) = Self::split_u128(t);
                proof {
                    lemma_val_update(acc@, (i + j) as int, lo);
                    lemma_val_take_succ(b@, j as int);
                    lemma_pow_adds(i as nat, j as nat);
                    lemma_pow_succ((i + j) as nat);
                    let p = pow_base((i + j) as nat) as int;
                    let pj = pow_base(j as nat) as int;
                    let vb = limbs_val(b@.take(j as int)) as int;
                    let bj = b@[j as int] as int;
                    let va = limbs_val(acc@) as int;
                    assert(ai * (vb + bj * pj) * pi == ai * vb * pi + ai * bj * p)
                        by (nonlinear_arith)
                        requires
                            p == pi * pj,
                    ;
                    assert(lo * p + hi * (limb_base() * p) == old_limb * p + ai * bj * p + carry
                        * p) by (nonlinear_arith)
                        requires
                            lo + limb_base() * hi == old_limb + ai * bj + carry,
                    ;
                }
                acc.set(i + j, lo);
                carry = hi;
                j += 1;
            }
            proof {
                assert(b@.take(lb as int) =~= b@);
                lemma_val_update(acc@, (i + lb) as int, carry);
                lemma_val_take_succ(a@, i as int);
                let vb = limbs_val(b@) as int;
                let va = limbs_val(a@.take(i as int)) as int;
                assert((va + ai * pi) * vb == va * vb + ai * vb * pi) by (nonlinear_arith);
            }
            acc.set(i + lb, carry);
            i += 1;
        }
        proof {
            assert(a@.take(la as int) =~= a@);
        }
        Self::trim_trailing_zero(&mut acc);
        acc
    }
}

} // verus!
