//! Mathematical model of a limb sequence: the natural number it encodes in base 2^64,
//! least-significant limb first, together with the lemmas the algorithms rely on.
use vstd::prelude::*;

verus! {

/// The radix of one limb.
pub open spec fn limb_base() -> nat {
    0x1_0000_0000_0000_0000
}

/// `limb_base()` raised to the power `n`.
pub open spec fn pow_base(n: nat) -> nat
    decreases n,
{
    if n == 0 {
        1
    } else {
        limb_base() * pow_base((n - 1) as nat)
    }
}

/// The number that a little-endian limb sequence encodes.
pub open spec fn limbs_val(s: Seq<u64>) -> nat
    decreases s.len(),
{
    if s.len() == 0 {
        0
    } else {
        limbs_val(s.drop_last()) + (s.last() as nat) * pow_base((s.len() - 1) as nat)
    }
}

/// Canonical magnitude: non-empty, and no high zero limb unless the sequence is exactly `[0]`.
pub open spec fn is_canonical(s: Seq<u64>) -> bool {
    s.len() >= 1 && (s.len() == 1 || s.last() != 0)
}

/// The limb at position `i`, reading zeros past the end.
pub open spec fn limb_at(s: Seq<u64>, i: int) -> nat {
    if 0 <= i < s.len() {
        s[i] as nat
    } else {
        0
    }
}

/// The value of the lowest `i` limbs, where the limbs past the end count as zeros.
pub open spec fn low_val(s: Seq<u64>, i: nat) -> nat {
    if i <= s.len() {
        limbs_val(s.take(i as int))
    } else {
        limbs_val(s)
    }
}

pub proof fn lemma_pow_positive(n: nat)
    ensures
        pow_base(n) > 0,
    decreases n,
{
    if n > 0 {
        lemma_pow_positive((n - 1) as nat);
        assert(limb_base() * pow_base((n - 1) as nat) > 0) by (nonlinear_arith)
            requires
                pow_base((n - 1) as nat) > 0,
        ;
    }
}

pub proof fn lemma_pow_succ(n: nat)
    ensures
        pow_base(n + 1) == limb_base() * pow_base(n),
{
    assert((n + 1 - 1) as nat == n);
}

pub proof fn lemma_pow_adds(a: nat, b: nat)
    ensures
        pow_base(a + b) == pow_base(a) * pow_base(b),
    decreases b,
{
    if b > 0 {
        let b1 = (b - 1) as nat;
        lemma_pow_adds(a, b1);
        assert(pow_base(a + b) == limb_base() * pow_base(a + b1));
        assert(pow_base(b) == limb_base() * pow_base(b1));
        let pa = pow_base(a);
        let pb1 = pow_base(b1);
        assert(limb_base() * (pa * pb1) == pa * (limb_base() * pb1)) by (nonlinear_arith);
    } else {
        assert(pow_base(0) == 1);
        assert(a + b == a);
    }
}

pub proof fn lemma_pow_monotone(a: nat, b: nat)
    requires
        a <= b,
    ensures
        pow_base(a) <= pow_base(b),
{
    lemma_pow_adds(a, (b - a) as nat);
    lemma_pow_positive((b - a) as nat);
    lemma_pow_positive(a);
    let pa = pow_base(a);
    let pd = pow_base((b - a) as nat);
    assert(pa <= pa * pd) by (nonlinear_arith)
        requires
            pd >= 1,
    ;
}

pub proof fn lemma_val_push(s: Seq<u64>, x: u64)
    ensures
        limbs_val(s.push(x)) == limbs_val(s) + x * pow_base(s.len()),
{
    assert(s.push(x).drop_last() =~= s);
}

pub proof fn lemma_val_single(x: u64)
    ensures
        limbs_val(seq![x]) == x,
{
    let s = seq![x];
    assert(s.drop_last() =~= Seq::<u64>::empty());
    assert(limbs_val(Seq::<u64>::empty()) == 0);
    assert(s.len() == 1 && s.last() == x);
    assert(pow_base(0) == 1);
    assert(limbs_val(s) == limbs_val(s.drop_last()) + x * pow_base(0));
}

/// Adding the limb at position `i` to the value of the `i` lowest limbs.
pub proof fn lemma_val_take_succ(s: Seq<u64>, i: int)
    requires
        0 <= i < s.len(),
    ensures
        limbs_val(s.take(i + 1)) == limbs_val(s.take(i)) + s[i] * pow_base(i as nat),
{
    assert(s.take(i + 1) =~= s.take(i).push(s[i]));
    lemma_val_push(s.take(i), s[i]);
}

pub proof fn lemma_low_val_succ(s: Seq<u64>, i: nat)
    ensures
        low_val(s, i + 1) == low_val(s, i) + limb_at(s, i as int) * pow_base(i),
{
    if i < s.len() {
        lemma_val_take_succ(s, i as int);
    } else if i == s.len() {
        assert(s.take(i as int) =~= s);
    }
}

pub proof fn lemma_low_val_full(s: Seq<u64>, i: nat)
    requires
        i >= s.len(),
    ensures
        low_val(s, i) == limbs_val(s),
{
    assert(s.take(s.len() as int) =~= s);
}

pub proof fn lemma_low_val_zero(s: Seq<u64>)
    ensures
        low_val(s, 0) == 0,
{
    assert(s.take(0) =~= Seq::<u64>::empty());
}

/// A sequence of `n` limbs encodes a number below `limb_base()^n`.
pub proof fn lemma_val_bound(s: Seq<u64>)
    ensures
        limbs_val(s) < pow_base(s.len()),
    decreases s.len(),
{
    if s.len() > 0 {
        let n1 = (s.len() - 1) as nat;
        lemma_val_bound(s.drop_last());
        lemma_pow_succ(n1);
        let v = limbs_val(s.drop_last());
        let p = pow_base(n1);
        let x = s.last();
        assert(v + x * p < limb_base() * p) by (nonlinear_arith)
            requires
                v < p,
                x < limb_base(),
        ;
    } else {
        assert(pow_base(0) == 1);
    }
}

/// The value splits into the low `k` limbs and the high limbs shifted by `k` positions.
pub proof fn lemma_val_split(s: Seq<u64>, k: int)
    requires
        0 <= k <= s.len(),
    ensures
        limbs_val(s) == limbs_val(s.take(k)) + pow_base(k as nat) * limbs_val(s.skip(k)),
    decreases s.len(),
{
    if k == s.len() {
        assert(s.take(k) =~= s);
        assert(s.skip(k).len() == 0);
        assert(limbs_val(s.skip(k)) == 0);
        assert(pow_base(k as nat) * 0 == 0) by (nonlinear_arith);
    } else {
        let t = s.drop_last();
        lemma_val_split(t, k);
        assert(t.take(k) =~= s.take(k));
        assert(s.skip(k).drop_last() =~= t.skip(k));
        assert(s.skip(k).last() == s.last());
        let hi = limbs_val(t.skip(k));
        let x = s.last();
        let m = (s.len() - 1 - k) as nat;
        lemma_pow_adds(k as nat, m);
        assert((k as nat + m) == (s.len() - 1) as nat);
        let pk = pow_base(k as nat);
        let pm = pow_base(m);
        assert(limbs_val(s) == limbs_val(t) + x * pow_base((s.len() - 1) as nat));
        assert(s.skip(k).len() == m + 1);
        assert(limbs_val(s.skip(k)) == hi + x * pm);
        assert(pk * (hi + x * pm) == pk * hi + x * (pk * pm)) by (nonlinear_arith);
    }
}

/// The lowest limb and the rest, shifted by one position.
pub proof fn lemma_val_cons(s: Seq<u64>)
    requires
        s.len() >= 1,
    ensures
        limbs_val(s) == s[0] + limb_base() * limbs_val(s.skip(1)),
{
    lemma_val_split(s, 1);
    assert(s.take(1) =~= seq![s[0]]);
    lemma_val_single(s[0]);
    assert(pow_base(1) == limb_base() * pow_base(0));
}

/// High zero limbs do not change the value.
pub proof fn lemma_val_high_zeros(s: Seq<u64>, k: int)
    requires
        0 <= k <= s.len(),
        forall|j: int| k <= j < s.len() ==> s[j] == 0,
    ensures
        limbs_val(s) == limbs_val(s.take(k)),
    decreases s.len(),
{
    if k < s.len() {
        let t = s.drop_last();
        lemma_val_high_zeros(t, k);
        assert(t.take(k) =~= s.take(k));
    } else {
        assert(s.take(k) =~= s);
    }
}

/// A sequence whose top limb is non-zero encodes at least `limb_base()^(n-1)`.
pub proof fn lemma_val_lower_bound(s: Seq<u64>)
    requires
        s.len() >= 1,
        s.last() != 0,
    ensures
        limbs_val(s) >= pow_base((s.len() - 1) as nat),
{
    let p = pow_base((s.len() - 1) as nat);
    let x = s.last();
    assert(x * p >= p) by (nonlinear_arith)
        requires
            x >= 1,
    ;
}

/// A sequence encodes zero exactly when all its limbs are zero.
pub proof fn lemma_val_zero_iff(s: Seq<u64>)
    ensures
        limbs_val(s) == 0 <==> (forall|j: int| 0 <= j < s.len() ==> s[j] == 0),
    decreases s.len(),
{
    if s.len() > 0 {
        let t = s.drop_last();
        lemma_val_zero_iff(t);
        lemma_pow_positive((s.len() - 1) as nat);
        let p = pow_base((s.len() - 1) as nat);
        let x = s.last();
        assert(limbs_val(s) == limbs_val(t) + x * p);
        if x != 0 {
            assert(x * p > 0) by (nonlinear_arith)
                requires
                    x >= 1,
                    p > 0,
            ;
            assert(s[s.len() - 1] != 0);
        } else {
            assert(x * p == 0) by (nonlinear_arith)
                requires
                    x == 0,
            ;
            if limbs_val(s) == 0 {
                assert forall|j: int| 0 <= j < s.len() implies s[j] == 0 by {
                    if j < s.len() - 1 {
                        assert(t[j] == s[j]);
                    }
                }
            }
            if forall|j: int| 0 <= j < s.len() ==> s[j] == 0 {
                assert forall|j: int| 0 <= j < t.len() implies t[j] == 0 by {
                    assert(s[j] == 0);
                }
            }
        }
    }
}

/// Two canonical sequences with the same value are equal.
pub proof fn lemma_canonical_unique(a: Seq<u64>, b: Seq<u64>)
    requires
        is_canonical(a),
        is_canonical(b),
        limbs_val(a) == limbs_val(b),
    ensures
        a == b,
    decreases a.len(),
{
    if a.len() < b.len() {
        lemma_canonical_len_order(a, b);
    } else if b.len() < a.len() {
        lemma_canonical_len_order(b, a);
    } else if a.len() == 1 {
        lemma_val_single(a[0]);
        lemma_val_single(b[0]);
        assert(a =~= seq![a[0]]);
        assert(b =~= seq![b[0]]);
    } else {
        lemma_val_cons(a);
        lemma_val_cons(b);
        let va = limbs_val(a.skip(1));
        let vb = limbs_val(b.skip(1));
        assert(a[0] == b[0] && va == vb) by (nonlinear_arith)
            requires
                a[0] + limb_base() * va == b[0] + limb_base() * vb,
                a[0] < limb_base(),
                b[0] < limb_base(),
        ;
        assert(a.skip(1).last() == a.last());
        assert(b.skip(1).last() == b.last());
        lemma_canonical_unique(a.skip(1), b.skip(1));
        assert(a =~= seq![a[0]] + a.skip(1));
        assert(b =~= seq![b[0]] + b.skip(1));
    }
}

/// Between canonical sequences, the shorter one encodes the smaller number.
pub proof fn lemma_canonical_len_order(a: Seq<u64>, b: Seq<u64>)
    requires
        is_canonical(a),
        is_canonical(b),
        a.len() < b.len(),
    ensures
        limbs_val(a) < limbs_val(b),
{
    lemma_val_bound(a);
    lemma_val_lower_bound(b);
    lemma_pow_monotone(a.len(), (b.len() - 1) as nat);
}

/// Overwriting the limb at position `k` changes the value by the difference at weight `base^k`.
pub proof fn lemma_val_update(s: Seq<u64>, k: int, v: u64)
    requires
        0 <= k < s.len(),
    ensures
        limbs_val(s.update(k, v)) + s[k] * pow_base(k as nat) == limbs_val(s) + v * pow_base(
            k as nat,
        ),
{
    let t = s.update(k, v);
    lemma_val_split(s, k);
    lemma_val_split(t, k);
    assert(t.take(k) =~= s.take(k));
    lemma_val_cons(s.skip(k));
    lemma_val_cons(t.skip(k));
    assert(t.skip(k).skip(1) =~= s.skip(k).skip(1));
    let r = limbs_val(s.skip(k).skip(1));
    let p = pow_base(k as nat);
    let x = s[k];
    assert(p * (v + limb_base() * r) + x * p == p * (x + limb_base() * r) + v * p)
        by (nonlinear_arith);
}

/// Of two sequences of equal length that agree above position `i`, the one with the smaller
/// limb at `i` encodes the smaller number.
pub proof fn lemma_val_first_diff(a: Seq<u64>, b: Seq<u64>, i: int)
    requires
        a.len() == b.len(),
        0 <= i < a.len(),
        a[i] < b[i],
        forall|k: int| i < k < a.len() ==> a[k] == b[k],
    ensures
        limbs_val(a) < limbs_val(b),
{
    lemma_val_split(a, i);
    lemma_val_split(b, i);
    lemma_val_cons(a.skip(i));
    lemma_val_cons(b.skip(i));
    assert(a.skip(i).skip(1) =~= b.skip(i).skip(1));
    lemma_val_bound(a.take(i));
    let r = limbs_val(a.skip(i).skip(1));
    let p = pow_base(i as nat);
    let la = limbs_val(a.take(i));
    let lb = limbs_val(b.take(i));
    let x = a[i] as int;
    let y = b[i] as int;
    assert(la + p * (x + limb_base() * r) < lb + p * (y + limb_base() * r)) by (nonlinear_arith)
        requires
            la < p,
            lb >= 0,
            x + 1 <= y,
    ;
}

/// A sequence whose significant limbs reach further than those of another encodes the larger
/// number.
pub proof fn lemma_val_sig_prefix_order(a: Seq<u64>, la: int, b: Seq<u64>, lb: int)
    requires
        0 <= la <= a.len(),
        0 <= lb <= b.len(),
        forall|k: int| la <= k < a.len() ==> a[k] == 0,
        forall|k: int| lb <= k < b.len() ==> b[k] == 0,
        la > 0 ==> a[la - 1] != 0,
        lb < la,
    ensures
        limbs_val(b) < limbs_val(a),
{
    lemma_val_high_zeros(a, la);
    lemma_val_high_zeros(b, lb);
    assert(a.take(la).last() == a[la - 1]);
    lemma_val_lower_bound(a.take(la));
    lemma_val_bound(b.take(lb));
    lemma_pow_monotone(lb as nat, (la - 1) as nat);
}

} // verus!
