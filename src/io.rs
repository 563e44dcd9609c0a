//! Decimal text: parsing into base-10^19 chunks, and rendering by repeated division by ten.
use crate::marint::MarInt;
use crate::model::{is_canonical, lemma_val_single, lemma_val_zero_iff, limbs_val};
use crate::sign::MSgn;
use vstd::prelude::*;
use vstd::std_specs::iter::IteratorSpec;

verus! {

broadcast use {vstd::string::axiom_spec_iter, vstd::string::next_postcondition};


/// What went wrong while reading a decimal integer.
#[derive(Debug, Clone, Copy, PartialEq, Eq, Structural)]
pub enum ParseMarIntError {
    /// No digits: the text is empty, or holds a sign alone.
    Empty,
    /// The first character that is not an ASCII digit.
    InvalidChar(char),
}

/// An ASCII decimal digit.
pub open spec fn is_digit(c: char) -> bool {
    48 <= (c as u32) <= 57
}

/// The number that a decimal digit character stands for.
pub open spec fn digit_val(c: char) -> int {
    (c as u32) as int - 48
}

/// The character of a decimal digit `0..=9`.
pub open spec fn digit_char(d: int) -> char {
    if d == 0 {
        '0'
    } else if d == 1 {
        '1'
    } else if d == 2 {
        '2'
    } else if d == 3 {
        '3'
    } else if d == 4 {
        '4'
    } else if d == 5 {
        '5'
    } else if d == 6 {
        '6'
    } else if d == 7 {
        '7'
    } else if d == 8 {
        '8'
    } else {
        '9'
    }
}

/// Ten raised to the power `n`.
pub open spec fn pow10(n: nat) -> nat
    decreases n,
{
    if n == 0 {
        1
    } else {
        10 * pow10((n - 1) as nat)
    }
}

/// The number that a string of decimal digits stands for, most significant first.
pub open spec fn digits_value(ds: Seq<char>) -> int
    decreases ds.len(),
{
    if ds.len() == 0 {
        0
    } else {
        digits_value(ds.drop_last()) * 10 + digit_val(ds.last())
    }
}

/// The first character of `ds` that is not a decimal digit, if any.
pub open spec fn first_non_digit(ds: Seq<char>) -> Option<char>
    decreases ds.len(),
{
    if ds.len() == 0 {
        None
    } else if !is_digit(ds[0]) {
        Some(ds[0])
    } else {
        first_non_digit(ds.skip(1))
    }
}

/// The digits of a decimal text: what follows an optional leading `+` or `-`.
pub open spec fn unsigned_part(t: Seq<char>) -> Seq<char> {
    if t.len() > 0 && (t[0] == '+' || t[0] == '-') {
        t.skip(1)
    } else {
        t
    }
}

/// Reading a decimal integer: an optional sign, then one or more ASCII digits.
pub open spec fn parse_value(t: Seq<char>) -> Result<int, ParseMarIntError> {
    let ds = unsigned_part(t);
    if ds.len() == 0 {
        Err(ParseMarIntError::Empty)
    } else {
        match first_non_digit(ds) {
            Some(c) => Err(ParseMarIntError::InvalidChar(c)),
            None => Ok(
                if t[0] == '-' {
                    -digits_value(ds)
                } else {
                    digits_value(ds)
                },
            ),
        }
    }
}

/// The decimal digits of a natural number, without leading zeros.
pub open spec fn decimal_digits(n: nat) -> Seq<char>
    decreases n,
{
    if n < 10 {
        seq![digit_char(n as int)]
    } else {
        decimal_digits(n / 10).push(digit_char((n % 10) as int))
    }
}

/// The decimal text of an integer: a `-` for negative numbers, then the digits.
pub open spec fn decimal_text(v: int) -> Seq<char> {
    if v < 0 {
        seq!['-'] + decimal_digits((-v) as nat)
    } else {
        decimal_digits(v as nat)
    }
}

/// The characters of `s` with leading and trailing whitespace removed.
pub uninterp spec fn trimmed_chars(s: Seq<char>) -> Seq<char>;

/// Relies on `str::trim`: the whitespace it strips depends on the characters of `s` alone.
#[verifier::external_body]
fn trim_str(s: &str) -> (r: &str)
    ensures
        r@ == trimmed_chars(s@),
{
    s.trim()
}

/// The digit characters of `ds` read back to front.
pub open spec fn reversed_digits(ds: Seq<u8>) -> Seq<char> {
    Seq::new(ds.len(), |i: int| digit_char(ds[ds.len() - 1 - i] as int))
}

proof fn lemma_pow10_positive(n: nat)
    ensures
        pow10(n) >= 1,
    decreases n,
{
    if n > 0 {
        lemma_pow10_positive((n - 1) as nat);
    }
}

proof fn lemma_pow10_monotone(a: nat, b: nat)
    requires
        a <= b,
    ensures
        pow10(a) <= pow10(b),
    decreases b,
{
    if a < b {
        lemma_pow10_monotone(a, (b - 1) as nat);
    }
}

proof fn lemma_pow10_18()
    ensures
        pow10(18) == 1_000_000_000_000_000_000,
{
    reveal_with_fuel(pow10, 19);
}

/// Appending digits shifts the value by a power of ten.
proof fn lemma_digits_concat(a: Seq<char>, b: Seq<char>)
    ensures
        digits_value(a + b) == digits_value(a) * pow10(b.len()) + digits_value(b),
    decreases b.len(),
{
    if b.len() == 0 {
        assert(a + b =~= a);
        assert(pow10(0) == 1);
        assert(digits_value(b) == 0);
        assert(digits_value(a) * 1 == digits_value(a));
    } else {
        lemma_digits_concat(a, b.drop_last());
        assert((a + b).drop_last() =~= a + b.drop_last());
        assert((a + b).last() == b.last());
        let x = digits_value(a);
        let p = pow10((b.len() - 1) as nat);
        assert(pow10(b.len()) == 10 * p);
        assert(digits_value(a + b) == digits_value((a + b).drop_last()) * 10 + digit_val(b.last()));
        assert(digits_value(b) == digits_value(b.drop_last()) * 10 + digit_val(b.last()));
        assert((x * p + digits_value(b.drop_last())) * 10 + digit_val(b.last()) == x * (10 * p)
            + digits_value(b.drop_last()) * 10 + digit_val(b.last())) by (nonlinear_arith);
    }
}

/// Zero digits read as zero.
proof fn lemma_digits_zeros(ds: Seq<char>)
    requires
        forall|k: int| 0 <= k < ds.len() ==> ds[k] == '0',
    ensures
        digits_value(ds) == 0,
    decreases ds.len(),
{
    if ds.len() > 0 {
        lemma_digits_zeros(ds.drop_last());
    }
}

/// A digit string reads as a number below `10^len`.
proof fn lemma_digits_bound(ds: Seq<char>)
    requires
        forall|k: int| 0 <= k < ds.len() ==> is_digit(ds[k]),
    ensures
        0 <= digits_value(ds) < pow10(ds.len()),
    decreases ds.len(),
{
    if ds.len() > 0 {
        lemma_digits_bound(ds.drop_last());
        let v = digits_value(ds.drop_last());
        let p = pow10((ds.len() - 1) as nat);
        assert(v * 10 + digit_val(ds.last()) < 10 * p) by (nonlinear_arith)
            requires
                0 <= v < p,
                0 <= digit_val(ds.last()) <= 9,
        ;
    }
}

/// The first non-digit of a digit string that starts with a digit is that of its tail.
proof fn lemma_first_non_digit_step(cs: Seq<char>, i: int, n: int)
    requires
        0 <= i < n <= cs.len(),
        is_digit(cs[i]),
    ensures
        first_non_digit(cs.subrange(i, n)) == first_non_digit(cs.subrange(i + 1, n)),
{
    assert(cs.subrange(i, n).skip(1) =~= cs.subrange(i + 1, n));
}


/// `ds` without its leading zeros.
pub open spec fn strip_leading_zeros(ds: Seq<char>) -> Seq<char>
    decreases ds.len(),
{
    if ds.len() > 0 && ds[0] == '0' {
        strip_leading_zeros(ds.skip(1))
    } else {
        ds
    }
}

/// The canonical form of a decimal text: no `+`, no leading zeros, and zero as `0` with no
/// sign.
pub open spec fn canonical_text(t: Seq<char>) -> Seq<char> {
    let ds = strip_leading_zeros(unsigned_part(t));
    if ds.len() == 0 {
        seq!['0']
    } else if t[0] == '-' {
        seq!['-'] + ds
    } else {
        ds
    }
}

proof fn lemma_digit_roundtrip(c: char)
    requires
        is_digit(c),
    ensures
        digit_char(digit_val(c)) == c,
        0 <= digit_val(c) <= 9,
{
    let u = c as u32;
    if u == 48 {
        assert(c == '0');
    } else if u == 49 {
        assert(c == '1');
    } else if u == 50 {
        assert(c == '2');
    } else if u == 51 {
        assert(c == '3');
    } else if u == 52 {
        assert(c == '4');
    } else if u == 53 {
        assert(c == '5');
    } else if u == 54 {
        assert(c == '6');
    } else if u == 55 {
        assert(c == '7');
    } else if u == 56 {
        assert(c == '8');
    } else {
        assert(c == '9');
    }
}

proof fn lemma_no_non_digit(ds: Seq<char>)
    requires
        first_non_digit(ds) == None::<char>,
    ensures
        forall|k: int| 0 <= k < ds.len() ==> is_digit(ds[k]),
    decreases ds.len(),
{
    if ds.len() > 0 {
        lemma_no_non_digit(ds.skip(1));
        assert forall|k: int| 0 <= k < ds.len() implies is_digit(ds[k]) by {
            if k > 0 {
                assert(ds.skip(1)[k - 1] == ds[k]);
            }
        }
    }
}

proof fn lemma_strip_zeros(ds: Seq<char>)
    requires
        forall|k: int| 0 <= k < ds.len() ==> is_digit(ds[k]),
    ensures
        digits_value(strip_leading_zeros(ds)) == digits_value(ds),
        forall|k: int|
            0 <= k < strip_leading_zeros(ds).len() ==> is_digit(strip_leading_zeros(ds)[k]),
        strip_leading_zeros(ds).len() == 0 || strip_leading_zeros(ds)[0] != '0',
    decreases ds.len(),
{
    if ds.len() > 0 && ds[0] == '0' {
        let rest = ds.skip(1);
        lemma_strip_zeros(rest);
        assert(seq![ds[0]] + rest =~= ds);
        lemma_digits_concat(seq![ds[0]], rest);
        let z = seq![ds[0]];
        assert(z.drop_last() =~= Seq::<char>::empty());
        assert(digits_value(z.drop_last()) == 0);
        assert(z.last() == '0');
        assert(digit_val(z.last()) == 0);
        assert(digits_value(z) == digits_value(z.drop_last()) * 10 + digit_val(z.last()));
        assert(digits_value(seq![ds[0]]) == 0);
        assert(0 * pow10(rest.len()) == 0);
    }
}

/// Rendering the number that a digit string without leading zeros stands for gives the
/// string back.
proof fn lemma_render_digits(ds: Seq<char>)
    requires
        ds.len() >= 1,
        ds[0] != '0',
        forall|k: int| 0 <= k < ds.len() ==> is_digit(ds[k]),
    ensures
        digits_value(ds) >= 1,
        decimal_digits(digits_value(ds) as nat) == ds,
    decreases ds.len(),
{
    let c = ds.last();
    lemma_digit_roundtrip(c);
    if ds.len() == 1 {
        assert(ds.drop_last() =~= Seq::<char>::empty());
        lemma_digit_roundtrip(ds[0]);
        if digit_val(ds[0]) == 0 {
            assert(digit_char(0) == '0');
        }
        assert(c == ds[0]);
        assert(digits_value(ds) == digits_value(ds.drop_last()) * 10 + digit_val(c));
        assert(digits_value(ds.drop_last()) == 0);
        assert(digits_value(ds) == digit_val(c));
        assert(decimal_digits(digit_val(c) as nat) == seq![digit_char(digit_val(c))]);
        assert(ds =~= seq![c]);
    } else {
        let t = ds.drop_last();
        assert(t[0] == ds[0]);
        lemma_render_digits(t);
        let v = digits_value(t);
        let d = digit_val(c);
        let n = v * 10 + d;
        assert(digits_value(ds) == n);
        assert(n / 10 == v && n % 10 == d) by (nonlinear_arith)
            requires
                n == v * 10 + d,
                0 <= d <= 9,
                v >= 1,
        ;
        assert(decimal_digits(n as nat) == decimal_digits((n / 10) as nat).push(
            digit_char(n % 10),
        ));
        assert(t.push(c) =~= ds);
    }
}

/// Parsing then rendering gives the canonical form of the text: the sign kept only for
/// negative numbers, no `+`, no leading zeros, and `-0` as `0`.
pub proof fn law_parse_render(t: Seq<char>)
    requires
        parse_value(t) is Ok,
    ensures
        decimal_text(parse_value(t)->Ok_0) == canonical_text(t),
{
    let ds = unsigned_part(t);
    lemma_no_non_digit(ds);
    lemma_strip_zeros(ds);
    let sd = strip_leading_zeros(ds);
    let v = parse_value(t)->Ok_0;
    if sd.len() == 0 {
        assert(digits_value(sd) == 0);
        assert(v == 0);
        assert(decimal_digits(0) == seq![digit_char(0)]);
    } else {
        lemma_render_digits(sd);
        if t[0] == '-' {
            assert(v == -digits_value(sd));
        } else {
            assert(v == digits_value(sd));
        }
    }
}

impl MarInt {
    /// The characters of `s`, in order.
    fn chars_of(s: &str) -> (r: Vec<char>)
        ensures
            r@ == s@,
    {
        let mut it = s.chars();
        let mut r: Vec<char> = Vec::new();
        loop
            invariant
                r@ + it.remaining() == s@,
                it.decrease() is Some,
            ensures
                r@ == s@,
            decreases it.decrease()->0,
        {
            match it.next() {
                Some(c) => {
                    r.push(c);
                },
                None => {
                    assert(r@ + it.remaining() =~= r@);
                    break ;
                },
            }
        }
        r
    }

    /// Whether `c` is an ASCII decimal digit.
    fn is_digit_char(c: char) -> (r: bool)
        ensures
            r == is_digit(c),
    {
        let u = c as u32;
        48 <= u && u <= 57
    }

    /// Reads a decimal integer: an optional `+` or `-`, then one or more ASCII digits. Leading
    /// zeros are skipped and the digits are taken in chunks of up to 19, each folded in by one
    /// limb multiplication and one limb addition. `-0` reads as the canonical zero.
    #[verifier::rlimit(40)]
    pub fn parse_decimal(t: &str) -> (r: Result<MarInt, ParseMarIntError>)
        ensures
            match r {
                Ok(x) => x.wf() && parse_value(t@) == Ok::<int, ParseMarIntError>(x.value()),
                Err(e) => parse_value(t@) == Err::<int, ParseMarIntError>(e),
            },
    {
        let cs = Self::chars_of(t);
        let n = cs.len();
        if n == 0 {
            return Err(ParseMarIntError::Empty);
        }
        let mut sign = MSgn::MPos;
        let mut start: usize = 0;
        if cs[0] == '+' {
            start = 1;
        } else if cs[0] == '-' {
            sign = MSgn::MNeg;
            start = 1;
        }
        let ghost ds = unsigned_part(t@);
        proof {
            if start == 1 {
                assert(ds =~= cs@.subrange(1, n as int));
            } else {
                assert(ds =~= cs@.subrange(0, n as int));
            }
        }
        if start == n {
            return Err(ParseMarIntError::Empty);
        }
        let mut i = start;
        while i < n
            invariant
                start <= i <= n,
                n == cs@.len(),
                ds == cs@.subrange(start as int, n as int),
                first_non_digit(ds) == first_non_digit(cs@.subrange(i as int, n as int)),
                cs@ == t@,
                ds == unsigned_part(t@),
                forall|k: int| start <= k < i ==> is_digit(cs@[k]),
            decreases n - i,
        {
            let c = cs[i];
            if !Self::is_digit_char(c) {
                proof {
                    assert(cs@.subrange(i as int, n as int)[0] == c);
                    assert(first_non_digit(cs@.subrange(i as int, n as int)) == Some(c));
                    assert(ds.len() > 0);
                    assert(first_non_digit(ds) == Some(c));
                    assert(parse_value(t@) == Err::<int, ParseMarIntError>(
                        ParseMarIntError::InvalidChar(c),
                    ));
                }
                return Err(ParseMarIntError::InvalidChar(c));
            }
            proof {
                lemma_first_non_digit_step(cs@, i as int, n as int);
            }
            i += 1;
        }
        proof {
            assert(cs@.subrange(n as int, n as int).len() == 0);
        }
        let mut z = start;
        while z < n && cs[z] == '0'
            invariant
                start <= z <= n,
                n == cs@.len(),
                forall|k: int| start <= k < z ==> cs@[k] == '0',
            decreases n - z,
        {
            z += 1;
        }
        proof {
            lemma_digits_zeros(cs@.subrange(start as int, z as int));
            lemma_digits_concat(
                cs@.subrange(start as int, z as int),
                cs@.subrange(z as int, n as int),
            );
            assert(cs@.subrange(start as int, z as int) + cs@.subrange(z as int, n as int)
                =~= ds);
        }
        let ghost dv = digits_value(ds);
        if z == n {
            proof {
                assert(cs@.subrange(n as int, n as int).len() == 0);
            }
            return Ok(Self::zero());
        }
        let total = n - z;
        let rest = total % 19;
        let first = if rest == 0 {
            19
        } else {
            rest
        };
        let mut limbs = Self::zero_limbs();
        let mut pos = z;
        let mut len = first;
        proof {
            assert(cs@.subrange(z as int, z as int).len() == 0);
        }
        while pos < n
            invariant
                z <= pos <= n,
                n == cs@.len(),
                1 <= first <= 19,
                first <= n - z,
                (n - z - first) % 19 == 0,
                pos == z ==> len == first,
                pos > z ==> len == 19 && (n - pos) % 19 == 0,
                forall|k: int| start <= k < n ==> is_digit(cs@[k]),
                start <= z,
                is_canonical(limbs@),
                limbs_val(limbs@) == digits_value(cs@.subrange(z as int, pos as int)),
                sign == MSgn::MPos || sign == MSgn::MNeg,
                dv == digits_value(cs@.subrange(z as int, n as int)),
            decreases n - pos,
        {
            let mut cv: u64 = 0;
            let mut p: u64 = 1;
            let mut k = pos;
            proof {
                assert(cs@.subrange(pos as int, pos as int).len() == 0);
                assert(pow10(0) == 1);
            }
            while k < pos + len
                invariant
                    pos <= k <= pos + len,
                    pos + len <= n,
                    n == cs@.len(),
                    len <= 19,
                    forall|k2: int| start <= k2 < n ==> is_digit(cs@[k2]),
                    start <= pos,
                    cv == digits_value(cs@.subrange(pos as int, k as int)),
                    p == pow10((k - pos) as nat),
                decreases pos + len - k,
            {
                let d = cs[k] as u32 - 48;
                proof {
                    lemma_digits_bound(cs@.subrange(pos as int, k as int));
                    lemma_pow10_monotone((k - pos) as nat, 18);
                    lemma_pow10_18();
                    assert(cs@.subrange(pos as int, k + 1).drop_last() =~= cs@.subrange(
                        pos as int,
                        k as int,
                    ));
                }
                cv = cv * 10 + d as u64;
                p = p * 10;
                k += 1;
            }
            proof {
                lemma_digits_bound(cs@.subrange(pos as int, (pos + len) as int));
                lemma_digits_concat(
                    cs@.subrange(z as int, pos as int),
                    cs@.subrange(pos as int, (pos + len) as int),
                );
                assert(cs@.subrange(z as int, pos as int) + cs@.subrange(
                    pos as int,
                    (pos + len) as int,
                ) =~= cs@.subrange(z as int, (pos + len) as int));
            }
            limbs = Self::limbs_mul_by_u64(limbs.as_slice(), p);
            limbs = Self::limbs_add_by_u64(limbs.as_slice(), cv);
            pos += len;
            len = 19;
        }
        let mut x = MarInt { sign, limbs };
        proof {
            assert(x.mag() == dv);
            if sign == MSgn::MNeg {
                assert(x.value() == -dv);
            } else {
                assert(x.value() == dv);
            }
        }
        x.normalize();
        Ok(x)
    }

    /// Reads a decimal integer after removing surrounding whitespace.
    pub fn parse(s: &str) -> (r: Result<MarInt, ParseMarIntError>)
        ensures
            match r {
                Ok(x) => x.wf() && parse_value(trimmed_chars(s@)) == Ok::<int, ParseMarIntError>(
                    x.value(),
                ),
                Err(e) => parse_value(trimmed_chars(s@)) == Err::<int, ParseMarIntError>(e),
            },
    {
        Self::parse_decimal(trim_str(s))
    }

    /// The one-character text of a decimal digit.
    fn digit_str(d: u8) -> (r: &'static str)
        requires
            d < 10,
        ensures
            r@ == seq![digit_char(d as int)],
    {
        proof {
            reveal_strlit("0");
            reveal_strlit("1");
            reveal_strlit("2");
            reveal_strlit("3");
            reveal_strlit("4");
            reveal_strlit("5");
            reveal_strlit("6");
            reveal_strlit("7");
            reveal_strlit("8");
            reveal_strlit("9");
        }
        if d == 0 {
            "0"
        } else if d == 1 {
            "1"
        } else if d == 2 {
            "2"
        } else if d == 3 {
            "3"
        } else if d == 4 {
            "4"
        } else if d == 5 {
            "5"
        } else if d == 6 {
            "6"
        } else if d == 7 {
            "7"
        } else if d == 8 {
            "8"
        } else {
            "9"
        }
    }

    /// The decimal text of the value: repeated short division by ten collects the digits,
    /// least significant first; they are written in reverse, after a `-` for a negative value.
    /// Zero renders as `0`.
    pub fn to_decimal_string(&self) -> (r: String)
        ensures
            r@ == decimal_text(self.value()),
    {
        let x = self.normalized();
        proof {
            x.lemma_wf_value();
        }
        if x.is_zero() {
            proof {
                reveal_strlit("0");
            }
            return String::from_str("0");
        }
        let ghost big = x.mag();
        let mut limbs = Self::copy_limbs(x.limbs.as_slice());
        let mut ds: Vec<u8> = Vec::new();
        proof {
            assert(reversed_digits(ds@) =~= Seq::<char>::empty());
            assert(decimal_digits(big) =~= decimal_digits(big) + Seq::<char>::empty());
        }
        while !Self::is_zero_limbs(limbs.as_slice())
            invariant
                is_canonical(limbs@),
                forall|k: int| 0 <= k < ds@.len() ==> ds@[k] < 10,
                limbs_val(limbs@) > 0 ==> decimal_digits(big) == decimal_digits(
                    limbs_val(limbs@),
                ) + reversed_digits(ds@),
                limbs_val(limbs@) == 0 ==> decimal_digits(big) == reversed_digits(ds@),
            decreases limbs_val(limbs@),
        {
            let ghost c = limbs_val(limbs@);
            proof {
                if limbs_val(limbs@) == 0 {
                    lemma_val_zero_iff(limbs@);
                    if limbs@.len() > 1 {
                        assert(limbs@.last() == 0);
                    }
                    assert(limbs@ =~= seq![0u64]);
                }
            }
            let (q, r) = Self::shortdiv_limbs_by_u64(limbs.as_slice(), 10);
            let ghost old_ds = ds@;
            ds.push(r as u8);
            proof {
                vstd::arithmetic::div_mod::lemma_fundamental_div_mod_converse(
                    c as int,
                    10,
                    limbs_val(q@) as int,
                    r as int,
                );
                let dc = digit_char(r as int);
                assert(reversed_digits(ds@) =~= seq![dc] + reversed_digits(old_ds));
                if c >= 10 {
                    assert(decimal_digits(c) == decimal_digits(c / 10).push(dc));
                    assert(decimal_digits(c / 10).push(dc) + reversed_digits(old_ds)
                        =~= decimal_digits(c / 10) + (seq![dc] + reversed_digits(old_ds)));
                } else {
                    assert(decimal_digits(c) == seq![dc]);
                }
            }
            limbs = q;
        }
        let mut out = if x.sign == MSgn::MNeg {
            proof {
                reveal_strlit("-");
            }
            String::from_str("-")
        } else {
            String::new()
        };
        let ghost prefix = out@;
        let mut i = ds.len();
        proof {
            lemma_val_single(0);
            assert(decimal_digits(big) == reversed_digits(ds@));
            assert(reversed_digits(ds@).take(0) =~= Seq::<char>::empty());
            assert(prefix + Seq::<char>::empty() =~= prefix);
        }
        while i > 0
            invariant
                i <= ds@.len(),
                forall|k: int| 0 <= k < ds@.len() ==> ds@[k] < 10,
                out@ == prefix + reversed_digits(ds@).take((ds@.len() - i) as int),
                decimal_digits(big) == reversed_digits(ds@),
                x.sign == MSgn::MNeg ==> prefix == seq!['-'],
                x.sign != MSgn::MNeg ==> prefix == Seq::<char>::empty(),
            decreases i,
        {
            i -= 1;
            let piece = Self::digit_str(ds[i]);
            let ghost before = out@;
            out.append(piece);
            proof {
                assert(reversed_digits(ds@).take((ds@.len() - i) as int) =~= reversed_digits(
                    ds@,
                ).take((ds@.len() - i - 1) as int).push(digit_char(ds@[i as int] as int)));
            }
        }
        proof {
            assert(reversed_digits(ds@).take(ds@.len() as int) =~= reversed_digits(ds@));
            if x.sign == MSgn::MNeg {
                assert(x.value() == -(big as int));
            } else {
                assert(x.value() == big as int);
            }
        }
        out
    }
}

impl std::str::FromStr for MarInt {
    type Err = ParseMarIntError;

    fn from_str(s: &str) -> (r: Result<MarInt, ParseMarIntError>)
        ensures
            match r {
                Ok(x) => x.wf() && parse_value(trimmed_chars(s@)) == Ok::<int, ParseMarIntError>(
                    x.value(),
                ),
                Err(e) => parse_value(trimmed_chars(s@)) == Err::<int, ParseMarIntError>(e),
            },
    {
        MarInt::parse(s)
    }
}

} // verus!
