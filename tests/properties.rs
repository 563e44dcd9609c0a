use marint::io::ParseMarIntError;
use marint::marint::MarInt;
use marint::ops::DivisionByZero;
use marint::sign::MSgn::{MNeg, MPos, MZero};
use num_bigint::BigInt;
use std::cmp::Ordering;

fn canonical(x: &MarInt) -> bool {
    let l = &x.limbs;
    let limbs_ok = !l.is_empty() && (l.len() == 1 || *l.last().unwrap() != 0);
    let zero = l.len() == 1 && l[0] == 0;
    limbs_ok && (zero == (x.sign == MZero))
}

fn to_bigint(x: &MarInt) -> BigInt {
    let mut v = BigInt::from(0u8);
    for &w in x.limbs.iter().rev() {
        v = (v << 64) + BigInt::from(w);
    }
    match x.sign {
        MZero => BigInt::from(0u8),
        MPos => v,
        MNeg => -v,
    }
}

fn same(a: &MarInt, b: &MarInt) -> bool {
    a.sign == b.sign && a.limbs == b.limbs
}

fn big(s: &str) -> MarInt {
    s.parse().unwrap()
}

#[test]
fn results_are_canonical() {
    let a = MarInt::from_i128(-5);
    let b = MarInt::from_i128(5);
    let c = MarInt { sign: MPos, limbs: vec![7, 0, 0] };
    assert!(canonical(&(&a + &b)));
    assert!(canonical(&(&b - &b)));
    assert!(canonical(&(&a * &MarInt::zero())));
    assert!(canonical(&(&c + &MarInt::zero())));
    assert_eq!((&c + &MarInt::zero()).limbs, vec![7]);
    assert!(canonical(&-MarInt::zero()));
    assert!(canonical(&(&a / &b)));
    assert!(canonical(&(&a % &b)));
    assert_eq!((&a % &b).sign, MZero);
}

#[test]
fn round_trip_gives_canonical_text() {
    assert_eq!(big("-000123").to_decimal_string(), "-123");
    assert_eq!(big("+0042").to_decimal_string(), "42");
    assert_eq!(big("000").to_decimal_string(), "0");
    assert_eq!(big("-0").to_decimal_string(), "0");
    let long = "98765432109876543210987654321098765432109876543210";
    assert_eq!(big(long).to_decimal_string(), long);
    let neg = format!("-{}", long);
    assert_eq!(big(&neg).to_decimal_string(), neg);
}

#[test]
fn parse_minus_zero_is_canonical_zero() {
    let z = big("-0");
    assert_eq!(z.sign, MZero);
    assert_eq!(z.limbs, vec![0]);
}

#[test]
fn parse_errors() {
    assert!(matches!("".parse::<MarInt>(), Err(ParseMarIntError::Empty)));
    assert!(matches!("-".parse::<MarInt>(), Err(ParseMarIntError::Empty)));
    assert!(matches!("+".parse::<MarInt>(), Err(ParseMarIntError::Empty)));
    assert!(matches!("12a3".parse::<MarInt>(), Err(ParseMarIntError::InvalidChar('a'))));
    assert!(matches!("+-1".parse::<MarInt>(), Err(ParseMarIntError::InvalidChar('-'))));
    assert!(matches!("1 2".parse::<MarInt>(), Err(ParseMarIntError::InvalidChar(' '))));
    assert!(matches!("12é".parse::<MarInt>(), Err(ParseMarIntError::InvalidChar('é'))));
}

#[test]
fn parse_strips_surrounding_whitespace() {
    let x = MarInt::parse("  -42 \n").unwrap();
    assert_eq!(x.sign, MNeg);
    assert_eq!(x.limbs, vec![42]);
    assert!(matches!(MarInt::parse_decimal(" 42"), Err(ParseMarIntError::InvalidChar(' '))));
}

#[test]
fn parse_spans_several_chunks() {
    // 2^64 = 18446744073709551616, a twenty-digit number
    let x = big("18446744073709551616");
    assert_eq!(x.limbs, vec![0, 1]);
    let y = big("340282366920938463463374607431768211455");
    assert_eq!(y.limbs, vec![u64::MAX, u64::MAX]);
    assert_eq!(y.to_decimal_string(), "340282366920938463463374607431768211455");
}

#[test]
fn decimal_round_trip_of_long_number() {
    let s = "123456789123456789123456789";
    assert_eq!(big(s).to_decimal_string(), s);
}

#[test]
fn division_identity_holds() {
    let vals: [i128; 9] = [0, 1, -1, 7, -7, 1 << 100, -(1 << 90) + 12345, i128::MAX, i128::MIN + 1];
    let divs: [i128; 6] = [1, -1, 3, -3, (1 << 70) + 5, -(1 << 65) - 1];
    for &a in &vals {
        for &b in &divs {
            let ma = MarInt::from_i128(a);
            let mb = MarInt::from_i128(b);
            let (q, r) = ma.div_rem(&mb);
            assert!(canonical(&q) && canonical(&r));
            assert_eq!(to_bigint(&q) * BigInt::from(b) + to_bigint(&r), BigInt::from(a));
            assert_eq!(to_bigint(&q), BigInt::from(a / b));
            assert_eq!(to_bigint(&r), BigInt::from(a % b));
            assert_eq!(r.abs_cmp(&mb), Ordering::Less);
        }
    }
}

#[test]
fn longdiv_scenario_four_by_two_limbs() {
    let a = vec![2u64, 3, 4, 5];
    let b = vec![7u64, 8];
    let (q, r) = MarInt::longdiv_limbs(&a, &b);
    let av = to_bigint(&MarInt { sign: MPos, limbs: a.clone() });
    let bv = to_bigint(&MarInt { sign: MPos, limbs: b.clone() });
    let qv = to_bigint(&MarInt { sign: MPos, limbs: q.clone() });
    let rv = to_bigint(&MarInt { sign: MPos, limbs: r.clone() });
    assert_eq!(&qv, &(&av / &bv));
    assert_eq!(&rv, &(&av % &bv));
    assert_eq!(qv * &bv + &rv, av);
    assert_eq!(MarInt::cmp_limbs(&r, &b), Ordering::Less);
}

#[test]
fn longdiv_with_padded_operands() {
    let (q, r) = MarInt::longdiv_limbs(&[10, 0, 0], &[3, 0]);
    assert_eq!(q, vec![3]);
    assert_eq!(r, vec![1]);
}

#[test]
fn add_and_mul_commute_and_associate() {
    let xs = [big("-123456789012345678901234567890"), big("0"), big("98765432109876543210"), big("-5")];
    for a in &xs {
        for b in &xs {
            assert!(same(&(a + b), &(b + a)));
            assert!(same(&(a * b), &(b * a)));
            for c in &xs {
                assert!(same(&(&(a + b) + c), &(a + &(b + c))));
                assert!(same(&(&(a * b) * c), &(a * &(b * c))));
            }
        }
    }
}

#[test]
fn sub_is_add_of_negation() {
    let xs = [big("-18446744073709551616"), big("0"), big("18446744073709551615"), big("3")];
    for a in &xs {
        for b in &xs {
            assert!(same(&(a - b), &(a + &(-b))));
        }
    }
}

#[test]
fn carry_ripples_through_max_limbs() {
    let r = MarInt::limbs_add_by_u64(&[u64::MAX, u64::MAX, u64::MAX], 1);
    assert_eq!(r, vec![0, 0, 0, 1]);
    let s = &MarInt { sign: MPos, limbs: vec![u64::MAX; 3] } + &MarInt::one();
    assert_eq!(s.limbs, vec![0, 0, 0, 1]);
}

#[test]
fn add_max_and_one() {
    let s = MarInt::add_ref(&MarInt::from_u64(u64::MAX), &MarInt::from_u64(1));
    assert_eq!(s.limbs, vec![0, 1]);
    assert_eq!(s.sign, MPos);
}

#[test]
fn mul_max_by_max() {
    let p = MarInt::mul_ref(&MarInt::from_u64(u64::MAX), &MarInt::from_u64(u64::MAX));
    assert_eq!(p.limbs, vec![1, u64::MAX - 1]);
    assert_eq!(p.sign, MPos);
}

#[test]
fn divmod_by_zero_is_an_error() {
    for a in [big("1"), big("-1"), big("123456789123456789123456789"), big("0")] {
        assert_eq!(a.divmod(MarInt::zero()).map(|(q, _)| q.limbs), Err(DivisionByZero));
    }
    let padded_zero = MarInt { sign: MPos, limbs: vec![0, 0] };
    assert!(big("5").divmod(padded_zero).is_err());
    let (q, r) = big("-7").divmod(big("2")).unwrap();
    assert_eq!((q.sign, q.limbs), (MNeg, vec![3]));
    assert_eq!((r.sign, r.limbs), (MNeg, vec![1]));
}

#[test]
fn euclidean_division() {
    let cases: [(i128, i128, i128, i128); 5] =
        [(-7, 2, -4, 1), (7, -2, -3, 1), (-7, -2, 4, 1), (7, 2, 3, 1), (-6, 3, -2, 0)];
    for &(a, b, q, r) in &cases {
        let ma = MarInt::from_i128(a);
        let mb = MarInt::from_i128(b);
        assert!(same(&ma.div_euclid(&mb), &MarInt::from_i128(q)));
        assert!(same(&ma.rem_euclid(&mb), &MarInt::from_i128(r)));
    }
}

#[test]
fn constructors_from_wide_integers() {
    assert_eq!(MarInt::from_u128(0).sign, MZero);
    assert_eq!(MarInt::from_u128(u128::MAX).limbs, vec![u64::MAX, u64::MAX]);
    let m = MarInt::from_i128(i128::MIN);
    assert_eq!((m.sign, m.limbs), (MNeg, vec![0, 1 << 63]));
    assert_eq!(MarInt::form_i128(-3).limbs, vec![3]);
    assert_eq!(MarInt::from_u64(0).sign, MZero);
    assert_eq!(MarInt::new().limbs, vec![0]);
    assert_eq!(MarInt::one().limbs, vec![1]);
}

#[test]
fn abs_and_magnitude_compare() {
    let a = MarInt::from_i128(-9);
    assert_eq!(a.abs().sign, MPos);
    assert_eq!(a.abs().limbs, vec![9]);
    assert_eq!(MarInt::zero().abs().sign, MZero);
    assert_eq!(a.abs_cmp(&MarInt::from_i128(9)), Ordering::Equal);
    assert_eq!(a.abs_cmp(&big("18446744073709551616")), Ordering::Less);
    assert_eq!(MarInt::cmp_limbs(&[5, 0, 0], &[5]), Ordering::Equal);
    assert_eq!(MarInt::cmp_limbs(&[0, 1], &[u64::MAX]), Ordering::Greater);
}

#[test]
fn normalize_repairs_raw_values() {
    let mut x = MarInt { sign: MNeg, limbs: vec![0, 0, 0] };
    x.normalize();
    assert_eq!((x.sign, x.limbs), (MZero, vec![0]));
    let mut y = MarInt { sign: MPos, limbs: vec![4, 0] };
    y.normalize();
    assert_eq!((y.sign, y.limbs), (MPos, vec![4]));
    let mut e: Vec<u64> = vec![];
    MarInt::trim_trailing_zero(&mut e);
    assert_eq!(e, vec![0]);
}

#[test]
fn sub_limbs_and_mul_limbs() {
    assert_eq!(MarInt::sub_limbs(&[0, 1], &[1]), vec![u64::MAX]);
    assert_eq!(MarInt::sub_limbs(&[5, 7], &[5, 7]), vec![0]);
    assert_eq!(MarInt::mul_limbs_ref(&[0], &[3, 4]), vec![0]);
    assert_eq!(MarInt::mul_limbs_ref(&[u64::MAX, u64::MAX], &[2]), vec![u64::MAX - 1, u64::MAX, 1]);
    assert_eq!(MarInt::add_limbs(&[u64::MAX], &[1, 5]), vec![0, 6]);
}

#[test]
fn shortdiv_by_ten() {
    let (q, r) = MarInt::shortdiv_limbs_by_u64(&[0, 1], 10);
    assert_eq!(q, vec![1844674407370955161]);
    assert_eq!(r, 6);
    let (q2, r2) = MarInt::divmod_limbs_by_u64(&[123], 10);
    assert_eq!((q2, r2), (vec![12], 3));
}

#[test]
fn compound_assignment_operators() {
    let mut x = big("18446744073709551615");
    x += &MarInt::one();
    assert_eq!(x.limbs, vec![0, 1]);
    x -= big("18446744073709551616");
    assert_eq!((x.sign, x.limbs.clone()), (MZero, vec![0]));
    let mut y = big("-3");
    y *= &big("-4");
    assert_eq!((y.sign, y.limbs.clone()), (MPos, vec![12]));
    y *= MarInt::zero();
    assert_eq!(y.sign, MZero);
}

#[test]
fn divmod_limbs_matches_longdiv() {
    let (q, r) = MarInt::divmod_limbs(&[5, 0, 9], &[0, 3]);
    assert_eq!((q.clone(), r.clone()), MarInt::longdiv_limbs(&[5, 0, 9], &[0, 3]));
    assert_eq!(q, vec![0, 3]);
    assert_eq!(r, vec![5]);
}
