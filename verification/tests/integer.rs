use locus::integer::Integer;

fn number(value: i64) -> Integer {
    Integer::from_i64(value)
}

#[test]
fn integer_arithmetic_is_exact() {
    let big = number(i64::MAX).mul(&number(i64::MAX));
    let back = big.div(&number(i64::MAX));
    assert!(back.equals(&number(i64::MAX)));
    assert!(number(7).add(&number(-9)).equals(&number(-2)));
    assert!(number(7).sub(&number(9)).equals(&number(-2)));
    assert!(number(-6).mul(&number(7)).equals(&number(-42)));
    assert!(number(0).neg().equals(&Integer::zero()));
    assert!(number(-5).magnitude().equals(&number(5)));
}

#[test]
fn integer_division_truncates_towards_zero() {
    let (q, r) = number(-7).div_rem(&number(2));
    assert!(q.equals(&number(-3)));
    assert!(r.equals(&number(-1)));
    let (q, r) = number(7).div_rem(&number(-2));
    assert!(q.equals(&number(-3)));
    assert!(r.equals(&number(1)));
}

#[test]
fn integer_comparison_and_signs() {
    assert_eq!(number(3).compare(&number(5)), -1);
    assert_eq!(number(5).compare(&number(5)), 0);
    assert_eq!(number(-1).compare(&number(-8)), 1);
    assert!(number(-1).is_negative());
    assert!(!Integer::zero().is_negative());
    assert!(Integer::zero().is_zero());
    assert!(Integer::minus_one().equals(&number(-1)));
    assert!(Integer::one().equals(&number(1)));
    assert_eq!(number(-7), number(-7));
}

#[test]
fn integer_bit_length() {
    assert_eq!(Integer::zero().bit_length(), 0);
    assert_eq!(number(1).bit_length(), 1);
    assert_eq!(number(255).bit_length(), 8);
    assert_eq!(number(-256).bit_length(), 9);
}

#[test]
fn integers_read_in_decimal() {
    assert_eq!(Integer::zero().text(), "0");
    assert_eq!(Integer::from_i64(-42).text(), "-42");
    let big = Integer::from_i64(i64::MAX).mul(&Integer::from_i64(10));
    assert_eq!(big.text(), "92233720368547758070");
}
