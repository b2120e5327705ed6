//! Integers of any size: a sign and base-2^32 digits, least significant
//! first, in the canonical form that `num_bigint` hands out. The arithmetic
//! that needs more than the representation (sums, products, division,
//! comparison, bit counts) is `num_bigint`'s, called through the trusted
//! items at the end of this file; what follows from the representation alone
//! is proved here.

use crate::text::decimal;
use num_bigint::{BigInt, Sign};
use vstd::prelude::*;

verus! {

/// The value of little-endian base-2^32 digits.
pub open spec fn digits_value(digits: Seq<u32>) -> nat
    decreases digits.len(),
{
    if digits.len() == 0 {
        0
    } else {
        digits[0] as nat + 4294967296 * digits_value(digits.drop_first())
    }
}

/// The absolute value of an integer.
pub open spec fn abs(value: int) -> int {
    if value < 0 {
        -value
    } else {
        value
    }
}

/// `-1`, `0` or `1`, by the sign of `value`.
pub open spec fn signum(value: int) -> int {
    if value < 0 {
        -1
    } else if value == 0 {
        0
    } else {
        1
    }
}

/// The quotient and remainder of truncating division, as Rust's `/` and `%`
/// on integers compute them: the quotient rounds toward zero, so the
/// remainder is smaller than the divisor in magnitude and takes the sign of
/// the dividend.
pub open spec fn is_truncated_division(dividend: int, divisor: int, quotient: int, remainder: int) -> bool {
    &&& dividend == quotient * divisor + remainder
    &&& abs(remainder) < abs(divisor)
    &&& (remainder == 0 || (remainder < 0) == (dividend < 0))
}

/// Whether `divisor` divides `value`: `value` is a multiple of it.
pub open spec fn divides(divisor: int, value: int) -> bool {
    exists|k: int| value == #[trigger] times(divisor, k)
}

/// `left * right`, named so that it can guide the prover.
pub open spec fn times(left: int, right: int) -> int {
    left * right
}

/// The number of bits of a natural number: the least `b` with `n < 2^b`.
pub open spec fn bit_count(n: nat) -> nat
    decreases n,
{
    if n == 0 {
        0
    } else {
        1 + bit_count(n / 2)
    }
}

/// An integer of any size.
#[derive(Debug, PartialEq, Eq)]
pub struct Integer {
    negative: bool,
    digits: Vec<u32>,
}

impl View for Integer {
    type V = int;

    open spec fn view(&self) -> int {
        self.value()
    }
}

impl Integer {
    /// The value the sign and digits stand for.
    pub closed spec fn value(&self) -> int {
        if self.negative {
            -(digits_value(self.digits@) as int)
        } else {
            digits_value(self.digits@) as int
        }
    }

    /// No trailing zero digit, and zero is not negative: the form in which
    /// every integer has exactly one representation.
    #[verifier::type_invariant]
    closed spec fn canonical(&self) -> bool {
        &&& self.digits@.len() > 0 ==> self.digits@.last() != 0
        &&& self.negative ==> self.digits@.len() > 0
    }

    /// Zero.
    pub fn zero() -> (result: Integer)
        ensures
            result@ == 0,
    {
        Integer { negative: false, digits: Vec::new() }
    }

    /// One.
    pub fn one() -> (result: Integer)
        ensures
            result@ == 1,
    {
        let mut digits = Vec::new();
        digits.push(1u32);
        let result = Integer { negative: false, digits };
        assert(result.digits@[0] == 1);
        assert(digits_value(result.digits@.drop_first()) == 0);
        result
    }

    /// Minus one.
    pub fn minus_one() -> (result: Integer)
        ensures
            result@ == -1,
    {
        let mut digits = Vec::new();
        digits.push(1u32);
        let result = Integer { negative: true, digits };
        assert(result.digits@[0] == 1);
        assert(digits_value(result.digits@.drop_first()) == 0);
        result
    }

    /// The integer a machine integer stands for.
    pub fn from_i64(value: i64) -> (result: Integer)
        ensures
            result@ == value,
    {
        integer_from_i64(value)
    }

    /// Whether the integer is zero.
    pub fn is_zero(&self) -> (result: bool)
        ensures
            result == (self@ == 0),
    {
        proof {
            use_type_invariant(self);
            lemma_canonical_zero(self.digits@);
        }
        self.digits.len() == 0
    }

    /// Whether the integer is below zero.
    pub fn is_negative(&self) -> (result: bool)
        ensures
            result == (self@ < 0),
    {
        proof {
            use_type_invariant(self);
            lemma_canonical_zero(self.digits@);
        }
        self.negative
    }

    /// The negation.
    pub fn neg(&self) -> (result: Integer)
        ensures
            result@ == -self@,
    {
        proof {
            use_type_invariant(self);
            lemma_canonical_zero(self.digits@);
        }
        let digits = copy_digits(&self.digits);
        if digits.len() == 0 {
            Integer { negative: false, digits }
        } else {
            Integer { negative: !self.negative, digits }
        }
    }

    /// The absolute value.
    pub fn magnitude(&self) -> (result: Integer)
        ensures
            result@ == abs(self@),
    {
        proof {
            use_type_invariant(self);
        }
        Integer { negative: false, digits: copy_digits(&self.digits) }
    }

    /// A copy of the integer.
    pub fn copy(&self) -> (result: Integer)
        ensures
            result@ == self@,
    {
        proof {
            use_type_invariant(self);
        }
        Integer { negative: self.negative, digits: copy_digits(&self.digits) }
    }

    /// `self + other`.
    pub fn add(&self, other: &Integer) -> (result: Integer)
        ensures
            result@ == self@ + other@,
    {
        integer_add(self, other)
    }

    /// `self - other`.
    pub fn sub(&self, other: &Integer) -> (result: Integer)
        ensures
            result@ == self@ - other@,
    {
        integer_sub(self, other)
    }

    /// `self * other`.
    pub fn mul(&self, other: &Integer) -> (result: Integer)
        ensures
            result@ == self@ * other@,
    {
        integer_mul(self, other)
    }

    /// The quotient and remainder of truncating division.
    pub fn div_rem(&self, divisor: &Integer) -> (result: (Integer, Integer))
        requires
            divisor@ != 0,
        ensures
            is_truncated_division(self@, divisor@, result.0@, result.1@),
    {
        integer_div_rem(self, divisor)
    }

    /// The quotient of truncating division; exact when `divisor` divides
    /// `self`.
    pub fn div(&self, divisor: &Integer) -> (result: Integer)
        requires
            divisor@ != 0,
        ensures
            exists|remainder: int| is_truncated_division(self@, divisor@, result@, remainder),
            divides(divisor@, self@) ==> result@ * divisor@ == self@,
    {
        let (quotient, remainder) = self.div_rem(divisor);
        proof {
            lemma_exact_truncated(self@, divisor@, quotient@, remainder@);
        }
        quotient
    }

    /// Whether the two integers are equal.
    pub fn equals(&self, other: &Integer) -> (result: bool)
        ensures
            result == (self@ == other@),
    {
        integer_compare(self, other) == 0
    }

    /// `-1`, `0` or `1` as `self` is below, equal to, or above `other`.
    pub fn compare(&self, other: &Integer) -> (result: i8)
        ensures
            result == signum(self@ - other@),
    {
        integer_compare(self, other)
    }

    /// The number of bits of the magnitude.
    pub fn bit_length(&self) -> (result: u64)
        ensures
            result == bit_count(abs(self@) as nat),
    {
        integer_bits(self)
    }
}

fn copy_digits(digits: &Vec<u32>) -> (result: Vec<u32>)
    ensures
        result@ == digits@,
{
    let mut result = Vec::new();
    let mut index: usize = 0;
    while index < digits.len()
        invariant
            index <= digits.len(),
            result@ == digits@.subrange(0, index as int),
        decreases digits.len() - index,
    {
        result.push(digits[index]);
        index += 1;
    }
    assert(result@ =~= digits@);
    result
}

/// Digits whose last digit is not zero have a positive value.
proof fn lemma_canonical_zero(digits: Seq<u32>)
    requires
        digits.len() > 0 ==> digits.last() != 0,
    ensures
        (digits_value(digits) == 0) == (digits.len() == 0),
    decreases digits.len(),
{
    if digits.len() > 1 {
        assert(digits.drop_first().last() == digits.last());
        lemma_canonical_zero(digits.drop_first());
    }
}

/// When the divisor divides the dividend, truncating division is exact.
proof fn lemma_exact_truncated(dividend: int, divisor: int, quotient: int, remainder: int)
    requires
        divisor != 0,
        is_truncated_division(dividend, divisor, quotient, remainder),
    ensures
        divides(divisor, dividend) ==> quotient * divisor == dividend,
{
    if divides(divisor, dividend) {
        let k = choose|k: int| dividend == times(divisor, k);
        assert(remainder == divisor * (k - quotient)) by (nonlinear_arith)
            requires
                dividend == divisor * k,
                dividend == quotient * divisor + remainder,
        ;
        if k - quotient != 0 {
            assert(abs(divisor * (k - quotient)) >= abs(divisor)) by (nonlinear_arith)
                requires
                    k - quotient != 0,
                    divisor != 0,
            ;
        }
    }
}

/// An integer in decimal, with a `-` before a negative one.
pub open spec fn signed_decimal(value: int) -> Seq<char> {
    if value < 0 {
        seq!['-'] + decimal((-value) as nat)
    } else {
        decimal(value as nat)
    }
}

impl Integer {
    /// The integer in decimal, as `BigInt`'s `Display` writes it.
    pub fn text(&self) -> (result: String)
        ensures
            result@ == signed_decimal(self@),
    {
        integer_text(self)
    }
}

/// `num_bigint::BigInt`'s `Display` (through `to_string`): the value in
/// base 10, with a `-` before it when it is negative and no sign or leading
/// zero otherwise.
#[verifier::external_body]
fn integer_text(value: &Integer) -> (result: String)
    ensures
        result@ == signed_decimal(value@),
{
    BigInt::from_slice(if value.negative { Sign::Minus } else { Sign::Plus }, &value.digits).to_string()
}

/// `num_bigint::BigInt::from(i64)`, read back by
/// `BigInt::to_u32_digits`: the integer with the machine integer's value.
/// `to_u32_digits` gives `Sign::NoSign` for zero and no trailing zero
/// digit, which the canonical form of `Integer` asks.
#[verifier::external_body]
fn integer_from_i64(value: i64) -> (result: Integer)
    ensures
        result@ == value,
{
    let (sign, digits) = BigInt::from(value).to_u32_digits();
    Integer { negative: sign == Sign::Minus, digits }
}

/// `Add` on `num_bigint::BigInt`, between operands built by
/// `BigInt::from_slice` and read back by `BigInt::to_u32_digits`: the sum.
#[verifier::external_body]
fn integer_add(left: &Integer, right: &Integer) -> (result: Integer)
    ensures
        result@ == left@ + right@,
{
    let a = BigInt::from_slice(if left.negative { Sign::Minus } else { Sign::Plus }, &left.digits);
    let b = BigInt::from_slice(if right.negative { Sign::Minus } else { Sign::Plus }, &right.digits);
    let (sign, digits) = (a + b).to_u32_digits();
    Integer { negative: sign == Sign::Minus, digits }
}

/// `Sub` on `num_bigint::BigInt`, operands and result converted as for
/// `integer_add`: the difference.
#[verifier::external_body]
fn integer_sub(left: &Integer, right: &Integer) -> (result: Integer)
    ensures
        result@ == left@ - right@,
{
    let a = BigInt::from_slice(if left.negative { Sign::Minus } else { Sign::Plus }, &left.digits);
    let b = BigInt::from_slice(if right.negative { Sign::Minus } else { Sign::Plus }, &right.digits);
    let (sign, digits) = (a - b).to_u32_digits();
    Integer { negative: sign == Sign::Minus, digits }
}

/// `Mul` on `num_bigint::BigInt`, operands and result converted as for
/// `integer_add`: the product.
#[verifier::external_body]
fn integer_mul(left: &Integer, right: &Integer) -> (result: Integer)
    ensures
        result@ == left@ * right@,
{
    let a = BigInt::from_slice(if left.negative { Sign::Minus } else { Sign::Plus }, &left.digits);
    let b = BigInt::from_slice(if right.negative { Sign::Minus } else { Sign::Plus }, &right.digits);
    let (sign, digits) = (a * b).to_u32_digits();
    Integer { negative: sign == Sign::Minus, digits }
}

/// `Div` and `Rem` on `num_bigint::BigInt`, which truncate as Rust's
/// primitive integers do (the quotient rounds toward zero, the remainder
/// takes the dividend's sign); operands and results converted as for
/// `integer_add`. The divisor is not zero, on which `Div` panics.
#[verifier::external_body]
fn integer_div_rem(dividend: &Integer, divisor: &Integer) -> (result: (Integer, Integer))
    requires
        divisor@ != 0,
    ensures
        is_truncated_division(dividend@, divisor@, result.0@, result.1@),
{
    let a = BigInt::from_slice(if dividend.negative { Sign::Minus } else { Sign::Plus }, &dividend.digits);
    let b = BigInt::from_slice(if divisor.negative { Sign::Minus } else { Sign::Plus }, &divisor.digits);
    let (quotient_sign, quotient) = (&a / &b).to_u32_digits();
    let (remainder_sign, remainder) = (&a % &b).to_u32_digits();
    (
        Integer { negative: quotient_sign == Sign::Minus, digits: quotient },
        Integer { negative: remainder_sign == Sign::Minus, digits: remainder },
    )
}

/// `Ord::cmp` on `num_bigint::BigInt`, operands converted as for
/// `integer_add`: the order of the values, as `-1`, `0` or `1`.
#[verifier::external_body]
fn integer_compare(left: &Integer, right: &Integer) -> (result: i8)
    ensures
        result == signum(left@ - right@),
{
    let a = BigInt::from_slice(if left.negative { Sign::Minus } else { Sign::Plus }, &left.digits);
    let b = BigInt::from_slice(if right.negative { Sign::Minus } else { Sign::Plus }, &right.digits);
    match a.cmp(&b) {
        std::cmp::Ordering::Less => -1,
        std::cmp::Ordering::Equal => 0,
        std::cmp::Ordering::Greater => 1,
    }
}

/// `num_bigint::BigInt::bits`, operand converted as for `integer_add`: the
/// fewest bits that express the magnitude.
#[verifier::external_body]
fn integer_bits(value: &Integer) -> (result: u64)
    ensures
        result == bit_count(abs(value@) as nat),
{
    BigInt::from_slice(if value.negative { Sign::Minus } else { Sign::Plus }, &value.digits).bits()
}

} // verus!
