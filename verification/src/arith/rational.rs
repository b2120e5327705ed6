//! Rational numbers, for the point that back-substitution through the
//! elimination produces: comparison, the floor and the ceiling, and the
//! quotient of two integers.

use crate::arith::form::{gcd, lemma_divides_abs};
use crate::integer::{divides, times, Integer};
use vstd::prelude::*;

verus! {

/// `numerator / denominator`, reduced by the greatest common divisor, with
/// a positive denominator.
pub struct Rational {
    numerator: Integer,
    denominator: Integer,
}

/// Dividing two numbers by a greatest common divisor leaves them no common
/// divisor above one, whatever the signs.
proof fn lemma_lowest(e: int, n: int, d: int, g: int, t: int, b: int)
    requires
        e > 1,
        g > 0,
        t * g == n || -t * g == n,
        (b * g == d && (t * g == n)) || (-b * g == d && -t * g == n),
        forall|x: int| divides(x, n) && divides(x, d) ==> #[trigger] divides(x, g),
    ensures
        !(divides(e, t) && divides(e, b)),
{
    if divides(e, t) && divides(e, b) {
        let j = choose|j: int| t == times(e, j);
        let k = choose|k: int| b == times(e, k);
        let f = e * g;
        if t * g == n {
            assert(n == times(f, j)) by (nonlinear_arith)
                requires
                    t == e * j,
                    t * g == n,
                    f == e * g,
            ;
        } else {
            assert(n == times(f, -j)) by (nonlinear_arith)
                requires
                    t == e * j,
                    -t * g == n,
                    f == e * g,
            ;
        }
        if b * g == d {
            assert(d == times(f, k)) by (nonlinear_arith)
                requires
                    b == e * k,
                    b * g == d,
                    f == e * g,
            ;
        } else {
            assert(d == times(f, -k)) by (nonlinear_arith)
                requires
                    b == e * k,
                    -b * g == d,
                    f == e * g,
            ;
        }
        assert(divides(f, g));
        let m = choose|m: int| g == times(f, m);
        assert(false) by (nonlinear_arith)
            requires
                g == f * m,
                f == e * g,
                e > 1,
                g > 0,
        ;
    }
}

impl Rational {
    /// The numerator.
    pub closed spec fn num(&self) -> int {
        self.numerator@
    }

    /// The denominator, always positive.
    pub closed spec fn den(&self) -> int {
        self.denominator@
    }

    #[verifier::type_invariant]
    closed spec fn positive(&self) -> bool {
        self.denominator@ > 0
    }

    /// The integer `value`, as a rational.
    pub fn integer(value: Integer) -> (result: Rational)
        ensures
            result.num() == value@,
            result.den() == 1,
    {
        Rational { numerator: value, denominator: Integer::one() }
    }

    /// `numerator / denominator`; the denominator is not zero.
    pub fn new(numerator: Integer, denominator: Integer) -> (result: Rational)
        requires
            denominator@ != 0,
        ensures
            result.num() * denominator@ == numerator@ * result.den(),
            result.den() > 0,
            forall|e: int| e > 1 ==> !(divides(e, result.num()) && #[trigger] divides(e, result.den())),
    {
        let divisor = gcd(&numerator, &denominator);
        let mut top = numerator.div(&divisor);
        let mut bottom = denominator.div(&divisor);
        proof {
            let (n, d, g, t, b) = (numerator@, denominator@, divisor@, top@, bottom@);
            assert(t * g == n && b * g == d);
            assert(t * d == n * b) by (nonlinear_arith)
                requires
                    t * g == n,
                    b * g == d,
            ;
            assert(b != 0) by (nonlinear_arith)
                requires
                    b * g == d,
                    d != 0,
            ;
        }
        if bottom.is_negative() {
            top = top.neg();
            bottom = bottom.neg();
            proof {
                let (n, d, t, b) = (numerator@, denominator@, top@, bottom@);
                assert(t * d == n * b) by (nonlinear_arith)
                    requires
                        (-t) * d == n * (-b),
                ;
            }
        }
        proof {
            assert forall|e: int| e > 1 implies !(divides(e, top@) && #[trigger] divides(e, bottom@)) by {
                if divides(e, top@) && divides(e, bottom@) {
                    lemma_lowest(e, numerator@, denominator@, divisor@, top@, bottom@);
                }
            }
        }
        Rational { numerator: top, denominator: bottom }
    }

    /// The integer the rational is, when its denominator is one.
    pub fn as_integer(&self) -> (result: Option<&Integer>)
        ensures
            match result {
                Some(value) => self.den() == 1 && value@ == self.num(),
                None => self.den() != 1,
            },
    {
        if self.denominator.equals(&Integer::one()) {
            Some(&self.numerator)
        } else {
            None
        }
    }

    /// The greatest integer not above the rational.
    pub fn floor(&self) -> (result: Integer)
        ensures
            result@ * self.den() <= self.num() < (result@ + 1) * self.den(),
    {
        proof {
            use_type_invariant(self);
        }
        let (quotient, remainder) = self.numerator.div_rem(&self.denominator);
        let result = if remainder.is_negative() {
            quotient.sub(&Integer::one())
        } else {
            quotient
        };
        proof {
            let (n, d, q, r, f) = (self.num(), self.den(), quotient@, remainder@, result@);
            if r < 0 {
                assert(f * d <= n < (f + 1) * d) by (nonlinear_arith)
                    requires
                        n == q * d + r,
                        -d < r < 0,
                        f == q - 1,
                        d > 0,
                ;
            } else {
                assert(f * d <= n < (f + 1) * d) by (nonlinear_arith)
                    requires
                        n == q * d + r,
                        0 <= r < d,
                        f == q,
                        d > 0,
                ;
            }
        }
        result
    }

    /// The least integer not below the rational.
    pub fn ceiling(&self) -> (result: Integer)
        ensures
            (result@ - 1) * self.den() < self.num() <= result@ * self.den(),
    {
        proof {
            use_type_invariant(self);
        }
        let floor = self.floor();
        let (quotient, remainder) = self.numerator.div_rem(&self.denominator);
        if remainder.is_zero() {
            proof {
                let (n, d, f, q) = (self.num(), self.den(), floor@, quotient@);
                assert(f == q) by (nonlinear_arith)
                    requires
                        f * d <= n < (f + 1) * d,
                        n == q * d,
                        d > 0,
                ;
                assert((f - 1) * d < n <= f * d) by (nonlinear_arith)
                    requires
                        n == f * d,
                        d > 0,
                ;
            }
            floor
        } else {
            let result = floor.add(&Integer::one());
            proof {
                let (n, d, f, q, r) = (self.num(), self.den(), floor@, quotient@, remainder@);
                if n == f * d {
                    assert(r == (f - q) * d) by (nonlinear_arith)
                        requires
                            n == q * d + r,
                            n == f * d,
                    ;
                    if f - q != 0 {
                        assert(r >= d || r <= -d) by (nonlinear_arith)
                            requires
                                r == (f - q) * d,
                                f - q != 0,
                                d > 0,
                        ;
                    }
                }
                assert(f * d < n);
                assert(n < (f + 1) * d);
            }
            result
        }
    }

    /// A copy of the rational.
    pub fn copy(&self) -> (result: Rational)
        ensures
            result.num() == self.num(),
            result.den() == self.den(),
    {
        proof {
            use_type_invariant(self);
        }
        Rational { numerator: self.numerator.copy(), denominator: self.denominator.copy() }
    }

    /// Whether `self < other`.
    pub fn less_than(&self, other: &Rational) -> (result: bool)
        ensures
            result == (self.num() * other.den() < other.num() * self.den()),
    {
        self.numerator.mul(&other.denominator).compare(&other.numerator.mul(&self.denominator)) < 0
    }
}

} // verus!
