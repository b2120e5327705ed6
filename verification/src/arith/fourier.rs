//! Fourier-Motzkin elimination with the bookkeeping that turns a refutation
//! into a certificate, and the back-substitution that turns consistency
//! into a point.
//!
//! Every row carries its multipliers: the combination of the original
//! constraints it was derived from, so that a row's form is always exactly
//! the sum of those constraints' forms times those multipliers, with a
//! non-negative multiplier on every inequality. An equation with a
//! coefficient on an atom substitutes the atom out of every other row; with
//! no equation left, each pair of an inequality with a positive coefficient
//! and one with a negative coefficient is added, scaled by the other's
//! magnitude. A row that comes out with no atoms and a negative constant is
//! a refutation, and its multipliers are the certificate. Every combined row
//! is divided by the greatest common divisor of all its numbers, so that the
//! multipliers stay integers and nothing is rounded.

use crate::arith::form::{gcd, values, Form, Kind};
use crate::arith::linear::{
    at, coef, dot, eval, is_constant_view, is_scaled_sum, lemma_eval_constant, lemma_eval_scaled_sum,
    lemma_weighted_divided, lemma_weighted_linear, lemma_weighted_nonneg, weighted, FormView,
};
use crate::arith::form::satisfies;
use crate::arith::rational::Rational;
use crate::arith::{Budget, Spent};
use crate::integer::{abs, bit_count, divides, Integer};
use vstd::prelude::*;

verus! {

/// The values of the original constraints at a point.
pub open spec fn original_values(originals: Seq<(FormView, Kind)>, point: Seq<int>) -> Seq<int> {
    Seq::new(originals.len(), |i: int| eval(originals[i].0, point))
}

/// The sum of the original constraints' values times the weights.
pub open spec fn combined(originals: Seq<(FormView, Kind)>, weights: Seq<int>, point: Seq<int>) -> int {
    weighted(weights, original_values(originals, point), originals.len())
}

/// Whether a point satisfies every original constraint.
pub open spec fn satisfies_all(originals: Seq<(FormView, Kind)>, point: Seq<int>) -> bool {
    forall|i: int| 0 <= i < originals.len() ==> #[trigger] satisfies(originals[i].1, eval(originals[i].0, point))
}

/// Whether weights on the original constraints refute them: non-negative
/// on every inequality, and summing the constraints times the weights gives
/// the same negative constant at every point.
pub open spec fn refutes_all(originals: Seq<(FormView, Kind)>, certificate: Seq<int>) -> bool {
    &&& certificate.len() == originals.len()
    &&& forall|i: int| 0 <= i < certificate.len() && originals[i].1 == Kind::Inequality ==> #[trigger] certificate[i] >= 0
    &&& forall|point: Seq<int>| #[trigger] combined(originals, certificate, point) == combined(originals, certificate, Seq::empty())
    &&& combined(originals, certificate, Seq::empty()) < 0
}

/// Refutations are sound: no point satisfies constraints that a
/// certificate refutes.
pub proof fn lemma_refutation_sound(originals: Seq<(FormView, Kind)>, certificate: Seq<int>, point: Seq<int>)
    requires
        refutes_all(originals, certificate),
    ensures
        !satisfies_all(originals, point),
{
    if satisfies_all(originals, point) {
        let vals = original_values(originals, point);
        assert forall|i: int| 0 <= i < originals.len() implies #[trigger] at(vals, i) == 0 || (at(vals, i) > 0
            && at(certificate, i) >= 0) by {
            assert(satisfies(originals[i].1, eval(originals[i].0, point)));
        }
        lemma_weighted_nonneg(certificate, vals, originals.len());
        assert(combined(originals, certificate, point) == combined(originals, certificate, Seq::empty()));
    }
}

/// A constraint in the working set: its form, whether it is an inequality
/// or an equation, and the multipliers on the original constraints it came
/// from, one for each original.
pub struct Row {
    pub form: Form,
    pub kind: Kind,
    pub multipliers: Vec<Integer>,
}

impl Row {
    /// The form is the originals times the multipliers; an equation rests
    /// on equations alone, and an inequality uses every inequality with a
    /// non-negative multiplier.
    pub open spec fn derived_from(&self, originals: Seq<(FormView, Kind)>) -> bool {
        let ghost weights = values(self.multipliers@);
        &&& weights.len() == originals.len()
        &&& forall|point: Seq<int>| #[trigger] eval(self.form@, point) == combined(originals, weights, point)
        &&& forall|i: int| 0 <= i < weights.len() && originals[i].1 == Kind::Inequality ==> if self.kind
            == Kind::Equation {
            #[trigger] weights[i] == 0
        } else {
            weights[i] >= 0
        }
    }

    /// The row mentions no atom at or past `width`.
    pub open spec fn within(&self, width: nat) -> bool {
        self.form@.coefficients.len() <= width
    }

    /// An original constraint: the multiplier 1 on itself.
    pub fn original(index: usize, count: usize, form: Form, kind: Kind, Ghost(originals): Ghost<Seq<(FormView, Kind)>>) -> (result: Row)
        requires
            count == originals.len(),
            index < count,
            originals[index as int] == (form@, kind),
        ensures
            result.derived_from(originals),
            result.form@ == form@,
            result.kind == kind,
            values(result.multipliers@) == unit_weights(count as nat, index as int),
    {
        let mut multipliers: Vec<Integer> = Vec::new();
        while multipliers.len() < count
            invariant
                multipliers.len() <= count,
                forall|i: int| 0 <= i < multipliers.len() ==> #[trigger] multipliers@[i]@ == if i == index { 1int } else { 0int },
            decreases count - multipliers.len(),
        {
            if multipliers.len() == index {
                multipliers.push(Integer::one());
            } else {
                multipliers.push(Integer::zero());
            }
        }
        let result = Row { form, kind, multipliers };
        assert forall|point: Seq<int>| #[trigger] eval(result.form@, point) == combined(originals, values(result.multipliers@), point) by {
            lemma_weighted_unit(values(result.multipliers@), original_values(originals, point), index as int, count as nat);
        }
        assert(values(result.multipliers@) =~= unit_weights(count as nat, index as int));
        result
    }

    /// A copy of the row.
    pub fn copy(&self) -> (result: Row)
        ensures
            result.form@ == self.form@,
            result.kind == self.kind,
            values(result.multipliers@) == values(self.multipliers@),
    {
        Row { form: copy_form(&self.form), kind: self.kind, multipliers: copy_integers(&self.multipliers) }
    }

    /// `scale * self + other_scale * other`, in form and multipliers alike,
    /// divided by the greatest common divisor of everything.
    pub fn combine(&self, scale: &Integer, other: &Row, other_scale: &Integer, kind: Kind, Ghost(originals): Ghost<Seq<(FormView, Kind)>>) -> (result: Row)
        requires
            originals.len() > 0,
            self.derived_from(originals),
            other.derived_from(originals),
            scale@ > 0,
            other_scale@ >= 0 || other.kind == Kind::Equation,
            kind == Kind::Equation ==> self.kind == Kind::Equation && other.kind == Kind::Equation,
        ensures
            result.derived_from(originals),
            result.kind == kind,
            result.form@.coefficients.len() <= self.form@.coefficients.len()
                || result.form@.coefficients.len() <= other.form@.coefficients.len(),
            forall|a: int| #[trigger] coef(result.form@, a) == 0 <==> scale@ * coef(self.form@, a) + other_scale@ * coef(other.form@, a) == 0,
    {
        let mut form = Form::constant(Integer::zero());
        let ghost empty = form@;
        form.add_scaled(&self.form, scale);
        let ghost middle = form@;
        form.add_scaled(&other.form, other_scale);
        let n = self.multipliers.len();
        let mut multipliers: Vec<Integer> = Vec::new();
        while multipliers.len() < n
            invariant
                n == self.multipliers@.len(),
                n == other.multipliers@.len(),
                multipliers.len() <= n,
                forall|i: int| 0 <= i < multipliers.len() ==> #[trigger] multipliers@[i]@ == scale@ * self.multipliers@[i]@ + other_scale@ * other.multipliers@[i]@,
            decreases n - multipliers.len(),
        {
            let i = multipliers.len();
            let total = self.multipliers[i].mul(scale).add(&other.multipliers[i].mul(other_scale));
            proof {
                let (a, s, b, t) = (self.multipliers@[i as int]@, scale@, other.multipliers@[i as int]@, other_scale@);
                assert(a * s + b * t == s * a + t * b) by (nonlinear_arith);
            }
            multipliers.push(total);
        }
        let ghost weights = values(multipliers@);
        let ghost mine = values(self.multipliers@);
        let ghost theirs = values(other.multipliers@);
        proof {
            assert forall|point: Seq<int>| #[trigger] eval(form@, point) == combined(originals, weights, point) by {
                lemma_eval_scaled_sum(middle, empty, self.form@, scale@, point);
                lemma_eval_scaled_sum(form@, middle, other.form@, other_scale@, point);
                assert forall|i: int| 0 <= i < originals.len() implies #[trigger] at(weights, i) == scale@ * at(mine, i) + other_scale@ * at(theirs, i) by {}
                lemma_weighted_linear(weights, mine, scale@, theirs, other_scale@, original_values(originals, point), originals.len());
                lemma_eval_constant(empty, point);
            }
            assert forall|i: int| 0 <= i < weights.len() && originals[i].1 == Kind::Inequality implies if kind == Kind::Equation {
                #[trigger] weights[i] == 0
            } else {
                weights[i] >= 0
            } by {
                let (s, a, t, b) = (scale@, mine[i], other_scale@, theirs[i]);
                if a >= 0 && t >= 0 && b >= 0 {
                    assert(s * a + t * b >= 0) by (nonlinear_arith)
                        requires
                            s > 0,
                            a >= 0,
                            t >= 0,
                            b >= 0,
                    ;
                } else if a >= 0 && b == 0 {
                    assert(s * a + t * b >= 0) by (nonlinear_arith)
                        requires
                            s > 0,
                            a >= 0,
                            b == 0,
                    ;
                }
                if kind == Kind::Equation {
                    assert(a == 0 && b == 0);
                }
            }
            assert forall|a: int| #[trigger] coef(form@, a) == scale@ * coef(self.form@, a) + other_scale@ * coef(other.form@, a) by {
                assert(coef(empty, a) == 0);
            }
        }
        let mut row = Row { form, kind, multipliers };
        row.normalize(Ghost(originals));
        row
    }

    /// Divides everything by the greatest common divisor of everything.
    /// The multipliers are included, so they stay whole; the constant is
    /// included, so no rounding happens.
    pub fn normalize(&mut self, Ghost(originals): Ghost<Seq<(FormView, Kind)>>)
        requires
            originals.len() > 0,
            old(self).derived_from(originals),
        ensures
            final(self).derived_from(originals),
            final(self).kind == old(self).kind,
            final(self).form@.coefficients.len() == old(self).form@.coefficients.len(),
            forall|a: int| #[trigger] coef(final(self).form@, a) == 0 <==> coef(old(self).form@, a) == 0,
            exists|factor: int| factor > 0 && #[trigger] scaled_row(*final(self), *old(self), factor),
            !row_zero(*final(self)) ==> forall|d: int| d > 1 ==> !#[trigger] divides_row(d, *final(self)),
    {
        let ghost before = *self;
        let mut divisor = self.form.constant.copy();
        assert(self.form@.constant == crate::integer::times(divisor@, 1));
        let mut index: usize = 0;
        while index < self.form.coefficients.len()
            invariant
                *self == before,
                index <= self.form.coefficients@.len(),
                divisor@ >= 0 || index == 0,
                divisor@ == 0 ==> self.form@.constant == 0 && forall|a: int| 0 <= a < index ==> #[trigger] coef(self.form@, a) == 0,
                divides(divisor@, self.form@.constant),
                forall|a: int| 0 <= a < index ==> divides(divisor@, #[trigger] coef(self.form@, a)),
                forall|d: int|
                    divides(d, self.form@.constant) && (forall|a: int|
                        0 <= a < index ==> divides(d, #[trigger] coef(self.form@, a))) ==> #[trigger] divides(
                        d,
                        divisor@,
                    ),
            decreases self.form.coefficients.len() - index,
        {
            let next = gcd(&divisor, &self.form.coefficients[index]);
            proof {
                assert forall|d: int|
                    divides(d, self.form@.constant) && (forall|a: int|
                        0 <= a < index + 1 ==> divides(d, #[trigger] coef(self.form@, a))) implies #[trigger] divides(
                        d,
                        next@,
                    ) by {
                    assert(divides(d, coef(self.form@, index as int)));
                    assert(coef(self.form@, index as int) == self.form.coefficients@[index as int]@);
                    assert(divides(d, divisor@));
                }
                crate::arith::form::lemma_divides_transitive(next@, divisor@, self.form@.constant);
                assert forall|a: int| 0 <= a < index + 1 implies divides(next@, #[trigger] coef(self.form@, a)) by {
                    if a < index {
                        crate::arith::form::lemma_divides_transitive(next@, divisor@, coef(self.form@, a));
                    }
                }
            }
            divisor = next;
            index += 1;
        }
        assert forall|a: int| #[trigger] divides(divisor@, coef(self.form@, a)) by {
            if !(0 <= a < self.form@.coefficients.len()) {
                assert(0 == crate::integer::times(divisor@, 0));
            }
        }
        let mut index: usize = 0;
        while index < self.multipliers.len()
            invariant
                *self == before,
                index <= self.multipliers@.len(),
                divisor@ >= 0 || (index == 0 && self.form@.coefficients.len() == 0),
                divisor@ == 0 ==> self.form@.constant == 0 && (forall|a: int| #[trigger] coef(self.form@, a) == 0)
                    && forall|i: int| 0 <= i < index ==> #[trigger] self.multipliers@[i]@ == 0,
                divides(divisor@, self.form@.constant),
                forall|a: int| #[trigger] divides(divisor@, coef(self.form@, a)),
                forall|i: int| 0 <= i < index ==> divides(divisor@, #[trigger] self.multipliers@[i]@),
                forall|d: int|
                    divides(d, self.form@.constant) && (forall|a: int|
                        0 <= a < self.form@.coefficients.len() ==> divides(d, #[trigger] coef(self.form@, a))) && (
                    forall|i: int| 0 <= i < index ==> divides(d, (#[trigger] self.multipliers@[i])@)) ==> #[trigger] divides(
                        d,
                        divisor@,
                    ),
            decreases self.multipliers.len() - index,
        {
            proof {
                assert forall|a: int| #[trigger] divides(divisor@, coef(self.form@, a)) by {
                    if !(0 <= a < self.form@.coefficients.len()) {
                        assert(0 == crate::integer::times(divisor@, 0));
                    }
                }
            }
            let next = gcd(&divisor, &self.multipliers[index]);
            proof {
                crate::arith::form::lemma_divides_transitive(next@, divisor@, self.form@.constant);
                assert forall|a: int| #[trigger] divides(next@, coef(self.form@, a)) by {
                    crate::arith::form::lemma_divides_transitive(next@, divisor@, coef(self.form@, a));
                }
                assert forall|i: int| 0 <= i < index + 1 implies divides(next@, #[trigger] self.multipliers@[i]@) by {
                    if i < index {
                        crate::arith::form::lemma_divides_transitive(next@, divisor@, self.multipliers@[i]@);
                    }
                }
            }
            divisor = next;
            index += 1;
        }
        if divisor.is_zero() || divisor.equals(&Integer::one()) {
            proof {
                lemma_normal_unchanged(*self, divisor@);
            }
            return;
        }
        self.divide(&divisor, Ghost(originals));
        proof {
            lemma_normal_divided(*self, before, divisor@);
        }
    }

    /// Divides every number of the row by a positive common divisor.
    fn divide(&mut self, divisor: &Integer, Ghost(originals): Ghost<Seq<(FormView, Kind)>>)
        requires
            old(self).derived_from(originals),
            divisor@ > 0,
            divides(divisor@, old(self).form@.constant),
            forall|a: int| #[trigger] divides(divisor@, coef(old(self).form@, a)),
            forall|i: int| 0 <= i < old(self).multipliers@.len() ==> divides(divisor@, #[trigger] old(self).multipliers@[i]@),
        ensures
            final(self).derived_from(originals),
            final(self).kind == old(self).kind,
            final(self).form@.coefficients.len() == old(self).form@.coefficients.len(),
            forall|a: int| #[trigger] coef(final(self).form@, a) == 0 <==> coef(old(self).form@, a) == 0,
            divisor@ * final(self).form@.constant == old(self).form@.constant,
            forall|a: int| divisor@ * #[trigger] coef(final(self).form@, a) == coef(old(self).form@, a),
            final(self).multipliers@.len() == old(self).multipliers@.len(),
            forall|i: int|
                0 <= i < final(self).multipliers@.len() ==> divisor@ * (#[trigger] final(self).multipliers@[i])@
                    == old(self).multipliers@[i]@,
    {
        let ghost before = *self;
        let constant = self.form.constant.div(divisor);
        let mut coefficients: Vec<Integer> = Vec::new();
        while coefficients.len() < self.form.coefficients.len()
            invariant
                *self == before,
                divisor@ > 0,
                forall|a: int| #[trigger] divides(divisor@, coef(before.form@, a)),
                coefficients.len() <= self.form.coefficients@.len(),
                forall|i: int| 0 <= i < coefficients.len() ==> #[trigger] coefficients@[i]@ * divisor@ == self.form.coefficients@[i]@,
            decreases self.form.coefficients.len() - coefficients.len(),
        {
            let i = coefficients.len();
            proof {
                assert(coef(self.form@, i as int) == self.form.coefficients@[i as int]@);
            }
            coefficients.push(self.form.coefficients[i].div(divisor));
        }
        let mut multipliers: Vec<Integer> = Vec::new();
        while multipliers.len() < self.multipliers.len()
            invariant
                *self == before,
                divisor@ > 0,
                forall|i: int| 0 <= i < before.multipliers@.len() ==> divides(divisor@, #[trigger] before.multipliers@[i]@),
                multipliers.len() <= self.multipliers@.len(),
                forall|i: int| 0 <= i < multipliers.len() ==> #[trigger] multipliers@[i]@ * divisor@ == self.multipliers@[i]@,
            decreases self.multipliers.len() - multipliers.len(),
        {
            let i = multipliers.len();
            multipliers.push(self.multipliers[i].div(divisor));
        }
        let form = Form { constant, coefficients };
        let ghost zero = FormView { constant: 0, coefficients: Seq::empty() };
        let ghost old_weights = values(self.multipliers@);
        let ghost weights = values(multipliers@);
        proof {
            let d = divisor@;
            assert forall|a: int| #[trigger] coef(before.form@, a) == coef(zero, a) + d * coef(form@, a) by {
                if 0 <= a < form@.coefficients.len() {
                    let (x, y) = (form@.coefficients[a], before.form@.coefficients[a]);
                    assert(y == d * x) by (nonlinear_arith)
                        requires
                            x * d == y,
                    ;
                }
            }
            assert(before.form@.constant == d * form@.constant) by (nonlinear_arith)
                requires
                    form@.constant * d == before.form@.constant,
            ;
            assert forall|point: Seq<int>| #[trigger] eval(form@, point) == combined(originals, weights, point) by {
                lemma_eval_scaled_sum(before.form@, zero, form@, d, point);
                lemma_eval_constant(zero, point);
                assert forall|i: int| 0 <= i < originals.len() implies #[trigger] at(old_weights, i) == d * at(weights, i) by {
                    let (x, y) = (weights[i], old_weights[i]);
                    assert(y == d * x) by (nonlinear_arith)
                        requires
                            x * d == y,
                    ;
                }
                lemma_weighted_divided(weights, old_weights, d, original_values(originals, point), originals.len());
                let (e, w) = (eval(form@, point), combined(originals, weights, point));
                assert(e == w) by (nonlinear_arith)
                    requires
                        d * e == d * w,
                        d > 0,
                ;
            }
            assert forall|i: int| 0 <= i < weights.len() && originals[i].1 == Kind::Inequality implies if before.kind == Kind::Equation {
                #[trigger] weights[i] == 0
            } else {
                weights[i] >= 0
            } by {
                let (x, y) = (weights[i], old_weights[i]);
                assert((y == 0 ==> x == 0) && (y >= 0 ==> x >= 0)) by (nonlinear_arith)
                    requires
                        x * d == y,
                        d > 0,
                ;
            }
            assert forall|a: int| #[trigger] coef(form@, a) == 0 <==> coef(before.form@, a) == 0 by {
                let (x, y) = (coef(form@, a), coef(before.form@, a));
                assert(y == d * x);
                assert((x == 0) == (y == 0)) by (nonlinear_arith)
                    requires
                        y == d * x,
                        d > 0,
                ;
            }
        }
        proof {
            let d = divisor@;
            assert forall|i: int| 0 <= i < multipliers@.len() implies d * (#[trigger] multipliers@[i])@
                == before.multipliers@[i]@ by {
                let (x, y) = (multipliers@[i]@, before.multipliers@[i]@);
                assert(d * x == y) by (nonlinear_arith)
                    requires
                        x * d == y,
                ;
            }
            assert forall|a: int| d * #[trigger] coef(form@, a) == coef(before.form@, a) by {
                assert(coef(before.form@, a) == coef(zero, a) + d * coef(form@, a));
            }
        }
        self.form = form;
        self.multipliers = multipliers;
    }

    /// The most bits in any number of the row.
    pub fn bits(&self) -> (result: u64)
        ensures
            bit_count(abs(self.form@.constant) as nat) <= result,
            forall|a: int| bit_count(abs(#[trigger] coef(self.form@, a)) as nat) <= result,
            forall|i: int| 0 <= i < self.multipliers@.len() ==> bit_count(abs(#[trigger] self.multipliers@[i]@) as nat) <= result,
    {
        let mut most = self.form.constant.bit_length();
        let mut index: usize = 0;
        while index < self.form.coefficients.len()
            invariant
                index <= self.form.coefficients@.len(),
                bit_count(abs(self.form@.constant) as nat) <= most,
                forall|a: int| 0 <= a < index ==> bit_count(abs(#[trigger] coef(self.form@, a)) as nat) <= most,
            decreases self.form.coefficients.len() - index,
        {
            let bits = self.form.coefficients[index].bit_length();
            if bits > most {
                most = bits;
            }
            index += 1;
        }
        proof {
            assert(bit_count(0) == 0);
        }
        let mut index: usize = 0;
        while index < self.multipliers.len()
            invariant
                index <= self.multipliers@.len(),
                bit_count(abs(self.form@.constant) as nat) <= most,
                forall|a: int| 0 <= a < self.form@.coefficients.len() ==> bit_count(abs(#[trigger] coef(self.form@, a)) as nat) <= most,
                forall|i: int| 0 <= i < index ==> bit_count(abs(#[trigger] self.multipliers@[i]@) as nat) <= most,
            decreases self.multipliers.len() - index,
        {
            let bits = self.multipliers[index].bit_length();
            if bits > most {
                most = bits;
            }
            index += 1;
        }
        assert forall|a: int| bit_count(abs(#[trigger] coef(self.form@, a)) as nat) <= most by {
            if !(0 <= a < self.form@.coefficients.len()) {
                assert(bit_count(0) == 0);
            }
        }
        most
    }

    /// Whether the row, with no atoms left, refutes its own origins: an
    /// inequality with a negative constant, or an equation with a non-zero
    /// one.
    pub fn refutes(&self) -> (result: bool)
        ensures
            result == (is_constant_view(self.form@) && match self.kind {
                Kind::Inequality => self.form@.constant < 0,
                Kind::Equation => self.form@.constant != 0,
            }),
    {
        self.form.is_constant() && match self.kind {
            Kind::Inequality => self.form.constant.is_negative(),
            Kind::Equation => !self.form.constant.is_zero(),
        }
    }

    /// The certificate of a refuting row: its multipliers, negated for an
    /// equation whose constant is positive.
    pub fn certificate(&self, Ghost(originals): Ghost<Seq<(FormView, Kind)>>) -> (result: Vec<Integer>)
        requires
            self.derived_from(originals),
            is_constant_view(self.form@),
            self.kind == Kind::Inequality ==> self.form@.constant < 0,
            self.kind == Kind::Equation ==> self.form@.constant != 0,
        ensures
            refutes_all(originals, values(result@)),
            self.kind == Kind::Inequality ==> values(result@) == values(self.multipliers@),
    {
        let ghost weights = values(self.multipliers@);
        assert forall|point: Seq<int>| #[trigger] combined(originals, weights, point) == self.form@.constant by {
            lemma_eval_constant(self.form@, point);
        }
        assert(combined(originals, weights, Seq::empty()) == self.form@.constant);
        if self.kind == Kind::Equation && !self.form.constant.is_negative() {
            let mut negated: Vec<Integer> = Vec::new();
            while negated.len() < self.multipliers.len()
                invariant
                    negated.len() <= self.multipliers@.len(),
                    forall|i: int| 0 <= i < negated.len() ==> #[trigger] negated@[i]@ == -self.multipliers@[i]@,
                decreases self.multipliers.len() - negated.len(),
            {
                negated.push(self.multipliers[negated.len()].neg());
            }
            let ghost result = values(negated@);
            assert forall|point: Seq<int>| #[trigger] combined(originals, result, point) == -self.form@.constant by {
                assert(combined(originals, weights, point) == self.form@.constant);
                assert forall|i: int| 0 <= i < originals.len() implies #[trigger] at(result, i) == -1 * at(weights, i) + 0 * at(weights, i) by {}
                lemma_weighted_linear(result, weights, -1, weights, 0, original_values(originals, point), originals.len());
            }
            assert(combined(originals, result, Seq::empty()) == -self.form@.constant);
            assert forall|i: int| 0 <= i < result.len() && originals[i].1 == Kind::Inequality implies #[trigger] result[i] >= 0 by {
                assert(weights[i] == 0);
            }
            negated
        } else {
            let copied = copy_integers(&self.multipliers);
            assert forall|i: int| 0 <= i < weights.len() && originals[i].1 == Kind::Inequality implies #[trigger] weights[i] >= 0 by {
                assert(weights[i] == 0 || weights[i] >= 0);
            }
            copied
        }
    }
}

/// The weights of one original row among `count`: 1 on it, 0 elsewhere.
pub open spec fn unit_weights(count: nat, index: int) -> Seq<int> {
    Seq::new(count, |i: int| if i == index { 1int } else { 0int })
}

/// Whether an outcome refutes with the certificate of the first row that
/// refutes on its own.
pub open spec fn refuted_first(outcome: Outcome, rows: Seq<Row>) -> bool {
    match outcome {
        Outcome::Refuted(certificate) => first_refutation(rows, values(certificate@)),
        _ => false,
    }
}

/// Whether a certificate is that of the first row that refutes on its own:
/// the row's multipliers, for an inequality.
pub open spec fn first_refutation(rows: Seq<Row>, certificate: Seq<int>) -> bool {
    exists|i: int|
        0 <= i < rows.len() && #[trigger] row_refutes(rows[i]) && (forall|k: int| 0 <= k < i ==> !row_refutes(rows[k]))
            && (rows[i].kind == Kind::Inequality ==> certificate == values(rows[i].multipliers@))
}

proof fn lemma_weighted_unit(weights: Seq<int>, vals: Seq<int>, index: int, n: nat)
    requires
        weights.len() == n,
        vals.len() == n,
        0 <= index < n,
        forall|i: int| 0 <= i < n ==> #[trigger] weights[i] == if i == index { 1int } else { 0int },
    ensures
        weighted(weights, vals, n) == vals[index],
{
    lemma_weighted_unit_prefix(weights, vals, index, n);
}

proof fn lemma_weighted_unit_prefix(weights: Seq<int>, vals: Seq<int>, index: int, k: nat)
    requires
        k <= weights.len(),
        weights.len() == vals.len(),
        0 <= index < weights.len(),
        forall|i: int| 0 <= i < weights.len() ==> #[trigger] weights[i] == if i == index { 1int } else { 0int },
    ensures
        weighted(weights, vals, k) == if index < k { vals[index] } else { 0 },
    decreases k,
{
    if k > 0 {
        lemma_weighted_unit_prefix(weights, vals, index, (k - 1) as nat);
    }
}

/// A copy of each integer.
pub fn copy_integers(integers: &Vec<Integer>) -> (result: Vec<Integer>)
    ensures
        values(result@) == values(integers@),
{
    let mut result: Vec<Integer> = Vec::new();
    while result.len() < integers.len()
        invariant
            result.len() <= integers@.len(),
            forall|i: int| 0 <= i < result.len() ==> #[trigger] result@[i]@ == integers@[i]@,
        decreases integers.len() - result.len(),
    {
        result.push(integers[result.len()].copy());
    }
    assert(values(result@) =~= values(integers@));
    result
}

/// A copy of a form.
pub fn copy_form(form: &Form) -> (result: Form)
    ensures
        result@ == form@,
{
    Form { constant: form.constant.copy(), coefficients: copy_integers(&form.coefficients) }
}

/// Every row is derived from the originals.
pub open spec fn rows_derived(rows: Seq<Row>, originals: Seq<(FormView, Kind)>) -> bool {
    forall|i: int| 0 <= i < rows.len() ==> #[trigger] rows[i].derived_from(originals)
}

/// Every row mentions only atoms below `width`.
pub open spec fn rows_within(rows: Seq<Row>, width: nat) -> bool {
    forall|i: int| 0 <= i < rows.len() ==> #[trigger] rows[i].within(width)
}

/// The rows just before one atom was eliminated.
pub struct Stage {
    pub atom: usize,
    pub rows: Vec<Row>,
}

/// Every stage eliminated an atom below `width`, from rows within it.
pub open spec fn stages_within(stages: Seq<Stage>, width: nat) -> bool {
    forall|i: int| 0 <= i < stages.len() ==> #[trigger] stages[i].atom < width && rows_within(stages[i].rows@, width)
}

/// How an elimination ended.
pub enum Outcome {
    /// The rows are contradictory, and these multipliers on the original
    /// constraints show it.
    Refuted(Vec<Integer>),
    /// Every atom was eliminated and no contradiction appeared: the rows
    /// are satisfiable over the rationals. The stages, in the order of
    /// elimination, give a point by `point`.
    Consistent(Vec<Stage>),
    /// A count ran out.
    Budget { name: &'static str, limit: usize },
}

/// Whether a number divides every number of a row: its constant, its
/// coefficients and its multipliers.
pub open spec fn divides_row(divisor: int, row: Row) -> bool {
    &&& divides(divisor, row.form@.constant)
    &&& forall|a: int| 0 <= a < row.form@.coefficients.len() ==> divides(divisor, #[trigger] coef(row.form@, a))
    &&& forall|i: int| 0 <= i < row.multipliers@.len() ==> divides(divisor, (#[trigger] row.multipliers@[i])@)
}

/// Whether every number of a row is zero.
pub open spec fn row_zero(row: Row) -> bool {
    &&& row.form@.constant == 0
    &&& forall|a: int| 0 <= a < row.form@.coefficients.len() ==> #[trigger] coef(row.form@, a) == 0
    &&& forall|i: int| 0 <= i < row.multipliers@.len() ==> (#[trigger] row.multipliers@[i])@ == 0
}

/// Whether one row is another times a factor, number by number.
pub open spec fn scaled_row(small: Row, large: Row, factor: int) -> bool {
    &&& factor * small.form@.constant == large.form@.constant
    &&& small.form@.coefficients.len() == large.form@.coefficients.len()
    &&& forall|a: int| factor * #[trigger] coef(small.form@, a) == coef(large.form@, a)
    &&& small.multipliers@.len() == large.multipliers@.len()
    &&& forall|i: int|
        0 <= i < small.multipliers@.len() ==> factor * (#[trigger] small.multipliers@[i])@ == large.multipliers@[i]@
}

/// A row whose common divisors all divide zero or one is, unless all zero,
/// divisible by no number above one; it is itself times one.
proof fn lemma_normal_unchanged(row: Row, divisor: int)
    requires
        divisor == 0 || divisor == 1,
        divisor == 0 ==> row_zero(row),
        forall|d: int| #[trigger] divides_row(d, row) ==> divides(d, divisor),
    ensures
        scaled_row(row, row, 1),
        !row_zero(row) ==> forall|d: int| d > 1 ==> !#[trigger] divides_row(d, row),
{
    assert forall|d: int| d > 1 && #[trigger] divides_row(d, row) implies row_zero(row) by {
        if divisor == 1 {
            assert(divides(d, 1));
            let k = choose|k: int| 1 == crate::integer::times(d, k);
            assert(false) by (nonlinear_arith)
                requires
                    1 == d * k,
                    d > 1,
            ;
        }
    }
}

/// A row divided by its greatest common divisor is divisible by no
/// number above one, unless all zero.
proof fn lemma_normal_divided(row: Row, before: Row, divisor: int)
    requires
        divisor > 1,
        scaled_row(row, before, divisor),
        forall|d: int| #[trigger] divides_row(d, before) ==> divides(d, divisor),
    ensures
        !row_zero(row) ==> forall|d: int| d > 1 ==> !#[trigger] divides_row(d, row),
{
    assert forall|d: int| d > 1 && #[trigger] divides_row(d, row) implies false by {
        let e = d * divisor;
        assert(divides(e, before.form@.constant)) by {
            let k = choose|k: int| row.form@.constant == crate::integer::times(d, k);
            assert(before.form@.constant == crate::integer::times(e, k)) by (nonlinear_arith)
                requires
                    row.form@.constant == d * k,
                    before.form@.constant == divisor * row.form@.constant,
                    e == d * divisor,
            ;
        }
        assert forall|a: int| 0 <= a < before.form@.coefficients.len() implies divides(e, #[trigger] coef(before.form@, a)) by {
            let k = choose|k: int| coef(row.form@, a) == crate::integer::times(d, k);
            let (x, y) = (coef(row.form@, a), coef(before.form@, a));
            assert(y == crate::integer::times(e, k)) by (nonlinear_arith)
                requires
                    x == d * k,
                    y == divisor * x,
                    e == d * divisor,
            ;
        }
        assert forall|i: int| 0 <= i < before.multipliers@.len() implies divides(e, (#[trigger] before.multipliers@[i])@) by {
            let k = choose|k: int| row.multipliers@[i]@ == crate::integer::times(d, k);
            let (x, y) = (row.multipliers@[i]@, before.multipliers@[i]@);
            assert(y == crate::integer::times(e, k)) by (nonlinear_arith)
                requires
                    x == d * k,
                    y == divisor * x,
                    e == d * divisor,
            ;
        }
        assert(divides_row(e, before));
        assert(divides(e, divisor));
        let m = choose|m: int| divisor == crate::integer::times(e, m);
        assert(false) by (nonlinear_arith)
            requires
                divisor == e * m,
                e == d * divisor,
                d > 1,
                divisor > 1,
        ;
    }
}

/// Whether a row is a constant contradiction: a negative constant that
/// must be at least zero, or a non-zero one that must be zero.
pub open spec fn row_refutes(row: Row) -> bool {
    is_constant_view(row.form@) && match row.kind {
        Kind::Inequality => row.form@.constant < 0,
        Kind::Equation => row.form@.constant != 0,
    }
}

/// What an outcome promises: a refutation's multipliers refute the
/// originals, and the stages of a consistent outcome stay within the atoms.
pub open spec fn outcome_sound(outcome: Outcome, originals: Seq<(FormView, Kind)>, width: nat) -> bool {
    match outcome {
        Outcome::Refuted(certificate) => refutes_all(originals, values(certificate@)),
        Outcome::Consistent(stages) => stages_within(stages@, width),
        Outcome::Budget { .. } => true,
    }
}

/// A copy of every row.
pub fn copy_rows(rows: &Vec<Row>) -> (result: Vec<Row>)
    ensures
        result@.len() == rows@.len(),
        forall|i: int| 0 <= i < rows@.len() ==> (#[trigger] result@[i]).form@ == rows@[i].form@ && result@[i].kind
            == rows@[i].kind && values(result@[i].multipliers@) == values(rows@[i].multipliers@),
{
    let mut result: Vec<Row> = Vec::new();
    while result.len() < rows.len()
        invariant
            result.len() <= rows@.len(),
            forall|i: int| 0 <= i < result@.len() ==> (#[trigger] result@[i]).form@ == rows@[i].form@ && result@[i].kind
                == rows@[i].kind && values(result@[i].multipliers@) == values(rows@[i].multipliers@),
        decreases rows.len() - result.len(),
    {
        result.push(rows[result.len()].copy());
    }
    result
}

/// Removes the rows with no atoms, ending at the first that refutes, and
/// the later duplicates of a form, which add nothing. Returns the outcome
/// when the elimination is over.
#[verifier::spinoff_prover]
#[verifier::rlimit(80)]
fn settle(rows: &mut Vec<Row>, stages: &mut Vec<Stage>, Ghost(originals): Ghost<Seq<(FormView, Kind)>>, Ghost(width): Ghost<nat>) -> (result: Option<Outcome>)
    requires
        rows_derived(old(rows)@, originals),
        rows_within(old(rows)@, width),
        stages_within(old(stages)@, width),
    ensures
        result matches Some(Outcome::Refuted(_)) <==> exists|i: int|
            0 <= i < old(rows)@.len() && #[trigger] row_refutes(old(rows)@[i]),
        result matches Some(Outcome::Consistent(kept)) <==> (forall|i: int|
            0 <= i < old(rows)@.len() ==> is_constant_view((#[trigger] old(rows)@[i]).form@) && !row_refutes(
                old(rows)@[i],
            )),
        result matches Some(Outcome::Consistent(kept)) ==> kept@ == old(stages)@,
        result matches Some(Outcome::Refuted(certificate)) ==> first_refutation(old(rows)@, values(certificate@)),
        !(result matches Some(Outcome::Budget { .. })),
        result is None ==> forall|j: int|
            0 <= j < final(rows)@.len() ==> !is_constant_view((#[trigger] final(rows)@[j]).form@) && exists|i: int|
                0 <= i < old(rows)@.len() && old(rows)@[i].form@ == final(rows)@[j].form@ && old(rows)@[i].kind
                    == final(rows)@[j].kind,
        result is None ==> forall|i: int| 0 <= i < old(rows)@.len() ==> accounted(#[trigger] old(rows)@[i], final(rows)@),
        match result {
            Some(outcome) => outcome_sound(outcome, originals, width),
            None => {
                &&& rows_derived(final(rows)@, originals)
                &&& rows_within(final(rows)@, width)
                &&& final(stages)@ == old(stages)@
                &&& final(rows)@.len() > 0
            },
        },
{
    let mut kept: Vec<Row> = Vec::new();
    let mut index: usize = 0;
    while index < rows.len()
        invariant
            index <= rows@.len(),
            rows_derived(rows@, originals),
            rows_within(rows@, width),
            rows_derived(kept@, originals),
            rows_within(kept@, width),
            stages_within(stages@, width),
            *rows == *old(rows),
            *stages == *old(stages),
            forall|i: int| 0 <= i < index ==> !#[trigger] row_refutes(rows@[i]),
            kept@.len() == 0 <==> forall|i: int| 0 <= i < index ==> is_constant_view((#[trigger] rows@[i]).form@),
            forall|j: int|
                0 <= j < kept@.len() ==> !is_constant_view((#[trigger] kept@[j]).form@) && exists|i: int|
                    0 <= i < index && rows@[i].form@ == kept@[j].form@ && rows@[i].kind == kept@[j].kind,
            forall|i: int| 0 <= i < index ==> accounted(#[trigger] rows@[i], kept@),
        decreases rows.len() - index,
    {
        assert(rows@[index as int].derived_from(originals));
        if rows[index].refutes() {
            assert(row_refutes(rows@[index as int]));
            let certificate = rows[index].certificate(Ghost(originals));
            assert(first_refutation(rows@, values(certificate@)));
            return Some(Outcome::Refuted(certificate));
        }
        if !rows[index].form.is_constant() {
            let mut duplicate = false;
            let mut known: usize = 0;
            while known < kept.len()
                invariant
                    known <= kept@.len(),
                    index < rows@.len(),
                    duplicate ==> kept@.len() > 0,
                    duplicate ==> accounted(rows@[index as int], kept@),
                decreases kept.len() - known,
            {
                if kept[known].kind == rows[index].kind && kept[known].form.same_form(&rows[index].form) {
                    proof {
                        lemma_accounted_alike(rows@[index as int], kept@, known as int);
                    }
                    duplicate = true;
                }
                known += 1;
            }
            if !duplicate {
                let copy = rows[index].copy();
                let ghost copy_view = copy;
                assert(rows@[index as int].within(width));
                let ghost before = kept@;
                kept.push(copy);
                assert forall|j: int|
                    0 <= j < kept@.len() implies !is_constant_view((#[trigger] kept@[j]).form@) && exists|i: int|
                        0 <= i < index + 1 && rows@[i].form@ == kept@[j].form@ && rows@[i].kind == kept@[j].kind by {
                    if j < before.len() {
                        assert(kept@[j] == before[j]);
                    } else {
                        assert(rows@[index as int].form@ == kept@[j].form@);
                    }
                }
                proof {
                    assert(alike(rows@[index as int], kept@[before.len() as int]));
                    lemma_accounted_alike(rows@[index as int], kept@, before.len() as int);
                    assert forall|i: int| 0 <= i < index implies accounted(#[trigger] rows@[i], kept@) by {
                        lemma_accounted_push(rows@[i], before, copy_view);
                    }
                }
            }
        } else {
            proof {
                lemma_accounted_vacuous(rows@[index as int], kept@);
            }
        }
        assert(!row_refutes(rows@[index as int]));
        index += 1;
    }
    *rows = kept;
    if rows.len() == 0 {
        let mut taken: Vec<Stage> = Vec::new();
        std::mem::swap(&mut taken, stages);
        return Some(Outcome::Consistent(taken));
    }
    None
}

/// The first equation that still has an atom.
fn first_equation_with_atoms(rows: &Vec<Row>) -> (result: Option<usize>)
    ensures
        match result {
            Some(at) => at < rows@.len() && rows@[at as int].kind == Kind::Equation && !is_constant_view(rows@[at as int].form@),
            None => forall|i: int| 0 <= i < rows@.len() && (#[trigger] rows@[i]).kind == Kind::Equation ==> is_constant_view(rows@[i].form@),
        },
{
    let mut index: usize = 0;
    while index < rows.len()
        invariant
            index <= rows@.len(),
            forall|i: int| 0 <= i < index && (#[trigger] rows@[i]).kind == Kind::Equation ==> is_constant_view(rows@[i].form@),
        decreases rows.len() - index,
    {
        if rows[index].kind == Kind::Equation && !rows[index].form.is_constant() {
            return Some(index);
        }
        index += 1;
    }
    None
}

/// The atom with the smallest coefficient in magnitude, the lowest index
/// among equals: the choice keeps the scaling small and fixed.
fn smallest_coefficient(form: &Form) -> (result: (usize, Integer))
    requires
        !is_constant_view(form@),
    ensures
        result.0 < form@.coefficients.len(),
        result.1@ == coef(form@, result.0 as int),
        result.1@ != 0,
        forall|b: int| #[trigger] coef(form@, b) != 0 ==> abs(result.1@) < abs(coef(form@, b)) || (abs(result.1@)
            == abs(coef(form@, b)) && result.0 <= b),
{
    let mut best: Option<(usize, Integer)> = None;
    let mut index: usize = 0;
    while index < form.coefficients.len()
        invariant
            index <= form@.coefficients.len(),
            match best {
                Some((at, value)) => at < index && value@ == coef(form@, at as int) && value@ != 0 && forall|b: int|
                    0 <= b < index && #[trigger] coef(form@, b) != 0 ==> abs(value@) < abs(coef(form@, b)) || (abs(value@)
                        == abs(coef(form@, b)) && at <= b),
                None => forall|b: int| 0 <= b < index ==> #[trigger] coef(form@, b) == 0,
            },
        decreases form.coefficients.len() - index,
    {
        let value = form.coefficients[index].copy();
        if !value.is_zero() {
            let better = match &best {
                Some((_, known)) => value.magnitude().compare(&known.magnitude()) < 0,
                None => true,
            };
            if better {
                best = Some((index, value));
            }
        }
        index += 1;
    }
    match best {
        Some(found) => found,
        None => {
            assert(is_constant_view(form@));
            (0, Integer::zero())
        },
    }
}

/// The number of rows with a positive, and with a negative, coefficient on
/// an atom.
pub open spec fn signs(rows: Seq<Row>, atom: int) -> (nat, nat)
    decreases rows.len(),
{
    if rows.len() == 0 {
        (0, 0)
    } else {
        let (positive, negative) = signs(rows.drop_last(), atom);
        let c = coef(rows.last().form@, atom);
        if c > 0 {
            (positive + 1, negative)
        } else if c < 0 {
            (positive, negative + 1)
        } else {
            (positive, negative)
        }
    }
}

/// The number of rows its elimination makes: positive times negative.
pub open spec fn cost(rows: Seq<Row>, atom: int) -> nat {
    signs(rows, atom).0 * signs(rows, atom).1
}

/// Whether some row has a coefficient on the atom.
pub open spec fn mentioned(rows: Seq<Row>, atom: int) -> bool {
    signs(rows, atom).0 + signs(rows, atom).1 > 0
}

/// The atom whose elimination makes the fewest new rows, the lowest index
/// among equals. An atom with no positive or no negative coefficient costs
/// nothing: the rows that mention it are simply dropped.
fn cheapest_atom(rows: &Vec<Row>, Ghost(width): Ghost<nat>) -> (result: Option<usize>)
    requires
        rows_within(rows@, width),
        width <= usize::MAX,
    ensures
        match result {
            Some(atom) => atom < width && mentioned(rows@, atom as int) && forall|b: int|
                #[trigger] mentioned(rows@, b) ==> cost(rows@, atom as int) < cost(rows@, b) || (cost(rows@, atom as int)
                    == cost(rows@, b) && atom <= b),
            None => forall|b: int| !#[trigger] mentioned(rows@, b),
        },
{
    let mut longest: usize = 0;
    let mut index: usize = 0;
    while index < rows.len()
        invariant
            index <= rows@.len(),
            longest <= width,
            rows_within(rows@, width),
            forall|i: int| 0 <= i < index ==> (#[trigger] rows@[i]).form@.coefficients.len() <= longest,
        decreases rows.len() - index,
    {
        assert(rows@[index as int].within(width));
        if rows[index].form.coefficients.len() > longest {
            longest = rows[index].form.coefficients.len();
        }
        index += 1;
    }
    proof {
        assert forall|b: int| !(0 <= b < longest) implies !#[trigger] mentioned(rows@, b) by {
            lemma_signs_beyond(rows@, b, longest as nat);
        }
    }
    let mut best: Option<(usize, u128)> = None;
    let mut atom: usize = 0;
    let total = rows.len();
    while atom < longest
        invariant
            total == rows@.len(),
            atom <= longest,
            longest <= width,
            forall|b: int| !(0 <= b < longest) ==> !#[trigger] mentioned(rows@, b),
            match best {
                Some((found, found_cost)) => found < atom && found_cost == cost(rows@, found as int) && mentioned(rows@, found as int)
                    && forall|b: int| 0 <= b < atom && #[trigger] mentioned(rows@, b) ==> cost(rows@, found as int) < cost(rows@, b)
                        || (cost(rows@, found as int) == cost(rows@, b) && found <= b),
                None => forall|b: int| 0 <= b < atom ==> !#[trigger] mentioned(rows@, b),
            },
        decreases longest - atom,
    {
        let (positive, negative) = count_signs(rows, atom);
        proof {
            let m = usize::MAX as int;
            assert(positive * negative <= m * m) by (nonlinear_arith)
                requires
                    positive + negative <= m,
                    positive >= 0,
                    negative >= 0,
            ;
            assert(m * m < 0x1_0000_0000_0000_0000_0000_0000_0000_0000) by (nonlinear_arith)
                requires
                    m <= 0xffff_ffff_ffff_ffff,
                    m >= 0,
            ;
        }
        if positive + negative > 0 {
            let here = positive * negative;
            let better = match best {
                Some((_, found_cost)) => here < found_cost,
                None => true,
            };
            if better {
                best = Some((atom, here));
            }
        }
        atom += 1;
    }
    match best {
        Some((found, _)) => Some(found),
        None => None,
    }
}

proof fn lemma_signs_beyond(rows: Seq<Row>, atom: int, longest: nat)
    requires
        !(0 <= atom < longest),
        forall|i: int| 0 <= i < rows.len() ==> (#[trigger] rows[i]).form@.coefficients.len() <= longest,
    ensures
        signs(rows, atom) == (0nat, 0nat),
    decreases rows.len(),
{
    if rows.len() > 0 {
        assert forall|i: int| 0 <= i < rows.drop_last().len() implies (#[trigger] rows.drop_last()[i]).form@.coefficients.len() <= longest by {
            assert(rows.drop_last()[i] == rows[i]);
        }
        lemma_signs_beyond(rows.drop_last(), atom, longest);
        assert(rows.last() == rows[rows.len() - 1]);
    }
}

/// The counts of positive and negative coefficients on an atom, widened so
/// that their product cannot overflow.
fn count_signs(rows: &Vec<Row>, atom: usize) -> (result: (u128, u128))
    ensures
        result.0 == signs(rows@, atom as int).0,
        result.1 == signs(rows@, atom as int).1,
        result.0 + result.1 <= rows@.len(),
{
    let mut positive: u128 = 0;
    let mut negative: u128 = 0;
    let mut index: usize = 0;
    while index < rows.len()
        invariant
            index <= rows@.len(),
            positive == signs(rows@.subrange(0, index as int), atom as int).0,
            negative == signs(rows@.subrange(0, index as int), atom as int).1,
            positive + negative <= index,
        decreases rows.len() - index,
    {
        let c = rows[index].form.coefficient(atom);
        proof {
            let next = rows@.subrange(0, index + 1);
            assert(next.drop_last() =~= rows@.subrange(0, index as int));
            assert(next.last() == rows@[index as int]);
        }
        if c.is_negative() {
            negative += 1;
        } else if !c.is_zero() {
            positive += 1;
        }
        index += 1;
    }
    assert(rows@.subrange(0, rows@.len() as int) =~= rows@);
    (positive, negative)
}

/// Eliminates every atom from `rows`, or stops at a refutation or a budget.
/// Each stage of a consistent outcome cost one elimination.
pub fn eliminate(initial: Vec<Row>, budget: &Budget, spent: &mut Spent, Ghost(originals): Ghost<Seq<(FormView, Kind)>>, Ghost(width): Ghost<nat>) -> (outcome: Outcome)
    requires
        width <= usize::MAX,
        rows_derived(initial@, originals),
        rows_within(initial@, width),
    ensures
        outcome_sound(outcome, originals, width),
        final(spent).branches == old(spent).branches,
        spent_kept(*old(spent), *final(spent), *budget),
        refuting(initial@) ==> outcome is Refuted,
        refuting(initial@) ==> refuted_first(outcome, initial@),
        consistent_ordered(outcome),
        consistent_chained(outcome, initial@),
        settled(initial@) ==> (outcome matches Outcome::Consistent(stages) && stages@.len() == 0),
        outcome matches Outcome::Consistent(stages) ==> final(spent).eliminations == old(spent).eliminations
            + stages@.len(),
        (outcome matches Outcome::Budget { name, .. } && name == "eliminations") ==> final(spent).eliminations
            >= budget.eliminations,
        outcome matches Outcome::Budget { name, limit } ==> (name == "eliminations" && limit == budget.eliminations) || (name == "derived" && limit == budget.derived)
            || (name == "bits" && limit == budget.bits),
{
    let ghost input = initial@;
    let mut rows = initial;
    let mut stages: Vec<Stage> = Vec::new();
    proof {
        assert forall|i: int| 0 <= i < input.len() implies accounted(#[trigger] input[i], input) by {
            lemma_accounted_alike(input[i], input, i);
        }
        assert(covered_to(input, stages@, input));
    }
    if let Some(outcome) = settle(&mut rows, &mut stages, Ghost(originals), Ghost(width)) {
        proof {
            if outcome is Consistent {
                lemma_chain_ends(input, Seq::empty(), input);
            }
        }
        return outcome;
    }
    proof {
        lemma_cover_through(input, Seq::empty(), input, rows@);
    }
    proof {
        // A row derived from no constraint is zero everywhere, so constant:
        // with rows left that are not constant, there are constraints.
        if originals.len() == 0 {
            let row = rows@[0];
            assert(row.derived_from(originals));
            assert forall|point: Seq<int>| #[trigger] eval(row.form@, point) == 0 by {
                assert(combined(originals, values(row.multipliers@), point) == 0);
            }
            lemma_zero_constant(row.form@);
        }
    }
    // Equations first: each removes one atom exactly, at the cost of one
    // combination per row that mentions the atom.
    loop
        invariant
            spent.eliminations == old(spent).eliminations + stages@.len(),
            originals.len() > 0,
            width <= usize::MAX,
            rows_derived(rows@, originals),
            rows_within(rows@, width),
            stages_within(stages@, width),
            spent.branches == old(spent).branches,
            spent_kept(*old(spent), *spent, *budget),
            !refuting(input),
            !settled(input),
            input == initial@,
            ordered(stages@),
            clear_of(rows@, stages@),
            chained_to(stages@, rows@),
            covered_to(input, stages@, rows@),
            rows@.len() > 0,
            forall|j: int| 0 <= j < rows@.len() ==> !is_constant_view((#[trigger] rows@[j]).form@),
        decreases budget.eliminations - spent.eliminations,
    {
        let at = match first_equation_with_atoms(&rows) {
            Some(at) => at,
            None => break,
        };
        assert(rows@[at as int].derived_from(originals) && rows@[at as int].within(width));
        let (atom, coefficient) = smallest_coefficient(&rows[at].form);
        if spent.eliminations >= budget.eliminations {
            return Outcome::Budget { name: "eliminations", limit: budget.eliminations };
        }
        spent.eliminations += 1;
        let snapshot = copy_rows(&rows);
        proof {
            assert forall|i: int| 0 <= i < snapshot@.len() implies #[trigger] snapshot@[i].within(width) by {
                assert(rows@[i].within(width));
            }
        }
        let ghost old_stages = stages@;
        let ghost old_rows = rows@;
        proof {
            assert forall|t: int| 0 <= t < old_stages.len() implies (#[trigger] old_stages[t]).atom != atom by {
                assert(coef(rows@[at as int].form@, old_stages[t].atom as int) == 0);
            }
            assert forall|i: int, t: int| 0 <= i < snapshot@.len() && 0 <= t < old_stages.len() implies coef(
                #[trigger] snapshot@[i].form@,
                (#[trigger] old_stages[t]).atom as int,
            ) == 0 by {
                assert(coef(rows@[i].form@, old_stages[t].atom as int) == 0);
            }
            lemma_ordered_push(old_stages, Stage { atom, rows: snapshot });
            lemma_copies_accounted(rows@, snapshot@);
            lemma_chain_through(old_stages, rows@, snapshot@);
            lemma_cover_through(input, old_stages, rows@, snapshot@);
        }
        let ghost snapshot_v = snapshot@;
        stages.push(Stage { atom, rows: snapshot });
        let ghost new_stages = stages@;
        let equation = rows.remove(at);
        proof {
            assert(equation == old_rows[at as int]);
            assert forall|i: int, t: int| 0 <= i < rows@.len() && 0 <= t < old_stages.len() implies coef(
                #[trigger] rows@[i].form@,
                (#[trigger] old_stages[t]).atom as int,
            ) == 0 by {
                if i < at {
                    assert(rows@[i] == old_rows[i]);
                } else {
                    assert(rows@[i] == old_rows[i + 1]);
                }
                assert(coef(old_rows[if i < at { i } else { i + 1 }].form@, old_stages[t].atom as int) == 0);
            }
        }
        let magnitude = coefficient.magnitude();
        let sign = if coefficient.is_negative() {
            Integer::minus_one()
        } else {
            Integer::one()
        };
        let mut next: Vec<Row> = Vec::new();
        let mut index: usize = 0;
        let ghost eliminations = spent.eliminations;
        while index < rows.len()
            invariant
                spent.eliminations == eliminations,
                spent.branches == old(spent).branches,
            spent_kept(*old(spent), *spent, *budget),
            !refuting(input),
            !settled(input),
            input == initial@,
                originals.len() > 0,
                index <= rows@.len(),
                rows_derived(rows@, originals),
                rows_within(rows@, width),
                rows_derived(next@, originals),
                rows_within(next@, width),
                equation.derived_from(originals),
                equation.within(width),
                equation.kind == Kind::Equation,
                magnitude@ > 0,
                stages@ == new_stages,
                ordered(new_stages),
                new_stages == old_stages.push(new_stages.last()),
                new_stages.last().atom == atom,
                clear_of(rows@, old_stages),
                clear_of(next@, new_stages),
                forall|t: int| 0 <= t < old_stages.len() ==> coef(equation.form@, (#[trigger] old_stages[t]).atom as int) == 0,
                coefficient@ == coef(equation.form@, atom as int),
                coefficient@ != 0,
                magnitude@ == abs(coefficient@),
                sign@ == (if coefficient@ < 0 { -1int } else { 1int }),
                chained_to(old_stages, snapshot_v),
                covered_to(input, old_stages, snapshot_v),
                new_stages.last().rows@ == snapshot_v,
                snapshot_v.len() == old_rows.len(),
                forall|r: int| 0 <= r < old_rows.len() ==> (#[trigger] snapshot_v[r]).form@ == old_rows[r].form@
                    && snapshot_v[r].kind == old_rows[r].kind,
                rows@ == old_rows.remove(at as int),
                0 <= at < old_rows.len(),
                forall|k: int| 0 <= k < index && coef((#[trigger] rows@[k]).form@, atom as int) == 0 ==> accounted(rows@[k], next@),
            decreases rows.len() - index,
        {
            assert(rows@[index as int].derived_from(originals) && rows@[index as int].within(width));
            let b = rows[index].form.coefficient(atom);
            let ghost before_next = next@;
            let ghost row_v = rows@[index as int];
            if b.is_zero() {
                next.push(rows[index].copy());
                proof {
                    assert forall|t: int| 0 <= t < new_stages.len() implies coef(
                        next@[before_next.len() as int].form@,
                        (#[trigger] new_stages[t]).atom as int,
                    ) == 0 by {
                        if t < old_stages.len() {
                            assert(new_stages[t] == old_stages[t]);
                            assert(coef(row_v.form@, old_stages[t].atom as int) == 0);
                        }
                    }
                }
            } else {
                if spent.derived >= budget.derived {
                    return Outcome::Budget { name: "derived", limit: budget.derived };
                }
                spent.derived += 1;
                let scale = sign.mul(&b).neg();
                let combined = rows[index].combine(&magnitude, &equation, &scale, rows[index].kind, Ghost(originals));
                if combined.bits() > budget.bits as u64 {
                    return Outcome::Budget { name: "bits", limit: budget.bits };
                }
                proof {
                    assert forall|t: int| 0 <= t < new_stages.len() implies coef(
                        combined.form@,
                        (#[trigger] new_stages[t]).atom as int,
                    ) == 0 by {
                        let x = new_stages[t].atom as int;
                        if t < old_stages.len() {
                            assert(new_stages[t] == old_stages[t]);
                            assert(coef(row_v.form@, x) == 0);
                            assert(coef(equation.form@, x) == 0);
                            lemma_combination_clear(magnitude@, coef(row_v.form@, x), scale@, coef(equation.form@, x));
                        } else {
                            assert(x == atom);
                            lemma_equation_cancels(coefficient@, b@, sign@);
                        }
                    }
                }
                next.push(combined);
            }
            proof {
                assert forall|i: int, t: int| 0 <= i < next@.len() && 0 <= t < new_stages.len() implies coef(
                    #[trigger] next@[i].form@,
                    (#[trigger] new_stages[t]).atom as int,
                ) == 0 by {
                    if i < before_next.len() {
                        assert(next@[i] == before_next[i]);
                    }
                }
                assert(next@ == before_next.push(next@.last()));
                assert forall|k: int| 0 <= k < index + 1 && coef((#[trigger] rows@[k]).form@, atom as int) == 0 implies accounted(
                    rows@[k],
                    next@,
                ) by {
                    if k < index {
                        lemma_accounted_push(rows@[k], before_next, next@.last());
                    } else {
                        assert(b@ == 0);
                        assert(alike(rows@[k], next@[before_next.len() as int]));
                        lemma_accounted_alike(rows@[k], next@, before_next.len() as int);
                    }
                }
            }
            index += 1;
        }
        proof {
            let last = new_stages.last();
            assert forall|r: int|
                0 <= r < last.rows@.len() && coef((#[trigger] last.rows@[r]).form@, last.atom as int) == 0 implies accounted(
                last.rows@[r],
                next@,
            ) by {
                assert(last.rows@[r] == snapshot_v[r]);
                if r == at {
                    assert(coef(old_rows[r].form@, atom as int) == coefficient@);
                } else {
                    let k = if r < at { r } else { r - 1 };
                    assert(rows@[k] == old_rows[r]);
                    assert(coef(rows@[k].form@, atom as int) == 0);
                    assert(accounted(rows@[k], next@));
                    assert(alike(snapshot_v[r], rows@[k]));
                    lemma_accounted_alike(snapshot_v[r], seq![rows@[k]], 0);
                    lemma_accounted_through(snapshot_v[r], seq![rows@[k]], next@);
                }
            }
            assert(new_stages == old_stages.push(last));
            lemma_chain_push(old_stages, last, next@);
            lemma_cover_push(input, old_stages, last, next@);
        }
        rows = next;
        let ghost settled_from = rows@;
        let ghost stages_before = stages@;
        if let Some(outcome) = settle(&mut rows, &mut stages, Ghost(originals), Ghost(width)) {
            proof {
                if outcome is Consistent {
                    lemma_chain_ends(input, stages_before, settled_from);
                }
            }
            return outcome;
        }
        proof {
            lemma_clear_kept(settled_from, rows@, stages@);
            lemma_chain_through(stages@, settled_from, rows@);
            lemma_cover_through(input, stages@, settled_from, rows@);
        }
    }
    // Then the inequalities, one atom at a time.
    loop
        invariant
            spent.eliminations == old(spent).eliminations + stages@.len(),
            originals.len() > 0,
            width <= usize::MAX,
            rows_derived(rows@, originals),
            rows_within(rows@, width),
            stages_within(stages@, width),
            spent.branches == old(spent).branches,
            spent_kept(*old(spent), *spent, *budget),
            !refuting(input),
            !settled(input),
            input == initial@,
            ordered(stages@),
            clear_of(rows@, stages@),
            chained_to(stages@, rows@),
            covered_to(input, stages@, rows@),
            rows@.len() > 0,
            forall|j: int| 0 <= j < rows@.len() ==> !is_constant_view((#[trigger] rows@[j]).form@),
        decreases budget.eliminations - spent.eliminations,
    {
        let atom = match cheapest_atom(&rows, Ghost(width)) {
            Some(atom) => atom,
            None => {
                proof {
                    assert forall|x: int| #[trigger] coef(rows@[0].form@, x) == 0 by {
                        assert(!mentioned(rows@, x));
                        lemma_signs_zero(rows@, x);
                    }
                    assert(!is_constant_view(rows@[0].form@));
                }
                return Outcome::Consistent(stages);
            },
        };
        if spent.eliminations >= budget.eliminations {
            return Outcome::Budget { name: "eliminations", limit: budget.eliminations };
        }
        spent.eliminations += 1;
        let snapshot = copy_rows(&rows);
        proof {
            assert forall|i: int| 0 <= i < snapshot@.len() implies #[trigger] snapshot@[i].within(width) by {
                assert(rows@[i].within(width));
            }
        }
        let ghost old_stages = stages@;
        proof {
            assert forall|t: int| 0 <= t < old_stages.len() implies (#[trigger] old_stages[t]).atom != atom by {
                if old_stages[t].atom == atom {
                    assert forall|i: int| 0 <= i < rows@.len() implies coef(#[trigger] rows@[i].form@, atom as int) == 0 by {
                        assert(coef(rows@[i].form@, old_stages[t].atom as int) == 0);
                    }
                    lemma_unmentioned(rows@, atom as int);
                }
            }
            assert forall|i: int, t: int| 0 <= i < snapshot@.len() && 0 <= t < old_stages.len() implies coef(
                #[trigger] snapshot@[i].form@,
                (#[trigger] old_stages[t]).atom as int,
            ) == 0 by {
                assert(coef(rows@[i].form@, old_stages[t].atom as int) == 0);
            }
            lemma_ordered_push(old_stages, Stage { atom, rows: snapshot });
            lemma_copies_accounted(rows@, snapshot@);
            lemma_chain_through(old_stages, rows@, snapshot@);
            lemma_cover_through(input, old_stages, rows@, snapshot@);
        }
        let ghost snapshot_v = snapshot@;
        stages.push(Stage { atom, rows: snapshot });
        let ghost new_stages = stages@;
        let mut positive: Vec<(Row, Integer)> = Vec::new();
        let mut negative: Vec<(Row, Integer)> = Vec::new();
        let mut rest: Vec<Row> = Vec::new();
        let mut index: usize = 0;
        while index < rows.len()
            invariant
                index <= rows@.len(),
                rows_derived(rows@, originals),
                rows_within(rows@, width),
                rows_derived(rest@, originals),
                rows_within(rest@, width),
                forall|i: int| 0 <= i < positive@.len() ==> (#[trigger] positive@[i]).0.derived_from(originals)
                    && positive@[i].0.within(width) && positive@[i].1@ > 0,
                forall|i: int| 0 <= i < negative@.len() ==> (#[trigger] negative@[i]).0.derived_from(originals)
                    && negative@[i].0.within(width) && negative@[i].1@ > 0,
                stages@ == new_stages,
                new_stages == old_stages.push(new_stages.last()),
                new_stages.last().atom == atom,
                clear_of(rows@, old_stages),
                clear_of(rest@, new_stages),
                forall|k: int, t: int|
                    0 <= k < positive@.len() && 0 <= t < old_stages.len() ==> coef(
                        (#[trigger] positive@[k]).0.form@,
                        (#[trigger] old_stages[t]).atom as int,
                    ) == 0,
                forall|k: int| 0 <= k < positive@.len() ==> coef((#[trigger] positive@[k]).0.form@, atom as int) == positive@[k].1@,
                forall|k: int, t: int|
                    0 <= k < negative@.len() && 0 <= t < old_stages.len() ==> coef(
                        (#[trigger] negative@[k]).0.form@,
                        (#[trigger] old_stages[t]).atom as int,
                    ) == 0,
                forall|k: int| 0 <= k < negative@.len() ==> coef((#[trigger] negative@[k]).0.form@, atom as int) == -negative@[k].1@,
                chained_to(old_stages, snapshot_v),
                covered_to(input, old_stages, snapshot_v),
                new_stages.last().rows@ == snapshot_v,
                snapshot_v.len() == rows@.len(),
                forall|r: int| 0 <= r < rows@.len() ==> (#[trigger] snapshot_v[r]).form@ == rows@[r].form@
                    && snapshot_v[r].kind == rows@[r].kind,
                forall|k: int| 0 <= k < index && coef((#[trigger] rows@[k]).form@, atom as int) == 0 ==> accounted(rows@[k], rest@),
            decreases rows.len() - index,
        {
            let ghost before_rest = rest@;
            let ghost before_positive = positive@;
            let ghost before_negative = negative@;
            let ghost row_v = rows@[index as int];
            assert(rows@[index as int].derived_from(originals) && rows@[index as int].within(width));
            let coefficient = rows[index].form.coefficient(atom);
            if coefficient.is_zero() {
                rest.push(rows[index].copy());
            } else if coefficient.is_negative() {
                negative.push((rows[index].copy(), coefficient.magnitude()));
            } else {
                positive.push((rows[index].copy(), coefficient));
            }
            proof {
                assert forall|t: int| 0 <= t < old_stages.len() implies coef(row_v.form@, (#[trigger] old_stages[t]).atom as int) == 0 by {
                    assert(coef(rows@[index as int].form@, old_stages[t].atom as int) == 0);
                }
                assert forall|i: int, t: int| 0 <= i < rest@.len() && 0 <= t < new_stages.len() implies coef(
                    #[trigger] rest@[i].form@,
                    (#[trigger] new_stages[t]).atom as int,
                ) == 0 by {
                    if i < before_rest.len() {
                        assert(rest@[i] == before_rest[i]);
                    } else if t < old_stages.len() {
                        assert(new_stages[t] == old_stages[t]);
                    }
                }
                assert forall|k: int, t: int|
                    0 <= k < positive@.len() && 0 <= t < old_stages.len() implies coef(
                        (#[trigger] positive@[k]).0.form@,
                        (#[trigger] old_stages[t]).atom as int,
                    ) == 0 by {
                    if k < before_positive.len() {
                        assert(positive@[k] == before_positive[k]);
                    }
                }
                assert forall|k: int| 0 <= k < positive@.len() implies coef((#[trigger] positive@[k]).0.form@, atom as int)
                    == positive@[k].1@ by {
                    if k < before_positive.len() {
                        assert(positive@[k] == before_positive[k]);
                    }
                }
                assert forall|k: int, t: int|
                    0 <= k < negative@.len() && 0 <= t < old_stages.len() implies coef(
                        (#[trigger] negative@[k]).0.form@,
                        (#[trigger] old_stages[t]).atom as int,
                    ) == 0 by {
                    if k < before_negative.len() {
                        assert(negative@[k] == before_negative[k]);
                    }
                }
                assert forall|k: int| 0 <= k < negative@.len() implies coef((#[trigger] negative@[k]).0.form@, atom as int)
                    == -negative@[k].1@ by {
                    if k < before_negative.len() {
                        assert(negative@[k] == before_negative[k]);
                    }
                }
                assert forall|k: int| 0 <= k < index + 1 && coef((#[trigger] rows@[k]).form@, atom as int) == 0 implies accounted(
                    rows@[k],
                    rest@,
                ) by {
                    if k < index {
                        if rest@.len() > before_rest.len() {
                            assert(rest@ == before_rest.push(rest@.last()));
                            lemma_accounted_push(rows@[k], before_rest, rest@.last());
                        } else {
                            assert(rest@ == before_rest);
                        }
                    } else {
                        assert(alike(rows@[k], rest@[before_rest.len() as int]));
                        lemma_accounted_alike(rows@[k], rest@, before_rest.len() as int);
                    }
                }
            }
            index += 1;
        }
        // |n| p + |p| n has no atom left where p has coefficient |p| > 0 and
        // n has coefficient -|n| < 0, and both multipliers are positive.
        if spent.derived > budget.derived {
            return Outcome::Budget { name: "derived", limit: budget.derived };
        }
        let room = budget.derived - spent.derived;
        let positive_count = positive.len();
        let negative_count = negative.len();
        proof {
            let (p, q, m) = (positive_count as int, negative_count as int, usize::MAX as int);
            assert(p * q <= m * m) by (nonlinear_arith)
                requires
                    0 <= p <= m,
                    0 <= q <= m,
            ;
            assert(m * m < 0x1_0000_0000_0000_0000_0000_0000_0000_0000) by (nonlinear_arith)
                requires
                    0 <= m <= 0xffff_ffff_ffff_ffff,
            ;
        }
        let pairs = (positive_count as u128) * (negative_count as u128);
        if pairs > room as u128 {
            return Outcome::Budget { name: "derived", limit: budget.derived };
        }
        spent.derived = spent.derived + pairs as usize;
        let mut i: usize = 0;
        let ghost eliminations = spent.eliminations;
        while i < positive.len()
            invariant
                spent.eliminations == eliminations,
                spent.branches == old(spent).branches,
            spent_kept(*old(spent), *spent, *budget),
            !refuting(input),
            !settled(input),
            input == initial@,
                originals.len() > 0,
                i <= positive@.len(),
                rows_derived(rest@, originals),
                rows_within(rest@, width),
                forall|k: int| 0 <= k < positive@.len() ==> (#[trigger] positive@[k]).0.derived_from(originals)
                    && positive@[k].0.within(width) && positive@[k].1@ > 0,
                forall|k: int| 0 <= k < negative@.len() ==> (#[trigger] negative@[k]).0.derived_from(originals)
                    && negative@[k].0.within(width) && negative@[k].1@ > 0,
                stages@ == new_stages,
                new_stages == old_stages.push(new_stages.last()),
                new_stages.last().atom == atom,
                clear_of(rest@, new_stages),
                forall|k: int, t: int|
                    0 <= k < positive@.len() && 0 <= t < old_stages.len() ==> coef(
                        (#[trigger] positive@[k]).0.form@,
                        (#[trigger] old_stages[t]).atom as int,
                    ) == 0,
                forall|k: int| 0 <= k < positive@.len() ==> coef((#[trigger] positive@[k]).0.form@, atom as int) == positive@[k].1@,
                forall|k: int, t: int|
                    0 <= k < negative@.len() && 0 <= t < old_stages.len() ==> coef(
                        (#[trigger] negative@[k]).0.form@,
                        (#[trigger] old_stages[t]).atom as int,
                    ) == 0,
                forall|k: int| 0 <= k < negative@.len() ==> coef((#[trigger] negative@[k]).0.form@, atom as int) == -negative@[k].1@,
                chained_to(old_stages, snapshot_v),
                covered_to(input, old_stages, snapshot_v),
                new_stages.last().rows@ == snapshot_v,
                snapshot_v.len() == rows@.len(),
                forall|r: int| 0 <= r < rows@.len() ==> (#[trigger] snapshot_v[r]).form@ == rows@[r].form@
                    && snapshot_v[r].kind == rows@[r].kind,
                forall|k: int| 0 <= k < rows@.len() && coef((#[trigger] rows@[k]).form@, atom as int) == 0 ==> accounted(rows@[k], rest@),
            decreases positive.len() - i,
        {
            let mut j: usize = 0;
            while j < negative.len()
                invariant
                    spent.eliminations == eliminations,
                    spent.branches == old(spent).branches,
            spent_kept(*old(spent), *spent, *budget),
            !refuting(input),
            !settled(input),
            input == initial@,
                    originals.len() > 0,
                    i < positive@.len(),
                    j <= negative@.len(),
                    rows_derived(rest@, originals),
                    rows_within(rest@, width),
                    forall|k: int| 0 <= k < positive@.len() ==> (#[trigger] positive@[k]).0.derived_from(originals)
                        && positive@[k].0.within(width) && positive@[k].1@ > 0,
                    forall|k: int| 0 <= k < negative@.len() ==> (#[trigger] negative@[k]).0.derived_from(originals)
                        && negative@[k].0.within(width) && negative@[k].1@ > 0,
                    stages@ == new_stages,
                    new_stages == old_stages.push(new_stages.last()),
                    new_stages.last().atom == atom,
                    clear_of(rest@, new_stages),
                    forall|k: int, t: int|
                        0 <= k < positive@.len() && 0 <= t < old_stages.len() ==> coef(
                            (#[trigger] positive@[k]).0.form@,
                            (#[trigger] old_stages[t]).atom as int,
                        ) == 0,
                    forall|k: int| 0 <= k < positive@.len() ==> coef((#[trigger] positive@[k]).0.form@, atom as int)
                        == positive@[k].1@,
                    forall|k: int, t: int|
                        0 <= k < negative@.len() && 0 <= t < old_stages.len() ==> coef(
                            (#[trigger] negative@[k]).0.form@,
                            (#[trigger] old_stages[t]).atom as int,
                        ) == 0,
                    forall|k: int| 0 <= k < negative@.len() ==> coef((#[trigger] negative@[k]).0.form@, atom as int)
                        == -negative@[k].1@,
                    chained_to(old_stages, snapshot_v),
                    covered_to(input, old_stages, snapshot_v),
                    new_stages.last().rows@ == snapshot_v,
                    snapshot_v.len() == rows@.len(),
                    forall|r: int| 0 <= r < rows@.len() ==> (#[trigger] snapshot_v[r]).form@ == rows@[r].form@
                        && snapshot_v[r].kind == rows@[r].kind,
                    forall|k: int| 0 <= k < rows@.len() && coef((#[trigger] rows@[k]).form@, atom as int) == 0 ==> accounted(
                        rows@[k],
                        rest@,
                    ),
                decreases negative.len() - j,
            {
                assert(positive@[i as int].0.derived_from(originals));
                assert(negative@[j as int].0.derived_from(originals));
                let combined = positive[i].0.combine(&negative[j].1, &negative[j].0, &positive[i].1, Kind::Inequality, Ghost(originals));
                if combined.bits() > budget.bits as u64 {
                    return Outcome::Budget { name: "bits", limit: budget.bits };
                }
                let ghost before_rest = rest@;
                proof {
                    let p_row = positive@[i as int];
                    let n_row = negative@[j as int];
                    assert forall|t: int| 0 <= t < new_stages.len() implies coef(
                        combined.form@,
                        (#[trigger] new_stages[t]).atom as int,
                    ) == 0 by {
                        let x = new_stages[t].atom as int;
                        if t < old_stages.len() {
                            assert(new_stages[t] == old_stages[t]);
                            assert(coef(p_row.0.form@, x) == 0);
                            assert(coef(n_row.0.form@, x) == 0);
                            lemma_combination_clear(n_row.1@, coef(p_row.0.form@, x), p_row.1@, coef(n_row.0.form@, x));
                        } else {
                            assert(x == atom);
                            lemma_pair_cancels(p_row.1@, n_row.1@);
                        }
                    }
                }
                rest.push(combined);
                proof {
                    assert forall|k: int, t: int| 0 <= k < rest@.len() && 0 <= t < new_stages.len() implies coef(
                        #[trigger] rest@[k].form@,
                        (#[trigger] new_stages[t]).atom as int,
                    ) == 0 by {
                        if k < before_rest.len() {
                            assert(rest@[k] == before_rest[k]);
                        }
                    }
                    assert(rest@ == before_rest.push(rest@.last()));
                    assert forall|k: int| 0 <= k < rows@.len() && coef((#[trigger] rows@[k]).form@, atom as int) == 0 implies accounted(
                        rows@[k],
                        rest@,
                    ) by {
                        lemma_accounted_push(rows@[k], before_rest, rest@.last());
                    }
                }
                j += 1;
            }
            i += 1;
        }
        proof {
            let last = new_stages.last();
            assert forall|r: int|
                0 <= r < last.rows@.len() && coef((#[trigger] last.rows@[r]).form@, last.atom as int) == 0 implies accounted(
                last.rows@[r],
                rest@,
            ) by {
                assert(last.rows@[r] == snapshot_v[r]);
                assert(coef(rows@[r].form@, atom as int) == 0);
                assert(alike(snapshot_v[r], rows@[r]));
                lemma_accounted_alike(snapshot_v[r], seq![rows@[r]], 0);
                lemma_accounted_through(snapshot_v[r], seq![rows@[r]], rest@);
            }
            assert(new_stages == old_stages.push(last));
            lemma_chain_push(old_stages, last, rest@);
            lemma_cover_push(input, old_stages, last, rest@);
        }
        rows = rest;
        let ghost settled_from = rows@;
        let ghost stages_before = stages@;
        if let Some(outcome) = settle(&mut rows, &mut stages, Ghost(originals), Ghost(width)) {
            proof {
                if outcome is Consistent {
                    lemma_chain_ends(input, stages_before, settled_from);
                }
            }
            return outcome;
        }
        proof {
            lemma_clear_kept(settled_from, rows@, stages@);
            lemma_chain_through(stages@, settled_from, rows@);
            lemma_cover_through(input, stages@, settled_from, rows@);
        }
    }
}

/// The point that is one at an atom and zero elsewhere.
pub open spec fn unit_point(atom: int, length: nat) -> Seq<int> {
    Seq::new(length, |i: int| if i == atom { 1int } else { 0int })
}

/// A form's dot product with a unit point is the atom's coefficient, once
/// the atom is counted.
proof fn lemma_dot_unit(form: FormView, atom: int, length: nat, n: nat)
    requires
        0 <= atom < length,
        n <= length,
    ensures
        dot(form, unit_point(atom, length), n) == if atom < n { coef(form, atom) } else { 0 },
    decreases n,
{
    if n > 0 {
        lemma_dot_unit(form, atom, length, (n - 1) as nat);
        let point = unit_point(atom, length);
        assert(at(point, n - 1) == if n - 1 == atom { 1int } else { 0int });
    }
}

/// A form that is zero at every point is constant.
proof fn lemma_zero_constant(form: FormView)
    requires
        forall|point: Seq<int>| #[trigger] eval(form, point) == 0,
    ensures
        is_constant_view(form),
{
    assert forall|a: int| #[trigger] coef(form, a) == 0 by {
        if 0 <= a < form.coefficients.len() {
            let n = form.coefficients.len();
            lemma_dot_unit(form, a, n, n);
            let zero = Seq::new(n, |i: int| 0int);
            assert(eval(form, zero) == 0);
            assert(eval(form, unit_point(a, n)) == 0);
            assert(dot(form, zero, n) == 0) by {
                lemma_dot_zero_point(form, zero, n);
            }
        }
    }
}

/// A form's dot product with the zero point is zero.
proof fn lemma_dot_zero_point(form: FormView, zero: Seq<int>, n: nat)
    requires
        forall|i: int| 0 <= i < zero.len() ==> #[trigger] zero[i] == 0,
    ensures
        dot(form, zero, n) == 0,
    decreases n,
{
    if n > 0 {
        lemma_dot_zero_point(form, zero, (n - 1) as nat);
        assert(at(zero, n - 1) == 0);
    }
}

/// Whether some row is a constant contradiction.
pub open spec fn refuting(rows: Seq<Row>) -> bool {
    exists|i: int| 0 <= i < rows.len() && #[trigger] row_refutes(rows[i])
}

/// Whether every row is constant and none refutes: there is nothing to
/// eliminate and nothing to contradict.
pub open spec fn settled(rows: Seq<Row>) -> bool {
    forall|i: int| 0 <= i < rows.len() ==> is_constant_view((#[trigger] rows[i]).form@) && !row_refutes(rows[i])
}

/// What elimination does to the counts spent: neither decreases, and each
/// stays within its budget if it started within it.
pub open spec fn spent_kept(before: Spent, after: Spent, budget: Budget) -> bool {
    &&& after.eliminations >= before.eliminations
    &&& after.derived >= before.derived
    &&& before.eliminations <= budget.eliminations ==> after.eliminations <= budget.eliminations
    &&& before.derived <= budget.derived ==> after.derived <= budget.derived
}

/// The values of an assignment in progress: an atom not yet assigned
/// counts as 0.
pub open spec fn assigned_values(assigned: Seq<Option<Integer>>) -> Seq<int> {
    assigned.map_values(|value: Option<Integer>| match value {
        Some(value) => value@,
        None => 0,
    })
}

/// What remains of a row beside its atom: `coefficient * atom + rest`,
/// the rest being the row's value at the point with the atom at 0.
pub open spec fn rest_at(row: Row, atom: int, point: Seq<int>) -> int {
    eval(row.form@, point.update(atom, 0))
}

/// Whether a row bounds the atom from below: an equation, or an
/// inequality with a positive coefficient on it.
pub open spec fn bounds_below(row: Row, atom: int) -> bool {
    coef(row.form@, atom) != 0 && (row.kind == Kind::Equation || coef(row.form@, atom) > 0)
}

/// Whether a row bounds the atom from above: an equation, or an
/// inequality with a negative coefficient on it.
pub open spec fn bounds_above(row: Row, atom: int) -> bool {
    coef(row.form@, atom) != 0 && (row.kind == Kind::Equation || coef(row.form@, atom) < 0)
}

/// Whether a rational is the bound `-rest / coefficient` that the row of
/// the stage at `index` puts on the stage's atom at a point.
pub open spec fn bound_of(stage: Stage, index: int, point: Seq<int>, bound: Rational) -> bool {
    &&& 0 <= index < stage.rows@.len()
    &&& bound.den() > 0
    &&& bound.num() * coef(stage.rows@[index].form@, stage.atom as int) == -rest_at(
        stage.rows@[index],
        stage.atom as int,
        point,
    ) * bound.den()
}

/// Whether each stage eliminated an atom that no earlier stage did, and its
/// rows do not mention the atoms of the stages before it: what elimination
/// leaves behind.
pub open spec fn ordered(stages: Seq<Stage>) -> bool {
    forall|t: int, s: int|
        0 <= t < s < stages.len() ==> (#[trigger] stages[t]).atom != (#[trigger] stages[s]).atom && forall|r: int|
            0 <= r < stages[s].rows@.len() ==> coef(#[trigger] stages[s].rows@[r].form@, stages[t].atom as int) == 0
}

/// Whether a point satisfies every row of a stage that mentions the stage's
/// atom.
pub open spec fn stage_holds(stage: Stage, point: Seq<int>) -> bool {
    forall|r: int|
        0 <= r < stage.rows@.len() && coef((#[trigger] stage.rows@[r]).form@, stage.atom as int) != 0 ==> satisfies(
            stage.rows@[r].kind,
            eval(stage.rows@[r].form@, point),
        )
}

/// Whether a value of the atom keeps to the bound a row puts on it from
/// below: `coefficient * value + rest` is non-negative for a positive
/// coefficient, non-positive for a negative one.
pub open spec fn keeps_below(row: Row, atom: int, point: Seq<int>, value: int) -> bool {
    let c = coef(row.form@, atom);
    let rest = rest_at(row, atom, point);
    if c > 0 {
        c * value + rest >= 0
    } else {
        c * value + rest <= 0
    }
}

/// Whether a value of the atom keeps to the bound a row puts on it from
/// above.
pub open spec fn keeps_above(row: Row, atom: int, point: Seq<int>, value: int) -> bool {
    let c = coef(row.form@, atom);
    let rest = rest_at(row, atom, point);
    if c > 0 {
        c * value + rest <= 0
    } else {
        c * value + rest >= 0
    }
}

/// A value keeps to a row's bound from below exactly when it is at least
/// the bound, and from above exactly when it is at most the bound.
proof fn lemma_keeps(c: int, rest: int, num: int, den: int, value: int)
    requires
        c != 0,
        den > 0,
        num * c == -rest * den,
    ensures
        (if c > 0 { c * value + rest >= 0 } else { c * value + rest <= 0 }) == (value * den >= num),
        (if c > 0 { c * value + rest <= 0 } else { c * value + rest >= 0 }) == (value * den <= num),
{
    assert((c * value + rest) * den == c * (value * den - num)) by (nonlinear_arith)
        requires
            num * c == -rest * den,
    ;
    if c > 0 {
        assert((c * value + rest >= 0) == ((c * value + rest) * den >= 0)) by (nonlinear_arith)
            requires
                den > 0,
        ;
        assert((c * (value * den - num) >= 0) == (value * den - num >= 0)) by (nonlinear_arith)
            requires
                c > 0,
        ;
        assert((c * value + rest <= 0) == ((c * value + rest) * den <= 0)) by (nonlinear_arith)
            requires
                den > 0,
        ;
        assert((c * (value * den - num) <= 0) == (value * den - num <= 0)) by (nonlinear_arith)
            requires
                c > 0,
        ;
    } else {
        assert((c * value + rest <= 0) == ((c * value + rest) * den <= 0)) by (nonlinear_arith)
            requires
                den > 0,
        ;
        assert((c * (value * den - num) <= 0) == (value * den - num >= 0)) by (nonlinear_arith)
            requires
                c < 0,
        ;
        assert((c * value + rest >= 0) == ((c * value + rest) * den >= 0)) by (nonlinear_arith)
            requires
                den > 0,
        ;
        assert((c * (value * den - num) >= 0) == (value * den - num <= 0)) by (nonlinear_arith)
            requires
                c < 0,
        ;
    }
}

/// Between two rationals with positive denominators: a value at least the
/// larger is at least the smaller.
proof fn lemma_above_both(value: int, small_num: int, small_den: int, large_num: int, large_den: int)
    requires
        small_den > 0,
        large_den > 0,
        small_num * large_den <= large_num * small_den,
        value * large_den >= large_num,
    ensures
        value * small_den >= small_num,
{
    assert(value * small_den * large_den >= small_num * large_den) by (nonlinear_arith)
        requires
            small_den > 0,
            small_num * large_den <= large_num * small_den,
            value * large_den >= large_num,
    ;
    assert(value * small_den >= small_num) by (nonlinear_arith)
        requires
            large_den > 0,
            value * small_den * large_den >= small_num * large_den,
    ;
}

/// A value at most the smaller of two rationals is at most the larger.
proof fn lemma_below_both(value: int, small_num: int, small_den: int, large_num: int, large_den: int)
    requires
        small_den > 0,
        large_den > 0,
        small_num * large_den <= large_num * small_den,
        value * small_den <= small_num,
    ensures
        value * large_den <= large_num,
{
    assert(value * small_den * large_den <= large_num * small_den) by (nonlinear_arith)
        requires
            large_den > 0,
            small_num * large_den <= large_num * small_den,
            value * small_den <= small_num,
    ;
    assert(value * large_den <= large_num) by (nonlinear_arith)
        requires
            small_den > 0,
            value * small_den * large_den <= large_num * small_den,
    ;
}

/// The value of a form changes in one atom only by its coefficient times
/// the change.
proof fn lemma_eval_update(form: FormView, point: Seq<int>, atom: int, value: int)
    requires
        0 <= atom < point.len(),
    ensures
        eval(form, point.update(atom, value)) == eval(form, point.update(atom, 0)) + coef(form, atom) * value,
{
    lemma_dot_update(form, point, atom, value, form.coefficients.len());
    if atom >= form.coefficients.len() {
        assert(coef(form, atom) == 0);
        assert(coef(form, atom) * value == 0);
    }
}

proof fn lemma_dot_update(form: FormView, point: Seq<int>, atom: int, value: int, n: nat)
    requires
        0 <= atom < point.len(),
    ensures
        dot(form, point.update(atom, value), n) == dot(form, point.update(atom, 0), n) + (if atom < n {
            coef(form, atom) * value
        } else {
            0
        }),
    decreases n,
{
    if n > 0 {
        lemma_dot_update(form, point, atom, value, (n - 1) as nat);
        let i = n - 1;
        if i == atom {
            assert(at(point.update(atom, value), i) == value);
            assert(at(point.update(atom, 0), i) == 0);
            assert(coef(form, i) * 0 == 0);
        } else {
            assert(at(point.update(atom, value), i) == at(point.update(atom, 0), i));
        }
    }
}

/// Whether every row among a stage's first `count` that bounds the atom
/// from below is kept to by every value at least the bound found so far; with
/// no bound, whether there is no such row.
pub open spec fn lower_kept(stage: Stage, point: Seq<int>, count: int, bound: Option<Rational>) -> bool {
    match bound {
        Some(b) => b.den() > 0 && forall|j: int, v: int|
            0 <= j < count && bounds_below(stage.rows@[j], stage.atom as int) && v * b.den() >= b.num()
                ==> #[trigger] keeps_below(stage.rows@[j], stage.atom as int, point, v),
        None => forall|j: int| 0 <= j < count ==> !#[trigger] bounds_below(stage.rows@[j], stage.atom as int),
    }
}

/// Whether every row among a stage's first `count` that bounds the atom
/// from above is kept to by every value at most the bound found so far.
pub open spec fn upper_kept(stage: Stage, point: Seq<int>, count: int, bound: Option<Rational>) -> bool {
    match bound {
        Some(b) => b.den() > 0 && forall|j: int, v: int|
            0 <= j < count && bounds_above(stage.rows@[j], stage.atom as int) && v * b.den() <= b.num()
                ==> #[trigger] keeps_above(stage.rows@[j], stage.atom as int, point, v),
        None => forall|j: int| 0 <= j < count ==> !#[trigger] bounds_above(stage.rows@[j], stage.atom as int),
    }
}

/// Whether no row mentions the atom of any stage.
pub open spec fn clear_of(rows: Seq<Row>, stages: Seq<Stage>) -> bool {
    forall|i: int, t: int|
        0 <= i < rows.len() && 0 <= t < stages.len() ==> coef(#[trigger] rows[i].form@, (#[trigger] stages[t]).atom as int)
            == 0
}

/// Whether a consistent outcome's stages are ordered.
pub open spec fn consistent_ordered(outcome: Outcome) -> bool {
    match outcome {
        Outcome::Consistent(stages) => ordered(stages@),
        _ => true,
    }
}

/// Rows that do not mention an atom count no sign on it.
proof fn lemma_unmentioned(rows: Seq<Row>, atom: int)
    requires
        forall|i: int| 0 <= i < rows.len() ==> coef(#[trigger] rows[i].form@, atom) == 0,
    ensures
        signs(rows, atom) == (0nat, 0nat),
    decreases rows.len(),
{
    if rows.len() > 0 {
        assert forall|i: int| 0 <= i < rows.drop_last().len() implies coef(#[trigger] rows.drop_last()[i].form@, atom) == 0 by {
            assert(rows.drop_last()[i] == rows[i]);
        }
        lemma_unmentioned(rows.drop_last(), atom);
        assert(coef(rows.last().form@, atom) == 0);
    }
}

/// Rows each of the same form as a row clear of the stages' atoms are
/// clear of them too.
proof fn lemma_clear_kept(before: Seq<Row>, after: Seq<Row>, stages: Seq<Stage>)
    requires
        clear_of(before, stages),
        forall|j: int|
            0 <= j < after.len() ==> exists|i: int| 0 <= i < before.len() && before[i].form@ == (#[trigger] after[j]).form@,
    ensures
        clear_of(after, stages),
{
    assert forall|j: int, t: int| 0 <= j < after.len() && 0 <= t < stages.len() implies coef(
        #[trigger] after[j].form@,
        (#[trigger] stages[t]).atom as int,
    ) == 0 by {
        let i = choose|i: int| 0 <= i < before.len() && before[i].form@ == after[j].form@;
        assert(coef(before[i].form@, stages[t].atom as int) == 0);
    }
}

/// A combination of rows that do not mention an atom does not mention it.
proof fn lemma_combination_clear(scale: int, a: int, other_scale: int, b: int)
    requires
        a == 0,
        b == 0,
    ensures
        scale * a + other_scale * b == 0,
{
    assert(scale * a == 0 && other_scale * b == 0) by (nonlinear_arith)
        requires
            a == 0,
            b == 0,
    ;
}

/// The combination that eliminates an atom by an equation cancels it:
/// `|c| * b - (sign(c) * b) * c` is zero.
proof fn lemma_equation_cancels(c: int, b: int, sign: int)
    requires
        c != 0,
        sign == (if c < 0 { -1int } else { 1int }),
    ensures
        abs(c) * b + (-(sign * b)) * c == 0,
{
    assert(abs(c) * b + (-(sign * b)) * c == 0) by (nonlinear_arith)
        requires
            c != 0,
            sign == (if c < 0 { -1int } else { 1int }),
            abs(c) == (if c < 0 { -c } else { c }),
    ;
}

/// The combination of a row with a positive coefficient and one with a
/// negative coefficient on an atom, each scaled by the other's magnitude,
/// cancels it.
proof fn lemma_pair_cancels(positive: int, negative: int)
    ensures
        negative * positive + positive * (-negative) == 0,
{
    assert(negative * positive + positive * (-negative) == 0) by (nonlinear_arith);
}

/// Whether two rows say the same: the same kind, constant and coefficients.
pub open spec fn alike(a: Row, b: Row) -> bool {
    &&& a.kind == b.kind
    &&& a.form@.constant == b.form@.constant
    &&& forall|x: int| #[trigger] coef(a.form@, x) == coef(b.form@, x)
}

/// Whether some row of a list says what a row says.
pub open spec fn among(row: Row, rows: Seq<Row>) -> bool {
    exists|i: int| 0 <= i < rows.len() && alike(row, #[trigger] rows[i])
}

/// Whether a row holds everywhere: it is constant and does not refute.
pub open spec fn vacuous(row: Row) -> bool {
    is_constant_view(row.form@) && !row_refutes(row)
}

/// Whether a row is accounted for by a list of rows: it holds everywhere,
/// or one of them says the same.
#[verifier::opaque]
pub open spec fn accounted(row: Row, rows: Seq<Row>) -> bool {
    vacuous(row) || among(row, rows)
}

/// A row said by one of some rows is accounted for by them.
proof fn lemma_accounted_alike(row: Row, rows: Seq<Row>, i: int)
    requires
        0 <= i < rows.len(),
        alike(row, rows[i]),
    ensures
        accounted(row, rows),
{
    reveal(accounted);
}

/// A row that holds everywhere is accounted for by any rows.
proof fn lemma_accounted_vacuous(row: Row, rows: Seq<Row>)
    requires
        vacuous(row),
    ensures
        accounted(row, rows),
{
    reveal(accounted);
}

/// What is accounted for stays accounted for as rows are added.
proof fn lemma_accounted_push(row: Row, rows: Seq<Row>, extra: Row)
    requires
        accounted(row, rows),
    ensures
        accounted(row, rows.push(extra)),
{
    reveal(accounted);
    if !vacuous(row) {
        let i = choose|i: int| 0 <= i < rows.len() && alike(row, #[trigger] rows[i]);
        assert(rows.push(extra)[i] == rows[i]);
    }
}

/// A row accounted for by nothing holds everywhere.
proof fn lemma_accounted_empty(row: Row)
    requires
        accounted(row, Seq::empty()),
    ensures
        vacuous(row),
{
    reveal(accounted);
}

/// The rows after a stage: the next stage's, or the rows given after the
/// last.
pub open spec fn next_rows(stages: Seq<Stage>, rows: Seq<Row>, s: int) -> Seq<Row> {
    if s + 1 < stages.len() {
        stages[s + 1].rows@
    } else {
        rows
    }
}

/// Whether each stage's rows that do not mention its atom are accounted for
/// by the rows after it.
pub open spec fn chained_to(stages: Seq<Stage>, rows: Seq<Row>) -> bool {
    forall|s: int, r: int|
        0 <= s < stages.len() && 0 <= r < stages[s].rows@.len() && coef(
            (#[trigger] stages[s].rows@[r]).form@,
            stages[s].atom as int,
        ) == 0 ==> accounted(stages[s].rows@[r], next_rows(stages, rows, s))
}

/// Whether the given rows are accounted for by the first stage's rows, or,
/// with no stage, by the rows given.
pub open spec fn covered_to(input: Seq<Row>, stages: Seq<Stage>, rows: Seq<Row>) -> bool {
    forall|i: int|
        0 <= i < input.len() ==> accounted(
            #[trigger] input[i],
            if stages.len() > 0 {
                stages[0].rows@
            } else {
                rows
            },
        )
}

/// Whether a consistent outcome's stages account for the rows it was given,
/// and each stage for the one before it, with nothing left after the last.
pub open spec fn consistent_chained(outcome: Outcome, input: Seq<Row>) -> bool {
    match outcome {
        Outcome::Consistent(stages) => chained_to(stages@, Seq::empty()) && covered_to(input, stages@, Seq::empty()),
        _ => true,
    }
}

/// When every row left holds everywhere, the chain ends with nothing after
/// it.
proof fn lemma_chain_ends(input: Seq<Row>, stages: Seq<Stage>, rows: Seq<Row>)
    requires
        chained_to(stages, rows),
        covered_to(input, stages, rows),
        forall|i: int| 0 <= i < rows.len() ==> is_constant_view((#[trigger] rows[i]).form@) && !row_refutes(rows[i]),
    ensures
        chained_to(stages, Seq::empty()),
        covered_to(input, stages, Seq::empty()),
{
    assert forall|i: int| 0 <= i < rows.len() implies accounted(#[trigger] rows[i], Seq::<Row>::empty()) by {
        lemma_accounted_vacuous(rows[i], Seq::empty());
    }
    lemma_chain_through(stages, rows, Seq::empty());
    lemma_cover_through(input, stages, rows, Seq::empty());
}

/// Every row of a stage holds at a point that satisfies, at every stage,
/// the rows that mention its atom, when each stage's other rows are
/// accounted for by the next stage's and nothing is left after the last.
proof fn lemma_stage_rows_hold(stages: Seq<Stage>, point: Seq<int>, s: int)
    requires
        0 <= s < stages.len(),
        chained_to(stages, Seq::empty()),
        forall|t: int| 0 <= t < stages.len() ==> #[trigger] stage_holds(stages[t], point),
    ensures
        forall|r: int|
            0 <= r < stages[s].rows@.len() ==> satisfies(
                (#[trigger] stages[s].rows@[r]).kind,
                eval(stages[s].rows@[r].form@, point),
            ),
    decreases stages.len() - s,
{
    if s + 1 < stages.len() {
        lemma_stage_rows_hold(stages, point, s + 1);
    }
    assert forall|r: int| 0 <= r < stages[s].rows@.len() implies satisfies(
        (#[trigger] stages[s].rows@[r]).kind,
        eval(stages[s].rows@[r].form@, point),
    ) by {
        let row = stages[s].rows@[r];
        assert(stage_holds(stages[s], point));
        if coef(row.form@, stages[s].atom as int) == 0 {
            assert(accounted(row, next_rows(stages, Seq::empty(), s)));
            reveal(accounted);
            if vacuous(row) {
                lemma_vacuous_holds(row, point);
            } else {
                let next = next_rows(stages, Seq::empty(), s);
                let k = choose|k: int| 0 <= k < next.len() && alike(row, #[trigger] next[k]);
                assert(s + 1 < stages.len());
                assert(next[k] == stages[s + 1].rows@[k]);
                lemma_alike_eval(row, next[k], point);
            }
        }
    }
}

/// Back-substitution through the stages of a consistent elimination: a
/// point that satisfies, at every stage, the rows that mention its atom
/// satisfies every row the elimination was given.
pub proof fn lemma_consistent_point(initial: Seq<Row>, stages: Seq<Stage>, point: Seq<int>)
    requires
        chained_to(stages, Seq::empty()),
        covered_to(initial, stages, Seq::empty()),
        forall|t: int| 0 <= t < stages.len() ==> #[trigger] stage_holds(stages[t], point),
    ensures
        forall|i: int| 0 <= i < initial.len() ==> satisfies((#[trigger] initial[i]).kind, eval(initial[i].form@, point)),
{
    if stages.len() > 0 {
        lemma_stage_rows_hold(stages, point, 0);
    }
    assert forall|i: int| 0 <= i < initial.len() implies satisfies((#[trigger] initial[i]).kind, eval(initial[i].form@, point)) by {
        let row = initial[i];
        reveal(accounted);
        if vacuous(row) {
            lemma_vacuous_holds(row, point);
        } else {
            let k = choose|k: int| 0 <= k < stages[0].rows@.len() && alike(row, #[trigger] stages[0].rows@[k]);
            lemma_alike_eval(row, stages[0].rows@[k], point);
        }
    }
}

/// Stages chained to rows each accounted for by others are chained to
/// those others.
proof fn lemma_chain_through(stages: Seq<Stage>, rows: Seq<Row>, later: Seq<Row>)
    requires
        chained_to(stages, rows),
        forall|i: int| 0 <= i < rows.len() ==> accounted(#[trigger] rows[i], later),
    ensures
        chained_to(stages, later),
{
    assert forall|s: int, r: int|
        0 <= s < stages.len() && 0 <= r < stages[s].rows@.len() && coef(
            (#[trigger] stages[s].rows@[r]).form@,
            stages[s].atom as int,
        ) == 0 implies accounted(stages[s].rows@[r], next_rows(stages, later, s)) by {
        if s + 1 >= stages.len() {
            lemma_accounted_through(stages[s].rows@[r], rows, later);
        }
    }
}

/// Rows covered through rows each accounted for by others are covered
/// through those others.
proof fn lemma_cover_through(input: Seq<Row>, stages: Seq<Stage>, rows: Seq<Row>, later: Seq<Row>)
    requires
        covered_to(input, stages, rows),
        forall|i: int| 0 <= i < rows.len() ==> accounted(#[trigger] rows[i], later),
    ensures
        covered_to(input, stages, later),
{
    assert forall|i: int| 0 <= i < input.len() implies accounted(
        #[trigger] input[i],
        if stages.len() > 0 {
            stages[0].rows@
        } else {
            later
        },
    ) by {
        if stages.len() == 0 {
            lemma_accounted_through(input[i], rows, later);
        }
    }
}

/// Rows that each say what a row of another list says are each accounted
/// for by that list.
proof fn lemma_copies_accounted(rows: Seq<Row>, copies: Seq<Row>)
    requires
        rows.len() == copies.len(),
        forall|i: int| 0 <= i < rows.len() ==> (#[trigger] copies[i]).form@ == rows[i].form@ && copies[i].kind == rows[i].kind,
    ensures
        forall|i: int| 0 <= i < rows.len() ==> accounted(#[trigger] rows[i], copies),
{
    assert forall|i: int| 0 <= i < rows.len() implies accounted(#[trigger] rows[i], copies) by {
        assert(alike(rows[i], copies[i]));
        lemma_accounted_alike(rows[i], copies, i);
    }
}

/// A new stage whose rows that do not mention its atom are accounted for by
/// some rows extends a chain that ended at its rows into one that ends at
/// those rows.
proof fn lemma_chain_push(stages: Seq<Stage>, stage: Stage, later: Seq<Row>)
    requires
        chained_to(stages, stage.rows@),
        forall|r: int|
            0 <= r < stage.rows@.len() && coef((#[trigger] stage.rows@[r]).form@, stage.atom as int) == 0 ==> accounted(
                stage.rows@[r],
                later,
            ),
    ensures
        chained_to(stages.push(stage), later),
{
    let next = stages.push(stage);
    assert forall|s: int, r: int|
        0 <= s < next.len() && 0 <= r < next[s].rows@.len() && coef(
            (#[trigger] next[s].rows@[r]).form@,
            next[s].atom as int,
        ) == 0 implies accounted(next[s].rows@[r], next_rows(next, later, s)) by {
        if s < stages.len() {
            assert(next[s] == stages[s]);
            if s + 1 < stages.len() {
                assert(next[s + 1] == stages[s + 1]);
            }
        }
    }
}

/// Covered through a new first stage's rows, or through the stages before.
proof fn lemma_cover_push(input: Seq<Row>, stages: Seq<Stage>, stage: Stage, later: Seq<Row>)
    requires
        covered_to(input, stages, stage.rows@),
    ensures
        covered_to(input, stages.push(stage), later),
{
    let next = stages.push(stage);
    assert forall|i: int| 0 <= i < input.len() implies accounted(
        #[trigger] input[i],
        if next.len() > 0 {
            next[0].rows@
        } else {
            later
        },
    ) by {
        if stages.len() > 0 {
            assert(next[0] == stages[0]);
        }
    }
}

/// Accounted for by rows each accounted for by others: accounted for by
/// those others.
proof fn lemma_accounted_through(row: Row, middle: Seq<Row>, last: Seq<Row>)
    requires
        accounted(row, middle),
        forall|i: int| 0 <= i < middle.len() ==> accounted(#[trigger] middle[i], last),
    ensures
        accounted(row, last),
{
    reveal(accounted);
    if !vacuous(row) {
        let i = choose|i: int| 0 <= i < middle.len() && alike(row, #[trigger] middle[i]);
        assert(accounted(middle[i], last));
        if vacuous(middle[i]) {
            assert forall|x: int| #[trigger] coef(row.form@, x) == 0 by {
                assert(coef(middle[i].form@, x) == 0);
            }
        } else {
            let k = choose|k: int| 0 <= k < last.len() && alike(middle[i], #[trigger] last[k]);
            assert forall|x: int| #[trigger] coef(row.form@, x) == coef(last[k].form@, x) by {
                assert(coef(middle[i].form@, x) == coef(last[k].form@, x));
            }
            assert(alike(row, last[k]));
        }
    }
}

/// Rows that say the same have the same value everywhere.
proof fn lemma_alike_eval(a: Row, b: Row, point: Seq<int>)
    requires
        alike(a, b),
    ensures
        eval(a.form@, point) == eval(b.form@, point),
{
    let n = if a.form@.coefficients.len() < b.form@.coefficients.len() {
        b.form@.coefficients.len()
    } else {
        a.form@.coefficients.len()
    };
    crate::arith::linear::lemma_dot_extends(a.form@, point, n);
    crate::arith::linear::lemma_dot_extends(b.form@, point, n);
    lemma_dot_same(a.form@, b.form@, point, n);
}

proof fn lemma_dot_same(a: FormView, b: FormView, point: Seq<int>, n: nat)
    requires
        forall|x: int| #[trigger] coef(a, x) == coef(b, x),
    ensures
        dot(a, point, n) == dot(b, point, n),
    decreases n,
{
    if n > 0 {
        lemma_dot_same(a, b, point, (n - 1) as nat);
        assert(coef(a, n - 1) == coef(b, n - 1));
    }
}

/// A row that holds everywhere holds at a point.
proof fn lemma_vacuous_holds(row: Row, point: Seq<int>)
    requires
        vacuous(row),
    ensures
        satisfies(row.kind, eval(row.form@, point)),
{
    lemma_eval_constant(row.form@, point);
}

/// Rows with no sign on an atom do not mention it.
proof fn lemma_signs_zero(rows: Seq<Row>, atom: int)
    requires
        signs(rows, atom) == (0nat, 0nat),
    ensures
        forall|i: int| 0 <= i < rows.len() ==> coef(#[trigger] rows[i].form@, atom) == 0,
    decreases rows.len(),
{
    if rows.len() > 0 {
        let (p, n) = signs(rows.drop_last(), atom);
        assert(coef(rows.last().form@, atom) == 0);
        assert(p == 0 && n == 0);
        lemma_signs_zero(rows.drop_last(), atom);
        assert forall|i: int| 0 <= i < rows.len() implies coef(#[trigger] rows[i].form@, atom) == 0 by {
            if i < rows.len() - 1 {
                assert(rows[i] == rows.drop_last()[i]);
            }
        }
    }
}

/// Ordered stages stay ordered with a stage of an atom no row mentions
/// among rows clear of the stages' atoms.
proof fn lemma_ordered_push(stages: Seq<Stage>, stage: Stage)
    requires
        ordered(stages),
        clear_of(stage.rows@, stages),
        forall|t: int| 0 <= t < stages.len() ==> (#[trigger] stages[t]).atom != stage.atom,
    ensures
        ordered(stages.push(stage)),
{
    let next = stages.push(stage);
    assert forall|t: int, s: int| 0 <= t < s < next.len() implies (#[trigger] next[t]).atom != (#[trigger] next[s]).atom
        && forall|r: int| 0 <= r < next[s].rows@.len() ==> coef(#[trigger] next[s].rows@[r].form@, next[t].atom as int) == 0 by {
        if s == stages.len() {
            assert(next[t] == stages[t]);
            assert forall|r: int| 0 <= r < next[s].rows@.len() implies coef(#[trigger] next[s].rows@[r].form@, next[t].atom as int)
                == 0 by {
                assert(coef(stage.rows@[r].form@, stages[t].atom as int) == 0);
            }
        } else {
            assert(next[t] == stages[t] && next[s] == stages[s]);
        }
    }
}

/// Whether a value of the atom is strictly above the bound a row puts on
/// it from below.
pub open spec fn beyond_below(row: Row, atom: int, point: Seq<int>, value: int) -> bool {
    let c = coef(row.form@, atom);
    let rest = rest_at(row, atom, point);
    if c > 0 {
        c * value + rest > 0
    } else {
        c * value + rest < 0
    }
}

/// Whether the rational `num / den` is at least the bound a row puts on the
/// atom from below.
pub open spec fn under_rational(row: Row, atom: int, point: Seq<int>, num: int, den: int) -> bool {
    let c = coef(row.form@, atom);
    let rest = rest_at(row, atom, point);
    if c > 0 {
        c * num + rest * den >= 0
    } else {
        c * num + rest * den <= 0
    }
}

/// Whether a rational is at least every bound from below that the first
/// `count` rows of a stage put on its atom.
pub open spec fn lowers_under(stage: Stage, point: Seq<int>, count: int, bound: Rational) -> bool {
    forall|j: int|
        0 <= j < count && bounds_below(stage.rows@[j], stage.atom as int) ==> #[trigger] under_rational(
            stage.rows@[j],
            stage.atom as int,
            point,
            bound.num(),
            bound.den(),
        )
}

/// Whether some row of a stage bounds its atom from below.
pub open spec fn has_lower(stage: Stage) -> bool {
    exists|r: int| 0 <= r < stage.rows@.len() && #[trigger] bounds_below(stage.rows@[r], stage.atom as int)
}

/// Whether some row of a stage bounds its atom from above.
pub open spec fn has_upper(stage: Stage) -> bool {
    exists|r: int| 0 <= r < stage.rows@.len() && #[trigger] bounds_above(stage.rows@[r], stage.atom as int)
}

/// Whether a value of a stage's atom keeps to every bound from below.
pub open spec fn over_lowers(stage: Stage, point: Seq<int>, value: int) -> bool {
    forall|r: int|
        0 <= r < stage.rows@.len() && bounds_below(stage.rows@[r], stage.atom as int) ==> #[trigger] keeps_below(
            stage.rows@[r],
            stage.atom as int,
            point,
            value,
        )
}

/// Whether a value of a stage's atom keeps to every bound from above.
pub open spec fn under_uppers(stage: Stage, point: Seq<int>, value: int) -> bool {
    forall|r: int|
        0 <= r < stage.rows@.len() && bounds_above(stage.rows@[r], stage.atom as int) ==> #[trigger] keeps_above(
            stage.rows@[r],
            stage.atom as int,
            point,
            value,
        )
}

/// Whether a value of a stage's atom is strictly above every bound from
/// below.
pub open spec fn beyond_lowers(stage: Stage, point: Seq<int>, value: int) -> bool {
    forall|r: int|
        0 <= r < stage.rows@.len() && bounds_below(stage.rows@[r], stage.atom as int) ==> #[trigger] beyond_below(
            stage.rows@[r],
            stage.atom as int,
            point,
            value,
        )
}

/// Whether a value is the least integer that keeps to every bound from
/// below.
pub open spec fn least_over(stage: Stage, point: Seq<int>, value: int) -> bool {
    over_lowers(stage, point, value) && !over_lowers(stage, point, value - 1)
}

/// Whether a value is the greatest integer that keeps to every bound from
/// above.
pub open spec fn most_under(stage: Stage, point: Seq<int>, value: int) -> bool {
    under_uppers(stage, point, value) && !under_uppers(stage, point, value + 1)
}

/// The value back-substitution gives a stage's atom, at a point of the
/// atoms eliminated after it: the least integer its bounds from below
/// allow, which its bounds from above allow too; with no bound from below,
/// the greatest integer its bounds from above allow; with no bound at all,
/// 0.
pub open spec fn chosen(stage: Stage, point: Seq<int>, value: int) -> bool {
    if has_lower(stage) {
        least_over(stage, point, value) && under_uppers(stage, point, value)
    } else if has_upper(stage) {
        most_under(stage, point, value)
    } else {
        value == 0
    }
}

/// Whether the bounds of a stage's atom hold no integer at a point, and
/// `floor` is the floor of its greatest bound from below: the least integer
/// over the bounds from below is above a bound from above, and `floor` is
/// the greatest integer not strictly above every bound from below.
pub open spec fn crossed(stage: Stage, point: Seq<int>, floor: int) -> bool {
    &&& exists|least: int| #[trigger] least_over(stage, point, least) && !under_uppers(stage, point, least)
    &&& !beyond_lowers(stage, point, floor)
    &&& beyond_lowers(stage, point, floor + 1)
}

/// Whether some stage after the `s`th eliminated an atom.
pub open spec fn eliminated_after(stages: Seq<Stage>, s: int, atom: int) -> bool {
    exists|t: int| s < t < stages.len() && #[trigger] stages[t].atom == atom
}

/// Whether a point is what back-substitution gives the atoms of the stages
/// after the `s`th: each such atom its chosen value at the point, every
/// other atom 0.
pub open spec fn substituted(stages: Seq<Stage>, s: int, point: Seq<int>) -> bool {
    &&& forall|t: int| s < t < stages.len() ==> #[trigger] chosen(stages[t], point, point[stages[t].atom as int])
    &&& forall|a: int| 0 <= a < point.len() && !eliminated_after(stages, s, a) ==> #[trigger] point[a] == 0
}

/// A row's own bound on its atom sits exactly on it.
proof fn lemma_under_own(c: int, rest: int, num: int, den: int)
    requires
        c != 0,
        den > 0,
        num * c == -rest * den,
    ensures
        c * num + rest * den == 0,
{
    assert(c * num + rest * den == 0) by (nonlinear_arith)
        requires
            num * c == -rest * den,
    ;
}

/// A rational at least another that is at least a row's bound is at least
/// the row's bound too.
proof fn lemma_under_larger(c: int, rest: int, small_num: int, small_den: int, large_num: int, large_den: int)
    requires
        small_den > 0,
        large_den > 0,
        small_num * large_den <= large_num * small_den,
    ensures
        c > 0 && c * small_num + rest * small_den >= 0 ==> c * large_num + rest * large_den >= 0,
        c < 0 && c * small_num + rest * small_den <= 0 ==> c * large_num + rest * large_den <= 0,
{
    if c > 0 && c * small_num + rest * small_den >= 0 {
        assert(c * large_num * small_den >= c * small_num * large_den) by (nonlinear_arith)
            requires
                c > 0,
                small_num * large_den <= large_num * small_den,
        ;
        assert((c * small_num + rest * small_den) * large_den >= 0) by (nonlinear_arith)
            requires
                large_den > 0,
                c * small_num + rest * small_den >= 0,
        ;
        assert((c * large_num + rest * large_den) * small_den >= 0) by (nonlinear_arith)
            requires
                c * large_num * small_den >= c * small_num * large_den,
                (c * small_num + rest * small_den) * large_den >= 0,
        ;
        assert(c * large_num + rest * large_den >= 0) by (nonlinear_arith)
            requires
                small_den > 0,
                (c * large_num + rest * large_den) * small_den >= 0,
        ;
    }
    if c < 0 && c * small_num + rest * small_den <= 0 {
        assert(c * large_num * small_den <= c * small_num * large_den) by (nonlinear_arith)
            requires
                c < 0,
                small_num * large_den <= large_num * small_den,
        ;
        assert((c * small_num + rest * small_den) * large_den <= 0) by (nonlinear_arith)
            requires
                large_den > 0,
                c * small_num + rest * small_den <= 0,
        ;
        assert((c * large_num + rest * large_den) * small_den <= 0) by (nonlinear_arith)
            requires
                c * large_num * small_den <= c * small_num * large_den,
                (c * small_num + rest * small_den) * large_den <= 0,
        ;
        assert(c * large_num + rest * large_den <= 0) by (nonlinear_arith)
            requires
                small_den > 0,
                (c * large_num + rest * large_den) * small_den <= 0,
        ;
    }
}

/// An integer strictly above a rational that is at least a row's bound is
/// strictly above the row's bound.
proof fn lemma_beyond(c: int, rest: int, num: int, den: int, value: int)
    requires
        den > 0,
        value * den > num,
    ensures
        c > 0 && c * num + rest * den >= 0 ==> c * value + rest > 0,
        c < 0 && c * num + rest * den <= 0 ==> c * value + rest < 0,
{
    if c > 0 && c * num + rest * den >= 0 {
        assert(c * value * den > c * num) by (nonlinear_arith)
            requires
                c > 0,
                value * den > num,
        ;
        assert((c * value + rest) * den > 0) by (nonlinear_arith)
            requires
                c * value * den > c * num,
                c * num + rest * den >= 0,
        ;
        assert(c * value + rest > 0) by (nonlinear_arith)
            requires
                den > 0,
                (c * value + rest) * den > 0,
        ;
    }
    if c < 0 && c * num + rest * den <= 0 {
        assert(c * value * den < c * num) by (nonlinear_arith)
            requires
                c < 0,
                value * den > num,
        ;
        assert((c * value + rest) * den < 0) by (nonlinear_arith)
            requires
                c * value * den < c * num,
                c * num + rest * den <= 0,
        ;
        assert(c * value + rest < 0) by (nonlinear_arith)
            requires
                den > 0,
                (c * value + rest) * den < 0,
        ;
    }
}

/// Whether a value keeps to a stage's bounds depends on a point only
/// through the rests of the stage's rows.
proof fn lemma_same_sides(stage: Stage, p: Seq<int>, q: Seq<int>, v: int)
    requires
        forall|r: int|
            0 <= r < stage.rows@.len() ==> #[trigger] rest_at(stage.rows@[r], stage.atom as int, p) == rest_at(
                stage.rows@[r],
                stage.atom as int,
                q,
            ),
    ensures
        over_lowers(stage, p, v) == over_lowers(stage, q, v),
        under_uppers(stage, p, v) == under_uppers(stage, q, v),
{
    let atom = stage.atom as int;
    assert forall|r: int| 0 <= r < stage.rows@.len() implies #[trigger] keeps_below(stage.rows@[r], atom, p, v)
        == keeps_below(stage.rows@[r], atom, q, v) && keeps_above(stage.rows@[r], atom, p, v) == keeps_above(
        stage.rows@[r],
        atom,
        q,
        v,
    ) by {
        assert(rest_at(stage.rows@[r], atom, p) == rest_at(stage.rows@[r], atom, q));
    }
    if over_lowers(stage, p, v) {
        assert forall|r: int| 0 <= r < stage.rows@.len() && bounds_below(stage.rows@[r], atom) implies #[trigger] keeps_below(
            stage.rows@[r],
            atom,
            q,
            v,
        ) by {
            assert(keeps_below(stage.rows@[r], atom, p, v));
        }
    }
    if over_lowers(stage, q, v) {
        assert forall|r: int| 0 <= r < stage.rows@.len() && bounds_below(stage.rows@[r], atom) implies #[trigger] keeps_below(
            stage.rows@[r],
            atom,
            p,
            v,
        ) by {
            assert(keeps_below(stage.rows@[r], atom, q, v));
        }
    }
    if under_uppers(stage, p, v) {
        assert forall|r: int| 0 <= r < stage.rows@.len() && bounds_above(stage.rows@[r], atom) implies #[trigger] keeps_above(
            stage.rows@[r],
            atom,
            q,
            v,
        ) by {
            assert(keeps_above(stage.rows@[r], atom, p, v));
        }
    }
    if under_uppers(stage, q, v) {
        assert forall|r: int| 0 <= r < stage.rows@.len() && bounds_above(stage.rows@[r], atom) implies #[trigger] keeps_above(
            stage.rows@[r],
            atom,
            p,
            v,
        ) by {
            assert(keeps_above(stage.rows@[r], atom, q, v));
        }
    }
}

/// What a stage says of its atom depends on a point only through the rests
/// of its rows.
proof fn lemma_same_rests(stage: Stage, p: Seq<int>, q: Seq<int>)
    requires
        forall|r: int|
            0 <= r < stage.rows@.len() ==> #[trigger] rest_at(stage.rows@[r], stage.atom as int, p) == rest_at(
                stage.rows@[r],
                stage.atom as int,
                q,
            ),
    ensures
        forall|v: int| #[trigger] chosen(stage, p, v) == chosen(stage, q, v),
{
    assert forall|v: int| #[trigger] chosen(stage, p, v) == chosen(stage, q, v) by {
        lemma_same_sides(stage, p, q, v);
        lemma_same_sides(stage, p, q, v - 1);
        lemma_same_sides(stage, p, q, v + 1);
    }
}

/// Setting an atom that a row does not mention leaves the rest of the row
/// on another atom as it was.
proof fn lemma_rest_unmoved(row: Row, atom: int, point: Seq<int>, other: int, value: int)
    requires
        0 <= atom < point.len(),
        0 <= other < point.len(),
        atom != other,
        coef(row.form@, other) == 0,
    ensures
        rest_at(row, atom, point.update(other, value)) == rest_at(row, atom, point),
{
    let zeroed = point.update(atom, 0);
    assert(point.update(other, value).update(atom, 0) =~= zeroed.update(other, value));
    lemma_eval_update(row.form@, zeroed, other, value);
    lemma_eval_update(row.form@, zeroed, other, zeroed[other]);
    assert(zeroed.update(other, zeroed[other]) =~= zeroed);
}

/// With a greatest bound from below found, its ceiling is the least
/// integer over every bound from below.
proof fn lemma_least_over(stage: Stage, point: Seq<int>, low: Rational, least: int)
    requires
        lower_kept(stage, point, stage.rows@.len() as int, Some(low)),
        exists|i: int| #[trigger] bound_of(stage, i, point, low) && bounds_below(stage.rows@[i], stage.atom as int),
        (least - 1) * low.den() < low.num() <= least * low.den(),
    ensures
        least_over(stage, point, least),
        has_lower(stage),
{
    let atom = stage.atom as int;
    let i = choose|i: int| #[trigger] bound_of(stage, i, point, low) && bounds_below(stage.rows@[i], atom);
    let row = stage.rows@[i];
    lemma_keeps(coef(row.form@, atom), rest_at(row, atom, point), low.num(), low.den(), least - 1);
    assert(!keeps_below(row, atom, point, least - 1));
    assert(forall|r: int|
        0 <= r < stage.rows@.len() && bounds_below(stage.rows@[r], atom) ==> #[trigger] keeps_below(
            stage.rows@[r],
            atom,
            point,
            least,
        ));
}

/// A value at most the least bound from above keeps to every bound from
/// above.
proof fn lemma_under_uppers(stage: Stage, point: Seq<int>, high: Rational, value: int)
    requires
        upper_kept(stage, point, stage.rows@.len() as int, Some(high)),
        value * high.den() <= high.num(),
    ensures
        under_uppers(stage, point, value),
{
    assert(forall|r: int|
        0 <= r < stage.rows@.len() && bounds_above(stage.rows@[r], stage.atom as int) ==> #[trigger] keeps_above(
            stage.rows@[r],
            stage.atom as int,
            point,
            value,
        ));
}

/// A value above the least bound from above breaks that bound.
proof fn lemma_over_upper(stage: Stage, point: Seq<int>, high: Rational, value: int)
    requires
        exists|j: int| #[trigger] bound_of(stage, j, point, high) && bounds_above(stage.rows@[j], stage.atom as int),
        value * high.den() > high.num(),
    ensures
        !under_uppers(stage, point, value),
        has_upper(stage),
{
    let atom = stage.atom as int;
    let j = choose|j: int| #[trigger] bound_of(stage, j, point, high) && bounds_above(stage.rows@[j], atom);
    let row = stage.rows@[j];
    lemma_keeps(coef(row.form@, atom), rest_at(row, atom, point), high.num(), high.den(), value);
    assert(!keeps_above(row, atom, point, value));
}

/// The floor of the greatest bound from below is the greatest integer not
/// strictly above every bound from below.
proof fn lemma_floor_lowers(stage: Stage, point: Seq<int>, low: Rational, floor: int)
    requires
        lowers_under(stage, point, stage.rows@.len() as int, low),
        exists|i: int| #[trigger] bound_of(stage, i, point, low) && bounds_below(stage.rows@[i], stage.atom as int),
        floor * low.den() <= low.num() < (floor + 1) * low.den(),
    ensures
        !beyond_lowers(stage, point, floor),
        beyond_lowers(stage, point, floor + 1),
{
    let atom = stage.atom as int;
    let i = choose|i: int| #[trigger] bound_of(stage, i, point, low) && bounds_below(stage.rows@[i], atom);
    let row = stage.rows@[i];
    lemma_keeps(coef(row.form@, atom), rest_at(row, atom, point), low.num(), low.den(), floor);
    assert(!beyond_below(row, atom, point, floor));
    assert forall|r: int| 0 <= r < stage.rows@.len() && bounds_below(stage.rows@[r], atom) implies #[trigger] beyond_below(
        stage.rows@[r],
        atom,
        point,
        floor + 1,
    ) by {
        let other = stage.rows@[r];
        assert(under_rational(other, atom, point, low.num(), low.den()));
        lemma_beyond(coef(other.form@, atom), rest_at(other, atom, point), low.num(), low.den(), floor + 1);
    }
}

/// A point of the consistent rows, by back-substitution through the
/// stages, last eliminated atom first. Each atom gets an integer when its
/// bounds at its stage allow one, the least such; an atom no row bounds
/// gets 0. The first atom whose bounds hold no integer ends the search:
/// the result is that atom and the floor of its lower bound, where the
/// driver branches. Otherwise the result is the integral point, one value
/// per atom.
#[verifier::spinoff_prover]
pub fn point(stages: &Vec<Stage>, atoms: usize) -> (result: Result<Vec<Integer>, (usize, Integer)>)
    requires
        stages_within(stages@, atoms as nat),
    ensures
        match result {
            Ok(point) => point@.len() == atoms && (ordered(stages@) ==> substituted(stages@, -1, values(point@))
                && forall|t: int| 0 <= t < stages@.len() ==> #[trigger] stage_holds(stages@[t], values(point@))),
            Err((atom, floor)) => atom < atoms && (ordered(stages@) ==> exists|s: int, p: Seq<int>|
                0 <= s < stages@.len() && stages@[s].atom == atom && p.len() == atoms && substituted(stages@, s, p)
                    && #[trigger] crossed(stages@[s], p, floor@)),
        },
{
    let mut assigned: Vec<Option<Integer>> = Vec::new();
    while assigned.len() < atoms
        invariant
            assigned.len() <= atoms,
            forall|i: int| 0 <= i < assigned@.len() ==> #[trigger] assigned@[i] is None,
        decreases atoms - assigned.len(),
    {
        assigned.push(None);
    }
    let mut stage_index = stages.len();
    assert(assigned_values(assigned@) =~= Seq::new(atoms as nat, |i: int| 0int));
    while stage_index > 0
        invariant
            stage_index <= stages@.len(),
            assigned@.len() == atoms,
            stages_within(stages@, atoms as nat),
            ordered(stages@) ==> forall|t: int|
                stage_index <= t < stages@.len() ==> #[trigger] stage_holds(stages@[t], assigned_values(assigned@)),
            ordered(stages@) ==> substituted(stages@, stage_index - 1, assigned_values(assigned@)),
        decreases stage_index,
    {
        stage_index -= 1;
        let stage = &stages[stage_index];
        let atom = stage.atom;
        assert(stages@[stage_index as int].atom < atoms && rows_within(stage.rows@, atoms as nat));
        let ghost at_point = assigned_values(assigned@);
        let mut lower: Option<Rational> = None;
        let mut upper: Option<Rational> = None;
        let mut row_index: usize = 0;
        while row_index < stage.rows.len()
            invariant
                row_index <= stage.rows@.len(),
                rows_within(stage.rows@, atoms as nat),
                assigned@.len() == atoms,
                atom < atoms,
                atom == stage.atom,
                at_point == assigned_values(assigned@),
                lower matches Some(bound) ==> exists|i: int|
                    #[trigger] bound_of(*stage, i, at_point, bound) && bounds_below(stage.rows@[i], atom as int),
                upper matches Some(bound) ==> exists|j: int|
                    #[trigger] bound_of(*stage, j, at_point, bound) && bounds_above(stage.rows@[j], atom as int),
                lower_kept(*stage, at_point, row_index as int, lower),
                upper_kept(*stage, at_point, row_index as int, upper),
                lower matches Some(bound) ==> lowers_under(*stage, at_point, row_index as int, bound),
            decreases stage.rows.len() - row_index,
        {
            let row = &stage.rows[row_index];
            assert(stage.rows@[row_index as int].within(atoms as nat));
            let coefficient = row.form.coefficient(atom);
            if !coefficient.is_zero() {
                // The row is `coefficient * atom + rest`, with the rest known:
                // it mentions only atoms eliminated later, which are assigned.
                let mut rest = row.form.constant.copy();
                let mut other: usize = 0;
                let ghost zeroed = at_point.update(atom as int, 0);
                while other < row.form.coefficients.len()
                    invariant
                        other <= row.form.coefficients@.len(),
                        row.form.coefficients@.len() <= atoms,
                        assigned@.len() == atoms,
                        atom < atoms,
                        at_point == assigned_values(assigned@),
                        zeroed == at_point.update(atom as int, 0),
                        rest@ == row.form@.constant + dot(row.form@, zeroed, other as nat),
                    decreases row.form.coefficients.len() - other,
                {
                    let ghost c = coef(row.form@, other as int);
                    if other != atom {
                        let value = match &assigned[other] {
                            Some(value) => value.copy(),
                            None => Integer::zero(),
                        };
                        assert(value@ == at(zeroed, other as int));
                        rest = rest.add(&row.form.coefficients[other].mul(&value));
                    } else {
                        assert(at(zeroed, other as int) == 0);
                        assert(c * at(zeroed, other as int) == 0) by (nonlinear_arith)
                            requires
                                at(zeroed, other as int) == 0,
                        ;
                    }
                    other += 1;
                }
                assert(rest@ == rest_at(*row, atom as int, at_point));
                // `coefficient * atom + rest >= 0`, or `== 0`: the bound is
                // `-rest / coefficient`, a lower bound when the coefficient is
                // positive and an upper bound when it is negative, and both
                // for an equation.
                let negated_rest = rest.neg();
                let bound = Rational::new(negated_rest, coefficient.copy());
                assert(*row == stage.rows@[row_index as int]);
                assert(coefficient@ == coef(stage.rows@[row_index as int].form@, atom as int));
                assert(bound.num() * coefficient@ == -rest@ * bound.den());
                assert(rest@ == rest_at(stage.rows@[row_index as int], atom as int, at_point));
                assert(bound_of(*stage, row_index as int, at_point, bound));
                let (is_lower, is_upper) = match row.kind {
                    Kind::Equation => (true, true),
                    Kind::Inequality => (!coefficient.is_negative(), coefficient.is_negative()),
                };
                assert(is_lower ==> bounds_below(stage.rows@[row_index as int], atom as int));
                assert(is_upper ==> bounds_above(stage.rows@[row_index as int], atom as int));
                let ghost b = bound;
                let ghost old_lower = lower;
                let ghost old_upper = upper;
                let ghost row_v = stage.rows@[row_index as int];
                proof {
                    assert forall|v: int|
                        #![trigger keeps_below(row_v, atom as int, at_point, v)]
                        #![trigger keeps_above(row_v, atom as int, at_point, v)]
                        keeps_below(row_v, atom as int, at_point, v) == (v * b.den() >= b.num()) && keeps_above(
                            row_v,
                            atom as int,
                            at_point,
                            v,
                        ) == (v * b.den() <= b.num()) by {
                        lemma_keeps(coefficient@, rest_at(row_v, atom as int, at_point), b.num(), b.den(), v);
                    }
                    assert(bounds_below(row_v, atom as int) == is_lower);
                    assert(bounds_above(row_v, atom as int) == is_upper);
                }
                let raise = is_lower && match &lower {
                    Some(known) => known.less_than(&bound),
                    None => true,
                };
                if raise {
                    let raised = bound.copy();
                    assert(bound_of(*stage, row_index as int, at_point, raised));
                    lower = Some(raised);
                }
                let drop = is_upper && match &upper {
                    Some(known) => bound.less_than(known),
                    None => true,
                };
                if drop {
                    upper = Some(bound);
                }
                proof {
                    let next = row_index + 1;
                    if raise {
                        assert forall|j: int, v: int|
                            0 <= j < next && bounds_below(stage.rows@[j], atom as int) && v * b.den() >= b.num()
                                implies #[trigger] keeps_below(stage.rows@[j], atom as int, at_point, v) by {
                            if j < row_index {
                                let known = old_lower->Some_0;
                                lemma_above_both(v, known.num(), known.den(), b.num(), b.den());
                            }
                        }
                        assert(lower_kept(*stage, at_point, next, lower));
                    } else if is_lower {
                        let known = old_lower->Some_0;
                        assert forall|j: int, v: int|
                            0 <= j < next && bounds_below(stage.rows@[j], atom as int) && v * known.den() >= known.num()
                                implies #[trigger] keeps_below(stage.rows@[j], atom as int, at_point, v) by {
                            if j == row_index {
                                lemma_above_both(v, b.num(), b.den(), known.num(), known.den());
                            }
                        }
                        assert(lower_kept(*stage, at_point, next, lower));
                    } else {
                        assert(lower_kept(*stage, at_point, next, lower));
                    }
                    if drop {
                        assert forall|j: int, v: int|
                            0 <= j < next && bounds_above(stage.rows@[j], atom as int) && v * b.den() <= b.num()
                                implies #[trigger] keeps_above(stage.rows@[j], atom as int, at_point, v) by {
                            if j < row_index {
                                let known = old_upper->Some_0;
                                lemma_below_both(v, b.num(), b.den(), known.num(), known.den());
                            }
                        }
                        assert(upper_kept(*stage, at_point, next, upper));
                    } else if is_upper {
                        let known = old_upper->Some_0;
                        assert forall|j: int, v: int|
                            0 <= j < next && bounds_above(stage.rows@[j], atom as int) && v * known.den() <= known.num()
                                implies #[trigger] keeps_above(stage.rows@[j], atom as int, at_point, v) by {
                            if j == row_index {
                                lemma_below_both(v, known.num(), known.den(), b.num(), b.den());
                            }
                        }
                        assert(upper_kept(*stage, at_point, next, upper));
                    } else {
                        assert(upper_kept(*stage, at_point, next, upper));
                    }
                    if raise {
                        assert(bound_of(*stage, row_index as int, at_point, lower->Some_0));
                        assert(exists|i: int|
                            #[trigger] bound_of(*stage, i, at_point, lower->Some_0) && bounds_below(
                                stage.rows@[i],
                                atom as int,
                            ));
                    }
                    if drop {
                        assert(bound_of(*stage, row_index as int, at_point, upper->Some_0));
                        assert(exists|j: int|
                            #[trigger] bound_of(*stage, j, at_point, upper->Some_0) && bounds_above(
                                stage.rows@[j],
                                atom as int,
                            ));
                    }
                }
                proof {
                    let next = row_index + 1;
                    let c = coefficient@;
                    let rest = rest_at(row_v, atom as int, at_point);
                    lemma_under_own(c, rest, b.num(), b.den());
                    assert(under_rational(row_v, atom as int, at_point, b.num(), b.den()));
                    if raise {
                        assert(old_lower matches Some(k) ==> k.num() * b.den() < b.num() * k.den());
                        assert forall|j: int| 0 <= j < next && bounds_below(stage.rows@[j], atom as int) implies #[trigger] under_rational(
                            stage.rows@[j],
                            atom as int,
                            at_point,
                            b.num(),
                            b.den(),
                        ) by {
                            if j == row_index {
                                assert(stage.rows@[j] == row_v);
                            } else {
                                match old_lower {
                                    Some(known) => {
                                        let rj = stage.rows@[j];
                                        assert(under_rational(rj, atom as int, at_point, known.num(), known.den()));
                                        lemma_under_larger(
                                            coef(rj.form@, atom as int),
                                            rest_at(rj, atom as int, at_point),
                                            known.num(),
                                            known.den(),
                                            b.num(),
                                            b.den(),
                                        );
                                    },
                                    None => {},
                                }
                            }
                        }
                        assert(lowers_under(*stage, at_point, next, b));
                    } else if is_lower {
                        let known = old_lower->Some_0;
                        assert(b.num() * known.den() <= known.num() * b.den());
                        lemma_under_larger(c, rest, b.num(), b.den(), known.num(), known.den());
                        assert forall|j: int| 0 <= j < next && bounds_below(stage.rows@[j], atom as int) implies #[trigger] under_rational(
                            stage.rows@[j],
                            atom as int,
                            at_point,
                            known.num(),
                            known.den(),
                        ) by {
                            if j == row_index {
                                assert(stage.rows@[j] == row_v);
                            }
                        }
                    }
                }
            }
            row_index += 1;
        }
        let ghost final_lower = lower;
        let ghost final_upper = upper;
        assert(*stage == stages@[stage_index as int]);
        assert(at_point.len() == atoms);
        let value = match (&lower, &upper) {
            (Some(low), Some(high)) => {
                let least = low.ceiling();
                proof {
                    lemma_least_over(*stage, at_point, *low, least@);
                }
                if !high.less_than(&Rational::integer(least.copy())) {
                    proof {
                        lemma_under_uppers(*stage, at_point, *high, least@);
                    }
                    least
                } else {
                    let floor = low.floor();
                    proof {
                        lemma_over_upper(*stage, at_point, *high, least@);
                        lemma_floor_lowers(*stage, at_point, *low, floor@);
                        assert(crossed(stages@[stage_index as int], at_point, floor@));
                        if ordered(stages@) {
                            assert(substituted(stages@, stage_index as int, at_point));
                            assert(exists|s: int, p: Seq<int>|
                                0 <= s < stages@.len() && stages@[s].atom == atom && p.len() == atoms && substituted(
                                    stages@,
                                    s,
                                    p,
                                ) && #[trigger] crossed(stages@[s], p, floor@));
                        }
                        assert(ordered(stages@) ==> exists|s: int, p: Seq<int>|
                            0 <= s < stages@.len() && stages@[s].atom == atom && p.len() == atoms && substituted(
                                stages@,
                                s,
                                p,
                            ) && #[trigger] crossed(stages@[s], p, floor@));
                    }
                    let ghost floor_value = floor@;
                    let split = Err((atom, floor));
                    assert(split matches Err((a, f)) && a == atom && f@ == floor_value);
                    return split;
                }
            },
            (Some(lower), None) => {
                let least = lower.ceiling();
                proof {
                    lemma_least_over(*stage, at_point, *lower, least@);
                }
                least
            },
            (None, Some(upper)) => {
                let most = upper.floor();
                proof {
                    lemma_under_uppers(*stage, at_point, *upper, most@);
                    lemma_over_upper(*stage, at_point, *upper, most@ + 1);
                    assert(!has_lower(*stage));
                }
                most
            },
            (None, None) => {
                assert(!has_lower(*stage) && !has_upper(*stage));
                Integer::zero()
            },
        };
        assert(chosen(*stage, at_point, value@));
        let ghost v = value@;
        let ghost next_point = at_point.update(atom as int, v);
        proof {
            assert(*stage == stages@[stage_index as int]);
            assert(at_point.len() == atoms);
            assert(final_lower matches Some(b) ==> v * b.den() >= b.num());
            assert(final_upper matches Some(b) ==> v * b.den() <= b.num());
            assert forall|r: int|
                0 <= r < stage.rows@.len() && coef((#[trigger] stage.rows@[r]).form@, atom as int) != 0 implies satisfies(
                stage.rows@[r].kind,
                eval(stage.rows@[r].form@, next_point),
            ) by {
                let row = stage.rows@[r];
                let c = coef(row.form@, atom as int);
                lemma_eval_update(row.form@, at_point, atom as int, v);
                assert(eval(row.form@, next_point) == rest_at(row, atom as int, at_point) + c * v);
                if bounds_below(row, atom as int) {
                    assert(keeps_below(row, atom as int, at_point, v));
                }
                if bounds_above(row, atom as int) {
                    assert(keeps_above(row, atom as int, at_point, v));
                }
            }
            assert(stage_holds(stages@[stage_index as int], next_point));
        }
        assigned.set(atom, Some(value));
        proof {
            assert(assigned_values(assigned@) =~= next_point);
            assert forall|r: int| 0 <= r < stage.rows@.len() implies #[trigger] rest_at(
                stage.rows@[r],
                atom as int,
                next_point,
            ) == rest_at(stage.rows@[r], atom as int, at_point) by {
                assert(next_point.update(atom as int, 0) =~= at_point.update(atom as int, 0));
            }
            lemma_same_rests(*stage, next_point, at_point);
            assert(chosen(stages@[stage_index as int], next_point, next_point[atom as int]));
            if ordered(stages@) {
                assert forall|t: int| stage_index - 1 < t < stages@.len() implies #[trigger] chosen(
                    stages@[t],
                    next_point,
                    next_point[stages@[t].atom as int],
                ) by {
                    if t > stage_index {
                        let later = stages@[t];
                        assert(later.atom != atom);
                        assert(later.atom < atoms);
                        assert forall|r: int| 0 <= r < later.rows@.len() implies #[trigger] rest_at(
                            later.rows@[r],
                            later.atom as int,
                            next_point,
                        ) == rest_at(later.rows@[r], later.atom as int, at_point) by {
                            assert(coef(later.rows@[r].form@, stages@[stage_index as int].atom as int) == 0);
                            lemma_rest_unmoved(later.rows@[r], later.atom as int, at_point, atom as int, v);
                        }
                        lemma_same_rests(later, next_point, at_point);
                        assert(chosen(later, at_point, at_point[later.atom as int]));
                    }
                }
                assert forall|a: int| 0 <= a < next_point.len() && !eliminated_after(stages@, stage_index - 1, a) implies #[trigger] next_point[a] == 0 by {
                    if a == atom {
                        assert(stages@[stage_index as int].atom == a);
                    }
                    if eliminated_after(stages@, stage_index as int, a) {
                        let t = choose|t: int| stage_index < t < stages@.len() && #[trigger] stages@[t].atom == a;
                        assert(stages@[t].atom == a);
                    }
                    assert(at_point[a] == 0);
                }
                assert(substituted(stages@, stage_index - 1, next_point));

                assert forall|t: int| stage_index <= t < stages@.len() implies #[trigger] stage_holds(
                    stages@[t],
                    assigned_values(assigned@),
                ) by {
                    if t > stage_index {
                        assert(stage_holds(stages@[t], at_point));
                        assert forall|r: int|
                            0 <= r < stages@[t].rows@.len() && coef(
                                (#[trigger] stages@[t].rows@[r]).form@,
                                stages@[t].atom as int,
                            ) != 0 implies satisfies(
                            stages@[t].rows@[r].kind,
                            eval(stages@[t].rows@[r].form@, next_point),
                        ) by {
                            let form = stages@[t].rows@[r].form@;
                            assert(coef(form, atom as int) == 0);
                            lemma_eval_update(form, at_point, atom as int, v);
                            lemma_eval_update(form, at_point, atom as int, at_point[atom as int]);
                            assert(at_point.update(atom as int, at_point[atom as int]) =~= at_point);
                        }
                    }
                }
            }
        }
    }
    let mut result: Vec<Integer> = Vec::new();
    while result.len() < atoms
        invariant
            result.len() <= atoms,
            assigned@.len() == atoms,
            forall|i: int| 0 <= i < result@.len() ==> #[trigger] result@[i]@ == assigned_values(assigned@)[i],
        decreases atoms - result.len(),
    {
        let value = match &assigned[result.len()] {
            Some(value) => value.copy(),
            None => Integer::zero(),
        };
        result.push(value);
    }
    assert(values(result@) =~= assigned_values(assigned@));
    Ok(result)
}

} // verus!
