//! The mathematics of linear forms: the value of a form at an assignment to
//! the atoms, and how it behaves under the operations the procedure uses.

use vstd::prelude::*;

verus! {

/// A linear form over the atoms: a constant plus a coefficient for each
/// atom, the atom at index `i` having the `i`-th coefficient and every atom
/// past the last having zero.
pub struct FormView {
    pub constant: int,
    pub coefficients: Seq<int>,
}

/// The coefficient of an atom.
pub open spec fn coef(form: FormView, atom: int) -> int {
    if 0 <= atom < form.coefficients.len() {
        form.coefficients[atom]
    } else {
        0
    }
}

/// The value an assignment gives an atom; atoms past its end are zero.
pub open spec fn at(point: Seq<int>, atom: int) -> int {
    if 0 <= atom < point.len() {
        point[atom]
    } else {
        0
    }
}

/// `sum of coef(form, a) * at(point, a)` over the atoms `a < n`.
pub open spec fn dot(form: FormView, point: Seq<int>, n: nat) -> int
    decreases n,
{
    if n == 0 {
        0
    } else {
        dot(form, point, (n - 1) as nat) + coef(form, n - 1) * at(point, n - 1)
    }
}

/// The value of a form at an assignment to the atoms.
pub open spec fn eval(form: FormView, point: Seq<int>) -> int {
    form.constant + dot(form, point, form.coefficients.len())
}

/// Whether every coefficient is zero.
pub open spec fn is_constant_view(form: FormView) -> bool {
    forall|a: int| #[trigger] coef(form, a) == 0
}

/// `left + scale * right`, coefficient by coefficient.
pub open spec fn is_scaled_sum(result: FormView, left: FormView, right: FormView, scale: int) -> bool {
    &&& result.constant == left.constant + scale * right.constant
    &&& forall|a: int| #[trigger] coef(result, a) == coef(left, a) + scale * coef(right, a)
}

/// Past the coefficients, the dot product takes no more terms.
pub proof fn lemma_dot_extends(form: FormView, point: Seq<int>, n: nat)
    requires
        n >= form.coefficients.len(),
    ensures
        dot(form, point, n) == dot(form, point, form.coefficients.len()),
    decreases n,
{
    if n > form.coefficients.len() {
        lemma_dot_extends(form, point, (n - 1) as nat);
    }
}

/// The dot product is linear in the coefficients.
pub proof fn lemma_dot_linear(result: FormView, left: FormView, right: FormView, scale: int, point: Seq<int>, n: nat)
    requires
        forall|a: int| #[trigger] coef(result, a) == coef(left, a) + scale * coef(right, a),
    ensures
        dot(result, point, n) == dot(left, point, n) + scale * dot(right, point, n),
    decreases n,
{
    if n > 0 {
        lemma_dot_linear(result, left, right, scale, point, (n - 1) as nat);
        let (r, l, q, x) = (coef(result, n - 1), coef(left, n - 1), coef(right, n - 1), at(point, n - 1));
        assert(r * x == l * x + scale * (q * x)) by (nonlinear_arith)
            requires
                r == l + scale * q,
        ;
        let (dr, dl, dq) = (dot(result, point, (n - 1) as nat), dot(left, point, (n - 1) as nat), dot(right, point, (n - 1) as nat));
        assert(dr + r * x == dl + l * x + scale * (dq + q * x)) by (nonlinear_arith)
            requires
                dr == dl + scale * dq,
                r * x == l * x + scale * (q * x),
        ;
    }
}

/// A coefficient-wise `left + scale * right` has that value everywhere.
pub proof fn lemma_eval_scaled_sum(result: FormView, left: FormView, right: FormView, scale: int, point: Seq<int>)
    requires
        is_scaled_sum(result, left, right, scale),
    ensures
        eval(result, point) == eval(left, point) + scale * eval(right, point),
{
    let n = if result.coefficients.len() >= left.coefficients.len() && result.coefficients.len()
        >= right.coefficients.len() {
        result.coefficients.len()
    } else if left.coefficients.len() >= right.coefficients.len() {
        left.coefficients.len()
    } else {
        right.coefficients.len()
    };
    lemma_dot_linear(result, left, right, scale, point, n);
    lemma_dot_extends(result, point, n);
    lemma_dot_extends(left, point, n);
    lemma_dot_extends(right, point, n);
    assert(scale * (right.constant + dot(right, point, n)) == scale * right.constant + scale * dot(
        right,
        point,
        n,
    )) by (nonlinear_arith);
}

/// A form all of whose coefficients are zero is its constant everywhere.
pub proof fn lemma_eval_constant(form: FormView, point: Seq<int>)
    requires
        is_constant_view(form),
    ensures
        eval(form, point) == form.constant,
{
    lemma_dot_zero(form, point, form.coefficients.len());
}

proof fn lemma_dot_zero(form: FormView, point: Seq<int>, n: nat)
    requires
        is_constant_view(form),
    ensures
        dot(form, point, n) == 0,
    decreases n,
{
    if n > 0 {
        lemma_dot_zero(form, point, (n - 1) as nat);
        assert(coef(form, n - 1) == 0);
    }
}

/// `sum of weights[i] * values[i]` over the indices `i < n`.
pub open spec fn weighted(weights: Seq<int>, values: Seq<int>, n: nat) -> int
    decreases n,
{
    if n == 0 {
        0
    } else {
        weighted(weights, values, (n - 1) as nat) + at(weights, n - 1) * at(values, n - 1)
    }
}

/// The weighted sum is linear in the weights.
pub proof fn lemma_weighted_linear(result: Seq<int>, left: Seq<int>, left_scale: int, right: Seq<int>, right_scale: int, values: Seq<int>, n: nat)
    requires
        forall|i: int| 0 <= i < n ==> #[trigger] at(result, i) == left_scale * at(left, i) + right_scale * at(right, i),
    ensures
        weighted(result, values, n) == left_scale * weighted(left, values, n) + right_scale * weighted(right, values, n),
    decreases n,
{
    if n > 0 {
        let m = (n - 1) as nat;
        lemma_weighted_linear(result, left, left_scale, right, right_scale, values, m);
        let (r, l, q, v) = (at(result, n - 1), at(left, n - 1), at(right, n - 1), at(values, n - 1));
        let (wr, wl, wq) = (weighted(result, values, m), weighted(left, values, m), weighted(right, values, m));
        assert(wr + r * v == left_scale * (wl + l * v) + right_scale * (wq + q * v)) by (nonlinear_arith)
            requires
                wr == left_scale * wl + right_scale * wq,
                r == left_scale * l + right_scale * q,
        ;
    }
}

/// Scaling the weights scales the sum.
pub proof fn lemma_weighted_divided(result: Seq<int>, weights: Seq<int>, divisor: int, values: Seq<int>, n: nat)
    requires
        forall|i: int| 0 <= i < n ==> #[trigger] at(weights, i) == divisor * at(result, i),
    ensures
        weighted(weights, values, n) == divisor * weighted(result, values, n),
    decreases n,
{
    if n > 0 {
        let m = (n - 1) as nat;
        lemma_weighted_divided(result, weights, divisor, values, m);
        let (w, r, v) = (at(weights, n - 1), at(result, n - 1), at(values, n - 1));
        let (ww, wr) = (weighted(weights, values, m), weighted(result, values, m));
        assert(ww + w * v == divisor * (wr + r * v)) by (nonlinear_arith)
            requires
                ww == divisor * wr,
                w == divisor * r,
        ;
    }
}

/// A weighted sum of non-negative values with non-negative weights, where
/// every value whose weight may be negative is zero, is non-negative.
pub proof fn lemma_weighted_nonneg(weights: Seq<int>, values: Seq<int>, n: nat)
    requires
        forall|i: int| 0 <= i < n ==> #[trigger] at(values, i) == 0 || (at(values, i) > 0 && at(weights, i) >= 0),
    ensures
        weighted(weights, values, n) >= 0,
    decreases n,
{
    if n > 0 {
        lemma_weighted_nonneg(weights, values, (n - 1) as nat);
        let (w, v) = (at(weights, n - 1), at(values, n - 1));
        assert(w * v >= 0) by (nonlinear_arith)
            requires
                v == 0 || (v > 0 && w >= 0),
        ;
    }
}

} // verus!
