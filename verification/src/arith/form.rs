//! Linear forms over atoms, read from terms: literals are constants,
//! `int_add`, `int_sub` and `int_neg` are read through, `int_mul` is read
//! through when one side has no atoms, and everything else is an atom. The
//! reading is exact: under any values of the atoms, a form has the value of
//! the term it was read from.

use crate::arith::linear::{
    coef, dot, eval, is_constant_view, is_scaled_sum, lemma_eval_constant, lemma_eval_scaled_sum, at,
    FormView,
};
use crate::integer::Integer;
use crate::integer::{abs, divides, is_truncated_division, times};
use crate::term::{falsehood_view, lemma_terms_view, same, terms_view, Prelude, Prim, Term, TermView};
use vstd::prelude::*;

verus! {

/// The value of a term, where `leaf` values every term that is not integer
/// arithmetic.
pub open spec fn term_value(term: TermView, leaf: spec_fn(TermView) -> int) -> int
    decreases term,
{
    match term {
        TermView::Int(value) => value,
        TermView::Prim(prim, arguments) => {
            if prim == Prim::IntAdd && arguments.len() == 2 {
                term_value(arguments[0], leaf) + term_value(arguments[1], leaf)
            } else if prim == Prim::IntSub && arguments.len() == 2 {
                term_value(arguments[0], leaf) - term_value(arguments[1], leaf)
            } else if prim == Prim::IntNeg && arguments.len() == 1 {
                -term_value(arguments[0], leaf)
            } else if prim == Prim::IntMul && arguments.len() == 2 {
                term_value(arguments[0], leaf) * term_value(arguments[1], leaf)
            } else {
                leaf(term)
            }
        },
        _ => leaf(term),
    }
}

/// Whether a point gives every atom the value of its term: `point[i]` is the
/// value of the `i`-th atom.
pub open spec fn consistent(atoms: Seq<TermView>, leaf: spec_fn(TermView) -> int, point: Seq<int>) -> bool {
    &&& atoms.len() <= point.len()
    &&& forall|i: int| 0 <= i < atoms.len() ==> point[i] == term_value(#[trigger] atoms[i], leaf)
}

/// The values of integers, one for one.
pub open spec fn values(integers: Seq<Integer>) -> Seq<int> {
    integers.map_values(|value: Integer| value@)
}

/// Whether no term occurs twice.
pub open spec fn distinct(atoms: Seq<TermView>) -> bool {
    forall|i: int, j: int| 0 <= i < j < atoms.len() ==> atoms[i] != atoms[j]
}

/// The atoms of a problem, in order of first occurrence. Two terms are one
/// atom exactly when they are the same term.
pub struct Atoms {
    terms: Vec<Term>,
}

impl View for Atoms {
    type V = Seq<TermView>;

    closed spec fn view(&self) -> Seq<TermView> {
        terms_view(self.terms@)
    }
}

impl Atoms {
    /// No atoms.
    pub fn new() -> (result: Atoms)
        ensures
            result@ == Seq::<TermView>::empty(),
    {
        Atoms { terms: Vec::new() }
    }

    /// The index of `term`, registering it when it is new.
    pub fn intern(&mut self, term: &Term) -> (index: usize)
        ensures
            index < final(self)@.len(),
            final(self)@.len() <= usize::MAX,
            final(self)@[index as int] == term@,
            old(self)@.len() <= final(self)@.len() <= old(self)@.len() + 1,
            forall|i: int| 0 <= i < old(self)@.len() ==> #[trigger] final(self)@[i] == old(self)@[i],
            (exists|i: int| 0 <= i < old(self)@.len() && old(self)@[i] == term@) ==> final(self)@
                == old(self)@,
            distinct(old(self)@) ==> distinct(final(self)@),
    {
        proof {
            lemma_terms_view(self.terms@);
        }
        let mut index: usize = 0;
        while index < self.terms.len()
            invariant
                index <= self.terms.len(),
                self.terms@ == old(self).terms@,
                terms_view(self.terms@).len() == self.terms@.len(),
                forall|i: int| 0 <= i < self.terms@.len() ==> #[trigger] terms_view(self.terms@)[i] == self.terms@[i]@,
                forall|i: int| 0 <= i < index ==> terms_view(self.terms@)[i] != term@,
            decreases self.terms.len() - index,
        {
            if same(&self.terms[index], term) {
                assert(self@[index as int] == term@);
                return index;
            }
            index += 1;
        }
        let ghost before = self.terms@;
        self.terms.push(term.copy());
        proof {
            lemma_terms_view(self.terms@);
            assert(self.terms@.subrange(0, before.len() as int) =~= before);
        }
        self.terms.len() - 1
    }

    /// The atom at `index`.
    pub fn term(&self, index: usize) -> (result: &Term)
        requires
            index < self@.len(),
        ensures
            result@ == self@[index as int],
    {
        proof {
            lemma_terms_view(self.terms@);
        }
        &self.terms[index]
    }

    /// The number of atoms.
    pub fn len(&self) -> (result: usize)
        ensures
            result == self@.len(),
    {
        proof {
            lemma_terms_view(self.terms@);
        }
        self.terms.len()
    }
}

/// A constant plus a coefficient for each atom: the `i`-th coefficient
/// belongs to the atom of index `i`, and atoms past the last have zero.
pub struct Form {
    pub constant: Integer,
    pub coefficients: Vec<Integer>,
}

impl View for Form {
    type V = FormView;

    open spec fn view(&self) -> FormView {
        FormView { constant: self.constant@, coefficients: values(self.coefficients@) }
    }
}

impl Form {
    /// The form with no atoms and the given constant.
    pub fn constant(value: Integer) -> (result: Form)
        ensures
            result@.constant == value@,
            result@.coefficients.len() == 0,
    {
        Form { constant: value, coefficients: Vec::new() }
    }

    /// The form of one atom, with coefficient 1.
    #[verifier::spinoff_prover]
    pub fn atom(index: usize) -> (result: Form)
        requires
            index < usize::MAX,
        ensures
            result@.constant == 0,
            result@.coefficients.len() == index + 1,
            forall|a: int| #[trigger] coef(result@, a) == if a == index { 1int } else { 0int },
            forall|point: Seq<int>| #[trigger] eval(result@, point) == at(point, index as int),
    {
        let mut coefficients: Vec<Integer> = Vec::new();
        while coefficients.len() < index
            invariant
                coefficients.len() <= index,
                forall|i: int| 0 <= i < coefficients.len() ==> #[trigger] coefficients@[i]@ == 0,
            decreases index - coefficients.len(),
        {
            coefficients.push(Integer::zero());
        }
        coefficients.push(Integer::one());
        let result = Form { constant: Integer::zero(), coefficients };
        assert forall|point: Seq<int>| #[trigger] eval(result@, point) == at(point, index as int) by {
            lemma_dot_zero_below(result@, point, index as nat);
        }
        result
    }

    /// `self + scale * other`.
    pub fn add_scaled(&mut self, other: &Form, scale: &Integer)
        ensures
            is_scaled_sum(final(self)@, old(self)@, other@, scale@),
            final(self)@.coefficients.len() <= old(self)@.coefficients.len()
                || final(self)@.coefficients.len() <= other@.coefficients.len(),
    {
        if scale.is_zero() {
            return;
        }
        let ghost original = self@;
        self.constant = self.constant.add(&other.constant.mul(scale));
        let ghost before = self@;
        proof {
            let (c, k) = (other@.constant, scale@);
            assert(c * k == k * c) by (nonlinear_arith);
            assert(forall|a: int| #[trigger] coef(before, a) == coef(original, a));
        }
        let mut index: usize = 0;
        while index < other.coefficients.len()
            invariant
                index <= other.coefficients.len(),
                self@.constant == before.constant,
                self@.coefficients.len() == if index <= before.coefficients.len() {
                    before.coefficients.len() as int
                } else {
                    index as int
                },
                forall|a: int| 0 <= a < index ==> #[trigger] coef(self@, a) == coef(before, a) + scale@ * coef(other@, a),
                forall|a: int| a >= index ==> #[trigger] coef(self@, a) == coef(before, a),
            decreases other.coefficients.len() - index,
        {
            let scaled = other.coefficients[index].mul(scale);
            proof {
                let (c, k) = (coef(other@, index as int), scale@);
                assert(c * k == k * c) by (nonlinear_arith);
            }
            let ghost previous = self@;
            let ghost digits = self.coefficients@;
            if index < self.coefficients.len() {
                let total = self.coefficients[index].add(&scaled);
                self.coefficients.set(index, total);
                proof {
                    assert(self.coefficients@ == digits.update(index as int, total));
                    assert(values(self.coefficients@) =~= values(digits).update(index as int, total@));
                }
            } else {
                self.coefficients.push(scaled);
                proof {
                    assert(self.coefficients@ == digits.push(scaled));
                    assert(values(self.coefficients@) =~= values(digits).push(scaled@));
                }
            }
            proof {
                assert(coef(self@, index as int) == coef(previous, index as int) + scale@ * coef(other@, index as int));
                assert forall|a: int| a != index implies #[trigger] coef(self@, a) == coef(previous, a) by {}
            }
            index += 1;
        }
        assert forall|a: int| #[trigger] coef(self@, a) == coef(before, a) + scale@ * coef(other@, a) by {
            if a >= index {
                assert(coef(other@, a) == 0);
            }
        }
    }

    /// The coefficient of an atom; zero for an atom the form does not have.
    pub fn coefficient(&self, atom: usize) -> (result: Integer)
        ensures
            result@ == coef(self@, atom as int),
    {
        if atom < self.coefficients.len() {
            self.coefficients[atom].copy()
        } else {
            Integer::zero()
        }
    }

    /// Whether the form has no atom with a coefficient other than zero.
    pub fn is_constant(&self) -> (result: bool)
        ensures
            result == is_constant_view(self@),
    {
        let mut index: usize = 0;
        while index < self.coefficients.len()
            invariant
                index <= self.coefficients.len(),
                forall|a: int| 0 <= a < index ==> coef(self@, a) == 0,
            decreases self.coefficients.len() - index,
        {
            if !self.coefficients[index].is_zero() {
                assert(coef(self@, index as int) != 0);
                return false;
            }
            index += 1;
        }
        assert forall|a: int| #[trigger] coef(self@, a) == 0 by {}
        true
    }

    /// Whether two forms are equal: the same constant and the same
    /// coefficient on every atom.
    pub fn same_form(&self, other: &Form) -> (result: bool)
        ensures
            result == (self@.constant == other@.constant && forall|a: int| #[trigger] coef(self@, a) == coef(other@, a)),
    {
        if !self.constant.equals(&other.constant) {
            return false;
        }
        let longest = if self.coefficients.len() < other.coefficients.len() {
            other.coefficients.len()
        } else {
            self.coefficients.len()
        };
        let mut index: usize = 0;
        while index < longest
            invariant
                index <= longest,
                longest >= self@.coefficients.len(),
                longest >= other@.coefficients.len(),
                forall|a: int| 0 <= a < index ==> coef(self@, a) == coef(other@, a),
            decreases longest - index,
        {
            let mine = self.coefficient(index);
            let theirs = other.coefficient(index);
            if !mine.equals(&theirs) {
                return false;
            }
            index += 1;
        }
        assert forall|a: int| #[trigger] coef(self@, a) == coef(other@, a) by {}
        true
    }

    /// The value of the form at an assignment to the atoms.
    pub fn evaluate(&self, assignment: &Vec<Integer>) -> (result: Integer)
        requires
            self@.coefficients.len() <= assignment@.len(),
        ensures
            result@ == eval(self@, values(assignment@)),
    {
        let mut value = self.constant.copy();
        let mut index: usize = 0;
        while index < self.coefficients.len()
            invariant
                index <= self.coefficients.len(),
                self@.coefficients.len() <= assignment@.len(),
                value@ == self@.constant + dot(self@, values(assignment@), index as nat),
            decreases self.coefficients.len() - index,
        {
            value = value.add(&self.coefficients[index].mul(&assignment[index]));
            index += 1;
        }
        value
    }
}

proof fn lemma_dot_zero_below(form: FormView, point: Seq<int>, n: nat)
    requires
        forall|a: int| 0 <= a < n ==> #[trigger] coef(form, a) == 0,
    ensures
        dot(form, point, n) == 0,
    decreases n,
{
    if n > 0 {
        lemma_dot_zero_below(form, point, (n - 1) as nat);
        assert(coef(form, n - 1) == 0);
    }
}

/// Whether the atoms of `after` extend those of `before`.
pub open spec fn extends(before: Seq<TermView>, after: Seq<TermView>) -> bool {
    &&& before.len() <= after.len()
    &&& forall|i: int| 0 <= i < before.len() ==> #[trigger] after[i] == before[i]
}

/// A point consistent with longer atoms is consistent with a prefix of them.
pub proof fn lemma_consistent_prefix(before: Seq<TermView>, after: Seq<TermView>, leaf: spec_fn(TermView) -> int, point: Seq<int>)
    requires
        extends(before, after),
        consistent(after, leaf, point),
    ensures
        consistent(before, leaf, point),
{
    assert forall|i: int| 0 <= i < before.len() implies point[i] == term_value(#[trigger] before[i], leaf) by {
        assert(after[i] == before[i]);
    }
}

/// How interning a term changes the atoms: not at all when the term is one
/// of them; otherwise the term is appended.
pub open spec fn interned(before: Seq<TermView>, after: Seq<TermView>, term: TermView) -> bool {
    after == interned_into(before, term)
}

/// Whether reading a term makes the term itself an atom: it is neither a
/// literal nor a sum, difference, product or negation.
pub open spec fn atomic(term: TermView) -> bool {
    match term {
        TermView::Int(_) => false,
        TermView::Prim(prim, arguments) => !((arguments.len() == 2 && (prim == Prim::IntAdd || prim == Prim::IntSub
            || prim == Prim::IntMul)) || (arguments.len() == 1 && prim == Prim::IntNeg)),
        _ => true,
    }
}

/// A literal is read as its constant, with no atoms and no coefficients.
pub open spec fn literal_read(term: TermView, form: FormView, before: Seq<TermView>, after: Seq<TermView>) -> bool {
    match term {
        TermView::Int(value) => form.constant == value && form.coefficients.len() == 0 && after == before,
        _ => true,
    }
}

/// Whether a term is a product of two factors.
pub open spec fn is_product(term: TermView) -> bool {
    match term {
        TermView::Prim(prim, arguments) => prim == Prim::IntMul && arguments.len() == 2,
        _ => false,
    }
}

/// The atoms with a term interned: unchanged when it is one of them,
/// otherwise with the term appended.
pub open spec fn interned_into(before: Seq<TermView>, term: TermView) -> Seq<TermView> {
    if before.contains(term) {
        before
    } else {
        before.push(term)
    }
}

/// Whether a term is the product of two atoms.
pub open spec fn product_of_atoms(term: TermView) -> bool {
    match term {
        TermView::Prim(prim, arguments) => prim == Prim::IntMul && arguments.len() == 2 && atomic(arguments[0])
            && atomic(arguments[1]),
        _ => false,
    }
}

/// The atoms after reading a product of two atoms: the left factor, the
/// right factor, then the product, each interned in turn.
pub open spec fn product_atoms(before: Seq<TermView>, term: TermView) -> Seq<TermView> {
    match term {
        TermView::Prim(_, arguments) => interned_into(
            interned_into(interned_into(before, arguments[0]), arguments[1]),
            term,
        ),
        _ => before,
    }
}

/// Whether a form is one atom's, with coefficient 1: the atom at an index
/// that holds the term.
pub open spec fn unit_form_of(form: FormView, atoms: Seq<TermView>, term: TermView) -> bool {
    exists|index: int|
        0 <= index < atoms.len() && atoms[index] == term && form.constant == 0 && forall|a: int|
            #[trigger] coef(form, a) == if a == index {
                1int
            } else {
                0int
            }
}

/// How reading a product changes the atoms: first the atoms of its factors
/// are registered, and afterwards at most the product itself is interned,
/// when neither factor is constant.
pub open spec fn factors_first(before: Seq<TermView>, after: Seq<TermView>, term: TermView) -> bool {
    exists|middle: Seq<TermView>|
        #[trigger] extends(before, middle) && (forall|atom: TermView| registered(term, atom) ==> middle.contains(atom))
            && (after == middle || interned(middle, after, term))
}

/// The form of an atom: its index, registered.
fn atom_form(atoms: &mut Atoms, term: &Term) -> (form: Form)
    ensures
        final(atoms)@.contains(term@),
        extends(old(atoms)@, final(atoms)@),
        distinct(old(atoms)@) ==> distinct(final(atoms)@),
        form@.coefficients.len() <= final(atoms)@.len(),
        forall|leaf: spec_fn(TermView) -> int, point: Seq<int>|
            #[trigger] consistent(final(atoms)@, leaf, point) ==> eval(form@, point) == term_value(term@, leaf),
        interned(old(atoms)@, final(atoms)@, term@),
        unit_form_of(form@, final(atoms)@, term@),
{
    let ghost before = atoms@;
    let index = atoms.intern(term);
    proof {
        if !before.contains(term@) {
            if index < before.len() {
                assert(before[index as int] == term@);
            }
            assert(atoms@ =~= before.push(term@));
        }
    }
    let form = Form::atom(index);
    assert forall|leaf: spec_fn(TermView) -> int, point: Seq<int>|
        #[trigger] consistent(atoms@, leaf, point) implies eval(form@, point) == term_value(term@, leaf) by {
        assert(point[index as int] == term_value(atoms@[index as int], leaf));
    }
    assert(atoms@[index as int] == term@);
    assert(unit_form_of(form@, atoms@, term@));
    form
}

/// Whether reading a term registers a term as an atom: the terms that are
/// neither literals nor sums, differences, products or negations are atoms,
/// and a sum, difference, product or negation has the atoms of its
/// operands, the factors of a product read whether or not the product is
/// linear.
pub open spec fn registered(term: TermView, atom: TermView) -> bool
    decreases term,
{
    match term {
        TermView::Int(_) => false,
        TermView::Prim(prim, arguments) => if arguments.len() == 2 && (prim == Prim::IntAdd || prim == Prim::IntSub
            || prim == Prim::IntMul) {
            registered(arguments[0], atom) || registered(arguments[1], atom)
        } else if arguments.len() == 1 && prim == Prim::IntNeg {
            registered(arguments[0], atom)
        } else {
            atom == term
        },
        _ => atom == term,
    }
}

/// Whether a term is integer arithmetic on literals alone: sums,
/// differences, negations and products of literals, with no atom in it.
pub open spec fn closed(term: TermView) -> bool
    decreases term,
{
    match term {
        TermView::Int(_) => true,
        TermView::Prim(prim, arguments) => if arguments.len() == 2 && (prim == Prim::IntAdd || prim == Prim::IntSub
            || prim == Prim::IntMul) {
            closed(arguments[0]) && closed(arguments[1])
        } else if arguments.len() == 1 && prim == Prim::IntNeg {
            closed(arguments[0])
        } else {
            false
        },
        _ => false,
    }
}

/// The value of a term with every non-arithmetic term valued 0; for a
/// closed term, its value under any interpretation.
pub open spec fn literal_value(term: TermView) -> int {
    term_value(term, |t: TermView| 0int)
}

/// A closed term has the same value under every interpretation.
pub proof fn lemma_closed_value(term: TermView, leaf: spec_fn(TermView) -> int)
    requires
        closed(term),
    ensures
        term_value(term, leaf) == literal_value(term),
    decreases term,
{
    if let TermView::Prim(prim, arguments) = term {
        if arguments.len() == 2 {
            lemma_closed_value(arguments[0], leaf);
            lemma_closed_value(arguments[1], leaf);
        } else if arguments.len() == 1 {
            lemma_closed_value(arguments[0], leaf);
        }
    }
}

/// Reads a term as a linear form, registering its atoms. Under any point
/// that gives the atoms the values of their terms, the form has the value
/// of the term.
pub fn read_form(atoms: &mut Atoms, term: &Term) -> (form: Form)
    ensures
        extends(old(atoms)@, final(atoms)@),
        distinct(old(atoms)@) ==> distinct(final(atoms)@),
        form@.coefficients.len() <= final(atoms)@.len(),
        forall|leaf: spec_fn(TermView) -> int, point: Seq<int>|
            #[trigger] consistent(final(atoms)@, leaf, point) ==> eval(form@, point) == term_value(term@, leaf),
        forall|atom: TermView| #[trigger] registered(term@, atom) ==> final(atoms)@.contains(atom),
        closed(term@) ==> final(atoms)@ == old(atoms)@ && is_constant_view(form@),
        atomic(term@) ==> interned(old(atoms)@, final(atoms)@, term@),
        literal_read(term@, form@, old(atoms)@, final(atoms)@),
        is_product(term@) ==> factors_first(old(atoms)@, final(atoms)@, term@),
        atomic(term@) ==> unit_form_of(form@, final(atoms)@, term@),
        product_of_atoms(term@) ==> final(atoms)@ == product_atoms(old(atoms)@, term@) && unit_form_of(
            form@,
            final(atoms)@,
            term@,
        ),
    decreases term,
{
    let ghost start = atoms@;
    match term {
        Term::Int(value) => {
            let form = Form::constant(value.copy());
            assert forall|leaf: spec_fn(TermView) -> int, point: Seq<int>|
                #[trigger] consistent(atoms@, leaf, point) implies eval(form@, point) == term_value(term@, leaf) by {}
            assert(is_constant_view(form@));
            form
        },
        Term::Prim(prim, arguments) => {
            proof {
                lemma_terms_view(arguments@);
            }
            let binary = *prim == Prim::IntAdd || *prim == Prim::IntSub || *prim == Prim::IntMul;
            if arguments.len() == 2 && binary {
                let left = read_form(atoms, &arguments[0]);
                let ghost middle = atoms@;
                let right = read_form(atoms, &arguments[1]);
                let ghost end = atoms@;
                assert(extends(start, end));
                assert(term@ == TermView::Prim(*prim, terms_view(arguments@)));
                assert(terms_view(arguments@)[0] == arguments@[0]@ && terms_view(arguments@)[1] == arguments@[1]@);
                assert forall|atom: TermView| #[trigger] registered(term@, atom) implies end.contains(atom) by {
                    assert(registered(arguments@[0]@, atom) || registered(arguments@[1]@, atom));
                    if registered(arguments@[0]@, atom) {
                        let i = choose|i: int| 0 <= i < middle.len() && middle[i] == atom;
                        assert(end[i] == middle[i]);
                    }
                }
                if *prim == Prim::IntMul {
                    proof {
                        if product_of_atoms(term@) {
                            assert(atomic(arguments@[0]@) && atomic(arguments@[1]@));
                            let i = choose|i: int|
                                0 <= i < middle.len() && middle[i] == arguments@[0]@ && left@.constant == 0 && forall|a: int|
                                    #[trigger] coef(left@, a) == if a == i {
                                        1int
                                    } else {
                                        0int
                                    };
                            assert(coef(left@, i) == 1);
                            let j = choose|j: int|
                                0 <= j < end.len() && end[j] == arguments@[1]@ && right@.constant == 0 && forall|a: int|
                                    #[trigger] coef(right@, a) == if a == j {
                                        1int
                                    } else {
                                        0int
                                    };
                            assert(coef(right@, j) == 1);
                            assert(!is_constant_view(left@) && !is_constant_view(right@));
                        }
                    }
                    if left.is_constant() {
                        let mut form = Form::constant(Integer::zero());
                        let ghost empty = form@;
                        form.add_scaled(&right, &left.constant);
                        assert forall|leaf: spec_fn(TermView) -> int, point: Seq<int>|
                            #[trigger] consistent(end, leaf, point) implies eval(form@, point) == term_value(term@, leaf) by {
                            lemma_consistent_prefix(middle, end, leaf, point);
                            assert(consistent(middle, leaf, point));
                            lemma_eval_scaled_sum(form@, empty, right@, left@.constant, point);
                            lemma_eval_constant(left@, point);
                        }
                        proof {
                            if closed(term@) {
                                assert(closed(arguments@[1]@));
                                assert forall|a: int| #[trigger] coef(form@, a) == 0 by {
                                    assert(coef(empty, a) == 0);
                                    assert(coef(right@, a) == 0);
                                    assert(left@.constant * coef(right@, a) == 0);
                                }
                            }
                        }
                        form
                    } else if right.is_constant() {
                        let mut form = Form::constant(Integer::zero());
                        let ghost empty = form@;
                        form.add_scaled(&left, &right.constant);
                        assert forall|leaf: spec_fn(TermView) -> int, point: Seq<int>|
                            #[trigger] consistent(end, leaf, point) implies eval(form@, point) == term_value(term@, leaf) by {
                            lemma_consistent_prefix(middle, end, leaf, point);
                            assert(consistent(middle, leaf, point));
                            lemma_eval_scaled_sum(form@, empty, left@, right@.constant, point);
                            lemma_eval_constant(right@, point);
                            let (l, r) = (eval(left@, point), eval(right@, point));
                            assert(r * l == l * r) by (nonlinear_arith);
                        }
                        form
                    } else {
                        let form = atom_form(atoms, term);
                        assert forall|atom: TermView| #[trigger] registered(term@, atom) implies atoms@.contains(atom) by {
                            let i = choose|i: int| 0 <= i < end.len() && end[i] == atom;
                            assert(atoms@[i] == end[i]);
                        }
                        form
                    }
                } else {
                    let mut form = left;
                    let ghost first = form@;
                    let scale = if *prim == Prim::IntAdd {
                        Integer::one()
                    } else {
                        Integer::minus_one()
                    };
                    form.add_scaled(&right, &scale);
                    assert forall|leaf: spec_fn(TermView) -> int, point: Seq<int>|
                        #[trigger] consistent(end, leaf, point) implies eval(form@, point) == term_value(term@, leaf) by {
                        lemma_consistent_prefix(middle, end, leaf, point);
                        assert(consistent(middle, leaf, point));
                        lemma_eval_scaled_sum(form@, first, right@, scale@, point);
                    }
                    proof {
                        if closed(term@) {
                            assert(closed(arguments@[0]@) && closed(arguments@[1]@));
                            assert forall|a: int| #[trigger] coef(form@, a) == 0 by {
                                assert(coef(first, a) == 0);
                                assert(coef(right@, a) == 0);
                                assert(scale@ * coef(right@, a) == 0);
                            }
                        }
                    }
                    form
                }
            } else if arguments.len() == 1 && *prim == Prim::IntNeg {
                let inner = read_form(atoms, &arguments[0]);
                assert(term@ == TermView::Prim(*prim, terms_view(arguments@)));
                assert(terms_view(arguments@)[0] == arguments@[0]@);
                assert forall|atom: TermView| #[trigger] registered(term@, atom) implies atoms@.contains(atom) by {
                    assert(registered(arguments@[0]@, atom));
                }
                let mut form = Form::constant(Integer::zero());
                let ghost empty = form@;
                form.add_scaled(&inner, &Integer::minus_one());
                assert forall|leaf: spec_fn(TermView) -> int, point: Seq<int>|
                    #[trigger] consistent(atoms@, leaf, point) implies eval(form@, point) == term_value(term@, leaf) by {
                    lemma_eval_scaled_sum(form@, empty, inner@, -1, point);
                }
                proof {
                    if closed(term@) {
                        assert(closed(arguments@[0]@));
                        assert forall|a: int| #[trigger] coef(form@, a) == 0 by {
                            assert(coef(empty, a) == 0);
                            assert(coef(inner@, a) == 0);
                        }
                    }
                }
                form
            } else {
                atom_form(atoms, term)
            }
        },
        _ => atom_form(atoms, term),
    }
}

/// Whether a constraint says its form is non-negative or zero.
#[derive(Clone, Copy, Debug, PartialEq, Eq, Structural)]
pub enum Kind {
    /// `form >= 0`; a certificate may use it with a non-negative
    /// coefficient only.
    Inequality,
    /// `form == 0`; a certificate may use it with either sign.
    Equation,
}

/// Whether a value satisfies a constraint of the kind.
pub open spec fn satisfies(kind: Kind, value: int) -> bool {
    match kind {
        Kind::Inequality => value >= 0,
        Kind::Equation => value == 0,
    }
}

/// The two sides of `int_le(left, right)`.
pub open spec fn le_sides(prop: TermView) -> Option<(TermView, TermView)> {
    match prop {
        TermView::Prim(prim, arguments) => if prim == Prim::IntLe && arguments.len() == 2 {
            Some((arguments[0], arguments[1]))
        } else {
            None
        },
        _ => None,
    }
}

/// The kind of constraint a proposition is read as, if it is one: the three
/// shapes `int_le(s, t)`, `s ==[Int] t`, and `int_le(s, t) => False`.
pub open spec fn constraint_kind(prop: TermView, falsehood: Option<TermView>) -> Option<Kind> {
    if le_sides(prop) is Some {
        Some(Kind::Inequality)
    } else {
        match prop {
            TermView::EqInt(_, _) => Some(Kind::Equation),
            TermView::Implies(premise, conclusion) => if le_sides(*premise) is Some && falsehood
                == Some(*conclusion) {
                Some(Kind::Inequality)
            } else {
                None
            },
            _ => None,
        }
    }
}

/// The value the form of a constraint has: `t - s` for `int_le(s, t)` and
/// for `s ==[Int] t`, and `s - t - 1` for `int_le(s, t) => False`.
pub open spec fn constraint_value(prop: TermView, leaf: spec_fn(TermView) -> int) -> int {
    match le_sides(prop) {
        Some((left, right)) => term_value(right, leaf) - term_value(left, leaf),
        None => match prop {
            TermView::EqInt(left, right) => term_value(*right, leaf) - term_value(*left, leaf),
            TermView::Implies(premise, _) => match le_sides(*premise) {
                Some((left, right)) => term_value(left, leaf) - term_value(right, leaf) - 1,
                None => 0,
            },
            _ => 0,
        },
    }
}

/// Whether a constraint is true, read as integer arithmetic.
pub open spec fn constraint_holds(prop: TermView, leaf: spec_fn(TermView) -> int) -> bool {
    match le_sides(prop) {
        Some((left, right)) => term_value(left, leaf) <= term_value(right, leaf),
        None => match prop {
            TermView::EqInt(left, right) => term_value(*left, leaf) == term_value(*right, leaf),
            TermView::Implies(premise, _) => match le_sides(*premise) {
                Some((left, right)) => !(term_value(left, leaf) <= term_value(right, leaf)),
                None => false,
            },
            _ => false,
        },
    }
}

/// A constraint's form satisfies its kind exactly when the constraint
/// holds: over the integers, `s <= t` fails exactly when `s - t - 1 >= 0`.
pub proof fn lemma_constraint_reading(prop: TermView, falsehood: Option<TermView>, leaf: spec_fn(TermView) -> int)
    requires
        constraint_kind(prop, falsehood) is Some,
    ensures
        satisfies(constraint_kind(prop, falsehood).unwrap(), constraint_value(prop, leaf))
            == constraint_holds(prop, leaf),
{
}

/// The falsehood of an optional prelude, viewed.
pub open spec fn falsehood_of(prelude: Option<Prelude>) -> Option<TermView> {
    match prelude {
        Some(prelude) => Some(falsehood_view(prelude)),
        None => None,
    }
}

/// `int_le(s, t)`, as its two sides.
pub fn comparison(prop: &Term) -> (result: Option<(&Term, &Term)>)
    ensures
        match result {
            Some((left, right)) => le_sides(prop@) == Some((left@, right@)),
            None => le_sides(prop@) is None,
        },
{
    match prop {
        Term::Prim(prim, arguments) => {
            proof {
                lemma_terms_view(arguments@);
            }
            if *prim == Prim::IntLe && arguments.len() == 2 {
                Some((&arguments[0], &arguments[1]))
            } else {
                None
            }
        },
        _ => None,
    }
}

/// `right - left`: non-negative when `left <= right`, zero when equal.
fn difference(atoms: &mut Atoms, left: &Term, right: &Term) -> (form: Form)
    ensures
        extends(old(atoms)@, final(atoms)@),
        distinct(old(atoms)@) ==> distinct(final(atoms)@),
        form@.coefficients.len() <= final(atoms)@.len(),
        forall|leaf: spec_fn(TermView) -> int, point: Seq<int>|
            #[trigger] consistent(final(atoms)@, leaf, point) ==> eval(form@, point)
                == term_value(right@, leaf) - term_value(left@, leaf),
        closed(left@) && closed(right@) ==> final(atoms)@ == old(atoms)@ && is_constant_view(form@),
{
    let mut form = read_form(atoms, right);
    let ghost middle = atoms@;
    let ghost first = form@;
    let other = read_form(atoms, left);
    form.add_scaled(&other, &Integer::minus_one());
    assert forall|leaf: spec_fn(TermView) -> int, point: Seq<int>|
        #[trigger] consistent(atoms@, leaf, point) implies eval(form@, point) == term_value(right@, leaf)
            - term_value(left@, leaf) by {
        lemma_consistent_prefix(middle, atoms@, leaf, point);
        assert(consistent(middle, leaf, point));
        lemma_eval_scaled_sum(form@, first, other@, -1, point);
    }
    proof {
        if closed(left@) && closed(right@) {
            assert forall|a: int| #[trigger] coef(form@, a) == 0 by {
                assert(coef(first, a) == 0);
                assert(coef(other@, a) == 0);
            }
        }
    }
    form
}

/// `left - right - 1`: non-negative exactly when `left <= right` fails,
/// which is where the discreteness of the integers enters.
pub fn negation(atoms: &mut Atoms, left: &Term, right: &Term) -> (form: Form)
    ensures
        extends(old(atoms)@, final(atoms)@),
        distinct(old(atoms)@) ==> distinct(final(atoms)@),
        form@.coefficients.len() <= final(atoms)@.len(),
        forall|leaf: spec_fn(TermView) -> int, point: Seq<int>|
            #[trigger] consistent(final(atoms)@, leaf, point) ==> eval(form@, point)
                == term_value(left@, leaf) - term_value(right@, leaf) - 1,
        closed(left@) && closed(right@) ==> final(atoms)@ == old(atoms)@ && is_constant_view(form@),
{
    let mut form = difference(atoms, right, left);
    let ghost before = form@;
    form.constant = form.constant.sub(&Integer::one());
    assert forall|leaf: spec_fn(TermView) -> int, point: Seq<int>|
        #[trigger] consistent(atoms@, leaf, point) implies eval(form@, point) == term_value(left@, leaf)
            - term_value(right@, leaf) - 1 by {
        crate::arith::linear::lemma_dot_linear(form@, before, before, 0, point, before.coefficients.len());
    }
    assert(forall|a: int| #[trigger] coef(form@, a) == coef(before, a));
    form
}

/// Reads a proposition as a constraint, in the three shapes: `int_le(s,
/// t)`, `s ==[Int] t`, and `int_le(s, t) => False`; anything else is not a
/// constraint.
pub fn read_constraint(atoms: &mut Atoms, prelude: Option<Prelude>, prop: &Term) -> (result: Option<(Form, Kind)>)
    ensures
        extends(old(atoms)@, final(atoms)@),
        distinct(old(atoms)@) ==> distinct(final(atoms)@),
        match result {
            Some((form, kind)) => {
                &&& constraint_kind(prop@, falsehood_of(prelude)) == Some(kind)
                &&& form@.coefficients.len() <= final(atoms)@.len()
                &&& forall|leaf: spec_fn(TermView) -> int, point: Seq<int>|
                    #[trigger] consistent(final(atoms)@, leaf, point) ==> eval(form@, point)
                        == constraint_value(prop@, leaf)
            },
            None => constraint_kind(prop@, falsehood_of(prelude)) is None && final(atoms)@ == old(atoms)@,
        },
{
    if let Some((left, right)) = comparison(prop) {
        return Some((difference(atoms, left, right), Kind::Inequality));
    }
    match prop {
        Term::EqInt(left, right) => Some((difference(atoms, left, right), Kind::Equation)),
        Term::Implies(premise, conclusion) => {
            if let Some((left, right)) = comparison(premise) {
                if let Some(prelude) = prelude {
                    if same(conclusion, &prelude.falsehood_prop()) {
                        return Some((negation(atoms, left, right), Kind::Inequality));
                    }
                }
            }
            None
        },
        _ => None,
    }
}

/// The greatest common divisor of two natural numbers, by Euclid's
/// algorithm; `gcd(0, 0)` is `0`.
pub open spec fn spec_gcd(left: nat, right: nat) -> nat
    decreases right,
{
    if right == 0 {
        left
    } else {
        spec_gcd(right, left % right)
    }
}

/// The greatest common divisor divides both, and is zero only for two
/// zeros.
pub proof fn lemma_gcd(left: nat, right: nat)
    ensures
        divides(spec_gcd(left, right) as int, left as int),
        divides(spec_gcd(left, right) as int, right as int),
        (spec_gcd(left, right) == 0) == (left == 0 && right == 0),
    decreases right,
{
    let g = spec_gcd(left, right) as int;
    if right == 0 {
        assert(left as int == times(g, 1));
        assert(0 == times(g, 0));
    } else {
        let remainder = left % right;
        lemma_gcd(right, remainder);
        let j = choose|j: int| right as int == times(g, j);
        let k = choose|k: int| remainder as int == times(g, k);
        let quotient = left / right;
        assert(left as int == quotient * right + remainder) by {
            vstd::arithmetic::div_mod::lemma_fundamental_div_mod(left as int, right as int);
        }
        assert(left as int == times(g, quotient * j + k)) by (nonlinear_arith)
            requires
                left as int == quotient * right + remainder,
                right as int == g * j,
                remainder as int == g * k,
        ;
    }
}

/// Every common divisor of two numbers divides their greatest common
/// divisor.
pub proof fn lemma_gcd_greatest(divisor: int, left: nat, right: nat)
    requires
        divides(divisor, left as int),
        divides(divisor, right as int),
    ensures
        divides(divisor, spec_gcd(left, right) as int),
    decreases right,
{
    if right != 0 {
        let remainder = left % right;
        let quotient = left / right;
        assert(left as int == quotient * right + remainder) by {
            vstd::arithmetic::div_mod::lemma_fundamental_div_mod(left as int, right as int);
        }
        let j = choose|j: int| left as int == times(divisor, j);
        let k = choose|k: int| right as int == times(divisor, k);
        assert(remainder as int == times(divisor, j - quotient * k)) by (nonlinear_arith)
            requires
                left as int == quotient * right + remainder,
                left as int == divisor * j,
                right as int == divisor * k,
        ;
        lemma_gcd_greatest(divisor, right, remainder);
    }
}

/// Divisibility is transitive.
pub proof fn lemma_divides_transitive(a: int, b: int, c: int)
    requires
        divides(a, b),
        divides(b, c),
    ensures
        divides(a, c),
{
    let j = choose|j: int| b == times(a, j);
    let k = choose|k: int| c == times(b, k);
    assert(c == times(a, j * k)) by (nonlinear_arith)
        requires
            b == a * j,
            c == b * k,
    ;
}

/// Divisibility does not see signs.
pub proof fn lemma_divides_abs(a: int, b: int)
    ensures
        divides(a, b) == divides(a, abs(b)),
        divides(a, b) == divides(abs(a), b),
{
    assert forall|x: int, y: int| #[trigger] times(x, -y) == -times(x, y) by {
        assert(x * (-y) == -(x * y)) by (nonlinear_arith);
    }
    assert forall|x: int, y: int| #[trigger] times(-x, y) == -times(x, y) by {
        assert((-x) * y == -(x * y)) by (nonlinear_arith);
    }
    if divides(a, b) {
        let k = choose|k: int| b == times(a, k);
        assert(abs(b) == times(a, if b < 0 { -k } else { k }));
        assert(b == times(abs(a), if a < 0 { -k } else { k }));
    }
    if divides(a, abs(b)) {
        let k = choose|k: int| abs(b) == times(a, k);
        assert(b == times(a, if b < 0 { -k } else { k }));
    }
    if divides(abs(a), b) {
        let k = choose|k: int| b == times(abs(a), k);
        assert(b == times(a, if a < 0 { -k } else { k }));
    }
}

/// The greatest common divisor of the magnitudes; `gcd(0, 0)` is `0`.
pub fn gcd(left: &Integer, right: &Integer) -> (result: Integer)
    ensures
        result@ == spec_gcd(abs(left@) as nat, abs(right@) as nat),
        result@ >= 0,
        divides(result@, left@),
        divides(result@, right@),
        (result@ == 0) == (left@ == 0 && right@ == 0),
        forall|d: int| divides(d, left@) && divides(d, right@) ==> #[trigger] divides(d, result@),
{
    let mut a = left.magnitude();
    let mut b = right.magnitude();
    while !b.is_zero()
        invariant
            a@ >= 0,
            b@ >= 0,
            spec_gcd(a@ as nat, b@ as nat) == spec_gcd(abs(left@) as nat, abs(right@) as nat),
        decreases b@,
    {
        let (quotient, remainder) = a.div_rem(&b);
        proof {
            vstd::arithmetic::div_mod::lemma_fundamental_div_mod_converse(a@, b@, quotient@, remainder@);
        }
        a = b;
        b = remainder;
    }
    proof {
        lemma_gcd(abs(left@) as nat, abs(right@) as nat);
        lemma_divides_abs(a@, left@);
        lemma_divides_abs(a@, right@);
        assert forall|d: int| divides(d, left@) && divides(d, right@) implies #[trigger] divides(d, a@) by {
            lemma_divides_abs(d, left@);
            lemma_divides_abs(d, right@);
            lemma_gcd_greatest(d, abs(left@) as nat, abs(right@) as nat);
        }
    }
    a
}

} // verus!
