//! The arithmetic procedure: finds certificates for linear integer
//! arithmetic.
//!
//! The goal and the facts in scope are turned into linear constraints over
//! the integers, each with the proof that stands behind it; the range of
//! every machine view and the quotient and remainder facts of every division
//! by a literal are added as axiom instances; the atoms are eliminated by
//! Fourier-Motzkin, keeping for every derived inequality the combination of
//! original constraints it came from; and when a contradiction is derived,
//! those multipliers are the certificate. When the constraints are
//! consistent over the rationals but the goal holds over the integers, the
//! elimination's own point says where to split: at an atom whose value
//! would have to be fractional, the goal is proved in the two cases
//! `atom <= k` and `k + 1 <= atom`. Effort is limited by counts, never by a
//! clock, so that a problem is decided the same way on every machine.

pub mod collect;
pub mod form;
pub mod fourier;
pub mod linear;
pub mod rational;
pub mod truth;

use crate::arith::form::{
    comparison, consistent, constraint_holds, constraint_kind, constraint_value, distinct, extends,
    falsehood_of, le_sides, lemma_consistent_prefix, lemma_constraint_reading, negation, closed, literal_value,
    lemma_closed_value,
    read_constraint, satisfies, term_value, values, Atoms, Form, Kind,
};
use crate::arith::collect::{claimed, collected, decomposed, hypothesis_claims};
use crate::arith::fourier::{eliminate, lemma_refutation_sound, point, refutes_all, unit_weights, Outcome, Row};
use crate::arith::truth::{assumed, context_holds, copy_context, follows, holds, lemma_context_push, lemma_holds_constraint};
use crate::arith::linear::{eval, lemma_eval_constant, FormView};
use crate::integer::Integer;
use crate::integer::signed_decimal;
use crate::term::{same_proof, 
    binary, eq_view, le_view, lemma_terms_view, lt_view, same, successor_view, term_text, terms_view, unary,
    Arm, Axiom, Binding, Context, MachineInt, Prelude, Prim, Proof, Term, TermView, Type,
};
use crate::text::{decimal, decimal_text};
use vstd::prelude::*;

verus! {

/// The most pairs a certificate of the rule `linear` may have.
pub const MAX_LINEAR_PAIRS: usize = 1024;

/// The most atoms a problem of the rule `linear` may have.
pub const MAX_LINEAR_ATOMS: usize = 256;

/// The counts that limit the procedure's effort. Every one is a count, so
/// that the outcome is the same on every machine.
#[derive(Clone, Copy, Debug, PartialEq, Eq, Structural)]
pub struct Budget {
    /// The most atoms eliminated, across a run and its nested runs.
    pub eliminations: usize,
    /// The most constraints derived by elimination, across a run and its
    /// nested runs. This is the count that Fourier-Motzkin's blow-up hits.
    pub derived: usize,
    /// The most pairs in the certificate.
    pub pairs: usize,
    /// The most atoms in a problem.
    pub atoms: usize,
    /// The most bits in any coefficient or multiplier.
    pub bits: usize,
    /// The most nested runs, one inside another, that discharge the
    /// conditions of division axioms.
    pub depth: usize,
    /// The most case splits, across a run and its nested runs: each is a
    /// goal proved in the two cases `atom <= k` and `k + 1 <= atom`.
    pub branches: usize,
}

impl Default for Budget {
    fn default() -> (result: Self)
        ensures
            result.eliminations == 1024,
            result.derived == 16384,
            result.pairs == MAX_LINEAR_PAIRS,
            result.atoms == MAX_LINEAR_ATOMS,
            result.bits == 256,
            result.depth == 4,
            result.branches == 64,
    {
        Budget {
            eliminations: 1024,
            derived: 16384,
            pairs: MAX_LINEAR_PAIRS,
            atoms: MAX_LINEAR_ATOMS,
            bits: 256,
            depth: 4,
            branches: 64,
        }
    }
}

/// What a run and its nested runs have spent of the shared counts.
pub struct Spent {
    pub eliminations: usize,
    pub derived: usize,
    pub branches: usize,
}

impl Spent {
    /// Nothing spent.
    pub fn new() -> (result: Spent)
        ensures
            result.eliminations == 0,
            result.derived == 0,
            result.branches == 0,
    {
        Spent { eliminations: 0, derived: 0, branches: 0 }
    }
}

/// Why the procedure gave up.
pub enum Reason {
    /// The goal is not `int_le(s, t)`, `s ==[Int] t`, or `False`.
    NotLinear(Term),
    /// Every atom was eliminated without a contradiction: the negated goal
    /// and the constraints are consistent over the rationals, so no
    /// certificate exists.
    Consistent,
    /// The named count ran out.
    Budget { name: &'static str, limit: usize },
    /// The goal needs the prelude, which the context does not have.
    NoPrelude,
}

/// The bound of the box a counterexample is sought in when the procedure
/// gave up on a budget and has no point of its own: every atom in
/// `-COUNTEREXAMPLE_BOX..=COUNTEREXAMPLE_BOX`.
pub const COUNTEREXAMPLE_BOX: i64 = 8;

/// The most atoms the box is searched over; it has `(2 * BOX + 1)^atoms`
/// points.
pub const COUNTEREXAMPLE_ATOMS: usize = 4;

/// A counterexample, or why there is none to report.
pub enum Counterexample {
    /// An assignment to the atoms that satisfies every collected constraint
    /// and violates the goal, checked by evaluating the linear reading of
    /// each.
    Found(Vec<(Term, Integer)>),
    /// The box was searched and holds none.
    NoneInBox,
    /// None was sought: the procedure gave up before it had a point, and
    /// the problem has too many atoms for the box to be searched.
    NotSought,
}

/// The procedure gave up: the reason, the constraints it had, and a
/// counterexample when it found one.
pub struct GaveUp {
    pub reason: Reason,
    /// The constraints collected, in order.
    pub constraints: Vec<Term>,
    pub counterexample: Counterexample,
}

impl GaveUp {
    /// A report with no constraints and no counterexample.
    fn bare(reason: Reason) -> (result: GaveUp)
        ensures
            result.reason == reason,
            result.constraints@.len() == 0,
            result.counterexample is NotSought,
    {
        GaveUp { reason, constraints: Vec::new(), counterexample: Counterexample::NotSought }
    }
}

/// Why the procedure gave up, in words.
pub open spec fn reason_text(reason: Reason) -> Seq<char> {
    match reason {
        Reason::NotLinear(goal) => "the goal "@ + term_text(goal@) + " is not a linear comparison"@,
        Reason::Consistent => "no certificate exists: the constraints and the negated goal are consistent over the rationals"@,
        Reason::Budget { name, limit } => "the budget `"@ + name@ + "` of "@ + decimal(limit as nat) + " ran out"@,
        Reason::NoPrelude => "the goal needs the prelude's False"@,
    }
}

/// Constraints, each on a line of its own, indented.
pub open spec fn constraints_text(constraints: Seq<TermView>) -> Seq<char>
    decreases constraints.len(),
{
    if constraints.len() == 0 {
        Seq::empty()
    } else {
        constraints_text(constraints.drop_last()) + "\n  "@ + term_text(constraints.last())
    }
}

/// An atom and its value, as `atom = value`.
pub open spec fn binding_text(entry: (Term, Integer)) -> Seq<char> {
    term_text(entry.0@) + " = "@ + signed_decimal(entry.1@)
}

/// An assignment to atoms, separated by `, `.
pub open spec fn assignment_text(assignment: Seq<(Term, Integer)>) -> Seq<char>
    decreases assignment.len(),
{
    if assignment.len() == 0 {
        Seq::empty()
    } else if assignment.len() == 1 {
        binding_text(assignment[0])
    } else {
        assignment_text(assignment.drop_last()) + ", "@ + binding_text(assignment.last())
    }
}

/// What was found of a counterexample, in words, on a line of its own.
pub open spec fn counterexample_text(counterexample: Counterexample) -> Seq<char> {
    match counterexample {
        Counterexample::Found(assignment) => if assignment@.len() == 0 {
            "\na counterexample: the goal is false as it stands, with no atoms"@
        } else {
            "\na counterexample: "@ + assignment_text(assignment@)
        },
        Counterexample::NoneInBox => "\nno counterexample within -"@ + decimal(COUNTEREXAMPLE_BOX as nat) + ".."@
            + decimal(COUNTEREXAMPLE_BOX as nat),
        Counterexample::NotSought => Seq::empty(),
    }
}

/// A report of giving up, in words: the reason, the constraints there were,
/// and what was found of a counterexample.
pub open spec fn gave_up_text(gave_up: GaveUp) -> Seq<char> {
    "the arithmetic procedure gave up: "@ + reason_text(gave_up.reason) + (if gave_up.constraints@.len() == 0 {
        "; it had no constraints"@
    } else {
        "; it had:"@ + constraints_text(terms_view(gave_up.constraints@))
    }) + counterexample_text(gave_up.counterexample)
}

impl Reason {
    /// Why the procedure gave up, in words.
    pub fn text(&self) -> (result: String)
        ensures
            result@ == reason_text(*self),
    {
        match self {
            Reason::NotLinear(goal) => {
                let mut text = String::from_str("the goal ");
                text.append(goal.text().as_str());
                text.append(" is not a linear comparison");
                text
            },
            Reason::Consistent => String::from_str(
                "no certificate exists: the constraints and the negated goal are consistent over the rationals",
            ),
            Reason::Budget { name, limit } => {
                let mut text = String::from_str("the budget `");
                text.append(name);
                text.append("` of ");
                text.append(decimal_text(*limit as u64).as_str());
                text.append(" ran out");
                text
            },
            Reason::NoPrelude => String::from_str("the goal needs the prelude's False"),
        }
    }
}

impl Counterexample {
    /// What was found of a counterexample, in words.
    pub fn text(&self) -> (result: String)
        ensures
            result@ == counterexample_text(*self),
    {
        match self {
            Counterexample::Found(assignment) => {
                if assignment.len() == 0 {
                    return String::from_str("\na counterexample: the goal is false as it stands, with no atoms");
                }
                let mut text = String::from_str("\na counterexample: ");
                let ghost start = text@;
                let mut index: usize = 0;
                while index < assignment.len()
                    invariant
                        index <= assignment@.len(),
                        text@ == start + assignment_text(assignment@.take(index as int)),
                    decreases assignment.len() - index,
                {
                    assert(assignment@.take(index + 1).drop_last() =~= assignment@.take(index as int));
                    if index > 0 {
                        text.append(", ");
                    } else {
                        assert(assignment@.take(0) =~= Seq::<(Term, Integer)>::empty());
                    }
                    let entry = &assignment[index];
                    text.append(entry.0.text().as_str());
                    text.append(" = ");
                    text.append(entry.1.text().as_str());
                    index += 1;
                }
                assert(assignment@.take(index as int) =~= assignment@);
                text
            },
            Counterexample::NoneInBox => {
                let mut text = String::from_str("\nno counterexample within -");
                text.append(decimal_text(COUNTEREXAMPLE_BOX as u64).as_str());
                text.append("..");
                text.append(decimal_text(COUNTEREXAMPLE_BOX as u64).as_str());
                text
            },
            Counterexample::NotSought => String::new(),
        }
    }
}

impl GaveUp {
    /// The report in words: the reason, the constraints there were, one to
    /// a line, and what was found of a counterexample.
    pub fn text(&self) -> (result: String)
        ensures
            result@ == gave_up_text(*self),
    {
        let mut text = String::from_str("the arithmetic procedure gave up: ");
        text.append(self.reason.text().as_str());
        if self.constraints.len() == 0 {
            text.append("; it had no constraints");
        } else {
            text.append("; it had:");
            let ghost start = text@;
            let constraints = &self.constraints;
            proof {
                lemma_terms_view(constraints@);
            }
            let mut index: usize = 0;
            while index < constraints.len()
                invariant
                    index <= constraints@.len(),
                    terms_view(constraints@).len() == constraints@.len(),
                    forall|i: int| 0 <= i < constraints@.len() ==> #[trigger] terms_view(constraints@)[i] == constraints@[i]@,
                    text@ == start + constraints_text(terms_view(constraints@).take(index as int)),
                decreases constraints.len() - index,
            {
                let ghost views = terms_view(constraints@);
                assert(views.take(index + 1).drop_last() =~= views.take(index as int));
                text.append("\n  ");
                text.append(constraints[index].text().as_str());
                index += 1;
            }
            assert(terms_view(constraints@).take(index as int) =~= terms_view(constraints@));
        }
        text.append(self.counterexample.text().as_str());
        text
    }
}

/// A constraint with its proof: the proof, what it proves, and its linear
/// reading.
pub struct Fact {
    pub proof: Proof,
    pub claim: Term,
    pub form: Form,
    pub kind: Kind,
}

/// Whether a fact's form and kind are the reading of its claim over the
/// atoms.
pub open spec fn fact_read(fact: Fact, atoms: Seq<TermView>, falsehood: Option<TermView>) -> bool {
    &&& constraint_kind(fact.claim@, falsehood) == Some(fact.kind)
    &&& fact.form@.coefficients.len() <= atoms.len()
    &&& forall|leaf: spec_fn(TermView) -> int, point: Seq<int>|
        #[trigger] consistent(atoms, leaf, point) ==> eval(fact.form@, point) == constraint_value(fact.claim@, leaf)
}

/// Whether a form is the reading of the negated goal `!(left <= right)`
/// over the atoms: `left - right - 1`.
pub open spec fn negated_read(form: FormView, goal: TermView, atoms: Seq<TermView>) -> bool {
    &&& le_sides(goal) is Some
    &&& form.coefficients.len() <= atoms.len()
    &&& forall|leaf: spec_fn(TermView) -> int, point: Seq<int>|
        #[trigger] consistent(atoms, leaf, point) ==> eval(form, point) == term_value(le_sides(goal).unwrap().0, leaf)
            - term_value(le_sides(goal).unwrap().1, leaf) - 1
}

/// The constraints of one goal.
pub struct Problem {
    pub atoms: Atoms,
    pub facts: Vec<Fact>,
    /// The `(a, k)` pairs whose division facts were added.
    pub divisions: Vec<(Term, Integer)>,
}

impl Problem {
    /// The atoms are distinct and every fact is read over them.
    pub open spec fn wf(&self, falsehood: Option<TermView>) -> bool {
        &&& distinct(self.atoms@)
        &&& forall|i: int| 0 <= i < self.facts@.len() ==> #[trigger] fact_read(self.facts@[i], self.atoms@, falsehood)
    }

    /// No atoms and no facts.
    pub fn new() -> (result: Problem)
        ensures
            result.atoms@.len() == 0,
            result.facts@.len() == 0,
            result.divisions@.len() == 0,
            forall|falsehood: Option<TermView>| result.wf(falsehood),
    {
        Problem { atoms: Atoms::new(), facts: Vec::new(), divisions: Vec::new() }
    }

    /// The claims of the facts, in order.
    pub fn claims(&self) -> (result: Vec<Term>)
        ensures
            result@.len() == self.facts@.len(),
            forall|i: int| 0 <= i < result@.len() ==> #[trigger] result@[i]@ == self.facts@[i].claim@,
    {
        let mut result: Vec<Term> = Vec::new();
        while result.len() < self.facts.len()
            invariant
                result@.len() <= self.facts@.len(),
                forall|i: int| 0 <= i < result@.len() ==> #[trigger] result@[i]@ == self.facts@[i].claim@,
            decreases self.facts.len() - result.len(),
        {
            result.push(self.facts[result.len()].claim.copy());
        }
        result
    }

    /// The forms and kinds of the facts, followed by the negated goal's.
    pub open spec fn originals(&self, negated: Option<FormView>) -> Seq<(FormView, Kind)> {
        let facts = Seq::new(self.facts@.len(), |i: int| (self.facts@[i].form@, self.facts@[i].kind));
        match negated {
            Some(form) => facts.push((form, Kind::Inequality)),
            None => facts,
        }
    }

    /// Every fact as an original row under its own index, and the negated
    /// goal under the index past the last fact.
    pub fn rows(&self, negated: Option<&Form>) -> (result: Vec<Row>)
        requires
            self.facts@.len() < usize::MAX,
        ensures
            result@.len() == self.originals(negated_view(negated)).len(),
            forall|i: int| 0 <= i < result@.len() ==> (#[trigger] result@[i]).derived_from(self.originals(negated_view(negated)))
                && result@[i].form@ == self.originals(negated_view(negated))[i].0 && result@[i].kind == self.originals(
                negated_view(negated),
            )[i].1 && values(result@[i].multipliers@) == unit_weights(result@.len() as nat, i),
    {
        let ghost originals = self.originals(negated_view(negated));
        let count = match negated {
            Some(_) => self.facts.len() + 1,
            None => self.facts.len(),
        };
        let mut result: Vec<Row> = Vec::new();
        assert(originals.len() == self.facts@.len() + if negated is Some { 1int } else { 0int });
        while result.len() < self.facts.len()
            invariant
                count == originals.len(),
                self.facts@.len() <= originals.len(),
                originals == self.originals(negated_view(negated)),
                result@.len() <= self.facts@.len(),
                forall|i: int| 0 <= i < result@.len() ==> (#[trigger] result@[i]).derived_from(originals)
                    && result@[i].form@ == originals[i].0 && result@[i].kind == originals[i].1
                    && values(result@[i].multipliers@) == unit_weights(count as nat, i),
            decreases self.facts.len() - result.len(),
        {
            let index = result.len();
            let fact = &self.facts[index];
            assert(originals[index as int] == (fact.form@, fact.kind));
            result.push(Row::original(index, count, copy_form(&fact.form), fact.kind, Ghost(originals)));
        }
        if let Some(form) = negated {
            let index = self.facts.len();
            result.push(Row::original(index, count, copy_form(form), Kind::Inequality, Ghost(originals)));
        }
        result
    }

    /// Whether the point satisfies every fact and the negated goal, each in
    /// its linear reading.
    /// Whether every fact and the negated goal hold at a point of values.
    pub open spec fn holds_at(&self, point: Seq<int>, negated: Option<&Form>) -> bool {
        &&& (negated matches Some(form) ==> eval(form@, point) >= 0)
        &&& forall|i: int| 0 <= i < self.facts@.len() ==> satisfies(
            (#[trigger] self.facts@[i]).kind,
            eval(self.facts@[i].form@, point),
        )
    }

    pub open spec fn refuted_spec(&self, point: Seq<Integer>, negated: Option<&Form>) -> bool {
        &&& (negated matches Some(form) ==> eval(form@, values(point)) >= 0)
        &&& forall|i: int| 0 <= i < self.facts@.len() ==> satisfies(
            (#[trigger] self.facts@[i]).kind,
            eval(self.facts@[i].form@, values(point)),
        )
    }

    /// Whether the point satisfies every fact and the negated goal, each
    /// evaluated in its linear reading.
    pub fn refuted_at(&self, point: &Vec<Integer>, negated: Option<&Form>) -> (result: bool)
        requires
            self.atoms@.len() <= point@.len(),
            forall|i: int| 0 <= i < self.facts@.len() ==> (#[trigger] self.facts@[i]).form@.coefficients.len() <= self.atoms@.len(),
            negated matches Some(form) ==> form@.coefficients.len() <= self.atoms@.len(),
        ensures
            result == ((negated matches Some(form) ==> eval(form@, values(point@)) >= 0) && forall|i: int|
                0 <= i < self.facts@.len() ==> satisfies(
                    (#[trigger] self.facts@[i]).kind,
                    eval(self.facts@[i].form@, values(point@)),
                )),
    {
        if let Some(form) = negated {
            if form.evaluate(point).is_negative() {
                return false;
            }
        }
        let mut index: usize = 0;
        while index < self.facts.len()
            invariant
                index <= self.facts@.len(),
                self.atoms@.len() <= point@.len(),
                forall|i: int| 0 <= i < self.facts@.len() ==> (#[trigger] self.facts@[i]).form@.coefficients.len() <= self.atoms@.len(),
                forall|i: int| 0 <= i < index ==> satisfies(
                    (#[trigger] self.facts@[i]).kind,
                    eval(self.facts@[i].form@, values(point@)),
                ),
            decreases self.facts.len() - index,
        {
            let fact = &self.facts[index];
            let value = fact.form.evaluate(point);
            let holds = match fact.kind {
                Kind::Inequality => !value.is_negative(),
                Kind::Equation => value.is_zero(),
            };
            if !holds {
                return false;
            }
            index += 1;
        }
        true
    }

    /// The point as a counterexample, once checked; a point that fails the
    /// check is reported as none.
    pub fn checked_point(&self, point: &Vec<Integer>, negated: Option<&Form>) -> (result: Counterexample)
        requires
            self.atoms@.len() == point@.len(),
            forall|i: int| 0 <= i < self.facts@.len() ==> (#[trigger] self.facts@[i]).form@.coefficients.len() <= self.atoms@.len(),
            negated matches Some(form) ==> form@.coefficients.len() <= self.atoms@.len(),
        ensures
            match result {
                Counterexample::Found(assignment) => self.found(assignment@, point@, negated),
                Counterexample::NotSought => !self.refuted_spec(point@, negated),
                Counterexample::NoneInBox => false,
            },
    {
        if !self.refuted_at(point, negated) {
            return Counterexample::NotSought;
        }
        let mut assignment: Vec<(Term, Integer)> = Vec::new();
        while assignment.len() < point.len()
            invariant
                assignment@.len() <= point@.len(),
                self.atoms@.len() == point@.len(),
                forall|i: int| 0 <= i < assignment@.len() ==> (#[trigger] assignment@[i]).1@ == point@[i]@
                    && assignment@[i].0@ == self.atoms@[i],
            decreases point.len() - assignment.len(),
        {
            let index = assignment.len();
            let atom = self.atoms.term(index).copy();
            assignment.push((atom, point[index].copy()));
        }
        Counterexample::Found(assignment)
    }

    /// What a found assignment promises: one entry per value of the point,
    /// the atoms in order, and the point satisfies every fact and the
    /// negated goal in their linear readings.
    pub open spec fn found(&self, assignment: Seq<(Term, Integer)>, point: Seq<Integer>, negated: Option<&Form>) -> bool {
        &&& assignment.len() == point.len()
        &&& self.atoms@.len() == point.len()
        &&& forall|i: int| 0 <= i < assignment.len() ==> (#[trigger] assignment[i]).1@ == point[i]@
        &&& forall|i: int| 0 <= i < self.atoms@.len() ==> (#[trigger] assignment[i]).0@ == self.atoms@[i]
        &&& (negated matches Some(form) ==> eval(form@, values(point)) >= 0)
        &&& forall|i: int| 0 <= i < self.facts@.len() ==> satisfies(
            (#[trigger] self.facts@[i]).kind,
            eval(self.facts@[i].form@, values(point)),
        )
    }

    /// The value an assignment gives each atom, looked up by the atom's
    /// term, with the index of the entry each came from; nothing when some
    /// atom has no entry.
    pub fn matched_point(&self, assignment: &Vec<(Term, Integer)>) -> (result: Option<(Vec<Integer>, Ghost<Seq<int>>)>)
        ensures
            result matches Some((point, entries)) ==> matched(assignment@, self.atoms@, point@, entries@),
    {
        let mut point: Vec<Integer> = Vec::new();
        let ghost mut entries: Seq<int> = Seq::empty();
        while point.len() < self.atoms.len()
            invariant
                point@.len() <= self.atoms@.len(),
                entries.len() == point@.len(),
                forall|i: int|
                    0 <= i < point@.len() ==> 0 <= #[trigger] entries[i] < assignment@.len() && assignment@[entries[i]].0@
                        == self.atoms@[i] && assignment@[entries[i]].1@ == point@[i]@,
            decreases self.atoms@.len() - point@.len(),
        {
            let atom = self.atoms.term(point.len());
            let mut k: usize = 0;
            let mut value: Option<Integer> = None;
            let ghost mut entry: int = 0;
            while k < assignment.len()
                invariant
                    k <= assignment@.len(),
                    point@.len() < self.atoms@.len(),
                    atom@ == self.atoms@[point@.len() as int],
                    value matches Some(v) ==> 0 <= entry < assignment@.len() && assignment@[entry].0@ == atom@
                        && assignment@[entry].1@ == v@,
                decreases assignment.len() - k,
            {
                if value.is_none() && same(&assignment[k].0, atom) {
                    let found = assignment[k].1.copy();
                    proof {
                        entry = k as int;
                    }
                    value = Some(found);
                }
                k += 1;
            }
            match value {
                Some(v) => {
                    proof {
                        entries = entries.push(entry);
                    }
                    point.push(v);
                },
                None => {
                    return None;
                },
            }
        }
        Some((point, Ghost(entries)))
    }

    /// A counterexample in the box, by exhaustive search when the atoms are
    /// few enough, for a report that has no point from the elimination.
    pub fn searched_box(&self, negated: Option<&Form>) -> (result: Counterexample)
        requires
            forall|i: int| 0 <= i < self.facts@.len() ==> (#[trigger] self.facts@[i]).form@.coefficients.len() <= self.atoms@.len(),
            negated matches Some(form) ==> form@.coefficients.len() <= self.atoms@.len(),
        ensures
            match result {
                Counterexample::Found(assignment) => exists|point: Seq<Integer>|
                    self.found(assignment@, point, negated) && #[trigger] in_box(values(point)),
                Counterexample::NoneInBox => self.atoms@.len() <= COUNTEREXAMPLE_ATOMS && forall|point: Seq<int>|
                    point.len() == self.atoms@.len() && #[trigger] in_box(point) ==> !self.holds_at(point, negated),
                Counterexample::NotSought => self.atoms@.len() > COUNTEREXAMPLE_ATOMS,
            },
            self.atoms@.len() > COUNTEREXAMPLE_ATOMS ==> result is NotSought,
    {
        let n = self.atoms.len();
        if n > COUNTEREXAMPLE_ATOMS {
            return Counterexample::NotSought;
        }
        // The points of the box in the order of an odometer whose first
        // atom turns fastest: the point of number `k` has, at atom `i`, the
        // `i`-th digit of `k` in base `2 * BOX + 1`, less `BOX`.
        let width: u64 = 2 * (COUNTEREXAMPLE_BOX as u64) + 1;
        let mut total: u64 = 1;
        let mut i: usize = 0;
        while i < n
            invariant
                width == 17,
                i <= n,
                n <= COUNTEREXAMPLE_ATOMS,
                total == pow17(i as nat),
                pow17(i as nat) <= 83521,
            decreases n - i,
        {
            proof {
                assert(pow17((i + 1) as nat) == 17 * pow17(i as nat));
                lemma_pow17_bound(i as nat);
            }
            total = total * width;
            i += 1;
        }
        let mut number: u64 = 0;
        while number < total
            invariant
                width == 17,
                number <= total,
                total <= 83521,
                n == self.atoms@.len(),
                n <= COUNTEREXAMPLE_ATOMS,
                forall|k: int| 0 <= k < self.facts@.len() ==> (#[trigger] self.facts@[k]).form@.coefficients.len() <= self.atoms@.len(),
                negated matches Some(form) ==> form@.coefficients.len() <= self.atoms@.len(),
                total == pow17(n as nat),
                forall|k: nat| k < number ==> !self.holds_at(#[trigger] box_point(k, n as nat), negated),
            decreases total - number,
        {
            let mut coordinates: Vec<Integer> = Vec::new();
            let mut rest = number;
            while coordinates.len() < n
                invariant
                    width == 17,
                    coordinates@.len() <= n,
                    values(coordinates@) + box_point(rest as nat, (n - coordinates@.len()) as nat) == box_point(
                        number as nat,
                        n as nat,
                    ),
                decreases n - coordinates.len(),
            {
                let digit = rest % width;
                let ghost before = values(coordinates@);
                let ghost m = (n - coordinates@.len()) as nat;
                assert(box_point(rest as nat, m) == seq![(rest % 17) as int - 8] + box_point((rest / 17) as nat, (m - 1) as nat));
                rest = rest / width;
                coordinates.push(Integer::from_i64((digit as i64) - COUNTEREXAMPLE_BOX));
                assert(values(coordinates@) =~= before.push(digit - 8));
                assert(values(coordinates@) + box_point(rest as nat, (n - coordinates@.len()) as nat) =~= before + (seq![
                    digit - 8,
                ] + box_point(rest as nat, (m - 1) as nat)));
            }
            assert(values(coordinates@) + box_point(rest as nat, 0) =~= values(coordinates@));
            assert(in_box(values(coordinates@))) by {
                lemma_box_point_in_box(number as nat, n as nat);
            }
            if self.refuted_at(&coordinates, negated) {
                let result = self.checked_point(&coordinates, negated);
                if let Counterexample::Found(assignment) = &result {
                    assert(self.found(assignment@, coordinates@, negated));
                }
                return result;
            }
            number += 1;
        }
        proof {
            assert forall|point: Seq<int>|
                point.len() == self.atoms@.len() && #[trigger] in_box(point) implies !self.holds_at(point, negated) by {
                lemma_box_number(point);
                assert(!self.holds_at(box_point(box_number(point), n as nat), negated));
            }
        }
        Counterexample::NoneInBox
    }
}

/// `17^n`.
pub open spec fn pow17(n: nat) -> nat
    decreases n,
{
    if n == 0 {
        1
    } else {
        17 * pow17((n - 1) as nat)
    }
}

proof fn lemma_pow17_bound(n: nat)
    requires
        n < 4,
    ensures
        pow17(n + 1) <= 83521,
{
    reveal_with_fuel(pow17, 5);
}

/// The point of number `k` in the box's odometer: at each atom, from the
/// first, the next digit of `k` in base 17, less 8.
pub open spec fn box_point(k: nat, n: nat) -> Seq<int>
    decreases n,
{
    if n == 0 {
        Seq::empty()
    } else {
        seq![(k % 17) as int - 8] + box_point(k / 17, (n - 1) as nat)
    }
}

/// The odometer number of a point of the box.
pub open spec fn box_number(point: Seq<int>) -> nat
    decreases point.len(),
{
    if point.len() == 0 {
        0
    } else {
        ((point[0] + 8) + 17 * box_number(point.drop_first())) as nat
    }
}

/// Whether a point lies in the box: every value in `-8..=8`.
pub open spec fn in_box(point: Seq<int>) -> bool {
    forall|i: int| 0 <= i < point.len() ==> -8 <= #[trigger] point[i] <= 8
}

/// The odometer's points lie in the box.
proof fn lemma_box_point_in_box(k: nat, n: nat)
    ensures
        in_box(box_point(k, n)),
        box_point(k, n).len() == n,
    decreases n,
{
    if n > 0 {
        lemma_box_point_in_box(k / 17, (n - 1) as nat);
        let p = box_point(k, n);
        assert forall|i: int| 0 <= i < p.len() implies -8 <= #[trigger] p[i] <= 8 by {
            if i > 0 {
                assert(p[i] == box_point(k / 17, (n - 1) as nat)[i - 1]);
            }
        }
    }
}

/// Every point of the box is numbered below `17^n` by the odometer.
proof fn lemma_box_number(point: Seq<int>)
    requires
        in_box(point),
    ensures
        box_number(point) < pow17(point.len()),
        box_point(box_number(point), point.len()) == point,
    decreases point.len(),
{
    if point.len() > 0 {
        let rest = point.drop_first();
        assert(in_box(rest)) by {
            assert forall|i: int| 0 <= i < rest.len() implies -8 <= #[trigger] rest[i] <= 8 by {
                assert(rest[i] == point[i + 1]);
            }
        }
        lemma_box_number(rest);
        let d = point[0] + 8;
        assert(-8 <= point[0] <= 8);
        let r = box_number(rest);
        let k = box_number(point);
        assert(k == d + 17 * r);
        vstd::arithmetic::div_mod::lemma_fundamental_div_mod_converse(k as int, 17, r as int, d);
        assert(k % 17 == d && k / 17 == r);
        assert(box_point(k, point.len()) =~= seq![d - 8] + rest);
        assert(seq![point[0]] + rest =~= point);
        assert(k < pow17(point.len())) by (nonlinear_arith)
            requires
                k == d + 17 * r,
                0 <= d < 17,
                r < pow17(rest.len()),
                pow17(point.len()) == 17 * pow17(rest.len()),
        ;
    }
}

/// The view of an optional form.
pub open spec fn negated_view(negated: Option<&Form>) -> Option<FormView> {
    match negated {
        Some(form) => Some(form@),
        None => None,
    }
}

fn copy_form(form: &Form) -> (result: Form)
    ensures
        result@ == form@,
{
    crate::arith::fourier::copy_form(form)
}


/// Whether a goal is one the procedure proves: `int_le(s, t)`, `s ==[Int]
/// t`, or the prelude's `False`.
pub open spec fn linear_goal(goal: TermView, falsehood: Option<TermView>) -> bool {
    le_sides(goal) is Some || goal is EqInt || falsehood == Some(goal)
}

/// One run of the procedure, with the counts shared by its nested runs.
pub struct Search {
    /// A copy of the caller's context, with the cases of the splits bound
    /// while their arms are searched.
    pub ctx: Context,
    pub prelude: Option<Prelude>,
    pub budget: Budget,
    pub spent: Spent,
    /// How many runs this one is nested inside.
    pub depth: usize,
}

/// The positions, below a count, whose multipliers are not zero, in order.
pub open spec fn nonzero_positions(multipliers: Seq<Integer>, count: int) -> Seq<int>
    decreases count,
{
    if count <= 0 {
        Seq::empty()
    } else {
        let earlier = nonzero_positions(multipliers, count - 1);
        if multipliers[count - 1]@ != 0 {
            earlier.push(count - 1)
        } else {
            earlier
        }
    }
}

/// Every position found lies below the count.
proof fn lemma_positions_below(multipliers: Seq<Integer>, count: int)
    ensures
        forall|k: int|
            0 <= k < nonzero_positions(multipliers, count).len() ==> 0 <= #[trigger] nonzero_positions(
                multipliers,
                count,
            )[k] < count,
    decreases count,
{
    if count > 0 {
        lemma_positions_below(multipliers, count - 1);
        let earlier = nonzero_positions(multipliers, count - 1);
        let now = nonzero_positions(multipliers, count);
        assert forall|k: int| 0 <= k < now.len() implies 0 <= #[trigger] now[k] < count by {
            if k < earlier.len() {
                assert(now[k] == earlier[k]);
            }
        }
    }
}

impl Search {
    /// The branches and the depth are within their budgets.
    pub open spec fn within_budget(&self) -> bool {
        self.spent.branches <= self.budget.branches && self.depth <= self.budget.depth
    }
}

/// What a step of a search keeps: the context it searches in, the prelude,
/// the budget and the depth; the branches spent only grow, within their
/// budget.
/// What a report of giving up on a goal says: a goal that is not linear is
/// named, with no constraints and no counterexample sought; a count that ran
/// out is one of the budget's, at its limit.
pub open spec fn reported(gave_up: GaveUp, goal: TermView, budget: Budget) -> bool {
    &&& gave_up.reason matches Reason::NotLinear(term) ==> term@ == goal && gave_up.constraints@.len() == 0
        && gave_up.counterexample is NotSought
    &&& gave_up.reason matches Reason::Budget { name, limit } ==> (name == "atoms" && limit == budget.atoms) || (name
        == "eliminations" && limit == budget.eliminations) || (name == "derived" && limit == budget.derived) || (
    name == "bits" && limit == budget.bits) || (name == "pairs" && limit == budget.pairs) || (name == "branches"
        && limit == budget.branches)
}

/// What a search's report of a count that ran out says of the counts it
/// spent: the count is one of the budget's, at its limit, and a count the
/// search keeps, eliminations or branches, reached that limit.
pub open spec fn reported_spent(gave_up: GaveUp, budget: Budget, spent: Spent) -> bool {
    gave_up.reason matches Reason::Budget { name, limit } ==> (name == "atoms" && limit == budget.atoms) || (name
        == "eliminations" && limit == budget.eliminations && spent.eliminations >= limit) || (name == "derived"
        && limit == budget.derived) || (name == "bits" && limit == budget.bits) || (name == "pairs" && limit
        == budget.pairs) || (name == "branches" && limit == budget.branches && spent.branches >= limit)
}

/// Whether constraints list every claim a hypothesis adds, unless the
/// facts had no room for them.
pub open spec fn listed(prop: TermView, prelude: Option<Prelude>, constraints: Seq<Term>) -> bool {
    ||| forall|c: TermView|
        #[trigger] hypothesis_claims(prop, prelude).contains(c) ==> exists|k: int|
            0 <= k < constraints.len() && (#[trigger] constraints[k])@ == c
    ||| constraints.len() + hypothesis_claims(prop, prelude).len() >= usize::MAX - 1
}

/// Whether constraints list the claims of every hypothesis of a context.
pub open spec fn lists_hypotheses(constraints: Seq<Term>, bindings: Seq<Binding>, prelude: Option<Prelude>) -> bool {
    forall|j: int|
        0 <= j < bindings.len() && (#[trigger] bindings[j]) is Hyp ==> listed(bindings[j]->Hyp_prop@, prelude, constraints)
}

/// A report of giving up on a linear goal lists the claims of every
/// hypothesis of the context among its constraints.
pub open spec fn lists_hypotheses_when_linear(
    result: Result<Proof, GaveUp>,
    bindings: Seq<Binding>,
    prelude: Option<Prelude>,
) -> bool {
    match result {
        Err(gave_up) => !(gave_up.reason is NotLinear) ==> lists_hypotheses(gave_up.constraints@, bindings, prelude),
        Ok(_) => true,
    }
}

/// A search that gives up as consistent without splitting a case comes
/// with a counterexample: the integral point of the elimination.
pub open spec fn found_unless_split(result: Result<Proof, GaveUp>, before: Spent, after: Spent) -> bool {
    match result {
        Err(gave_up) => gave_up.reason is Consistent && after.branches == before.branches
            ==> gave_up.counterexample is Found,
        Ok(_) => true,
    }
}

/// The claims of facts that collected every hypothesis list them.
pub proof fn lemma_lists_hypotheses(
    facts: Seq<Fact>,
    constraints: Seq<Term>,
    bindings: Seq<Binding>,
    prelude: Option<Prelude>,
)
    requires
        constraints.len() == facts.len(),
        forall|i: int| 0 <= i < constraints.len() ==> #[trigger] constraints[i]@ == facts[i].claim@,
        forall|j: int|
            0 <= j < bindings.len() && (#[trigger] bindings[j]) is Hyp ==> collected(bindings[j]->Hyp_prop@, prelude, facts),
    ensures
        lists_hypotheses(constraints, bindings, prelude),
{
    assert forall|j: int| 0 <= j < bindings.len() && (#[trigger] bindings[j]) is Hyp implies listed(
        bindings[j]->Hyp_prop@,
        prelude,
        constraints,
    ) by {
        let prop = bindings[j]->Hyp_prop@;
        assert(collected(prop, prelude, facts));
        if facts.len() + hypothesis_claims(prop, prelude).len() < usize::MAX - 1 {
            assert forall|c: TermView| #[trigger] hypothesis_claims(prop, prelude).contains(c) implies exists|k: int|
                0 <= k < constraints.len() && (#[trigger] constraints[k])@ == c by {
                assert(claimed(facts, c));
                let k = choose|k: int| 0 <= k < facts.len() && (#[trigger] facts[k]).claim@ == c;
                assert(constraints[k]@ == c);
            }
        }
    }
}

/// Whether an interpretation gives each atom of an assignment its value.
pub open spec fn agrees(assignment: Seq<(Term, Integer)>, leaf: spec_fn(TermView) -> int) -> bool {
    forall|i: int| 0 <= i < assignment.len() ==> term_value((#[trigger] assignment[i]).0@, leaf) == assignment[i].1@
}

/// Whether a goal is `int_le(s, t)` or `s ==[Int] t` on closed terms whose
/// values satisfy it: each inequality's negation is a contradiction on its
/// own.
pub open spec fn closed_truth(goal: TermView) -> bool {
    match le_sides(goal) {
        Some((left, right)) => closed(left) && closed(right) && literal_value(left) <= literal_value(right),
        None => match goal {
            TermView::EqInt(left, right) => closed(*left) && closed(*right) && literal_value(*left) == literal_value(
                *right,
            ),
            _ => false,
        },
    }
}

/// A proof of an inequality by the linear rule with the goal's own
/// negation alone: goal coefficient 1, and no pairs.
pub open spec fn unit_certificate(result: Result<Proof, GaveUp>, goal: TermView) -> bool {
    match result {
        Ok(Proof::Linear { goal: proved, goal_coefficient, pairs }) => proved@ == goal && goal_coefficient@ == 1
            && pairs@.len() == 0,
        _ => false,
    }
}

/// Whether a goal is `int_le(s, t)` on closed terms whose values falsify
/// it.
pub open spec fn closed_falsity(goal: TermView) -> bool {
    match le_sides(goal) {
        Some((left, right)) => closed(left) && closed(right) && literal_value(left) > literal_value(right),
        None => false,
    }
}

/// A give-up on a goal that is consistent with no facts at all: the
/// reason is `Consistent`, there are no constraints, and the counterexample
/// is found and empty.
pub open spec fn consistent_with_nothing(result: Result<Proof, GaveUp>) -> bool {
    match result {
        Err(gave_up) => gave_up.reason is Consistent && gave_up.constraints@.len() == 0 && match gave_up.counterexample {
            Counterexample::Found(assignment) => assignment@.len() == 0,
            _ => false,
        },
        Ok(_) => false,
    }
}

/// What a counterexample of a report promises of the goal: under any
/// interpretation that gives its atoms their values, the goal does not hold.
pub open spec fn refutes_goal(gave_up: GaveUp, goal: TermView, prelude: Option<Prelude>) -> bool {
    gave_up.counterexample is Found ==> distinct(assigned_atoms(gave_up.counterexample->Found_0@)) && forall|
        leaf: spec_fn(TermView) -> int,
    | #[trigger] agrees(gave_up.counterexample->Found_0@, leaf) ==> !holds(goal, prelude, leaf)
}

/// The atoms an assignment gives values to, in order.
pub open spec fn assigned_atoms(assignment: Seq<(Term, Integer)>) -> Seq<TermView> {
    Seq::new(assignment.len(), |i: int| assignment[i].0@)
}

/// What a counterexample of a report promises: under any interpretation
/// that gives its atoms their values, every constraint of the report holds
/// and the goal does not.
pub open spec fn counterexample_holds(gave_up: GaveUp, goal: TermView, prelude: Option<Prelude>) -> bool {
    gave_up.counterexample is Found ==> distinct(assigned_atoms(gave_up.counterexample->Found_0@)) && forall|
        leaf: spec_fn(TermView) -> int,
    |
        #[trigger] agrees(gave_up.counterexample->Found_0@, leaf) ==> (forall|k: int|
            0 <= k < gave_up.constraints@.len() ==> holds((#[trigger] gave_up.constraints@[k])@, prelude, leaf))
            && !holds(goal, prelude, leaf)
}

/// Whether the negated goal, if any, is read over the atoms, and the goal
/// is `False` when there is none.
pub open spec fn goal_read(negated: Option<FormView>, goal: TermView, atoms: Seq<TermView>, prelude: Option<Prelude>) -> bool {
    &&& negated matches Some(form) ==> negated_read(form, goal, atoms)
    &&& negated is None ==> falsehood_of(prelude) == Some(goal)
}

/// A report whose constraints are a problem's claims, with a counterexample
/// found for that problem, keeps the counterexample's promise.
pub proof fn lemma_report_holds(problem: &Problem, negated: Option<&Form>, goal: TermView, prelude: Option<Prelude>, report: GaveUp)
    requires
        problem.wf(falsehood_of(prelude)),
        goal_read(negated_view(negated), goal, problem.atoms@, prelude),
        report.constraints@.len() == problem.facts@.len(),
        forall|i: int| 0 <= i < report.constraints@.len() ==> #[trigger] report.constraints@[i]@
            == problem.facts@[i].claim@,
        report.counterexample matches Counterexample::Found(assignment) ==> exists|point: Seq<Integer>|
            #[trigger] problem.found(assignment@, point, negated),
    ensures
        counterexample_holds(report, goal, prelude),
{
    if let Counterexample::Found(assignment) = report.counterexample {
        let point = choose|point: Seq<Integer>| #[trigger] problem.found(assignment@, point, negated);
        assert(assigned_atoms(assignment@) =~= problem.atoms@);
        assert forall|leaf: spec_fn(TermView) -> int| #[trigger] agrees(assignment@, leaf) implies (forall|k: int|
            0 <= k < report.constraints@.len() ==> holds((#[trigger] report.constraints@[k])@, prelude, leaf))
            && !holds(goal, prelude, leaf) by {
            lemma_found_holds(problem, negated, goal, prelude, assignment@, point, leaf);
            assert forall|k: int| 0 <= k < report.constraints@.len() implies holds(
                (#[trigger] report.constraints@[k])@,
                prelude,
                leaf,
            ) by {
                assert(holds(problem.facts@[k].claim@, prelude, leaf));
            }
        }
    }
}

/// A point found for a problem, read back through an interpretation that
/// agrees with it, satisfies every fact's claim and falsifies the goal.
pub proof fn lemma_found_holds(
    problem: &Problem,
    negated: Option<&Form>,
    goal: TermView,
    prelude: Option<Prelude>,
    assignment: Seq<(Term, Integer)>,
    point: Seq<Integer>,
    leaf: spec_fn(TermView) -> int,
)
    requires
        problem.wf(falsehood_of(prelude)),
        problem.found(assignment, point, negated),
        goal_read(negated_view(negated), goal, problem.atoms@, prelude),
        agrees(assignment, leaf),
    ensures
        forall|k: int| 0 <= k < problem.facts@.len() ==> holds((#[trigger] problem.facts@[k]).claim@, prelude, leaf),
        !holds(goal, prelude, leaf),
{
    let atoms = problem.atoms@;
    let ints = values(point);
    assert(consistent(atoms, leaf, ints)) by {
        assert forall|i: int| 0 <= i < atoms.len() implies ints[i] == term_value(#[trigger] atoms[i], leaf) by {
            assert(assignment[i].1@ == point[i]@);
            assert(assignment[i].0@ == atoms[i]);
        }
    }
    lemma_consistent_holds(problem, negated, goal, prelude, ints, leaf);
}

/// A point that gives the atoms the values of their terms under an
/// interpretation, and at which every fact and the negated goal hold: under
/// that interpretation every fact's claim holds and the goal does not.
pub proof fn lemma_consistent_holds(
    problem: &Problem,
    negated: Option<&Form>,
    goal: TermView,
    prelude: Option<Prelude>,
    ints: Seq<int>,
    leaf: spec_fn(TermView) -> int,
)
    requires
        problem.wf(falsehood_of(prelude)),
        goal_read(negated_view(negated), goal, problem.atoms@, prelude),
        consistent(problem.atoms@, leaf, ints),
        problem.holds_at(ints, negated),
    ensures
        forall|k: int| 0 <= k < problem.facts@.len() ==> holds((#[trigger] problem.facts@[k]).claim@, prelude, leaf),
        !holds(goal, prelude, leaf),
{
    let atoms = problem.atoms@;
    assert forall|k: int| 0 <= k < problem.facts@.len() implies holds((#[trigger] problem.facts@[k]).claim@, prelude, leaf) by {
        let fact = problem.facts@[k];
        assert(fact_read(fact, atoms, falsehood_of(prelude)));
        assert(satisfies(fact.kind, eval(fact.form@, ints)));
        lemma_constraint_reading(fact.claim@, falsehood_of(prelude), leaf);
        lemma_holds_constraint(fact.claim@, prelude, leaf);
    }
    match negated {
        Some(form) => {
            assert(negated_read(form@, goal, atoms));
            assert(eval(form@, ints) >= 0);
        },
        None => {
            assert(falsehood_of(prelude) == Some(goal));
        },
    }
}


/// The values an assignment gives the atoms of a problem: the value at
/// each atom is that of the entry of the assignment, at the index given, for
/// the atom's term.
pub open spec fn matched(assignment: Seq<(Term, Integer)>, atoms: Seq<TermView>, point: Seq<Integer>, entries: Seq<int>) -> bool {
    &&& point.len() == atoms.len()
    &&& entries.len() == atoms.len()
    &&& forall|i: int|
        0 <= i < atoms.len() ==> 0 <= #[trigger] entries[i] < assignment.len() && assignment[entries[i]].0@ == atoms[i]
            && assignment[entries[i]].1@ == point[i]@
}

/// An interpretation that agrees with an assignment gives the atoms the
/// values the assignment matched to them.
pub proof fn lemma_matched_consistent(
    assignment: Seq<(Term, Integer)>,
    atoms: Seq<TermView>,
    point: Seq<Integer>,
    entries: Seq<int>,
    leaf: spec_fn(TermView) -> int,
)
    requires
        matched(assignment, atoms, point, entries),
        agrees(assignment, leaf),
    ensures
        consistent(atoms, leaf, values(point)),
{
    assert forall|i: int| 0 <= i < atoms.len() implies values(point)[i] == term_value(#[trigger] atoms[i], leaf) by {
        let k = entries[i];
        assert(term_value(assignment[k].0@, leaf) == assignment[k].1@);
    }
}

pub open spec fn evolved(before: Search, after: Search) -> bool {
    &&& after.ctx.seq() == before.ctx.seq()
    &&& after.prelude == before.prelude
    &&& after.budget == before.budget
    &&& after.depth == before.depth
    &&& before.spent.branches <= after.spent.branches <= after.budget.branches
}

impl Problem {
    /// The problem is well formed, every fact follows from what the
    /// context assumes, one more row fits, and the decomposition of every
    /// division met is among the facts.
    pub open spec fn sound(&self, bindings: Seq<Binding>, prelude: Option<Prelude>) -> bool {
        &&& self.wf(falsehood_of(prelude))
        &&& self.facts@.len() < usize::MAX
        &&& forall|i: int| 0 <= i < self.facts@.len() ==> #[trigger] follows(self.facts@[i].claim@, bindings, prelude)
        &&& decomposed(*self)
    }
}

/// A fact read over some atoms is read over any extension of them.
pub proof fn lemma_fact_read_extends(fact: Fact, before: Seq<TermView>, after: Seq<TermView>, falsehood: Option<TermView>)
    requires
        fact_read(fact, before, falsehood),
        extends(before, after),
    ensures
        fact_read(fact, after, falsehood),
{
    assert forall|leaf: spec_fn(TermView) -> int, point: Seq<int>| #[trigger] consistent(after, leaf, point) implies eval(
        fact.form@,
        point,
    ) == constraint_value(fact.claim@, leaf) by {
        lemma_consistent_prefix(before, after, leaf, point);
    }
}

/// The negated goal read over some atoms is read over any extension of
/// them.
pub proof fn lemma_negated_read_extends(form: FormView, goal: TermView, before: Seq<TermView>, after: Seq<TermView>)
    requires
        negated_read(form, goal, before),
        extends(before, after),
    ensures
        negated_read(form, goal, after),
{
    assert forall|leaf: spec_fn(TermView) -> int, point: Seq<int>| #[trigger] consistent(after, leaf, point) implies eval(
        form,
        point,
    ) == term_value(le_sides(goal).unwrap().0, leaf) - term_value(le_sides(goal).unwrap().1, leaf) - 1 by {
        lemma_consistent_prefix(before, after, leaf, point);
    }
}

/// A refutation of the facts and the negated goal proves the goal: at any
/// valuation where every fact holds and the goal fails, the values of the
/// atoms would satisfy every constraint the certificate refutes.
pub proof fn lemma_refuted_follows(
    problem: &Problem,
    negated: Option<FormView>,
    goal: TermView,
    bindings: Seq<Binding>,
    prelude: Option<Prelude>,
    certificate: Seq<int>,
)
    requires
        problem.sound(bindings, prelude),
        negated matches Some(form) ==> negated_read(form, goal, problem.atoms@),
        negated is None ==> falsehood_of(prelude) == Some(goal),
        refutes_all(problem.originals(negated), certificate),
    ensures
        follows(goal, bindings, prelude),
{
    let atoms = problem.atoms@;
    let originals = problem.originals(negated);
    assert forall|leaf: spec_fn(TermView) -> int| #[trigger] assumed(bindings, prelude, leaf) implies holds(
        goal,
        prelude,
        leaf,
    ) by {
        if !holds(goal, prelude, leaf) {
            let point = Seq::new(atoms.len(), |i: int| term_value(atoms[i], leaf));
            assert(consistent(atoms, leaf, point));
            assert forall|i: int| 0 <= i < originals.len() implies #[trigger] satisfies(
                originals[i].1,
                eval(originals[i].0, point),
            ) by {
                if i < problem.facts@.len() {
                    let fact = problem.facts@[i];
                    assert(fact_read(fact, atoms, falsehood_of(prelude)));
                    assert(follows(fact.claim@, bindings, prelude));
                    assert(holds(fact.claim@, prelude, leaf));
                    lemma_holds_constraint(fact.claim@, prelude, leaf);
                    lemma_constraint_reading(fact.claim@, falsehood_of(prelude), leaf);
                    assert(originals[i] == (fact.form@, fact.kind));
                } else {
                    let form = negated.unwrap();
                    assert(originals[i] == (form, Kind::Inequality));
                    assert(eval(form, point) == term_value(le_sides(goal).unwrap().0, leaf) - term_value(
                        le_sides(goal).unwrap().1,
                        leaf,
                    ) - 1);
                }
            }
            lemma_refutation_sound(originals, certificate, point);
        }
    }
}

/// Two inequalities prove an equation.
pub proof fn lemma_equation_follows(left: TermView, right: TermView, bindings: Seq<Binding>, prelude: Option<Prelude>)
    requires
        follows(le_view(left, right), bindings, prelude),
        follows(le_view(right, left), bindings, prelude),
    ensures
        follows(eq_view(left, right), bindings, prelude),
{
    assert forall|leaf: spec_fn(TermView) -> int| #[trigger] assumed(bindings, prelude, leaf) implies holds(
        eq_view(left, right),
        prelude,
        leaf,
    ) by {
        assert(holds(le_view(left, right), prelude, leaf));
        assert(holds(le_view(right, left), prelude, leaf));
    }
}

/// A goal proved under `atom <= k` and under `k + 1 <= atom` holds.
pub proof fn lemma_split_follows(atom: TermView, bound: int, goal: TermView, bindings: Seq<Binding>, prelude: Option<Prelude>)
    requires
        forall|leaf: spec_fn(TermView) -> int|
            assumed(bindings, prelude, leaf) && #[trigger] holds(le_view(atom, TermView::Int(bound)), prelude, leaf)
                ==> holds(goal, prelude, leaf),
        forall|leaf: spec_fn(TermView) -> int|
            assumed(bindings, prelude, leaf) && #[trigger] holds(lt_view(TermView::Int(bound), atom), prelude, leaf)
                ==> holds(goal, prelude, leaf),
    ensures
        follows(goal, bindings, prelude),
{
    assert forall|leaf: spec_fn(TermView) -> int| #[trigger] assumed(bindings, prelude, leaf) implies holds(
        goal,
        prelude,
        leaf,
    ) by {
        let below = le_view(atom, TermView::Int(bound));
        let above = lt_view(TermView::Int(bound), atom);
        assert(term_value(TermView::Int(bound), leaf) == bound);
        assert(term_value(successor_view(TermView::Int(bound)), leaf) == bound + 1) by {
            reveal_with_fuel(term_value, 2);
        }
        assert(holds(below, prelude, leaf) || holds(above, prelude, leaf));
    }
}

/// Proves `goal` from the facts in scope in `ctx`, or gives up.
///
/// The goal is `int_le(s, t)` (which `s < t` abbreviates), `s ==[Int] t`,
/// proved as two inequalities joined by antisymmetry, or the prelude's
/// `False`. The prelude is passed because a context does not name its
/// declarations; without it, `False` cannot be named and conjunctions are
/// not split. A goal that is proved follows, in integer arithmetic, from
/// what the context assumes and the axioms.
pub fn prove(ctx: &Context, prelude: Option<Prelude>, goal: &Term, budget: &Budget) -> (result: Result<Proof, GaveUp>)
    ensures
        result is Ok ==> follows(goal@, ctx.seq(), prelude),
        (result matches Err(gave_up) && gave_up.reason is NotLinear) == !linear_goal(goal@, falsehood_of(prelude)),
        result matches Err(gave_up) ==> reported(gave_up, goal@, *budget),
        (result matches Err(gave_up) && gave_up.reason is NoPrelude) ==> prelude is None,
        result matches Err(gave_up) ==> refutes_goal(gave_up, goal@, prelude),
        result matches Err(gave_up) ==> counterexample_holds(gave_up, goal@, prelude),
        lists_hypotheses_when_linear(result, ctx.seq(), prelude),
        ctx.seq().len() == 0 && closed_truth(goal@) ==> result is Ok,
        ctx.seq().len() == 0 && closed_truth(goal@) && le_sides(goal@) is Some ==> unit_certificate(result, goal@),
        ctx.seq().len() == 0 && closed_falsity(goal@) ==> consistent_with_nothing(result),
{
    let copy = copy_context(ctx);
    let mut search = Search { ctx: copy, prelude, budget: *budget, spent: Spent::new(), depth: 0 };
    let result = search.prove_goal(goal);
    proof {
        if result is Err && !(result->Err_0.reason is NotLinear) {
            {
                assert forall|j: int| 0 <= j < ctx.seq().len() && (#[trigger] ctx.seq()[j]) is Hyp implies listed(
                    ctx.seq()[j]->Hyp_prop@,
                    prelude,
                    result->Err_0.constraints@,
                ) by {
                    assert(copy.seq()[j] is Hyp);
                }
            }
        }
        if result is Ok {
            assert forall|leaf: spec_fn(TermView) -> int| #[trigger] assumed(ctx.seq(), prelude, leaf) implies holds(
                goal@,
                prelude,
                leaf,
            ) by {
                assert(context_holds(copy.seq(), prelude, leaf) == context_holds(ctx.seq(), prelude, leaf));
                assert(assumed(copy.seq(), prelude, leaf));
            }
        }
    }
    result
}


impl Search {
    /// Proves one goal, or gives up.
    pub fn prove_goal(&mut self, goal: &Term) -> (result: Result<Proof, GaveUp>)
        requires
            old(self).within_budget(),
        ensures
            evolved(*old(self), *final(self)),
            result is Ok ==> follows(goal@, old(self).ctx.seq(), old(self).prelude),
            (result matches Err(gave_up) && gave_up.reason is NotLinear) == !linear_goal(
                goal@,
                falsehood_of(old(self).prelude),
            ),
            result matches Err(gave_up) ==> reported(gave_up, goal@, old(self).budget),
            result matches Err(gave_up) ==> reported_spent(gave_up, old(self).budget, final(self).spent),
            (result matches Err(gave_up) && gave_up.reason is NoPrelude) ==> old(self).prelude is None,
            result matches Err(gave_up) ==> refutes_goal(gave_up, goal@, old(self).prelude),
            result matches Err(gave_up) ==> counterexample_holds(gave_up, goal@, old(self).prelude),
            lists_hypotheses_when_linear(result, old(self).ctx.seq(), old(self).prelude),
            found_unless_split(result, old(self).spent, final(self).spent),
            old(self).ctx.seq().len() == 0 && closed_truth(goal@) ==> result is Ok,
            old(self).ctx.seq().len() == 0 && closed_truth(goal@) && le_sides(goal@) is Some ==> unit_certificate(
                result,
                goal@,
            ),
            old(self).ctx.seq().len() == 0 && closed_falsity(goal@) ==> consistent_with_nothing(result),
        decreases old(self).budget.branches - old(self).spent.branches, old(self).budget.depth - old(self).depth,
            if *goal is EqInt { 7int } else { 6int },
    {
        // An equation is two inequalities and antisymmetry.
        if let Term::EqInt(left, right) = goal {
            let forward = match self.prove_goal(&Term::int_le(left.copy(), right.copy())) {
                Ok(proof) => proof,
                Err(gave_up) => return Err(gave_up),
            };
            let backward = match self.prove_goal(&Term::int_le(right.copy(), left.copy())) {
                Ok(proof) => proof,
                Err(gave_up) => return Err(gave_up),
            };
            proof {
                lemma_equation_follows(left@, right@, old(self).ctx.seq(), self.prelude);
            }
            let antisymmetry = Proof::Axiom(Axiom::IntLeAntisymm(left.copy(), right.copy()));
            let proof = Proof::ImpliesElim(
                Box::new(Proof::ImpliesElim(Box::new(antisymmetry), Box::new(forward))),
                Box::new(backward),
            );
            return Ok(proof);
        }
        let falsehood: Option<Term> = match self.prelude {
            Some(prelude) => Some(prelude.falsehood_prop()),
            None => None,
        };
        let is_false = match &falsehood {
            Some(falsehood) => same(falsehood, goal),
            None => false,
        };
        let sides = comparison(goal);
        if sides.is_none() && !is_false {
            return Err(GaveUp::bare(Reason::NotLinear(goal.copy())));
        }
        // The negated goal is read first, so that its atoms come first; the
        // goal False contributes nothing, and the facts alone must be
        // contradictory.
        let mut problem = Problem::new();
        let negated: Option<Form> = match sides {
            Some((left, right)) => Some(negation(&mut problem.atoms, left, right)),
            None => None,
        };
        let ghost read_atoms = problem.atoms@;
        proof {
            assert(problem.sound(self.ctx.seq(), self.prelude));
        }
        let collected = self.collect(&mut problem);
        let negated_ref: Option<&Form> = match &negated {
            Some(form) => Some(form),
            None => None,
        };
        proof {
            if let Some(form) = negated_ref {
                lemma_negated_read_extends(form@, goal@, read_atoms, problem.atoms@);
            }
            assert forall|i: int| 0 <= i < problem.facts@.len() implies (#[trigger] problem.facts@[i]).form@.coefficients.len()
                <= problem.atoms@.len() by {
                assert(fact_read(problem.facts@[i], problem.atoms@, falsehood_of(self.prelude)));
            }
        }
        if let Err(name) = collected {
            let limit = self.budget.atoms;
            return Err(self.gave_up(Reason::Budget { name, limit }, &problem, negated_ref, Ghost(goal@)));
        }
        // Each fact under its own index, and the negated goal under the index
        // past the last fact, so that a refutation's multiplier on it is the
        // goal's coefficient.
        let goal_index = problem.facts.len();
        let rows = problem.rows(negated_ref);
        let ghost originals = problem.originals(negated_view(negated_ref));
        let atom_count = problem.atoms.len();
        let ghost width = atom_count as nat;
        // A true comparison of literals in an empty context: the negated
        // goal, the only row, is a contradiction by itself.
        let ghost truth_case = old(self).ctx.seq().len() == 0 && closed_truth(goal@);
        let ghost falsity_case = old(self).ctx.seq().len() == 0 && closed_falsity(goal@);
        proof {
            if falsity_case {
                let form = negated->Some_0;
                let (l, r) = le_sides(goal@).unwrap();
                let leaf = |t: TermView| 0int;
                assert(consistent(read_atoms, leaf, Seq::<int>::empty()));
                lemma_eval_constant(form@, Seq::<int>::empty());
                lemma_closed_value(l, leaf);
                lemma_closed_value(r, leaf);
                assert(form@.constant >= 0);
                assert(rows@.len() == 1);
                assert(rows@[0].form@ == form@);
                assert(crate::arith::fourier::settled(rows@));
            }
            if truth_case {
                let form = negated->Some_0;
                let (l, r) = le_sides(goal@).unwrap();
                let leaf = |t: TermView| 0int;
                assert(consistent(read_atoms, leaf, Seq::<int>::empty()));
                lemma_eval_constant(form@, Seq::<int>::empty());
                lemma_closed_value(l, leaf);
                lemma_closed_value(r, leaf);
                assert(form@.constant < 0);
                assert(rows@[0].form@ == form@);
                assert(crate::arith::fourier::row_refutes(rows@[0]));
                assert(crate::arith::fourier::refuting(rows@));
            }
        }
        let ghost row_views = rows@;
        let outcome = if rows.len() == 0 {
            Outcome::Consistent(Vec::new())
        } else {
            proof {
                assert forall|i: int| 0 <= i < rows@.len() implies #[trigger] rows@[i].within(width) by {
                    if i < problem.facts@.len() {
                        assert(originals[i].0 == problem.facts@[i].form@);
                    }
                }
            }
            eliminate(rows, &self.budget, &mut self.spent, Ghost(originals), Ghost(width))
        };
        let stages = match outcome {
            Outcome::Refuted(multipliers) => {
                proof {
                    if truth_case {
                        let certificate = values(multipliers@);
                        assert(certificate.len() == 1);
                        reveal_with_fuel(crate::arith::linear::weighted, 2);
                        assert(originals.len() == 1);
                        if certificate[0] == 0 {
                            let scores = crate::arith::fourier::original_values(originals, Seq::<int>::empty());
                            let w = crate::arith::linear::at(certificate, 0);
                            let v = crate::arith::linear::at(scores, 0);
                            assert(w == 0);
                            assert(w * v == 0) by (nonlinear_arith)
                                requires
                                    w == 0,
                            ;
                            assert(crate::arith::linear::weighted(certificate, scores, 0) == 0);
                            assert(crate::arith::fourier::combined(originals, certificate, Seq::<int>::empty()) == 0);
                        }
                        assert(multipliers@[0]@ != 0);
                        if le_sides(goal@) is Some {
                            assert(rows@[0].kind == Kind::Inequality);
                            assert(!crate::arith::fourier::row_refutes(rows@[0]) ==> false);
                            assert(certificate == values(rows@[0].multipliers@));
                            assert(certificate == unit_weights(1, 0));
                            assert(multipliers@[0]@ == 1);
                        }
                    }
                }
                let goal_coefficient = if goal_index < multipliers.len() {
                    multipliers[goal_index].copy()
                } else {
                    Integer::zero()
                };
                let pairs = self.pairs(&problem, &multipliers);
                if pairs.len() > self.budget.pairs {
                    let limit = self.budget.pairs;
                    return Err(self.gave_up(Reason::Budget { name: "pairs", limit }, &problem, negated_ref, Ghost(goal@)));
                }
                proof {
                    if negated_ref is None {
                        assert(falsehood_of(self.prelude) == Some(goal@));
                    }
                    lemma_refuted_follows(
                        &problem,
                        negated_view(negated_ref),
                        goal@,
                        self.ctx.seq(),
                        self.prelude,
                        values(multipliers@),
                    );
                }
                if is_false || !goal_coefficient.is_zero() {
                    return Ok(Proof::Linear { goal: goal.copy(), goal_coefficient, pairs });
                }
                // The facts contradict each other without the goal: the
                // certificate proves False, and the goal follows by a case
                // with no arms.
                return match self.prelude {
                    Some(prelude) => Ok(
                        Proof::CaseProof {
                            scrutinee: Box::new(
                                Proof::Linear {
                                    goal: prelude.falsehood_prop(),
                                    goal_coefficient: Integer::zero(),
                                    pairs,
                                },
                            ),
                            goal: goal.copy(),
                            arms: Vec::new(),
                        },
                    ),
                    None => Err(self.gave_up(Reason::NoPrelude, &problem, negated_ref, Ghost(goal@))),
                };
            },
            Outcome::Budget { name, limit } => {
                return Err(self.gave_up(Reason::Budget { name, limit }, &problem, negated_ref, Ghost(goal@)));
            },
            Outcome::Consistent(stages) => stages,
        };
        // Consistent over the rationals, so no single certificate exists. The
        // elimination gives a point: integral, it is a counterexample, and the
        // goal is not provable from these facts; fractional at some atom, the
        // goal is proved in the two cases `atom <= floor` and `floor + 1 <=
        // atom`, each under its case as a hypothesis.
        let (atom_index, floor) = match point(&stages, problem.atoms.len()) {
            Ok(values) => {
                proof {
                    // Every row holds at the point: each fact, and the
                    // negated goal.
                    assert(crate::arith::fourier::ordered(stages@));
                    crate::arith::fourier::lemma_consistent_point(row_views, stages@, crate::arith::form::values(values@));
                    assert forall|i: int| 0 <= i < problem.facts@.len() implies satisfies(
                        (#[trigger] problem.facts@[i]).kind,
                        eval(problem.facts@[i].form@, crate::arith::form::values(values@)),
                    ) by {
                        assert(row_views[i].form@ == originals[i].0 && row_views[i].kind == originals[i].1);
                    }
                    if let Some(form) = negated_ref {
                        let last = problem.facts@.len() as int;
                        assert(row_views[last].form@ == form@);
                    }
                    assert(problem.refuted_spec(values@, negated_ref));
                    if falsity_case {
                        let form = negated->Some_0;
                        lemma_eval_constant(form@, crate::arith::form::values(values@));
                        assert(problem.facts@.len() == 0);
                        assert(problem.refuted_spec(values@, negated_ref));
                    }
                }
                let counterexample = problem.checked_point(&values, negated_ref);
                let report = GaveUp { reason: Reason::Consistent, constraints: problem.claims(), counterexample };
                proof {
                    lemma_lists_hypotheses(problem.facts@, report.constraints@, self.ctx.seq(), self.prelude);
                    if report.counterexample is Found {
                        assert(problem.found(report.counterexample->Found_0@, values@, negated_ref));
                    }
                    lemma_report_holds(&problem, negated_ref, goal@, self.prelude, report);
                }
                return Err(report);
            },
            Err(split) => {
                assert(!falsity_case);
                split
            },
        };
        if self.spent.branches >= self.budget.branches {
            let limit = self.budget.branches;
            return Err(self.gave_up(Reason::Budget { name: "branches", limit }, &problem, negated_ref, Ghost(goal@)));
        }
        self.spent.branches = self.spent.branches + 1;
        let atom = problem.atoms.term(atom_index).copy();
        let bound = Term::Int(floor);
        let below = Term::int_le(atom.copy(), bound.copy());
        let above = Term::int_lt(bound.copy(), atom.copy());
        let below_arm = match self.case_arm(&below, goal, &problem, negated_ref) {
            Ok(arm) => arm,
            Err(gave_up) => return Err(gave_up),
        };
        let above_arm = match self.case_arm(&above, goal, &problem, negated_ref) {
            Ok(arm) => arm,
            Err(gave_up) => return Err(gave_up),
        };
        proof {
            lemma_split_follows(atom@, floor@, goal@, self.ctx.seq(), self.prelude);
        }
        let first = self.ctx.fresh();
        let second = self.ctx.fresh();
        let proof = Proof::CaseProof {
            scrutinee: Box::new(Proof::Axiom(Axiom::IntLeTotal(atom, bound))),
            goal: goal.copy(),
            arms: vec![
                Arm {
                    binders: vec![first],
                    body: Proof::ImpliesElim(Box::new(below_arm), Box::new(Proof::OfTerm(Term::Var(first)))),
                },
                Arm {
                    binders: vec![second],
                    body: Proof::ImpliesElim(Box::new(above_arm), Box::new(Proof::OfTerm(Term::Var(second)))),
                },
            ],
        };
        Ok(proof)
    }

    /// `case => goal`, with the case bound in the context while the goal
    /// is searched for, so that it is read as a fact like any other. When
    /// the search gives up, the report lists this problem's constraints, and
    /// a counterexample from the case, or else from this problem's box.
    fn case_arm(&mut self, case: &Term, goal: &Term, problem: &Problem, negated: Option<&Form>) -> (result: Result<Proof, GaveUp>)
        requires
            old(self).within_budget(),
            linear_goal(goal@, falsehood_of(old(self).prelude)),
            forall|i: int| 0 <= i < problem.facts@.len() ==> (#[trigger] problem.facts@[i]).form@.coefficients.len()
                <= problem.atoms@.len(),
            negated matches Some(form) ==> form@.coefficients.len() <= problem.atoms@.len(),
            problem.wf(falsehood_of(old(self).prelude)),
            goal_read(negated_view(negated), goal@, problem.atoms@, old(self).prelude),
            forall|j: int|
                0 <= j < old(self).ctx.seq().len() && (#[trigger] old(self).ctx.seq()[j]) is Hyp ==> collected(
                    old(self).ctx.seq()[j]->Hyp_prop@,
                    old(self).prelude,
                    problem.facts@,
                ),
        ensures
            evolved(*old(self), *final(self)),
            result matches Err(gave_up) ==> !(gave_up.reason is NotLinear),
            result matches Err(gave_up) ==> reported(gave_up, goal@, old(self).budget),
            result matches Err(gave_up) ==> reported_spent(gave_up, old(self).budget, final(self).spent),
            (result matches Err(gave_up) && gave_up.reason is NoPrelude) ==> old(self).prelude is None,
            result matches Err(gave_up) ==> refutes_goal(gave_up, goal@, old(self).prelude),
            result matches Err(gave_up) ==> counterexample_holds(gave_up, goal@, old(self).prelude),
            lists_hypotheses_when_linear(result, old(self).ctx.seq(), old(self).prelude),
            result is Ok ==> forall|leaf: spec_fn(TermView) -> int|
                assumed(old(self).ctx.seq(), old(self).prelude, leaf) && #[trigger] holds(case@, old(self).prelude, leaf)
                    ==> holds(goal@, old(self).prelude, leaf),
        decreases old(self).budget.branches - old(self).spent.branches, old(self).budget.depth - old(self).depth, 8int,
    {
        let ghost before = self.ctx.seq();
        let checkpoint = self.ctx.checkpoint();
        let hypothesis = self.ctx.fresh();
        self.ctx.suppose(hypothesis, case.copy());
        let ghost during = self.ctx.seq();
        let found = self.prove_goal(goal);
        self.ctx.rollback(checkpoint);
        assert(self.ctx.seq() =~= before);
        match found {
            Ok(body) => {
                proof {
                    assert forall|leaf: spec_fn(TermView) -> int|
                        assumed(before, self.prelude, leaf) && #[trigger] holds(case@, self.prelude, leaf) implies holds(
                        goal@,
                        self.prelude,
                        leaf,
                    ) by {
                        let binding = during[during.len() - 1];
                        assert(during == before.push(binding));
                        lemma_context_push(before, binding, self.prelude, leaf);
                        assert(assumed(during, self.prelude, leaf));
                    }
                }
                Ok(Proof::ImpliesIntro { premise: case.copy(), hypothesis, body: Box::new(body) })
            },
            Err(gave_up) => {
                let mut gave_up = gave_up;
                gave_up.constraints = problem.claims();
                proof {
                    lemma_lists_hypotheses(problem.facts@, gave_up.constraints@, before, self.prelude);
                }
                // A counterexample from the case satisfies this problem's
                // constraints too, the case's being these and the case:
                // confirmed at the values it gives this problem's atoms, and
                // otherwise this problem's box is searched.
                let confirmed = match &gave_up.counterexample {
                    Counterexample::Found(assignment) => match problem.matched_point(assignment) {
                        Some((values, entries)) => {
                            let holds_here = problem.refuted_at(&values, negated);
                            proof {
                                if holds_here {
                                    assert(problem.holds_at(crate::arith::form::values(values@), negated));
                                    assert forall|leaf: spec_fn(TermView) -> int|
                                        #[trigger] agrees(assignment@, leaf) implies (forall|k: int|
                                        0 <= k < gave_up.constraints@.len() ==> holds(
                                            (#[trigger] gave_up.constraints@[k])@,
                                            self.prelude,
                                            leaf,
                                        )) && !holds(goal@, self.prelude, leaf) by {
                                        lemma_matched_consistent(assignment@, problem.atoms@, values@, entries@, leaf);
                                        lemma_consistent_holds(
                                            problem,
                                            negated,
                                            goal@,
                                            self.prelude,
                                            crate::arith::form::values(values@),
                                            leaf,
                                        );
                                        assert forall|k: int| 0 <= k < gave_up.constraints@.len() implies holds(
                                            (#[trigger] gave_up.constraints@[k])@,
                                            self.prelude,
                                            leaf,
                                        ) by {
                                            assert(holds(problem.facts@[k].claim@, self.prelude, leaf));
                                        }
                                    }
                                }
                            }
                            holds_here
                        },
                        None => false,
                    },
                    _ => false,
                };
                if !confirmed {
                    gave_up.counterexample = problem.searched_box(negated);
                    proof {
                        lemma_report_holds(problem, negated, goal@, self.prelude, gave_up);
                    }
                }
                Err(gave_up)
            },
        }
    }

    /// The pairs of a certificate: each fact with a non-zero multiplier, in
    /// order. A multiplier past the facts, on the negated goal, is not a
    /// pair.
    fn pairs(&self, problem: &Problem, multipliers: &Vec<Integer>) -> (result: Vec<(Proof, Integer)>)
        ensures
            result@.len() <= problem.facts@.len(),
            forall|i: int| 0 <= i < result@.len() ==> (#[trigger] result@[i]).1@ != 0,
            ({
                let positions = nonzero_positions(
                    multipliers@,
                    if problem.facts@.len() < multipliers@.len() {
                        problem.facts@.len() as int
                    } else {
                        multipliers@.len() as int
                    },
                );
                &&& result@.len() == positions.len()
                &&& forall|k: int|
                    #![trigger result@[k]]
                    0 <= k < result@.len() ==> 0 <= positions[k] < problem.facts@.len() && positions[k]
                        < multipliers@.len() && result@[k].1@ == multipliers@[positions[k]]@ && same_proof(
                        problem.facts@[positions[k]].proof,
                        result@[k].0,
                    )
            }),
    {
        let mut result: Vec<(Proof, Integer)> = Vec::new();
        let mut index: usize = 0;
        while index < problem.facts.len() && index < multipliers.len()
            invariant
                index <= problem.facts@.len(),
                index <= multipliers@.len(),
                result@.len() <= index,
                forall|i: int| 0 <= i < result@.len() ==> (#[trigger] result@[i]).1@ != 0,
                result@.len() == nonzero_positions(multipliers@, index as int).len(),
                forall|k: int|
                    #![trigger result@[k]]
                    0 <= k < result@.len() ==> result@[k].1@ == multipliers@[nonzero_positions(multipliers@, index as int)[k]]@
                        && same_proof(
                        problem.facts@[nonzero_positions(multipliers@, index as int)[k]].proof,
                        result@[k].0,
                    ),
            decreases problem.facts.len() - index,
        {
            let ghost before = nonzero_positions(multipliers@, index as int);
            let ghost kept = result@;
            if !multipliers[index].is_zero() {
                result.push((problem.facts[index].proof.copy(), multipliers[index].copy()));
                assert(nonzero_positions(multipliers@, index + 1) == before.push(index as int));
            } else {
                assert(nonzero_positions(multipliers@, index + 1) == before);
            }
            let ghost after = nonzero_positions(multipliers@, index + 1);
            assert forall|k: int|
                #![trigger result@[k]]
                0 <= k < result@.len() implies result@[k].1@ == multipliers@[after[k]]@
                && same_proof(problem.facts@[after[k]].proof, result@[k].0) by {
                if k < kept.len() {
                    assert(result@[k] == kept[k]);
                    assert(after[k] == before[k]);
                    assert(kept[k].1@ == multipliers@[before[k]]@);
                } else {
                    assert(k == kept.len());
                    assert(after[k] == index as int);
                }
            }
            index += 1;
        }
        let ghost count = if problem.facts@.len() < multipliers@.len() {
            problem.facts@.len() as int
        } else {
            multipliers@.len() as int
        };
        assert(index as int == count);
        proof {
            lemma_positions_below(multipliers@, count);
        }
        result
    }

    /// The report of a failure, with a counterexample when one can be found
    /// in the box.
    fn gave_up(&self, reason: Reason, problem: &Problem, negated: Option<&Form>, Ghost(goal): Ghost<TermView>) -> (result: GaveUp)
        requires
            forall|i: int| 0 <= i < problem.facts@.len() ==> (#[trigger] problem.facts@[i]).form@.coefficients.len()
                <= problem.atoms@.len(),
            negated matches Some(form) ==> form@.coefficients.len() <= problem.atoms@.len(),
            problem.wf(falsehood_of(self.prelude)),
            goal_read(negated_view(negated), goal, problem.atoms@, self.prelude),
            forall|j: int|
                0 <= j < self.ctx.seq().len() && (#[trigger] self.ctx.seq()[j]) is Hyp ==> collected(
                    self.ctx.seq()[j]->Hyp_prop@,
                    self.prelude,
                    problem.facts@,
                ),
        ensures
            counterexample_holds(result, goal, self.prelude),
            lists_hypotheses(result.constraints@, self.ctx.seq(), self.prelude),
            result.reason == reason,
            result.constraints@.len() == problem.facts@.len(),
            forall|i: int| 0 <= i < result.constraints@.len() ==> #[trigger] result.constraints@[i]@
                == problem.facts@[i].claim@,
    {
        let constraints = problem.claims();
        let counterexample = problem.searched_box(negated);
        let result = GaveUp { reason, constraints, counterexample };
        proof {
            lemma_lists_hypotheses(problem.facts@, result.constraints@, self.ctx.seq(), self.prelude);
            lemma_report_holds(problem, negated, goal, self.prelude, result);
        }
        result
    }
}
} // verus!
