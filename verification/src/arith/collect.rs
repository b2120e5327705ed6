//! Collecting the constraints of a problem, each with the proof that stands
//! behind it. Nothing enters without one: a hypothesis by `Hyp`, a variable
//! of proof type by `OfTerm`, and so is each proof field of a variable of
//! tuple type, a part of a conjunction by a case on it, the range of a
//! machine view by the range axioms, the quotient and remainder of a
//! division by a literal by the division axioms with their conditions
//! discharged. Every fact collected follows from what the context assumes
//! and the axioms.

use crate::arith::form::{constraint_kind, extends, falsehood_of, read_constraint};
use crate::arith::truth::{
    assumed, binding_holds, context_holds, follows, holds, lemma_axiom_follows, lemma_fields_hold,
    type_holds, valid_instance,
};
use crate::arith::{evolved, fact_read, lemma_fact_read_extends, Fact, Problem, Search};
use crate::integer::Integer;
use crate::term::{
    axiom_statement, binary_view, eq_view, rem_view, same_proof, lemma_terms_view, lt_view, same, successor_view, Arm,
    Axiom, Binding, Prelude, Prim, Proof, Term, TermView, Type,
};
use crate::arith::form::term_value;
use vstd::prelude::*;

verus! {

/// Whether what a type carries follows from what a context assumes.
pub open spec fn type_follows(ty: Type, bindings: Seq<Binding>, prelude: Option<Prelude>) -> bool {
    forall|leaf: spec_fn(TermView) -> int| #[trigger] assumed(bindings, prelude, leaf) ==> type_holds(ty, prelude, leaf)
}

/// Whether the claim of every piece of evidence follows from what a
/// context assumes.
pub open spec fn evidence_follows(evidence: Seq<(Proof, Term)>, bindings: Seq<Binding>, prelude: Option<Prelude>) -> bool {
    forall|i: int| 0 <= i < evidence.len() ==> #[trigger] follows(evidence[i].1@, bindings, prelude)
}

/// `a < b` holds of literals `a < b`.
proof fn lemma_literal_lt(a: int, b: int, prelude: Option<Prelude>, leaf: spec_fn(TermView) -> int)
    requires
        a < b,
    ensures
        holds(lt_view(TermView::Int(a), TermView::Int(b)), prelude, leaf),
{
    assert(term_value(successor_view(TermView::Int(a)), leaf) == a + 1) by {
        reveal_with_fuel(term_value, 2);
    }
}

/// The claims of the proofs a value of a type carries: the type's claim
/// when it is a proof type, and those of a tuple's fields in order.
pub open spec fn carried_claims(ty: Type) -> Seq<TermView>
    decreases ty, 0int,
{
    match ty {
        Type::Proof(claim) => seq![(*claim)@],
        Type::Tuple(fields) => fields_claims(fields@, fields@.len() as int),
        _ => Seq::empty(),
    }
}

/// The claims the first `count` fields of a tuple carry, in order.
pub open spec fn fields_claims(fields: Seq<Type>, count: int) -> Seq<TermView>
    decreases fields, count,
{
    if count <= 0 || count > fields.len() {
        Seq::empty()
    } else {
        fields_claims(fields, count - 1) + carried_claims(fields[count - 1])
    }
}

/// The claims of a list of evidence.
pub open spec fn evidence_claims(evidence: Seq<(Proof, Term)>) -> Seq<TermView> {
    evidence.map_values(|piece: (Proof, Term)| piece.1@)
}

/// The proofs a value carries, by its type: itself when it is a proof, and
/// the proof fields of a tuple. A field's type does not mention the fields
/// before it.
fn carried(value: &Term, ty: &Type, into: &mut Vec<(Proof, Term)>, Ghost(bindings): Ghost<Seq<Binding>>, Ghost(prelude): Ghost<Option<Prelude>>)
    requires
        type_follows(*ty, bindings, prelude),
        evidence_follows(old(into)@, bindings, prelude),
    ensures
        evidence_follows(final(into)@, bindings, prelude),
        evidence_claims(final(into)@) == evidence_claims(old(into)@) + carried_claims(*ty),
    decreases ty,
{
    match ty {
        Type::Proof(claim) => {
            let ghost before = into@;
            into.push((Proof::OfTerm(value.copy()), claim.copy()));
            assert(evidence_claims(into@) =~= evidence_claims(before) + carried_claims(*ty));
            assert forall|leaf: spec_fn(TermView) -> int| #[trigger] assumed(bindings, prelude, leaf) implies holds(
                (**claim)@,
                prelude,
                leaf,
            ) by {
                assert(type_holds(*ty, prelude, leaf));
            }
            assert(follows((**claim)@, bindings, prelude));
        },
        Type::Tuple(fields) => {
            proof {
                assert forall|i: int| 0 <= i < fields@.len() implies #[trigger] type_follows(fields@[i], bindings, prelude) by {
                    assert forall|leaf: spec_fn(TermView) -> int| #[trigger] assumed(bindings, prelude, leaf) implies type_holds(
                        fields@[i],
                        prelude,
                        leaf,
                    ) by {
                        assert(type_holds(*ty, prelude, leaf));
                        lemma_fields_hold(fields@, prelude, leaf);
                    }
                }
            }
            carried_fields(value, fields, into, Ghost(bindings), Ghost(prelude));
        },
        _ => {
            assert(evidence_claims(into@) =~= evidence_claims(into@) + carried_claims(*ty));
        },
    }
}

/// The proofs the fields of a tuple carry, each field projected from the
/// value.
fn carried_fields(value: &Term, fields: &Vec<Type>, into: &mut Vec<(Proof, Term)>, Ghost(bindings): Ghost<Seq<Binding>>, Ghost(prelude): Ghost<Option<Prelude>>)
    requires
        forall|i: int| 0 <= i < fields@.len() ==> #[trigger] type_follows(fields@[i], bindings, prelude),
        evidence_follows(old(into)@, bindings, prelude),
    ensures
        evidence_follows(final(into)@, bindings, prelude),
        evidence_claims(final(into)@) == evidence_claims(old(into)@) + fields_claims(fields@, fields@.len() as int),
    decreases fields,
{
    let mut index: usize = 0;
    while index < fields.len()
        invariant
            index <= fields@.len(),
            evidence_claims(into@) == evidence_claims(old(into)@) + fields_claims(fields@, index as int),
            forall|i: int| 0 <= i < fields@.len() ==> #[trigger] type_follows(fields@[i], bindings, prelude),
            evidence_follows(into@, bindings, prelude),
        decreases fields.len() - index,
    {
        let field = Term::Proj(Box::new(value.copy()), index);
        let ghost before = evidence_claims(into@);
        carried(&field, &fields[index], into, Ghost(bindings), Ghost(prelude));
        assert(fields_claims(fields@, index + 1) == fields_claims(fields@, index as int) + carried_claims(
            fields@[index as int],
        ));
        assert(evidence_claims(into@) =~= evidence_claims(old(into)@) + fields_claims(fields@, index + 1));
        index += 1;
    }
}

/// Whether the facts after are those before, then possibly more.
pub open spec fn facts_extend(before: Seq<Fact>, after: Seq<Fact>) -> bool {
    after.len() >= before.len() && after.take(before.len() as int) == before
}

/// The decomposition of a division by a literal `k`:
/// `a ==[Int] (a / k) * k + a % k`.
pub open spec fn decomposition(dividend: TermView, divisor: int) -> TermView {
    let k = TermView::Int(divisor);
    eq_view(
        dividend,
        binary_view(
            Prim::IntAdd,
            binary_view(Prim::IntMul, binary_view(Prim::IntDiv, dividend, k), k),
            rem_view(dividend, k),
        ),
    )
}

/// Whether a claim is among the facts.
pub open spec fn among_facts(facts: Seq<Fact>, claim: TermView) -> bool {
    exists|i: int| 0 <= i < facts.len() && #[trigger] facts[i].claim@ == claim
}

/// Whether the decomposition of every division the problem has met is
/// among its facts, unless the facts have no room left for one more.
pub open spec fn decomposed(problem: Problem) -> bool {
    ||| problem.facts@.len() >= usize::MAX - 1
    ||| forall|i: int|
        0 <= i < problem.divisions@.len() ==> #[trigger] among_facts(
            problem.facts@,
            decomposition(problem.divisions@[i].0@, problem.divisions@[i].1@),
        )
}

/// In a sound problem, every division `a / k` or `a % k` it has met has its
/// decomposition `a == (a / k) * k + a % k` among the facts, while the
/// facts have room.
pub proof fn lemma_divisions_decomposed(problem: Problem, bindings: Seq<Binding>, prelude: Option<Prelude>, i: int)
    requires
        problem.sound(bindings, prelude),
        0 <= i < problem.divisions@.len(),
        problem.facts@.len() < usize::MAX - 1,
    ensures
        among_facts(problem.facts@, decomposition(problem.divisions@[i].0@, problem.divisions@[i].1@)),
{
}

/// Under an interpretation in which the decomposition of `a / k` holds, the
/// value of `a` is the quotient's times `k` plus the remainder's: a
/// counterexample that keeps to the facts gives the quotient and the
/// remainder of a division values that fit the dividend.
pub proof fn lemma_decomposition_holds(
    dividend: TermView,
    divisor: int,
    prelude: Option<Prelude>,
    leaf: spec_fn(TermView) -> int,
)
    requires
        holds(decomposition(dividend, divisor), prelude, leaf),
    ensures
        term_value(dividend, leaf) == term_value(binary_view(Prim::IntDiv, dividend, TermView::Int(divisor)), leaf)
            * divisor + term_value(rem_view(dividend, TermView::Int(divisor)), leaf),
{
    let k = TermView::Int(divisor);
    let quotient = binary_view(Prim::IntDiv, dividend, k);
    let product = binary_view(Prim::IntMul, quotient, k);
    let sum = binary_view(Prim::IntAdd, product, rem_view(dividend, k));
    assert(term_value(k, leaf) == divisor);
    assert(term_value(product, leaf) == term_value(quotient, leaf) * divisor);
    assert(term_value(sum, leaf) == term_value(product, leaf) + term_value(rem_view(dividend, k), leaf));
    assert(term_value(dividend, leaf) == term_value(sum, leaf));
}

/// A claim among facts stays among them as they are extended.
proof fn lemma_among_facts_extend(before: Seq<Fact>, after: Seq<Fact>, claim: TermView)
    requires
        facts_extend(before, after),
        among_facts(before, claim),
    ensures
        among_facts(after, claim),
{
    let i = choose|i: int| 0 <= i < before.len() && #[trigger] before[i].claim@ == claim;
    assert(after.take(before.len() as int)[i] == after[i]);
    assert(after[i].claim@ == claim);
}

/// Extending facts is transitive.
proof fn lemma_facts_extend(a: Seq<Fact>, b: Seq<Fact>, c: Seq<Fact>)
    requires
        facts_extend(a, b),
        facts_extend(b, c),
    ensures
        facts_extend(a, c),
{
    assert(c.take(a.len() as int) =~= b.take(a.len() as int));
}

/// Whether some fact claims a proposition.
pub open spec fn claimed(facts: Seq<Fact>, claim: TermView) -> bool {
    exists|k: int| 0 <= k < facts.len() && (#[trigger] facts[k]).claim@ == claim
}

/// Whether the facts claim every claim a hypothesis adds, unless there was
/// no room for them.
pub open spec fn collected(prop: TermView, prelude: Option<Prelude>, facts: Seq<Fact>) -> bool {
    ||| forall|c: TermView| #[trigger] hypothesis_claims(prop, prelude).contains(c) ==> claimed(facts, c)
    ||| facts.len() + hypothesis_claims(prop, prelude).len() >= usize::MAX - 1
}

/// What was collected stays collected as facts are added.
proof fn lemma_collected_extend(prop: TermView, prelude: Option<Prelude>, before: Seq<Fact>, after: Seq<Fact>)
    requires
        collected(prop, prelude, before),
        facts_extend(before, after),
    ensures
        collected(prop, prelude, after),
{
    assert forall|c: TermView| claimed(before, c) implies claimed(after, c) by {
        let k = choose|k: int| 0 <= k < before.len() && (#[trigger] before[k]).claim@ == c;
        assert(after.take(before.len() as int)[k] == after[k]);
    }
}

/// A hypothesis whose claims were all added as facts is collected.
proof fn lemma_added_collected(prop: TermView, prelude: Option<Prelude>, before: Seq<Fact>, after: Seq<Fact>)
    requires
        facts_extend(before, after),
        before.len() + hypothesis_claims(prop, prelude).len() < usize::MAX - 1 ==> facts_added(
            before,
            after,
            hypothesis_claims(prop, prelude),
        ),
    ensures
        collected(prop, prelude, after),
{
    let claims = hypothesis_claims(prop, prelude);
    if before.len() + claims.len() < usize::MAX - 1 {
        assert forall|c: TermView| #[trigger] claims.contains(c) implies claimed(after, c) by {
            let i = choose|i: int| 0 <= i < claims.len() && claims[i] == c;
            assert(after[before.len() + i].claim@ == claims[i]);
        }
    }
}

/// The claims a hypothesis adds as facts, in order: the parts of a
/// conjunction of the prelude, each in turn, and otherwise the hypothesis
/// itself when it is a constraint.
pub open spec fn hypothesis_claims(prop: TermView, prelude: Option<Prelude>) -> Seq<TermView>
    decreases prop,
{
    if prelude is Some && prop is PropApp && prop->PropApp_0 == prelude->0.and as nat && prop->PropApp_1.len() == 2 {
        hypothesis_claims(prop->PropApp_1[0], prelude) + hypothesis_claims(prop->PropApp_1[1], prelude)
    } else if constraint_kind(prop, falsehood_of(prelude)) is Some {
        seq![prop]
    } else {
        Seq::empty()
    }
}

/// The facts after are those before, then facts claiming the claims given,
/// in order.
pub open spec fn facts_added(before: Seq<Fact>, after: Seq<Fact>, claims: Seq<TermView>) -> bool {
    &&& after.len() == before.len() + claims.len()
    &&& after.take(before.len() as int) == before
    &&& forall|k: int| 0 <= k < claims.len() ==> (#[trigger] after[before.len() + k]).claim@ == claims[k]
}

impl Search {
    /// The facts in scope for `problem`: the hypotheses, then, for every
    /// atom that occurs in the goal or in a collected fact, the facts about
    /// that atom, until no atom is left unvisited. Fails only on the atom
    /// budget.
    #[verifier::loop_isolation(false)]
    pub fn collect(&mut self, problem: &mut Problem) -> (result: Result<(), &'static str>)
        requires
            old(self).within_budget(),
            old(problem).sound(old(self).ctx.seq(), old(self).prelude),
        ensures
            evolved(*old(self), *final(self)),
            final(problem).sound(old(self).ctx.seq(), old(self).prelude),
            extends(old(problem).atoms@, final(problem).atoms@),
            result matches Err(name) ==> name == "atoms" && final(problem).atoms@.len() > old(self).budget.atoms,
            facts_extend(old(problem).facts@, final(problem).facts@),
            old(self).ctx.seq().len() == 0 && old(problem).atoms@.len() == 0 ==> result is Ok && final(problem).facts@
                == old(problem).facts@ && final(problem).atoms@.len() == 0,
            forall|j: int|
                0 <= j < old(self).ctx.seq().len() && (#[trigger] old(self).ctx.seq()[j]) is Hyp ==> collected(
                    old(self).ctx.seq()[j]->Hyp_prop@,
                    old(self).prelude,
                    final(problem).facts@,
                ),
        decreases old(self).budget.branches - old(self).spent.branches, old(self).budget.depth - old(self).depth, 5int,
    {
        let ghost first_facts = problem.facts@;
        assert(first_facts.take(first_facts.len() as int) =~= first_facts);
        let ghost start = *self;
        let ghost first_atoms = problem.atoms@;
        let ghost scope = self.ctx.seq();
        let ghost prelude = self.prelude;
        let mut evidence: Vec<(Proof, Term)> = Vec::new();
        let bindings = self.ctx.bindings();
        let mut index: usize = 0;
        while index < bindings.len()
            invariant
                index <= bindings@.len(),
                bindings@ == scope,
                evidence_follows(evidence@, scope, prelude),
                scope.len() == 0 ==> evidence@.len() == 0,
                forall|j: int|
                    0 <= j < index && (#[trigger] scope[j]) is Hyp ==> exists|k: int|
                        0 <= k < evidence@.len() && evidence@[k].1@ == scope[j]->Hyp_prop@,
            decreases bindings.len() - index,
        {
            let ghost earlier = evidence@;
            match &bindings[index] {
                Binding::Hyp { id, prop } => {
                    evidence.push((Proof::Hyp(*id), prop.copy()));
                    assert forall|j: int|
                        0 <= j < index + 1 && (#[trigger] scope[j]) is Hyp implies exists|k: int|
                            0 <= k < evidence@.len() && evidence@[k].1@ == scope[j]->Hyp_prop@ by {
                        if j < index {
                            let k = choose|k: int| 0 <= k < earlier.len() && earlier[k].1@ == scope[j]->Hyp_prop@;
                            assert(evidence@[k] == earlier[k]);
                        } else {
                            assert(evidence@[earlier.len() as int].1@ == scope[j]->Hyp_prop@);
                        }
                    }
                    assert forall|leaf: spec_fn(TermView) -> int| #[trigger] assumed(scope, prelude, leaf) implies holds(
                        prop@,
                        prelude,
                        leaf,
                    ) by {
                        assert(binding_holds(scope[index as int], prelude, leaf));
                    }
                    assert(follows(prop@, scope, prelude));
                },
                Binding::Var { id, ty } => {
                    assert forall|leaf: spec_fn(TermView) -> int| #[trigger] assumed(scope, prelude, leaf) implies type_holds(
                        *ty,
                        prelude,
                        leaf,
                    ) by {
                        assert(binding_holds(scope[index as int], prelude, leaf));
                    }
                    carried(&Term::Var(*id), ty, &mut evidence, Ghost(scope), Ghost(prelude));
                    assert forall|j: int|
                        0 <= j < index + 1 && (#[trigger] scope[j]) is Hyp implies exists|k: int|
                            0 <= k < evidence@.len() && evidence@[k].1@ == scope[j]->Hyp_prop@ by {
                        assert(scope[index as int] is Var);
                        assert(j < index);
                        let k = choose|k: int| 0 <= k < earlier.len() && earlier[k].1@ == scope[j]->Hyp_prop@;
                        assert(evidence_claims(evidence@).len() == evidence@.len());
                        assert(evidence_claims(earlier).len() == earlier.len());
                        assert(evidence_claims(evidence@)[k] == evidence_claims(earlier)[k]);
                        assert(evidence@[k].1@ == evidence_claims(evidence@)[k]);
                    }
                },
            }
            index += 1;
        }
        let mut index: usize = 0;
        while index < evidence.len()
            invariant
                index <= evidence@.len(),
                evidence_follows(evidence@, scope, prelude),
                start.ctx.seq() == scope,
                start.prelude == prelude,
                evolved(start, *self),
                self.within_budget(),
                problem.sound(scope, prelude),
                extends(first_atoms, problem.atoms@),
                facts_extend(first_facts, problem.facts@),
                evidence@.len() == 0 ==> problem.facts@ == first_facts && problem.atoms@ == first_atoms,
                forall|k: int| 0 <= k < index ==> #[trigger] collected(evidence@[k].1@, prelude, problem.facts@),
            decreases evidence.len() - index,
        {
            let piece = &evidence[index];
            let ghost before = problem.atoms@;
            let ghost facts_before = problem.facts@;
            assert(follows(evidence@[index as int].1@, scope, prelude));
            self.add_hypothesis(problem, piece.0.copy(), &piece.1);
            proof {
                assert(facts_extend(facts_before, problem.facts@));
                lemma_facts_extend(first_facts, facts_before, problem.facts@);
                lemma_added_collected(evidence@[index as int].1@, prelude, facts_before, problem.facts@);
                assert forall|k: int| 0 <= k < index + 1 implies #[trigger] collected(
                    evidence@[k].1@,
                    prelude,
                    problem.facts@,
                ) by {
                    if k < index {
                        lemma_collected_extend(evidence@[k].1@, prelude, facts_before, problem.facts@);
                    }
                }
            }
            index += 1;
        }
        let mut visited: usize = 0;
        while visited < problem.atoms.len()
            invariant
                visited <= self.budget.atoms,
                start.ctx.seq() == scope,
                start.prelude == prelude,
                evolved(start, *self),
                self.within_budget(),
                problem.sound(scope, prelude),
                extends(first_atoms, problem.atoms@),
                facts_extend(first_facts, problem.facts@),
                evidence@.len() == 0 && first_atoms.len() == 0 ==> problem.facts@ == first_facts && problem.atoms@.len()
                    == 0,
                forall|k: int| 0 <= k < evidence@.len() ==> #[trigger] collected(evidence@[k].1@, prelude, problem.facts@),
                forall|j: int|
                    0 <= j < scope.len() && (#[trigger] scope[j]) is Hyp ==> exists|k: int|
                        0 <= k < evidence@.len() && evidence@[k].1@ == scope[j]->Hyp_prop@,
            decreases self.budget.atoms - visited,
        {
            if problem.atoms.len() > self.budget.atoms {
                return Err("atoms");
            }
            let atom = problem.atoms.term(visited).copy();
            visited += 1;
            let ghost facts_before = problem.facts@;
            self.add_facts_about(problem, &atom);
            proof {
                lemma_facts_extend(first_facts, facts_before, problem.facts@);
                assert forall|k: int| 0 <= k < evidence@.len() implies #[trigger] collected(
                    evidence@[k].1@,
                    prelude,
                    problem.facts@,
                ) by {
                    lemma_collected_extend(evidence@[k].1@, prelude, facts_before, problem.facts@);
                }
            }
        }
        Ok(())
    }

    /// A hypothesis, or each part of a conjunction, if it is a constraint.
    pub fn add_hypothesis(&mut self, problem: &mut Problem, proof: Proof, prop: &Term)
        requires
            old(problem).sound(old(self).ctx.seq(), old(self).prelude),
            follows(prop@, old(self).ctx.seq(), old(self).prelude),
        ensures
            final(self).ctx.seq() == old(self).ctx.seq(),
            final(self).prelude == old(self).prelude,
            final(self).budget == old(self).budget,
            final(self).depth == old(self).depth,
            final(self).spent == old(self).spent,
            final(problem).sound(old(self).ctx.seq(), old(self).prelude),
            extends(old(problem).atoms@, final(problem).atoms@),
            final(problem).facts@.take(old(problem).facts@.len() as int) == old(problem).facts@,
            final(problem).facts@.len() >= old(problem).facts@.len(),
            old(problem).facts@.len() + hypothesis_claims(prop@, old(self).prelude).len() < usize::MAX - 1
                ==> facts_added(old(problem).facts@, final(problem).facts@, hypothesis_claims(prop@, old(self).prelude)),
        decreases prop,
    {
        if let Some(prelude) = self.prelude {
            if let Term::PropApp(id, parts) = prop {
                if *id == prelude.and && parts.len() == 2 {
                    proof {
                        lemma_terms_view(parts@);
                    }
                    // `And` has one variant with the two parts as its
                    // payload: a case on the proof binds them, and each is a
                    // proof term.
                    let ghost scope = self.ctx.seq();
                    let ghost first_atoms = problem.atoms@;
                    assert forall|leaf: spec_fn(TermView) -> int| #[trigger] assumed(scope, self.prelude, leaf) implies holds(
                        parts@[0]@,
                        self.prelude,
                        leaf,
                    ) && holds(parts@[1]@, self.prelude, leaf) by {
                        assert(holds(prop@, self.prelude, leaf));
                    }
                    assert(hypothesis_claims(prop@, self.prelude) == hypothesis_claims(parts@[0]@, self.prelude)
                        + hypothesis_claims(parts@[1]@, self.prelude));
                    self.add_parts(problem, &proof, parts);
                    return;
                }
            }
        }
        let ghost before = problem.facts@;
        let added = self.add_fact(problem, proof, prop.copy());
        proof {
            if let Term::PropApp(_, parts) = prop {
                lemma_terms_view(parts@);
            }
            if let Some(index) = added {
                assert(hypothesis_claims(prop@, self.prelude) == seq![prop@]);
                assert(problem.facts@[before.len() + 0int] == problem.facts@[index as int]);
            } else {
                if before.len() + hypothesis_claims(prop@, self.prelude).len() < usize::MAX - 1 {
                    assert(hypothesis_claims(prop@, self.prelude) =~= Seq::<TermView>::empty());
                }
                assert(problem.facts@.take(before.len() as int) =~= before);
            }
        }
    }

    /// Each part of a conjunction, projected from its proof by a case on
    /// it.
    fn add_parts(&mut self, problem: &mut Problem, proof: &Proof, parts: &Vec<Term>)
        requires
            parts@.len() == 2,
            old(problem).sound(old(self).ctx.seq(), old(self).prelude),
            follows(parts@[0]@, old(self).ctx.seq(), old(self).prelude),
            follows(parts@[1]@, old(self).ctx.seq(), old(self).prelude),
        ensures
            final(self).ctx.seq() == old(self).ctx.seq(),
            final(self).prelude == old(self).prelude,
            final(self).budget == old(self).budget,
            final(self).depth == old(self).depth,
            final(self).spent == old(self).spent,
            final(problem).sound(old(self).ctx.seq(), old(self).prelude),
            extends(old(problem).atoms@, final(problem).atoms@),
            final(problem).facts@.take(old(problem).facts@.len() as int) == old(problem).facts@,
            final(problem).facts@.len() >= old(problem).facts@.len(),
            ({
                let claims = hypothesis_claims(parts@[0]@, old(self).prelude) + hypothesis_claims(
                    parts@[1]@,
                    old(self).prelude,
                );
                old(problem).facts@.len() + claims.len() < usize::MAX - 1 ==> facts_added(
                    old(problem).facts@,
                    final(problem).facts@,
                    claims,
                )
            }),
        decreases parts,
    {
        let ghost scope = self.ctx.seq();
        let ghost first_atoms = problem.atoms@;
        let ghost first_facts = problem.facts@;
        let ghost all = hypothesis_claims(parts@[0]@, old(self).prelude) + hypothesis_claims(parts@[1]@, old(self).prelude);
        let mut which: usize = 0;
        while which < 2
            invariant
                which <= 2,
                parts@.len() == 2,
                self.ctx.seq() == scope,
                self.prelude == old(self).prelude,
                self.budget == old(self).budget,
                self.depth == old(self).depth,
                self.spent == old(self).spent,
                scope == old(self).ctx.seq(),
                problem.sound(scope, self.prelude),
                extends(first_atoms, problem.atoms@),
                follows(parts@[0]@, scope, self.prelude),
                follows(parts@[1]@, scope, self.prelude),
                problem.facts@.take(first_facts.len() as int) == first_facts,
                problem.facts@.len() >= first_facts.len(),
                all == hypothesis_claims(parts@[0]@, self.prelude) + hypothesis_claims(parts@[1]@, self.prelude),
                first_facts.len() + all.len() < usize::MAX - 1 ==> facts_added(
                    first_facts,
                    problem.facts@,
                    if which == 0 {
                        Seq::empty()
                    } else if which == 1 {
                        hypothesis_claims(parts@[0]@, self.prelude)
                    } else {
                        all
                    },
                ),
            decreases 2 - which,
        {
            let ghost facts_before = problem.facts@;
            let left = self.ctx.fresh();
            let right = self.ctx.fresh();
            let bound = if which == 0 {
                left
            } else {
                right
            };
            let projection = Proof::CaseProof {
                scrutinee: Box::new(proof.copy()),
                goal: parts[which].copy(),
                arms: vec![Arm { binders: vec![left, right], body: Proof::OfTerm(Term::Var(bound)) }],
            };
            self.add_hypothesis(problem, projection, &parts[which]);
            proof {
                assert(problem.facts@.take(first_facts.len() as int) == first_facts) by {
                    assert(problem.facts@.take(facts_before.len() as int) == facts_before);
                    assert(problem.facts@.take(first_facts.len() as int) =~= facts_before.take(first_facts.len() as int));
                }
                if first_facts.len() + all.len() < usize::MAX - 1 {
                    let done = if which == 0 {
                        Seq::<TermView>::empty()
                    } else {
                        hypothesis_claims(parts@[0]@, self.prelude)
                    };
                    let now = hypothesis_claims(parts@[which as int]@, self.prelude);
                    assert(facts_added(first_facts, facts_before, done));
                    assert(facts_added(facts_before, problem.facts@, now));
                    assert(done + now == if which == 0 {
                        hypothesis_claims(parts@[0]@, self.prelude)
                    } else {
                        all
                    }) by {
                        if which == 0 {
                            assert(done + now =~= now);
                        }
                    }
                    assert forall|k: int| 0 <= k < (done + now).len() implies (#[trigger] problem.facts@[first_facts.len() + k]).claim@
                        == (done + now)[k] by {
                        if k < done.len() {
                            assert(problem.facts@[first_facts.len() + k] == facts_before[first_facts.len() + k]);
                        } else {
                            assert(problem.facts@[facts_before.len() + (k - done.len())].claim@ == now[k - done.len()]);
                        }
                    }
                }
            }
            which += 1;
        }
    }

    /// Adds `proof` as a fact when what it proves is a constraint.
    pub fn add_fact(&self, problem: &mut Problem, proof: Proof, claim: Term) -> (result: Option<usize>)
        requires
            old(problem).sound(self.ctx.seq(), self.prelude),
            follows(claim@, self.ctx.seq(), self.prelude),
        ensures
            final(problem).sound(self.ctx.seq(), self.prelude),
            extends(old(problem).atoms@, final(problem).atoms@),
            final(problem).divisions == old(problem).divisions,
            facts_extend(old(problem).facts@, final(problem).facts@),
            result is Some <==> (old(problem).facts@.len() < usize::MAX - 1 && constraint_kind(
                claim@,
                falsehood_of(self.prelude),
            ) is Some),
            match result {
                Some(index) => {
                    &&& index == old(problem).facts@.len()
                    &&& final(problem).facts@.len() == index + 1
                    &&& final(problem).facts@.take(index as int) == old(problem).facts@
                    &&& final(problem).facts@[index as int].claim == claim
                    &&& final(problem).facts@[index as int].proof == proof
                    &&& constraint_kind(claim@, falsehood_of(self.prelude)) == Some(
                        final(problem).facts@[index as int].kind,
                    )
                },
                None => final(problem).facts@ == old(problem).facts@,
            },
    {
        if problem.facts.len() >= usize::MAX - 1 {
            assert(problem.facts@.take(problem.facts@.len() as int) =~= problem.facts@);
            return None;
        }
        let ghost before = problem.atoms@;
        let ghost falsehood = falsehood_of(self.prelude);
        match read_constraint(&mut problem.atoms, self.prelude, &claim) {
            Some((form, kind)) => {
                let ghost after = problem.atoms@;
                proof {
                    assert forall|i: int| 0 <= i < problem.facts@.len() implies #[trigger] fact_read(
                        problem.facts@[i],
                        after,
                        falsehood,
                    ) by {
                        assert(fact_read(problem.facts@[i], before, falsehood));
                        lemma_fact_read_extends(problem.facts@[i], before, after, falsehood);
                    }
                }
                let fact = Fact { proof, claim, form, kind };
                assert(fact_read(fact, after, falsehood));
                let ghost old_facts = problem.facts@;
                problem.facts.push(fact);
                assert(problem.facts@.take(old_facts.len() as int) == old_facts);
                proof {
                    assert forall|i: int| 0 <= i < problem.divisions@.len() implies #[trigger] among_facts(
                        problem.facts@,
                        decomposition(problem.divisions@[i].0@, problem.divisions@[i].1@),
                    ) by {
                        let claim = decomposition(problem.divisions@[i].0@, problem.divisions@[i].1@);
                        assert(among_facts(old_facts, claim));
                        let j = choose|j: int| 0 <= j < old_facts.len() && #[trigger] old_facts[j].claim@ == claim;
                        assert(problem.facts@[j] == old_facts[j]);
                    }
                }
                Some(problem.facts.len() - 1)
            },
            None => {
                assert(problem.facts@.take(problem.facts@.len() as int) =~= problem.facts@);
                None
            },
        }
    }

    /// Adds what an axiom states.
    fn add_statement(&self, problem: &mut Problem, instance: Axiom)
        requires
            valid_instance(instance),
            old(problem).sound(self.ctx.seq(), self.prelude),
        ensures
            final(problem).sound(self.ctx.seq(), self.prelude),
            extends(old(problem).atoms@, final(problem).atoms@),
            final(problem).divisions == old(problem).divisions,
            facts_extend(old(problem).facts@, final(problem).facts@),
            if axiom_statement(instance) is Some && old(problem).facts@.len() < usize::MAX - 1 && constraint_kind(
                axiom_statement(instance)->0,
                falsehood_of(self.prelude),
            ) is Some {
                &&& final(problem).facts@.len() == old(problem).facts@.len() + 1
                &&& final(problem).facts@.take(old(problem).facts@.len() as int) == old(problem).facts@
                &&& Some(final(problem).facts@.last().claim@) == axiom_statement(instance)
                &&& final(problem).facts@.last().proof == Proof::Axiom(instance)
            } else {
                final(problem).facts@ == old(problem).facts@
            },
    {
        proof {
            lemma_axiom_follows(instance, self.ctx.seq(), self.prelude);
        }
        if let Some(claim) = instance.statement() {
            self.add_fact(problem, Proof::Axiom(instance), claim);
        }
    }

    /// Adds the conclusion of an axiom that is an implication, given a
    /// proof of its premise.
    fn add_conclusion(&self, problem: &mut Problem, instance: Axiom, premise: Proof, Ghost(condition): Ghost<TermView>)
        requires
            valid_instance(instance),
            axiom_statement(instance) matches Some(TermView::Implies(p, _)) && *p == condition,
            follows(condition, self.ctx.seq(), self.prelude),
            old(problem).sound(self.ctx.seq(), self.prelude),
        ensures
            final(problem).sound(self.ctx.seq(), self.prelude),
            extends(old(problem).atoms@, final(problem).atoms@),
            final(problem).divisions == old(problem).divisions,
            facts_extend(old(problem).facts@, final(problem).facts@),
            if old(problem).facts@.len() < usize::MAX - 1 && constraint_kind(
                *axiom_statement(instance)->0->Implies_1,
                falsehood_of(self.prelude),
            ) is Some {
                &&& final(problem).facts@.len() == old(problem).facts@.len() + 1
                &&& final(problem).facts@.take(old(problem).facts@.len() as int) == old(problem).facts@
                &&& final(problem).facts@.last().claim@ == *axiom_statement(instance)->0->Implies_1
                &&& final(problem).facts@.last().proof == Proof::ImpliesElim(
                    Box::new(Proof::Axiom(instance)),
                    Box::new(premise),
                )
            } else {
                final(problem).facts@ == old(problem).facts@
            },
    {
        proof {
            lemma_axiom_follows(instance, self.ctx.seq(), self.prelude);
        }
        if let Some(statement) = instance.statement() {
            if let Some(conclusion) = statement.conclusion() {
                let claim = conclusion.copy();
                assert forall|leaf: spec_fn(TermView) -> int| #[trigger] assumed(self.ctx.seq(), self.prelude, leaf) implies holds(
                    claim@,
                    self.prelude,
                    leaf,
                ) by {
                    assert(holds(statement@, self.prelude, leaf));
                    assert(holds(condition, self.prelude, leaf));
                }
                let proof = Proof::ImpliesElim(Box::new(Proof::Axiom(instance)), Box::new(premise));
                self.add_fact(problem, proof, claim);
            }
        }
    }

    /// The facts about one atom: the range of a view, and the division
    /// facts of a quotient or remainder by a literal.
    pub fn add_facts_about(&mut self, problem: &mut Problem, atom: &Term)
        requires
            old(self).within_budget(),
            old(problem).sound(old(self).ctx.seq(), old(self).prelude),
        ensures
            evolved(*old(self), *final(self)),
            final(problem).sound(old(self).ctx.seq(), old(self).prelude),
            extends(old(problem).atoms@, final(problem).atoms@),
            facts_extend(old(problem).facts@, final(problem).facts@),
            ({
                let lower = axiom_statement(Axiom::ViewLower(atom->Prim_0->View_0, atom->Prim_1@[0]))->0;
                (atom is Prim && atom->Prim_0 is View && atom->Prim_1@.len() == 1 && old(problem).facts@.len()
                    < usize::MAX - 1 && constraint_kind(lower, falsehood_of(old(self).prelude)) is Some) ==> final(problem).facts@[old(problem).facts@.len() as int].claim@ == lower
            }),
        decreases old(self).budget.branches - old(self).spent.branches, old(self).budget.depth - old(self).depth, 4int,
    {
        let ghost first_facts = problem.facts@;
        assert(first_facts.take(first_facts.len() as int) =~= first_facts);
        if let Term::Prim(prim, arguments) = atom {
            match prim {
                Prim::View(ty) => {
                    if arguments.len() == 1 {
                        self.add_statement(problem, Axiom::ViewLower(*ty, arguments[0].copy()));
                        let ghost so_far = problem.facts@;
                        self.add_statement(problem, Axiom::ViewUpper(*ty, arguments[0].copy()));
                        proof {
                            lemma_facts_extend(first_facts, so_far, problem.facts@);
                            if so_far.len() > first_facts.len() {
                                assert(problem.facts@[first_facts.len() as int] == problem.facts@.take(
                                    so_far.len() as int,
                                )[first_facts.len() as int]);
                            }
                        }
                    }
                },
                Prim::IntDiv | Prim::IntRem => {
                    if arguments.len() == 2 {
                        if let Term::Int(divisor) = &arguments[1] {
                            if !divisor.is_zero() {
                                self.add_division(problem, &arguments[0], divisor);
                            }
                        }
                    }
                },
                _ => {},
            }
        }
    }

    /// The facts of `a / k` and `a % k` for a literal `k != 0`, once per
    /// pair: the decomposition `a == (a / k) * k + a % k`, the bound on the
    /// remainder whose condition on the sign of `k` is evaluated, and the
    /// sign of the remainder when the sign of `a` can be proved by the
    /// procedure itself, with the budget shared; when it cannot, the other
    /// bound. Both `a / k` and `a % k` are atoms afterwards, so the facts are
    /// added at the first of the two seen.
    #[verifier::loop_isolation(false)]
    #[verifier::rlimit(40)]
    pub fn add_division(&mut self, problem: &mut Problem, dividend: &Term, divisor: &Integer)
        requires
            divisor@ != 0,
            old(self).within_budget(),
            old(problem).sound(old(self).ctx.seq(), old(self).prelude),
        ensures
            evolved(*old(self), *final(self)),
            final(problem).sound(old(self).ctx.seq(), old(self).prelude),
            extends(old(problem).atoms@, final(problem).atoms@),
            facts_extend(old(problem).facts@, final(problem).facts@),
            exists|i: int|
                0 <= i < final(problem).divisions@.len() && (#[trigger] final(problem).divisions@[i]).0@ == dividend@
                    && final(problem).divisions@[i].1@ == divisor@,
            (forall|i: int|
                0 <= i < old(problem).divisions@.len() ==> !((#[trigger] old(problem).divisions@[i]).0@ == dividend@
                    && old(problem).divisions@[i].1@ == divisor@)) ==> final(problem).divisions@.len()
                == old(problem).divisions@.len() + 1,
            (forall|i: int|
                0 <= i < old(problem).divisions@.len() ==> !((#[trigger] old(problem).divisions@[i]).0@ == dividend@
                    && old(problem).divisions@[i].1@ == divisor@)) && old(problem).facts@.len() < usize::MAX - 1
                ==> among_facts(final(problem).facts@, decomposition(dividend@, divisor@)),
        decreases old(self).budget.branches - old(self).spent.branches, old(self).budget.depth - old(self).depth, 3int,
    {
        let mut index: usize = 0;
        while index < problem.divisions.len()
            invariant
                index <= problem.divisions@.len(),
                forall|i: int|
                    0 <= i < index ==> !((#[trigger] problem.divisions@[i]).0@ == dividend@
                        && problem.divisions@[i].1@ == divisor@),
            decreases problem.divisions.len() - index,
        {
            let known = &problem.divisions[index];
            if known.1.equals(divisor) && same(&known.0, dividend) {
                assert(problem.facts@.take(problem.facts@.len() as int) =~= problem.facts@);
                return;
            }
            index += 1;
        }
        let ghost first_facts = problem.facts@;
        assert(first_facts.take(first_facts.len() as int) =~= first_facts);
        let k = Term::Int(divisor.copy());
        let ghost so_far = problem.facts@;

        self.add_statement(problem, Axiom::IntDivRem(dividend.copy(), k.copy()));
        let ghost with_statement = problem.facts@;
        let ghost known_divisions = problem.divisions@;
        proof {
            assert(with_statement.take(with_statement.len() as int) =~= with_statement);
            lemma_facts_extend(first_facts, so_far, problem.facts@);
            if so_far.len() < usize::MAX - 1 {
                assert(with_statement[so_far.len() as int].claim@ == decomposition(dividend@, divisor@));
                assert(among_facts(with_statement, decomposition(dividend@, divisor@)));
            }
        }
        problem.divisions.push((dividend.copy(), divisor.copy()));
        let ghost divisions = problem.divisions@;
        assert(divisions[divisions.len() - 1].0@ == dividend@);
        proof {
            if with_statement.len() < usize::MAX - 1 {
                assert(so_far.len() < usize::MAX - 1);
                assert forall|i: int| 0 <= i < divisions.len() implies #[trigger] among_facts(
                    problem.facts@,
                    decomposition(divisions[i].0@, divisions[i].1@),
                ) by {
                    if i < known_divisions.len() {
                        assert(divisions[i] == known_divisions[i]);
                    }
                }
            }
            assert(decomposed(*problem));
        }
        let negative = divisor.is_negative();
        let zero = Term::literal(0);
        let (upper, lower, condition) = if negative {
            (
                Axiom::IntRemUpperNeg(dividend.copy(), k.copy()),
                Axiom::IntRemLowerNeg(dividend.copy(), k.copy()),
                Term::int_lt(k.copy(), zero.copy()),
            )
        } else {
            (
                Axiom::IntRemUpperPos(dividend.copy(), k.copy()),
                Axiom::IntRemLowerPos(dividend.copy(), k.copy()),
                Term::int_lt(zero.copy(), k.copy()),
            )
        };
        // The condition on the sign of `k` is decided by evaluation.
        assert forall|leaf: spec_fn(TermView) -> int| #[trigger] assumed(self.ctx.seq(), self.prelude, leaf) implies holds(
            condition@,
            self.prelude,
            leaf,
        ) by {
            if negative {
                lemma_literal_lt(divisor@, 0, self.prelude, leaf);
            } else {
                lemma_literal_lt(0, divisor@, self.prelude, leaf);
            }
        }
        let ghost so_far = problem.facts@;

        self.add_conclusion(problem, upper, Proof::Evaluate(condition.copy()), Ghost(condition@));

        proof {

            lemma_facts_extend(first_facts, so_far, problem.facts@);
            lemma_facts_extend(with_statement, so_far, problem.facts@);
            if among_facts(with_statement, decomposition(dividend@, divisor@)) {
                lemma_among_facts_extend(with_statement, problem.facts@, decomposition(dividend@, divisor@));
            }

        }
        // The sign of the remainder follows the sign of the dividend.
        let nonnegative = Term::int_le(zero.copy(), dividend.copy());
        if let Some(proof) = self.discharge(problem, &nonnegative) {
            let ghost so_far = problem.facts@;

            self.add_conclusion(problem, Axiom::IntRemNonneg(dividend.copy(), k.copy()), proof, Ghost(nonnegative@));

            proof {

                lemma_facts_extend(first_facts, so_far, problem.facts@);
            lemma_facts_extend(with_statement, so_far, problem.facts@);
            if among_facts(with_statement, decomposition(dividend@, divisor@)) {
                lemma_among_facts_extend(with_statement, problem.facts@, decomposition(dividend@, divisor@));
            }

            }
            return;
        }
        let ghost so_far = problem.facts@;

        self.add_conclusion(problem, lower, Proof::Evaluate(condition), Ghost(condition@));

        proof {

            lemma_facts_extend(first_facts, so_far, problem.facts@);
            lemma_facts_extend(with_statement, so_far, problem.facts@);
            if among_facts(with_statement, decomposition(dividend@, divisor@)) {
                lemma_among_facts_extend(with_statement, problem.facts@, decomposition(dividend@, divisor@));
            }

        }
        let nonpositive = Term::int_le(dividend.copy(), zero);
        if let Some(proof) = self.discharge(problem, &nonpositive) {
            let ghost so_far = problem.facts@;

            self.add_conclusion(problem, Axiom::IntRemNonpos(dividend.copy(), k), proof, Ghost(nonpositive@));

            proof {

                lemma_facts_extend(first_facts, so_far, problem.facts@);
            lemma_facts_extend(with_statement, so_far, problem.facts@);
            if among_facts(with_statement, decomposition(dividend@, divisor@)) {
                lemma_among_facts_extend(with_statement, problem.facts@, decomposition(dividend@, divisor@));
            }

            }
        }
    }

    /// A proof of `condition`: a collected fact that states it exactly, or
    /// else a nested run of the procedure, one level deeper and on the same
    /// counts.
    #[verifier::loop_isolation(false)]
    pub fn discharge(&mut self, problem: &Problem, condition: &Term) -> (result: Option<Proof>)
        requires
            old(self).within_budget(),
            problem.sound(old(self).ctx.seq(), old(self).prelude),
        ensures
            evolved(*old(self), *final(self)),
            result is Some ==> follows(condition@, old(self).ctx.seq(), old(self).prelude),
            (exists|i: int| 0 <= i < problem.facts@.len() && (#[trigger] problem.facts@[i]).claim@ == condition@)
                ==> result is Some && exists|i: int|
                0 <= i < problem.facts@.len() && (#[trigger] problem.facts@[i]).claim@ == condition@ && same_proof(
                    problem.facts@[i].proof,
                    result->0,
                ),
        decreases old(self).budget.branches - old(self).spent.branches, old(self).budget.depth - old(self).depth, 2int,
    {
        let mut index: usize = 0;
        while index < problem.facts.len()
            invariant
                index <= problem.facts@.len(),
                forall|i: int| 0 <= i < index ==> (#[trigger] problem.facts@[i]).claim@ != condition@,
            decreases problem.facts.len() - index,
        {
            if same(&problem.facts[index].claim, condition) {
                assert(follows(problem.facts@[index as int].claim@, self.ctx.seq(), self.prelude));
                return Some(problem.facts[index].proof.copy());
            }
            index += 1;
        }
        if self.depth >= self.budget.depth {
            return None;
        }
        self.depth = self.depth + 1;
        let found = self.prove_goal(condition);
        self.depth = self.depth - 1;
        match found {
            Ok(proof) => Some(proof),
            Err(_) => None,
        }
    }
}

} // verus!
