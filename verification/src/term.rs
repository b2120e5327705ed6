//! The fragment of logical terms that the arithmetic procedure reads and
//! writes: integer literals, variables, the integer primitives, integer
//! equations, implications, applied propositions, and the applications and
//! projections that stand as atoms. Each term has a mathematical view, in
//! which literals are integers.

use crate::integer::{signed_decimal, Integer};
use crate::text::{decimal, decimal_text};
use vstd::prelude::*;

verus! {

/// The machine integer types, whose values the primitive `view` reads as
/// integers.
#[derive(Clone, Copy, Debug, PartialEq, Eq, Structural)]
pub enum MachineInt {
    U8,
    U16,
    U32,
    U64,
    U128,
    Usize,
    I8,
    I16,
    I32,
    I64,
    I128,
    Isize,
}

/// The primitives on integers.
#[derive(Clone, Copy, Debug, PartialEq, Eq, Structural)]
pub enum Prim {
    IntAdd,
    IntSub,
    IntNeg,
    IntMul,
    IntLe,
    IntDiv,
    IntRem,
    /// The integer a value of a machine type stands for.
    View(MachineInt),
}

/// A term.
pub enum Term {
    /// An integer literal.
    Int(Integer),
    /// A variable, by its identifier.
    Var(u64),
    /// A primitive applied to its arguments.
    Prim(Prim, Vec<Term>),
    /// `left ==[Int] right`.
    EqInt(Box<Term>, Box<Term>),
    /// `premise => conclusion`.
    Implies(Box<Term>, Box<Term>),
    /// A declared proposition, by its identifier, applied to its arguments.
    PropApp(u64, Vec<Term>),
    /// A declared function, by its identifier, applied to its arguments.
    Apply(u64, Vec<Term>),
    /// The field of a tuple at an index.
    Proj(Box<Term>, usize),
}

/// The mathematical view of a term: literals are integers.
pub enum TermView {
    Int(int),
    Var(nat),
    Prim(Prim, Seq<TermView>),
    EqInt(Box<TermView>, Box<TermView>),
    Implies(Box<TermView>, Box<TermView>),
    PropApp(nat, Seq<TermView>),
    Apply(nat, Seq<TermView>),
    Proj(Box<TermView>, nat),
}

/// The view of a term.
pub open spec fn term_view(term: Term) -> TermView
    decreases term,
{
    match term {
        Term::Int(value) => TermView::Int(value@),
        Term::Var(id) => TermView::Var(id as nat),
        Term::Prim(prim, arguments) => TermView::Prim(prim, terms_view(arguments@)),
        Term::EqInt(left, right) => TermView::EqInt(
            Box::new(term_view(*left)),
            Box::new(term_view(*right)),
        ),
        Term::Implies(premise, conclusion) => TermView::Implies(
            Box::new(term_view(*premise)),
            Box::new(term_view(*conclusion)),
        ),
        Term::PropApp(id, arguments) => TermView::PropApp(id as nat, terms_view(arguments@)),
        Term::Apply(id, arguments) => TermView::Apply(id as nat, terms_view(arguments@)),
        Term::Proj(value, index) => TermView::Proj(Box::new(term_view(*value)), index as nat),
    }
}

/// The views of a sequence of terms, one for one.
pub open spec fn terms_view(terms: Seq<Term>) -> Seq<TermView>
    decreases terms,
{
    if terms.len() == 0 {
        Seq::empty()
    } else {
        terms_view(terms.subrange(0, terms.len() - 1)).push(term_view(terms[terms.len() - 1]))
    }
}

impl View for Term {
    type V = TermView;

    open spec fn view(&self) -> TermView {
        term_view(*self)
    }
}

/// The views of a sequence of terms have its length and its elements' views.
pub proof fn lemma_terms_view(terms: Seq<Term>)
    ensures
        terms_view(terms).len() == terms.len(),
        forall|i: int| 0 <= i < terms.len() ==> #[trigger] terms_view(terms)[i] == terms[i]@,
    decreases terms.len(),
{
    if terms.len() > 0 {
        lemma_terms_view(terms.subrange(0, terms.len() - 1));
        assert forall|i: int| 0 <= i < terms.len() implies #[trigger] terms_view(terms)[i]
            == terms[i]@ by {
            if i < terms.len() - 1 {
                assert(terms.subrange(0, terms.len() - 1)[i] == terms[i]);
            }
        }
    }
}

/// `int_le(left, right)`, viewed.
pub open spec fn le_view(left: TermView, right: TermView) -> TermView {
    TermView::Prim(Prim::IntLe, seq![left, right])
}

/// `left + 1`, viewed.
pub open spec fn successor_view(value: TermView) -> TermView {
    TermView::Prim(Prim::IntAdd, seq![value, TermView::Int(1)])
}

/// `int_lt(left, right)`, viewed: `left + 1 <= right`.
pub open spec fn lt_view(left: TermView, right: TermView) -> TermView {
    le_view(successor_view(left), right)
}

/// The declarations of the prelude that the procedure names: the
/// conjunction `And` and the proposition `False`.
#[derive(Clone, Copy, Debug, PartialEq, Eq, Structural)]
pub struct Prelude {
    pub and: u64,
    pub falsehood: u64,
}

/// The prelude's `False`, viewed.
pub open spec fn falsehood_view(prelude: Prelude) -> TermView {
    TermView::PropApp(prelude.falsehood as nat, Seq::empty())
}

impl Prelude {
    /// The prelude's `False`.
    pub fn falsehood_prop(&self) -> (result: Term)
        ensures
            result@ == falsehood_view(*self),
    {
        let result = Term::PropApp(self.falsehood, Vec::new());
        assert(terms_view(Seq::<Term>::empty()) =~= Seq::<TermView>::empty());
        result
    }
}

impl Term {
    /// The literal `value`.
    pub fn literal(value: i64) -> (result: Term)
        ensures
            result@ == TermView::Int(value as int),
    {
        Term::Int(Integer::from_i64(value))
    }

    /// `int_le(left, right)`.
    pub fn int_le(left: Term, right: Term) -> (result: Term)
        ensures
            result@ == le_view(left@, right@),
    {
        let mut arguments = Vec::new();
        arguments.push(left);
        arguments.push(right);
        let result = Term::Prim(Prim::IntLe, arguments);
        proof {
            lemma_terms_view(arguments@);
            assert(terms_view(arguments@) =~= seq![left@, right@]);
        }
        result
    }

    /// `int_lt(left, right)`: `left + 1 <= right`, over the integers.
    pub fn int_lt(left: Term, right: Term) -> (result: Term)
        ensures
            result@ == lt_view(left@, right@),
    {
        let mut arguments = Vec::new();
        arguments.push(left);
        arguments.push(Term::literal(1));
        proof {
            lemma_terms_view(arguments@);
            assert(terms_view(arguments@) =~= seq![left@, TermView::Int(1)]);
        }
        Term::int_le(Term::Prim(Prim::IntAdd, arguments), right)
    }

    /// A deep copy of the term.
    pub fn copy(&self) -> (result: Term)
        ensures
            result@ == self@,
        decreases self,
    {
        match self {
            Term::Int(value) => Term::Int(value.copy()),
            Term::Var(id) => Term::Var(*id),
            Term::Prim(prim, arguments) => Term::Prim(*prim, copy_terms(arguments)),
            Term::EqInt(left, right) => Term::EqInt(Box::new(left.copy()), Box::new(right.copy())),
            Term::Implies(premise, conclusion) => Term::Implies(
                Box::new(premise.copy()),
                Box::new(conclusion.copy()),
            ),
            Term::PropApp(id, arguments) => Term::PropApp(*id, copy_terms(arguments)),
            Term::Apply(id, arguments) => Term::Apply(*id, copy_terms(arguments)),
            Term::Proj(value, index) => Term::Proj(Box::new(value.copy()), *index),
        }
    }
}

/// A deep copy of each term.
pub fn copy_terms(terms: &Vec<Term>) -> (result: Vec<Term>)
    ensures
        terms_view(result@) == terms_view(terms@),
        result@.len() == terms@.len(),
    decreases terms,
{
    let mut result: Vec<Term> = Vec::new();
    let mut index: usize = 0;
    while index < terms.len()
        invariant
            index <= terms.len(),
            result@.len() == index,
            forall|i: int| 0 <= i < index ==> #[trigger] result@[i]@ == terms@[i]@,
        decreases terms.len() - index,
    {
        result.push(terms[index].copy());
        index += 1;
    }
    proof {
        lemma_terms_view(result@);
        lemma_terms_view(terms@);
        assert(terms_view(result@) =~= terms_view(terms@));
    }
    result
}

/// Whether two terms are the same term: equal views.
pub fn same(left: &Term, right: &Term) -> (result: bool)
    ensures
        result == (left@ == right@),
    decreases left,
{
    match (left, right) {
        (Term::Int(a), Term::Int(b)) => a.equals(b),
        (Term::Var(a), Term::Var(b)) => *a == *b,
        (Term::Prim(p, a), Term::Prim(q, b)) => *p == *q && same_terms(a, b),
        (Term::EqInt(a, b), Term::EqInt(c, d)) => same(a, c) && same(b, d),
        (Term::Implies(a, b), Term::Implies(c, d)) => same(a, c) && same(b, d),
        (Term::PropApp(p, a), Term::PropApp(q, b)) => *p == *q && same_terms(a, b),
        (Term::Apply(p, a), Term::Apply(q, b)) => *p == *q && same_terms(a, b),
        (Term::Proj(a, i), Term::Proj(b, j)) => *i == *j && same(a, b),
        _ => false,
    }
}

/// Whether two sequences of terms are the same, term by term.
pub fn same_terms(left: &Vec<Term>, right: &Vec<Term>) -> (result: bool)
    ensures
        result == (terms_view(left@) == terms_view(right@)),
    decreases left,
{
    proof {
        lemma_terms_view(left@);
        lemma_terms_view(right@);
    }
    if left.len() != right.len() {
        return false;
    }
    let mut index: usize = 0;
    while index < left.len()
        invariant
            index <= left.len(),
            left@.len() == right@.len(),
            terms_view(left@).len() == left@.len(),
            terms_view(right@).len() == right@.len(),
            forall|i: int| 0 <= i < left@.len() ==> #[trigger] terms_view(left@)[i] == left@[i]@,
            forall|i: int| 0 <= i < right@.len() ==> #[trigger] terms_view(right@)[i] == right@[i]@,
            forall|i: int| 0 <= i < index ==> #[trigger] left@[i]@ == right@[i]@,
        decreases left.len() - index,
    {
        if !same(&left[index], &right[index]) {
            assert(terms_view(left@)[index as int] != terms_view(right@)[index as int]);
            return false;
        }
        index += 1;
    }
    assert(terms_view(left@) =~= terms_view(right@));
    true
}

/// A primitive applied to two arguments.
pub fn binary(prim: Prim, left: Term, right: Term) -> (result: Term)
    ensures
        result@ == TermView::Prim(prim, seq![left@, right@]),
{
    let mut arguments = Vec::new();
    arguments.push(left);
    arguments.push(right);
    proof {
        lemma_terms_view(arguments@);
        assert(terms_view(arguments@) =~= seq![left@, right@]);
    }
    Term::Prim(prim, arguments)
}

/// A primitive applied to one argument.
pub fn unary(prim: Prim, argument: Term) -> (result: Term)
    ensures
        result@ == TermView::Prim(prim, seq![argument@]),
{
    let mut arguments = Vec::new();
    arguments.push(argument);
    proof {
        lemma_terms_view(arguments@);
        assert(terms_view(arguments@) =~= seq![argument@]);
    }
    Term::Prim(prim, arguments)
}

/// The types of the variables in a context, as far as the procedure looks
/// into them: a proof carries its claim, and a tuple carries its fields.
pub enum Type {
    Int,
    Bool,
    Proof(Box<Term>),
    Tuple(Vec<Type>),
    /// A declared type, by its identifier.
    Named(u64),
}

/// What a context binds: a hypothesis with its claim, or a variable with
/// its type.
pub enum Binding {
    Hyp { id: u64, prop: Term },
    Var { id: u64, ty: Type },
}

/// The facts and variables in scope, in order, and the next identifier
/// that is free for a new hypothesis or variable.
pub struct Context {
    bindings: Vec<Binding>,
    next: u64,
}

impl Context {
    /// The bindings, in order.
    pub closed spec fn seq(&self) -> Seq<Binding> {
        self.bindings@
    }

    /// An empty context.
    pub fn new() -> (result: Context)
        ensures
            result.seq().len() == 0,
    {
        Context { bindings: Vec::new(), next: 0 }
    }

    /// A context with these bindings and this one's next identifier.
    pub fn with_bindings(&self, bindings: Vec<Binding>) -> (result: Context)
        ensures
            result.seq() == bindings@,
    {
        Context { bindings, next: self.next }
    }

    /// The number of bindings.
    pub open spec fn len(&self) -> nat {
        self.seq().len()
    }

    /// The bindings, in order.
    pub fn bindings(&self) -> (result: &Vec<Binding>)
        ensures
            result@ == self.seq(),
    {
        &self.bindings
    }

    /// The identifier `fresh` gives next: one past the greatest bound so
    /// far, or past the last one given.
    pub closed spec fn counter(&self) -> u64 {
        self.next
    }

    /// An identifier that no binding made by `fresh` has yet.
    pub fn fresh(&mut self) -> (result: u64)
        ensures
            final(self).seq() == old(self).seq(),
            result == old(self).counter(),
            final(self).counter() == if old(self).counter() < u64::MAX {
                old(self).counter() + 1
            } else {
                old(self).counter() as int
            },
    {
        let result = self.next;
        if self.next < u64::MAX {
            self.next = self.next + 1;
        }
        result
    }

    /// Binds a hypothesis.
    pub fn suppose(&mut self, id: u64, prop: Term)
        ensures
            final(self).seq() == old(self).seq().push(Binding::Hyp { id, prop }),
    {
        if id >= self.next && id < u64::MAX {
            self.next = id + 1;
        }
        self.bindings.push(Binding::Hyp { id, prop });
    }

    /// Binds a variable of a type.
    pub fn declare(&mut self, id: u64, ty: Type)
        ensures
            final(self).seq() == old(self).seq().push(Binding::Var { id, ty }),
    {
        if id >= self.next && id < u64::MAX {
            self.next = id + 1;
        }
        self.bindings.push(Binding::Var { id, ty });
    }

    /// The point to roll back to.
    pub fn checkpoint(&self) -> (result: usize)
        ensures
            result == self.len(),
    {
        self.bindings.len()
    }

    /// Forgets every binding made since `checkpoint`.
    pub fn rollback(&mut self, checkpoint: usize)
        ensures
            final(self).seq() == if checkpoint < old(self).len() {
                old(self).seq().subrange(0, checkpoint as int)
            } else {
                old(self).seq()
            },
    {
        if checkpoint < self.bindings.len() {
            self.bindings.truncate(checkpoint);
        }
    }
}

/// The axioms the procedure instantiates.
pub enum Axiom {
    /// `s <= t => t <= s => s ==[Int] t`.
    IntLeAntisymm(Term, Term),
    /// `s <= t`, or `t < s`: a case on it has two arms.
    IntLeTotal(Term, Term),
    /// The least value of a machine type is at most the view of a value.
    ViewLower(MachineInt, Term),
    /// The view of a value is at most the greatest value of its type.
    ViewUpper(MachineInt, Term),
    /// `a ==[Int] (a / k) * k + a % k`.
    IntDivRem(Term, Term),
    /// `0 < k => a % k < k`.
    IntRemUpperPos(Term, Term),
    /// `0 < k => -k < a % k`.
    IntRemLowerPos(Term, Term),
    /// `k < 0 => a % k < -k`.
    IntRemUpperNeg(Term, Term),
    /// `k < 0 => k < a % k`.
    IntRemLowerNeg(Term, Term),
    /// `0 <= a => 0 <= a % k`.
    IntRemNonneg(Term, Term),
    /// `a <= 0 => a % k <= 0`.
    IntRemNonpos(Term, Term),
}

/// An arm of a case on a proof: the variables that bind its payload, and
/// its body.
pub struct Arm {
    pub binders: Vec<u64>,
    pub body: Proof,
}

/// A proof, in the shapes the procedure builds.
pub enum Proof {
    Hyp(u64),
    /// A term of proof type, used as the proof of its claim.
    OfTerm(Term),
    Axiom(Axiom),
    /// A closed comparison, proved by evaluating it.
    Evaluate(Term),
    /// `premise => body's claim`, with the premise bound as `hypothesis`.
    ImpliesIntro { premise: Term, hypothesis: u64, body: Box<Proof> },
    ImpliesElim(Box<Proof>, Box<Proof>),
    /// The rule `linear`: the pairs' claims times their multipliers, and
    /// the negated goal times its coefficient, add up to a negative
    /// constant.
    Linear { goal: Term, goal_coefficient: Integer, pairs: Vec<(Proof, Integer)> },
    /// A case on the scrutinee's proposition, proving `goal` in every arm.
    CaseProof { scrutinee: Box<Proof>, goal: Term, arms: Vec<Arm> },
    /// A proof left out, where the search failed.
    Omitted,
}

/// An axiom's rule, the machine type it speaks of, and its terms viewed.
pub open spec fn rule_view(rule: Axiom) -> (int, Option<MachineInt>, Seq<TermView>) {
    match rule {
        Axiom::IntLeAntisymm(a, b) => (0, None, seq![a@, b@]),
        Axiom::IntLeTotal(a, b) => (1, None, seq![a@, b@]),
        Axiom::ViewLower(ty, a) => (2, Some(ty), seq![a@]),
        Axiom::ViewUpper(ty, a) => (3, Some(ty), seq![a@]),
        Axiom::IntDivRem(a, b) => (4, None, seq![a@, b@]),
        Axiom::IntRemUpperPos(a, b) => (5, None, seq![a@, b@]),
        Axiom::IntRemLowerPos(a, b) => (6, None, seq![a@, b@]),
        Axiom::IntRemUpperNeg(a, b) => (7, None, seq![a@, b@]),
        Axiom::IntRemLowerNeg(a, b) => (8, None, seq![a@, b@]),
        Axiom::IntRemNonneg(a, b) => (9, None, seq![a@, b@]),
        Axiom::IntRemNonpos(a, b) => (10, None, seq![a@, b@]),
    }
}

/// Whether two proofs are the same: the same rules, with terms of the same
/// views and numbers of the same values, all the way down.
pub open spec fn same_proof(a: Proof, b: Proof) -> bool
    decreases a,
{
    match a {
        Proof::Hyp(id) => b == Proof::Hyp(id),
        Proof::OfTerm(term) => b is OfTerm && b->OfTerm_0@ == term@,
        Proof::Axiom(instance) => b is Axiom && rule_view(b->Axiom_0) == rule_view(instance),
        Proof::Evaluate(term) => b is Evaluate && b->Evaluate_0@ == term@,
        Proof::ImpliesIntro { premise, hypothesis, body } => {
            &&& b is ImpliesIntro
            &&& b->ImpliesIntro_premise@ == premise@
            &&& b->ImpliesIntro_hypothesis == hypothesis
            &&& same_proof(*body, *b->ImpliesIntro_body)
        },
        Proof::ImpliesElim(function, argument) => {
            &&& b is ImpliesElim
            &&& same_proof(*function, *b->ImpliesElim_0)
            &&& same_proof(*argument, *b->ImpliesElim_1)
        },
        Proof::Linear { goal, goal_coefficient, pairs } => {
            &&& b is Linear
            &&& b->Linear_goal@ == goal@
            &&& b->Linear_goal_coefficient@ == goal_coefficient@
            &&& b->Linear_pairs@.len() == pairs@.len()
            &&& forall|i: int|
                #![trigger pairs@[i]]
                0 <= i < pairs@.len() ==> same_proof(pairs@[i].0, b->Linear_pairs@[i].0)
                    && b->Linear_pairs@[i].1@ == pairs@[i].1@
        },
        Proof::CaseProof { scrutinee, goal, arms } => {
            &&& b is CaseProof
            &&& same_proof(*scrutinee, *b->CaseProof_scrutinee)
            &&& b->CaseProof_goal@ == goal@
            &&& b->CaseProof_arms@.len() == arms@.len()
            &&& forall|i: int|
                #![trigger arms@[i]]
                0 <= i < arms@.len() ==> same_proof(arms@[i].body, b->CaseProof_arms@[i].body)
                    && b->CaseProof_arms@[i].binders@ == arms@[i].binders@
        },
        Proof::Omitted => b is Omitted,
    }
}

impl Proof {
    /// A deep copy of the proof.
    pub(crate) fn copy(&self) -> (result: Proof)
        ensures
            same_proof(*self, result),
        decreases self,
    {
        match self {
            Proof::Hyp(id) => Proof::Hyp(*id),
            Proof::OfTerm(term) => Proof::OfTerm(term.copy()),
            Proof::Axiom(instance) => Proof::Axiom(instance.copy()),
            Proof::Evaluate(term) => Proof::Evaluate(term.copy()),
            Proof::ImpliesIntro { premise, hypothesis, body } => Proof::ImpliesIntro {
                premise: premise.copy(),
                hypothesis: *hypothesis,
                body: Box::new(body.copy()),
            },
            Proof::ImpliesElim(function, argument) => Proof::ImpliesElim(
                Box::new(function.copy()),
                Box::new(argument.copy()),
            ),
            Proof::Linear { goal, goal_coefficient, pairs } => Proof::Linear {
                goal: goal.copy(),
                goal_coefficient: goal_coefficient.copy(),
                pairs: copy_pairs(pairs),
            },
            Proof::CaseProof { scrutinee, goal, arms } => Proof::CaseProof {
                scrutinee: Box::new(scrutinee.copy()),
                goal: goal.copy(),
                arms: copy_arms(arms),
            },
            Proof::Omitted => Proof::Omitted,
        }
    }
}

/// A deep copy of each pair of a proof and a multiplier.
fn copy_pairs(pairs: &Vec<(Proof, Integer)>) -> (result: Vec<(Proof, Integer)>)
    ensures
        result@.len() == pairs@.len(),
        forall|i: int|
            #![trigger pairs@[i]]
            0 <= i < pairs@.len() ==> same_proof(pairs@[i].0, result@[i].0) && result@[i].1@ == pairs@[i].1@,
    decreases pairs,
{
    let mut copied: Vec<(Proof, Integer)> = Vec::new();
    let mut index: usize = 0;
    while index < pairs.len()
        invariant
            index <= pairs@.len(),
            copied@.len() == index,
            forall|i: int|
                #![trigger pairs@[i]]
                0 <= i < index ==> same_proof(pairs@[i].0, copied@[i].0) && copied@[i].1@ == pairs@[i].1@,
        decreases pairs.len() - index,
    {
        let pair = &pairs[index];
        copied.push((pair.0.copy(), pair.1.copy()));
        index += 1;
    }
    copied
}

/// A deep copy of each arm.
fn copy_arms(arms: &Vec<Arm>) -> (result: Vec<Arm>)
    ensures
        result@.len() == arms@.len(),
        forall|i: int|
            #![trigger arms@[i]]
            0 <= i < arms@.len() ==> same_proof(arms@[i].body, result@[i].body) && result@[i].binders@
                == arms@[i].binders@,
    decreases arms,
{
    let mut copied: Vec<Arm> = Vec::new();
    let mut index: usize = 0;
    while index < arms.len()
        invariant
            index <= arms@.len(),
            copied@.len() == index,
            forall|i: int|
                #![trigger arms@[i]]
                0 <= i < index ==> same_proof(arms@[i].body, copied@[i].body) && copied@[i].binders@
                    == arms@[i].binders@,
        decreases arms.len() - index,
    {
        let arm = &arms[index];
        let mut binders: Vec<u64> = Vec::new();
        let mut k: usize = 0;
        while k < arm.binders.len()
            invariant
                k <= arm.binders@.len(),
                binders@ == arm.binders@.take(k as int),
            decreases arm.binders.len() - k,
        {
            binders.push(arm.binders[k]);
            k += 1;
        }
        assert(binders@ == arm.binders@);
        copied.push(Arm { binders, body: arm.body.copy() });
        index += 1;
    }
    copied
}

impl Axiom {
    /// A deep copy of the axiom.
    pub(crate) fn copy(&self) -> (result: Axiom)
        ensures
            rule_view(result) == rule_view(*self),
    {
        match self {
            Axiom::IntLeAntisymm(a, b) => Axiom::IntLeAntisymm(a.copy(), b.copy()),
            Axiom::IntLeTotal(a, b) => Axiom::IntLeTotal(a.copy(), b.copy()),
            Axiom::ViewLower(ty, a) => Axiom::ViewLower(*ty, a.copy()),
            Axiom::ViewUpper(ty, a) => Axiom::ViewUpper(*ty, a.copy()),
            Axiom::IntDivRem(a, b) => Axiom::IntDivRem(a.copy(), b.copy()),
            Axiom::IntRemUpperPos(a, b) => Axiom::IntRemUpperPos(a.copy(), b.copy()),
            Axiom::IntRemLowerPos(a, b) => Axiom::IntRemLowerPos(a.copy(), b.copy()),
            Axiom::IntRemUpperNeg(a, b) => Axiom::IntRemUpperNeg(a.copy(), b.copy()),
            Axiom::IntRemLowerNeg(a, b) => Axiom::IntRemLowerNeg(a.copy(), b.copy()),
            Axiom::IntRemNonneg(a, b) => Axiom::IntRemNonneg(a.copy(), b.copy()),
            Axiom::IntRemNonpos(a, b) => Axiom::IntRemNonpos(a.copy(), b.copy()),
        }
    }
}


/// `premise => conclusion`, viewed.
pub open spec fn implies_view(premise: TermView, conclusion: TermView) -> TermView {
    TermView::Implies(Box::new(premise), Box::new(conclusion))
}

/// `left ==[Int] right`, viewed.
pub open spec fn eq_view(left: TermView, right: TermView) -> TermView {
    TermView::EqInt(Box::new(left), Box::new(right))
}

/// A primitive applied to two arguments, viewed.
pub open spec fn binary_view(prim: Prim, left: TermView, right: TermView) -> TermView {
    TermView::Prim(prim, seq![left, right])
}

/// The remainder `a % k`, viewed.
pub open spec fn rem_view(a: TermView, k: TermView) -> TermView {
    binary_view(Prim::IntRem, a, k)
}

/// `-k`, viewed.
pub open spec fn neg_view(k: TermView) -> TermView {
    TermView::Prim(Prim::IntNeg, seq![k])
}

/// The view of a value of a machine type, viewed.
pub open spec fn machine_view(ty: MachineInt, value: TermView) -> TermView {
    TermView::Prim(Prim::View(ty), seq![value])
}

/// The number of bits of a machine type; `usize` and `isize` have 64.
pub open spec fn bits_of(ty: MachineInt) -> nat {
    match ty {
        MachineInt::U8 | MachineInt::I8 => 8,
        MachineInt::U16 | MachineInt::I16 => 16,
        MachineInt::U32 | MachineInt::I32 => 32,
        MachineInt::U64 | MachineInt::I64 | MachineInt::Usize | MachineInt::Isize => 64,
        MachineInt::U128 | MachineInt::I128 => 128,
    }
}

/// Whether a machine type is signed.
pub open spec fn is_signed(ty: MachineInt) -> bool {
    match ty {
        MachineInt::I8 | MachineInt::I16 | MachineInt::I32 | MachineInt::I64 | MachineInt::I128
        | MachineInt::Isize => true,
        _ => false,
    }
}

/// `2^n`.
pub open spec fn two_to(n: nat) -> int
    decreases n,
{
    if n == 0 {
        1
    } else {
        2 * two_to((n - 1) as nat)
    }
}

/// The least value of a machine type.
pub open spec fn least(ty: MachineInt) -> int {
    if is_signed(ty) {
        -two_to((bits_of(ty) - 1) as nat)
    } else {
        0
    }
}

/// The greatest value of a machine type.
pub open spec fn greatest(ty: MachineInt) -> int {
    if is_signed(ty) {
        two_to((bits_of(ty) - 1) as nat) - 1
    } else {
        two_to(bits_of(ty)) - 1
    }
}

/// What an axiom states, for every axiom but `IntLeTotal`, which states a
/// disjunction and is only ever the scrutinee of a case.
pub open spec fn axiom_statement(instance: Axiom) -> Option<TermView> {
    match instance {
        Axiom::IntLeAntisymm(s, t) => Some(
            implies_view(le_view(s@, t@), implies_view(le_view(t@, s@), eq_view(s@, t@))),
        ),
        Axiom::IntLeTotal(_, _) => None,
        Axiom::ViewLower(ty, a) => Some(le_view(TermView::Int(least(ty)), machine_view(ty, a@))),
        Axiom::ViewUpper(ty, a) => Some(le_view(machine_view(ty, a@), TermView::Int(greatest(ty)))),
        Axiom::IntDivRem(a, k) => Some(
            eq_view(
                a@,
                binary_view(
                    Prim::IntAdd,
                    binary_view(Prim::IntMul, binary_view(Prim::IntDiv, a@, k@), k@),
                    rem_view(a@, k@),
                ),
            ),
        ),
        Axiom::IntRemUpperPos(a, k) => Some(
            implies_view(lt_view(TermView::Int(0), k@), lt_view(rem_view(a@, k@), k@)),
        ),
        Axiom::IntRemLowerPos(a, k) => Some(
            implies_view(lt_view(TermView::Int(0), k@), lt_view(neg_view(k@), rem_view(a@, k@))),
        ),
        Axiom::IntRemUpperNeg(a, k) => Some(
            implies_view(lt_view(k@, TermView::Int(0)), lt_view(rem_view(a@, k@), neg_view(k@))),
        ),
        Axiom::IntRemLowerNeg(a, k) => Some(
            implies_view(lt_view(k@, TermView::Int(0)), lt_view(k@, rem_view(a@, k@))),
        ),
        Axiom::IntRemNonneg(a, k) => Some(
            implies_view(le_view(TermView::Int(0), a@), le_view(TermView::Int(0), rem_view(a@, k@))),
        ),
        Axiom::IntRemNonpos(a, k) => Some(
            implies_view(le_view(a@, TermView::Int(0)), le_view(rem_view(a@, k@), TermView::Int(0))),
        ),
    }
}

impl Term {
    /// `premise => conclusion`.
    pub fn implies(premise: Term, conclusion: Term) -> (result: Term)
        ensures
            result@ == implies_view(premise@, conclusion@),
    {
        Term::Implies(Box::new(premise), Box::new(conclusion))
    }

    /// `left ==[Int] right`.
    pub fn eq_int(left: Term, right: Term) -> (result: Term)
        ensures
            result@ == eq_view(left@, right@),
    {
        Term::EqInt(Box::new(left), Box::new(right))
    }

    /// The conclusion of an implication.
    pub fn conclusion(&self) -> (result: Option<&Term>)
        ensures
            match result {
                Some(conclusion) => self@ matches TermView::Implies(_, c) && *c == conclusion@,
                None => !(self@ is Implies),
            },
    {
        match self {
            Term::Implies(_, conclusion) => Some(&**conclusion),
            _ => None,
        }
    }
}

impl MachineInt {
    /// The least and the greatest value of the type.
    pub fn bounds(&self) -> (result: (Integer, Integer))
        ensures
            result.0@ == least(*self),
            result.1@ == greatest(*self),
    {
        let bits: u64 = match self {
            MachineInt::U8 | MachineInt::I8 => 8,
            MachineInt::U16 | MachineInt::I16 => 16,
            MachineInt::U32 | MachineInt::I32 => 32,
            MachineInt::U64 | MachineInt::I64 | MachineInt::Usize | MachineInt::Isize => 64,
            MachineInt::U128 | MachineInt::I128 => 128,
        };
        let signed = match self {
            MachineInt::I8 | MachineInt::I16 | MachineInt::I32 | MachineInt::I64
            | MachineInt::I128 | MachineInt::Isize => true,
            _ => false,
        };
        let width = if signed { bits - 1 } else { bits };
        let mut power = Integer::one();
        let mut i: u64 = 0;
        while i < width
            invariant
                i <= width,
                power@ == two_to(i as nat),
            decreases width - i,
        {
            power = power.add(&power);
            i += 1;
        }
        let greatest = power.sub(&Integer::one());
        if signed {
            (power.neg(), greatest)
        } else {
            (Integer::zero(), greatest)
        }
    }
}

impl Axiom {
    /// What the axiom states; `IntLeTotal` states a disjunction and has no
    /// statement here.
    pub fn statement(&self) -> (result: Option<Term>)
        ensures
            match result {
                Some(statement) => axiom_statement(*self) == Some(statement@),
                None => axiom_statement(*self) is None,
            },
    {
        match self {
            Axiom::IntLeAntisymm(s, t) => Some(
                Term::implies(
                    Term::int_le(s.copy(), t.copy()),
                    Term::implies(Term::int_le(t.copy(), s.copy()), Term::eq_int(s.copy(), t.copy())),
                ),
            ),
            Axiom::IntLeTotal(_, _) => None,
            Axiom::ViewLower(ty, a) => {
                let (low, _) = ty.bounds();
                Some(Term::int_le(Term::Int(low), unary(Prim::View(*ty), a.copy())))
            },
            Axiom::ViewUpper(ty, a) => {
                let (_, high) = ty.bounds();
                Some(Term::int_le(unary(Prim::View(*ty), a.copy()), Term::Int(high)))
            },
            Axiom::IntDivRem(a, k) => Some(
                Term::eq_int(
                    a.copy(),
                    binary(
                        Prim::IntAdd,
                        binary(Prim::IntMul, binary(Prim::IntDiv, a.copy(), k.copy()), k.copy()),
                        binary(Prim::IntRem, a.copy(), k.copy()),
                    ),
                ),
            ),
            Axiom::IntRemUpperPos(a, k) => Some(
                Term::implies(
                    Term::int_lt(Term::literal(0), k.copy()),
                    Term::int_lt(binary(Prim::IntRem, a.copy(), k.copy()), k.copy()),
                ),
            ),
            Axiom::IntRemLowerPos(a, k) => Some(
                Term::implies(
                    Term::int_lt(Term::literal(0), k.copy()),
                    Term::int_lt(unary(Prim::IntNeg, k.copy()), binary(Prim::IntRem, a.copy(), k.copy())),
                ),
            ),
            Axiom::IntRemUpperNeg(a, k) => Some(
                Term::implies(
                    Term::int_lt(k.copy(), Term::literal(0)),
                    Term::int_lt(binary(Prim::IntRem, a.copy(), k.copy()), unary(Prim::IntNeg, k.copy())),
                ),
            ),
            Axiom::IntRemLowerNeg(a, k) => Some(
                Term::implies(
                    Term::int_lt(k.copy(), Term::literal(0)),
                    Term::int_lt(k.copy(), binary(Prim::IntRem, a.copy(), k.copy())),
                ),
            ),
            Axiom::IntRemNonneg(a, k) => Some(
                Term::implies(
                    Term::int_le(Term::literal(0), a.copy()),
                    Term::int_le(Term::literal(0), binary(Prim::IntRem, a.copy(), k.copy())),
                ),
            ),
            Axiom::IntRemNonpos(a, k) => Some(
                Term::implies(
                    Term::int_le(a.copy(), Term::literal(0)),
                    Term::int_le(binary(Prim::IntRem, a.copy(), k.copy()), Term::literal(0)),
                ),
            ),
        }
    }
}


impl MachineInt {
    /// The type's name.
    pub open spec fn spelled(self) -> &'static str {
        match self {
            MachineInt::U8 => "u8",
            MachineInt::U16 => "u16",
            MachineInt::U32 => "u32",
            MachineInt::U64 => "u64",
            MachineInt::U128 => "u128",
            MachineInt::Usize => "usize",
            MachineInt::I8 => "i8",
            MachineInt::I16 => "i16",
            MachineInt::I32 => "i32",
            MachineInt::I64 => "i64",
            MachineInt::I128 => "i128",
            MachineInt::Isize => "isize",
        }
    }

    pub fn name(self) -> (result: &'static str)
        ensures
            result == self.spelled(),
    {
        match self {
            MachineInt::U8 => "u8",
            MachineInt::U16 => "u16",
            MachineInt::U32 => "u32",
            MachineInt::U64 => "u64",
            MachineInt::U128 => "u128",
            MachineInt::Usize => "usize",
            MachineInt::I8 => "i8",
            MachineInt::I16 => "i16",
            MachineInt::I32 => "i32",
            MachineInt::I64 => "i64",
            MachineInt::I128 => "i128",
            MachineInt::Isize => "isize",
        }
    }
}

impl Prim {
    /// The primitive's name: `int_add`, `int_le`, `view_u8` and so on.
    pub open spec fn spelled(self) -> Seq<char> {
        match self {
            Prim::IntAdd => "int_add"@,
            Prim::IntSub => "int_sub"@,
            Prim::IntNeg => "int_neg"@,
            Prim::IntMul => "int_mul"@,
            Prim::IntLe => "int_le"@,
            Prim::IntDiv => "int_div"@,
            Prim::IntRem => "int_rem"@,
            Prim::View(machine) => "view_"@ + machine.spelled()@,
        }
    }

    pub fn name(self) -> (result: String)
        ensures
            result@ == self.spelled(),
    {
        match self {
            Prim::IntAdd => String::from_str("int_add"),
            Prim::IntSub => String::from_str("int_sub"),
            Prim::IntNeg => String::from_str("int_neg"),
            Prim::IntMul => String::from_str("int_mul"),
            Prim::IntLe => String::from_str("int_le"),
            Prim::IntDiv => String::from_str("int_div"),
            Prim::IntRem => String::from_str("int_rem"),
            Prim::View(machine) => {
                let mut text = String::from_str("view_");
                text.append(machine.name());
                text
            },
        }
    }
}

/// A term as text: a literal in decimal, variable `n` as `vn`, a primitive,
/// a proposition `n` as `Pn` and a function `n` as `fn_n` applied as
/// `name(arguments)`, an equation as `left ==[Int] right`, an implication
/// as `(premise => conclusion)`, and a projection as `term.index`.
pub open spec fn term_text(term: TermView) -> Seq<char>
    decreases term,
{
    match term {
        TermView::Int(value) => signed_decimal(value),
        TermView::Var(id) => "v"@ + decimal(id),
        TermView::Prim(prim, arguments) => prim.spelled() + "("@ + terms_text(arguments) + ")"@,
        TermView::EqInt(left, right) => term_text(*left) + " ==[Int] "@ + term_text(*right),
        TermView::Implies(premise, conclusion) => "("@ + term_text(*premise) + " => "@ + term_text(*conclusion)
            + ")"@,
        TermView::PropApp(id, arguments) => "P"@ + decimal(id) + "("@ + terms_text(arguments) + ")"@,
        TermView::Apply(id, arguments) => "fn_"@ + decimal(id) + "("@ + terms_text(arguments) + ")"@,
        TermView::Proj(tuple, index) => term_text(*tuple) + "."@ + decimal(index),
    }
}

/// Terms as text, separated by `, `.
pub open spec fn terms_text(terms: Seq<TermView>) -> Seq<char>
    decreases terms,
{
    if terms.len() == 0 {
        Seq::empty()
    } else if terms.len() == 1 {
        term_text(terms[0])
    } else {
        terms_text(terms.drop_last()) + ", "@ + term_text(terms.last())
    }
}

impl Term {
    /// The term as text.
    pub fn text(&self) -> (result: String)
        ensures
            result@ == term_text(self@),
        decreases self,
    {
        match self {
            Term::Int(value) => value.text(),
            Term::Var(id) => {
                let mut text = String::from_str("v");
                text.append(decimal_text(*id).as_str());
                text
            },
            Term::Prim(prim, arguments) => {
                let mut text = prim.name();
                text.append("(");
                text.append(terms_text_of(arguments).as_str());
                text.append(")");
                text
            },
            Term::EqInt(left, right) => {
                let mut text = left.text();
                text.append(" ==[Int] ");
                text.append(right.text().as_str());
                text
            },
            Term::Implies(premise, conclusion) => {
                let mut text = String::from_str("(");
                text.append(premise.text().as_str());
                text.append(" => ");
                text.append(conclusion.text().as_str());
                text.append(")");
                text
            },
            Term::PropApp(id, arguments) => {
                let mut text = String::from_str("P");
                text.append(decimal_text(*id).as_str());
                text.append("(");
                text.append(terms_text_of(arguments).as_str());
                text.append(")");
                text
            },
            Term::Apply(id, arguments) => {
                let mut text = String::from_str("fn_");
                text.append(decimal_text(*id).as_str());
                text.append("(");
                text.append(terms_text_of(arguments).as_str());
                text.append(")");
                text
            },
            Term::Proj(tuple, index) => {
                let mut text = tuple.text();
                text.append(".");
                text.append(decimal_text(*index as u64).as_str());
                text
            },
        }
    }
}

/// Terms as text, separated by `, `.
pub fn terms_text_of(terms: &Vec<Term>) -> (result: String)
    ensures
        result@ == terms_text(terms_view(terms@)),
    decreases terms,
{
    proof {
        lemma_terms_view(terms@);
    }
    let mut text = String::new();
    let mut index: usize = 0;
    while index < terms.len()
        invariant
            index <= terms@.len(),
            terms_view(terms@).len() == terms@.len(),
            forall|i: int| 0 <= i < terms@.len() ==> #[trigger] terms_view(terms@)[i] == terms@[i]@,
            text@ == terms_text(terms_view(terms@).take(index as int)),
        decreases terms.len() - index,
    {
        let ghost views = terms_view(terms@);
        assert(views.take(index + 1).drop_last() =~= views.take(index as int));
        if index > 0 {
            text.append(", ");
        } else {
            assert(views.take(0) =~= Seq::<TermView>::empty());
        }
        text.append(terms[index].text().as_str());
        index += 1;
    }
    assert(terms_view(terms@).take(index as int) =~= terms_view(terms@));
    text
}
} // verus!
