//! What a proposition means in integer arithmetic, and what a context
//! assumes. Terms that are not integer arithmetic are valued by a `leaf`
//! function; propositions outside arithmetic, conjunction and the prelude's
//! `False` say nothing.

use crate::arith::form::{constraint_holds, constraint_kind, falsehood_of, le_sides, term_value};
use crate::term::{axiom_statement, Axiom, Binding, Context, Prelude, Term, TermView, Type};
use vstd::prelude::*;

verus! {

/// Whether a proposition holds when the terms outside arithmetic have the
/// values `leaf` gives them.
pub open spec fn holds(prop: TermView, prelude: Option<Prelude>, leaf: spec_fn(TermView) -> int) -> bool
    decreases prop,
{
    match le_sides(prop) {
        Some((left, right)) => term_value(left, leaf) <= term_value(right, leaf),
        None => match prop {
            TermView::EqInt(left, right) => term_value(*left, leaf) == term_value(*right, leaf),
            TermView::Implies(premise, conclusion) => holds(*premise, prelude, leaf) ==> holds(
                *conclusion,
                prelude,
                leaf,
            ),
            TermView::PropApp(id, arguments) => match prelude {
                Some(prelude) => if id == prelude.falsehood as nat && arguments.len() == 0 {
                    false
                } else if id == prelude.and as nat && arguments.len() == 2 {
                    holds(arguments[0], Some(prelude), leaf) && holds(arguments[1], Some(prelude), leaf)
                } else {
                    true
                },
                None => true,
            },
            _ => true,
        },
    }
}

/// A constraint holds as a proposition exactly when it holds as a
/// constraint.
pub proof fn lemma_holds_constraint(prop: TermView, prelude: Option<Prelude>, leaf: spec_fn(TermView) -> int)
    requires
        constraint_kind(prop, falsehood_of(prelude)) is Some,
    ensures
        holds(prop, prelude, leaf) == constraint_holds(prop, leaf),
{
    if le_sides(prop) is None {
        if let TermView::Implies(premise, conclusion) = prop {
            assert(le_sides(*premise) is Some);
            let (left, right) = le_sides(*premise).unwrap();
            assert(holds(*premise, prelude, leaf) == (term_value(left, leaf) <= term_value(right, leaf)));
            let pl = prelude.unwrap();
            assert(*conclusion == TermView::PropApp(pl.falsehood as nat, Seq::empty()));
            assert(!holds(*conclusion, prelude, leaf));
        }
    }
}

/// What a value of a type carries: the claim of a proof, and what each
/// field of a tuple carries.
pub open spec fn type_holds(ty: Type, prelude: Option<Prelude>, leaf: spec_fn(TermView) -> int) -> bool
    decreases ty,
{
    match ty {
        Type::Proof(claim) => holds((*claim)@, prelude, leaf),
        Type::Tuple(fields) => fields_hold(fields@, prelude, leaf),
        _ => true,
    }
}

/// What the fields of a tuple carry, each of them.
pub open spec fn fields_hold(fields: Seq<Type>, prelude: Option<Prelude>, leaf: spec_fn(TermView) -> int) -> bool
    decreases fields,
{
    if fields.len() == 0 {
        true
    } else {
        fields_hold(fields.drop_last(), prelude, leaf) && type_holds(fields.last(), prelude, leaf)
    }
}

/// The fields of a tuple carry what each of them carries.
pub proof fn lemma_fields_hold(fields: Seq<Type>, prelude: Option<Prelude>, leaf: spec_fn(TermView) -> int)
    ensures
        fields_hold(fields, prelude, leaf) == forall|i: int|
            0 <= i < fields.len() ==> #[trigger] type_holds(fields[i], prelude, leaf),
    decreases fields.len(),
{
    if fields.len() > 0 {
        lemma_fields_hold(fields.drop_last(), prelude, leaf);
        if fields_hold(fields, prelude, leaf) {
            assert forall|i: int| 0 <= i < fields.len() implies #[trigger] type_holds(fields[i], prelude, leaf) by {
                if i < fields.len() - 1 {
                    assert(fields.drop_last()[i] == fields[i]);
                }
            }
        }
        if forall|i: int| 0 <= i < fields.len() ==> #[trigger] type_holds(fields[i], prelude, leaf) {
            assert forall|i: int| 0 <= i < fields.drop_last().len() implies #[trigger] type_holds(
                fields.drop_last()[i],
                prelude,
                leaf,
            ) by {
                assert(fields.drop_last()[i] == fields[i]);
            }
            assert(type_holds(fields[fields.len() - 1], prelude, leaf));
        }
    }
}

/// What a binding assumes: a hypothesis its claim, a variable what its
/// type carries.
pub open spec fn binding_holds(binding: Binding, prelude: Option<Prelude>, leaf: spec_fn(TermView) -> int) -> bool {
    match binding {
        Binding::Hyp { prop, .. } => holds(prop@, prelude, leaf),
        Binding::Var { ty, .. } => type_holds(ty, prelude, leaf),
    }
}

/// Whether everything a context assumes holds.
pub open spec fn context_holds(bindings: Seq<Binding>, prelude: Option<Prelude>, leaf: spec_fn(TermView) -> int) -> bool {
    forall|i: int| 0 <= i < bindings.len() ==> #[trigger] binding_holds(bindings[i], prelude, leaf)
}

/// Whether every statement of the axioms holds; a statement about `a / k`
/// or `a % k` is made for a non-zero literal `k` only.
pub open spec fn axioms_hold(prelude: Option<Prelude>, leaf: spec_fn(TermView) -> int) -> bool {
    forall|instance: Axiom|
        #![trigger axiom_statement(instance)]
        valid_instance(instance) ==> holds(axiom_statement(instance).unwrap(), prelude, leaf)
}

/// Whether an axiom is stated for its arguments: always, but for the
/// division axioms, whose divisor must be a non-zero literal.
pub open spec fn valid_instance(instance: Axiom) -> bool {
    match instance {
        Axiom::IntLeTotal(_, _) => false,
        Axiom::IntLeAntisymm(_, _) | Axiom::ViewLower(_, _) | Axiom::ViewUpper(_, _) => true,
        Axiom::IntDivRem(_, k) | Axiom::IntRemUpperPos(_, k) | Axiom::IntRemLowerPos(_, k)
        | Axiom::IntRemUpperNeg(_, k) | Axiom::IntRemLowerNeg(_, k) | Axiom::IntRemNonneg(_, k)
        | Axiom::IntRemNonpos(_, k) => nonzero_literal(k@),
    }
}

/// Whether a term is a non-zero literal.
pub open spec fn nonzero_literal(term: TermView) -> bool {
    term matches TermView::Int(value) && value != 0
}

/// What a search assumes: its context and the axioms.
pub open spec fn assumed(bindings: Seq<Binding>, prelude: Option<Prelude>, leaf: spec_fn(TermView) -> int) -> bool {
    context_holds(bindings, prelude, leaf) && axioms_hold(prelude, leaf)
}

/// Whether a proposition follows from what a context assumes, under every
/// valuation of the terms outside arithmetic.
pub open spec fn follows(prop: TermView, bindings: Seq<Binding>, prelude: Option<Prelude>) -> bool {
    forall|leaf: spec_fn(TermView) -> int| #[trigger] assumed(bindings, prelude, leaf) ==> holds(prop, prelude, leaf)
}

/// A context with one more binding assumes what it assumed and what the
/// binding assumes.
pub proof fn lemma_context_push(bindings: Seq<Binding>, binding: Binding, prelude: Option<Prelude>, leaf: spec_fn(TermView) -> int)
    ensures
        context_holds(bindings.push(binding), prelude, leaf) == (context_holds(bindings, prelude, leaf)
            && binding_holds(binding, prelude, leaf)),
{
    let pushed = bindings.push(binding);
    if context_holds(pushed, prelude, leaf) {
        assert forall|i: int| 0 <= i < bindings.len() implies #[trigger] binding_holds(bindings[i], prelude, leaf) by {
            assert(pushed[i] == bindings[i]);
            assert(binding_holds(pushed[i], prelude, leaf));
        }
        assert(binding_holds(pushed[bindings.len() as int], prelude, leaf));
    }
    if context_holds(bindings, prelude, leaf) && binding_holds(binding, prelude, leaf) {
        assert forall|i: int| 0 <= i < pushed.len() implies #[trigger] binding_holds(pushed[i], prelude, leaf) by {
            if i < bindings.len() {
                assert(pushed[i] == bindings[i]);
            }
        }
    }
}

/// A statement of a valid instance follows from any context.
pub proof fn lemma_axiom_follows(instance: Axiom, bindings: Seq<Binding>, prelude: Option<Prelude>)
    requires
        valid_instance(instance),
    ensures
        follows(axiom_statement(instance).unwrap(), bindings, prelude),
{
    assert forall|leaf: spec_fn(TermView) -> int| #[trigger] assumed(bindings, prelude, leaf) implies holds(
        axiom_statement(instance).unwrap(),
        prelude,
        leaf,
    ) by {
        assert(axioms_hold(prelude, leaf));
        assert(valid_instance(instance) ==> holds(axiom_statement(instance).unwrap(), prelude, leaf));
    }
}


/// Whether two types of a context have the same head: the same kind, the
/// same claim of a proof, the same identifier of a declared type, as many
/// fields of a tuple.
pub open spec fn same_type_head(a: Type, b: Type) -> bool {
    match a {
        Type::Int => b is Int,
        Type::Bool => b is Bool,
        Type::Named(id) => b is Named && b->Named_0 == id,
        Type::Proof(claim) => b is Proof && b->Proof_0@ == claim@,
        Type::Tuple(fields) => b is Tuple && fields@.len() == b->Tuple_0@.len(),
    }
}

/// Two types of a context are the same, down to the heads of the fields
/// of a tuple.
pub open spec fn same_term_type(a: Type, b: Type) -> bool {
    &&& same_type_head(a, b)
    &&& a matches Type::Tuple(fields) ==> forall|i: int|
        0 <= i < fields@.len() ==> #[trigger] same_type_head(fields@[i], b->Tuple_0@[i])
}

/// Two lists of types are the same, element by element.
pub open spec fn same_term_types(a: Seq<Type>, b: Seq<Type>) -> bool {
    a.len() == b.len() && forall|i: int| 0 <= i < a.len() ==> #[trigger] same_term_type(a[i], b[i])
}

/// A copy of a type, carrying what it carries.
pub fn copy_type(ty: &Type) -> (result: Type)
    ensures
        same_term_type(*ty, result),
        forall|prelude: Option<Prelude>, leaf: spec_fn(TermView) -> int|
            #[trigger] type_holds(result, prelude, leaf) == type_holds(*ty, prelude, leaf),
    decreases ty,
{
    match ty {
        Type::Int => Type::Int,
        Type::Bool => Type::Bool,
        Type::Named(id) => Type::Named(*id),
        Type::Proof(claim) => Type::Proof(Box::new(claim.copy())),
        Type::Tuple(fields) => {
            let copied = copy_types(fields);
            let result = Type::Tuple(copied);
            assert forall|i: int| 0 <= i < fields@.len() implies #[trigger] same_type_head(fields@[i], copied@[i]) by {
                assert(same_term_type(fields@[i], copied@[i]));
            }
            assert forall|prelude: Option<Prelude>, leaf: spec_fn(TermView) -> int|
                #[trigger] type_holds(result, prelude, leaf) == type_holds(*ty, prelude, leaf) by {
                lemma_fields_hold(fields@, prelude, leaf);
                lemma_fields_hold(copied@, prelude, leaf);
                if type_holds(*ty, prelude, leaf) {
                    assert forall|i: int| 0 <= i < copied@.len() implies #[trigger] type_holds(
                        copied@[i],
                        prelude,
                        leaf,
                    ) by {
                        assert(type_holds(fields@[i], prelude, leaf));
                    }
                }
                if type_holds(result, prelude, leaf) {
                    assert forall|i: int| 0 <= i < fields@.len() implies #[trigger] type_holds(
                        fields@[i],
                        prelude,
                        leaf,
                    ) by {
                        assert(type_holds(copied@[i], prelude, leaf));
                    }
                }
            }
            result
        },
    }
}

/// A copy of each type, carrying what it carries.
fn copy_types(types: &Vec<Type>) -> (result: Vec<Type>)
    ensures
        result@.len() == types@.len(),
        same_term_types(types@, result@),
        forall|i: int, prelude: Option<Prelude>, leaf: spec_fn(TermView) -> int|
            0 <= i < types@.len() ==> #[trigger] type_holds(result@[i], prelude, leaf)
                == type_holds(types@[i], prelude, leaf),
    decreases types,
{
    let mut copied: Vec<Type> = Vec::new();
    let mut index: usize = 0;
    while index < types.len()
        invariant
            index <= types@.len(),
            copied@.len() == index,
            forall|i: int, prelude: Option<Prelude>, leaf: spec_fn(TermView) -> int|
                0 <= i < index ==> #[trigger] type_holds(copied@[i], prelude, leaf)
                    == type_holds(types@[i], prelude, leaf),
            forall|i: int| 0 <= i < index ==> #[trigger] same_term_type(types@[i], copied@[i]),
        decreases types.len() - index,
    {
        copied.push(copy_type(&types[index]));
        index += 1;
    }
    copied
}

/// A copy of a binding, assuming what it assumes.
pub fn copy_binding(binding: &Binding) -> (result: Binding)
    ensures
        forall|prelude: Option<Prelude>, leaf: spec_fn(TermView) -> int|
            #[trigger] binding_holds(result, prelude, leaf) == binding_holds(*binding, prelude, leaf),
        (result is Hyp) == (*binding is Hyp),
        *binding is Hyp ==> result->Hyp_prop@ == binding->Hyp_prop@,
{
    match binding {
        Binding::Hyp { id, prop } => Binding::Hyp { id: *id, prop: prop.copy() },
        Binding::Var { id, ty } => Binding::Var { id: *id, ty: copy_type(ty) },
    }
}

/// A copy of a context, assuming what it assumes.
pub fn copy_context(ctx: &Context) -> (result: Context)
    ensures
        result.seq().len() == ctx.seq().len(),
        forall|j: int|
            0 <= j < ctx.seq().len() ==> ((#[trigger] result.seq()[j]) is Hyp) == (ctx.seq()[j] is Hyp) && (
            ctx.seq()[j] is Hyp ==> result.seq()[j]->Hyp_prop@ == ctx.seq()[j]->Hyp_prop@),
        forall|prelude: Option<Prelude>, leaf: spec_fn(TermView) -> int|
            #[trigger] context_holds(result.seq(), prelude, leaf) == context_holds(ctx.seq(), prelude, leaf),
{
    let bindings = ctx.bindings();
    let mut copied: Vec<Binding> = Vec::new();
    let mut index: usize = 0;
    while index < bindings.len()
        invariant
            index <= bindings@.len(),
            bindings@ == ctx.seq(),
            copied@.len() == index,
            forall|i: int, prelude: Option<Prelude>, leaf: spec_fn(TermView) -> int|
                0 <= i < index ==> #[trigger] binding_holds(copied@[i], prelude, leaf)
                    == binding_holds(bindings@[i], prelude, leaf),
            forall|i: int|
                0 <= i < index ==> ((#[trigger] copied@[i]) is Hyp) == (bindings@[i] is Hyp) && (bindings@[i] is Hyp
                    ==> copied@[i]->Hyp_prop@ == bindings@[i]->Hyp_prop@),
        decreases bindings.len() - index,
    {
        copied.push(copy_binding(&bindings[index]));
        index += 1;
    }
    let result = ctx.with_bindings(copied);
    assert forall|prelude: Option<Prelude>, leaf: spec_fn(TermView) -> int|
        #[trigger] context_holds(result.seq(), prelude, leaf) == context_holds(ctx.seq(), prelude, leaf) by {
        if context_holds(ctx.seq(), prelude, leaf) {
            assert forall|i: int| 0 <= i < copied@.len() implies #[trigger] binding_holds(
                copied@[i],
                prelude,
                leaf,
            ) by {
                assert(binding_holds(bindings@[i], prelude, leaf));
            }
        }
        if context_holds(result.seq(), prelude, leaf) {
            assert forall|i: int| 0 <= i < bindings@.len() implies #[trigger] binding_holds(
                bindings@[i],
                prelude,
                leaf,
            ) by {
                assert(binding_holds(copied@[i], prelude, leaf));
            }
        }
    }
    result
}

} // verus!
