//! Surface generics are checked templates. Every concrete instantiation is
//! expanded into ordinary declarations, which go through the ordinary
//! elaborator like any other. Unused bodies are not claimed to be
//! universally checked.

use crate::ast::{joined, same_type, same_generic_names, same_generic_parameter, same_generic_parameters, same_types, 
    copy_exprs, copy_generic_parameters, copy_parameters, copy_types, Attribute, AttributeKind, Block,
    Declaration, DeclarationKind, Expr, ExprKind, Field, Form, GenericParameter, IntegerLiteral, MatchArm, ModelImpl,
    Name, Parameter, Path, Pattern, PatternField, PatternKind, Program, PropVariant, Statement,
    StatementKind, Type, TypeField, TypeKind, ValueField, Variant, VariantShape, Visibility,
    VisibilityScope, copy_attributes, copy_doc_comments,
};
use crate::diagnostic::{fresh, Diagnostic, Level};
use crate::elab::keys::{expr_shape, type_shape, write_expr, write_type};
use crate::elab::preview::{Feature, Previews};
use crate::integer::Integer;
use crate::source::Span;
use crate::text::{
    contains_text, decimal_text, lemma_text_order, occurs_at, parse_index, precedes, push_char, same_text, starts_at,
    text_less,
};
use vstd::prelude::*;
use vstd::string::{StrSliceExecFns, StringExecFns};

verus! {

/// The most distinct instances of generic declarations in one program:
/// growing polymorphic recursion is rejected, not allowed to hang.
pub const MAX_GENERIC_INSTANCES: usize = 1024;

/// The most nesting of types within one type expression.
pub const MAX_GENERIC_TYPE_DEPTH: usize = 64;

/// Types by name; a name stands once.
pub(crate) struct Types {
    pub(crate) entries: Vec<(String, Type)>,
}

impl Types {
    /// No names.
    pub(crate) fn new() -> (result: Types)
        ensures
            result.entries@.len() == 0,
    {
        Types { entries: Vec::new() }
    }

    /// The index of a name.
    fn position(&self, name: &str) -> (result: Option<usize>)
        ensures
            match result {
                Some(index) => index < self.entries@.len() && self.entries@[index as int].0@ == name@ && forall|
                    i: int,
                | 0 <= i < index ==> (#[trigger] self.entries@[i]).0@ != name@,
                None => forall|i: int| 0 <= i < self.entries@.len() ==> self.entries@[i].0@ != name@,
            },
    {
        let mut index: usize = 0;
        while index < self.entries.len()
            invariant
                index <= self.entries@.len(),
                forall|i: int| 0 <= i < index ==> self.entries@[i].0@ != name@,
            decreases self.entries.len() - index,
        {
            if same_text(self.entries[index].0.as_str(), name) {
                return Some(index);
            }
            index += 1;
        }
        None
    }

    /// The type of a name.
    pub(crate) fn get(&self, name: &str) -> (result: Option<&Type>)
        ensures
            result is None == forall|i: int| 0 <= i < self.entries@.len() ==> self.entries@[i].0@ != name@,
            result matches Some(ty) ==> exists|i: int|
                0 <= i < self.entries@.len() && self.entries@[i].0@ == name@ && *ty == (#[trigger] self.entries@[i]).1,
    {
        match self.position(name) {
            Some(index) => Some(&self.entries[index].1),
            None => None,
        }
    }

    /// Whether a name has a type.
    pub(crate) fn contains(&self, name: &str) -> (result: bool)
        ensures
            result == exists|i: int| 0 <= i < self.entries@.len() && self.entries@[i].0@ == name@,
    {
        self.position(name).is_some()
    }

    /// Gives a name a type, replacing the one it had.
    pub(crate) fn insert(&mut self, name: String, ty: Type)
        ensures
            (exists|i: int| 0 <= i < old(self).entries@.len() && (#[trigger] old(self).entries@[i]).0@ == name@)
                ==> exists|i: int|
                0 <= i < old(self).entries@.len() && (#[trigger] old(self).entries@[i]).0@ == name@ && (forall|j: int|
                    0 <= j < i ==> (#[trigger] old(self).entries@[j]).0@ != name@) && final(self).entries@
                    == old(self).entries@.update(i, (name, ty)),
            (forall|i: int| 0 <= i < old(self).entries@.len() ==> (#[trigger] old(self).entries@[i]).0@ != name@)
                ==> final(self).entries@ == old(self).entries@.push((name, ty)),
    {
        match self.position(name.as_str()) {
            Some(index) => {
                self.entries.set(index, (name, ty));
            },
            None => {
                self.entries.push((name, ty));
            },
        }
    }

    /// Takes a name's type away.
    pub(crate) fn remove(&mut self, name: &str)
        ensures
            (exists|i: int| 0 <= i < old(self).entries@.len() && (#[trigger] old(self).entries@[i]).0@ == name@)
                ==> exists|i: int|
                0 <= i < old(self).entries@.len() && (#[trigger] old(self).entries@[i]).0@ == name@ && (forall|j: int|
                    0 <= j < i ==> (#[trigger] old(self).entries@[j]).0@ != name@) && final(self).entries@
                    == old(self).entries@.remove(i),
            (forall|i: int| 0 <= i < old(self).entries@.len() ==> (#[trigger] old(self).entries@[i]).0@ != name@)
                ==> final(self).entries@ == old(self).entries@,
    {
        if let Some(index) = self.position(name) {
            self.entries.remove(index);
        }
    }

    /// A copy.
    pub(crate) fn copy(&self) -> (result: Types)
        ensures
            result.entries@.len() == self.entries@.len(),
            forall|i: int|
                #![trigger self.entries@[i]]
                0 <= i < self.entries@.len() ==> result.entries@[i].0 == self.entries@[i].0 && same_type(
                    self.entries@[i].1,
                    result.entries@[i].1,
                ),
    {
        let mut entries: Vec<(String, Type)> = Vec::new();
        let mut index: usize = 0;
        while index < self.entries.len()
            invariant
                index <= self.entries@.len(),
                entries@.len() == index,
                forall|i: int|
                    #![trigger self.entries@[i]]
                    0 <= i < index ==> entries@[i].0 == self.entries@[i].0 && same_type(
                        self.entries@[i].1,
                        entries@[i].1,
                    ),
            decreases self.entries.len() - index,
        {
            let entry = &self.entries[index];
            entries.push((entry.0.clone(), entry.1.copy()));
            index += 1;
        }
        Types { entries }
    }
}

/// Whether a list of texts holds one.
fn holds_text(texts: &Vec<String>, text: &str) -> (result: bool)
    ensures
        result == holds(texts@, text@),
{
    let mut index: usize = 0;
    while index < texts.len()
        invariant
            index <= texts@.len(),
            forall|i: int| 0 <= i < index ==> texts@[i]@ != text@,
        decreases texts.len() - index,
    {
        if same_text(texts[index].as_str(), text) {
            return true;
        }
        index += 1;
    }
    false
}

/// Adds a text to a set of texts; whether it was new.
fn insert_text(texts: &mut Vec<String>, text: String) -> (result: bool)
    ensures
        result == !holds(old(texts)@, text@),
        result ==> final(texts)@ == old(texts)@.push(text),
        !result ==> final(texts)@ == old(texts)@,
{
    if holds_text(texts, text.as_str()) {
        return false;
    }
    texts.push(text);
    true
}

/// Whether one of the strings has the text.
pub open spec fn holds(texts: Seq<String>, text: Seq<char>) -> bool {
    exists|i: int| 0 <= i < texts.len() && texts[i]@ == text
}

/// A string pushed is held, and so is every one held before.
proof fn lemma_holds_push(texts: Seq<String>, text: String)
    ensures
        holds(texts.push(text), text@),
        forall|other: Seq<char>| holds(texts, other) ==> holds(texts.push(text), other),
{
    assert(texts.push(text)[texts.len() as int] == text);
    assert forall|other: Seq<char>| holds(texts, other) implies holds(texts.push(text), other) by {
        let i = choose|i: int| 0 <= i < texts.len() && texts[i]@ == other;
        assert(texts.push(text)[i] == texts[i]);
    }
}

/// The names a pair of generic quantifier instances goes by, with the type
/// they quantify over.
pub struct QuantifierNames {
    pub element: Type,
    pub exists: String,
    pub forall: String,
}

/// The weight of an expression: one for every node, and more for a
/// quantifier, which is read as a larger application.
pub open spec fn expr_weight(expr: Expr) -> nat
    decreases expr,
{
    1 + match expr.kind {
        ExprKind::Group(inner) => expr_weight(*inner),
        ExprKind::Tuple(values) => exprs_weight(values@),
        ExprKind::Array(values) => exprs_weight(values@),
        ExprKind::Subscript { value, index } => expr_weight(*value) + expr_weight(*index),
        ExprKind::Form { arguments, .. } => exprs_weight(arguments@),
        ExprKind::Struct { fields, .. } => value_fields_weight(fields@),
        ExprKind::Block(block) => block_weight(block),
        ExprKind::Logic(block) => block_weight(block),
        ExprKind::Evidence { constructor, evidence, .. } => expr_weight(*constructor) + expr_weight(*evidence),
        ExprKind::If { condition, then_branch, else_branch } => expr_weight(*condition) + block_weight(then_branch)
            + expr_weight(*else_branch),
        ExprKind::Match { scrutinee, arms } => expr_weight(*scrutinee) + arms_weight(arms@),
        ExprKind::Loop { body } => block_weight(body),
        ExprKind::While { pattern, condition, body } => (match pattern {
            Some(pattern) => pattern_weight(*pattern),
            None => 0,
        }) + expr_weight(*condition) + block_weight(body),
        ExprKind::For { pattern, iterable, body } => pattern_weight(*pattern) + expr_weight(*iterable)
            + block_weight(body),
        ExprKind::Range { lower, upper, .. } => expr_weight(*lower) + expr_weight(*upper),
        ExprKind::Break(value) => match value {
            Some(value) => expr_weight(*value),
            None => 0,
        },
        ExprKind::Return(value) => match value {
            Some(value) => expr_weight(*value),
            None => 0,
        },
        ExprKind::Ref { expr, .. } => expr_weight(*expr),
        ExprKind::Forall { parameters, body } => block_weight(body) + 8 * parameters@.len() + 8,
        ExprKind::Exists { parameters, body } => block_weight(body) + 8 * parameters@.len() + 8,
        ExprKind::Not(inner) => expr_weight(*inner),
        ExprKind::Unary { expr, .. } => expr_weight(*expr),
        ExprKind::Binary { left, right, .. } => expr_weight(*left) + expr_weight(*right),
        ExprKind::Cast { expr, .. } => expr_weight(*expr),
        ExprKind::Call { callee, arguments } => expr_weight(*callee) + exprs_weight(arguments@),
        ExprKind::Closure { body, .. } => expr_weight(*body),
        ExprKind::GenericApply { callee, .. } => expr_weight(*callee),
        ExprKind::Member { value, .. } => expr_weight(*value),
        ExprKind::Index { value, .. } => expr_weight(*value),
        _ => 0,
    }
}

/// The weights of expressions, added.
pub open spec fn exprs_weight(exprs: Seq<Expr>) -> nat
    decreases exprs,
{
    if exprs.len() == 0 {
        0
    } else {
        exprs_weight(exprs.drop_last()) + expr_weight(exprs.last())
    }
}

/// The weights of the values of fields, added.
pub open spec fn value_fields_weight(fields: Seq<ValueField>) -> nat
    decreases fields,
{
    if fields.len() == 0 {
        0
    } else {
        value_fields_weight(fields.drop_last()) + expr_weight(fields.last().value)
    }
}

/// The weights of match arms, added.
pub open spec fn arms_weight(arms: Seq<MatchArm>) -> nat
    decreases arms,
{
    if arms.len() == 0 {
        0
    } else {
        arms_weight(arms.drop_last()) + pattern_weight(arms.last().pattern) + expr_weight(arms.last().body)
    }
}

/// The weight of a block.
pub open spec fn block_weight(block: Block) -> nat
    decreases block,
{
    1 + statements_weight(block.statements@) + match block.tail {
        Some(tail) => expr_weight(*tail),
        None => 0,
    }
}

/// The weights of statements, added.
pub open spec fn statements_weight(statements: Seq<Statement>) -> nat
    decreases statements,
{
    if statements.len() == 0 {
        0
    } else {
        statements_weight(statements.drop_last()) + statement_weight(statements.last())
    }
}

/// The weight of a statement.
pub open spec fn statement_weight(statement: Statement) -> nat
    decreases statement,
{
    1 + match statement.kind {
        StatementKind::Let { pattern, value, .. } => pattern_weight(pattern) + expr_weight(value),
        StatementKind::Assign { place, value } => expr_weight(place) + expr_weight(value),
        StatementKind::Expression(expr) => expr_weight(expr),
        StatementKind::Error => 0,
    }
}

/// The weight of a pattern.
pub open spec fn pattern_weight(pattern: Pattern) -> nat
    decreases pattern,
{
    1 + match pattern.kind {
        PatternKind::Binding { pattern, .. } => pattern_weight(*pattern),
        PatternKind::Evidence { constructor, evidence, .. } => pattern_weight(*constructor) + pattern_weight(
            *evidence,
        ),
        PatternKind::Group(inner) => pattern_weight(*inner),
        PatternKind::Tuple(parts) => patterns_weight(parts@),
        PatternKind::Struct { fields, .. } => pattern_fields_weight(fields@),
        PatternKind::Variant { arguments, .. } => match arguments {
            Some(parts) => patterns_weight(parts@),
            None => 0,
        },
        _ => 0,
    }
}

/// The weights of patterns, added.
pub open spec fn patterns_weight(patterns: Seq<Pattern>) -> nat
    decreases patterns,
{
    if patterns.len() == 0 {
        0
    } else {
        patterns_weight(patterns.drop_last()) + pattern_weight(patterns.last())
    }
}

/// The weights of the patterns of fields, added.
pub open spec fn pattern_fields_weight(fields: Seq<PatternField>) -> nat
    decreases fields,
{
    if fields.len() == 0 {
        0
    } else {
        pattern_fields_weight(fields.drop_last()) + pattern_weight(fields.last().pattern)
    }
}

/// An expression weighs no more than a list it is in.
proof fn lemma_exprs_weight(exprs: Seq<Expr>, index: int)
    requires
        0 <= index < exprs.len(),
    ensures
        expr_weight(exprs[index]) <= exprs_weight(exprs),
    decreases exprs.len(),
{
    if index < exprs.len() - 1 {
        lemma_exprs_weight(exprs.drop_last(), index);
    }
}

/// A field's value weighs no more than the fields.
proof fn lemma_value_fields_weight(fields: Seq<ValueField>, index: int)
    requires
        0 <= index < fields.len(),
    ensures
        expr_weight(fields[index].value) <= value_fields_weight(fields),
    decreases fields.len(),
{
    if index < fields.len() - 1 {
        lemma_value_fields_weight(fields.drop_last(), index);
    }
}

/// An arm weighs no more than the arms.
proof fn lemma_arms_weight(arms: Seq<MatchArm>, index: int)
    requires
        0 <= index < arms.len(),
    ensures
        pattern_weight(arms[index].pattern) + expr_weight(arms[index].body) <= arms_weight(arms),
    decreases arms.len(),
{
    if index < arms.len() - 1 {
        lemma_arms_weight(arms.drop_last(), index);
    }
}

/// A statement weighs no more than the statements.
proof fn lemma_statements_weight(statements: Seq<Statement>, index: int)
    requires
        0 <= index < statements.len(),
    ensures
        statement_weight(statements[index]) <= statements_weight(statements),
    decreases statements.len(),
{
    if index < statements.len() - 1 {
        lemma_statements_weight(statements.drop_last(), index);
    }
}

/// A pattern weighs no more than the patterns.
proof fn lemma_patterns_weight(patterns: Seq<Pattern>, index: int)
    requires
        0 <= index < patterns.len(),
    ensures
        pattern_weight(patterns[index]) <= patterns_weight(patterns),
    decreases patterns.len(),
{
    if index < patterns.len() - 1 {
        lemma_patterns_weight(patterns.drop_last(), index);
    }
}

/// A field's pattern weighs no more than the fields.
proof fn lemma_pattern_fields_weight(fields: Seq<PatternField>, index: int)
    requires
        0 <= index < fields.len(),
    ensures
        pattern_weight(fields[index].pattern) <= pattern_fields_weight(fields),
    decreases fields.len(),
{
    if index < fields.len() - 1 {
        lemma_pattern_fields_weight(fields.drop_last(), index);
    }
}

/// The rank of a type in the inference of type arguments: a group is one
/// more than what it holds, and a path ranks above a name.
pub open spec fn type_rank(ty: Type) -> nat
    decreases ty,
{
    match ty.kind {
        TypeKind::Group(inner) => 1 + type_rank(*inner),
        TypeKind::Path { .. } => 2,
        _ => 1,
    }
}

/// What `{:?}` writes for a text: the text quoted, with the characters
/// that `str`'s `Debug` escapes escaped.
pub uninterp spec fn text_debug(text: Seq<char>) -> Seq<char>;

/// What `char::to_uppercase` yields for a character, collected.
pub uninterp spec fn upper_case_of(character: char) -> Seq<char>;

/// `format!("{:?}")` of a text: `str`'s `Debug` form, quoted and escaped,
/// named, which is a function of the text alone.
#[verifier::external_body]
pub(crate) fn debug_text(text: &str) -> (result: String)
    ensures
        result@ == text_debug(text@),
{
    format!("{text:?}")
}

/// `char::to_uppercase`, collected into a string: named, a function of the
/// character alone.
#[verifier::external_body]
fn upper_case(character: char) -> (result: String)
    ensures
        result@ == upper_case_of(character),
{
    character.to_uppercase().collect()
}

/// The key of a type: the key of the type a group holds, otherwise its
/// structural key, spans left out.
pub open spec fn key_of(ty: Type) -> Seq<char>
    decreases ty,
{
    match ty.kind {
        TypeKind::Group(inner) => key_of(*inner),
        _ => type_shape(ty),
    }
}

/// A stable structural key of a type, with every span left out. Distinct
/// occurrences of one type in the source therefore share an instance.
fn type_key(ty: &Type) -> (result: String)
    ensures
        result@ == key_of(*ty),
    decreases ty,
{
    if let TypeKind::Group(inner) = &ty.kind {
        return type_key(inner);
    }
    let mut key = String::new();
    write_type(&mut key, ty);
    key
}

/// The keys of types joined by commas.
pub open spec fn joined_keys(types: Seq<Type>) -> Seq<char>
    decreases types.len(),
{
    if types.len() == 0 {
        Seq::empty()
    } else if types.len() == 1 {
        key_of(types[0])
    } else {
        joined_keys(types.drop_last()) + ","@ + key_of(types.last())
    }
}

/// The key of an instance: the template's name, then the keys of the type
/// arguments in angle brackets.
pub open spec fn instance_key(template: Seq<char>, arguments: Seq<Type>) -> Seq<char> {
    template + "<"@ + joined_keys(arguments) + ">"@
}

/// Whether a type argument, as the pass made it, comes from the one
/// written: a name the substitutions bind becomes what they bind it to (or
/// stays as written where types nest too deep), a name they do not bind and
/// the unit, never and lifetime types stay as written, and a group, a
/// reference, a slice, an array, a tuple, a proof or a function type keeps
/// its kind and its span.
pub(crate) open spec fn argument_made(written: Type, made: Type, substitutions: Types) -> bool {
    match written.kind {
        TypeKind::Named(name) => if exists|i: int|
            0 <= i < substitutions.entries@.len() && (#[trigger] substitutions.entries@[i]).0@ == name.text@ {
            made == written || exists|i: int|
                0 <= i < substitutions.entries@.len() && (#[trigger] substitutions.entries@[i]).0@ == name.text@
                    && same_type(substitutions.entries@[i].1, made)
        } else {
            made == written
        },
        TypeKind::Unit | TypeKind::Never | TypeKind::Lifetime(_) => made == written,
        TypeKind::Group(_) => made.kind is Group && made.span == written.span,
        TypeKind::Ref { .. } => made.kind is Ref && made.span == written.span,
        TypeKind::Slice(_) => made.kind is Slice && made.span == written.span,
        TypeKind::Array { .. } => made.kind is Array && made.span == written.span,
        TypeKind::Tuple(_) => made.kind is Tuple && made.span == written.span,
        TypeKind::Proof(_) => made.kind is Proof && made.span == written.span,
        TypeKind::Function { .. } => made.kind is Function && made.span == written.span,
        TypeKind::LogicalFunction { .. } => made.kind is LogicalFunction && made.span == written.span,
        TypeKind::Path { .. } => true,
    }
}

/// Whether type arguments, as the pass made them, come one for one from
/// those written.
pub(crate) open spec fn arguments_made(written: Seq<Type>, made: Seq<Type>, substitutions: Types) -> bool {
    written.len() == made.len() && forall|i: int|
        0 <= i < written.len() ==> #[trigger] argument_made(written[i], made[i], substitutions)
}

/// The key of an instance determines the keys of its type arguments.
pub proof fn lemma_instance_key_arguments(template: Seq<char>, first: Seq<Type>, second: Seq<Type>)
    ensures
        instance_key(template, first) == instance_key(template, second) ==> joined_keys(first) == joined_keys(
            second,
        ),
{
    reveal_strlit("<");
    reveal_strlit(">");
    if instance_key(template, first) == instance_key(template, second) {
        let start = template.len() + 1;
        let whole = instance_key(template, first);
        assert(whole.subrange(start as int, whole.len() - 1) =~= joined_keys(first));
        let other = instance_key(template, second);
        assert(other.subrange(start as int, other.len() - 1) =~= joined_keys(second));
    }
}

/// Whether the key of a claim mentions one of the locals as a name is
/// written in it.
pub open spec fn mentions_local(shape: Seq<char>, locals: Seq<(String, Type)>) -> bool {
    exists|i: int, at: int| 0 <= i < locals.len() && #[trigger] occurs_at(shape, "<"@ + text_debug(locals[i].0@) + ">"@, at)
}

/// Whether a type holds a proof whose claim mentions a local: such a type
/// argument would capture a value of the scope it is written in.
pub open spec fn open_proof(ty: Type, locals: Seq<(String, Type)>) -> bool
    decreases ty,
{
    match ty.kind {
        TypeKind::Proof(claim) => mentions_local(expr_shape(*claim), locals),
        TypeKind::Group(inner) => open_proof(*inner, locals),
        TypeKind::Ref { inner, .. } => open_proof(*inner, locals),
        TypeKind::Slice(inner) => open_proof(*inner, locals),
        TypeKind::Array { element, .. } => open_proof(*element, locals),
        TypeKind::Tuple(fields) => fields_open(fields@, locals),
        TypeKind::Path { arguments, .. } => types_open(arguments@, locals),
        TypeKind::Function { parameters, result } => fields_open(parameters@, locals) || open_proof(*result, locals),
        TypeKind::LogicalFunction { parameters, result } => fields_open(parameters@, locals) || open_proof(
            *result,
            locals,
        ),
        _ => false,
    }
}

/// Whether the type of a field holds an open proof.
pub open spec fn fields_open(fields: Seq<TypeField>, locals: Seq<(String, Type)>) -> bool
    decreases fields,
{
    if fields.len() == 0 {
        false
    } else {
        fields_open(fields.drop_last(), locals) || open_proof(fields.last().ty, locals)
    }
}

/// Whether a type holds an open proof.
pub open spec fn types_open(types: Seq<Type>, locals: Seq<(String, Type)>) -> bool
    decreases types,
{
    if types.len() == 0 {
        false
    } else {
        types_open(types.drop_last(), locals) || open_proof(types.last(), locals)
    }
}

/// Whether a type holds a proof whose claim mentions a local name.
fn has_open_proof(ty: &Type, locals: &Types) -> (result: bool)
    ensures
        result == open_proof(*ty, locals.entries@),
    decreases ty,
{
    match &ty.kind {
        TypeKind::Proof(expr) => {
            let mut shape = String::new();
            write_expr(&mut shape, expr);
            assert(shape@ =~= expr_shape(**expr));
            let mut index: usize = 0;
            while index < locals.entries.len()
                invariant
                    index <= locals.entries@.len(),
                    shape@ == expr_shape(**expr),
                    ty.kind matches TypeKind::Proof(claim) && *claim == **expr,
                    forall|i: int, at: int|
                        0 <= i < index ==> !#[trigger] occurs_at(
                            shape@,
                            "<"@ + text_debug(locals.entries@[i].0@) + ">"@,
                            at,
                        ),
                decreases locals.entries.len() - index,
            {
                let mut pattern = String::from_str("<");
                pattern.append(debug_text(locals.entries[index].0.as_str()).as_str());
                pattern.append(">");
                assert(pattern@ == "<"@ + text_debug(locals.entries@[index as int].0@) + ">"@);
                if contains_text(shape.as_str(), pattern.as_str()) {
                    proof {
                        let at = choose|at: int| occurs_at(shape@, pattern@, at);
                        assert(occurs_at(shape@, "<"@ + text_debug(locals.entries@[index as int].0@) + ">"@, at));
                        assert(mentions_local(shape@, locals.entries@));
                    }
                    return true;
                }
                index += 1;
            }
            false
        },
        TypeKind::Group(inner) => has_open_proof(inner, locals),
        TypeKind::Ref { inner, .. } => has_open_proof(inner, locals),
        TypeKind::Slice(inner) => has_open_proof(inner, locals),
        TypeKind::Array { element, .. } => has_open_proof(element, locals),
        TypeKind::Tuple(fields) => fields_have_open_proof(fields, locals),
        TypeKind::Path { arguments, .. } => types_have_open_proof(arguments, locals),
        TypeKind::Function { parameters, result } => fields_have_open_proof(parameters, locals) || has_open_proof(
            result,
            locals,
        ),
        TypeKind::LogicalFunction { parameters, result } => fields_have_open_proof(parameters, locals)
            || has_open_proof(result, locals),
        _ => false,
    }
}

/// Whether any field's type holds an open proof.
fn fields_have_open_proof(fields: &Vec<TypeField>, locals: &Types) -> (result: bool)
    ensures
        result == fields_open(fields@, locals.entries@),
    decreases fields,
{
    let mut index: usize = 0;
    while index < fields.len()
        invariant
            index <= fields@.len(),
            !fields_open(fields@.take(index as int), locals.entries@),
        decreases fields.len() - index,
    {
        assert(fields@.take(index + 1).drop_last() =~= fields@.take(index as int));
        if has_open_proof(&fields[index].ty, locals) {
            proof {
                lemma_fields_open_prefix(fields@, index + 1, locals.entries@);
            }
            return true;
        }
        index += 1;
    }
    assert(fields@.take(index as int) =~= fields@);
    false
}

/// Whether any type holds an open proof.
fn types_have_open_proof(types: &Vec<Type>, locals: &Types) -> (result: bool)
    ensures
        result == types_open(types@, locals.entries@),
    decreases types,
{
    let mut index: usize = 0;
    while index < types.len()
        invariant
            index <= types@.len(),
            !types_open(types@.take(index as int), locals.entries@),
        decreases types.len() - index,
    {
        assert(types@.take(index + 1).drop_last() =~= types@.take(index as int));
        if has_open_proof(&types[index], locals) {
            proof {
                lemma_types_open_prefix(types@, index + 1, locals.entries@);
            }
            return true;
        }
        index += 1;
    }
    assert(types@.take(index as int) =~= types@);
    false
}

/// A prefix of fields with an open proof leaves the fields with one.
proof fn lemma_fields_open_prefix(fields: Seq<TypeField>, count: int, locals: Seq<(String, Type)>)
    requires
        0 <= count <= fields.len(),
        fields_open(fields.take(count), locals),
    ensures
        fields_open(fields, locals),
    decreases fields.len(),
{
    if count < fields.len() {
        assert(fields.drop_last().take(count) =~= fields.take(count));
        lemma_fields_open_prefix(fields.drop_last(), count, locals);
    } else {
        assert(fields.take(count) =~= fields);
    }
}

/// A prefix of types with an open proof leaves the types with one.
proof fn lemma_types_open_prefix(types: Seq<Type>, count: int, locals: Seq<(String, Type)>)
    requires
        0 <= count <= types.len(),
        types_open(types.take(count), locals),
    ensures
        types_open(types, locals),
    decreases types.len(),
{
    if count < types.len() {
        assert(types.drop_last().take(count) =~= types.take(count));
        lemma_types_open_prefix(types.drop_last(), count, locals);
    } else {
        assert(types.take(count) =~= types);
    }
}

/// The generic parameters of a declaration, lifetimes included.
fn all_parameters(declaration: &Declaration) -> (result: Vec<GenericParameter>)
    ensures
        result@.len() == declaration.generics().len(),
        forall|i: int| 0 <= i < result@.len() ==> #[trigger] result@[i].lifetime == declaration.generics()[i].lifetime,
{
    match &declaration.kind {
        DeclarationKind::Function { generics, .. } => copy_generic_parameters(generics),
        DeclarationKind::Struct { generics, .. } => copy_generic_parameters(generics),
        DeclarationKind::Enum { generics, .. } => copy_generic_parameters(generics),
        DeclarationKind::Prop { generics, .. } => copy_generic_parameters(generics),
        _ => Vec::new(),
    }
}

/// The type parameters of a declaration: its generic parameters but the
/// lifetimes.
fn parameters(declaration: &Declaration) -> (result: Vec<GenericParameter>)
    ensures
        result@.len() == 0 <==> declaration.is_monomorphic(),
{
    let all = all_parameters(declaration);
    let mut result: Vec<GenericParameter> = Vec::new();
    let mut index: usize = 0;
    while index < all.len()
        invariant
            index <= all@.len(),
            all@.len() == declaration.generics().len(),
            forall|i: int| 0 <= i < all@.len() ==> #[trigger] all@[i].lifetime == declaration.generics()[i].lifetime,
            result@.len() == 0 <==> (forall|i: int| 0 <= i < index ==> (#[trigger] all@[i]).lifetime),
        decreases all.len() - index,
    {
        if !all[index].lifetime {
            result.push(all[index].copy());
        }
        index += 1;
    }
    proof {
        if result@.len() == 0 {
            assert forall|i: int| 0 <= i < declaration.generics().len() implies (
            #[trigger] declaration.generics()[i]).lifetime by {
                assert(all@[i].lifetime);
            }
        } else if declaration.is_monomorphic() {
            assert forall|i: int| 0 <= i < index implies (#[trigger] all@[i]).lifetime by {
                assert(declaration.generics()[i].lifetime);
            }
        }
    }
    result
}

/// Whether a declaration has a generic parameter that is a lifetime.
fn has_lifetime(declaration: &Declaration) -> (result: bool)
    ensures
        result == exists|i: int| 0 <= i < declaration.generics().len() && (#[trigger] declaration.generics()[i]).lifetime,
{
    let all = all_parameters(declaration);
    let mut index: usize = 0;
    while index < all.len()
        invariant
            index <= all@.len(),
            all@.len() == declaration.generics().len(),
            forall|i: int| 0 <= i < all@.len() ==> #[trigger] all@[i].lifetime == declaration.generics()[i].lifetime,
            forall|i: int| 0 <= i < index ==> !(#[trigger] declaration.generics()[i]).lifetime,
        decreases all.len() - index,
    {
        if all[index].lifetime {
            assert(declaration.generics()[index as int].lifetime);
            return true;
        }
        index += 1;
    }
    false
}

/// The name a declaration declares.
fn declaration_name(declaration: &Declaration) -> (result: Option<&Name>)
    ensures
        match result {
            Some(name) => declaration.declared() == Some(name.text@),
            None => declaration.declared() is None,
        },
{
    match &declaration.kind {
        DeclarationKind::Function { name, .. } => Some(name),
        DeclarationKind::Struct { name, .. } => Some(name),
        DeclarationKind::Enum { name, .. } => Some(name),
        DeclarationKind::Prop { name, .. } => Some(name),
        DeclarationKind::Constant { name, .. } => Some(name),
        _ => None,
    }
}

/// The lifetimes among generic parameters.
fn lifetimes_only(generics: Vec<GenericParameter>) -> (result: Vec<GenericParameter>)
    ensures
        forall|i: int| 0 <= i < result@.len() ==> (#[trigger] result@[i]).lifetime,
        same_generic_parameters(lifetime_parameters(generics@, generics@.len() as int), result@),
{
    let mut result: Vec<GenericParameter> = Vec::new();
    let mut index: usize = 0;
    while index < generics.len()
        invariant
            index <= generics@.len(),
            forall|i: int| 0 <= i < result@.len() ==> (#[trigger] result@[i]).lifetime,
            same_generic_parameters(lifetime_parameters(generics@, index as int), result@),
        decreases generics.len() - index,
    {
        let ghost kept = result@;
        let ghost before = lifetime_parameters(generics@, index as int);
        if generics[index].lifetime {
            result.push(generics[index].copy());
            assert(lifetime_parameters(generics@, index + 1) == before.push(generics@[index as int]));
            assert forall|i: int| 0 <= i < result@.len() implies #[trigger] same_generic_parameter(
                lifetime_parameters(generics@, index + 1)[i],
                result@[i],
            ) by {
                if i < kept.len() {
                    assert(same_generic_parameter(before[i], kept[i]));
                }
            }
        }
        index += 1;
    }
    result
}

/// The lifetime parameters among the first `count` generic parameters, in
/// order.
pub open spec fn lifetime_parameters(generics: Seq<GenericParameter>, count: int) -> Seq<GenericParameter>
    decreases count,
{
    if count <= 0 {
        Seq::empty()
    } else if generics[count - 1].lifetime {
        lifetime_parameters(generics, count - 1).push(generics[count - 1])
    } else {
        lifetime_parameters(generics, count - 1)
    }
}

/// The lifetime types among the first `count` types, in order.
pub open spec fn lifetime_types(types: Seq<Type>, count: int) -> Seq<Type>
    decreases count,
{
    if count <= 0 {
        Seq::empty()
    } else if types[count - 1].kind is Lifetime {
        lifetime_types(types, count - 1).push(types[count - 1])
    } else {
        lifetime_types(types, count - 1)
    }
}

/// A template renamed as an instance, with its type parameters gone and its
/// lifetimes kept.
fn rename_instance(declaration: Declaration, instance: &str) -> (result: Declaration)
    ensures
        result.is_monomorphic(),
        declaration.generics().len() > 0 ==> result.declared() == Some(instance@),
{
    let Declaration { doc, attributes, visibility, kind, span } = declaration;
    let renamed = String::from_str(instance);
    let kind = match kind {
        DeclarationKind::Function { logical, generics, name, self_param, parameters, result, body } => {
            DeclarationKind::Function {
                logical,
                generics: lifetimes_only(generics),
                name: Name { text: renamed, span: name.span },
                self_param,
                parameters,
                result,
                body,
            }
        },
        DeclarationKind::Struct { generics, name, fields } => DeclarationKind::Struct {
            generics: lifetimes_only(generics),
            name: Name { text: renamed, span: name.span },
            fields,
        },
        DeclarationKind::Enum { generics, name, variants } => DeclarationKind::Enum {
            generics: lifetimes_only(generics),
            name: Name { text: renamed, span: name.span },
            variants,
        },
        DeclarationKind::Prop { generics, name, parameters, variants } => DeclarationKind::Prop {
            generics: lifetimes_only(generics),
            name: Name { text: renamed, span: name.span },
            parameters,
            variants,
        },
        other => other,
    };
    Declaration { doc, attributes, visibility, kind, span }
}

/// The type a name names.
fn named_type(name: &Name) -> (result: Type)
    ensures
        result.kind == TypeKind::Named(*name),
        result.span == name.span,
{
    Type { kind: TypeKind::Named(name.copy()), span: name.span }
}

/// Whether every type is a lifetime.
fn all_lifetimes(types: &Vec<Type>) -> (result: bool)
    ensures
        result == forall|i: int| 0 <= i < types@.len() ==> (#[trigger] types@[i]).kind is Lifetime,
{
    let mut index: usize = 0;
    while index < types.len()
        invariant
            index <= types@.len(),
            forall|i: int| 0 <= i < index ==> (#[trigger] types@[i]).kind is Lifetime,
        decreases types.len() - index,
    {
        if !matches!(types[index].kind, TypeKind::Lifetime(_)) {
            return false;
        }
        index += 1;
    }
    true
}

/// The lifetimes among types.
fn lifetimes_of(types: &Vec<Type>) -> (result: Vec<Type>)
    ensures
        same_types(lifetime_types(types@, types@.len() as int), result@),
{
    let mut result: Vec<Type> = Vec::new();
    let mut index: usize = 0;
    while index < types.len()
        invariant
            index <= types@.len(),
            result@.len() == lifetime_types(types@, index as int).len(),
            forall|i: int|
                #![trigger result@[i]]
                0 <= i < result@.len() ==> same_type(lifetime_types(types@, index as int)[i], result@[i]),
        decreases types.len() - index,
    {
        let ghost kept = result@;
        let ghost before = lifetime_types(types@, index as int);
        if matches!(types[index].kind, TypeKind::Lifetime(_)) {
            result.push(types[index].copy());
            assert(lifetime_types(types@, index + 1) == before.push(types@[index as int]));
            assert forall|i: int| #![trigger result@[i]] 0 <= i < result@.len() implies same_type(
                lifetime_types(types@, index + 1)[i],
                result@[i],
            ) by {
                if i < kept.len() {
                    assert(result@[i] == kept[i]);
                }
            }
        }
        index += 1;
    }
    result
}

/// The name of the struct, enum or parameter a type refers to: a bare name,
/// or a path of one segment with only lifetime arguments, seen through
/// parentheses and references.
pub open spec fn type_name_of(ty: Type) -> Option<Name>
    decreases ty,
{
    match ty.kind {
        TypeKind::Named(name) => Some(name),
        TypeKind::Path { path, arguments } => if (forall|i: int|
            0 <= i < arguments@.len() ==> (#[trigger] arguments@[i]).kind is Lifetime) && path.segments@.len()
            == 1 {
            Some(path.segments@[0])
        } else {
            None
        },
        TypeKind::Group(inner) => type_name_of(*inner),
        TypeKind::Ref { inner, .. } => type_name_of(*inner),
        _ => None,
    }
}

/// The name of a struct or enum type a type refers to.
fn name_of_type(ty: &Type) -> (result: Option<&Name>)
    ensures
        match result {
            Some(name) => type_name_of(*ty) == Some(*name),
            None => type_name_of(*ty) is None,
        },
    decreases ty,
{
    match &ty.kind {
        TypeKind::Named(name) => Some(name),
        TypeKind::Path { path, arguments } => {
            if all_lifetimes(arguments) {
                path.single()
            } else {
                None
            }
        },
        TypeKind::Group(inner) => name_of_type(inner),
        TypeKind::Ref { inner, .. } => name_of_type(inner),
        _ => None,
    }
}

/// The path an expression names, if it is a name or a path.
fn expr_path(expr: &Expr) -> (result: Option<Path>)
    ensures
        match expr.kind {
            ExprKind::Name(name) => result matches Some(path) && path.segments@ == seq![name] && path.span
                == expr.span,
            ExprKind::Path(path) => result matches Some(copied) && copied.segments@ == path.segments@
                && copied.span == path.span,
            _ => result is None,
        },
{
    match &expr.kind {
        ExprKind::Name(name) => Some(Path { segments: vec![name.copy()], span: expr.span }),
        ExprKind::Path(path) => Some(path.copy()),
        _ => None,
    }
}

/// Whether a declaration derives `Logical`.
fn derives_logical(declaration: &Declaration) -> (result: bool)
    ensures
        result == exists|i: int| 0 <= i < declaration.attributes@.len() && #[trigger] derives_logical_in(
            declaration.attributes@[i],
        ),
{
    let mut index: usize = 0;
    while index < declaration.attributes.len()
        invariant
            index <= declaration.attributes@.len(),
            forall|i: int| 0 <= i < index ==> !#[trigger] derives_logical_in(declaration.attributes@[i]),
        decreases declaration.attributes.len() - index,
    {
        if let AttributeKind::Derive(paths) = &declaration.attributes[index].kind {
            let mut at: usize = 0;
            while at < paths.len()
                invariant
                    at <= paths@.len(),
                    index < declaration.attributes@.len(),
                    declaration.attributes@[index as int].kind == AttributeKind::Derive(*paths),
                    forall|j: int| 0 <= j < at ==> joined((#[trigger] paths@[j]).segments@) != "Logical"@,
                decreases paths.len() - at,
            {
                if same_text(paths[at].text().as_str(), "Logical") {
                    assert(joined(paths@[at as int].segments@) == "Logical"@);
                    assert(declaration.attributes@[index as int].kind->Derive_0@[at as int] == paths@[at as int]);
                    assert(derives_logical_in(declaration.attributes@[index as int]));
                    return true;
                }
                at += 1;
            }
        }
        index += 1;
    }
    false
}

/// Whether an attribute is a `derive` that lists `Logical`.
pub open spec fn derives_logical_in(attribute: Attribute) -> bool {
    &&& attribute.kind is Derive
    &&& exists|j: int|
        0 <= j < attribute.kind->Derive_0@.len() && joined((#[trigger] attribute.kind->Derive_0@[j]).segments@)
            == "Logical"@
}

/// Whether a type names a type parameter: by itself, or in one of the types
/// it is built from (not in an array's length or a proof type's claim).
pub open spec fn type_mentions(ty: Type, name: Seq<char>) -> bool
    decreases ty,
{
    match ty.kind {
        TypeKind::Named(found) => found.text@ == name,
        TypeKind::Path { arguments, .. } => exists|i: int|
            #![trigger arguments@[i]] 0 <= i < arguments@.len() && type_mentions(arguments@[i], name),
        TypeKind::Group(inner) => type_mentions(*inner, name),
        TypeKind::Ref { inner, .. } => type_mentions(*inner, name),
        TypeKind::Slice(inner) => type_mentions(*inner, name),
        TypeKind::Array { element, .. } => type_mentions(*element, name),
        TypeKind::Tuple(fields) => exists|i: int|
            #![trigger fields@[i]] 0 <= i < fields@.len() && type_mentions(fields@[i].ty, name),
        TypeKind::Function { parameters, result } => (exists|i: int|
            #![trigger parameters@[i]] 0 <= i < parameters@.len() && type_mentions(parameters@[i].ty, name))
            || type_mentions(*result, name),
        TypeKind::LogicalFunction { parameters, result } => (exists|i: int|
            #![trigger parameters@[i]] 0 <= i < parameters@.len() && type_mentions(parameters@[i].ty, name))
            || type_mentions(*result, name),
        _ => false,
    }
}

/// Whether a type mentions a type parameter by name.
fn mentions(ty: &Type, name: &str) -> (result: bool)
    ensures
        result == type_mentions(*ty, name@),
    decreases ty,
{
    match &ty.kind {
        TypeKind::Named(found) => {
            let r = same_text(found.text.as_str(), name);
            assert(r == type_mentions(*ty, name@));
            r
        },
        TypeKind::Path { arguments, .. } => {
            let r = types_mention(arguments, name);
            assert(type_mentions(*ty, name@) == (exists|i: int|
                #![trigger ty.kind->arguments@[i]]
                0 <= i < ty.kind->arguments@.len() && type_mentions(ty.kind->arguments@[i], name@)));
            assert(r == type_mentions(*ty, name@));
            r
        },
        TypeKind::Group(inner) => mentions(inner, name),
        TypeKind::Ref { inner, .. } => mentions(inner, name),
        TypeKind::Slice(inner) => mentions(inner, name),
        TypeKind::Array { element, .. } => mentions(element, name),
        TypeKind::Tuple(fields) => {
            let r = fields_mention(fields, name);
            assert(type_mentions(*ty, name@) == (exists|i: int|
                #![trigger ty.kind->Tuple_0@[i]]
                0 <= i < ty.kind->Tuple_0@.len() && type_mentions(ty.kind->Tuple_0@[i].ty, name@)));
            r
        },
        TypeKind::Function { parameters, result } => {
            let r = fields_mention(parameters, name) || mentions(result, name);
            assert(type_mentions(*ty, name@) == ((exists|i: int|
                #![trigger ty.kind->Function_parameters@[i]]
                0 <= i < ty.kind->Function_parameters@.len() && type_mentions(
                    ty.kind->Function_parameters@[i].ty,
                    name@,
                )) || type_mentions(*ty.kind->Function_result, name@)));
            r
        },
        TypeKind::LogicalFunction { parameters, result } => {
            let r = fields_mention(parameters, name) || mentions(result, name);
            assert(type_mentions(*ty, name@) == ((exists|i: int|
                #![trigger ty.kind->LogicalFunction_parameters@[i]]
                0 <= i < ty.kind->LogicalFunction_parameters@.len() && type_mentions(
                    ty.kind->LogicalFunction_parameters@[i].ty,
                    name@,
                )) || type_mentions(*ty.kind->LogicalFunction_result, name@)));
            r
        },
        _ => false,
    }
}

/// Whether any type mentions a type parameter.
fn types_mention(types: &Vec<Type>, name: &str) -> (result: bool)
    ensures
        result == exists|i: int| 0 <= i < types@.len() && #[trigger] type_mentions(types@[i], name@),
    decreases types,
{
    let mut index: usize = 0;
    while index < types.len()
        invariant
            index <= types@.len(),
            forall|i: int| 0 <= i < index ==> !#[trigger] type_mentions(types@[i], name@),
        decreases types.len() - index,
    {
        if mentions(&types[index], name) {
            return true;
        }
        index += 1;
    }
    false
}

/// Whether any field's type mentions a type parameter.
fn fields_mention(fields: &Vec<TypeField>, name: &str) -> (result: bool)
    ensures
        result == exists|i: int| 0 <= i < fields@.len() && #[trigger] type_mentions(fields@[i].ty, name@),
    decreases fields,
{
    let mut index: usize = 0;
    while index < fields.len()
        invariant
            index <= fields@.len(),
            forall|i: int| 0 <= i < index ==> !#[trigger] type_mentions(fields@[i].ty, name@),
        decreases fields.len() - index,
    {
        if mentions(&fields[index].ty, name) {
            return true;
        }
        index += 1;
    }
    false
}

/// Evidence does not store a runtime value of each type named in its claim;
/// the payloads of structs and enums do.
fn stores_parameter(declaration: &Declaration, name: &str) -> (result: bool)
    ensures
        declaration.kind is Struct ==> result == exists|i: int|
            0 <= i < declaration.kind->Struct_fields@.len() && #[trigger] type_mentions(
                declaration.kind->Struct_fields@[i].ty,
                name@,
            ),
        declaration.kind is Enum ==> result == exists|i: int, j: int|
            0 <= i < declaration.kind->Enum_variants@.len() && 0 <= j
                < declaration.kind->Enum_variants@[i].fields@.len() && #[trigger] type_mentions(
                declaration.kind->Enum_variants@[i].fields@[j].ty,
                name@,
            ),
        !(declaration.kind is Struct) && !(declaration.kind is Enum) ==> !result,
{
    match &declaration.kind {
        DeclarationKind::Struct { fields, .. } => {
            let mut index: usize = 0;
            while index < fields.len()
                invariant
                    index <= fields@.len(),
                    declaration.kind is Struct,
                    *fields == declaration.kind->Struct_fields,
                    forall|i: int| 0 <= i < index ==> !#[trigger] type_mentions(fields@[i].ty, name@),
                decreases fields.len() - index,
            {
                if mentions(&fields[index].ty, name) {
                    return true;
                }
                index += 1;
            }
            false
        },
        DeclarationKind::Enum { variants, .. } => {
            let mut index: usize = 0;
            while index < variants.len()
                invariant
                    index <= variants@.len(),
                    declaration.kind is Enum,
                    *variants == declaration.kind->Enum_variants,
                    forall|i: int, j: int|
                        0 <= i < index && 0 <= j < variants@[i].fields@.len() ==> !#[trigger] type_mentions(
                            variants@[i].fields@[j].ty,
                            name@,
                        ),
                decreases variants.len() - index,
            {
                if fields_mention(&variants[index].fields, name) {
                    return true;
                }
                index += 1;
            }
            false
        },
        _ => false,
    }
}

/// Whether an expression applies the prelude's `ForAll` (or `Exists`),
/// with the parameter's type as its type argument, to one closure.
spec fn applies_quantifier(expr: Expr, universal: bool, parameter: Parameter) -> bool {
    match expr.kind {
        ExprKind::Call { callee, arguments } => arguments@.len() == 1 && match callee.kind {
            ExprKind::GenericApply { callee: head, arguments: types } => types@.len() == 1 && same_type(
                parameter.ty,
                types@[0],
            ) && match head.kind {
                ExprKind::Name(name) => name.text@ == (if universal {
                    "ForAll"@
                } else {
                    "Exists"@
                }),
                _ => false,
            },
            _ => false,
        },
        _ => false,
    }
}

/// The quantifier keywords are read as the generic prelude's `ForAll` and
/// `Exists` applied to closures, one per parameter, innermost last.
fn quantifier_expression(universal: bool, parameters: Vec<Parameter>, tail: Expr, body_span: Span, span: Span) -> (result: Expr)
    ensures
        expr_weight(result) == 1 + expr_weight(tail) + 4 * parameters@.len(),
        parameters@.len() > 0 ==> applies_quantifier(result, universal, parameters@[0]),
        parameters@.len() == 0 ==> result.kind is Form,
{
    let mut arguments: Vec<Expr> = Vec::new();
    arguments.push(tail);
    proof {
        assert(arguments@.drop_last() =~= Seq::<Expr>::empty());
        assert(exprs_weight(Seq::<Expr>::empty()) == 0);
        assert(exprs_weight(arguments@) == expr_weight(tail));
    }
    let mut predicate_body = Expr {
        span: body_span,
        kind: ExprKind::Form { form: Form::Prop, name_span: span, arguments, source_hint: None },
    };
    assert(expr_weight(predicate_body) == 1 + expr_weight(tail));
    let mut index = parameters.len();
    while index > 0
        invariant
            index <= parameters@.len(),
            expr_weight(predicate_body) == 1 + expr_weight(tail) + 4 * (parameters@.len() - index),
            index == parameters@.len() ==> predicate_body.kind is Form,
            index < parameters@.len() ==> applies_quantifier(predicate_body, universal, parameters@[index as int]),
        decreases index,
    {
        index -= 1;
        let parameter = &parameters[index];
        let text = if universal {
            String::from_str("ForAll")
        } else {
            String::from_str("Exists")
        };
        let callee = Expr {
            span,
            kind: ExprKind::GenericApply {
                callee: Box::new(Expr { span, kind: ExprKind::Name(Name { text, span }) }),
                arguments: vec![parameter.ty.copy()],
            },
        };
        let ghost inner = expr_weight(predicate_body);
        let closure = Expr {
            span,
            kind: ExprKind::Closure { parameters: vec![parameter.copy()], body: Box::new(predicate_body) },
        };
        assert(expr_weight(closure) == 1 + inner);
        let mut call_arguments: Vec<Expr> = Vec::new();
        call_arguments.push(closure);
        proof {
            assert(call_arguments@.drop_last() =~= Seq::<Expr>::empty());
            assert(exprs_weight(Seq::<Expr>::empty()) == 0);
            assert(exprs_weight(call_arguments@) == expr_weight(closure));
        }
        assert(expr_weight(callee) == 2) by {
            if let ExprKind::GenericApply { callee: inner_callee, .. } = callee.kind {
                assert(expr_weight(*inner_callee) == 1);
            }
        }
        predicate_body = Expr { span, kind: ExprKind::Call { callee: Box::new(callee), arguments: call_arguments } };
        assert(expr_weight(predicate_body) == inner + 4);
    }
    predicate_body
}

/// Infers the type parameters of a template from a type it is expected to
/// have.
fn infer_type_arguments(
    template: &Type,
    actual: &Type,
    parameters: &Vec<String>,
    inferred: &mut Types,
    origins: &Vec<(String, String, Vec<Type>)>,
)
    decreases template, type_rank(*actual),
{
    if let TypeKind::Path { path, arguments } = &actual.kind {
        if all_lifetimes(arguments) && origin_of(origins, path.text().as_str()).is_some() {
            let nominal = Type {
                span: actual.span,
                kind: TypeKind::Named(Name { text: path.text(), span: path.span }),
            };
            infer_type_arguments(template, &nominal, parameters, inferred, origins);
            return;
        }
    }
    match (&template.kind, &actual.kind) {
        (TypeKind::Path { path, arguments }, TypeKind::Named(name)) => {
            if let Some(index) = origin_of(origins, name.text.as_str()) {
                let origin = &origins[index];
                if same_text(origin.1.as_str(), path.text().as_str()) {
                    infer_from_arguments(arguments, &origin.2, parameters, inferred, origins);
                }
                return;
            }
            return;
        },
        (TypeKind::Named(name), _) => {
            if holds_text(parameters, name.text.as_str()) {
                if !inferred.contains(name.text.as_str()) {
                    inferred.insert(name.text.clone(), actual.copy());
                }
                return;
            }
        },
        _ => {},
    }
    match (&template.kind, &actual.kind) {
        (TypeKind::Group(inner), _) => infer_type_arguments(inner, actual, parameters, inferred, origins),
        (_, TypeKind::Group(inner)) => infer_type_arguments(template, inner, parameters, inferred, origins),
        (TypeKind::Ref { inner: left, .. }, TypeKind::Ref { inner: right, .. }) => {
            infer_type_arguments(left, right, parameters, inferred, origins)
        },
        (
            TypeKind::LogicalFunction { parameters: left, result: left_result },
            TypeKind::LogicalFunction { parameters: right, result: right_result },
        ) => {
            infer_fields(left, right, parameters, inferred, origins);
            infer_type_arguments(left_result, right_result, parameters, inferred, origins);
        },
        (TypeKind::Tuple(left), TypeKind::Tuple(right)) => infer_fields(left, right, parameters, inferred, origins),
        _ => {},
    }
}

/// Infers type parameters from the type arguments of a template's
/// application, lifetimes left out, against those an instance was made for.
fn infer_from_arguments(
    arguments: &Vec<Type>,
    actual: &Vec<Type>,
    parameters: &Vec<String>,
    inferred: &mut Types,
    origins: &Vec<(String, String, Vec<Type>)>,
)
    decreases arguments, 0nat,
{
    let mut at: usize = 0;
    let mut taken: usize = 0;
    while at < arguments.len()
        invariant
            at <= arguments@.len(),
        decreases arguments.len() - at,
    {
        if !matches!(arguments[at].kind, TypeKind::Lifetime(_)) {
            if taken < actual.len() {
                infer_type_arguments(&arguments[at], &actual[taken], parameters, inferred, origins);
                taken += 1;
            }
        }
        at += 1;
    }
}

/// Infers type parameters from fields, one against one.
fn infer_fields(
    left: &Vec<TypeField>,
    right: &Vec<TypeField>,
    parameters: &Vec<String>,
    inferred: &mut Types,
    origins: &Vec<(String, String, Vec<Type>)>,
)
    decreases left, 0nat,
{
    let mut index: usize = 0;
    while index < left.len() && index < right.len()
        invariant
            index <= left@.len(),
        decreases left.len() - index,
    {
        infer_type_arguments(&left[index].ty, &right[index].ty, parameters, inferred, origins);
        index += 1;
    }
}

/// Whether a field's name is the one given, both possibly absent.
pub open spec fn same_field_name(found: Option<Name>, wanted: Option<&Name>) -> bool {
    match (found, wanted) {
        (Some(found), Some(wanted)) => found.text@ == wanted.text@,
        (None, None) => true,
        _ => false,
    }
}

/// The entry of an instance among the origins.
fn origin_of(origins: &Vec<(String, String, Vec<Type>)>, name: &str) -> (result: Option<usize>)
    ensures
        match result {
            Some(index) => index < origins@.len() && origins@[index as int].0@ == name@ && forall|i: int|
                0 <= i < index ==> (#[trigger] origins@[i]).0@ != name@,
            None => forall|i: int| 0 <= i < origins@.len() ==> (#[trigger] origins@[i]).0@ != name@,
        },
{
    let mut index: usize = 0;
    while index < origins.len()
        invariant
            index <= origins@.len(),
            forall|i: int| 0 <= i < index ==> (#[trigger] origins@[i]).0@ != name@,
        decreases origins.len() - index,
    {
        if same_text(origins[index].0.as_str(), name) {
            return Some(index);
        }
        index += 1;
    }
    None
}


/// Two lists of expressions weigh together what they weigh apart.
proof fn lemma_exprs_concat(left: Seq<Expr>, right: Seq<Expr>)
    ensures
        exprs_weight(left + right) == exprs_weight(left) + exprs_weight(right),
    decreases right.len(),
{
    if right.len() == 0 {
        assert(left + right =~= left);
    } else {
        lemma_exprs_concat(left, right.drop_last());
        assert((left + right).drop_last() =~= left + right.drop_last());
    }
}

/// Two lists of statements weigh together what they weigh apart.
proof fn lemma_statements_concat(left: Seq<Statement>, right: Seq<Statement>)
    ensures
        statements_weight(left + right) == statements_weight(left) + statements_weight(right),
    decreases right.len(),
{
    if right.len() == 0 {
        assert(left + right =~= left);
    } else {
        lemma_statements_concat(left, right.drop_last());
        assert((left + right).drop_last() =~= left + right.drop_last());
    }
}

/// Two lists of arms weigh together what they weigh apart.
proof fn lemma_arms_concat(left: Seq<MatchArm>, right: Seq<MatchArm>)
    ensures
        arms_weight(left + right) == arms_weight(left) + arms_weight(right),
    decreases right.len(),
{
    if right.len() == 0 {
        assert(left + right =~= left);
    } else {
        lemma_arms_concat(left, right.drop_last());
        assert((left + right).drop_last() =~= left + right.drop_last());
    }
}

/// Two lists of fields weigh together what they weigh apart.
proof fn lemma_value_fields_concat(left: Seq<ValueField>, right: Seq<ValueField>)
    ensures
        value_fields_weight(left + right) == value_fields_weight(left) + value_fields_weight(right),
    decreases right.len(),
{
    if right.len() == 0 {
        assert(left + right =~= left);
    } else {
        lemma_value_fields_concat(left, right.drop_last());
        assert((left + right).drop_last() =~= left + right.drop_last());
    }
}

/// Two lists of patterns weigh together what they weigh apart.
proof fn lemma_patterns_concat(left: Seq<Pattern>, right: Seq<Pattern>)
    ensures
        patterns_weight(left + right) == patterns_weight(left) + patterns_weight(right),
    decreases right.len(),
{
    if right.len() == 0 {
        assert(left + right =~= left);
    } else {
        lemma_patterns_concat(left, right.drop_last());
        assert((left + right).drop_last() =~= left + right.drop_last());
    }
}

/// Two lists of pattern fields weigh together what they weigh apart.
proof fn lemma_pattern_fields_concat(left: Seq<PatternField>, right: Seq<PatternField>)
    ensures
        pattern_fields_weight(left + right) == pattern_fields_weight(left) + pattern_fields_weight(right),
    decreases right.len(),
{
    if right.len() == 0 {
        assert(left + right =~= left);
    } else {
        lemma_pattern_fields_concat(left, right.drop_last());
        assert((left + right).drop_last() =~= left + right.drop_last());
    }
}

/// A list weighs its first element and the rest.
proof fn lemma_exprs_first(s: Seq<Expr>)
    requires
        s.len() > 0,
    ensures
        exprs_weight(s) == expr_weight(s[0]) + exprs_weight(s.drop_first()),
{
    let head = seq![s[0]];
    assert(s =~= head + s.drop_first());
    lemma_exprs_concat(head, s.drop_first());
    assert(head.drop_last() =~= Seq::<Expr>::empty());
    assert(exprs_weight(Seq::<Expr>::empty()) == 0);
    assert(head.last() == s[0]);
}

/// A list weighs its first element and the rest.
proof fn lemma_statements_first(s: Seq<Statement>)
    requires
        s.len() > 0,
    ensures
        statements_weight(s) == statement_weight(s[0]) + statements_weight(s.drop_first()),
{
    let head = seq![s[0]];
    assert(s =~= head + s.drop_first());
    lemma_statements_concat(head, s.drop_first());
    assert(head.drop_last() =~= Seq::<Statement>::empty());
    assert(statements_weight(Seq::<Statement>::empty()) == 0);
    assert(head.last() == s[0]);
}

/// A list weighs its first element and the rest.
proof fn lemma_arms_first(s: Seq<MatchArm>)
    requires
        s.len() > 0,
    ensures
        arms_weight(s) == pattern_weight(s[0].pattern) + expr_weight(s[0].body) + arms_weight(s.drop_first()),
{
    let head = seq![s[0]];
    assert(s =~= head + s.drop_first());
    lemma_arms_concat(head, s.drop_first());
    assert(head.drop_last() =~= Seq::<MatchArm>::empty());
    assert(arms_weight(Seq::<MatchArm>::empty()) == 0);
    assert(head.last() == s[0]);
}

/// A list weighs its first element and the rest.
proof fn lemma_value_fields_first(s: Seq<ValueField>)
    requires
        s.len() > 0,
    ensures
        value_fields_weight(s) == expr_weight(s[0].value) + value_fields_weight(s.drop_first()),
{
    let head = seq![s[0]];
    assert(s =~= head + s.drop_first());
    lemma_value_fields_concat(head, s.drop_first());
    assert(head.drop_last() =~= Seq::<ValueField>::empty());
    assert(value_fields_weight(Seq::<ValueField>::empty()) == 0);
    assert(head.last() == s[0]);
}

/// A list weighs its first element and the rest.
proof fn lemma_patterns_first(s: Seq<Pattern>)
    requires
        s.len() > 0,
    ensures
        patterns_weight(s) == pattern_weight(s[0]) + patterns_weight(s.drop_first()),
{
    let head = seq![s[0]];
    assert(s =~= head + s.drop_first());
    lemma_patterns_concat(head, s.drop_first());
    assert(head.drop_last() =~= Seq::<Pattern>::empty());
    assert(patterns_weight(Seq::<Pattern>::empty()) == 0);
    assert(head.last() == s[0]);
}

/// A list weighs its first element and the rest.
proof fn lemma_pattern_fields_first(s: Seq<PatternField>)
    requires
        s.len() > 0,
    ensures
        pattern_fields_weight(s) == pattern_weight(s[0].pattern) + pattern_fields_weight(s.drop_first()),
{
    let head = seq![s[0]];
    assert(s =~= head + s.drop_first());
    lemma_pattern_fields_concat(head, s.drop_first());
    assert(head.drop_last() =~= Seq::<PatternField>::empty());
    assert(pattern_fields_weight(Seq::<PatternField>::empty()) == 0);
    assert(head.last() == s[0]);
}

/// The pass that expands generic declarations into their instances.
struct Specializer<'a> {
    previews: &'a Previews,
    /// The generic declarations, by name.
    templates: Vec<(String, Declaration)>,
    /// Every declaration by name, with the substitutions of an instance.
    declarations: Vec<(String, Declaration, Types)>,
    /// The name of each instance, by its key.
    instances: Vec<(String, String)>,
    /// Each instance's template and type arguments, by the instance's name.
    origins: Vec<(String, String, Vec<Type>)>,
    /// The declarations still to expand, from `head` on.
    queue: Vec<(Declaration, Types)>,
    head: usize,
    /// Every name declared or given to an instance.
    names: Vec<String>,
    diagnostics: Vec<Diagnostic>,
    depth: usize,
    return_type: Option<Type>,
    model_serial: usize,
    quantifier_templates: Vec<String>,
    /// The names that instances avoid: those taken when the program and
    /// the prelude were registered.
    reserved: Ghost<Set<Seq<char>>>,
}

impl<'a> Specializer<'a> {
    /// The counts stay within their limits, and the queue's head within it.
    spec fn wf(&self) -> bool {
        &&& self.instances@.len() <= MAX_GENERIC_INSTANCES
        &&& self.depth <= MAX_GENERIC_TYPE_DEPTH
        &&& self.head <= self.queue@.len()
        &&& forall|i: int| 0 <= i < self.queue@.len() ==> (#[trigger] self.queue@[i]).0.is_monomorphic()
        &&& forall|k: int| 0 <= k < self.templates@.len() ==> (#[trigger] self.templates@[k]).1.generics().len() > 0
        &&& forall|text: Seq<char>| self.reserved@.contains(text) ==> holds(self.names@, text)
        &&& self.instances@.len() <= self.queue@.len()
        &&& forall|j: int|
            0 <= j < self.instances@.len() ==> {
                &&& !self.reserved@.contains((#[trigger] self.instances@[j]).1@)
                &&& holds(self.names@, self.instances@[j].1@)
                &&& self.queue@[self.queue@.len() - self.instances@.len() + j].0.declared() == Some(
                    self.instances@[j].1@,
                )
            }
        &&& forall|j: int, k: int|
            0 <= j < k < self.instances@.len() ==> (#[trigger] self.instances@[j]).1@ != (
            #[trigger] self.instances@[k]).1@
        &&& forall|j: int, k: int|
            0 <= j < k < self.instances@.len() ==> (#[trigger] self.instances@[j]).0@ != (
            #[trigger] self.instances@[k]).0@
    }

    /// How many more instances may be made.
    spec fn room(&self) -> int {
        MAX_GENERIC_INSTANCES - self.instances@.len()
    }

    /// How much deeper types may nest, doubled.
    spec fn height(&self) -> int {
        2 * (MAX_GENERIC_TYPE_DEPTH - self.depth)
    }
}

impl<'a> Specializer<'a> {
    /// Two instances of the pass are one exactly when the keys of their type
    /// arguments agree: uses of a template whose type arguments have
    /// different keys name different instances, and uses whose keys agree
    /// name the same one.
    proof fn lemma_instances_keyed(self, template: Seq<char>, first: Seq<Type>, second: Seq<Type>, j: int, k: int)
        requires
            self.wf(),
            0 <= j < self.instances@.len(),
            0 <= k < self.instances@.len(),
            self.instances@[j].0@ == instance_key(template, first),
            self.instances@[k].0@ == instance_key(template, second),
        ensures
            (self.instances@[j].1@ == self.instances@[k].1@) == (joined_keys(first) == joined_keys(second)),
    {
        lemma_instance_key_arguments(template, first, second);
        if joined_keys(first) == joined_keys(second) {
            if j < k {
                assert(self.instances@[j].0@ != self.instances@[k].0@);
            } else if k < j {
                assert(self.instances@[k].0@ != self.instances@[j].0@);
            }
        }
        if self.instances@[j].1@ == self.instances@[k].1@ {
            if j < k {
                assert(self.instances@[j].1@ != self.instances@[k].1@);
            } else if k < j {
                assert(self.instances@[k].1@ != self.instances@[j].1@);
            }
        }
    }
}

/// What a step of the pass keeps: the counts within their limits, the
/// instances only added to, the depth and the queue's head as they were, and
/// one declaration queued for each instance made.
spec fn kept<'a>(before: Specializer<'a>, after: Specializer<'a>) -> bool {
    &&& after.wf()
    &&& before.instances@.len() <= after.instances@.len()
    &&& after.depth == before.depth
    &&& after.head == before.head
    &&& after.queue@.len() - before.queue@.len() == after.instances@.len() - before.instances@.len()
    &&& forall|i: int| 0 <= i < before.queue@.len() ==> #[trigger] after.queue@[i] == before.queue@[i]
    &&& forall|i: int| 0 <= i < before.instances@.len() ==> #[trigger] after.instances@[i] == before.instances@[i]
    &&& after.reserved == before.reserved
}

impl<'a> Specializer<'a> {
    /// Reports an error of the pass.
    fn error(&mut self, message: String, span: Span)
        ensures
            *final(self) == (Specializer { diagnostics: final(self).diagnostics, ..*old(self) }),
            final(self).diagnostics@.len() == old(self).diagnostics@.len() + 1,
            final(self).diagnostics@.take(old(self).diagnostics@.len() as int) == old(self).diagnostics@,
            fresh(final(self).diagnostics@.last(), Level::Error, "L0281", message, span),
    {
        self.diagnostics.push(Diagnostic::error("L0281", message, span));
    }

    /// The template of a name.
    fn template(&self, name: &str) -> (result: Option<usize>)
        ensures
            match result {
                Some(index) => index < self.templates@.len() && self.templates@[index as int].0@ == name@ && forall|
                    i: int,
                | 0 <= i < index ==> (#[trigger] self.templates@[i]).0@ != name@,
                None => forall|i: int| 0 <= i < self.templates@.len() ==> (#[trigger] self.templates@[i]).0@ != name@,
            },
    {
        let mut index: usize = 0;
        while index < self.templates.len()
            invariant
                index <= self.templates@.len(),
                forall|i: int| 0 <= i < index ==> (#[trigger] self.templates@[i]).0@ != name@,
            decreases self.templates.len() - index,
        {
            if same_text(self.templates[index].0.as_str(), name) {
                return Some(index);
            }
            index += 1;
        }
        None
    }

    /// Whether a name is a template.
    fn is_template(&self, name: &str) -> (result: bool)
        ensures
            result == exists|i: int| 0 <= i < self.templates@.len() && (#[trigger] self.templates@[i]).0@ == name@,
    {
        self.template(name).is_some()
    }

    /// The declaration of a name.
    fn declared(&self, name: &str) -> (result: Option<usize>)
        ensures
            result == declared_at(self.declarations@, name@),
            result matches Some(index) ==> index < self.declarations@.len() && self.declarations@[index as int].0@
                == name@,
    {
        let mut index: usize = 0;
        while index < self.declarations.len()
            invariant
                index <= self.declarations@.len(),
                forall|i: int| 0 <= i < index ==> (#[trigger] self.declarations@[i]).0@ != name@,
            decreases self.declarations.len() - index,
        {
            if same_text(self.declarations[index].0.as_str(), name) {
                proof {
                    let declarations = self.declarations@;
                    assert(declarations[index as int].0@ == name@);
                    let c = choose|i: int|
                        0 <= i < declarations.len() && (#[trigger] declarations[i]).0@ == name@ && forall|j: int|
                            0 <= j < i ==> (#[trigger] declarations[j]).0@ != name@;
                    assert(c == index as int) by {
                        if c < index as int {
                            assert(declarations[c].0@ != name@);
                        }
                        if c > index as int {
                            assert(declarations[index as int].0@ != name@);
                        }
                    }
                }
                return Some(index);
            }
            index += 1;
        }
        None
    }

    /// Files a declaration under a name, replacing the one it had.
    fn declare(&mut self, name: String, declaration: Declaration, substitutions: Types)
        ensures
            *final(self) == (Specializer { declarations: final(self).declarations, ..*old(self) }),
            final(self).declarations@ == match declared_at(old(self).declarations@, name@) {
                Some(index) => old(self).declarations@.update(index as int, (name, declaration, substitutions)),
                None => old(self).declarations@.push((name, declaration, substitutions)),
            },
    {
        match self.declared(name.as_str()) {
            Some(index) => {
                self.declarations.set(index, (name, declaration, substitutions));
            },
            None => {
                self.declarations.push((name, declaration, substitutions));
            },
        }
    }

    /// Whether a preview that generics need is enabled; the error when not.
    fn gate(&mut self, span: Span) -> (result: bool)
        ensures
            *final(self) == (Specializer { diagnostics: final(self).diagnostics, ..*old(self) }),
            result == old(self).previews.enabled@.contains(Feature::LogicalData),
            result ==> final(self).diagnostics == old(self).diagnostics,
            !result ==> final(self).diagnostics@.len() == old(self).diagnostics@.len() + 1
                && final(self).diagnostics@.take(old(self).diagnostics@.len() as int) == old(self).diagnostics@
                && final(self).diagnostics@.last().level == Level::Error && final(self).diagnostics@.last().code
                == "L0280" && final(self).diagnostics@.last().labels@.len() == 1
                && final(self).diagnostics@.last().labels@[0].span == span,
    {
        match self.previews.require(Feature::LogicalData, "generic declaration or application", span) {
            Ok(()) => true,
            Err(diagnostic) => {
                self.diagnostics.push(diagnostic);
                false
            },
        }
    }

    /// Files a declaration: a generic one as a template, any other by its
    /// name.
    fn register(&mut self, declaration: Declaration, builtin: bool)
        requires
            old(self).wf(),
        ensures
            final(self).wf(),
            forall|text: Seq<char>| holds(old(self).names@, text) ==> holds(final(self).names@, text),
            declaration.declared() matches Some(text) ==> holds(final(self).names@, text),
            *final(self) == (Specializer {
                diagnostics: final(self).diagnostics,
                names: final(self).names,
                templates: final(self).templates,
                declarations: final(self).declarations,
                ..*old(self)
            }),
    {
        let name = match declaration_name(&declaration) {
            Some(name) => name.text.clone(),
            None => return,
        };
        let ghost before = self.names@;
        if insert_text(&mut self.names, name.clone()) {
            proof {
                lemma_holds_push(before, name);
            }
        }
        assert(forall|text: Seq<char>| holds(before, text) ==> holds(self.names@, text));
        assert(holds(self.names@, name@));
        if has_lifetime(&declaration) {
            if let Err(diagnostic) = self.previews.require(Feature::HeapViews, "lifetime parameters", declaration.span) {
                self.diagnostics.push(diagnostic);
            }
        }
        let params = parameters(&declaration);
        if params.len() == 0 {
            self.declare(name, declaration, Types::new());
            return;
        }
        if !builtin {
            self.gate(declaration.span);
        }
        let mut seen: Vec<String> = Vec::new();
        let mut index: usize = 0;
        while index < params.len()
            invariant
                index <= params@.len(),
                !declaration.is_monomorphic(),
                self.wf(),
                holds(self.names@, name@),
                declaration.declared() == Some(name@),
                forall|text: Seq<char>| holds(old(self).names@, text) ==> holds(self.names@, text),
                *self == (Specializer {
                    diagnostics: self.diagnostics,
                    names: self.names,
                    templates: self.templates,
                    declarations: self.declarations,
                    ..*old(self)
                }),
            decreases params.len() - index,
        {
            let parameter = &params[index];
            if !insert_text(&mut seen, parameter.name.text.clone()) {
                self.error(String::from_str("a generic parameter is declared twice"), parameter.span);
            }
            let mut at: usize = 0;
            while at < parameter.bounds.len()
                invariant
                    at <= parameter.bounds@.len(),
                    !declaration.is_monomorphic(),
                    self.wf(),
                    holds(self.names@, name@),
                    declaration.declared() == Some(name@),
                    forall|text: Seq<char>| holds(old(self).names@, text) ==> holds(self.names@, text),
                    *self == (Specializer {
                        diagnostics: self.diagnostics,
                        names: self.names,
                        templates: self.templates,
                        declarations: self.declarations,
                        ..*old(self)
                    }),
                decreases parameter.bounds.len() - at,
            {
                let bound = &parameter.bounds[at];
                if !same_text(bound.text().as_str(), "Logical") {
                    self.error(String::from_str("only the `Logical` generic bound is supported"), bound.span);
                }
                at += 1;
            }
            if derives_logical(&declaration) && parameter.bounds.len() == 0 && stores_parameter(
                &declaration,
                parameter.name.text.as_str(),
            ) {
                self.error(
                    String::from_str("a stored type parameter in a logical aggregate needs the `Logical` bound"),
                    parameter.span,
                );
            }
            index += 1;
        }
        let span = declaration.span;
        if self.is_template(name.as_str()) {
            let mut message = String::from_str("generic `");
            message.append(name.as_str());
            message.append("` is declared twice");
            self.error(message, span);
        } else {
            let ghost old_templates = self.templates@;
            self.templates.push((name, declaration));
            proof {
                assert forall|k: int| 0 <= k < self.templates@.len() implies (#[trigger] self.templates@[k]).1.generics().len()
                    > 0 by {
                    if k < old_templates.len() {
                        assert(self.templates@[k] == old_templates[k]);
                    }
                }
            }
        }
    }

    /// Whether a type is one of the logic's.
    fn logical(&self, ty: &Type) -> (result: bool)
        ensures
            result == is_logical_type(self.declarations@, *ty),
        decreases ty,
    {
        match &ty.kind {
            TypeKind::Named(name) => {
                let text = name.text.as_str();
                if same_text(text, "Int") || same_text(text, "Nat") || same_text(text, "Bool") || same_text(
                    text,
                    "Prop",
                ) || same_text(text, "Unit") {
                    return true;
                }
                match self.declared(text) {
                    Some(index) => derives_logical(&self.declarations[index].1),
                    None => false,
                }
            },
            TypeKind::Group(inner) => self.logical(inner),
            TypeKind::Proof(_) => true,
            TypeKind::LogicalFunction { .. } => true,
            TypeKind::Tuple(fields) => {
                let r = fields.len() > 0 && self.all_logical(fields);
                assert(is_logical_type(self.declarations@, *ty) == (ty.kind->Tuple_0@.len() > 0 && forall|i: int|
                    #![trigger ty.kind->Tuple_0@[i]]
                    0 <= i < ty.kind->Tuple_0@.len() ==> is_logical_type(
                        self.declarations@,
                        ty.kind->Tuple_0@[i].ty,
                    )));
                r
            },
            _ => false,
        }
    }

    /// Whether every field's type is one of the logic's.
    fn all_logical(&self, fields: &Vec<TypeField>) -> (result: bool)
        ensures
            result == forall|i: int|
                0 <= i < fields@.len() ==> #[trigger] is_logical_type(self.declarations@, fields@[i].ty),
        decreases fields,
    {
        let mut index: usize = 0;
        while index < fields.len()
            invariant
                index <= fields@.len(),
                forall|i: int| 0 <= i < index ==> #[trigger] is_logical_type(self.declarations@, fields@[i].ty),
            decreases fields.len() - index,
        {
            if !self.logical(&fields[index].ty) {
                return false;
            }
            index += 1;
        }
        true
    }

    /// The type arguments of the instance an expected type names, when it
    /// is an instance of the template.
    fn expected_instance(&self, expected: &Type, template: &str) -> (result: Option<Vec<Type>>)
        ensures
            result matches Some(arguments) ==> exists|i: int|
                0 <= i < self.origins@.len() && (#[trigger] self.origins@[i]).1@ == template@ && same_types(
                    self.origins@[i].2@,
                    arguments@,
                ),
        decreases expected,
    {
        let name: Option<String> = match &expected.kind {
            TypeKind::Group(inner) => return self.expected_instance(inner, template),
            TypeKind::Path { path, arguments } => {
                if all_lifetimes(arguments) {
                    Some(path.text())
                } else {
                    None
                }
            },
            TypeKind::Named(name) => Some(name.text.clone()),
            TypeKind::Proof(proposition) => match &proposition.kind {
                ExprKind::Name(name) => Some(name.text.clone()),
                ExprKind::Call { callee, .. } => match &callee.kind {
                    ExprKind::Name(name) => Some(name.text.clone()),
                    _ => None,
                },
                _ => None,
            },
            _ => None,
        };
        match name {
            Some(name) => match origin_of(&self.origins, name.as_str()) {
                Some(index) => {
                    if same_text(self.origins[index].1.as_str(), template) {
                        Some(copy_types(&self.origins[index].2))
                    } else {
                        None
                    }
                },
                None => None,
            },
            None => None,
        }
    }
}

/// Whether a type is one of the logic's: a built-in logical type, a
/// declared type that derives `Logical`, a proof or logical function type,
/// or a nonempty tuple of such types, seen through parentheses.
pub open spec fn is_logical_type(declarations: Seq<(String, Declaration, Types)>, ty: Type) -> bool
    decreases ty,
{
    match ty.kind {
        TypeKind::Named(name) => name.text@ == "Int"@ || name.text@ == "Nat"@ || name.text@ == "Bool"@
            || name.text@ == "Prop"@ || name.text@ == "Unit"@ || match declared_at(declarations, name.text@) {
            Some(index) => exists|i: int|
                0 <= i < declarations[index as int].1.attributes@.len() && #[trigger] derives_logical_in(
                    declarations[index as int].1.attributes@[i],
                ),
            None => false,
        },
        TypeKind::Group(inner) => is_logical_type(declarations, *inner),
        TypeKind::Proof(_) => true,
        TypeKind::LogicalFunction { .. } => true,
        TypeKind::Tuple(fields) => fields@.len() > 0 && forall|i: int|
            #![trigger fields@[i]]
            0 <= i < fields@.len() ==> is_logical_type(declarations, fields@[i].ty),
        _ => false,
    }
}

/// The index of the first declaration filed under a name.
pub open spec fn declared_at(declarations: Seq<(String, Declaration, Types)>, name: Seq<char>) -> Option<usize> {
    if exists|i: int| 0 <= i < declarations.len() && (#[trigger] declarations[i]).0@ == name {
        let index = choose|i: int|
            0 <= i < declarations.len() && (#[trigger] declarations[i]).0@ == name && forall|j: int|
                0 <= j < i ==> (#[trigger] declarations[j]).0@ != name;
        Some(index as usize)
    } else {
        None
    }
}

/// The types of a list that are not lifetimes, in order.
pub open spec fn non_lifetimes(types: Seq<Type>) -> Seq<Type>
    decreases types.len(),
{
    if types.len() == 0 {
        Seq::empty()
    } else if types[0].kind is Lifetime {
        non_lifetimes(types.drop_first())
    } else {
        seq![types[0]] + non_lifetimes(types.drop_first())
    }
}

/// Type arguments without the lifetimes.
fn without_lifetimes(arguments: Vec<Type>) -> (result: Vec<Type>)
    ensures
        result@ == non_lifetimes(arguments@),
{
    let mut remaining = arguments;
    let mut result: Vec<Type> = Vec::new();
    while remaining.len() > 0
        invariant
            result@ + non_lifetimes(remaining@) == non_lifetimes(arguments@),
        decreases remaining.len(),
    {
        let ghost before = remaining@;
        let argument = remaining.remove(0);
        assert(remaining@ =~= before.drop_first());
        if !matches!(argument.kind, TypeKind::Lifetime(_)) {
            let ghost kept = result@;
            result.push(argument);
            assert(result@ + non_lifetimes(remaining@) =~= kept + (seq![argument] + non_lifetimes(remaining@)));
        }
    }
    assert(non_lifetimes(remaining@) =~= Seq::<Type>::empty());
    assert(result@ + Seq::<Type>::empty() =~= result@);
    result
}

/// A name from an index on with each part between underscores begun in
/// upper case and the underscores left out, given whether the index starts
/// a part.
pub open spec fn capitalized_from(text: Seq<char>, index: int, starts_part: bool) -> Seq<char>
    decreases text.len() - index,
{
    if index < 0 || index >= text.len() {
        Seq::empty()
    } else if text[index] == '_' {
        capitalized_from(text, index + 1, true)
    } else if starts_part {
        upper_case_of(text[index]) + capitalized_from(text, index + 1, false)
    } else {
        seq![text[index]] + capitalized_from(text, index + 1, false)
    }
}

/// The stem of an instance's name: the template's name with each part
/// between underscores begun in upper case, the underscores left out.
fn capitalized_stem(template: &str) -> (result: String)
    ensures
        result@ == capitalized_from(template@, 0, true),
{
    let length = template.unicode_len();
    let mut result = String::new();
    let mut start_of_part = true;
    let mut index: usize = 0;
    while index < length
        invariant
            index <= length,
            length == template@.len(),
            result@ + capitalized_from(template@, index as int, start_of_part) == capitalized_from(template@, 0, true),
        decreases length - index,
    {
        let ghost before = result@;
        let ghost rest = capitalized_from(template@, index as int, start_of_part);
        let character = template.get_char(index);
        if character == '_' {
            start_of_part = true;
        } else if start_of_part {
            result.append(upper_case(character).as_str());
            start_of_part = false;
        } else {
            push_char(&mut result, character);
        }
        assert(result@ + capitalized_from(template@, index + 1, start_of_part) =~= before + rest);
        index += 1;
    }
    result
}

/// The integer a count stands for: the sum of its halves, each of which
/// fits an `i64` whatever the width of `usize`.
fn count_literal(count: usize) -> (result: Integer)
    ensures
        result@ == count as int,
{
    let half = count / 2;
    let odd = count % 2;
    assert(half <= i64::MAX) by {
        assert(count <= usize::MAX);
        assert(usize::MAX <= 0xffff_ffff_ffff_ffff);
    }
    let half_value = Integer::from_i64(half as i64);
    let twice = half_value.add(&half_value);
    twice.add(&Integer::from_i64(odd as i64))
}

/// The index of the field whose name is the one given, both possibly
/// absent.
fn field_named(fields: &Vec<TypeField>, name: Option<&Name>) -> (result: Option<usize>)
    ensures
        match result {
            Some(index) => index < fields@.len() && same_field_name(fields@[index as int].name, name) && forall|i: int|
                0 <= i < index ==> !same_field_name((#[trigger] fields@[i]).name, name),
            None => forall|i: int| 0 <= i < fields@.len() ==> !same_field_name((#[trigger] fields@[i]).name, name),
        },
{
    let mut index: usize = 0;
    while index < fields.len()
        invariant
            index <= fields@.len(),
            forall|i: int| 0 <= i < index ==> !same_field_name((#[trigger] fields@[i]).name, name),
        decreases fields.len() - index,
    {
        let same = match (&fields[index].name, name) {
            (Some(found), Some(wanted)) => same_text(found.text.as_str(), wanted.text.as_str()),
            (None, None) => true,
            _ => false,
        };
        if same {
            return Some(index);
        }
        index += 1;
    }
    None
}

impl<'a> Specializer<'a> {
    /// Substitutes the type arguments in a type and makes the instances it
    /// names.
    fn ty(&mut self, ty: Type, substitutions: &Types, locals: &Types) -> (result: Type)
        requires
            old(self).wf(),
        ensures
            kept(*old(self), *final(self)),
            old(self).depth >= MAX_GENERIC_TYPE_DEPTH ==> result == ty,
            (old(self).depth < MAX_GENERIC_TYPE_DEPTH && ty.kind is Named && exists|i: int|
                0 <= i < substitutions.entries@.len() && (#[trigger] substitutions.entries@[i]).0@
                    == ty.kind->Named_0.text@) ==> exists|i: int|
                0 <= i < substitutions.entries@.len() && (#[trigger] substitutions.entries@[i]).0@
                    == ty.kind->Named_0.text@ && same_type(substitutions.entries@[i].1, result),
            (old(self).depth < MAX_GENERIC_TYPE_DEPTH && ty.kind is Named && forall|i: int|
                0 <= i < substitutions.entries@.len() ==> (#[trigger] substitutions.entries@[i]).0@
                    != ty.kind->Named_0.text@) ==> result == ty,
            ty.kind is Group ==> result.kind is Group && result.span == ty.span,
            ty.kind is Ref ==> result.kind is Ref && result.span == ty.span,
            ty.kind is Slice ==> result.kind is Slice && result.span == ty.span,
            ty.kind is Array ==> result.kind is Array && result.span == ty.span,
            ty.kind is Tuple ==> result.kind is Tuple && result.span == ty.span,
            ty.kind is Proof ==> result.kind is Proof && result.span == ty.span,
            ty.kind is Function ==> result.kind is Function && result.span == ty.span,
            ty.kind is LogicalFunction ==> result.kind is LogicalFunction && result.span == ty.span,
            (ty.kind is Unit || ty.kind is Never || ty.kind is Lifetime) ==> result == ty,
        decreases old(self).room(), old(self).height() + 1, 0int, 0int,
    {
        if self.depth >= MAX_GENERIC_TYPE_DEPTH {
            let mut message = String::from_str("generic type nesting exceeds MAX_GENERIC_TYPE_DEPTH limit of ");
            message.append(decimal_text(MAX_GENERIC_TYPE_DEPTH as u64).as_str());
            self.error(message, ty.span);
            return ty;
        }
        self.depth = self.depth + 1;
        let Type { kind, span } = ty;
        let kind = match kind {
            TypeKind::Named(name) => {
                match substitutions.get(name.text.as_str()) {
                    Some(replacement) => {
                        let replaced = replacement.copy();
                        self.depth = self.depth - 1;
                        return replaced;
                    },
                    None => {
                        if self.is_template(name.text.as_str()) {
                            let mut message = String::from_str("generic type `");
                            message.append(name.text.as_str());
                            message.append("` requires type arguments");
                            self.error(message, span);
                        }
                        TypeKind::Named(name)
                    },
                }
            },
            TypeKind::Path { path, arguments } => {
                let text = path.text();
                if arguments.len() > 0 && self.is_template(text.as_str()) {
                    match self.instantiate(text.as_str(), copy_types(&arguments), substitutions, locals, span) {
                        Some(instance) => {
                            let lifetimes = lifetimes_of(&arguments);
                            let name = Name { text: instance, span };
                            if lifetimes.len() == 0 {
                                TypeKind::Named(name)
                            } else {
                                TypeKind::Path { path: Box::new(Path { segments: vec![name], span }), arguments: lifetimes }
                            }
                        },
                        None => TypeKind::Path { path, arguments },
                    }
                } else {
                    TypeKind::Path { path, arguments: self.types(arguments, substitutions, locals) }
                }
            },
            TypeKind::Group(inner) => TypeKind::Group(Box::new(self.ty(*inner, substitutions, locals))),
            TypeKind::Ref { lifetime, mutable, inner } => TypeKind::Ref {
                lifetime,
                mutable,
                inner: Box::new(self.ty(*inner, substitutions, locals)),
            },
            TypeKind::Slice(inner) => TypeKind::Slice(Box::new(self.ty(*inner, substitutions, locals))),
            TypeKind::Array { element, length } => {
                let element = self.ty(*element, substitutions, locals);
                let (length, _) = self.expr(*length, None, substitutions, locals);
                TypeKind::Array { element: Box::new(element), length: Box::new(length) }
            },
            TypeKind::Tuple(fields) => {
                let mut scope = locals.copy();
                TypeKind::Tuple(self.fields(fields, substitutions, &mut scope))
            },
            TypeKind::Proof(proposition) => {
                let (proposition, _) = self.expr(*proposition, None, substitutions, locals);
                TypeKind::Proof(Box::new(proposition))
            },
            TypeKind::Function { parameters, result } => {
                let mut scope = locals.copy();
                let parameters = self.fields(parameters, substitutions, &mut scope);
                let result = self.ty(*result, substitutions, &scope);
                TypeKind::Function { parameters, result: Box::new(result) }
            },
            TypeKind::LogicalFunction { parameters, result } => {
                let mut scope = locals.copy();
                let parameters = self.fields(parameters, substitutions, &mut scope);
                let result = self.ty(*result, substitutions, &scope);
                TypeKind::LogicalFunction { parameters, result: Box::new(result) }
            },
            other => other,
        };
        self.depth = self.depth - 1;
        Type { kind, span }
    }

    /// `ty` on each type.
    fn types(&mut self, types: Vec<Type>, substitutions: &Types, locals: &Types) -> (result: Vec<Type>)
        requires
            old(self).wf(),
        ensures
            kept(*old(self), *final(self)),
            result@.len() == types@.len(),
        decreases old(self).room(), old(self).height() + 2, 0int, 0int,
    {
        let ghost entry = *self;
        let mut remaining = types;
        let mut result: Vec<Type> = Vec::new();
        while remaining.len() > 0
            invariant
                kept(entry, *self),
                entry.wf(),
                entry == *old(self),
                result@.len() + remaining@.len() == types@.len(),
            decreases remaining.len(),
        {
            let ty = remaining.remove(0);
            result.push(self.ty(ty, substitutions, locals));
        }
        result
    }

    /// `ty` on each field's type, each named field a local for those after
    /// it.
    fn fields(&mut self, fields: Vec<TypeField>, substitutions: &Types, locals: &mut Types) -> (result: Vec<TypeField>)
        requires
            old(self).wf(),
        ensures
            kept(*old(self), *final(self)),
            result@.len() == fields@.len(),
            forall|i: int|
                #![trigger result@[i]]
                0 <= i < fields@.len() ==> result@[i].name == fields@[i].name && result@[i].span == fields@[i].span,
        decreases old(self).room(), old(self).height() + 2, 0int, 0int,
    {
        let ghost entry = *self;
        let mut remaining = fields;
        let mut result: Vec<TypeField> = Vec::new();
        while remaining.len() > 0
            invariant
                kept(entry, *self),
                entry.wf(),
                entry == *old(self),
                result@.len() + remaining@.len() == fields@.len(),
                remaining@ == fields@.skip(result@.len() as int),
                forall|i: int|
                    #![trigger result@[i]]
                    0 <= i < result@.len() ==> result@[i].name == fields@[i].name && result@[i].span == fields@[i].span,
            decreases remaining.len(),
        {
            let ghost before = remaining@;
            let TypeField { name, ty, span } = remaining.remove(0);
            assert(remaining@ == fields@.skip(result@.len() as int + 1));
            let ty = self.ty(ty, substitutions, locals);
            if let Some(name) = &name {
                locals.insert(name.text.clone(), ty.copy());
            }
            result.push(TypeField { name, ty, span });
        }
        result
    }

    /// The instance of a template at type arguments, made once: its name,
    /// or nothing, with the error said, when it cannot be made.
    fn instantiate(&mut self, template: &str, arguments: Vec<Type>, substitutions: &Types, locals: &Types, span: Span) -> (result: Option<String>)
        requires
            old(self).wf(),
        ensures
            kept(*old(self), *final(self)),
            result matches Some(name) ==> exists|j: int|
                0 <= j < final(self).instances@.len() && (#[trigger] final(self).instances@[j]).1@ == name@ && exists|
                    arguments: Seq<Type>,
                | final(self).instances@[j].0@ == #[trigger] instance_key(template@, arguments),
            result matches Some(name) ==> exists|j: int, made: Seq<Type>|
                #![trigger final(self).instances@[j], instance_key(template@, made)]
                0 <= j < final(self).instances@.len() && final(self).instances@[j].1@ == name@
                    && final(self).instances@[j].0@ == instance_key(template@, made) && arguments_made(
                    non_lifetimes(arguments@),
                    made,
                    *substitutions,
                ),
        decreases old(self).room(), old(self).height() + 2, 0int, 1int,
    {
        let ghost entry = *self;
        if !self.gate(span) {
            return None;
        }
        let ghost written = non_lifetimes(arguments@);
        let arguments = without_lifetimes(arguments);
        let declaration = match self.template(template) {
            Some(index) => self.templates[index].1.copy(),
            None => {
                let mut message = String::from_str("`");
                message.append(template);
                message.append("` is not a generic declaration");
                self.error(message, span);
                return None;
            },
        };
        let params = parameters(&declaration);
        if params.len() != arguments.len() {
            let mut message = String::from_str("`");
            message.append(template);
            message.append("` needs ");
            message.append(decimal_text(params.len() as u64).as_str());
            message.append(" type arguments, got ");
            message.append(decimal_text(arguments.len() as u64).as_str());
            self.error(message, span);
            return None;
        }
        let mut remaining = arguments;
        let mut arguments: Vec<Type> = Vec::new();
        while remaining.len() > 0
            invariant
                kept(entry, *self),
                entry.wf(),
                declaration.generics().len() > 0,
                entry == *old(self),
                arguments@.len() + remaining@.len() == params@.len(),
                written.len() == params@.len(),
                remaining@ == written.skip(arguments@.len() as int),
                arguments_made(written.take(arguments@.len() as int), arguments@, *substitutions),
            decreases remaining.len(),
        {
            let ghost done = arguments@;
            let argument = remaining.remove(0);
            assert(argument == written[done.len() as int]);
            let ghost raw = argument;
            let argument = self.ty(argument, substitutions, locals);
            assert(argument_made(raw, argument, *substitutions));
            proof {
                assert(remaining@ =~= written.skip(done.len() as int + 1));
                assert(written.take(done.len() as int + 1) =~= written.take(done.len() as int).push(raw));
            }
            if has_open_proof(&argument, locals) {
                self.error(
                    String::from_str(
                        "a generic type argument captures a local value; open dependent type arguments are not supported yet",
                    ),
                    argument.span,
                );
                return None;
            }
            arguments.push(argument);
            proof {
                let count = arguments@.len() as int;
                assert forall|i: int| 0 <= i < count implies #[trigger] argument_made(
                    written.take(count)[i],
                    arguments@[i],
                    *substitutions,
                ) by {
                    if i < done.len() {
                        assert(written.take(count)[i] == written.take(done.len() as int)[i]);
                        assert(done[i] == arguments@[i]);
                    }
                }
            }
        }
        assert(written.take(arguments@.len() as int) =~= written);
        let mut index: usize = 0;
        while index < params.len()
            invariant
                index <= params@.len(),
                arguments@.len() == params@.len(),
                kept(entry, *self),
                entry.wf(),
                declaration.generics().len() > 0,
                entry == *old(self),
            decreases params.len() - index,
        {
            if params[index].bounds.len() > 0 && !self.logical(&arguments[index]) {
                let mut message = String::from_str("type argument for `");
                message.append(params[index].name.text.as_str());
                message.append("` does not satisfy `Logical`");
                self.error(message, arguments[index].span);
                return None;
            }
            index += 1;
        }
        let mut key = String::from_str(template);
        key.append("<");
        let mut index: usize = 0;
        while index < arguments.len()
            invariant
                index <= arguments@.len(),
                key@ == template@ + "<"@ + joined_keys(arguments@.take(index as int)),
            decreases arguments.len() - index,
        {
            let ghost before = key@;
            if index > 0 {
                key.append(",");
            }
            key.append(type_key(&arguments[index]).as_str());
            proof {
                let next = arguments@.take(index + 1);
                assert(next.drop_last() =~= arguments@.take(index as int));
                assert(next.last() == arguments@[index as int]);
                if index == 0 {
                    assert(next.len() == 1 && next[0] == arguments@[0]);
                    assert(arguments@.take(0) =~= Seq::<Type>::empty());
                }
                assert(key@ =~= template@ + "<"@ + joined_keys(next));
            }
            index += 1;
        }
        key.append(">");
        assert(arguments@.take(arguments@.len() as int) =~= arguments@);
        assert(key@ =~= instance_key(template@, arguments@));
        let mut index: usize = 0;
        #[verifier::loop_isolation(false)]
        while index < self.instances.len()
            invariant
                index <= self.instances@.len(),
                kept(entry, *self),
                entry.wf(),
                declaration.generics().len() > 0,
                entry == *old(self),
                forall|j: int| 0 <= j < index ==> (#[trigger] self.instances@[j]).0@ != key@,
                key@ == instance_key(template@, arguments@),
                arguments_made(written, arguments@, *substitutions),
            decreases self.instances.len() - index,
        {
            if same_text(self.instances[index].0.as_str(), key.as_str()) {
                let name = self.instances[index].1.clone();
                assert(self.instances@[index as int].1@ == name@);
                assert(self.instances@[index as int].0@ == instance_key(template@, arguments@));
                assert(exists|j: int, made: Seq<Type>|
                    #![trigger self.instances@[j], instance_key(template@, made)]
                    0 <= j < self.instances@.len() && self.instances@[j].1@ == name@ && self.instances@[j].0@
                        == instance_key(template@, made) && arguments_made(written, made, *substitutions)) by {
                    assert(self.instances@[index as int].0@ == instance_key(template@, arguments@));
                }
                return Some(name);
            }
            index += 1;
        }
        if self.instances.len() >= MAX_GENERIC_INSTANCES {
            let mut message = String::from_str("generic specialization exceeds MAX_GENERIC_INSTANCES limit of ");
            message.append(decimal_text(MAX_GENERIC_INSTANCES as u64).as_str());
            message.append(" distinct instances");
            self.error(message, span);
            return None;
        }
        let is_function = matches!(declaration.kind, DeclarationKind::Function { .. });
        let stem = capitalized_stem(template);
        let start = self.instances.len();
        let limit = self.names.len();
        let mut tries: usize = 0;
        let mut chosen: Option<String> = None;
        while tries <= limit
            invariant
                kept(entry, *self),
                entry.wf(),
                declaration.generics().len() > 0,
                entry == *old(self),
                self.instances@.len() < MAX_GENERIC_INSTANCES,
                forall|j: int| 0 <= j < self.instances@.len() ==> (#[trigger] self.instances@[j]).0@ != key@,
                key@ == instance_key(template@, arguments@),
                chosen matches Some(fresh) ==> {
                    &&& holds(self.names@, fresh@)
                    &&& !self.reserved@.contains(fresh@)
                    &&& forall|j: int| 0 <= j < self.instances@.len() ==> (#[trigger] self.instances@[j]).1@ != fresh@
                },
            decreases limit + 1 - tries,
        {
            let serial = match start.checked_add(tries) {
                Some(serial) => serial,
                None => break,
            };
            let mut name = if is_function {
                let mut name = String::from_str("__locus_");
                name.append(template);
                name.append("_");
                name
            } else {
                let mut name = String::from_str("__Locus");
                name.append(stem.as_str());
                name
            };
            name.append(decimal_text(serial as u64).as_str());
            let ghost before = self.names@;
            if insert_text(&mut self.names, name.clone()) {
                proof {
                    lemma_holds_push(before, name);
                    assert forall|j: int| 0 <= j < self.instances@.len() implies (
                    #[trigger] self.instances@[j]).1@ != name@ by {
                        assert(holds(before, self.instances@[j].1@));
                    }
                }
                chosen = Some(name);
                break;
            }
            if tries == limit {
                break;
            }
            tries += 1;
        }
        let name = match chosen {
            Some(name) => name,
            None => {
                self.error(String::from_str("no fresh name is left for a generic instance"), span);
                return None;
            },
        };
        let ghost old_self = *self;
        let ghost made_arguments = arguments@;
        assert(arguments_made(written, made_arguments, *substitutions));
        self.instances.push((key, name.clone()));
        self.origins.push((name.clone(), String::from_str(template), copy_types(&arguments)));
        let mut instance_substitutions = Types::new();
        let mut index: usize = 0;
        while index < params.len()
            invariant
                index <= params@.len(),
                arguments@.len() == params@.len(),
                declaration.generics().len() > 0,
            decreases params.len() - index,
        {
            instance_substitutions.insert(params[index].name.text.clone(), arguments[index].copy());
            index += 1;
        }
        let declaration = rename_instance(declaration, name.as_str());
        self.declare(name.clone(), declaration.copy(), instance_substitutions.copy());
        self.queue.push((declaration, instance_substitutions));
        proof {
            assert(self.instances@.len() == old_self.instances@.len() + 1);
            assert(self.queue@.len() == old_self.queue@.len() + 1);
            assert forall|j: int| 0 <= j < self.instances@.len() implies {
                &&& !self.reserved@.contains((#[trigger] self.instances@[j]).1@)
                &&& holds(self.names@, self.instances@[j].1@)
                &&& self.queue@[self.queue@.len() - self.instances@.len() + j].0.declared() == Some(
                    self.instances@[j].1@,
                )
            } by {
                if j < old_self.instances@.len() {
                    assert(self.instances@[j] == old_self.instances@[j]);
                    assert(self.queue@[self.queue@.len() - self.instances@.len() + j] == old_self.queue@[old_self.queue@.len()
                        - old_self.instances@.len() + j]);
                }
            }
            assert forall|j: int, k: int| 0 <= j < k < self.instances@.len() implies (
            #[trigger] self.instances@[j]).1@ != (#[trigger] self.instances@[k]).1@ by {
                if k < old_self.instances@.len() {
                    assert(self.instances@[j] == old_self.instances@[j]);
                    assert(self.instances@[k] == old_self.instances@[k]);
                } else {
                    assert(self.instances@[j] == old_self.instances@[j]);
                }
            }
            assert forall|j: int, k: int| 0 <= j < k < self.instances@.len() implies (
            #[trigger] self.instances@[j]).0@ != (#[trigger] self.instances@[k]).0@ by {
                if k < old_self.instances@.len() {
                    assert(self.instances@[j] == old_self.instances@[j]);
                    assert(self.instances@[k] == old_self.instances@[k]);
                } else {
                    assert(self.instances@[j] == old_self.instances@[j]);
                }
            }
            assert(self.instances@[self.instances@.len() - 1].1@ == name@);
        }
        let ghost made = self.instances@.len() - 1;
        if holds_text(&self.quantifier_templates, template) {
            let companion = if same_text(template, "Exists") {
                "ForAll"
            } else {
                "Exists"
            };
            if holds_text(&self.quantifier_templates, companion) {
                self.instantiate(companion, arguments, &Types::new(), &Types::new(), span);
            }
        }
        assert(self.instances@[made].1@ == name@);
        assert(self.instances@[made].0@ == instance_key(template@, made_arguments));
        assert(exists|j: int, made: Seq<Type>|
            #![trigger self.instances@[j], instance_key(template@, made)]
            0 <= j < self.instances@.len() && self.instances@[j].1@ == name@ && self.instances@[j].0@ == instance_key(
                template@,
                made,
            ) && arguments_made(written, made, *substitutions)) by {
            assert(self.instances@[made].0@ == instance_key(template@, made_arguments));
        }
        Some(name)
    }

    /// A path whose first segment is a template renamed as the instance of
    /// the type arguments given or expected.
    fn specialize_path(&mut self, path: Path, arguments: Option<Vec<Type>>, expected: Option<&Type>, substitutions: &Types, locals: &Types) -> (result: Path)
        requires
            old(self).wf(),
        ensures
            kept(*old(self), *final(self)),
            result.segments@.len() == path.segments@.len(),
            result.span == path.span,
            forall|i: int| 1 <= i < path.segments@.len() ==> #[trigger] result.segments@[i] == path.segments@[i],
            path.segments@.len() > 0 ==> result.segments@[0].span == path.segments@[0].span,
            (path.segments@.len() == 0 || forall|k: int|
                0 <= k < old(self).templates@.len() ==> (#[trigger] old(self).templates@[k]).0@
                    != path.segments@[0].text@) ==> result == path,
        decreases old(self).room(), old(self).height() + 2, 0int, 2int,
    {
        if path.segments.len() == 0 {
            return path;
        }
        let template = path.segments[0].text.clone();
        if !self.is_template(template.as_str()) {
            return path;
        }
        let arguments = match arguments {
            Some(arguments) => Some(arguments),
            None => match expected {
                Some(ty) => self.expected_instance(ty, template.as_str()),
                None => None,
            },
        };
        match arguments {
            None => {
                let mut message = String::from_str("cannot infer type arguments for `");
                message.append(template.as_str());
                message.append("`; write `::<...>` or provide an expected type");
                self.error(message, path.span);
                path
            },
            Some(arguments) => match self.instantiate(template.as_str(), arguments, substitutions, locals, path.span) {
                Some(instance) => {
                    let Path { mut segments, span } = path;
                    let first = segments[0].span;
                    segments.set(0, Name { text: instance, span: first });
                    Path { segments, span }
                },
                None => path,
            },
        }
    }

    /// The parameter types and the result type of a function or a
    /// proposition, substituted.
    #[verifier::rlimit(40)]
    fn signature(&mut self, name: &str, locals: &Types) -> (result: Option<(Vec<Type>, Type)>)
        requires
            old(self).wf(),
        ensures
            kept(*old(self), *final(self)),
            declared_at(old(self).declarations@, name@) is None ==> result is None,
            result matches Some((inputs, _)) ==> declared_at(old(self).declarations@, name@) matches Some(index) && (
            (old(self).declarations@[index as int].1.kind is Prop && inputs@.len()
                == old(self).declarations@[index as int].1.kind->Prop_parameters@.len()) || (
            old(self).declarations@[index as int].1.kind is Function && inputs@.len()
                == old(self).declarations@[index as int].1.kind->Function_parameters@.len())),
        decreases old(self).room(), old(self).height() + 2, 0int, 2int,
    {
        let ghost entry = *self;
        let ghost found = declared_at(self.declarations@, name@);
        let (declaration, substitutions) = match self.declared(name) {
            Some(index) => (self.declarations[index].1.copy(), self.declarations[index].2.copy()),
            None => return None,
        };
        let Declaration { kind, span, .. } = declaration;
        let (parameters, result) = match kind {
            DeclarationKind::Prop { parameters, .. } => (parameters, None),
            DeclarationKind::Function { parameters, result, .. } => (parameters, Some(result)),
            _ => return None,
        };
        let mut context = locals.copy();
        let mut inputs: Vec<Type> = Vec::new();
        let ghost count = parameters@.len();
        let mut remaining = parameters;
        while remaining.len() > 0
            invariant
                kept(entry, *self),
                entry.wf(),
                entry == *old(self),
                inputs@.len() + remaining@.len() == count,
            decreases remaining.len(),
        {
            let parameter = remaining.remove(0);
            let ty = self.ty(parameter.ty, &substitutions, &context);
            context.insert(parameter.name.text, ty.copy());
            inputs.push(ty);
        }
        let result = match result {
            Some(result) => self.ty(result, &substitutions, &context),
            None => named_type(&Name { text: String::from_str("Prop"), span }),
        };
        Some((inputs, result))
    }

    /// The fields of a struct, or of the variant of an enum or proposition,
    /// a path names, substituted.
    fn payload(&mut self, path: &Path, locals: &Types) -> (result: Option<Vec<TypeField>>)
        requires
            old(self).wf(),
        ensures
            kept(*old(self), *final(self)),
            result is Some ==> path.segments@.len() > 0,
        decreases old(self).room(), old(self).height() + 2, 0int, 2int,
    {
        if path.segments.len() == 0 {
            return None;
        }
        let (declaration, substitutions) = match self.declared(path.segments[0].text.as_str()) {
            Some(index) => (self.declarations[index].1.copy(), self.declarations[index].2.copy()),
            None => return None,
        };
        let last = path.last();
        let fields: Vec<TypeField> = match declaration.kind {
            DeclarationKind::Struct { fields, .. } => {
                let mut remaining = fields;
                let mut result: Vec<TypeField> = Vec::new();
                while remaining.len() > 0
                    decreases remaining.len(),
                {
                    let Field { name, ty, span, .. } = remaining.remove(0);
                    result.push(TypeField { name: Some(name), ty, span });
                }
                result
            },
            DeclarationKind::Enum { variants, .. } => {
                let mut remaining = variants;
                let mut found: Option<Vec<TypeField>> = None;
                while remaining.len() > 0 && found.is_none()
                    decreases remaining.len(),
                {
                    let variant = remaining.remove(0);
                    if same_text(variant.name.text.as_str(), last.text.as_str()) {
                        found = Some(variant.fields);
                    }
                }
                match found {
                    Some(fields) => fields,
                    None => return None,
                }
            },
            DeclarationKind::Prop { variants, .. } => {
                let mut remaining = variants;
                let mut found: Option<Vec<TypeField>> = None;
                while remaining.len() > 0 && found.is_none()
                    decreases remaining.len(),
                {
                    let variant = remaining.remove(0);
                    if same_text(variant.name.text.as_str(), last.text.as_str()) {
                        found = Some(variant.fields);
                    }
                }
                match found {
                    Some(fields) => fields,
                    None => return None,
                }
            },
            _ => return None,
        };
        let mut scope = locals.copy();
        Some(self.fields(fields, &substitutions, &mut scope))
    }
}

/// The type of the element an array or slice type is expected to hold.
fn element_of<'t>(expected: Option<&'t Type>) -> (result: Option<&'t Type>)
    ensures
        match result {
            Some(element) => expected matches Some(ty) && ((ty.kind is Array && *element == *ty.kind->Array_element)
                || (ty.kind is Slice && *element == *ty.kind->Slice_0)),
            None => !(expected matches Some(ty) && (ty.kind is Array || ty.kind is Slice)),
        },
{
    match expected {
        Some(ty) => match &ty.kind {
            TypeKind::Array { element, .. } => Some(&**element),
            TypeKind::Slice(element) => Some(&**element),
            _ => None,
        },
        None => None,
    }
}

/// The fields of the tuple type a value is expected to have.
fn tuple_fields_of<'t>(expected: Option<&'t Type>) -> (result: Option<&'t Vec<TypeField>>)
    ensures
        match result {
            Some(fields) => expected matches Some(ty) && ty.kind is Tuple && *fields == ty.kind->Tuple_0,
            None => !(expected matches Some(ty) && ty.kind is Tuple),
        },
{
    match expected {
        Some(ty) => match &ty.kind {
            TypeKind::Tuple(fields) => Some(fields),
            _ => None,
        },
        None => None,
    }
}

/// The type of a field among the expected fields, by position.
fn field_type_at<'t>(fields: Option<&'t Vec<TypeField>>, index: usize) -> (result: Option<&'t Type>)
    ensures
        match result {
            Some(ty) => fields matches Some(fields) && index < fields@.len() && *ty == fields@[index as int].ty,
            None => !(fields matches Some(fields) && index < fields@.len()),
        },
{
    match fields {
        Some(fields) => {
            if index < fields.len() {
                Some(&fields[index].ty)
            } else {
                None
            }
        },
        None => None,
    }
}

/// The type an argument of a call is expected to have: the parameter's, or
/// the payload field's where there is no such parameter.
fn argument_type<'t>(
    signature: &'t Option<(Vec<Type>, Type)>,
    payload: &'t Option<Vec<TypeField>>,
    index: usize,
) -> (result: Option<&'t Type>)
    ensures
        match signature {
            Some((parameters, _)) if index < parameters@.len() => result == Some(&parameters@[index as int]),
            _ => match payload {
                Some(fields) => match result {
                    Some(ty) => index < fields@.len() && *ty == fields@[index as int].ty,
                    None => index >= fields@.len(),
                },
                None => result is None,
            },
        },
{
    if let Some((parameters, _)) = signature {
        if index < parameters.len() {
            return Some(&parameters[index]);
        }
    }
    match payload {
        Some(fields) => field_type_at(Some(fields), index),
        None => None,
    }
}

/// The type a closure's body is expected to have.
fn result_of<'t>(expected: Option<&'t Type>) -> (result: Option<&'t Type>)
    ensures
        match result {
            Some(body) => expected matches Some(ty) && ((ty.kind is LogicalFunction && *body
                == *ty.kind->LogicalFunction_result) || (ty.kind is Function && *body == *ty.kind->Function_result)),
            None => !(expected matches Some(ty) && (ty.kind is LogicalFunction || ty.kind is Function)),
        },
{
    match expected {
        Some(ty) => match &ty.kind {
            TypeKind::LogicalFunction { result, .. } => Some(&**result),
            TypeKind::Function { result, .. } => Some(&**result),
            _ => None,
        },
        None => None,
    }
}

/// The first of two optional types that is there.
fn either<'t>(first: Option<&'t Type>, second: Option<&'t Type>) -> (result: Option<&'t Type>)
    ensures
        result == (if first is Some { first } else { second }),
{
    match first {
        Some(ty) => Some(ty),
        None => second,
    }
}

/// A copy of an optional type.
fn copied(ty: Option<&Type>) -> (result: Option<Type>)
    ensures
        result is Some == ty is Some,
{
    match ty {
        Some(ty) => Some(ty.copy()),
        None => None,
    }
}

/// A type of one name.
fn type_named(text: &str, span: Span) -> (result: Type)
    ensures
        result.kind matches TypeKind::Named(name) && name.text@ == text@ && name.span == span,
        result.span == span,
{
    Type { kind: TypeKind::Named(Name { text: String::from_str(text), span }), span }
}

/// The name that a field is written with: its own, or the name it is a
/// shorthand for.
fn value_field_name(field: &ValueField) -> (result: Option<&Name>)
    ensures
        match field.name {
            Some(name) => result == Some(&name),
            None => match field.value.kind {
                ExprKind::Name(name) => result == Some(&name),
                _ => result is None,
            },
        },
{
    match &field.name {
        Some(name) => Some(name),
        None => match &field.value.kind {
            ExprKind::Name(name) => Some(name),
            _ => None,
        },
    }
}

/// The name that a field pattern is written with: its own, or the binding
/// it is a shorthand for.
fn pattern_field_name(field: &PatternField) -> (result: Option<&Name>)
    ensures
        match field.name {
            Some(name) => result == Some(&name),
            None => match field.pattern.kind {
                PatternKind::Name { name, .. } => result == Some(&name),
                _ => result is None,
            },
        },
{
    match &field.name {
        Some(name) => Some(name),
        None => match &field.pattern.kind {
            PatternKind::Name { name, .. } => Some(name),
            _ => None,
        },
    }
}

/// The body of a quantifier, if the expression is one.
spec fn quantifier_body(expr: Expr) -> Option<Block> {
    match expr.kind {
        ExprKind::Forall { body, .. } => Some(body),
        ExprKind::Exists { body, .. } => Some(body),
        _ => None,
    }
}

/// Whether a quantifier cannot be read: its body has statements, or no
/// formula; the pass then keeps it as written and reports the first
/// statement, or the body, under the code.
spec fn unreadable_quantifier(body: Block, before: Seq<Diagnostic>, after: Seq<Diagnostic>) -> bool {
    &&& after.len() == before.len() + 1
    &&& after.take(before.len() as int) == before
    &&& if body.statements@.len() > 0 {
        after.last().code == "L0290" && after.last().labels@[0].span == body.statements@[0].span
    } else {
        after.last().code == "L0222" && after.last().labels@[0].span == body.span
    }
}

/// A quantifier that cannot be read comes back as written, with no type,
/// and reported.
spec fn kept_as_written(expr: Expr, result: (Expr, Option<Type>), before: Seq<Diagnostic>, after: Seq<Diagnostic>) -> bool {
    match quantifier_body(expr) {
        Some(body) => (body.statements@.len() > 0 || body.tail is None) ==> result.0 == expr && result.1 is None
            && unreadable_quantifier(body, before, after),
        None => true,
    }
}

impl<'a> Specializer<'a> {
    /// Specializes an expression: quantifiers are read as the prelude's
    /// templates, explicit type arguments name their instances, and every
    /// template the expression uses is instantiated. Returns the expression
    /// and the type inferred for it, where one is.
    fn expr(&mut self, expr: Expr, expected: Option<&Type>, substitutions: &Types, locals: &Types) -> (result: (
        Expr,
        Option<Type>,
    ))
        requires
            old(self).wf(),
        ensures
            kept(*old(self), *final(self)),
            expr_weight(result.0) <= expr_weight(expr),
            kept_as_written(expr, result, old(self).diagnostics@, final(self).diagnostics@),
        decreases old(self).room(), old(self).height() + 2, expr_weight(expr), 5int,
    {
        let Expr { kind, span } = expr;
        match kind {
            ExprKind::Forall { parameters, body } => self.quantifier(
                true,
                parameters,
                body,
                span,
                expected,
                substitutions,
                locals,
            ),
            ExprKind::Exists { parameters, body } => self.quantifier(
                false,
                parameters,
                body,
                span,
                expected,
                substitutions,
                locals,
            ),
            other => self.applied(Expr { kind: other, span }, expected, substitutions, locals),
        }
    }

    /// A quantifier, read as an application of the prelude's `ForAll` or
    /// `Exists`; an error for one with statements or without a formula.
    fn quantifier(
        &mut self,
        universal: bool,
        parameters: Vec<Parameter>,
        body: Block,
        span: Span,
        expected: Option<&Type>,
        substitutions: &Types,
        locals: &Types,
    ) -> (result: (Expr, Option<Type>))
        requires
            old(self).wf(),
        ensures
            kept(*old(self), *final(self)),
            expr_weight(result.0) <= 9 + block_weight(body) + 8 * parameters@.len(),
            body.statements@.len() > 0 || body.tail is None ==> result.0 == (Expr {
                kind: if universal {
                    ExprKind::Forall { parameters, body }
                } else {
                    ExprKind::Exists { parameters, body }
                },
                span,
            }) && result.1 is None && unreadable_quantifier(body, old(self).diagnostics@, final(self).diagnostics@),
        decreases old(self).room(), old(self).height() + 2, 9 + block_weight(body) + 8 * parameters@.len(), 4int,
    {
        let ghost count = parameters@.len();
        let ghost whole = block_weight(body);
        let Block { statements, tail, span: body_span } = body;
        if statements.len() > 0 {
            let at = statements[0].span;
            self.diagnostics.push(
                Diagnostic::error("L0290", String::from_str("statements inside a quantifier are not supported yet"), at),
            );
            let body = Block { statements, tail, span: body_span };
            assert(self.diagnostics@.take(old(self).diagnostics@.len() as int) =~= old(self).diagnostics@);
            let kind = if universal {
                ExprKind::Forall { parameters, body }
            } else {
                ExprKind::Exists { parameters, body }
            };
            return (Expr { kind, span }, None);
        }
        match tail {
            None => {
                self.diagnostics.push(
                    Diagnostic::error("L0222", String::from_str("a quantifier needs a formula to state"), body_span),
                );
                let body = Block { statements, tail: None, span: body_span };
                assert(self.diagnostics@.take(old(self).diagnostics@.len() as int) =~= old(self).diagnostics@);
                let kind = if universal {
                    ExprKind::Forall { parameters, body }
                } else {
                    ExprKind::Exists { parameters, body }
                };
                (Expr { kind, span }, None)
            },
            Some(tail) => {
                assert(statements_weight(statements@) == 0);
                let formula = *tail;
                assert(whole == 1 + expr_weight(formula));
                let rewritten = quantifier_expression(universal, parameters, formula, body_span, span);
                self.applied(rewritten, expected, substitutions, locals)
            },
        }
    }

    /// An expression with explicit type arguments names the instance they
    /// make; the arguments are then dropped.
    fn applied(&mut self, expr: Expr, expected: Option<&Type>, substitutions: &Types, locals: &Types) -> (result: (
        Expr,
        Option<Type>,
    ))
        requires
            old(self).wf(),
        ensures
            kept(*old(self), *final(self)),
            expr_weight(result.0) <= expr_weight(expr),
        decreases old(self).room(), old(self).height() + 2, expr_weight(expr), 4int,
    {
        let Expr { kind, span } = expr;
        match kind {
            ExprKind::GenericApply { callee, arguments } => {
                let ghost callee_weight = expr_weight(*callee);
                let Expr { kind: callee_kind, span: callee_span } = *callee;
                let callee_kind = match callee_kind {
                    ExprKind::Name(name) => match self.instantiate(
                        name.text.as_str(),
                        arguments,
                        substitutions,
                        locals,
                        span,
                    ) {
                        Some(instance) => ExprKind::Name(Name { text: instance, span: name.span }),
                        None => ExprKind::Name(name),
                    },
                    ExprKind::Path(path) => ExprKind::Path(
                        Box::new(self.specialize_path(*path, Some(arguments), expected, substitutions, locals)),
                    ),
                    ExprKind::Struct { path, fields } => ExprKind::Struct {
                        path: self.specialize_path(path, Some(arguments), expected, substitutions, locals),
                        fields,
                    },
                    other => {
                        self.error(String::from_str("explicit type arguments require a named declaration"), span);
                        other
                    },
                };
                assert(expr_weight(Expr { kind: callee_kind, span: callee_span }) == callee_weight);
                self.named(Expr { kind: callee_kind, span: callee_span }, expected, substitutions, locals)
            },
            other => self.named(Expr { kind: other, span }, expected, substitutions, locals),
        }
    }

    /// The constructors of `Option` and `Result`, written alone, name their
    /// variants of the prelude's templates; then every part of the
    /// expression is specialized.
    fn named(&mut self, expr: Expr, expected: Option<&Type>, substitutions: &Types, locals: &Types) -> (result: (
        Expr,
        Option<Type>,
    ))
        requires
            old(self).wf(),
        ensures
            kept(*old(self), *final(self)),
            result.0.span == expr.span,
            expr_weight(result.0) <= expr_weight(expr),
        decreases old(self).room(), old(self).height() + 2, expr_weight(expr), 3int,
    {
        let ghost entry = *self;
        let ghost weight = expr_weight(expr);
        let Expr { kind, span } = expr;
        let kind = match kind {
            ExprKind::Name(name) => {
                let text = name.text.as_str();
                let parent = if same_text(text, "Some") || same_text(text, "None") {
                    Some("Option")
                } else if same_text(text, "Ok") || same_text(text, "Err") {
                    Some("Result")
                } else {
                    None
                };
                match parent {
                    Some(parent) => {
                        if !holds_text(&self.names, text) && !locals.contains(text) {
                            let path = Path {
                                segments: vec![Name { text: String::from_str(parent), span: name.span }, name],
                                span,
                            };
                            ExprKind::Path(
                                Box::new(self.specialize_path(path, None, expected, substitutions, locals)),
                            )
                        } else {
                            ExprKind::Name(name)
                        }
                    },
                    None => ExprKind::Name(name),
                }
            },
            other => other,
        };
        assert(expr_weight(Expr { kind, span }) == weight);
        let (kind, inferred) = self.inferred(kind, span, expected, substitutions, locals);
        let inferred = match inferred {
            Some(ty) => Some(ty),
            None => copied(expected),
        };
        (Expr { kind, span }, inferred)
    }
}

impl<'a> Specializer<'a> {
    /// Specializes the parts of an expression of the given kind, and infers
    /// its type where the parts give one.
    #[verifier::rlimit(60)]
    fn inferred(&mut self, kind: ExprKind, span: Span, expected: Option<&Type>, substitutions: &Types, locals: &Types) -> (result: (
        ExprKind,
        Option<Type>,
    ))
        requires
            old(self).wf(),
        ensures
            kept(*old(self), *final(self)),
            expr_weight(Expr { kind: result.0, span }) <= expr_weight(Expr { kind, span }),
        decreases old(self).room(), old(self).height() + 2, expr_weight(Expr { kind, span }), 2int,
    {
        let ghost entry = *self;
        let ghost weight = expr_weight(Expr { kind, span });
        match kind {
            ExprKind::Name(name) => {
                let name = if self.is_template(name.text.as_str()) {
                    let path = self.specialize_path(Path { segments: vec![name], span }, None, expected, substitutions, locals);
                    let Path { mut segments, .. } = path;
                    segments.remove(0)
                } else {
                    name
                };
                let ty = match locals.get(name.text.as_str()) {
                    Some(ty) => Some(ty.copy()),
                    None => match self.declared(name.text.as_str()) {
                        Some(index) => match &self.declarations[index].1.kind {
                            DeclarationKind::Constant { ty, .. } => Some(ty.copy()),
                            _ => None,
                        },
                        None => None,
                    },
                };
                (ExprKind::Name(name), ty)
            },
            ExprKind::Path(path) => {
                let path = self.specialize_path(*path, None, expected, substitutions, locals);
                let ty = match self.payload(&path, locals) {
                    Some(_) => Some(named_type(&path.segments[0])),
                    None => None,
                };
                (ExprKind::Path(Box::new(path)), ty)
            },
            ExprKind::Integer(literal) => {
                let ty = match expected {
                    Some(ty) => Some(ty.copy()),
                    None => match literal.suffix {
                        Some(suffix) => Some(type_named(suffix.name(), span)),
                        None => None,
                    },
                };
                (ExprKind::Integer(literal), ty)
            },
            ExprKind::Bool(value) => {
                let ty = match expected {
                    Some(ty) => ty.copy(),
                    None => type_named("bool", span),
                };
                (ExprKind::Bool(value), Some(ty))
            },
            ExprKind::Unit => (ExprKind::Unit, Some(Type { kind: TypeKind::Unit, span })),
            ExprKind::Group(inner) => {
                let (inner, ty) = self.expr(*inner, expected, substitutions, locals);
                (ExprKind::Group(Box::new(inner)), ty)
            },
            ExprKind::Array(values) => {
                let count = values.len();
                let (values, first) = self.elements(values, span, element_of(expected), substitutions, locals);
                let ty = match expected {
                    Some(ty) => Some(ty.copy()),
                    None => match first {
                        Some(element) => Some(
                            Type {
                                span,
                                kind: TypeKind::Array {
                                    element: Box::new(element),
                                    length: Box::new(
                                        Expr {
                                            span,
                                            kind: ExprKind::Integer(
                                                IntegerLiteral { value: count_literal(count), suffix: None },
                                            ),
                                        },
                                    ),
                                },
                            },
                        ),
                        None => None,
                    },
                };
                (ExprKind::Array(values), ty)
            },
            ExprKind::Subscript { value, index } => {
                let (value, ty) = self.expr(*value, None, substitutions, locals);
                let (index, _) = self.expr(*index, None, substitutions, locals);
                let ty = match ty {
                    Some(Type { kind: TypeKind::Slice(inner), .. }) => Some(*inner),
                    Some(Type { kind: TypeKind::Array { element, .. }, .. }) => Some(*element),
                    _ => copied(expected),
                };
                (ExprKind::Subscript { value: Box::new(value), index: Box::new(index) }, ty)
            },
            ExprKind::Tuple(values) => {
                let count = values.len();
                let (values, fields) = self.components(values, span, tuple_fields_of(expected), substitutions, locals);
                let ty = if fields.len() == count {
                    Some(Type { kind: TypeKind::Tuple(fields), span })
                } else {
                    None
                };
                (ExprKind::Tuple(values), ty)
            },
            ExprKind::Call { callee, arguments } => {
                let (callee, arguments, ty) = self.call(*callee, arguments, span, expected, substitutions, locals);
                (ExprKind::Call { callee: Box::new(callee), arguments }, ty)
            },
            ExprKind::Struct { path, fields } => {
                let (path, fields, ty) = self.struct_literal(path, fields, span, expected, substitutions, locals);
                (ExprKind::Struct { path, fields }, ty)
            },
            ExprKind::Block(block) => {
                let mut scope = locals.copy();
                let (block, ty) = self.block(block, expected, substitutions, &mut scope);
                (ExprKind::Block(block), ty)
            },
            ExprKind::Logic(block) => {
                let mut scope = locals.copy();
                let (block, ty) = self.block(block, expected, substitutions, &mut scope);
                (ExprKind::Logic(block), ty)
            },
            ExprKind::If { condition, then_branch, else_branch } => {
                let (condition, _) = self.expr(*condition, None, substitutions, locals);
                let mut scope = locals.copy();
                let (then_branch, then_type) = self.block(then_branch, expected, substitutions, &mut scope);
                let (else_branch, else_type) = self.expr(
                    *else_branch,
                    either(expected, then_type.as_ref()),
                    substitutions,
                    locals,
                );
                let ty = match else_type {
                    Some(ty) => Some(ty),
                    None => then_type,
                };
                (ExprKind::If { condition: Box::new(condition), then_branch, else_branch: Box::new(else_branch) }, ty)
            },
            ExprKind::Match { scrutinee, arms } => {
                let (scrutinee, scrutinee_type) = self.expr(*scrutinee, None, substitutions, locals);
                let (arms, ty) = self.arms(arms, span, scrutinee_type, expected, substitutions, locals);
                (ExprKind::Match { scrutinee: Box::new(scrutinee), arms }, ty)
            },
            ExprKind::Evidence { constructor, evidence, at_span } => {
                let (constructor, _) = self.expr(*constructor, expected, substitutions, locals);
                let (evidence, _) = self.expr(*evidence, None, substitutions, locals);
                (
                    ExprKind::Evidence { constructor: Box::new(constructor), evidence: Box::new(evidence), at_span },
                    copied(expected),
                )
            },
            ExprKind::Form { form, name_span, arguments, source_hint } => {
                let arguments = self.each(arguments, span, substitutions, locals);
                let ty = match form {
                    Form::Prop => Some(type_named("Prop", span)),
                    Form::Prove => {
                        if arguments.len() > 0 {
                            Some(Type { kind: TypeKind::Proof(Box::new(arguments[0].copy())), span })
                        } else {
                            None
                        }
                    },
                    _ => copied(expected),
                };
                (ExprKind::Form { form, name_span, arguments, source_hint }, ty)
            },
            ExprKind::Cast { expr, source_hint, as_span, ty } => {
                let ty = self.ty(ty, substitutions, locals);
                let (expr, hint) = self.expr(*expr, None, substitutions, locals);
                let source_hint = match hint {
                    Some(hint) => Some(Box::new(hint)),
                    None => None,
                };
                let result = ty.copy();
                (ExprKind::Cast { expr: Box::new(expr), source_hint, as_span, ty }, Some(result))
            },
            ExprKind::Ref { mutable, expr } => {
                let (expr, ty) = self.expr(*expr, None, substitutions, locals);
                let ty = match ty {
                    Some(inner) => Some(
                        Type { kind: TypeKind::Ref { lifetime: None, mutable, inner: Box::new(inner) }, span },
                    ),
                    None => None,
                };
                (ExprKind::Ref { mutable, expr: Box::new(expr) }, ty)
            },
            ExprKind::Not(inner) => {
                let (inner, ty) = self.expr(*inner, expected, substitutions, locals);
                (ExprKind::Not(Box::new(inner)), ty)
            },
            ExprKind::Unary { operator, operator_span, expr } => {
                let (expr, ty) = self.expr(*expr, expected, substitutions, locals);
                (ExprKind::Unary { operator, operator_span, expr: Box::new(expr) }, ty)
            },
            ExprKind::Binary { operator, operator_span, left, right } => {
                let comparison = operator.is_comparison();
                let operand_expected = if comparison {
                    None
                } else {
                    expected
                };
                let (left, ty) = self.expr(*left, operand_expected, substitutions, locals);
                let (right, _) = self.expr(*right, either(ty.as_ref(), operand_expected), substitutions, locals);
                let ty = if comparison {
                    match ty {
                        Some(ty) => {
                            if self.logical(&ty) {
                                Some(type_named("Bool", span))
                            } else {
                                Some(type_named("bool", span))
                            }
                        },
                        None => None,
                    }
                } else {
                    ty
                };
                (ExprKind::Binary { operator, operator_span, left: Box::new(left), right: Box::new(right) }, ty)
            },
            ExprKind::Range { kind, lower, upper } => {
                let (lower, ty) = self.expr(*lower, expected, substitutions, locals);
                let (upper, _) = self.expr(*upper, either(ty.as_ref(), expected), substitutions, locals);
                (ExprKind::Range { kind, lower: Box::new(lower), upper: Box::new(upper) }, ty)
            },
            ExprKind::Member { value, name } => {
                let (value, ty) = self.expr(*value, None, substitutions, locals);
                let path = match &ty {
                    Some(ty) => match name_of_type(ty) {
                        Some(owner) => Some(Path { segments: vec![owner.copy()], span }),
                        None => None,
                    },
                    None => None,
                };
                let field_type = match path {
                    Some(path) => match self.payload(&path, locals) {
                        Some(fields) => match field_named(&fields, Some(&name)) {
                            Some(index) => Some(fields[index].ty.copy()),
                            None => None,
                        },
                        None => None,
                    },
                    None => None,
                };
                (ExprKind::Member { value: Box::new(value), name }, field_type)
            },
            ExprKind::Index { value, index, index_span } => {
                let (value, ty) = self.expr(*value, None, substitutions, locals);
                let field_type = match ty {
                    Some(Type { kind: TypeKind::Tuple(fields), .. }) => match parse_index(index.as_str()) {
                        Some(at) => {
                            if at < fields.len() {
                                Some(fields[at].ty.copy())
                            } else {
                                None
                            }
                        },
                        None => None,
                    },
                    _ => None,
                };
                (ExprKind::Index { value: Box::new(value), index, index_span }, field_type)
            },
            ExprKind::Closure { parameters, body } => {
                let mut scope = locals.copy();
                let parameters = self.bind_parameters(parameters, substitutions, &mut scope);
                let (body, body_type) = self.expr(*body, result_of(expected), substitutions, &scope);
                let ty = match body_type {
                    Some(result) => {
                        let mut fields: Vec<TypeField> = Vec::new();
                        let mut index: usize = 0;
                        while index < parameters.len()
                            invariant
                                index <= parameters@.len(),
                            decreases parameters.len() - index,
                        {
                            let parameter = &parameters[index];
                            fields.push(
                                TypeField {
                                    name: Some(parameter.name.copy()),
                                    ty: parameter.ty.copy(),
                                    span: parameter.span,
                                },
                            );
                            index += 1;
                        }
                        Some(
                            Type {
                                span,
                                kind: TypeKind::LogicalFunction { parameters: fields, result: Box::new(result) },
                            },
                        )
                    },
                    None => None,
                };
                (ExprKind::Closure { parameters, body: Box::new(body) }, ty)
            },
            ExprKind::Forall { parameters, body } => {
                let mut scope = locals.copy();
                let parameters = self.bind_parameters(parameters, substitutions, &mut scope);
                let (body, _) = self.block(body, None, substitutions, &mut scope);
                (ExprKind::Forall { parameters, body }, None)
            },
            ExprKind::Exists { parameters, body } => {
                let mut scope = locals.copy();
                let parameters = self.bind_parameters(parameters, substitutions, &mut scope);
                let (body, _) = self.block(body, None, substitutions, &mut scope);
                (ExprKind::Exists { parameters, body }, None)
            },
            ExprKind::Loop { body } => {
                let mut scope = locals.copy();
                let (body, _) = self.block(body, None, substitutions, &mut scope);
                (ExprKind::Loop { body }, None)
            },
            ExprKind::While { pattern, condition, body } => {
                let (condition, ty) = self.expr(*condition, None, substitutions, locals);
                let mut scope = locals.copy();
                let pattern = match pattern {
                    Some(pattern) => Some(Box::new(self.pattern(*pattern, ty.as_ref(), substitutions, &mut scope))),
                    None => None,
                };
                let (body, _) = self.block(body, None, substitutions, &mut scope);
                (ExprKind::While { pattern, condition: Box::new(condition), body }, None)
            },
            ExprKind::For { pattern, iterable, body } => {
                let (iterable, ty) = self.expr(*iterable, None, substitutions, locals);
                let mut scope = locals.copy();
                let pattern = self.pattern(*pattern, ty.as_ref(), substitutions, &mut scope);
                let (body, _) = self.block(body, None, substitutions, &mut scope);
                (ExprKind::For { pattern: Box::new(pattern), iterable: Box::new(iterable), body }, None)
            },
            ExprKind::Return(value) => match value {
                Some(value) => {
                    let result = match &self.return_type {
                        Some(ty) => Some(ty.copy()),
                        None => None,
                    };
                    let (value, ty) = self.expr(*value, either(result.as_ref(), expected), substitutions, locals);
                    (ExprKind::Return(Some(Box::new(value))), ty)
                },
                None => (ExprKind::Return(None), None),
            },
            ExprKind::Break(value) => match value {
                Some(value) => {
                    let (value, ty) = self.expr(*value, expected, substitutions, locals);
                    (ExprKind::Break(Some(Box::new(value))), ty)
                },
                None => (ExprKind::Break(None), None),
            },
            other => (other, copied(expected)),
        }
    }
}

impl<'a> Specializer<'a> {
    /// The elements of an array literal, each expected to have the element
    /// type expected, or else the first element's type; with that type.
    fn elements(&mut self, values: Vec<Expr>, span: Span, element_expected: Option<&Type>, substitutions: &Types, locals: &Types) -> (result: (
        Vec<Expr>,
        Option<Type>,
    ))
        requires
            old(self).wf(),
        ensures
            kept(*old(self), *final(self)),
            exprs_weight(result.0@) <= exprs_weight(values@),
            result.0@.len() == values@.len(),
        decreases old(self).room(), old(self).height() + 2, 1 + exprs_weight(values@), 1int,
    {
        let ghost entry = *self;
        let ghost total = exprs_weight(values@);
        let count: usize = values.len();
        let mut remaining = values;
        let mut done: Vec<Expr> = Vec::new();
        let mut first: Option<Type> = None;
        while remaining.len() > 0
            invariant
                kept(entry, *self),
                entry.wf(),
                entry == *old(self),
                exprs_weight(done@) + exprs_weight(remaining@) <= total,
                total == exprs_weight(values@),
                done@.len() + remaining@.len() == count,
            decreases remaining.len(),
        {
            let ghost before = remaining@;
            let value = remaining.remove(0);
            assert(remaining@ =~= before.drop_first());
            proof {
                lemma_exprs_first(before);
            }
            let (value, ty) = self.expr(value, either(element_expected, first.as_ref()), substitutions, locals);
            let ghost prior = done@;
            done.push(value);
            assert(done@.drop_last() =~= prior);
            if first.is_none() {
                first = ty;
            }
        }
        (done, first)
    }

    /// The components of a tuple, each expected to have the type of the
    /// expected tuple's field at its place; with the types inferred.
    fn components(&mut self, values: Vec<Expr>, span: Span, expected_fields: Option<&Vec<TypeField>>, substitutions: &Types, locals: &Types) -> (result: (
        Vec<Expr>,
        Vec<TypeField>,
    ))
        requires
            old(self).wf(),
        ensures
            kept(*old(self), *final(self)),
            result.0@.len() == values@.len(),
            exprs_weight(result.0@) <= exprs_weight(values@),
        decreases old(self).room(), old(self).height() + 2, 1 + exprs_weight(values@), 1int,
    {
        let ghost entry = *self;
        let ghost total = exprs_weight(values@);
        let count: usize = values.len();
        let mut remaining = values;
        let mut done: Vec<Expr> = Vec::new();
        let mut fields: Vec<TypeField> = Vec::new();
        let mut index: usize = 0;
        while remaining.len() > 0
            invariant
                kept(entry, *self),
                entry.wf(),
                entry == *old(self),
                exprs_weight(done@) + exprs_weight(remaining@) <= total,
                total == exprs_weight(values@),
                index == done@.len(),
                done@.len() + remaining@.len() == count,
            decreases remaining.len(),
        {
            let ghost before = remaining@;
            let value = remaining.remove(0);
            assert(remaining@ =~= before.drop_first());
            proof {
                lemma_exprs_first(before);
            }
            let (value, ty) = self.expr(value, field_type_at(expected_fields, index), substitutions, locals);
            if let Some(ty) = ty {
                fields.push(TypeField { name: None, span: value.span, ty });
            }
            let ghost prior = done@;
            done.push(value);
            assert(done@.drop_last() =~= prior);
            index += 1;
        }
        (done, fields)
    }

    /// Expressions specialized with nothing expected of them.
    fn each(&mut self, values: Vec<Expr>, span: Span, substitutions: &Types, locals: &Types) -> (result: Vec<Expr>)
        requires
            old(self).wf(),
        ensures
            kept(*old(self), *final(self)),
            exprs_weight(result@) <= exprs_weight(values@),
            result@.len() == values@.len(),
        decreases old(self).room(), old(self).height() + 2, 1 + exprs_weight(values@), 1int,
    {
        let ghost entry = *self;
        let ghost total = exprs_weight(values@);
        let count: usize = values.len();
        let mut remaining = values;
        let mut done: Vec<Expr> = Vec::new();
        while remaining.len() > 0
            invariant
                kept(entry, *self),
                entry.wf(),
                entry == *old(self),
                exprs_weight(done@) + exprs_weight(remaining@) <= total,
                total == exprs_weight(values@),
                done@.len() + remaining@.len() == count,
            decreases remaining.len(),
        {
            let ghost before = remaining@;
            let value = remaining.remove(0);
            assert(remaining@ =~= before.drop_first());
            proof {
                lemma_exprs_first(before);
            }
            let (value, _) = self.expr(value, None, substitutions, locals);
            let ghost prior = done@;
            done.push(value);
            assert(done@.drop_last() =~= prior);
        }
        done
    }

    /// The parameters of a closure or a quantifier, their types specialized
    /// and each bound in the scope for those after it.
    fn bind_parameters(&mut self, parameters: Vec<Parameter>, substitutions: &Types, scope: &mut Types) -> (result: Vec<Parameter>)
        requires
            old(self).wf(),
        ensures
            kept(*old(self), *final(self)),
            result@.len() == parameters@.len(),
        decreases old(self).room(), old(self).height() + 2, 0nat, 0int,
    {
        let ghost entry = *self;
        let ghost count = parameters@.len();
        let mut remaining = parameters;
        let mut done: Vec<Parameter> = Vec::new();
        while remaining.len() > 0
            invariant
                kept(entry, *self),
                entry.wf(),
                entry == *old(self),
                done@.len() + remaining@.len() == count,
            decreases remaining.len(),
        {
            let Parameter { mutable, name, ty, span } = remaining.remove(0);
            let ty = self.ty(ty, substitutions, scope);
            scope.insert(name.text.clone(), ty.copy());
            let ghost prior = done@;
            done.push(Parameter { mutable, name, ty, span });
            assert(done@.drop_last() =~= prior);
        }
        done
    }

    /// A call: a template called by name is instantiated at the type
    /// arguments its arguments and the expected type give, and each argument
    /// is expected to have its parameter's type.
    fn call(&mut self, callee: Expr, arguments: Vec<Expr>, span: Span, expected: Option<&Type>, substitutions: &Types, locals: &Types) -> (result: (
        Expr,
        Vec<Expr>,
        Option<Type>,
    ))
        requires
            old(self).wf(),
        ensures
            kept(*old(self), *final(self)),
            expr_weight(result.0) + exprs_weight(result.1@) <= expr_weight(callee) + exprs_weight(arguments@),
        decreases old(self).room(), old(self).height() + 2, 1 + expr_weight(callee) + exprs_weight(arguments@), 1int,
    {
        let ghost entry = *self;
        let ghost callee_weight = expr_weight(callee);
        let ghost total = exprs_weight(arguments@);
        let Expr { kind: callee_kind, span: callee_span } = callee;
        let (callee_kind, processed) = match callee_kind {
            ExprKind::Name(name) => {
                if self.is_template(name.text.as_str()) {
                    let (arguments, inferred) = self.infer_arguments(
                        name.text.as_str(),
                        arguments,
                        expected,
                        substitutions,
                        locals,
                    );
                    let name = match inferred {
                        Some(types) => match self.instantiate(name.text.as_str(), types, substitutions, locals, span) {
                            Some(instance) => Name { text: instance, span: name.span },
                            None => name,
                        },
                        None => name,
                    };
                    (ExprKind::Name(name), arguments)
                } else {
                    (ExprKind::Name(name), arguments)
                }
            },
            other => (other, arguments),
        };
        let renamed = Expr { kind: callee_kind, span: callee_span };
        assert(expr_weight(renamed) == callee_weight);
        let (specialized, _) = self.expr(renamed, expected, substitutions, locals);
        let path = expr_path(&specialized);
        let signature = match &path {
            Some(path) => self.signature(path.text().as_str(), locals),
            None => None,
        };
        let payload = match &path {
            Some(path) => self.payload(path, locals),
            None => None,
        };
        let ghost after = exprs_weight(processed@);
        let count: usize = processed.len();
        let mut remaining = processed;
        let mut done: Vec<Expr> = Vec::new();
        let mut index: usize = 0;
        while remaining.len() > 0
            invariant
                kept(entry, *self),
                entry.wf(),
                entry == *old(self),
                exprs_weight(done@) + exprs_weight(remaining@) <= after,
                after <= total,
                total == exprs_weight(arguments@),
                callee_weight == expr_weight(callee),
                index == done@.len(),
                done@.len() + remaining@.len() == count,
                count <= usize::MAX,
            decreases remaining.len(),
        {
            let ghost before = remaining@;
            let argument = remaining.remove(0);
            assert(remaining@ =~= before.drop_first());
            proof {
                lemma_exprs_first(before);
            }
            let (argument, _) = self.expr(
                argument,
                argument_type(&signature, &payload, index),
                substitutions,
                locals,
            );
            let ghost prior = done@;
            done.push(argument);
            assert(done@.drop_last() =~= prior);
            index += 1;
        }
        let ty = match signature {
            Some((_, result)) => Some(result),
            None => match (&path, &payload) {
                (Some(path), Some(_)) => Some(named_type(&path.segments[0])),
                _ => None,
            },
        };
        (specialized, done, ty)
    }
}

impl<'a> Specializer<'a> {
    /// A struct literal: its path names the instance expected, and each
    /// field's value is expected to have the field's type.
    fn struct_literal(&mut self, path: Path, fields: Vec<ValueField>, span: Span, expected: Option<&Type>, substitutions: &Types, locals: &Types) -> (result: (
        Path,
        Vec<ValueField>,
        Option<Type>,
    ))
        requires
            old(self).wf(),
        ensures
            kept(*old(self), *final(self)),
            value_fields_weight(result.1@) <= value_fields_weight(fields@),
        decreases old(self).room(), old(self).height() + 2, 1 + value_fields_weight(fields@), 1int,
    {
        let ghost entry = *self;
        let ghost total = value_fields_weight(fields@);
        let path = self.specialize_path(path, None, expected, substitutions, locals);
        let payload = self.payload(&path, locals);
        let mut remaining = fields;
        let mut done: Vec<ValueField> = Vec::new();
        while remaining.len() > 0
            invariant
                kept(entry, *self),
                entry.wf(),
                entry == *old(self),
                value_fields_weight(done@) + value_fields_weight(remaining@) <= total,
                total == value_fields_weight(fields@),
            decreases remaining.len(),
        {
            let ghost before = remaining@;
            let field = remaining.remove(0);
            assert(remaining@ =~= before.drop_first());
            proof {
                lemma_value_fields_first(before);
            }
            let ty: Option<&Type> = match &payload {
                Some(declared) => match field_named(declared, value_field_name(&field)) {
                    Some(index) => Some(&declared[index].ty),
                    None => None,
                },
                None => None,
            };
            let ValueField { name, value, span: field_span } = field;
            let (value, _) = self.expr(value, ty, substitutions, locals);
            let ghost prior = done@;
            done.push(ValueField { name, value, span: field_span });
            assert(done@.drop_last() =~= prior);
        }
        let ty = if path.segments.len() > 0 {
            Some(named_type(&path.segments[0]))
        } else {
            None
        };
        (path, done, ty)
    }

    /// The arms of a match: each pattern is expected to match the
    /// scrutinee's type, and each body the type expected, or else the first
    /// body's.
    fn arms(&mut self, arms: Vec<MatchArm>, span: Span, scrutinee_type: Option<Type>, expected: Option<&Type>, substitutions: &Types, locals: &Types) -> (result: (
        Vec<MatchArm>,
        Option<Type>,
    ))
        requires
            old(self).wf(),
        ensures
            kept(*old(self), *final(self)),
            arms_weight(result.0@) <= arms_weight(arms@),
        decreases old(self).room(), old(self).height() + 2, 1 + arms_weight(arms@), 1int,
    {
        let ghost entry = *self;
        let ghost total = arms_weight(arms@);
        let mut result = copied(expected);
        let mut remaining = arms;
        let mut done: Vec<MatchArm> = Vec::new();
        while remaining.len() > 0
            invariant
                kept(entry, *self),
                entry.wf(),
                entry == *old(self),
                arms_weight(done@) + arms_weight(remaining@) <= total,
                total == arms_weight(arms@),
            decreases remaining.len(),
        {
            let ghost before = remaining@;
            let MatchArm { pattern, body, span: arm_span } = remaining.remove(0);
            assert(remaining@ =~= before.drop_first());
            proof {
                lemma_arms_first(before);
            }
            let mut scope = locals.copy();
            let pattern = self.pattern(pattern, scrutinee_type.as_ref(), substitutions, &mut scope);
            let (body, ty) = self.expr(body, result.as_ref(), substitutions, &scope);
            if result.is_none() {
                result = ty;
            }
            let ghost prior = done@;
            done.push(MatchArm { pattern, body, span: arm_span });
            assert(done@.drop_last() =~= prior);
        }
        (done, result)
    }

    /// A block: each statement's parts specialized in order, the names its
    /// patterns bind added to the scope, and the tail expected to have the
    /// type expected; with the tail's type.
    fn block(&mut self, block: Block, expected: Option<&Type>, substitutions: &Types, locals: &mut Types) -> (result: (
        Block,
        Option<Type>,
    ))
        requires
            old(self).wf(),
        ensures
            kept(*old(self), *final(self)),
            result.0.span == block.span,
            block_weight(result.0) <= block_weight(block),
        decreases old(self).room(), old(self).height() + 2, block_weight(block), 3int,
    {
        let ghost entry = *self;
        let ghost whole = block_weight(block);
        let Block { statements, tail, span } = block;
        let ghost total = statements_weight(statements@);
        let mut remaining = statements;
        let mut done: Vec<Statement> = Vec::new();
        while remaining.len() > 0
            invariant
                kept(entry, *self),
                entry.wf(),
                entry == *old(self),
                statements_weight(done@) + statements_weight(remaining@) <= total,
                total < whole,
                whole == block_weight(block),
            decreases remaining.len(),
        {
            let ghost before = remaining@;
            let statement = remaining.remove(0);
            let ghost weight_before = statement_weight(statement);
            let Statement { kind, span: statement_span } = statement;
            assert(remaining@ =~= before.drop_first());
            proof {
                lemma_statements_first(before);
            }
            let kind = match kind {
                StatementKind::Let { mutable, pattern, annotation, value } => {
                    let annotation = match annotation {
                        Some(annotation) => Some(self.ty(annotation, substitutions, locals)),
                        None => None,
                    };
                    let (value, inferred) = self.expr(value, annotation.as_ref(), substitutions, locals);
                    let pattern = self.pattern(
                        pattern,
                        either(annotation.as_ref(), inferred.as_ref()),
                        substitutions,
                        locals,
                    );
                    StatementKind::Let { mutable, pattern, annotation, value }
                },
                StatementKind::Assign { place, value } => {
                    let (place, ty) = self.expr(place, None, substitutions, locals);
                    let (value, _) = self.expr(value, ty.as_ref(), substitutions, locals);
                    StatementKind::Assign { place, value }
                },
                StatementKind::Expression(expr) => {
                    let (expr, _) = self.expr(expr, None, substitutions, locals);
                    StatementKind::Expression(expr)
                },
                StatementKind::Error => StatementKind::Error,
            };
            assert(statement_weight(Statement { kind, span: statement_span }) <= weight_before);
            let ghost prior = done@;
            done.push(Statement { kind, span: statement_span });
            assert(done@.drop_last() =~= prior);
        }
        let (tail, ty) = match tail {
            Some(tail) => {
                let (tail, ty) = self.expr(*tail, expected, substitutions, locals);
                (Some(Box::new(tail)), ty)
            },
            None => (None, None),
        };
        (Block { statements: done, tail, span }, ty)
    }

    /// A pattern: its paths name the instances expected, and each name it
    /// binds enters the scope with the type expected of it, or leaves it
    /// where none is.
    fn pattern(&mut self, pattern: Pattern, expected: Option<&Type>, substitutions: &Types, locals: &mut Types) -> (result: Pattern)
        requires
            old(self).wf(),
        ensures
            kept(*old(self), *final(self)),
            result.span == pattern.span,
            pattern_weight(result) <= pattern_weight(pattern),
        decreases old(self).room(), old(self).height() + 2, pattern_weight(pattern), 3int,
    {
        let ghost entry = *self;
        let Pattern { kind, span } = pattern;
        let kind = match kind {
            PatternKind::Name { name, mutable } => {
                match expected {
                    Some(ty) => locals.insert(name.text.clone(), ty.copy()),
                    None => locals.remove(name.text.as_str()),
                }
                PatternKind::Name { name, mutable }
            },
            PatternKind::Binding { name, mutable, pattern, at_span } => {
                if let Some(ty) = expected {
                    locals.insert(name.text.clone(), ty.copy());
                }
                let pattern = self.pattern(*pattern, expected, substitutions, locals);
                PatternKind::Binding { name, mutable, pattern: Box::new(pattern), at_span }
            },
            PatternKind::Group(inner) => PatternKind::Group(
                Box::new(self.pattern(*inner, expected, substitutions, locals)),
            ),
            PatternKind::Evidence { constructor, evidence, at_span } => {
                let constructor = self.pattern(*constructor, expected, substitutions, locals);
                let evidence = self.pattern(*evidence, None, substitutions, locals);
                PatternKind::Evidence { constructor: Box::new(constructor), evidence: Box::new(evidence), at_span }
            },
            PatternKind::Tuple(parts) => {
                let fields = tuple_fields_of(expected);
                PatternKind::Tuple(self.parts(parts, span, fields, None, substitutions, locals))
            },
            PatternKind::Variant { path, arguments } => {
                let path = self.specialize_path(*path, None, expected, substitutions, locals);
                let fields = self.payload(&path, locals);
                let arguments = match arguments {
                    Some(parts) => Some(self.parts(parts, span, None, fields.as_ref(), substitutions, locals)),
                    None => None,
                };
                PatternKind::Variant { path: Box::new(path), arguments }
            },
            PatternKind::Struct { path, fields, rest } => {
                let path = self.specialize_path(*path, None, expected, substitutions, locals);
                let payload = self.payload(&path, locals);
                let fields = self.pattern_fields(fields, span, payload.as_ref(), substitutions, locals);
                PatternKind::Struct { path: Box::new(path), fields, rest }
            },
            other => other,
        };
        Pattern { kind, span }
    }

    /// The parts of a tuple or variant pattern, each expected to match the
    /// type of the field at its place.
    fn parts(
        &mut self,
        parts: Vec<Pattern>,
        span: Span,
        tuple_fields: Option<&Vec<TypeField>>,
        payload: Option<&Vec<TypeField>>,
        substitutions: &Types,
        locals: &mut Types,
    ) -> (result: Vec<Pattern>)
        requires
            old(self).wf(),
        ensures
            kept(*old(self), *final(self)),
            patterns_weight(result@) <= patterns_weight(parts@),
        decreases old(self).room(), old(self).height() + 2, 1 + patterns_weight(parts@), 1int,
    {
        let ghost entry = *self;
        let ghost total = patterns_weight(parts@);
        let count: usize = parts.len();
        let mut remaining = parts;
        let mut done: Vec<Pattern> = Vec::new();
        let mut index: usize = 0;
        while remaining.len() > 0
            invariant
                kept(entry, *self),
                entry.wf(),
                entry == *old(self),
                patterns_weight(done@) + patterns_weight(remaining@) <= total,
                total == patterns_weight(parts@),
                index == done@.len(),
                done@.len() + remaining@.len() == count,
                count <= usize::MAX,
            decreases remaining.len(),
        {
            let ghost before = remaining@;
            let part = remaining.remove(0);
            assert(remaining@ =~= before.drop_first());
            proof {
                lemma_patterns_first(before);
            }
            let ty = either(field_type_at(tuple_fields, index), field_type_at(payload, index));
            let part = self.pattern(part, ty, substitutions, locals);
            let ghost prior = done@;
            done.push(part);
            assert(done@.drop_last() =~= prior);
            index += 1;
        }
        done
    }

    /// The fields of a struct pattern, each expected to match the type of
    /// the field it names.
    fn pattern_fields(
        &mut self,
        fields: Vec<PatternField>,
        span: Span,
        payload: Option<&Vec<TypeField>>,
        substitutions: &Types,
        locals: &mut Types,
    ) -> (result: Vec<PatternField>)
        requires
            old(self).wf(),
        ensures
            kept(*old(self), *final(self)),
            pattern_fields_weight(result@) <= pattern_fields_weight(fields@),
        decreases old(self).room(), old(self).height() + 2, 1 + pattern_fields_weight(fields@), 1int,
    {
        let ghost entry = *self;
        let ghost total = pattern_fields_weight(fields@);
        let mut remaining = fields;
        let mut done: Vec<PatternField> = Vec::new();
        while remaining.len() > 0
            invariant
                kept(entry, *self),
                entry.wf(),
                entry == *old(self),
                pattern_fields_weight(done@) + pattern_fields_weight(remaining@) <= total,
                total == pattern_fields_weight(fields@),
            decreases remaining.len(),
        {
            let ghost before = remaining@;
            let field = remaining.remove(0);
            assert(remaining@ =~= before.drop_first());
            proof {
                lemma_pattern_fields_first(before);
            }
            let ty: Option<&Type> = match payload {
                Some(declared) => match field_named(declared, pattern_field_name(&field)) {
                    Some(index) => Some(&declared[index].ty),
                    None => None,
                },
                None => None,
            };
            let PatternField { name, pattern, span: field_span } = field;
            let pattern = self.pattern(pattern, ty, substitutions, locals);
            let ghost prior = done@;
            done.push(PatternField { name, pattern, span: field_span });
            assert(done@.drop_last() =~= prior);
        }
        done
    }

    /// The type arguments of a template's call, inferred from the type its
    /// result is expected to have and from the types of its arguments,
    /// which are specialized on the way; nothing where one stays unknown.
    fn infer_arguments(&mut self, name: &str, arguments: Vec<Expr>, expected: Option<&Type>, substitutions: &Types, locals: &Types) -> (result: (
        Vec<Expr>,
        Option<Vec<Type>>,
    ))
        requires
            old(self).wf(),
        ensures
            kept(*old(self), *final(self)),
            exprs_weight(result.0@) <= exprs_weight(arguments@),
        decreases old(self).room(), old(self).height() + 2, exprs_weight(arguments@), 6int,
    {
        let ghost entry = *self;
        let ghost total = exprs_weight(arguments@);
        let declaration = match self.template(name) {
            Some(index) => self.templates[index].1.copy(),
            None => return (arguments, None),
        };
        let Declaration { kind, span: declaration_span, .. } = declaration;
        let (generics, parameters, result) = match kind {
            DeclarationKind::Function { generics, parameters, result, .. } => (generics, parameters, result),
            DeclarationKind::Prop { generics, parameters, .. } => (
                generics,
                parameters,
                type_named("Prop", declaration_span),
            ),
            _ => return (arguments, None),
        };
        let mut names: Vec<String> = Vec::new();
        let mut index: usize = 0;
        while index < generics.len()
            invariant
                index <= generics@.len(),
            decreases generics.len() - index,
        {
            if !generics[index].lifetime {
                names.push(generics[index].name.text.clone());
            }
            index += 1;
        }
        let mut inferred = Types::new();
        if let Some(expected) = expected {
            infer_type_arguments(&result, expected, &names, &mut inferred, &self.origins);
        }
        let count: usize = arguments.len();
        let mut remaining = arguments;
        let mut done: Vec<Expr> = Vec::new();
        let mut index: usize = 0;
        while remaining.len() > 0
            invariant
                kept(entry, *self),
                entry.wf(),
                entry == *old(self),
                exprs_weight(done@) + exprs_weight(remaining@) <= total,
                total == exprs_weight(arguments@),
                index == done@.len(),
                done@.len() + remaining@.len() == count,
                count <= usize::MAX,
            decreases remaining.len(),
        {
            let ghost before = remaining@;
            let argument = remaining.remove(0);
            assert(remaining@ =~= before.drop_first());
            proof {
                lemma_exprs_first(before);
            }
            if index < parameters.len() {
                let (argument, actual) = self.expr(argument, None, substitutions, locals);
                if let Some(actual) = actual {
                    infer_type_arguments(&parameters[index].ty, &actual, &names, &mut inferred, &self.origins);
                }
                let ghost prior = done@;
                done.push(argument);
                assert(done@.drop_last() =~= prior);
            } else {
                let ghost prior = done@;
                done.push(argument);
                assert(done@.drop_last() =~= prior);
            }
            index += 1;
        }
        let mut types: Vec<Type> = Vec::new();
        let mut index: usize = 0;
        while index < names.len()
            invariant
                index <= names@.len(),
                kept(entry, *self),
                entry == *old(self),
                exprs_weight(done@) <= total,
                total == exprs_weight(arguments@),
            decreases names.len() - index,
        {
            match inferred.get(names[index].as_str()) {
                Some(ty) => types.push(ty.copy()),
                None => return (done, None),
            }
            index += 1;
        }
        (done, Some(types))
    }
}

/// How many declarations a declaration holds, itself included: an impl
/// block holds its methods.
spec fn declaration_count(declaration: Declaration) -> nat
    decreases declaration,
{
    1 + match declaration.kind {
        DeclarationKind::Impl { methods, .. } => declarations_count(methods@),
        _ => 0,
    }
}

/// How many declarations a list of declarations holds.
spec fn declarations_count(declarations: Seq<Declaration>) -> nat
    decreases declarations,
{
    if declarations.len() == 0 {
        0
    } else {
        declarations_count(declarations.drop_last()) + declaration_count(declarations.last())
    }
}

/// Two lists of declarations hold together what they hold apart.
proof fn lemma_declarations_concat(left: Seq<Declaration>, right: Seq<Declaration>)
    ensures
        declarations_count(left + right) == declarations_count(left) + declarations_count(right),
    decreases right.len(),
{
    if right.len() == 0 {
        assert(left + right =~= left);
    } else {
        lemma_declarations_concat(left, right.drop_last());
        assert((left + right).drop_last() =~= left + right.drop_last());
    }
}

/// A list of declarations holds its first one's and the rest's.
proof fn lemma_declarations_first(s: Seq<Declaration>)
    requires
        s.len() > 0,
    ensures
        declarations_count(s) == declaration_count(s[0]) + declarations_count(s.drop_first()),
{
    let head = seq![s[0]];
    assert(s =~= head + s.drop_first());
    lemma_declarations_concat(head, s.drop_first());
    assert(head.drop_last() =~= Seq::<Declaration>::empty());
    assert(declarations_count(Seq::<Declaration>::empty()) == 0);
    assert(head.last() == s[0]);
}

impl<'a> Specializer<'a> {
    /// The parameters of a function or proposition, their types specialized
    /// and each bound in the scope.
    fn signature_parameters(&mut self, parameters: Vec<Parameter>, substitutions: &Types, locals: &mut Types) -> (result: Vec<Parameter>)
        requires
            old(self).wf(),
        ensures
            kept(*old(self), *final(self)),
            result@.len() == parameters@.len(),
            forall|i: int|
                #![trigger result@[i]]
                0 <= i < parameters@.len() ==> result@[i].name == parameters@[i].name && result@[i].span
                    == parameters@[i].span && result@[i].mutable == parameters@[i].mutable,
    {
        let ghost entry = *self;
        let mut remaining = parameters;
        let mut done: Vec<Parameter> = Vec::new();
        while remaining.len() > 0
            invariant
                kept(entry, *self),
                entry.wf(),
                entry == *old(self),
                done@.len() + remaining@.len() == parameters@.len(),
                remaining@ == parameters@.skip(done@.len() as int),
                forall|i: int|
                    #![trigger done@[i]]
                    0 <= i < done@.len() ==> done@[i].name == parameters@[i].name && done@[i].span
                        == parameters@[i].span && done@[i].mutable == parameters@[i].mutable,
            decreases remaining.len(),
        {
            let Parameter { mutable, name, ty, span } = remaining.remove(0);
            assert(remaining@ == parameters@.skip(done@.len() as int + 1));
            let ty = self.ty(ty, substitutions, locals);
            locals.insert(name.text.clone(), ty.copy());
            done.push(Parameter { mutable, name, ty, span });
        }
        done
    }

    /// Specializes a declaration at the substitutions of its instance: its
    /// types, its bodies and the expressions of its attributes.
    fn declaration(&mut self, declaration: Declaration, substitutions: &Types) -> (result: Declaration)
        requires
            old(self).wf(),
        ensures
            kept(*old(self), *final(self)),
            result.declared() == declaration.declared(),
            result.generics() == declaration.generics(),
        decreases declaration_count(declaration),
    {
        let ghost entry = *self;
        let ghost count = declaration_count(declaration);
        let mut locals = Types::new();
        let Declaration { doc, attributes, visibility, kind, span } = declaration;
        let kind = match kind {
            DeclarationKind::Module { name, body } => {
                self.diagnostics.push(
                    Diagnostic::error("L0500", String::from_str("modules require the project loader"), span),
                );
                DeclarationKind::Module { name, body }
            },
            DeclarationKind::Use { imports } => {
                self.diagnostics.push(
                    Diagnostic::error("L0500", String::from_str("modules require the project loader"), span),
                );
                DeclarationKind::Use { imports }
            },
            DeclarationKind::Function { logical, generics, name, self_param, parameters, result, body } => {
                let parameters = self.signature_parameters(parameters, substitutions, &mut locals);
                let result = self.ty(result, substitutions, &locals);
                let previous = match &self.return_type {
                    Some(ty) => Some(ty.copy()),
                    None => None,
                };
                self.return_type = Some(result.copy());
                let (body, _) = self.block(body, Some(&result), substitutions, &mut locals);
                self.return_type = previous;
                DeclarationKind::Function { logical, generics, name, self_param, parameters, result, body }
            },
            DeclarationKind::Struct { generics, name, fields } => {
                let mut remaining = fields;
                let mut done: Vec<Field> = Vec::new();
                while remaining.len() > 0
                    invariant
                        kept(entry, *self),
                        entry.wf(),
                    decreases remaining.len(),
                {
                    let Field { doc, visibility, name, ty, span } = remaining.remove(0);
                    let ty = self.ty(ty, substitutions, &locals);
                    locals.insert(name.text.clone(), ty.copy());
                    done.push(Field { doc, visibility, name, ty, span });
                }
                DeclarationKind::Struct { generics, name, fields: done }
            },
            DeclarationKind::Enum { generics, name, variants } => {
                let mut remaining = variants;
                let mut done: Vec<Variant> = Vec::new();
                while remaining.len() > 0
                    invariant
                        kept(entry, *self),
                        entry.wf(),
                    decreases remaining.len(),
                {
                    let Variant { doc, name, shape, fields, span } = remaining.remove(0);
                    let mut scope = Types::new();
                    let fields = self.fields(fields, substitutions, &mut scope);
                    done.push(Variant { doc, name, shape, fields, span });
                }
                DeclarationKind::Enum { generics, name, variants: done }
            },
            DeclarationKind::Prop { generics, name, parameters, variants } => {
                let parameters = self.signature_parameters(parameters, substitutions, &mut locals);
                let mut remaining = variants;
                let mut done: Vec<PropVariant> = Vec::new();
                while remaining.len() > 0
                    invariant
                        kept(entry, *self),
                        entry.wf(),
                    decreases remaining.len(),
                {
                    let PropVariant { doc, name, shape, fields, target, body, span } = remaining.remove(0);
                    let mut scope = locals.copy();
                    let fields = self.fields(fields, substitutions, &mut scope);
                    let target = match target {
                        Some(target) => {
                            let (target, _) = self.expr(target, None, substitutions, &scope);
                            Some(target)
                        },
                        None => None,
                    };
                    let body = match body {
                        Some(body) => {
                            let (body, _) = self.block(body, None, substitutions, &mut scope);
                            Some(body)
                        },
                        None => None,
                    };
                    done.push(PropVariant { doc, name, shape, fields, target, body, span });
                }
                DeclarationKind::Prop { generics, name, parameters, variants: done }
            },
            DeclarationKind::Constant { name, ty, value } => {
                let ty = self.ty(ty, substitutions, &locals);
                let (value, _) = self.expr(value, Some(&ty), substitutions, &locals);
                DeclarationKind::Constant { name, ty, value }
            },
            DeclarationKind::Impl { model, target, methods } => {
                let ghost method_count = declarations_count(methods@);
                let mut scope = substitutions.copy();
                let mut target = target;
                let mut methods = methods;
                let model = match model {
                    Some(model) => {
                        let ModelImpl { source, target: model_target, span: model_span } = model;
                        self.gate(model_span);
                        let source = self.ty(source, &scope, &locals);
                        let model_target = self.ty(model_target, &scope, &locals);
                        if let Some(name) = name_of_type(&model_target) {
                            target = Path { segments: vec![name.copy()], span: model_target.span };
                        }
                        scope.insert(String::from_str("Self"), model_target.copy());
                        if methods.len() == 1 {
                            let ghost old_methods = methods@;
                            let only = methods.remove(0);
                            let ghost before = only;
                            let Declaration { doc, attributes, visibility, kind, span } = only;
                            let kind = match kind {
                                DeclarationKind::Function { logical, generics, name, self_param, parameters, result, body } => {
                                    let name = if same_text(name.text.as_str(), "model") {
                                        let mut text = String::from_str("__model_");
                                        text.append(decimal_text(self.model_serial as u64).as_str());
                                        self.model_serial = self.model_serial.saturating_add(1);
                                        Name { text, span: name.span }
                                    } else {
                                        name
                                    };
                                    DeclarationKind::Function { logical, generics, name, self_param, parameters, result, body }
                                },
                                other => other,
                            };
                            let renamed = Declaration { doc, attributes, visibility, kind, span };
                            assert(declaration_count(renamed) == declaration_count(before));
                            methods.push(renamed);
                            proof {
                                assert(methods@.drop_last() =~= Seq::<Declaration>::empty());
                                assert(old_methods.drop_last() =~= Seq::<Declaration>::empty());
                                assert(declarations_count(Seq::<Declaration>::empty()) == 0);
                                assert(old_methods.last() == before);
                            }
                        }
                        Some(ModelImpl { source, target: model_target, span: model_span })
                    },
                    None => None,
                };
                assert(declarations_count(methods@) == method_count);
                let mut remaining = methods;
                let mut done: Vec<Declaration> = Vec::new();
                while remaining.len() > 0
                    invariant
                        kept(entry, *self),
                        entry.wf(),
                        declarations_count(remaining@) <= method_count,
                        count == 1 + method_count,
                        count == declaration_count(declaration),
                    decreases remaining.len(),
                {
                    let ghost before = remaining@;
                    let method = remaining.remove(0);
                    proof {
                        lemma_declarations_first(before);
                        assert(remaining@ =~= before.drop_first());
                    }
                    if parameters(&method).len() > 0 {
                        self.error(
                            String::from_str(
                                "generic methods in impl blocks are not supported yet; use a generic free function",
                            ),
                            method.span,
                        );
                    }
                    let method = self.declaration(method, &scope);
                    done.push(method);
                }
                DeclarationKind::Impl { model, target, methods: done }
            },
        };
        let mut remaining = attributes;
        let mut done: Vec<Attribute> = Vec::new();
        while remaining.len() > 0
            invariant
                kept(entry, *self),
                entry.wf(),
            decreases remaining.len(),
        {
            let Attribute { kind: attribute, span: attribute_span } = remaining.remove(0);
            let attribute = match attribute {
                AttributeKind::Terminates { decreases: Some(expr) } => {
                    let (expr, _) = self.expr(expr, None, substitutions, &locals);
                    AttributeKind::Terminates { decreases: Some(expr) }
                },
                other => other,
            };
            done.push(Attribute { kind: attribute, span: attribute_span });
        }
        Declaration { doc, attributes: done, visibility, kind, span }
    }
}

/// A name at a span.
fn name_at(text: &str, span: Span) -> (result: Name)
    ensures
        result.text@ == text@,
        result.span == span,
{
    Name { text: String::from_str(text), span }
}

/// A type parameter, bound by `Logical` or by nothing.
fn type_parameter(text: &str, logical: bool, span: Span) -> (result: GenericParameter)
    ensures
        !result.lifetime,
        result.name.text@ == text@,
        result.name.span == span,
        result.span == span,
        result.bounds@.len() == if logical { 1int } else { 0int },
        logical ==> result.bounds@[0].segments@.len() == 1 && result.bounds@[0].segments@[0].text@ == "Logical"@
            && result.bounds@[0].segments@[0].span == span && result.bounds@[0].span == span,
{
    let bounds = if logical {
        vec![Path { segments: vec![name_at("Logical", span)], span }]
    } else {
        Vec::new()
    };
    GenericParameter { lifetime: false, name: name_at(text, span), bounds, span }
}

/// `logic Fn(value: T) -> outcome`.
fn predicate_type(outcome: Type, span: Span) -> (result: Type)
    ensures
        result.span == span,
        result.kind is LogicalFunction,
        *result.kind->LogicalFunction_result == outcome,
        result.kind->LogicalFunction_parameters@.len() == 1,
        result.kind->LogicalFunction_parameters@[0].span == span,
        result.kind->LogicalFunction_parameters@[0].name == Some(Name { text: result.kind->LogicalFunction_parameters@[0].name->0.text, span }),
        result.kind->LogicalFunction_parameters@[0].name->0.text@ == "value"@,
        result.kind->LogicalFunction_parameters@[0].ty.span == span,
        result.kind->LogicalFunction_parameters@[0].ty.kind is Named,
        result.kind->LogicalFunction_parameters@[0].ty.kind->Named_0.text@ == "T"@,
        result.kind->LogicalFunction_parameters@[0].ty.kind->Named_0.span == span,
{
    let value = TypeField { name: Some(name_at("value", span)), ty: type_named("T", span), span };
    Type { kind: TypeKind::LogicalFunction { parameters: vec![value], result: Box::new(outcome) }, span }
}

/// `predicate(value)`.
fn predicate_applied(span: Span) -> (result: Expr)
    ensures
        result.span == span,
        result.kind is Call,
        result.kind->Call_callee.span == span,
        result.kind->Call_callee.kind is Name,
        result.kind->Call_callee.kind->Name_0.text@ == "predicate"@,
        result.kind->Call_callee.kind->Name_0.span == span,
        result.kind->Call_arguments@.len() == 1,
        result.kind->Call_arguments@[0].span == span,
        result.kind->Call_arguments@[0].kind is Name,
        result.kind->Call_arguments@[0].kind->Name_0.text@ == "value"@,
        result.kind->Call_arguments@[0].kind->Name_0.span == span,
{
    let callee = Expr { kind: ExprKind::Name(name_at("predicate", span)), span };
    let value = Expr { kind: ExprKind::Name(name_at("value", span)), span };
    Expr { kind: ExprKind::Call { callee: Box::new(callee), arguments: vec![value] }, span }
}

/// A variant of an enum, with unnamed fields of the types named.
fn enum_variant(text: &str, field: Option<&str>, span: Span) -> (result: Variant)
    ensures
        result.doc@.len() == 0,
        result.name.text@ == text@,
        result.name.span == span,
        result.span == span,
        match field {
            Some(ty) => {
                &&& result.shape == VariantShape::Tuple
                &&& result.fields@.len() == 1
                &&& result.fields@[0].name is None
                &&& result.fields@[0].span == span
                &&& result.fields@[0].ty.span == span
                &&& result.fields@[0].ty.kind is Named
                &&& result.fields@[0].ty.kind->Named_0.text@ == ty@
                &&& result.fields@[0].ty.kind->Named_0.span == span
            },
            None => result.shape == VariantShape::Unit && result.fields@.len() == 0,
        },
{
    match field {
        Some(ty) => Variant {
            doc: Vec::new(),
            name: name_at(text, span),
            shape: VariantShape::Tuple,
            fields: vec![TypeField { name: None, ty: type_named(ty, span), span }],
            span,
        },
        None => Variant {
            doc: Vec::new(),
            name: name_at(text, span),
            shape: VariantShape::Unit,
            fields: Vec::new(),
            span,
        },
    }
}

/// A declaration with no documentation or attributes.
fn plain_declaration(public: bool, kind: DeclarationKind, span: Span) -> (result: Declaration)
    ensures
        result.doc@.len() == 0,
        result.attributes@.len() == 0,
        result.visibility == if public {
            Some(Visibility { scope: VisibilityScope::Public, span })
        } else {
            None
        },
        result.kind == kind,
        result.span == span,
{
    let visibility = if public {
        Some(Visibility { scope: VisibilityScope::Public, span })
    } else {
        None
    };
    Declaration { doc: Vec::new(), attributes: Vec::new(), visibility, kind, span }
}

/// The declaration of a quantifier proposition over a `predicate`:
/// `prop Name<T: Logical>(predicate: logic Fn(value: T) -> Prop) { arm }`.
fn quantifier_declaration(text: &str, arm: PropVariant, span: Span) -> (result: Declaration)
    ensures
        result.doc@.len() == 0,
        result.attributes@.len() == 0,
        result.visibility is None,
        result.span == span,
        result.kind matches DeclarationKind::Prop { generics, name, parameters, variants } && name.text@ == text@
            && name.span == span && generics@.len() == 1 && !generics@[0].lifetime && generics@[0].name.text@
            == "T"@ && generics@[0].bounds@.len() == 1 && parameters@.len() == 1 && parameters@[0].name.text@
            == "predicate"@ && !parameters@[0].mutable && parameters@[0].ty.kind is LogicalFunction && variants@
            == seq![arm],
{
    let predicate = Parameter {
        mutable: false,
        name: name_at("predicate", span),
        ty: predicate_type(type_named("Prop", span), span),
        span,
    };
    plain_declaration(
        false,
        DeclarationKind::Prop {
            generics: vec![type_parameter("T", true, span)],
            name: name_at(text, span),
            parameters: vec![predicate],
            variants: vec![arm],
        },
        span,
    )
}

/// The generic prelude, each part at the span given:
///
/// ```text
/// pub enum Option<T> { None, Some(T) }
/// pub enum Result<T, E> { Ok(T), Err(E) }
/// prop Exists<T: Logical>(predicate: logic Fn(value: T) -> Prop) {
///     Witness(value: T) => { predicate(value) }
/// }
/// prop ForAll<T: Logical>(predicate: logic Fn(value: T) -> Prop) {
///     Each(prove_each: logic Fn(value: T) -> @predicate(value)) => { prop!(true) }
/// }
/// ```
fn generic_prelude(span: Span) -> (result: Vec<Declaration>)
    ensures
        result@.len() == 4,
        result@[0].declared() == Some("Option"@) && result@[0].kind is Enum && result@[0].generics().len() == 1,
        result@[1].declared() == Some("Result"@) && result@[1].kind is Enum && result@[1].generics().len() == 2,
        result@[2].declared() == Some("Exists"@) && result@[2].kind is Prop && result@[2].generics().len() == 1,
        result@[3].declared() == Some("ForAll"@) && result@[3].kind is Prop && result@[3].generics().len() == 1,
        forall|i: int, j: int|
            0 <= i < 4 && 0 <= j < result@[i].generics().len() ==> !(#[trigger] result@[i].generics()[j]).lifetime,
        forall|i: int| 0 <= i < 4 ==> (#[trigger] result@[i]).span == span,
        result@[0].kind matches DeclarationKind::Enum { variants, .. } && variants@.len() == 2
            && variants@[0].name.text@ == "None"@ && variants@[1].name.text@ == "Some"@,
        result@[1].kind matches DeclarationKind::Enum { variants, .. } && variants@.len() == 2
            && variants@[0].name.text@ == "Ok"@ && variants@[1].name.text@ == "Err"@,
        result@[2].kind matches DeclarationKind::Prop { variants, .. } && variants@.len() == 1
            && variants@[0].name.text@ == "Witness"@,
        result@[3].kind matches DeclarationKind::Prop { variants, .. } && variants@.len() == 1
            && variants@[0].name.text@ == "Each"@,
{
    let option = plain_declaration(
        true,
        DeclarationKind::Enum {
            generics: vec![type_parameter("T", false, span)],
            name: name_at("Option", span),
            variants: vec![enum_variant("None", None, span), enum_variant("Some", Some("T"), span)],
        },
        span,
    );
    let result = plain_declaration(
        true,
        DeclarationKind::Enum {
            generics: vec![type_parameter("T", false, span), type_parameter("E", false, span)],
            name: name_at("Result", span),
            variants: vec![enum_variant("Ok", Some("T"), span), enum_variant("Err", Some("E"), span)],
        },
        span,
    );
    let witness = PropVariant {
        doc: Vec::new(),
        name: name_at("Witness", span),
        shape: VariantShape::Tuple,
        fields: vec![TypeField { name: Some(name_at("value", span)), ty: type_named("T", span), span }],
        target: None,
        body: Some(Block { statements: Vec::new(), tail: Some(Box::new(predicate_applied(span))), span }),
        span,
    };
    let claim = Type { kind: TypeKind::Proof(Box::new(predicate_applied(span))), span };
    let truth = Expr {
        kind: ExprKind::Form {
            form: Form::Prop,
            name_span: span,
            arguments: vec![Expr { kind: ExprKind::Bool(true), span }],
            source_hint: None,
        },
        span,
    };
    let each = PropVariant {
        doc: Vec::new(),
        name: name_at("Each", span),
        shape: VariantShape::Tuple,
        fields: vec![TypeField { name: Some(name_at("prove_each", span)), ty: predicate_type(claim, span), span }],
        target: None,
        body: Some(Block { statements: Vec::new(), tail: Some(Box::new(truth)), span }),
        span,
    };
    vec![
        option,
        result,
        quantifier_declaration("Exists", witness, span),
        quantifier_declaration("ForAll", each, span),
    ]
}

/// The declarations without type parameters, in order.
pub open spec fn monomorphic_of(declarations: Seq<Declaration>) -> Seq<Declaration>
    decreases declarations.len(),
{
    if declarations.len() == 0 {
        Seq::empty()
    } else {
        let earlier = monomorphic_of(declarations.drop_last());
        if declarations.last().is_monomorphic() {
            earlier.push(declarations.last())
        } else {
            earlier
        }
    }
}

/// Whether quantifier pairs come in the order of their `Exists` instances'
/// names.
pub open spec fn sorted_by_exists(pairs: Seq<QuantifierNames>) -> bool {
    forall|i: int, j: int| 0 <= i < j < pairs.len() ==> !text_less(#[trigger] pairs[j].exists@, #[trigger] pairs[i].exists@)
}

/// Puts quantifier pairs in the order of their `Exists` instances' names,
/// those with equal names in the order they came.
#[verifier::spinoff_prover]
fn sort_by_exists(pairs: Vec<QuantifierNames>) -> (result: Vec<QuantifierNames>)
    ensures
        sorted_by_exists(result@),
        result@.len() == pairs@.len(),
{
    let count: usize = pairs.len();
    let mut remaining = pairs;
    let mut sorted: Vec<QuantifierNames> = Vec::new();
    while remaining.len() > 0
        invariant
            sorted_by_exists(sorted@),
            sorted@.len() + remaining@.len() == count,
        decreases remaining.len(),
    {
        let pair = remaining.remove(0);
        let mut at: usize = 0;
        while at < sorted.len() && !precedes(pair.exists.as_str(), sorted[at].exists.as_str())
            invariant
                at <= sorted@.len(),
                forall|i: int| 0 <= i < at ==> !text_less(pair.exists@, #[trigger] sorted@[i].exists@),
            decreases sorted.len() - at,
        {
            at += 1;
        }
        let ghost before = sorted@;
        proof {
            assert forall|j: int| at <= j < before.len() implies !text_less(#[trigger] before[j].exists@, pair.exists@) by {
                lemma_text_order(before[j].exists@, pair.exists@, before[at as int].exists@);
                lemma_text_order(pair.exists@, before[at as int].exists@, before[j].exists@);
                if j > at {
                    assert(!text_less(before[j].exists@, before[at as int].exists@));
                }
            }
        }
        sorted.insert(at, pair);
        proof {
            assert forall|i: int, j: int| 0 <= i < j < sorted@.len() implies !text_less(
                #[trigger] sorted@[j].exists@,
                #[trigger] sorted@[i].exists@,
            ) by {
                if j < at {
                    assert(sorted@[i] == before[i] && sorted@[j] == before[j]);
                } else if j == at {
                    assert(sorted@[i] == before[i]);
                } else if i < at {
                    assert(sorted@[i] == before[i] && sorted@[j] == before[j - 1]);
                } else if i == at {
                    assert(sorted@[j] == before[j - 1]);
                } else {
                    assert(sorted@[i] == before[i - 1] && sorted@[j] == before[j - 1]);
                }
            }
        }
    }
    sorted
}

/// Expands the generic declarations of a program into their instances.
/// No declaration of the program it returns has a type parameter; the
/// program's own declarations without one come first, in their order and
/// under their names, and each instance after them has a name of its own,
/// which no declaration of the program has.
///
/// The generic prelude's `Option`, `Result`, `Exists` and `ForAll` are
/// declared after the program's own declarations, where the program does
/// not declare those names; they carry the span of the program's first
/// declaration. Every monomorphic declaration of the program is
/// specialized in order, then every instance in the order it was first
/// needed. Returns the program of those declarations, the diagnostics, and
/// the pairs of `Exists` and `ForAll` instances made at one type, in the
/// order of the `Exists` instances' names.
pub fn specialize(program: &Program, previews: &Previews) -> (result: (Program, Vec<Diagnostic>, Vec<QuantifierNames>))
    ensures
        forall|i: int| 0 <= i < result.0.declarations@.len() ==> (#[trigger] result.0.declarations@[i]).is_monomorphic(),
        monomorphic_of(program.declarations@).len() <= result.0.declarations@.len(),
        forall|i: int|
            0 <= i < monomorphic_of(program.declarations@).len() ==> (#[trigger] result.0.declarations@[i]).declared()
                == monomorphic_of(program.declarations@)[i].declared() && same_generic_names(
                monomorphic_of(program.declarations@)[i].generics(),
                result.0.declarations@[i].generics(),
            ),
        forall|i: int|
            monomorphic_of(program.declarations@).len() <= i < result.0.declarations@.len() ==> {
                &&& (#[trigger] result.0.declarations@[i]).declared() is Some
                &&& forall|j: int|
                    0 <= j < program.declarations@.len() ==> program.declarations@[j].declared()
                        != result.0.declarations@[i].declared()
            },
        forall|i: int, k: int|
            monomorphic_of(program.declarations@).len() <= i < k < result.0.declarations@.len() ==> (
            #[trigger] result.0.declarations@[i]).declared() != (#[trigger] result.0.declarations@[k]).declared(),
        sorted_by_exists(result.2@),
{
    let mut pass = Specializer {
        previews,
        templates: Vec::new(),
        declarations: Vec::new(),
        instances: Vec::new(),
        origins: Vec::new(),
        queue: Vec::new(),
        head: 0,
        names: Vec::new(),
        diagnostics: Vec::new(),
        depth: 0,
        return_type: None,
        model_serial: 0,
        quantifier_templates: Vec::new(),
        reserved: Ghost(Set::empty()),
    };
    let mut index: usize = 0;
    while index < program.declarations.len()
        invariant
            index <= program.declarations@.len(),
            pass.wf(),
            pass.instances@.len() == 0,
            pass.queue@.len() == 0,
            forall|j: int|
                0 <= j < index ==> ((#[trigger] program.declarations@[j]).declared() matches Some(text) ==> holds(
                    pass.names@,
                    text,
                )),
        decreases program.declarations.len() - index,
    {
        pass.register(program.declarations[index].copy(), false);
        index += 1;
    }
    let mut index: usize = 0;
    while index < program.declarations.len()
        invariant
            index <= program.declarations@.len(),
            pass.wf(),
            pass.instances@.len() == 0,
            pass.queue@.len() == 0,
            forall|j: int|
                0 <= j < program.declarations@.len() ==> ((#[trigger] program.declarations@[j]).declared() matches Some(
                    text,
                ) ==> holds(pass.names@, text)),
        decreases program.declarations.len() - index,
    {
        if let DeclarationKind::Impl { target, model: None, methods } = &program.declarations[index].kind {
            let self_type = Type {
                span: target.span,
                kind: TypeKind::Path { path: Box::new(target.copy()), arguments: Vec::new() },
            };
            let mut at: usize = 0;
            while at < methods.len()
                invariant
                    at <= methods@.len(),
                    pass.wf(),
                    pass.instances@.len() == 0,
                    pass.queue@.len() == 0,
                    forall|j: int|
                        0 <= j < program.declarations@.len() ==> ((#[trigger] program.declarations@[j]).declared() matches Some(
                            text,
                        ) ==> holds(pass.names@, text)),
                decreases methods.len() - at,
            {
                if let Some(name) = declaration_name(&methods[at]) {
                    let mut key = target.text();
                    key.append("::");
                    key.append(name.text.as_str());
                    let mut substitutions = Types::new();
                    substitutions.insert(String::from_str("Self"), self_type.copy());
                    pass.declare(key, methods[at].copy(), substitutions);
                }
                at += 1;
            }
        }
        index += 1;
    }
    let prelude_span = if program.declarations.len() > 0 {
        program.declarations[0].span
    } else {
        Span::new(0, 0, 0)
    };
    let mut prelude = generic_prelude(prelude_span);
    while prelude.len() > 0
        invariant
            pass.wf(),
            pass.instances@.len() == 0,
            pass.queue@.len() == 0,
            forall|j: int|
                0 <= j < program.declarations@.len() ==> ((#[trigger] program.declarations@[j]).declared() matches Some(
                    text,
                ) ==> holds(pass.names@, text)),
        decreases prelude.len(),
    {
        let declaration = prelude.remove(0);
        let name = match declaration_name(&declaration) {
            Some(name) => name.text.clone(),
            None => String::new(),
        };
        if !holds_text(&pass.names, name.as_str()) {
            if same_text(name.as_str(), "Exists") || same_text(name.as_str(), "ForAll") {
                insert_text(&mut pass.quantifier_templates, name);
            }
            pass.register(declaration, true);
        }
    }
    pass.reserved = Ghost(Set::new(|text: Seq<char>| holds(pass.names@, text)));
    let ghost own = monomorphic_of(program.declarations@);
    let mut index: usize = 0;
    while index < program.declarations.len()
        invariant
            index <= program.declarations@.len(),
            pass.wf(),
            pass.instances@.len() == 0,
            pass.head == 0,
            forall|j: int|
                0 <= j < program.declarations@.len() ==> ((#[trigger] program.declarations@[j]).declared() matches Some(
                    text,
                ) ==> pass.reserved@.contains(text)),
            pass.queue@.len() == monomorphic_of(program.declarations@.take(index as int)).len(),
            forall|i: int|
                0 <= i < pass.queue@.len() ==> (#[trigger] pass.queue@[i]).0.declared() == monomorphic_of(
                    program.declarations@.take(index as int),
                )[i].declared() && same_generic_names(
                    monomorphic_of(program.declarations@.take(index as int))[i].generics(),
                    pass.queue@[i].0.generics(),
                ),
        decreases program.declarations.len() - index,
    {
        let declaration = &program.declarations[index];
        let ghost before = pass.queue@;
        assert(program.declarations@.take(index + 1).drop_last() =~= program.declarations@.take(index as int));
        if parameters(declaration).len() == 0 {
            pass.queue.push((declaration.copy(), Types::new()));
        }
        index += 1;
    }
    assert(program.declarations@.take(index as int) =~= program.declarations@);
    let mut declarations: Vec<Declaration> = Vec::new();
    while pass.head < pass.queue.len()
        invariant
            pass.wf(),
            own == monomorphic_of(program.declarations@),
            own.len() <= pass.queue@.len(),
            pass.queue@.len() - pass.instances@.len() == own.len(),
            forall|j: int|
                0 <= j < program.declarations@.len() ==> ((#[trigger] program.declarations@[j]).declared() matches Some(
                    text,
                ) ==> pass.reserved@.contains(text)),
            forall|i: int|
                0 <= i < own.len() ==> (#[trigger] pass.queue@[i]).0.declared() == own[i].declared()
                    && same_generic_names(own[i].generics(), pass.queue@[i].0.generics()),
            declarations@.len() == pass.head,
            forall|i: int|
                0 <= i < declarations@.len() ==> (#[trigger] declarations@[i]).declared() == pass.queue@[i].0.declared()
                    && same_generic_names(pass.queue@[i].0.generics(), declarations@[i].generics()),
            forall|i: int| 0 <= i < declarations@.len() ==> (#[trigger] declarations@[i]).is_monomorphic(),
        decreases pass.room() + (pass.queue@.len() - pass.head),
    {
        let head = pass.head;
        let declaration = pass.queue[head].0.copy();
        let substitutions = pass.queue[head].1.copy();
        pass.head = head + 1;
        let ghost queued = pass;
        let declaration = pass.declaration(declaration, &substitutions);
        if let Some(name) = declaration_name(&declaration) {
            pass.declare(name.text.clone(), declaration.copy(), Types::new());
        }
        assert(declaration.is_monomorphic()) by {
            assert(queued.queue@[head as int].0.is_monomorphic());
        }
        declarations.push(declaration);
    }
    proof {
        let count = own.len();
        assert forall|i: int| count <= i < declarations@.len() implies {
            &&& (#[trigger] declarations@[i]).declared() is Some
            &&& forall|j: int|
                0 <= j < program.declarations@.len() ==> program.declarations@[j].declared() != declarations@[i].declared()
        } by {
            let at = i - count;
            assert(pass.queue@.len() - pass.instances@.len() + at == i);
            assert(pass.instances@[at].1@ == pass.instances@[at].1@);
            assert(pass.queue@[i].0.declared() == Some(pass.instances@[at].1@));
            assert(!pass.reserved@.contains(pass.instances@[at].1@));
            assert forall|j: int| 0 <= j < program.declarations@.len() implies program.declarations@[j].declared()
                != declarations@[i].declared() by {
                if let Some(text) = program.declarations@[j].declared() {
                    assert(pass.reserved@.contains(text));
                }
            }
        }
        assert forall|i: int, k: int| count <= i < k < declarations@.len() implies (
        #[trigger] declarations@[i]).declared() != (#[trigger] declarations@[k]).declared() by {
            let (a, b) = (i - count, k - count);
            assert(pass.queue@.len() - pass.instances@.len() + a == i);
            assert(pass.queue@.len() - pass.instances@.len() + b == k);
            assert(pass.instances@[a].1@ == pass.instances@[a].1@);
            assert(pass.instances@[b].1@ == pass.instances@[b].1@);
            assert(pass.queue@[i].0.declared() == Some(pass.instances@[a].1@));
            assert(pass.queue@[k].0.declared() == Some(pass.instances@[b].1@));
        }
    }
    let mut quantifiers: Vec<QuantifierNames> = Vec::new();
    if holds_text(&pass.quantifier_templates, "Exists") && holds_text(&pass.quantifier_templates, "ForAll") {
        let mut index: usize = 0;
        while index < pass.origins.len()
            invariant
                index <= pass.origins@.len(),
            decreases pass.origins.len() - index,
        {
            let (name, template, arguments) = (&pass.origins[index].0, &pass.origins[index].1, &pass.origins[index].2);
            if same_text(template.as_str(), "Exists") && arguments.len() == 1 {
                let key = type_key(&arguments[0]);
                let element = arguments[0].copy();
                let mut at: usize = 0;
                while at < pass.origins.len()
                    invariant
                        at <= pass.origins@.len(),
                    decreases pass.origins.len() - at,
                {
                    let other = &pass.origins[at];
                    if same_text(other.1.as_str(), "ForAll") && other.2.len() == 1 && same_text(
                        type_key(&other.2[0]).as_str(),
                        key.as_str(),
                    ) {
                        quantifiers.push(
                            QuantifierNames { element: element.copy(), exists: name.clone(), forall: other.0.clone() },
                        );
                        break;
                    }
                    at += 1;
                }
            }
            index += 1;
        }
    }
    let quantifiers = sort_by_exists(quantifiers);
    let program = Program {
        doc: copy_doc_comments(&program.doc),
        attributes: copy_attributes(&program.attributes),
        declarations,
    };
    (program, pass.diagnostics, quantifiers)
}
} // verus!
