//! Structural keys of types and expressions: each node is written as its
//! variant's tag and the keys of its parts, every span left out, every text
//! quoted. Two occurrences of one type at different places in the source
//! have the same key.

use crate::ast::{
    Block, Expr, ExprKind, IntegerLiteral, MatchArm, Name, Parameter, Path, Pattern, PatternField, PatternKind,
    Statement, StatementKind, Type, TypeField, TypeKind, ValueField,
};
use crate::elab::generics::{debug_text, text_debug};
use crate::integer::signed_decimal;
use vstd::prelude::*;
use vstd::string::{StrSliceExecFns, StringExecFns};

verus! {

/// The key of a name: its text, quoted, in angle brackets.
pub open spec fn name_shape(name: Name) -> Seq<char> {
    "<"@ + text_debug(name.text@) + ">"@
}

/// The key of a text: quoted, after an apostrophe.
pub open spec fn string_shape(text: Seq<char>) -> Seq<char> {
    "'"@ + text_debug(text)
}

/// The key of a flag.
pub open spec fn flag_shape(value: bool) -> Seq<char> {
    if value {
        "1"@
    } else {
        "0"@
    }
}

/// The key of a name that may be absent.
pub open spec fn optional_name_shape(name: Option<Name>) -> Seq<char> {
    match name {
        Some(name) => "+"@ + name_shape(name),
        None => "-"@,
    }
}

/// The key of a path: its segments.
pub open spec fn path_shape(path: Path) -> Seq<char> {
    names_shape(path.segments@)
}

/// The key of an integer literal: its value in decimal, and its suffix.
pub open spec fn literal_shape(literal: IntegerLiteral) -> Seq<char> {
    "("@ + signed_decimal(literal.value@) + (match literal.suffix {
        Some(suffix) => "+"@ + text_debug(suffix.spelled()@),
        None => "-"@,
    }) + ")"@
}

/// The key of a field of a tuple or function type.
pub open spec fn type_field_shape(field: TypeField) -> Seq<char>
    decreases field,
{
    "("@ + optional_name_shape(field.name) + type_shape(field.ty) + ")"@
}

/// The key of a field of a struct pattern.
pub open spec fn pattern_field_shape(field: PatternField) -> Seq<char>
    decreases field,
{
    "("@ + optional_name_shape(field.name) + pattern_shape(field.pattern) + ")"@
}

/// The key of a field of a struct literal.
pub open spec fn value_field_shape(field: ValueField) -> Seq<char>
    decreases field,
{
    "("@ + optional_name_shape(field.name) + expr_shape(field.value) + ")"@
}

/// The key of a match arm.
pub open spec fn arm_shape(arm: MatchArm) -> Seq<char>
    decreases arm,
{
    "("@ + pattern_shape(arm.pattern) + expr_shape(arm.body) + ")"@
}

/// The key of a parameter.
pub open spec fn parameter_shape(parameter: Parameter) -> Seq<char>
    decreases parameter,
{
    "("@ + flag_shape(parameter.mutable) + name_shape(parameter.name) + type_shape(parameter.ty) + ")"@
}

/// The key of a block: its statements and its tail.
pub open spec fn block_shape(block: Block) -> Seq<char>
    decreases block,
{
    "{"@ + ("["@ + statements_items(block.statements@) + "]"@) + (match block.tail {
        Some(tail) => "+"@ + expr_shape(*tail),
        None => "-"@,
    }) + "}"@
}

/// The key of a type: each node its variant's tag and its parts, spans left out.
pub open spec fn type_shape(ty: Type) -> Seq<char>
    decreases ty,
{
    match ty.kind {
        TypeKind::Named(name) => "#0("@ + name_shape(name) + ")"@,
        TypeKind::Lifetime(name) => "#1("@ + name_shape(name) + ")"@,
        TypeKind::Path { path, arguments } => "#2("@ + path_shape(*path) + ("["@ + types_items(arguments@) + "]"@) + ")"@,
        TypeKind::Unit => "#3("@ + ")"@,
        TypeKind::Slice(inner) => "#4("@ + type_shape(*inner) + ")"@,
        TypeKind::Array { element, length } => "#5("@ + type_shape(*element) + expr_shape(*length) + ")"@,
        TypeKind::Group(inner) => "#6("@ + type_shape(*inner) + ")"@,
        TypeKind::Tuple(fields) => "#7("@ + ("["@ + type_fields_items(fields@) + "]"@) + ")"@,
        TypeKind::Proof(claim) => "#8("@ + expr_shape(*claim) + ")"@,
        TypeKind::Function { parameters, result } => "#9("@ + ("["@ + type_fields_items(parameters@) + "]"@) + type_shape(*result) + ")"@,
        TypeKind::LogicalFunction { parameters, result } => "#10("@ + ("["@ + type_fields_items(parameters@) + "]"@) + type_shape(*result) + ")"@,
        TypeKind::Ref { lifetime, mutable, inner } => "#11("@ + optional_name_shape(lifetime) + flag_shape(mutable) + type_shape(*inner) + ")"@,
        TypeKind::Never => "#12("@ + ")"@,
    }
}
/// The key of a pattern.
pub open spec fn pattern_shape(pattern: Pattern) -> Seq<char>
    decreases pattern,
{
    match pattern.kind {
        PatternKind::Name { name, mutable } => "#0("@ + name_shape(name) + flag_shape(mutable) + ")"@,
        PatternKind::Binding { name, mutable, pattern, .. } => "#1("@ + name_shape(name) + flag_shape(mutable) + pattern_shape(*pattern) + ")"@,
        PatternKind::Evidence { constructor, evidence, .. } => "#2("@ + pattern_shape(*constructor) + pattern_shape(*evidence) + ")"@,
        PatternKind::Wildcard => "#3("@ + ")"@,
        PatternKind::Unit => "#4("@ + ")"@,
        PatternKind::Bool(value) => "#5("@ + flag_shape(value) + ")"@,
        PatternKind::Integer(literal) => "#6("@ + literal_shape(literal) + ")"@,
        PatternKind::Group(inner) => "#7("@ + pattern_shape(*inner) + ")"@,
        PatternKind::Tuple(items) => "#8("@ + ("["@ + patterns_items(items@) + "]"@) + ")"@,
        PatternKind::Struct { path, fields, rest } => "#9("@ + path_shape(*path) + ("["@ + pattern_fields_items(fields@) + "]"@) + (if rest is Some { "+"@ } else { "-"@ }) + ")"@,
        PatternKind::Variant { path, arguments } => "#10("@ + path_shape(*path) + (match arguments { Some(items) => "+"@ + ("["@ + patterns_items(items@) + "]"@), None => "-"@ }) + ")"@,
    }
}
/// The key of a statement.
pub open spec fn statement_shape(statement: Statement) -> Seq<char>
    decreases statement,
{
    match statement.kind {
        StatementKind::Let { mutable, pattern, annotation, value } => "#0("@ + flag_shape(mutable) + pattern_shape(pattern) + (match annotation { Some(ty) => "+"@ + type_shape(ty), None => "-"@ }) + expr_shape(value) + ")"@,
        StatementKind::Assign { place, value } => "#1("@ + expr_shape(place) + expr_shape(value) + ")"@,
        StatementKind::Expression(value) => "#2("@ + expr_shape(value) + ")"@,
        StatementKind::Error => "#3("@ + ")"@,
    }
}
/// The key of an expression.
pub open spec fn expr_shape(expr: Expr) -> Seq<char>
    decreases expr,
{
    match expr.kind {
        ExprKind::Name(name) => "#0("@ + name_shape(name) + ")"@,
        ExprKind::Path(path) => "#1("@ + path_shape(*path) + ")"@,
        ExprKind::Integer(literal) => "#2("@ + literal_shape(literal) + ")"@,
        ExprKind::String(text) => "#3("@ + string_shape(text@) + ")"@,
        ExprKind::Bool(value) => "#4("@ + flag_shape(value) + ")"@,
        ExprKind::Unit => "#5("@ + ")"@,
        ExprKind::Hole => "#6("@ + ")"@,
        ExprKind::Group(inner) => "#7("@ + expr_shape(*inner) + ")"@,
        ExprKind::Tuple(values) => "#8("@ + ("["@ + exprs_items(values@) + "]"@) + ")"@,
        ExprKind::Array(values) => "#9("@ + ("["@ + exprs_items(values@) + "]"@) + ")"@,
        ExprKind::Subscript { value, index } => "#10("@ + expr_shape(*value) + expr_shape(*index) + ")"@,
        ExprKind::Form { form, arguments, source_hint, .. } => "#11("@ + text_debug(form.spelled()@) + ("["@ + exprs_items(arguments@) + "]"@) + (match source_hint { Some(ty) => "+"@ + type_shape(*ty), None => "-"@ }) + ")"@,
        ExprKind::Struct { path, fields } => "#12("@ + path_shape(path) + ("["@ + value_fields_items(fields@) + "]"@) + ")"@,
        ExprKind::Block(block) => "#13("@ + block_shape(block) + ")"@,
        ExprKind::Logic(block) => "#14("@ + block_shape(block) + ")"@,
        ExprKind::Evidence { constructor, evidence, .. } => "#15("@ + expr_shape(*constructor) + expr_shape(*evidence) + ")"@,
        ExprKind::If { condition, then_branch, else_branch } => "#16("@ + expr_shape(*condition) + block_shape(then_branch) + expr_shape(*else_branch) + ")"@,
        ExprKind::Match { scrutinee, arms } => "#17("@ + expr_shape(*scrutinee) + ("["@ + arms_items(arms@) + "]"@) + ")"@,
        ExprKind::Loop { body } => "#18("@ + block_shape(body) + ")"@,
        ExprKind::While { pattern, condition, body } => "#19("@ + (match pattern { Some(pattern) => "+"@ + pattern_shape(*pattern), None => "-"@ }) + expr_shape(*condition) + block_shape(body) + ")"@,
        ExprKind::For { pattern, iterable, body } => "#20("@ + pattern_shape(*pattern) + expr_shape(*iterable) + block_shape(body) + ")"@,
        ExprKind::Range { kind, lower, upper } => "#21("@ + text_debug(kind.spelled()@) + expr_shape(*lower) + expr_shape(*upper) + ")"@,
        ExprKind::Break(value) => "#22("@ + (match value { Some(value) => "+"@ + expr_shape(*value), None => "-"@ }) + ")"@,
        ExprKind::Continue => "#23("@ + ")"@,
        ExprKind::Return(value) => "#24("@ + (match value { Some(value) => "+"@ + expr_shape(*value), None => "-"@ }) + ")"@,
        ExprKind::Ref { mutable, expr } => "#25("@ + flag_shape(mutable) + expr_shape(*expr) + ")"@,
        ExprKind::Forall { parameters, body } => "#26("@ + ("["@ + parameters_items(parameters@) + "]"@) + block_shape(body) + ")"@,
        ExprKind::Exists { parameters, body } => "#27("@ + ("["@ + parameters_items(parameters@) + "]"@) + block_shape(body) + ")"@,
        ExprKind::Not(inner) => "#28("@ + expr_shape(*inner) + ")"@,
        ExprKind::Unary { operator, expr, .. } => "#29("@ + text_debug(operator.spelled()@) + expr_shape(*expr) + ")"@,
        ExprKind::Binary { operator, left, right, .. } => "#30("@ + text_debug(operator.spelled()@) + expr_shape(*left) + expr_shape(*right) + ")"@,
        ExprKind::Cast { expr, source_hint, ty, .. } => "#31("@ + expr_shape(*expr) + (match source_hint { Some(ty) => "+"@ + type_shape(*ty), None => "-"@ }) + type_shape(ty) + ")"@,
        ExprKind::Call { callee, arguments } => "#32("@ + expr_shape(*callee) + ("["@ + exprs_items(arguments@) + "]"@) + ")"@,
        ExprKind::Closure { parameters, body } => "#33("@ + ("["@ + parameters_items(parameters@) + "]"@) + expr_shape(*body) + ")"@,
        ExprKind::GenericApply { callee, arguments } => "#34("@ + expr_shape(*callee) + ("["@ + types_items(arguments@) + "]"@) + ")"@,
        ExprKind::Member { value, name } => "#35("@ + expr_shape(*value) + name_shape(name) + ")"@,
        ExprKind::Index { value, index, .. } => "#36("@ + expr_shape(*value) + string_shape(index@) + ")"@,
        ExprKind::Error => "#37("@ + ")"@,
    }
}
/// The keys of types, one after another.
pub open spec fn types_items(items: Seq<Type>) -> Seq<char>
    decreases items,
{
    if items.len() == 0 {
        Seq::empty()
    } else {
        types_items(items.drop_last()) + type_shape(items.last())
    }
}

/// The key of a list of types: their keys, bracketed.
pub open spec fn types_shape(items: Seq<Type>) -> Seq<char> {
    "["@ + types_items(items) + "]"@
}

/// The keys of type fields, one after another.
pub open spec fn type_fields_items(items: Seq<TypeField>) -> Seq<char>
    decreases items,
{
    if items.len() == 0 {
        Seq::empty()
    } else {
        type_fields_items(items.drop_last()) + type_field_shape(items.last())
    }
}

/// The key of a list of type fields: their keys, bracketed.
pub open spec fn type_fields_shape(items: Seq<TypeField>) -> Seq<char> {
    "["@ + type_fields_items(items) + "]"@
}

/// The keys of patterns, one after another.
pub open spec fn patterns_items(items: Seq<Pattern>) -> Seq<char>
    decreases items,
{
    if items.len() == 0 {
        Seq::empty()
    } else {
        patterns_items(items.drop_last()) + pattern_shape(items.last())
    }
}

/// The key of a list of patterns: their keys, bracketed.
pub open spec fn patterns_shape(items: Seq<Pattern>) -> Seq<char> {
    "["@ + patterns_items(items) + "]"@
}

/// The keys of pattern fields, one after another.
pub open spec fn pattern_fields_items(items: Seq<PatternField>) -> Seq<char>
    decreases items,
{
    if items.len() == 0 {
        Seq::empty()
    } else {
        pattern_fields_items(items.drop_last()) + pattern_field_shape(items.last())
    }
}

/// The key of a list of pattern fields: their keys, bracketed.
pub open spec fn pattern_fields_shape(items: Seq<PatternField>) -> Seq<char> {
    "["@ + pattern_fields_items(items) + "]"@
}

/// The keys of statements, one after another.
pub open spec fn statements_items(items: Seq<Statement>) -> Seq<char>
    decreases items,
{
    if items.len() == 0 {
        Seq::empty()
    } else {
        statements_items(items.drop_last()) + statement_shape(items.last())
    }
}

/// The key of a list of statements: their keys, bracketed.
pub open spec fn statements_shape(items: Seq<Statement>) -> Seq<char> {
    "["@ + statements_items(items) + "]"@
}

/// The keys of exprs, one after another.
pub open spec fn exprs_items(items: Seq<Expr>) -> Seq<char>
    decreases items,
{
    if items.len() == 0 {
        Seq::empty()
    } else {
        exprs_items(items.drop_last()) + expr_shape(items.last())
    }
}

/// The key of a list of exprs: their keys, bracketed.
pub open spec fn exprs_shape(items: Seq<Expr>) -> Seq<char> {
    "["@ + exprs_items(items) + "]"@
}

/// The keys of value fields, one after another.
pub open spec fn value_fields_items(items: Seq<ValueField>) -> Seq<char>
    decreases items,
{
    if items.len() == 0 {
        Seq::empty()
    } else {
        value_fields_items(items.drop_last()) + value_field_shape(items.last())
    }
}

/// The key of a list of value fields: their keys, bracketed.
pub open spec fn value_fields_shape(items: Seq<ValueField>) -> Seq<char> {
    "["@ + value_fields_items(items) + "]"@
}

/// The keys of arms, one after another.
pub open spec fn arms_items(items: Seq<MatchArm>) -> Seq<char>
    decreases items,
{
    if items.len() == 0 {
        Seq::empty()
    } else {
        arms_items(items.drop_last()) + arm_shape(items.last())
    }
}

/// The key of a list of arms: their keys, bracketed.
pub open spec fn arms_shape(items: Seq<MatchArm>) -> Seq<char> {
    "["@ + arms_items(items) + "]"@
}

/// The keys of parameters, one after another.
pub open spec fn parameters_items(items: Seq<Parameter>) -> Seq<char>
    decreases items,
{
    if items.len() == 0 {
        Seq::empty()
    } else {
        parameters_items(items.drop_last()) + parameter_shape(items.last())
    }
}

/// The key of a list of parameters: their keys, bracketed.
pub open spec fn parameters_shape(items: Seq<Parameter>) -> Seq<char> {
    "["@ + parameters_items(items) + "]"@
}

/// The keys of names, one after another.
pub open spec fn names_items(items: Seq<Name>) -> Seq<char>
    decreases items,
{
    if items.len() == 0 {
        Seq::empty()
    } else {
        names_items(items.drop_last()) + name_shape(items.last())
    }
}

/// The key of a list of names: their keys, bracketed.
pub open spec fn names_shape(items: Seq<Name>) -> Seq<char> {
    "["@ + names_items(items) + "]"@
}


/// Writes the key of a name.
pub fn write_name(out: &mut String, name: &Name)
    ensures
        final(out)@ == old(out)@ + name_shape(*name),
{
    let ghost start = out@;
    out.append("<");
    let quoted = debug_text(name.text.as_str());
    out.append(quoted.as_str());
    out.append(">");
    assert(out@ =~= start + name_shape(*name));
}

/// Writes the key of a text.
pub fn write_string(out: &mut String, text: &String)
    ensures
        final(out)@ == old(out)@ + string_shape(text@),
{
    let ghost start = out@;
    out.append("'");
    let quoted = debug_text(text.as_str());
    out.append(quoted.as_str());
    assert(out@ =~= start + string_shape(text@));
}

/// Writes the key of a flag.
pub fn write_flag(out: &mut String, value: bool)
    ensures
        final(out)@ == old(out)@ + flag_shape(value),
{
    if value {
        out.append("1");
    } else {
        out.append("0");
    }
}

/// Writes the key of a path.
pub fn write_path(out: &mut String, path: &Path)
    ensures
        final(out)@ == old(out)@ + path_shape(*path),
{
    write_names(out, &path.segments);
}

/// Writes the key of an integer literal.
pub fn write_literal(out: &mut String, literal: &IntegerLiteral)
    ensures
        final(out)@ == old(out)@ + literal_shape(*literal),
{
    let ghost start = out@;
    out.append("(");
    let digits = literal.value.text();
    out.append(digits.as_str());
    match literal.suffix {
        Some(suffix) => {
            out.append("+");
            let quoted = debug_text(suffix.name());
            out.append(quoted.as_str());
        },
        None => {
            out.append("-");
        },
    }
    out.append(")");
    assert(out@ =~= start + literal_shape(*literal));
}

/// Writes the key of a field of a tuple or function type.
pub fn write_type_field(out: &mut String, field: &TypeField)
    ensures
        final(out)@ == old(out)@ + type_field_shape(*field),
    decreases field,
{
    let ghost start = out@;
    out.append("(");
    match &field.name {
        Some(name) => {
            out.append("+");
            write_name(out, name);
        },
        None => {
            out.append("-");
        },
    }
    write_type(out, &field.ty);
    out.append(")");
    assert(out@ =~= start + type_field_shape(*field));
}

/// Writes the key of a field of a struct pattern.
pub fn write_pattern_field(out: &mut String, field: &PatternField)
    ensures
        final(out)@ == old(out)@ + pattern_field_shape(*field),
    decreases field,
{
    let ghost start = out@;
    out.append("(");
    match &field.name {
        Some(name) => {
            out.append("+");
            write_name(out, name);
        },
        None => {
            out.append("-");
        },
    }
    write_pattern(out, &field.pattern);
    out.append(")");
    assert(out@ =~= start + pattern_field_shape(*field));
}

/// Writes the key of a field of a struct literal.
pub fn write_value_field(out: &mut String, field: &ValueField)
    ensures
        final(out)@ == old(out)@ + value_field_shape(*field),
    decreases field,
{
    let ghost start = out@;
    out.append("(");
    match &field.name {
        Some(name) => {
            out.append("+");
            write_name(out, name);
        },
        None => {
            out.append("-");
        },
    }
    write_expr(out, &field.value);
    out.append(")");
    assert(out@ =~= start + value_field_shape(*field));
}

/// Writes the key of a match arm.
pub fn write_arm(out: &mut String, arm: &MatchArm)
    ensures
        final(out)@ == old(out)@ + arm_shape(*arm),
    decreases arm,
{
    let ghost start = out@;
    out.append("(");
    write_pattern(out, &arm.pattern);
    write_expr(out, &arm.body);
    out.append(")");
    assert(out@ =~= start + arm_shape(*arm));
}

/// Writes the key of a parameter.
pub fn write_parameter(out: &mut String, parameter: &Parameter)
    ensures
        final(out)@ == old(out)@ + parameter_shape(*parameter),
    decreases parameter,
{
    let ghost start = out@;
    out.append("(");
    write_flag(out, parameter.mutable);
    write_name(out, &parameter.name);
    write_type(out, &parameter.ty);
    out.append(")");
    assert(out@ =~= start + parameter_shape(*parameter));
}

/// Writes the key of a block.
pub fn write_block(out: &mut String, block: &Block)
    ensures
        final(out)@ == old(out)@ + block_shape(*block),
    decreases block,
{
    let ghost start = out@;
    out.append("{");
    write_statements(out, &block.statements);
    match &block.tail {
        Some(tail) => {
            out.append("+");
            write_expr(out, tail);
        },
        None => {
            out.append("-");
        },
    }
    out.append("}");
    assert(out@ =~= start + block_shape(*block));
}

/// Writes the key of a type.
pub fn write_type(out: &mut String, ty: &Type)
    ensures
        final(out)@ == old(out)@ + type_shape(*ty),
    decreases ty,
{
    let ghost start = out@;
    match &ty.kind {
        TypeKind::Named(name) => {
            out.append("#0(");
            write_name(out, name);
            out.append(")");
        },
        TypeKind::Lifetime(name) => {
            out.append("#1(");
            write_name(out, name);
            out.append(")");
        },
        TypeKind::Path { path, arguments } => {
            out.append("#2(");
            write_path(out, path);
            write_types(out, arguments);
            out.append(")");
        },
        TypeKind::Unit => {
            out.append("#3(");
            out.append(")");
        },
        TypeKind::Slice(inner) => {
            out.append("#4(");
            write_type(out, inner);
            out.append(")");
        },
        TypeKind::Array { element, length } => {
            out.append("#5(");
            write_type(out, element);
            write_expr(out, length);
            out.append(")");
        },
        TypeKind::Group(inner) => {
            out.append("#6(");
            write_type(out, inner);
            out.append(")");
        },
        TypeKind::Tuple(fields) => {
            out.append("#7(");
            write_type_fields(out, fields);
            out.append(")");
        },
        TypeKind::Proof(claim) => {
            out.append("#8(");
            write_expr(out, claim);
            out.append(")");
        },
        TypeKind::Function { parameters, result } => {
            out.append("#9(");
            write_type_fields(out, parameters);
            write_type(out, result);
            out.append(")");
        },
        TypeKind::LogicalFunction { parameters, result } => {
            out.append("#10(");
            write_type_fields(out, parameters);
            write_type(out, result);
            out.append(")");
        },
        TypeKind::Ref { lifetime, mutable, inner } => {
            out.append("#11(");
            match lifetime { Some(name) => { out.append("+"); write_name(out, name); }, None => { out.append("-"); } }
            write_flag(out, *mutable);
            write_type(out, inner);
            out.append(")");
        },
        TypeKind::Never => {
            out.append("#12(");
            out.append(")");
        },
    }
    assert(out@ =~= start + type_shape(*ty));
}
/// Writes the key of a pattern.
pub fn write_pattern(out: &mut String, pattern: &Pattern)
    ensures
        final(out)@ == old(out)@ + pattern_shape(*pattern),
    decreases pattern,
{
    let ghost start = out@;
    match &pattern.kind {
        PatternKind::Name { name, mutable } => {
            out.append("#0(");
            write_name(out, name);
            write_flag(out, *mutable);
            out.append(")");
        },
        PatternKind::Binding { name, mutable, pattern, .. } => {
            out.append("#1(");
            write_name(out, name);
            write_flag(out, *mutable);
            write_pattern(out, pattern);
            out.append(")");
        },
        PatternKind::Evidence { constructor, evidence, .. } => {
            out.append("#2(");
            write_pattern(out, constructor);
            write_pattern(out, evidence);
            out.append(")");
        },
        PatternKind::Wildcard => {
            out.append("#3(");
            out.append(")");
        },
        PatternKind::Unit => {
            out.append("#4(");
            out.append(")");
        },
        PatternKind::Bool(value) => {
            out.append("#5(");
            write_flag(out, *value);
            out.append(")");
        },
        PatternKind::Integer(literal) => {
            out.append("#6(");
            write_literal(out, literal);
            out.append(")");
        },
        PatternKind::Group(inner) => {
            out.append("#7(");
            write_pattern(out, inner);
            out.append(")");
        },
        PatternKind::Tuple(items) => {
            out.append("#8(");
            write_patterns(out, items);
            out.append(")");
        },
        PatternKind::Struct { path, fields, rest } => {
            out.append("#9(");
            write_path(out, path);
            write_pattern_fields(out, fields);
            if rest.is_some() { out.append("+"); } else { out.append("-"); }
            out.append(")");
        },
        PatternKind::Variant { path, arguments } => {
            out.append("#10(");
            write_path(out, path);
            match arguments { Some(items) => { out.append("+"); write_patterns(out, items); }, None => { out.append("-"); } }
            out.append(")");
        },
    }
    assert(out@ =~= start + pattern_shape(*pattern));
}
/// Writes the key of a statement.
pub fn write_statement(out: &mut String, statement: &Statement)
    ensures
        final(out)@ == old(out)@ + statement_shape(*statement),
    decreases statement,
{
    let ghost start = out@;
    match &statement.kind {
        StatementKind::Let { mutable, pattern, annotation, value } => {
            out.append("#0(");
            write_flag(out, *mutable);
            write_pattern(out, pattern);
            match annotation { Some(ty) => { out.append("+"); write_type(out, ty); }, None => { out.append("-"); } }
            write_expr(out, value);
            out.append(")");
        },
        StatementKind::Assign { place, value } => {
            out.append("#1(");
            write_expr(out, place);
            write_expr(out, value);
            out.append(")");
        },
        StatementKind::Expression(value) => {
            out.append("#2(");
            write_expr(out, value);
            out.append(")");
        },
        StatementKind::Error => {
            out.append("#3(");
            out.append(")");
        },
    }
    assert(out@ =~= start + statement_shape(*statement));
}
/// Writes the key of an expression.
#[verifier::spinoff_prover]
#[verifier::rlimit(50)]
pub fn write_expr(out: &mut String, expr: &Expr)
    ensures
        final(out)@ == old(out)@ + expr_shape(*expr),
    decreases expr,
{
    let ghost start = out@;
    let ghost whole = *expr;
    match &expr.kind {
        ExprKind::Name(name) => {
            out.append("#0(");
            write_name(out, name);
            out.append(")");
            assert(out@ =~= start + expr_shape(whole));
        },
        ExprKind::Path(path) => {
            out.append("#1(");
            write_path(out, path);
            out.append(")");
            assert(out@ =~= start + expr_shape(whole));
        },
        ExprKind::Integer(literal) => {
            out.append("#2(");
            write_literal(out, literal);
            out.append(")");
            assert(out@ =~= start + expr_shape(whole));
        },
        ExprKind::String(text) => {
            out.append("#3(");
            write_string(out, text);
            out.append(")");
            assert(out@ =~= start + expr_shape(whole));
        },
        ExprKind::Bool(value) => {
            out.append("#4(");
            write_flag(out, *value);
            out.append(")");
            assert(out@ =~= start + expr_shape(whole));
        },
        ExprKind::Unit => {
            out.append("#5(");
            out.append(")");
            assert(out@ =~= start + expr_shape(whole));
        },
        ExprKind::Hole => {
            out.append("#6(");
            out.append(")");
            assert(out@ =~= start + expr_shape(whole));
        },
        ExprKind::Group(inner) => {
            out.append("#7(");
            write_expr(out, inner);
            out.append(")");
            assert(out@ =~= start + expr_shape(whole));
        },
        ExprKind::Tuple(values) => {
            out.append("#8(");
            write_exprs(out, values);
            out.append(")");
            assert(out@ =~= start + expr_shape(whole));
        },
        ExprKind::Array(values) => {
            out.append("#9(");
            write_exprs(out, values);
            out.append(")");
            assert(out@ =~= start + expr_shape(whole));
        },
        ExprKind::Subscript { value, index } => {
            out.append("#10(");
            write_expr(out, value);
            write_expr(out, index);
            out.append(")");
            assert(out@ =~= start + expr_shape(whole));
        },
        ExprKind::Form { form, arguments, source_hint, .. } => {
            out.append("#11(");
            out.append(debug_text(form.name()).as_str());
            write_exprs(out, arguments);
            match source_hint { Some(ty) => { out.append("+"); write_type(out, ty); }, None => { out.append("-"); } }
            out.append(")");
            assert(out@ =~= start + expr_shape(whole));
        },
        ExprKind::Struct { path, fields } => {
            out.append("#12(");
            write_path(out, path);
            write_value_fields(out, fields);
            out.append(")");
            assert(out@ =~= start + expr_shape(whole));
        },
        ExprKind::Block(block) => {
            out.append("#13(");
            write_block(out, block);
            out.append(")");
            assert(out@ =~= start + expr_shape(whole));
        },
        ExprKind::Logic(block) => {
            out.append("#14(");
            write_block(out, block);
            out.append(")");
            assert(out@ =~= start + expr_shape(whole));
        },
        ExprKind::Evidence { constructor, evidence, .. } => {
            out.append("#15(");
            write_expr(out, constructor);
            write_expr(out, evidence);
            out.append(")");
            assert(out@ =~= start + expr_shape(whole));
        },
        ExprKind::If { condition, then_branch, else_branch } => {
            out.append("#16(");
            write_expr(out, condition);
            write_block(out, then_branch);
            write_expr(out, else_branch);
            out.append(")");
            assert(out@ =~= start + expr_shape(whole));
        },
        ExprKind::Match { scrutinee, arms } => {
            out.append("#17(");
            write_expr(out, scrutinee);
            write_arms(out, arms);
            out.append(")");
            assert(out@ =~= start + expr_shape(whole));
        },
        ExprKind::Loop { body } => {
            out.append("#18(");
            write_block(out, body);
            out.append(")");
            assert(out@ =~= start + expr_shape(whole));
        },
        ExprKind::While { pattern, condition, body } => {
            out.append("#19(");
            match pattern { Some(pattern) => { out.append("+"); write_pattern(out, pattern); }, None => { out.append("-"); } }
            write_expr(out, condition);
            write_block(out, body);
            out.append(")");
            assert(out@ =~= start + expr_shape(whole));
        },
        ExprKind::For { pattern, iterable, body } => {
            out.append("#20(");
            write_pattern(out, pattern);
            write_expr(out, iterable);
            write_block(out, body);
            out.append(")");
            assert(out@ =~= start + expr_shape(whole));
        },
        ExprKind::Range { kind, lower, upper } => {
            out.append("#21(");
            out.append(debug_text(kind.spelling()).as_str());
            write_expr(out, lower);
            write_expr(out, upper);
            out.append(")");
            assert(out@ =~= start + expr_shape(whole));
        },
        ExprKind::Break(value) => {
            out.append("#22(");
            match value { Some(value) => { out.append("+"); write_expr(out, value); }, None => { out.append("-"); } }
            out.append(")");
            assert(out@ =~= start + expr_shape(whole));
        },
        ExprKind::Continue => {
            out.append("#23(");
            out.append(")");
            assert(out@ =~= start + expr_shape(whole));
        },
        ExprKind::Return(value) => {
            out.append("#24(");
            match value { Some(value) => { out.append("+"); write_expr(out, value); }, None => { out.append("-"); } }
            out.append(")");
            assert(out@ =~= start + expr_shape(whole));
        },
        ExprKind::Ref { mutable, expr } => {
            out.append("#25(");
            write_flag(out, *mutable);
            write_expr(out, expr);
            out.append(")");
            assert(out@ =~= start + expr_shape(whole));
        },
        ExprKind::Forall { parameters, body } => {
            out.append("#26(");
            write_parameters(out, parameters);
            write_block(out, body);
            out.append(")");
            assert(out@ =~= start + expr_shape(whole));
        },
        ExprKind::Exists { parameters, body } => {
            out.append("#27(");
            write_parameters(out, parameters);
            write_block(out, body);
            out.append(")");
            assert(out@ =~= start + expr_shape(whole));
        },
        ExprKind::Not(inner) => {
            out.append("#28(");
            write_expr(out, inner);
            out.append(")");
            assert(out@ =~= start + expr_shape(whole));
        },
        ExprKind::Unary { operator, expr, .. } => {
            out.append("#29(");
            out.append(debug_text(operator.spelling()).as_str());
            write_expr(out, expr);
            out.append(")");
            assert(out@ =~= start + expr_shape(whole));
        },
        ExprKind::Binary { operator, left, right, .. } => {
            out.append("#30(");
            out.append(debug_text(operator.spelling()).as_str());
            write_expr(out, left);
            write_expr(out, right);
            out.append(")");
            assert(out@ =~= start + expr_shape(whole));
        },
        ExprKind::Cast { expr, source_hint, ty, .. } => {
            out.append("#31(");
            write_expr(out, expr);
            match source_hint { Some(ty) => { out.append("+"); write_type(out, ty); }, None => { out.append("-"); } }
            write_type(out, ty);
            out.append(")");
            assert(out@ =~= start + expr_shape(whole));
        },
        ExprKind::Call { callee, arguments } => {
            out.append("#32(");
            write_expr(out, callee);
            write_exprs(out, arguments);
            out.append(")");
            assert(out@ =~= start + expr_shape(whole));
        },
        ExprKind::Closure { parameters, body } => {
            out.append("#33(");
            write_parameters(out, parameters);
            write_expr(out, body);
            out.append(")");
            assert(out@ =~= start + expr_shape(whole));
        },
        ExprKind::GenericApply { callee, arguments } => {
            out.append("#34(");
            write_expr(out, callee);
            write_types(out, arguments);
            out.append(")");
            assert(out@ =~= start + expr_shape(whole));
        },
        ExprKind::Member { value, name } => {
            out.append("#35(");
            write_expr(out, value);
            write_name(out, name);
            out.append(")");
            assert(out@ =~= start + expr_shape(whole));
        },
        ExprKind::Index { value, index, .. } => {
            out.append("#36(");
            write_expr(out, value);
            write_string(out, index);
            out.append(")");
            assert(out@ =~= start + expr_shape(whole));
        },
        ExprKind::Error => {
            out.append("#37(");
            out.append(")");
            assert(out@ =~= start + expr_shape(whole));
        },
    }
}
/// Writes the key of a list of types.
pub fn write_types(out: &mut String, items: &Vec<Type>)
    ensures
        final(out)@ == old(out)@ + types_shape(items@),
    decreases items,
{
    let ghost start = out@;
    out.append("[");
    let mut index: usize = 0;
    while index < items.len()
        invariant
            index <= items@.len(),
            out@ == start + "["@ + types_items(items@.take(index as int)),
        decreases items.len() - index,
    {
        let ghost before = out@;
        write_type(out, &items[index]);
        proof {
            let next = items@.take(index + 1);
            assert(next.drop_last() =~= items@.take(index as int));
            assert(next.last() == items@[index as int]);
            assert(out@ =~= start + "["@ + types_items(next));
        }
        index += 1;
    }
    assert(items@.take(items@.len() as int) =~= items@);
    out.append("]");
    assert(out@ =~= start + types_shape(items@));
}

/// Writes the key of a list of type fields.
pub fn write_type_fields(out: &mut String, items: &Vec<TypeField>)
    ensures
        final(out)@ == old(out)@ + type_fields_shape(items@),
    decreases items,
{
    let ghost start = out@;
    out.append("[");
    let mut index: usize = 0;
    while index < items.len()
        invariant
            index <= items@.len(),
            out@ == start + "["@ + type_fields_items(items@.take(index as int)),
        decreases items.len() - index,
    {
        let ghost before = out@;
        write_type_field(out, &items[index]);
        proof {
            let next = items@.take(index + 1);
            assert(next.drop_last() =~= items@.take(index as int));
            assert(next.last() == items@[index as int]);
            assert(out@ =~= start + "["@ + type_fields_items(next));
        }
        index += 1;
    }
    assert(items@.take(items@.len() as int) =~= items@);
    out.append("]");
    assert(out@ =~= start + type_fields_shape(items@));
}

/// Writes the key of a list of patterns.
pub fn write_patterns(out: &mut String, items: &Vec<Pattern>)
    ensures
        final(out)@ == old(out)@ + patterns_shape(items@),
    decreases items,
{
    let ghost start = out@;
    out.append("[");
    let mut index: usize = 0;
    while index < items.len()
        invariant
            index <= items@.len(),
            out@ == start + "["@ + patterns_items(items@.take(index as int)),
        decreases items.len() - index,
    {
        let ghost before = out@;
        write_pattern(out, &items[index]);
        proof {
            let next = items@.take(index + 1);
            assert(next.drop_last() =~= items@.take(index as int));
            assert(next.last() == items@[index as int]);
            assert(out@ =~= start + "["@ + patterns_items(next));
        }
        index += 1;
    }
    assert(items@.take(items@.len() as int) =~= items@);
    out.append("]");
    assert(out@ =~= start + patterns_shape(items@));
}

/// Writes the key of a list of pattern fields.
pub fn write_pattern_fields(out: &mut String, items: &Vec<PatternField>)
    ensures
        final(out)@ == old(out)@ + pattern_fields_shape(items@),
    decreases items,
{
    let ghost start = out@;
    out.append("[");
    let mut index: usize = 0;
    while index < items.len()
        invariant
            index <= items@.len(),
            out@ == start + "["@ + pattern_fields_items(items@.take(index as int)),
        decreases items.len() - index,
    {
        let ghost before = out@;
        write_pattern_field(out, &items[index]);
        proof {
            let next = items@.take(index + 1);
            assert(next.drop_last() =~= items@.take(index as int));
            assert(next.last() == items@[index as int]);
            assert(out@ =~= start + "["@ + pattern_fields_items(next));
        }
        index += 1;
    }
    assert(items@.take(items@.len() as int) =~= items@);
    out.append("]");
    assert(out@ =~= start + pattern_fields_shape(items@));
}

/// Writes the key of a list of statements.
pub fn write_statements(out: &mut String, items: &Vec<Statement>)
    ensures
        final(out)@ == old(out)@ + statements_shape(items@),
    decreases items,
{
    let ghost start = out@;
    out.append("[");
    let mut index: usize = 0;
    while index < items.len()
        invariant
            index <= items@.len(),
            out@ == start + "["@ + statements_items(items@.take(index as int)),
        decreases items.len() - index,
    {
        let ghost before = out@;
        write_statement(out, &items[index]);
        proof {
            let next = items@.take(index + 1);
            assert(next.drop_last() =~= items@.take(index as int));
            assert(next.last() == items@[index as int]);
            assert(out@ =~= start + "["@ + statements_items(next));
        }
        index += 1;
    }
    assert(items@.take(items@.len() as int) =~= items@);
    out.append("]");
    assert(out@ =~= start + statements_shape(items@));
}

/// Writes the key of a list of exprs.
pub fn write_exprs(out: &mut String, items: &Vec<Expr>)
    ensures
        final(out)@ == old(out)@ + exprs_shape(items@),
    decreases items,
{
    let ghost start = out@;
    out.append("[");
    let mut index: usize = 0;
    while index < items.len()
        invariant
            index <= items@.len(),
            out@ == start + "["@ + exprs_items(items@.take(index as int)),
        decreases items.len() - index,
    {
        let ghost before = out@;
        write_expr(out, &items[index]);
        proof {
            let next = items@.take(index + 1);
            assert(next.drop_last() =~= items@.take(index as int));
            assert(next.last() == items@[index as int]);
            assert(out@ =~= start + "["@ + exprs_items(next));
        }
        index += 1;
    }
    assert(items@.take(items@.len() as int) =~= items@);
    out.append("]");
    assert(out@ =~= start + exprs_shape(items@));
}

/// Writes the key of a list of value fields.
pub fn write_value_fields(out: &mut String, items: &Vec<ValueField>)
    ensures
        final(out)@ == old(out)@ + value_fields_shape(items@),
    decreases items,
{
    let ghost start = out@;
    out.append("[");
    let mut index: usize = 0;
    while index < items.len()
        invariant
            index <= items@.len(),
            out@ == start + "["@ + value_fields_items(items@.take(index as int)),
        decreases items.len() - index,
    {
        let ghost before = out@;
        write_value_field(out, &items[index]);
        proof {
            let next = items@.take(index + 1);
            assert(next.drop_last() =~= items@.take(index as int));
            assert(next.last() == items@[index as int]);
            assert(out@ =~= start + "["@ + value_fields_items(next));
        }
        index += 1;
    }
    assert(items@.take(items@.len() as int) =~= items@);
    out.append("]");
    assert(out@ =~= start + value_fields_shape(items@));
}

/// Writes the key of a list of arms.
pub fn write_arms(out: &mut String, items: &Vec<MatchArm>)
    ensures
        final(out)@ == old(out)@ + arms_shape(items@),
    decreases items,
{
    let ghost start = out@;
    out.append("[");
    let mut index: usize = 0;
    while index < items.len()
        invariant
            index <= items@.len(),
            out@ == start + "["@ + arms_items(items@.take(index as int)),
        decreases items.len() - index,
    {
        let ghost before = out@;
        write_arm(out, &items[index]);
        proof {
            let next = items@.take(index + 1);
            assert(next.drop_last() =~= items@.take(index as int));
            assert(next.last() == items@[index as int]);
            assert(out@ =~= start + "["@ + arms_items(next));
        }
        index += 1;
    }
    assert(items@.take(items@.len() as int) =~= items@);
    out.append("]");
    assert(out@ =~= start + arms_shape(items@));
}

/// Writes the key of a list of parameters.
pub fn write_parameters(out: &mut String, items: &Vec<Parameter>)
    ensures
        final(out)@ == old(out)@ + parameters_shape(items@),
    decreases items,
{
    let ghost start = out@;
    out.append("[");
    let mut index: usize = 0;
    while index < items.len()
        invariant
            index <= items@.len(),
            out@ == start + "["@ + parameters_items(items@.take(index as int)),
        decreases items.len() - index,
    {
        let ghost before = out@;
        write_parameter(out, &items[index]);
        proof {
            let next = items@.take(index + 1);
            assert(next.drop_last() =~= items@.take(index as int));
            assert(next.last() == items@[index as int]);
            assert(out@ =~= start + "["@ + parameters_items(next));
        }
        index += 1;
    }
    assert(items@.take(items@.len() as int) =~= items@);
    out.append("]");
    assert(out@ =~= start + parameters_shape(items@));
}

/// Writes the key of a list of names.
pub fn write_names(out: &mut String, items: &Vec<Name>)
    ensures
        final(out)@ == old(out)@ + names_shape(items@),
    decreases items,
{
    let ghost start = out@;
    out.append("[");
    let mut index: usize = 0;
    while index < items.len()
        invariant
            index <= items@.len(),
            out@ == start + "["@ + names_items(items@.take(index as int)),
        decreases items.len() - index,
    {
        let ghost before = out@;
        write_name(out, &items[index]);
        proof {
            let next = items@.take(index + 1);
            assert(next.drop_last() =~= items@.take(index as int));
            assert(next.last() == items@[index as int]);
            assert(out@ =~= start + "["@ + names_items(next));
        }
        index += 1;
    }
    assert(items@.take(items@.len() as int) =~= items@);
    out.append("]");
    assert(out@ =~= start + names_shape(items@));
}


} // verus!
