use locus::ast::{
    Declaration, DeclarationKind, Expr, ExprKind, IntegerLiteral, IntegerSuffix, Name, Path, Pattern, PatternKind,
    Program, UnaryOp, Variant, VariantShape, Visibility, VisibilityScope,
};
use locus::elab::blocks::has_evidence_pattern;
use locus::elab::items::{block_end, is_public, spelled, variant_named};
use locus::elab::literals::untyped_literal;
use locus::integer::Integer;
use locus::source::Span;

fn span(start: usize) -> Span {
    Span::new(0, start, start + 1)
}

fn name(text: &str, start: usize) -> Name {
    Name { text: text.to_string(), span: span(start) }
}

fn visibility(scope: VisibilityScope) -> Visibility {
    Visibility { scope, span: span(0) }
}

#[test]
fn visibilities_are_spelled_as_rust_spells_them() {
    assert_eq!(spelled(None), "");
    assert_eq!(spelled(Some(&visibility(VisibilityScope::SelfModule))), "");
    assert_eq!(spelled(Some(&visibility(VisibilityScope::Public))), "pub");
    assert_eq!(spelled(Some(&visibility(VisibilityScope::Crate))), "pub(crate)");
    assert_eq!(spelled(Some(&visibility(VisibilityScope::Super))), "pub(super)");
    let path = Path { segments: vec![name("crate", 7), name("a", 14)], span: span(7) };
    assert_eq!(spelled(Some(&visibility(VisibilityScope::In(path)))), "pub(in crate::a)");
    assert!(is_public(Some(&visibility(VisibilityScope::Public))));
    assert!(!is_public(Some(&visibility(VisibilityScope::Crate))));
    assert!(!is_public(None));
}

fn enumeration(text: &str, variants: &[(&str, usize)]) -> Declaration {
    Declaration {
        doc: vec![],
        attributes: vec![],
        visibility: None,
        kind: DeclarationKind::Enum {
            generics: vec![],
            name: name(text, 5),
            variants: variants
                .iter()
                .map(|(text, start)| Variant {
                    doc: vec![],
                    name: name(text, *start),
                    shape: VariantShape::Unit,
                    fields: vec![],
                    span: span(*start),
                })
                .collect(),
        },
        span: span(0),
    }
}

#[test]
fn the_variant_of_an_enum_is_found_by_name() {
    let program = Program {
        doc: vec![],
        attributes: vec![],
        declarations: vec![enumeration("Other", &[("Red", 20)]), enumeration("Color", &[("Green", 40), ("Red", 50)])],
    };
    let owner = Path { segments: vec![name("Color", 3)], span: span(3) };
    assert_eq!(variant_named(&program, &owner, &name("Red", 9)), Some(span(50)));
    assert_eq!(variant_named(&program, &owner, &name("Blue", 9)), None);
}

#[test]
fn a_block_ends_at_its_last_byte() {
    assert_eq!(block_end(Span::new(2, 10, 20)), Span::new(2, 19, 20));
    assert_eq!(block_end(Span::new(2, 0, 0)), Span::new(2, 0, 0));
}

fn integer(suffix: Option<IntegerSuffix>) -> Expr {
    Expr { kind: ExprKind::Integer(IntegerLiteral { value: Integer::from_i64(7), suffix }), span: span(0) }
}

#[test]
fn untyped_literals_take_their_type_from_context() {
    assert!(untyped_literal(&integer(None)));
    assert!(!untyped_literal(&integer(Some(IntegerSuffix::U8))));
    assert!(untyped_literal(&Expr { kind: ExprKind::Hole, span: span(0) }));
    let negated = Expr {
        kind: ExprKind::Unary { operator: UnaryOp::Neg, operator_span: span(0), expr: Box::new(integer(None)) },
        span: span(0),
    };
    assert!(untyped_literal(&negated));
    let grouped = Expr { kind: ExprKind::Group(Box::new(negated)), span: span(0) };
    assert!(untyped_literal(&grouped));
    let deref = Expr {
        kind: ExprKind::Unary { operator: UnaryOp::Deref, operator_span: span(0), expr: Box::new(integer(None)) },
        span: span(0),
    };
    assert!(!untyped_literal(&deref));
}

#[test]
fn evidence_patterns_are_found_under_groups_and_bindings() {
    let evidence = Pattern {
        kind: PatternKind::Evidence {
            constructor: Box::new(Pattern { kind: PatternKind::Wildcard, span: span(0) }),
            evidence: Box::new(Pattern { kind: PatternKind::Wildcard, span: span(2) }),
            at_span: span(1),
        },
        span: span(0),
    };
    let bound = Pattern {
        kind: PatternKind::Binding { name: name("p", 0), mutable: false, pattern: Box::new(evidence), at_span: span(1) },
        span: span(0),
    };
    let grouped = Pattern { kind: PatternKind::Group(Box::new(bound)), span: span(0) };
    assert!(has_evidence_pattern(&grouped));
    assert!(!has_evidence_pattern(&Pattern { kind: PatternKind::Wildcard, span: span(0) }));
}
