use locus::ast::{
    Block, Declaration, DeclarationKind, Expr, ExprKind, Field, GenericParameter, Name, Parameter, Path, Program,
    Statement, StatementKind, Type, TypeKind,
};
use locus::elab::generics::specialize;
use locus::elab::keys::write_type;
use locus::elab::preview::{Feature, Previews};
use locus::source::Span;

fn at(start: usize, end: usize) -> Span {
    Span::new(0, start, end)
}

fn name(text: &str, start: usize) -> Name {
    Name { text: text.to_string(), span: at(start, start + text.len()) }
}

fn named_type(text: &str, start: usize) -> Type {
    Type { kind: TypeKind::Named(name(text, start)), span: at(start, start + text.len()) }
}

fn lifetime(text: &str, start: usize) -> GenericParameter {
    GenericParameter { lifetime: true, name: name(text, start), bounds: vec![], span: at(start, start + text.len()) }
}

fn type_parameter(text: &str, start: usize) -> GenericParameter {
    GenericParameter { lifetime: false, name: name(text, start), bounds: vec![], span: at(start, start + text.len()) }
}

fn declaration(kind: DeclarationKind, start: usize, end: usize) -> Declaration {
    Declaration { doc: vec![], attributes: vec![], visibility: None, kind, span: at(start, end) }
}

fn borrowed(lifetime_text: &str, start: usize) -> Type {
    Type {
        kind: TypeKind::Path {
            path: Box::new(Path { segments: vec![name("Borrowed", start)], span: at(start, start + 8) }),
            arguments: vec![
                Type { kind: TypeKind::Lifetime(name(lifetime_text, start + 9)), span: at(start + 9, start + 11) },
                named_type("u8", start + 13),
            ],
        },
        span: at(start, start + 16),
    }
}

fn unit_function(function: &str, lifetime_text: &str, start: usize) -> Declaration {
    declaration(
        DeclarationKind::Function {
            logical: false,
            generics: vec![lifetime(lifetime_text, start + 5)],
            name: name(function, start + 3),
            self_param: None,
            parameters: vec![Parameter {
                mutable: false,
                name: name("x", start + 9),
                ty: borrowed(lifetime_text, start + 12),
                span: at(start + 9, start + 28),
            }],
            result: Type { kind: TypeKind::Unit, span: at(start + 33, start + 35) },
            body: Block {
                statements: vec![],
                tail: Some(Box::new(Expr { kind: ExprKind::Unit, span: at(start + 38, start + 40) })),
                span: at(start + 36, start + 42),
            },
        },
        start,
        start + 42,
    )
}

/// `struct Borrowed<'a, T> { item: &'a T } struct View<'a> { slice: &'a [u8] }
/// fn a<'a>(x: Borrowed<'a, u8>) -> () { () } fn b<'b>(x: Borrowed<'b, u8>) -> () { () }`
fn lifetimes_program() -> Program {
    let borrowed_struct = declaration(
        DeclarationKind::Struct {
            generics: vec![lifetime("'a", 16), type_parameter("T", 20)],
            name: name("Borrowed", 7),
            fields: vec![Field {
                doc: vec![],
                visibility: None,
                name: name("item", 25),
                ty: Type {
                    kind: TypeKind::Ref {
                        lifetime: Some(name("'a", 32)),
                        mutable: false,
                        inner: Box::new(named_type("T", 35)),
                    },
                    span: at(31, 36),
                },
                span: at(25, 36),
            }],
        },
        0,
        38,
    );
    let view_struct = declaration(
        DeclarationKind::Struct {
            generics: vec![lifetime("'a", 51)],
            name: name("View", 46),
            fields: vec![Field {
                doc: vec![],
                visibility: None,
                name: name("slice", 57),
                ty: Type {
                    kind: TypeKind::Ref {
                        lifetime: Some(name("'a", 65)),
                        mutable: false,
                        inner: Box::new(Type {
                            kind: TypeKind::Slice(Box::new(named_type("u8", 69))),
                            span: at(68, 72),
                        }),
                    },
                    span: at(64, 72),
                },
                span: at(57, 72),
            }],
        },
        39,
        74,
    );
    Program {
        doc: vec![],
        attributes: vec![],
        declarations: vec![
            borrowed_struct,
            view_struct,
            unit_function("a", "'a", 75),
            unit_function("b", "'b", 118),
        ],
    }
}

fn previews_for_generics() -> Previews {
    let mut previews = Previews::new();
    previews.enable(Feature::LogicalData);
    previews.enable(Feature::HeapViews);
    previews
}

#[test]
fn lifetime_parameters_are_preserved_and_do_not_duplicate_type_instances() {
    let program = lifetimes_program();
    let previews = previews_for_generics();
    let (program, diagnostics, _) = specialize(&program, &previews);
    assert!(diagnostics.is_empty(), "{diagnostics:#?}");
    let structs: Vec<_> = program
        .declarations
        .iter()
        .filter(|d| matches!(d.kind, DeclarationKind::Struct { .. }))
        .collect();
    assert_eq!(structs.len(), 2);
    for declaration in structs {
        let DeclarationKind::Struct { generics, .. } = &declaration.kind else {
            unreachable!()
        };
        assert_eq!(generics.len(), 1);
        assert!(generics[0].lifetime);
    }
    let names: Vec<_> = program
        .declarations
        .iter()
        .filter_map(|d| {
            if let DeclarationKind::Function { parameters, .. } = &d.kind {
                match &parameters[0].ty.kind {
                    TypeKind::Path { path, arguments } => Some((path.text(), arguments)),
                    _ => None,
                }
            } else {
                None
            }
        })
        .collect();
    assert_eq!(names.len(), 2);
    assert_eq!(names[0].0, names[1].0);
    assert!(matches!(&names[0].1[0].kind, TypeKind::Lifetime(name) if name.text == "'a"));
    assert!(matches!(&names[1].1[0].kind, TypeKind::Lifetime(name) if name.text == "'b"));
}

#[test]
fn the_instance_is_named_after_its_template_and_substituted() {
    let (program, diagnostics, quantifiers) = specialize(&lifetimes_program(), &previews_for_generics());
    assert!(diagnostics.is_empty());
    assert!(quantifiers.is_empty());
    let last = program.declarations.last().unwrap();
    let DeclarationKind::Struct { name, fields, .. } = &last.kind else {
        panic!("the instance comes last")
    };
    assert_eq!(name.text, "__LocusBorrowed0");
    let TypeKind::Ref { inner, .. } = &fields[0].ty.kind else {
        panic!("the field stays a reference")
    };
    assert!(matches!(&inner.kind, TypeKind::Named(name) if name.text == "u8"));
}

#[test]
fn generic_declarations_need_the_logical_data_preview() {
    let mut previews = Previews::new();
    previews.enable(Feature::HeapViews);
    let (_, diagnostics, _) = specialize(&lifetimes_program(), &previews);
    assert!(!diagnostics.is_empty());
    assert!(diagnostics.iter().all(|d| d.code == "L0280"));
}

#[test]
fn modules_are_left_to_the_project_loader() {
    let module = declaration(DeclarationKind::Module { name: name("inner", 4), body: None }, 0, 10);
    let program = Program { doc: vec![], attributes: vec![], declarations: vec![module] };
    let (program, diagnostics, _) = specialize(&program, &Previews::new());
    assert_eq!(diagnostics.len(), 1);
    assert_eq!(diagnostics[0].code, "L0500");
    assert_eq!(program.declarations.len(), 1);
}

fn quantified(statements: Vec<Statement>, tail: Option<Box<Expr>>) -> Program {
    let formula = Expr {
        kind: ExprKind::Forall {
            parameters: vec![Parameter { mutable: false, name: name("x", 20), ty: named_type("Int", 23), span: at(20, 26) }],
            body: Block { statements, tail, span: at(27, 40) },
        },
        span: at(13, 40),
    };
    let function = declaration(
        DeclarationKind::Function {
            logical: true,
            generics: vec![],
            name: name("claim", 9),
            self_param: None,
            parameters: vec![],
            result: named_type("Prop", 50),
            body: Block { statements: vec![], tail: Some(Box::new(formula)), span: at(11, 42) },
        },
        0,
        42,
    );
    Program { doc: vec![], attributes: vec![], declarations: vec![function] }
}

#[test]
fn a_quantifier_makes_a_pair_of_instances_at_its_type() {
    let truth = Expr { kind: ExprKind::Bool(true), span: at(30, 34) };
    let program = quantified(vec![], Some(Box::new(truth)));
    let (program, diagnostics, quantifiers) = specialize(&program, &previews_for_generics());
    assert!(diagnostics.is_empty(), "{diagnostics:#?}");
    assert_eq!(quantifiers.len(), 1);
    assert_eq!(quantifiers[0].forall, "__LocusForAll0");
    assert_eq!(quantifiers[0].exists, "__LocusExists1");
    assert!(matches!(&quantifiers[0].element.kind, TypeKind::Named(name) if name.text == "Int"));
    assert_eq!(program.declarations.len(), 3);
}

#[test]
fn a_quantifier_with_statements_is_refused() {
    let statement = Statement {
        kind: StatementKind::Expression(Expr { kind: ExprKind::Unit, span: at(29, 31) }),
        span: at(29, 32),
    };
    let (_, diagnostics, quantifiers) = specialize(&quantified(vec![statement], None), &previews_for_generics());
    assert_eq!(diagnostics.len(), 1);
    assert_eq!(diagnostics[0].code, "L0290");
    assert!(quantifiers.is_empty());
}

#[test]
fn a_quantifier_needs_a_formula() {
    let (_, diagnostics, _) = specialize(&quantified(vec![], None), &previews_for_generics());
    assert_eq!(diagnostics.len(), 1);
    assert_eq!(diagnostics[0].code, "L0222");
}

#[test]
fn the_key_of_a_type_leaves_its_spans_out() {
    let mut first = String::new();
    write_type(&mut first, &named_type("u8", 3));
    let mut second = String::new();
    write_type(&mut second, &named_type("u8", 40));
    let mut other = String::new();
    write_type(&mut other, &named_type("u16", 3));
    assert_eq!(first, second);
    assert_ne!(first, other);
    assert_eq!(first, "#0(<\"u8\">)");
}

#[test]
fn an_instance_of_a_snake_case_template_is_named_in_camel_case() {
    let template = declaration(
        DeclarationKind::Struct {
            generics: vec![type_parameter("T", 15)],
            name: name("pair_of", 7),
            fields: vec![Field { doc: vec![], visibility: None, name: name("first", 20), ty: named_type("T", 27), span: at(20, 28) }],
        },
        0,
        30,
    );
    let user = declaration(
        DeclarationKind::Function {
            logical: false,
            generics: vec![],
            name: name("f", 34),
            self_param: None,
            parameters: vec![Parameter {
                mutable: false,
                name: name("x", 36),
                ty: Type {
                    kind: TypeKind::Path {
                        path: Box::new(Path { segments: vec![name("pair_of", 39)], span: at(39, 46) }),
                        arguments: vec![named_type("u8", 47)],
                    },
                    span: at(39, 50),
                },
                span: at(36, 50),
            }],
            result: Type { kind: TypeKind::Unit, span: at(55, 57) },
            body: Block {
                statements: vec![],
                tail: Some(Box::new(Expr { kind: ExprKind::Unit, span: at(60, 62) })),
                span: at(58, 64),
            },
        },
        31,
        64,
    );
    let program = Program { doc: vec![], attributes: vec![], declarations: vec![template, user] };
    let (program, diagnostics, _) = specialize(&program, &previews_for_generics());
    assert!(diagnostics.is_empty(), "{diagnostics:#?}");
    let DeclarationKind::Struct { name, .. } = &program.declarations[1].kind else {
        panic!("the instance follows the function")
    };
    assert_eq!(name.text, "__LocusPairOf0");
}
