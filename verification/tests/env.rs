use locus::ast::{Name, Pattern, PatternKind};
use locus::elab::arithmetic::ArithmeticFailure;
use locus::elab::env::Env;
use locus::source::Span;
use locus::term::{Term, Type};

fn span() -> Span {
    Span::new(0, 0, 1)
}

fn named(text: &str) -> Pattern {
    Pattern {
        kind: PatternKind::Name { name: Name { text: text.to_string(), span: span() }, mutable: false },
        span: span(),
    }
}

#[test]
fn close_forgets_what_the_scope_bound() {
    let mut env = Env::new(None);
    env.bind("a", 1, &Type::Int, false);
    let mark = env.mark();
    assert_eq!(mark.facts(), 0);
    env.declare("b", 2, &Type::Proof(Box::new(Term::int_le(Term::Var(2), Term::literal(3)))), false, span())
        .unwrap();
    env.suppose(3, Term::int_le(Term::Var(1), Term::literal(0)), span()).unwrap();
    assert_eq!(env.names.len(), 2);
    assert_eq!(env.facts.len(), 2);
    env.close(mark);
    assert_eq!(env.names.len(), 1);
    assert_eq!(env.facts.len(), 0);
    assert!(env.lookup("a").is_some());
    assert!(env.lookup("b").is_none());
}

#[test]
fn lookup_finds_the_latest_binding() {
    let mut env = Env::new(None);
    env.bind("x", 1, &Type::Int, false);
    env.bind("y", 2, &Type::Int, false);
    env.bind("x", 3, &Type::Bool, true);
    assert_eq!(env.lookup("x").unwrap().id, 3);
    assert_eq!(env.lookup("y").unwrap().id, 2);
    assert!(env.lookup("z").is_none());
    assert_eq!(env.labels.get(&3).map(|s| s.as_str()), Some("x"));
}

#[test]
fn learn_from_a_tuple_of_proofs() {
    let mut env = Env::new(None);
    let first = Term::int_le(Term::literal(0), Term::literal(1));
    let second = Term::int_le(Term::literal(1), Term::literal(2));
    let ty = Type::Tuple(vec![Type::Proof(Box::new(first)), Type::Int, Type::Proof(Box::new(second))]);
    env.learn_from(&Term::Var(9), &ty);
    assert_eq!(env.facts.len(), 2);
    assert!(!env.facts[0].definition);
}

#[test]
fn poison_binds_every_name_of_a_pattern() {
    let mut env = Env::new(None);
    let pattern = Pattern {
        kind: PatternKind::Tuple(vec![
            named("a"),
            Pattern { kind: PatternKind::Wildcard, span: span() },
            Pattern { kind: PatternKind::Group(Box::new(named("b"))), span: span() },
        ]),
        span: span(),
    };
    env.poison(&pattern);
    assert_eq!(env.names.len(), 2);
    assert_eq!(env.names[0].name, "a");
    assert_eq!(env.names[1].name, "b");
    assert!(env.names.iter().all(|local| local.poisoned));
}

#[test]
fn errors_are_reported_in_order() {
    let mut env = Env::new(Some("Point".to_string()));
    env.error("L0001", "first".to_string(), span());
    let failed: Result<u8, ()> = env.fail("L0002", "second".to_string(), span());
    assert!(failed.is_err());
    let internal: Result<u8, ()> = env.internal("a bad term".to_string(), span());
    assert!(internal.is_err());
    assert_eq!(env.diagnostics.len(), 3);
    assert_eq!(env.diagnostics[1].code, "L0002");
    assert_eq!(env.diagnostics[2].code, "L0300");
    assert_eq!(env.diagnostics[2].message, "the checker rejected this: a bad term");
    assert_eq!(env.diagnostics[2].notes.len(), 1);
    let kept: Result<u8, ()> = env.kernel(Ok(7), span());
    assert_eq!(kept, Ok(7));
    assert_eq!(env.diagnostics.len(), 3);
    let refused: Result<u8, ()> = env.kernel(Err("no".to_string()), span());
    assert!(refused.is_err());
    assert_eq!(env.diagnostics.len(), 4);
}

#[test]
fn self_reads_as_the_owner() {
    let env = Env::new(Some("Point".to_string()));
    let self_name = Name { text: "Self".to_string(), span: span() };
    let other = Name { text: "Line".to_string(), span: span() };
    assert_eq!(env.type_text(&self_name), "Point");
    assert_eq!(env.type_text(&other), "Line");
    let free = Env::new(None);
    assert_eq!(free.type_text(&self_name), "Self");
}

#[test]
fn arithmetic_failure_note() {
    assert_eq!(ArithmeticFailure::Budget("ran out".to_string()).note(), "ran out");
    assert_eq!(ArithmeticFailure::Counterexample("x = 3".to_string()).note(), "x = 3");
}
