use locus::ast::{
    AttributeKind, BinaryOp, Block, Expr, ExprKind, Form, IntegerSuffix, Name, Path, RangeKind, SelfKind,
    UnaryOp,
};
use locus::source::Span;

fn span() -> Span {
    Span::new(0, 0, 0)
}

fn name(text: &str) -> Name {
    Name { text: text.to_string(), span: span() }
}

#[test]
fn integer_suffix_names_round_trip() {
    for suffix in IntegerSuffix::ALL {
        assert_eq!(IntegerSuffix::from_name(suffix.name()), Some(suffix));
    }
    assert_eq!(IntegerSuffix::U8.name(), "u8");
    assert_eq!(IntegerSuffix::Isize.name(), "isize");
    assert_eq!(IntegerSuffix::from_name("i128"), Some(IntegerSuffix::I128));
    assert_eq!(IntegerSuffix::from_name("u7"), None);
    assert_eq!(IntegerSuffix::from_name(""), None);
}

#[test]
fn form_names_round_trip() {
    for form in Form::ALL {
        assert_eq!(Form::from_name(form.name()), Some(form));
    }
    assert_eq!(Form::DebugAssert.name(), "debug_assert");
    assert_eq!(Form::from_name("prove"), Some(Form::Prove));
    assert_eq!(Form::from_name("println"), None);
    assert!(Form::Prop.takes_formula());
    assert!(Form::Prove.takes_formula());
    assert!(!Form::Assert.takes_formula());
}

#[test]
fn path_segments() {
    let path = Path { segments: vec![name("crate"), name("a"), name("B")], span: span() };
    assert_eq!(path.text(), "crate::a::B");
    assert_eq!(path.last().text, "B");
    assert!(path.single().is_none());
    assert!(path.pair().is_none());
    let pair = Path { segments: vec![name("Option"), name("Some")], span: span() };
    let (prefix, last) = pair.pair().unwrap();
    assert_eq!(prefix.text, "Option");
    assert_eq!(last.text, "Some");
    assert_eq!(pair.text(), "Option::Some");
    let single = Path { segments: vec![name("Copy")], span: span() };
    assert_eq!(single.single().unwrap().text, "Copy");
    assert_eq!(single.text(), "Copy");
}

#[test]
fn attribute_names() {
    assert_eq!(AttributeKind::NAMES, ["terminates", "no_panic", "no_alloc", "no_io", "derive"]);
    assert_eq!(AttributeKind::NoPanic.name(), "no_panic");
    assert_eq!(AttributeKind::Terminates { decreases: None }.name(), "terminates");
    assert_eq!(AttributeKind::Derive(Vec::new()).name(), "derive");
    assert!(AttributeKind::NoIo.is_promise());
    assert!(!AttributeKind::Derive(Vec::new()).is_promise());
    let trusted = AttributeKind::Trusted {
        reason: "audited".to_string(),
        implementation: Path { segments: vec![name("f")], span: span() },
    };
    assert_eq!(trusted.name(), "trusted");
    assert!(!trusted.is_promise());
}

#[test]
fn operator_spellings() {
    assert_eq!(SelfKind::RefMut.spelling(), "&mut self");
    assert_eq!(SelfKind::Value.spelling(), "self");
    assert_eq!(RangeKind::Inclusive.spelling(), "..=");
    assert_eq!(RangeKind::Exclusive.spelling(), "..");
    assert_eq!(UnaryOp::Neg.spelling(), "-");
    assert_eq!(UnaryOp::Deref.spelling(), "*");
    assert_eq!(BinaryOp::Implies.spelling(), "=>");
    assert_eq!(BinaryOp::Shl.spelling(), "<<");
    assert!(BinaryOp::Rem.is_arithmetic());
    assert!(!BinaryOp::Shl.is_arithmetic());
    assert!(BinaryOp::BitXor.is_bitwise());
    assert!(!BinaryOp::And.is_bitwise());
    assert!(BinaryOp::GreaterEqual.is_comparison());
    assert!(!BinaryOp::Implies.is_comparison());
}

#[test]
fn block_like_expressions() {
    let block = Block { statements: Vec::new(), tail: None, span: span() };
    let looped = Expr { kind: ExprKind::Loop { body: block }, span: span() };
    assert!(looped.is_block_like());
    let unit = Expr { kind: ExprKind::Unit, span: span() };
    assert!(!unit.is_block_like());
    let grouped = Expr { kind: ExprKind::Group(Box::new(unit)), span: span() };
    assert!(!grouped.is_block_like());
}
