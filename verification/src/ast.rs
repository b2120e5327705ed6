//! Surface syntax, including grouping and spans. This is not the syntax of
//! the logic.

use crate::integer::Integer;
use crate::source::Span;
use crate::text::same_text;
use vstd::prelude::*;
use vstd::string::StringExecFns;

verus! {

/// The type an integer literal names after its digits, as in `7u8`.
#[derive(Clone, Copy, Debug, PartialEq, Eq, Hash, Structural)]
pub enum IntegerSuffix {
    U8,
    U16,
    U32,
    U64,
    U128,
    Usize,
    I8,
    I16,
    I32,
    I64,
    I128,
    Isize,
}

impl IntegerSuffix {
    pub const ALL: [IntegerSuffix; 12] = [
        IntegerSuffix::U8,
        IntegerSuffix::U16,
        IntegerSuffix::U32,
        IntegerSuffix::U64,
        IntegerSuffix::U128,
        IntegerSuffix::Usize,
        IntegerSuffix::I8,
        IntegerSuffix::I16,
        IntegerSuffix::I32,
        IntegerSuffix::I64,
        IntegerSuffix::I128,
        IntegerSuffix::Isize,
    ];

    /// The suffix as written.
    pub open spec fn spelled(self) -> &'static str {
        match self {
            IntegerSuffix::U8 => "u8",
            IntegerSuffix::U16 => "u16",
            IntegerSuffix::U32 => "u32",
            IntegerSuffix::U64 => "u64",
            IntegerSuffix::U128 => "u128",
            IntegerSuffix::Usize => "usize",
            IntegerSuffix::I8 => "i8",
            IntegerSuffix::I16 => "i16",
            IntegerSuffix::I32 => "i32",
            IntegerSuffix::I64 => "i64",
            IntegerSuffix::I128 => "i128",
            IntegerSuffix::Isize => "isize",
        }
    }

    pub fn name(self) -> (result: &'static str)
        ensures
            result == self.spelled(),
    {
        match self {
            IntegerSuffix::U8 => "u8",
            IntegerSuffix::U16 => "u16",
            IntegerSuffix::U32 => "u32",
            IntegerSuffix::U64 => "u64",
            IntegerSuffix::U128 => "u128",
            IntegerSuffix::Usize => "usize",
            IntegerSuffix::I8 => "i8",
            IntegerSuffix::I16 => "i16",
            IntegerSuffix::I32 => "i32",
            IntegerSuffix::I64 => "i64",
            IntegerSuffix::I128 => "i128",
            IntegerSuffix::Isize => "isize",
        }
    }

    /// The suffix written `name`, the first in the order of `ALL`.
    pub fn from_name(name: &str) -> (result: Option<IntegerSuffix>)
        ensures
            match result {
                Some(suffix) => suffix.spelled()@ == name@,
                None => forall|suffix: IntegerSuffix| suffix.spelled()@ != name@,
            },
    {
        let mut index: usize = 0;
        while index < 12
            invariant
                index <= 12,
                forall|j: int| 0 <= j < index ==> IntegerSuffix::ALL@[j].spelled()@ != name@,
            decreases 12 - index,
        {
            let suffix = IntegerSuffix::ALL[index];
            if same_text(suffix.name(), name) {
                return Some(suffix);
            }
            index += 1;
        }
        assert forall|suffix: IntegerSuffix| suffix.spelled()@ != name@ by {
            let at: int = match suffix {
                IntegerSuffix::U8 => 0,
                IntegerSuffix::U16 => 1,
                IntegerSuffix::U32 => 2,
                IntegerSuffix::U64 => 3,
                IntegerSuffix::U128 => 4,
                IntegerSuffix::Usize => 5,
                IntegerSuffix::I8 => 6,
                IntegerSuffix::I16 => 7,
                IntegerSuffix::I32 => 8,
                IntegerSuffix::I64 => 9,
                IntegerSuffix::I128 => 10,
                IntegerSuffix::Isize => 11,
            };
            assert(IntegerSuffix::ALL@[at] == suffix);
        }
        None
    }
}

/// An integer literal: its value, whatever its size and base, and its
/// suffix. Whether the value fits a type is the elaborator's question.
#[derive(Debug, PartialEq, Eq)]
pub struct IntegerLiteral {
    pub value: Integer,
    pub suffix: Option<IntegerSuffix>,
}

#[derive(Debug, PartialEq, Eq)]
pub struct Name {
    pub text: String,
    pub span: Span,
}

/// `a::b::c`: segments joined by `::`, at least one. A path that begins
/// with `crate`, `super`, `self`, or `Self` has that keyword as its first
/// segment. Where a name stands on its own it is a `Name`, not a path of
/// one segment; a one-segment path occurs only where a path is required, as
/// in a `derive` list or a struct literal.
#[derive(Debug, PartialEq, Eq)]
pub struct Path {
    pub segments: Vec<Name>,
    pub span: Span,
}

/// The texts of names joined by `::`.
pub open spec fn joined(segments: Seq<Name>) -> Seq<char>
    decreases segments.len(),
{
    if segments.len() == 0 {
        Seq::empty()
    } else if segments.len() == 1 {
        segments[0].text@
    } else {
        joined(segments.drop_last()) + "::"@ + segments.last().text@
    }
}

impl Path {
    /// The last segment: the variant of `Enum::Variant`, the constant of
    /// `u32::MAX`.
    pub fn last(&self) -> (result: &Name)
        requires
            self.segments@.len() > 0,
        ensures
            *result == self.segments@.last(),
    {
        &self.segments[self.segments.len() - 1]
    }

    /// The one segment of a path that has just one.
    pub fn single(&self) -> (result: Option<&Name>)
        ensures
            match result {
                Some(name) => self.segments@.len() == 1 && *name == self.segments@[0],
                None => self.segments@.len() != 1,
            },
    {
        if self.segments.len() == 1 {
            Some(&self.segments[0])
        } else {
            None
        }
    }

    /// The two segments of `Prefix::name`, when the path has just those.
    pub fn pair(&self) -> (result: Option<(&Name, &Name)>)
        ensures
            match result {
                Some((prefix, name)) => self.segments@.len() == 2 && *prefix == self.segments@[0] && *name
                    == self.segments@[1],
                None => self.segments@.len() != 2,
            },
    {
        if self.segments.len() == 2 {
            Some((&self.segments[0], &self.segments[1]))
        } else {
            None
        }
    }

    /// The path as written, without spaces.
    pub fn text(&self) -> (result: String)
        ensures
            result@ == joined(self.segments@),
    {
        let mut result = String::new();
        let mut index: usize = 0;
        while index < self.segments.len()
            invariant
                index <= self.segments@.len(),
                result@ == joined(self.segments@.subrange(0, index as int)),
            decreases self.segments.len() - index,
        {
            let ghost before = self.segments@.subrange(0, index as int);
            let ghost after = self.segments@.subrange(0, index + 1);
            assert(after.drop_last() =~= before);
            if index > 0 {
                result.append("::");
            }
            result.append(self.segments[index].text.as_str());
            proof {
                if index == 0 {
                    assert(result@ =~= after[0].text@);
                }
            }
            index += 1;
        }
        assert(self.segments@.subrange(0, self.segments@.len() as int) =~= self.segments@);
        result
    }
}

/// A `///` or `//!` line, or a `/** */` or `/*! */` block: the text after
/// the marker, as written.
#[derive(Debug, PartialEq, Eq)]
pub struct DocComment {
    pub text: String,
    pub span: Span,
}

/// `#[name]` or `#[name(arguments)]` before an item, or `#![...]` at the
/// top of a file. The set is closed: the parser knows every attribute.
#[derive(Debug, PartialEq, Eq)]
pub struct Attribute {
    pub kind: AttributeKind,
    /// Whole, from `#` to `]`.
    pub span: Span,
}

#[derive(Debug, PartialEq, Eq)]
pub enum AttributeKind {
    /// Kept with the item; only the `trusted "reason" fn ... = Rust::item;`
    /// declaration syntax constructs this, never a detachable attribute.
    Trusted { reason: String, implementation: Path },
    /// `#[terminates]`, or `#[terminates(decreases = expression)]`.
    Terminates { decreases: Option<Expr> },
    NoPanic,
    NoAlloc,
    NoIo,
    /// `#[derive(Clone, Copy)]`: traits by path.
    Derive(Vec<Path>),
}

impl AttributeKind {
    /// The names of the closed set, in the order they are listed in.
    pub const NAMES: [&'static str; 5] = ["terminates", "no_panic", "no_alloc", "no_io", "derive"];

    /// The attribute's name.
    pub open spec fn spelled(&self) -> &'static str {
        match self {
            AttributeKind::Terminates { .. } => "terminates",
            AttributeKind::NoPanic => "no_panic",
            AttributeKind::NoAlloc => "no_alloc",
            AttributeKind::NoIo => "no_io",
            AttributeKind::Derive(_) => "derive",
            AttributeKind::Trusted { .. } => "trusted",
        }
    }

    pub fn name(&self) -> (result: &'static str)
        ensures
            result == self.spelled(),
    {
        match self {
            AttributeKind::Terminates { .. } => "terminates",
            AttributeKind::NoPanic => "no_panic",
            AttributeKind::NoAlloc => "no_alloc",
            AttributeKind::NoIo => "no_io",
            AttributeKind::Derive(_) => "derive",
            AttributeKind::Trusted { .. } => "trusted",
        }
    }

    /// A promise about an effect, as opposed to `derive`.
    pub fn is_promise(&self) -> (result: bool)
        ensures
            result == !(self is Derive || self is Trusted),
    {
        !matches!(self, AttributeKind::Derive(_) | AttributeKind::Trusted { .. })
    }
}

/// `pub` and its restricted forms. An item or field without one is private.
#[derive(Debug, PartialEq, Eq)]
pub struct Visibility {
    pub scope: VisibilityScope,
    /// From `pub` to the end of its parenthesized scope, if any.
    pub span: Span,
}

#[derive(Debug, PartialEq, Eq)]
pub enum VisibilityScope {
    /// Plain `pub`.
    Public,
    /// `pub(crate)`
    Crate,
    /// `pub(super)`
    Super,
    /// `pub(self)`, which means private, as it does in Rust.
    SelfModule,
    /// `pub(in path)`
    In(Path),
}

#[derive(Debug, Default, PartialEq, Eq)]
pub struct Program {
    /// `//!` comments at the top of the file.
    pub doc: Vec<DocComment>,
    /// `#![...]` attributes at the top of the file: promises for every
    /// function in it.
    pub attributes: Vec<Attribute>,
    pub declarations: Vec<Declaration>,
}

#[derive(Debug, PartialEq, Eq)]
pub struct Declaration {
    pub doc: Vec<DocComment>,
    pub attributes: Vec<Attribute>,
    pub visibility: Option<Visibility>,
    pub kind: DeclarationKind,
    /// From the first doc comment, attribute, or `pub` to the end of the
    /// item.
    pub span: Span,
}

impl Declaration {
    /// The generic parameters of a declaration; an impl block, a module, an
    /// import and a constant have none.
    pub open spec fn generics(self) -> Seq<GenericParameter> {
        match self.kind {
            DeclarationKind::Function { generics, .. } => generics@,
            DeclarationKind::Struct { generics, .. } => generics@,
            DeclarationKind::Enum { generics, .. } => generics@,
            DeclarationKind::Prop { generics, .. } => generics@,
            _ => Seq::empty(),
        }
    }

    /// Whether every generic parameter of a declaration is a lifetime: it
    /// has no type parameter.
    pub open spec fn is_monomorphic(self) -> bool {
        forall|i: int| 0 <= i < self.generics().len() ==> (#[trigger] self.generics()[i]).lifetime
    }

    /// The name a declaration declares, when it is a function, a type, a
    /// proposition or a constant.
    pub open spec fn declared(self) -> Option<Seq<char>> {
        match self.kind {
            DeclarationKind::Function { name, .. } => Some(name.text@),
            DeclarationKind::Struct { name, .. } => Some(name.text@),
            DeclarationKind::Enum { name, .. } => Some(name.text@),
            DeclarationKind::Prop { name, .. } => Some(name.text@),
            DeclarationKind::Constant { name, .. } => Some(name.text@),
            _ => None,
        }
    }
}

#[derive(Debug, PartialEq, Eq)]
pub enum DeclarationKind {
    /// A source module; `None` is loaded from its declared file by the
    /// project loader.
    Module { name: Name, body: Option<Program> },
    /// Explicit imports; grouped syntax is expanded into these leaves by the
    /// parser.
    Use { imports: Vec<Import> },
    Function {
        /// `logic fn` is an erased logical definition.
        logical: bool,
        generics: Vec<GenericParameter>,
        name: Name,
        /// The receiver of a method in an `impl` block.
        self_param: Option<SelfParam>,
        parameters: Vec<Parameter>,
        result: Type,
        body: Block,
    },
    Struct { generics: Vec<GenericParameter>, name: Name, fields: Vec<Field> },
    Enum { generics: Vec<GenericParameter>, name: Name, variants: Vec<Variant> },
    Prop {
        generics: Vec<GenericParameter>,
        name: Name,
        parameters: Vec<Parameter>,
        variants: Vec<PropVariant>,
    },
    Constant { name: Name, ty: Type, value: Expr },
    /// `impl Name { ... }`: methods, associated functions, and constants,
    /// each with its own documentation, attributes, and visibility.
    Impl {
        /// The bridge to a model; ordinary inherent impls have none.
        model: Option<ModelImpl>,
        /// The type, by name or by path.
        target: Path,
        methods: Vec<Declaration>,
    },
}

/// `impl Model for Source { type Logic = Target; ... }`: a checked canonical
/// observation.
#[derive(Debug, PartialEq, Eq)]
pub struct ModelImpl {
    pub source: Type,
    pub target: Type,
    pub span: Span,
}

/// A type parameter, optionally constrained by named bounds, such as `T:
/// Logical`. Bounds are checked by the elaborator, not the parser.
#[derive(Debug, PartialEq, Eq)]
pub struct GenericParameter {
    /// Lifetime parameters are checked scopes, never type specializations.
    pub lifetime: bool,
    pub name: Name,
    pub bounds: Vec<Path>,
    pub span: Span,
}

/// The receiver of a method: `self`, `mut self`, `&self`, or `&mut self`.
#[derive(Debug, PartialEq, Eq)]
pub struct SelfParam {
    pub kind: SelfKind,
    pub span: Span,
}

#[derive(Clone, Copy, Debug, PartialEq, Eq, Structural)]
pub enum SelfKind {
    /// `self`
    Value,
    /// `mut self`
    MutValue,
    /// `&self`
    Ref,
    /// `&mut self`
    RefMut,
}

impl SelfKind {
    /// The receiver as written.
    pub open spec fn spelled(self) -> &'static str {
        match self {
            SelfKind::Value => "self",
            SelfKind::MutValue => "mut self",
            SelfKind::Ref => "&self",
            SelfKind::RefMut => "&mut self",
        }
    }

    pub fn spelling(self) -> (result: &'static str)
        ensures
            result == self.spelled(),
    {
        match self {
            SelfKind::Value => "self",
            SelfKind::MutValue => "mut self",
            SelfKind::Ref => "&self",
            SelfKind::RefMut => "&mut self",
        }
    }
}

/// `name: Type`, or `mut name: Type` for a parameter the body may assign.
#[derive(Debug, PartialEq, Eq)]
pub struct Parameter {
    pub mutable: bool,
    pub name: Name,
    pub ty: Type,
    /// From the name, or the `mut` before it, to the end of the type.
    pub span: Span,
}

/// A field of a struct: `pub name: Type`, private without the `pub`.
#[derive(Debug, PartialEq, Eq)]
pub struct Field {
    pub doc: Vec<DocComment>,
    pub visibility: Option<Visibility>,
    pub name: Name,
    pub ty: Type,
    /// From the name to the end of the type.
    pub span: Span,
}

#[derive(Debug, PartialEq, Eq)]
pub struct Variant {
    pub doc: Vec<DocComment>,
    pub name: Name,
    pub shape: VariantShape,
    /// Every field has a name when the shape is `Struct`.
    pub fields: Vec<TypeField>,
    pub span: Span,
}

/// How a variant's fields are written.
#[derive(Clone, Copy, Debug, PartialEq, Eq, Structural)]
pub enum VariantShape {
    /// `Name`
    Unit,
    /// `Name(fields)`
    Tuple,
    /// `Name { name: Type, ... }`
    Struct,
}

/// A way of proving a declared proposition. `target` is the proposition
/// after `: @`, present when the variant proves the proposition at
/// particular indices.
#[derive(Debug, PartialEq, Eq)]
pub struct PropVariant {
    pub doc: Vec<DocComment>,
    pub name: Name,
    pub shape: VariantShape,
    /// Every field has a name when the shape is `Struct`.
    pub fields: Vec<TypeField>,
    pub target: Option<Expr>,
    /// The computed proposition after `=>`; absent only in legacy syntax.
    pub body: Option<Block>,
    pub span: Span,
}

#[derive(Debug, PartialEq, Eq)]
pub struct Type {
    pub kind: TypeKind,
    pub span: Span,
}

#[derive(Debug, PartialEq, Eq)]
pub enum TypeKind {
    Named(Name),
    /// A nominal lifetime argument, written with its leading apostrophe.
    Lifetime(Name),
    /// A type named by a path of two or more segments, or by a name with
    /// type arguments: `a::B`, `Option<T>`, `crate::a::Map<K, V>`.
    Path { path: Box<Path>, arguments: Vec<Type> },
    Unit,
    /// Borrowed slice element type, `[T]`.
    Slice(Box<Type>),
    /// Fixed-size array type, `[T; n]`.
    Array { element: Box<Type>, length: Box<Expr> },
    Group(Box<Type>),
    Tuple(Vec<TypeField>),
    Proof(Box<Expr>),
    /// `fn(T, U) -> R`, or with named parameters `fn(x: T) -> @(x == x)`:
    /// the type of a function, which a proposition applies.
    Function { parameters: Vec<TypeField>, result: Box<Type> },
    /// `logic Fn(x: T) -> R`: an erased logical callable.
    LogicalFunction { parameters: Vec<TypeField>, result: Box<Type> },
    /// `&T` or `&mut T`.
    Ref { lifetime: Option<Name>, mutable: bool, inner: Box<Type> },
    /// `!`, the type of an expression that never produces a value.
    Never,
}

#[derive(Debug, PartialEq, Eq)]
pub struct TypeField {
    pub name: Option<Name>,
    pub ty: Type,
    pub span: Span,
}

#[derive(Debug, PartialEq, Eq)]
pub struct Pattern {
    pub kind: PatternKind,
    pub span: Span,
}

#[derive(Debug, PartialEq, Eq)]
pub enum PatternKind {
    /// A binding, `name` or `mut name`.
    Name { name: Name, mutable: bool },
    /// `name @ pattern`: the whole value and a pattern of its parts.
    Binding { name: Name, mutable: bool, pattern: Box<Pattern>, at_span: Span },
    /// `P::Arm(witnesses) @ evidence`: proof of a named proposition arm.
    Evidence { constructor: Box<Pattern>, evidence: Box<Pattern>, at_span: Span },
    Wildcard,
    Unit,
    Bool(bool),
    Integer(IntegerLiteral),
    Group(Box<Pattern>),
    Tuple(Vec<Pattern>),
    /// `S { fields }`, or `E::V { fields }` for a variant with named fields;
    /// `rest` is the span of a `..` after the fields.
    Struct { path: Box<Path>, fields: Vec<PatternField>, rest: Option<Span> },
    /// `arguments` is `None` for a variant written without parentheses.
    Variant { path: Box<Path>, arguments: Option<Vec<Pattern>> },
}

/// `name: pattern`, or the shorthand `name` when `name` is `None`.
#[derive(Debug, PartialEq, Eq)]
pub struct PatternField {
    pub name: Option<Name>,
    pub pattern: Pattern,
    pub span: Span,
}

#[derive(Debug, PartialEq, Eq)]
pub struct Block {
    pub statements: Vec<Statement>,
    pub tail: Option<Box<Expr>>,
    pub span: Span,
}

#[derive(Debug, PartialEq, Eq)]
pub struct Statement {
    pub kind: StatementKind,
    pub span: Span,
}

#[derive(Debug, PartialEq, Eq)]
pub enum StatementKind {
    /// `let pattern = value;`, with `: Type` after the pattern when the
    /// binding is annotated. `mutable` is set for `let mut name`, which is
    /// also recorded on the pattern's name: the one `mut` is read either
    /// way.
    Let { mutable: bool, pattern: Pattern, annotation: Option<Type>, value: Expr },
    /// `place = value;`, where `place` is a name or a field path such as
    /// `a.b.c` or `a.0.b`. Assignment is a statement, not an expression as
    /// in Rust, so it has no value and cannot stand where a value is needed.
    Assign { place: Expr, value: Expr },
    /// An expression followed by `;`, or one that ends in a block (`if`,
    /// `match`, `loop`, `for`, `while`, or a block itself), which ends its
    /// statement without a `;` as it does in Rust.
    Expression(Expr),
    Error,
}

#[derive(Debug, PartialEq, Eq)]
pub struct Expr {
    pub kind: ExprKind,
    pub span: Span,
}

impl Expr {
    /// Whether the expression ends in a block: a block, `if`, `match`,
    /// `loop`, `for`, or `while`. In statement position such an expression
    /// is a whole statement without a `;`, and what follows begins the next.
    pub fn is_block_like(&self) -> (result: bool)
        ensures
            result == (self.kind is Block || self.kind is Logic || self.kind is If || self.kind is Match
                || self.kind is Loop || self.kind is For || self.kind is While),
    {
        matches!(
            self.kind,
            ExprKind::Block(_) | ExprKind::Logic(_) | ExprKind::If { .. } | ExprKind::Match { .. }
                | ExprKind::Loop { .. } | ExprKind::For { .. } | ExprKind::While { .. }
        )
    }
}

#[derive(Debug, PartialEq, Eq)]
pub enum ExprKind {
    Name(Name),
    Path(Box<Path>),
    Integer(IntegerLiteral),
    /// A string literal, with its escapes decoded.
    String(String),
    Bool(bool),
    Unit,
    /// `_`: evidence the elaborator is asked to find.
    Hole,
    Group(Box<Expr>),
    Tuple(Vec<Expr>),
    /// Physical array literal, `[a, b, c]`.
    Array(Vec<Expr>),
    /// Physical indexed access, `items[index]`.
    Subscript { value: Box<Expr>, index: Box<Expr> },
    /// `name!(arguments)`: a built-in form. `prop!` and `prove!` take one
    /// formula; the others take expressions.
    Form {
        form: Form,
        /// The name, without its `!`.
        name_span: Span,
        arguments: Vec<Expr>,
        /// Specialization's physical source hint for `model!` dependency
        /// ordering. Elaboration independently checks the path and the
        /// selected model.
        source_hint: Option<Box<Type>>,
    },
    /// `S { fields }`, or `E::V { fields }` for a variant with named fields.
    Struct { path: Path, fields: Vec<ValueField> },
    Block(Block),
    /// `logic { ... }`: pure, total logical computation.
    Logic(Block),
    /// A named-arm constructor with evidence outside its witness arguments.
    Evidence { constructor: Box<Expr>, evidence: Box<Expr>, at_span: Span },
    If { condition: Box<Expr>, then_branch: Block, else_branch: Box<Expr> },
    Match { scrutinee: Box<Expr>, arms: Vec<MatchArm> },
    /// `loop { body }`.
    Loop { body: Block },
    /// `while condition { body }`, or `while let pattern = condition { body
    /// }` when `pattern` is present, in which case `condition` is the
    /// scrutinee.
    While { pattern: Option<Box<Pattern>>, condition: Box<Expr>, body: Block },
    /// `for pattern in iterable { body }`. The iterable of a bounded loop is
    /// a `Range`.
    For { pattern: Box<Pattern>, iterable: Box<Expr>, body: Block },
    /// `lower..upper` or `lower..=upper`. Only the header of a `for` reads a
    /// range.
    Range { kind: RangeKind, lower: Box<Expr>, upper: Box<Expr> },
    /// `break`, or `break value`.
    Break(Option<Box<Expr>>),
    /// `continue`, which carries nothing.
    Continue,
    /// `return`, or `return value`.
    Return(Option<Box<Expr>>),
    /// `&value` or `&mut value`.
    Ref { mutable: bool, expr: Box<Expr> },
    Forall { parameters: Vec<Parameter>, body: Block },
    Exists { parameters: Vec<Parameter>, body: Block },
    /// `!value`, which reads as a proposition as well as a `bool`.
    Not(Box<Expr>),
    /// A prefix operator other than `!`.
    Unary { operator: UnaryOp, operator_span: Span, expr: Box<Expr> },
    Binary { operator: BinaryOp, operator_span: Span, left: Box<Expr>, right: Box<Expr> },
    /// `expr as Type`
    Cast {
        expr: Box<Expr>,
        /// Filled by specialization for precise model dependency ordering.
        source_hint: Option<Box<Type>>,
        as_span: Span,
        ty: Type,
    },
    Call { callee: Box<Expr>, arguments: Vec<Expr> },
    /// An erased logical closure, `|x: T| body`.
    Closure { parameters: Vec<Parameter>, body: Box<Expr> },
    /// Explicit type arguments, `f::<T>` or `Enum::<T>::Variant`.
    GenericApply { callee: Box<Expr>, arguments: Vec<Type> },
    Member { value: Box<Expr>, name: Name },
    /// `value.0`
    Index { value: Box<Expr>, index: String, index_span: Span },
    Error,
}

/// `name: value`, or the shorthand `name` when `name` is `None`.
#[derive(Debug, PartialEq, Eq)]
pub struct ValueField {
    pub name: Option<Name>,
    pub value: Expr,
    pub span: Span,
}

#[derive(Debug, PartialEq, Eq)]
pub struct MatchArm {
    pub pattern: Pattern,
    pub body: Expr,
    pub span: Span,
}

/// Whether a range includes its upper bound: `..` or `..=`.
#[derive(Clone, Copy, Debug, PartialEq, Eq, Structural)]
pub enum RangeKind {
    Exclusive,
    Inclusive,
}

impl RangeKind {
    /// The operator as written.
    pub open spec fn spelled(self) -> &'static str {
        match self {
            RangeKind::Exclusive => "..",
            RangeKind::Inclusive => "..=",
        }
    }

    pub fn spelling(self) -> (result: &'static str)
        ensures
            result == self.spelled(),
    {
        match self {
            RangeKind::Exclusive => "..",
            RangeKind::Inclusive => "..=",
        }
    }
}


/// A built-in form, spelled `name!(...)` as Rust spells a macro call. The
/// list is closed: the parser knows it, and the elaborator gives each form
/// its meaning. Nothing is expanded.
#[derive(Clone, Copy, Debug, PartialEq, Eq, Hash, Structural)]
pub enum Form {
    /// `prop!(formula)`: a proposition.
    Prop,
    /// `prove!(formula)`: a claim stated where it stands, and its evidence.
    Prove,
    Rewrite,
    Unfold,
    Fold,
    Old,
    Snapshot,
    Model,
    Recurse,
    Assert,
    Unreachable,
    Todo,
    Panic,
    DebugAssert,
    Matches,
    Vec,
}

impl Form {
    pub const ALL: [Form; 16] = [
        Form::Prop,
        Form::Prove,
        Form::Rewrite,
        Form::Unfold,
        Form::Fold,
        Form::Old,
        Form::Snapshot,
        Form::Model,
        Form::Recurse,
        Form::Assert,
        Form::Unreachable,
        Form::Todo,
        Form::Panic,
        Form::DebugAssert,
        Form::Matches,
        Form::Vec,
    ];

    /// The name before the `!`.
    pub open spec fn spelled(self) -> &'static str {
        match self {
            Form::Prop => "prop",
            Form::Prove => "prove",
            Form::Rewrite => "rewrite",
            Form::Unfold => "unfold",
            Form::Fold => "fold",
            Form::Old => "old",
            Form::Snapshot => "snapshot",
            Form::Model => "model",
            Form::Recurse => "recurse",
            Form::Assert => "assert",
            Form::Unreachable => "unreachable",
            Form::Todo => "todo",
            Form::Panic => "panic",
            Form::DebugAssert => "debug_assert",
            Form::Matches => "matches",
            Form::Vec => "vec",
        }
    }

    /// The name before the `!`.
    pub fn name(self) -> (result: &'static str)
        ensures
            result == self.spelled(),
    {
        match self {
            Form::Prop => "prop",
            Form::Prove => "prove",
            Form::Rewrite => "rewrite",
            Form::Unfold => "unfold",
            Form::Fold => "fold",
            Form::Old => "old",
            Form::Snapshot => "snapshot",
            Form::Model => "model",
            Form::Recurse => "recurse",
            Form::Assert => "assert",
            Form::Unreachable => "unreachable",
            Form::Todo => "todo",
            Form::Panic => "panic",
            Form::DebugAssert => "debug_assert",
            Form::Matches => "matches",
            Form::Vec => "vec",
        }
    }

    /// The form named `name`, the first in the order of `ALL`.
    pub fn from_name(name: &str) -> (result: Option<Form>)
        ensures
            match result {
                Some(form) => form.spelled()@ == name@,
                None => forall|form: Form| form.spelled()@ != name@,
            },
    {
        let mut index: usize = 0;
        while index < 16
            invariant
                index <= 16,
                forall|j: int| 0 <= j < index ==> Form::ALL@[j].spelled()@ != name@,
            decreases 16 - index,
        {
            let form = Form::ALL[index];
            if same_text(form.name(), name) {
                return Some(form);
            }
            index += 1;
        }
        assert forall|form: Form| form.spelled()@ != name@ by {
            let at: int = match form {
                Form::Prop => 0,
                Form::Prove => 1,
                Form::Rewrite => 2,
                Form::Unfold => 3,
                Form::Fold => 4,
                Form::Old => 5,
                Form::Snapshot => 6,
                Form::Model => 7,
                Form::Recurse => 8,
                Form::Assert => 9,
                Form::Unreachable => 10,
                Form::Todo => 11,
                Form::Panic => 12,
                Form::DebugAssert => 13,
                Form::Matches => 14,
                Form::Vec => 15,
            };
            assert(Form::ALL@[at] == form);
        }
        None
    }

    /// Whether the form's one argument is a formula, in which `forall`,
    /// `exists`, and `=>` are recognized.
    pub fn takes_formula(self) -> (result: bool)
        ensures
            result == (self == Form::Prop || self == Form::Prove),
    {
        matches!(self, Form::Prop | Form::Prove)
    }
}

#[derive(Clone, Copy, Debug, PartialEq, Eq, Structural)]
pub enum UnaryOp {
    /// `-value`
    Neg,
    /// `*self`, the value behind the reference receiver of a method. The
    /// parser reads `*` before `self` alone.
    Deref,
}

impl UnaryOp {
    /// The operator as written.
    pub open spec fn spelled(self) -> &'static str {
        match self {
            UnaryOp::Neg => "-",
            UnaryOp::Deref => "*",
        }
    }

    pub fn spelling(self) -> (result: &'static str)
        ensures
            result == self.spelled(),
    {
        match self {
            UnaryOp::Neg => "-",
            UnaryOp::Deref => "*",
        }
    }
}

/// The binary operators, in Rust's order of precedence from tightest to
/// loosest. `as` and the postfix operators bind tighter than all of them,
/// and `=>`, the implication, is below `||`.
#[derive(Clone, Copy, Debug, PartialEq, Eq, Structural)]
pub enum BinaryOp {
    Mul,
    Div,
    Rem,
    Add,
    Sub,
    Shl,
    Shr,
    BitAnd,
    BitXor,
    BitOr,
    Equal,
    NotEqual,
    Less,
    LessEqual,
    Greater,
    GreaterEqual,
    And,
    Or,
    Implies,
}

impl BinaryOp {
    /// The operator as written.
    pub open spec fn spelled(self) -> &'static str {
        match self {
            BinaryOp::Mul => "*",
            BinaryOp::Div => "/",
            BinaryOp::Rem => "%",
            BinaryOp::Add => "+",
            BinaryOp::Sub => "-",
            BinaryOp::Shl => "<<",
            BinaryOp::Shr => ">>",
            BinaryOp::BitAnd => "&",
            BinaryOp::BitXor => "^",
            BinaryOp::BitOr => "|",
            BinaryOp::Equal => "==",
            BinaryOp::NotEqual => "!=",
            BinaryOp::Less => "<",
            BinaryOp::LessEqual => "<=",
            BinaryOp::Greater => ">",
            BinaryOp::GreaterEqual => ">=",
            BinaryOp::And => "&&",
            BinaryOp::Or => "||",
            BinaryOp::Implies => "=>",
        }
    }

    pub fn spelling(self) -> (result: &'static str)
        ensures
            result == self.spelled(),
    {
        match self {
            BinaryOp::Mul => "*",
            BinaryOp::Div => "/",
            BinaryOp::Rem => "%",
            BinaryOp::Add => "+",
            BinaryOp::Sub => "-",
            BinaryOp::Shl => "<<",
            BinaryOp::Shr => ">>",
            BinaryOp::BitAnd => "&",
            BinaryOp::BitXor => "^",
            BinaryOp::BitOr => "|",
            BinaryOp::Equal => "==",
            BinaryOp::NotEqual => "!=",
            BinaryOp::Less => "<",
            BinaryOp::LessEqual => "<=",
            BinaryOp::Greater => ">",
            BinaryOp::GreaterEqual => ">=",
            BinaryOp::And => "&&",
            BinaryOp::Or => "||",
            BinaryOp::Implies => "=>",
        }
    }

    /// `+ - * / %`, the arithmetic of the integer types.
    pub fn is_arithmetic(self) -> (result: bool)
        ensures
            result == (self == BinaryOp::Add || self == BinaryOp::Sub || self == BinaryOp::Mul || self
                == BinaryOp::Div || self == BinaryOp::Rem),
    {
        matches!(self, BinaryOp::Add | BinaryOp::Sub | BinaryOp::Mul | BinaryOp::Div | BinaryOp::Rem)
    }

    /// The shifts and the bitwise operators.
    pub fn is_bitwise(self) -> (result: bool)
        ensures
            result == (self == BinaryOp::Shl || self == BinaryOp::Shr || self == BinaryOp::BitAnd || self
                == BinaryOp::BitXor || self == BinaryOp::BitOr),
    {
        matches!(self, BinaryOp::Shl | BinaryOp::Shr | BinaryOp::BitAnd | BinaryOp::BitXor | BinaryOp::BitOr)
    }

    /// The comparisons.
    pub fn is_comparison(self) -> (result: bool)
        ensures
            result == (self == BinaryOp::Equal || self == BinaryOp::NotEqual || self == BinaryOp::Less
                || self == BinaryOp::LessEqual || self == BinaryOp::Greater || self == BinaryOp::GreaterEqual),
    {
        matches!(
            self,
            BinaryOp::Equal | BinaryOp::NotEqual | BinaryOp::Less | BinaryOp::LessEqual | BinaryOp::Greater
                | BinaryOp::GreaterEqual
        )
    }
}

/// A named import or re-export. Globs are rejected.
#[derive(Debug, PartialEq, Eq)]
pub struct Import {
    pub path: Path,
    pub alias: Option<Name>,
}


impl Name {
    /// A copy of the name.
    pub fn copy(&self) -> (result: Name)
        ensures
            result == *self,
    {
        Name { text: self.text.clone(), span: self.span }
    }
}

impl Path {
    /// A copy of the path.
    pub fn copy(&self) -> (result: Path)
        ensures
            result.segments@ == self.segments@,
            result.span == self.span,
    {
        let mut segments: Vec<Name> = Vec::new();
        let mut index: usize = 0;
        while index < self.segments.len()
            invariant
                index <= self.segments@.len(),
                segments@ == self.segments@.subrange(0, index as int),
            decreases self.segments.len() - index,
        {
            segments.push(self.segments[index].copy());
            index += 1;
            assert(segments@ =~= self.segments@.subrange(0, index as int));
        }
        assert(self.segments@.subrange(0, index as int) =~= self.segments@);
        Path { segments, span: self.span }
    }
}

impl IntegerLiteral {
    /// A copy of the literal.
    pub(crate) fn copy(&self) -> (result: IntegerLiteral)
        ensures
            same_literal(*self, result),
    {
        IntegerLiteral { value: self.value.copy(), suffix: self.suffix }
    }
}

impl DocComment {
    /// A copy of the comment.
    pub(crate) fn copy(&self) -> (result: DocComment)
        ensures
            result == *self,
    {
        DocComment { text: self.text.clone(), span: self.span }
    }
}

impl Visibility {
    /// A copy of the visibility.
    pub(crate) fn copy(&self) -> (result: Visibility)
        ensures
            same_visibility(*self, result),
    {
        let scope = match &self.scope {
            VisibilityScope::Public => VisibilityScope::Public,
            VisibilityScope::Crate => VisibilityScope::Crate,
            VisibilityScope::Super => VisibilityScope::Super,
            VisibilityScope::SelfModule => VisibilityScope::SelfModule,
            VisibilityScope::In(path) => VisibilityScope::In(path.copy()),
        };
        Visibility { scope, span: self.span }
    }
}

impl Import {
    /// A copy of the import.
    pub(crate) fn copy(&self) -> (result: Import)
        ensures
            same_import(*self, result),
    {
        Import {
            path: self.path.copy(),
            alias: match &self.alias {
                Some(alias) => Some(alias.copy()),
                None => None,
            },
        }
    }
}

impl GenericParameter {
    /// A copy of the parameter.
    pub fn copy(&self) -> (result: GenericParameter)
        ensures
            result.lifetime == self.lifetime,
            result.name == self.name,
            same_generic_parameter(*self, result),
    {
        GenericParameter {
            lifetime: self.lifetime,
            name: self.name.copy(),
            bounds: copy_paths(&self.bounds),
            span: self.span,
        }
    }
}

impl Type {
    /// A deep copy of the type.
    pub(crate) fn copy(&self) -> (result: Type)
        ensures
            same_type(*self, result),
        decreases self,
    {
        let kind = match &self.kind {
            TypeKind::Named(name) => TypeKind::Named(name.copy()),
            TypeKind::Lifetime(name) => TypeKind::Lifetime(name.copy()),
            TypeKind::Path { path, arguments } => TypeKind::Path {
                path: Box::new(path.copy()),
                arguments: copy_types(arguments),
            },
            TypeKind::Unit => TypeKind::Unit,
            TypeKind::Slice(inner) => TypeKind::Slice(Box::new(inner.copy())),
            TypeKind::Array { element, length } => TypeKind::Array {
                element: Box::new(element.copy()),
                length: Box::new(length.copy()),
            },
            TypeKind::Group(inner) => TypeKind::Group(Box::new(inner.copy())),
            TypeKind::Tuple(fields) => TypeKind::Tuple(copy_type_fields(fields)),
            TypeKind::Proof(claim) => TypeKind::Proof(Box::new(claim.copy())),
            TypeKind::Function { parameters, result } => TypeKind::Function {
                parameters: copy_type_fields(parameters),
                result: Box::new(result.copy()),
            },
            TypeKind::LogicalFunction { parameters, result } => TypeKind::LogicalFunction {
                parameters: copy_type_fields(parameters),
                result: Box::new(result.copy()),
            },
            TypeKind::Ref { lifetime, mutable, inner } => TypeKind::Ref {
                lifetime: match lifetime {
                    Some(name) => Some(name.copy()),
                    None => None,
                },
                mutable: *mutable,
                inner: Box::new(inner.copy()),
            },
            TypeKind::Never => TypeKind::Never,
        };
        Type { kind, span: self.span }
    }
}

impl TypeField {
    /// A deep copy of the field.
    pub(crate) fn copy(&self) -> (result: TypeField)
        ensures
            same_type_field(*self, result),
        decreases self,
    {
        TypeField {
            name: match &self.name {
                Some(name) => Some(name.copy()),
                None => None,
            },
            ty: self.ty.copy(),
            span: self.span,
        }
    }
}

impl Pattern {
    /// A deep copy of the pattern.
    pub(crate) fn copy(&self) -> (result: Pattern)
        ensures
            same_pattern(*self, result),
        decreases self,
    {
        let kind = match &self.kind {
            PatternKind::Name { name, mutable } => PatternKind::Name { name: name.copy(), mutable: *mutable },
            PatternKind::Binding { name, mutable, pattern, at_span } => PatternKind::Binding {
                name: name.copy(),
                mutable: *mutable,
                pattern: Box::new(pattern.copy()),
                at_span: *at_span,
            },
            PatternKind::Evidence { constructor, evidence, at_span } => PatternKind::Evidence {
                constructor: Box::new(constructor.copy()),
                evidence: Box::new(evidence.copy()),
                at_span: *at_span,
            },
            PatternKind::Wildcard => PatternKind::Wildcard,
            PatternKind::Unit => PatternKind::Unit,
            PatternKind::Bool(value) => PatternKind::Bool(*value),
            PatternKind::Integer(literal) => PatternKind::Integer(literal.copy()),
            PatternKind::Group(inner) => PatternKind::Group(Box::new(inner.copy())),
            PatternKind::Tuple(parts) => PatternKind::Tuple(copy_patterns(parts)),
            PatternKind::Struct { path, fields, rest } => PatternKind::Struct {
                path: Box::new(path.copy()),
                fields: copy_pattern_fields(fields),
                rest: *rest,
            },
            PatternKind::Variant { path, arguments } => PatternKind::Variant {
                path: Box::new(path.copy()),
                arguments: match arguments {
                    Some(parts) => Some(copy_patterns(parts)),
                    None => None,
                },
            },
        };
        Pattern { kind, span: self.span }
    }
}

impl PatternField {
    /// A deep copy of the field.
    pub(crate) fn copy(&self) -> (result: PatternField)
        ensures
            same_pattern_field(*self, result),
        decreases self,
    {
        PatternField {
            name: match &self.name {
                Some(name) => Some(name.copy()),
                None => None,
            },
            pattern: self.pattern.copy(),
            span: self.span,
        }
    }
}

impl Block {
    /// A deep copy of the block.
    pub(crate) fn copy(&self) -> (result: Block)
        ensures
            same_block(*self, result),
        decreases self,
    {
        Block {
            statements: copy_statements(&self.statements),
            tail: match &self.tail {
                Some(tail) => Some(Box::new(tail.copy())),
                None => None,
            },
            span: self.span,
        }
    }
}

impl Statement {
    /// A deep copy of the statement.
    pub(crate) fn copy(&self) -> (result: Statement)
        ensures
            same_statement(*self, result),
        decreases self,
    {
        let kind = match &self.kind {
            StatementKind::Let { mutable, pattern, annotation, value } => StatementKind::Let {
                mutable: *mutable,
                pattern: pattern.copy(),
                annotation: match annotation {
                    Some(ty) => Some(ty.copy()),
                    None => None,
                },
                value: value.copy(),
            },
            StatementKind::Assign { place, value } => StatementKind::Assign { place: place.copy(), value: value.copy() },
            StatementKind::Expression(expr) => StatementKind::Expression(expr.copy()),
            StatementKind::Error => StatementKind::Error,
        };
        Statement { kind, span: self.span }
    }
}

/// A deep copy of an optional boxed expression.
pub(crate) fn copy_optional_expr(expr: &Option<Box<Expr>>) -> (result: Option<Box<Expr>>)
    ensures
        same_optional_expr(*expr, result),
    decreases expr,
{
    match expr {
        Some(inner) => Some(Box::new(inner.copy())),
        None => None,
    }
}

/// A deep copy of an optional boxed type.
pub(crate) fn copy_optional_type(ty: &Option<Box<Type>>) -> (result: Option<Box<Type>>)
    ensures
        same_optional_type(*ty, result),
    decreases ty,
{
    match ty {
        Some(inner) => Some(Box::new(inner.copy())),
        None => None,
    }
}

impl Expr {
    /// A deep copy of the expression.
    pub(crate) fn copy(&self) -> (result: Expr)
        ensures
            same_expr(*self, result),
        decreases self,
    {
        let kind = match &self.kind {
            ExprKind::Name(name) => ExprKind::Name(name.copy()),
            ExprKind::Path(path) => ExprKind::Path(Box::new(path.copy())),
            ExprKind::Integer(literal) => ExprKind::Integer(literal.copy()),
            ExprKind::String(text) => ExprKind::String(text.clone()),
            ExprKind::Bool(value) => ExprKind::Bool(*value),
            ExprKind::Unit => ExprKind::Unit,
            ExprKind::Hole => ExprKind::Hole,
            ExprKind::Group(inner) => ExprKind::Group(Box::new(inner.copy())),
            ExprKind::Tuple(values) => ExprKind::Tuple(copy_exprs(values)),
            ExprKind::Array(values) => ExprKind::Array(copy_exprs(values)),
            ExprKind::Subscript { value, index } => ExprKind::Subscript {
                value: Box::new(value.copy()),
                index: Box::new(index.copy()),
            },
            ExprKind::Form { form, name_span, arguments, source_hint } => ExprKind::Form {
                form: *form,
                name_span: *name_span,
                arguments: copy_exprs(arguments),
                source_hint: copy_optional_type(source_hint),
            },
            ExprKind::Struct { path, fields } => ExprKind::Struct { path: path.copy(), fields: copy_value_fields(fields) },
            ExprKind::Block(block) => ExprKind::Block(block.copy()),
            ExprKind::Logic(block) => ExprKind::Logic(block.copy()),
            ExprKind::Evidence { constructor, evidence, at_span } => ExprKind::Evidence {
                constructor: Box::new(constructor.copy()),
                evidence: Box::new(evidence.copy()),
                at_span: *at_span,
            },
            ExprKind::If { condition, then_branch, else_branch } => ExprKind::If {
                condition: Box::new(condition.copy()),
                then_branch: then_branch.copy(),
                else_branch: Box::new(else_branch.copy()),
            },
            ExprKind::Match { scrutinee, arms } => ExprKind::Match {
                scrutinee: Box::new(scrutinee.copy()),
                arms: copy_match_arms(arms),
            },
            ExprKind::Loop { body } => ExprKind::Loop { body: body.copy() },
            ExprKind::While { pattern, condition, body } => ExprKind::While {
                pattern: match pattern {
                    Some(pattern) => Some(Box::new(pattern.copy())),
                    None => None,
                },
                condition: Box::new(condition.copy()),
                body: body.copy(),
            },
            ExprKind::For { pattern, iterable, body } => ExprKind::For {
                pattern: Box::new(pattern.copy()),
                iterable: Box::new(iterable.copy()),
                body: body.copy(),
            },
            ExprKind::Range { kind, lower, upper } => ExprKind::Range {
                kind: *kind,
                lower: Box::new(lower.copy()),
                upper: Box::new(upper.copy()),
            },
            ExprKind::Break(value) => ExprKind::Break(copy_optional_expr(value)),
            ExprKind::Continue => ExprKind::Continue,
            ExprKind::Return(value) => ExprKind::Return(copy_optional_expr(value)),
            ExprKind::Ref { mutable, expr } => ExprKind::Ref { mutable: *mutable, expr: Box::new(expr.copy()) },
            ExprKind::Forall { parameters, body } => ExprKind::Forall {
                parameters: copy_parameters(parameters),
                body: body.copy(),
            },
            ExprKind::Exists { parameters, body } => ExprKind::Exists {
                parameters: copy_parameters(parameters),
                body: body.copy(),
            },
            ExprKind::Not(inner) => ExprKind::Not(Box::new(inner.copy())),
            ExprKind::Unary { operator, operator_span, expr } => ExprKind::Unary {
                operator: *operator,
                operator_span: *operator_span,
                expr: Box::new(expr.copy()),
            },
            ExprKind::Binary { operator, operator_span, left, right } => ExprKind::Binary {
                operator: *operator,
                operator_span: *operator_span,
                left: Box::new(left.copy()),
                right: Box::new(right.copy()),
            },
            ExprKind::Cast { expr, source_hint, as_span, ty } => ExprKind::Cast {
                expr: Box::new(expr.copy()),
                source_hint: copy_optional_type(source_hint),
                as_span: *as_span,
                ty: ty.copy(),
            },
            ExprKind::Call { callee, arguments } => ExprKind::Call {
                callee: Box::new(callee.copy()),
                arguments: copy_exprs(arguments),
            },
            ExprKind::Closure { parameters, body } => ExprKind::Closure {
                parameters: copy_parameters(parameters),
                body: Box::new(body.copy()),
            },
            ExprKind::GenericApply { callee, arguments } => ExprKind::GenericApply {
                callee: Box::new(callee.copy()),
                arguments: copy_types(arguments),
            },
            ExprKind::Member { value, name } => ExprKind::Member { value: Box::new(value.copy()), name: name.copy() },
            ExprKind::Index { value, index, index_span } => ExprKind::Index {
                value: Box::new(value.copy()),
                index: index.clone(),
                index_span: *index_span,
            },
            ExprKind::Error => ExprKind::Error,
        };
        Expr { kind, span: self.span }
    }
}

impl ValueField {
    /// A deep copy of the field.
    pub(crate) fn copy(&self) -> (result: ValueField)
        ensures
            same_value_field(*self, result),
        decreases self,
    {
        ValueField {
            name: match &self.name {
                Some(name) => Some(name.copy()),
                None => None,
            },
            value: self.value.copy(),
            span: self.span,
        }
    }
}

impl MatchArm {
    /// A deep copy of the arm.
    pub(crate) fn copy(&self) -> (result: MatchArm)
        ensures
            same_match_arm(*self, result),
        decreases self,
    {
        MatchArm { pattern: self.pattern.copy(), body: self.body.copy(), span: self.span }
    }
}

impl Parameter {
    /// A deep copy of the parameter.
    pub(crate) fn copy(&self) -> (result: Parameter)
        ensures
            same_parameter(*self, result),
        decreases self,
    {
        Parameter { mutable: self.mutable, name: self.name.copy(), ty: self.ty.copy(), span: self.span }
    }
}

impl Attribute {
    /// A deep copy of the attribute.
    pub(crate) fn copy(&self) -> (result: Attribute)
        ensures
            same_attribute(*self, result),
        decreases self,
    {
        let kind = match &self.kind {
            AttributeKind::Trusted { reason, implementation } => AttributeKind::Trusted {
                reason: reason.clone(),
                implementation: implementation.copy(),
            },
            AttributeKind::Terminates { decreases } => AttributeKind::Terminates {
                decreases: match decreases {
                    Some(expr) => Some(expr.copy()),
                    None => None,
                },
            },
            AttributeKind::NoPanic => AttributeKind::NoPanic,
            AttributeKind::NoAlloc => AttributeKind::NoAlloc,
            AttributeKind::NoIo => AttributeKind::NoIo,
            AttributeKind::Derive(paths) => AttributeKind::Derive(copy_paths(paths)),
        };
        Attribute { kind, span: self.span }
    }
}

impl Field {
    /// A deep copy of the field.
    pub(crate) fn copy(&self) -> (result: Field)
        ensures
            same_field(*self, result),
        decreases self,
    {
        Field {
            doc: copy_doc_comments(&self.doc),
            visibility: match &self.visibility {
                Some(visibility) => Some(visibility.copy()),
                None => None,
            },
            name: self.name.copy(),
            ty: self.ty.copy(),
            span: self.span,
        }
    }
}

impl Variant {
    /// A deep copy of the variant.
    pub(crate) fn copy(&self) -> (result: Variant)
        ensures
            same_variant(*self, result),
        decreases self,
    {
        Variant {
            doc: copy_doc_comments(&self.doc),
            name: self.name.copy(),
            shape: self.shape,
            fields: copy_type_fields(&self.fields),
            span: self.span,
        }
    }
}

impl PropVariant {
    /// A deep copy of the variant.
    pub(crate) fn copy(&self) -> (result: PropVariant)
        ensures
            same_prop_variant(*self, result),
        decreases self,
    {
        PropVariant {
            doc: copy_doc_comments(&self.doc),
            name: self.name.copy(),
            shape: self.shape,
            fields: copy_type_fields(&self.fields),
            target: match &self.target {
                Some(target) => Some(target.copy()),
                None => None,
            },
            body: match &self.body {
                Some(body) => Some(body.copy()),
                None => None,
            },
            span: self.span,
        }
    }
}

impl Program {
    /// A deep copy of the program.
    pub(crate) fn copy(&self) -> (result: Program)
        ensures
            same_program(*self, result),
        decreases self,
    {
        Program {
            doc: copy_doc_comments(&self.doc),
            attributes: copy_attributes(&self.attributes),
            declarations: copy_declarations(&self.declarations),
        }
    }
}

impl Declaration {
    /// A deep copy of the declaration.
    pub fn copy(&self) -> (result: Declaration)
        ensures
            result.declared() == self.declared(),
            result.is_monomorphic() == self.is_monomorphic(),
            result.generics().len() == self.generics().len(),
            same_generic_names(self.generics(), result.generics()),
            same_declaration(*self, result),
        decreases self,
    {
        let kind = match &self.kind {
            DeclarationKind::Module { name, body } => DeclarationKind::Module {
                name: name.copy(),
                body: match body {
                    Some(body) => Some(body.copy()),
                    None => None,
                },
            },
            DeclarationKind::Use { imports } => DeclarationKind::Use { imports: copy_imports(imports) },
            DeclarationKind::Function { logical, generics, name, self_param, parameters, result, body } => {
                DeclarationKind::Function {
                    logical: *logical,
                    generics: copy_generic_parameters(generics),
                    name: name.copy(),
                    self_param: match self_param {
                        Some(param) => Some(SelfParam { kind: param.kind, span: param.span }),
                        None => None,
                    },
                    parameters: copy_parameters(parameters),
                    result: result.copy(),
                    body: body.copy(),
                }
            },
            DeclarationKind::Struct { generics, name, fields } => DeclarationKind::Struct {
                generics: copy_generic_parameters(generics),
                name: name.copy(),
                fields: copy_fields(fields),
            },
            DeclarationKind::Enum { generics, name, variants } => DeclarationKind::Enum {
                generics: copy_generic_parameters(generics),
                name: name.copy(),
                variants: copy_variants(variants),
            },
            DeclarationKind::Prop { generics, name, parameters, variants } => DeclarationKind::Prop {
                generics: copy_generic_parameters(generics),
                name: name.copy(),
                parameters: copy_parameters(parameters),
                variants: copy_prop_variants(variants),
            },
            DeclarationKind::Constant { name, ty, value } => DeclarationKind::Constant {
                name: name.copy(),
                ty: ty.copy(),
                value: value.copy(),
            },
            DeclarationKind::Impl { model, target, methods } => DeclarationKind::Impl {
                model: match model {
                    Some(model) => Some(
                        ModelImpl { source: model.source.copy(), target: model.target.copy(), span: model.span },
                    ),
                    None => None,
                },
                target: target.copy(),
                methods: copy_declarations(methods),
            },
        };
        let result = Declaration {
            doc: copy_doc_comments(&self.doc),
            attributes: copy_attributes(&self.attributes),
            visibility: match &self.visibility {
                Some(visibility) => Some(visibility.copy()),
                None => None,
            },
            kind,
            span: self.span,
        };
        proof {
            assert(result.generics().len() == self.generics().len());
            assert forall|i: int| 0 <= i < self.generics().len() implies #[trigger] result.generics()[i].lifetime
                == self.generics()[i].lifetime by {}
            assert forall|i: int| 0 <= i < self.generics().len() implies #[trigger] self.generics()[i].lifetime
                == result.generics()[i].lifetime && self.generics()[i].name == result.generics()[i].name by {
                assert(same_generic_parameter(self.generics()[i], result.generics()[i]));
            }
            if self.is_monomorphic() {
                assert forall|i: int| 0 <= i < result.generics().len() implies (
                #[trigger] result.generics()[i]).lifetime by {
                    assert(self.generics()[i].lifetime);
                }
            }
            if result.is_monomorphic() {
                assert forall|i: int| 0 <= i < self.generics().len() implies (#[trigger] self.generics()[i]).lifetime by {
                    assert(result.generics()[i].lifetime);
                }
            }
        }
        result
    }
}

/// A deep copy of each element.
pub(crate) fn copy_paths(items: &Vec<Path>) -> (result: Vec<Path>)
    ensures
        same_paths(items@, result@),
    decreases items,
{
    let mut result: Vec<Path> = Vec::new();
    let mut index: usize = 0;
    while index < items.len()
        invariant
            index <= items@.len(),
            result@.len() == index,
            forall|i: int| #![trigger items@[i]] 0 <= i < index ==> same_path(items@[i], result@[i]),
        decreases items.len() - index,
    {
        result.push(items[index].copy());
        index += 1;
    }
    result
}

/// A deep copy of each element.
pub(crate) fn copy_types(items: &Vec<Type>) -> (result: Vec<Type>)
    ensures
        same_types(items@, result@),
    decreases items,
{
    let mut result: Vec<Type> = Vec::new();
    let mut index: usize = 0;
    while index < items.len()
        invariant
            index <= items@.len(),
            result@.len() == index,
            forall|i: int| #![trigger items@[i]] 0 <= i < index ==> same_type(items@[i], result@[i]),
        decreases items.len() - index,
    {
        result.push(items[index].copy());
        index += 1;
    }
    result
}

/// A deep copy of each element.
pub(crate) fn copy_type_fields(items: &Vec<TypeField>) -> (result: Vec<TypeField>)
    ensures
        same_type_fields(items@, result@),
    decreases items,
{
    let mut result: Vec<TypeField> = Vec::new();
    let mut index: usize = 0;
    while index < items.len()
        invariant
            index <= items@.len(),
            result@.len() == index,
            forall|i: int| #![trigger items@[i]] 0 <= i < index ==> same_type_field(items@[i], result@[i]),
        decreases items.len() - index,
    {
        result.push(items[index].copy());
        index += 1;
    }
    result
}

/// A deep copy of each element.
pub(crate) fn copy_patterns(items: &Vec<Pattern>) -> (result: Vec<Pattern>)
    ensures
        same_patterns(items@, result@),
    decreases items,
{
    let mut result: Vec<Pattern> = Vec::new();
    let mut index: usize = 0;
    while index < items.len()
        invariant
            index <= items@.len(),
            result@.len() == index,
            forall|i: int| #![trigger items@[i]] 0 <= i < index ==> same_pattern(items@[i], result@[i]),
        decreases items.len() - index,
    {
        result.push(items[index].copy());
        index += 1;
    }
    result
}

/// A deep copy of each element.
pub(crate) fn copy_pattern_fields(items: &Vec<PatternField>) -> (result: Vec<PatternField>)
    ensures
        same_pattern_fields(items@, result@),
    decreases items,
{
    let mut result: Vec<PatternField> = Vec::new();
    let mut index: usize = 0;
    while index < items.len()
        invariant
            index <= items@.len(),
            result@.len() == index,
            forall|i: int| #![trigger items@[i]] 0 <= i < index ==> same_pattern_field(items@[i], result@[i]),
        decreases items.len() - index,
    {
        result.push(items[index].copy());
        index += 1;
    }
    result
}

/// A deep copy of each element.
pub(crate) fn copy_statements(items: &Vec<Statement>) -> (result: Vec<Statement>)
    ensures
        same_statements(items@, result@),
    decreases items,
{
    let mut result: Vec<Statement> = Vec::new();
    let mut index: usize = 0;
    while index < items.len()
        invariant
            index <= items@.len(),
            result@.len() == index,
            forall|i: int| #![trigger items@[i]] 0 <= i < index ==> same_statement(items@[i], result@[i]),
        decreases items.len() - index,
    {
        result.push(items[index].copy());
        index += 1;
    }
    result
}

/// A deep copy of each element.
pub(crate) fn copy_exprs(items: &Vec<Expr>) -> (result: Vec<Expr>)
    ensures
        same_exprs(items@, result@),
    decreases items,
{
    let mut result: Vec<Expr> = Vec::new();
    let mut index: usize = 0;
    while index < items.len()
        invariant
            index <= items@.len(),
            result@.len() == index,
            forall|i: int| #![trigger items@[i]] 0 <= i < index ==> same_expr(items@[i], result@[i]),
        decreases items.len() - index,
    {
        result.push(items[index].copy());
        index += 1;
    }
    result
}

/// A deep copy of each element.
pub(crate) fn copy_value_fields(items: &Vec<ValueField>) -> (result: Vec<ValueField>)
    ensures
        same_value_fields(items@, result@),
    decreases items,
{
    let mut result: Vec<ValueField> = Vec::new();
    let mut index: usize = 0;
    while index < items.len()
        invariant
            index <= items@.len(),
            result@.len() == index,
            forall|i: int| #![trigger items@[i]] 0 <= i < index ==> same_value_field(items@[i], result@[i]),
        decreases items.len() - index,
    {
        result.push(items[index].copy());
        index += 1;
    }
    result
}

/// A deep copy of each element.
pub(crate) fn copy_match_arms(items: &Vec<MatchArm>) -> (result: Vec<MatchArm>)
    ensures
        same_match_arms(items@, result@),
    decreases items,
{
    let mut result: Vec<MatchArm> = Vec::new();
    let mut index: usize = 0;
    while index < items.len()
        invariant
            index <= items@.len(),
            result@.len() == index,
            forall|i: int| #![trigger items@[i]] 0 <= i < index ==> same_match_arm(items@[i], result@[i]),
        decreases items.len() - index,
    {
        result.push(items[index].copy());
        index += 1;
    }
    result
}

/// A deep copy of each element.
pub(crate) fn copy_parameters(items: &Vec<Parameter>) -> (result: Vec<Parameter>)
    ensures
        same_parameters(items@, result@),
    decreases items,
{
    let mut result: Vec<Parameter> = Vec::new();
    let mut index: usize = 0;
    while index < items.len()
        invariant
            index <= items@.len(),
            result@.len() == index,
            forall|i: int| #![trigger items@[i]] 0 <= i < index ==> same_parameter(items@[i], result@[i]),
        decreases items.len() - index,
    {
        result.push(items[index].copy());
        index += 1;
    }
    result
}

/// A deep copy of each element.
pub fn copy_generic_parameters(items: &Vec<GenericParameter>) -> (result: Vec<GenericParameter>)
    ensures
        result@.len() == items@.len(),
        forall|i: int| 0 <= i < items@.len() ==> #[trigger] result@[i].lifetime == items@[i].lifetime,
        same_generic_parameters(items@, result@),
    decreases items,
{
    let mut result: Vec<GenericParameter> = Vec::new();
    let mut index: usize = 0;
    while index < items.len()
        invariant
            index <= items@.len(),
            result@.len() == index,
            forall|i: int| 0 <= i < index ==> #[trigger] result@[i].lifetime == items@[i].lifetime,
            forall|i: int| #![trigger items@[i]] 0 <= i < index ==> same_generic_parameter(items@[i], result@[i]),
        decreases items.len() - index,
    {
        result.push(items[index].copy());
        index += 1;
    }
    result
}

/// A deep copy of each element.
pub(crate) fn copy_attributes(items: &Vec<Attribute>) -> (result: Vec<Attribute>)
    ensures
        same_attributes(items@, result@),
    decreases items,
{
    let mut result: Vec<Attribute> = Vec::new();
    let mut index: usize = 0;
    while index < items.len()
        invariant
            index <= items@.len(),
            result@.len() == index,
            forall|i: int| #![trigger items@[i]] 0 <= i < index ==> same_attribute(items@[i], result@[i]),
        decreases items.len() - index,
    {
        result.push(items[index].copy());
        index += 1;
    }
    result
}

/// A deep copy of each element.
pub(crate) fn copy_doc_comments(items: &Vec<DocComment>) -> (result: Vec<DocComment>)
    ensures
        result@ == items@,
    decreases items,
{
    let mut result: Vec<DocComment> = Vec::new();
    let mut index: usize = 0;
    while index < items.len()
        invariant
            index <= items@.len(),
            result@.len() == index,
            forall|i: int| 0 <= i < index ==> #[trigger] result@[i] == items@[i],
        decreases items.len() - index,
    {
        result.push(items[index].copy());
        index += 1;
    }
    assert(result@ =~= items@);
    result
}

/// A deep copy of each element.
pub(crate) fn copy_declarations(items: &Vec<Declaration>) -> (result: Vec<Declaration>)
    ensures
        same_declarations(items@, result@),
    decreases items,
{
    let mut result: Vec<Declaration> = Vec::new();
    let mut index: usize = 0;
    while index < items.len()
        invariant
            index <= items@.len(),
            result@.len() == index,
            forall|i: int| #![trigger items@[i]] 0 <= i < index ==> same_declaration(items@[i], result@[i]),
        decreases items.len() - index,
    {
        result.push(items[index].copy());
        index += 1;
    }
    result
}

/// A deep copy of each element.
pub(crate) fn copy_fields(items: &Vec<Field>) -> (result: Vec<Field>)
    ensures
        same_fields(items@, result@),
    decreases items,
{
    let mut result: Vec<Field> = Vec::new();
    let mut index: usize = 0;
    while index < items.len()
        invariant
            index <= items@.len(),
            result@.len() == index,
            forall|i: int| #![trigger items@[i]] 0 <= i < index ==> same_field(items@[i], result@[i]),
        decreases items.len() - index,
    {
        result.push(items[index].copy());
        index += 1;
    }
    result
}

/// A deep copy of each element.
pub(crate) fn copy_variants(items: &Vec<Variant>) -> (result: Vec<Variant>)
    ensures
        same_variants(items@, result@),
    decreases items,
{
    let mut result: Vec<Variant> = Vec::new();
    let mut index: usize = 0;
    while index < items.len()
        invariant
            index <= items@.len(),
            result@.len() == index,
            forall|i: int| #![trigger items@[i]] 0 <= i < index ==> same_variant(items@[i], result@[i]),
        decreases items.len() - index,
    {
        result.push(items[index].copy());
        index += 1;
    }
    result
}

/// A deep copy of each element.
pub(crate) fn copy_prop_variants(items: &Vec<PropVariant>) -> (result: Vec<PropVariant>)
    ensures
        same_prop_variants(items@, result@),
    decreases items,
{
    let mut result: Vec<PropVariant> = Vec::new();
    let mut index: usize = 0;
    while index < items.len()
        invariant
            index <= items@.len(),
            result@.len() == index,
            forall|i: int| #![trigger items@[i]] 0 <= i < index ==> same_prop_variant(items@[i], result@[i]),
        decreases items.len() - index,
    {
        result.push(items[index].copy());
        index += 1;
    }
    result
}

/// A deep copy of each element.
pub(crate) fn copy_imports(items: &Vec<Import>) -> (result: Vec<Import>)
    ensures
        same_imports(items@, result@),
    decreases items,
{
    let mut result: Vec<Import> = Vec::new();
    let mut index: usize = 0;
    while index < items.len()
        invariant
            index <= items@.len(),
            result@.len() == index,
            forall|i: int| #![trigger items@[i]] 0 <= i < index ==> same_import(items@[i], result@[i]),
        decreases items.len() - index,
    {
        result.push(items[index].copy());
        index += 1;
    }
    result
}


/// Two paths are the same: the same segments, at the same span.
pub open spec fn same_path(a: Path, b: Path) -> bool {
    a.segments@ == b.segments@ && a.span == b.span
}

/// Two lists of paths are the same, element by element.
pub open spec fn same_paths(a: Seq<Path>, b: Seq<Path>) -> bool {
    a.len() == b.len() && forall|i: int| 0 <= i < a.len() ==> #[trigger] same_path(a[i], b[i])
}

/// Two literals are the same: the same value and suffix.
pub open spec fn same_literal(a: IntegerLiteral, b: IntegerLiteral) -> bool {
    a.value@ == b.value@ && a.suffix == b.suffix
}

/// Two visibilities are the same.
pub open spec fn same_visibility(a: Visibility, b: Visibility) -> bool {
    &&& a.span == b.span
    &&& match a.scope {
        VisibilityScope::In(path) => b.scope is In && same_path(path, b.scope->In_0),
        _ => b.scope == a.scope,
    }
}

/// Two optional visibilities are the same.
pub open spec fn same_optional_visibility(a: Option<Visibility>, b: Option<Visibility>) -> bool {
    match a {
        Some(x) => b is Some && same_visibility(x, b->0),
        None => b is None,
    }
}

/// Two imports are the same.
pub open spec fn same_import(a: Import, b: Import) -> bool {
    same_path(a.path, b.path) && a.alias == b.alias
}

/// Two lists of imports are the same, element by element.
pub open spec fn same_imports(a: Seq<Import>, b: Seq<Import>) -> bool {
    a.len() == b.len() && forall|i: int| 0 <= i < a.len() ==> #[trigger] same_import(a[i], b[i])
}

/// Two generic parameters are the same.
pub open spec fn same_generic_parameter(a: GenericParameter, b: GenericParameter) -> bool {
    a.lifetime == b.lifetime && a.name == b.name && same_paths(a.bounds@, b.bounds@) && a.span == b.span
}

/// Two lists of generic parameters name the same parameters in the same
/// order, each a lifetime exactly when the other is.
pub open spec fn same_generic_names(a: Seq<GenericParameter>, b: Seq<GenericParameter>) -> bool {
    a.len() == b.len() && forall|i: int| 0 <= i < a.len() ==> #[trigger] a[i].lifetime == b[i].lifetime && a[i].name
        == b[i].name
}

/// Two lists of generic parameters are the same, element by element.
pub open spec fn same_generic_parameters(a: Seq<GenericParameter>, b: Seq<GenericParameter>) -> bool {
    a.len() == b.len() && forall|i: int| 0 <= i < a.len() ==> #[trigger] same_generic_parameter(a[i], b[i])
}

/// Two types are the same, all the way down.
pub open spec fn same_type(a: Type, b: Type) -> bool
    decreases a,
{
    &&& a.span == b.span
    &&& match a.kind {
        TypeKind::Path { path, arguments } => b.kind is Path && same_path(*path, *b.kind->Path_path) && same_types(
            arguments@,
            b.kind->Path_arguments@,
        ),
        TypeKind::Slice(inner) => b.kind is Slice && same_type(*inner, *b.kind->Slice_0),
        TypeKind::Array { element, length } => b.kind is Array && same_type(*element, *b.kind->Array_element)
            && same_expr(*length, *b.kind->Array_length),
        TypeKind::Group(inner) => b.kind is Group && same_type(*inner, *b.kind->Group_0),
        TypeKind::Tuple(fields) => b.kind is Tuple && same_type_fields(fields@, b.kind->Tuple_0@),
        TypeKind::Proof(claim) => b.kind is Proof && same_expr(*claim, *b.kind->Proof_0),
        TypeKind::Function { parameters, result } => b.kind is Function && same_type_fields(
            parameters@,
            b.kind->Function_parameters@,
        ) && same_type(*result, *b.kind->Function_result),
        TypeKind::LogicalFunction { parameters, result } => b.kind is LogicalFunction && same_type_fields(
            parameters@,
            b.kind->LogicalFunction_parameters@,
        ) && same_type(*result, *b.kind->LogicalFunction_result),
        TypeKind::Ref { lifetime, mutable, inner } => b.kind is Ref && b.kind->Ref_lifetime == lifetime
            && b.kind->Ref_mutable == mutable && same_type(*inner, *b.kind->Ref_inner),
        _ => b.kind == a.kind,
    }
}

/// Two lists of types are the same, element by element.
pub open spec fn same_types(a: Seq<Type>, b: Seq<Type>) -> bool
    decreases a,
{
    a.len() == b.len() && forall|i: int| 0 <= i < a.len() ==> #[trigger] same_type(a[i], b[i])
}

/// Two type fields are the same.
pub open spec fn same_type_field(a: TypeField, b: TypeField) -> bool
    decreases a,
{
    a.name == b.name && same_type(a.ty, b.ty) && a.span == b.span
}

/// Two lists of type fields are the same, element by element.
pub open spec fn same_type_fields(a: Seq<TypeField>, b: Seq<TypeField>) -> bool
    decreases a,
{
    a.len() == b.len() && forall|i: int| 0 <= i < a.len() ==> #[trigger] same_type_field(a[i], b[i])
}

/// Two optional boxed types are the same.
pub open spec fn same_optional_type(a: Option<Box<Type>>, b: Option<Box<Type>>) -> bool
    decreases a,
{
    match a {
        Some(x) => b is Some && same_type(*x, *b->0),
        None => b is None,
    }
}

/// Two patterns are the same, all the way down.
pub open spec fn same_pattern(a: Pattern, b: Pattern) -> bool
    decreases a,
{
    &&& a.span == b.span
    &&& match a.kind {
        PatternKind::Binding { name, mutable, pattern, at_span } => b.kind is Binding && b.kind->Binding_name == name
            && b.kind->Binding_mutable == mutable && b.kind->Binding_at_span == at_span && same_pattern(
            *pattern,
            *b.kind->Binding_pattern,
        ),
        PatternKind::Evidence { constructor, evidence, at_span } => b.kind is Evidence && same_pattern(
            *constructor,
            *b.kind->Evidence_constructor,
        ) && same_pattern(*evidence, *b.kind->Evidence_evidence) && b.kind->Evidence_at_span == at_span,
        PatternKind::Integer(literal) => b.kind is Integer && same_literal(literal, b.kind->Integer_0),
        PatternKind::Group(inner) => b.kind is Group && same_pattern(*inner, *b.kind->Group_0),
        PatternKind::Tuple(parts) => b.kind is Tuple && same_patterns(parts@, b.kind->Tuple_0@),
        PatternKind::Struct { path, fields, rest } => b.kind is Struct && same_path(*path, *b.kind->Struct_path)
            && same_pattern_fields(fields@, b.kind->Struct_fields@) && b.kind->Struct_rest == rest,
        PatternKind::Variant { path, arguments } => b.kind is Variant && same_path(*path, *b.kind->Variant_path)
            && match arguments {
            Some(parts) => b.kind->Variant_arguments is Some && same_patterns(
                parts@,
                b.kind->Variant_arguments->0@,
            ),
            None => b.kind->Variant_arguments is None,
        },
        _ => b.kind == a.kind,
    }
}

/// Two lists of patterns are the same, element by element.
pub open spec fn same_patterns(a: Seq<Pattern>, b: Seq<Pattern>) -> bool
    decreases a,
{
    a.len() == b.len() && forall|i: int| 0 <= i < a.len() ==> #[trigger] same_pattern(a[i], b[i])
}

/// Two field patterns are the same.
pub open spec fn same_pattern_field(a: PatternField, b: PatternField) -> bool
    decreases a,
{
    a.name == b.name && same_pattern(a.pattern, b.pattern) && a.span == b.span
}

/// Two lists of field patterns are the same, element by element.
pub open spec fn same_pattern_fields(a: Seq<PatternField>, b: Seq<PatternField>) -> bool
    decreases a,
{
    a.len() == b.len() && forall|i: int| 0 <= i < a.len() ==> #[trigger] same_pattern_field(a[i], b[i])
}

/// Two blocks are the same.
pub open spec fn same_block(a: Block, b: Block) -> bool
    decreases a,
{
    same_statements(a.statements@, b.statements@) && same_optional_expr(a.tail, b.tail) && a.span == b.span
}

/// Two statements are the same.
pub open spec fn same_statement(a: Statement, b: Statement) -> bool
    decreases a,
{
    &&& a.span == b.span
    &&& match a.kind {
        StatementKind::Let { mutable, pattern, annotation, value } => {
            &&& b.kind is Let
            &&& b.kind->Let_mutable == mutable
            &&& same_pattern(pattern, b.kind->Let_pattern)
            &&& match annotation {
                Some(ty) => b.kind->Let_annotation is Some && same_type(ty, b.kind->Let_annotation->0),
                None => b.kind->Let_annotation is None,
            }
            &&& same_expr(value, b.kind->Let_value)
        },
        StatementKind::Assign { place, value } => b.kind is Assign && same_expr(place, b.kind->Assign_place)
            && same_expr(value, b.kind->Assign_value),
        StatementKind::Expression(expr) => b.kind is Expression && same_expr(expr, b.kind->Expression_0),
        StatementKind::Error => b.kind is Error,
    }
}

/// Two lists of statements are the same, element by element.
pub open spec fn same_statements(a: Seq<Statement>, b: Seq<Statement>) -> bool
    decreases a,
{
    a.len() == b.len() && forall|i: int| 0 <= i < a.len() ==> #[trigger] same_statement(a[i], b[i])
}

/// Two optional boxed expressions are the same.
pub open spec fn same_optional_expr(a: Option<Box<Expr>>, b: Option<Box<Expr>>) -> bool
    decreases a,
{
    match a {
        Some(x) => b is Some && same_expr(*x, *b->0),
        None => b is None,
    }
}

/// Two expressions are the same, all the way down.
pub open spec fn same_expr(a: Expr, b: Expr) -> bool
    decreases a,
{
    &&& a.span == b.span
    &&& match a.kind {
        ExprKind::Path(path) => b.kind is Path && same_path(*path, *b.kind->Path_0),
        ExprKind::Integer(literal) => b.kind is Integer && same_literal(literal, b.kind->Integer_0),
        ExprKind::Group(inner) => b.kind is Group && same_expr(*inner, *b.kind->Group_0),
        ExprKind::Tuple(values) => b.kind is Tuple && same_exprs(values@, b.kind->Tuple_0@),
        ExprKind::Array(values) => b.kind is Array && same_exprs(values@, b.kind->Array_0@),
        ExprKind::Subscript { value, index } => b.kind is Subscript && same_expr(*value, *b.kind->Subscript_value)
            && same_expr(*index, *b.kind->Subscript_index),
        ExprKind::Form { form, name_span, arguments, source_hint } => {
            &&& b.kind is Form
            &&& b.kind->Form_form == form
            &&& b.kind->Form_name_span == name_span
            &&& same_exprs(arguments@, b.kind->Form_arguments@)
            &&& same_optional_type(source_hint, b.kind->Form_source_hint)
        },
        ExprKind::Struct { path, fields } => b.kind is Struct && same_path(path, b.kind->Struct_path)
            && same_value_fields(fields@, b.kind->Struct_fields@),
        ExprKind::Block(block) => b.kind is Block && same_block(block, b.kind->Block_0),
        ExprKind::Logic(block) => b.kind is Logic && same_block(block, b.kind->Logic_0),
        ExprKind::Evidence { constructor, evidence, at_span } => b.kind is Evidence && same_expr(
            *constructor,
            *b.kind->Evidence_constructor,
        ) && same_expr(*evidence, *b.kind->Evidence_evidence) && b.kind->Evidence_at_span == at_span,
        ExprKind::If { condition, then_branch, else_branch } => b.kind is If && same_expr(
            *condition,
            *b.kind->If_condition,
        ) && same_block(then_branch, b.kind->If_then_branch) && same_expr(*else_branch, *b.kind->If_else_branch),
        ExprKind::Match { scrutinee, arms } => b.kind is Match && same_expr(*scrutinee, *b.kind->Match_scrutinee)
            && same_match_arms(arms@, b.kind->Match_arms@),
        ExprKind::Loop { body } => b.kind is Loop && same_block(body, b.kind->Loop_body),
        ExprKind::While { pattern, condition, body } => {
            &&& b.kind is While
            &&& match pattern {
                Some(p) => b.kind->While_pattern is Some && same_pattern(*p, *b.kind->While_pattern->0),
                None => b.kind->While_pattern is None,
            }
            &&& same_expr(*condition, *b.kind->While_condition)
            &&& same_block(body, b.kind->While_body)
        },
        ExprKind::For { pattern, iterable, body } => b.kind is For && same_pattern(*pattern, *b.kind->For_pattern)
            && same_expr(*iterable, *b.kind->For_iterable) && same_block(body, b.kind->For_body),
        ExprKind::Range { kind, lower, upper } => b.kind is Range && b.kind->Range_kind == kind && same_expr(
            *lower,
            *b.kind->Range_lower,
        ) && same_expr(*upper, *b.kind->Range_upper),
        ExprKind::Break(value) => b.kind is Break && same_optional_expr(value, b.kind->Break_0),
        ExprKind::Return(value) => b.kind is Return && same_optional_expr(value, b.kind->Return_0),
        ExprKind::Ref { mutable, expr } => b.kind is Ref && b.kind->Ref_mutable == mutable && same_expr(
            *expr,
            *b.kind->Ref_expr,
        ),
        ExprKind::Forall { parameters, body } => b.kind is Forall && same_parameters(
            parameters@,
            b.kind->Forall_parameters@,
        ) && same_block(body, b.kind->Forall_body),
        ExprKind::Exists { parameters, body } => b.kind is Exists && same_parameters(
            parameters@,
            b.kind->Exists_parameters@,
        ) && same_block(body, b.kind->Exists_body),
        ExprKind::Not(inner) => b.kind is Not && same_expr(*inner, *b.kind->Not_0),
        ExprKind::Unary { operator, operator_span, expr } => b.kind is Unary && b.kind->Unary_operator == operator
            && b.kind->Unary_operator_span == operator_span && same_expr(*expr, *b.kind->Unary_expr),
        ExprKind::Binary { operator, operator_span, left, right } => {
            &&& b.kind is Binary
            &&& b.kind->Binary_operator == operator
            &&& b.kind->Binary_operator_span == operator_span
            &&& same_expr(*left, *b.kind->Binary_left)
            &&& same_expr(*right, *b.kind->Binary_right)
        },
        ExprKind::Cast { expr, source_hint, as_span, ty } => {
            &&& b.kind is Cast
            &&& same_expr(*expr, *b.kind->Cast_expr)
            &&& same_optional_type(source_hint, b.kind->Cast_source_hint)
            &&& b.kind->Cast_as_span == as_span
            &&& same_type(ty, b.kind->Cast_ty)
        },
        ExprKind::Call { callee, arguments } => b.kind is Call && same_expr(*callee, *b.kind->Call_callee)
            && same_exprs(arguments@, b.kind->Call_arguments@),
        ExprKind::Closure { parameters, body } => b.kind is Closure && same_parameters(
            parameters@,
            b.kind->Closure_parameters@,
        ) && same_expr(*body, *b.kind->Closure_body),
        ExprKind::GenericApply { callee, arguments } => b.kind is GenericApply && same_expr(
            *callee,
            *b.kind->GenericApply_callee,
        ) && same_types(arguments@, b.kind->GenericApply_arguments@),
        ExprKind::Member { value, name } => b.kind is Member && same_expr(*value, *b.kind->Member_value)
            && b.kind->Member_name == name,
        ExprKind::Index { value, index, index_span } => b.kind is Index && same_expr(*value, *b.kind->Index_value)
            && b.kind->Index_index == index && b.kind->Index_index_span == index_span,
        _ => b.kind == a.kind,
    }
}

/// Two lists of expressions are the same, element by element.
pub open spec fn same_exprs(a: Seq<Expr>, b: Seq<Expr>) -> bool
    decreases a,
{
    a.len() == b.len() && forall|i: int| 0 <= i < a.len() ==> #[trigger] same_expr(a[i], b[i])
}

/// Two field values are the same.
pub open spec fn same_value_field(a: ValueField, b: ValueField) -> bool
    decreases a,
{
    a.name == b.name && same_expr(a.value, b.value) && a.span == b.span
}

/// Two lists of field values are the same, element by element.
pub open spec fn same_value_fields(a: Seq<ValueField>, b: Seq<ValueField>) -> bool
    decreases a,
{
    a.len() == b.len() && forall|i: int| 0 <= i < a.len() ==> #[trigger] same_value_field(a[i], b[i])
}

/// Two match arms are the same.
pub open spec fn same_match_arm(a: MatchArm, b: MatchArm) -> bool
    decreases a,
{
    same_pattern(a.pattern, b.pattern) && same_expr(a.body, b.body) && a.span == b.span
}

/// Two lists of match arms are the same, element by element.
pub open spec fn same_match_arms(a: Seq<MatchArm>, b: Seq<MatchArm>) -> bool
    decreases a,
{
    a.len() == b.len() && forall|i: int| 0 <= i < a.len() ==> #[trigger] same_match_arm(a[i], b[i])
}

/// Two parameters are the same.
pub open spec fn same_parameter(a: Parameter, b: Parameter) -> bool
    decreases a,
{
    a.mutable == b.mutable && a.name == b.name && same_type(a.ty, b.ty) && a.span == b.span
}

/// Two lists of parameters are the same, element by element.
pub open spec fn same_parameters(a: Seq<Parameter>, b: Seq<Parameter>) -> bool
    decreases a,
{
    a.len() == b.len() && forall|i: int| 0 <= i < a.len() ==> #[trigger] same_parameter(a[i], b[i])
}

/// Two attributes are the same.
pub open spec fn same_attribute(a: Attribute, b: Attribute) -> bool {
    &&& a.span == b.span
    &&& match a.kind {
        AttributeKind::Trusted { reason, implementation } => b.kind is Trusted && b.kind->Trusted_reason == reason
            && same_path(implementation, b.kind->Trusted_implementation),
        AttributeKind::Terminates { decreases } => b.kind is Terminates && match decreases {
            Some(expr) => b.kind->Terminates_decreases is Some && same_expr(expr, b.kind->Terminates_decreases->0),
            None => b.kind->Terminates_decreases is None,
        },
        AttributeKind::Derive(paths) => b.kind is Derive && same_paths(paths@, b.kind->Derive_0@),
        _ => b.kind == a.kind,
    }
}

/// Two lists of attributes are the same, element by element.
pub open spec fn same_attributes(a: Seq<Attribute>, b: Seq<Attribute>) -> bool {
    a.len() == b.len() && forall|i: int| 0 <= i < a.len() ==> #[trigger] same_attribute(a[i], b[i])
}

/// Two struct fields are the same.
pub open spec fn same_field(a: Field, b: Field) -> bool {
    &&& a.doc@ == b.doc@
    &&& same_optional_visibility(a.visibility, b.visibility)
    &&& a.name == b.name
    &&& same_type(a.ty, b.ty)
    &&& a.span == b.span
}

/// Two lists of struct fields are the same, element by element.
pub open spec fn same_fields(a: Seq<Field>, b: Seq<Field>) -> bool {
    a.len() == b.len() && forall|i: int| 0 <= i < a.len() ==> #[trigger] same_field(a[i], b[i])
}

/// Two enum variants are the same.
pub open spec fn same_variant(a: Variant, b: Variant) -> bool {
    &&& a.doc@ == b.doc@
    &&& a.name == b.name
    &&& a.shape == b.shape
    &&& same_type_fields(a.fields@, b.fields@)
    &&& a.span == b.span
}

/// Two lists of enum variants are the same, element by element.
pub open spec fn same_variants(a: Seq<Variant>, b: Seq<Variant>) -> bool {
    a.len() == b.len() && forall|i: int| 0 <= i < a.len() ==> #[trigger] same_variant(a[i], b[i])
}

/// Two proposition variants are the same.
pub open spec fn same_prop_variant(a: PropVariant, b: PropVariant) -> bool {
    &&& a.doc@ == b.doc@
    &&& a.name == b.name
    &&& a.shape == b.shape
    &&& same_type_fields(a.fields@, b.fields@)
    &&& match a.target {
        Some(target) => b.target is Some && same_expr(target, b.target->0),
        None => b.target is None,
    }
    &&& match a.body {
        Some(body) => b.body is Some && same_block(body, b.body->0),
        None => b.body is None,
    }
    &&& a.span == b.span
}

/// Two lists of proposition variants are the same, element by element.
pub open spec fn same_prop_variants(a: Seq<PropVariant>, b: Seq<PropVariant>) -> bool {
    a.len() == b.len() && forall|i: int| 0 <= i < a.len() ==> #[trigger] same_prop_variant(a[i], b[i])
}

/// Two declarations are the same, all the way down.
pub open spec fn same_declaration(a: Declaration, b: Declaration) -> bool
    decreases a,
{
    &&& a.doc@ == b.doc@
    &&& same_attributes(a.attributes@, b.attributes@)
    &&& same_optional_visibility(a.visibility, b.visibility)
    &&& a.span == b.span
    &&& match a.kind {
        DeclarationKind::Module { name, body } => b.kind is Module && b.kind->Module_name == name && match body {
            Some(program) => b.kind->Module_body is Some && same_program(program, b.kind->Module_body->0),
            None => b.kind->Module_body is None,
        },
        DeclarationKind::Use { imports } => b.kind is Use && same_imports(imports@, b.kind->Use_imports@),
        DeclarationKind::Function { logical, generics, name, self_param, parameters, result, body } => {
            &&& b.kind is Function
            &&& b.kind->Function_logical == logical
            &&& same_generic_parameters(generics@, b.kind->Function_generics@)
            &&& b.kind->Function_name == name
            &&& b.kind->Function_self_param == self_param
            &&& same_parameters(parameters@, b.kind->Function_parameters@)
            &&& same_type(result, b.kind->Function_result)
            &&& same_block(body, b.kind->Function_body)
        },
        DeclarationKind::Struct { generics, name, fields } => b.kind is Struct && same_generic_parameters(
            generics@,
            b.kind->Struct_generics@,
        ) && b.kind->Struct_name == name && same_fields(fields@, b.kind->Struct_fields@),
        DeclarationKind::Enum { generics, name, variants } => b.kind is Enum && same_generic_parameters(
            generics@,
            b.kind->Enum_generics@,
        ) && b.kind->Enum_name == name && same_variants(variants@, b.kind->Enum_variants@),
        DeclarationKind::Prop { generics, name, parameters, variants } => {
            &&& b.kind is Prop
            &&& same_generic_parameters(generics@, b.kind->Prop_generics@)
            &&& b.kind->Prop_name == name
            &&& same_parameters(parameters@, b.kind->Prop_parameters@)
            &&& same_prop_variants(variants@, b.kind->Prop_variants@)
        },
        DeclarationKind::Constant { name, ty, value } => b.kind is Constant && b.kind->Constant_name == name
            && same_type(ty, b.kind->Constant_ty) && same_expr(value, b.kind->Constant_value),
        DeclarationKind::Impl { model, target, methods } => {
            &&& b.kind is Impl
            &&& match model {
                Some(m) => b.kind->Impl_model is Some && same_type(m.source, b.kind->Impl_model->0.source)
                    && same_type(m.target, b.kind->Impl_model->0.target) && m.span == b.kind->Impl_model->0.span,
                None => b.kind->Impl_model is None,
            }
            &&& same_path(target, b.kind->Impl_target)
            &&& same_declarations(methods@, b.kind->Impl_methods@)
        },
    }
}

/// Two lists of declarations are the same, element by element.
pub open spec fn same_declarations(a: Seq<Declaration>, b: Seq<Declaration>) -> bool
    decreases a,
{
    a.len() == b.len() && forall|i: int| 0 <= i < a.len() ==> #[trigger] same_declaration(a[i], b[i])
}

/// Two programs are the same.
pub open spec fn same_program(a: Program, b: Program) -> bool
    decreases a,
{
    a.doc@ == b.doc@ && same_attributes(a.attributes@, b.attributes@) && same_declarations(
        a.declarations@,
        b.declarations@,
    )
}

} // verus!
