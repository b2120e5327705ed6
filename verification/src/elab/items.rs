//! What the elaborator reads off items: how a visibility is spelled, whether
//! it is public, the variant an enum of the file declares under a name, and
//! where a block closes.

use crate::ast::{joined, DeclarationKind, Name, Path, Program, Visibility, VisibilityScope};
use crate::source::Span;
use crate::text::same_text;
use vstd::prelude::*;

verus! {

/// A visibility as Rust spells it: `pub`, `pub(crate)`, `pub(super)`,
/// `pub(in path)`, and nothing for private, which `pub(self)` also is.
pub open spec fn visibility_text(visibility: Option<Visibility>) -> Seq<char> {
    match visibility {
        None => Seq::empty(),
        Some(visibility) => match visibility.scope {
            VisibilityScope::SelfModule => Seq::empty(),
            VisibilityScope::Public => "pub"@,
            VisibilityScope::Crate => "pub(crate)"@,
            VisibilityScope::Super => "pub(super)"@,
            VisibilityScope::In(path) => "pub(in "@ + joined(path.segments@) + ")"@,
        },
    }
}

/// A visibility as Rust spells it.
pub fn spelled(visibility: Option<&Visibility>) -> (result: String)
    ensures
        result@ == visibility_text(match visibility {
            Some(visibility) => Some(*visibility),
            None => None,
        }),
{
    match visibility {
        None => String::new(),
        Some(visibility) => match &visibility.scope {
            VisibilityScope::SelfModule => String::new(),
            VisibilityScope::Public => String::from_str("pub"),
            VisibilityScope::Crate => String::from_str("pub(crate)"),
            VisibilityScope::Super => String::from_str("pub(super)"),
            VisibilityScope::In(path) => {
                let mut text = String::from_str("pub(in ");
                text.append(path.text().as_str());
                text.append(")");
                text
            },
        },
    }
}

/// Whether a visibility is plain `pub`.
pub fn is_public(visibility: Option<&Visibility>) -> (result: bool)
    ensures
        result == (visibility matches Some(visibility) && visibility.scope is Public),
{
    match visibility {
        Some(visibility) => matches!(visibility.scope, VisibilityScope::Public),
        None => false,
    }
}

/// Whether the declaration at an index is an enum named by the path with
/// a variant of the name at another index.
pub open spec fn declares_variant(program: Program, owner: Path, name: Name, at: int, variant: int) -> bool {
    &&& 0 <= at < program.declarations@.len()
    &&& program.declarations@[at].kind matches DeclarationKind::Enum { name: enum_name, variants, .. } && {
        &&& enum_name.text@ == joined(owner.segments@)
        &&& 0 <= variant < variants@.len()
        &&& variants@[variant].name.text@ == name.text@
    }
}

/// The span of the name of the variant `name` of the enum `owner`, when the
/// file declares one: from the first enum of that name that has such a
/// variant, the first such variant.
pub fn variant_named(program: &Program, owner: &Path, name: &Name) -> (result: Option<Span>)
    ensures
        match result {
            Some(span) => exists|at: int, variant: int|
                #![trigger declares_variant(*program, *owner, *name, at, variant)]
                declares_variant(*program, *owner, *name, at, variant) && (forall|earlier: int, other: int|
                    #![trigger declares_variant(*program, *owner, *name, earlier, other)]
                    declares_variant(*program, *owner, *name, earlier, other) ==> at < earlier || (at == earlier
                        && variant <= other)) && span == (match program.declarations@[at].kind {
                    DeclarationKind::Enum { variants, .. } => variants@[variant].name.span,
                    _ => span,
                }),
            None => forall|at: int, variant: int| !declares_variant(*program, *owner, *name, at, variant),
        },
{
    let owner_text = owner.text();
    let mut at: usize = 0;
    while at < program.declarations.len()
        invariant
            at <= program.declarations@.len(),
            owner_text@ == joined(owner.segments@),
            forall|earlier: int, other: int| earlier < at ==> !declares_variant(*program, *owner, *name, earlier, other),
        decreases program.declarations.len() - at,
    {
        if let DeclarationKind::Enum { name: enum_name, variants, .. } = &program.declarations[at].kind {
            if same_text(enum_name.text.as_str(), owner_text.as_str()) {
                let mut index: usize = 0;
                while index < variants.len()
                    invariant
                        index <= variants@.len(),
                        program.declarations@[at as int].kind matches DeclarationKind::Enum {
                            name: found_name,
                            variants: found,
                            ..
                        } && found == *variants && found_name == *enum_name,
                        enum_name.text@ == joined(owner.segments@),
                        forall|other: int| other < index ==> !declares_variant(*program, *owner, *name, at as int, other),
                        forall|earlier: int, other: int|
                            earlier < at ==> !declares_variant(*program, *owner, *name, earlier, other),
                        at < program.declarations@.len(),
                    decreases variants.len() - index,
                {
                    if same_text(variants[index].name.text.as_str(), name.text.as_str()) {
                        assert(declares_variant(*program, *owner, *name, at as int, index as int));
                        assert forall|earlier: int, other: int|
                            #![trigger declares_variant(*program, *owner, *name, earlier, other)]
                            declares_variant(*program, *owner, *name, earlier, other) implies at < earlier || (at
                                == earlier && index <= other) by {
                            if earlier == at && other < index {
                                assert(!declares_variant(*program, *owner, *name, at as int, other));
                            }
                        }
                        return Some(variants[index].name.span);
                    }
                    index += 1;
                }
            }
        }
        at += 1;
    }
    None
}

/// The closing brace of a block, for a label at its end: its last byte.
pub fn block_end(span: Span) -> (result: Span)
    ensures
        result.file == span.file,
        result.end == span.end,
        result.start == (if span.end > 0 {
            span.end - 1
        } else {
            0
        }),
{
    Span::new(span.file, span.end.saturating_sub(1), span.end)
}

} // verus!
