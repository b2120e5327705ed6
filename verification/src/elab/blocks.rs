//! What the elaborator reads off the patterns of a block's statements.

use crate::ast::{Pattern, PatternKind};
use vstd::prelude::*;

verus! {

/// Whether a pattern binds evidence: it is `Arm(..) @ evidence`, possibly
/// in parentheses or under a binding's `@`.
pub open spec fn binds_evidence(pattern: Pattern) -> bool
    decreases pattern,
{
    match pattern.kind {
        PatternKind::Evidence { .. } => true,
        PatternKind::Group(inner) => binds_evidence(*inner),
        PatternKind::Binding { pattern: inner, .. } => binds_evidence(*inner),
        _ => false,
    }
}

/// Whether a pattern binds evidence.
pub fn has_evidence_pattern(pattern: &Pattern) -> (result: bool)
    ensures
        result == binds_evidence(*pattern),
    decreases pattern,
{
    match &pattern.kind {
        PatternKind::Evidence { .. } => true,
        PatternKind::Group(inner) => has_evidence_pattern(inner),
        PatternKind::Binding { pattern: inner, .. } => has_evidence_pattern(inner),
        _ => false,
    }
}

} // verus!
