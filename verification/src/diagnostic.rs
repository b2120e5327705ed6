//! Diagnostics: what is reported, where, and with what notes, helps and
//! suggestions. Presenting them is left to a renderer.

pub mod json;
pub mod render;

use crate::source::{SourceMap, Span};
use crate::text::{lemma_text_order, precedes, same_text, text_less};
use vstd::prelude::*;

verus! {

#[derive(Clone, Debug, PartialEq, Eq)]
pub struct Label {
    pub span: Span,
    pub message: String,
    pub primary: bool,
}

#[derive(Clone, Copy, Debug, PartialEq, Eq, Structural)]
pub enum Applicability {
    MachineApplicable,
    MaybeIncorrect,
}

#[derive(Clone, Debug, PartialEq, Eq)]
pub struct Suggestion {
    pub message: String,
    pub span: Span,
    pub replacement: String,
    pub applicability: Applicability,
}

/// How serious a diagnostic is. An error rejects the file; a warning is
/// printed and the file is still accepted, as rustc's warnings are.
#[derive(Clone, Copy, Debug, PartialEq, Eq, Structural)]
pub enum Level {
    Error,
    Warning,
}

/// Evidence considered while explaining a failed proof obligation.
#[derive(Clone, Debug, PartialEq, Eq)]
pub struct ConsideredFact {
    pub name: Option<String>,
    pub claim: String,
}

/// Optional proof-specific data, kept independently of human-readable
/// notes.
#[derive(Clone, Debug, PartialEq, Eq)]
pub struct ProofDetails {
    pub claim: Option<String>,
    pub claim_after_computing: Option<String>,
    pub facts_considered: Option<Vec<ConsideredFact>>,
    pub counterexample: Option<String>,
    pub suggested_explicit_form: Option<String>,
}

impl Default for ProofDetails {
    fn default() -> (result: ProofDetails)
        ensures
            result.claim is None,
            result.claim_after_computing is None,
            result.facts_considered is None,
            result.counterexample is None,
            result.suggested_explicit_form is None,
    {
        ProofDetails {
            claim: None,
            claim_after_computing: None,
            facts_considered: None,
            counterexample: None,
            suggested_explicit_form: None,
        }
    }
}

/// Infrequently used structured context, kept behind one pointer so that
/// ordinary diagnostics stay small.
#[derive(Clone, Debug, PartialEq, Eq)]
pub struct DiagnosticDetails {
    pub suggestions: Vec<Suggestion>,
    pub helps: Vec<String>,
    pub proof: ProofDetails,
}

/// Whether the details are empty: no suggestion, no help, and no proof
/// data.
pub open spec fn empty_details(details: DiagnosticDetails) -> bool {
    &&& details.suggestions@.len() == 0
    &&& details.helps@.len() == 0
    &&& details.proof.claim is None
    &&& details.proof.claim_after_computing is None
    &&& details.proof.facts_considered is None
    &&& details.proof.counterexample is None
    &&& details.proof.suggested_explicit_form is None
}

impl Default for DiagnosticDetails {
    fn default() -> (result: DiagnosticDetails)
        ensures
            empty_details(result),
    {
        DiagnosticDetails { suggestions: Vec::new(), helps: Vec::new(), proof: ProofDetails::default() }
    }
}

#[derive(Clone, Debug, PartialEq, Eq)]
pub struct Diagnostic {
    pub level: Level,
    pub code: &'static str,
    pub message: String,
    pub labels: Vec<Label>,
    pub notes: Vec<String>,
    pub details: Box<DiagnosticDetails>,
}

/// What a new diagnostic is: its level, code and message, one primary label
/// with no message at the span, and nothing else.
pub open spec fn fresh(result: Diagnostic, level: Level, code: &'static str, message: String, span: Span) -> bool {
    &&& result.level == level
    &&& result.code == code
    &&& result.message == message
    &&& result.labels@.len() == 1
    &&& result.labels@[0].span == span
    &&& result.labels@[0].message@.len() == 0
    &&& result.labels@[0].primary
    &&& result.notes@.len() == 0
    &&& empty_details(*result.details)
}

/// Whether two diagnostics agree but for their labels, notes and details.
pub open spec fn same_head(left: Diagnostic, right: Diagnostic) -> bool {
    left.level == right.level && left.code == right.code && left.message == right.message
}

impl Diagnostic {
    pub fn error(code: &'static str, message: String, span: Span) -> (result: Diagnostic)
        ensures
            fresh(result, Level::Error, code, message, span),
    {
        Diagnostic::new(Level::Error, code, message, span)
    }

    pub fn warning(code: &'static str, message: String, span: Span) -> (result: Diagnostic)
        ensures
            fresh(result, Level::Warning, code, message, span),
    {
        Diagnostic::new(Level::Warning, code, message, span)
    }

    pub fn is_error(&self) -> (result: bool)
        ensures
            result == (self.level == Level::Error),
    {
        self.level == Level::Error
    }

    fn new(level: Level, code: &'static str, message: String, span: Span) -> (result: Diagnostic)
        ensures
            fresh(result, level, code, message, span),
    {
        let mut labels: Vec<Label> = Vec::new();
        labels.push(Label { span, message: String::new(), primary: true });
        Diagnostic {
            level,
            code,
            message,
            labels,
            notes: Vec::new(),
            details: Box::new(DiagnosticDetails::default()),
        }
    }

    /// One more label, secondary, at the end.
    pub fn label(self, span: Span, message: String) -> (result: Diagnostic)
        ensures
            same_head(result, self),
            result.labels@ == self.labels@.push(Label { span, message, primary: false }),
            result.notes@ == self.notes@,
            result.details == self.details,
    {
        let mut result = self;
        result.labels.push(Label { span, message, primary: false });
        result
    }

    /// One more note, at the end.
    pub fn note(self, message: String) -> (result: Diagnostic)
        ensures
            same_head(result, self),
            result.labels@ == self.labels@,
            result.notes@ == self.notes@.push(message),
            result.details == self.details,
    {
        let mut result = self;
        result.notes.push(message);
        result
    }

    /// The claim of the proof obligation that failed, replacing any.
    pub fn claim(self, claim: String) -> (result: Diagnostic)
        ensures
            same_head(result, self),
            result.labels@ == self.labels@,
            result.notes@ == self.notes@,
            result.details.suggestions == self.details.suggestions,
            result.details.helps == self.details.helps,
            result.details.proof == (ProofDetails { claim: Some(claim), ..self.details.proof }),
    {
        let mut result = self;
        result.details.proof.claim = Some(claim);
        result
    }

    /// One more help, at the end.
    pub fn help(self, message: String) -> (result: Diagnostic)
        ensures
            same_head(result, self),
            result.labels@ == self.labels@,
            result.notes@ == self.notes@,
            result.details.suggestions == self.details.suggestions,
            result.details.helps@ == self.details.helps@.push(message),
            result.details.proof == self.details.proof,
    {
        let mut result = self;
        result.details.helps.push(message);
        result
    }

    /// One more suggestion, at the end.
    pub fn suggest(self, suggestion: Suggestion) -> (result: Diagnostic)
        ensures
            same_head(result, self),
            result.labels@ == self.labels@,
            result.notes@ == self.notes@,
            result.details.suggestions@ == self.details.suggestions@.push(suggestion),
            result.details.helps == self.details.helps,
            result.details.proof == self.details.proof,
    {
        let mut result = self;
        result.details.suggestions.push(suggestion);
        result
    }
}


/// The index of the first primary label, if there is one.
pub open spec fn first_primary(labels: Seq<Label>) -> Option<int>
    decreases labels.len(),
{
    if labels.len() == 0 {
        None
    } else {
        match first_primary(labels.drop_last()) {
            Some(index) => Some(index),
            None => if labels.last().primary {
                Some(labels.len() - 1)
            } else {
                None
            },
        }
    }
}

/// Where a diagnostic sorts: the name of the file of its first primary
/// label and the offset the label starts at, or nothing without one.
pub open spec fn sort_key(diagnostic: Diagnostic, sources: SourceMap) -> Option<(Seq<char>, int)> {
    match first_primary(diagnostic.labels@) {
        Some(index) => {
            let span = diagnostic.labels@[index].span;
            Some((sources.files@[span.file as int].name@, span.start as int))
        },
        None => None,
    }
}

/// The keys of the diagnostics, one for one.
pub open spec fn sort_keys(diagnostics: Seq<Diagnostic>, sources: SourceMap) -> Seq<Option<(Seq<char>, int)>> {
    diagnostics.map_values(|d: Diagnostic| sort_key(d, sources))
}

/// Whether one key sorts no later than another: nothing first, then by file
/// name, then by offset.
pub open spec fn key_le(left: Option<(Seq<char>, int)>, right: Option<(Seq<char>, int)>) -> bool {
    match (left, right) {
        (None, _) => true,
        (Some(_), None) => false,
        (Some((left_name, left_start)), Some((right_name, right_start))) => text_less(left_name, right_name) || (
        left_name == right_name && left_start <= right_start),
    }
}

/// Keys sort in a total preorder.
pub proof fn lemma_key_order(a: Option<(Seq<char>, int)>, b: Option<(Seq<char>, int)>, c: Option<(Seq<char>, int)>)
    ensures
        key_le(a, b) || key_le(b, a),
        key_le(a, b) && key_le(b, c) ==> key_le(a, c),
        key_le(a, b) && key_le(b, a) ==> a == b,
{
    if let (Some((an, _)), Some((bn, _))) = (a, b) {
        lemma_text_order(an, bn, an);
        if let Some((cn, _)) = c {
            lemma_text_order(an, bn, cn);
            lemma_text_order(bn, cn, an);
        }
    }
}

/// Whether the first primary label of every diagnostic names a file of the
/// map.
pub open spec fn files_known(sources: SourceMap, diagnostics: Seq<Diagnostic>) -> bool {
    forall|i: int|
        0 <= i < diagnostics.len() ==> match #[trigger] first_primary(diagnostics[i].labels@) {
            Some(index) => diagnostics[i].labels@[index].span.file < sources.files@.len(),
            None => true,
        }
}

/// Whether `order` lists every index below `count` once, by key, and
/// indices of equal keys in increasing order.
pub open spec fn stable_order(order: Seq<int>, keys: Seq<Option<(Seq<char>, int)>>) -> bool {
    &&& order.len() == keys.len()
    &&& forall|i: int| 0 <= i < order.len() ==> 0 <= #[trigger] order[i] < keys.len()
    &&& forall|i: int, j: int| 0 <= i < j < order.len() ==> order[i] != order[j]
    &&& forall|i: int, j: int| 0 <= i < j < order.len() ==> key_le(keys[order[i]], keys[order[j]])
    &&& forall|i: int, j: int| 0 <= i < j < order.len() && keys[order[i]] == keys[order[j]] ==> order[i] < order[j]
}

/// The key of one diagnostic.
#[verifier::loop_isolation(false)]
fn key_of<'a>(sources: &'a SourceMap, diagnostic: &Diagnostic) -> (result: Option<(&'a str, usize)>)
    requires
        match first_primary(diagnostic.labels@) {
            Some(index) => diagnostic.labels@[index].span.file < sources.files@.len(),
            None => true,
        },
    ensures
        match result {
            Some((name, start)) => sort_key(*diagnostic, *sources) == Some((name@, start as int)),
            None => sort_key(*diagnostic, *sources) is None,
        },
{
    let mut index: usize = 0;
    while index < diagnostic.labels.len()
        invariant
            index <= diagnostic.labels@.len(),
            first_primary(diagnostic.labels@.subrange(0, index as int)) is None,
        decreases diagnostic.labels.len() - index,
    {
        let ghost before = diagnostic.labels@.subrange(0, index as int);
        assert(diagnostic.labels@.subrange(0, index + 1).drop_last() =~= before);
        if diagnostic.labels[index].primary {
            proof {
                lemma_first_primary_prefix(diagnostic.labels@, index as int + 1);
            }
            let span = diagnostic.labels[index].span;
            return Some((sources.get(span.file).name.as_str(), span.start));
        }
        index += 1;
    }
    assert(diagnostic.labels@.subrange(0, index as int) =~= diagnostic.labels@);
    None
}

/// The first primary label of a prefix that has one is the first of the
/// whole.
proof fn lemma_first_primary_prefix(labels: Seq<Label>, length: int)
    requires
        0 <= length <= labels.len(),
        first_primary(labels.subrange(0, length)) is Some,
    ensures
        first_primary(labels) == first_primary(labels.subrange(0, length)),
    decreases labels.len(),
{
    if length < labels.len() {
        assert(labels.drop_last().subrange(0, length) =~= labels.subrange(0, length));
        lemma_first_primary_prefix(labels.drop_last(), length);
    } else {
        assert(labels.subrange(0, length) =~= labels);
    }
}

/// Whether one key sorts no later than another.
fn key_precedes_or_equals(left: &Option<(&str, usize)>, right: &Option<(&str, usize)>) -> (result: bool)
    ensures
        result == key_le(key_view(*left), key_view(*right)),
{
    match (left, right) {
        (None, _) => true,
        (Some(_), None) => false,
        (Some((left_name, left_start)), Some((right_name, right_start))) => {
            if precedes(left_name, right_name) {
                true
            } else {
                same_text(left_name, right_name) && *left_start <= *right_start
            }
        },
    }
}

/// A key, viewed.
pub open spec fn key_view(key: Option<(&str, usize)>) -> Option<(Seq<char>, int)> {
    match key {
        Some((name, start)) => Some((name@, start as int)),
        None => None,
    }
}

/// The order in which the diagnostics sort: by the file name and the offset
/// of the first primary label, those without one first, ties in the order
/// given.
fn sorted_order(sources: &SourceMap, diagnostics: &[Diagnostic]) -> (result: Vec<usize>)
    requires
        files_known(*sources, diagnostics@),
    ensures
        stable_order(
            result@.map_values(|i: usize| i as int),
            sort_keys(diagnostics@, *sources),
        ),
{
    let ghost all_keys = sort_keys(diagnostics@, *sources);
    let mut keys: Vec<Option<(&str, usize)>> = Vec::new();
    let mut index: usize = 0;
    while index < diagnostics.len()
        invariant
            index <= diagnostics@.len(),
            keys@.len() == index,
            files_known(*sources, diagnostics@),
            forall|i: int| 0 <= i < index ==> key_view(#[trigger] keys@[i]) == sort_key(diagnostics@[i], *sources),
        decreases diagnostics.len() - index,
    {
        assert(match first_primary(diagnostics@[index as int].labels@) {
            Some(at) => diagnostics@[index as int].labels@[at].span.file < sources.files@.len(),
            None => true,
        });
        keys.push(key_of(sources, &diagnostics[index]));
        index += 1;
    }
    let mut order: Vec<usize> = Vec::new();
    let mut next: usize = 0;
    while next < keys.len()
        invariant
            next <= keys@.len(),
            keys@.len() == diagnostics@.len(),
            all_keys.len() == keys@.len(),
            forall|i: int| 0 <= i < keys@.len() ==> key_view(#[trigger] keys@[i]) == all_keys[i],
            order@.len() == next,
            stable_order(order@.map_values(|i: usize| i as int), all_keys.subrange(0, next as int)),
        decreases keys.len() - next,
    {
        let ghost before = order@.map_values(|i: usize| i as int);
        let ghost prefix = all_keys.subrange(0, next as int);
        let ghost extended = all_keys.subrange(0, next + 1);
        let ghost new_key = all_keys[next as int];
        let mut at = order.len();
        assert forall|i: int| 0 <= i < order@.len() implies order@[i] < next by {
            assert(before[i] == order@[i] as int);
        }
        while at > 0 && !key_precedes_or_equals(&keys[order[at - 1]], &keys[next])
            invariant
                at <= order@.len(),
                forall|i: int| 0 <= i < order@.len() ==> order@[i] < next,
                new_key == all_keys[next as int],
                order@.len() == next,
                next < keys@.len(),
                keys@.len() == all_keys.len(),
                forall|i: int| 0 <= i < keys@.len() ==> key_view(#[trigger] keys@[i]) == all_keys[i],
                before == order@.map_values(|i: usize| i as int),
                stable_order(before, prefix),
                forall|k: int| at <= k < order@.len() ==> !key_le(all_keys[before[k]], new_key),
            decreases at,
        {
            at -= 1;
            assert(before[at as int] == order@[at as int] as int);
            assert(key_view(keys@[order@[at as int] as int]) == all_keys[before[at as int]]);
            assert(key_view(keys@[next as int]) == new_key);
        }
        proof {
            assert forall|k: int| 0 <= k < at implies key_le(all_keys[before[k]], new_key) by {
                assert(key_le(all_keys[before[at - 1]], new_key));
                if k < at - 1 {
                    assert(key_le(prefix[before[k]], prefix[before[at - 1]]));
                    lemma_key_order(all_keys[before[k]], all_keys[before[at - 1]], new_key);
                }
            }
        }
        order.insert(at, next);
        proof {
            let after = order@.map_values(|i: usize| i as int);
            assert(after =~= before.subrange(0, at as int).push(next as int) + before.subrange(at as int, before.len() as int));
            assert forall|i: int| 0 <= i < after.len() implies 0 <= #[trigger] after[i] < extended.len() by {
                if i < at {
                    assert(after[i] == before[i]);
                } else if i > at {
                    assert(after[i] == before[i - 1]);
                }
            }
            assert forall|i: int, j: int| 0 <= i < j < after.len() implies after[i] != after[j] by {
                if i < at {
                    assert(after[i] == before[i]);
                } else if i > at {
                    assert(after[i] == before[i - 1]);
                }
                if j < at {
                    assert(after[j] == before[j]);
                } else if j > at {
                    assert(after[j] == before[j - 1]);
                }
            }
            assert forall|i: int, j: int| 0 <= i < j < after.len() implies key_le(extended[after[i]], extended[after[j]]) && (
            extended[after[i]] == extended[after[j]] ==> after[i] < after[j]) by {
                let ki = if i < at { before[i] } else if i == at { next as int } else { before[i - 1] };
                let kj = if j < at { before[j] } else if j == at { next as int } else { before[j - 1] };
                assert(after[i] == ki && after[j] == kj);
                assert(extended[ki] == all_keys[ki] && extended[kj] == all_keys[kj]);
                if i != at && j != at {
                    let bi = if i < at { i } else { i - 1 };
                    let bj = if j < at { j } else { j - 1 };
                    assert(bi < bj);
                    assert(prefix[before[bi]] == all_keys[before[bi]]);
                    assert(prefix[before[bj]] == all_keys[before[bj]]);
                } else if i == at {
                    lemma_key_order(new_key, all_keys[kj], new_key);
                    assert(!key_le(all_keys[kj], new_key));
                } else {
                    assert(key_le(all_keys[ki], new_key));
                    assert(ki < next);
                }
            }
        }
        next += 1;
    }
    assert(all_keys.subrange(0, next as int) =~= all_keys);
    order
}

/// The diagnostics sorted by the file name and the offset of their first
/// primary label, those without one first, retaining the order given for
/// ties.
pub fn sorted<'a>(sources: &SourceMap, diagnostics: &'a [Diagnostic]) -> (result: Vec<&'a Diagnostic>)
    requires
        files_known(*sources, diagnostics@),
    ensures
        exists|order: Seq<int>|
            {
                &&& #[trigger] stable_order(order, sort_keys(diagnostics@, *sources))
                &&& result@.len() == order.len()
                &&& forall|i: int| 0 <= i < order.len() ==> *result@[i] == diagnostics@[#[trigger] order[i]]
            },
{
    let order = sorted_order(sources, diagnostics);
    let ghost indices = order@.map_values(|i: usize| i as int);
    let mut result: Vec<&'a Diagnostic> = Vec::new();
    let mut index: usize = 0;
    while index < order.len()
        invariant
            index <= order@.len(),
            result@.len() == index,
            stable_order(indices, sort_keys(diagnostics@, *sources)),
            indices == order@.map_values(|i: usize| i as int),
            forall|i: int| 0 <= i < index ==> *result@[i] == diagnostics@[#[trigger] indices[i]],
        decreases order.len() - index,
    {
        assert(0 <= indices[index as int] < diagnostics@.len());
        result.push(&diagnostics[order[index]]);
        index += 1;
    }
    assert(stable_order(indices, sort_keys(diagnostics@, *sources)));
    result
}
} // verus!
