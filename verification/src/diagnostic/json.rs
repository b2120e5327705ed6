//! Schema 1. A diagnostic is a one-element JSON array on one line.

use crate::diagnostic::{Applicability, ConsideredFact, Diagnostic, Label, Level, Suggestion};
use crate::source::{position_after, SourceMap, Span};
use crate::text::{decimal, decimal_text, push_char};
use vstd::prelude::*;
use vstd::string::{StrSliceExecFns, StringExecFns};

verus! {

/// The version of the JSON schema.
pub const SCHEMA_VERSION: u32 = 1;

/// A lower-case hexadecimal digit.
pub open spec fn hex_digit(value: int) -> char {
    "0123456789abcdef"@[value]
}

/// A character as it stands in a JSON string: quotes, backslashes and the
/// control characters escaped.
pub open spec fn escaped(character: char) -> Seq<char> {
    if character == '"' {
        "\\\""@
    } else if character == '\\' {
        "\\\\"@
    } else if character == '\n' {
        "\\n"@
    } else if character == '\r' {
        "\\r"@
    } else if character == '\t' {
        "\\t"@
    } else if (character as int) <= 0x1f {
        "\\u00"@ + seq![hex_digit(character as int / 16), hex_digit(character as int % 16)]
    } else {
        seq![character]
    }
}

/// Every character escaped, in order.
pub open spec fn escaped_all(text: Seq<char>) -> Seq<char>
    decreases text.len(),
{
    if text.len() == 0 {
        Seq::empty()
    } else {
        escaped_all(text.drop_last()) + escaped(text.last())
    }
}

/// A JSON string.
pub open spec fn json_string(text: Seq<char>) -> Seq<char> {
    "\""@ + escaped_all(text) + "\""@
}

/// A JSON string, or `null`.
pub open spec fn json_optional(text: Option<Seq<char>>) -> Seq<char> {
    match text {
        Some(text) => json_string(text),
        None => "null"@,
    }
}

/// A number, or `null`.
pub open spec fn json_number(value: Option<nat>) -> Seq<char> {
    match value {
        Some(value) => decimal(value),
        None => "null"@,
    }
}

/// A boolean.
pub open spec fn json_bool(value: bool) -> Seq<char> {
    if value {
        "true"@
    } else {
        "false"@
    }
}

/// Items joined by commas.
pub open spec fn joined_items(items: Seq<Seq<char>>) -> Seq<char>
    decreases items.len(),
{
    if items.len() == 0 {
        Seq::empty()
    } else if items.len() == 1 {
        items[0]
    } else {
        joined_items(items.drop_last()) + ","@ + items.last()
    }
}

/// The texts of strings.
pub open spec fn item_texts(items: Seq<String>) -> Seq<Seq<char>> {
    items.map_values(|item: String| item@)
}

/// Strings as JSON strings.
pub open spec fn quoted_strings(values: Seq<String>) -> Seq<Seq<char>> {
    values.map_values(|value: String| json_string(value@))
}

/// A JSON array of items already in JSON.
pub open spec fn json_array(items: Seq<Seq<char>>) -> Seq<char> {
    "["@ + joined_items(items) + "]"@
}

/// The line and the column of an offset in a file, when it is in the file.
pub open spec fn position(sources: SourceMap, file: usize, offset: usize) -> Option<(nat, nat)> {
    let bytes = vstd::utf8::encode_utf8(sources.files@[file as int].text@);
    if offset <= bytes.len() {
        Some(position_after(bytes.subrange(0, offset as int)))
    } else {
        None
    }
}

/// The line of a position, if there is one.
pub open spec fn line_of(position: Option<(nat, nat)>) -> Option<nat> {
    match position {
        Some((line, _)) => Some(line),
        None => None,
    }
}

/// The column of a position, if there is one.
pub open spec fn column_of(position: Option<(nat, nat)>) -> Option<nat> {
    match position {
        Some((_, column)) => Some(column),
        None => None,
    }
}

/// The members that place a span: its file, bytes, lines and columns.
pub open spec fn location(sources: SourceMap, span: Span) -> Seq<char> {
    let start = position(sources, span.file, span.start);
    let end = position(sources, span.file, span.end);
    "\"file\":"@ + json_string(sources.files@[span.file as int].name@) + ",\"byte_start\":"@ + decimal(
        span.start as nat,
    ) + ",\"byte_end\":"@ + decimal(span.end as nat) + ",\"line_start\":"@ + json_number(line_of(start))
        + ",\"column_start\":"@ + json_number(column_of(start)) + ",\"line_end\":"@ + json_number(
        line_of(end),
    ) + ",\"column_end\":"@ + json_number(column_of(end))
}

/// Whether a span names a file of the map and its offsets can be counted.
pub open spec fn placeable(sources: SourceMap, span: Span) -> bool {
    span.file < sources.files@.len() && span.start < usize::MAX && span.end < usize::MAX
}

/// A label in JSON.
pub open spec fn label_json(sources: SourceMap, label: Label) -> Seq<char> {
    "{"@ + location(sources, label.span) + ",\"primary\":"@ + json_bool(label.primary) + ",\"label\":"@
        + json_string(label.message@) + "}"@
}

/// The member of a label's JSON that says whether the label is primary.
pub open spec fn primary_member(primary: bool) -> Seq<char> {
    "\"primary\":"@ + json_bool(primary)
}

/// Whether a text holds the member `"primary":` with the given flag.
pub open spec fn reports_primary(text: Seq<char>, primary: bool) -> bool {
    exists|at: int|
        0 <= at && at + primary_member(primary).len() <= text.len() && #[trigger] text.subrange(
            at,
            at + primary_member(primary).len(),
        ) == primary_member(primary)
}

/// The JSON of a label carries the member `"primary":` with the label's own
/// flag: `true` for a primary label, `false` for a secondary one.
pub proof fn lemma_label_reports_primary(sources: SourceMap, label: Label)
    ensures
        reports_primary(label_json(sources, label), label.primary),
{
    reveal_strlit(",\"primary\":");
    reveal_strlit("\"primary\":");
    reveal_strlit(",");
    let before = "{"@ + location(sources, label.span) + ","@;
    let member = primary_member(label.primary);
    let after = ",\"label\":"@ + json_string(label.message@) + "}"@;
    assert(",\"primary\":"@ =~= ","@ + "\"primary\":"@);
    assert(label_json(sources, label) =~= before + member + after);
    let at = before.len() as int;
    assert(label_json(sources, label).subrange(at, at + member.len()) =~= member);
}

/// Two labels on the same span with the same message have the same JSON
/// exactly when they agree on being primary.
pub proof fn lemma_label_primary_distinguished(sources: SourceMap, first: Label, second: Label)
    requires
        first.span == second.span,
        first.message@ == second.message@,
    ensures
        (label_json(sources, first) == label_json(sources, second)) == (first.primary == second.primary),
{
    reveal_strlit("true");
    reveal_strlit("false");
    let before = "{"@ + location(sources, first.span) + ",\"primary\":"@;
    let at = before.len() as int;
    let after = ",\"label\":"@ + json_string(first.message@) + "}"@;
    assert(label_json(sources, first) =~= before + json_bool(first.primary) + after);
    assert(label_json(sources, second) =~= before + json_bool(second.primary) + after);
    if first.primary != second.primary {
        assert(label_json(sources, first)[at] == json_bool(first.primary)[0]);
        assert(label_json(sources, second)[at] == json_bool(second.primary)[0]);
    }
}

/// In the JSON of a diagnostic, the element of `"spans"` for each label
/// carries `"primary":` with that label's flag.
pub proof fn lemma_spans_report_primary(diagnostic: Diagnostic, sources: SourceMap)
    ensures
        forall|i: int|
            0 <= i < diagnostic.labels@.len() ==> diagnostic.labels@.map_values(
                |label: Label| label_json(sources, label),
            )[i] == label_json(sources, #[trigger] diagnostic.labels@[i]) && reports_primary(
                label_json(sources, diagnostic.labels@[i]),
                diagnostic.labels@[i].primary,
            ),
{
    assert forall|i: int| 0 <= i < diagnostic.labels@.len() implies diagnostic.labels@.map_values(
        |label: Label| label_json(sources, label),
    )[i] == label_json(sources, #[trigger] diagnostic.labels@[i]) && reports_primary(
        label_json(sources, diagnostic.labels@[i]),
        diagnostic.labels@[i].primary,
    ) by {
        lemma_label_reports_primary(sources, diagnostic.labels@[i]);
    }
}

/// The name of an applicability.
pub open spec fn applicability_name(applicability: Applicability) -> &'static str {
    match applicability {
        Applicability::MachineApplicable => "machine_applicable",
        Applicability::MaybeIncorrect => "maybe_incorrect",
    }
}

/// A suggestion in JSON.
pub open spec fn suggestion_json(sources: SourceMap, suggestion: Suggestion) -> Seq<char> {
    "{\"message\":"@ + json_string(suggestion.message@) + ",\"span\":{"@ + location(sources, suggestion.span)
        + "},\"replacement\":"@ + json_string(suggestion.replacement@) + ",\"applicability\":"@ + json_string(
        applicability_name(suggestion.applicability)@,
    ) + "}"@
}

/// A considered fact in JSON.
pub open spec fn fact_json(fact: ConsideredFact) -> Seq<char> {
    "{\"name\":"@ + json_optional(text_of(fact.name)) + ",\"claim\":"@ + json_string(fact.claim@) + "}"@
}

/// The text of an optional string.
pub open spec fn text_of(value: Option<String>) -> Option<Seq<char>> {
    match value {
        Some(text) => Some(text@),
        None => None,
    }
}

/// The considered facts in JSON, or `null`.
pub open spec fn facts_json(facts: Option<Vec<ConsideredFact>>) -> Seq<char> {
    match facts {
        Some(facts) => json_array(facts@.map_values(|fact: ConsideredFact| fact_json(fact))),
        None => "null"@,
    }
}

/// The name of a level.
pub open spec fn severity_name(level: Level) -> &'static str {
    match level {
        Level::Error => "error",
        Level::Warning => "warning",
    }
}

/// A diagnostic in JSON, schema 1: a one-element array holding an object
/// whose members are always present, `null` where there is nothing.
pub open spec fn diagnostic_json(diagnostic: Diagnostic, sources: SourceMap) -> Seq<char> {
    let proof = diagnostic.details.proof;
    "[{\"schema_version\":"@ + decimal(SCHEMA_VERSION as nat) + ",\"severity\":"@ + json_string(
        severity_name(diagnostic.level)@,
    ) + ",\"code\":"@ + json_string(diagnostic.code@) + ",\"message\":"@ + json_string(diagnostic.message@)
        + ",\"spans\":"@ + json_array(diagnostic.labels@.map_values(|label: Label| label_json(sources, label)))
        + ",\"notes\":"@ + json_array(diagnostic.notes@.map_values(|note: String| json_string(note@)))
        + ",\"helps\":"@ + json_array(diagnostic.details.helps@.map_values(|help: String| json_string(help@)))
        + ",\"suggestions\":"@ + json_array(
        diagnostic.details.suggestions@.map_values(|suggestion: Suggestion| suggestion_json(sources, suggestion)),
    ) + ",\"claim\":"@ + json_optional(text_of(proof.claim)) + ",\"claim_after_computing\":"@ + json_optional(
        text_of(proof.claim_after_computing),
    ) + ",\"facts_considered\":"@ + facts_json(proof.facts_considered) + ",\"counterexample\":"@
        + json_optional(text_of(proof.counterexample)) + ",\"suggested_explicit_form\":"@ + json_optional(
        text_of(proof.suggested_explicit_form),
    ) + "}]"@
}

/// Appends the escaped form of a character.
fn escape_into(out: &mut String, character: char)
    ensures
        final(out)@ == old(out)@ + escaped(character),
{
    if character == '"' {
        out.append("\\\"");
    } else if character == '\\' {
        out.append("\\\\");
    } else if character == '\n' {
        out.append("\\n");
    } else if character == '\r' {
        out.append("\\r");
    } else if character == '\t' {
        out.append("\\t");
    } else if (character as u32) <= 0x1f {
        let code = character as u32;
        let digits = "0123456789abcdef";
        proof {
            reveal_strlit("0123456789abcdef");
        }
        out.append("\\u00");
        push_char(out, digits.get_char((code / 16) as usize));
        push_char(out, digits.get_char((code % 16) as usize));
        assert(out@ =~= old(out)@ + escaped(character));
    } else {
        push_char(out, character);
        assert(out@ =~= old(out)@ + escaped(character));
    }
}

/// A text as a JSON string.
pub fn string(value: &str) -> (result: String)
    ensures
        result@ == json_string(value@),
{
    let mut out = String::new();
    out.append("\"");
    let length = value.unicode_len();
    let mut index: usize = 0;
    while index < length
        invariant
            index <= length,
            length == value@.len(),
            out@ == "\""@ + escaped_all(value@.subrange(0, index as int)),
        decreases length - index,
    {
        let character = value.get_char(index);
        escape_into(&mut out, character);
        proof {
            let next = value@.subrange(0, index + 1);
            assert(next.drop_last() =~= value@.subrange(0, index as int));
            assert(next.last() == character);
            assert(out@ =~= "\""@ + escaped_all(next));
        }
        index += 1;
    }
    assert(value@.subrange(0, length as int) =~= value@);
    out.append("\"");
    result_is(out)
}

/// The value, named as a result.
fn result_is(value: String) -> (result: String)
    ensures
        result == value,
{
    value
}

/// An optional text as a JSON string or `null`.
fn optional(value: &Option<String>) -> (result: String)
    ensures
        result@ == json_optional(text_of(*value)),
{
    match value {
        Some(text) => string(text.as_str()),
        None => String::from_str("null"),
    }
}

/// An optional number in JSON.
fn number(value: Option<usize>) -> (result: String)
    ensures
        result@ == json_number(
            match value {
                Some(v) => Some(v as nat),
                None => None,
            },
        ),
{
    match value {
        Some(value) => decimal_text(value as u64),
        None => String::from_str("null"),
    }
}

/// Items joined by commas, in brackets.
pub(crate) fn array(items: &Vec<String>) -> (result: String)
    ensures
        result@ == json_array(item_texts(items@)),
{
    let ghost views = item_texts(items@);
    let mut out = String::new();
    out.append("[");
    let mut index: usize = 0;
    while index < items.len()
        invariant
            index <= items@.len(),
            views == item_texts(items@),
            out@ == "["@ + joined_items(views.subrange(0, index as int)),
        decreases items.len() - index,
    {
        let ghost before = out@;
        if index > 0 {
            out.append(",");
        }
        out.append(items[index].as_str());
        proof {
            let next = views.subrange(0, index + 1);
            assert(next.drop_last() =~= views.subrange(0, index as int));
            if index == 0 {
                assert(joined_items(views.subrange(0, 0)) =~= Seq::<char>::empty());
                assert(out@ =~= "["@ + joined_items(next));
            } else {
                assert(out@ =~= "["@ + joined_items(next));
            }
        }
        index += 1;
    }
    assert(views.subrange(0, items@.len() as int) =~= views);
    out.append("]");
    result_is(out)
}

/// The members that place a span.
fn location_text(sources: &SourceMap, span: Span) -> (result: String)
    requires
        placeable(*sources, span),
    ensures
        result@ == location(*sources, span),
{
    let source = sources.get(span.file);
    let start = source.line_column(span.start);
    let end = source.line_column(span.end);
    let mut out = String::from_str("\"file\":");
    out.append(string(source.name.as_str()).as_str());
    out.append(",\"byte_start\":");
    out.append(decimal_text(span.start as u64).as_str());
    out.append(",\"byte_end\":");
    out.append(decimal_text(span.end as u64).as_str());
    out.append(",\"line_start\":");
    out.append(number(line(start)).as_str());
    out.append(",\"column_start\":");
    out.append(number(column(start)).as_str());
    out.append(",\"line_end\":");
    out.append(number(line(end)).as_str());
    out.append(",\"column_end\":");
    out.append(number(column(end)).as_str());
    result_is(out)
}

/// The line of an optional position.
fn line(position: Option<(usize, usize)>) -> (result: Option<usize>)
    ensures
        result == match position {
            Some((line, _)) => Some(line),
            None => None::<usize>,
        },
{
    match position {
        Some((line, _)) => Some(line),
        None => None,
    }
}

/// The column of an optional position.
fn column(position: Option<(usize, usize)>) -> (result: Option<usize>)
    ensures
        result == match position {
            Some((_, column)) => Some(column),
            None => None::<usize>,
        },
{
    match position {
        Some((_, column)) => Some(column),
        None => None,
    }
}


/// A label in JSON.
fn label_text(sources: &SourceMap, label: &Label) -> (result: String)
    requires
        placeable(*sources, label.span),
    ensures
        result@ == label_json(*sources, *label),
{
    let mut out = String::from_str("{");
    out.append(location_text(sources, label.span).as_str());
    out.append(",\"primary\":");
    if label.primary {
        out.append("true");
    } else {
        out.append("false");
    }
    out.append(",\"label\":");
    out.append(string(label.message.as_str()).as_str());
    out.append("}");
    result_is(out)
}

/// A suggestion in JSON.
fn suggestion_text(sources: &SourceMap, suggestion: &Suggestion) -> (result: String)
    requires
        placeable(*sources, suggestion.span),
    ensures
        result@ == suggestion_json(*sources, *suggestion),
{
    let mut out = String::from_str("{\"message\":");
    out.append(string(suggestion.message.as_str()).as_str());
    out.append(",\"span\":{");
    out.append(location_text(sources, suggestion.span).as_str());
    out.append("},\"replacement\":");
    out.append(string(suggestion.replacement.as_str()).as_str());
    out.append(",\"applicability\":");
    let name = match suggestion.applicability {
        Applicability::MachineApplicable => "machine_applicable",
        Applicability::MaybeIncorrect => "maybe_incorrect",
    };
    out.append(string(name).as_str());
    out.append("}");
    result_is(out)
}

/// A considered fact in JSON.
fn fact_text(fact: &ConsideredFact) -> (result: String)
    ensures
        result@ == fact_json(*fact),
{
    let mut out = String::from_str("{\"name\":");
    out.append(optional(&fact.name).as_str());
    out.append(",\"claim\":");
    out.append(string(fact.claim.as_str()).as_str());
    out.append("}");
    result_is(out)
}

/// Texts as an array of JSON strings.
pub(crate) fn strings_array(values: &Vec<String>) -> (result: String)
    ensures
        result@ == json_array(quoted_strings(values@)),
{
    let mut items: Vec<String> = Vec::new();
    let mut index: usize = 0;
    while index < values.len()
        invariant
            index <= values@.len(),
            items@.len() == index,
            forall|j: int| 0 <= j < index ==> #[trigger] items@[j]@ == json_string(values@[j]@),
        decreases values.len() - index,
    {
        items.push(string(values[index].as_str()));
        index += 1;
    }
    assert(item_texts(items@) =~= quoted_strings(values@));
    array(&items)
}

/// The labels as a JSON array.
fn labels_array(sources: &SourceMap, labels: &Vec<Label>) -> (result: String)
    requires
        forall|i: int| 0 <= i < labels@.len() ==> placeable(*sources, #[trigger] labels@[i].span),
    ensures
        result@ == json_array(labels@.map_values(|label: Label| label_json(*sources, label))),
{
    let mut items: Vec<String> = Vec::new();
    let mut index: usize = 0;
    while index < labels.len()
        invariant
            index <= labels@.len(),
            items@.len() == index,
            forall|i: int| 0 <= i < labels@.len() ==> placeable(*sources, #[trigger] labels@[i].span),
            forall|j: int| 0 <= j < index ==> #[trigger] items@[j]@ == label_json(*sources, labels@[j]),
        decreases labels.len() - index,
    {
        assert(placeable(*sources, labels@[index as int].span));
        items.push(label_text(sources, &labels[index]));
        index += 1;
    }
    assert(items@.map_values(|item: String| item@) =~= labels@.map_values(|label: Label| label_json(*sources, label)));
    array(&items)
}

/// The suggestions as a JSON array.
fn suggestions_array(sources: &SourceMap, suggestions: &Vec<Suggestion>) -> (result: String)
    requires
        forall|i: int| 0 <= i < suggestions@.len() ==> placeable(*sources, #[trigger] suggestions@[i].span),
    ensures
        result@ == json_array(suggestions@.map_values(|suggestion: Suggestion| suggestion_json(*sources, suggestion))),
{
    let mut items: Vec<String> = Vec::new();
    let mut index: usize = 0;
    while index < suggestions.len()
        invariant
            index <= suggestions@.len(),
            items@.len() == index,
            forall|i: int| 0 <= i < suggestions@.len() ==> placeable(*sources, #[trigger] suggestions@[i].span),
            forall|j: int| 0 <= j < index ==> #[trigger] items@[j]@ == suggestion_json(*sources, suggestions@[j]),
        decreases suggestions.len() - index,
    {
        assert(placeable(*sources, suggestions@[index as int].span));
        items.push(suggestion_text(sources, &suggestions[index]));
        index += 1;
    }
    assert(items@.map_values(|item: String| item@) =~= suggestions@.map_values(
        |suggestion: Suggestion| suggestion_json(*sources, suggestion),
    ));
    array(&items)
}

/// The considered facts as a JSON array, or `null`.
fn facts_text(facts: &Option<Vec<ConsideredFact>>) -> (result: String)
    ensures
        result@ == facts_json(*facts),
{
    match facts {
        Some(facts) => {
            let mut items: Vec<String> = Vec::new();
            let mut index: usize = 0;
            while index < facts.len()
                invariant
                    index <= facts@.len(),
                    items@.len() == index,
                    forall|j: int| 0 <= j < index ==> #[trigger] items@[j]@ == fact_json(facts@[j]),
                decreases facts.len() - index,
            {
                items.push(fact_text(&facts[index]));
                index += 1;
            }
            assert(items@.map_values(|item: String| item@) =~= facts@.map_values(|fact: ConsideredFact| fact_json(fact)));
            array(&items)
        },
        None => String::from_str("null"),
    }
}

/// Whether every label and suggestion of a diagnostic can be placed.
pub open spec fn all_placeable(diagnostic: Diagnostic, sources: SourceMap) -> bool {
    &&& forall|i: int| 0 <= i < diagnostic.labels@.len() ==> placeable(sources, #[trigger] diagnostic.labels@[i].span)
    &&& forall|i: int|
        0 <= i < diagnostic.details.suggestions@.len() ==> placeable(
            sources,
            #[trigger] diagnostic.details.suggestions@[i].span,
        )
}

impl Diagnostic {
    /// The diagnostic as schema-versioned JSON, without a trailing newline.
    /// All the optional proof fields are present; unavailable information is
    /// `null`, not omitted.
    pub fn render_json(&self, sources: &SourceMap) -> (result: String)
        requires
            all_placeable(*self, *sources),
        ensures
            result@ == diagnostic_json(*self, *sources),
    {
        let spans = labels_array(sources, &self.labels);
        let suggestions = suggestions_array(sources, &self.details.suggestions);
        let proof = &self.details.proof;
        let facts = facts_text(&proof.facts_considered);
        let severity = match self.level {
            Level::Error => "error",
            Level::Warning => "warning",
        };
        let mut out = String::from_str("[{\"schema_version\":");
        out.append(decimal_text(SCHEMA_VERSION as u64).as_str());
        out.append(",\"severity\":");
        out.append(string(severity).as_str());
        out.append(",\"code\":");
        out.append(string(self.code).as_str());
        out.append(",\"message\":");
        out.append(string(self.message.as_str()).as_str());
        out.append(",\"spans\":");
        out.append(spans.as_str());
        out.append(",\"notes\":");
        out.append(strings_array(&self.notes).as_str());
        out.append(",\"helps\":");
        out.append(strings_array(&self.details.helps).as_str());
        out.append(",\"suggestions\":");
        out.append(suggestions.as_str());
        out.append(",\"claim\":");
        out.append(optional(&proof.claim).as_str());
        out.append(",\"claim_after_computing\":");
        out.append(optional(&proof.claim_after_computing).as_str());
        out.append(",\"facts_considered\":");
        out.append(facts.as_str());
        out.append(",\"counterexample\":");
        out.append(optional(&proof.counterexample).as_str());
        out.append(",\"suggested_explicit_form\":");
        out.append(optional(&proof.suggested_explicit_form).as_str());
        out.append("}]");
        result_is(out)
    }
}

} // verus!
