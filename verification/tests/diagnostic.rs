use locus::diagnostic::json::string;
use locus::diagnostic::{sorted, Applicability, ConsideredFact, Diagnostic, Level, Suggestion};
use locus::source::{SourceMap, Span};

fn sources() -> SourceMap {
    let mut sources = SourceMap::new();
    sources.add("t.lc".to_string(), "ab\ncd".to_string());
    sources.add("a.lc".to_string(), "0123456789".to_string());
    sources
}

#[test]
fn builders_add_in_order() {
    let span = Span::new(0, 1, 2);
    let diagnostic = Diagnostic::error("L0001", "bad".to_string(), span)
        .label(Span::new(0, 3, 4), "here".to_string())
        .note("first".to_string())
        .note("second".to_string())
        .help("try this".to_string())
        .claim("x <= 1".to_string());
    assert!(diagnostic.is_error());
    assert_eq!(diagnostic.level, Level::Error);
    assert_eq!(diagnostic.code, "L0001");
    assert_eq!(diagnostic.labels.len(), 2);
    assert!(diagnostic.labels[0].primary);
    assert_eq!(diagnostic.labels[0].span, span);
    assert_eq!(diagnostic.labels[0].message, "");
    assert!(!diagnostic.labels[1].primary);
    assert_eq!(diagnostic.notes, vec!["first".to_string(), "second".to_string()]);
    assert_eq!(diagnostic.details.helps, vec!["try this".to_string()]);
    assert_eq!(diagnostic.details.proof.claim, Some("x <= 1".to_string()));
    let warning = Diagnostic::warning("L0002", "odd".to_string(), span);
    assert!(!warning.is_error());
    assert_eq!(warning.level, Level::Warning);
}

#[test]
fn sorted_by_file_then_offset_keeping_ties() {
    let sources = sources();
    let no_primary = {
        let mut diagnostic = Diagnostic::error("L1", "none".to_string(), Span::new(0, 0, 0));
        diagnostic.labels[0].primary = false;
        diagnostic
    };
    let diagnostics = vec![
        Diagnostic::error("L2", "t".to_string(), Span::new(0, 3, 4)),
        Diagnostic::error("L3", "a late".to_string(), Span::new(1, 9, 10)),
        Diagnostic::error("L4", "a early".to_string(), Span::new(1, 2, 3)),
        no_primary,
        Diagnostic::warning("L5", "a late again".to_string(), Span::new(1, 9, 9)),
    ];
    let order: Vec<&str> = sorted(&sources, &diagnostics).iter().map(|d| d.code).collect();
    assert_eq!(order, vec!["L1", "L4", "L3", "L5", "L2"]);
}

#[test]
fn line_and_column_of_offsets() {
    let sources = sources();
    let file = sources.get(0);
    assert_eq!(file.line_column(0), Some((1, 1)));
    assert_eq!(file.line_column(3), Some((2, 1)));
    assert_eq!(file.line_column(5), Some((2, 3)));
    assert_eq!(file.line_column(6), None);
}

#[test]
fn json_strings_are_escaped() {
    assert_eq!(string("plain"), "\"plain\"");
    assert_eq!(string("a\"b\\c"), "\"a\\\"b\\\\c\"");
    assert_eq!(string("line\nnext\ttab\r"), "\"line\\nnext\\ttab\\r\"");
    assert_eq!(string("\u{1}\u{1f}"), "\"\\u0001\\u001f\"");
    assert_eq!(string("é"), "\"é\"");
}

#[test]
fn render_json_schema_one() {
    let sources = sources();
    let diagnostic = Diagnostic::error("L0001", "bad \"x\"".to_string(), Span::new(0, 4, 5))
        .note("n".to_string())
        .help("h".to_string());
    let expected = [
        "[{\"schema_version\":1,\"severity\":\"error\",\"code\":\"L0001\",\"message\":\"bad \\\"x\\\"\",",
        "\"spans\":[{\"file\":\"t.lc\",\"byte_start\":4,\"byte_end\":5,\"line_start\":2,\"column_start\":2,",
        "\"line_end\":2,\"column_end\":3,\"primary\":true,\"label\":\"\"}],\"notes\":[\"n\"],\"helps\":[\"h\"],",
        "\"suggestions\":[],\"claim\":null,\"claim_after_computing\":null,\"facts_considered\":null,",
        "\"counterexample\":null,\"suggested_explicit_form\":null}]",
    ]
    .join("");
    assert_eq!(diagnostic.render_json(&sources), expected);
}

#[test]
fn render_json_with_suggestion_and_facts() {
    let sources = sources();
    let mut diagnostic = Diagnostic::warning("L0002", "w".to_string(), Span::new(1, 0, 12)).suggest(Suggestion {
        message: "add".to_string(),
        span: Span::new(1, 1, 2),
        replacement: "x".to_string(),
        applicability: Applicability::MaybeIncorrect,
    });
    diagnostic.details.proof.facts_considered =
        Some(vec![ConsideredFact { name: None, claim: "a".to_string() }, ConsideredFact {
            name: Some("h".to_string()),
            claim: "b".to_string(),
        }]);
    let json = diagnostic.render_json(&sources);
    assert!(json.contains("\"severity\":\"warning\""));
    assert!(json.contains(
        "\"suggestions\":[{\"message\":\"add\",\"span\":{\"file\":\"a.lc\",\"byte_start\":1,\"byte_end\":2,\"line_start\":1,\"column_start\":2,\"line_end\":1,\"column_end\":3},\"replacement\":\"x\",\"applicability\":\"maybe_incorrect\"}]"
    ));
    assert!(json.contains("\"line_end\":null,\"column_end\":null"));
    assert!(json.contains(
        "\"facts_considered\":[{\"name\":null,\"claim\":\"a\"},{\"name\":\"h\",\"claim\":\"b\"}]"
    ));
}

fn two_file_diagnostic() -> Diagnostic {
    Diagnostic::warning("L0002", "unused".to_string(), Span::new(1, 2, 5))
        .label(Span::new(0, 0, 2), "first line".to_string())
        .label(Span::new(1, 7, 8), "later".to_string())
        .note("a note".to_string())
        .help("a help".to_string())
        .suggest(Suggestion {
            message: "replace it".to_string(),
            span: Span::new(1, 2, 5),
            replacement: "xyz".to_string(),
            applicability: Applicability::MaybeIncorrect,
        })
}

#[test]
fn presentation_shows_each_file_once_in_label_order() {
    let presentation = two_file_diagnostic().presentation(&sources());
    assert!(!presentation.error);
    assert_eq!(presentation.code, "L0002");
    assert_eq!(presentation.message, "unused");
    assert_eq!(presentation.excerpts.len(), 2);
    assert_eq!(presentation.excerpts[0].name, "a.lc");
    assert_eq!(presentation.excerpts[0].text, "0123456789");
    let marks = &presentation.excerpts[0].marks;
    assert_eq!(marks.len(), 2);
    assert!(marks[0].primary && marks[0].start == 2 && marks[0].end == 5 && marks[0].label.is_empty());
    assert!(!marks[1].primary && marks[1].start == 7 && marks[1].end == 8 && marks[1].label == "later");
    assert_eq!(presentation.excerpts[1].name, "t.lc");
    assert_eq!(presentation.excerpts[1].marks.len(), 1);
    assert_eq!(presentation.excerpts[1].marks[0].label, "first line");
    assert_eq!(
        presentation.remarks,
        vec![(false, "a note".to_string()), (true, "a help".to_string()), (true, "replace it".to_string())]
    );
}

#[test]
fn render_draws_the_title_the_files_and_the_messages() {
    let text = two_file_diagnostic().render(&sources(), false);
    assert!(text.contains("warning[L0002]: unused"), "{text}");
    assert!(text.contains("a.lc"), "{text}");
    assert!(text.contains("t.lc"), "{text}");
    assert!(text.contains("0123456789"), "{text}");
    assert!(text.contains("later"), "{text}");
    assert!(text.contains("note: a note"), "{text}");
    assert!(text.contains("help: a help"), "{text}");
    assert!(text.contains("help: replace it"), "{text}");
    assert!(text.find("a.lc").unwrap() < text.find("t.lc").unwrap(), "{text}");
}

#[test]
fn render_of_an_error_names_its_level() {
    let diagnostic = Diagnostic::error("L0001", "broken".to_string(), Span::new(0, 0, 2));
    let text = diagnostic.render(&sources(), false);
    assert!(text.starts_with("error[L0001]: broken"), "{text}");
    assert!(text.contains("ab"), "{text}");
}
