use locus::bench::{bench_options, bench_record, quote, DEFAULT_SAMPLES};

fn words(texts: &[&str]) -> Vec<String> {
    texts.iter().map(|text| text.to_string()).collect()
}

#[test]
fn no_arguments_measure_the_target_corpus() {
    let options = bench_options(&words(&[])).unwrap();
    assert_eq!(options.paths, vec!["tests/corpus/target".to_string()]);
    assert_eq!(options.samples, DEFAULT_SAMPLES);
    assert!(options.record);
}

#[test]
fn options_and_paths_are_read_in_order() {
    let options = bench_options(&words(&["a.lc", "--samples", "+12", "--no-record", "dir"])).unwrap();
    assert_eq!(options.paths, vec!["a.lc".to_string(), "dir".to_string()]);
    assert_eq!(options.samples, 12);
    assert!(!options.record);
}

#[test]
fn samples_must_be_a_positive_integer() {
    for arguments in [&["--samples"][..], &["--samples", "0"], &["--samples", "x"], &["--samples", "-3"]] {
        assert_eq!(
            bench_options(&words(arguments)).err(),
            Some("--samples requires a positive integer".to_string())
        );
    }
}

#[test]
fn unknown_options_are_refused() {
    assert_eq!(
        bench_options(&words(&["a.lc", "--fast", "b.lc"])).err(),
        Some("unknown bench option --fast".to_string())
    );
}

#[test]
fn quoted_texts_are_json_strings() {
    assert_eq!(quote("a\"b\\c\n\u{1}"), "\"a\\\"b\\\\c\\n\\u0001\"");
}

#[test]
fn a_record_holds_the_configuration_the_build_and_the_samples() {
    let record = bench_record(
        true,
        &words(&["logical_data"]),
        &vec![("toolchain".to_string(), "1.91".to_string()), ("profile".to_string(), "release".to_string())],
        "/bin/locus",
        false,
        &words(&["a.lc", "b.lc"]),
        &words(&[]),
        &words(&["{\"pass\":\"search\"}"]),
    );
    assert_eq!(
        record,
        "{\"schema_version\":1,\"unit\":\"nanoseconds\",\"configuration\":{\"check_moves\":true,\"previews\":[\"logical_data\"]},\"compiler_build\":{\"toolchain\":\"1.91\",\"profile\":\"release\"},\"executable\":\"/bin/locus\",\"debug_assertions\":false,\"workloads\":[\"a.lc\",\"b.lc\"],\"libraries\":[],\"samples\":[{\"pass\":\"search\"}]}"
    );
}
