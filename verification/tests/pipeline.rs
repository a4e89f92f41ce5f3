use lintoko::aggregate::ordered_diagnostics;
use lintoko::diag::{Config, Error, OutputFormat, Rule};
use lintoko::lint::lint_file;

fn json_lang() -> tree_sitter::Language {
    tree_sitter_json::LANGUAGE.into()
}

fn rule(name: &str, description: &str, query: &str) -> Rule {
    Rule {
        name: name.as_bytes().to_vec(),
        description: description.as_bytes().to_vec(),
        query: query.as_bytes().to_vec(),
    }
}

#[test]
fn no_rules() {
    let mut out: Vec<u8> = vec![];
    let err_count = lint_file(
        &Config::default(),
        &json_lang(),
        &b"<input_path>".to_vec(),
        &b"{\"a\": 1}".to_vec(),
        &vec![],
        &mut out,
    )
    .unwrap();
    assert_eq!(err_count, 0);
    assert_eq!(std::str::from_utf8(&out).unwrap(), "");
}

#[test]
fn end_to_end_two_rules_ordered() {
    // `12345` spans bytes 10..15, `4444` spans bytes 40..44
    let line = "{\"key11\": 12345, \"padpadpadpadpadpadp\": 4444}";
    let src = line.as_bytes().to_vec();
    // catalog order is the reverse of the offset order, so the sort must swap
    let rules = vec![
        rule("case-types", "camel case type", "((number) @error (#eq? @error \"4444\"))"),
        rule("no-flexible", "flexible binding", "((number) @error (#eq? @error \"12345\"))"),
    ];
    let ds = ordered_diagnostics(&json_lang(), &rules, &src).unwrap();
    assert_eq!(ds.len(), 2);
    assert_eq!(ds[0].range.start_byte, 10);
    assert_eq!(ds[0].range.end_byte, 15);
    assert_eq!(ds[0].rule, b"no-flexible".to_vec());
    assert_eq!(ds[0].description, b"flexible binding".to_vec());
    assert_eq!(ds[1].range.start_byte, 40);
    assert_eq!(ds[1].range.end_byte, 44);
    assert_eq!(ds[1].rule, b"case-types".to_vec());
    assert_eq!(ds[1].description, b"camel case type".to_vec());

    let mut out: Vec<u8> = vec![];
    let n = lint_file(
        &Config { format: OutputFormat::Text },
        &json_lang(),
        &b"demo.json".to_vec(),
        &src,
        &rules,
        &mut out,
    )
    .unwrap();
    assert_eq!(n, 2);
    let text = String::from_utf8(out).unwrap();
    let expected = format!(
        "demo.json:1:10 Error: flexible binding\n1 {line}\n\ndemo.json:1:40 Error: camel case type\n1 {line}\n\n"
    );
    assert_eq!(text, expected);
}

#[test]
fn idempotent_runs_are_byte_identical() {
    let src = b"{\"key11\": 12345, \"padpadpadpadpadpadp\": 4444}".to_vec();
    let rules = vec![
        rule("case-types", "camel case type", "((number) @error (#eq? @error \"4444\"))"),
        rule("no-flexible", "flexible binding", "((number) @error (#eq? @error \"12345\"))"),
    ];
    let run = || {
        let mut out: Vec<u8> = vec![];
        let n = lint_file(
            &Config { format: OutputFormat::Text },
            &json_lang(),
            &b"p".to_vec(),
            &src,
            &rules,
            &mut out,
        )
        .unwrap();
        (n, out)
    };
    assert_eq!(run(), run());
}

#[test]
fn missing_error_capture_fails_whole_run() {
    let rules = vec![
        rule("bad", "never reported", "(number) @x"),
        rule("good", "a number", "(number) @error"),
    ];
    let mut out: Vec<u8> = vec![];
    let r = lint_file(
        &Config::default(),
        &json_lang(),
        &b"p".to_vec(),
        &b"[5]".to_vec(),
        &rules,
        &mut out,
    );
    match r {
        Err(Error::MissingErrorCapture { rule }) => assert_eq!(rule, b"bad".to_vec()),
        _ => panic!("expected the missing-capture error"),
    }
    assert!(out.is_empty());
}

#[test]
fn pattern_compile_error_is_reported() {
    let rules = vec![rule("broken", "d", "(((")];
    let r = ordered_diagnostics(&json_lang(), &rules, &b"[5]".to_vec());
    match r {
        Err(Error::PatternCompile { rule }) => assert_eq!(rule, b"broken".to_vec()),
        _ => panic!("expected the pattern-compile error"),
    }
}

#[test]
fn same_range_within_one_rule_is_deduplicated() {
    // two patterns of one rule capture the same number node
    let rules = vec![rule("dup", "d", "(number) @error (number) @error")];
    let ds = ordered_diagnostics(&json_lang(), &rules, &b"[5]".to_vec()).unwrap();
    assert_eq!(ds.len(), 1);
    assert_eq!(ds[0].range.start_byte, 1);
    assert_eq!(ds[0].range.end_byte, 2);
}

#[test]
fn same_range_from_two_rules_is_kept_in_catalog_order() {
    let rules = vec![
        rule("first", "one", "(number) @error"),
        rule("second", "two", "(number) @error"),
    ];
    let ds = ordered_diagnostics(&json_lang(), &rules, &b"[5]".to_vec()).unwrap();
    assert_eq!(ds.len(), 2);
    assert_eq!(ds[0].rule, b"first".to_vec());
    assert_eq!(ds[1].rule, b"second".to_vec());
    assert_eq!(ds[0].range, ds[1].range);
}

#[test]
fn filter_capture_suppresses_equal_error_range() {
    // the second pattern captures every number as a filter, so every error
    // range of the rule is suppressed
    let rules = vec![rule("quiet", "d", "(number) @error (number) @filter")];
    let mut out: Vec<u8> = vec![];
    let n = lint_file(
        &Config::default(),
        &json_lang(),
        &b"p".to_vec(),
        &b"[5, 6]".to_vec(),
        &rules,
        &mut out,
    )
    .unwrap();
    assert_eq!(n, 0);
    assert!(out.is_empty());
}

#[test]
fn trailing_guard_reports_only_the_last_element() {
    let rules = vec![rule("last", "d", "(array (number) @error @trailing)")];
    let ds = ordered_diagnostics(&json_lang(), &rules, &b"[1, 2, 3]".to_vec()).unwrap();
    assert_eq!(ds.len(), 1);
    assert_eq!(ds[0].range.start_byte, 7);
    assert_eq!(ds[0].range.end_byte, 8);
}

#[test]
fn description_templated_from_capture_text() {
    let rules = vec![rule("named", "@error is odd", "(number) @error")];
    let ds = ordered_diagnostics(&json_lang(), &rules, &b"[5]".to_vec()).unwrap();
    assert_eq!(ds.len(), 1);
    assert_eq!(ds[0].description, b"5 is odd".to_vec());
}
