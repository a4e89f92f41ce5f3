use lintoko::aggregate::sort_diagnostics;
use lintoko::applicator::process_matches;
use lintoko::diag::{Capture, Error, Match, RawDiagnostic, Rule, SrcRange};
use lintoko::render::render_text_diagnostic;
use lintoko::template::render_description;

fn span(start: usize, end: usize) -> SrcRange {
    SrcRange {
        start_byte: start,
        end_byte: end,
        start_row: 0,
        start_col: start,
        end_row: 0,
        end_col: end,
    }
}

fn cap(name: &str, range: SrcRange) -> Capture {
    Capture { name: name.as_bytes().to_vec(), range, has_next_named_sibling: false }
}

fn rule(name: &str, description: &str) -> Rule {
    Rule {
        name: name.as_bytes().to_vec(),
        description: description.as_bytes().to_vec(),
        query: Vec::new(),
    }
}

fn diag(rule: &str, start: usize) -> RawDiagnostic {
    RawDiagnostic {
        rule: rule.as_bytes().to_vec(),
        description: Vec::new(),
        range: span(start, start + 1),
    }
}

#[test]
fn template_substitutes_capture_text() {
    let caps = vec![cap("x", span(0, 3))];
    let r = render_description(&b"@x is unused".to_vec(), &caps, &b"foo bar".to_vec());
    assert_eq!(r.unwrap(), b"foo is unused".to_vec());
}

#[test]
fn template_without_placeholders_is_copied() {
    let caps = vec![cap("x", span(0, 3))];
    let r = render_description(&b"plain text, e@ mail".to_vec(), &caps, &b"foo".to_vec());
    assert_eq!(r.unwrap(), b"plain text, e@ mail".to_vec());
}

#[test]
fn template_unknown_capture_fails() {
    let caps = vec![cap("x", span(0, 3))];
    let r = render_description(&b"@y is unused".to_vec(), &caps, &b"foo".to_vec());
    match r {
        Err(Error::TemplateCaptureNotFound { name, template }) => {
            assert_eq!(name, b"y".to_vec());
            assert_eq!(template, b"@y is unused".to_vec());
        },
        _ => panic!("expected the unknown-capture error"),
    }
}

#[test]
fn template_undecodable_capture_fails() {
    let caps = vec![cap("x", span(0, 2))];
    let r = render_description(&b"@x".to_vec(), &caps, &vec![0xff, 0xfe, 0x20]);
    assert!(matches!(r, Err(Error::TextDecoding)));
}

#[test]
fn sort_is_stable_on_equal_offsets() {
    let ds = vec![diag("a", 5), diag("b", 3), diag("c", 5)];
    let sorted = sort_diagnostics(ds);
    assert_eq!(sorted.len(), 3);
    assert_eq!(sorted[0].rule, b"b".to_vec());
    assert_eq!(sorted[1].rule, b"a".to_vec());
    assert_eq!(sorted[2].rule, b"c".to_vec());
}

#[test]
fn process_matches_dedups_equal_ranges() {
    let source = b"xyz".to_vec();
    let ms = vec![
        Match { captures: vec![cap("error", span(0, 1))] },
        Match { captures: vec![cap("error", span(0, 1))] },
    ];
    let ds = process_matches(&rule("r", "d"), &ms, &source).unwrap();
    assert_eq!(ds.len(), 1);
}

#[test]
fn process_matches_suppresses_across_match_order() {
    // the filter range arrives in a later match than the error it suppresses
    let source = b"xyz".to_vec();
    let ms = vec![
        Match { captures: vec![cap("error", span(0, 1))] },
        Match { captures: vec![cap("filter", span(0, 1))] },
    ];
    let ds = process_matches(&rule("r", "d"), &ms, &source).unwrap();
    assert_eq!(ds.len(), 0);
}

#[test]
fn process_matches_discards_trailing_match_in_full() {
    let source = b"xyz".to_vec();
    let mut trailing = cap("trailing", span(1, 2));
    trailing.has_next_named_sibling = true;
    let ms = vec![Match { captures: vec![cap("error", span(0, 1)), trailing] }];
    let ds = process_matches(&rule("r", "d"), &ms, &source).unwrap();
    assert_eq!(ds.len(), 0);
}

#[test]
fn process_matches_keeps_trailing_match_without_sibling() {
    let source = b"xyz".to_vec();
    let ms = vec![Match { captures: vec![cap("error", span(0, 1)), cap("trailing", span(1, 2))] }];
    let ds = process_matches(&rule("r", "d"), &ms, &source).unwrap();
    assert_eq!(ds.len(), 1);
    assert_eq!(ds[0].range.start_byte, 0);
}

#[test]
fn discarded_match_still_contributes_filters() {
    let source = b"xyz".to_vec();
    let mut trailing = cap("trailing", span(2, 3));
    trailing.has_next_named_sibling = true;
    let ms = vec![
        Match { captures: vec![cap("error", span(0, 1))] },
        Match { captures: vec![cap("filter", span(0, 1)), trailing] },
    ];
    let ds = process_matches(&rule("r", "d"), &ms, &source).unwrap();
    assert_eq!(ds.len(), 0);
}

#[test]
fn text_rendering_pads_line_numbers() {
    let source = b"a\nb\nc\nd\ne\nf\ng\nh\ni\nj".to_vec();
    let d = RawDiagnostic {
        rule: b"r".to_vec(),
        description: b"msg".to_vec(),
        range: SrcRange {
            start_byte: 16,
            end_byte: 19,
            start_row: 8,
            start_col: 2,
            end_row: 9,
            end_col: 1,
        },
    };
    let v = render_text_diagnostic(&b"p".to_vec(), &source, &d);
    assert_eq!(String::from_utf8(v).unwrap(), "p:9:2 Error: msg\n 9 i\n10 j\n");
}

#[test]
fn text_rendering_strips_carriage_returns() {
    let source = b"one\r\ntwo\r\n".to_vec();
    let d = RawDiagnostic {
        rule: b"r".to_vec(),
        description: b"m".to_vec(),
        range: SrcRange {
            start_byte: 0,
            end_byte: 3,
            start_row: 0,
            start_col: 0,
            end_row: 1,
            end_col: 0,
        },
    };
    let v = render_text_diagnostic(&b"p".to_vec(), &source, &d);
    assert_eq!(String::from_utf8(v).unwrap(), "p:1:0 Error: m\n1 one\n2 two\n");
}
