//! The renderers: pure functions of `(path, sourceText, diagnostic)`.
//!
//! The plain renderer writes one line of the form
//! `path:line:column Error: description` (1-based line, 0-based column),
//! followed immediately by the source lines the diagnostic spans, each
//! prefixed with its 1-based line number right-aligned to the width of the
//! end line's number.
//! The rich renderer delegates to a report-formatting crate and promises
//! nothing of its bytes, which depend on the environment.

use crate::diag::{DiagModel, RawDiagnostic, copy_range, copy_vec};
use vstd::prelude::*;

verus! {

pub const NEWLINE: u8 = 10;

pub const CARRIAGE_RETURN: u8 = 13;

pub const SPACE: u8 = 32;

pub const COLON: u8 = 58;

pub const DIGIT_ZERO: u8 = 48;

/// The decimal digits of `n`, most significant first.
pub open spec fn dec_rep(n: nat) -> Seq<u8>
    decreases n,
{
    if n < 10 {
        seq![(DIGIT_ZERO + n) as u8]
    } else {
        dec_rep(n / 10).push((DIGIT_ZERO + n % 10) as u8)
    }
}

/// A number with no more digits than a larger one.
pub proof fn lemma_dec_rep_len_monotone(a: nat, b: nat)
    requires
        a <= b,
    ensures
        dec_rep(a).len() <= dec_rep(b).len(),
    decreases b,
{
    if b < 10 {
    } else if a < 10 {
        assert(dec_rep(a).len() == 1);
        assert(dec_rep(b).len() == dec_rep(b / 10).len() + 1);
    } else {
        assert(a / 10 <= b / 10) by (nonlinear_arith)
            requires
                a <= b,
        ;
        lemma_dec_rep_len_monotone(a / 10, b / 10);
    }
}

/// `n` spaces.
pub open spec fn spaces(n: int) -> Seq<u8>
    decreases n,
{
    if n <= 0 {
        Seq::empty()
    } else {
        spaces(n - 1).push(SPACE)
    }
}

/// Index of the first newline of `s`, or its length.
pub open spec fn nl_index(s: Seq<u8>) -> int
    decreases s.len(),
{
    if s.len() == 0 || s[0] == NEWLINE {
        0
    } else {
        1 + nl_index(s.drop_first())
    }
}

pub proof fn lemma_nl_index(s: Seq<u8>)
    ensures
        0 <= nl_index(s) <= s.len(),
        forall|k: int| 0 <= k < nl_index(s) ==> #[trigger] s[k] != NEWLINE,
        nl_index(s) < s.len() ==> s[nl_index(s)] == NEWLINE,
    decreases s.len(),
{
    if s.len() == 0 || s[0] == NEWLINE {
    } else {
        lemma_nl_index(s.drop_first());
        assert forall|k: int| 0 <= k < nl_index(s) implies #[trigger] s[k] != NEWLINE by {
            if k > 0 {
                assert(s.drop_first()[k - 1] == s[k]);
            }
        }
        if nl_index(s) < s.len() {
            assert(s.drop_first()[nl_index(s) - 1] == s[nl_index(s)]);
        }
    }
}

/// A newline-terminated chunk loses one trailing carriage return.
pub open spec fn strip_cr(line: Seq<u8>) -> Seq<u8> {
    if line.len() > 0 && line.last() == CARRIAGE_RETURN {
        line.drop_last()
    } else {
        line
    }
}

/// The lines of the source: split at newlines, each terminated chunk with one
/// trailing carriage return removed; a final unterminated chunk kept whole.
pub open spec fn spec_lines(s: Seq<u8>) -> Seq<Seq<u8>>
    decreases s.len(),
    via spec_lines_decreases
{
    if s.len() == 0 {
        Seq::empty()
    } else {
        let k = nl_index(s);
        if k == s.len() {
            seq![s]
        } else {
            seq![strip_cr(s.take(k))] + spec_lines(s.skip(k + 1))
        }
    }
}

#[via_fn]
proof fn spec_lines_decreases(s: Seq<u8>) {
    lemma_nl_index(s);
}

/// One excerpt row: padding to the width of the end line's number, the
/// 1-based line number, a space, the line, a newline.
pub open spec fn excerpt_row(lines: Seq<Seq<u8>>, i: int, width: int) -> Seq<u8> {
    spaces(width - dec_rep((i + 1) as nat).len()) + dec_rep((i + 1) as nat) + seq![SPACE]
        + lines[i] + seq![NEWLINE]
}

/// The excerpt: the rows from `i` through `end_row`, as far as the source has
/// lines.
pub open spec fn snippet_from(lines: Seq<Seq<u8>>, i: int, end_row: int, width: int) -> Seq<u8>
    decreases end_row + 1 - i,
{
    if i > end_row || i >= lines.len() || i < 0 {
        Seq::empty()
    } else {
        excerpt_row(lines, i, width) + snippet_from(lines, i + 1, end_row, width)
    }
}

/// The label ` Error: `.
pub open spec fn error_label() -> Seq<u8> {
    seq![32u8, 69u8, 114u8, 114u8, 111u8, 114u8, 58u8, 32u8]
}

/// The head line of the plain rendering: path, 1-based start line, 0-based
/// start column, and the description; the excerpt follows it immediately.
pub open spec fn text_header(path: Seq<u8>, d: DiagModel) -> Seq<u8> {
    path + seq![COLON] + dec_rep((d.range.start_row + 1) as nat) + seq![COLON] + dec_rep(
        d.range.start_col as nat,
    ) + error_label() + d.description + seq![NEWLINE]
}

/// The whole plain rendering of one diagnostic.
pub open spec fn spec_render_text(path: Seq<u8>, source: Seq<u8>, d: DiagModel) -> Seq<u8> {
    text_header(path, d) + snippet_from(
        spec_lines(source),
        d.range.start_row as int,
        d.range.end_row as int,
        dec_rep((d.range.end_row + 1) as nat).len() as int,
    )
}

fn error_label_vec() -> (v: Vec<u8>)
    ensures
        v@ == error_label(),
{
    let mut v: Vec<u8> = Vec::new();
    v.push(32);
    v.push(69);
    v.push(114);
    v.push(114);
    v.push(111);
    v.push(114);
    v.push(58);
    v.push(32);
    proof {
        assert(v@ =~= error_label());
    }
    v
}

/// The decimal digits of `n`.
fn format_num(n: u128) -> (v: Vec<u8>)
    ensures
        v@ == dec_rep(n as nat),
    decreases n,
{
    if n < 10 {
        let mut v: Vec<u8> = Vec::new();
        v.push(DIGIT_ZERO + (n as u8));
        proof {
            assert(v@ =~= dec_rep(n as nat));
        }
        v
    } else {
        let mut v = format_num(n / 10);
        v.push(DIGIT_ZERO + ((n % 10) as u8));
        v
    }
}

/// `n` spaces.
fn spaces_vec(n: usize) -> (v: Vec<u8>)
    ensures
        v@ == spaces(n as int),
{
    let mut v: Vec<u8> = Vec::new();
    let mut i: usize = 0;
    while i < n
        invariant
            0 <= i <= n,
            v@ == spaces(i as int),
        decreases n - i,
    {
        v.push(SPACE);
        i += 1;
    }
    v
}

/// The view of line spans as the lines they delimit.
pub open spec fn spans_view(spans: Seq<(usize, usize)>, s: Seq<u8>) -> Seq<Seq<u8>> {
    spans.map_values(|p: (usize, usize)| s.subrange(p.0 as int, p.1 as int))
}

/// Splits the source into its lines, as byte spans.
fn split_lines(source: &Vec<u8>) -> (r: Vec<(usize, usize)>)
    ensures
        spans_view(r@, source@) == spec_lines(source@),
        forall|i: int| 0 <= i < r@.len() ==> (#[trigger] r@[i]).0 <= r@[i].1 <= source@.len(),
{
    let ghost src = source@;
    let mut r: Vec<(usize, usize)> = Vec::new();
    let mut pos: usize = 0;
    proof {
        assert(src.skip(0) =~= src);
        assert(spans_view(r@, src) + spec_lines(src) =~= spec_lines(src));
    }
    while pos < source.len()
        invariant
            0 <= pos <= src.len(),
            src == source@,
            forall|i: int| 0 <= i < r@.len() ==> (#[trigger] r@[i]).0 <= r@[i].1 <= src.len(),
            spec_lines(src) == spans_view(r@, src) + spec_lines(src.skip(pos as int)),
        decreases src.len() - pos,
    {
        let ghost rest = src.skip(pos as int);
        // scan for the next newline
        let mut k: usize = pos;
        proof {
            assert(rest.skip(0) =~= rest);
        }
        while k < source.len() && source[k] != NEWLINE
            invariant
                pos <= k <= src.len(),
                src == source@,
                nl_index(src.skip(pos as int)) == k - pos + nl_index(src.skip(k as int)),
            decreases src.len() - k,
        {
            proof {
                let s = src.skip(k as int);
                assert(s[0] == src[k as int]);
                assert(s.drop_first() =~= src.skip(k + 1 as int));
            }
            k += 1;
        }
        proof {
            let s = src.skip(k as int);
            if k < src.len() {
                assert(s[0] == src[k as int]);
            }
            assert(nl_index(s) == 0);
            assert(nl_index(rest) == k - pos);
        }
        let ghost r0 = r@;
        if k < source.len() {
            // a terminated line: strip one trailing carriage return
            let e = if k > pos && source[k - 1] == CARRIAGE_RETURN {
                k - 1
            } else {
                k
            };
            r.push((pos, e));
            proof {
                assert(rest.take(k - pos) =~= src.subrange(pos as int, k as int));
                assert(strip_cr(rest.take(k - pos)) =~= src.subrange(pos as int, e as int));
                assert(rest.skip(k - pos + 1) =~= src.skip(k + 1 as int));
                assert(spec_lines(rest) == seq![strip_cr(rest.take(k - pos))] + spec_lines(
                    src.skip(k + 1 as int),
                ));
                assert(spans_view(r@, src) =~= spans_view(r0, src).push(
                    src.subrange(pos as int, e as int),
                ));
                assert(spans_view(r0, src) + (seq![src.subrange(pos as int, e as int)]
                    + spec_lines(src.skip(k + 1 as int))) =~= spans_view(r@, src) + spec_lines(
                    src.skip(k + 1 as int),
                ));
            }
            pos = k + 1;
        } else {
            // the final, unterminated line
            r.push((pos, k));
            proof {
                assert(rest.take(k - pos) =~= src.subrange(pos as int, k as int));
                assert(nl_index(rest) == rest.len());
                assert(rest =~= src.subrange(pos as int, k as int));
                assert(spec_lines(rest) == seq![rest]);
                assert(spans_view(r@, src) =~= spans_view(r0, src).push(
                    src.subrange(pos as int, k as int),
                ));
                assert(spans_view(r0, src) + seq![rest] =~= spans_view(r@, src));
                assert(src.skip(k as int) =~= Seq::<u8>::empty());
                assert(spans_view(r@, src) + spec_lines(src.skip(k as int)) =~= spans_view(
                    r@,
                    src,
                ));
            }
            pos = k;
        }
    }
    proof {
        assert(src.skip(src.len() as int) =~= Seq::<u8>::empty());
        assert(spans_view(r@, src) + spec_lines(src.skip(pos as int)) =~= spans_view(r@, src));
    }
    r
}

/// Renders one diagnostic in the plain format. The bytes are exactly
/// `spec_render_text` of the diagnostic.
pub fn render_text_diagnostic(path: &Vec<u8>, source: &Vec<u8>, d: &RawDiagnostic) -> (v: Vec<u8>)
    ensures
        v@ == spec_render_text(path@, source@, d@),
{
    let mut out = copy_vec(path);
    out.push(COLON);
    let mut piece = format_num((d.range.start_row as u128) + 1);
    out.append(&mut piece);
    out.push(COLON);
    let mut piece = format_num(d.range.start_col as u128);
    out.append(&mut piece);
    let mut piece = error_label_vec();
    out.append(&mut piece);
    let mut piece = copy_vec(&d.description);
    out.append(&mut piece);
    out.push(NEWLINE);
    proof {
        assert(out@ =~= text_header(path@, d@));
    }
    let ghost base = out@;

    let spans = split_lines(source);
    let ghost lines = spec_lines(source@);
    let end_width_vec = format_num((d.range.end_row as u128) + 1);
    let width = end_width_vec.len();
    let ghost w = dec_rep((d.range.end_row + 1) as nat).len() as int;
    let mut i: usize = d.range.start_row;
    proof {
        assert(base + snippet_from(lines, d@.range.start_row as int, d@.range.end_row as int, w)
            =~= out@ + snippet_from(lines, i as int, d@.range.end_row as int, w));
    }
    while i <= d.range.end_row && i < spans.len()
        invariant
            d.range.start_row <= i,
            spans_view(spans@, source@) == lines,
            forall|j: int| 0 <= j < spans@.len() ==> (#[trigger] spans@[j]).0 <= spans@[j].1
                <= source@.len(),
            width == dec_rep((d.range.end_row + 1) as nat).len(),
            w == width as int,
            base + snippet_from(lines, d@.range.start_row as int, d@.range.end_row as int, w)
                == out@ + snippet_from(lines, i as int, d@.range.end_row as int, w),
        decreases d.range.end_row + 1 - i,
    {
        proof {
            lemma_dec_rep_len_monotone((i + 1) as nat, (d.range.end_row + 1) as nat);
        }
        let mut num = format_num((i as u128) + 1);
        let mut pad = spaces_vec(width - num.len());
        let ghost out0 = out@;
        out.append(&mut pad);
        out.append(&mut num);
        out.push(SPACE);
        let mut line = copy_range(source, spans[i].0, spans[i].1);
        out.append(&mut line);
        out.push(NEWLINE);
        proof {
            assert(lines[i as int] == source@.subrange(
                spans@[i as int].0 as int,
                spans@[i as int].1 as int,
            ));
            assert(out@ =~= out0 + excerpt_row(lines, i as int, w));
            assert(snippet_from(lines, i as int, d@.range.end_row as int, w) == excerpt_row(
                lines,
                i as int,
                w,
            ) + snippet_from(lines, i + 1 as int, d@.range.end_row as int, w));
            assert(out0 + (excerpt_row(lines, i as int, w) + snippet_from(
                lines,
                i + 1 as int,
                d@.range.end_row as int,
                w,
            )) =~= out@ + snippet_from(lines, i + 1 as int, d@.range.end_row as int, w));
        }
        i += 1;
    }
    proof {
        assert(snippet_from(lines, i as int, d@.range.end_row as int, w) =~= Seq::<u8>::empty());
        assert(out@ + Seq::<u8>::empty() =~= out@);
    }
    out
}

/// The head line of the rich rendering: `[ERROR]: ` and the rule's name.
pub open spec fn rich_header(rule: Seq<u8>) -> Seq<u8> {
    seq![91u8, 69u8, 82u8, 82u8, 79u8, 82u8, 93u8, 58u8, 32u8] + rule
}

/// Builds the rich rendering's head line.
pub fn rich_header_bytes(rule: &Vec<u8>) -> (v: Vec<u8>)
    ensures
        v@ == rich_header(rule@),
{
    let mut v: Vec<u8> = Vec::new();
    v.push(91);
    v.push(69);
    v.push(82);
    v.push(82);
    v.push(79);
    v.push(82);
    v.push(93);
    v.push(58);
    v.push(32);
    let mut rest = copy_vec(rule);
    v.append(&mut rest);
    proof {
        assert(v@ =~= rich_header(rule@));
    }
    v
}

/// Relies on `miette`'s report formatting (`MietteDiagnostic`, `LabeledSpan`,
/// `NamedSource`, and the `Report` debug rendering): one block headed by the
/// given line at error severity, with the description attached as a label on
/// the diagnostic's span; a span beyond the source is reported in place, not
/// a panic. Its exact bytes depend on the environment (color and width
/// detection), so nothing is promised of them.
#[verifier::external_body]
pub fn render_pretty_diagnostic(
    path: &Vec<u8>,
    source: &Vec<u8>,
    header: &Vec<u8>,
    description: &Vec<u8>,
    span_start: usize,
    span_len: usize,
) -> Vec<u8> {
    let path = String::from_utf8_lossy(path).into_owned();
    let src = String::from_utf8_lossy(source).into_owned();
    let header = String::from_utf8_lossy(header).into_owned();
    let description = String::from_utf8_lossy(description).into_owned();
    let diagnostic = miette::MietteDiagnostic::new(header)
        .with_severity(miette::Severity::Error)
        .with_labels(vec![miette::LabeledSpan::new_primary_with_span(
            Some(description),
            (span_start, span_len),
        )]);
    let report = miette::Report::new(diagnostic).with_source_code(
        miette::NamedSource::new(path, src),
    );
    format!("{report:?}").into_bytes()
}

} // verus!
