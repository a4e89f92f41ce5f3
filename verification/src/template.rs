//! The description templater.
//!
//! A rule's description is scanned left to right once. A placeholder is `@`
//! followed by one or more lowercase letters or hyphens; it is replaced by the
//! text of the like-named capture of the current match, taken verbatim from
//! the source (never re-scanned). Text around placeholders is copied through
//! unchanged. A placeholder naming a capture the match does not carry, or
//! capture bytes that are not valid text, abort the run.

use crate::diag::{Capture, CaptureModel, ErrModel, Error, SrcRange, caps_view, copy_range, copy_vec};
use crate::engine::wf_capture;
use vstd::prelude::*;

verus! {

pub const LOWER_A: u8 = 97;

pub const LOWER_Z: u8 = 122;

pub const HYPHEN: u8 = 45;

pub const AT_SIGN: u8 = 64;

/// Bytes that may stand in a placeholder name: lowercase letters and hyphens.
pub open spec fn is_name_byte(b: u8) -> bool {
    (LOWER_A <= b && b <= LOWER_Z) || b == HYPHEN
}

/// Length of the longest prefix of `t` made of placeholder-name bytes.
pub open spec fn name_len(t: Seq<u8>) -> int
    decreases t.len(),
{
    if t.len() == 0 || !is_name_byte(t[0]) {
        0
    } else {
        1 + name_len(t.drop_first())
    }
}

pub proof fn lemma_name_len(t: Seq<u8>)
    ensures
        0 <= name_len(t) <= t.len(),
        forall|k: int| 0 <= k < name_len(t) ==> is_name_byte(#[trigger] t[k]),
        name_len(t) < t.len() ==> !is_name_byte(t[name_len(t)]),
    decreases t.len(),
{
    if t.len() == 0 || !is_name_byte(t[0]) {
    } else {
        lemma_name_len(t.drop_first());
        assert forall|k: int| 0 <= k < name_len(t) implies is_name_byte(#[trigger] t[k]) by {
            if k > 0 {
                assert(t.drop_first()[k - 1] == t[k]);
            }
        }
        if name_len(t) < t.len() {
            assert(t.drop_first()[name_len(t) - 1] == t[name_len(t)]);
        }
    }
}

/// The first capture of the match that carries the given name.
pub open spec fn lookup_capture(caps: Seq<CaptureModel>, name: Seq<u8>) -> Option<CaptureModel>
    decreases caps.len(),
{
    if caps.len() == 0 {
        Option::None
    } else if caps[0].name == name {
        Option::Some(caps[0])
    } else {
        lookup_capture(caps.drop_first(), name)
    }
}

/// A looked-up capture is one of the match's captures.
pub proof fn lemma_lookup_in(caps: Seq<CaptureModel>, name: Seq<u8>)
    ensures
        lookup_capture(caps, name) matches Option::Some(c) ==> exists|k: int|
            0 <= k < caps.len() && caps[k] == c,
    decreases caps.len(),
{
    if caps.len() == 0 {
    } else if caps[0].name == name {
        assert(caps[0] == caps[0]);
    } else {
        lemma_lookup_in(caps.drop_first(), name);
        if lookup_capture(caps, name) is Some {
            let c = lookup_capture(caps, name)->Some_0;
            let k = choose|k: int| 0 <= k < caps.drop_first().len() && caps.drop_first()[k] == c;
            assert(caps[k + 1] == c);
        }
    }
}

/// Whether a byte sequence is valid text. Named after `core::str::from_utf8`:
/// validity depends on the bytes alone.
pub uninterp spec fn utf8_valid(bytes: Seq<u8>) -> bool;

/// Relies on `core::str::from_utf8`: it accepts a byte sequence exactly when
/// the bytes are valid text, and by its documentation every all-ASCII
/// sequence (each byte below 128) is accepted.
#[verifier::external_body]
fn check_utf8(bytes: &[u8]) -> (r: bool)
    ensures
        r == utf8_valid(bytes@),
        (forall|k: int| 0 <= k < bytes@.len() ==> bytes@[k] < 128) ==> r,
{
    core::str::from_utf8(bytes).is_ok()
}

/// What rendering a template against one match's captures yields: the
/// template with each placeholder replaced by its capture's source bytes, or
/// the first error of the left-to-right scan. `full` is the whole template,
/// carried for error reporting.
pub open spec fn spec_render(
    t: Seq<u8>,
    caps: Seq<CaptureModel>,
    source: Seq<u8>,
    full: Seq<u8>,
) -> Result<Seq<u8>, ErrModel>
    decreases t.len(),
    via spec_render_decreases
{
    if t.len() == 0 {
        Result::Ok(Seq::empty())
    } else if t[0] == AT_SIGN && t.len() >= 2 && is_name_byte(t[1]) {
        let n = name_len(t.skip(1));
        let name = t.subrange(1, 1 + n);
        match lookup_capture(caps, name) {
            Option::None => Result::Err(
                ErrModel::TemplateCaptureNotFound { name, template: full },
            ),
            Option::Some(c) => {
                let text = source.subrange(c.range.start_byte as int, c.range.end_byte as int);
                if !utf8_valid(text) {
                    Result::Err(ErrModel::TextDecoding)
                } else {
                    match spec_render(t.skip(1 + n), caps, source, full) {
                        Result::Ok(rest) => Result::Ok(text + rest),
                        Result::Err(e) => Result::Err(e),
                    }
                }
            },
        }
    } else {
        match spec_render(t.skip(1), caps, source, full) {
            Result::Ok(rest) => Result::Ok(seq![t[0]] + rest),
            Result::Err(e) => Result::Err(e),
        }
    }
}

#[via_fn]
proof fn spec_render_decreases(t: Seq<u8>, caps: Seq<CaptureModel>, source: Seq<u8>, full: Seq<u8>) {
    lemma_name_len(t.skip(1));
}

/// The view of a templater result.
pub open spec fn render_result_view(r: Result<Vec<u8>, Error>) -> Result<Seq<u8>, ErrModel> {
    match r {
        Result::Ok(v) => Result::Ok(v@),
        Result::Err(e) => Result::Err(e@),
    }
}

/// Every capture of the sequence is well formed for the source.
pub open spec fn wf_caps(caps: Seq<CaptureModel>, source_len: nat) -> bool {
    forall|k: int| 0 <= k < caps.len() ==> wf_capture(#[trigger] caps[k], source_len)
}

fn name_byte(b: u8) -> (r: bool)
    ensures
        r == is_name_byte(b),
{
    (LOWER_A <= b && b <= LOWER_Z) || b == HYPHEN
}

/// Index just past the placeholder name that starts at `start`.
fn scan_name_end(t: &Vec<u8>, start: usize) -> (j: usize)
    requires
        start <= t@.len(),
    ensures
        start <= j <= t@.len(),
        j - start == name_len(t@.skip(start as int)),
{
    let mut j: usize = start;
    while j < t.len() && name_byte(t[j])
        invariant
            start <= j <= t@.len(),
            name_len(t@.skip(start as int)) == j - start + name_len(t@.skip(j as int)),
        decreases t@.len() - j,
    {
        proof {
            let s = t@.skip(j as int);
            assert(s[0] == t@[j as int]);
            assert(s.drop_first() =~= t@.skip(j + 1 as int));
        }
        j += 1;
    }
    proof {
        let s = t@.skip(j as int);
        if j < t@.len() {
            assert(s[0] == t@[j as int]);
        }
        assert(name_len(s) == 0);
    }
    j
}

/// Index (into `caps`) of the first capture named `name`, mirroring
/// `lookup_capture` from position `from` on.
fn find_capture(caps: &Vec<Capture>, from: usize, name: &Vec<u8>) -> (r: Option<SrcRange>)
    requires
        from <= caps@.len(),
    ensures
        ({
            let l = lookup_capture(caps_view(caps@).skip(from as int), name@);
            match r {
                Option::Some(rg) => l matches Option::Some(c) && c.range == rg,
                Option::None => l is None,
            }
        }),
    decreases caps@.len() - from,
{
    let ghost cv = caps_view(caps@);
    if from == caps.len() {
        assert(cv.skip(from as int).len() == 0);
        Option::None
    } else {
        proof {
            assert(cv.skip(from as int)[0] == cv[from as int]);
            assert(cv.skip(from as int).drop_first() =~= cv.skip(from + 1 as int));
        }
        if crate::diag::bytes_eq(&caps[from].name, name.as_slice()) {
            Option::Some(caps[from].range)
        } else {
            find_capture(caps, from + 1, name)
        }
    }
}

/// Renders the template suffix that starts at `i`, mirroring `spec_render`.
fn render_from(template: &Vec<u8>, i: usize, caps: &Vec<Capture>, source: &Vec<u8>) -> (r: Result<
    Vec<u8>,
    Error,
>)
    requires
        i <= template@.len(),
        wf_caps(caps_view(caps@), source@.len()),
    ensures
        render_result_view(r) == spec_render(
            template@.skip(i as int),
            caps_view(caps@),
            source@,
            template@,
        ),
    decreases template@.len() - i,
{
    let ghost t = template@.skip(i as int);
    let ghost cv = caps_view(caps@);
    if i == template.len() {
        assert(t.len() == 0);
        Result::Ok(Vec::new())
    } else {
        proof {
            assert(t[0] == template@[i as int]);
            if i + 1 < template@.len() {
                assert(t[1] == template@[i + 1]);
            }
        }
        if template[i] == AT_SIGN && i + 1 < template.len() && name_byte(template[i + 1]) {
            proof {
                assert(t.skip(1) =~= template@.skip(i + 1 as int));
            }
            let j = scan_name_end(template, i + 1);
            let ghost n = name_len(t.skip(1));
            proof {
                lemma_name_len(t.skip(1));
                assert(n >= 1) by {
                    assert(is_name_byte(t.skip(1)[0]));
                }
                assert(template@.subrange(i + 1, j as int) =~= t.subrange(1, 1 + n));
            }
            let name = copy_range(template, i + 1, j);
            proof {
                assert(cv.skip(0) =~= cv);
            }
            match find_capture(caps, 0, &name) {
                Option::None => Result::Err(
                    Error::TemplateCaptureNotFound {
                        name,
                        template: copy_vec(template),
                    },
                ),
                Option::Some(rg) => {
                    proof {
                        lemma_lookup_in(cv, name@);
                    }
                    let text = copy_range(source, rg.start_byte, rg.end_byte);
                    if !check_utf8(text.as_slice()) {
                        Result::Err(Error::TextDecoding)
                    } else {
                        proof {
                            assert(t.skip(1 + n) =~= template@.skip(j as int));
                        }
                        match render_from(template, j, caps, source) {
                            Result::Ok(rest) => {
                                let mut out = text;
                                let mut rest = rest;
                                out.append(&mut rest);
                                Result::Ok(out)
                            },
                            Result::Err(e) => Result::Err(e),
                        }
                    }
                },
            }
        } else {
            proof {
                assert(t.skip(1) =~= template@.skip(i + 1 as int));
            }
            match render_from(template, i + 1, caps, source) {
                Result::Ok(rest) => {
                    let ghost rest0 = rest@;
                    let mut out: Vec<u8> = Vec::new();
                    out.push(template[i]);
                    let mut rest = rest;
                    out.append(&mut rest);
                    proof {
                        assert(out@ =~= seq![t[0]] + rest0);
                    }
                    Result::Ok(out)
                },
                Result::Err(e) => Result::Err(e),
            }
        }
    }
}

/// Renders a rule's description template against one match's captures.
///
/// The result is exactly `spec_render` of the template: placeholders replaced
/// in order, the first missing capture or undecodable text reported.
pub fn render_description(template: &Vec<u8>, caps: &Vec<Capture>, source: &Vec<u8>) -> (r: Result<
    Vec<u8>,
    Error,
>)
    requires
        wf_caps(caps_view(caps@), source@.len()),
    ensures
        render_result_view(r) == spec_render(
            template@,
            caps_view(caps@),
            source@,
            template@,
        ),
{
    let r = render_from(template, 0, caps, source);
    proof {
        assert(template@.skip(0) =~= template@);
    }
    r
}

} // verus!
