//! The lint orchestrator.
//!
//! One file's source is parsed, every rule of the catalog is applied in
//! catalog order, the diagnostics are aggregated and ordered, and each one is
//! rendered in the configured format and appended to the caller's sink,
//! followed by a newline. The count of diagnostics is returned. Any rule's
//! error aborts the call; the sink then holds whatever was already rendered.

use crate::aggregate::{ordered_diagnostics, rules_view, spec_ordered};
use crate::diag::{Config, DiagModel, ErrModel, Error, OutputFormat, Rule, diags_view};
use crate::engine::lang_compatible;
use crate::render::{
    NEWLINE, render_pretty_diagnostic, render_text_diagnostic, rich_header_bytes,
    spec_render_text,
};
use vstd::prelude::*;

verus! {

/// The plain rendering of a whole ordered stream: each diagnostic's rendering
/// followed by a newline.
pub open spec fn spec_rendered_text(path: Seq<u8>, source: Seq<u8>, ds: Seq<DiagModel>) -> Seq<u8>
    decreases ds.len(),
{
    if ds.len() == 0 {
        Seq::empty()
    } else {
        spec_render_text(path, source, ds[0]) + seq![NEWLINE] + spec_rendered_text(
            path,
            source,
            ds.drop_first(),
        )
    }
}

/// The concatenation of a sequence of byte chunks.
pub open spec fn concat_chunks(cs: Seq<Seq<u8>>) -> Seq<u8>
    decreases cs.len(),
{
    if cs.len() == 0 {
        Seq::empty()
    } else {
        cs[0] + concat_chunks(cs.drop_first())
    }
}

proof fn lemma_concat_push(cs: Seq<Seq<u8>>, c: Seq<u8>)
    ensures
        concat_chunks(cs.push(c)) == concat_chunks(cs) + c,
    decreases cs.len(),
{
    if cs.len() == 0 {
        assert(cs.push(c).drop_first() =~= Seq::<Seq<u8>>::empty());
        assert(concat_chunks(Seq::<Seq<u8>>::empty()) == Seq::<u8>::empty());
        assert(cs.push(c)[0] == c);
        assert(concat_chunks(cs.push(c)) == c + Seq::<u8>::empty());
        assert(c + Seq::<u8>::empty() =~= Seq::<u8>::empty() + c);
    } else {
        assert(cs.push(c)[0] == cs[0]);
        assert(cs.push(c).drop_first() =~= cs.drop_first().push(c));
        lemma_concat_push(cs.drop_first(), c);
        assert(cs[0] + (concat_chunks(cs.drop_first()) + c) =~= (cs[0] + concat_chunks(
            cs.drop_first(),
        )) + c);
    }
}

/// Lints one file: applies every rule of `rules`, in catalog order, to
/// `source`, renders the ordered diagnostics into `out` per `config.format`,
/// and returns the diagnostic count.
///
/// The returned count is the length of the ordered stream
/// (`spec_ordered`); any error is exactly the stream's error. On success the
/// sink grows by one newline-terminated chunk per diagnostic, in stream
/// order; in the plain format those bytes are pinned exactly, in the rich
/// format they are the formatting crate's. An empty catalog appends nothing
/// and reports zero.
pub fn lint_file(
    config: &Config,
    lang: &tree_sitter::Language,
    path: &Vec<u8>,
    source: &Vec<u8>,
    rules: &Vec<Rule>,
    out: &mut Vec<u8>,
) -> (r: Result<usize, Error>)
    requires
        lang_compatible(*lang),
    ensures
        (match r {
            Result::Ok(n) => spec_ordered(rules_view(rules@), *lang, source@)
                matches Result::Ok(ds) && n == ds.len(),
            Result::Err(e) => spec_ordered(rules_view(rules@), *lang, source@) == Result::<
                Seq<DiagModel>,
                ErrModel,
            >::Err(e@),
        }),
        (r matches Result::Ok(n) && config.format == OutputFormat::Text) ==> final(out)@ == old(
            out,
        )@ + spec_rendered_text(
            path@,
            source@,
            spec_ordered(rules_view(rules@), *lang, source@)->Ok_0,
        ),
        r matches Result::Ok(n) ==> exists|cs: Seq<Seq<u8>>|
            cs.len() == n && (forall|k: int|
                0 <= k < cs.len() ==> (#[trigger] cs[k]).len() > 0 && cs[k].last() == NEWLINE)
                && final(out)@ == old(out)@ + concat_chunks(cs),
        (r matches Result::Ok(n) && n == 0) ==> final(out)@ == old(out)@,
        rules@.len() == 0 ==> r == Result::<usize, Error>::Ok(0) && final(out)@ == old(out)@,
        old(out)@.is_prefix_of(final(out)@),
{
    proof {
        if rules@.len() == 0 {
            assert(rules_view(rules@).len() == 0);
        }
    }
    let ds = match ordered_diagnostics(lang, rules, source) {
        Result::Ok(ds) => ds,
        Result::Err(e) => {
            proof {
                assert(out@.take(out@.len() as int) =~= out@);
            }
            return Result::Err(e);
        },
    };
    let n = ds.len();
    let ghost dv = diags_view(ds@);
    let ghost out_init = out@;
    let ghost mut chunks: Seq<Seq<u8>> = Seq::empty();
    let mut i: usize = 0;
    proof {
        assert(dv.skip(0) =~= dv);
        assert(out_init + spec_rendered_text(path@, source@, dv) =~= out@ + spec_rendered_text(
            path@,
            source@,
            dv.skip(0),
        ));
        assert(out@.take(out@.len() as int) =~= out@);
        assert(out_init + concat_chunks(chunks) =~= out_init);
    }
    while i < ds.len()
        invariant
            0 <= i <= ds@.len(),
            dv == diags_view(ds@),
            spec_ordered(rules_view(rules@), *lang, source@) == Result::<
                Seq<DiagModel>,
                ErrModel,
            >::Ok(dv),
            out_init == old(out)@,
            i == 0 ==> out@ == out_init,
            out_init.is_prefix_of(out@),
            chunks.len() == i,
            forall|k: int|
                0 <= k < chunks.len() ==> (#[trigger] chunks[k]).len() > 0 && chunks[k].last()
                    == NEWLINE,
            out@ == out_init + concat_chunks(chunks),
            config.format == OutputFormat::Text ==> out_init + spec_rendered_text(
                path@,
                source@,
                dv,
            ) == out@ + spec_rendered_text(path@, source@, dv.skip(i as int)),
        decreases ds@.len() - i,
    {
        proof {
            assert(dv.skip(i as int)[0] == dv[i as int]);
            assert(dv[i as int] == ds@[i as int]@);
            assert(dv.skip(i as int).drop_first() =~= dv.skip(i + 1 as int));
        }
        let mut rendered = match config.format {
            OutputFormat::Pretty => {
                let span_len = if ds[i].range.end_byte >= ds[i].range.start_byte {
                    ds[i].range.end_byte - ds[i].range.start_byte
                } else {
                    0
                };
                let header = rich_header_bytes(&ds[i].rule);
                render_pretty_diagnostic(
                    path,
                    source,
                    &header,
                    &ds[i].description,
                    ds[i].range.start_byte,
                    span_len,
                )
            },
            OutputFormat::Text => render_text_diagnostic(path, source, &ds[i]),
        };
        let ghost rv = rendered@;
        let ghost out0 = out@;
        out.append(&mut rendered);
        out.push(NEWLINE);
        proof {
            assert(out@ =~= out0 + rv + seq![NEWLINE]);
            assert(out_init.is_prefix_of(out@)) by {
                assert(out@.take(out_init.len() as int) =~= out0.take(out_init.len() as int));
            }
            let chunk = rv + seq![NEWLINE];
            lemma_concat_push(chunks, chunk);
            let chunks0 = chunks;
            chunks = chunks.push(chunk);
            assert(chunk.last() == NEWLINE);
            assert(out@ =~= (out_init + concat_chunks(chunks0)) + chunk);
            assert((out_init + concat_chunks(chunks0)) + chunk =~= out_init + (concat_chunks(
                chunks0,
            ) + chunk));
            if config.format == OutputFormat::Text {
                assert(rv == spec_render_text(path@, source@, dv[i as int]));
                assert(spec_rendered_text(path@, source@, dv.skip(i as int)) == spec_render_text(
                    path@,
                    source@,
                    dv[i as int],
                ) + seq![NEWLINE] + spec_rendered_text(path@, source@, dv.skip(i + 1 as int)));
                assert(out0 + (spec_render_text(path@, source@, dv[i as int]) + seq![NEWLINE]
                    + spec_rendered_text(path@, source@, dv.skip(i + 1 as int))) =~= out@
                    + spec_rendered_text(path@, source@, dv.skip(i + 1 as int)));
            }
        }
        i += 1;
    }
    proof {
        assert(dv.skip(dv.len() as int) =~= Seq::<DiagModel>::empty());
        assert(out@ + spec_rendered_text(path@, source@, Seq::<DiagModel>::empty()) =~= out@);
        assert(chunks.len() == n && out@ == old(out)@ + concat_chunks(chunks));
    }
    Result::Ok(n)
}

} // verus!
