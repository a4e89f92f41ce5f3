//! The rule applicator.
//!
//! One rule's pattern is compiled and run over the tree. A match whose
//! `trailing` capture has a following named sibling is discarded in full.
//! Every `error` capture of a surviving match becomes a candidate diagnostic;
//! every `filter` capture of any match of the rule suppresses candidates with
//! an identical range. Among the remaining candidates, only the first per
//! distinct range (in match order) survives; each survivor's description is
//! templated from its own match's captures.

use crate::diag::{
    Capture, CaptureModel, DiagModel, ErrModel, Error, Match, RawDiagnostic, Rule, RuleModel,
    SrcRange, caps_view, copy_vec, diags_view, matches_view,
};
use crate::engine::{
    capture_index_of, compile_ok, compile_query, engine_matches, query_capture_index, query_model,
    run_query, tree_model, wf_matches,
};
use crate::template::{render_description, spec_render, wf_caps};
use vstd::prelude::*;

verus! {

/// The reserved capture name `error`: the span to report.
pub open spec fn error_name() -> Seq<u8> {
    seq![101u8, 114u8, 114u8, 111u8, 114u8]
}

/// The reserved capture name `filter`: ranges captured here suppress equal
/// `error` ranges of the same rule.
pub open spec fn filter_name() -> Seq<u8> {
    seq![102u8, 105u8, 108u8, 116u8, 101u8, 114u8]
}

/// The reserved capture name `trailing`: a structural guard, never reported.
pub open spec fn trailing_name() -> Seq<u8> {
    seq![116u8, 114u8, 97u8, 105u8, 108u8, 105u8, 110u8, 103u8]
}

fn error_name_vec() -> (v: Vec<u8>)
    ensures
        v@ == error_name(),
{
    let mut v: Vec<u8> = Vec::new();
    v.push(101);
    v.push(114);
    v.push(114);
    v.push(111);
    v.push(114);
    proof {
        assert(v@ =~= error_name());
    }
    v
}

fn filter_name_vec() -> (v: Vec<u8>)
    ensures
        v@ == filter_name(),
{
    let mut v: Vec<u8> = Vec::new();
    v.push(102);
    v.push(105);
    v.push(108);
    v.push(116);
    v.push(101);
    v.push(114);
    proof {
        assert(v@ =~= filter_name());
    }
    v
}

fn trailing_name_vec() -> (v: Vec<u8>)
    ensures
        v@ == trailing_name(),
{
    let mut v: Vec<u8> = Vec::new();
    v.push(116);
    v.push(114);
    v.push(97);
    v.push(105);
    v.push(108);
    v.push(105);
    v.push(110);
    v.push(103);
    proof {
        assert(v@ =~= trailing_name());
    }
    v
}

/// Whether the anchor workaround discards the match in full: some `trailing`
/// capture's node has a following named sibling.
pub open spec fn discarded(m: Seq<CaptureModel>) -> bool {
    exists|k: int|
        0 <= k < m.len() && m[k].name == trailing_name() && m[k].has_next_named_sibling
}

/// The ranges of the captures of `m` that carry the given name, in capture
/// order.
pub open spec fn ranges_named(m: Seq<CaptureModel>, name: Seq<u8>) -> Seq<SrcRange>
    decreases m.len(),
{
    if m.len() == 0 {
        Seq::empty()
    } else {
        (if m[0].name == name {
            seq![m[0].range]
        } else {
            Seq::empty()
        }) + ranges_named(m.drop_first(), name)
    }
}

/// The candidate diagnostics of the rule, in match order: each `error` range
/// of each surviving match, paired with that match's captures.
pub open spec fn entries_of(ms: Seq<Seq<CaptureModel>>) -> Seq<(SrcRange, Seq<CaptureModel>)>
    decreases ms.len(),
{
    if ms.len() == 0 {
        Seq::empty()
    } else {
        (if discarded(ms[0]) {
            Seq::empty()
        } else {
            ranges_named(ms[0], error_name()).map_values(|r: SrcRange| (r, ms[0]))
        }) + entries_of(ms.drop_first())
    }
}

/// The suppression set of the rule: every `filter` range of every match,
/// surviving or not.
pub open spec fn filters_of(ms: Seq<Seq<CaptureModel>>) -> Seq<SrcRange>
    decreases ms.len(),
{
    if ms.len() == 0 {
        Seq::empty()
    } else {
        ranges_named(ms[0], filter_name()) + filters_of(ms.drop_first())
    }
}

/// Suppression and within-rule deduplication: a candidate survives when its
/// range is neither suppressed nor already seen; later candidates with an
/// already-seen range are dropped.
pub open spec fn selected(
    entries: Seq<(SrcRange, Seq<CaptureModel>)>,
    filters: Seq<SrcRange>,
    seen: Seq<SrcRange>,
) -> Seq<(SrcRange, Seq<CaptureModel>)>
    decreases entries.len(),
{
    if entries.len() == 0 {
        Seq::empty()
    } else {
        let e = entries[0];
        if filters.contains(e.0) || seen.contains(e.0) {
            selected(entries.drop_first(), filters, seen)
        } else {
            seq![e] + selected(entries.drop_first(), filters, seen.push(e.0))
        }
    }
}

/// Templating of the survivors, in order; the first templating error aborts.
pub open spec fn emit(
    rule: RuleModel,
    sel: Seq<(SrcRange, Seq<CaptureModel>)>,
    source: Seq<u8>,
) -> Result<Seq<DiagModel>, ErrModel>
    decreases sel.len(),
{
    if sel.len() == 0 {
        Result::Ok(Seq::empty())
    } else {
        match spec_render(rule.description, sel[0].1, source, rule.description) {
            Result::Ok(d) => match emit(rule, sel.drop_first(), source) {
                Result::Ok(rest) => Result::Ok(
                    seq![DiagModel { rule: rule.name, description: d, range: sel[0].0 }] + rest,
                ),
                Result::Err(e) => Result::Err(e),
            },
            Result::Err(e) => Result::Err(e),
        }
    }
}

/// The diagnostics one rule yields on the engine's matches.
pub open spec fn spec_apply(
    rule: RuleModel,
    ms: Seq<Seq<CaptureModel>>,
    source: Seq<u8>,
) -> Result<Seq<DiagModel>, ErrModel> {
    emit(rule, selected(entries_of(ms), filters_of(ms), Seq::empty()), source)
}

/// The full contract of applying one rule: a pattern the engine rejects, a
/// pattern without an `error` capture, and otherwise the diagnostics of the
/// engine's matches.
pub open spec fn spec_rule_diags(
    rule: RuleModel,
    lang: tree_sitter::Language,
    source: Seq<u8>,
) -> Result<Seq<DiagModel>, ErrModel> {
    if !compile_ok(lang, rule.query) {
        Result::Err(ErrModel::PatternCompile { rule: rule.name })
    } else if capture_index_of(lang, rule.query, error_name()) is None {
        Result::Err(ErrModel::MissingErrorCapture { rule: rule.name })
    } else {
        spec_apply(rule, engine_matches(lang, rule.query, source), source)
    }
}

/// The view of an applicator result.
pub open spec fn diags_result_view(r: Result<Vec<RawDiagnostic>, Error>) -> Result<
    Seq<DiagModel>,
    ErrModel,
> {
    match r {
        Result::Ok(v) => Result::Ok(diags_view(v@)),
        Result::Err(e) => Result::Err(e@),
    }
}

/// The view of a sequence of candidate entries.
pub open spec fn entries_view(es: Seq<(SrcRange, Vec<Capture>)>) -> Seq<
    (SrcRange, Seq<CaptureModel>),
> {
    es.map_values(|e: (SrcRange, Vec<Capture>)| (e.0, caps_view(e.1@)))
}

/// Every entry's captures are well formed for the source.
pub proof fn lemma_entries_wf(ms: Seq<Seq<CaptureModel>>, n: nat)
    requires
        wf_matches(ms, n),
    ensures
        forall|k: int| 0 <= k < entries_of(ms).len() ==> wf_caps(
            #[trigger] entries_of(ms)[k].1,
            n,
        ),
    decreases ms.len(),
{
    if ms.len() == 0 {
    } else {
        assert(wf_matches(ms.drop_first(), n)) by {
            assert(forall|i: int, j: int|
                0 <= i < ms.drop_first().len() && 0 <= j < ms.drop_first()[i].len()
                    ==> ms.drop_first()[i][j] == ms[i + 1][j]);
        }
        lemma_entries_wf(ms.drop_first(), n);
        assert(wf_caps(ms[0], n));
        let head: Seq<(SrcRange, Seq<CaptureModel>)> = if discarded(ms[0]) {
            Seq::empty()
        } else {
            ranges_named(ms[0], error_name()).map_values(|r: SrcRange| (r, ms[0]))
        };
        assert forall|k: int| 0 <= k < entries_of(ms).len() implies wf_caps(
            #[trigger] entries_of(ms)[k].1,
            n,
        ) by {
            if k < head.len() {
                assert(entries_of(ms)[k].1 == ms[0]);
            } else {
                assert(entries_of(ms)[k] == entries_of(ms.drop_first())[k - head.len()]);
            }
        }
    }
}

fn dup_capture(c: &Capture) -> (r: Capture)
    ensures
        r@ == c@,
{
    Capture {
        name: copy_vec(&c.name),
        range: c.range,
        has_next_named_sibling: c.has_next_named_sibling,
    }
}

fn dup_captures(v: &Vec<Capture>) -> (r: Vec<Capture>)
    ensures
        caps_view(r@) == caps_view(v@),
{
    let mut r: Vec<Capture> = Vec::new();
    let mut i: usize = 0;
    while i < v.len()
        invariant
            0 <= i <= v@.len(),
            r@.len() == i,
            forall|k: int| 0 <= k < i ==> r@[k]@ == v@[k]@,
        decreases v@.len() - i,
    {
        r.push(dup_capture(&v[i]));
        i += 1;
    }
    proof {
        assert(caps_view(r@) =~= caps_view(v@));
    }
    r
}

fn is_discarded(m: &Match, tn: &Vec<u8>) -> (r: bool)
    requires
        tn@ == trailing_name(),
    ensures
        r == discarded(m@),
{
    let mut i: usize = 0;
    while i < m.captures.len()
        invariant
            0 <= i <= m.captures@.len(),
            tn@ == trailing_name(),
            forall|k: int|
                0 <= k < i ==> !(m@[k].name == trailing_name() && m@[k].has_next_named_sibling),
        decreases m.captures@.len() - i,
    {
        if m.captures[i].has_next_named_sibling && crate::diag::bytes_eq(
            &m.captures[i].name,
            tn.as_slice(),
        ) {
            assert(m@[i as int].name == trailing_name() && m@[i as int].has_next_named_sibling);
            return true;
        }
        i += 1;
    }
    false
}

fn ranges_named_exec(m: &Match, name: &Vec<u8>) -> (r: Vec<SrcRange>)
    ensures
        r@ == ranges_named(m@, name@),
{
    let ghost mv = m@;
    let mut r: Vec<SrcRange> = Vec::new();
    let mut i: usize = 0;
    proof {
        assert(mv.skip(0) =~= mv);
        assert(Seq::<SrcRange>::empty() + ranges_named(mv, name@) =~= ranges_named(mv, name@));
    }
    while i < m.captures.len()
        invariant
            0 <= i <= m.captures@.len(),
            mv == m@,
            ranges_named(mv, name@) == r@ + ranges_named(mv.skip(i as int), name@),
        decreases m.captures@.len() - i,
    {
        let ghost head: Seq<SrcRange> = if mv[i as int].name == name@ {
            seq![mv[i as int].range]
        } else {
            Seq::empty()
        };
        proof {
            assert(mv.skip(i as int)[0] == mv[i as int]);
            assert(mv.skip(i as int).drop_first() =~= mv.skip(i + 1 as int));
            assert(ranges_named(mv.skip(i as int), name@) == head + ranges_named(
                mv.skip(i + 1 as int),
                name@,
            ));
        }
        let ghost r0 = r@;
        if crate::diag::bytes_eq(&m.captures[i].name, name.as_slice()) {
            r.push(m.captures[i].range);
        }
        proof {
            assert(r@ =~= r0 + head);
            assert(r0 + (head + ranges_named(mv.skip(i + 1 as int), name@)) =~= (r0 + head)
                + ranges_named(mv.skip(i + 1 as int), name@));
        }
        i += 1;
    }
    proof {
        assert(mv.skip(mv.len() as int) =~= Seq::<CaptureModel>::empty());
        assert(r@ =~= r@ + ranges_named(mv.skip(mv.len() as int), name@));
    }
    r
}

fn range_in(v: &Vec<SrcRange>, rg: SrcRange) -> (r: bool)
    ensures
        r == v@.contains(rg),
{
    let mut i: usize = 0;
    while i < v.len()
        invariant
            0 <= i <= v@.len(),
            forall|k: int| 0 <= k < i ==> v@[k] != rg,
        decreases v@.len() - i,
    {
        if v[i] == rg {
            assert(v@[i as int] == rg);
            return true;
        }
        i += 1;
    }
    false
}

/// Applies the suppression, deduplication and templating pipeline of one rule
/// to the matches the engine returned. The result is exactly `spec_apply` of
/// the matches' mathematical content.
pub fn process_matches(rule: &Rule, ms: &Vec<Match>, source: &Vec<u8>) -> (r: Result<
    Vec<RawDiagnostic>,
    Error,
>)
    requires
        wf_matches(matches_view(ms@), source@.len()),
    ensures
        diags_result_view(r) == spec_apply(rule@, matches_view(ms@), source@),
{
    let ghost mv = matches_view(ms@);
    let tn = trailing_name_vec();
    let en = error_name_vec();
    let fin = filter_name_vec();

    let mut entries: Vec<(SrcRange, Vec<Capture>)> = Vec::new();
    let mut filters: Vec<SrcRange> = Vec::new();
    let mut mi: usize = 0;
    proof {
        assert(mv.skip(0) =~= mv);
        assert(entries_view(entries@) =~= Seq::<(SrcRange, Seq<CaptureModel>)>::empty());
        assert(entries_view(entries@) + entries_of(mv) =~= entries_of(mv));
        assert(filters@ + filters_of(mv) =~= filters_of(mv));
    }
    while mi < ms.len()
        invariant
            0 <= mi <= ms@.len(),
            mv == matches_view(ms@),
            tn@ == trailing_name(),
            en@ == error_name(),
            fin@ == filter_name(),
            entries_of(mv) == entries_view(entries@) + entries_of(mv.skip(mi as int)),
            filters_of(mv) == filters@ + filters_of(mv.skip(mi as int)),
        decreases ms@.len() - mi,
    {
        proof {
            assert(mv.skip(mi as int)[0] == mv[mi as int]);
            assert(mv[mi as int] == ms@[mi as int]@);
            assert(mv.skip(mi as int).drop_first() =~= mv.skip(mi + 1 as int));
        }
        let ghost headE: Seq<(SrcRange, Seq<CaptureModel>)> = if discarded(mv[mi as int]) {
            Seq::empty()
        } else {
            ranges_named(mv[mi as int], error_name()).map_values(
                |r: SrcRange| (r, mv[mi as int]),
            )
        };
        let ghost headF = ranges_named(mv[mi as int], filter_name());
        proof {
            assert(entries_of(mv.skip(mi as int)) =~= headE + entries_of(mv.skip(mi + 1 as int)));
            assert(filters_of(mv.skip(mi as int)) =~= headF + filters_of(mv.skip(mi + 1 as int)));
        }
        let m = &ms[mi];
        let ghost entries0 = entries_view(entries@);
        if !is_discarded(m, &tn) {
            let ers = ranges_named_exec(m, &en);
            let mut k: usize = 0;
            proof {
                assert(ers@.take(0).map_values(|r: SrcRange| (r, mv[mi as int])) =~= Seq::<
                    (SrcRange, Seq<CaptureModel>),
                >::empty());
                assert(entries_view(entries@) =~= entries0 + ers@.take(0).map_values(
                    |r: SrcRange| (r, mv[mi as int]),
                ));
            }
            while k < ers.len()
                invariant
                    0 <= k <= ers@.len(),
                    mv == matches_view(ms@),
                    mi < ms@.len(),
                    ers@ == ranges_named(mv[mi as int], error_name()),
                    mv[mi as int] == ms@[mi as int]@,
                    entries_view(entries@) =~= entries0 + ers@.take(k as int).map_values(
                        |r: SrcRange| (r, mv[mi as int]),
                    ),
                decreases ers@.len() - k,
            {
                let caps = dup_captures(&ms[mi].captures);
                let ghost entries_pre = entries@;
                entries.push((ers[k], caps));
                proof {
                    assert(caps_view(entries@[entries_pre.len() as int].1@) == caps_view(
                        ms@[mi as int].captures@,
                    ));
                    assert(caps_view(ms@[mi as int].captures@) == mv[mi as int]);
                    assert(entries_view(entries@) =~= entries_view(entries_pre).push(
                        (ers@[k as int], mv[mi as int]),
                    ));
                    assert(entries_view(entries@) =~= entries0 + ers@.take(
                        k + 1 as int,
                    ).map_values(|r: SrcRange| (r, mv[mi as int])));
                }
                k += 1;
            }
            proof {
                assert(ers@.take(ers@.len() as int) =~= ers@);
                assert(entries_view(entries@) =~= entries0 + headE);
                assert((entries0 + headE) + entries_of(mv.skip(mi + 1 as int)) =~= entries0 + (
                headE + entries_of(mv.skip(mi + 1 as int))));
            }
        } else {
            proof {
                assert(entries_view(entries@) =~= entries0 + headE);
                assert((entries0 + headE) + entries_of(mv.skip(mi + 1 as int)) =~= entries0 + (
                headE + entries_of(mv.skip(mi + 1 as int))));
            }
        }
        let ghost filters0 = filters@;
        let mut frs = ranges_named_exec(&ms[mi], &fin);
        filters.append(&mut frs);
        proof {
            assert(filters@ =~= filters0 + headF);
            assert((filters0 + headF) + filters_of(mv.skip(mi + 1 as int)) =~= filters0 + (headF
                + filters_of(mv.skip(mi + 1 as int))));
        }
        mi += 1;
    }
    proof {
        assert(mv.skip(mv.len() as int) =~= Seq::<Seq<CaptureModel>>::empty());
        assert(entries_view(entries@) + entries_of(mv.skip(mv.len() as int)) =~= entries_view(
            entries@,
        ));
        assert(filters@ + filters_of(mv.skip(mv.len() as int)) =~= filters@);
        assert(entries_view(entries@) == entries_of(mv));
        assert(filters@ == filters_of(mv));
        lemma_entries_wf(mv, source@.len());
    }

    let ghost ev = entries_view(entries@);
    let ghost goal = spec_apply(rule@, mv, source@);
    let mut seen: Vec<SrcRange> = Vec::new();
    let mut out: Vec<RawDiagnostic> = Vec::new();
    let mut k: usize = 0;
    proof {
        assert(ev.skip(0) =~= ev);
        if emit(rule@, selected(ev, filters@, seen@), source@) is Ok {
            let rest = emit(rule@, selected(ev, filters@, seen@), source@)->Ok_0;
            assert(diags_view(out@) + rest =~= rest);
        }
        assert(seen@ =~= Seq::<SrcRange>::empty());
    }
    while k < entries.len()
        invariant
            0 <= k <= entries@.len(),
            mv == matches_view(ms@),
            ev == entries_view(entries@),
            goal == spec_apply(rule@, mv, source@),
            goal == emit(rule@, selected(ev, filters@, Seq::empty()), source@),
            forall|j: int| 0 <= j < ev.len() ==> wf_caps(#[trigger] ev[j].1, source@.len()),
            goal == (match emit(rule@, selected(ev.skip(k as int), filters@, seen@), source@) {
                Result::Ok(rest) => Result::Ok(diags_view(out@) + rest),
                Result::Err(e) => Result::Err(e),
            }),
        decreases entries@.len() - k,
    {
        proof {
            assert(ev.skip(k as int)[0] == ev[k as int]);
            assert(ev[k as int] == (entries@[k as int].0, entries@[k as int].1@.map_values(
                |c: Capture| c@,
            )));
            assert(ev.skip(k as int).drop_first() =~= ev.skip(k + 1 as int));
        }
        let rg = entries[k].0;
        if range_in(&filters, rg) || range_in(&seen, rg) {
            proof {
                assert(selected(ev.skip(k as int), filters@, seen@) == selected(
                    ev.skip(k + 1 as int),
                    filters@,
                    seen@,
                ));
            }
            k += 1;
        } else {
            proof {
                assert(selected(ev.skip(k as int), filters@, seen@) == seq![ev[k as int]]
                    + selected(ev.skip(k + 1 as int), filters@, seen@.push(ev[k as int].0)));
                assert(wf_caps(ev[k as int].1, source@.len()));
            }
            let desc = match render_description(&rule.description, &entries[k].1, source) {
                Result::Ok(d) => d,
                Result::Err(e) => {
                    proof {
                        let sel = selected(ev.skip(k as int), filters@, seen@);
                        assert(sel[0] == ev[k as int]);
                        assert(emit(rule@, sel, source@) == Result::<Seq<DiagModel>, ErrModel>::Err(
                            e@,
                        ));
                    }
                    return Result::Err(e);
                },
            };
            let ghost out0 = diags_view(out@);
            let ghost dm = DiagModel {
                rule: rule@.name,
                description: desc@,
                range: ev[k as int].0,
            };
            let d = RawDiagnostic {
                rule: copy_vec(&rule.name),
                description: desc,
                range: rg,
            };
            out.push(d);
            seen.push(rg);
            proof {
                assert(diags_view(out@) =~= out0.push(dm));
                let selk = selected(ev.skip(k + 1 as int), filters@, seen@);
                assert(emit(rule@, seq![ev[k as int]] + selk, source@) == (match spec_render(
                    rule@.description,
                    ev[k as int].1,
                    source@,
                    rule@.description,
                ) {
                    Result::Ok(dd) => match emit(rule@, (seq![ev[k as int]] + selk).drop_first(), source@) {
                        Result::Ok(rest) => Result::Ok(
                            seq![DiagModel { rule: rule@.name, description: dd, range: ev[k as int].0 }]
                                + rest,
                        ),
                        Result::Err(e) => Result::Err(e),
                    },
                    Result::Err(e) => Result::Err(e),
                })) by {
                    assert((seq![ev[k as int]] + selk)[0] == ev[k as int]);
                }
                assert((seq![ev[k as int]] + selk).drop_first() =~= selk);
                if emit(rule@, selk, source@) is Ok {
                    let rest = emit(rule@, selk, source@)->Ok_0;
                    assert(out0 + (seq![dm] + rest) =~= diags_view(out@) + rest);
                }
            }
            k += 1;
        }
    }
    proof {
        assert(ev.skip(ev.len() as int) =~= Seq::<(SrcRange, Seq<CaptureModel>)>::empty());
        assert(selected(Seq::<(SrcRange, Seq<CaptureModel>)>::empty(), filters@, seen@) =~= Seq::<
            (SrcRange, Seq<CaptureModel>),
        >::empty());
        assert(diags_view(out@) + Seq::<DiagModel>::empty() =~= diags_view(out@));
    }
    Result::Ok(out)
}

/// Applies one rule to the parsed source: compiles its pattern, requires the
/// `error` capture, runs the engine, and hands the matches to
/// `process_matches`.
pub fn apply_rule(
    rule: &Rule,
    lang: &tree_sitter::Language,
    tree: &tree_sitter::Tree,
    source: &Vec<u8>,
) -> (r: Result<Vec<RawDiagnostic>, Error>)
    requires
        tree_model(*tree).lang == *lang,
        tree_model(*tree).source == source@,
    ensures
        diags_result_view(r) == spec_rule_diags(rule@, *lang, source@),
{
    let q = match compile_query(lang, &rule.query) {
        Option::Some(q) => q,
        Option::None => {
            return Result::Err(Error::PatternCompile { rule: copy_vec(&rule.name) });
        },
    };
    let en = error_name_vec();
    if query_capture_index(&q, &en).is_none() {
        return Result::Err(Error::MissingErrorCapture { rule: copy_vec(&rule.name) });
    }
    let ms = run_query(&q, tree, source);
    process_matches(rule, &ms, source)
}

} // verus!
