//! The laws of the pipeline, stated and proved once over the same spec
//! functions that the executable functions' contracts use: determinism of a
//! run, the missing-capture failure, within-rule deduplication, cross-rule
//! independence, suppression, the ordering of the stream, and the trailing
//! guard.

use crate::aggregate::{
    insert_sorted, lemma_insert_sorted_at, sort_diags, spec_collect, spec_ordered,
};
use crate::applicator::{
    discarded, emit, entries_of, error_name, filter_name, filters_of, ranges_named, selected,
    spec_apply, spec_rule_diags, trailing_name,
};
use crate::diag::{CaptureModel, DiagModel, ErrModel, RuleModel, SrcRange};
use crate::engine::{capture_index_of, compile_ok};
use vstd::prelude::*;

verus! {

/// A rule whose pattern compiles but exposes no `error` capture fails with
/// `MissingErrorCapture`, for any source text, before any diagnostic.
pub proof fn lemma_missing_error_capture(
    rule: RuleModel,
    lang: tree_sitter::Language,
    source: Seq<u8>,
)
    requires
        compile_ok(lang, rule.query),
        capture_index_of(lang, rule.query, error_name()) is None,
    ensures
        spec_rule_diags(rule, lang, source) == Result::<Seq<DiagModel>, ErrModel>::Err(
            ErrModel::MissingErrorCapture { rule: rule.name },
        ),
{
}

/// Identical `(rules, sourceText)` pairs yield identical ordered streams: the
/// stream is a function of the catalog, the grammar and the source alone.
pub proof fn lemma_idempotent(
    rules: Seq<RuleModel>,
    lang: tree_sitter::Language,
    source: Seq<u8>,
    r1: Result<Seq<DiagModel>, ErrModel>,
    r2: Result<Seq<DiagModel>, ErrModel>,
)
    requires
        r1 == spec_ordered(rules, lang, source),
        r2 == spec_ordered(rules, lang, source),
    ensures
        r1 == r2,
{
}

/// An empty catalog yields an empty ordered stream.
pub proof fn lemma_empty_catalog(lang: tree_sitter::Language, source: Seq<u8>)
    ensures
        spec_ordered(Seq::<RuleModel>::empty(), lang, source) == Result::<
            Seq<DiagModel>,
            ErrModel,
        >::Ok(Seq::<DiagModel>::empty()),
{
}

/// The emitted diagnostics carry exactly the selected ranges, in order.
proof fn lemma_emit_ranges(
    rule: RuleModel,
    sel: Seq<(SrcRange, Seq<CaptureModel>)>,
    source: Seq<u8>,
)
    ensures
        emit(rule, sel, source) matches Result::Ok(ds) ==> ds.len() == sel.len() && forall|k: int|
            0 <= k < sel.len() ==> (#[trigger] ds[k]).range == sel[k].0,
    decreases sel.len(),
{
    if sel.len() == 0 {
    } else {
        lemma_emit_ranges(rule, sel.drop_first(), source);
        if emit(rule, sel, source) is Ok {
            let ds = emit(rule, sel, source)->Ok_0;
            let rest = emit(rule, sel.drop_first(), source)->Ok_0;
            assert(ds[0].range == sel[0].0);
            assert forall|k: int| 0 <= k < sel.len() implies (#[trigger] ds[k]).range
                == sel[k].0 by {
                if k > 0 {
                    assert(ds[k] == rest[k - 1]);
                    assert(sel.drop_first()[k - 1] == sel[k]);
                }
            }
        }
    }
}

/// The selected candidates' ranges are neither suppressed nor seen, and are
/// pairwise distinct.
proof fn lemma_selected_props(
    entries: Seq<(SrcRange, Seq<CaptureModel>)>,
    filters: Seq<SrcRange>,
    seen: Seq<SrcRange>,
)
    ensures
        forall|k: int| 0 <= k < selected(entries, filters, seen).len() ==> !filters.contains(
            (#[trigger] selected(entries, filters, seen)[k]).0,
        ) && !seen.contains(selected(entries, filters, seen)[k].0),
        forall|i: int, j: int|
            0 <= i < j < selected(entries, filters, seen).len() ==> (#[trigger] selected(
                entries,
                filters,
                seen,
            )[i]).0 != (#[trigger] selected(entries, filters, seen)[j]).0,
    decreases entries.len(),
{
    if entries.len() == 0 {
    } else {
        let e = entries[0];
        let sel = selected(entries, filters, seen);
        if filters.contains(e.0) || seen.contains(e.0) {
            lemma_selected_props(entries.drop_first(), filters, seen);
            let tail = selected(entries.drop_first(), filters, seen);
            assert(sel == tail);
            assert forall|k: int| 0 <= k < sel.len() implies !filters.contains(
                (#[trigger] sel[k]).0,
            ) && !seen.contains(sel[k].0) by {
                assert(sel[k] == tail[k]);
            }
            assert forall|i: int, j: int| 0 <= i < j < sel.len() implies (#[trigger] sel[i]).0
                != (#[trigger] sel[j]).0 by {
                assert(sel[i] == tail[i]);
                assert(sel[j] == tail[j]);
            }
        } else {
            let seen2 = seen.push(e.0);
            let inner = selected(entries.drop_first(), filters, seen2);
            lemma_selected_props(entries.drop_first(), filters, seen2);
            assert(sel == seq![e] + inner);
            assert(seen2.contains(e.0)) by {
                assert(seen2[seen.len() as int] == e.0);
            }
            assert forall|k: int| 0 <= k < inner.len() implies !seen.contains(
                (#[trigger] inner[k]).0,
            ) && inner[k].0 != e.0 by {
                assert(!seen2.contains(inner[k].0));
                if seen.contains(inner[k].0) {
                    let w = choose|w: int| 0 <= w < seen.len() && seen[w] == inner[k].0;
                    assert(seen2[w] == inner[k].0);
                }
            }
            assert forall|k: int| 0 <= k < sel.len() implies !filters.contains(
                (#[trigger] sel[k]).0,
            ) && !seen.contains(sel[k].0) by {
                if k > 0 {
                    assert(sel[k] == inner[k - 1]);
                }
            }
            assert forall|i: int, j: int| 0 <= i < j < sel.len() implies (#[trigger] sel[i]).0
                != (#[trigger] sel[j]).0 by {
                if i == 0 {
                    assert(sel[j] == inner[j - 1]);
                } else {
                    assert(sel[i] == inner[i - 1]);
                    assert(sel[j] == inner[j - 1]);
                }
            }
        }
    }
}

/// Dedup law, within one rule: however many times the pattern matches the
/// same `error` range, the rule's diagnostics carry pairwise distinct ranges.
pub proof fn lemma_within_rule_dedup(
    rule: RuleModel,
    ms: Seq<Seq<CaptureModel>>,
    source: Seq<u8>,
)
    ensures
        spec_apply(rule, ms, source) matches Result::Ok(ds) ==> forall|i: int, j: int|
            0 <= i < j < ds.len() ==> (#[trigger] ds[i]).range != (#[trigger] ds[j]).range,
{
    lemma_selected_props(entries_of(ms), filters_of(ms), Seq::empty());
    lemma_emit_ranges(rule, selected(entries_of(ms), filters_of(ms), Seq::empty()), source);
}

/// Dedup law, across rules: two rules that both succeed each contribute their
/// own diagnostics to the catalog `[r1, r2]`, with no cross-rule
/// deduplication.
pub proof fn lemma_cross_rule_independence(
    r1: RuleModel,
    r2: RuleModel,
    lang: tree_sitter::Language,
    source: Seq<u8>,
    d1: Seq<DiagModel>,
    d2: Seq<DiagModel>,
)
    requires
        spec_rule_diags(r1, lang, source) == Result::<Seq<DiagModel>, ErrModel>::Ok(d1),
        spec_rule_diags(r2, lang, source) == Result::<Seq<DiagModel>, ErrModel>::Ok(d2),
    ensures
        spec_collect(seq![r1, r2], lang, source) == Result::<Seq<DiagModel>, ErrModel>::Ok(
            d1 + d2,
        ),
{
    let rs = seq![r1, r2];
    assert(rs.drop_first() =~= seq![r2]);
    assert(seq![r2].drop_first() =~= Seq::<RuleModel>::empty());
    assert(spec_collect(Seq::<RuleModel>::empty(), lang, source) == Result::<
        Seq<DiagModel>,
        ErrModel,
    >::Ok(Seq::<DiagModel>::empty()));
    assert(d2 + Seq::<DiagModel>::empty() =~= d2);
    assert(spec_collect(seq![r2], lang, source) == Result::<Seq<DiagModel>, ErrModel>::Ok(d2));
}

/// Suppression law: no emitted diagnostic of a rule carries a range equal to
/// any `filter` range captured by any match of that rule.
pub proof fn lemma_suppression(rule: RuleModel, ms: Seq<Seq<CaptureModel>>, source: Seq<u8>)
    ensures
        spec_apply(rule, ms, source) matches Result::Ok(ds) ==> forall|k: int|
            0 <= k < ds.len() ==> !filters_of(ms).contains((#[trigger] ds[k]).range),
{
    lemma_selected_props(entries_of(ms), filters_of(ms), Seq::empty());
    lemma_emit_ranges(rule, selected(entries_of(ms), filters_of(ms), Seq::empty()), source);
}

/// Ascending start offsets.
pub open spec fn sorted_by_start(s: Seq<DiagModel>) -> bool {
    forall|i: int, j: int|
        0 <= i <= j < s.len() ==> (#[trigger] s[i]).range.start_byte <= (#[trigger] s[j]).range.start_byte
}

/// Index of the first diagnostic whose start offset exceeds `x`, or the
/// length.
spec fn first_gt(s: Seq<DiagModel>, x: usize) -> int
    decreases s.len(),
{
    if s.len() == 0 {
        0
    } else if s[0].range.start_byte > x {
        0
    } else {
        1 + first_gt(s.drop_first(), x)
    }
}

proof fn lemma_first_gt(s: Seq<DiagModel>, x: usize)
    ensures
        0 <= first_gt(s, x) <= s.len(),
        forall|i: int| 0 <= i < first_gt(s, x) ==> (#[trigger] s[i]).range.start_byte <= x,
        first_gt(s, x) < s.len() ==> s[first_gt(s, x)].range.start_byte > x,
    decreases s.len(),
{
    if s.len() == 0 || s[0].range.start_byte > x {
    } else {
        lemma_first_gt(s.drop_first(), x);
        assert forall|i: int| 0 <= i < first_gt(s, x) implies (#[trigger] s[i]).range.start_byte
            <= x by {
            if i > 0 {
                assert(s.drop_first()[i - 1] == s[i]);
            }
        }
        if first_gt(s, x) < s.len() {
            assert(s.drop_first()[first_gt(s, x) - 1] == s[first_gt(s, x)]);
        }
    }
}

/// Stable insertion keeps the sequence sorted.
proof fn lemma_insert_sorted_sorted(d: DiagModel, s: Seq<DiagModel>)
    requires
        sorted_by_start(s),
    ensures
        sorted_by_start(insert_sorted(d, s)),
{
    let p = first_gt(s, d.range.start_byte);
    lemma_first_gt(s, d.range.start_byte);
    lemma_insert_sorted_at(d, s, p);
    let ins = insert_sorted(d, s);
    assert(ins =~= s.take(p) + seq![d] + s.skip(p));
    assert forall|i: int, j: int| 0 <= i <= j < ins.len() implies (#[trigger] ins[i]).range.start_byte
        <= (#[trigger] ins[j]).range.start_byte by {
        let li = if i < p {
            s[i]
        } else if i == p {
            d
        } else {
            s[i - 1]
        };
        let lj = if j < p {
            s[j]
        } else if j == p {
            d
        } else {
            s[j - 1]
        };
        assert(ins[i] == li);
        assert(ins[j] == lj);
    }
}

/// The ordered stream is sorted by ascending start offset.
pub proof fn lemma_sort_sorted(s: Seq<DiagModel>)
    ensures
        sorted_by_start(sort_diags(s)),
    decreases s.len(),
{
    if s.len() == 0 {
    } else {
        lemma_sort_sorted(s.drop_last());
        lemma_insert_sorted_sorted(s.last(), sort_diags(s.drop_last()));
    }
}

/// The diagnostics at one start offset, in their relative order.
pub open spec fn at_offset(s: Seq<DiagModel>, b: usize) -> Seq<DiagModel>
    decreases s.len(),
{
    if s.len() == 0 {
        Seq::empty()
    } else {
        (if s[0].range.start_byte == b {
            seq![s[0]]
        } else {
            Seq::empty()
        }) + at_offset(s.drop_first(), b)
    }
}

proof fn lemma_at_offset_add(a: Seq<DiagModel>, c: Seq<DiagModel>, b: usize)
    ensures
        at_offset(a + c, b) == at_offset(a, b) + at_offset(c, b),
    decreases a.len(),
{
    if a.len() == 0 {
        assert(a + c =~= c);
        assert(at_offset(a, b) + at_offset(c, b) =~= at_offset(c, b));
    } else {
        assert((a + c).drop_first() =~= a.drop_first() + c);
        assert((a + c)[0] == a[0]);
        lemma_at_offset_add(a.drop_first(), c, b);
        let head: Seq<DiagModel> = if a[0].range.start_byte == b {
            seq![a[0]]
        } else {
            Seq::empty()
        };
        assert(at_offset(a + c, b) == head + (at_offset(a.drop_first(), b) + at_offset(c, b)));
        assert(head + (at_offset(a.drop_first(), b) + at_offset(c, b)) =~= (head + at_offset(
            a.drop_first(),
            b,
        )) + at_offset(c, b));
    }
}

proof fn lemma_at_offset_single(d: DiagModel, b: usize)
    ensures
        at_offset(seq![d], b) == (if d.range.start_byte == b {
            seq![d]
        } else {
            Seq::<DiagModel>::empty()
        }),
{
    assert(seq![d].drop_first() =~= Seq::<DiagModel>::empty());
    assert(at_offset(Seq::<DiagModel>::empty(), b) == Seq::<DiagModel>::empty());
    if d.range.start_byte == b {
        assert(at_offset(seq![d], b) =~= seq![d]);
    } else {
        assert(at_offset(seq![d], b) =~= Seq::<DiagModel>::empty());
    }
}

proof fn lemma_at_offset_none(s: Seq<DiagModel>, b: usize)
    requires
        forall|k: int| 0 <= k < s.len() ==> (#[trigger] s[k]).range.start_byte != b,
    ensures
        at_offset(s, b) == Seq::<DiagModel>::empty(),
    decreases s.len(),
{
    if s.len() == 0 {
    } else {
        assert forall|k: int| 0 <= k < s.drop_first().len() implies (#[trigger] s.drop_first()[
            k
        ]).range.start_byte != b by {
            assert(s.drop_first()[k] == s[k + 1]);
        }
        lemma_at_offset_none(s.drop_first(), b);
        assert(at_offset(s, b) =~= Seq::<DiagModel>::empty());
    }
}

/// Stable insertion appends to its own offset class and leaves every other
/// class unchanged.
proof fn lemma_insert_at_offset(d: DiagModel, s: Seq<DiagModel>, b: usize)
    requires
        sorted_by_start(s),
    ensures
        d.range.start_byte == b ==> at_offset(insert_sorted(d, s), b) == at_offset(s, b).push(d),
        d.range.start_byte != b ==> at_offset(insert_sorted(d, s), b) == at_offset(s, b),
{
    let p = first_gt(s, d.range.start_byte);
    lemma_first_gt(s, d.range.start_byte);
    lemma_insert_sorted_at(d, s, p);
    let ins = insert_sorted(d, s);
    let tail = seq![d] + s.skip(p);
    assert(ins =~= s.take(p) + tail);
    lemma_at_offset_add(s.take(p), tail, b);
    lemma_at_offset_add(seq![d], s.skip(p), b);
    lemma_at_offset_single(d, b);
    assert(s =~= s.take(p) + s.skip(p));
    lemma_at_offset_add(s.take(p), s.skip(p), b);
    if d.range.start_byte == b {
        assert forall|k: int| 0 <= k < s.skip(p).len() implies (#[trigger] s.skip(p)[
            k
        ]).range.start_byte != b by {
            assert(s.skip(p)[k] == s[p + k]);
            assert(s[p].range.start_byte > d.range.start_byte);
            assert(s[p].range.start_byte <= s[p + k].range.start_byte);
        }
        lemma_at_offset_none(s.skip(p), b);
        assert(at_offset(seq![d], b) =~= seq![d]);
        assert(at_offset(ins, b) =~= at_offset(s, b).push(d));
    } else {
        assert(at_offset(seq![d], b) =~= Seq::<DiagModel>::empty());
        assert(at_offset(tail, b) =~= at_offset(s.skip(p), b));
        assert(at_offset(ins, b) =~= at_offset(s, b));
    }
}

/// Ordering law, ties: sorting preserves each offset class, so diagnostics at
/// one start offset keep the order in which the catalog produced them.
pub proof fn lemma_sort_stable(s: Seq<DiagModel>, b: usize)
    ensures
        at_offset(sort_diags(s), b) == at_offset(s, b),
    decreases s.len(),
{
    if s.len() == 0 {
    } else {
        lemma_sort_stable(s.drop_last(), b);
        lemma_sort_sorted(s.drop_last());
        lemma_insert_at_offset(s.last(), sort_diags(s.drop_last()), b);
        assert(s =~= s.drop_last() + seq![s.last()]);
        lemma_at_offset_add(s.drop_last(), seq![s.last()], b);
        lemma_at_offset_single(s.last(), b);
        if s.last().range.start_byte == b {
            assert(at_offset(seq![s.last()], b) =~= seq![s.last()]);
            assert(at_offset(s.drop_last(), b).push(s.last()) =~= at_offset(s.drop_last(), b)
                + seq![s.last()]);
        } else {
            assert(at_offset(seq![s.last()], b) =~= Seq::<DiagModel>::empty());
            assert(at_offset(s.drop_last(), b) + Seq::<DiagModel>::empty() =~= at_offset(
                s.drop_last(),
                b,
            ));
        }
    }
}

/// Ordering law: the ordered stream is sorted by start offset, and within one
/// offset it is the concatenation order of the catalog.
pub proof fn lemma_ordering_law(
    rules: Seq<RuleModel>,
    lang: tree_sitter::Language,
    source: Seq<u8>,
    b: usize,
)
    ensures
        spec_ordered(rules, lang, source) matches Result::Ok(ds) ==> sorted_by_start(ds),
        spec_ordered(rules, lang, source) is Ok ==> at_offset(
            spec_ordered(rules, lang, source)->Ok_0,
            b,
        ) == at_offset(spec_collect(rules, lang, source)->Ok_0, b),
{
    if spec_collect(rules, lang, source) is Ok {
        let cs = spec_collect(rules, lang, source)->Ok_0;
        lemma_sort_sorted(cs);
        lemma_sort_stable(cs, b);
    }
}

/// The captures of a match that are not `error` captures.
pub open spec fn without_error_caps(m: Seq<CaptureModel>) -> Seq<CaptureModel>
    decreases m.len(),
{
    if m.len() == 0 {
        Seq::empty()
    } else {
        (if m[0].name == error_name() {
            Seq::empty()
        } else {
            seq![m[0]]
        }) + without_error_caps(m.drop_first())
    }
}

proof fn lemma_without_keeps(m: Seq<CaptureModel>)
    ensures
        forall|k: int|
            0 <= k < m.len() && (#[trigger] m[k]).name != error_name() ==> without_error_caps(
                m,
            ).contains(m[k]),
    decreases m.len(),
{
    if m.len() == 0 {
    } else {
        lemma_without_keeps(m.drop_first());
        let w = without_error_caps(m);
        let head: Seq<CaptureModel> = if m[0].name == error_name() {
            Seq::empty()
        } else {
            seq![m[0]]
        };
        assert forall|k: int|
            0 <= k < m.len() && (#[trigger] m[k]).name != error_name() implies w.contains(
            m[k],
        ) by {
            if k == 0 {
                assert(w[0] == m[0]);
            } else {
                assert(m.drop_first()[k - 1] == m[k]);
                assert(without_error_caps(m.drop_first()).contains(m[k]));
                let j = choose|j: int|
                    0 <= j < without_error_caps(m.drop_first()).len() && without_error_caps(
                        m.drop_first(),
                    )[j] == m[k];
                assert(w[head.len() + j] == m[k]);
            }
        }
    }
}

proof fn lemma_without_ranges(m: Seq<CaptureModel>, name: Seq<u8>)
    requires
        name != error_name(),
    ensures
        ranges_named(without_error_caps(m), name) == ranges_named(m, name),
    decreases m.len(),
{
    if m.len() == 0 {
    } else {
        lemma_without_ranges(m.drop_first(), name);
        let w = without_error_caps(m);
        if m[0].name == error_name() {
            assert(w =~= without_error_caps(m.drop_first()));
        } else {
            assert(w[0] == m[0]);
            assert(w.drop_first() =~= without_error_caps(m.drop_first()));
            assert(ranges_named(w, name) =~= ranges_named(m, name));
        }
    }
}

proof fn lemma_without_discarded(m: Seq<CaptureModel>)
    requires
        discarded(m),
    ensures
        discarded(without_error_caps(m)),
{
    let k = choose|k: int|
        0 <= k < m.len() && m[k].name == trailing_name() && m[k].has_next_named_sibling;
    assert(trailing_name().len() == 8);
    assert(error_name().len() == 5);
    lemma_without_keeps(m);
    assert(without_error_caps(m).contains(m[k]));
    let j = choose|j: int|
        0 <= j < without_error_caps(m).len() && without_error_caps(m)[j] == m[k];
    assert(without_error_caps(m)[j].name == trailing_name());
}

proof fn lemma_strip_preserves(ms: Seq<Seq<CaptureModel>>, i: int)
    requires
        0 <= i < ms.len(),
        discarded(ms[i]),
    ensures
        entries_of(ms.update(i, without_error_caps(ms[i]))) == entries_of(ms),
        filters_of(ms.update(i, without_error_caps(ms[i]))) == filters_of(ms),
    decreases ms.len(),
{
    let ms2 = ms.update(i, without_error_caps(ms[i]));
    if i == 0 {
        assert(ms2[0] == without_error_caps(ms[0]));
        lemma_without_discarded(ms[0]);
        assert(ms2.drop_first() =~= ms.drop_first());
        assert(filter_name().len() == 6);
        assert(error_name().len() == 5);
        lemma_without_ranges(ms[0], filter_name());
        assert(entries_of(ms2) =~= entries_of(ms));
        assert(filters_of(ms2) =~= filters_of(ms));
    } else {
        assert(ms2[0] == ms[0]);
        assert(ms.drop_first()[i - 1] == ms[i]);
        assert(ms2.drop_first() =~= ms.drop_first().update(i - 1, without_error_caps(ms[i])));
        lemma_strip_preserves(ms.drop_first(), i - 1);
        assert(entries_of(ms2) =~= entries_of(ms));
        assert(filters_of(ms2) =~= filters_of(ms));
    }
}

/// Trailing guard: a match whose `trailing` capture's node has a following
/// named sibling contributes no diagnostic — removing its `error` captures
/// changes nothing (its `filter` captures still count toward suppression).
pub proof fn lemma_trailing_guard(
    rule: RuleModel,
    ms: Seq<Seq<CaptureModel>>,
    source: Seq<u8>,
    i: int,
)
    requires
        0 <= i < ms.len(),
        discarded(ms[i]),
    ensures
        spec_apply(rule, ms.update(i, without_error_caps(ms[i])), source) == spec_apply(
            rule,
            ms,
            source,
        ),
{
    lemma_strip_preserves(ms, i);
}

} // verus!
