//! The diagnostic aggregator.
//!
//! Diagnostics are concatenated across rules in catalog order, then sorted by
//! ascending start offset with a stable sort, so that diagnostics at the same
//! offset keep their catalog order. Any rule's error aborts the whole run.

use crate::applicator::{apply_rule, diags_result_view, spec_rule_diags};
use crate::diag::{DiagModel, ErrModel, Error, RawDiagnostic, Rule, RuleModel, diags_view};
use crate::engine::{TreeModel, lang_compatible, parse_source, tree_model};
use vstd::prelude::*;

verus! {

/// The view of a rule catalog.
pub open spec fn rules_view(rs: Seq<Rule>) -> Seq<RuleModel> {
    rs.map_values(|r: Rule| r@)
}

/// Concatenation of each rule's diagnostics, in catalog order; the first
/// failing rule aborts the run.
pub open spec fn spec_collect(
    rules: Seq<RuleModel>,
    lang: tree_sitter::Language,
    source: Seq<u8>,
) -> Result<Seq<DiagModel>, ErrModel>
    decreases rules.len(),
{
    if rules.len() == 0 {
        Result::Ok(Seq::empty())
    } else {
        match spec_rule_diags(rules[0], lang, source) {
            Result::Ok(ds) => match spec_collect(rules.drop_first(), lang, source) {
                Result::Ok(rest) => Result::Ok(ds + rest),
                Result::Err(e) => Result::Err(e),
            },
            Result::Err(e) => Result::Err(e),
        }
    }
}

/// Insertion of one diagnostic after every diagnostic whose start offset is
/// not greater: the stable insertion step.
pub open spec fn insert_sorted(d: DiagModel, s: Seq<DiagModel>) -> Seq<DiagModel>
    decreases s.len(),
{
    if s.len() == 0 {
        seq![d]
    } else if s[0].range.start_byte <= d.range.start_byte {
        seq![s[0]] + insert_sorted(d, s.drop_first())
    } else {
        seq![d] + s
    }
}

/// Stable sort by ascending start offset: each diagnostic, in order, inserted
/// into the sorted result.
pub open spec fn sort_diags(s: Seq<DiagModel>) -> Seq<DiagModel>
    decreases s.len(),
{
    if s.len() == 0 {
        Seq::empty()
    } else {
        insert_sorted(s.last(), sort_diags(s.drop_last()))
    }
}

/// The ordered diagnostic stream of one run: the concatenation across rules,
/// stably sorted.
pub open spec fn spec_ordered(
    rules: Seq<RuleModel>,
    lang: tree_sitter::Language,
    source: Seq<u8>,
) -> Result<Seq<DiagModel>, ErrModel> {
    match spec_collect(rules, lang, source) {
        Result::Ok(ds) => Result::Ok(sort_diags(ds)),
        Result::Err(e) => Result::Err(e),
    }
}

/// Inserting before the first strictly-greater start offset is what
/// `insert_sorted` does.
pub proof fn lemma_insert_sorted_at(d: DiagModel, s: Seq<DiagModel>, p: int)
    requires
        0 <= p <= s.len(),
        forall|i: int| 0 <= i < p ==> (#[trigger] s[i]).range.start_byte <= d.range.start_byte,
        p < s.len() ==> s[p].range.start_byte > d.range.start_byte,
    ensures
        insert_sorted(d, s) == s.insert(p, d),
    decreases p,
{
    if p == 0 {
        if s.len() == 0 {
            assert(insert_sorted(d, s) =~= s.insert(0, d));
        } else {
            assert(s[0].range.start_byte > d.range.start_byte);
            assert(seq![d] + s =~= s.insert(0, d));
        }
    } else {
        assert(s[0].range.start_byte <= d.range.start_byte);
        assert forall|i: int|
            0 <= i < p - 1 implies (#[trigger] s.drop_first()[i]).range.start_byte
            <= d.range.start_byte by {
            assert(s.drop_first()[i] == s[i + 1]);
        }
        if p - 1 < s.drop_first().len() {
            assert(s.drop_first()[p - 1] == s[p]);
        }
        lemma_insert_sorted_at(d, s.drop_first(), p - 1);
        assert(seq![s[0]] + s.drop_first().insert(p - 1, d) =~= s.insert(p, d));
    }
}

/// Inserts one diagnostic into an already-sorted vector, stably.
fn insert_diag(out: &mut Vec<RawDiagnostic>, d: RawDiagnostic)
    ensures
        diags_view(final(out)@) == insert_sorted(d@, diags_view(old(out)@)),
{
    let mut p: usize = 0;
    while p < out.len() && out[p].range.start_byte <= d.range.start_byte
        invariant
            0 <= p <= out@.len(),
            out@ == old(out)@,
            forall|i: int|
                0 <= i < p ==> (#[trigger] diags_view(out@)[i]).range.start_byte
                    <= d@.range.start_byte,
        decreases out@.len() - p,
    {
        assert(diags_view(out@)[p as int].range.start_byte <= d@.range.start_byte);
        p += 1;
    }
    proof {
        if p < out@.len() {
            assert(diags_view(out@)[p as int].range.start_byte > d@.range.start_byte);
        }
        lemma_insert_sorted_at(d@, diags_view(out@), p as int);
    }
    let ghost pre = diags_view(out@);
    out.insert(p, d);
    proof {
        assert(diags_view(out@) =~= pre.insert(p as int, d@));
    }
}

/// Sorts diagnostics by ascending start offset with a stable insertion sort.
/// The result is exactly `sort_diags` of the input.
pub fn sort_diagnostics(ds: Vec<RawDiagnostic>) -> (r: Vec<RawDiagnostic>)
    ensures
        diags_view(r@) == sort_diags(diags_view(ds@)),
{
    let ghost orig = diags_view(ds@);
    let mut out: Vec<RawDiagnostic> = Vec::new();
    proof {
        assert(orig.take(0) =~= Seq::<DiagModel>::empty());
        assert(diags_view(out@) =~= sort_diags(orig.take(0)));
    }
    let mut i: usize = 0;
    while i < ds.len()
        invariant
            0 <= i <= ds@.len(),
            orig == diags_view(ds@),
            diags_view(out@) == sort_diags(orig.take(i as int)),
        decreases ds@.len() - i,
    {
        let d = crate::diag::dup_diag(&ds[i]);
        let ghost pre = diags_view(out@);
        insert_diag(&mut out, d);
        proof {
            assert(orig.take(i + 1 as int).drop_last() =~= orig.take(i as int));
            assert(orig.take(i + 1 as int).last() == orig[i as int]);
            assert(diags_view(out@) == insert_sorted(orig[i as int], sort_diags(orig.take(
                i as int,
            ))));
        }
        i += 1;
    }
    proof {
        assert(orig.take(orig.len() as int) =~= orig);
    }
    out
}

/// Runs every rule of the catalog, in order, over the parsed source and
/// concatenates their diagnostics; the first failing rule aborts.
pub fn collect_diagnostics(
    lang: &tree_sitter::Language,
    rules: &Vec<Rule>,
    source: &Vec<u8>,
) -> (r: Result<Vec<RawDiagnostic>, Error>)
    requires
        lang_compatible(*lang),
    ensures
        diags_result_view(r) == spec_collect(rules_view(rules@), *lang, source@),
{
    let ghost rv = rules_view(rules@);
    let tree = parse_source(lang, source);
    let mut out: Vec<RawDiagnostic> = Vec::new();
    let mut i: usize = 0;
    proof {
        assert(rv.skip(0) =~= rv);
        if spec_collect(rv, *lang, source@) is Ok {
            let rest = spec_collect(rv, *lang, source@)->Ok_0;
            assert(diags_view(out@) + rest =~= rest);
        }
    }
    while i < rules.len()
        invariant
            0 <= i <= rules@.len(),
            rv == rules_view(rules@),
            tree_model(tree) == (TreeModel { lang: *lang, source: source@ }),
            spec_collect(rv, *lang, source@) == (match spec_collect(
                rv.skip(i as int),
                *lang,
                source@,
            ) {
                Result::Ok(rest) => Result::Ok(diags_view(out@) + rest),
                Result::Err(e) => Result::Err(e),
            }),
        decreases rules@.len() - i,
    {
        proof {
            assert(rv.skip(i as int)[0] == rv[i as int]);
            assert(rv[i as int] == rules@[i as int]@);
            assert(rv.skip(i as int).drop_first() =~= rv.skip(i + 1 as int));
        }
        let mut ds = match apply_rule(&rules[i], lang, &tree, source) {
            Result::Ok(ds) => ds,
            Result::Err(e) => {
                return Result::Err(e);
            },
        };
        let ghost out0 = diags_view(out@);
        let ghost dsv = diags_view(ds@);
        out.append(&mut ds);
        proof {
            assert(diags_view(out@) =~= out0 + dsv);
            if spec_collect(rv.skip(i + 1 as int), *lang, source@) is Ok {
                let rest = spec_collect(rv.skip(i + 1 as int), *lang, source@)->Ok_0;
                assert(out0 + (dsv + rest) =~= (out0 + dsv) + rest);
            }
        }
        i += 1;
    }
    proof {
        assert(rv.skip(rv.len() as int) =~= Seq::<RuleModel>::empty());
        assert(diags_view(out@) + Seq::<DiagModel>::empty() =~= diags_view(out@));
    }
    Result::Ok(out)
}

/// The ordered diagnostic stream of one run: every rule applied in catalog
/// order, the results concatenated and stably sorted by start offset.
pub fn ordered_diagnostics(
    lang: &tree_sitter::Language,
    rules: &Vec<Rule>,
    source: &Vec<u8>,
) -> (r: Result<Vec<RawDiagnostic>, Error>)
    requires
        lang_compatible(*lang),
    ensures
        diags_result_view(r) == spec_ordered(rules_view(rules@), *lang, source@),
{
    match collect_diagnostics(lang, rules, source) {
        Result::Ok(ds) => Result::Ok(sort_diagnostics(ds)),
        Result::Err(e) => Result::Err(e),
    }
}

} // verus!
