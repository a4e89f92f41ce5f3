//! The data model: rules, source ranges, captures, matches, diagnostics and
//! the error taxonomy. All text is carried as bytes; the callers decode.

use vstd::prelude::*;

verus! {

/// How diagnostics are rendered: a rich annotated block, or a plain
/// line-and-excerpt block.
#[derive(Clone, Copy, PartialEq, Eq, Structural, Debug)]
pub enum OutputFormat {
    Pretty,
    Text,
}

impl Default for OutputFormat {
    fn default() -> (r: Self)
        ensures
            r == OutputFormat::Pretty,
    {
        OutputFormat::Pretty
    }
}

/// Options of one lint run.
#[derive(Clone, Copy, PartialEq, Eq, Structural, Debug)]
pub struct Config {
    pub format: OutputFormat,
}

impl Default for Config {
    fn default() -> (r: Self)
        ensures
            r == (Config { format: OutputFormat::Pretty }),
    {
        Config { format: OutputFormat::Pretty }
    }
}

/// A byte-and-position span of the source file. Used as the identity key for
/// suppression and deduplication (exact equality). Rows and columns are
/// zero-based.
#[derive(Clone, Copy, PartialEq, Eq, Structural, Debug)]
pub struct SrcRange {
    pub start_byte: usize,
    pub end_byte: usize,
    pub start_row: usize,
    pub start_col: usize,
    pub end_row: usize,
    pub end_col: usize,
}

/// One lint rule: a name, a description template, and the pattern text of the
/// structural query engine.
pub struct Rule {
    pub name: Vec<u8>,
    pub description: Vec<u8>,
    pub query: Vec<u8>,
}

/// The mathematical content of a `Rule`.
pub ghost struct RuleModel {
    pub name: Seq<u8>,
    pub description: Seq<u8>,
    pub query: Seq<u8>,
}

impl View for Rule {
    type V = RuleModel;

    open spec fn view(&self) -> RuleModel {
        RuleModel { name: self.name@, description: self.description@, query: self.query@ }
    }
}

/// One named capture of one match: the capture's name, the captured node's
/// range, and whether that node has a following named sibling in the tree.
pub struct Capture {
    pub name: Vec<u8>,
    pub range: SrcRange,
    pub has_next_named_sibling: bool,
}

/// The mathematical content of a `Capture`.
pub ghost struct CaptureModel {
    pub name: Seq<u8>,
    pub range: SrcRange,
    pub has_next_named_sibling: bool,
}

impl View for Capture {
    type V = CaptureModel;

    open spec fn view(&self) -> CaptureModel {
        CaptureModel {
            name: self.name@,
            range: self.range,
            has_next_named_sibling: self.has_next_named_sibling,
        }
    }
}

/// The view of a sequence of captures.
pub open spec fn caps_view(s: Seq<Capture>) -> Seq<CaptureModel> {
    s.map_values(|c: Capture| c@)
}

/// One match of a rule's pattern: its captures, in the engine's order.
pub struct Match {
    pub captures: Vec<Capture>,
}

impl View for Match {
    type V = Seq<CaptureModel>;

    open spec fn view(&self) -> Seq<CaptureModel> {
        caps_view(self.captures@)
    }
}

/// One reported finding: the rule that found it, its templated description,
/// and where it stands in the source.
pub struct RawDiagnostic {
    pub rule: Vec<u8>,
    pub description: Vec<u8>,
    pub range: SrcRange,
}

/// The mathematical content of a `RawDiagnostic`.
pub ghost struct DiagModel {
    pub rule: Seq<u8>,
    pub description: Seq<u8>,
    pub range: SrcRange,
}

impl View for RawDiagnostic {
    type V = DiagModel;

    open spec fn view(&self) -> DiagModel {
        DiagModel { rule: self.rule@, description: self.description@, range: self.range }
    }
}

/// Everything that aborts a lint run. A defective rule is a configuration
/// defect: no error is skipped or tolerated.
#[derive(Debug)]
pub enum Error {
    /// The rule's pattern text was rejected by the pattern engine.
    PatternCompile { rule: Vec<u8> },
    /// The rule's pattern exposes no capture named `error`, so it could never
    /// report anything.
    MissingErrorCapture { rule: Vec<u8> },
    /// The rule's description template mentions a capture that the match does
    /// not carry.
    TemplateCaptureNotFound { name: Vec<u8>, template: Vec<u8> },
    /// A capture's bytes are not valid text.
    TextDecoding,
}

/// The mathematical content of an `Error`.
pub ghost enum ErrModel {
    PatternCompile { rule: Seq<u8> },
    MissingErrorCapture { rule: Seq<u8> },
    TemplateCaptureNotFound { name: Seq<u8>, template: Seq<u8> },
    TextDecoding,
}

impl View for Error {
    type V = ErrModel;

    open spec fn view(&self) -> ErrModel {
        match self {
            Error::PatternCompile { rule } => ErrModel::PatternCompile { rule: rule@ },
            Error::MissingErrorCapture { rule } => ErrModel::MissingErrorCapture { rule: rule@ },
            Error::TemplateCaptureNotFound { name, template } => ErrModel::TemplateCaptureNotFound {
                name: name@,
                template: template@,
            },
            Error::TextDecoding => ErrModel::TextDecoding,
        }
    }
}

/// The view of a sequence of matches.
pub open spec fn matches_view(ms: Seq<Match>) -> Seq<Seq<CaptureModel>> {
    ms.map_values(|m: Match| m@)
}

/// The view of a vector of diagnostics.
pub open spec fn diags_view(ds: Seq<RawDiagnostic>) -> Seq<DiagModel> {
    ds.map_values(|d: RawDiagnostic| d@)
}

/// Copies the byte range `[a, b)` of `v` into a fresh vector.
pub fn copy_range(v: &Vec<u8>, a: usize, b: usize) -> (r: Vec<u8>)
    requires
        a <= b <= v@.len(),
    ensures
        r@ == v@.subrange(a as int, b as int),
{
    let mut r: Vec<u8> = Vec::new();
    let mut i: usize = a;
    while i < b
        invariant
            a <= i <= b <= v@.len(),
            r@ == v@.subrange(a as int, i as int),
        decreases b - i,
    {
        r.push(v[i]);
        assert(r@ =~= v@.subrange(a as int, i + 1 as int));
        i += 1;
    }
    r
}

/// Copies a byte vector.
pub fn copy_vec(v: &Vec<u8>) -> (r: Vec<u8>)
    ensures
        r@ == v@,
{
    let r = copy_range(v, 0, v.len());
    assert(v@.subrange(0, v@.len() as int) =~= v@);
    r
}


/// Copies a diagnostic.
pub fn dup_diag(d: &RawDiagnostic) -> (r: RawDiagnostic)
    ensures
        r@ == d@,
{
    RawDiagnostic {
        rule: copy_vec(&d.rule),
        description: copy_vec(&d.description),
        range: d.range,
    }
}

/// Byte-for-byte equality of two byte vectors.
pub fn bytes_eq(a: &Vec<u8>, b: &[u8]) -> (r: bool)
    ensures
        r == (a@ == b@),
{
    if a.len() != b.len() {
        assert(a@.len() != b@.len());
        return false;
    }
    let mut i: usize = 0;
    while i < a.len()
        invariant
            0 <= i <= a.len(),
            a.len() == b.len(),
            forall|k: int| 0 <= k < i ==> a@[k] == b@[k],
        decreases a.len() - i,
    {
        if a[i] != b[i] {
            assert(a@[i as int] != b@[i as int]);
            return false;
        }
        i += 1;
    }
    assert(a@ =~= b@);
    true
}

} // verus!
