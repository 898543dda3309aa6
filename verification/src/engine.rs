//! The finding model every frontend renders, and the run-level decisions made over
//! it: the triage presentation order, the confidence floor, the baseline partition,
//! the diff-mode delta, and the plugin severity channel.

use vstd::prelude::*;

use crate::fx::{str_ids, str_ids_get};
use crate::graph::plugin_round::{decimal, decimal_text, file_path_index, last_file, path_table};
use crate::graph::assemble::{core_dirname, dirname};
use crate::graph::{PackageNode, ProjectGraph};
use crate::graph::key::{ascending_by, sort_by_view, total_order};
use crate::text::{
    compare_str, join2, lemma_lex_antisymmetric, lemma_lex_total, lemma_lex_transitive, owned, seq_lex_le,
    seq_lex_lt, str_eq, views, Comparison,
};
use crate::gitutil::GitError;
use crate::vocab::{pos_le, position_le, Confidence, Diagnostic, DiagnosticLevel, ProjectPath, Span};

verus! {

/// Mirrors the output schema's `schema_version`.
pub const SCHEMA_VERSION: &'static str = "1.0.0";

/// What a frontend may override for one engine.
#[derive(Debug, Clone)]
pub struct ConfigOverrides {
    /// `--no-cache` clears this; it must never change findings, only warmth.
    pub use_cache: bool,
    /// Worker threads; `None` means physical cores.
    pub threads: Option<usize>,
    /// The report floor override; `None` defers to the project configuration.
    pub min_confidence: Option<Confidence>,
}

impl Default for ConfigOverrides {
    fn default() -> (r: Self)
        ensures
            r.use_cache,
            r.threads is None,
            r.min_confidence is None,
    {
        ConfigOverrides { use_cache: true, threads: None, min_confidence: None }
    }
}

#[derive(Debug)]
pub enum EngineError {
    /// The project root does not exist or is not a directory.
    ProjectRootNotFound(String),
}

/// Which tree states a check compares.
#[derive(Debug, Clone)]
pub enum RunMode {
    Full,
    Staged,
    Diff { base: String },
}

/// The name a run mode is reported under.
pub open spec fn mode_name(m: RunMode) -> Seq<char> {
    match m {
        RunMode::Full => "full"@,
        RunMode::Staged => "staged"@,
        RunMode::Diff { .. } => "diff"@,
    }
}

impl RunMode {
    pub fn as_str(&self) -> (r: &'static str)
        ensures
            r@ == mode_name(*self),
    {
        match self {
            RunMode::Full => "full",
            RunMode::Staged => "staged",
            RunMode::Diff { .. } => "diff",
        }
    }

    /// The diff base, for `Diff` alone.
    pub fn base_ref(&self) -> (r: Option<String>)
        ensures
            match *self {
                RunMode::Diff { base } => r is Some && r->0@ == base@,
                _ => r is None,
            },
    {
        match self {
            RunMode::Diff { base } => Some(crate::text::owned(base.as_str())),
            _ => None,
        }
    }
}

#[derive(Debug)]
pub struct CheckRequest {
    pub mode: RunMode,
}

/// `Create` refuses when a baseline already exists; `Update` always rewrites it.
#[derive(Debug, Clone, Copy, PartialEq, Eq, Structural)]
pub enum BaselineOp {
    Create,
    Update,
}

#[derive(Debug, Clone)]
pub enum BaselineResult {
    Written { acknowledged: usize },
    AlreadyExists,
    WriteFailed(String),
}

/// One registered adapter, as the doctor report shows it.
#[derive(Debug, Clone)]
pub struct DoctorAdapterInfo {
    pub id: String,
    pub grammar_version: String,
    pub file_globs: Vec<String>,
    pub manifest_globs: Vec<String>,
    pub activation: Vec<String>,
    pub dependencies: Vec<String>,
}

/// The doctor report's cache section.
#[derive(Debug, Clone, Copy)]
pub struct DoctorCacheInfo {
    pub writable: bool,
    pub facts_entries: usize,
    pub facts_bytes: u64,
    pub graph_snapshots: usize,
    pub graph_snapshot_bytes: u64,
}

/// One registered plugin, as the doctor report shows it.
#[derive(Debug, Clone)]
pub struct DoctorPluginInfo {
    pub id: String,
    pub version: String,
    pub detection: Vec<String>,
    pub activation: Vec<String>,
    pub dependencies: Vec<String>,
    pub requested_file_access: Vec<String>,
    pub rules: Vec<String>,
}

/// One plugin's resolved contributions in the last recorded round.
#[derive(Debug, Clone)]
pub struct PluginContribution {
    pub id: String,
    pub roots: u32,
    pub edges: u32,
    pub annotations: u32,
    pub dropped: Vec<String>,
}

/// Everything detected about a project, without running a check.
#[derive(Debug, Clone)]
pub struct DoctorReport {
    pub project_root: String,
    pub adapters: Vec<DoctorAdapterInfo>,
    pub plugins: Vec<DoctorPluginInfo>,
    pub cache_enabled: bool,
    pub cache: Option<DoctorCacheInfo>,
    pub plugin_contributions: Vec<PluginContribution>,
    pub baseline_present: bool,
    pub baseline_entries: usize,
}

/// A finding's severity; declaration order is triage order, worst first.
#[derive(Debug, Clone, Copy, PartialEq, Eq, Structural)]
pub enum Severity {
    Error,
    Warning,
    Info,
}

impl Severity {
    /// Position in triage order, worst first.
    pub open spec fn spec_rank(self) -> u8 {
        match self {
            Severity::Error => 0,
            Severity::Warning => 1,
            Severity::Info => 2,
        }
    }

    #[verifier::when_used_as_spec(spec_rank)]
    pub fn rank(self) -> (r: u8)
        ensures
            r == self.spec_rank(),
    {
        match self {
            Severity::Error => 0,
            Severity::Warning => 1,
            Severity::Info => 2,
        }
    }
}

/// Where a finding points; every field is optional.
#[derive(Debug, Clone)]
pub struct Location {
    pub path: Option<ProjectPath>,
    pub range: Option<Span>,
    pub symbol: Option<String>,
    pub package: Option<String>,
}

/// A finding's place in a diff-mode delta.
#[derive(Debug, Clone, Copy, PartialEq, Eq, Structural)]
pub enum Delta {
    New,
    Fixed,
}

/// Whether a new finding sits inside the change set or was flipped at a distance.
#[derive(Debug, Clone, Copy, PartialEq, Eq, Structural)]
pub enum DeltaOrigin {
    Introduced,
    Derived,
}

/// One entry of a finding's evidence chain.
#[derive(Debug, Clone)]
pub struct RelatedLocation {
    pub role: String,
    pub path: ProjectPath,
    pub range: Option<Span>,
    pub note: Option<String>,
}

/// Which family of problem a finding belongs to.
#[derive(Debug, Clone, Copy, PartialEq, Eq, Structural)]
pub enum Group {
    Waste,
    Structure,
    Hygiene,
    Convention,
}

/// One reported problem.
#[derive(Debug, Clone)]
pub struct Finding {
    pub id: String,
    pub category: String,
    pub group: Group,
    pub subject_kind: String,
    pub severity: Severity,
    pub confidence: Confidence,
    pub message: String,
    pub location: Location,
    pub related: Vec<RelatedLocation>,
    pub delta: Option<Delta>,
    pub delta_origin: Option<DeltaOrigin>,
    /// Never influences exit codes or budgets, whatever its severity.
    pub advisory: bool,
}

/// The path a finding sorts under: its location's path, or the empty string.
pub open spec fn path_key(f: Finding) -> Seq<char> {
    match f.location.path {
        Some(p) => p.0@,
        None => Seq::empty(),
    }
}

/// The position a finding sorts under: its range's start, or `(0, 0)`.
pub open spec fn span_key(f: Finding) -> (u32, u32) {
    match f.location.range {
        Some(r) => r.start,
        None => (0, 0),
    }
}

/// Triage order puts errors before warnings before infos.
pub proof fn lemma_triage_order_worst_first()
    ensures
        Severity::Error.spec_rank() < Severity::Warning.spec_rank(),
        Severity::Warning.spec_rank() < Severity::Info.spec_rank(),
{
}

/// In triage presentation order every error comes before every finding that is not an
/// error, and every info after every finding that is not an info.
pub proof fn lemma_display_order_errors_first(s: Seq<&Finding>)
    requires
        display_sorted(s),
    ensures
        forall|i: int, j: int|
            #![trigger s[i], s[j]] 0 <= i < j < s.len() && s[j].severity == Severity::Error ==> s[i].severity == Severity::Error,
        forall|i: int, j: int|
            #![trigger s[i], s[j]] 0 <= i < j < s.len() && s[i].severity == Severity::Info ==> s[j].severity == Severity::Info,
{
    assert forall|i: int, j: int|
        #![trigger s[i], s[j]] 0 <= i < j < s.len() && s[j].severity == Severity::Error implies s[i].severity == Severity::Error by {
        assert(display_le(*s[i], *s[j]));
    }
    assert forall|i: int, j: int|
        #![trigger s[i], s[j]] 0 <= i < j < s.len() && s[i].severity == Severity::Info implies s[j].severity == Severity::Info by {
        assert(display_le(*s[i], *s[j]));
    }
}

/// The triage presentation order: severity (worst first), then path, then span start.
pub open spec fn display_le(a: Finding, b: Finding) -> bool {
    a.severity.spec_rank() < b.severity.spec_rank() || (a.severity.spec_rank()
        == b.severity.spec_rank() && ((seq_lex_le(path_key(a), path_key(b)) && path_key(a)
        != path_key(b)) || (path_key(a) == path_key(b) && pos_le(span_key(a), span_key(b)))))
}

/// A sequence of findings in triage presentation order.
pub open spec fn display_sorted(s: Seq<&Finding>) -> bool {
    forall|i: int, j: int| 0 <= i < j < s.len() ==> display_le(*s[i], *s[j])
}

proof fn lemma_display_total(a: Finding, b: Finding)
    ensures
        display_le(a, b) || display_le(b, a),
{
    crate::text::lemma_lex_total(path_key(a), path_key(b));
}

proof fn lemma_display_transitive(a: Finding, b: Finding, c: Finding)
    requires
        display_le(a, b),
        display_le(b, c),
    ensures
        display_le(a, c),
{
    let (pa, pb, pc) = (path_key(a), path_key(b), path_key(c));
    if seq_lex_le(pa, pb) && seq_lex_le(pb, pc) {
        crate::text::lemma_lex_transitive(pa, pb, pc);
    }
    if seq_lex_le(pa, pb) && seq_lex_le(pb, pc) && pa == pc && pa != pb {
        crate::text::lemma_lex_antisymmetric(pa, pb);
    }
}

fn path_key_of(f: &Finding) -> (r: &str)
    ensures
        r@ == path_key(*f),
{
    match &f.location.path {
        Some(p) => p.0.as_str(),
        None => {
            proof {
                reveal_strlit("");
            }
            ""
        },
    }
}

fn span_key_of(f: &Finding) -> (r: (u32, u32))
    ensures
        r == span_key(*f),
{
    match f.location.range {
        Some(r) => r.start,
        None => (0, 0),
    }
}

/// Whether `a` may precede `b` in triage order.
fn display_le_exec(a: &Finding, b: &Finding) -> (r: bool)
    ensures
        r == display_le(*a, *b),
{
    let (ra, rb) = (a.severity.rank(), b.severity.rank());
    if ra != rb {
        return ra < rb;
    }
    let pa = path_key_of(a);
    let pb = path_key_of(b);
    proof {
        assert(""@.len() == 0) by {
            reveal_strlit("");
        }
        if a.location.path is None {
            assert(pa@ =~= Seq::<char>::empty());
        }
        if b.location.path is None {
            assert(pb@ =~= Seq::<char>::empty());
        }
    }
    match compare_str(pa, pb) {
        Comparison::Less => true,
        Comparison::Greater => false,
        Comparison::Equal => position_le(span_key_of(a), span_key_of(b)),
    }
}

proof fn lemma_swap_multiset<T>(s: Seq<T>, j: int)
    requires
        0 < j < s.len(),
    ensures
        s.update(j - 1, s[j]).update(j, s[j - 1]).to_multiset() =~= s.to_multiset(),
{
    let t = s.update(j - 1, s[j]).update(j, s[j - 1]);
    let a = s.subrange(0, j - 1);
    let b = s.subrange(j + 1, s.len() as int);
    assert(s =~= a + seq![s[j - 1], s[j]] + b);
    assert(t =~= a + seq![s[j], s[j - 1]] + b);
    vstd::seq_lib::lemma_multiset_commutative(a + seq![s[j - 1], s[j]], b);
    vstd::seq_lib::lemma_multiset_commutative(a + seq![s[j], s[j - 1]], b);
    vstd::seq_lib::lemma_multiset_commutative(a, seq![s[j - 1], s[j]]);
    vstd::seq_lib::lemma_multiset_commutative(a, seq![s[j], s[j - 1]]);
    vstd::seq_lib::lemma_seq_union_to_multiset_commutative(seq![s[j - 1]], seq![s[j]]);
    assert(seq![s[j - 1], s[j]] =~= seq![s[j - 1]] + seq![s[j]]);
    assert(seq![s[j], s[j - 1]] =~= seq![s[j]] + seq![s[j - 1]]);
}

/// Whether `after` is `before` rearranged by `pos` (`after[p]` is `before[pos[p]]`)
/// with findings tied in triage order kept in their input order.
pub open spec fn stable_arrangement(after: Seq<&Finding>, before: Seq<&Finding>, pos: Seq<int>) -> bool {
    &&& pos.len() == after.len() == before.len()
    &&& forall|p: int| 0 <= p < pos.len() ==> 0 <= #[trigger] pos[p] < before.len() && after[p] == before[pos[p]]
    &&& forall|p: int, q: int| 0 <= p < q < pos.len() ==> #[trigger] pos[p] != #[trigger] pos[q]
    &&& forall|p: int, q: int|
        0 <= p < q < pos.len() && display_le(*after[q], *after[p]) ==> #[trigger] pos[p] < #[trigger] pos[q]
}

/// The shared triage presentation order — severity (worst first), then path, then
/// span start. Sorting keeps the findings (as a multiset), leaves them ordered, and
/// keeps findings tied on that order in their input order.
pub fn sort_findings_for_display(findings: &mut [&Finding])
    ensures
        final(findings)@.to_multiset() == old(findings)@.to_multiset(),
        display_sorted(final(findings)@),
        exists|pos: Seq<int>| #[trigger] stable_arrangement(final(findings)@, old(findings)@, pos),
        forall|i: int, j: int|
            #![trigger final(findings)@[i], final(findings)@[j]]
            0 <= i < j < final(findings)@.len() && final(findings)@[j].severity == Severity::Error
                ==> final(findings)@[i].severity == Severity::Error,
        forall|i: int, j: int|
            #![trigger final(findings)@[i], final(findings)@[j]]
            0 <= i < j < final(findings)@.len() && final(findings)@[i].severity == Severity::Info
                ==> final(findings)@[j].severity == Severity::Info,
{
    let n = findings.len();
    let ghost start = findings@;
    let ghost mut pos: Seq<int> = Seq::new(n as nat, |x: int| x);
    let mut i: usize = 1;
    if n == 0 {
        proof {
            assert(stable_arrangement(findings@, start, pos));
        lemma_display_order_errors_first(findings@);
        }
        return ;
    }
    while i < n
        invariant
            n == findings@.len(),
            1 <= i <= n,
            start == old(findings)@,
            findings@.to_multiset() == old(findings)@.to_multiset(),
            forall|p: int, q: int|
                0 <= p < q < i ==> display_le(*findings@[p], *findings@[q]),
            pos.len() == n,
            forall|p: int| 0 <= p < n ==> 0 <= #[trigger] pos[p] < n && findings@[p] == start[pos[p]],
            forall|p: int| i <= p < n ==> #[trigger] pos[p] == p,
            forall|p: int| 0 <= p < i ==> #[trigger] pos[p] < i,
            forall|p: int, q: int| 0 <= p < q < n ==> #[trigger] pos[p] != #[trigger] pos[q],
            forall|p: int, q: int|
                0 <= p < q < i && display_le(*findings@[q], *findings@[p]) ==> #[trigger] pos[p] < #[trigger] pos[q],
        decreases n - i,
    {
        let mut j: usize = i;
        while j > 0 && !display_le_exec(findings[j - 1], findings[j])
            invariant
                n == findings@.len(),
                1 <= i < n,
                j <= i,
                start == old(findings)@,
                findings@.to_multiset() == old(findings)@.to_multiset(),
                // the prefix before the moving element is ordered
                forall|p: int, q: int|
                    0 <= p < q < j ==> display_le(*findings@[p], *findings@[q]),
                // the run after it is ordered
                forall|p: int, q: int|
                    j < p < q <= i ==> display_le(*findings@[p], *findings@[q]),
                // everything before it precedes everything after it
                forall|p: int, q: int|
                    0 <= p < j && j < q <= i ==> display_le(*findings@[p], *findings@[q]),
                // everything after it strictly follows it
                forall|q: int|
                    j < q <= i ==> !display_le(*findings@[q], *findings@[j as int]),
                pos.len() == n,
                forall|p: int| 0 <= p < n ==> 0 <= #[trigger] pos[p] < n && findings@[p] == start[pos[p]],
                forall|p: int| i < p < n ==> #[trigger] pos[p] == p,
                pos[j as int] == i,
                forall|p: int| 0 <= p <= i && p != j ==> #[trigger] pos[p] < i,
                forall|p: int, q: int| 0 <= p < q < n ==> #[trigger] pos[p] != #[trigger] pos[q],
                forall|p: int, q: int|
                    0 <= p < q <= i && display_le(*findings@[q], *findings@[p]) ==> #[trigger] pos[p] < #[trigger] pos[q],
            decreases j,
        {
            let ghost before = findings@;
            let ghost pos_before = pos;
            let a = findings[j - 1];
            let b = findings[j];
            findings[j - 1] = b;
            findings[j] = a;
            proof {
                pos = pos.update(j - 1, pos_before[j as int]).update(j as int, pos_before[j - 1]);
                assert(findings@ =~= before.update(j - 1, before[j as int]).update(
                    j as int,
                    before[j - 1],
                ));
                lemma_swap_multiset(before, j as int);
                assert forall|p: int, q: int| j - 1 < p < q <= i implies display_le(
                    *findings@[p],
                    *findings@[q],
                ) by {
                    if p == j {
                        lemma_display_total(*before[j - 1], *before[j as int]);
                        if q > j {
                            assert(display_le(*before[j - 1], *before[q]));
                        }
                    }
                }
                assert forall|q: int| j - 1 < q <= i implies !display_le(
                    *#[trigger] findings@[q],
                    *findings@[j - 1],
                ) by {
                    if q > j {
                        if display_le(*before[q], *before[j as int]) {
                        }
                    }
                }
                assert forall|p: int, q: int| 0 <= p < q < n implies #[trigger] pos[p] != #[trigger] pos[q] by {
                    let pp = if p == j - 1 { j as int } else if p == j { j - 1 } else { p };
                    let qq = if q == j - 1 { j as int } else if q == j { j - 1 } else { q };
                    assert(pos[p] == pos_before[pp] && pos[q] == pos_before[qq]);
                    if pp < qq {
                        assert(pos_before[pp] != pos_before[qq]);
                    } else {
                        assert(pos_before[qq] != pos_before[pp]);
                    }
                }
                assert forall|p: int, q: int|
                    0 <= p < q <= i && display_le(*findings@[q], *findings@[p]) implies #[trigger] pos[p] < #[trigger] pos[q] by {
                    if p == j - 1 && q == j {
                        assert(findings@[q] == before[j - 1] && findings@[p] == before[j as int]);
                    } else if p == j - 1 {
                        assert(findings@[p] == before[j as int]);
                        assert(!display_le(*before[q], *before[j as int]));
                    } else if q == j - 1 {
                        assert(pos[q] == i);
                    } else if p == j {
                        assert(pos_before[j - 1] < pos_before[q]);
                    } else if q == j {
                        assert(findings@[q] == before[j - 1]);
                        assert(pos_before[p] < pos_before[j - 1]);
                    }
                }
            }
            j = j - 1;
        }
        proof {
            let s = findings@;
            assert forall|p: int, q: int| 0 <= p < q < i + 1 implies display_le(
                *s[p],
                *s[q],
            ) by {
                if q == j {
                    if p < j - 1 {
                        lemma_display_transitive(*s[p], *s[j - 1], *s[j as int]);
                    }
                } else if p == j {
                    lemma_display_total(*s[p], *s[q]);
                } else if p < j && q > j {
                } else {
                }
            }
            assert forall|p: int| 0 <= p < i + 1 implies #[trigger] pos[p] < i + 1 by {
                if p != j {
                    assert(pos[p] < i);
                }
            }
        }
        i = i + 1;
    }
    proof {
        assert(stable_arrangement(findings@, start, pos));
        lemma_display_order_errors_first(findings@);
    }
}

/// `"warm"` only when the cache was on and actually served something this run.
pub open spec fn cache_status_name(enabled: bool, hits: u64) -> Seq<char> {
    if enabled && hits > 0 {
        "warm"@
    } else {
        "cold"@
    }
}

/// The cache reads as warm exactly when it was on and served at least one hit; a run
/// with the cache off, or on but with no hit, reads as cold.
pub proof fn lemma_cache_status_warm_only_on_hits(enabled: bool, hits: u64)
    ensures
        (cache_status_name(enabled, hits) == "warm"@) <==> (enabled && hits > 0),
        !(enabled && hits > 0) ==> cache_status_name(enabled, hits) == "cold"@,
        cache_status_name(enabled, hits) == "warm"@ || cache_status_name(enabled, hits) == "cold"@,
{
    reveal_strlit("warm");
    reveal_strlit("cold");
    assert("warm"@[0] != "cold"@[0]);
}

pub fn cache_status_str(enabled: bool, hits: u64) -> (r: &'static str)
    ensures
        r@ == cache_status_name(enabled, hits),
{
    if enabled && hits > 0 {
        "warm"
    } else {
        "cold"
    }
}

/// One registered adapter's contribution to a run.
#[derive(Debug, Clone)]
pub struct AdapterRunInfo {
    pub id: String,
    pub files: usize,
}

/// Baseline entries that still match a current finding, and those that match nothing.
#[derive(Debug, Clone)]
pub struct BaselineSummary {
    pub acknowledged: usize,
    pub stale: usize,
}

/// Findings held back by inline pragmas and by configuration.
#[derive(Debug, Clone, Copy)]
pub struct SuppressedSummary {
    pub inline: usize,
    pub config: usize,
}

/// One check's outcome.
#[derive(Debug)]
pub struct RunResult {
    pub findings: Vec<Finding>,
    pub fixed: Vec<Finding>,
    pub diagnostics: Vec<Diagnostic>,
    pub files_discovered: usize,
    pub files_claimed: usize,
    pub symbols: usize,
    pub dependencies: usize,
    pub edges: usize,
    pub mode: String,
    pub base_ref: Option<String>,
    pub started_at: String,
    pub duration_ms: u64,
    pub project_root: String,
    pub adapters: Vec<AdapterRunInfo>,
    pub cache_enabled: bool,
    pub cache_hits: u64,
    pub baseline: Option<BaselineSummary>,
    pub suppressed: SuppressedSummary,
    pub timings: Vec<(String, u64)>,
}

impl RunResult {
    pub fn cache_status(&self) -> (r: &'static str)
        ensures
            r@ == cache_status_name(self.cache_enabled, self.cache_hits),
    {
        cache_status_str(self.cache_enabled, self.cache_hits)
    }
}


/// Whether a finding survives the confidence floor: `stale` always does, every
/// other category needs at least the floor's tier.
pub open spec fn above_floor(f: Finding, floor: Confidence) -> bool {
    f.category@ == "stale"@ || f.confidence.spec_rank() >= floor.spec_rank()
}

fn is_stale(f: &Finding) -> (r: bool)
    ensures
        r == (f.category@ == "stale"@),
{
    str_eq(f.category.as_str(), "stale")
}

/// The `min-confidence` report floor. `stale` is exempt, and a `Possible` floor keeps
/// everything.
pub fn apply_confidence_floor(findings: Vec<Finding>, floor: Confidence) -> (r: Vec<Finding>)
    ensures
        r@ == findings@.filter(|f: Finding| above_floor(f, floor)),
        floor == Confidence::Possible ==> r@ == findings@,
{
    let ghost pred = |f: Finding| above_floor(f, floor);
    if floor == Confidence::Possible {
        proof {
            assert forall|i: int| 0 <= i < findings@.len() implies pred(findings@[i]) by {}
            lemma_filter_all(findings@, pred);
        }
        return findings;
    }
    let ghost input = findings@;
    let mut kept: Vec<Finding> = Vec::new();
    let mut rest = crate::seqs::reversed(findings);
    proof {
        assert(input.take(0) =~= Seq::<Finding>::empty());
        reveal(Seq::filter);
    }
    while rest.len() > 0
        invariant
            pred == (|f: Finding| above_floor(f, floor)),
            rest@.len() <= input.len(),
            forall|k: int| 0 <= k < rest@.len() ==> rest@[k] == input[input.len() - 1 - k],
            kept@ == input.take(input.len() - rest@.len()).filter(pred),
        decreases rest@.len(),
    {
        let ghost done = input.len() - rest@.len();
        let f = rest.pop().unwrap();
        proof {
            assert(f == input[done]);
            assert(input.take(done + 1) =~= input.take(done).push(f));
            input.take(done).lemma_filter_push(f, pred);
        }
        let keep = is_stale(&f) || f.confidence.rank() >= floor.rank();
        proof {
            assert(pred(f) == keep);
        }
        if keep {
            kept.push(f);
        }
    }
    proof {
        assert(input.take(input.len() as int) =~= input);
    }
    kept
}

/// Filtering keeps a sequence whole when every element satisfies the predicate.
pub proof fn lemma_filter_all<T>(s: Seq<T>, pred: spec_fn(T) -> bool)
    requires
        forall|i: int| 0 <= i < s.len() ==> pred(s[i]),
    ensures
        s.filter(pred) == s,
    decreases s.len(),
{
    reveal(Seq::filter);
    if s.len() > 0 {
        lemma_filter_all(s.drop_last(), pred);
        assert(s.drop_last().push(s.last()) =~= s);
    }
}

/// The severity a plugin rule declares.
#[derive(Debug, Clone, Copy, PartialEq, Eq, Structural)]
pub enum PluginSeverity {
    Error,
    Warning,
    Info,
}

/// What the project's gate configuration says about one plugin rule.
#[derive(Debug, Clone, Copy, PartialEq, Eq, Structural)]
pub enum GateLevel {
    /// Explicitly advisory.
    Off,
    /// Gate-eligible, capped at this severity.
    At(Severity),
}

/// A rule a plugin may emit findings under.
#[derive(Debug, Clone)]
pub struct RuleDescriptor {
    pub name: String,
    pub severity: PluginSeverity,
    pub description: String,
}

pub open spec fn spec_declared_severity(s: PluginSeverity) -> Severity {
    match s {
        PluginSeverity::Error => Severity::Error,
        PluginSeverity::Warning => Severity::Warning,
        PluginSeverity::Info => Severity::Info,
    }
}

pub fn declared_severity(severity: PluginSeverity) -> (r: Severity)
    ensures
        r == spec_declared_severity(severity),
{
    match severity {
        PluginSeverity::Error => Severity::Error,
        PluginSeverity::Warning => Severity::Warning,
        PluginSeverity::Info => Severity::Info,
    }
}

/// The less severe of two severities (triage order is worst first).
pub open spec fn less_severe(a: Severity, b: Severity) -> Severity {
    if a.spec_rank() >= b.spec_rank() {
        a
    } else {
        b
    }
}

/// A plugin rule's declared severity is the finding severity of the same level.
pub proof fn lemma_declared_severity_keeps_level(s: PluginSeverity)
    ensures
        (s == PluginSeverity::Error) == (spec_declared_severity(s) == Severity::Error),
        (s == PluginSeverity::Warning) == (spec_declared_severity(s) == Severity::Warning),
        (s == PluginSeverity::Info) == (spec_declared_severity(s) == Severity::Info),
{
}

/// A gate caps, never raises: the severity a gate `At(cap)` leaves is one of the
/// declared severity and the cap, and no more severe than either (triage order, worst
/// first: error, warning, info).
pub proof fn lemma_gate_never_raises(declared: PluginSeverity, cap: Severity)
    ensures
        ({
            let d = spec_declared_severity(declared);
            let s = less_severe(d, cap);
            &&& s == d || s == cap
            &&& s.spec_rank() >= d.spec_rank()
            &&& s.spec_rank() >= cap.spec_rank()
            &&& (s == Severity::Error <==> d == Severity::Error && cap == Severity::Error)
            &&& (s == Severity::Info <==> d == Severity::Info || cap == Severity::Info)
        }),
{
}

/// Where a rule's findings go. With no gate entry, or `Off`, a finding keeps the
/// declared severity and is advisory; `At(cap)` makes it gate-eligible at the less
/// severe of the declared severity and the cap: a gate can lower a severity, never
/// raise it.
pub fn severity_channel(declared: PluginSeverity, gate: Option<GateLevel>) -> (r: (Severity, bool))
    ensures
        match gate {
            Some(GateLevel::At(cap)) => r == (less_severe(spec_declared_severity(declared), cap), false),
            _ => r == (spec_declared_severity(declared), true),
        },
        gate matches Some(GateLevel::At(cap)) ==> r.0.spec_rank() >= spec_declared_severity(declared).spec_rank()
            && r.0.spec_rank() >= cap.spec_rank() && (r.0 == spec_declared_severity(declared) || r.0 == cap),
{
    let d = declared_severity(declared);
    match gate {
        Some(GateLevel::At(cap)) => {
            if d.rank() >= cap.rank() {
                (d, false)
            } else {
                (cap, false)
            }
        },
        _ => (d, true),
    }
}

/// The lower-case spelling of a plugin severity.
pub open spec fn plugin_severity_name(s: PluginSeverity) -> Seq<char> {
    match s {
        PluginSeverity::Error => "error"@,
        PluginSeverity::Warning => "warning"@,
        PluginSeverity::Info => "info"@,
    }
}

/// A rule pre-rendered as `"<name> (<severity>): <description>"`.
pub fn describe_rule(rule: &RuleDescriptor) -> (r: String)
    ensures
        r@ == rule.name@ + " ("@ + plugin_severity_name(rule.severity) + "): "@ + rule.description@,
{
    let severity = match rule.severity {
        PluginSeverity::Error => "error",
        PluginSeverity::Warning => "warning",
        PluginSeverity::Info => "info",
    };
    let mut s = crate::text::owned(rule.name.as_str());
    s.append(" (");
    s.append(severity);
    s.append("): ");
    s.append(rule.description.as_str());
    s
}

/// The ids a sequence of findings carries.
pub open spec fn finding_ids(s: Seq<Finding>) -> Set<Seq<char>> {
    Set::new(|id: Seq<char>| exists|i: int| 0 <= i < s.len() && s[i].id@ == id)
}

/// The strings a sequence holds, as character sequences.
pub open spec fn string_set(s: Seq<String>) -> Set<Seq<char>> {
    Set::new(|x: Seq<char>| exists|i: int| 0 <= i < s.len() && s[i]@ == x)
}

/// Whether some finding carries `id`.
pub fn has_finding_id(findings: &Vec<Finding>, id: &str) -> (r: bool)
    ensures
        r == finding_ids(findings@).contains(id@),
{
    let mut i: usize = 0;
    while i < findings.len()
        invariant
            i <= findings@.len(),
            forall|k: int| 0 <= k < i ==> findings@[k].id@ != id@,
        decreases findings@.len() - i,
    {
        if str_eq(findings[i].id.as_str(), id) {
            return true;
        }
        i = i + 1;
    }
    false
}

/// The ids of `findings`, in order.
pub fn collect_ids(findings: &Vec<Finding>) -> (r: Vec<String>)
    ensures
        string_set(r@) == finding_ids(findings@),
{
    let mut out: Vec<String> = Vec::new();
    let mut i: usize = 0;
    while i < findings.len()
        invariant
            i <= findings@.len(),
            out@.len() == i,
            forall|k: int| 0 <= k < i ==> #[trigger] out@[k]@ == findings@[k].id@,
        decreases findings@.len() - i,
    {
        out.push(crate::text::owned(findings[i].id.as_str()));
        i = i + 1;
    }
    proof {
        assert forall|x: Seq<char>| finding_ids(findings@).contains(x) implies string_set(out@).contains(x) by {
            let k = choose|k: int| 0 <= k < findings@.len() && findings@[k].id@ == x;
            assert(out@[k]@ == x);
        }
        assert(string_set(out@) =~= finding_ids(findings@));
    }
    out
}

/// Whether some string of `list` equals `s`.
pub fn has_string(list: &Vec<String>, s: &str) -> (r: bool)
    ensures
        r == string_set(list@).contains(s@),
{
    let mut i: usize = 0;
    while i < list.len()
        invariant
            i <= list@.len(),
            forall|k: int| 0 <= k < i ==> list@[k]@ != s@,
        decreases list@.len() - i,
    {
        if str_eq(list[i].as_str(), s) {
            return true;
        }
        i = i + 1;
    }
    false
}

/// The baseline partition: findings whose id a baseline entry names are held back
/// and counted as acknowledged; entries matching no finding are stale. `None` when
/// the project keeps no baseline.
pub fn apply_baseline(findings: Vec<Finding>, entries: Option<Vec<String>>) -> (r: (
    Vec<Finding>,
    Option<BaselineSummary>,
))
    ensures
        match entries {
            None => r.0@ == findings@ && r.1 is None,
            Some(e) => {
                &&& r.0@ == findings@.filter(|f: Finding| !string_set(e@).contains(f.id@))
                &&& r.1 is Some
                &&& r.1->0.acknowledged == e@.filter(
                    |x: String| finding_ids(findings@).contains(x@),
                ).len()
                &&& r.1->0.acknowledged + r.1->0.stale == e@.len()
            },
        },
{
    let entries = match entries {
        None => return (findings, None),
        Some(e) => e,
    };
    let ghost ack_pred = |x: String| finding_ids(findings@).contains(x@);
    let mut acknowledged: usize = 0;
    let mut i: usize = 0;
    proof {
        reveal(Seq::filter);
        assert(entries@.take(0) =~= Seq::<String>::empty());
    }
    while i < entries.len()
        invariant
            ack_pred == (|x: String| finding_ids(findings@).contains(x@)),
            i <= entries@.len(),
            acknowledged == entries@.take(i as int).filter(ack_pred).len(),
            acknowledged <= i,
        decreases entries@.len() - i,
    {
        proof {
            assert(entries@.take(i + 1) =~= entries@.take(i as int).push(entries@[i as int]));
            entries@.take(i as int).lemma_filter_push(entries@[i as int], ack_pred);
        }
        if has_finding_id(&findings, entries[i].as_str()) {
            acknowledged = acknowledged + 1;
        }
        i = i + 1;
    }
    proof {
        assert(entries@.take(entries@.len() as int) =~= entries@);
    }
    let stale = entries.len() - acknowledged;
    let ghost input = findings@;
    let ghost keep_pred = |f: Finding| !string_set(entries@).contains(f.id@);
    let mut kept: Vec<Finding> = Vec::new();
    let mut rest = crate::seqs::reversed(findings);
    proof {
        assert(input.take(0) =~= Seq::<Finding>::empty());
    }
    while rest.len() > 0
        invariant
            keep_pred == (|f: Finding| !string_set(entries@).contains(f.id@)),
            rest@.len() <= input.len(),
            forall|k: int| 0 <= k < rest@.len() ==> rest@[k] == input[input.len() - 1 - k],
            kept@ == input.take(input.len() - rest@.len()).filter(keep_pred),
        decreases rest@.len(),
    {
        let ghost done = input.len() - rest@.len();
        let f = rest.pop().unwrap();
        proof {
            assert(f == input[done]);
            assert(input.take(done + 1) =~= input.take(done).push(f));
            input.take(done).lemma_filter_push(f, keep_pred);
        }
        if !has_string(&entries, f.id.as_str()) {
            kept.push(f);
        }
    }
    proof {
        assert(input.take(input.len() as int) =~= input);
    }
    (kept, Some(BaselineSummary { acknowledged, stale }))
}

/// A finding of the "after" side that the "before" side lacks, tagged `New` and placed
/// inside (`Introduced`) or outside (`Derived`) the change set by its path.
pub open spec fn tag_new(f: Finding, touched: Set<Seq<char>>) -> Finding {
    let origin = match f.location.path {
        Some(p) => if touched.contains(p.0@) {
            DeltaOrigin::Introduced
        } else {
            DeltaOrigin::Derived
        },
        None => DeltaOrigin::Derived,
    };
    Finding { delta: Some(Delta::New), delta_origin: Some(origin), ..f }
}

/// A finding of the "before" side that the "after" side lacks, tagged `Fixed`.
pub open spec fn tag_fixed(f: Finding) -> Finding {
    Finding { delta: Some(Delta::Fixed), ..f }
}

/// The derived-effects delta between two finding sets, by id: `(new, fixed)` — the
/// after-side findings whose id the before side lacks, tagged `New` with their
/// origin, and the before-side findings whose id the after side lacks, tagged `Fixed`.
pub fn diff_findings(before: Vec<Finding>, after: Vec<Finding>, touched: &Vec<String>) -> (r: (
    Vec<Finding>,
    Vec<Finding>,
))
    ensures
        r.0@ == after@.filter(|f: Finding| !finding_ids(before@).contains(f.id@)).map_values(
            |f: Finding| tag_new(f, string_set(touched@)),
        ),
        r.1@ == before@.filter(|f: Finding| !finding_ids(after@).contains(f.id@)).map_values(
            |f: Finding| tag_fixed(f),
        ),
{
    let ghost a_in = after@;
    let ghost b_in = before@;
    let ghost new_pred = |f: Finding| !finding_ids(b_in).contains(f.id@);
    let ghost fixed_pred = |f: Finding| !finding_ids(a_in).contains(f.id@);
    let ghost tag_n = |f: Finding| tag_new(f, string_set(touched@));
    let ghost tag_f = |f: Finding| tag_fixed(f);
    let after_ids = collect_ids(&after);
    let mut new_findings: Vec<Finding> = Vec::new();
    let mut rest = crate::seqs::reversed(after);
    proof {
        reveal(Seq::filter);
        assert(a_in.take(0) =~= Seq::<Finding>::empty());
        assert(a_in.take(0).filter(new_pred).map_values(tag_n) =~= Seq::<Finding>::empty());
    }
    while rest.len() > 0
        invariant
            new_pred == (|f: Finding| !finding_ids(b_in).contains(f.id@)),
            tag_n == (|f: Finding| tag_new(f, string_set(touched@))),
            before@ == b_in,
            rest@.len() <= a_in.len(),
            forall|k: int| 0 <= k < rest@.len() ==> rest@[k] == a_in[a_in.len() - 1 - k],
            new_findings@ == a_in.take(a_in.len() - rest@.len()).filter(new_pred).map_values(tag_n),
        decreases rest@.len(),
    {
        let ghost done = a_in.len() - rest@.len();
        let mut f = rest.pop().unwrap();
        proof {
            assert(f == a_in[done]);
            assert(a_in.take(done + 1) =~= a_in.take(done).push(f));
            a_in.take(done).lemma_filter_push(f, new_pred);
        }
        if !has_finding_id(&before, f.id.as_str()) {
            let ghost f0 = f;
            let origin = match &f.location.path {
                Some(p) => if has_string(touched, p.0.as_str()) {
                    DeltaOrigin::Introduced
                } else {
                    DeltaOrigin::Derived
                },
                None => DeltaOrigin::Derived,
            };
            f.delta = Some(Delta::New);
            f.delta_origin = Some(origin);
            proof {
                assert(f == tag_n(f0));
                assert(a_in.take(done).filter(new_pred).push(f0).map_values(tag_n) =~= a_in.take(
                    done,
                ).filter(new_pred).map_values(tag_n).push(tag_n(f0)));
            }
            new_findings.push(f);
        }
    }
    proof {
        assert(a_in.take(a_in.len() as int) =~= a_in);
    }
    let mut fixed: Vec<Finding> = Vec::new();
    let mut rest = crate::seqs::reversed(before);
    proof {
        assert(b_in.take(0) =~= Seq::<Finding>::empty());
        assert(b_in.take(0).filter(fixed_pred).map_values(tag_f) =~= Seq::<Finding>::empty());
    }
    while rest.len() > 0
        invariant
            fixed_pred == (|f: Finding| !finding_ids(a_in).contains(f.id@)),
            tag_f == (|f: Finding| tag_fixed(f)),
            string_set(after_ids@) == finding_ids(a_in),
            rest@.len() <= b_in.len(),
            forall|k: int| 0 <= k < rest@.len() ==> rest@[k] == b_in[b_in.len() - 1 - k],
            fixed@ == b_in.take(b_in.len() - rest@.len()).filter(fixed_pred).map_values(tag_f),
        decreases rest@.len(),
    {
        let ghost done = b_in.len() - rest@.len();
        let mut f = rest.pop().unwrap();
        proof {
            assert(f == b_in[done]);
            assert(b_in.take(done + 1) =~= b_in.take(done).push(f));
            b_in.take(done).lemma_filter_push(f, fixed_pred);
        }
        if !has_string(&after_ids, f.id.as_str()) {
            let ghost f0 = f;
            f.delta = Some(Delta::Fixed);
            proof {
                assert(f == tag_f(f0));
                assert(b_in.take(done).filter(fixed_pred).push(f0).map_values(tag_f) =~= b_in.take(
                    done,
                ).filter(fixed_pred).map_values(tag_f).push(tag_f(f0)));
            }
            fixed.push(f);
        }
    }
    proof {
        assert(b_in.take(b_in.len() as int) =~= b_in);
    }
    (new_findings, fixed)
}

/// The content hash of the last file a graph stores under `path`, if any.
pub open spec fn hash_at(g: ProjectGraph, path: Seq<char>) -> Option<Seq<u8>> {
    match last_file(g, path, g.files@.len() as int) {
        Some(i) => Some(g.files@[i as int].content_hash@),
        None => None,
    }
}

/// The paths a diff touched: added, content-modified, or removed — exactly the paths
/// whose content differs between the two sides.
pub open spec fn touched(before: ProjectGraph, after: ProjectGraph) -> Set<Seq<char>> {
    Set::new(|p: Seq<char>| hash_at(before, p) != hash_at(after, p))
}

proof fn lemma_last_file(g: ProjectGraph, p: Seq<char>, n: int)
    requires
        0 <= n <= g.files@.len() <= 0xffff_ffff,
    ensures
        match last_file(g, p, n) {
            Some(i) => 0 <= i < n && g.files@[i as int].path.0@ == p && forall|k: int|
                i < k < n ==> #[trigger] g.files@[k].path.0@ != p,
            None => forall|k: int| 0 <= k < n ==> #[trigger] g.files@[k].path.0@ != p,
        },
    decreases n,
{
    if n > 0 {
        lemma_last_file(g, p, n - 1);
    }
}

fn same_hash(a: &[u8; 32], b: &[u8; 32]) -> (r: bool)
    ensures
        r == (a@ == b@),
{
    let mut i: usize = 0;
    while i < 32
        invariant
            i <= 32,
            a@.len() == 32,
            b@.len() == 32,
            forall|k: int| 0 <= k < i ==> a@[k] == b@[k],
        decreases 32 - i,
    {
        if a[i] != b[i] {
            return false;
        }
        i = i + 1;
    }
    proof {
        assert(a@ =~= b@);
    }
    true
}

/// The paths a diff touched (added, content-modified or removed), each once.
pub fn touched_paths(before: &ProjectGraph, after: &ProjectGraph) -> (r: Vec<String>)
    requires
        before.files@.len() <= 0xffff_ffff,
        after.files@.len() <= 0xffff_ffff,
    ensures
        string_set(r@) == touched(*before, *after),
        crate::text::views(r@).no_duplicates(),
{
    let ghost b = *before;
    let ghost a = *after;
    let ghost nb = b.files@.len() as int;
    let ghost na = a.files@.len() as int;
    let before_index = file_path_index(before);
    let after_index = file_path_index(after);
    let mut out: Vec<String> = Vec::new();
    let mut i: usize = 0;
    while i < after.files.len()
        invariant
            b == *before,
            a == *after,
            na == a.files@.len() <= 0xffff_ffff,
            nb == b.files@.len() <= 0xffff_ffff,
            str_ids(before_index) == path_table(b, nb),
            str_ids(after_index) == path_table(a, na),
            i <= na,
            crate::text::views(out@).no_duplicates(),
            forall|p: Seq<char>|
                #[trigger] string_set(out@).contains(p) <==> (match last_file(a, p, na) {
                    Some(j) => j < i,
                    None => false,
                } && hash_at(b, p) != hash_at(a, p)),
        decreases na - i,
    {
        let path = after.files[i].path.0.as_str();
        proof {
            lemma_last_file(a, path@, na);
            lemma_last_file(b, path@, nb);
        }
        let last = str_ids_get(&after_index, path);
        let mut push = false;
        if last == Some(i as u32) {
            match str_ids_get(&before_index, path) {
                Some(j) => {
                    push = !same_hash(&before.files[j as usize].content_hash, &after.files[i].content_hash);
                },
                None => {
                    push = true;
                },
            }
        }
        let ghost old_out = out@;
        if push {
            out.push(crate::text::owned(path));
        }
        proof {
            assert forall|p: Seq<char>| #[trigger] string_set(out@).contains(p) <==> (match last_file(a, p, na) {
                Some(j) => j < i + 1,
                None => false,
            } && hash_at(b, p) != hash_at(a, p)) by {
                lemma_last_file(a, p, na);
                if p != path@ {
                    if string_set(out@).contains(p) {
                        let k = choose|k: int| 0 <= k < out@.len() && out@[k]@ == p;
                        if push {
                            assert(k < old_out.len());
                        }
                        assert(old_out[k]@ == p);
                        assert(string_set(old_out).contains(p));
                    }
                    if string_set(old_out).contains(p) {
                        let k = choose|k: int| 0 <= k < old_out.len() && old_out[k]@ == p;
                        assert(out@[k] == old_out[k]);
                    }
                    if last_file(a, p, na) == Some(i as u32) {
                        assert(a.files@[i as int].path.0@ == p);
                    }
                } else {
                    if push {
                        assert(out@[out@.len() - 1]@ == p);
                    } else if string_set(out@).contains(p) {
                        let k = choose|k: int| 0 <= k < out@.len() && out@[k]@ == p;
                        assert(string_set(old_out).contains(p));
                    }
                }
            }
            if push {
                assert(!string_set(old_out).contains(path@));
                assert(crate::text::views(out@) =~= crate::text::views(old_out).push(path@));
                assert forall|k: int| 0 <= k < crate::text::views(old_out).len() implies crate::text::views(old_out)[k] != path@ by {
                    assert(old_out[k]@ == crate::text::views(old_out)[k]);
                }
            }
        }
        i = i + 1;
    }
    proof {
        assert forall|p: Seq<char>| #[trigger] string_set(out@).contains(p) <==> ((last_file(a, p, na) is Some
            && hash_at(b, p) != hash_at(a, p)) || (last_file(a, p, na) is None && match last_file(b, p, nb) {
            Some(k) => k < 0,
            None => false,
        })) by {
            lemma_last_file(a, p, na);
        }
    }
    let mut j: usize = 0;
    while j < before.files.len()
        invariant
            b == *before,
            a == *after,
            na == a.files@.len() <= 0xffff_ffff,
            nb == b.files@.len() <= 0xffff_ffff,
            str_ids(before_index) == path_table(b, nb),
            str_ids(after_index) == path_table(a, na),
            j <= nb,
            crate::text::views(out@).no_duplicates(),
            forall|p: Seq<char>|
                #[trigger] string_set(out@).contains(p) <==> ((last_file(a, p, na) is Some && hash_at(b, p)
                    != hash_at(a, p)) || (last_file(a, p, na) is None && match last_file(b, p, nb) {
                    Some(k) => k < j,
                    None => false,
                })),
        decreases nb - j,
    {
        let path = before.files[j].path.0.as_str();
        proof {
            lemma_last_file(a, path@, na);
            lemma_last_file(b, path@, nb);
        }
        let push = str_ids_get(&before_index, path) == Some(j as u32) && str_ids_get(&after_index, path).is_none();
        let ghost old_out = out@;
        if push {
            out.push(crate::text::owned(path));
        }
        proof {
            assert forall|p: Seq<char>| #[trigger] string_set(out@).contains(p) <==> ((last_file(a, p, na) is Some
                && hash_at(b, p) != hash_at(a, p)) || (last_file(a, p, na) is None && match last_file(b, p, nb) {
                Some(k) => k < j + 1,
                None => false,
            })) by {
                lemma_last_file(b, p, nb);
                if p != path@ {
                    if string_set(out@).contains(p) {
                        let k = choose|k: int| 0 <= k < out@.len() && out@[k]@ == p;
                        if push {
                            assert(k < old_out.len());
                        }
                        assert(old_out[k]@ == p);
                        assert(string_set(old_out).contains(p));
                    }
                    if string_set(old_out).contains(p) {
                        let k = choose|k: int| 0 <= k < old_out.len() && old_out[k]@ == p;
                        assert(out@[k] == old_out[k]);
                    }
                    if last_file(b, p, nb) == Some(j as u32) {
                        assert(b.files@[j as int].path.0@ == p);
                    }
                } else {
                    if push {
                        assert(out@[out@.len() - 1]@ == p);
                    } else if string_set(out@).contains(p) {
                        let k = choose|k: int| 0 <= k < out@.len() && out@[k]@ == p;
                        assert(string_set(old_out).contains(p));
                    }
                }
            }
            if push {
                assert(!string_set(old_out).contains(path@));
                assert(crate::text::views(out@) =~= crate::text::views(old_out).push(path@));
                assert forall|k: int| 0 <= k < crate::text::views(old_out).len() implies crate::text::views(old_out)[k] != path@ by {
                    assert(old_out[k]@ == crate::text::views(old_out)[k]);
                }
            }
        }
        j = j + 1;
    }
    proof {
        assert forall|p: Seq<char>| #[trigger] string_set(out@).contains(p) <==> touched(b, a).contains(p) by {
            lemma_last_file(a, p, na);
            lemma_last_file(b, p, nb);
        }
        assert(string_set(out@) =~= touched(b, a));
    }
    out
}

/// A package's coverage-key mapping: `name/` maps onto its manifest's directory
/// (with a trailing `/`, or nothing at the project root). Only a named package with a
/// manifest has one.
pub open spec fn package_mapping(p: PackageNode) -> Option<(Seq<char>, Seq<char>)> {
    match (p.name, p.manifest) {
        (Some(name), Some(manifest)) => {
            let dir = if manifest.0@.contains('/') {
                dirname(manifest.0@) + "/"@
            } else {
                Seq::empty()
            };
            Some((name@ + "/"@, dir))
        },
        _ => None,
    }
}

/// The mappings of the first `k` packages, in package order.
pub open spec fn package_mappings(ps: Seq<PackageNode>, k: int) -> Seq<(Seq<char>, Seq<char>)>
    decreases k,
{
    if k <= 0 {
        Seq::empty()
    } else {
        match package_mapping(ps[k - 1]) {
            Some(m) => package_mappings(ps, k - 1).push(m),
            None => package_mappings(ps, k - 1),
        }
    }
}

/// Whether some file of the graph has path `p`.
pub open spec fn is_graph_path(g: ProjectGraph, p: Seq<char>) -> bool {
    exists|i: int| 0 <= i < g.files@.len() && #[trigger] g.files@[i].path.0@ == p
}

/// The graph paths the first `k` mappings rebase `key` onto: for each mapping whose
/// prefix begins the key, the directory followed by the rest of the key, when a graph
/// file has that path.
pub open spec fn rebase_hits(g: ProjectGraph, ms: Seq<(Seq<char>, Seq<char>)>, key: Seq<char>, k: int) -> Seq<
    Seq<char>,
>
    decreases k,
{
    if k <= 0 {
        Seq::empty()
    } else {
        let (prefix, dir) = ms[k - 1];
        let prev = rebase_hits(g, ms, key, k - 1);
        if prefix.is_prefix_of(key) && is_graph_path(g, dir + key.subrange(prefix.len() as int, key.len() as int)) {
            prev.push(dir + key.subrange(prefix.len() as int, key.len() as int))
        } else {
            prev
        }
    }
}

/// Where coverage key `key` moves, if anywhere: only a key that matches no graph file
/// moves, and only when exactly one package mapping produces a path that does.
pub open spec fn rebase_target(g: ProjectGraph, key: Seq<char>) -> Option<Seq<char>> {
    let ms = package_mappings(g.packages@, g.packages@.len() as int);
    if is_graph_path(g, key) || rebase_hits(g, ms, key, ms.len() as int).len() != 1 {
        None
    } else {
        Some(rebase_hits(g, ms, key, ms.len() as int)[0])
    }
}

/// The moves over the first `k` keys, in key order.
pub open spec fn rebase_moves_upto(g: ProjectGraph, keys: Seq<Seq<char>>, k: int) -> Seq<(Seq<char>, Seq<char>)>
    decreases k,
{
    if k <= 0 {
        Seq::empty()
    } else {
        match rebase_target(g, keys[k - 1]) {
            Some(to) => rebase_moves_upto(g, keys, k - 1).push((keys[k - 1], to)),
            None => rebase_moves_upto(g, keys, k - 1),
        }
    }
}

/// `s` after `prefix`, when `s` begins with it.
fn strip_prefix<'a>(s: &'a str, prefix: &str) -> (r: Option<&'a str>)
    ensures
        match r {
            Some(rest) => prefix@.is_prefix_of(s@) && rest@ == s@.subrange(prefix@.len() as int, s@.len() as int),
            None => !prefix@.is_prefix_of(s@),
        },
{
    let n = s.unicode_len();
    let m = prefix.unicode_len();
    if m > n {
        return None;
    }
    let head = s.substring_char(0, m);
    if str_eq(head, prefix) {
        Some(s.substring_char(m, n))
    } else {
        proof {
            if prefix@.is_prefix_of(s@) {
                assert(s@.subrange(0, m as int) =~= prefix@);
            }
        }
        None
    }
}

/// A package's mapping, computed.
fn mapping_of(p: &PackageNode) -> (r: Option<(String, String)>)
    ensures
        match package_mapping(*p) {
            Some((prefix, dir)) => r matches Some((a, b)) && a@ == prefix && b@ == dir,
            None => r is None,
        },
{
    match (&p.name, &p.manifest) {
        (Some(name), Some(manifest)) => {
            let path = manifest.0.as_str();
            let parent = core_dirname(path);
            let mut has_slash = false;
            let n = path.unicode_len();
            let mut i: usize = 0;
            while i < n
                invariant
                    n == path@.len(),
                    i <= n,
                    has_slash == path@.take(i as int).contains('/'),
                decreases n - i,
            {
                proof {
                    assert(path@.take(i + 1) =~= path@.take(i as int).push(path@[i as int]));
                }
                let c = path.get_char(i);
                proof {
                    let t = path@.take(i as int);
                    let t1 = path@.take(i + 1);
                    if c == '/' {
                        assert(t1[i as int] == '/');
                    }
                    if t.contains('/') {
                        let w = choose|w: int| 0 <= w < t.len() && t[w] == '/';
                        assert(t1[w] == '/');
                    }
                    if t1.contains('/') {
                        let w = choose|w: int| 0 <= w < t1.len() && t1[w] == '/';
                        if w < i {
                            assert(t[w] == '/');
                        }
                    }
                }
                if c == '/' {
                    has_slash = true;
                }
                i = i + 1;
            }
            proof {
                assert(path@.take(n as int) =~= path@);
            }
            let dir = if has_slash {
                join2(parent, "/")
            } else {
                String::new()
            };
            Some((join2(name.as_str(), "/"), dir))
        },
        _ => None,
    }
}

/// The coverage-key moves package mappings make over `keys`: each key that matches no
/// graph file moves to the one graph path a package mapping (`name/` onto the
/// manifest's directory) rebases it onto; a key that two mappings rebase onto graph
/// files, or none, stays where it is. In key order.
pub fn rebase_moves(keys: &[String], graph: &ProjectGraph) -> (r: Vec<(String, String)>)
    requires
        graph.files@.len() <= 0xffff_ffff,
    ensures
        r@.len() == rebase_moves_upto(*graph, views(keys@), keys@.len() as int).len(),
        forall|q: int|
            0 <= q < r@.len() ==> (#[trigger] r@[q]).0@ == rebase_moves_upto(*graph, views(keys@), keys@.len() as int)[q].0
                && r@[q].1@ == rebase_moves_upto(*graph, views(keys@), keys@.len() as int)[q].1,
{
    let ghost g = *graph;
    let n = graph.files.len();
    let index = file_path_index(graph);
    proof {
        assert forall|p: Seq<char>| #[trigger] str_ids(index).contains_key(p) <==> is_graph_path(g, p) by {
            lemma_last_file(g, p, n as int);
            if is_graph_path(g, p) {
                let i = choose|i: int| 0 <= i < g.files@.len() && #[trigger] g.files@[i].path.0@ == p;
                assert(g.files@[i].path.0@ == p);
            }
        }
    }
    let mut mappings: Vec<(String, String)> = Vec::new();
    let mut k: usize = 0;
    while k < graph.packages.len()
        invariant
            k <= g.packages@.len(),
            g == *graph,
            mappings@.len() == package_mappings(g.packages@, k as int).len(),
            forall|q: int|
                0 <= q < mappings@.len() ==> (#[trigger] mappings@[q]).0@ == package_mappings(g.packages@, k as int)[q].0
                    && mappings@[q].1@ == package_mappings(g.packages@, k as int)[q].1,
        decreases g.packages@.len() - k,
    {
        match mapping_of(&graph.packages[k]) {
            Some(m) => {
                mappings.push(m);
            },
            None => {},
        }
        k = k + 1;
    }
    let ghost ms = package_mappings(g.packages@, g.packages@.len() as int);
    let mut moves: Vec<(String, String)> = Vec::new();
    let mut j: usize = 0;
    while j < keys.len()
        invariant
            j <= keys@.len(),
            g == *graph,
            ms == package_mappings(g.packages@, g.packages@.len() as int),
            forall|p: Seq<char>| #[trigger] str_ids(index).contains_key(p) <==> is_graph_path(g, p),
            mappings@.len() == ms.len(),
            forall|q: int| 0 <= q < mappings@.len() ==> (#[trigger] mappings@[q]).0@ == ms[q].0 && mappings@[q].1@ == ms[q].1,
            moves@.len() == rebase_moves_upto(g, views(keys@), j as int).len(),
            forall|q: int|
                0 <= q < moves@.len() ==> (#[trigger] moves@[q]).0@ == rebase_moves_upto(g, views(keys@), j as int)[q].0
                    && moves@[q].1@ == rebase_moves_upto(g, views(keys@), j as int)[q].1,
        decreases keys@.len() - j,
    {
        let key = keys[j].as_str();
        proof {
            assert(views(keys@)[j as int] == key@);
            assert(views(keys@).len() == keys@.len());
        }
        let ghost before_moves = moves@;
        if str_ids_get(&index, key).is_none() {
            let mut resolved: Option<String> = None;
            let mut ambiguous = false;
            let mut m: usize = 0;
            while m < mappings.len()
                invariant
                    m <= mappings@.len() == ms.len(),
                    forall|p: Seq<char>| #[trigger] str_ids(index).contains_key(p) <==> is_graph_path(g, p),
                    forall|q: int| 0 <= q < mappings@.len() ==> (#[trigger] mappings@[q]).0@ == ms[q].0 && mappings@[q].1@ == ms[q].1,
                    ambiguous == (rebase_hits(g, ms, key@, m as int).len() > 1),
                    !ambiguous ==> match resolved {
                        Some(to) => rebase_hits(g, ms, key@, m as int).len() == 1 && to@ == rebase_hits(g, ms, key@, m as int)[0],
                        None => rebase_hits(g, ms, key@, m as int).len() == 0,
                    },
                decreases mappings@.len() - m,
            {
                let prefix = mappings[m].0.as_str();
                let dir = mappings[m].1.as_str();
                match strip_prefix(key, prefix) {
                    Some(rest) => {
                        let candidate = join2(dir, rest);
                        if str_ids_get(&index, candidate.as_str()).is_some() {
                            if resolved.is_some() || ambiguous {
                                ambiguous = true;
                            } else {
                                resolved = Some(candidate);
                            }
                        }
                    },
                    None => {},
                }
                m = m + 1;
            }
            proof {
                assert(!is_graph_path(g, key@));
            }
            if !ambiguous {
                match resolved {
                    Some(to) => {
                        proof {
                            assert(rebase_target(g, key@) == Some(to@));
                        }
                        moves.push((owned(key), to));
                    },
                    None => {
                        proof {
                            assert(rebase_target(g, key@) is None);
                        }
                    },
                }
            } else {
                proof {
                    assert(rebase_target(g, key@) is None);
                }
            }
        } else {
            proof {
                assert(is_graph_path(g, key@));
                assert(rebase_target(g, key@) is None);
            }
        }
        proof {
            assert(rebase_moves_upto(g, views(keys@), j + 1) == match rebase_target(g, key@) {
                Some(to) => rebase_moves_upto(g, views(keys@), j as int).push((key@, to)),
                None => rebase_moves_upto(g, views(keys@), j as int),
            });
        }
        j = j + 1;
    }
    moves
}

/// Whether `r` reports nothing: no findings, no diagnostics, no counts, no timings.
pub open spec fn is_blank_except_diagnostics(r: RunResult) -> bool {
    &&& r.findings@.len() == 0
    &&& r.fixed@.len() == 0
    &&& r.files_discovered == 0
    &&& r.files_claimed == 0
    &&& r.symbols == 0
    &&& r.dependencies == 0
    &&& r.edges == 0
    &&& r.mode@.len() == 0
    &&& r.base_ref is None
    &&& r.started_at@.len() == 0
    &&& r.duration_ms == 0
    &&& r.project_root@.len() == 0
    &&& r.adapters@.len() == 0
    &&& !r.cache_enabled
    &&& r.cache_hits == 0
    &&& r.baseline is None
    &&& r.suppressed.inline == 0 && r.suppressed.config == 0
    &&& r.timings@.len() == 0
}

impl Default for RunResult {
    fn default() -> (r: RunResult)
        ensures
            is_blank_except_diagnostics(r),
            r.diagnostics@.len() == 0,
    {
        RunResult {
            findings: Vec::new(),
            fixed: Vec::new(),
            diagnostics: Vec::new(),
            files_discovered: 0,
            files_claimed: 0,
            symbols: 0,
            dependencies: 0,
            edges: 0,
            mode: String::new(),
            base_ref: None,
            started_at: String::new(),
            duration_ms: 0,
            project_root: String::new(),
            adapters: Vec::new(),
            cache_enabled: false,
            cache_hits: 0,
            baseline: None,
            suppressed: SuppressedSummary { inline: 0, config: 0 },
            timings: Vec::new(),
        }
    }
}

/// The context of a diff run outside a git repository.
pub const NOT_A_REPOSITORY: &'static str =
    "--staged/--diff need a git repository \u{2014} run inside one, or drop the flag for a full scan";

/// The context of a staged run whose index cannot be snapshotted.
pub const INDEX_UNREADABLE: &'static str =
    "cannot snapshot the git index for --staged \u{2014} check repository permissions";

/// The context of a diff run whose "before" side does not resolve.
pub open spec fn base_failure_text(mode: RunMode) -> Seq<char> {
    match mode {
        RunMode::Diff { base } => "the diff base `"@ + base@
            + "` does not resolve \u{2014} check the ref name, or fetch it first (`git fetch origin "@ + base@ + "`)"@,
        _ => "HEAD does not resolve \u{2014} the repository may have no commits yet; commit once, or drop --staged for a full scan"@,
    }
}

/// The context of a diff run whose "before" side does not resolve: the diff base
/// names its ref; otherwise `HEAD` has no commit.
pub fn base_failure_context(mode: &RunMode) -> (r: String)
    ensures
        r@ == base_failure_text(*mode),
{
    match mode {
        RunMode::Diff { base } => {
            let mut s = owned("the diff base `");
            s.append(base.as_str());
            s.append("` does not resolve \u{2014} check the ref name, or fetch it first (`git fetch origin ");
            s.append(base.as_str());
            s.append("`)");
            proof {
                assert(s@ =~= base_failure_text(*mode));
            }
            s
        },
        _ => owned(
            "HEAD does not resolve \u{2014} the repository may have no commits yet; commit once, or drop --staged for a full scan",
        ),
    }
}

/// A diff-mode git failure is an error, not a degradation: a run holding one error
/// diagnostic, `context (git's words)`, and nothing else.
pub fn git_failure(context: &str, e: &GitError) -> (r: RunResult)
    ensures
        is_blank_except_diagnostics(r),
        r.diagnostics@.len() == 1,
        r.diagnostics@[0].level == DiagnosticLevel::Error,
        r.diagnostics@[0].path is None,
        r.diagnostics@[0].span is None,
        r.diagnostics@[0].message@ == context@ + " ("@ + e.0@ + ")"@,
{
    let mut message = owned(context);
    message.append(" (");
    message.append(e.0.as_str());
    message.append(")");
    let mut r = RunResult::default();
    r.diagnostics.push(Diagnostic { level: DiagnosticLevel::Error, path: None, message, span: None });
    r
}

/// How many of the first `k` files of `g` the adapter `id` claimed.
pub open spec fn files_of_language(g: ProjectGraph, id: Seq<char>, k: int) -> nat
    decreases k,
{
    if k <= 0 {
        0
    } else {
        files_of_language(g, id, k - 1) + match g.files@[k - 1].language {
            Some(l) => if l@ == id {
                1nat
            } else {
                0nat
            },
            None => 0nat,
        }
    }
}

/// How many of the first `k` files of `g` some adapter claimed.
pub open spec fn claimed_files(g: ProjectGraph, k: int) -> nat
    decreases k,
{
    if k <= 0 {
        0
    } else {
        claimed_files(g, k - 1) + if g.files@[k - 1].language is Some {
            1nat
        } else {
            0nat
        }
    }
}

fn count_language(graph: &ProjectGraph, id: &str) -> (r: usize)
    ensures
        r == files_of_language(*graph, id@, graph.files@.len() as int),
{
    let mut n: usize = 0;
    let mut i: usize = 0;
    while i < graph.files.len()
        invariant
            i <= graph.files@.len(),
            n == files_of_language(*graph, id@, i as int),
            n <= i,
        decreases graph.files@.len() - i,
    {
        match &graph.files[i].language {
            Some(l) => {
                if str_eq(l.as_str(), id) {
                    n = n + 1;
                }
            },
            None => {},
        }
        i = i + 1;
    }
    n
}

/// Each registered adapter (`ids`, in registration order) with the number of the
/// graph's files it claimed.
pub fn adapter_run_infos(ids: &[String], graph: &ProjectGraph) -> (r: Vec<AdapterRunInfo>)
    ensures
        r@.len() == ids@.len(),
        forall|a: int|
            0 <= a < r@.len() ==> (#[trigger] r@[a]).id@ == ids@[a]@ && r@[a].files == files_of_language(
                *graph,
                ids@[a]@,
                graph.files@.len() as int,
            ),
{
    let mut out: Vec<AdapterRunInfo> = Vec::new();
    let mut a: usize = 0;
    while a < ids.len()
        invariant
            a <= ids@.len(),
            out@.len() == a,
            forall|b: int|
                0 <= b < a ==> (#[trigger] out@[b]).id@ == ids@[b]@ && out@[b].files == files_of_language(
                    *graph,
                    ids@[b]@,
                    graph.files@.len() as int,
                ),
        decreases ids@.len() - a,
    {
        let files = count_language(graph, ids[a].as_str());
        out.push(AdapterRunInfo { id: owned(ids[a].as_str()), files });
        a = a + 1;
    }
    out
}

/// How many of the graph's files some adapter claimed.
pub fn claimed_file_count(graph: &ProjectGraph) -> (r: usize)
    ensures
        r == claimed_files(*graph, graph.files@.len() as int),
{
    let mut n: usize = 0;
    let mut i: usize = 0;
    while i < graph.files.len()
        invariant
            i <= graph.files@.len(),
            n == claimed_files(*graph, i as int),
            n <= i,
        decreases graph.files@.len() - i,
    {
        if graph.files[i].language.is_some() {
            n = n + 1;
        }
        i = i + 1;
    }
    n
}

/// The package rebase rule over a report's keys: a key is moved onto path `p` exactly
/// when it is one of the keys, matches no graph file, and exactly one package mapping
/// rebases it onto a graph file, `p`; every other key (already matching, unmapped or
/// ambiguous) is moved nowhere, and with no package mappings nothing moves at all.
pub proof fn lemma_rebase_rule(g: ProjectGraph, keys: Seq<Seq<char>>, k: int, key: Seq<char>, p: Seq<char>)
    requires
        0 <= k <= keys.len(),
    ensures
        rebase_moves_upto(g, keys, k).contains((key, p)) <==> (keys.take(k).contains(key) && rebase_target(g, key) == Some(p)),
        package_mappings(g.packages@, g.packages@.len() as int).len() == 0 ==> rebase_moves_upto(g, keys, k).len() == 0,
    decreases k,
{
    if k > 0 {
        lemma_rebase_rule(g, keys, k - 1, key, p);
        let prev = rebase_moves_upto(g, keys, k - 1);
        let now = rebase_moves_upto(g, keys, k);
        assert(keys.take(k) =~= keys.take(k - 1).push(keys[k - 1]));
        if now.contains((key, p)) {
            let w = choose|w: int| 0 <= w < now.len() && now[w] == (key, p);
            if w < prev.len() {
                assert(prev[w] == (key, p));
            } else {
                assert(keys.take(k)[k - 1] == key);
            }
        }
        if keys.take(k).contains(key) && rebase_target(g, key) == Some(p) {
            let w = choose|w: int| 0 <= w < keys.take(k).len() && keys.take(k)[w] == key;
            if w < k - 1 {
                assert(keys.take(k - 1)[w] == key);
                assert(keys.take(k - 1).contains(key));
                let v = choose|v: int| 0 <= v < prev.len() && prev[v] == (key, p);
                assert(now[v] == (key, p));
            } else {
                assert(now[now.len() - 1] == (key, p));
            }
        }
        let ms = package_mappings(g.packages@, g.packages@.len() as int);
        if ms.len() == 0 {
            assert(rebase_hits(g, ms, keys[k - 1], ms.len() as int).len() == 0);
        }
    }
}

/// A coverage key never moves onto the wrong file: each move takes a key that matches
/// no graph file to a path that does.
pub proof fn lemma_rebase_never_misattributes(g: ProjectGraph, keys: Seq<Seq<char>>, k: int, q: int)
    requires
        0 <= q < rebase_moves_upto(g, keys, k).len(),
    ensures
        !is_graph_path(g, rebase_moves_upto(g, keys, k)[q].0),
        is_graph_path(g, rebase_moves_upto(g, keys, k)[q].1),
    decreases k,
{
    if k > 0 {
        let prev = rebase_moves_upto(g, keys, k - 1);
        if q < prev.len() {
            lemma_rebase_never_misattributes(g, keys, k - 1, q);
        } else {
            let key = keys[k - 1];
            let ms = package_mappings(g.packages@, g.packages@.len() as int);
            lemma_hits_are_graph_paths(g, ms, key, ms.len() as int, 0);
        }
    }
}

proof fn lemma_hits_are_graph_paths(g: ProjectGraph, ms: Seq<(Seq<char>, Seq<char>)>, key: Seq<char>, k: int, q: int)
    requires
        0 <= q < rebase_hits(g, ms, key, k).len(),
    ensures
        is_graph_path(g, rebase_hits(g, ms, key, k)[q]),
    decreases k,
{
    if k > 0 {
        let prev = rebase_hits(g, ms, key, k - 1);
        if q < prev.len() {
            lemma_hits_are_graph_paths(g, ms, key, k - 1, q);
        }
    }
}

/// Whether a report path is a glob to walk (it holds `*`, `?` or `[`) rather than a
/// literal path to stat.
pub open spec fn is_glob_text(p: Seq<char>) -> bool {
    p.contains('*') || p.contains('?') || p.contains('[')
}

/// Whether a report path is a glob to walk rather than a literal path.
pub fn is_report_glob(pattern: &str) -> (r: bool)
    ensures
        r == is_glob_text(pattern@),
{
    let n = pattern.unicode_len();
    let mut i: usize = 0;
    while i < n
        invariant
            n == pattern@.len(),
            i <= n,
            forall|j: int| 0 <= j < i ==> #[trigger] pattern@[j] != '*' && pattern@[j] != '?' && pattern@[j] != '[',
        decreases n - i,
    {
        let c = pattern.get_char(i);
        if c == '*' || c == '?' || c == '[' {
            proof {
                assert(pattern@[i as int] == c);
            }
            return true;
        }
        i = i + 1;
    }
    false
}

/// A matched report file as ordered: its project-relative path, then its full path.
pub open spec fn report_view(m: (String, String)) -> (Seq<char>, Seq<char>) {
    (m.1@, m.0@)
}

/// `report_view`, as a value.
pub open spec fn report_view_fn() -> spec_fn((String, String)) -> (Seq<char>, Seq<char>) {
    |m: (String, String)| report_view(m)
}

/// Report files order by relative path, then by full path.
pub open spec fn report_le(a: (Seq<char>, Seq<char>), b: (Seq<char>, Seq<char>)) -> bool {
    seq_lex_lt(a.0, b.0) || (a.0 == b.0 && (seq_lex_lt(a.1, b.1) || a.1 == b.1))
}

/// `report_le`, as a value.
pub open spec fn report_le_fn() -> spec_fn((Seq<char>, Seq<char>), (Seq<char>, Seq<char>)) -> bool {
    |a: (Seq<char>, Seq<char>), b: (Seq<char>, Seq<char>)| report_le(a, b)
}

proof fn lemma_report_order()
    ensures
        total_order(report_le_fn()),
{
    let le = report_le_fn();
    assert forall|a: (Seq<char>, Seq<char>), b: (Seq<char>, Seq<char>)| #[trigger] le(a, b) || le(b, a) by {
        lemma_lex_total(a.0, b.0);
        lemma_lex_total(a.1, b.1);
    }
    assert forall|a: (Seq<char>, Seq<char>), b: (Seq<char>, Seq<char>)| #[trigger] le(a, b) && le(b, a) implies a == b by {
        if a.0 != b.0 {
            lemma_lex_antisymmetric(a.0, b.0);
        }
        if a.1 != b.1 {
            lemma_lex_antisymmetric(a.1, b.1);
        }
    }
    assert forall|a: (Seq<char>, Seq<char>), b: (Seq<char>, Seq<char>), c: (Seq<char>, Seq<char>)|
        #[trigger] le(a, b) && #[trigger] le(b, c) implies le(a, c) by {
        if a.0 != b.0 && b.0 != c.0 {
            lemma_lex_transitive(a.0, b.0, c.0);
            if a.0 == c.0 {
                lemma_lex_antisymmetric(a.0, b.0);
            }
        }
        if a.0 == b.0 && b.0 == c.0 && a.1 != b.1 && b.1 != c.1 {
            lemma_lex_transitive(a.1, b.1, c.1);
            if a.1 == c.1 {
                lemma_lex_antisymmetric(a.1, b.1);
            }
        }
    }
}

fn report_le_exec(a: &(String, String), b: &(String, String)) -> (r: bool)
    ensures
        r == report_le(report_view(*a), report_view(*b)),
{
    match compare_str(a.1.as_str(), b.1.as_str()) {
        Comparison::Less => true,
        Comparison::Greater => false,
        Comparison::Equal => match compare_str(a.0.as_str(), b.0.as_str()) {
            Comparison::Greater => false,
            _ => true,
        },
    }
}

/// The files a report glob matched, `(full path, project-relative path)`, in relative
/// path order.
pub fn sort_report_matches(matches: Vec<(String, String)>) -> (r: Vec<(String, String)>)
    ensures
        r@.map_values(report_view_fn()).to_multiset() == matches@.map_values(report_view_fn()).to_multiset(),
        ascending_by(r@.map_values(report_view_fn()), report_le_fn()),
{
    proof {
        lemma_report_order();
    }
    let precedes = (|a: &(String, String), b: &(String, String)| -> (r: bool)
        ensures
            r == report_le(report_view(*a), report_view(*b)),
        { report_le_exec(a, b) });
    sort_by_view::<(String, String), (Seq<char>, Seq<char>), _>(matches, Ghost(report_view_fn()), Ghost(report_le_fn()), precedes)
}

/// The coverage freshness gate, in days: a report modified longer ago than this is
/// ignored with a diagnostic, unless a plugin's configuration sets its own.
pub const MAX_COVERAGE_AGE_DAYS: u64 = 7;

/// The report paths a coverage plugin is fed from: the configured list when there is
/// one (it replaces the built-in list), the plugin's requested well-known paths
/// otherwise.
pub fn report_patterns(configured: &[String], requested: &[String]) -> (r: Vec<String>)
    ensures
        views(r@) == if configured@.len() > 0 {
            views(configured@)
        } else {
            views(requested@)
        },
{
    let source = if configured.len() > 0 {
        configured
    } else {
        requested
    };
    let mut out: Vec<String> = Vec::new();
    let mut i: usize = 0;
    while i < source.len()
        invariant
            i <= source@.len(),
            views(out@) == views(source@.take(i as int)),
        decreases source@.len() - i,
    {
        let ghost prev = out@;
        out.push(owned(source[i].as_str()));
        proof {
            assert(views(out@) =~= views(prev).push(source@[i as int]@));
            assert(source@.take(i + 1) =~= source@.take(i as int).push(source@[i as int]));
            assert(views(source@.take(i + 1)) =~= views(source@.take(i as int)).push(source@[i as int]@));
        }
        i = i + 1;
    }
    proof {
        assert(source@.take(source@.len() as int) =~= source@);
    }
    out
}

/// A plugin's report age limit in seconds: its configured `max-age`, else the default
/// of [`MAX_COVERAGE_AGE_DAYS`] days.
pub fn max_report_age_secs(configured_secs: Option<u64>) -> (r: u64)
    ensures
        r == match configured_secs {
            Some(s) => s as int,
            None => MAX_COVERAGE_AGE_DAYS * 86_400,
        },
{
    match configured_secs {
        Some(s) => s,
        None => MAX_COVERAGE_AGE_DAYS * 86_400,
    }
}

/// Whether a report of the given age (seconds since it was modified; unknown when the
/// filesystem cannot say) is too old to ingest: only a known age past the limit is.
pub fn is_stale_report(age_secs: Option<u64>, max_age_secs: u64) -> (r: bool)
    ensures
        r == (age_secs matches Some(a) && a > max_age_secs),
{
    match age_secs {
        Some(a) => a > max_age_secs,
        None => false,
    }
}

/// What an ingested report is recorded as: `plugin report (Nd old)`, whole days, an
/// unknown age counting as none.
pub open spec fn coverage_source_text(plugin_id: Seq<char>, rel: Seq<char>, age_secs: Option<u64>) -> Seq<char> {
    let days: nat = match age_secs {
        Some(a) => (a / 86_400) as nat,
        None => 0,
    };
    plugin_id + " "@ + rel + " ("@ + decimal_text(days) + "d old)"@
}

/// The record of one ingested report.
pub fn coverage_source(plugin_id: &str, rel: &str, age_secs: Option<u64>) -> (r: String)
    ensures
        r@ == coverage_source_text(plugin_id@, rel@, age_secs),
{
    let days = match age_secs {
        Some(a) => a / 86_400,
        None => 0,
    };
    let mut s = owned(plugin_id);
    s.append(" ");
    s.append(rel);
    s.append(" (");
    let text = decimal(days);
    s.append(text.as_str());
    s.append("d old)");
    proof {
        assert(s@ =~= coverage_source_text(plugin_id@, rel@, age_secs));
    }
    s
}

/// The warning for a report that exists but cannot be read, with the system's reason.
pub fn unreadable_report_message(rel: &str, reason: &str) -> (r: String)
    ensures
        r@ == "coverage report "@ + rel@ + " could not be read: "@ + reason@,
{
    let mut s = owned("coverage report ");
    s.append(rel);
    s.append(" could not be read: ");
    s.append(reason);
    s
}

} // verus!
