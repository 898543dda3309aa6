//! The assembled, language-neutral project graph: files, symbols, packages and the
//! edges between them, and the read-only questions analyses ask of it.

use vstd::prelude::*;

use crate::text::{compare_str, join3, owned, str_eq, Comparison};
use crate::vocab::{
    pos_le, position_le, Confidence, CyclePolicy, Edge, ExecutableTarget, FileClass, FileId,
    PackageId, ProjectPath, Span, SymbolId, VisibilityLevel, VisibilityRung,
};

pub mod surface;
pub mod provenance;
pub mod plugin_round;
pub mod key;
pub mod assemble;
pub mod declarations;
pub mod resolve;
pub mod patch;
pub mod gating;
pub mod library;
pub mod manifests;
pub mod imports;
pub mod references;
pub mod reexports;
pub mod symbol_tables;
pub mod file_resolution;

verus! {

/// One discovered file.
#[derive(Debug, Clone)]
pub struct FileNode {
    pub path: ProjectPath,
    pub content_hash: [u8; 32],
    /// The claiming adapter's language; `None` for an unclaimed file.
    pub language: Option<String>,
    pub class: Option<FileClass>,
    /// Every file belongs to exactly one package; `PackageId(0)` is the implicit one.
    pub package: PackageId,
    pub unit: Option<String>,
    pub unit_parent: Option<String>,
    /// Sub-file test regions, sorted by span.
    pub test_spans: Vec<Span>,
}

/// Whether `span` lies inside one of `regions`, inclusively, in `(line, column)` order.
pub open spec fn in_test_region(regions: Seq<Span>, span: Span) -> bool {
    exists|i: int|
        0 <= i < regions.len() && pos_le(#[trigger] regions[i].start, span.start) && pos_le(
            span.end,
            regions[i].end,
        )
}

/// Whether `span` lies inside any of `regions` — inclusive containment on the
/// `(line, column)` order.
pub fn span_in_test_region(regions: &[Span], span: Span) -> (r: bool)
    ensures
        r == in_test_region(regions@, span),
{
    let mut i: usize = 0;
    while i < regions.len()
        invariant
            i <= regions@.len(),
            forall|k: int|
                0 <= k < i ==> !(pos_le(#[trigger] regions@[k].start, span.start) && pos_le(
                    span.end,
                    regions@[k].end,
                )),
        decreases regions@.len() - i,
    {
        let r = regions[i];
        if position_le(r.start, span.start) && position_le(span.end, r.end) {
            return true;
        }
        i = i + 1;
    }
    false
}

/// A span lies in the test regions exactly when some region — whichever its place in
/// the list — starts at or before the span's start and ends at or after the span's end,
/// positions compared by line, then column.
pub proof fn lemma_test_region_membership(regions: Seq<Span>, span: Span)
    ensures
        in_test_region(regions, span) <==> exists|k: int|
            0 <= k < regions.len() && ((#[trigger] regions[k]).start.0 < span.start.0 || (regions[k].start.0
                == span.start.0 && regions[k].start.1 <= span.start.1)) && (span.end.0 < regions[k].end.0 || (
            span.end.0 == regions[k].end.0 && span.end.1 <= regions[k].end.1)),
{
    if exists|k: int|
        0 <= k < regions.len() && ((#[trigger] regions[k]).start.0 < span.start.0 || (regions[k].start.0
            == span.start.0 && regions[k].start.1 <= span.start.1)) && (span.end.0 < regions[k].end.0 || (
        span.end.0 == regions[k].end.0 && span.end.1 <= regions[k].end.1)) {
        let k = choose|k: int|
            0 <= k < regions.len() && ((#[trigger] regions[k]).start.0 < span.start.0 || (regions[k].start.0
                == span.start.0 && regions[k].start.1 <= span.start.1)) && (span.end.0 < regions[k].end.0 || (
            span.end.0 == regions[k].end.0 && span.end.1 <= regions[k].end.1));
        assert(pos_le(regions[k].start, span.start) && pos_le(span.end, regions[k].end));
    }
}

/// Any one covering region is enough, wherever it stands in the list.
pub proof fn lemma_covering_region_suffices(regions: Seq<Span>, span: Span, k: int)
    requires
        0 <= k < regions.len(),
        regions[k].start.0 < span.start.0 || (regions[k].start.0 == span.start.0 && regions[k].start.1 <= span.start.1),
        span.end.0 < regions[k].end.0 || (span.end.0 == regions[k].end.0 && span.end.1 <= regions[k].end.1),
    ensures
        in_test_region(regions, span),
{
    lemma_test_region_membership(regions, span);
}

/// What kind of thing a symbol declares.
#[derive(Debug, Clone, Copy, PartialEq, Eq, Structural)]
pub enum SymbolKind {
    Function,
    Method,
    Struct,
    Enum,
    Trait,
    Interface,
    Class,
    Constructor,
    TypeAlias,
    Constant,
    Variable,
    Module,
}

/// The subject kind a symbol's findings report: the kind's lower-case name.
pub open spec fn facet_text(k: SymbolKind) -> Seq<char> {
    match k {
        SymbolKind::Function => "function"@,
        SymbolKind::Method => "method"@,
        SymbolKind::Struct => "struct"@,
        SymbolKind::Enum => "enum"@,
        SymbolKind::Trait => "trait"@,
        SymbolKind::Interface => "interface"@,
        SymbolKind::Class => "class"@,
        SymbolKind::Constructor => "constructor"@,
        SymbolKind::TypeAlias => "type_alias"@,
        SymbolKind::Constant => "constant"@,
        SymbolKind::Variable => "variable"@,
        SymbolKind::Module => "module"@,
    }
}

impl SymbolKind {
    pub fn facet(&self) -> (r: &'static str)
        ensures
            r@ == facet_text(*self),
    {
        match self {
            SymbolKind::Function => "function",
            SymbolKind::Method => "method",
            SymbolKind::Struct => "struct",
            SymbolKind::Enum => "enum",
            SymbolKind::Trait => "trait",
            SymbolKind::Interface => "interface",
            SymbolKind::Class => "class",
            SymbolKind::Constructor => "constructor",
            SymbolKind::TypeAlias => "type_alias",
            SymbolKind::Constant => "constant",
            SymbolKind::Variable => "variable",
            SymbolKind::Module => "module",
        }
    }
}

/// One declaration.
#[derive(Debug, Clone)]
pub struct SymbolNode {
    pub file: FileId,
    /// Bare name; for members the owner lives in `member_of`.
    pub name: String,
    pub kind: SymbolKind,
    pub span: Span,
    pub exported: bool,
    pub visibility: VisibilityLevel,
    pub member_of: Option<String>,
    pub signature_span: Option<Span>,
    pub implicitly_invoked: bool,
    pub nested_scope: bool,
    pub visibility_inherited: bool,
    pub visible_in_unit: Option<String>,
    pub implements: Option<String>,
    pub markers: Vec<String>,
}

/// The display/selector form of a symbol: `Owner.name` for members, the bare name
/// otherwise.
pub open spec fn qualified(s: SymbolNode) -> Seq<char> {
    match s.member_of {
        Some(owner) => owner@ + "."@ + s.name@,
        None => s.name@,
    }
}

impl SymbolNode {
    pub fn qualified_name(&self) -> (r: String)
        ensures
            r@ == qualified(*self),
    {
        match &self.member_of {
            Some(owner) => join3(owner.as_str(), ".", self.name.as_str()),
            None => owned(self.name.as_str()),
        }
    }
}

/// One callable shape's metrics.
#[derive(Debug, Clone)]
pub struct SymbolMetrics {
    pub shape_span: Span,
    /// 0 for the declaration's own shape, 1..N for nested callables in pre-order.
    pub shape_ordinal: u16,
    pub cyclomatic: u32,
    pub loc: u32,
    pub token_count: u32,
    pub fingerprints: Vec<u64>,
    pub body_is_construction: bool,
}

/// A member-type fact: accessing `member` on `owner` yields `yields`, with its type
/// parameters.
#[derive(Debug, Clone)]
pub struct RawMemberType {
    pub owner: String,
    pub member: String,
    pub yields: String,
    pub yields_params: Vec<String>,
}

/// One resolved import binding: `name` in the owning file binds to `target`.
#[derive(Debug, Clone)]
pub struct ModuleBinding {
    pub name: String,
    pub target: FileId,
}

/// One resolved re-export alias: importing `name` from the owning file resolves to
/// `symbol`.
#[derive(Debug, Clone)]
pub struct AliasEntry {
    pub name: String,
    pub symbol: SymbolId,
}

/// Per-file state the incremental patch needs beyond the graph proper.
#[derive(Debug, Clone)]
pub struct FilePatchMeta {
    pub surface_sig: Option<[u8; 32]>,
    pub unit_name: Option<String>,
    pub reexport_aliases: Vec<AliasEntry>,
    pub member_types: Vec<RawMemberType>,
    pub module_bindings: Vec<ModuleBinding>,
}

/// A package consumed as a dependency.
#[derive(Debug, Clone)]
pub struct DependencyNode {
    pub name: String,
}

/// A workspace unit: one manifest and the file tree it governs.
#[derive(Debug, Clone)]
pub struct PackageNode {
    pub manifest: Option<ProjectPath>,
    pub name: Option<String>,
    pub private: bool,
    pub declares_surface: bool,
    pub surface: Vec<FileId>,
    pub workspace_entry: Option<(ProjectPath, Confidence)>,
    pub targets: Vec<ProjectPath>,
    pub executables: Vec<ExecutableTarget>,
    pub resolves_dependency_usage: bool,
    /// Every adapter language whose manifest claim accepts this manifest.
    pub manifest_claim_languages: Vec<String>,
}

/// Whether a file of `language` answers to the package's dependency declarations:
/// always for the implicit, manifest-less package; otherwise when the language is
/// one that could claim the manifest.
pub open spec fn governs(p: PackageNode, language: Option<Seq<char>>) -> bool {
    p.manifest is None || match language {
        Some(lang) => exists|i: int|
            0 <= i < p.manifest_claim_languages@.len() && #[trigger] p.manifest_claim_languages@[i]@
                == lang,
        None => false,
    }
}

impl PackageNode {
    pub fn governs_dependencies_of(&self, language: Option<&str>) -> (r: bool)
        ensures
            r == governs(
                *self,
                match language {
                    Some(l) => Some(l@),
                    None => None,
                },
            ),
    {
        if self.manifest.is_none() {
            return true;
        }
        match language {
            None => false,
            Some(lang) => {
                let mut i: usize = 0;
                while i < self.manifest_claim_languages.len()
                    invariant
                        language == Some(lang),
                        self.manifest is Some,
                        i <= self.manifest_claim_languages@.len(),
                        forall|k: int|
                            0 <= k < i ==> #[trigger] self.manifest_claim_languages@[k]@ != lang@,
                    decreases self.manifest_claim_languages@.len() - i,
                {
                    if str_eq(self.manifest_claim_languages[i].as_str(), lang) {
                        proof {
                            assert(self.manifest_claim_languages@[i as int]@ == lang@);
                            assert(governs(*self, Some(lang@)));
                        }
                        return true;
                    }
                    i = i + 1;
                }
                false
            },
        }
    }
}

/// The scope a dependency declaration applies to.
#[derive(Debug, Clone, Copy, PartialEq, Eq, Structural)]
pub enum DependencyScope {
    Prod,
    Dev,
    Build,
    Peer,
    Optional,
}

/// One manifest's declaration of an external dependency.
#[derive(Debug, Clone)]
pub struct DeclaredDependency {
    pub package: PackageId,
    pub manifest: ProjectPath,
    pub name: String,
    pub version_req: Option<String>,
    pub scope: DependencyScope,
}

/// A relative import that resolved to no file.
#[derive(Debug, Clone)]
pub struct UnresolvedImport {
    pub specifier: String,
    pub span: Span,
    pub confidence: Confidence,
}

/// Where a suppression pragma applies.
#[derive(Debug, Clone, Copy, PartialEq, Eq, Structural)]
pub enum SuppressionScope {
    Declaration,
    File,
}

/// A `kndo:allow` pragma as extracted.
#[derive(Debug, Clone)]
pub struct RawSuppression {
    pub span: Span,
    pub category: String,
    pub subject: Option<String>,
    pub reason: Option<String>,
    pub scope: SuppressionScope,
}

/// The assembled graph.
#[derive(Debug)]
pub struct ProjectGraph {
    pub files: Vec<FileNode>,
    pub symbols: Vec<SymbolNode>,
    pub dependencies: Vec<DependencyNode>,
    pub declared_dependencies: Vec<DeclaredDependency>,
    pub script_invoked_dependencies: Vec<(PackageId, String)>,
    pub packages: Vec<PackageNode>,
    pub edges: Vec<Edge>,
    pub suppressions: Vec<(FileId, RawSuppression)>,
    pub visibility_ladders: Vec<(String, Vec<VisibilityRung>)>,
    pub testable_languages: Vec<(String, bool)>,
    pub cycle_policies: Vec<(String, CyclePolicy)>,
    pub function_metrics: Vec<(SymbolId, SymbolMetrics)>,
    pub patch_meta: Vec<FilePatchMeta>,
    /// Symbols a plugin marked externally consumed; sorted, deduplicated.
    pub externally_consumed: Vec<SymbolId>,
    /// Members a plugin marked machinery-invoked; sorted, deduplicated.
    pub plugin_implicitly_invoked: Vec<SymbolId>,
    pub unresolved_imports: Vec<(FileId, UnresolvedImport)>,
}

/// Strictly increasing ids.
pub open spec fn strictly_sorted(s: Seq<SymbolId>) -> bool {
    forall|i: int, j: int| 0 <= i < j < s.len() ==> s[i].0 < s[j].0
}

/// Whether `id` occurs in `s`.
pub open spec fn has_id(s: Seq<SymbolId>, id: SymbolId) -> bool {
    exists|i: int| 0 <= i < s.len() && s[i] == id
}

/// Binary search over a strictly increasing id list.
pub fn sorted_contains(s: &Vec<SymbolId>, id: SymbolId) -> (r: bool)
    requires
        strictly_sorted(s@),
    ensures
        r == has_id(s@, id),
{
    let mut lo: usize = 0;
    let mut hi: usize = s.len();
    while lo < hi
        invariant
            hi <= s@.len(),
            strictly_sorted(s@),
            forall|i: int| 0 <= i < lo ==> s@[i].0 < id.0,
            forall|i: int| hi <= i < s@.len() ==> s@[i].0 > id.0,
        decreases hi - lo,
    {
        let mid = lo + (hi - lo) / 2;
        let v = s[mid].0;
        if v == id.0 {
            return true;
        } else if v < id.0 {
            lo = mid + 1;
        } else {
            hi = mid;
        }
    }
    proof {
        if has_id(s@, id) {
            let i = choose|i: int| 0 <= i < s@.len() && s@[i] == id;
            assert(i < lo || i >= hi);
        }
    }
    false
}

/// The first `(language, value)` pair for `language`.
pub open spec fn first_for<T>(table: Seq<(String, T)>, language: Seq<char>) -> Option<T> {
    if exists|i: int| 0 <= i < table.len() && table[i].0@ == language {
        let i = choose|i: int|
            0 <= i < table.len() && table[i].0@ == language && forall|k: int|
                0 <= k < i ==> #[trigger] table[k].0@ != language;
        Some(table[i].1)
    } else {
        None
    }
}

/// Finds the first entry for `language`, returning its index.
fn first_index_for<T>(table: &Vec<(String, T)>, language: &str) -> (r: Option<usize>)
    ensures
        match r {
            Some(i) => i < table@.len() && table@[i as int].0@ == language@ && forall|k: int|
                0 <= k < i ==> #[trigger] table@[k].0@ != language@,
            None => forall|k: int| 0 <= k < table@.len() ==> #[trigger] table@[k].0@ != language@,
        },
{
    let mut i: usize = 0;
    while i < table.len()
        invariant
            i <= table@.len(),
            forall|k: int| 0 <= k < i ==> #[trigger] table@[k].0@ != language@,
        decreases table@.len() - i,
    {
        if str_eq(table[i].0.as_str(), language) {
            return Some(i);
        }
        i = i + 1;
    }
    None
}

proof fn lemma_first_for<T>(table: Seq<(String, T)>, language: Seq<char>, i: int)
    requires
        0 <= i < table.len(),
        table[i].0@ == language,
        forall|k: int| 0 <= k < i ==> #[trigger] table[k].0@ != language,
    ensures
        first_for(table, language) == Some(table[i].1),
{
    let j = choose|j: int|
        0 <= j < table.len() && table[j].0@ == language && forall|k: int|
            0 <= k < j ==> #[trigger] table[k].0@ != language;
    assert(j == i) by {
        if j < i {
            assert(table[j].0@ != language);
        }
        if i < j {
            assert(table[i].0@ != language);
        }
    }
}

/// The path a file is stored under.
pub open spec fn file_path(g: ProjectGraph, i: int) -> Seq<char> {
    g.files@[i].path.0@
}

impl ProjectGraph {
    /// Whether a file of `language` can hold a unit of testing: the recorded answer for
    /// the language, `true` where none was recorded or no language is given.
    pub fn language_declares_units_of_testing(&self, language: Option<&String>) -> (r: bool)
        ensures
            match language {
                None => r,
                Some(l) => match first_for(self.testable_languages@, l@) {
                    Some(t) => r == t,
                    None => r,
                },
            },
    {
        let language = match language {
            None => return true,
            Some(l) => l,
        };
        match first_index_for(&self.testable_languages, language.as_str()) {
            Some(i) => {
                proof {
                    lemma_first_for(self.testable_languages@, language@, i as int);
                }
                self.testable_languages[i].1
            },
            None => true,
        }
    }

    /// The id of the file stored under `path`: the last such file, as a path index
    /// built over the file list keeps it.
    pub fn file_id(&self, path: &ProjectPath) -> (r: Option<FileId>)
        requires
            self.files@.len() <= 0x1_0000_0000,
        ensures
            match r {
                Some(f) => f.0 < self.files@.len() && file_path(*self, f.0 as int) == path.0@
                    && forall|k: int|
                    f.0 < k < self.files@.len() ==> #[trigger] file_path(*self, k) != path.0@,
                None => forall|k: int|
                    0 <= k < self.files@.len() ==> #[trigger] file_path(*self, k) != path.0@,
            },
    {
        let mut i: usize = self.files.len();
        while i > 0
            invariant
                i <= self.files@.len() <= 0x1_0000_0000,
                forall|k: int|
                    i <= k < self.files@.len() ==> #[trigger] file_path(*self, k) != path.0@,
            decreases i,
        {
            if str_eq(self.files[i - 1].path.0.as_str(), path.0.as_str()) {
                return Some(FileId((i - 1) as u32));
            }
            i = i - 1;
        }
        None
    }

    /// Whether a plugin marked this symbol externally consumed.
    pub fn is_externally_consumed(&self, id: SymbolId) -> (r: bool)
        requires
            strictly_sorted(self.externally_consumed@),
        ensures
            r == has_id(self.externally_consumed@, id),
    {
        sorted_contains(&self.externally_consumed, id)
    }

    /// Whether a plugin marked this member machinery-invoked.
    pub fn is_plugin_implicitly_invoked(&self, id: SymbolId) -> (r: bool)
        requires
            strictly_sorted(self.plugin_implicitly_invoked@),
        ensures
            r == has_id(self.plugin_implicitly_invoked@, id),
    {
        sorted_contains(&self.plugin_implicitly_invoked, id)
    }

    /// The visibility ladder declared for `language`, if any.
    pub fn ladder_for(&self, language: &str) -> (r: Option<&[VisibilityRung]>)
        ensures
            match first_for(self.visibility_ladders@, language@) {
                Some(l) => r is Some && r->0@ == l@,
                None => r is None,
            },
    {
        match first_index_for(&self.visibility_ladders, language) {
            Some(i) => {
                proof {
                    lemma_first_for(self.visibility_ladders@, language@, i as int);
                }
                Some(self.visibility_ladders[i].1.as_slice())
            },
            None => None,
        }
    }

    /// The cycle policy declared for `language`, if any.
    pub fn cycle_policy_for(&self, language: &str) -> (r: Option<CyclePolicy>)
        ensures
            r == first_for(self.cycle_policies@, language@),
    {
        match first_index_for(&self.cycle_policies, language) {
            Some(i) => {
                proof {
                    lemma_first_for(self.cycle_policies@, language@, i as int);
                }
                Some(self.cycle_policies[i].1)
            },
            None => None,
        }
    }

    /// The declared name of a package, when its manifest declared one.
    pub fn package_name(&self, package: PackageId) -> (r: Option<&str>)
        requires
            package.0 < self.packages@.len(),
        ensures
            match self.packages@[package.0 as int].name {
                Some(n) => r is Some && r->0@ == n@,
                None => r is None,
            },
    {
        match &self.packages[package.0 as usize].name {
            Some(n) => Some(n.as_str()),
            None => None,
        }
    }
}

} // verus!
