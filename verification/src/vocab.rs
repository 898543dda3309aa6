//! The language-neutral vocabulary every graph, finding and diagnostic speaks:
//! node ids, spans, confidence tiers, provenance and edge kinds.

use vstd::prelude::*;

verus! {

/// A `(line, column)` position; positions order lexicographically.
pub open spec fn pos_le(a: (u32, u32), b: (u32, u32)) -> bool {
    a.0 < b.0 || (a.0 == b.0 && a.1 <= b.1)
}

/// Lexicographic `<=` on `(line, column)` positions.
pub fn position_le(a: (u32, u32), b: (u32, u32)) -> (r: bool)
    ensures
        r == pos_le(a, b),
{
    a.0 < b.0 || (a.0 == b.0 && a.1 <= b.1)
}

/// A source extent, `start` to `end`, both inclusive positions.
#[derive(Clone, Copy, Debug, PartialEq, Eq)]
pub struct Span {
    pub start: (u32, u32),
    pub end: (u32, u32),
}

/// A project-relative, `/`-separated path.
#[derive(Clone, Debug)]
pub struct ProjectPath(pub String);

#[derive(Clone, Copy, Debug, PartialEq, Eq, Structural, Hash)]
pub struct FileId(pub u32);

#[derive(Clone, Copy, Debug, PartialEq, Eq, Structural, Hash)]
pub struct SymbolId(pub u32);

#[derive(Clone, Copy, Debug, PartialEq, Eq, Structural, Hash)]
pub struct DependencyId(pub u32);

#[derive(Clone, Copy, Debug, PartialEq, Eq, Structural, Hash)]
pub struct PackageId(pub u32);

/// How sure a fact is. The tiers are ordered `Possible < Probable < Certain`.
#[derive(Clone, Copy, Debug, PartialEq, Eq, Structural)]
pub enum Confidence {
    Possible,
    Probable,
    Certain,
}

impl Confidence {
    /// The tier's position in the order, lowest first.
    pub open spec fn spec_rank(self) -> u8 {
        match self {
            Confidence::Possible => 0,
            Confidence::Probable => 1,
            Confidence::Certain => 2,
        }
    }

    #[verifier::when_used_as_spec(spec_rank)]
    pub fn rank(self) -> (r: u8)
        ensures
            r == self.spec_rank(),
    {
        match self {
            Confidence::Possible => 0,
            Confidence::Probable => 1,
            Confidence::Certain => 2,
        }
    }
}

/// What kind of liveness a root asserts.
#[derive(Clone, Copy, Debug, PartialEq, Eq, Structural)]
pub enum RootKind {
    Production,
    Test,
    Tooling,
}

/// How a reference uses its target.
#[derive(Clone, Copy, Debug, PartialEq, Eq, Structural)]
pub enum RefKind {
    Read,
    Write,
    Call,
    Type,
}

/// Which component a graph edge came from.
#[derive(Clone, Debug)]
pub enum Provenance {
    Adapter(String),
    Plugin(String),
    Surface,
}

/// Spec equality of provenances, by the strings they carry.
pub open spec fn provenance_eq(a: Provenance, b: Provenance) -> bool {
    match (a, b) {
        (Provenance::Adapter(x), Provenance::Adapter(y)) => x@ == y@,
        (Provenance::Plugin(x), Provenance::Plugin(y)) => x@ == y@,
        (Provenance::Surface, Provenance::Surface) => true,
        _ => false,
    }
}

/// A copy of a provenance, its string carried over character for character.
pub fn provenance_copy(p: &Provenance) -> (r: Provenance)
    ensures
        provenance_eq(r, *p),
{
    match p {
        Provenance::Adapter(s) => Provenance::Adapter(s.clone()),
        Provenance::Plugin(s) => Provenance::Plugin(s.clone()),
        Provenance::Surface => Provenance::Surface,
    }
}

/// A graph node an edge endpoint may name: a file or a symbol.
#[derive(Clone, Copy, Debug, PartialEq, Eq, Structural)]
pub enum NodeRef {
    File(FileId),
    Symbol(SymbolId),
}

#[allow(inconsistent_fields)]
#[derive(Clone, Copy, Debug, PartialEq, Eq, Structural)]
pub enum EdgeKind {
    ImportsFile { from: FileId, to: FileId },
    ImportsDependency { from: FileId, to: DependencyId },
    References { from: NodeRef, to: SymbolId, kind: RefKind },
    Declares { file: FileId, symbol: SymbolId },
    Root { kind: RootKind, target: NodeRef },
    Wildcard { from: FileId },
    ReferencesFile { from: NodeRef, to: FileId },
    InvokesFile { from: NodeRef, to: FileId },
}

#[derive(Clone, Debug)]
pub struct Edge {
    pub kind: EdgeKind,
    pub confidence: Confidence,
    pub source: Provenance,
    pub span: Option<Span>,
    /// The file whose change invalidates this edge.
    pub owner: FileId,
}

/// The visibility scopes a declaration may be visible within, nesting
/// `File ⊂ Unit ⊂ Package ⊂ Public`.
#[derive(Clone, Copy, Debug, PartialEq, Eq, Structural)]
pub enum VisibilityScope {
    File,
    Unit,
    Package,
    Public,
}

/// One rung of a language's visibility ladder.
#[derive(Clone, Debug)]
pub struct VisibilityRung {
    pub scope: VisibilityScope,
    pub label: String,
    /// Whether a declaration on this rung travels through re-exports out of its package.
    pub surface_transitive: bool,
}

/// An index into a language's visibility ladder.
#[derive(Clone, Copy, Debug, PartialEq, Eq, Structural)]
pub struct VisibilityLevel(pub u8);

/// What a file is for.
#[derive(Clone, Copy, Debug, PartialEq, Eq, Structural)]
pub enum FileRole {
    Production,
    Test,
    Tooling,
}

/// Who wrote a file.
#[derive(Clone, Copy, Debug, PartialEq, Eq, Structural)]
pub enum FileOrigin {
    Authored,
    Generated,
    Vendored,
}

#[derive(Clone, Copy, Debug, PartialEq, Eq, Structural)]
pub struct FileClass {
    pub role: FileRole,
    pub origin: FileOrigin,
}

/// How much a language tolerates import cycles.
#[derive(Clone, Copy, Debug, PartialEq, Eq, Structural)]
pub enum CycleTolerance {
    Hazard,
    Tolerated,
    Forbidden,
}

#[derive(Clone, Copy, Debug, PartialEq, Eq, Structural)]
pub struct CyclePolicy {
    pub file_cycles: CycleTolerance,
    pub package_cycles: CycleTolerance,
}

/// A declared executable target: its name and the file it enters through.
#[derive(Clone, Debug)]
pub struct ExecutableTarget {
    pub name: String,
    pub entry: ProjectPath,
}

#[derive(Clone, Copy, Debug, PartialEq, Eq, Structural)]
pub enum DiagnosticLevel {
    Info,
    Warn,
    Error,
}

/// A problem a run reports without failing.
#[derive(Clone, Debug)]
pub struct Diagnostic {
    pub level: DiagnosticLevel,
    pub path: Option<ProjectPath>,
    pub message: String,
    pub span: Option<Span>,
}

} // verus!
