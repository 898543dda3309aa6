//! The reference half of one file's resolution. Each reference is attributed to the
//! declaration it executes inside (else to its file), then resolved in order: a
//! matched import qualifier settles it; a dotted or in-scope qualifier names members
//! of the symbol it resolves to; a bare name is looked up among the file's imported
//! bindings, its own declarations, its unit's, then the units its imports make
//! visible; what is left falls back to every same-language member of that name whose
//! declared visibility reaches the site, at a confidence that says how many there are.

use vstd::prelude::*;

use rustc_hash::FxHashMap;

use crate::fx::{
    chars_of, qualifier_entries, qualifiers_get, str_ids, str_ids_get, str_lists, str_lists_get, unit_symbols,
    unit_table_get,
};
use crate::graph::assemble::{core_dirname, dirname, governs_dir, package_owns, scope_contains, scope_contains_site};
use crate::graph::imports::{adapter_source, edge_view};
use crate::graph::resolve::{
    bound_wf, chained_member_targets, chained_targets, ids_below, ids_of, in_scope_member_targets, in_scope_targets,
    qualified_member_targets, qualified_targets, tables_wf, ResolveTables,
};
use crate::graph::surface::{last_ladder, last_ladder_index};
use crate::graph::{FileNode, SymbolNode};
use crate::text::{join3, str_eq, views};
use crate::vocab::{
    Confidence, Edge, EdgeKind, FileId, NodeRef, Provenance, RefKind, Span, SymbolId, VisibilityLevel, VisibilityRung,
    VisibilityScope,
};

verus! {

/// One name use a file makes, as resolution reads it.
#[derive(Debug, Clone)]
pub struct RawReference {
    pub name: String,
    /// The declaration the use executes inside, by bare or qualified name, where the
    /// adapter knows it.
    pub within: Option<String>,
    /// What was written before the name (`q` of `q.name`), if anything.
    pub scope_context: Option<String>,
    pub kind: RefKind,
    pub span: Span,
}

/// What reference resolution reads besides the per-file tables, by its contents.
pub struct ReferenceWorld {
    /// The names the file's imports bind, to their symbols.
    pub bound: Map<Seq<char>, u32>,
    /// The file's import qualifiers, to the file each reaches and whether it settles.
    pub qualifiers: Map<Seq<char>, (u32, bool)>,
    /// Each file's unit, if it has one.
    pub units: Seq<Option<String>>,
    /// Each unit's top-level names, to their symbols.
    pub unit_tables: Map<Seq<char>, Map<Seq<char>, u32>>,
    /// Each member name, to every member declared under it.
    pub members: Map<Seq<char>, Seq<u32>>,
    /// The units whose names the file's imports make visible bare, in order.
    pub visible: Seq<Seq<char>>,
    pub files: Seq<FileNode>,
    /// Each language's visibility ladder.
    pub ladders: Seq<(String, Vec<VisibilityRung>)>,
}

/// The world of the given tables, by their contents.
pub open spec fn reference_world(
    bound_symbols: FxHashMap<String, u32>,
    qualifiers: FxHashMap<String, (u32, bool)>,
    file_unit: Seq<Option<String>>,
    unit_tables: FxHashMap<String, FxHashMap<String, u32>>,
    member_by_name: FxHashMap<String, Vec<u32>>,
    visible_units: Seq<String>,
    files: Seq<FileNode>,
    ladders: Seq<(String, Vec<VisibilityRung>)>,
) -> ReferenceWorld {
    ReferenceWorld {
        bound: str_ids(bound_symbols),
        qualifiers: qualifier_entries(qualifiers),
        units: file_unit,
        unit_tables: unit_symbols(unit_tables),
        members: str_lists(member_by_name),
        visible: views(visible_units),
        files,
        ladders,
    }
}

/// The world fits the tables: one unit entry and one file node per file, every
/// qualifier onto a file, every member a symbol.
pub open spec fn world_wf(t: ResolveTables, w: ReferenceWorld) -> bool {
    let n = t.symbol_by_name_per_file@.len();
    &&& w.units.len() == n
    &&& w.files.len() == n
    &&& forall|q: Seq<char>| #[trigger] w.qualifiers.contains_key(q) ==> w.qualifiers[q].0 < n
    &&& forall|k: Seq<char>, x: int|
        #![trigger w.members[k][x]]
        w.members.contains_key(k) && 0 <= x < w.members[k].len() ==> w.members[k][x] < t.symbols@.len()
}

/// The node a reference of file `i` is attributed to: the declaration it executes
/// inside, by bare then qualified name in the file, else the file itself.
pub open spec fn reference_origin(t: ResolveTables, i: int, within: Option<String>) -> NodeRef {
    match within {
        Some(w) => {
            let by_name = str_ids(t.symbol_by_name_per_file@[i]);
            let by_qualified = str_ids(t.symbol_by_qualified_per_file@[i]);
            if by_name.contains_key(w@) {
                NodeRef::Symbol(SymbolId(by_name[w@]))
            } else if by_qualified.contains_key(w@) {
                NodeRef::Symbol(SymbolId(by_qualified[w@]))
            } else {
                NodeRef::File(FileId(i as u32))
            }
        },
        None => NodeRef::File(FileId(i as u32)),
    }
}

/// A reference edge of file `i`, by kind, confidence, span and owner.
pub open spec fn reference_edge(
    i: int,
    from: NodeRef,
    to: u32,
    kind: RefKind,
    confidence: Confidence,
    span: Span,
) -> (EdgeKind, Confidence, Option<Span>, FileId) {
    (EdgeKind::References { from, to: SymbolId(to), kind }, confidence, Some(span), FileId(i as u32))
}

/// One reference edge onto each of `targets`, in order.
pub open spec fn edges_onto(
    i: int,
    from: NodeRef,
    targets: Seq<u32>,
    kind: RefKind,
    confidence: Confidence,
    span: Span,
) -> Seq<(EdgeKind, Confidence, Option<Span>, FileId)> {
    targets.map_values(|to: u32| reference_edge(i, from, to, kind, confidence, span))
}

/// A list of edges by kind, confidence, span and owner.
pub open spec fn edge_views(s: Seq<Edge>) -> Seq<(EdgeKind, Confidence, Option<Span>, FileId)> {
    s.map_values(|e: Edge| edge_view(e))
}

/// Every edge came from adapter `adapter`.
pub open spec fn all_from(s: Seq<Edge>, adapter: Seq<char>) -> bool {
    forall|q: int| 0 <= q < s.len() ==> ((#[trigger] s[q]).source matches Provenance::Adapter(a) && a@ == adapter)
}

/// `name` among file `f`'s own names, then among its unit's top-level names.
pub open spec fn declared_in_file_or_unit(t: ResolveTables, w: ReferenceWorld, f: int, name: Seq<char>) -> Option<u32> {
    let own = str_ids(t.symbol_by_name_per_file@[f]);
    if own.contains_key(name) {
        Some(own[name])
    } else {
        match w.units[f] {
            Some(u) => if w.unit_tables.contains_key(u@) && w.unit_tables[u@].contains_key(name) {
                Some(w.unit_tables[u@][name])
            } else {
                None
            },
            None => None,
        }
    }
}

/// What `q.name` resolves to when `q` is an import qualifier: the name in the target
/// file or its unit, else, where `q` names a type in the target, that type's member
/// `q.name` in the type's home file (twins included). `None` when `q` is no qualifier,
/// or when a qualifier that does not settle finds nothing.
pub open spec fn qualifier_resolution(t: ResolveTables, w: ReferenceWorld, q: Seq<char>, name: Seq<char>) -> Option<
    Seq<u32>,
> {
    if w.qualifiers.contains_key(q) {
        let (target, settles) = w.qualifiers[q];
        let targets = match declared_in_file_or_unit(t, w, target as int, name) {
            Some(s) => seq![s],
            None => {
                let own = str_ids(t.symbol_by_name_per_file@[target as int]);
                if own.contains_key(q) {
                    let home = t.symbols@[own[q] as int].file.0 as int;
                    qualified_targets(
                        str_ids(t.symbol_by_qualified_per_file@[home]),
                        str_lists(t.qualified_twins_per_file@[home]),
                        q + "."@ + name,
                    )
                } else {
                    Seq::empty()
                }
            },
        };
        if targets.len() > 0 || settles {
            Some(targets)
        } else {
            None
        }
    } else {
        None
    }
}

/// `name` in the first of the first `k` visible units that declares it.
pub open spec fn first_in_units(
    unit_tables: Map<Seq<char>, Map<Seq<char>, u32>>,
    visible: Seq<Seq<char>>,
    name: Seq<char>,
    k: int,
) -> Option<u32>
    decreases k,
{
    if k <= 0 {
        None
    } else {
        match first_in_units(unit_tables, visible, name, k - 1) {
            Some(s) => Some(s),
            None => {
                let u = visible[k - 1];
                if unit_tables.contains_key(u) && unit_tables[u].contains_key(name) {
                    Some(unit_tables[u][name])
                } else {
                    None
                }
            },
        }
    }
}

/// What a bare name of file `i` resolves to: an imported binding, then the file's own
/// declaration or its unit's, then the first visible unit declaring it.
pub open spec fn bare_target(t: ResolveTables, w: ReferenceWorld, i: int, name: Seq<char>) -> Option<u32> {
    if w.bound.contains_key(name) {
        Some(w.bound[name])
    } else {
        match declared_in_file_or_unit(t, w, i, name) {
            Some(s) => Some(s),
            None => first_in_units(w.unit_tables, w.visible, name, w.visible.len() as int),
        }
    }
}

/// The scope a rung gives: a rung the ladder covers gives its own, anything else is
/// public.
pub open spec fn rung_scope(ladder: Option<Seq<VisibilityRung>>, vis: VisibilityLevel) -> VisibilityScope {
    match ladder {
        Some(l) => if vis.0 < l.len() {
            l[vis.0 as int].scope
        } else {
            VisibilityScope::Public
        },
        None => VisibilityScope::Public,
    }
}

/// The scope a member's declared visibility gives in its file's language.
pub open spec fn member_scope(w: ReferenceWorld, sym: SymbolNode) -> VisibilityScope {
    match w.files[sym.file.0 as int].language {
        Some(l) => rung_scope(last_ladder(w.ladders, l@), sym.visibility),
        None => VisibilityScope::Public,
    }
}

/// Whether member `m` plausibly answers a bare use in file `i`: same language, and its
/// scope reaches the site.
pub open spec fn plausible_member(t: ResolveTables, w: ReferenceWorld, i: int, m: u32) -> bool {
    let sym = t.symbols@[m as int];
    let j = sym.file.0 as int;
    chars_of(w.files[j].language) == chars_of(w.files[i].language) && scope_contains(
        member_scope(w, sym),
        j,
        i,
        w.units,
        w.files,
    )
}

/// The plausible members among the first `k` of `list`, in order.
pub open spec fn plausible_upto(t: ResolveTables, w: ReferenceWorld, i: int, list: Seq<u32>, k: int) -> Seq<u32>
    decreases k,
{
    if k <= 0 {
        Seq::empty()
    } else {
        let before = plausible_upto(t, w, i, list, k - 1);
        if plausible_member(t, w, i, list[k - 1]) {
            before.push(list[k - 1])
        } else {
            before
        }
    }
}

/// Every member named `name` that plausibly answers a bare use in file `i`.
pub open spec fn duck_candidates(t: ResolveTables, w: ReferenceWorld, i: int, name: Seq<char>) -> Seq<u32> {
    if w.members.contains_key(name) {
        plausible_upto(t, w, i, w.members[name], w.members[name].len() as int)
    } else {
        Seq::empty()
    }
}

/// The member fallback for reference `r`: an edge onto each candidate, probable when
/// there is one, possible each when there are several.
pub open spec fn duck_edges(t: ResolveTables, w: ReferenceWorld, i: int, from: NodeRef, r: RawReference) -> Seq<
    (EdgeKind, Confidence, Option<Span>, FileId),
> {
    let candidates = duck_candidates(t, w, i, r.name@);
    let confidence = if candidates.len() == 1 {
        Confidence::Probable
    } else {
        Confidence::Possible
    };
    edges_onto(i, from, candidates, r.kind, confidence, r.span)
}

/// The edges reference `r` of file `i` becomes.
pub open spec fn reference_edges_of(t: ResolveTables, w: ReferenceWorld, i: int, r: RawReference) -> Seq<
    (EdgeKind, Confidence, Option<Span>, FileId),
> {
    let from = reference_origin(t, i, r.within);
    let duck = duck_edges(t, w, i, from, r);
    match r.scope_context {
        Some(q) => match qualifier_resolution(t, w, q@, r.name@) {
            Some(targets) => edges_onto(i, from, targets, r.kind, Confidence::Certain, r.span),
            None => if q@.contains('.') {
                let (targets, yielded) = chained_targets(t, w.bound, i, q@, r.name@);
                edges_onto(i, from, yielded, RefKind::Read, Confidence::Certain, r.span) + if targets.len() > 0 {
                    edges_onto(i, from, targets, r.kind, Confidence::Certain, r.span)
                } else {
                    duck
                }
            } else {
                let targets = in_scope_targets(t, w.bound, i, q@, r.name@);
                if targets.len() > 0 {
                    edges_onto(i, from, targets, r.kind, Confidence::Certain, r.span)
                } else {
                    duck
                }
            },
        },
        None => match bare_target(t, w, i, r.name@) {
            Some(to) => seq![reference_edge(i, from, to, r.kind, Confidence::Certain, r.span)],
            None => duck,
        },
    }
}

/// The edges of the first `k` references, in order.
pub open spec fn reference_edges_upto(t: ResolveTables, w: ReferenceWorld, i: int, refs: Seq<RawReference>, k: int) -> Seq<
    (EdgeKind, Confidence, Option<Span>, FileId),
>
    decreases k,
{
    if k <= 0 {
        Seq::empty()
    } else {
        reference_edges_upto(t, w, i, refs, k - 1) + reference_edges_of(t, w, i, refs[k - 1])
    }
}

/// Whether `c` occurs in `s`.
fn contains_char(s: &str, c: char) -> (r: bool)
    ensures
        r == s@.contains(c),
{
    let n = s.unicode_len();
    let mut k: usize = 0;
    while k < n
        invariant
            k <= n == s@.len(),
            forall|j: int| 0 <= j < k ==> s@[j] != c,
        decreases n - k,
    {
        if s.get_char(k) == c {
            proof {
                assert(s@[k as int] == c);
            }
            return true;
        }
        k = k + 1;
    }
    false
}

/// Whether two languages are the same, by their characters.
fn same_language(a: &Option<String>, b: &Option<String>) -> (r: bool)
    ensures
        r == (chars_of(*a) == chars_of(*b)),
{
    match (a, b) {
        (Some(x), Some(y)) => str_eq(x.as_str(), y.as_str()),
        (None, None) => true,
        _ => false,
    }
}

/// The node a reference of file `i` is attributed to.
fn origin_of(i: usize, within: &Option<String>, t: &ResolveTables) -> (r: NodeRef)
    requires
        tables_wf(*t),
        i < t.symbol_by_name_per_file@.len(),
    ensures
        r == reference_origin(*t, i as int, *within),
{
    match within {
        Some(w) => match str_ids_get(&t.symbol_by_name_per_file[i], w.as_str()) {
            Some(s) => NodeRef::Symbol(SymbolId(s)),
            None => match str_ids_get(&t.symbol_by_qualified_per_file[i], w.as_str()) {
                Some(s) => NodeRef::Symbol(SymbolId(s)),
                None => NodeRef::File(FileId(i as u32)),
            },
        },
        None => NodeRef::File(FileId(i as u32)),
    }
}

/// `name` among file `f`'s own names, then its unit's.
fn declared_in(
    f: usize,
    name: &str,
    file_unit: &[Option<String>],
    unit_tables: &FxHashMap<String, FxHashMap<String, u32>>,
    t: &ResolveTables,
    Ghost(w): Ghost<ReferenceWorld>,
) -> (r: Option<u32>)
    requires
        tables_wf(*t),
        f < t.symbol_by_name_per_file@.len(),
        file_unit@.len() == t.symbol_by_name_per_file@.len(),
        w.units == file_unit@,
        w.unit_tables == unit_symbols(*unit_tables),
    ensures
        r == declared_in_file_or_unit(*t, w, f as int, name@),
{
    match str_ids_get(&t.symbol_by_name_per_file[f], name) {
        Some(s) => Some(s),
        None => match &file_unit[f] {
            Some(u) => match unit_table_get(unit_tables, u.as_str()) {
                Some(tab) => str_ids_get(tab, name),
                None => None,
            },
            None => None,
        },
    }
}

/// What `q.name` resolves to through an import qualifier, as `qualifier_resolution`.
fn qualifier_targets(
    q: &str,
    name: &str,
    qualifiers: &FxHashMap<String, (u32, bool)>,
    file_unit: &[Option<String>],
    unit_tables: &FxHashMap<String, FxHashMap<String, u32>>,
    t: &ResolveTables,
    Ghost(w): Ghost<ReferenceWorld>,
) -> (r: Option<Vec<SymbolId>>)
    requires
        tables_wf(*t),
        world_wf(*t, w),
        w.units == file_unit@,
        w.unit_tables == unit_symbols(*unit_tables),
        w.qualifiers == qualifier_entries(*qualifiers),
    ensures
        match r {
            Some(v) => qualifier_resolution(*t, w, q@, name@) == Some(ids_of(v@)),
            None => qualifier_resolution(*t, w, q@, name@) is None,
        },
{
    match qualifiers_get(qualifiers, q) {
        None => None,
        Some((target, settles)) => {
            proof {
                assert(w.qualifiers.contains_key(q@));
            }
            let f = target as usize;
            let targets: Vec<SymbolId> = match declared_in(f, name, file_unit, unit_tables, t, Ghost(w)) {
                Some(s) => {
                    let mut v: Vec<SymbolId> = Vec::new();
                    v.push(SymbolId(s));
                    proof {
                        assert(ids_of(v@) =~= seq![s]);
                    }
                    v
                },
                None => match str_ids_get(&t.symbol_by_name_per_file[f], q) {
                    Some(ts) => {
                        proof {
                            assert(ids_below(str_ids(t.symbol_by_name_per_file@[f as int]), t.symbols@.len()));
                        }
                        let home = t.symbols[ts as usize].file.0 as usize;
                        let key = join3(q, ".", name);
                        qualified_member_targets(
                            &t.symbol_by_qualified_per_file[home],
                            &t.qualified_twins_per_file[home],
                            key.as_str(),
                        )
                    },
                    None => {
                        let v: Vec<SymbolId> = Vec::new();
                        proof {
                            assert(ids_of(v@) =~= Seq::<u32>::empty());
                        }
                        v
                    },
                },
            };
            if targets.len() > 0 || settles {
                Some(targets)
            } else {
                None
            }
        },
    }
}

proof fn lemma_first_in_units_stays(
    unit_tables: Map<Seq<char>, Map<Seq<char>, u32>>,
    visible: Seq<Seq<char>>,
    name: Seq<char>,
    k: int,
    m: int,
)
    requires
        k <= m,
        first_in_units(unit_tables, visible, name, k) is Some,
    ensures
        first_in_units(unit_tables, visible, name, m) == first_in_units(unit_tables, visible, name, k),
    decreases m - k,
{
    if k < m {
        lemma_first_in_units_stays(unit_tables, visible, name, k, m - 1);
    }
}

/// `name` in the first visible unit that declares it.
fn first_in_visible(
    name: &str,
    unit_tables: &FxHashMap<String, FxHashMap<String, u32>>,
    visible: &[String],
) -> (r: Option<u32>)
    ensures
        r == first_in_units(unit_symbols(*unit_tables), views(visible@), name@, visible@.len() as int),
{
    let ghost tabs = unit_symbols(*unit_tables);
    let mut k: usize = 0;
    while k < visible.len()
        invariant
            k <= visible@.len(),
            tabs == unit_symbols(*unit_tables),
            first_in_units(tabs, views(visible@), name@, k as int) is None,
        decreases visible@.len() - k,
    {
        match unit_table_get(unit_tables, visible[k].as_str()) {
            Some(tab) => match str_ids_get(tab, name) {
                Some(s) => {
                    proof {
                        assert(first_in_units(tabs, views(visible@), name@, k + 1) == Some(s));
                        lemma_first_in_units_stays(tabs, views(visible@), name@, k + 1, visible@.len() as int);
                    }
                    return Some(s);
                },
                None => {},
            },
            None => {},
        }
        k = k + 1;
    }
    None
}

/// What a bare name of file `i` resolves to, as `bare_target`.
fn bare_target_of(
    i: usize,
    name: &str,
    bound_symbols: &FxHashMap<String, u32>,
    file_unit: &[Option<String>],
    unit_tables: &FxHashMap<String, FxHashMap<String, u32>>,
    visible_units: &[String],
    t: &ResolveTables,
    Ghost(w): Ghost<ReferenceWorld>,
) -> (r: Option<u32>)
    requires
        tables_wf(*t),
        i < t.symbol_by_name_per_file@.len(),
        file_unit@.len() == t.symbol_by_name_per_file@.len(),
        w.bound == str_ids(*bound_symbols),
        w.units == file_unit@,
        w.unit_tables == unit_symbols(*unit_tables),
        w.visible == views(visible_units@),
    ensures
        r == bare_target(*t, w, i as int, name@),
{
    match str_ids_get(bound_symbols, name) {
        Some(s) => return Some(s),
        None => {},
    }
    match declared_in(i, name, file_unit, unit_tables, t, Ghost(w)) {
        Some(s) => return Some(s),
        None => {},
    }
    first_in_visible(name, unit_tables, visible_units)
}

/// The scope a member's declared visibility gives in its file's language.
fn scope_of(language: &Option<String>, vis: VisibilityLevel, ladders: &Vec<(String, Vec<VisibilityRung>)>) -> (r:
    VisibilityScope)
    ensures
        r == (match *language {
            Some(l) => rung_scope(last_ladder(ladders@, l@), vis),
            None => VisibilityScope::Public,
        }),
{
    match language {
        Some(l) => match last_ladder_index(ladders, l.as_str()) {
            Some(x) => {
                let rungs = &ladders[x].1;
                if (vis.0 as usize) < rungs.len() {
                    rungs[vis.0 as usize].scope
                } else {
                    VisibilityScope::Public
                }
            },
            None => VisibilityScope::Public,
        },
        None => VisibilityScope::Public,
    }
}

/// Whether member `m` plausibly answers a bare use in file `i`.
fn is_plausible(
    i: usize,
    m: u32,
    file_unit: &[Option<String>],
    files: &[FileNode],
    ladders: &Vec<(String, Vec<VisibilityRung>)>,
    t: &ResolveTables,
    Ghost(w): Ghost<ReferenceWorld>,
) -> (r: bool)
    requires
        tables_wf(*t),
        i < t.symbol_by_name_per_file@.len(),
        m < t.symbols@.len(),
        file_unit@.len() == t.symbol_by_name_per_file@.len(),
        files@.len() == t.symbol_by_name_per_file@.len(),
        w.units == file_unit@,
        w.files == files@,
        w.ladders == ladders@,
    ensures
        r == plausible_member(*t, w, i as int, m),
{
    let sym = &t.symbols[m as usize];
    let j = sym.file.0 as usize;
    if same_language(&files[j].language, &files[i].language) {
        let scope = scope_of(&files[j].language, sym.visibility, ladders);
        scope_contains_site(scope, j, i, file_unit, files)
    } else {
        false
    }
}

/// Every member named `name` that plausibly answers a bare use in file `i`, in order.
fn plausible_members(
    i: usize,
    name: &str,
    member_by_name: &FxHashMap<String, Vec<u32>>,
    file_unit: &[Option<String>],
    files: &[FileNode],
    ladders: &Vec<(String, Vec<VisibilityRung>)>,
    t: &ResolveTables,
    Ghost(w): Ghost<ReferenceWorld>,
) -> (r: Vec<SymbolId>)
    requires
        tables_wf(*t),
        world_wf(*t, w),
        i < t.symbol_by_name_per_file@.len(),
        w.units == file_unit@,
        w.members == str_lists(*member_by_name),
        w.files == files@,
        w.ladders == ladders@,
    ensures
        ids_of(r@) == duck_candidates(*t, w, i as int, name@),
{
    let mut out: Vec<SymbolId> = Vec::new();
    match str_lists_get(member_by_name, name) {
        Some(all) => {
            let mut k: usize = 0;
            while k < all.len()
                invariant
                    k <= all@.len(),
                    tables_wf(*t),
                    i < t.symbol_by_name_per_file@.len(),
                    file_unit@.len() == t.symbol_by_name_per_file@.len(),
                    files@.len() == t.symbol_by_name_per_file@.len(),
                    w.units == file_unit@,
                    w.files == files@,
                    w.ladders == ladders@,
                    forall|x: int| 0 <= x < all@.len() ==> #[trigger] all@[x] < t.symbols@.len(),
                    ids_of(out@) == plausible_upto(*t, w, i as int, all@, k as int),
                decreases all@.len() - k,
            {
                let m = all[k];
                let ghost before = out@;
                if is_plausible(i, m, file_unit, files, ladders, t, Ghost(w)) {
                    out.push(SymbolId(m));
                    proof {
                        assert(ids_of(out@) =~= ids_of(before).push(m));
                    }
                }
                k = k + 1;
            }
            proof {
                assert(all@ == w.members[name@]);
            }
        },
        None => {
            proof {
                assert(ids_of(out@) =~= Seq::<u32>::empty());
            }
        },
    }
    out
}

/// Appends one reference edge of file `i` onto each of `targets`, in order.
fn push_onto(
    edges: &mut Vec<Edge>,
    i: usize,
    from: NodeRef,
    targets: &Vec<SymbolId>,
    kind: RefKind,
    confidence: Confidence,
    span: Span,
    adapter_id: &str,
)
    requires
        all_from(old(edges)@, adapter_id@),
    ensures
        edge_views(final(edges)@) == edge_views(old(edges)@) + edges_onto(
            i as int,
            from,
            ids_of(targets@),
            kind,
            confidence,
            span,
        ),
        all_from(final(edges)@, adapter_id@),
{
    let ghost start = edges@;
    let ghost ids = ids_of(targets@);
    let mut k: usize = 0;
    while k < targets.len()
        invariant
            k <= targets@.len(),
            ids == ids_of(targets@),
            edge_views(edges@) == edge_views(start) + edges_onto(
                i as int,
                from,
                ids.take(k as int),
                kind,
                confidence,
                span,
            ),
            all_from(edges@, adapter_id@),
        decreases targets@.len() - k,
    {
        let ghost before = edges@;
        edges.push(
            Edge {
                kind: EdgeKind::References { from, to: targets[k], kind },
                confidence,
                source: adapter_source(adapter_id),
                span: Some(span),
                owner: FileId(i as u32),
            },
        );
        proof {
            assert(ids.take(k + 1) =~= ids.take(k as int).push(targets@[k as int].0));
            assert(edges_onto(i as int, from, ids.take(k + 1), kind, confidence, span) =~= edges_onto(
                i as int,
                from,
                ids.take(k as int),
                kind,
                confidence,
                span,
            ).push(reference_edge(i as int, from, targets@[k as int].0, kind, confidence, span)));
            assert(edge_views(edges@) =~= edge_views(before).push(edge_view(edges@[edges@.len() - 1])));
        }
        k = k + 1;
    }
    proof {
        assert(ids.take(targets@.len() as int) =~= ids);
    }
}

/// Appends the edges one reference of file `i` becomes.
#[verifier::rlimit(40)]
fn push_reference(
    edges: &mut Vec<Edge>,
    i: usize,
    reference: &RawReference,
    bound_symbols: &FxHashMap<String, u32>,
    qualifiers: &FxHashMap<String, (u32, bool)>,
    file_unit: &[Option<String>],
    unit_tables: &FxHashMap<String, FxHashMap<String, u32>>,
    member_by_name: &FxHashMap<String, Vec<u32>>,
    visible_units: &[String],
    files: &[FileNode],
    ladders: &Vec<(String, Vec<VisibilityRung>)>,
    t: &ResolveTables,
    adapter_id: &str,
    Ghost(w): Ghost<ReferenceWorld>,
)
    requires
        tables_wf(*t),
        bound_wf(*t, str_ids(*bound_symbols)),
        world_wf(*t, w),
        i < t.symbol_by_name_per_file@.len(),
        w == reference_world(
            *bound_symbols,
            *qualifiers,
            file_unit@,
            *unit_tables,
            *member_by_name,
            visible_units@,
            files@,
            ladders@,
        ),
        all_from(old(edges)@, adapter_id@),
    ensures
        edge_views(final(edges)@) == edge_views(old(edges)@) + reference_edges_of(*t, w, i as int, *reference),
        all_from(final(edges)@, adapter_id@),
{
    let from = origin_of(i, &reference.within, t);
    let name = reference.name.as_str();
    let ghost duck = duck_edges(*t, w, i as int, from, *reference);
    match &reference.scope_context {
        Some(q) => {
            match qualifier_targets(q.as_str(), name, qualifiers, file_unit, unit_tables, t, Ghost(w)) {
                Some(targets) => {
                    push_onto(edges, i, from, &targets, reference.kind, Confidence::Certain, reference.span, adapter_id);
                    return ;
                },
                None => {},
            }
            if contains_char(q.as_str(), '.') {
                let (targets, yielded) = chained_member_targets(q.as_str(), name, bound_symbols, i, t);
                push_onto(edges, i, from, &yielded, RefKind::Read, Confidence::Certain, reference.span, adapter_id);
                if targets.len() > 0 {
                    push_onto(edges, i, from, &targets, reference.kind, Confidence::Certain, reference.span, adapter_id);
                    proof {
                        assert(edge_views(edges@) =~= edge_views(old(edges)@) + reference_edges_of(
                            *t,
                            w,
                            i as int,
                            *reference,
                        ));
                    }
                    return ;
                }
            } else {
                let targets = in_scope_member_targets(q.as_str(), name, bound_symbols, i, t);
                if targets.len() > 0 {
                    push_onto(edges, i, from, &targets, reference.kind, Confidence::Certain, reference.span, adapter_id);
                    return ;
                }
            }
        },
        None => {
            match bare_target_of(i, name, bound_symbols, file_unit, unit_tables, visible_units, t, Ghost(w)) {
                Some(to) => {
                    let mut one: Vec<SymbolId> = Vec::new();
                    one.push(SymbolId(to));
                    proof {
                        assert(ids_of(one@) =~= seq![to]);
                        assert(edges_onto(i as int, from, seq![to], reference.kind, Confidence::Certain, reference.span)
                            =~= seq![reference_edge(i as int, from, to, reference.kind, Confidence::Certain, reference.span)]);
                    }
                    push_onto(edges, i, from, &one, reference.kind, Confidence::Certain, reference.span, adapter_id);
                    return ;
                },
                None => {},
            }
        },
    }
    let ghost mid = edges@;
    let candidates = plausible_members(i, name, member_by_name, file_unit, files, ladders, t, Ghost(w));
    let confidence = if candidates.len() == 1 {
        Confidence::Probable
    } else {
        Confidence::Possible
    };
    push_onto(edges, i, from, &candidates, reference.kind, confidence, reference.span, adapter_id);
    proof {
        assert(edge_views(edges@) == edge_views(mid) + duck);
        assert(edge_views(edges@) =~= edge_views(old(edges)@) + reference_edges_of(*t, w, i as int, *reference));
    }
}

/// The reference edges of file `i` under adapter `adapter_id`, in reference order.
/// `bound_symbols` and `visible_units` are what the file's imports bind and make
/// visible, `qualifiers` its import qualifiers, `file_unit[f]` file `f`'s unit,
/// `unit_tables` each unit's top-level names, `member_by_name` every member under its
/// name, and `ladders` each language's visibility ladder.
pub fn reference_edges(
    i: usize,
    references: &[RawReference],
    bound_symbols: &FxHashMap<String, u32>,
    qualifiers: &FxHashMap<String, (u32, bool)>,
    file_unit: &[Option<String>],
    unit_tables: &FxHashMap<String, FxHashMap<String, u32>>,
    member_by_name: &FxHashMap<String, Vec<u32>>,
    visible_units: &[String],
    files: &[FileNode],
    ladders: &Vec<(String, Vec<VisibilityRung>)>,
    t: &ResolveTables,
    adapter_id: &str,
) -> (r: Vec<Edge>)
    requires
        tables_wf(*t),
        bound_wf(*t, str_ids(*bound_symbols)),
        i < t.symbol_by_name_per_file@.len(),
        world_wf(
            *t,
            reference_world(
                *bound_symbols,
                *qualifiers,
                file_unit@,
                *unit_tables,
                *member_by_name,
                visible_units@,
                files@,
                ladders@,
            ),
        ),
    ensures
        r@.map_values(|e: Edge| edge_view(e)) == reference_edges_upto(
            *t,
            reference_world(
                *bound_symbols,
                *qualifiers,
                file_unit@,
                *unit_tables,
                *member_by_name,
                visible_units@,
                files@,
                ladders@,
            ),
            i as int,
            references@,
            references@.len() as int,
        ),
        forall|q: int| 0 <= q < r@.len() ==> ((#[trigger] r@[q]).source matches Provenance::Adapter(a) && a@ == adapter_id@),
{
    let ghost w = reference_world(
        *bound_symbols,
        *qualifiers,
        file_unit@,
        *unit_tables,
        *member_by_name,
        visible_units@,
        files@,
        ladders@,
    );
    let mut edges: Vec<Edge> = Vec::new();
    proof {
        assert(edge_views(edges@) =~= Seq::empty());
    }
    let mut k: usize = 0;
    while k < references.len()
        invariant
            k <= references@.len(),
            tables_wf(*t),
            bound_wf(*t, str_ids(*bound_symbols)),
            world_wf(*t, w),
            i < t.symbol_by_name_per_file@.len(),
            w == reference_world(
                *bound_symbols,
                *qualifiers,
                file_unit@,
                *unit_tables,
                *member_by_name,
                visible_units@,
                files@,
                ladders@,
            ),
            edge_views(edges@) == reference_edges_upto(*t, w, i as int, references@, k as int),
            all_from(edges@, adapter_id@),
        decreases references@.len() - k,
    {
        push_reference(
            &mut edges,
            i,
            &references[k],
            bound_symbols,
            qualifiers,
            file_unit,
            unit_tables,
            member_by_name,
            visible_units,
            files,
            ladders,
            t,
            adapter_id,
            Ghost(w),
        );
        k = k + 1;
    }
    edges
}

/// A construct whose target escaped static tracking (`eval`, `require(expr)`,
/// `import(`./locales/${x}`)`), narrowed to a directory where the adapter knows one.
#[derive(Debug, Clone)]
pub struct RawDynamic {
    pub narrowed_to: Option<String>,
    pub span: Span,
}

/// The directory a dynamic construct is narrowed to; an empty one narrows nothing.
pub open spec fn narrowing(d: RawDynamic) -> Option<Seq<char>> {
    match d.narrowed_to {
        Some(dir) => if dir@.len() > 0 {
            Some(dir@)
        } else {
            None
        },
        None => None,
    }
}

/// The edges a narrowed construct of file `i` gives over the first `j` files: for each
/// other file under the directory, a possible import of it and a wildcard over it.
pub open spec fn narrowed_edges(i: int, files: Seq<FileNode>, dir: Seq<char>, span: Span, j: int) -> Seq<
    (EdgeKind, Confidence, Option<Span>, FileId),
>
    decreases j,
{
    if j <= 0 {
        Seq::empty()
    } else {
        let before = narrowed_edges(i, files, dir, span, j - 1);
        let f = j - 1;
        if f != i && governs_dir(dir, dirname(files[f].path.0@)) {
            before + seq![
                (EdgeKind::ImportsFile { from: FileId(i as u32), to: FileId(f as u32) }, Confidence::Possible, Some(span), FileId(i as u32)),
                (EdgeKind::Wildcard { from: FileId(f as u32) }, Confidence::Possible, Some(span), FileId(i as u32)),
            ]
        } else {
            before
        }
    }
}

/// The edges dynamic construct `d` of file `i` becomes: over its directory's other
/// files when it is narrowed, else a possible wildcard over the file itself.
pub open spec fn dynamic_edges_of(i: int, files: Seq<FileNode>, d: RawDynamic) -> Seq<(EdgeKind, Confidence, Option<Span>, FileId)> {
    match narrowing(d) {
        Some(dir) => narrowed_edges(i, files, dir, d.span, files.len() as int),
        None => seq![(EdgeKind::Wildcard { from: FileId(i as u32) }, Confidence::Possible, Some(d.span), FileId(i as u32))],
    }
}

/// The edges of the first `k` dynamic constructs, in order.
pub open spec fn dynamic_edges_upto(i: int, files: Seq<FileNode>, dynamics: Seq<RawDynamic>, k: int) -> Seq<
    (EdgeKind, Confidence, Option<Span>, FileId),
>
    decreases k,
{
    if k <= 0 {
        Seq::empty()
    } else {
        dynamic_edges_upto(i, files, dynamics, k - 1) + dynamic_edges_of(i, files, dynamics[k - 1])
    }
}

fn possible_edge(kind: EdgeKind, span: Span, owner: FileId, adapter_id: &str) -> (r: Edge)
    ensures
        edge_view(r) == (kind, Confidence::Possible, Some(span), owner),
        r.source matches Provenance::Adapter(a) && a@ == adapter_id@,
{
    Edge { kind, confidence: Confidence::Possible, source: adapter_source(adapter_id), span: Some(span), owner }
}

/// The edges file `i`'s dynamic constructs become under adapter `adapter_id`, in
/// order: a narrowed construct imports each other file under its directory at
/// possible and treats each as used opaquely; any other is a possible wildcard over
/// the file's own symbols.
pub fn dynamic_edges(i: usize, dynamics: &[RawDynamic], files: &[FileNode], adapter_id: &str) -> (r: Vec<Edge>)
    requires
        files@.len() <= u32::MAX,
    ensures
        edge_views(r@) == dynamic_edges_upto(i as int, files@, dynamics@, dynamics@.len() as int),
        all_from(r@, adapter_id@),
{
    let file_id = FileId(i as u32);
    let mut edges: Vec<Edge> = Vec::new();
    proof {
        assert(edge_views(edges@) =~= Seq::empty());
    }
    let mut k: usize = 0;
    while k < dynamics.len()
        invariant
            k <= dynamics@.len(),
            files@.len() <= u32::MAX,
            file_id == FileId(i as u32),
            edge_views(edges@) == dynamic_edges_upto(i as int, files@, dynamics@, k as int),
            all_from(edges@, adapter_id@),
        decreases dynamics@.len() - k,
    {
        let d = &dynamics[k];
        let ghost start = edges@;
        let dir: Option<&str> = match &d.narrowed_to {
            Some(x) => if x.unicode_len() > 0 {
                Some(x.as_str())
            } else {
                None
            },
            None => None,
        };
        match dir {
            Some(dir) => {
                let mut j: usize = 0;
                while j < files.len()
                    invariant
                        j <= files@.len() <= u32::MAX,
                        file_id == FileId(i as u32),
                        narrowing(*d) == Some(dir@),
                        edge_views(edges@) == edge_views(start) + narrowed_edges(i as int, files@, dir@, d.span, j as int),
                        all_from(edges@, adapter_id@),
                    decreases files@.len() - j,
                {
                    if j != i && package_owns(dir, core_dirname(files[j].path.0.as_str())) {
                        let ghost before = edges@;
                        let target = FileId(j as u32);
                        edges.push(possible_edge(EdgeKind::ImportsFile { from: file_id, to: target }, d.span, file_id, adapter_id));
                        edges.push(possible_edge(EdgeKind::Wildcard { from: target }, d.span, file_id, adapter_id));
                        proof {
                            assert(edge_views(edges@) =~= edge_views(before) + seq![
                                edge_view(edges@[before.len() as int]),
                                edge_view(edges@[before.len() as int + 1]),
                            ]);
                        }
                    }
                    j = j + 1;
                }
            },
            None => {
                edges.push(possible_edge(EdgeKind::Wildcard { from: file_id }, d.span, file_id, adapter_id));
                proof {
                    assert(edge_views(edges@) =~= edge_views(start).push(edge_view(edges@[start.len() as int])));
                }
            },
        }
        proof {
            assert(edge_views(edges@) =~= edge_views(start) + dynamic_edges_of(i as int, files@, dynamics@[k as int]));
        }
        k = k + 1;
    }
    edges
}

} // verus!
