//! The plugin rounds: what plugins hand back — roots, edges, annotations and findings
//! — resolved through the same name tables adapter facts use, with every miss recorded
//! and every cap announced.

use vstd::prelude::*;

use rustc_hash::FxHashMap;

use crate::fx::{
    name_ids, name_ids_get, name_ids_insert, name_ids_insert_if_absent, name_ids_new, str_ids,
    str_ids_get, str_ids_insert, str_ids_new,
};
use crate::engine::{PluginContribution, PluginSeverity, RuleDescriptor};
use crate::fx::{counts_bump, counts_get, counts_new};
use crate::graph::{facet_text, qualified, AliasEntry, ProjectGraph};
use crate::text::{
    compare_str, lemma_lex_antisymmetric, lemma_lex_total, lemma_lex_transitive, owned, seq_lex_le, seq_lex_lt,
    str_eq, views, Comparison,
};
use crate::vocab::{
    provenance_copy, provenance_eq, Confidence, Diagnostic, DiagnosticLevel, Edge, EdgeKind, FileId,
    NodeRef, ProjectPath, Provenance, RefKind, RootKind, Span, SymbolId,
};

verus! {

/// A place a plugin names: a file by path, and optionally a symbol in it by its bare
/// or qualified name.
#[derive(Debug, Clone)]
pub struct PluginTarget {
    pub path: ProjectPath,
    pub symbol: Option<String>,
}

/// A root a plugin contributes.
#[derive(Debug, Clone)]
pub struct ContributedRoot {
    pub target: PluginTarget,
    pub kind: RootKind,
    pub confidence: Confidence,
}

/// An edge a plugin contributes.
#[derive(Debug, Clone)]
pub struct ContributedEdge {
    pub from: PluginTarget,
    pub to: PluginTarget,
    pub kind: RefKind,
    pub confidence: Confidence,
}

/// A finding a plugin emits under one of its rules.
#[derive(Debug, Clone)]
pub struct ContributedFindingItem {
    pub rule: String,
    pub target: PluginTarget,
    pub confidence: Confidence,
    pub message: String,
}

/// Cap on recorded miss descriptions per plugin per round.
pub const DROPPED_CAP: usize = 25;

/// The noise ceiling: at most this many findings per rule per run.
pub const FINDINGS_PER_RULE_CAP: usize = 500;

/// How a miss names its target: `path#symbol`, or the path alone.
pub open spec fn target_text(t: PluginTarget) -> Seq<char> {
    match t.symbol {
        Some(s) => t.path.0@ + "#"@ + s@,
        None => t.path.0@,
    }
}

/// The line recorded for one unresolved target.
pub open spec fn dropped_line(what: Seq<char>, t: PluginTarget) -> Seq<char> {
    what + " `"@ + target_text(t) + "` did not resolve"@
}

/// What recording one miss line does to the recorded lines.
pub open spec fn record_line(d: Seq<Seq<char>>, line: Seq<char>) -> Seq<Seq<char>> {
    if d.len() < DROPPED_CAP {
        d.push(line)
    } else if d.len() == DROPPED_CAP {
        d.push("(further unresolved targets elided)"@)
    } else {
        d
    }
}

/// Recording each of `lines` in turn.
pub open spec fn apply_records(d: Seq<Seq<char>>, lines: Seq<Seq<char>>) -> Seq<Seq<char>>
    decreases lines.len(),
{
    if lines.len() == 0 {
        d
    } else {
        record_line(apply_records(d, lines.drop_last()), lines.last())
    }
}

/// Records one unresolved target. Below the cap the line names it; at the cap one
/// last line says that more were elided; past it nothing is added.
pub fn record_dropped(dropped: &mut Vec<String>, what: &str, target: &PluginTarget)
    ensures
        old(dropped)@.len() < DROPPED_CAP ==> views(final(dropped)@) == views(old(dropped)@).push(
            dropped_line(what@, *target),
        ),
        old(dropped)@.len() == DROPPED_CAP ==> views(final(dropped)@) == views(old(dropped)@).push(
            "(further unresolved targets elided)"@,
        ),
        old(dropped)@.len() > DROPPED_CAP ==> final(dropped)@ == old(dropped)@,
        views(final(dropped)@) == record_line(views(old(dropped)@), dropped_line(what@, *target)),
{
    let ghost before = dropped@;
    if dropped.len() < DROPPED_CAP {
        let mut line = owned(what);
        line.append(" `");
        line.append(target.path.0.as_str());
        match &target.symbol {
            Some(symbol) => {
                line.append("#");
                line.append(symbol.as_str());
            },
            None => {},
        }
        line.append("` did not resolve");
        proof {
            assert(line@ =~= dropped_line(what@, *target));
        }
        dropped.push(line);
        proof {
            assert(views(dropped@) =~= views(before).push(dropped_line(what@, *target)));
        }
    } else if dropped.len() == DROPPED_CAP {
        dropped.push(owned("(further unresolved targets elided)"));
        proof {
            assert(views(dropped@) =~= views(before).push("(further unresolved targets elided)"@));
        }
    }
}

/// Recording misses from an empty record is bounded and never silent about it: after
/// `k` misses the record holds `min(k, DROPPED_CAP + 1)` lines, the first
/// `min(k, DROPPED_CAP)` naming the first misses in order and, past the cap, one last
/// line saying that more were elided.
pub proof fn lemma_dropped_records_are_capped(lines: Seq<Seq<char>>)
    ensures
        apply_records(Seq::empty(), lines).len() == if lines.len() <= DROPPED_CAP {
            lines.len()
        } else {
            (DROPPED_CAP + 1) as nat
        },
        forall|i: int|
            0 <= i < apply_records(Seq::empty(), lines).len() && i < DROPPED_CAP ==> #[trigger] apply_records(
                Seq::empty(),
                lines,
            )[i] == lines[i],
        lines.len() > DROPPED_CAP ==> apply_records(Seq::empty(), lines)[DROPPED_CAP as int]
            == "(further unresolved targets elided)"@,
    decreases lines.len(),
{
    if lines.len() > 0 {
        let prev = lines.drop_last();
        lemma_dropped_records_are_capped(prev);
        let before = apply_records(Seq::empty(), prev);
        assert forall|i: int| 0 <= i < prev.len() implies #[trigger] prev[i] == lines[i] by {}
        if prev.len() < DROPPED_CAP {
            assert(apply_records(Seq::empty(), lines) == before.push(lines.last()));
        } else if prev.len() == DROPPED_CAP {
            assert(apply_records(Seq::empty(), lines) == before.push("(further unresolved targets elided)"@));
        } else {
            assert(apply_records(Seq::empty(), lines) == before);
        }
    }
}

/// A finding-round warning: no path, no span.
pub fn finding_round_diagnostic(message: String) -> (r: Diagnostic)
    ensures
        r.level == DiagnosticLevel::Warn,
        r.path is None,
        r.message == message,
        r.span is None,
{
    Diagnostic { level: DiagnosticLevel::Warn, path: None, message, span: None }
}

/// The character of a decimal digit.
pub open spec fn digit_char(d: int) -> char {
    if d == 0 {
        '0'
    } else if d == 1 {
        '1'
    } else if d == 2 {
        '2'
    } else if d == 3 {
        '3'
    } else if d == 4 {
        '4'
    } else if d == 5 {
        '5'
    } else if d == 6 {
        '6'
    } else if d == 7 {
        '7'
    } else if d == 8 {
        '8'
    } else {
        '9'
    }
}

/// A number's decimal spelling, without leading zeros.
pub open spec fn decimal_text(n: nat) -> Seq<char>
    decreases n,
{
    if n < 10 {
        seq![digit_char(n as int)]
    } else {
        decimal_text(n / 10) + seq![digit_char((n % 10) as int)]
    }
}

fn digit_str(d: u64) -> (r: &'static str)
    requires
        d < 10,
    ensures
        r@ == seq![digit_char(d as int)],
{
    proof {
        reveal_strlit("0");
        reveal_strlit("1");
        reveal_strlit("2");
        reveal_strlit("3");
        reveal_strlit("4");
        reveal_strlit("5");
        reveal_strlit("6");
        reveal_strlit("7");
        reveal_strlit("8");
        reveal_strlit("9");
    }
    if d == 0 {
        "0"
    } else if d == 1 {
        "1"
    } else if d == 2 {
        "2"
    } else if d == 3 {
        "3"
    } else if d == 4 {
        "4"
    } else if d == 5 {
        "5"
    } else if d == 6 {
        "6"
    } else if d == 7 {
        "7"
    } else if d == 8 {
        "8"
    } else {
        "9"
    }
}

/// A number in decimal.
pub fn decimal(n: u64) -> (r: String)
    ensures
        r@ == decimal_text(n as nat),
    decreases n,
{
    if n < 10 {
        owned(digit_str(n))
    } else {
        let mut s = decimal(n / 10);
        s.append(digit_str(n % 10));
        s
    }
}

/// The last of the first `i` files stored under `path`.
pub open spec fn last_file(g: ProjectGraph, path: Seq<char>, i: int) -> Option<u32>
    decreases i,
{
    if i <= 0 {
        None
    } else if g.files@[i - 1].path.0@ == path {
        Some((i - 1) as u32)
    } else {
        last_file(g, path, i - 1)
    }
}

/// The path index: each path maps to the last file stored under it.
pub open spec fn path_table(g: ProjectGraph, i: int) -> Map<Seq<char>, u32> {
    Map::new(|p: Seq<char>| last_file(g, p, i) is Some, |p: Seq<char>| last_file(g, p, i)->0)
}

/// Maps each file path to its id (a later file under the same path wins).
pub fn file_path_index(graph: &ProjectGraph) -> (r: FxHashMap<String, u32>)
    requires
        graph.files@.len() <= 0xffff_ffff,
    ensures
        str_ids(r) == path_table(*graph, graph.files@.len() as int),
{
    let mut m = str_ids_new();
    let mut i: usize = 0;
    proof {
        assert(str_ids(m) =~= path_table(*graph, 0));
    }
    while i < graph.files.len()
        invariant
            graph.files@.len() <= 0xffff_ffff,
            i <= graph.files@.len(),
            str_ids(m) == path_table(*graph, i as int),
        decreases graph.files@.len() - i,
    {
        str_ids_insert(&mut m, graph.files[i].path.0.as_str(), i as u32);
        proof {
            assert(str_ids(m) =~= path_table(*graph, i + 1));
        }
        i = i + 1;
    }
    m
}

/// The last of the first `i` symbols of file `f` whose selector is `key`: bare names
/// for free declarations, `Owner.name` for members (`member`).
pub open spec fn last_symbol(g: ProjectGraph, f: u32, key: Seq<char>, member: bool, i: int) -> Option<u32>
    decreases i,
{
    if i <= 0 {
        None
    } else if g.symbols@[i - 1].file.0 == f && (g.symbols@[i - 1].member_of is Some) == member
        && qualified(g.symbols@[i - 1]) == key {
        Some((i - 1) as u32)
    } else {
        last_symbol(g, f, key, member, i - 1)
    }
}

/// The first of the first `k` re-export aliases named `key`, by its symbol.
pub open spec fn first_alias(aliases: Seq<AliasEntry>, key: Seq<char>, k: int) -> Option<u32>
    decreases k,
{
    if k <= 0 {
        None
    } else if first_alias(aliases, key, k - 1) is Some {
        first_alias(aliases, key, k - 1)
    } else if aliases[k - 1].name@ == key {
        Some(aliases[k - 1].symbol.0)
    } else {
        None
    }
}

/// The aliases file `f` re-exports.
pub open spec fn aliases_of(g: ProjectGraph, f: int) -> Seq<AliasEntry> {
    g.patch_meta@[f].reexport_aliases@
}

/// A bare-name entry with the first `fi` files' aliases, and file `fi`'s first `k`,
/// filled in where no declaration holds the name.
pub open spec fn bare_entry(g: ProjectGraph, fi: int, k: int, key: (u32, Seq<char>)) -> Option<u32> {
    match last_symbol(g, key.0, key.1, false, g.symbols@.len() as int) {
        Some(j) => Some(j),
        None => if (key.0 as int) < fi && (key.0 as int) < g.patch_meta@.len() {
            first_alias(aliases_of(g, key.0 as int), key.1, aliases_of(g, key.0 as int).len() as int)
        } else if key.0 == fi && fi < g.patch_meta@.len() {
            first_alias(aliases_of(g, fi), key.1, k)
        } else {
            None
        },
    }
}

/// The bare-name table over the first `i` symbols.
pub open spec fn bare_prefix_table(g: ProjectGraph, i: int) -> Map<(u32, Seq<char>), u32> {
    Map::new(
        |key: (u32, Seq<char>)| last_symbol(g, key.0, key.1, false, i) is Some,
        |key: (u32, Seq<char>)| last_symbol(g, key.0, key.1, false, i)->0,
    )
}

/// The bare-name table with aliases filled in up to file `fi`, alias `k`.
pub open spec fn bare_table(g: ProjectGraph, fi: int, k: int) -> Map<(u32, Seq<char>), u32> {
    Map::new(
        |key: (u32, Seq<char>)| bare_entry(g, fi, k, key) is Some,
        |key: (u32, Seq<char>)| bare_entry(g, fi, k, key)->0,
    )
}

/// The qualified-name table over the first `i` symbols.
pub open spec fn qualified_table(g: ProjectGraph, i: int) -> Map<(u32, Seq<char>), u32> {
    Map::new(
        |key: (u32, Seq<char>)| last_symbol(g, key.0, key.1, true, i) is Some,
        |key: (u32, Seq<char>)| last_symbol(g, key.0, key.1, true, i)->0,
    )
}

/// Indexes one symbol: its bare name for a free declaration, `Owner.name` for a
/// member; a later symbol under the same key replaces an earlier one.
pub fn index_symbol_name(
    sym: &crate::graph::SymbolNode,
    id: SymbolId,
    by_name: &mut FxHashMap<(u32, String), u32>,
    by_qualified: &mut FxHashMap<(u32, String), u32>,
)
    ensures
        sym.member_of is None ==> name_ids(*final(by_name)) == name_ids(*old(by_name)).insert(
            (sym.file.0, sym.name@),
            id.0,
        ) && *final(by_qualified) == *old(by_qualified),
        sym.member_of is Some ==> name_ids(*final(by_qualified)) == name_ids(*old(by_qualified)).insert(
            (sym.file.0, qualified(*sym)),
            id.0,
        ) && *final(by_name) == *old(by_name),
{
    match &sym.member_of {
        None => {
            name_ids_insert(by_name, sym.file.0, owned(sym.name.as_str()), id.0);
        },
        Some(_) => {
            let key = sym.qualified_name();
            name_ids_insert(by_qualified, sym.file.0, key, id.0);
        },
    }
}

/// The bare and qualified symbol tables of a graph, aliases included: a declaration
/// holds its key against any alias, and among aliases under one key the first wins.
pub fn finding_name_tables(graph: &ProjectGraph) -> (r: (FxHashMap<(u32, String), u32>, FxHashMap<(u32, String), u32>))
    requires
        graph.symbols@.len() <= 0xffff_ffff,
        graph.patch_meta@.len() <= graph.files@.len() <= 0xffff_ffff,
    ensures
        name_ids(r.0) == bare_table(*graph, graph.patch_meta@.len() as int, 0),
        name_ids(r.1) == qualified_table(*graph, graph.symbols@.len() as int),
{
    let ghost g = *graph;
    let mut by_name = name_ids_new();
    let mut by_qualified = name_ids_new();
    let mut i: usize = 0;
    proof {
        assert(name_ids(by_name) =~= bare_prefix_table(g, 0));
        assert(name_ids(by_qualified) =~= qualified_table(g, 0));
    }
    while i < graph.symbols.len()
        invariant
            g == *graph,
            g.symbols@.len() <= 0xffff_ffff,
            i <= g.symbols@.len(),
            name_ids(by_name) == bare_prefix_table(g, i as int),
            name_ids(by_qualified) == qualified_table(g, i as int),
        decreases g.symbols@.len() - i,
    {
        index_symbol_name(&graph.symbols[i], SymbolId(i as u32), &mut by_name, &mut by_qualified);
        proof {
            assert(name_ids(by_name) =~= bare_prefix_table(g, i + 1));
            assert(name_ids(by_qualified) =~= qualified_table(g, i + 1));
        }
        i = i + 1;
    }
    proof {
        assert(name_ids(by_name) =~= bare_table(g, 0, 0));
    }
    let mut i: usize = 0;
    while i < graph.patch_meta.len()
        invariant
            g == *graph,
            g.patch_meta@.len() <= g.files@.len() <= 0xffff_ffff,
            i <= g.patch_meta@.len(),
            name_ids(by_name) == bare_table(g, i as int, 0),
        decreases g.patch_meta@.len() - i,
    {
        let aliases = &graph.patch_meta[i].reexport_aliases;
        let mut k: usize = 0;
        while k < aliases.len()
            invariant
                g == *graph,
                i < g.patch_meta@.len() <= 0xffff_ffff,
                aliases@ == aliases_of(g, i as int),
                k <= aliases@.len(),
                name_ids(by_name) == bare_table(g, i as int, k as int),
            decreases aliases@.len() - k,
        {
            let alias = &aliases[k];
            let ghost before = name_ids(by_name);
            name_ids_insert_if_absent(&mut by_name, i as u32, alias.name.as_str(), alias.symbol.0);
            proof {
                assert(name_ids(by_name) =~= bare_table(g, i as int, k + 1)) by {
                    assert forall|key: (u32, Seq<char>)| #[trigger] name_ids(by_name).contains_key(key) == bare_table(
                        g,
                        i as int,
                        k + 1,
                    ).contains_key(key) && (name_ids(by_name).contains_key(key) ==> name_ids(by_name)[key]
                        == bare_table(g, i as int, k + 1)[key]) by {
                        if key.0 == i as u32 && key.1 == alias.name@ {
                            assert(first_alias(aliases_of(g, i as int), key.1, k + 1) == (if first_alias(
                                aliases_of(g, i as int),
                                key.1,
                                k as int,
                            ) is Some {
                                first_alias(aliases_of(g, i as int), key.1, k as int)
                            } else {
                                Some(alias.symbol.0)
                            }));
                        } else if key.0 == i as u32 {
                            assert(first_alias(aliases_of(g, i as int), key.1, k + 1) == first_alias(
                                aliases_of(g, i as int),
                                key.1,
                                k as int,
                            ));
                        }
                    }
                }
            }
            k = k + 1;
        }
        proof {
            assert(name_ids(by_name) =~= bare_table(g, i + 1, 0));
        }
        i = i + 1;
    }
    (by_name, by_qualified)
}

/// How a plugin-named target resolves: its file through the path index; a symbol by
/// its bare name in that file, else by its qualified name; a miss is `None`.
pub open spec fn resolve_spec(
    paths: Map<Seq<char>, u32>,
    by_name: Map<(u32, Seq<char>), u32>,
    by_qualified: Map<(u32, Seq<char>), u32>,
    t: PluginTarget,
) -> Option<NodeRef> {
    if !paths.contains_key(t.path.0@) {
        None
    } else {
        let f = paths[t.path.0@];
        match t.symbol {
            None => Some(NodeRef::File(FileId(f))),
            Some(name) => if by_name.contains_key((f, name@)) {
                Some(NodeRef::Symbol(SymbolId(by_name[(f, name@)])))
            } else if by_qualified.contains_key((f, name@)) {
                Some(NodeRef::Symbol(SymbolId(by_qualified[(f, name@)])))
            } else {
                None
            },
        }
    }
}

/// Resolves a plugin-named target against the same bare/qualified symbol tables
/// reference resolution reads.
pub fn resolve_plugin_target(
    target: &PluginTarget,
    file_index: &FxHashMap<String, u32>,
    by_name: &FxHashMap<(u32, String), u32>,
    by_qualified: &FxHashMap<(u32, String), u32>,
) -> (r: Option<NodeRef>)
    ensures
        r == resolve_spec(str_ids(*file_index), name_ids(*by_name), name_ids(*by_qualified), *target),
{
    let file_id = match str_ids_get(file_index, target.path.0.as_str()) {
        Some(f) => f,
        None => return None,
    };
    match &target.symbol {
        None => Some(NodeRef::File(FileId(file_id))),
        Some(name) => match name_ids_get(by_name, file_id, name.as_str()) {
            Some(s) => Some(NodeRef::Symbol(SymbolId(s))),
            None => match name_ids_get(by_qualified, file_id, name.as_str()) {
                Some(s) => Some(NodeRef::Symbol(SymbolId(s))),
                None => None,
            },
        },
    }
}

/// A plugin finding as resolved, before the engine gives it an id and a channel.
#[derive(Debug, Clone)]
pub struct ProtoFinding {
    /// `plugin:<plugin id>/<rule>`: assembled from the registered id, never supplied.
    pub category: String,
    pub plugin_id: String,
    pub rule: String,
    pub severity: PluginSeverity,
    pub confidence: Confidence,
    pub message: String,
    pub path: ProjectPath,
    pub symbol: Option<String>,
    pub span: Option<Span>,
    pub subject_kind: String,
    pub package: Option<String>,
}

/// The finding round's resolution environment.
pub struct FindingTables<'a> {
    pub graph: &'a ProjectGraph,
    pub paths: &'a FxHashMap<String, u32>,
    pub by_name: &'a FxHashMap<(u32, String), u32>,
    pub by_qualified: &'a FxHashMap<(u32, String), u32>,
}

/// Where a target resolves through the tables.
pub open spec fn tables_resolve(t: FindingTables, target: PluginTarget) -> Option<NodeRef> {
    resolve_spec(str_ids(*t.paths), name_ids(*t.by_name), name_ids(*t.by_qualified), target)
}

/// Every id the tables hand out names a node of the graph, every symbol's file exists,
/// and every file's package does.
pub open spec fn tables_wf(t: FindingTables) -> bool {
    let g = *t.graph;
    &&& forall|p: Seq<char>|
        #[trigger] str_ids(*t.paths).contains_key(p) ==> (str_ids(*t.paths)[p] as int) < g.files@.len()
    &&& forall|k: (u32, Seq<char>)|
        #[trigger] name_ids(*t.by_name).contains_key(k) ==> (name_ids(*t.by_name)[k] as int) < g.symbols@.len()
    &&& forall|k: (u32, Seq<char>)|
        #[trigger] name_ids(*t.by_qualified).contains_key(k) ==> (name_ids(*t.by_qualified)[k] as int)
            < g.symbols@.len()
    &&& forall|i: int| 0 <= i < g.symbols@.len() ==> ((#[trigger] g.symbols@[i]).file.0 as int) < g.files@.len()
    &&& forall|i: int| 0 <= i < g.files@.len() ==> ((#[trigger] g.files@[i]).package.0 as int) < g.packages@.len()
}

/// The file a resolved node lies in.
pub open spec fn finding_file(g: ProjectGraph, node: NodeRef) -> int {
    match node {
        NodeRef::File(f) => f.0 as int,
        NodeRef::Symbol(s) => g.symbols@[s.0 as int].file.0 as int,
    }
}

/// What a resolved plugin finding carries: the namespaced category, the rule's
/// declared severity, the item's confidence and message, and the node's path,
/// symbol, span, subject kind and package.
pub open spec fn proto_ok(
    p: ProtoFinding,
    plugin_id: Seq<char>,
    rule: RuleDescriptor,
    item: ContributedFindingItem,
    g: ProjectGraph,
    node: NodeRef,
) -> bool {
    let f = finding_file(g, node);
    &&& p.category@ == "plugin:"@ + plugin_id + "/"@ + rule.name@
    &&& p.plugin_id@ == plugin_id
    &&& p.rule@ == rule.name@
    &&& p.severity == rule.severity
    &&& p.confidence == item.confidence
    &&& p.message@ == item.message@
    &&& p.path.0@ == g.files@[f].path.0@
    &&& match (p.package, g.packages@[g.files@[f].package.0 as int].name) {
        (Some(a), Some(b)) => a@ == b@,
        (None, None) => true,
        _ => false,
    }
    &&& match node {
        NodeRef::File(_) => p.symbol is None && p.span is None && p.subject_kind@ == "file"@,
        NodeRef::Symbol(s) => (p.symbol matches Some(n) && n@ == g.symbols@[s.0 as int].name@) && p.span
            == Some(g.symbols@[s.0 as int].span) && p.subject_kind@ == facet_text(
            g.symbols@[s.0 as int].kind,
        ),
    }
}

/// Resolves one emitted finding; `None` when its target does not resolve.
pub fn resolve_finding(
    plugin_id: &str,
    rule: &RuleDescriptor,
    item: ContributedFindingItem,
    tables: &FindingTables,
) -> (r: Option<ProtoFinding>)
    requires
        tables_wf(*tables),
    ensures
        r is Some <==> tables_resolve(*tables, item.target) is Some,
        r matches Some(p) ==> proto_ok(p, plugin_id@, *rule, item, *tables.graph, tables_resolve(*tables, item.target)->0),
{
    let graph = tables.graph;
    let node = match resolve_plugin_target(&item.target, tables.paths, tables.by_name, tables.by_qualified) {
        Some(n) => n,
        None => return None,
    };
    let (file_index, symbol, span, subject_kind) = match node {
        NodeRef::File(f) => (f.0 as usize, None, None, owned("file")),
        NodeRef::Symbol(s) => {
            let sym = &graph.symbols[s.0 as usize];
            (sym.file.0 as usize, Some(owned(sym.name.as_str())), Some(sym.span), owned(sym.kind.facet()))
        },
    };
    let file = &graph.files[file_index];
    let mut category = owned("plugin:");
    category.append(plugin_id);
    category.append("/");
    category.append(rule.name.as_str());
    let package = match graph.package_name(file.package) {
        Some(name) => Some(owned(name)),
        None => None,
    };
    let proto = ProtoFinding {
        category,
        plugin_id: owned(plugin_id),
        rule: owned(rule.name.as_str()),
        severity: rule.severity,
        confidence: item.confidence,
        message: item.message,
        path: ProjectPath(owned(file.path.0.as_str())),
        symbol,
        span,
        subject_kind,
        package,
    };
    proof {
        assert(proto.category@ =~= "plugin:"@ + plugin_id@ + "/"@ + rule.name@);
    }
    Some(proto)
}

/// The first declared rule named `name`.
pub open spec fn first_rule(rules: Seq<RuleDescriptor>, name: Seq<char>) -> Option<int> {
    if exists|i: int| 0 <= i < rules.len() && rules[i].name@ == name {
        Some(
            choose|i: int|
                0 <= i < rules.len() && rules[i].name@ == name && forall|j: int|
                    0 <= j < i ==> #[trigger] rules[j].name@ != name,
        )
    } else {
        None
    }
}

/// Finds the first declared rule named `name`.
fn find_rule(rules: &[RuleDescriptor], name: &str) -> (r: Option<usize>)
    ensures
        match r {
            Some(i) => i < rules@.len() && rules@[i as int].name@ == name@ && first_rule(rules@, name@)
                == Some(i as int),
            None => first_rule(rules@, name@) is None,
        },
{
    let mut i: usize = 0;
    while i < rules.len()
        invariant
            i <= rules@.len(),
            forall|j: int| 0 <= j < i ==> #[trigger] rules@[j].name@ != name@,
        decreases rules@.len() - i,
    {
        if str_eq(rules[i].name.as_str(), name) {
            proof {
                let c = choose|c: int|
                    0 <= c < rules@.len() && rules@[c].name@ == name@ && forall|j: int|
                        0 <= j < c ==> #[trigger] rules@[j].name@ != name@;
                assert(c == i) by {
                    if c < i {
                        assert(rules@[c].name@ != name@);
                    }
                    if i < c {
                        assert(rules@[i as int].name@ != name@);
                    }
                }
            }
            return Some(i);
        }
        i = i + 1;
    }
    None
}

/// How many of the first `k` items fall under rule `r`.
pub open spec fn occurrences(rules: Seq<RuleDescriptor>, items: Seq<ContributedFindingItem>, r: int, k: int) -> nat
    decreases k,
{
    if k <= 0 {
        0
    } else {
        occurrences(rules, items, r, k - 1) + if first_rule(rules, items[k - 1].rule@) == Some(r) {
            1nat
        } else {
            0nat
        }
    }
}

/// Item `k` is kept: its rule is declared, it is within the rule's cap, and its
/// target resolves.
pub open spec fn kept_at(t: FindingTables, rules: Seq<RuleDescriptor>, items: Seq<ContributedFindingItem>, k: int) -> bool {
    &&& first_rule(rules, items[k].rule@) is Some
    &&& occurrences(rules, items, first_rule(rules, items[k].rule@)->0, k + 1) <= FINDINGS_PER_RULE_CAP
    &&& tables_resolve(t, items[k].target) is Some
}

/// The kept items among the first `k`, in order.
pub open spec fn kept_indices(t: FindingTables, rules: Seq<RuleDescriptor>, items: Seq<ContributedFindingItem>, k: int) -> Seq<int>
    decreases k,
{
    if k <= 0 {
        Seq::empty()
    } else if kept_at(t, rules, items, k - 1) {
        kept_indices(t, rules, items, k - 1).push(k - 1)
    } else {
        kept_indices(t, rules, items, k - 1)
    }
}

/// `out` is `base` followed by one resolved finding per kept item among the first `k`.
pub open spec fn findings_ok(
    out: Seq<ProtoFinding>,
    base: Seq<ProtoFinding>,
    plugin_id: Seq<char>,
    t: FindingTables,
    rules: Seq<RuleDescriptor>,
    items: Seq<ContributedFindingItem>,
    k: int,
) -> bool {
    let sel = kept_indices(t, rules, items, k);
    &&& out.len() == base.len() + sel.len()
    &&& forall|q: int| 0 <= q < base.len() ==> out[q] == base[q]
    &&& forall|q: int|
        0 <= q < sel.len() ==> proto_ok(
            #[trigger] out[base.len() + q],
            plugin_id,
            rules[first_rule(rules, items[sel[q]].rule@)->0],
            items[sel[q]],
            *t.graph,
            tables_resolve(t, items[sel[q]].target)->0,
        )
}

/// The rule names of the first `k` items that no declared rule carries.
pub open spec fn undeclared(rules: Seq<RuleDescriptor>, items: Seq<ContributedFindingItem>, k: int) -> Set<Seq<char>> {
    Set::new(
        |x: Seq<char>|
            exists|q: int|
                0 <= q < k && first_rule(rules, (#[trigger] items[q]).rule@) is None && items[q].rule@ == x,
    )
}

/// Strictly ascending by text.
pub open spec fn names_increasing(s: Seq<Seq<char>>) -> bool {
    forall|i: int, j: int| 0 <= i < j < s.len() ==> seq_lex_lt(s[i], s[j])
}

/// Adds `name` to a strictly ascending list unless it is there.
fn insert_name(names: &mut Vec<String>, name: String)
    requires
        names_increasing(views(old(names)@)),
    ensures
        names_increasing(views(final(names)@)),
        views(final(names)@).to_set() == views(old(names)@).to_set().insert(name@),
{
    let ghost before = views(names@);
    let mut p: usize = 0;
    while p < names.len() && compare_str(names[p].as_str(), name.as_str()) == Comparison::Less
        invariant
            views(names@) == before,
            names_increasing(before),
            p <= before.len(),
            forall|i: int| 0 <= i < p ==> seq_lex_lt(#[trigger] before[i], name@),
        decreases before.len() - p,
    {
        p = p + 1;
    }
    if p < names.len() && compare_str(names[p].as_str(), name.as_str()) == Comparison::Equal {
        proof {
            assert(before.to_set() =~= before.to_set().insert(name@)) by {
                assert(before[p as int] == name@);
                assert(before.to_set().contains(before[p as int]));
            }
        }
        return ;
    }
    proof {
        if p < before.len() {
            lemma_lex_total(before[p as int], name@);
            assert(seq_lex_lt(name@, before[p as int]));
        }
    }
    let ghost text = name@;
    names.insert(p, name);
    proof {
        let after = views(names@);
        assert(after =~= before.insert(p as int, text));
        assert forall|i: int, j: int| 0 <= i < j < after.len() implies seq_lex_lt(after[i], after[j]) by {
            if j == p {
                assert(after[i] == before[i]);
            } else if i == p {
                assert(after[j] == before[j - 1]);
                if j - 1 > p {
                    assert(seq_lex_lt(before[p as int], before[j - 1]));
                    lemma_lex_transitive(text, before[p as int], before[j - 1]);
                    if text == before[j - 1] {
                        lemma_lex_antisymmetric(text, before[p as int]);
                    }
                }
            } else if i < p && j > p {
                assert(after[i] == before[i]);
                assert(after[j] == before[j - 1]);
                assert(seq_lex_lt(before[i], before[j - 1]));
            } else if j < p {
                assert(after[i] == before[i] && after[j] == before[j]);
            } else {
                assert(after[i] == before[i - 1] && after[j] == before[j - 1]);
            }
        }
        assert(after.to_set() =~= before.to_set().insert(text)) by {
            assert forall|x: Seq<char>| after.to_set().contains(x) implies before.to_set().insert(text).contains(x) by {
                let i = choose|i: int| 0 <= i < after.len() && after[i] == x;
                if i < p {
                    assert(before[i] == x);
                    assert(before.to_set().contains(x));
                } else if i > p {
                    assert(before[i - 1] == x);
                    assert(before.to_set().contains(x));
                }
            }
            assert forall|x: Seq<char>| before.to_set().insert(text).contains(x) implies after.to_set().contains(x) by {
                if x == text {
                    assert(after[p as int] == x);
                } else {
                    let i = choose|i: int| 0 <= i < before.len() && before[i] == x;
                    if i < p {
                        assert(after[i] == x);
                    } else {
                        assert(after[i + 1] == x);
                    }
                }
            }
        }
    }
}

/// The diagnostic for findings emitted under an undeclared rule.
pub open spec fn undeclared_line(plugin_id: Seq<char>, rule: Seq<char>) -> Seq<char> {
    "plugin '"@ + plugin_id + "' emitted findings under undeclared rule '"@ + rule
        + "' \u{2014} dropped (rules must be declared via Plugin::rules)"@
}

/// The diagnostic for a rule that went over the noise ceiling.
pub open spec fn capped_line(plugin_id: Seq<char>, rule: Seq<char>, count: nat) -> Seq<char> {
    "plugin '"@ + plugin_id + "' rule '"@ + rule + "' emitted "@ + decimal_text(count)
        + " findings \u{2014} capped at "@ + decimal_text(FINDINGS_PER_RULE_CAP as nat) + ", "@
        + decimal_text((count - FINDINGS_PER_RULE_CAP) as nat) + " dropped (the noise ceiling)"@
}

/// A warning with no path or span, saying `text`.
pub open spec fn warning(d: Diagnostic, text: Seq<char>) -> bool {
    d.level == DiagnosticLevel::Warn && d.path is None && d.span is None && d.message@ == text
}

/// The rules below `r` whose count went over the ceiling, in rule order.
pub open spec fn over_cap(count: spec_fn(int) -> nat, r: int) -> Seq<int>
    decreases r,
{
    if r <= 0 {
        Seq::empty()
    } else if count(r - 1) > FINDINGS_PER_RULE_CAP {
        over_cap(count, r - 1).push(r - 1)
    } else {
        over_cap(count, r - 1)
    }
}

/// `out` is `base`, then one warning per undeclared name in order, then one per
/// capped rule in order.
pub open spec fn report_ok(
    out: Seq<Diagnostic>,
    base: Seq<Diagnostic>,
    plugin_id: Seq<char>,
    names: Seq<Seq<char>>,
    rules: Seq<RuleDescriptor>,
    capped: Seq<int>,
    count: spec_fn(int) -> nat,
) -> bool {
    &&& out.len() == base.len() + names.len() + capped.len()
    &&& forall|q: int| 0 <= q < base.len() ==> out[q] == base[q]
    &&& forall|q: int| 0 <= q < names.len() ==> warning(#[trigger] out[base.len() + q], undeclared_line(plugin_id, names[q]))
    &&& forall|q: int|
        0 <= q < capped.len() ==> warning(
            #[trigger] out[base.len() + names.len() + q],
            capped_line(plugin_id, rules[capped[q]].name@, count(capped[q])),
        )
}

/// A rule's count in the per-rule table (zero when absent).
pub open spec fn count_in(m: Map<u32, usize>, r: int) -> nat {
    if m.contains_key(r as u32) {
        m[r as u32] as nat
    } else {
        0
    }
}

/// The loud halves of the declaration contract and the noise ceiling: one warning per
/// undeclared rule name, then one per rule (in declaration order) that went over the
/// ceiling.
pub fn report_finding_drops(
    plugin_id: &str,
    unknown_rules: Vec<String>,
    per_rule: &FxHashMap<u32, usize>,
    rules: &[RuleDescriptor],
    diagnostics: &mut Vec<Diagnostic>,
)
    requires
        rules@.len() <= 0xffff_ffff,
    ensures
        report_ok(
            final(diagnostics)@,
            old(diagnostics)@,
            plugin_id@,
            views(unknown_rules@),
            rules@,
            over_cap(|r: int| count_in(per_rule@, r), rules@.len() as int),
            |r: int| count_in(per_rule@, r),
        ),
{
    let ghost base = diagnostics@;
    let ghost names = views(unknown_rules@);
    let ghost count = |r: int| count_in(per_rule@, r);
    let mut q: usize = 0;
    while q < unknown_rules.len()
        invariant
            names == views(unknown_rules@),
            q <= names.len(),
            diagnostics@.len() == base.len() + q,
            forall|p: int| 0 <= p < base.len() ==> diagnostics@[p] == base[p],
            forall|p: int| 0 <= p < q ==> warning(#[trigger] diagnostics@[base.len() + p], undeclared_line(plugin_id@, names[p])),
        decreases names.len() - q,
    {
        let mut message = owned("plugin '");
        message.append(plugin_id);
        message.append("' emitted findings under undeclared rule '");
        message.append(unknown_rules[q].as_str());
        message.append("' \u{2014} dropped (rules must be declared via Plugin::rules)");
        proof {
            assert(message@ =~= undeclared_line(plugin_id@, names[q as int]));
        }
        diagnostics.push(finding_round_diagnostic(message));
        q = q + 1;
    }
    let ghost mid = diagnostics@;
    let mut r: usize = 0;
    proof {
        assert(over_cap(count, 0) =~= Seq::<int>::empty());
    }
    while r < rules.len()
        invariant
            rules@.len() <= 0xffff_ffff,
            names == views(unknown_rules@),
            count == (|r: int| count_in(per_rule@, r)),
            r <= rules@.len(),
            mid.len() == base.len() + names.len(),
            diagnostics@.len() == mid.len() + over_cap(count, r as int).len(),
            forall|p: int| 0 <= p < mid.len() ==> diagnostics@[p] == mid[p],
            forall|p: int|
                0 <= p < over_cap(count, r as int).len() ==> warning(
                    #[trigger] diagnostics@[mid.len() + p],
                    capped_line(plugin_id@, rules@[over_cap(count, r as int)[p]].name@, count(over_cap(count, r as int)[p])),
                ),
            forall|p: int| 0 <= p < over_cap(count, r as int).len() ==> 0 <= #[trigger] over_cap(count, r as int)[p] < r,
        decreases rules@.len() - r,
    {
        let ghost prev = over_cap(count, r as int);
        match counts_get(per_rule, r as u32) {
            Some(c) => {
                if c > FINDINGS_PER_RULE_CAP {
                    let mut message = owned("plugin '");
                    message.append(plugin_id);
                    message.append("' rule '");
                    message.append(rules[r].name.as_str());
                    message.append("' emitted ");
                    let text = decimal(c as u64);
                    message.append(text.as_str());
                    message.append(" findings \u{2014} capped at ");
                    let cap = decimal(FINDINGS_PER_RULE_CAP as u64);
                    message.append(cap.as_str());
                    message.append(", ");
                    let cut = decimal((c - FINDINGS_PER_RULE_CAP) as u64);
                    message.append(cut.as_str());
                    message.append(" dropped (the noise ceiling)");
                    proof {
                        assert(count(r as int) == c as nat);
                        assert(message@ =~= capped_line(plugin_id@, rules@[r as int].name@, count(r as int)));
                        assert(over_cap(count, r + 1) == prev.push(r as int));
                    }
                    diagnostics.push(finding_round_diagnostic(message));
                } else {
                    proof {
                        assert(over_cap(count, r + 1) == prev);
                    }
                }
            },
            None => {
                proof {
                    assert(over_cap(count, r + 1) == prev);
                }
            },
        }
        r = r + 1;
    }
    proof {
        assert(count =~= (|r: int| count_in(per_rule@, r)));
        assert forall|p: int| 0 <= p < names.len() implies warning(
            #[trigger] diagnostics@[base.len() + p],
            undeclared_line(plugin_id@, names[p]),
        ) by {
            assert(diagnostics@[base.len() + p] == mid[base.len() + p]);
        }
    }
}

proof fn lemma_occurrences_bound(rules: Seq<RuleDescriptor>, items: Seq<ContributedFindingItem>, r: int, k: int)
    requires
        k >= 0,
    ensures
        occurrences(rules, items, r, k) <= k,
    decreases k,
{
    if k > 0 {
        lemma_occurrences_bound(rules, items, r, k - 1);
    }
}

proof fn lemma_over_cap_range(count: spec_fn(int) -> nat, r: int)
    requires
        r >= 0,
    ensures
        forall|p: int| 0 <= p < over_cap(count, r).len() ==> 0 <= #[trigger] over_cap(count, r)[p] < r,
    decreases r,
{
    if r > 0 {
        lemma_over_cap_range(count, r - 1);
        let prev = over_cap(count, r - 1);
        if count(r - 1) > FINDINGS_PER_RULE_CAP {
            assert forall|p: int| 0 <= p < over_cap(count, r).len() implies 0 <= #[trigger] over_cap(count, r)[p] < r by {
                if p < prev.len() {
                    assert(over_cap(count, r)[p] == prev[p]);
                }
            }
        }
    }
}

proof fn lemma_undeclared_step(rules: Seq<RuleDescriptor>, items: Seq<ContributedFindingItem>, k: int)
    requires
        0 <= k < items.len(),
    ensures
        undeclared(rules, items, k + 1) == if first_rule(rules, items[k].rule@) is None {
            undeclared(rules, items, k).insert(items[k].rule@)
        } else {
            undeclared(rules, items, k)
        },
{
    let next = if first_rule(rules, items[k].rule@) is None {
        undeclared(rules, items, k).insert(items[k].rule@)
    } else {
        undeclared(rules, items, k)
    };
    assert forall|x: Seq<char>| undeclared(rules, items, k + 1).contains(x) implies next.contains(x) by {
        let q = choose|q: int|
            0 <= q < k + 1 && first_rule(rules, (#[trigger] items[q]).rule@) is None && items[q].rule@ == x;
        if q < k {
            assert(undeclared(rules, items, k).contains(x));
        }
    }
    assert forall|x: Seq<char>| next.contains(x) implies undeclared(rules, items, k + 1).contains(x) by {
        if undeclared(rules, items, k).contains(x) {
            let q = choose|q: int|
                0 <= q < k && first_rule(rules, (#[trigger] items[q]).rule@) is None && items[q].rule@ == x;
            assert(0 <= q < k + 1);
        } else {
            assert(0 <= k < k + 1 && first_rule(rules, items[k].rule@) is None && items[k].rule@ == x);
        }
    }
    assert(undeclared(rules, items, k + 1) =~= next);
}

proof fn lemma_over_cap_same(c1: spec_fn(int) -> nat, c2: spec_fn(int) -> nat, r: int)
    requires
        r >= 0,
        forall|i: int| 0 <= i < r ==> #[trigger] c1(i) == c2(i),
    ensures
        over_cap(c1, r) == over_cap(c2, r),
    decreases r,
{
    if r > 0 {
        lemma_over_cap_same(c1, c2, r - 1);
    }
}

/// One plugin's emitted findings, resolved and namespaced. An item under an
/// undeclared rule is dropped and the rule named in a warning; past a rule's ceiling
/// items are dropped and the rule's count reported; an unresolvable target is dropped
/// silently.
#[verifier::rlimit(40)]
pub fn collect_plugin_findings(
    plugin_id: &str,
    rules: &[RuleDescriptor],
    items: Vec<ContributedFindingItem>,
    tables: &FindingTables,
    findings: &mut Vec<ProtoFinding>,
    diagnostics: &mut Vec<Diagnostic>,
)
    requires
        tables_wf(*tables),
        rules@.len() <= 0xffff_ffff,
    ensures
        findings_ok(final(findings)@, old(findings)@, plugin_id@, *tables, rules@, items@, items@.len() as int),
        exists|names: Seq<Seq<char>>|
            names_increasing(names) && names.to_set() == undeclared(rules@, items@, items@.len() as int)
                && report_ok(
                final(diagnostics)@,
                old(diagnostics)@,
                plugin_id@,
                names,
                rules@,
                over_cap(|r: int| occurrences(rules@, items@, r, items@.len() as int), rules@.len() as int),
                |r: int| occurrences(rules@, items@, r, items@.len() as int),
            ),
{
    let ghost input = items@;
    let ghost base = findings@;
    let total = items.len();
    let mut per_rule = counts_new();
    let mut unknown: Vec<String> = Vec::new();
    let mut rest = crate::seqs::reversed(items);
    proof {
        assert(views(unknown@).to_set() =~= undeclared(rules@, input, 0));
        assert(kept_indices(*tables, rules@, input, 0) =~= Seq::<int>::empty());
    }
    while rest.len() > 0
        invariant
            tables_wf(*tables),
            rules@.len() <= 0xffff_ffff,
            *diagnostics == *old(diagnostics),
            input.len() == total,
            rest@.len() <= input.len(),
            forall|k: int| 0 <= k < rest@.len() ==> rest@[k] == input[input.len() - 1 - k],
            findings_ok(findings@, base, plugin_id@, *tables, rules@, input, input.len() - rest@.len()),
            names_increasing(views(unknown@)),
            views(unknown@).to_set() == undeclared(rules@, input, input.len() - rest@.len()),
            forall|r: u32|
                #[trigger] per_rule@.contains_key(r) <==> occurrences(rules@, input, r as int, input.len() - rest@.len())
                    > 0,
            forall|r: u32|
                #[trigger] per_rule@.contains_key(r) ==> per_rule@[r] as nat == occurrences(
                    rules@,
                    input,
                    r as int,
                    input.len() - rest@.len(),
                ),
        decreases rest@.len(),
    {
        let ghost done = input.len() - rest@.len();
        let ghost before = findings@;
        let item = rest.pop().unwrap();
        proof {
            assert(item == input[done]);
            assert forall|r: int| #[trigger] occurrences(rules@, input, r, done + 1) == occurrences(rules@, input, r, done)
                + if first_rule(rules@, input[done].rule@) == Some(r) {
                1nat
            } else {
                0nat
            } by {}
        }
        match find_rule(rules, item.rule.as_str()) {
            None => {
                insert_name(&mut unknown, item.rule);
                proof {
                    lemma_undeclared_step(rules@, input, done);
                    assert(kept_indices(*tables, rules@, input, done + 1) == kept_indices(*tables, rules@, input, done));
                }
            },
            Some(ri) => {
                proof {
                    lemma_occurrences_bound(rules@, input, ri as int, done);
                    assert(((ri as u32) as int) == ri as int);
                }
                let count = counts_bump(&mut per_rule, ri as u32);
                proof {
                    assert(count as nat == occurrences(rules@, input, ri as int, done + 1));
                    lemma_undeclared_step(rules@, input, done);
                    assert forall|r: u32| #[trigger] per_rule@.contains_key(r) <==> occurrences(rules@, input, r as int, done + 1)
                        > 0 by {
                        if r != ri as u32 {
                            assert((r as int) != ri as int);
                        }
                    }
                    assert forall|r: u32| #[trigger] per_rule@.contains_key(r) implies per_rule@[r] as nat == occurrences(
                        rules@,
                        input,
                        r as int,
                        done + 1,
                    ) by {
                        if r != ri as u32 {
                            assert((r as int) != ri as int);
                        }
                    }
                }
                if count <= FINDINGS_PER_RULE_CAP {
                    let resolved = resolve_finding(plugin_id, &rules[ri], item, tables);
                    match resolved {
                        Some(proto) => {
                            findings.push(proto);
                            proof {
                                let sel = kept_indices(*tables, rules@, input, done + 1);
                                assert(sel == kept_indices(*tables, rules@, input, done).push(done));
                                assert forall|q: int| 0 <= q < sel.len() implies proto_ok(
                                    #[trigger] findings@[base.len() + q],
                                    plugin_id@,
                                    rules@[first_rule(rules@, input[sel[q]].rule@)->0],
                                    input[sel[q]],
                                    *tables.graph,
                                    tables_resolve(*tables, input[sel[q]].target)->0,
                                ) by {
                                    if q < sel.len() - 1 {
                                        assert(findings@[base.len() + q] == before[base.len() + q]);
                                    }
                                }
                            }
                        },
                        None => {
                            proof {
                                assert(kept_indices(*tables, rules@, input, done + 1) == kept_indices(*tables, rules@, input, done));
                            }
                        },
                    }
                } else {
                    proof {
                        assert(kept_indices(*tables, rules@, input, done + 1) == kept_indices(*tables, rules@, input, done));
                    }
                }
            },
        }
    }
    let ghost names = views(unknown@);
    let ghost n = input.len() as int;
    report_finding_drops(plugin_id, unknown, &per_rule, rules, diagnostics);
    proof {
        let c1 = |r: int| count_in(per_rule@, r);
        let c2 = |r: int| occurrences(rules@, input, r, n);
        assert forall|i: int| 0 <= i < rules@.len() implies #[trigger] c1(i) == c2(i) by {
            assert(((i as u32) as int) == i);
        }
        lemma_over_cap_same(c1, c2, rules@.len() as int);
        lemma_over_cap_range(c1, rules@.len() as int);
        let capped = over_cap(c2, rules@.len() as int);
        assert forall|q: int| 0 <= q < capped.len() implies warning(
            #[trigger] diagnostics@[old(diagnostics)@.len() + names.len() + q],
            capped_line(plugin_id@, rules@[capped[q]].name@, c2(capped[q])),
        ) by {
            assert(c1(capped[q]) == c2(capped[q]));
        }
        assert(report_ok(diagnostics@, old(diagnostics)@, plugin_id@, names, rules@, capped, c2));
    }
}

/// Everything one graph-mutation round produces.
pub struct PluginRound {
    pub edges: Vec<Edge>,
    pub externally_consumed: Vec<SymbolId>,
    pub implicitly_invoked: Vec<SymbolId>,
    pub diagnostics: Vec<Diagnostic>,
    /// Per-plugin resolved-contribution counts, in the round's call order.
    pub contributions: Vec<PluginContribution>,
}

/// The lookup state target resolution and edge ownership need.
pub struct PluginTargetTables<'a> {
    pub symbols: &'a [crate::graph::SymbolNode],
    pub paths: &'a FxHashMap<String, u32>,
    pub by_name: &'a FxHashMap<(u32, String), u32>,
    pub by_qualified: &'a FxHashMap<(u32, String), u32>,
}

/// Where a target resolves through the tables.
pub open spec fn target_node(t: PluginTargetTables, target: PluginTarget) -> Option<NodeRef> {
    resolve_spec(str_ids(*t.paths), name_ids(*t.by_name), name_ids(*t.by_qualified), target)
}

/// Every symbol id the tables hand out names a symbol.
pub open spec fn targets_wf(t: PluginTargetTables) -> bool {
    &&& forall|k: (u32, Seq<char>)|
        #[trigger] name_ids(*t.by_name).contains_key(k) ==> (name_ids(*t.by_name)[k] as int) < t.symbols@.len()
    &&& forall|k: (u32, Seq<char>)|
        #[trigger] name_ids(*t.by_qualified).contains_key(k) ==> (name_ids(*t.by_qualified)[k] as int)
            < t.symbols@.len()
}

/// The file whose change invalidates a contribution: the target's own file.
pub open spec fn owner_spec(t: PluginTargetTables, n: NodeRef) -> FileId {
    match n {
        NodeRef::File(f) => f,
        NodeRef::Symbol(s) => t.symbols@[s.0 as int].file,
    }
}

impl PluginTargetTables<'_> {
    pub fn resolve(&self, target: &PluginTarget) -> (r: Option<NodeRef>)
        requires
            targets_wf(*self),
        ensures
            r == target_node(*self, *target),
            r matches Some(NodeRef::Symbol(s)) ==> (s.0 as int) < self.symbols@.len(),
    {
        resolve_plugin_target(target, self.paths, self.by_name, self.by_qualified)
    }

    pub fn owner_of(&self, node: NodeRef) -> (r: FileId)
        requires
            node matches NodeRef::Symbol(s) ==> (s.0 as int) < self.symbols@.len(),
        ensures
            r == owner_spec(*self, node),
    {
        match node {
            NodeRef::File(f) => f,
            NodeRef::Symbol(s) => self.symbols[s.0 as usize].file,
        }
    }
}

/// The first `k` roots whose targets resolve.
pub open spec fn root_hits(t: PluginTargetTables, roots: Seq<ContributedRoot>, k: int) -> Seq<int>
    decreases k,
{
    if k <= 0 {
        Seq::empty()
    } else if target_node(t, roots[k - 1].target) is Some {
        root_hits(t, roots, k - 1).push(k - 1)
    } else {
        root_hits(t, roots, k - 1)
    }
}

/// The miss lines of the first `k` roots.
pub open spec fn root_misses(t: PluginTargetTables, roots: Seq<ContributedRoot>, k: int) -> Seq<Seq<char>>
    decreases k,
{
    if k <= 0 {
        Seq::empty()
    } else if target_node(t, roots[k - 1].target) is None {
        root_misses(t, roots, k - 1).push(dropped_line("root target"@, roots[k - 1].target))
    } else {
        root_misses(t, roots, k - 1)
    }
}

/// The edge a resolved root becomes.
pub open spec fn root_edge(t: PluginTargetTables, root: ContributedRoot, e: Edge, provenance: Provenance) -> bool {
    let target = target_node(t, root.target)->0;
    &&& e.kind == (EdgeKind::Root { kind: root.kind, target })
    &&& e.confidence == root.confidence
    &&& provenance_eq(e.source, provenance)
    &&& e.span is None
    &&& e.owner == owner_spec(t, target)
}

/// A plugin's contributed roots: each that resolves becomes a root edge of the
/// plugin's provenance, owned by its target's file; each miss is recorded.
pub fn collect_plugin_roots(
    roots: &[ContributedRoot],
    provenance: &Provenance,
    tables: &PluginTargetTables,
    round: &mut PluginRound,
    dropped: &mut Vec<String>,
)
    requires
        targets_wf(*tables),
    ensures
        final(round).edges@.len() == old(round).edges@.len() + root_hits(*tables, roots@, roots@.len() as int).len(),
        forall|q: int| 0 <= q < old(round).edges@.len() ==> final(round).edges@[q] == old(round).edges@[q],
        forall|q: int|
            0 <= q < root_hits(*tables, roots@, roots@.len() as int).len() ==> root_edge(
                *tables,
                roots@[root_hits(*tables, roots@, roots@.len() as int)[q]],
                #[trigger] final(round).edges@[old(round).edges@.len() + q],
                *provenance,
            ),
        final(round).externally_consumed == old(round).externally_consumed,
        final(round).implicitly_invoked == old(round).implicitly_invoked,
        final(round).diagnostics == old(round).diagnostics,
        final(round).contributions == old(round).contributions,
        views(final(dropped)@) == apply_records(views(old(dropped)@), root_misses(*tables, roots@, roots@.len() as int)),
{
    let ghost base = round.edges@;
    let ghost d0 = views(dropped@);
    let mut k: usize = 0;
    while k < roots.len()
        invariant
            targets_wf(*tables),
            k <= roots@.len(),
            round.edges@.len() == base.len() + root_hits(*tables, roots@, k as int).len(),
            forall|q: int| 0 <= q < base.len() ==> round.edges@[q] == base[q],
            forall|q: int|
                0 <= q < root_hits(*tables, roots@, k as int).len() ==> root_edge(
                    *tables,
                    roots@[root_hits(*tables, roots@, k as int)[q]],
                    #[trigger] round.edges@[base.len() + q],
                    *provenance,
                ),
            round.externally_consumed == old(round).externally_consumed,
            round.implicitly_invoked == old(round).implicitly_invoked,
            round.diagnostics == old(round).diagnostics,
            round.contributions == old(round).contributions,
            views(dropped@) == apply_records(d0, root_misses(*tables, roots@, k as int)),
        decreases roots@.len() - k,
    {
        let root = &roots[k];
        let ghost before = round.edges@;
        match tables.resolve(&root.target) {
            None => {
                record_dropped(dropped, "root target", &root.target);
                proof {
                    reveal_strlit("root target");
                    assert(root_misses(*tables, roots@, k + 1) == root_misses(*tables, roots@, k as int).push(
                        dropped_line("root target"@, root.target),
                    ));
                    assert(root_misses(*tables, roots@, k + 1).drop_last() == root_misses(*tables, roots@, k as int));
                }
            },
            Some(target) => {
                let edge = Edge {
                    kind: EdgeKind::Root { kind: root.kind, target },
                    confidence: root.confidence,
                    source: provenance_copy(provenance),
                    span: None,
                    owner: tables.owner_of(target),
                };
                round.edges.push(edge);
                proof {
                    let hits = root_hits(*tables, roots@, k + 1);
                    assert(hits == root_hits(*tables, roots@, k as int).push(k as int));
                    assert forall|q: int| 0 <= q < hits.len() implies root_edge(
                        *tables,
                        roots@[hits[q]],
                        #[trigger] round.edges@[base.len() + q],
                        *provenance,
                    ) by {
                        if q < hits.len() - 1 {
                            assert(round.edges@[base.len() + q] == before[base.len() + q]);
                        }
                    }
                }
            },
        }
        k = k + 1;
    }
}

/// Both ends of a contributed edge resolve.
pub open spec fn edge_resolves(t: PluginTargetTables, c: ContributedEdge) -> bool {
    target_node(t, c.from) is Some && target_node(t, c.to) is Some
}

/// The first `k` contributed edges whose ends both resolve.
pub open spec fn edge_hits(t: PluginTargetTables, edges: Seq<ContributedEdge>, k: int) -> Seq<int>
    decreases k,
{
    if k <= 0 {
        Seq::empty()
    } else if edge_resolves(t, edges[k - 1]) {
        edge_hits(t, edges, k - 1).push(k - 1)
    } else {
        edge_hits(t, edges, k - 1)
    }
}

/// The miss lines of the first `k` contributed edges: the source when it misses,
/// else the target.
pub open spec fn edge_misses(t: PluginTargetTables, edges: Seq<ContributedEdge>, k: int) -> Seq<Seq<char>>
    decreases k,
{
    if k <= 0 {
        Seq::empty()
    } else if target_node(t, edges[k - 1].from) is None {
        edge_misses(t, edges, k - 1).push(dropped_line("edge source"@, edges[k - 1].from))
    } else if target_node(t, edges[k - 1].to) is None {
        edge_misses(t, edges, k - 1).push(dropped_line("edge target"@, edges[k - 1].to))
    } else {
        edge_misses(t, edges, k - 1)
    }
}

/// The edge a resolved contribution becomes: a reference to a symbol target, or the
/// file-liveness edge to a whole-file target (the reference kind does not apply there).
pub open spec fn contributed_edge(t: PluginTargetTables, c: ContributedEdge, e: Edge, provenance: Provenance) -> bool {
    let from = target_node(t, c.from)->0;
    &&& match target_node(t, c.to)->0 {
        NodeRef::Symbol(to) => e.kind == (EdgeKind::References { from, to, kind: c.kind }),
        NodeRef::File(to) => e.kind == (EdgeKind::ReferencesFile { from, to }),
    }
    &&& e.confidence == c.confidence
    &&& provenance_eq(e.source, provenance)
    &&& e.span is None
    &&& e.owner == owner_spec(t, from)
}

/// A plugin's contributed edges: each whose ends resolve becomes an edge of the
/// plugin's provenance, owned by its source's file; each miss is recorded.
pub fn collect_plugin_edges(
    edges: &[ContributedEdge],
    provenance: &Provenance,
    tables: &PluginTargetTables,
    round: &mut PluginRound,
    dropped: &mut Vec<String>,
)
    requires
        targets_wf(*tables),
    ensures
        final(round).edges@.len() == old(round).edges@.len() + edge_hits(*tables, edges@, edges@.len() as int).len(),
        forall|q: int| 0 <= q < old(round).edges@.len() ==> final(round).edges@[q] == old(round).edges@[q],
        forall|q: int|
            0 <= q < edge_hits(*tables, edges@, edges@.len() as int).len() ==> contributed_edge(
                *tables,
                edges@[edge_hits(*tables, edges@, edges@.len() as int)[q]],
                #[trigger] final(round).edges@[old(round).edges@.len() + q],
                *provenance,
            ),
        final(round).externally_consumed == old(round).externally_consumed,
        final(round).implicitly_invoked == old(round).implicitly_invoked,
        final(round).diagnostics == old(round).diagnostics,
        final(round).contributions == old(round).contributions,
        views(final(dropped)@) == apply_records(views(old(dropped)@), edge_misses(*tables, edges@, edges@.len() as int)),
{
    let ghost base = round.edges@;
    let ghost d0 = views(dropped@);
    let mut k: usize = 0;
    while k < edges.len()
        invariant
            targets_wf(*tables),
            k <= edges@.len(),
            round.edges@.len() == base.len() + edge_hits(*tables, edges@, k as int).len(),
            forall|q: int| 0 <= q < base.len() ==> round.edges@[q] == base[q],
            forall|q: int|
                0 <= q < edge_hits(*tables, edges@, k as int).len() ==> contributed_edge(
                    *tables,
                    edges@[edge_hits(*tables, edges@, k as int)[q]],
                    #[trigger] round.edges@[base.len() + q],
                    *provenance,
                ),
            round.externally_consumed == old(round).externally_consumed,
            round.implicitly_invoked == old(round).implicitly_invoked,
            round.diagnostics == old(round).diagnostics,
            round.contributions == old(round).contributions,
            views(dropped@) == apply_records(d0, edge_misses(*tables, edges@, k as int)),
        decreases edges@.len() - k,
    {
        let contributed = &edges[k];
        let ghost before = round.edges@;
        let from = match tables.resolve(&contributed.from) {
            Some(n) => n,
            None => {
                record_dropped(dropped, "edge source", &contributed.from);
                proof {
                    assert(edge_misses(*tables, edges@, k + 1).drop_last() == edge_misses(*tables, edges@, k as int));
                }
                k = k + 1;
                continue;
            },
        };
        let kind = match tables.resolve(&contributed.to) {
            Some(NodeRef::Symbol(to)) => EdgeKind::References { from, to, kind: contributed.kind },
            Some(NodeRef::File(to)) => EdgeKind::ReferencesFile { from, to },
            None => {
                record_dropped(dropped, "edge target", &contributed.to);
                proof {
                    assert(edge_misses(*tables, edges@, k + 1).drop_last() == edge_misses(*tables, edges@, k as int));
                }
                k = k + 1;
                continue;
            },
        };
        let edge = Edge {
            kind,
            confidence: contributed.confidence,
            source: provenance_copy(provenance),
            span: None,
            owner: tables.owner_of(from),
        };
        round.edges.push(edge);
        proof {
            let hits = edge_hits(*tables, edges@, k + 1);
            assert(hits == edge_hits(*tables, edges@, k as int).push(k as int));
            assert forall|q: int| 0 <= q < hits.len() implies contributed_edge(
                *tables,
                edges@[hits[q]],
                #[trigger] round.edges@[base.len() + q],
                *provenance,
            ) by {
                if q < hits.len() - 1 {
                    assert(round.edges@[base.len() + q] == before[base.len() + q]);
                }
            }
        }
        k = k + 1;
    }
}

/// The targets among the first `k` that resolve to a symbol, by id.
pub open spec fn annotation_hits(t: PluginTargetTables, targets: Seq<PluginTarget>, k: int) -> Seq<SymbolId>
    decreases k,
{
    if k <= 0 {
        Seq::empty()
    } else {
        match target_node(t, targets[k - 1]) {
            Some(NodeRef::Symbol(id)) => annotation_hits(t, targets, k - 1).push(id),
            _ => annotation_hits(t, targets, k - 1),
        }
    }
}

/// The miss lines of the first `k` annotation targets: any that is not a symbol.
pub open spec fn annotation_misses(t: PluginTargetTables, targets: Seq<PluginTarget>, k: int) -> Seq<Seq<char>>
    decreases k,
{
    if k <= 0 {
        Seq::empty()
    } else if target_node(t, targets[k - 1]) matches Some(NodeRef::Symbol(_)) {
        annotation_misses(t, targets, k - 1)
    } else {
        annotation_misses(t, targets, k - 1).push(dropped_line("annotation target"@, targets[k - 1]))
    }
}

/// Resolves annotation targets into `ids`; a target that is not a symbol is a miss.
fn collect_annotation_targets(
    targets: &[PluginTarget],
    tables: &PluginTargetTables,
    ids: &mut Vec<SymbolId>,
    dropped: &mut Vec<String>,
)
    requires
        targets_wf(*tables),
    ensures
        final(ids)@ == old(ids)@ + annotation_hits(*tables, targets@, targets@.len() as int),
        views(final(dropped)@) == apply_records(
            views(old(dropped)@),
            annotation_misses(*tables, targets@, targets@.len() as int),
        ),
{
    let ghost base = ids@;
    let ghost d0 = views(dropped@);
    let mut k: usize = 0;
    proof {
        assert(base + annotation_hits(*tables, targets@, 0) =~= base);
    }
    while k < targets.len()
        invariant
            targets_wf(*tables),
            k <= targets@.len(),
            ids@ == base + annotation_hits(*tables, targets@, k as int),
            views(dropped@) == apply_records(d0, annotation_misses(*tables, targets@, k as int)),
        decreases targets@.len() - k,
    {
        match tables.resolve(&targets[k]) {
            Some(NodeRef::Symbol(id)) => {
                ids.push(id);
                proof {
                    assert(base + annotation_hits(*tables, targets@, k + 1) =~= (base + annotation_hits(
                        *tables,
                        targets@,
                        k as int,
                    )).push(id));
                }
            },
            _ => {
                record_dropped(dropped, "annotation target", &targets[k]);
                proof {
                    assert(annotation_misses(*tables, targets@, k + 1).drop_last() == annotation_misses(
                        *tables,
                        targets@,
                        k as int,
                    ));
                }
            },
        }
        k = k + 1;
    }
}

/// A plugin's symbol annotations: externally-consumed marks first, then
/// machinery-invoked marks, each resolving to a symbol or recorded as a miss.
pub fn collect_plugin_annotations(
    externally_consumed: &[PluginTarget],
    implicitly_invoked: &[PluginTarget],
    tables: &PluginTargetTables,
    round: &mut PluginRound,
    dropped: &mut Vec<String>,
)
    requires
        targets_wf(*tables),
    ensures
        final(round).externally_consumed@ == old(round).externally_consumed@ + annotation_hits(
            *tables,
            externally_consumed@,
            externally_consumed@.len() as int,
        ),
        final(round).implicitly_invoked@ == old(round).implicitly_invoked@ + annotation_hits(
            *tables,
            implicitly_invoked@,
            implicitly_invoked@.len() as int,
        ),
        final(round).edges == old(round).edges,
        final(round).diagnostics == old(round).diagnostics,
        final(round).contributions == old(round).contributions,
        views(final(dropped)@) == apply_records(
            apply_records(
                views(old(dropped)@),
                annotation_misses(*tables, externally_consumed@, externally_consumed@.len() as int),
            ),
            annotation_misses(*tables, implicitly_invoked@, implicitly_invoked@.len() as int),
        ),
{
    collect_annotation_targets(externally_consumed, tables, &mut round.externally_consumed, dropped);
    collect_annotation_targets(implicitly_invoked, tables, &mut round.implicitly_invoked, dropped);
}

/// Whether `e` is of the plugin `id`'s provenance.
pub open spec fn from_plugin(e: Edge, id: Seq<char>) -> bool {
    match e.source {
        Provenance::Plugin(s) => s@ == id,
        _ => false,
    }
}

/// What one graph-mutating plugin contributed to a round, resolved: its roots, its
/// edges, then its annotations, each under the plugin's provenance, and a record of
/// how many of each resolved (only contributions that made it into the round count)
/// with every contribution that missed its target. The plugin's outputs are the
/// arguments; running the plugin is the caller's part.
pub fn apply_plugin_contributions(
    plugin_id: &str,
    roots: &[ContributedRoot],
    edges: &[ContributedEdge],
    externally_consumed: &[PluginTarget],
    implicitly_invoked: &[PluginTarget],
    tables: &PluginTargetTables,
    round: &mut PluginRound,
)
    requires
        targets_wf(*tables),
    ensures
        final(round).edges@.len() == old(round).edges@.len() + root_hits(*tables, roots@, roots@.len() as int).len()
            + edge_hits(*tables, edges@, edges@.len() as int).len(),
        forall|q: int| 0 <= q < old(round).edges@.len() ==> final(round).edges@[q] == old(round).edges@[q],
        forall|q: int|
            0 <= q < root_hits(*tables, roots@, roots@.len() as int).len() ==> root_edge(
                *tables,
                roots@[root_hits(*tables, roots@, roots@.len() as int)[q]],
                #[trigger] final(round).edges@[old(round).edges@.len() + q],
                final(round).edges@[old(round).edges@.len() + q].source,
            ),
        forall|q: int|
            0 <= q < edge_hits(*tables, edges@, edges@.len() as int).len() ==> contributed_edge(
                *tables,
                edges@[edge_hits(*tables, edges@, edges@.len() as int)[q]],
                #[trigger] final(round).edges@[old(round).edges@.len() + root_hits(*tables, roots@, roots@.len() as int).len() + q],
                final(round).edges@[old(round).edges@.len() + root_hits(*tables, roots@, roots@.len() as int).len() + q].source,
            ),
        forall|q: int|
            old(round).edges@.len() <= q < final(round).edges@.len() ==> from_plugin(#[trigger] final(round).edges@[q], plugin_id@),
        final(round).externally_consumed@ == old(round).externally_consumed@ + annotation_hits(
            *tables,
            externally_consumed@,
            externally_consumed@.len() as int,
        ),
        final(round).implicitly_invoked@ == old(round).implicitly_invoked@ + annotation_hits(
            *tables,
            implicitly_invoked@,
            implicitly_invoked@.len() as int,
        ),
        final(round).diagnostics == old(round).diagnostics,
        final(round).contributions@.len() == old(round).contributions@.len() + 1,
        forall|q: int| 0 <= q < old(round).contributions@.len() ==> final(round).contributions@[q] == old(round).contributions@[q],
        ({
            let c = final(round).contributions@[old(round).contributions@.len() as int];
            &&& c.id@ == plugin_id@
            &&& c.roots == root_hits(*tables, roots@, roots@.len() as int).len() as u32
            &&& c.edges == edge_hits(*tables, edges@, edges@.len() as int).len() as u32
            &&& c.annotations == (annotation_hits(*tables, externally_consumed@, externally_consumed@.len() as int).len()
                + annotation_hits(*tables, implicitly_invoked@, implicitly_invoked@.len() as int).len()) as u32
            &&& views(c.dropped@) == apply_records(
                apply_records(
                    apply_records(
                        apply_records(Seq::empty(), root_misses(*tables, roots@, roots@.len() as int)),
                        edge_misses(*tables, edges@, edges@.len() as int),
                    ),
                    annotation_misses(*tables, externally_consumed@, externally_consumed@.len() as int),
                ),
                annotation_misses(*tables, implicitly_invoked@, implicitly_invoked@.len() as int),
            )
        }),
{
    let provenance = Provenance::Plugin(owned(plugin_id));
    let mut dropped: Vec<String> = Vec::new();
    proof {
        assert(views(dropped@) =~= Seq::<Seq<char>>::empty());
    }
    let edges_before = round.edges.len();
    collect_plugin_roots(roots, &provenance, tables, round, &mut dropped);
    let roots_after = round.edges.len();
    let ghost with_roots = round.edges@;
    collect_plugin_edges(edges, &provenance, tables, round, &mut dropped);
    let edges_after = round.edges.len();
    proof {
        let rh = root_hits(*tables, roots@, roots@.len() as int);
        let eh = edge_hits(*tables, edges@, edges@.len() as int);
        assert forall|q: int| edges_before <= q < round.edges@.len() implies from_plugin(#[trigger] round.edges@[q], plugin_id@) by {
            if q < roots_after {
                let k = q - edges_before;
                assert(root_edge(*tables, roots@[rh[k]], with_roots[edges_before + k], provenance));
                assert(round.edges@[q] == with_roots[q]);
            } else {
                let k = q - roots_after;
                assert(contributed_edge(*tables, edges@[eh[k]], round.edges@[roots_after + k], provenance));
            }
        }
    }
    let consumed_before = round.externally_consumed.len();
    let invoked_before = round.implicitly_invoked.len();
    collect_plugin_annotations(externally_consumed, implicitly_invoked, tables, round, &mut dropped);
    let annotated = ((round.externally_consumed.len() - consumed_before) as u128) + ((round.implicitly_invoked.len()
        - invoked_before) as u128);
    let root_count: u32 = #[verifier::truncate] ((roots_after - edges_before) as u32);
    let edge_count: u32 = #[verifier::truncate] ((edges_after - roots_after) as u32);
    let annotation_count: u32 = #[verifier::truncate] (annotated as u32);
    round.contributions.push(
        PluginContribution {
            id: owned(plugin_id),
            roots: root_count,
            edges: edge_count,
            annotations: annotation_count,
            dropped,
        },
    );
}

/// Whether a rule name is lower-kebab: one or more of `a`-`z`, `0`-`9` and `-`.
pub open spec fn is_rule_name(name: Seq<char>) -> bool {
    name.len() > 0 && forall|i: int|
        0 <= i < name.len() ==> ('a' <= #[trigger] name[i] <= 'z') || ('0' <= name[i] <= '9') || name[i] == '-'
}

/// Whether `name` is a valid rule name.
pub fn is_valid_rule_name(name: &str) -> (r: bool)
    ensures
        r == is_rule_name(name@),
{
    let n = name.unicode_len();
    if n == 0 {
        return false;
    }
    let mut i: usize = 0;
    while i < n
        invariant
            n == name@.len(),
            i <= n,
            forall|j: int| 0 <= j < i ==> ('a' <= #[trigger] name@[j] <= 'z') || ('0' <= name@[j] <= '9') || name@[j] == '-',
        decreases n - i,
    {
        let c = name.get_char(i);
        if !(('a' <= c && c <= 'z') || ('0' <= c && c <= '9') || c == '-') {
            return false;
        }
        i = i + 1;
    }
    true
}

/// The warning for a rule excluded for its name.
pub open spec fn invalid_rule_line(plugin_id: Seq<char>, rule: Seq<char>) -> Seq<char> {
    "plugin '"@ + plugin_id + "' declares invalidly named rule '"@ + rule
        + "' (lower-kebab [a-z0-9-]+ required) \u{2014} excluded"@
}

/// The declared rules of the first `k` that are validly named, in order.
pub open spec fn valid_rules_upto(rules: Seq<RuleDescriptor>, k: int) -> Seq<int>
    decreases k,
{
    if k <= 0 {
        Seq::empty()
    } else if is_rule_name(rules[k - 1].name@) {
        valid_rules_upto(rules, k - 1).push(k - 1)
    } else {
        valid_rules_upto(rules, k - 1)
    }
}

/// The warnings for the invalidly named rules among the first `k`, in order.
pub open spec fn invalid_rule_lines(plugin_id: Seq<char>, rules: Seq<RuleDescriptor>, k: int) -> Seq<Seq<char>>
    decreases k,
{
    if k <= 0 {
        Seq::empty()
    } else if is_rule_name(rules[k - 1].name@) {
        invalid_rule_lines(plugin_id, rules, k - 1)
    } else {
        invalid_rule_lines(plugin_id, rules, k - 1).push(invalid_rule_line(plugin_id, rules[k - 1].name@))
    }
}

/// A plugin's declared rules with every invalidly named one excluded whole (its
/// findings then fall out as undeclared), each exclusion warned about, never silent.
pub fn retain_valid_rules(plugin_id: &str, rules: Vec<RuleDescriptor>, diagnostics: &mut Vec<Diagnostic>) -> (r: Vec<
    RuleDescriptor,
>)
    ensures
        r@.len() == valid_rules_upto(rules@, rules@.len() as int).len(),
        forall|q: int|
            0 <= q < r@.len() ==> (#[trigger] r@[q]).name@ == rules@[valid_rules_upto(rules@, rules@.len() as int)[q]].name@
                && r@[q].severity == rules@[valid_rules_upto(rules@, rules@.len() as int)[q]].severity
                && r@[q].description@ == rules@[valid_rules_upto(rules@, rules@.len() as int)[q]].description@,
        final(diagnostics)@.len() == old(diagnostics)@.len() + invalid_rule_lines(plugin_id@, rules@, rules@.len() as int).len(),
        forall|q: int| 0 <= q < old(diagnostics)@.len() ==> final(diagnostics)@[q] == old(diagnostics)@[q],
        forall|q: int|
            0 <= q < invalid_rule_lines(plugin_id@, rules@, rules@.len() as int).len() ==> {
                let d = #[trigger] final(diagnostics)@[old(diagnostics)@.len() + q];
                &&& d.level == DiagnosticLevel::Warn
                &&& d.path is None
                &&& d.span is None
                &&& d.message@ == invalid_rule_lines(plugin_id@, rules@, rules@.len() as int)[q]
            },
{
    let ghost d0 = diagnostics@;
    let mut kept: Vec<RuleDescriptor> = Vec::new();
    let mut k: usize = 0;
    while k < rules.len()
        invariant
            k <= rules@.len(),
            kept@.len() == valid_rules_upto(rules@, k as int).len(),
            forall|q: int|
                0 <= q < kept@.len() ==> (#[trigger] kept@[q]).name@ == rules@[valid_rules_upto(rules@, k as int)[q]].name@
                    && kept@[q].severity == rules@[valid_rules_upto(rules@, k as int)[q]].severity
                    && kept@[q].description@ == rules@[valid_rules_upto(rules@, k as int)[q]].description@,
            diagnostics@.len() == d0.len() + invalid_rule_lines(plugin_id@, rules@, k as int).len(),
            forall|q: int| 0 <= q < d0.len() ==> diagnostics@[q] == d0[q],
            forall|q: int|
                0 <= q < invalid_rule_lines(plugin_id@, rules@, k as int).len() ==> {
                    let d = #[trigger] diagnostics@[d0.len() + q];
                    &&& d.level == DiagnosticLevel::Warn
                    &&& d.path is None
                    &&& d.span is None
                    &&& d.message@ == invalid_rule_lines(plugin_id@, rules@, k as int)[q]
                },
        decreases rules@.len() - k,
    {
        let rule = &rules[k];
        if is_valid_rule_name(rule.name.as_str()) {
            kept.push(
                RuleDescriptor {
                    name: owned(rule.name.as_str()),
                    severity: rule.severity,
                    description: owned(rule.description.as_str()),
                },
            );
        } else {
            let mut message = owned("plugin '");
            message.append(plugin_id);
            message.append("' declares invalidly named rule '");
            message.append(rule.name.as_str());
            message.append("' (lower-kebab [a-z0-9-]+ required) \u{2014} excluded");
            proof {
                assert(message@ =~= invalid_rule_line(plugin_id@, rule.name@));
            }
            diagnostics.push(finding_round_diagnostic(message));
        }
        k = k + 1;
    }
    kept
}

/// Symbols order absent first, then by their characters.
pub open spec fn symbol_lt(a: Option<String>, b: Option<String>) -> bool {
    match (a, b) {
        (None, Some(_)) => true,
        (Some(x), Some(y)) => seq_lex_lt(x@, y@),
        _ => false,
    }
}

/// Two optional symbols, equal by their characters.
pub open spec fn symbol_eq(a: Option<String>, b: Option<String>) -> bool {
    match (a, b) {
        (None, None) => true,
        (Some(x), Some(y)) => x@ == y@,
        _ => false,
    }
}

/// The finding round's canonical order: category, then path, then symbol, then message.
pub open spec fn round_le(a: ProtoFinding, b: ProtoFinding) -> bool {
    seq_lex_lt(a.category@, b.category@) || (a.category@ == b.category@ && (seq_lex_lt(a.path.0@, b.path.0@) || (
    a.path.0@ == b.path.0@ && (symbol_lt(a.symbol, b.symbol) || (symbol_eq(a.symbol, b.symbol) && seq_lex_le(
        a.message@,
        b.message@,
    ))))))
}

proof fn lemma_lt_or_eq_or_gt(a: Seq<char>, b: Seq<char>)
    ensures
        seq_lex_lt(a, b) || a == b || seq_lex_lt(b, a),
{
    lemma_lex_total(a, b);
}

proof fn lemma_lt_then(a: Seq<char>, b: Seq<char>, c: Seq<char>)
    requires
        seq_lex_lt(a, b) || a == b,
        seq_lex_lt(b, c) || b == c,
    ensures
        seq_lex_lt(a, c) || a == c,
        (seq_lex_lt(a, b) || seq_lex_lt(b, c)) ==> seq_lex_lt(a, c),
{
    if seq_lex_lt(a, b) && seq_lex_lt(b, c) {
        lemma_lex_transitive(a, b, c);
        if a == c {
            lemma_lex_antisymmetric(a, b);
        }
    }
}

proof fn lemma_round_total(a: ProtoFinding, b: ProtoFinding)
    ensures
        round_le(a, b) || round_le(b, a),
{
    lemma_lt_or_eq_or_gt(a.category@, b.category@);
    lemma_lt_or_eq_or_gt(a.path.0@, b.path.0@);
    lemma_lex_total(a.message@, b.message@);
    match (a.symbol, b.symbol) {
        (Some(x), Some(y)) => lemma_lt_or_eq_or_gt(x@, y@),
        _ => {},
    }
}

proof fn lemma_round_transitive(a: ProtoFinding, b: ProtoFinding, c: ProtoFinding)
    requires
        round_le(a, b),
        round_le(b, c),
    ensures
        round_le(a, c),
{
    lemma_lt_then(a.category@, b.category@, c.category@);
    if a.category@ == b.category@ && b.category@ == c.category@ {
        lemma_lt_then(a.path.0@, b.path.0@, c.path.0@);
        if a.path.0@ == b.path.0@ && b.path.0@ == c.path.0@ {
            match (a.symbol, b.symbol, c.symbol) {
                (Some(x), Some(y), Some(z)) => {
                    if symbol_lt(a.symbol, b.symbol) || symbol_lt(b.symbol, c.symbol) || !symbol_eq(a.symbol, b.symbol)
                        || !symbol_eq(b.symbol, c.symbol) {
                        lemma_lt_then(x@, y@, z@);
                    } else {
                        lemma_lex_transitive(a.message@, b.message@, c.message@);
                    }
                },
                _ => {
                    if symbol_eq(a.symbol, b.symbol) && symbol_eq(b.symbol, c.symbol) {
                        lemma_lex_transitive(a.message@, b.message@, c.message@);
                    }
                },
            }
        }
    }
}

fn symbol_order(a: &Option<String>, b: &Option<String>) -> (r: Comparison)
    ensures
        r == Comparison::Less <==> symbol_lt(*a, *b),
        r == Comparison::Equal <==> symbol_eq(*a, *b),
{
    match (a, b) {
        (None, None) => Comparison::Equal,
        (None, Some(_)) => Comparison::Less,
        (Some(_), None) => Comparison::Greater,
        (Some(x), Some(y)) => compare_str(x.as_str(), y.as_str()),
    }
}

fn round_le_exec(a: &ProtoFinding, b: &ProtoFinding) -> (r: bool)
    ensures
        r == round_le(*a, *b),
{
    match compare_str(a.category.as_str(), b.category.as_str()) {
        Comparison::Less => true,
        Comparison::Greater => false,
        Comparison::Equal => match compare_str(a.path.0.as_str(), b.path.0.as_str()) {
            Comparison::Less => true,
            Comparison::Greater => false,
            Comparison::Equal => match symbol_order(&a.symbol, &b.symbol) {
                Comparison::Less => true,
                Comparison::Greater => false,
                Comparison::Equal => match compare_str(a.message.as_str(), b.message.as_str()) {
                    Comparison::Greater => false,
                    _ => {
                        proof {
                            crate::text::lemma_lex_reflexive(a.message@);
                        }
                        true
                    },
                },
            },
        },
    }
}

fn placeholder_finding() -> (r: ProtoFinding) {
    ProtoFinding {
        category: String::new(),
        plugin_id: String::new(),
        rule: String::new(),
        severity: PluginSeverity::Info,
        confidence: Confidence::Certain,
        message: String::new(),
        path: ProjectPath(String::new()),
        symbol: None,
        span: None,
        subject_kind: String::new(),
        package: None,
    }
}

proof fn lemma_adjacent_swap_multiset<T>(s: Seq<T>, j: int)
    requires
        0 < j < s.len(),
    ensures
        s.update(j - 1, s[j]).update(j, s[j - 1]).to_multiset() =~= s.to_multiset(),
{
    let t = s.update(j - 1, s[j]).update(j, s[j - 1]);
    let a = s.subrange(0, j - 1);
    let b = s.subrange(j + 1, s.len() as int);
    assert(s =~= a + seq![s[j - 1], s[j]] + b);
    assert(t =~= a + seq![s[j], s[j - 1]] + b);
    vstd::seq_lib::lemma_multiset_commutative(a + seq![s[j - 1], s[j]], b);
    vstd::seq_lib::lemma_multiset_commutative(a + seq![s[j], s[j - 1]], b);
    vstd::seq_lib::lemma_multiset_commutative(a, seq![s[j - 1], s[j]]);
    vstd::seq_lib::lemma_multiset_commutative(a, seq![s[j], s[j - 1]]);
    vstd::seq_lib::lemma_seq_union_to_multiset_commutative(seq![s[j - 1]], seq![s[j]]);
    assert(seq![s[j - 1], s[j]] =~= seq![s[j - 1]] + seq![s[j]]);
    assert(seq![s[j], s[j - 1]] =~= seq![s[j]] + seq![s[j - 1]]);
}

/// The finding round's output in canonical order (category, path, symbol, message),
/// so identical runs produce identical output whatever order the plugins were
/// registered in. Sorting keeps the findings, as a multiset.
pub fn sort_round_findings(findings: &mut Vec<ProtoFinding>)
    ensures
        final(findings)@.to_multiset() == old(findings)@.to_multiset(),
        forall|p: int, q: int| 0 <= p < q < final(findings)@.len() ==> round_le(final(findings)@[p], final(findings)@[q]),
{
    let n = findings.len();
    if n == 0 {
        return ;
    }
    let mut i: usize = 1;
    while i < n
        invariant
            n == findings@.len(),
            1 <= i <= n,
            findings@.to_multiset() == old(findings)@.to_multiset(),
            forall|p: int, q: int| 0 <= p < q < i ==> round_le(findings@[p], findings@[q]),
        decreases n - i,
    {
        let mut j: usize = i;
        while j > 0 && !round_le_exec(&findings[j - 1], &findings[j])
            invariant
                n == findings@.len(),
                1 <= i < n,
                j <= i,
                findings@.to_multiset() == old(findings)@.to_multiset(),
                forall|p: int, q: int| 0 <= p < q < j ==> round_le(findings@[p], findings@[q]),
                forall|p: int, q: int| j < p < q <= i ==> round_le(findings@[p], findings@[q]),
                forall|p: int, q: int| 0 <= p < j && j < q <= i ==> round_le(findings@[p], findings@[q]),
                forall|q: int| j < q <= i ==> !round_le(findings@[q], findings@[j as int]),
            decreases j,
        {
            let ghost before = findings@;
            let mut tmp = placeholder_finding();
            findings.set_and_swap(j - 1, &mut tmp);
            findings.set_and_swap(j, &mut tmp);
            findings.set_and_swap(j - 1, &mut tmp);
            proof {
                assert(findings@ =~= before.update(j - 1, before[j as int]).update(j as int, before[j - 1]));
                lemma_adjacent_swap_multiset(before, j as int);
                assert forall|p: int, q: int| j - 1 < p < q <= i implies round_le(findings@[p], findings@[q]) by {
                    if p == j {
                        lemma_round_total(before[j - 1], before[j as int]);
                        if q > j {
                            assert(round_le(before[j - 1], before[q]));
                        }
                    }
                }
                assert forall|q: int| j - 1 < q <= i implies !round_le(#[trigger] findings@[q], findings@[j - 1]) by {
                    if q > j {
                        if round_le(before[q], before[j as int]) {
                        }
                    }
                }
            }
            j = j - 1;
        }
        proof {
            let s = findings@;
            assert forall|p: int, q: int| 0 <= p < q < i + 1 implies round_le(s[p], s[q]) by {
                if q == j {
                    if p < j - 1 {
                        lemma_round_transitive(s[p], s[j - 1], s[j as int]);
                    }
                } else if p == j {
                    lemma_round_total(s[p], s[q]);
                }
            }
        }
        i = i + 1;
    }
}

/// What the canonical order reads of a finding: category, path, symbol, message.
pub open spec fn round_key(f: ProtoFinding) -> (Seq<char>, Seq<char>, Option<Seq<char>>, Seq<char>) {
    (
        f.category@,
        f.path.0@,
        match f.symbol {
            Some(s) => Some(s@),
            None => None,
        },
        f.message@,
    )
}

/// The canonical order on keys.
pub open spec fn round_key_le(
    a: (Seq<char>, Seq<char>, Option<Seq<char>>, Seq<char>),
    b: (Seq<char>, Seq<char>, Option<Seq<char>>, Seq<char>),
) -> bool {
    seq_lex_lt(a.0, b.0) || (a.0 == b.0 && (seq_lex_lt(a.1, b.1) || (a.1 == b.1 && (match (a.2, b.2) {
        (None, Some(_)) => true,
        (Some(x), Some(y)) => seq_lex_lt(x, y),
        _ => false,
    } || (a.2 == b.2 && seq_lex_le(a.3, b.3))))))
}

/// `round_key_le`, as a value.
pub open spec fn round_key_le_fn() -> spec_fn(
    (Seq<char>, Seq<char>, Option<Seq<char>>, Seq<char>),
    (Seq<char>, Seq<char>, Option<Seq<char>>, Seq<char>),
) -> bool {
    |a: (Seq<char>, Seq<char>, Option<Seq<char>>, Seq<char>), b: (Seq<char>, Seq<char>, Option<Seq<char>>, Seq<char>)|
        round_key_le(a, b)
}

/// `round_key`, as a value.
pub open spec fn round_key_fn() -> spec_fn(ProtoFinding) -> (Seq<char>, Seq<char>, Option<Seq<char>>, Seq<char>) {
    |f: ProtoFinding| round_key(f)
}

proof fn lemma_multiset_map<A, B>(s: Seq<A>, t: Seq<A>, f: spec_fn(A) -> B)
    requires
        s.to_multiset() == t.to_multiset(),
    ensures
        s.map_values(f).to_multiset() == t.map_values(f).to_multiset(),
    decreases s.len(),
{
    broadcast use vstd::seq_lib::group_to_multiset_ensures;
    if s.len() == 0 {
        assert(t.to_multiset().len() == 0);
        assert(t.len() == 0);
        assert(s.map_values(f) =~= t.map_values(f));
    } else {
        let x = s.last();
        assert(s.to_multiset().count(x) > 0);
        assert(t.contains(x));
        let k = choose|k: int| 0 <= k < t.len() && t[k] == x;
        let t2 = t.remove(k);
        vstd::seq_lib::to_multiset_remove(t, k);
        assert(s =~= s.drop_last().push(x));
        vstd::seq_lib::to_multiset_build(s.drop_last(), x);
        assert(s.drop_last().to_multiset() =~= t2.to_multiset());
        lemma_multiset_map(s.drop_last(), t2, f);
        assert(s.map_values(f) =~= s.drop_last().map_values(f).push(f(x)));
        vstd::seq_lib::to_multiset_build(s.drop_last().map_values(f), f(x));
        assert(t.map_values(f).remove(k) =~= t2.map_values(f));
        vstd::seq_lib::to_multiset_remove(t.map_values(f), k);
        assert(t.map_values(f).to_multiset().count(f(x)) > 0) by {
            assert(t.map_values(f)[k] == f(x));
            assert(t.map_values(f).contains(f(x)));
        }
        assert(s.map_values(f).to_multiset() =~= t.map_values(f).to_multiset());
    }
}

/// The finding round's order is canonical: any two orderings of the same findings that
/// the round's sort may produce agree on every finding's category, path, symbol and
/// message, position by position, so the registration order of the plugins that
/// produced them does not show.
pub proof fn lemma_round_order_is_canonical(s: Seq<ProtoFinding>, t: Seq<ProtoFinding>)
    requires
        s.to_multiset() == t.to_multiset(),
        forall|p: int, q: int| 0 <= p < q < s.len() ==> round_le(s[p], s[q]),
        forall|p: int, q: int| 0 <= p < q < t.len() ==> round_le(t[p], t[q]),
    ensures
        s.map_values(round_key_fn()) == t.map_values(round_key_fn()),
{
    let f = round_key_fn();
    let le = round_key_le_fn();
    assert forall|a: ProtoFinding, b: ProtoFinding| round_le(a, b) implies #[trigger] le(f(a), f(b)) by {
        match (a.symbol, b.symbol) {
            (Some(x), Some(y)) => {},
            _ => {},
        }
    }
    let ks = s.map_values(f);
    let kt = t.map_values(f);
    assert forall|p: int, q: int| 0 <= p < q < ks.len() implies le(ks[p], ks[q]) by {
        assert(round_le(s[p], s[q]));
    }
    assert forall|p: int, q: int| 0 <= p < q < kt.len() implies le(kt[p], kt[q]) by {
        assert(round_le(t[p], t[q]));
    }
    assert forall|a: (Seq<char>, Seq<char>, Option<Seq<char>>, Seq<char>), b: (Seq<char>, Seq<char>, Option<Seq<char>>, Seq<char>)|
        #[trigger] le(a, b) && le(b, a) implies a == b by {
        if a.0 != b.0 {
            lemma_lex_antisymmetric(a.0, b.0);
        }
        if a.1 != b.1 {
            lemma_lex_antisymmetric(a.1, b.1);
        }
        match (a.2, b.2) {
            (Some(x), Some(y)) => {
                if x != y {
                    lemma_lex_antisymmetric(x, y);
                }
            },
            _ => {},
        }
        lemma_lex_antisymmetric(a.3, b.3);
    }
    lemma_multiset_map(s, t, f);
    crate::graph::key::lemma_sorted_unique(ks, kt, le);
}

} // verus!
