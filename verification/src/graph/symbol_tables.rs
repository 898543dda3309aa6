//! The symbol tables one file's declarations build, in declaration order: each gets the
//! next symbol id; a free declaration takes its bare name in the file (a later one of
//! the same name wins) and in its unit's table; a member is indexed by its name across
//! the project and by its `Owner.member` selector in the file, an earlier holder of the
//! selector kept as a twin. A file whose whole-module default is a local name binds
//! `default` to it, unless `default` is taken.

use vstd::prelude::*;

use rustc_hash::FxHashMap;

use crate::fx::{
    chars_of, str_ids, str_ids_get, str_ids_insert, str_ids_new, str_lists, str_lists_new, str_lists_push,
    unit_symbols, unit_tables_insert, unit_tables_new, unit_tables_remove,
};
use crate::graph::declarations::Declaration;
use crate::graph::resolve::insert_qualified;
use crate::graph::SymbolNode;
use crate::text::{join3, owned};
use crate::vocab::FileId;

verus! {

/// The tables declarations build, by their contents.
pub struct DeclaredTables {
    /// The file's bare names.
    pub bare: Map<Seq<char>, u32>,
    /// The file's `Owner.member` selectors, each to its latest holder.
    pub qualified: Map<Seq<char>, u32>,
    /// The file's displaced selector holders, in order displaced.
    pub twins: Map<Seq<char>, Seq<u32>>,
    /// Every member name, to its members in declaration order.
    pub members: Map<Seq<char>, Seq<u32>>,
    /// Each unit's top-level names.
    pub units: Map<Seq<char>, Map<Seq<char>, u32>>,
}

/// `id` appended to the list under `key`.
pub open spec fn pushed(m: Map<Seq<char>, Seq<u32>>, key: Seq<char>, id: u32) -> Map<Seq<char>, Seq<u32>> {
    m.insert(
        key,
        (if m.contains_key(key) {
            m[key]
        } else {
            Seq::empty()
        }).push(id),
    )
}

/// The tables once declaration `d` of a file in unit `unit` takes symbol `id`.
pub open spec fn declare(s: DeclaredTables, d: Declaration, unit: Option<String>, id: u32) -> DeclaredTables {
    match d.member_of {
        None => DeclaredTables {
            bare: s.bare.insert(d.name@, id),
            units: match unit {
                Some(u) => s.units.insert(
                    u@,
                    (if s.units.contains_key(u@) {
                        s.units[u@]
                    } else {
                        Map::empty()
                    }).insert(d.name@, id),
                ),
                None => s.units,
            },
            ..s
        },
        Some(owner) => {
            let key = owner@ + "."@ + d.name@;
            DeclaredTables {
                members: pushed(s.members, d.name@, id),
                qualified: s.qualified.insert(key, id),
                twins: if s.qualified.contains_key(key) {
                    pushed(s.twins, key, s.qualified[key])
                } else {
                    s.twins
                },
                ..s
            }
        },
    }
}

/// The tables after the first `k` declarations, the first taking symbol `first`.
pub open spec fn declared_upto(
    s: DeclaredTables,
    decls: Seq<Declaration>,
    unit: Option<String>,
    first: int,
    k: int,
) -> DeclaredTables
    decreases k,
{
    if k <= 0 {
        s
    } else {
        declare(declared_upto(s, decls, unit, first, k - 1), decls[k - 1], unit, (first + k - 1) as u32)
    }
}

/// A bare table with `default` bound to the local name `alias` names, where the table
/// has that name and `default` is free.
pub open spec fn with_default(bare: Map<Seq<char>, u32>, alias: Option<String>) -> Map<Seq<char>, u32> {
    match alias {
        Some(local) => if bare.contains_key(local@) && !bare.contains_key("default"@) {
            bare.insert("default"@, bare[local@])
        } else {
            bare
        },
        None => bare,
    }
}

/// Whether `s` is the symbol declaration `d` of file `i` becomes.
pub open spec fn symbol_of(s: SymbolNode, i: int, d: Declaration) -> bool {
    &&& s.file == FileId(i as u32)
    &&& s.name@ == d.name@
    &&& s.kind == d.kind
    &&& s.span == d.span
    &&& s.exported == d.exported
    &&& s.visibility == d.visibility
    &&& chars_of(s.member_of) == chars_of(d.member_of)
    &&& s.signature_span == d.signature_span
    &&& s.implicitly_invoked == d.implicitly_invoked
    &&& s.nested_scope == d.nested_scope
    &&& s.visibility_inherited == d.visibility_inherited
    &&& s.visible_in_unit is None
    &&& s.implements is None
    &&& s.markers@.len() == 0
}

fn copy_name(v: &Option<String>) -> (r: Option<String>)
    ensures
        chars_of(r) == chars_of(*v),
{
    match v {
        Some(s) => Some(owned(s.as_str())),
        None => None,
    }
}

/// The node declaration `d` of file `i` becomes.
fn symbol_node(i: usize, d: &Declaration) -> (r: SymbolNode)
    ensures
        symbol_of(r, i as int, *d),
{
    SymbolNode {
        file: FileId(i as u32),
        name: owned(d.name.as_str()),
        kind: d.kind,
        span: d.span,
        exported: d.exported,
        visibility: d.visibility,
        member_of: copy_name(&d.member_of),
        signature_span: d.signature_span,
        implicitly_invoked: d.implicitly_invoked,
        nested_scope: d.nested_scope,
        visibility_inherited: d.visibility_inherited,
        visible_in_unit: None,
        implements: None,
        markers: Vec::new(),
    }
}

/// Binds `name` to `id` in unit `unit`'s table.
fn unit_insert(units: &mut FxHashMap<String, FxHashMap<String, u32>>, unit: &str, name: &str, id: u32)
    ensures
        unit_symbols(*final(units)) == unit_symbols(*old(units)).insert(
            unit@,
            (if unit_symbols(*old(units)).contains_key(unit@) {
                unit_symbols(*old(units))[unit@]
            } else {
                Map::empty()
            }).insert(name@, id),
        ),
{
    let mut table = match unit_tables_remove(units, unit) {
        Some(t) => t,
        None => {
            let t = str_ids_new();
            proof {
                assert(str_ids(t) =~= Map::<Seq<char>, u32>::empty());
            }
            t
        },
    };
    str_ids_insert(&mut table, name, id);
    unit_tables_insert(units, unit, table);
    proof {
        assert(unit_symbols(*units) =~= unit_symbols(*old(units)).insert(
            unit@,
            (if unit_symbols(*old(units)).contains_key(unit@) {
                unit_symbols(*old(units))[unit@]
            } else {
                Map::empty()
            }).insert(name@, id),
        ));
    }
}

/// Builds file `i`'s symbols and tables from its declarations `decls`, the first taking
/// the next id after `symbols`: its symbols are appended to `symbols`, its members to
/// `member_by_name` and its unit's names (the file is in unit `unit`, if any) to
/// `unit_tables`; the file's bare, qualified and twin tables come back, the bare one
/// with `default` bound to `default_alias` where that names a declaration and
/// `default` is free.
pub fn declare_file_symbols(
    i: usize,
    decls: &[Declaration],
    unit: &Option<String>,
    default_alias: &Option<String>,
    symbols: &mut Vec<SymbolNode>,
    member_by_name: &mut FxHashMap<String, Vec<u32>>,
    unit_tables: &mut FxHashMap<String, FxHashMap<String, u32>>,
) -> (r: (FxHashMap<String, u32>, FxHashMap<String, u32>, FxHashMap<String, Vec<u32>>))
    requires
        old(symbols)@.len() + decls@.len() <= u32::MAX,
    ensures
        final(symbols)@.len() == old(symbols)@.len() + decls@.len(),
        forall|q: int| 0 <= q < old(symbols)@.len() ==> final(symbols)@[q] == old(symbols)@[q],
        forall|d: int|
            0 <= d < decls@.len() ==> symbol_of(#[trigger] final(symbols)@[old(symbols)@.len() + d], i as int, decls@[d]),
        ({
            let s = declared_upto(
                DeclaredTables {
                    bare: Map::empty(),
                    qualified: Map::empty(),
                    twins: Map::empty(),
                    members: str_lists(*old(member_by_name)),
                    units: unit_symbols(*old(unit_tables)),
                },
                decls@,
                *unit,
                old(symbols)@.len() as int,
                decls@.len() as int,
            );
            &&& str_ids(r.0) == with_default(s.bare, *default_alias)
            &&& str_ids(r.1) == s.qualified
            &&& str_lists(r.2) == s.twins
            &&& str_lists(*final(member_by_name)) == s.members
            &&& unit_symbols(*final(unit_tables)) == s.units
        }),
{
    let ghost first = symbols@.len() as int;
    let ghost start = symbols@;
    let ghost s0 = DeclaredTables {
        bare: Map::empty(),
        qualified: Map::empty(),
        twins: Map::empty(),
        members: str_lists(*member_by_name),
        units: unit_symbols(*unit_tables),
    };
    let mut bare = str_ids_new();
    let mut qualified = str_ids_new();
    let mut twins = str_lists_new();
    proof {
        assert(str_ids(bare) =~= Map::<Seq<char>, u32>::empty());
        assert(str_ids(qualified) =~= Map::<Seq<char>, u32>::empty());
        assert(str_lists(twins) =~= Map::<Seq<char>, Seq<u32>>::empty());
    }
    let mut k: usize = 0;
    while k < decls.len()
        invariant
            k <= decls@.len(),
            first == start.len(),
            first + decls@.len() <= u32::MAX,
            symbols@.len() == first + k,
            forall|q: int| 0 <= q < first ==> symbols@[q] == start[q],
            forall|d: int| 0 <= d < k ==> symbol_of(#[trigger] symbols@[first + d], i as int, decls@[d]),
            str_ids(bare) == declared_upto(s0, decls@, *unit, first, k as int).bare,
            str_ids(qualified) == declared_upto(s0, decls@, *unit, first, k as int).qualified,
            str_lists(twins) == declared_upto(s0, decls@, *unit, first, k as int).twins,
            str_lists(*member_by_name) == declared_upto(s0, decls@, *unit, first, k as int).members,
            unit_symbols(*unit_tables) == declared_upto(s0, decls@, *unit, first, k as int).units,
        decreases decls@.len() - k,
    {
        let d = &decls[k];
        let id = symbols.len() as u32;
        match &d.member_of {
            None => {
                str_ids_insert(&mut bare, d.name.as_str(), id);
                match unit {
                    Some(u) => unit_insert(unit_tables, u.as_str(), d.name.as_str(), id),
                    None => {},
                }
            },
            Some(owner) => {
                str_lists_push(member_by_name, d.name.as_str(), id);
                let key = join3(owner.as_str(), ".", d.name.as_str());
                insert_qualified(&mut qualified, &mut twins, key, id);
            },
        }
        let ghost before = symbols@;
        symbols.push(symbol_node(i, d));
        proof {
            assert(symbols@[first + k] == symbols@[before.len() as int]);
            assert forall|q: int| 0 <= q < first implies symbols@[q] == start[q] by {
                assert(symbols@[q] == before[q]);
            }
            assert forall|e: int| 0 <= e < k + 1 implies symbol_of(#[trigger] symbols@[first + e], i as int, decls@[e]) by {
                if e < k {
                    assert(symbols@[first + e] == before[first + e]);
                }
            }
        }
        k = k + 1;
    }
    match default_alias {
        Some(local) => match str_ids_get(&bare, local.as_str()) {
            Some(sym) => match str_ids_get(&bare, "default") {
                None => {
                    str_ids_insert(&mut bare, "default", sym);
                },
                Some(_) => {},
            },
            None => {},
        },
        None => {},
    }
    proof {
        reveal_strlit("default");
    }
    (bare, qualified, twins)
}

/// One file's declarations as the symbol tables read them.
#[derive(Debug, Clone)]
pub struct FileDeclarations {
    pub declarations: Vec<Declaration>,
    /// The local name the file's whole-module default binds, if any.
    pub default_alias: Option<String>,
}

/// Every file's symbol tables, and the project-wide ones.
pub struct ProjectSymbols {
    pub symbols: Vec<SymbolNode>,
    pub symbol_by_name_per_file: Vec<FxHashMap<String, u32>>,
    pub symbol_by_qualified_per_file: Vec<FxHashMap<String, u32>>,
    pub qualified_twins_per_file: Vec<FxHashMap<String, Vec<u32>>>,
    pub member_by_name: FxHashMap<String, Vec<u32>>,
    pub symbol_by_name_per_unit: FxHashMap<String, FxHashMap<String, u32>>,
    /// Each file's symbols: the ids from the first up to the second; `(0, 0)` for an
    /// unclaimed file.
    pub runs: Vec<(u32, u32)>,
}

/// The declarations of file `f`; none for an unclaimed file.
pub open spec fn decls_of(files: Seq<Option<FileDeclarations>>, f: int) -> Seq<Declaration> {
    match files[f] {
        Some(d) => d.declarations@,
        None => Seq::empty(),
    }
}

/// The symbols the first `f` files declare, and the project-wide tables after them.
pub open spec fn project_upto(files: Seq<Option<FileDeclarations>>, units: Seq<Option<String>>, f: int) -> (
    int,
    DeclaredTables,
)
    decreases f,
{
    if f <= 0 {
        (0, DeclaredTables { bare: Map::empty(), qualified: Map::empty(), twins: Map::empty(), members: Map::empty(), units: Map::empty() })
    } else {
        let (count, s) = project_upto(files, units, f - 1);
        (count + decls_of(files, f - 1).len(), file_tables(files, units, f - 1, count, s))
    }
}

/// The ids of file `f`'s symbols, from the first up to the second; `(0, 0)` for an
/// unclaimed file.
pub open spec fn run_of(files: Seq<Option<FileDeclarations>>, units: Seq<Option<String>>, f: int) -> (u32, u32) {
    match files[f] {
        Some(_) => {
            let first = project_upto(files, units, f).0;
            (first as u32, (first + decls_of(files, f).len()) as u32)
        },
        None => (0, 0),
    }
}

/// File `f`'s tables, its first symbol `first`, after the project-wide ones `s`.
pub open spec fn file_tables(
    files: Seq<Option<FileDeclarations>>,
    units: Seq<Option<String>>,
    f: int,
    first: int,
    s: DeclaredTables,
) -> DeclaredTables {
    declared_upto(
        DeclaredTables { bare: Map::empty(), qualified: Map::empty(), twins: Map::empty(), members: s.members, units: s.units },
        decls_of(files, f),
        units[f],
        first,
        decls_of(files, f).len() as int,
    )
}

proof fn lemma_count_nonnegative(files: Seq<Option<FileDeclarations>>, units: Seq<Option<String>>, f: int)
    ensures
        project_upto(files, units, f).0 >= 0,
    decreases f,
{
    if f > 0 {
        lemma_count_nonnegative(files, units, f - 1);
    }
}

proof fn lemma_count_grows(files: Seq<Option<FileDeclarations>>, units: Seq<Option<String>>, f: int, g: int)
    requires
        0 <= f <= g,
    ensures
        project_upto(files, units, f).0 + (if f < g { decls_of(files, f).len() as int } else { 0int }) <= project_upto(files, units, g).0,
    decreases g - f,
{
    if f < g {
        lemma_count_grows(files, units, f + 1, g);
    }
}

/// Every file's symbols and tables, in file order (`file_unit[f]` is file `f`'s unit;
/// an unclaimed file declares nothing), each file's symbols taking the next ids.
pub fn build_symbol_tables(files: &[Option<FileDeclarations>], file_unit: &[Option<String>]) -> (r: ProjectSymbols)
    requires
        file_unit@.len() == files@.len(),
        project_upto(files@, file_unit@, files@.len() as int).0 <= u32::MAX,
    ensures
        r.symbols@.len() == project_upto(files@, file_unit@, files@.len() as int).0,
        r.runs@.len() == files@.len(),
        forall|f: int| 0 <= f < files@.len() ==> #[trigger] r.runs@[f] == run_of(files@, file_unit@, f),
        r.symbol_by_name_per_file@.len() == files@.len(),
        r.symbol_by_qualified_per_file@.len() == files@.len(),
        r.qualified_twins_per_file@.len() == files@.len(),
        str_lists(r.member_by_name) == project_upto(files@, file_unit@, files@.len() as int).1.members,
        unit_symbols(r.symbol_by_name_per_unit) == project_upto(files@, file_unit@, files@.len() as int).1.units,
        forall|f: int|
            0 <= f < files@.len() && files@[f] is None ==> str_ids(
                #[trigger] r.symbol_by_name_per_file@[f],
            ).dom().is_empty() && str_ids(r.symbol_by_qualified_per_file@[f]).dom().is_empty() && str_lists(
                r.qualified_twins_per_file@[f],
            ).dom().is_empty(),
        forall|f: int|
            0 <= f < files@.len() && files@[f] is Some ==> {
                let (first, before) = project_upto(files@, file_unit@, f);
                let own = file_tables(files@, file_unit@, f, first, before);
                &&& str_ids(#[trigger] r.symbol_by_name_per_file@[f]) == with_default(own.bare, files@[f]->0.default_alias)
                &&& str_ids(r.symbol_by_qualified_per_file@[f]) == own.qualified
                &&& str_lists(r.qualified_twins_per_file@[f]) == own.twins
            },
        forall|f: int, k: int|
            0 <= f < files@.len() && 0 <= k < decls_of(files@, f).len() ==> symbol_of(
                #[trigger] r.symbols@[project_upto(files@, file_unit@, f).0 + k],
                f,
                decls_of(files@, f)[k],
            ),
{
    let ghost n = files@.len() as int;
    let mut out = ProjectSymbols {
        symbols: Vec::new(),
        symbol_by_name_per_file: Vec::new(),
        symbol_by_qualified_per_file: Vec::new(),
        qualified_twins_per_file: Vec::new(),
        member_by_name: str_lists_new(),
        symbol_by_name_per_unit: unit_tables_new(),
        runs: Vec::new(),
    };
    proof {
        assert(str_lists(out.member_by_name) =~= Map::<Seq<char>, Seq<u32>>::empty());
        assert(unit_symbols(out.symbol_by_name_per_unit) =~= Map::<Seq<char>, Map<Seq<char>, u32>>::empty());
    }
    let mut f: usize = 0;
    while f < files.len()
        invariant
            f <= files@.len() == file_unit@.len(),
            n == files@.len(),
            project_upto(files@, file_unit@, n).0 <= u32::MAX,
            out.symbols@.len() == project_upto(files@, file_unit@, f as int).0,
            out.runs@.len() == f,
            forall|g: int| 0 <= g < f ==> #[trigger] out.runs@[g] == run_of(files@, file_unit@, g),
            out.symbol_by_name_per_file@.len() == f,
            out.symbol_by_qualified_per_file@.len() == f,
            out.qualified_twins_per_file@.len() == f,
            str_lists(out.member_by_name) == project_upto(files@, file_unit@, f as int).1.members,
            unit_symbols(out.symbol_by_name_per_unit) == project_upto(files@, file_unit@, f as int).1.units,
            forall|g: int|
                0 <= g < f && files@[g] is None ==> str_ids(
                    #[trigger] out.symbol_by_name_per_file@[g],
                ).dom().is_empty() && str_ids(out.symbol_by_qualified_per_file@[g]).dom().is_empty() && str_lists(
                    out.qualified_twins_per_file@[g],
                ).dom().is_empty(),
            forall|g: int|
                0 <= g < f && files@[g] is Some ==> {
                    let (first, before) = project_upto(files@, file_unit@, g);
                    let own = file_tables(files@, file_unit@, g, first, before);
                    &&& str_ids(#[trigger] out.symbol_by_name_per_file@[g]) == with_default(own.bare, files@[g]->0.default_alias)
                    &&& str_ids(out.symbol_by_qualified_per_file@[g]) == own.qualified
                    &&& str_lists(out.qualified_twins_per_file@[g]) == own.twins
                },
            forall|g: int, k: int|
                0 <= g < f && 0 <= k < decls_of(files@, g).len() ==> symbol_of(
                    #[trigger] out.symbols@[project_upto(files@, file_unit@, g).0 + k],
                    g,
                    decls_of(files@, g)[k],
                ),
        decreases files@.len() - f,
    {
        proof {
            lemma_count_grows(files@, file_unit@, f as int, n);
        }
        let ghost prev = out.symbols@;
        let ghost names0 = out.symbol_by_name_per_file@;
        let ghost quals0 = out.symbol_by_qualified_per_file@;
        let ghost twins0 = out.qualified_twins_per_file@;
        let ghost runs0 = out.runs@;
        match &files[f] {
            None => {
                let bare = str_ids_new();
                let qualified = str_ids_new();
                let twins = str_lists_new();
                out.symbol_by_name_per_file.push(bare);
                out.symbol_by_qualified_per_file.push(qualified);
                out.qualified_twins_per_file.push(twins);
                out.runs.push((0, 0));
                proof {
                    assert(decls_of(files@, f as int) =~= Seq::<Declaration>::empty());
                    let (count, s) = project_upto(files@, file_unit@, f as int);
                    assert(file_tables(files@, file_unit@, f as int, count, s) == declared_upto(
                        DeclaredTables { bare: Map::empty(), qualified: Map::empty(), twins: Map::empty(), members: s.members, units: s.units },
                        decls_of(files@, f as int),
                        file_unit@[f as int],
                        count,
                        0,
                    ));
                }
            },
            Some(fd) => {
                let start = out.symbols.len() as u32;
                let (bare, qualified, twins) = declare_file_symbols(
                    f,
                    &fd.declarations,
                    &file_unit[f],
                    &fd.default_alias,
                    &mut out.symbols,
                    &mut out.member_by_name,
                    &mut out.symbol_by_name_per_unit,
                );
                out.symbol_by_name_per_file.push(bare);
                out.symbol_by_qualified_per_file.push(qualified);
                out.qualified_twins_per_file.push(twins);
                out.runs.push((start, out.symbols.len() as u32));
            },
        }
        assert(forall|q: int| 0 <= q < prev.len() ==> out.symbols@[q] == prev[q]);
        proof {
            assert forall|g: int| 0 <= g < f implies out.symbol_by_name_per_file@[g] == names0[g]
                && out.symbol_by_qualified_per_file@[g] == quals0[g] && out.qualified_twins_per_file@[g] == twins0[g]
                && out.runs@[g] == runs0[g] by {}
            assert forall|g: int, k: int|
                0 <= g < f + 1 && 0 <= k < decls_of(files@, g).len() implies symbol_of(
                    #[trigger] out.symbols@[project_upto(files@, file_unit@, g).0 + k],
                    g,
                    decls_of(files@, g)[k],
                ) by {
                lemma_count_nonnegative(files@, file_unit@, g);
                if g < f {
                    lemma_count_grows(files@, file_unit@, g, f as int);
                    assert(out.symbols@[project_upto(files@, file_unit@, g).0 + k] == prev[project_upto(files@, file_unit@, g).0 + k]);
                }
            }
        }
        f = f + 1;
    }
    proof {
        assert(f as int == n);
        assert forall|g: int| 0 <= g < n && files@[g] is None implies str_ids(
            #[trigger] out.symbol_by_name_per_file@[g],
        ).dom().is_empty() && str_ids(out.symbol_by_qualified_per_file@[g]).dom().is_empty() && str_lists(
            out.qualified_twins_per_file@[g],
        ).dom().is_empty() by {
            assert(g < f);
        }
    }
    out
}

} // verus!
