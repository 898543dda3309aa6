use kndo_core::graph::resolve::{
    chain_hop, chained_member_targets, chained_member_targets_checked, in_scope_member_targets, in_scope_member_targets_checked, index_member_types, insert_qualified,
    qualified_member_targets, resolve_annotation_name, ResolveTables,
};
use kndo_core::graph::{RawMemberType, SymbolKind, SymbolNode};
use kndo_core::vocab::{FileId, Span, SymbolId, VisibilityLevel};
use rustc_hash::FxHashMap;

fn sym(file: u32, name: &str, member_of: Option<&str>) -> SymbolNode {
    SymbolNode {
        file: FileId(file),
        name: name.to_string(),
        kind: SymbolKind::Struct,
        span: Span {
            start: (1, 1),
            end: (1, 1),
        },
        exported: true,
        visibility: VisibilityLevel(1),
        member_of: member_of.map(|m| m.to_string()),
        signature_span: None,
        implicitly_invoked: false,
        nested_scope: false,
        visibility_inherited: false,
        visible_in_unit: None,
        implements: None,
        markers: Vec::new(),
    }
}

fn names(entries: &[(&str, u32)]) -> FxHashMap<String, u32> {
    entries.iter().map(|(k, v)| (k.to_string(), *v)).collect()
}

fn fact(owner: &str, member: &str, yields: &str, params: &[&str]) -> RawMemberType {
    RawMemberType {
        owner: owner.to_string(),
        member: member.to_string(),
        yields: yields.to_string(),
        yields_params: params.iter().map(|p| p.to_string()).collect(),
    }
}

fn ids(v: &[SymbolId]) -> Vec<u32> {
    v.iter().map(|s| s.0).collect()
}

#[test]
fn a_qualified_selector_names_the_winner_and_every_displaced_twin() {
    let mut table: FxHashMap<String, u32> = FxHashMap::default();
    let mut twins: FxHashMap<String, Vec<u32>> = FxHashMap::default();
    insert_qualified(&mut table, &mut twins, "Data.from_path".to_string(), 3);
    insert_qualified(&mut table, &mut twins, "Data.other".to_string(), 4);
    insert_qualified(&mut table, &mut twins, "Data.from_path".to_string(), 5);
    insert_qualified(&mut table, &mut twins, "Data.from_path".to_string(), 6);
    assert_eq!(table.get("Data.from_path"), Some(&6));
    assert_eq!(twins.get("Data.from_path"), Some(&vec![3, 5]));
    assert!(twins.get("Data.other").is_none());
    assert_eq!(ids(&qualified_member_targets(&table, &twins, "Data.from_path")), vec![6, 3, 5]);
    assert_eq!(ids(&qualified_member_targets(&table, &twins, "Data.other")), vec![4]);
    assert!(qualified_member_targets(&table, &twins, "Data.none").is_empty());
}

#[test]
fn a_later_member_type_fact_wins() {
    let index = index_member_types(&[fact("A", "f", "B", &[]), fact("A", "g", "C", &["D"]), fact("A", "f", "E", &[])]);
    assert_eq!(index.len(), 2);
    assert_eq!(index.get(&("A".to_string(), "f".to_string())), Some(&("E".to_string(), Vec::new())));
    assert_eq!(
        index.get(&("A".to_string(), "g".to_string())),
        Some(&("C".to_string(), vec!["D".to_string()]))
    );
}

/// Two files: file 0 declares `App` (0) with a field `config: Config` and a field
/// `items: Vec<Item>`; file 1 declares `Config` (1) with member `load` (2) and `Item`
/// (3) with member `name` (4). File 0 imports `Config` under the binding map.
struct Fixture {
    symbols: Vec<SymbolNode>,
    by_name: Vec<FxHashMap<String, u32>>,
    by_qualified: Vec<FxHashMap<String, u32>>,
    twins: Vec<FxHashMap<String, Vec<u32>>>,
    member_types: Vec<FxHashMap<(String, String), (String, Vec<String>)>>,
}

fn fixture() -> Fixture {
    Fixture {
        symbols: vec![
            sym(0, "App", None),
            sym(1, "Config", None),
            sym(1, "load", Some("Config")),
            sym(1, "Item", None),
            sym(1, "name", Some("Item")),
        ],
        by_name: vec![names(&[("App", 0)]), names(&[("Config", 1), ("Item", 3)])],
        by_qualified: vec![FxHashMap::default(), names(&[("Config.load", 2), ("Item.name", 4)])],
        twins: vec![FxHashMap::default(), FxHashMap::default()],
        member_types: vec![
            index_member_types(&[fact("App", "config", "Config", &[]), fact("App", "items", "Vec", &["Item"])]),
            FxHashMap::default(),
        ],
    }
}

fn tables(f: &Fixture) -> ResolveTables<'_> {
    ResolveTables {
        symbols: &f.symbols,
        symbol_by_name_per_file: &f.by_name,
        symbol_by_qualified_per_file: &f.by_qualified,
        qualified_twins_per_file: &f.twins,
        member_types_per_file: &f.member_types,
    }
}

#[test]
fn an_annotation_resolves_at_home_then_in_the_sites_bindings_then_the_site() {
    let f = fixture();
    let t = tables(&f);
    let bound = names(&[("Alias", 3), ("App", 4)]);
    // At home first: file 0 declares App.
    assert_eq!(resolve_annotation_name("App", 0, &bound, 1, &t), Some(0));
    // Not at home (file 0): the site's bindings.
    assert_eq!(resolve_annotation_name("Alias", 0, &bound, 1, &t), Some(3));
    // Neither: the site's own file.
    assert_eq!(resolve_annotation_name("Config", 0, &bound, 1, &t), Some(1));
    assert_eq!(resolve_annotation_name("Nowhere", 0, &bound, 1, &t), None);
}

#[test]
fn a_hop_follows_the_declared_yield_and_a_projection_selects_a_parameter() {
    let f = fixture();
    let t = tables(&f);
    let bound: FxHashMap<String, u32> = FxHashMap::default();
    assert_eq!(chain_hop(SymbolId(0), "config", &bound, 0, &t), None, "Config is not in file 0's scope");
    let bound = names(&[("Config", 1), ("Item", 3)]);
    assert_eq!(chain_hop(SymbolId(0), "config", &bound, 0, &t), Some(SymbolId(1)));
    assert_eq!(chain_hop(SymbolId(0), "items?", &bound, 0, &t), Some(SymbolId(3)));
    assert_eq!(chain_hop(SymbolId(0), "items?0", &bound, 0, &t), Some(SymbolId(3)));
    assert_eq!(chain_hop(SymbolId(0), "items?1", &bound, 0, &t), None, "no second parameter");
    assert_eq!(chain_hop(SymbolId(0), "missing", &bound, 0, &t), None);
}

#[test]
fn a_dotted_pointer_chains_through_member_type_facts() {
    let f = fixture();
    let t = tables(&f);
    let bound = names(&[("Config", 1), ("Item", 3), ("app", 0)]);
    let (members, yielded) = chained_member_targets("app.config", "load", &bound, 0, &t);
    assert_eq!(ids(&members), vec![2]);
    assert_eq!(ids(&yielded), vec![1]);
    let (members, yielded) = chained_member_targets("app.items?", "name", &bound, 0, &t);
    assert_eq!(ids(&members), vec![4]);
    assert_eq!(ids(&yielded), vec![3]);
    // A bare base: the members of the base's own type.
    let (members, yielded) = chained_member_targets("Config", "load", &bound, 0, &t);
    assert_eq!(ids(&members), vec![2]);
    assert!(yielded.is_empty());
}

#[test]
fn a_dotted_pointer_with_a_missing_fact_yields_no_members() {
    let f = fixture();
    let t = tables(&f);
    let bound = names(&[("Config", 1), ("app", 0)]);
    let (members, yielded) = chained_member_targets("app.config.missing", "x", &bound, 0, &t);
    assert!(members.is_empty());
    assert_eq!(ids(&yielded), vec![1]);
    let (members, yielded) = chained_member_targets("ghost.config", "load", &bound, 0, &t);
    assert!(members.is_empty() && yielded.is_empty());
}

#[test]
fn an_in_scope_qualifier_names_its_symbols_members_at_home() {
    let f = fixture();
    let t = tables(&f);
    let bound = names(&[("Cfg", 1)]);
    assert_eq!(ids(&in_scope_member_targets("Cfg", "load", &bound, 0, &t)), vec![2]);
    assert_eq!(ids(&in_scope_member_targets("Item", "name", &bound, 1, &t)), vec![4]);
    assert!(in_scope_member_targets("Item", "name", &bound, 0, &t).is_empty());
    assert!(in_scope_member_targets("Cfg", "save", &bound, 0, &t).is_empty());
}

#[test]
fn checked_member_resolution_refuses_ids_that_name_no_symbol() {
    let f = fixture();
    let t = tables(&f);
    let bound = names(&[("Config", 1), ("Item", 3), ("app", 0)]);
    let (members, yielded) = chained_member_targets_checked("app.config", "load", &bound, 0, &t).unwrap();
    assert_eq!(ids(&members), vec![2]);
    assert_eq!(ids(&yielded), vec![1]);
    assert_eq!(ids(&in_scope_member_targets_checked("Config", "load", &bound, 0, &t).unwrap()), vec![2]);
    let stray = names(&[("Config", 999)]);
    assert!(chained_member_targets_checked("Config", "load", &stray, 0, &t).is_none());
    assert!(in_scope_member_targets_checked("Config", "load", &stray, 0, &t).is_none());
    assert!(in_scope_member_targets_checked("Config", "load", &bound, 99, &t).is_none());
}
