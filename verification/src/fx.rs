//! The `rustc_hash` collections the graph passes index with: `FxHashSet` and
//! `FxHashMap` are std's hash collections built with `FxBuildHasher`, a hasher with
//! no per-process seed. Each std operation the library calls is a small wrapper whose
//! contract is std's documented map and set behaviour; it holds for any hasher whose
//! `Hash` and `Eq` agree, which they do for the integer and string keys used here.
//! Operations made of several (append to a list, insert if absent, count one more)
//! are verified functions over those wrappers.

use vstd::prelude::*;

use rustc_hash::{FxBuildHasher, FxHashMap, FxHashSet};

use crate::text::views;
use crate::vocab::Confidence;

verus! {

/// `rustc_hash::FxBuildHasher`, the stateless builder of `FxHasher`s.
#[verifier::external_type_specification]
#[verifier::external_body]
pub struct ExFxBuildHasher(FxBuildHasher);

/// `FxHashSet::default()`: an empty set.
#[verifier::external_body]
pub fn id_set_new() -> (r: FxHashSet<u32>)
    ensures
        r@ == Set::<u32>::empty(),
{
    FxHashSet::default()
}

/// `HashSet::insert`: adds `v`; `true` when it was not yet present.
#[verifier::external_body]
pub fn id_set_insert(s: &mut FxHashSet<u32>, v: u32) -> (r: bool)
    ensures
        final(s)@ == old(s)@.insert(v),
        r == !old(s)@.contains(v),
{
    s.insert(v)
}

/// `HashSet::contains`.
#[verifier::external_body]
pub fn id_set_contains(s: &FxHashSet<u32>, v: u32) -> (r: bool)
    ensures
        r == s@.contains(v),
{
    s.contains(&v)
}

/// `HashSet::iter().copied().collect()`: every element once, in the set's own
/// iteration order (which no clause fixes).
#[verifier::external_body]
pub fn id_set_elements(s: &FxHashSet<u32>) -> (r: Vec<u32>)
    ensures
        r@.to_set() == s@,
        r@.no_duplicates(),
{
    s.iter().copied().collect()
}

/// `FxHashMap::default()`: an empty map.
#[verifier::external_body]
pub fn id_lists_new() -> (r: FxHashMap<u32, Vec<u32>>)
    ensures
        r@.dom().is_empty(),
{
    FxHashMap::default()
}

/// `HashMap::remove`: takes `k`'s list out of the map.
#[verifier::external_body]
fn id_lists_remove(m: &mut FxHashMap<u32, Vec<u32>>, k: u32) -> (r: Option<Vec<u32>>)
    ensures
        r is Some <==> old(m)@.contains_key(k),
        r matches Some(v) ==> v == old(m)@[k],
        final(m)@ == old(m)@.remove(k),
{
    m.remove(&k)
}

/// `HashMap::insert`: `k`'s list is `v`.
#[verifier::external_body]
fn id_lists_insert(m: &mut FxHashMap<u32, Vec<u32>>, k: u32, v: Vec<u32>)
    ensures
        final(m)@ == old(m)@.insert(k, v),
{
    m.insert(k, v);
}

/// Appends `v` to `k`'s list, starting one where there is none.
pub fn id_lists_push(m: &mut FxHashMap<u32, Vec<u32>>, k: u32, v: u32)
    ensures
        final(m)@.dom() == old(m)@.dom().insert(k),
        final(m)@[k]@ == (if old(m)@.contains_key(k) {
            old(m)@[k]@
        } else {
            Seq::empty()
        }).push(v),
        forall|j: u32| j != k && old(m)@.contains_key(j) ==> final(m)@[j] == old(m)@[j],
{
    let mut list = match id_lists_remove(m, k) {
        Some(l) => l,
        None => Vec::new(),
    };
    list.push(v);
    id_lists_insert(m, k, list);
}

/// `HashMap::get`.
#[verifier::external_body]
pub fn id_lists_get(m: &FxHashMap<u32, Vec<u32>>, k: u32) -> (r: Option<&Vec<u32>>)
    ensures
        r is Some <==> m@.contains_key(k),
        r matches Some(v) ==> *v == m@[k],
{
    m.get(&k)
}

/// What a `(file, name)`-keyed index holds: for each key, by the name's characters,
/// the list stored under it.
pub uninterp spec fn name_lists(m: FxHashMap<(u32, String), Vec<u32>>) -> Map<(u32, Seq<char>), Seq<u32>>;

/// `FxHashMap::default()` for a `(file, name)`-keyed index.
#[verifier::external_body]
pub fn name_lists_new() -> (r: FxHashMap<(u32, String), Vec<u32>>)
    ensures
        name_lists(r).dom().is_empty(),
{
    FxHashMap::default()
}

/// `HashMap::remove` for a `(file, name)`-keyed index: takes the list out.
#[verifier::external_body]
fn name_lists_remove(m: &mut FxHashMap<(u32, String), Vec<u32>>, file: u32, name: &str) -> (r: Option<Vec<u32>>)
    ensures
        r is Some <==> name_lists(*old(m)).contains_key((file, name@)),
        r matches Some(v) ==> v@ == name_lists(*old(m))[(file, name@)],
        name_lists(*final(m)) == name_lists(*old(m)).remove((file, name@)),
{
    m.remove(&(file, name.to_string()))
}

/// `HashMap::insert` for a `(file, name)`-keyed index.
#[verifier::external_body]
fn name_lists_insert(m: &mut FxHashMap<(u32, String), Vec<u32>>, file: u32, name: &str, v: Vec<u32>)
    ensures
        name_lists(*final(m)) == name_lists(*old(m)).insert((file, name@), v@),
{
    m.insert((file, name.to_string()), v);
}

/// Appends `v` to the list under `(file, name)`, starting one where there is none.
pub fn name_lists_push(m: &mut FxHashMap<(u32, String), Vec<u32>>, file: u32, name: &str, v: u32)
    ensures
        name_lists(*final(m)) == name_lists(*old(m)).insert(
            (file, name@),
            (if name_lists(*old(m)).contains_key((file, name@)) {
                name_lists(*old(m))[(file, name@)]
            } else {
                Seq::empty()
            }).push(v),
        ),
{
    let mut list = match name_lists_remove(m, file, name) {
        Some(l) => l,
        None => Vec::new(),
    };
    list.push(v);
    name_lists_insert(m, file, name, list);
    proof {
        assert(name_lists(*m) =~= name_lists(*old(m)).insert(
            (file, name@),
            (if name_lists(*old(m)).contains_key((file, name@)) {
                name_lists(*old(m))[(file, name@)]
            } else {
                Seq::empty()
            }).push(v),
        ));
    }
}

/// `HashMap::get` for a `(file, name)`-keyed index, the list cloned out.
#[verifier::external_body]
pub fn name_lists_get(m: &FxHashMap<(u32, String), Vec<u32>>, file: u32, name: &str) -> (r: Option<Vec<u32>>)
    ensures
        r is Some <==> name_lists(*m).contains_key((file, name@)),
        r matches Some(v) ==> v@ == name_lists(*m)[(file, name@)],
{
    m.get(&(file, name.to_string())).cloned()
}

/// What a label interner holds: for each label, by its characters, its id.
pub uninterp spec fn label_ids(m: FxHashMap<String, u16>) -> Map<Seq<char>, u16>;

/// `FxHashMap::default()` for a label interner.
#[verifier::external_body]
pub fn label_ids_new() -> (r: FxHashMap<String, u16>)
    ensures
        label_ids(r).dom().is_empty(),
{
    FxHashMap::default()
}

/// `HashMap::get` on a label interner.
#[verifier::external_body]
pub fn label_ids_get(m: &FxHashMap<String, u16>, label: &str) -> (r: Option<u16>)
    ensures
        r is Some <==> label_ids(*m).contains_key(label@),
        r matches Some(v) ==> v == label_ids(*m)[label@],
{
    m.get(label).copied()
}

/// `HashMap::insert` on a label interner.
#[verifier::external_body]
pub fn label_ids_insert(m: &mut FxHashMap<String, u16>, label: String, id: u16)
    ensures
        label_ids(*final(m)) == label_ids(*old(m)).insert(label@, id),
{
    m.insert(label, id);
}

/// What a string-keyed id table holds: for each key, by its characters, an id.
pub uninterp spec fn str_ids(m: FxHashMap<String, u32>) -> Map<Seq<char>, u32>;

/// `FxHashMap::default()` for a string-keyed id table.
#[verifier::external_body]
pub fn str_ids_new() -> (r: FxHashMap<String, u32>)
    ensures
        str_ids(r).dom().is_empty(),
{
    FxHashMap::default()
}

/// `HashMap::insert` on a string-keyed table: the later id replaces an earlier one.
#[verifier::external_body]
pub fn str_ids_insert(m: &mut FxHashMap<String, u32>, key: &str, id: u32)
    ensures
        str_ids(*final(m)) == str_ids(*old(m)).insert(key@, id),
{
    m.insert(key.to_string(), id);
}

/// An id for `key` only where the key has none yet.
pub fn str_ids_insert_if_absent(m: &mut FxHashMap<String, u32>, key: &str, id: u32)
    ensures
        str_ids(*final(m)) == if str_ids(*old(m)).contains_key(key@) {
            str_ids(*old(m))
        } else {
            str_ids(*old(m)).insert(key@, id)
        },
{
    if str_ids_get(m, key).is_none() {
        str_ids_insert(m, key, id);
    }
}

/// `HashMap::values` on a string-keyed table, copied out: every id the table holds,
/// in the map's own iteration order (which no clause fixes).
#[verifier::external_body]
pub fn str_ids_values(m: &FxHashMap<String, u32>) -> (r: Vec<u32>)
    ensures
        forall|k: Seq<char>| #[trigger] str_ids(*m).contains_key(k) ==> r@.contains(str_ids(*m)[k]),
        forall|i: int| #![trigger r@[i]] 0 <= i < r@.len() ==> exists|k: Seq<char>| #[trigger] str_ids(*m).contains_key(k) && str_ids(*m)[k] == r@[i],
{
    m.values().copied().collect()
}

/// `HashMap::get` on a string-keyed table.
#[verifier::external_body]
pub fn str_ids_get(m: &FxHashMap<String, u32>, key: &str) -> (r: Option<u32>)
    ensures
        r is Some <==> str_ids(*m).contains_key(key@),
        r matches Some(v) ==> v == str_ids(*m)[key@],
{
    m.get(key).copied()
}

/// What a `(file, name)` symbol table holds: for each key, by the name's characters,
/// a symbol id.
pub uninterp spec fn name_ids(m: FxHashMap<(u32, String), u32>) -> Map<(u32, Seq<char>), u32>;

/// `FxHashMap::default()` for a `(file, name)` symbol table.
#[verifier::external_body]
pub fn name_ids_new() -> (r: FxHashMap<(u32, String), u32>)
    ensures
        name_ids(r).dom().is_empty(),
{
    FxHashMap::default()
}

/// `HashMap::insert` on a symbol table: the later id replaces an earlier one.
#[verifier::external_body]
pub fn name_ids_insert(m: &mut FxHashMap<(u32, String), u32>, file: u32, name: String, id: u32)
    ensures
        name_ids(*final(m)) == name_ids(*old(m)).insert((file, name@), id),
{
    m.insert((file, name), id);
}

/// An id for `(file, name)` only where the key has none yet.
pub fn name_ids_insert_if_absent(m: &mut FxHashMap<(u32, String), u32>, file: u32, name: &str, id: u32)
    ensures
        name_ids(*final(m)) == if name_ids(*old(m)).contains_key((file, name@)) {
            name_ids(*old(m))
        } else {
            name_ids(*old(m)).insert((file, name@), id)
        },
{
    if name_ids_get(m, file, name).is_none() {
        name_ids_insert(m, file, crate::text::owned(name), id);
    }
}

/// `HashMap::get` on a symbol table.
#[verifier::external_body]
pub fn name_ids_get(m: &FxHashMap<(u32, String), u32>, file: u32, name: &str) -> (r: Option<u32>)
    ensures
        r is Some <==> name_ids(*m).contains_key((file, name@)),
        r matches Some(v) ==> v == name_ids(*m)[(file, name@)],
{
    m.get(&(file, name.to_string())).copied()
}

/// `FxHashMap::default()` for per-rule counts.
#[verifier::external_body]
pub fn counts_new() -> (r: FxHashMap<u32, usize>)
    ensures
        r@.dom().is_empty(),
{
    FxHashMap::default()
}

/// `HashMap::insert` on per-rule counts.
#[verifier::external_body]
fn counts_insert(m: &mut FxHashMap<u32, usize>, k: u32, v: usize)
    ensures
        final(m)@ == old(m)@.insert(k, v),
{
    m.insert(k, v);
}

/// Counts one more under `k`, returning the new count.
pub fn counts_bump(m: &mut FxHashMap<u32, usize>, k: u32) -> (r: usize)
    requires
        old(m)@.contains_key(k) ==> old(m)@[k] < usize::MAX,
    ensures
        r == (if old(m)@.contains_key(k) {
            old(m)@[k] + 1
        } else {
            1
        }),
        final(m)@ == old(m)@.insert(k, r),
{
    let count = match counts_get(m, k) {
        Some(c) => c + 1,
        None => 1,
    };
    counts_insert(m, k, count);
    count
}

/// `HashMap::get` on per-rule counts.
#[verifier::external_body]
pub fn counts_get(m: &FxHashMap<u32, usize>, k: u32) -> (r: Option<usize>)
    ensures
        r is Some <==> m@.contains_key(k),
        r matches Some(v) ==> v == m@[k],
{
    m.get(&k).copied()
}

/// What a string-keyed list index holds: for each key, by its characters, the list
/// stored under it.
pub uninterp spec fn str_lists(m: FxHashMap<String, Vec<u32>>) -> Map<Seq<char>, Seq<u32>>;

/// `FxHashMap::default()` for a string-keyed list index.
#[verifier::external_body]
pub fn str_lists_new() -> (r: FxHashMap<String, Vec<u32>>)
    ensures
        str_lists(r).dom().is_empty(),
{
    FxHashMap::default()
}

/// `HashMap::remove` on a string-keyed list index: takes the list out.
#[verifier::external_body]
fn str_lists_remove(m: &mut FxHashMap<String, Vec<u32>>, key: &str) -> (r: Option<Vec<u32>>)
    ensures
        r is Some <==> str_lists(*old(m)).contains_key(key@),
        r matches Some(v) ==> v@ == str_lists(*old(m))[key@],
        str_lists(*final(m)) == str_lists(*old(m)).remove(key@),
{
    m.remove(key)
}

/// `HashMap::insert` on a string-keyed list index.
#[verifier::external_body]
fn str_lists_insert(m: &mut FxHashMap<String, Vec<u32>>, key: &str, v: Vec<u32>)
    ensures
        str_lists(*final(m)) == str_lists(*old(m)).insert(key@, v@),
{
    m.insert(key.to_string(), v);
}

/// Appends `v` to the list under `key`, starting one where there is none.
pub fn str_lists_push(m: &mut FxHashMap<String, Vec<u32>>, key: &str, v: u32)
    ensures
        str_lists(*final(m)) == str_lists(*old(m)).insert(
            key@,
            (if str_lists(*old(m)).contains_key(key@) {
                str_lists(*old(m))[key@]
            } else {
                Seq::empty()
            }).push(v),
        ),
{
    let mut list = match str_lists_remove(m, key) {
        Some(l) => l,
        None => Vec::new(),
    };
    list.push(v);
    str_lists_insert(m, key, list);
    proof {
        assert(str_lists(*m) =~= str_lists(*old(m)).insert(
            key@,
            (if str_lists(*old(m)).contains_key(key@) {
                str_lists(*old(m))[key@]
            } else {
                Seq::empty()
            }).push(v),
        ));
    }
}

/// `HashMap::get` on a string-keyed list index.
#[verifier::external_body]
pub fn str_lists_get<'a>(m: &'a FxHashMap<String, Vec<u32>>, key: &str) -> (r: Option<&'a Vec<u32>>)
    ensures
        r is Some <==> str_lists(*m).contains_key(key@),
        r matches Some(v) ==> v@ == str_lists(*m)[key@],
{
    m.get(key)
}

/// What a member-type index holds: for each `(owner, member)`, by their characters,
/// the type the access yields and that type's parameters.
pub uninterp spec fn member_facts(
    m: FxHashMap<(String, String), (String, Vec<String>)>,
) -> Map<(Seq<char>, Seq<char>), (Seq<char>, Seq<Seq<char>>)>;

/// `FxHashMap::default()` for a member-type index.
#[verifier::external_body]
pub fn member_facts_new() -> (r: FxHashMap<(String, String), (String, Vec<String>)>)
    ensures
        member_facts(r).dom().is_empty(),
{
    FxHashMap::default()
}

/// `HashMap::insert` on a member-type index: a later fact replaces an earlier one.
#[verifier::external_body]
pub fn member_facts_insert(
    m: &mut FxHashMap<(String, String), (String, Vec<String>)>,
    owner: String,
    member: String,
    yields: String,
    params: Vec<String>,
)
    ensures
        member_facts(*final(m)) == member_facts(*old(m)).insert((owner@, member@), (yields@, views(params@))),
{
    m.insert((owner, member), (yields, params));
}

/// `HashMap::get` on a member-type index.
#[verifier::external_body]
pub fn member_facts_get<'a>(
    m: &'a FxHashMap<(String, String), (String, Vec<String>)>,
    owner: &str,
    member: &str,
) -> (r: Option<&'a (String, Vec<String>)>)
    ensures
        r is Some <==> member_facts(*m).contains_key((owner@, member@)),
        r matches Some(v) ==> v.0@ == member_facts(*m)[(owner@, member@)].0 && views(v.1@) == member_facts(
            *m,
        )[(owner@, member@)].1,
{
    m.get(&(owner.to_string(), member.to_string()))
}

/// `FxHashMap::default()` for per-file link flags.
#[verifier::external_body]
pub fn flags_new() -> (r: FxHashMap<u32, (bool, bool)>)
    ensures
        r@.dom().is_empty(),
{
    FxHashMap::default()
}

/// `HashMap::get` on per-file link flags.
#[verifier::external_body]
pub fn flags_get(m: &FxHashMap<u32, (bool, bool)>, k: u32) -> (r: Option<(bool, bool)>)
    ensures
        r is Some <==> m@.contains_key(k),
        r matches Some(v) ==> v == m@[k],
{
    m.get(&k).copied()
}

/// `HashMap::insert` on per-file link flags: the new value replaces any old one.
#[verifier::external_body]
pub fn flags_insert(m: &mut FxHashMap<u32, (bool, bool)>, k: u32, v: (bool, bool))
    ensures
        final(m)@ == old(m)@.insert(k, v),
{
    m.insert(k, v);
}

/// `HashMap::iter`, each entry copied out: every entry, in the map's own iteration
/// order (which no clause fixes).
#[verifier::external_body]
pub fn flags_entries(m: &FxHashMap<u32, (bool, bool)>) -> (r: Vec<(u32, (bool, bool))>)
    ensures
        forall|i: int| 0 <= i < r@.len() ==> m@.contains_key((#[trigger] r@[i]).0) && m@[r@[i].0] == r@[i].1,
        forall|k: u32| #[trigger] m@.contains_key(k) ==> exists|i: int| 0 <= i < r@.len() && r@[i].0 == k,
{
    m.iter().map(|(k, v)| (*k, *v)).collect()
}

/// `FxHashMap::default()` for per-file root confidences.
#[verifier::external_body]
pub fn confidences_new() -> (r: FxHashMap<u32, Confidence>)
    ensures
        r@.dom().is_empty(),
{
    FxHashMap::default()
}

/// `HashMap::remove` on per-file root confidences.
#[verifier::external_body]
pub fn confidences_remove(m: &mut FxHashMap<u32, Confidence>, k: u32)
    ensures
        final(m)@ == old(m)@.remove(k),
{
    m.remove(&k);
}

/// `HashMap::get` on per-file root confidences.
#[verifier::external_body]
pub fn confidences_get(m: &FxHashMap<u32, Confidence>, k: u32) -> (r: Option<Confidence>)
    ensures
        r is Some <==> m@.contains_key(k),
        r matches Some(v) ==> v == m@[k],
{
    m.get(&k).copied()
}

/// `HashMap::insert` on per-file root confidences: the new value replaces any old one.
#[verifier::external_body]
pub fn confidences_insert(m: &mut FxHashMap<u32, Confidence>, k: u32, v: Confidence)
    ensures
        final(m)@ == old(m)@.insert(k, v),
{
    m.insert(k, v);
}

/// `HashMap::keys`, copied out: every key once, in the map's own iteration order
/// (which no clause fixes).
#[verifier::external_body]
pub fn confidences_keys(m: &FxHashMap<u32, Confidence>) -> (r: Vec<u32>)
    ensures
        r@.to_set() == m@.dom(),
        r@.no_duplicates(),
{
    m.keys().copied().collect()
}

/// An optional string by its characters.
pub open spec fn chars_of(v: Option<String>) -> Option<Seq<char>> {
    match v {
        Some(s) => Some(s@),
        None => None,
    }
}

/// What a version pool holds: for each dependency name, by its characters, the
/// requirement stated for it (if any).
pub uninterp spec fn pool_entries(m: FxHashMap<String, Option<String>>) -> Map<Seq<char>, Option<Seq<char>>>;

/// `FxHashMap::default()` for a version pool.
#[verifier::external_body]
pub fn pool_new() -> (r: FxHashMap<String, Option<String>>)
    ensures
        pool_entries(r).dom().is_empty(),
{
    FxHashMap::default()
}

/// `HashMap::insert` on a version pool: the later requirement replaces an earlier one.
#[verifier::external_body]
pub fn pool_insert(m: &mut FxHashMap<String, Option<String>>, key: &str, v: Option<String>)
    ensures
        pool_entries(*final(m)) == pool_entries(*old(m)).insert(key@, chars_of(v)),
{
    m.insert(key.to_string(), v);
}

/// `HashMap::get` on a version pool, the requirement cloned out.
#[verifier::external_body]
pub fn pool_get(m: &FxHashMap<String, Option<String>>, key: &str) -> (r: Option<Option<String>>)
    ensures
        r is Some <==> pool_entries(*m).contains_key(key@),
        r matches Some(v) ==> chars_of(v) == pool_entries(*m)[key@],
{
    m.get(key).cloned()
}

/// What a per-unit symbol table holds: for each unit, by its characters, the table of
/// its top-level names, by their characters, to symbols.
pub uninterp spec fn unit_symbols(m: FxHashMap<String, FxHashMap<String, u32>>) -> Map<Seq<char>, Map<Seq<char>, u32>>;

/// `HashMap::get` on a per-unit symbol table: the unit's own table.
#[verifier::external_body]
pub fn unit_table_get<'a>(m: &'a FxHashMap<String, FxHashMap<String, u32>>, unit: &str) -> (r: Option<&'a FxHashMap<String, u32>>)
    ensures
        r is Some <==> unit_symbols(*m).contains_key(unit@),
        r matches Some(t) ==> str_ids(*t) == unit_symbols(*m)[unit@],
{
    m.get(unit)
}

/// `FxHashMap::default()` for a per-unit symbol table.
#[verifier::external_body]
pub fn unit_tables_new() -> (r: FxHashMap<String, FxHashMap<String, u32>>)
    ensures
        unit_symbols(r).dom().is_empty(),
{
    FxHashMap::default()
}

/// `HashMap::remove` on a per-unit symbol table: takes the unit's table out.
#[verifier::external_body]
pub fn unit_tables_remove(m: &mut FxHashMap<String, FxHashMap<String, u32>>, unit: &str) -> (r: Option<FxHashMap<String, u32>>)
    ensures
        r is Some <==> unit_symbols(*old(m)).contains_key(unit@),
        r matches Some(t) ==> str_ids(t) == unit_symbols(*old(m))[unit@],
        unit_symbols(*final(m)) == unit_symbols(*old(m)).remove(unit@),
{
    m.remove(unit)
}

/// `HashMap::insert` on a per-unit symbol table: the unit's table.
#[verifier::external_body]
pub fn unit_tables_insert(m: &mut FxHashMap<String, FxHashMap<String, u32>>, unit: &str, table: FxHashMap<String, u32>)
    ensures
        unit_symbols(*final(m)) == unit_symbols(*old(m)).insert(unit@, str_ids(table)),
{
    m.insert(unit.to_string(), table);
}

/// What a qualifier table holds: for each qualifier, by its characters, the file it
/// reaches and whether it settles resolution.
pub uninterp spec fn qualifier_entries(m: FxHashMap<String, (u32, bool)>) -> Map<Seq<char>, (u32, bool)>;

/// `FxHashMap::default()` for a qualifier table.
#[verifier::external_body]
pub fn qualifiers_new() -> (r: FxHashMap<String, (u32, bool)>)
    ensures
        qualifier_entries(r).dom().is_empty(),
{
    FxHashMap::default()
}

/// `HashMap::contains_key` on a qualifier table.
#[verifier::external_body]
pub fn qualifiers_contains(m: &FxHashMap<String, (u32, bool)>, key: &str) -> (r: bool)
    ensures
        r == qualifier_entries(*m).contains_key(key@),
{
    m.contains_key(key)
}

/// `HashMap::get` on a qualifier table, the entry copied out.
#[verifier::external_body]
pub fn qualifiers_get(m: &FxHashMap<String, (u32, bool)>, key: &str) -> (r: Option<(u32, bool)>)
    ensures
        r is Some <==> qualifier_entries(*m).contains_key(key@),
        r matches Some(v) ==> v == qualifier_entries(*m)[key@],
{
    m.get(key).copied()
}

/// `HashMap::insert` on a qualifier table.
#[verifier::external_body]
pub fn qualifiers_insert(m: &mut FxHashMap<String, (u32, bool)>, key: &str, v: (u32, bool))
    ensures
        qualifier_entries(*final(m)) == qualifier_entries(*old(m)).insert(key@, v),
{
    m.insert(key.to_string(), v);
}

} // verus!
