//! Qualified-member resolution over per-file tables. A selector `Owner.member` names
//! the qualified table's winner and every twin it displaced; a plain in-scope
//! qualifier names its bound symbol's members in that symbol's home file; a dotted
//! pointer `Base.a.b` hops through declared member-type facts, each yielded type name
//! resolved where its annotation was written, then in the reference site's scope.

use vstd::prelude::*;

use rustc_hash::FxHashMap;

use crate::fx::{
    member_facts, member_facts_get, member_facts_insert, member_facts_new, str_ids, str_ids_get, str_ids_insert,
    str_ids_values, str_lists, str_lists_get, str_lists_push,
};
use crate::graph::assemble::{hop_type_name, split_projection, split_projection_spec};
use crate::graph::{RawMemberType, SymbolNode};
use crate::text::{join3, lemma_split_nonempty, split_on_char, split_seq, views};
use crate::vocab::SymbolId;

verus! {

/// The tables qualified resolution reads, one of each per file.
pub struct ResolveTables<'a> {
    pub symbols: &'a [SymbolNode],
    /// Per file: each name declared or bound there, to its symbol.
    pub symbol_by_name_per_file: &'a [FxHashMap<String, u32>],
    /// Per file: each `Owner.member` selector declared there, to the last declaration.
    pub symbol_by_qualified_per_file: &'a [FxHashMap<String, u32>],
    /// Per file: the declarations a later twin displaced from the qualified table.
    pub qualified_twins_per_file: &'a [FxHashMap<String, Vec<u32>>],
    /// Per file: `(owner, member)` to the type the access yields and its parameters.
    pub member_types_per_file: &'a [FxHashMap<(String, String), (String, Vec<String>)>],
}

/// Whether every id in `m` names a symbol.
pub open spec fn ids_below(m: Map<Seq<char>, u32>, n: nat) -> bool {
    forall|k: Seq<char>| #[trigger] m.contains_key(k) ==> m[k] < n
}

/// The tables describe one file set: a table of each kind per file, every symbol's
/// file among them, every table id a symbol.
pub open spec fn tables_wf(t: ResolveTables) -> bool {
    let n = t.symbol_by_name_per_file@.len();
    &&& t.symbol_by_qualified_per_file@.len() == n
    &&& t.qualified_twins_per_file@.len() == n
    &&& t.member_types_per_file@.len() == n
    &&& forall|s: int| 0 <= s < t.symbols@.len() ==> (#[trigger] t.symbols@[s]).file.0 < n
    &&& forall|f: int|
        0 <= f < n ==> ids_below(str_ids(#[trigger] t.symbol_by_name_per_file@[f]), t.symbols@.len())
}

/// Every declaration selector `key` names in a file: the qualified table's winner,
/// then the twins it displaced, in the order they were displaced.
pub open spec fn qualified_targets(qualified: Map<Seq<char>, u32>, twins: Map<Seq<char>, Seq<u32>>, key: Seq<char>) -> Seq<
    u32,
> {
    (if qualified.contains_key(key) {
        seq![qualified[key]]
    } else {
        Seq::empty()
    }) + (if twins.contains_key(key) {
        twins[key]
    } else {
        Seq::empty()
    })
}

/// The ids of a list of symbols.
pub open spec fn ids_of(s: Seq<SymbolId>) -> Seq<u32> {
    s.map_values(|x: SymbolId| x.0)
}

/// Every declaration a qualified selector names in one file: the table's winner plus
/// any displaced twins; empty when the selector names nothing there.
pub fn qualified_member_targets(
    qualified: &FxHashMap<String, u32>,
    twins: &FxHashMap<String, Vec<u32>>,
    key: &str,
) -> (r: Vec<SymbolId>)
    ensures
        ids_of(r@) == qualified_targets(str_ids(*qualified), str_lists(*twins), key@),
{
    let mut targets: Vec<SymbolId> = Vec::new();
    match str_ids_get(qualified, key) {
        Some(id) => targets.push(SymbolId(id)),
        None => {},
    }
    let ghost first = ids_of(targets@);
    match str_lists_get(twins, key) {
        Some(extra) => {
            let mut k: usize = 0;
            while k < extra.len()
                invariant
                    k <= extra@.len(),
                    ids_of(targets@) == first + extra@.take(k as int),
                decreases extra@.len() - k,
            {
                let ghost prev = targets@;
                targets.push(SymbolId(extra[k]));
                proof {
                    assert(ids_of(targets@) =~= ids_of(prev).push(extra@[k as int]));
                    assert(extra@.take(k + 1) =~= extra@.take(k as int).push(extra@[k as int]));
                    assert(first + extra@.take(k + 1) =~= (first + extra@.take(k as int)).push(extra@[k as int]));
                }
                k = k + 1;
            }
            proof {
                assert(extra@.take(extra@.len() as int) =~= extra@);
            }
        },
        None => {},
    }
    proof {
        assert(ids_of(targets@) =~= qualified_targets(str_ids(*qualified), str_lists(*twins), key@));
    }
    targets
}

/// Records declaration `id` under selector `key` in a file's single-slot qualified
/// table, keeping twins: an earlier declaration under the same selector moves to the
/// twins list, and the table keeps the latest.
pub fn insert_qualified(table: &mut FxHashMap<String, u32>, twins: &mut FxHashMap<String, Vec<u32>>, key: String, id: u32)
    ensures
        str_ids(*final(table)) == str_ids(*old(table)).insert(key@, id),
        str_lists(*final(twins)) == if str_ids(*old(table)).contains_key(key@) {
            str_lists(*old(twins)).insert(
                key@,
                (if str_lists(*old(twins)).contains_key(key@) {
                    str_lists(*old(twins))[key@]
                } else {
                    Seq::empty()
                }).push(str_ids(*old(table))[key@]),
            )
        } else {
            str_lists(*old(twins))
        },
{
    match str_ids_get(table, key.as_str()) {
        Some(displaced) => {
            str_lists_push(twins, key.as_str(), displaced);
        },
        None => {},
    }
    str_ids_insert(table, key.as_str(), id);
}

/// The member-type index of the first `k` facts: later facts replace earlier ones.
pub open spec fn member_index(entries: Seq<RawMemberType>, k: int) -> Map<(Seq<char>, Seq<char>), (Seq<char>, Seq<Seq<char>>)>
    decreases k,
{
    if k <= 0 {
        Map::empty()
    } else {
        let e = entries[k - 1];
        member_index(entries, k - 1).insert((e.owner@, e.member@), (e.yields@, views(e.yields_params@)))
    }
}

fn copy_strings(v: &Vec<String>) -> (r: Vec<String>)
    ensures
        views(r@) == views(v@),
{
    let mut out: Vec<String> = Vec::new();
    let mut i: usize = 0;
    while i < v.len()
        invariant
            i <= v@.len(),
            views(out@) == views(v@.take(i as int)),
        decreases v@.len() - i,
    {
        let ghost prev = out@;
        out.push(crate::text::owned(v[i].as_str()));
        proof {
            assert(views(out@) =~= views(prev).push(v@[i as int]@));
            assert(v@.take(i + 1) =~= v@.take(i as int).push(v@[i as int]));
            assert(views(v@.take(i + 1)) =~= views(v@.take(i as int)).push(v@[i as int]@));
        }
        i = i + 1;
    }
    proof {
        assert(v@.take(v@.len() as int) =~= v@);
    }
    out
}

/// One file's member-type facts as a lookup: `(owner, member)` to the type the access
/// yields and its parameters; a later fact for the same pair wins.
pub fn index_member_types(entries: &[RawMemberType]) -> (r: FxHashMap<(String, String), (String, Vec<String>)>)
    ensures
        member_facts(r) == member_index(entries@, entries@.len() as int),
{
    let mut index = member_facts_new();
    let mut k: usize = 0;
    proof {
        assert(member_facts(index) =~= member_index(entries@, 0));
    }
    while k < entries.len()
        invariant
            k <= entries@.len(),
            member_facts(index) == member_index(entries@, k as int),
        decreases entries@.len() - k,
    {
        let e = &entries[k];
        member_facts_insert(
            &mut index,
            crate::text::owned(e.owner.as_str()),
            crate::text::owned(e.member.as_str()),
            crate::text::owned(e.yields.as_str()),
            copy_strings(&e.yields_params),
        );
        k = k + 1;
    }
    index
}

/// A name looked up in `home`'s declarations and aliases, then in the site's bindings,
/// then in the site file's own table.
pub open spec fn annotation_target(t: ResolveTables, home: int, bound: Map<Seq<char>, u32>, i: int, name: Seq<char>) -> Option<
    u32,
> {
    let at_home = str_ids(t.symbol_by_name_per_file@[home]);
    let at_site = str_ids(t.symbol_by_name_per_file@[i]);
    if at_home.contains_key(name) {
        Some(at_home[name])
    } else if bound.contains_key(name) {
        Some(bound[name])
    } else if at_site.contains_key(name) {
        Some(at_site[name])
    } else {
        None
    }
}

/// An annotation's type name resolved where it was written (`home`), then in the
/// reference site's scope: its import bindings, then its file's own declarations.
pub fn resolve_annotation_name(
    annotation: &str,
    home: usize,
    bound_symbols: &FxHashMap<String, u32>,
    i: usize,
    t: &ResolveTables,
) -> (r: Option<u32>)
    requires
        home < t.symbol_by_name_per_file@.len(),
        i < t.symbol_by_name_per_file@.len(),
    ensures
        r == annotation_target(*t, home as int, str_ids(*bound_symbols), i as int, annotation@),
{
    match str_ids_get(&t.symbol_by_name_per_file[home], annotation) {
        Some(id) => Some(id),
        None => match str_ids_get(bound_symbols, annotation) {
            Some(id) => Some(id),
            None => str_ids_get(&t.symbol_by_name_per_file[i], annotation),
        },
    }
}

/// One hop of a dotted pointer from symbol `current` along `segment`: the member's
/// declared yield on the current type (the projected type parameter under a `?N`
/// marker), resolved to a symbol.
pub open spec fn hop(t: ResolveTables, bound: Map<Seq<char>, u32>, i: int, current: u32, segment: Seq<char>) -> Option<u32> {
    let (member, projection) = split_projection_spec(segment);
    let owner = t.symbols@[current as int];
    let home = owner.file.0 as int;
    let facts = member_facts(t.member_types_per_file@[home]);
    if !facts.contains_key((owner.name@, member)) {
        None
    } else {
        let fact = facts[(owner.name@, member)];
        match projection {
            Some(n) => if n < fact.1.len() {
                annotation_target(t, home, bound, i, fact.1[n])
            } else {
                None
            },
            None => annotation_target(t, home, bound, i, fact.0),
        }
    }
}

/// One hop of a chained pointer: see [`hop`].
pub fn chain_hop(
    current: SymbolId,
    segment: &str,
    bound_symbols: &FxHashMap<String, u32>,
    i: usize,
    t: &ResolveTables,
) -> (r: Option<SymbolId>)
    requires
        tables_wf(*t),
        current.0 < t.symbols@.len(),
        i < t.symbol_by_name_per_file@.len(),
    ensures
        match hop(*t, str_ids(*bound_symbols), i as int, current.0, segment@) {
            Some(s) => r == Some(SymbolId(s)),
            None => r is None,
        },
{
    let (member, projection) = split_projection(segment);
    let owner = &t.symbols[current.0 as usize];
    let home = owner.file.0 as usize;
    match member_facts_get(&t.member_types_per_file[home], owner.name.as_str(), member) {
        Some(fact) => {
            proof {
                match projection {
                    Some(n) => {
                        if n < fact.1@.len() {
                            assert(fact.1@[n as int]@ == views(fact.1@)[n as int]);
                        }
                    },
                    None => {},
                }
            }
            match hop_type_name(fact, projection) {
                Some(annotation) => match resolve_annotation_name(annotation.as_str(), home, bound_symbols, i, t) {
                    Some(id) => Some(SymbolId(id)),
                    None => None,
                },
                None => None,
            }
        },
        None => None,
    }
}

/// The walk along segments `1..=k` of a dotted pointer from `start`: where it stands
/// (`None` once a hop fails) and every type it yielded on the way.
pub open spec fn walk(t: ResolveTables, bound: Map<Seq<char>, u32>, i: int, segments: Seq<Seq<char>>, start: u32, k: int) -> (
    Option<u32>,
    Seq<u32>,
)
    decreases k,
{
    if k <= 0 {
        (Some(start), Seq::empty())
    } else {
        let (cur, yielded) = walk(t, bound, i, segments, start, k - 1);
        match cur {
            None => (None, yielded),
            Some(c) => match hop(t, bound, i, c, segments[k]) {
                None => (None, yielded),
                Some(next) => (Some(next), yielded.push(next)),
            },
        }
    }
}

/// A pointer's base symbol: the site's binding of the first segment, else its file's
/// own declaration of it.
pub open spec fn pointer_base(t: ResolveTables, bound: Map<Seq<char>, u32>, i: int, base: Seq<char>) -> Option<u32> {
    let at_site = str_ids(t.symbol_by_name_per_file@[i]);
    if bound.contains_key(base) {
        Some(bound[base])
    } else if at_site.contains_key(base) {
        Some(at_site[base])
    } else {
        None
    }
}

/// What a dotted pointer `Base.a.b` with final member `name` resolves to: the members
/// of the type the last hop lands on (named `Type.name` in that type's home file), and
/// every type yielded on the way. Any miss yields no members.
pub open spec fn chained_targets(t: ResolveTables, bound: Map<Seq<char>, u32>, i: int, pointer: Seq<char>, name: Seq<char>) -> (
    Seq<u32>,
    Seq<u32>,
) {
    let segments = split_seq(pointer, '.');
    match pointer_base(t, bound, i, segments[0]) {
        None => (Seq::empty(), Seq::empty()),
        Some(base) => {
            let (cur, yielded) = walk(t, bound, i, segments, base, segments.len() - 1);
            match cur {
                None => (Seq::empty(), yielded),
                Some(c) => {
                    let owner = t.symbols@[c as int];
                    let home = owner.file.0 as int;
                    (
                        qualified_targets(
                            str_ids(t.symbol_by_qualified_per_file@[home]),
                            str_lists(t.qualified_twins_per_file@[home]),
                            owner.name@ + "."@ + name,
                        ),
                        yielded,
                    )
                },
            }
        },
    }
}

/// Every id a table or binding map holds names a symbol.
pub open spec fn bound_wf(t: ResolveTables, bound: Map<Seq<char>, u32>) -> bool {
    ids_below(bound, t.symbols@.len())
}

proof fn lemma_annotation_in_range(t: ResolveTables, home: int, bound: Map<Seq<char>, u32>, i: int, name: Seq<char>)
    requires
        tables_wf(t),
        bound_wf(t, bound),
        0 <= home < t.symbol_by_name_per_file@.len(),
        0 <= i < t.symbol_by_name_per_file@.len(),
    ensures
        annotation_target(t, home, bound, i, name) matches Some(s) ==> s < t.symbols@.len(),
{
    let at_home = str_ids(t.symbol_by_name_per_file@[home]);
    let at_site = str_ids(t.symbol_by_name_per_file@[i]);
    assert(ids_below(at_home, t.symbols@.len()));
    assert(ids_below(at_site, t.symbols@.len()));
    if at_home.contains_key(name) {
    } else if bound.contains_key(name) {
    } else if at_site.contains_key(name) {
    }
}

proof fn lemma_hop_in_range(t: ResolveTables, bound: Map<Seq<char>, u32>, i: int, current: u32, segment: Seq<char>)
    requires
        tables_wf(t),
        bound_wf(t, bound),
        current < t.symbols@.len(),
        0 <= i < t.symbol_by_name_per_file@.len(),
    ensures
        hop(t, bound, i, current, segment) matches Some(s) ==> s < t.symbols@.len(),
{
    let (member, projection) = split_projection_spec(segment);
    let owner = t.symbols@[current as int];
    let home = owner.file.0 as int;
    let facts = member_facts(t.member_types_per_file@[home]);
    if facts.contains_key((owner.name@, member)) {
        let fact = facts[(owner.name@, member)];
        match projection {
            Some(n) => if n < fact.1.len() {
                lemma_annotation_in_range(t, home, bound, i, fact.1[n]);
            },
            None => {
                lemma_annotation_in_range(t, home, bound, i, fact.0);
            },
        }
    }
}

/// A dotted qualifier pointer `Base.member…` (the cross-file tier): the reference's
/// receiver is the value the last member yields. Returns the final member's targets in
/// the yielded type's home (twins included) and every type yielded on the way; any
/// miss yields no targets.
#[verifier::rlimit(40)]
pub fn chained_member_targets(
    pointer: &str,
    name: &str,
    bound_symbols: &FxHashMap<String, u32>,
    i: usize,
    t: &ResolveTables,
) -> (r: (Vec<SymbolId>, Vec<SymbolId>))
    requires
        tables_wf(*t),
        bound_wf(*t, str_ids(*bound_symbols)),
        i < t.symbol_by_name_per_file@.len(),
    ensures
        ids_of(r.0@) == chained_targets(*t, str_ids(*bound_symbols), i as int, pointer@, name@).0,
        ids_of(r.1@) == chained_targets(*t, str_ids(*bound_symbols), i as int, pointer@, name@).1,
{
    let ghost bound = str_ids(*bound_symbols);
    let segments = split_on_char(pointer, '.');
    proof {
        lemma_split_nonempty(pointer@, '.');
    }
    let ghost segs = split_seq(pointer@, '.');
    let base = segments[0].as_str();
    let base_symbol = match str_ids_get(bound_symbols, base) {
        Some(id) => Some(id),
        None => str_ids_get(&t.symbol_by_name_per_file[i], base),
    };
    let start = match base_symbol {
        Some(s) => s,
        None => {
            return (Vec::new(), Vec::new());
        },
    };
    proof {
        assert(segs[0] == base@);
        assert(ids_below(str_ids(t.symbol_by_name_per_file@[i as int]), t.symbols@.len()));
    }
    let mut current = start;
    let mut yielded_types: Vec<SymbolId> = Vec::new();
    let mut k: usize = 1;
    while k < segments.len()
        invariant
            tables_wf(*t),
            bound_wf(*t, bound),
            bound == str_ids(*bound_symbols),
            i < t.symbol_by_name_per_file@.len(),
            views(segments@) == segs,
            segs == split_seq(pointer@, '.'),
            pointer_base(*t, bound, i as int, segs[0]) == Some(start),
            1 <= k <= segments@.len(),
            current < t.symbols@.len(),
            walk(*t, bound, i as int, segs, start, k - 1) == (Some(current), ids_of(yielded_types@)),
        decreases segments@.len() - k,
    {
        proof {
            assert(views(segments@)[k as int] == segments@[k as int]@);
            lemma_hop_in_range(*t, bound, i as int, current, segs[k as int]);
        }
        match chain_hop(SymbolId(current), segments[k].as_str(), bound_symbols, i, t) {
            Some(next) => {
                let ghost prev = yielded_types@;
                current = next.0;
                yielded_types.push(next);
                proof {
                    assert(ids_of(yielded_types@) =~= ids_of(prev).push(next.0));
                }
            },
            None => {
                proof {
                    assert(walk(*t, bound, i as int, segs, start, k as int) == (None::<u32>, ids_of(yielded_types@)));
                    lemma_walk_stays_failed(*t, bound, i as int, segs, start, k as int, segs.len() - 1);
                    assert(chained_targets(*t, bound, i as int, pointer@, name@) == (Seq::<u32>::empty(), ids_of(yielded_types@)));
                    assert(ids_of(Seq::<SymbolId>::empty()) =~= Seq::<u32>::empty());
                }
                return (Vec::new(), yielded_types);
            },
        }
        k = k + 1;
    }
    let owner = &t.symbols[current as usize];
    let home = owner.file.0 as usize;
    let key = join3(owner.name.as_str(), ".", name);
    let members = qualified_member_targets(
        &t.symbol_by_qualified_per_file[home],
        &t.qualified_twins_per_file[home],
        key.as_str(),
    );
    (members, yielded_types)
}

proof fn lemma_walk_stays_failed(
    t: ResolveTables,
    bound: Map<Seq<char>, u32>,
    i: int,
    segs: Seq<Seq<char>>,
    start: u32,
    k: int,
    m: int,
)
    requires
        0 <= k <= m,
        walk(t, bound, i, segs, start, k).0 is None,
    ensures
        walk(t, bound, i, segs, start, m) == walk(t, bound, i, segs, start, k),
    decreases m - k,
{
    if k < m {
        lemma_walk_stays_failed(t, bound, i, segs, start, k, m - 1);
    }
}

/// What a plain in-scope qualifier `q` (an import binding, or a declaration of the
/// site's own file) with member `name` names: the members `Owner.name` in the bound
/// symbol's home file, twins included; nothing when `q` is not in scope.
pub open spec fn in_scope_targets(t: ResolveTables, bound: Map<Seq<char>, u32>, i: int, q: Seq<char>, name: Seq<char>) -> Seq<u32> {
    match pointer_base(t, bound, i, q) {
        Some(b) => {
            let owner = t.symbols@[b as int];
            let home = owner.file.0 as int;
            qualified_targets(
                str_ids(t.symbol_by_qualified_per_file@[home]),
                str_lists(t.qualified_twins_per_file@[home]),
                owner.name@ + "."@ + name,
            )
        },
        None => Seq::empty(),
    }
}

/// A plain in-scope qualifier (`Mode::Standard`, or a receiver typed `Args`): the symbol
/// the name resolves to (an import binding or a same-file declaration) owns the member
/// in its home file.
pub fn in_scope_member_targets(
    q: &str,
    name: &str,
    bound_symbols: &FxHashMap<String, u32>,
    i: usize,
    t: &ResolveTables,
) -> (r: Vec<SymbolId>)
    requires
        tables_wf(*t),
        bound_wf(*t, str_ids(*bound_symbols)),
        i < t.symbol_by_name_per_file@.len(),
    ensures
        ids_of(r@) == in_scope_targets(*t, str_ids(*bound_symbols), i as int, q@, name@),
{
    let in_scope = match str_ids_get(bound_symbols, q) {
        Some(id) => Some(id),
        None => str_ids_get(&t.symbol_by_name_per_file[i], q),
    };
    match in_scope {
        Some(bound) => {
            proof {
                assert(ids_below(str_ids(t.symbol_by_name_per_file@[i as int]), t.symbols@.len()));
            }
            let owner = &t.symbols[bound as usize];
            let home = owner.file.0 as usize;
            let key = join3(owner.name.as_str(), ".", name);
            qualified_member_targets(&t.symbol_by_qualified_per_file[home], &t.qualified_twins_per_file[home], key.as_str())
        },
        None => Vec::new(),
    }
}

/// Whether every id of a string-keyed table is below `n`.
#[verifier::loop_isolation(false)]
pub fn table_ids_below(m: &FxHashMap<String, u32>, n: usize) -> (r: bool)
    ensures
        r == ids_below(str_ids(*m), n as nat),
{
    let ids = str_ids_values(m);
    let mut k: usize = 0;
    while k < ids.len()
        invariant
            k <= ids@.len(),
            forall|j: int| 0 <= j < k ==> ids@[j] < n,
        decreases ids@.len() - k,
    {
        if ids[k] as usize >= n {
            proof {
                let v = ids@[k as int];
                assert(v >= n);
                assert(exists|key: Seq<char>| #[trigger] str_ids(*m).contains_key(key) && str_ids(*m)[key] == v);
                let key = choose|key: Seq<char>| #[trigger] str_ids(*m).contains_key(key) && str_ids(*m)[key] == v;
                assert(str_ids(*m).contains_key(key) && !(str_ids(*m)[key] < n));
            }
            return false;
        }
        k = k + 1;
    }
    proof {
        assert forall|key: Seq<char>| #[trigger] str_ids(*m).contains_key(key) implies str_ids(*m)[key] < n by {
            assert(ids@.contains(str_ids(*m)[key]));
        }
    }
    true
}

/// Whether `t` describes one file set as `tables_wf` says, checked.
pub fn check_tables(t: &ResolveTables) -> (r: bool)
    ensures
        r == tables_wf(*t),
{
    let n = t.symbol_by_name_per_file.len();
    if t.symbol_by_qualified_per_file.len() != n || t.qualified_twins_per_file.len() != n
        || t.member_types_per_file.len() != n {
        return false;
    }
    let mut s: usize = 0;
    while s < t.symbols.len()
        invariant
            s <= t.symbols@.len(),
            n == t.symbol_by_name_per_file@.len(),
            forall|x: int| 0 <= x < s ==> (#[trigger] t.symbols@[x]).file.0 < n,
        decreases t.symbols@.len() - s,
    {
        if t.symbols[s].file.0 as usize >= n {
            return false;
        }
        s = s + 1;
    }
    let mut f: usize = 0;
    while f < n
        invariant
            f <= n,
            n == t.symbol_by_name_per_file@.len(),
            forall|g: int| 0 <= g < f ==> ids_below(str_ids(#[trigger] t.symbol_by_name_per_file@[g]), t.symbols@.len()),
        decreases n - f,
    {
        if !table_ids_below(&t.symbol_by_name_per_file[f], t.symbols.len()) {
            return false;
        }
        f = f + 1;
    }
    true
}

/// `chained_member_targets` on tables and bindings that are checked first: `None`
/// exactly when they do not describe one file set, a binding names no symbol, or `i`
/// is no file.
pub fn chained_member_targets_checked(
    pointer: &str,
    name: &str,
    bound_symbols: &FxHashMap<String, u32>,
    i: usize,
    t: &ResolveTables,
) -> (r: Option<(Vec<SymbolId>, Vec<SymbolId>)>)
    ensures
        r is Some <==> (tables_wf(*t) && bound_wf(*t, str_ids(*bound_symbols)) && i < t.symbol_by_name_per_file@.len()),
        r matches Some(v) ==> ids_of(v.0@) == chained_targets(*t, str_ids(*bound_symbols), i as int, pointer@, name@).0
            && ids_of(v.1@) == chained_targets(*t, str_ids(*bound_symbols), i as int, pointer@, name@).1,
{
    if !check_tables(t) || !table_ids_below(bound_symbols, t.symbols.len()) || i >= t.symbol_by_name_per_file.len() {
        return None;
    }
    Some(chained_member_targets(pointer, name, bound_symbols, i, t))
}

/// `in_scope_member_targets` on tables and bindings that are checked first: `None`
/// exactly when they do not describe one file set, a binding names no symbol, or `i`
/// is no file.
pub fn in_scope_member_targets_checked(
    q: &str,
    name: &str,
    bound_symbols: &FxHashMap<String, u32>,
    i: usize,
    t: &ResolveTables,
) -> (r: Option<Vec<SymbolId>>)
    ensures
        r is Some <==> (tables_wf(*t) && bound_wf(*t, str_ids(*bound_symbols)) && i < t.symbol_by_name_per_file@.len()),
        r matches Some(v) ==> ids_of(v@) == in_scope_targets(*t, str_ids(*bound_symbols), i as int, q@, name@),
{
    if !check_tables(t) || !table_ids_below(bound_symbols, t.symbols.len()) || i >= t.symbol_by_name_per_file.len() {
        return None;
    }
    Some(in_scope_member_targets(q, name, bound_symbols, i, t))
}

} // verus!
