//! The mount forest over a file set: which file mounts which (the first mount in file
//! order wins, so two twins mounting one file still give it one address), the file
//! each mount chain is rooted at, the unit that compiles every file a tree holds, and
//! the sight an include adds to the including file, beside the unit mates an adapter
//! names for a file.

use vstd::prelude::*;

use crate::graph::surface::increasing;
use crate::seqs::{ascending, lemma_distinct_ids_bounded, sort_ids};
use crate::text::{compare_str, lemma_lex_antisymmetric, lemma_lex_total, lemma_lex_transitive, seq_lex_lt, str_eq, views, Comparison};
use crate::vocab::ProjectPath;

verus! {

/// Whether file `j` mounts file `t`: one of `j`'s mount imports resolved to `t`, and
/// `t` is not `j` itself.
pub open spec fn mounts(mount_targets: Seq<Vec<u32>>, j: int, t: int) -> bool {
    t != j && mount_targets[j]@.contains(t as u32)
}

/// The first of the first `k` files, in file order, that mounts `t`.
pub open spec fn first_mounter(mount_targets: Seq<Vec<u32>>, t: int, k: int) -> Option<u32>
    decreases k,
{
    if k <= 0 {
        None
    } else {
        match first_mounter(mount_targets, t, k - 1) {
            Some(j) => Some(j),
            None => if mounts(mount_targets, k - 1, t) {
                Some((k - 1) as u32)
            } else {
                None
            },
        }
    }
}

/// Per file, the file that mounts it: the first in file order whose mount imports
/// resolved to it (`mount_targets[j]` holds what file `j`'s mount imports resolved to,
/// in order). A file never mounts itself.
pub fn mount_parents(mount_targets: &[Vec<u32>]) -> (r: Vec<Option<u32>>)
    requires
        mount_targets@.len() <= 0x1_0000_0000,
        forall|j: int, q: int|
            0 <= j < mount_targets@.len() && 0 <= q < mount_targets@[j]@.len() ==> #[trigger] mount_targets@[j]@[q]
                < mount_targets@.len(),
    ensures
        r@.len() == mount_targets@.len(),
        forall|t: int| 0 <= t < r@.len() ==> #[trigger] r@[t] == first_mounter(mount_targets@, t, mount_targets@.len() as int),
{
    let n = mount_targets.len();
    let ghost mt = mount_targets@;
    let mut parents: Vec<Option<u32>> = Vec::new();
    let mut i: usize = 0;
    while i < n
        invariant
            i <= n == mt.len(),
            parents@.len() == i,
            forall|t: int| 0 <= t < i ==> #[trigger] parents@[t] is None,
        decreases n - i,
    {
        parents.push(None);
        i = i + 1;
    }
    let mut j: usize = 0;
    while j < n
        invariant
            j <= n == mt.len() <= 0x1_0000_0000,
            mt == mount_targets@,
            parents@.len() == n,
            forall|a: int, q: int| 0 <= a < mt.len() && 0 <= q < mt[a]@.len() ==> #[trigger] mt[a]@[q] < mt.len(),
            forall|t: int| 0 <= t < n ==> #[trigger] parents@[t] == first_mounter(mt, t, j as int),
        decreases n - j,
    {
        let targets = &mount_targets[j];
        let mut q: usize = 0;
        while q < targets.len()
            invariant
                j < n == mt.len() <= 0x1_0000_0000,
                *targets == mt[j as int],
                q <= targets@.len(),
                parents@.len() == n,
                forall|a: int, p: int| 0 <= a < mt.len() && 0 <= p < mt[a]@.len() ==> #[trigger] mt[a]@[p] < mt.len(),
                forall|t: int|
                    0 <= t < n ==> #[trigger] parents@[t] == match first_mounter(mt, t, j as int) {
                        Some(x) => Some(x),
                        None => if t != j && targets@.take(q as int).contains(t as u32) {
                            Some(j as u32)
                        } else {
                            None
                        },
                    },
            decreases targets@.len() - q,
        {
            let t = targets[q];
            proof {
                assert(mt[j as int]@[q as int] < mt.len());
                assert(targets@.take(q + 1) =~= targets@.take(q as int).push(t));
                assert forall|u: u32| u != t implies (#[trigger] targets@.take(q + 1).contains(u)
                    <==> targets@.take(q as int).contains(u)) by {
                    if targets@.take(q + 1).contains(u) {
                        let w = choose|w: int| 0 <= w < q + 1 && #[trigger] targets@.take(q + 1)[w] == u;
                        assert(w < q);
                        assert(targets@.take(q as int)[w] == u);
                    }
                    if targets@.take(q as int).contains(u) {
                        let w = choose|w: int| 0 <= w < q && #[trigger] targets@.take(q as int)[w] == u;
                        assert(targets@.take(q + 1)[w] == u);
                    }
                }
                assert(targets@.take(q + 1)[q as int] == t);
            }
            if t as usize != j && parents[t as usize].is_none() {
                parents.set(t as usize, Some(j as u32));
            }
            q = q + 1;
        }
        proof {
            assert(targets@.take(targets@.len() as int) =~= targets@);
            assert forall|t: int| 0 <= t < n implies #[trigger] parents@[t] == first_mounter(mt, t, j + 1) by {
                assert(mounts(mt, j as int, t) == (t != j && targets@.contains(t as u32)));
            }
        }
        j = j + 1;
    }
    parents
}

/// The `k`-th file up a mount chain from `file` (the chain stays put at a file nothing
/// mounts).
pub open spec fn ancestor(parents: Seq<Option<u32>>, file: int, k: nat) -> int
    decreases k,
{
    if k == 0 {
        file
    } else {
        let c = ancestor(parents, file, (k - 1) as nat);
        match parents[c] {
            Some(p) => p as int,
            None => c,
        }
    }
}

/// Whether the walk up from `file` stops at its `k`-th step: nothing mounts that file,
/// or the chain has been there before (a chain that closes on itself).
pub open spec fn stops_at(parents: Seq<Option<u32>>, file: int, k: nat) -> bool {
    parents[ancestor(parents, file, k)] is None || exists|j: nat|
        j < k && #[trigger] ancestor(parents, file, j) == ancestor(parents, file, k)
}

/// Whether every parent names a file of the set.
pub open spec fn parents_in_range(parents: Seq<Option<u32>>) -> bool {
    forall|i: int| 0 <= i < parents.len() ==> (#[trigger] parents[i] matches Some(p) ==> p < parents.len())
}

proof fn lemma_ancestor_in_range(parents: Seq<Option<u32>>, file: int, k: nat)
    requires
        0 <= file < parents.len(),
        parents_in_range(parents),
    ensures
        0 <= ancestor(parents, file, k) < parents.len(),
    decreases k,
{
    if k > 0 {
        lemma_ancestor_in_range(parents, file, (k - 1) as nat);
    }
}

/// Whether the walk up from `file` first stops at step `k`.
pub open spec fn first_stop(parents: Seq<Option<u32>>, file: int, k: nat) -> bool {
    stops_at(parents, file, k) && forall|i: nat| i < k ==> !#[trigger] stops_at(parents, file, i)
}

/// The file the walk up from `file` stops at.
pub open spec fn chain_root(parents: Seq<Option<u32>>, file: int) -> int {
    ancestor(parents, file, choose|k: nat| first_stop(parents, file, k))
}

proof fn lemma_first_stop_unique(parents: Seq<Option<u32>>, file: int, k: nat)
    requires
        first_stop(parents, file, k),
    ensures
        chain_root(parents, file) == ancestor(parents, file, k),
{
    let c = choose|c: nat| first_stop(parents, file, c);
    assert(first_stop(parents, file, c));
    if c < k {
        assert(!stops_at(parents, file, c));
    } else if k < c {
        assert(!stops_at(parents, file, k));
    }
}

/// The file a mount chain from `file` is rooted at: itself where nothing mounts it; a
/// chain that closes on itself stops where it repeats.
pub fn tree_root(parents: &[Option<u32>], file: usize) -> (r: usize)
    requires
        file < parents@.len(),
        parents_in_range(parents@),
    ensures
        r == chain_root(parents@, file as int),
        exists|k: nat| #[trigger] first_stop(parents@, file as int, k) && r == ancestor(parents@, file as int, k),
{
    let n = parents.len();
    let ghost ps = parents@;
    let mut seen: Vec<bool> = Vec::new();
    let mut i: usize = 0;
    while i < n
        invariant
            i <= n == ps.len(),
            seen@.len() == i,
            forall|x: int| 0 <= x < i ==> !#[trigger] seen@[x],
        decreases n - i,
    {
        seen.push(false);
        i = i + 1;
    }
    let mut cursor = file;
    let ghost mut k: nat = 0;
    let ghost mut visited: Set<int> = Set::empty();
    proof {
        vstd::set_lib::lemma_int_range(0, n as int);
    }
    loop
        invariant
            n == ps.len(),
            ps == parents@,
            file < n,
            parents_in_range(ps),
            seen@.len() == n,
            cursor < n,
            cursor == ancestor(ps, file as int, k),
            forall|i: nat| i < k ==> !#[trigger] stops_at(ps, file as int, i),
            forall|x: int| 0 <= x < n ==> (#[trigger] seen@[x] <==> visited.contains(x)),
            forall|x: int| #[trigger] visited.contains(x) <==> exists|j: nat| j < k && #[trigger] ancestor(ps, file as int, j) == x,
            visited.subset_of(vstd::set_lib::set_int_range(0, n as int)),
            visited.finite(),
            visited.len() == k,
            vstd::set_lib::set_int_range(0, n as int).finite(),
            vstd::set_lib::set_int_range(0, n as int).len() == n,
        decreases n - k,
    {
        proof {
            vstd::set_lib::lemma_len_subset(visited, vstd::set_lib::set_int_range(0, n as int));
        }
        match parents[cursor] {
            None => {
                proof {
                    assert(stops_at(ps, file as int, k));
                    assert(first_stop(ps, file as int, k));
                    lemma_first_stop_unique(ps, file as int, k);
                }
                return cursor;
            },
            Some(p) => {
                if seen[cursor] {
                    proof {
                        assert(visited.contains(cursor as int));
                        let j = choose|j: nat| j < k && #[trigger] ancestor(ps, file as int, j) == cursor as int;
                        assert(stops_at(ps, file as int, k));
                        assert(first_stop(ps, file as int, k));
                        lemma_first_stop_unique(ps, file as int, k);
                    }
                    return cursor;
                }
                proof {
                    assert(!stops_at(ps, file as int, k)) by {
                        if exists|j: nat| j < k && #[trigger] ancestor(ps, file as int, j) == ancestor(ps, file as int, k) {
                            let j = choose|j: nat| j < k && #[trigger] ancestor(ps, file as int, j) == ancestor(ps, file as int, k);
                            assert(visited.contains(cursor as int));
                        }
                    }
                    assert(!visited.contains(cursor as int));
                    assert(visited.insert(cursor as int).len() == visited.len() + 1);
                    assert(visited.insert(cursor as int).subset_of(vstd::set_lib::set_int_range(0, n as int)));
                    vstd::set_lib::lemma_len_subset(visited.insert(cursor as int), vstd::set_lib::set_int_range(0, n as int));
                    assert(ps[cursor as int] == Some(p));
                }
                seen.set(cursor, true);
                proof {
                    let old_k = k;
                    visited = visited.insert(cursor as int);
                    k = k + 1;
                    assert(ancestor(ps, file as int, k) == p as int);
                    assert forall|x: int| #[trigger] visited.contains(x) <==> exists|j: nat| j < k && #[trigger] ancestor(ps, file as int, j) == x by {
                        if visited.contains(x) && x != cursor as int {
                            let j = choose|j: nat| j < old_k && #[trigger] ancestor(ps, file as int, j) == x;
                            assert(j < k);
                        }
                        if x == cursor as int {
                            assert(ancestor(ps, file as int, old_k) == x);
                        }
                        if exists|j: nat| j < k && #[trigger] ancestor(ps, file as int, j) == x {
                            let j = choose|j: nat| j < k && #[trigger] ancestor(ps, file as int, j) == x;
                            if j < old_k {
                                assert(visited.contains(x));
                            }
                        }
                    }
                    assert(p < n) by {
                        assert(ps[cursor as int] matches Some(q) ==> q < ps.len());
                    }
                }
                cursor = p as usize;
            },
        }
    }
}

/// The first of the first `k` units that names `path` among its entries.
pub open spec fn unit_named(unit_entries: Seq<Vec<String>>, path: Seq<char>, k: int) -> Option<int>
    decreases k,
{
    if k <= 0 {
        None
    } else {
        match unit_named(unit_entries, path, k - 1) {
            Some(u) => Some(u),
            None => if views(unit_entries[k - 1]@).contains(path) {
                Some(k - 1)
            } else {
                None
            },
        }
    }
}

/// The first unit whose entries name `path`, if any.
fn unit_of_entry(unit_entries: &[Vec<String>], path: &str) -> (r: Option<u32>)
    requires
        unit_entries@.len() <= 0x1_0000_0000,
    ensures
        match unit_named(unit_entries@, path@, unit_entries@.len() as int) {
            Some(u) => r == Some(u as u32),
            None => r is None,
        },
{
    let mut u: usize = 0;
    while u < unit_entries.len()
        invariant
            u <= unit_entries@.len() <= 0x1_0000_0000,
            unit_named(unit_entries@, path@, u as int) is None,
        decreases unit_entries@.len() - u,
    {
        let entries = &unit_entries[u];
        let mut e: usize = 0;
        while e < entries.len()
            invariant
                u < unit_entries@.len() <= 0x1_0000_0000,
                unit_named(unit_entries@, path@, u as int) is None,
                *entries == unit_entries@[u as int],
                e <= entries@.len(),
                forall|x: int| 0 <= x < e ==> (#[trigger] entries@[x])@ != path@,
            decreases entries@.len() - e,
        {
            if str_eq(entries[e].as_str(), path) {
                proof {
                    assert(views(unit_entries@[u as int]@)[e as int] == path@);
                    assert(unit_named(unit_entries@, path@, u + 1) == Some(u as int));
                    lemma_unit_named_stays(unit_entries@, path@, u + 1, unit_entries@.len() as int);
                }
                return Some(u as u32);
            }
            e = e + 1;
        }
        proof {
            if views(entries@).contains(path@) {
                let x = choose|x: int| 0 <= x < views(entries@).len() && views(entries@)[x] == path@;
                assert(entries@[x]@ == path@);
            }
        }
        u = u + 1;
    }
    None
}

proof fn lemma_unit_named_stays(unit_entries: Seq<Vec<String>>, path: Seq<char>, k: int, m: int)
    requires
        0 <= k <= m,
        unit_named(unit_entries, path, k) is Some,
    ensures
        unit_named(unit_entries, path, m) == unit_named(unit_entries, path, k),
    decreases m - k,
{
    if k < m {
        lemma_unit_named_stays(unit_entries, path, k, m - 1);
    }
}

/// A file a tree holds is compiled by the unit that tree is rooted at: each file whose
/// mount chain is rooted at a unit's entry (`unit_entries[u]`; the first unit naming an
/// entry keeps it) takes that unit; every other file keeps the unit it had.
/// `paths[i]` is file `i`'s path and `parents[i]` the file that mounts it.
pub fn assign_units(paths: &[String], parents: &[Option<u32>], unit_entries: &[Vec<String>], units: &mut Vec<Option<u32>>)
    requires
        paths@.len() == parents@.len(),
        old(units)@.len() == parents@.len(),
        parents_in_range(parents@),
        unit_entries@.len() <= 0x1_0000_0000,
    ensures
        final(units)@.len() == old(units)@.len(),
        forall|i: int|
            0 <= i < final(units)@.len() ==> #[trigger] final(units)@[i] == match unit_named(
                unit_entries@,
                paths@[chain_root(parents@, i)]@,
                unit_entries@.len() as int,
            ) {
                Some(u) => Some(u as u32),
                None => old(units)@[i],
            },
{
    let ghost before = units@;
    let mut i: usize = 0;
    while i < parents.len()
        invariant
            i <= parents@.len() == paths@.len() == before.len(),
            units@.len() == before.len(),
            parents_in_range(parents@),
            unit_entries@.len() <= 0x1_0000_0000,
            forall|x: int|
                0 <= x < i ==> #[trigger] units@[x] == match unit_named(
                    unit_entries@,
                    paths@[chain_root(parents@, x)]@,
                    unit_entries@.len() as int,
                ) {
                    Some(u) => Some(u as u32),
                    None => before[x],
                },
            forall|x: int| i <= x < before.len() ==> #[trigger] units@[x] == before[x],
        decreases parents@.len() - i,
    {
        let root = tree_root(parents, i);
        proof {
            let k = choose|k: nat| #[trigger] first_stop(parents@, i as int, k) && root == ancestor(parents@, i as int, k);
            lemma_ancestor_in_range(parents@, i as int, k);
        }
        match unit_of_entry(unit_entries, paths[root].as_str()) {
            Some(u) => {
                units.set(i, Some(u));
            },
            None => {},
        }
        i = i + 1;
    }
}

/// `v`, ascending, without repeats.
fn dedup_ascending(v: &Vec<u32>) -> (r: Vec<u32>)
    requires
        ascending(v@),
    ensures
        increasing(r@),
        r@.to_set() == v@.to_set(),
{
    let mut out: Vec<u32> = Vec::new();
    let mut i: usize = 0;
    while i < v.len()
        invariant
            i <= v@.len(),
            ascending(v@),
            increasing(out@),
            out@.to_set() == v@.take(i as int).to_set(),
            out@.len() > 0 ==> i > 0 && out@.last() == v@[i - 1],
        decreases v@.len() - i,
    {
        let x = v[i];
        proof {
            assert(v@.take(i + 1) =~= v@.take(i as int).push(x));
            v@.take(i as int).lemma_push_to_set_commute(x);
        }
        if out.len() == 0 || out[out.len() - 1] != x {
            proof {
                if out@.len() > 0 {
                    assert(out@.last() <= x);
                }
                out@.lemma_push_to_set_commute(x);
            }
            out.push(x);
        } else {
            proof {
                assert(out@.to_set().contains(x)) by {
                    assert(out@[out@.len() - 1] == x);
                }
                assert(out@.to_set().insert(x) =~= out@.to_set());
            }
        }
        i = i + 1;
    }
    proof {
        assert(v@.take(v@.len() as int) =~= v@);
    }
    out
}

/// The files an include makes file `file` see: every include target but the file itself.
pub open spec fn included_by(included: Seq<u32>, file: u32) -> Seq<u32> {
    included.filter(other_than(file))
}

/// The test "is not `file`".
pub open spec fn other_than(file: u32) -> spec_fn(u32) -> bool {
    |t: u32| t != file
}

/// An include pastes the target's content in, so the including file `file` sees every
/// file it includes: its sight gains them, ascending without repeats. Where it includes
/// nothing but itself, its sight stands as it was.
pub fn add_included_sight(sees: &mut Vec<u32>, included: &[u32], file: u32)
    ensures
        included_by(included@, file).len() == 0 ==> *final(sees) == *old(sees),
        included_by(included@, file).len() > 0 ==> increasing(final(sees)@) && final(sees)@.to_set() == old(sees)@.to_set()
            + included_by(included@, file).to_set(),
{
    let ghost f = other_than(file);
    let mut extra: Vec<u32> = Vec::new();
    let mut i: usize = 0;
    while i < included.len()
        invariant
            i <= included@.len(),
            f == other_than(file),
            extra@ == included@.take(i as int).filter(f),
        decreases included@.len() - i,
    {
        proof {
            assert(included@.take(i + 1) =~= included@.take(i as int).push(included@[i as int]));
            included@.take(i as int).lemma_filter_push(included@[i as int], f);
        }
        if included[i] != file {
            extra.push(included[i]);
        }
        i = i + 1;
    }
    proof {
        assert(included@.take(included@.len() as int) =~= included@);
    }
    if extra.len() == 0 {
        return ;
    }
    let ghost old_sees = sees@;
    let mut all: Vec<u32> = Vec::new();
    let mut j: usize = 0;
    while j < sees.len()
        invariant
            j <= sees@.len(),
            all@ == sees@.take(j as int),
        decreases sees@.len() - j,
    {
        all.push(sees[j]);
        j = j + 1;
        proof {
            assert(all@ =~= sees@.take(j as int));
        }
    }
    let mut k: usize = 0;
    while k < extra.len()
        invariant
            k <= extra@.len(),
            all@ == sees@ + extra@.take(k as int),
        decreases extra@.len() - k,
    {
        all.push(extra[k]);
        k = k + 1;
        proof {
            assert(all@ =~= sees@ + extra@.take(k as int));
        }
    }
    proof {
        assert(sees@.take(sees@.len() as int) =~= sees@);
        assert(extra@.take(extra@.len() as int) =~= extra@);
        vstd::seq_lib::lemma_multiset_commutative(sees@, extra@);
    }
    let ghost joined = all@;
    sort_ids(&mut all);
    proof {
        crate::seqs::lemma_multiset_same_set(all@, joined);
        assert(joined.to_set() =~= sees@.to_set() + extra@.to_set()) by {
            assert forall|x: u32| joined.to_set().contains(x) implies (sees@.to_set() + extra@.to_set()).contains(x) by {
                let w = choose|w: int| 0 <= w < joined.len() && joined[w] == x;
                if w < sees@.len() {
                    assert(sees@[w] == x);
                } else {
                    assert(extra@[w - sees@.len()] == x);
                }
            }
            assert forall|x: u32| (sees@.to_set() + extra@.to_set()).contains(x) implies joined.to_set().contains(x) by {
                if sees@.to_set().contains(x) {
                    let w = choose|w: int| 0 <= w < sees@.len() && sees@[w] == x;
                    assert(joined[w] == x);
                } else {
                    let w = choose|w: int| 0 <= w < extra@.len() && extra@[w] == x;
                    assert(joined[sees@.len() + w] == x);
                }
            }
        }
    }
    *sees = dedup_ascending(&all);
}

/// Strictly ascending paths, as the graph's files are.
pub open spec fn paths_increasing(paths: Seq<ProjectPath>) -> bool {
    forall|i: int, j: int| 0 <= i < j < paths.len() ==> seq_lex_lt(#[trigger] paths[i].0@, #[trigger] paths[j].0@)
}

proof fn lemma_lt_transitive(a: Seq<char>, b: Seq<char>, c: Seq<char>)
    requires
        seq_lex_lt(a, b),
        seq_lex_lt(b, c),
    ensures
        seq_lex_lt(a, c),
{
    lemma_lex_transitive(a, b, c);
    if a == c {
        lemma_lex_antisymmetric(a, b);
    }
}

/// The index of path `p` among strictly ascending paths, by binary search.
fn find_path(paths: &[ProjectPath], p: &str) -> (r: Option<usize>)
    requires
        paths_increasing(paths@),
    ensures
        match r {
            Some(i) => i < paths@.len() && paths@[i as int].0@ == p@,
            None => forall|i: int| 0 <= i < paths@.len() ==> (#[trigger] paths@[i]).0@ != p@,
        },
{
    let mut lo: usize = 0;
    let mut hi: usize = paths.len();
    while lo < hi
        invariant
            lo <= hi <= paths@.len(),
            paths_increasing(paths@),
            forall|i: int| 0 <= i < lo ==> seq_lex_lt((#[trigger] paths@[i]).0@, p@),
            forall|i: int| hi <= i < paths@.len() ==> seq_lex_lt(p@, (#[trigger] paths@[i]).0@),
        decreases hi - lo,
    {
        let mid = lo + (hi - lo) / 2;
        match compare_str(paths[mid].0.as_str(), p) {
            Comparison::Equal => {
                return Some(mid);
            },
            Comparison::Less => {
                proof {
                    assert forall|i: int| 0 <= i < mid + 1 implies seq_lex_lt((#[trigger] paths@[i]).0@, p@) by {
                        if i < mid {
                            lemma_lt_transitive(paths@[i].0@, paths@[mid as int].0@, p@);
                        }
                    }
                }
                lo = mid + 1;
            },
            Comparison::Greater => {
                proof {
                    lemma_lex_total(paths@[mid as int].0@, p@);
                    assert forall|i: int| mid <= i < paths@.len() implies seq_lex_lt(p@, (#[trigger] paths@[i]).0@) by {
                        if i > mid {
                            lemma_lt_transitive(p@, paths@[mid as int].0@, paths@[i].0@);
                        }
                    }
                }
                hi = mid;
            },
        }
    }
    None
}

/// Whether file `t` is one of the mates an adapter named, and not file `ix` itself.
pub open spec fn named_mate(ix: usize, mates: Seq<ProjectPath>, paths: Seq<ProjectPath>, t: u32) -> bool {
    &&& t < paths.len()
    &&& t != ix
    &&& exists|m: int| 0 <= m < mates.len() && (#[trigger] mates[m]).0@ == paths[t as int].0@
}

/// The unit mates an adapter named for file `ix`, as graph ids: ascending without
/// repeats, never the file itself, and only files the graph holds (a mate outside it is
/// silently absent).
pub fn unit_mates(ix: usize, mates: &[ProjectPath], paths: &[ProjectPath]) -> (r: Vec<u32>)
    requires
        paths_increasing(paths@),
        paths@.len() <= 0x1_0000_0000,
    ensures
        increasing(r@),
        r@.to_set() == Set::new(|t: u32| named_mate(ix, mates@, paths@, t)),
{
    let mut ids: Vec<u32> = Vec::new();
    let mut m: usize = 0;
    while m < mates.len()
        invariant
            m <= mates@.len(),
            paths_increasing(paths@),
            paths@.len() <= 0x1_0000_0000,
            forall|q: int| 0 <= q < ids@.len() ==> #[trigger] named_mate(ix, mates@, paths@, ids@[q]),
            forall|t: u32|
                #[trigger] named_mate(ix, mates@, paths@, t) && (exists|k: int| 0 <= k < m && (#[trigger] mates@[k]).0@ == paths@[t as int].0@)
                    ==> ids@.contains(t),
        decreases mates@.len() - m,
    {
        let ghost before = ids@;
        let found = find_path(paths, mates[m].0.as_str());
        match found {
            Some(i) => {
                if i != ix {
                    ids.push(i as u32);
                    proof {
                        assert(named_mate(ix, mates@, paths@, i as u32)) by {
                            assert(mates@[m as int].0@ == paths@[i as int].0@);
                        }
                        assert forall|q: int| 0 <= q < ids@.len() implies #[trigger] named_mate(ix, mates@, paths@, ids@[q]) by {
                            if q < before.len() {
                                assert(ids@[q] == before[q]);
                            }
                        }
                    }
                }
            },
            None => {},
        }
        proof {
            assert forall|t: u32|
                #[trigger] named_mate(ix, mates@, paths@, t) && (exists|k: int| 0 <= k < m + 1 && (#[trigger] mates@[k]).0@ == paths@[t as int].0@)
                implies ids@.contains(t) by {
                let k = choose|k: int| 0 <= k < m + 1 && (#[trigger] mates@[k]).0@ == paths@[t as int].0@;
                if k < m {
                    assert(before.contains(t));
                    let w = choose|w: int| 0 <= w < before.len() && before[w] == t;
                    assert(ids@[w] == t);
                } else {
                    match found {
                        Some(i) => {
                            if i as int != t as int {
                                if (i as int) < (t as int) {
                                    assert(seq_lex_lt(paths@[i as int].0@, paths@[t as int].0@));
                                } else {
                                    assert(seq_lex_lt(paths@[t as int].0@, paths@[i as int].0@));
                                }
                            }
                            assert(ids@[ids@.len() - 1] == t);
                        },
                        None => {
                            assert(paths@[t as int].0@ != mates@[m as int].0@);
                        },
                    }
                }
            }
        }
        m = m + 1;
    }
    let ghost collected = ids@;
    sort_ids(&mut ids);
    proof {
        crate::seqs::lemma_multiset_same_set(ids@, collected);
    }
    let r = dedup_ascending(&ids);
    proof {
        assert forall|t: u32| #[trigger] r@.to_set().contains(t) == named_mate(ix, mates@, paths@, t) by {
            if r@.to_set().contains(t) {
                assert(collected.to_set().contains(t));
                let w = choose|w: int| 0 <= w < collected.len() && collected[w] == t;
                assert(named_mate(ix, mates@, paths@, collected[w]));
            }
            if named_mate(ix, mates@, paths@, t) {
                let k = choose|k: int| 0 <= k < mates@.len() && (#[trigger] mates@[k]).0@ == paths@[t as int].0@;
                assert(collected.contains(t));
                assert(collected.to_set().contains(t));
            }
        }
        assert(r@.to_set() =~= Set::new(|t: u32| named_mate(ix, mates@, paths@, t)));
    }
    r
}

proof fn lemma_ancestor_compose(parents: Seq<Option<u32>>, file: int, a: nat, b: nat)
    ensures
        ancestor(parents, ancestor(parents, file, a), b) == ancestor(parents, file, a + b),
    decreases b,
{
    if b > 0 {
        lemma_ancestor_compose(parents, file, a, (b - 1) as nat);
        assert((a + b - 1) as nat == a + (b - 1) as nat);
    }
}

proof fn lemma_least_stop(parents: Seq<Option<u32>>, file: int, k: nat)
    requires
        stops_at(parents, file, k),
    ensures
        exists|m: nat| #[trigger] first_stop(parents, file, m),
    decreases k,
{
    if exists|i: nat| i < k && #[trigger] stops_at(parents, file, i) {
        let i = choose|i: nat| i < k && #[trigger] stops_at(parents, file, i);
        lemma_least_stop(parents, file, i);
    } else {
        assert(first_stop(parents, file, k));
    }
}

/// Every walk up a mount chain stops: within as many steps as there are files, it
/// reaches a file nothing mounts or one it has been at before.
pub proof fn lemma_walk_stops(parents: Seq<Option<u32>>, file: int)
    requires
        0 <= file < parents.len() <= 0xffff_ffff,
        parents_in_range(parents),
    ensures
        exists|k: nat| #[trigger] first_stop(parents, file, k),
{
    let n = parents.len();
    if exists|k: nat| k <= n && #[trigger] stops_at(parents, file, k) {
        let k = choose|k: nat| k <= n && #[trigger] stops_at(parents, file, k);
        lemma_least_stop(parents, file, k);
    } else {
        let s = Seq::new((n + 1) as nat, |i: int| ancestor(parents, file, i as nat) as u32);
        assert forall|i: int| 0 <= i < s.len() implies #[trigger] s[i] < n as u32 by {
            lemma_ancestor_in_range(parents, file, i as nat);
        }
        assert(s.no_duplicates()) by {
            assert forall|i: int, j: int| 0 <= i < s.len() && 0 <= j < s.len() && i != j implies s[i] != s[j] by {
                lemma_ancestor_in_range(parents, file, i as nat);
                lemma_ancestor_in_range(parents, file, j as nat);
                let (lo, hi) = if i < j {
                    (i as nat, j as nat)
                } else {
                    (j as nat, i as nat)
                };
                assert(!stops_at(parents, file, hi));
                assert(ancestor(parents, file, lo) != ancestor(parents, file, hi));
            }
        }
        lemma_distinct_ids_bounded(s, n as u32);
    }
}

/// A tree's root is the root of its own tree: walking up from the file a chain stops at
/// stops there again, whether nothing mounts it or the chain closes on itself there.
pub proof fn lemma_tree_root_is_its_own_root(parents: Seq<Option<u32>>, file: int)
    requires
        0 <= file < parents.len() <= 0xffff_ffff,
        parents_in_range(parents),
    ensures
        chain_root(parents, chain_root(parents, file)) == chain_root(parents, file),
{
    lemma_walk_stops(parents, file);
    let k = choose|k: nat| #[trigger] first_stop(parents, file, k);
    lemma_first_stop_unique(parents, file, k);
    let r = ancestor(parents, file, k);
    lemma_ancestor_in_range(parents, file, k);
    if parents[r] is None {
        assert(first_stop(parents, r, 0));
        lemma_first_stop_unique(parents, r, 0);
    } else {
        let j = choose|j: nat| j < k && #[trigger] ancestor(parents, file, j) == ancestor(parents, file, k);
        let len = (k - j) as nat;
        lemma_ancestor_compose(parents, file, j, len);
        assert(ancestor(parents, r, len) == r);
        assert(ancestor(parents, r, 0) == r);
        assert(stops_at(parents, r, len));
        assert forall|i: nat| i < len implies !#[trigger] stops_at(parents, r, i) by {
            lemma_ancestor_compose(parents, file, j, i);
            assert(!stops_at(parents, file, j + i));
            assert forall|m: nat| m < i implies #[trigger] ancestor(parents, r, m) != ancestor(parents, r, i) by {
                lemma_ancestor_compose(parents, file, j, m);
                assert(ancestor(parents, file, j + m) != ancestor(parents, file, j + i));
            }
        }
        assert(first_stop(parents, r, len));
        lemma_first_stop_unique(parents, r, len);
    }
}

} // verus!
