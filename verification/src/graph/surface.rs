//! The surface-member closure: which symbols an external consumer can name. A member
//! of a surface symbol whose own rung is surface-transitive is surface, to a fixpoint
//! for nested containers. Idempotent: it strips every surface edge and recomputes.

use vstd::prelude::*;

use rustc_hash::{FxHashMap, FxHashSet};

use crate::fx::{
    id_lists_get, id_lists_new, id_lists_push, id_set_contains, id_set_elements, id_set_insert,
    id_set_new, name_lists, name_lists_get, name_lists_new, name_lists_push,
};
use crate::graph::ProjectGraph;
use crate::seqs::{lemma_ascending_distinct, lemma_multiset_no_duplicates, lemma_multiset_same_set, sort_ids};
use crate::text::str_eq;
use crate::vocab::{
    pos_le, position_le, Confidence, Edge, EdgeKind, NodeRef, Provenance, RootKind, SymbolId,
    VisibilityLevel, VisibilityRung,
};

verus! {

/// A graph whose symbols name files it holds, with ids that fit a `u32`.
pub open spec fn symbols_well_formed(g: ProjectGraph) -> bool {
    &&& g.symbols@.len() <= 0xffff_ffff
    &&& forall|i: int| 0 <= i < g.symbols@.len() ==> (#[trigger] g.symbols@[i]).file.0 < g.files@.len()
}

/// An edge the closure itself derived.
pub open spec fn is_surface(e: Edge) -> bool {
    e.source is Surface
}

/// The edges that are not the closure's own.
pub open spec fn kept_edges(edges: Seq<Edge>) -> Seq<Edge> {
    edges.filter(|e: Edge| !is_surface(e))
}

/// The symbol a production root names, if the edge is one.
pub open spec fn production_root(e: Edge) -> Option<u32> {
    match e.kind {
        EdgeKind::Root { kind: RootKind::Production, target: NodeRef::Symbol(s) } => Some(s.0),
        _ => None,
    }
}

/// The symbols rooted as production surface.
pub open spec fn seeds(edges: Seq<Edge>) -> Set<u32> {
    Set::new(|s: u32| exists|i: int| 0 <= i < edges.len() && production_root(edges[i]) == Some(s))
}

/// What the closure reads of a graph besides its edges.
pub struct SurfaceWorld {
    pub symbols: Seq<crate::graph::SymbolNode>,
    pub files: Seq<crate::graph::FileNode>,
    pub ladders: Seq<(String, Vec<VisibilityRung>)>,
}

pub open spec fn world(g: ProjectGraph) -> SurfaceWorld {
    SurfaceWorld { symbols: g.symbols@, files: g.files@, ladders: g.visibility_ladders@ }
}

/// A same-file declaration named like `m`'s container.
pub open spec fn is_candidate(g: SurfaceWorld, m: int, j: int) -> bool {
    &&& 0 <= j < g.symbols.len()
    &&& g.symbols[j].file == g.symbols[m].file
    &&& g.symbols[m].member_of matches Some(owner) && g.symbols[j].name@ == owner@
}

/// `c`'s span encloses `m`'s.
pub open spec fn encloses(g: SurfaceWorld, c: int, m: int) -> bool {
    pos_le(g.symbols[c].span.start, g.symbols[m].span.start) && pos_le(
        g.symbols[m].span.end,
        g.symbols[c].span.end,
    )
}

/// The container a member belongs to: among the same-file declarations named like
/// its `member_of`, the first whose span encloses it, else the first of them.
#[verifier::opaque]
pub open spec fn container_of(g: SurfaceWorld, m: int) -> Option<int> {
    if exists|j: int| is_candidate(g, m, j) && encloses(g, j, m) {
        Some(
            choose|j: int|
                is_candidate(g, m, j) && encloses(g, j, m) && forall|k: int|
                    0 <= k < j ==> !(#[trigger] is_candidate(g, m, k) && encloses(g, k, m)),
        )
    } else if exists|j: int| is_candidate(g, m, j) {
        Some(
            choose|j: int|
                is_candidate(g, m, j) && forall|k: int| 0 <= k < j ==> !#[trigger] is_candidate(g, m, k),
        )
    } else {
        None
    }
}

/// The last ladder declared for `language` (the later of two entries wins).
pub open spec fn last_ladder(table: Seq<(String, Vec<VisibilityRung>)>, language: Seq<char>) -> Option<Seq<VisibilityRung>> {
    if exists|i: int| 0 <= i < table.len() && table[i].0@ == language {
        let i = choose|i: int|
            0 <= i < table.len() && table[i].0@ == language && forall|k: int|
                i < k < table.len() ==> #[trigger] table[k].0@ != language;
        Some(table[i].1@)
    } else {
        None
    }
}

/// Whether a rung travels through re-exports: no ladder, or an index past its end,
/// falls back to `true`.
pub open spec fn rung_transitive(ladder: Option<Seq<VisibilityRung>>, vis: VisibilityLevel) -> bool {
    match ladder {
        Some(l) => vis.0 >= l.len() || l[vis.0 as int].surface_transitive,
        None => true,
    }
}

/// Whether member `m` may join the surface: exported, on a surface-transitive rung
/// of its file's language.
pub open spec fn may_join(g: SurfaceWorld, m: int) -> bool {
    let sym = g.symbols[m];
    let ladder = match g.files[sym.file.0 as int].language {
        Some(l) => last_ladder(g.ladders, l@),
        None => None,
    };
    sym.exported && rung_transitive(ladder, sym.visibility)
}

/// A set of symbols that every joinable member of each of its containers belongs to.
pub open spec fn closed(g: SurfaceWorld, s: Set<u32>) -> bool {
    forall|c: u32, m: u32|
        #![trigger s.contains(c), container_of(g, m as int)]
        s.contains(c) && (m as int) < g.symbols.len() && container_of(g, m as int) == Some(
            c as int,
        ) && may_join(g, m as int) ==> s.contains(m)
}

/// The least closed set containing the seeds.
pub open spec fn closure(g: SurfaceWorld, seed: Set<u32>) -> Set<u32> {
    Set::new(|m: u32| forall|s: Set<u32>| closed(g, s) && seed.subset_of(s) ==> #[trigger] s.contains(m))
}

/// The symbols the closure promotes: the closure's members that were not seeds.
pub open spec fn promoted(g: ProjectGraph) -> Set<u32> {
    closure(world(g), seeds(kept_edges(g.edges@))).difference(seeds(kept_edges(g.edges@)))
}

/// The root edge the closure derives for a promoted member.
pub open spec fn surface_edge(g: SurfaceWorld, m: u32) -> Edge {
    Edge {
        kind: EdgeKind::Root { kind: RootKind::Production, target: NodeRef::Symbol(SymbolId(m)) },
        confidence: Confidence::Probable,
        source: Provenance::Surface,
        span: Some(g.symbols[m as int].span),
        owner: g.symbols[m as int].file,
    }
}

/// Strictly increasing.
pub open spec fn increasing(s: Seq<u32>) -> bool {
    forall|i: int, j: int| 0 <= i < j < s.len() ==> s[i] < s[j]
}

/// The promoted members in increasing order.
pub open spec fn promoted_in_order(g: ProjectGraph) -> Seq<u32> {
    choose|s: Seq<u32>| increasing(s) && s.to_set() == promoted(g)
}

/// The edge list after the closure: every edge that is not the closure's own, then one
/// production root per promoted member, in member order.
pub open spec fn closed_edges(g: ProjectGraph) -> Seq<Edge> {
    kept_edges(g.edges@) + promoted_in_order(g).map_values(|m: u32| surface_edge(world(g), m))
}

/// Two increasing sequences holding the same elements are the same sequence.
pub proof fn lemma_increasing_unique(a: Seq<u32>, b: Seq<u32>)
    requires
        increasing(a),
        increasing(b),
        a.to_set() == b.to_set(),
    ensures
        a == b,
    decreases a.len() + b.len(),
{
    if a.len() == 0 || b.len() == 0 {
        if a.len() > 0 {
            assert(a.to_set().contains(a[0]));
        }
        if b.len() > 0 {
            assert(b.to_set().contains(b[0]));
        }
        assert(a =~= b);
    } else {
        let (x, y) = (a.last(), b.last());
        assert(a.to_set().contains(x));
        assert(b.to_set().contains(y));
        assert(x == y) by {
            let i = choose|i: int| 0 <= i < b.len() && b[i] == x;
            let j = choose|j: int| 0 <= j < a.len() && a[j] == y;
            if x < y {
                assert(a[j] <= a[a.len() - 1]);
            }
            if y < x {
                assert(b[i] <= b[b.len() - 1]);
            }
        }
        let (a2, b2) = (a.drop_last(), b.drop_last());
        assert(a2.to_set() =~= b2.to_set()) by {
            assert forall|v: u32| a2.to_set().contains(v) implies b2.to_set().contains(v) by {
                let i = choose|i: int| 0 <= i < a2.len() && a2[i] == v;
                assert(a.to_set().contains(v));
                let j = choose|j: int| 0 <= j < b.len() && b[j] == v;
                assert(v < x);
                assert(j != b.len() - 1);
                assert(b2[j] == v);
            }
            assert forall|v: u32| b2.to_set().contains(v) implies a2.to_set().contains(v) by {
                let i = choose|i: int| 0 <= i < b2.len() && b2[i] == v;
                assert(b.to_set().contains(v));
                let j = choose|j: int| 0 <= j < a.len() && a[j] == v;
                assert(v < y);
                assert(j != a.len() - 1);
                assert(a2[j] == v);
            }
        }
        lemma_increasing_unique(a2, b2);
        assert(a =~= a2.push(x));
        assert(b =~= b2.push(y));
    }
}

/// Removing the closure's own edges twice removes nothing more.
pub proof fn lemma_kept_of_closed(kept: Seq<Edge>, derived: Seq<Edge>)
    requires
        forall|i: int| 0 <= i < kept.len() ==> !is_surface(#[trigger] kept[i]),
        forall|i: int| 0 <= i < derived.len() ==> is_surface(#[trigger] derived[i]),
    ensures
        kept_edges(kept + derived) == kept,
    decreases derived.len(),
{
    let p = |e: Edge| !is_surface(e);
    if derived.len() == 0 {
        assert(kept + derived =~= kept);
        crate::engine::lemma_filter_all(kept, p);
    } else {
        lemma_kept_of_closed(kept, derived.drop_last());
        assert(kept + derived =~= (kept + derived.drop_last()).push(derived.last()));
        (kept + derived.drop_last()).lemma_filter_push(derived.last(), p);
    }
}

/// Every element of the filtered edges is kept.
pub proof fn lemma_kept_are_kept(edges: Seq<Edge>)
    ensures
        forall|i: int| 0 <= i < kept_edges(edges).len() ==> !is_surface(#[trigger] kept_edges(edges)[i]),
{
    let p = |e: Edge| !is_surface(e);
    assert forall|i: int| 0 <= i < kept_edges(edges).len() implies !is_surface(
        #[trigger] kept_edges(edges)[i],
    ) by {
        edges.lemma_filter_pred(p, i);
    }
}

/// The closure is idempotent: recomputing it over a graph whose edges it already
/// closed changes nothing.
pub proof fn lemma_surface_closure_idempotent(g: ProjectGraph, h: ProjectGraph)
    requires
        h.symbols == g.symbols,
        h.files == g.files,
        h.visibility_ladders == g.visibility_ladders,
        h.edges@ == closed_edges(g),
    ensures
        closed_edges(h) == closed_edges(g),
{
    let derived = promoted_in_order(g).map_values(|m: u32| surface_edge(world(g), m));
    lemma_kept_are_kept(g.edges@);
    assert forall|i: int| 0 <= i < derived.len() implies is_surface(#[trigger] derived[i]) by {}
    lemma_kept_of_closed(kept_edges(g.edges@), derived);
    assert(kept_edges(h.edges@) == kept_edges(g.edges@));
    assert(world(h) == world(g));
    assert(promoted(h) == promoted(g));
    assert(promoted_in_order(h) == promoted_in_order(g));
    assert(promoted_in_order(h).map_values(|m: u32| surface_edge(world(h), m)) =~= derived);
}

/// The ids below `i` of the symbols declared in file `f` under the name `nm`, in order.
pub open spec fn ids_named(w: SurfaceWorld, f: u32, nm: Seq<char>, i: int) -> Seq<u32>
    decreases i,
{
    if i <= 0 {
        Seq::empty()
    } else if w.symbols[i - 1].file.0 == f && w.symbols[i - 1].name@ == nm {
        ids_named(w, f, nm, i - 1).push((i - 1) as u32)
    } else {
        ids_named(w, f, nm, i - 1)
    }
}

/// The ids below `i` of the members whose container is `c`, in order.
pub open spec fn members_below(w: SurfaceWorld, c: int, i: int) -> Seq<u32>
    decreases i,
{
    if i <= 0 {
        Seq::empty()
    } else if container_of(w, i - 1) == Some(c) {
        members_below(w, c, i - 1).push((i - 1) as u32)
    } else {
        members_below(w, c, i - 1)
    }
}

proof fn lemma_container_none(w: SurfaceWorld, m: int)
    requires
        forall|j: int| !#[trigger] is_candidate(w, m, j),
    ensures
        container_of(w, m) is None,
{
    reveal(container_of);
}

/// What a name-indexed id list holds: the matching ids below `i`, in order.
#[verifier::rlimit(40)]
#[verifier::spinoff_prover]
pub proof fn lemma_ids_named(w: SurfaceWorld, f: u32, nm: Seq<char>, i: int)
    requires
        0 <= i <= w.symbols.len() <= 0xffff_ffff,
    ensures
        increasing(ids_named(w, f, nm, i)),
        forall|k: int| 0 <= k < ids_named(w, f, nm, i).len() ==> #[trigger] ids_named(w, f, nm, i)[k] < i,
        forall|j: int|
            0 <= j < i ==> (ids_named(w, f, nm, i).contains(j as u32) <==> (
            #[trigger] w.symbols[j].file.0 == f && w.symbols[j].name@ == nm)),
    decreases i,
{
    if i > 0 {
        lemma_ids_named(w, f, nm, i - 1);
        let prev = ids_named(w, f, nm, i - 1);
        if w.symbols[i - 1].file.0 == f && w.symbols[i - 1].name@ == nm {
            assert forall|j: int| 0 <= j < i implies (ids_named(w, f, nm, i).contains(j as u32) <==> (
            #[trigger] w.symbols[j].file.0 == f && w.symbols[j].name@ == nm)) by {
                if j < i - 1 {
                    if ids_named(w, f, nm, i).contains(j as u32) {
                        let k = choose|k: int| 0 <= k < ids_named(w, f, nm, i).len() && ids_named(w, f, nm, i)[k] == j as u32;
                        if k < prev.len() {
                            assert(prev.contains(j as u32));
                        }
                    }
                    if prev.contains(j as u32) {
                        let k = choose|k: int| 0 <= k < prev.len() && prev[k] == j as u32;
                        assert(ids_named(w, f, nm, i)[k] == j as u32);
                    }
                } else {
                    assert(ids_named(w, f, nm, i)[prev.len() as int] == (i - 1) as u32);
                }
            }
        } else {
            assert forall|j: int| 0 <= j < i implies (ids_named(w, f, nm, i).contains(j as u32) <==> (
            #[trigger] w.symbols[j].file.0 == f && w.symbols[j].name@ == nm)) by {
                if j == i - 1 {
                    if prev.contains(j as u32) {
                        let k = choose|k: int| 0 <= k < prev.len() && prev[k] == j as u32;
                        assert(prev[k] < i - 1);
                    }
                }
            }
        }
    }
}

/// The same facts for a container's member list.
#[verifier::rlimit(40)]
#[verifier::spinoff_prover]
pub proof fn lemma_members_below(w: SurfaceWorld, c: int, i: int)
    requires
        0 <= i <= w.symbols.len() <= 0xffff_ffff,
    ensures
        increasing(members_below(w, c, i)),
        forall|k: int| 0 <= k < members_below(w, c, i).len() ==> #[trigger] members_below(w, c, i)[k] < i,
        forall|j: int|
            0 <= j < i ==> (members_below(w, c, i).contains(j as u32) <==> #[trigger] container_of(w, j)
                == Some(c)),
    decreases i,
{
    if i > 0 {
        lemma_members_below(w, c, i - 1);
        let prev = members_below(w, c, i - 1);
        if container_of(w, i - 1) == Some(c) {
            assert forall|j: int| 0 <= j < i implies (members_below(w, c, i).contains(j as u32) <==> #[trigger] container_of(w, j)
                == Some(c)) by {
                if j < i - 1 {
                    if members_below(w, c, i).contains(j as u32) {
                        let k = choose|k: int| 0 <= k < members_below(w, c, i).len() && members_below(w, c, i)[k] == j as u32;
                        if k < prev.len() {
                            assert(prev.contains(j as u32));
                        }
                    }
                    if prev.contains(j as u32) {
                        let k = choose|k: int| 0 <= k < prev.len() && prev[k] == j as u32;
                        assert(members_below(w, c, i)[k] == j as u32);
                    }
                } else {
                    assert(members_below(w, c, i)[prev.len() as int] == (i - 1) as u32);
                }
            }
        } else {
            assert forall|j: int| 0 <= j < i implies (members_below(w, c, i).contains(j as u32) <==> #[trigger] container_of(w, j)
                == Some(c)) by {
                if j == i - 1 {
                    if prev.contains(j as u32) {
                        let k = choose|k: int| 0 <= k < prev.len() && prev[k] == j as u32;
                        assert(prev[k] < i - 1);
                    }
                }
            }
        }
    }
}

/// The candidate list of member `m`: every candidate, in order.
pub open spec fn candidate_list(w: SurfaceWorld, m: int, list: Seq<u32>) -> bool {
    &&& increasing(list)
    &&& forall|k: int| 0 <= k < list.len() ==> is_candidate(w, m, #[trigger] list[k] as int)
    &&& forall|j: int| #[trigger] is_candidate(w, m, j) ==> list.contains(j as u32)
}

#[verifier::rlimit(60)]
proof fn lemma_container_enclosing(w: SurfaceWorld, m: int, list: Seq<u32>, k: int)
    requires
        w.symbols.len() <= 0xffff_ffff,
        candidate_list(w, m, list),
        0 <= k < list.len(),
        encloses(w, list[k] as int, m),
        forall|p: int| 0 <= p < k ==> !encloses(w, #[trigger] list[p] as int, m),
    ensures
        container_of(w, m) == Some(list[k] as int),
{
    reveal(container_of);
    let c = list[k] as int;
    assert(is_candidate(w, m, c) && encloses(w, c, m));
    let j = choose|j: int|
        is_candidate(w, m, j) && encloses(w, j, m) && forall|q: int|
            0 <= q < j ==> !(#[trigger] is_candidate(w, m, q) && encloses(w, q, m));
    assert(j == c) by {
        if j < c {
            assert(list.contains(j as u32));
            let p = choose|p: int| 0 <= p < list.len() && list[p] == j as u32;
            if p >= k {
                if p > k {
                    assert(list[k] < list[p]);
                }
            }
            assert(!encloses(w, list[p] as int, m));
        }
        if j > c {
            assert(!(is_candidate(w, m, c) && encloses(w, c, m)));
        }
    }
}

#[verifier::rlimit(60)]
proof fn lemma_container_first(w: SurfaceWorld, m: int, list: Seq<u32>)
    requires
        w.symbols.len() <= 0xffff_ffff,
        candidate_list(w, m, list),
        list.len() > 0,
        forall|p: int| 0 <= p < list.len() ==> !encloses(w, #[trigger] list[p] as int, m),
    ensures
        container_of(w, m) == Some(list[0] as int),
{
    reveal(container_of);
    let c = list[0] as int;
    assert(is_candidate(w, m, c));
    assert(!exists|j: int| is_candidate(w, m, j) && encloses(w, j, m)) by {
        if exists|j: int| is_candidate(w, m, j) && encloses(w, j, m) {
            let j = choose|j: int| is_candidate(w, m, j) && encloses(w, j, m);
            assert(list.contains(j as u32));
            let p = choose|p: int| 0 <= p < list.len() && list[p] == j as u32;
            assert(!encloses(w, list[p] as int, m));
        }
    }
    let j = choose|j: int|
        is_candidate(w, m, j) && forall|q: int| 0 <= q < j ==> !#[trigger] is_candidate(w, m, q);
    assert(j == c) by {
        if j < c {
            assert(list.contains(j as u32));
            let p = choose|p: int| 0 <= p < list.len() && list[p] == j as u32;
            if p > 0 {
                assert(list[0] < list[p]);
            }
        }
        if j > c {
            assert(!is_candidate(w, m, c));
        }
    }
}

fn encloses_exec(g: &ProjectGraph, c: usize, m: usize) -> (r: bool)
    requires
        c < g.symbols@.len(),
        m < g.symbols@.len(),
    ensures
        r == encloses(world(*g), c as int, m as int),
{
    let cs = &g.symbols[c];
    let ms = &g.symbols[m];
    position_le(cs.span.start, ms.span.start) && position_le(ms.span.end, cs.span.end)
}

/// A `(file, name)` index holding, under each key with any declaration, every id
/// declared there, in order.
pub open spec fn index_complete(w: SurfaceWorld, m: FxHashMap<(u32, String), Vec<u32>>) -> bool {
    &&& forall|f: u32, nm: Seq<char>|
        #[trigger] name_lists(m).contains_key((f, nm)) ==> name_lists(m)[(f, nm)] == ids_named(
            w,
            f,
            nm,
            w.symbols.len() as int,
        ) && ids_named(w, f, nm, w.symbols.len() as int).len() > 0
    &&& forall|f: u32, nm: Seq<char>|
        !#[trigger] name_lists(m).contains_key((f, nm)) ==> ids_named(
            w,
            f,
            nm,
            w.symbols.len() as int,
        ).len() == 0
}

/// The container of member `i`, found through the `(file, name)` index.
fn find_container(graph: &ProjectGraph, by_name: &FxHashMap<(u32, String), Vec<u32>>, i: usize) -> (r: Option<usize>)
    requires
        symbols_well_formed(*graph),
        i < graph.symbols@.len(),
        index_complete(world(*graph), *by_name),
    ensures
        match r {
            Some(c) => c < graph.symbols@.len() && container_of(world(*graph), i as int) == Some(c as int),
            None => container_of(world(*graph), i as int) is None,
        },
{
    let ghost w = world(*graph);
    let n = graph.symbols.len();
    let sym = &graph.symbols[i];
    let owner = match &sym.member_of {
        None => {
            proof {
                lemma_container_none(w, i as int);
            }
            return None;
        },
        Some(owner) => owner,
    };
    proof {
        lemma_ids_named(w, sym.file.0, owner@, n as int);
    }
    let list = match name_lists_get(by_name, sym.file.0, owner.as_str()) {
        None => {
            proof {
                assert forall|j: int| !#[trigger] is_candidate(w, i as int, j) by {
                    if is_candidate(w, i as int, j) {
                        assert(ids_named(w, sym.file.0, owner@, n as int).contains(j as u32));
                    }
                }
                lemma_container_none(w, i as int);
            }
            return None;
        },
        Some(list) => list,
    };
    proof {
        assert forall|j: int| #[trigger] is_candidate(w, i as int, j) implies list@.contains(j as u32) by {}
        assert forall|k: int| 0 <= k < list@.len() implies is_candidate(w, i as int, #[trigger] list@[k] as int) by {
            assert(list@.contains(list@[k]));
        }
    }
    let mut k: usize = 0;
    while k < list.len() && !encloses_exec(graph, list[k] as usize, i)
        invariant
            w == world(*graph),
            n == graph.symbols@.len(),
            i < n,
            candidate_list(w, i as int, list@),
            k <= list@.len(),
            forall|p: int| 0 <= p < k ==> !encloses(w, #[trigger] list@[p] as int, i as int),
        decreases list@.len() - k,
    {
        k = k + 1;
    }
    if k < list.len() {
        proof {
            lemma_container_enclosing(w, i as int, list@, k as int);
            assert(list@.contains(list@[k as int]));
        }
        Some(list[k] as usize)
    } else {
        proof {
            lemma_container_first(w, i as int, list@);
            assert(list@.contains(list@[0]));
        }
        Some(list[0] as usize)
    }
}

/// A member index: under each container, its members in id order; no key for a
/// container without members.
pub open spec fn indexes_members(w: SurfaceWorld, r: FxHashMap<u32, Vec<u32>>) -> bool {
    &&& forall|c: u32|
        #[trigger] r@.contains_key(c) ==> r@[c]@ == members_below(w, c as int, w.symbols.len() as int)
    &&& forall|c: u32|
        !#[trigger] r@.contains_key(c) ==> members_below(w, c as int, w.symbols.len() as int).len() == 0
}

/// Members grouped under their same-file container — for a member, among the
/// declarations of its file named like its `member_of`, the first whose span encloses
/// it, else the first of them. Each list holds its members in id order.
pub fn surface_member_index(graph: &ProjectGraph) -> (r: FxHashMap<u32, Vec<u32>>)
    requires
        symbols_well_formed(*graph),
    ensures
        indexes_members(world(*graph), r),
{
    let ghost w = world(*graph);
    let n = graph.symbols.len();
    let mut by_name = name_lists_new();
    let mut i: usize = 0;
    while i < n
        invariant
            w == world(*graph),
            n == graph.symbols@.len(),
            symbols_well_formed(*graph),
            i <= n,
            forall|f: u32, nm: Seq<char>|
                #[trigger] name_lists(by_name).contains_key((f, nm)) ==> name_lists(by_name)[(
                    f,
                    nm,
                )] == ids_named(w, f, nm, i as int) && ids_named(w, f, nm, i as int).len() > 0,
            forall|f: u32, nm: Seq<char>|
                !#[trigger] name_lists(by_name).contains_key((f, nm)) ==> ids_named(
                    w,
                    f,
                    nm,
                    i as int,
                ).len() == 0,
        decreases n - i,
    {
        let sym = &graph.symbols[i];
        name_lists_push(&mut by_name, sym.file.0, sym.name.as_str(), i as u32);
        proof {
            assert forall|f: u32, nm: Seq<char>| #[trigger]
                name_lists(by_name).contains_key((f, nm)) implies name_lists(by_name)[(f, nm)]
                == ids_named(w, f, nm, i + 1) && ids_named(w, f, nm, i + 1).len() > 0 by {}
        }
        i = i + 1;
    }
    let mut members = id_lists_new();
    let mut i: usize = 0;
    while i < n
        invariant
            w == world(*graph),
            n == graph.symbols@.len(),
            symbols_well_formed(*graph),
            i <= n,
            index_complete(w, by_name),
            forall|c: u32|
                #[trigger] members@.contains_key(c) ==> members@[c]@ == members_below(
                    w,
                    c as int,
                    i as int,
                ),
            forall|c: u32|
                !#[trigger] members@.contains_key(c) ==> members_below(w, c as int, i as int).len()
                    == 0,
        decreases n - i,
    {
        let container = find_container(graph, &by_name, i);
        match container {
            Some(c) => {
                id_lists_push(&mut members, c as u32, i as u32);
            },
            None => {},
        }
        proof {
            assert forall|c: u32| #[trigger] members@.contains_key(c) implies members@[c]@
                == members_below(w, c as int, i + 1) by {}
            assert forall|c: u32| !#[trigger] members@.contains_key(c) implies members_below(
                w,
                c as int,
                i + 1,
            ).len() == 0 by {}
        }
        i = i + 1;
    }
    members
}

/// Whether a declaration's rung can travel through a re-export chain to outside its
/// package. No ladder, or an index the ladder does not cover, falls back to `true`:
/// for a binary-visibility language the `exported` bit alone decides.
pub fn rung_surface_transitive(ladder: Option<&[VisibilityRung]>, vis: VisibilityLevel) -> (r: bool)
    ensures
        r == (match ladder {
            Some(l) => vis.0 >= l@.len() || l@[vis.0 as int].surface_transitive,
            None => true,
        }),
{
    match ladder {
        Some(l) => {
            let i = vis.0 as usize;
            if i < l.len() {
                l[i].surface_transitive
            } else {
                true
            }
        },
        None => true,
    }
}

/// The index of the last ladder declared for `language`.
pub(crate) fn last_ladder_index(table: &Vec<(String, Vec<VisibilityRung>)>, language: &str) -> (r: Option<usize>)
    ensures
        match r {
            Some(i) => i < table@.len() && last_ladder(table@, language@) == Some(
                table@[i as int].1@,
            ),
            None => last_ladder(table@, language@) is None,
        },
{
    let mut found: Option<usize> = None;
    let mut i: usize = 0;
    while i < table.len()
        invariant
            i <= table@.len(),
            match found {
                Some(j) => j < i && table@[j as int].0@ == language@ && forall|k: int|
                    j < k < i ==> #[trigger] table@[k].0@ != language@,
                None => forall|k: int| 0 <= k < i ==> #[trigger] table@[k].0@ != language@,
            },
        decreases table@.len() - i,
    {
        if str_eq(table[i].0.as_str(), language) {
            found = Some(i);
        }
        i = i + 1;
    }
    proof {
        if let Some(j) = found {
            let t = table@;
            assert(0 <= j < t.len() && t[j as int].0@ == language@ && forall|k: int|
                j < k < t.len() ==> #[trigger] t[k].0@ != language@);
            let c = choose|i: int|
                0 <= i < t.len() && t[i].0@ == language@ && forall|k: int|
                    i < k < t.len() ==> #[trigger] t[k].0@ != language@;
            assert(c == j) by {
                if c < j {
                    assert(t[j as int].0@ != language@);
                }
                if j < c {
                    assert(t[c].0@ != language@);
                }
            }
        }
    }
    found
}

/// One membership test of the fixpoint: not already in, exported, and on a
/// surface-transitive rung of its language's ladder.
pub fn member_joins_surface(graph: &ProjectGraph, m: u32, surface: &FxHashSet<u32>) -> (r: bool)
    requires
        symbols_well_formed(*graph),
        (m as int) < graph.symbols@.len(),
    ensures
        r == (!surface@.contains(m) && may_join(world(*graph), m as int)),
{
    let sym = &graph.symbols[m as usize];
    let ladder: Option<&[VisibilityRung]> = match &graph.files[sym.file.0 as usize].language {
        Some(l) => match last_ladder_index(&graph.visibility_ladders, l.as_str()) {
            Some(i) => Some(graph.visibility_ladders[i].1.as_slice()),
            None => None,
        },
        None => None,
    };
    !id_set_contains(surface, m) && sym.exported && rung_surface_transitive(ladder, sym.visibility)
}

/// Every joinable member below the symbol count whose container is `c` is in `s`.
pub open spec fn settled(w: SurfaceWorld, s: Set<u32>, c: u32) -> bool {
    forall|m: u32|
        (m as int) < w.symbols.len() && #[trigger] container_of(w, m as int) == Some(c as int)
            && may_join(w, m as int) ==> s.contains(m)
}

proof fn lemma_settled_grows(w: SurfaceWorld, s: Set<u32>, t: Set<u32>, c: u32)
    requires
        settled(w, s, c),
        s.subset_of(t),
    ensures
        settled(w, t, c),
{
}

proof fn lemma_settled_closed(w: SurfaceWorld, s: Set<u32>)
    requires
        forall|c: u32| #[trigger] s.contains(c) ==> settled(w, s, c),
    ensures
        closed(w, s),
{
    assert forall|c: u32, m: u32|
        #![trigger s.contains(c), container_of(w, m as int)]
        s.contains(c) && (m as int) < w.symbols.len() && container_of(w, m as int) == Some(c as int)
            && may_join(w, m as int) implies s.contains(m) by {
        assert(settled(w, s, c));
    }
}

/// A closed set holding the seeds holds their whole closure.
proof fn lemma_closure_least(w: SurfaceWorld, seed: Set<u32>, s: Set<u32>)
    requires
        closed(w, s),
        seed.subset_of(s),
    ensures
        closure(w, seed).subset_of(s),
{
    assert forall|x: u32| closure(w, seed).contains(x) implies s.contains(x) by {}
}

/// A member whose container is in the closure, and that may join, is in it too.
proof fn lemma_closure_step(w: SurfaceWorld, seed: Set<u32>, c: u32, m: u32)
    requires
        closure(w, seed).contains(c),
        (m as int) < w.symbols.len(),
        container_of(w, m as int) == Some(c as int),
        may_join(w, m as int),
    ensures
        closure(w, seed).contains(m),
{
    assert forall|t: Set<u32>| closed(w, t) && seed.subset_of(t) implies #[trigger] t.contains(m) by {
        assert(t.contains(c));
    }
}

/// The fixpoint: a member of a surface symbol joins the surface when its own rung is
/// surface-transitive; nested containers cascade. The result holds the symbols the
/// closure adds to the seeds, in increasing order.
pub fn propagate_surface_members(
    graph: &ProjectGraph,
    surface: FxHashSet<u32>,
    members_of: &FxHashMap<u32, Vec<u32>>,
) -> (r: Vec<u32>)
    requires
        symbols_well_formed(*graph),
        indexes_members(world(*graph), *members_of),
    ensures
        increasing(r@),
        r@.to_set() == closure(world(*graph), surface@).difference(surface@),
        forall|k: int| 0 <= k < r@.len() ==> (#[trigger] r@[k] as int) < graph.symbols@.len(),
{
    let ghost w = world(*graph);
    let ghost seed = surface@;
    let n = graph.symbols.len();
    let mut surface = surface;
    let mut queue = id_set_elements(&surface);
    let ghost unsorted = queue@;
    sort_ids(&mut queue);
    proof {
        lemma_multiset_same_set(unsorted, queue@);
        assert forall|x: u32| #[trigger] seed.contains(x) implies closure(w, seed).contains(x) by {}
    }
    let mut emitted: Vec<u32> = Vec::new();
    proof {
        assert(emitted@.to_set() =~= surface@.difference(seed));
        assert forall|k: int| 0 <= k < queue@.len() implies surface@.contains(#[trigger] queue@[k]) by {
            assert(queue@.to_set().contains(queue@[k]));
        }
        assert forall|c: u32| #[trigger] surface@.contains(c) && !queue@.contains(c) implies settled(
            w,
            surface@,
            c,
        ) by {
            assert(queue@.to_set().contains(c));
        }
    }
    while queue.len() > 0
        invariant
            w == world(*graph),
            n == graph.symbols@.len(),
            symbols_well_formed(*graph),
            indexes_members(w, *members_of),
            seed.subset_of(surface@),
            forall|x: u32| #[trigger] surface@.contains(x) ==> closure(w, seed).contains(x),
            emitted@.no_duplicates(),
            emitted@.to_set() == surface@.difference(seed),
            emitted@.len() <= n,
            forall|k: int| 0 <= k < emitted@.len() ==> (#[trigger] emitted@[k] as int) < n,
            forall|k: int| 0 <= k < queue@.len() ==> surface@.contains(#[trigger] queue@[k]),
            forall|c: u32| #[trigger]
                surface@.contains(c) && !queue@.contains(c) ==> settled(w, surface@, c),
        decreases n - emitted@.len(), queue@.len(),
    {
        let ghost q0 = queue@;
        let ghost e0 = emitted@.len();
        let c = queue.pop().unwrap();
        proof {
            assert(q0[q0.len() - 1] == c);
            assert(surface@.contains(c));
            assert forall|c2: u32| #[trigger]
                surface@.contains(c2) && !queue@.contains(c2) && c2 != c implies settled(
                w,
                surface@,
                c2,
            ) by {
                if q0.contains(c2) {
                    let k = choose|k: int| 0 <= k < q0.len() && q0[k] == c2;
                    if k < q0.len() - 1 {
                        assert(queue@[k] == c2);
                    }
                }
            }
        }
        let ghost members = members_below(w, c as int, n as int);
        proof {
            lemma_members_below(w, c as int, n as int);
        }
        match id_lists_get(members_of, c) {
            None => {
                proof {
                    assert forall|m: u32|
                        (m as int) < n && #[trigger] container_of(w, m as int) == Some(c as int)
                            && may_join(w, m as int) implies surface@.contains(m) by {
                        assert(members.contains(m));
                    }
                }
            },
            Some(list) => {
                let mut k: usize = 0;
                while k < list.len()
                    invariant
                        w == world(*graph),
                        n == graph.symbols@.len(),
                        symbols_well_formed(*graph),
                        list@ == members,
                        increasing(members),
                        forall|p: int| 0 <= p < members.len() ==> (#[trigger] members[p] as int) < n,
                        forall|j: int|
                            0 <= j < n ==> (members.contains(j as u32) <==> #[trigger] container_of(
                                w,
                                j,
                            ) == Some(c as int)),
                        k <= list@.len(),
                        surface@.contains(c),
                        seed.subset_of(surface@),
                        forall|x: u32| #[trigger] surface@.contains(x) ==> closure(w, seed).contains(x),
                        emitted@.no_duplicates(),
                        emitted@.to_set() == surface@.difference(seed),
                        forall|k: int| 0 <= k < emitted@.len() ==> (#[trigger] emitted@[k] as int) < n,
                        e0 <= emitted@.len(),
                        queue@.len() + 1 + e0 == q0.len() + emitted@.len(),
                        forall|k: int| 0 <= k < queue@.len() ==> surface@.contains(#[trigger] queue@[k]),
                        forall|c2: u32| #[trigger]
                            surface@.contains(c2) && !queue@.contains(c2) && c2 != c ==> settled(
                                w,
                                surface@,
                                c2,
                            ),
                        forall|p: int|
                            0 <= p < k ==> may_join(w, #[trigger] members[p] as int) ==> surface@.contains(
                                members[p],
                            ),
                    decreases list@.len() - k,
                {
                    let m = list[k];
                    if member_joins_surface(graph, m, &surface) {
                        let ghost s0 = surface@;
                        let ghost e1 = emitted@;
                        let ghost q1 = queue@;
                        proof {
                            assert(members.contains(m));
                            lemma_closure_step(w, seed, c, m);
                            assert(!emitted@.to_set().contains(m));
                        }
                        id_set_insert(&mut surface, m);
                        emitted.push(m);
                        queue.push(m);
                        proof {
                            assert(emitted@ == e1.push(m));
                            assert(emitted@.to_set() =~= surface@.difference(seed)) by {
                                assert forall|x: u32| emitted@.to_set().contains(x) implies surface@.difference(seed).contains(x) by {
                                    let i = choose|i: int| 0 <= i < emitted@.len() && emitted@[i] == x;
                                    if i < e1.len() {
                                        assert(e1[i] == x);
                                        assert(e1.to_set().contains(x));
                                    }
                                }
                                assert forall|x: u32| surface@.difference(seed).contains(x) implies emitted@.to_set().contains(x) by {
                                    if x != m {
                                        assert(e1.to_set().contains(x));
                                        let i = choose|i: int| 0 <= i < e1.len() && e1[i] == x;
                                        assert(emitted@[i] == x);
                                    } else {
                                        assert(emitted@[emitted@.len() - 1] == m);
                                    }
                                }
                            }
                            assert forall|c2: u32| #[trigger]
                                surface@.contains(c2) && !queue@.contains(c2) && c2 != c implies settled(
                                w,
                                surface@,
                                c2,
                            ) by {
                                assert(queue@[queue@.len() - 1] == m);
                                if c2 != m {
                                    assert(s0.contains(c2));
                                    assert(queue@ == q1.push(m));
                                    assert(!q1.contains(c2)) by {
                                        if q1.contains(c2) {
                                            let i = choose|i: int| 0 <= i < q1.len() && q1[i] == c2;
                                            assert(queue@[i] == c2);
                                        }
                                    }
                                    assert(settled(w, s0, c2));
                                    lemma_settled_grows(w, s0, surface@, c2);
                                }
                            }
                        }
                    }
                    k = k + 1;
                }
                proof {
                    assert forall|m: u32|
                        (m as int) < n && #[trigger] container_of(w, m as int) == Some(c as int)
                            && may_join(w, m as int) implies surface@.contains(m) by {
                        assert(members.contains(m));
                        let p = choose|p: int| 0 <= p < members.len() && members[p] == m;
                    }
                }
            },
        }
        proof {
            assert(settled(w, surface@, c));
            crate::seqs::lemma_distinct_ids_bounded(emitted@, n as u32);
        }
    }
    proof {
        assert forall|c: u32| #[trigger] surface@.contains(c) implies settled(w, surface@, c) by {}
        lemma_settled_closed(w, surface@);
        lemma_closure_least(w, seed, surface@);
        assert(surface@ =~= closure(w, seed));
    }
    let ghost unsorted = emitted@;
    sort_ids(&mut emitted);
    proof {
        lemma_multiset_same_set(unsorted, emitted@);
        lemma_multiset_no_duplicates(unsorted, emitted@);
        lemma_ascending_distinct(emitted@);
        assert forall|k: int| 0 <= k < emitted@.len() implies (#[trigger] emitted@[k] as int) < n by {
            assert(emitted@.to_set().contains(emitted@[k]));
            assert(unsorted.to_set().contains(emitted@[k]));
        }
    }
    emitted
}

/// The edges that are not the closure's own, in order.
fn keep_non_surface(edges: Vec<Edge>) -> (r: Vec<Edge>)
    ensures
        r@ == kept_edges(edges@),
{
    let ghost input = edges@;
    let ghost pred = |e: Edge| !is_surface(e);
    let mut kept: Vec<Edge> = Vec::new();
    let mut rest = crate::seqs::reversed(edges);
    proof {
        assert(input.take(0) =~= Seq::<Edge>::empty());
        reveal(Seq::filter);
    }
    while rest.len() > 0
        invariant
            pred == (|e: Edge| !is_surface(e)),
            rest@.len() <= input.len(),
            forall|k: int| 0 <= k < rest@.len() ==> rest@[k] == input[input.len() - 1 - k],
            kept@ == input.take(input.len() - rest@.len()).filter(pred),
        decreases rest@.len(),
    {
        let ghost done = input.len() - rest@.len();
        let e = rest.pop().unwrap();
        proof {
            assert(e == input[done]);
            assert(input.take(done + 1) =~= input.take(done).push(e));
            input.take(done).lemma_filter_push(e, pred);
        }
        let surface_own = match e.source {
            Provenance::Surface => true,
            _ => false,
        };
        if !surface_own {
            kept.push(e);
        }
    }
    proof {
        assert(input.take(input.len() as int) =~= input);
    }
    kept
}

/// The symbols the edges root as production surface, and whether there is any.
fn production_seeds(edges: &Vec<Edge>) -> (r: (FxHashSet<u32>, bool))
    ensures
        r.0@ == seeds(edges@),
        r.1 == !seeds(edges@).is_empty(),
{
    let mut set = id_set_new();
    let mut any = false;
    let mut i: usize = 0;
    while i < edges.len()
        invariant
            i <= edges@.len(),
            forall|s: u32|
                #[trigger] set@.contains(s) <==> exists|j: int|
                    0 <= j < i && production_root(edges@[j]) == Some(s),
            any == !set@.is_empty(),
        decreases edges@.len() - i,
    {
        match edges[i].kind {
            EdgeKind::Root { kind: RootKind::Production, target: NodeRef::Symbol(s) } => {
                let id = s.0;
                id_set_insert(&mut set, id);
                any = true;
                proof {
                    assert(production_root(edges@[i as int]) == Some(id));
                    assert(set@.contains(id));
                }
            },
            _ => {},
        }
        proof {
            assert forall|s: u32|
                #[trigger] set@.contains(s) <==> exists|j: int|
                    0 <= j < i + 1 && production_root(edges@[j]) == Some(s) by {
                if exists|j: int| 0 <= j < i + 1 && production_root(edges@[j]) == Some(s) {
                    let j = choose|j: int| 0 <= j < i + 1 && production_root(edges@[j]) == Some(s);
                    if j < i {
                        assert(exists|j: int| 0 <= j < i && production_root(edges@[j]) == Some(s));
                    }
                }
            }
        }
        i = i + 1;
    }
    proof {
        assert(set@ =~= seeds(edges@));
    }
    (set, any)
}

/// Whether some symbol is declared as a member of another.
fn any_member(graph: &ProjectGraph) -> (r: bool)
    ensures
        r == exists|i: int| 0 <= i < graph.symbols@.len() && (#[trigger] graph.symbols@[i]).member_of is Some,
{
    let mut i: usize = 0;
    while i < graph.symbols.len()
        invariant
            i <= graph.symbols@.len(),
            forall|k: int| 0 <= k < i ==> (#[trigger] graph.symbols@[k]).member_of is None,
        decreases graph.symbols@.len() - i,
    {
        if graph.symbols[i].member_of.is_some() {
            return true;
        }
        i = i + 1;
    }
    false
}

/// With nothing promoted, the closure leaves the edges it keeps and adds none.
proof fn lemma_nothing_promoted(g: ProjectGraph)
    requires
        promoted(g) == Set::<u32>::empty(),
    ensures
        closed_edges(g) == kept_edges(g.edges@),
{
    let e = Seq::<u32>::empty();
    assert(increasing(e) && e.to_set() == promoted(g)) by {
        assert(e.to_set() =~= Set::<u32>::empty());
    }
    lemma_increasing_unique(e, promoted_in_order(g));
    assert(kept_edges(g.edges@) + Seq::<Edge>::empty() =~= kept_edges(g.edges@));
}

/// Strips every edge the closure derived and recomputes them from the current graph:
/// every symbol rooted as production surface seeds it, and each member the closure
/// adds is rooted at the derived tier, after the kept edges, in member order.
pub fn recompute_surface_closure(graph: &mut ProjectGraph)
    requires
        symbols_well_formed(*old(graph)),
    ensures
        final(graph).edges@ == closed_edges(*old(graph)),
        *final(graph) == (ProjectGraph { edges: final(graph).edges, ..*old(graph) }),
{
    let ghost g0 = *graph;
    let ghost w = world(*graph);
    let mut edges: Vec<Edge> = Vec::new();
    std::mem::swap(&mut edges, &mut graph.edges);
    graph.edges = keep_non_surface(edges);
    let ghost kept = graph.edges@;
    let (surface, any_seed) = production_seeds(&graph.edges);
    let ghost seed = surface@;
    assert(world(*graph) == w);
    if !any_seed || !any_member(graph) {
        proof {
            if !any_seed {
                assert(closed(w, Set::<u32>::empty()));
                lemma_closure_least(w, seed, Set::<u32>::empty());
            } else {
                assert forall|m: int| 0 <= m < w.symbols.len() implies container_of(w, m) is None by {
                    assert(w.symbols[m].member_of is None);
                    assert forall|j: int| !#[trigger] is_candidate(w, m, j) by {}
                    lemma_container_none(w, m);
                }
                assert(closed(w, seed));
                lemma_closure_least(w, seed, seed);
            }
            assert(promoted(g0) =~= Set::<u32>::empty());
            lemma_nothing_promoted(g0);
        }
        return;
    }
    let members_of = surface_member_index(graph);
    let emitted = propagate_surface_members(graph, surface, &members_of);
    proof {
        assert(emitted@.to_set() == promoted(g0));
        lemma_increasing_unique(emitted@, promoted_in_order(g0));
    }
    let mut i: usize = 0;
    while i < emitted.len()
        invariant
            w == world(*graph),
            i <= emitted@.len(),
            forall|k: int| 0 <= k < emitted@.len() ==> (#[trigger] emitted@[k] as int) < w.symbols.len(),
            graph.edges@ == kept + emitted@.take(i as int).map_values(|m: u32| surface_edge(w, m)),
            *graph == (ProjectGraph { edges: graph.edges, ..g0 }),
        decreases emitted@.len() - i,
    {
        let m = emitted[i];
        let span = graph.symbols[m as usize].span;
        let owner = graph.symbols[m as usize].file;
        let edge = Edge {
            kind: EdgeKind::Root { kind: RootKind::Production, target: NodeRef::Symbol(SymbolId(m)) },
            confidence: Confidence::Probable,
            source: Provenance::Surface,
            span: Some(span),
            owner: owner,
        };
        graph.edges.push(edge);
        proof {
            assert(emitted@.take(i + 1) =~= emitted@.take(i as int).push(m));
            assert(emitted@.take(i + 1).map_values(|m: u32| surface_edge(w, m)) =~= emitted@.take(
                i as int,
            ).map_values(|m: u32| surface_edge(w, m)).push(surface_edge(w, m)));
        }
        i = i + 1;
    }
    proof {
        assert(emitted@.take(emitted@.len() as int) =~= emitted@);
    }
}

} // verus!
