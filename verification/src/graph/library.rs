//! Library-surface expansion. A package-surface file's whole-surface re-exports
//! (`pub mod x;` in Rust, `export * from './x'` in a published package: re-exports with
//! no named bindings) extend the surface into the files they name, transitively, to a
//! fixpoint. Each expansion roots the target as production, owned by the re-exporting
//! file; without it a library whose API lives behind a public module tree reads as dead.

use vstd::prelude::*;

use rustc_hash::FxHashMap;

use crate::fx::{confidences_get, confidences_insert, confidences_keys};
use crate::seqs::{lemma_distinct_ids_bounded, sort_ids};
use crate::text::owned;
use crate::vocab::{Confidence, Edge, EdgeKind, FileId, NodeRef, Provenance, RootKind, Span};

verus! {

/// A claimed file's whole-surface re-exports, each resolved to the graph file it names,
/// with the span of the re-export, and the coordinate of the adapter that claimed it.
#[derive(Debug, Clone)]
pub struct SurfaceReexports {
    pub adapter: String,
    pub targets: Vec<(u32, Span)>,
}

/// The whole-surface re-exports of file `f`; none for an unclaimed file.
pub open spec fn reexports_of(reexports: Seq<Option<SurfaceReexports>>, f: u32) -> Seq<(u32, Span)> {
    if f < reexports.len() {
        match reexports[f as int] {
            Some(r) => r.targets@,
            None => Seq::empty(),
        }
    } else {
        Seq::empty()
    }
}

/// Whether every file a member of `files` re-exports whole is a member too.
pub open spec fn surface_closed(files: Set<u32>, reexports: Seq<Option<SurfaceReexports>>) -> bool {
    forall|f: u32, k: int|
        files.contains(f) && 0 <= k < reexports_of(reexports, f).len() ==> files.contains(
            #[trigger] reexports_of(reexports, f)[k].0,
        )
}

/// Whether edge `e` is the expansion of re-export `k` of file `f`: a production root on
/// the re-exported file, at the re-export's span, owned by `f` under its adapter.
pub open spec fn expansion_edge(e: Edge, reexports: Seq<Option<SurfaceReexports>>, f: u32, k: int) -> bool {
    &&& f < reexports.len()
    &&& reexports[f as int] is Some
    &&& 0 <= k < reexports_of(reexports, f).len()
    &&& e.kind == EdgeKind::Root { kind: RootKind::Production, target: NodeRef::File(FileId(reexports_of(reexports, f)[k].0)) }
    &&& e.span == Some(reexports_of(reexports, f)[k].1)
    &&& e.owner == FileId(f)
    &&& e.source matches Provenance::Adapter(a) && a@ == reexports[f as int]->0.adapter@
}

/// Whether the `j`-th expansion edge after `base` is the expansion of the re-export
/// `trace[j]` names, owned by a rooted file, onto a rooted file at least as sure as it.
pub open spec fn traced(
    edges: Seq<Edge>,
    base: int,
    roots: Map<u32, Confidence>,
    reexports: Seq<Option<SurfaceReexports>>,
    trace: Seq<(u32, int)>,
    j: int,
) -> bool {
    let f = trace[j].0;
    let k = trace[j].1;
    &&& roots.contains_key(f)
    &&& roots.contains_key(reexports_of(reexports, f)[k].0)
    &&& expansion_edge(edges[base + j], reexports, f, k)
    &&& edges[base + j].confidence.spec_rank() <= roots[reexports_of(reexports, f)[k].0].spec_rank()
}

/// Whether the edges after `base` are, one for one, the expansions `trace` names, and
/// `trace` names every re-export of every rooted file.
pub open spec fn expansions_of(
    edges: Seq<Edge>,
    base: int,
    roots: Map<u32, Confidence>,
    reexports: Seq<Option<SurfaceReexports>>,
    trace: Seq<(u32, int)>,
) -> bool {
    &&& trace.len() == edges.len() - base
    &&& forall|j: int| 0 <= j < trace.len() ==> #[trigger] traced(edges, base, roots, reexports, trace, j)
    &&& forall|f: u32, k: int|
        roots.contains_key(f) && reexports[f as int] is Some && 0 <= k < reexports_of(reexports, f).len()
            ==> #[trigger] trace.contains((f, k))
}

/// Whether `roots2` holds every file of `roots1`, each at least as sure.
pub open spec fn grown(roots1: Map<u32, Confidence>, roots2: Map<u32, Confidence>) -> bool {
    forall|t: u32| #[trigger] roots1.contains_key(t) ==> roots2.contains_key(t) && roots1[t].spec_rank() <= roots2[t].spec_rank()
}

proof fn lemma_traced_kept(
    e1: Seq<Edge>,
    e2: Seq<Edge>,
    base: int,
    r1: Map<u32, Confidence>,
    r2: Map<u32, Confidence>,
    reexports: Seq<Option<SurfaceReexports>>,
    t1: Seq<(u32, int)>,
    t2: Seq<(u32, int)>,
)
    requires
        0 <= base,
        base + t1.len() <= e1.len() <= e2.len(),
        t1.len() <= t2.len(),
        forall|q: int| 0 <= q < e1.len() ==> e2[q] == e1[q],
        forall|j: int| 0 <= j < t1.len() ==> t2[j] == t1[j],
        grown(r1, r2),
        forall|j: int| 0 <= j < t1.len() ==> #[trigger] traced(e1, base, r1, reexports, t1, j),
    ensures
        forall|j: int| 0 <= j < t1.len() ==> #[trigger] traced(e2, base, r2, reexports, t2, j),
{
    assert forall|j: int| 0 <= j < t1.len() implies #[trigger] traced(e2, base, r2, reexports, t2, j) by {
        assert(traced(e1, base, r1, reexports, t1, j));
        let f = t1[j].0;
        let k = t1[j].1;
        assert(r1.contains_key(f));
        assert(r1.contains_key(reexports_of(reexports, f)[k].0));
    }
}

proof fn lemma_contains_after_push<A>(s: Seq<A>, x: A, y: A)
    requires
        s.contains(y),
    ensures
        s.push(x).contains(y),
{
    let w = choose|w: int| 0 <= w < s.len() && s[w] == y;
    assert(s.push(x)[w] == y);
}

/// Whether `e` roots file `t` as production.
pub open spec fn roots_file(e: Edge, t: u32) -> bool {
    e.kind == EdgeKind::Root { kind: RootKind::Production, target: NodeRef::File(FileId(t)) }
}

/// The surer of a held confidence (if any) and `c`; the held one on a tie.
pub open spec fn surer(held: Option<Confidence>, c: Confidence) -> Confidence {
    match held {
        Some(h) => if h.spec_rank() >= c.spec_rank() {
            h
        } else {
            c
        },
        None => c,
    }
}

/// A map's entry for `t`, if any.
pub open spec fn entry(m: Map<u32, Confidence>, t: u32) -> Option<Confidence> {
    if m.contains_key(t) {
        Some(m[t])
    } else {
        None
    }
}

/// File `t`'s confidence as a library root just before edge `q`: its starting
/// confidence (if it is a starting root), raised to that of each expansion onto it
/// among the edges from `base` up to `q`.
pub open spec fn held_before(start: Map<u32, Confidence>, edges: Seq<Edge>, base: int, t: u32, q: int) -> Option<
    Confidence,
>
    decreases q - base,
{
    if q <= base {
        entry(start, t)
    } else {
        let before = held_before(start, edges, base, t, q - 1);
        if roots_file(edges[q - 1], t) {
            Some(surer(before, edges[q - 1].confidence))
        } else {
            before
        }
    }
}

proof fn lemma_held_extends(start: Map<u32, Confidence>, e1: Seq<Edge>, e2: Seq<Edge>, base: int, t: u32, q: int)
    requires
        0 <= base,
        q <= e1.len() <= e2.len(),
        forall|x: int| 0 <= x < e1.len() ==> e2[x] == e1[x],
    ensures
        held_before(start, e2, base, t, q) == held_before(start, e1, base, t, q),
    decreases q - base,
{
    if q > base {
        lemma_held_extends(start, e1, e2, base, t, q - 1);
    }
}

/// One expansion appended: the held confidences after it follow the roots map, and it
/// carries what its owner held.
proof fn lemma_expansion_pushed(
    start: Map<u32, Confidence>,
    prev: Seq<Edge>,
    e: Edge,
    base: int,
    prev_roots: Map<u32, Confidence>,
    roots: Map<u32, Confidence>,
    target: u32,
)
    requires
        0 <= base <= prev.len(),
        roots_file(e, target),
        forall|t: u32| #[trigger] held_before(start, prev, base, t, prev.len() as int) == entry(prev_roots, t),
        roots == prev_roots.insert(target, surer(entry(prev_roots, target), e.confidence)),
        forall|q: int|
            base <= q < prev.len() ==> Some((#[trigger] prev[q]).confidence) == held_before(
                start,
                prev,
                base,
                prev[q].owner.0,
                q,
            ),
        entry(prev_roots, e.owner.0) == Some(e.confidence),
    ensures
        forall|t: u32| #[trigger] held_before(start, prev.push(e), base, t, prev.len() as int + 1) == entry(roots, t),
        forall|q: int|
            base <= q < prev.len() + 1 ==> Some((#[trigger] prev.push(e)[q]).confidence) == held_before(
                start,
                prev.push(e),
                base,
                prev.push(e)[q].owner.0,
                q,
            ),
{
    let next = prev.push(e);
    assert forall|t: u32| #[trigger] held_before(start, next, base, t, prev.len() as int + 1) == entry(roots, t) by {
        lemma_held_extends(start, prev, next, base, t, prev.len() as int);
        assert(next[prev.len() as int] == e);
        if t != target {
            assert(!roots_file(e, t));
        }
    }
    assert forall|q: int| base <= q < prev.len() + 1 implies Some((#[trigger] next[q]).confidence) == held_before(
        start,
        next,
        base,
        next[q].owner.0,
        q,
    ) by {
        lemma_held_extends(start, prev, next, base, next[q].owner.0, q);
        if q < prev.len() {
            assert(next[q] == prev[q]);
        }
    }
}

/// Extends the library roots (`roots`: each file's confidence as a production root of
/// the library) through whole-surface re-exports to a fixpoint. The rooted files become
/// exactly the least set that holds the starting ones and every file a member re-exports
/// whole; a file's confidence never drops. Every member's re-exports are expanded, each
/// into a production root on its target appended to `edges`, and each appended edge is
/// such an expansion, owned by a member, onto a member at least as sure as the edge.
/// Each appended edge carries the confidence its owner held when it was expanded, and
/// each file ends at its starting confidence raised to that of every expansion onto it.
pub fn expand_library_surface(
    roots: &mut FxHashMap<u32, Confidence>,
    reexports: &[Option<SurfaceReexports>],
    edges: &mut Vec<Edge>,
)
    requires
        reexports@.len() <= u32::MAX,
        forall|t: u32| #[trigger] old(roots)@.contains_key(t) ==> t < reexports@.len(),
        forall|f: u32, k: int|
            0 <= k < reexports_of(reexports@, f).len() ==> #[trigger] reexports_of(reexports@, f)[k].0 < reexports@.len(),
    ensures
        old(roots)@.dom().subset_of(final(roots)@.dom()),
        surface_closed(final(roots)@.dom(), reexports@),
        forall|s: Set<u32>|
            old(roots)@.dom().subset_of(s) && surface_closed(s, reexports@) ==> #[trigger] final(roots)@.dom().subset_of(s),
        grown(old(roots)@, final(roots)@),
        old(edges)@.len() <= final(edges)@.len(),
        forall|q: int| 0 <= q < old(edges)@.len() ==> final(edges)@[q] == old(edges)@[q],
        exists|trace: Seq<(u32, int)>| #[trigger] expansions_of(final(edges)@, old(edges)@.len() as int, final(roots)@, reexports@, trace),
        forall|t: u32|
            #[trigger] held_before(old(roots)@, final(edges)@, old(edges)@.len() as int, t, final(edges)@.len() as int)
                == entry(final(roots)@, t),
        forall|q: int|
            old(edges)@.len() <= q < final(edges)@.len() ==> Some((#[trigger] final(edges)@[q]).confidence) == held_before(
                old(roots)@,
                final(edges)@,
                old(edges)@.len() as int,
                final(edges)@[q].owner.0,
                q,
            ),
{
    let ghost start = roots@;
    let ghost base: int = edges@.len() as int;
    let n = reexports.len();
    let mut work = confidences_keys(roots);
    let ghost keys = work@;
    sort_ids(&mut work);
    proof {
        crate::seqs::lemma_multiset_same_set(work@, keys);
        crate::seqs::lemma_multiset_no_duplicates(keys, work@);
    }
    let ghost mut done: Seq<u32> = Seq::empty();
    let ghost mut trace: Seq<(u32, int)> = Seq::empty();
    while work.len() > 0
        invariant
            n == reexports@.len() <= u32::MAX,
            forall|f: u32, k: int|
                0 <= k < reexports_of(reexports@, f).len() ==> #[trigger] reexports_of(reexports@, f)[k].0 < n,
            start == old(roots)@,
            base == old(edges)@.len(),
            forall|t: u32| #[trigger] roots@.contains_key(t) ==> t < n,
            forall|t: u32| #[trigger] roots@.contains_key(t) <==> (done.contains(t) || work@.contains(t)),
            forall|t: u32| !(#[trigger] done.contains(t) && work@.contains(t)),
            done.no_duplicates(),
            work@.no_duplicates(),
            grown(start, roots@),
            forall|s: Set<u32>| start.dom().subset_of(s) && surface_closed(s, reexports@) ==> #[trigger] roots@.dom().subset_of(s),
            forall|f: u32, k: int|
                done.contains(f) && 0 <= k < reexports_of(reexports@, f).len() ==> roots@.contains_key(
                    #[trigger] reexports_of(reexports@, f)[k].0,
                ),
            base <= edges@.len(),
            forall|q: int| 0 <= q < base ==> edges@[q] == old(edges)@[q],
            trace.len() == edges@.len() - base,
            forall|j: int| 0 <= j < trace.len() ==> #[trigger] traced(edges@, base, roots@, reexports@, trace, j),
            forall|f: u32, k: int|
                done.contains(f) && reexports@[f as int] is Some && 0 <= k < reexports_of(reexports@, f).len()
                    ==> #[trigger] trace.contains((f, k)),
            forall|t: u32| #[trigger] held_before(start, edges@, base, t, edges@.len() as int) == entry(roots@, t),
            forall|q: int|
                base <= q < edges@.len() ==> Some((#[trigger] edges@[q]).confidence) == held_before(
                    start,
                    edges@,
                    base,
                    edges@[q].owner.0,
                    q,
                ),
        decreases n - done.len(),
    {
        let ghost old_work = work@;
        let f = work.pop().unwrap();
        proof {
            assert(work@ =~= old_work.drop_last());
            assert forall|t: u32| old_work.contains(t) <==> (work@.contains(t) || t == f) by {
                if old_work.contains(t) && t != f {
                    let w = choose|w: int| 0 <= w < old_work.len() && old_work[w] == t;
                    assert(w < old_work.len() - 1);
                    assert(work@[w] == t);
                }
                if work@.contains(t) {
                    let w = choose|w: int| 0 <= w < work@.len() && work@[w] == t;
                    assert(old_work[w] == t);
                }
                if t == f {
                    assert(old_work[old_work.len() - 1] == f);
                }
            }
            assert(!work@.contains(f)) by {
                if work@.contains(f) {
                    let w = choose|w: int| 0 <= w < work@.len() && work@[w] == f;
                    assert(old_work[w] == old_work[old_work.len() - 1]);
                }
            }
            assert(roots@.contains_key(f));
            assert(!done.contains(f));
            assert forall|i: int| 0 <= i < done.push(f).len() implies #[trigger] done.push(f)[i] < n as u32 by {
                if i < done.len() {
                    assert(done.contains(done[i]));
                    assert(roots@.contains_key(done[i]));
                }
            }
            assert(done.push(f).no_duplicates());
            lemma_distinct_ids_bounded(done.push(f), n as u32);
            let old_done = done;
            done = done.push(f);
            assert forall|t: u32| done.contains(t) <==> (old_done.contains(t) || t == f) by {
                if done.contains(t) && t != f {
                    let w = choose|w: int| 0 <= w < done.len() && done[w] == t;
                    assert(old_done[w] == t);
                }
                if old_done.contains(t) {
                    let w = choose|w: int| 0 <= w < old_done.len() && old_done[w] == t;
                    assert(done[w] == t);
                }
                if t == f {
                    assert(done[old_done.len() as int] == f);
                }
            }
            assert forall|t: u32| #[trigger] roots@.contains_key(t) <==> (done.contains(t) || work@.contains(t)) by {
                assert(old_done.contains(t) || old_work.contains(t) <==> roots@.contains_key(t));
            }
            assert forall|t: u32| !(#[trigger] done.contains(t) && work@.contains(t)) by {
                assert(!(old_done.contains(t) && old_work.contains(t)));
            }
            assert forall|f2: u32, k: int|
                done.contains(f2) && 0 <= k < reexports_of(reexports@, f2).len() && f2 != f implies roots@.contains_key(
                    #[trigger] reexports_of(reexports@, f2)[k].0,
                ) by {
                assert(old_done.contains(f2));
            }
            assert forall|f2: u32, k: int|
                done.contains(f2) && f2 != f && reexports@[f2 as int] is Some && 0 <= k < reexports_of(reexports@, f2).len()
                implies #[trigger] trace.contains((f2, k)) by {
                assert(old_done.contains(f2));
            }
        }
        match &reexports[f as usize] {
            None => {},
            Some(claimed) => {
                let confidence = match confidences_get(roots, f) {
                    Some(c) => c,
                    None => Confidence::Possible,
                };
                let ghost pre_roots = roots@;
                let mut k: usize = 0;
                while k < claimed.targets.len()
                    invariant
                        n == reexports@.len() <= u32::MAX,
                        f < n,
                        reexports@[f as int] == Some(*claimed),
                        forall|f2: u32, k2: int|
                            0 <= k2 < reexports_of(reexports@, f2).len() ==> #[trigger] reexports_of(reexports@, f2)[k2].0 < n,
                        start == old(roots)@,
                        base == old(edges)@.len(),
                        k <= claimed.targets@.len(),
                        pre_roots.contains_key(f),
                        confidence == pre_roots[f],
                        done.contains(f),
                        forall|t: u32| #[trigger] roots@.contains_key(t) ==> t < n,
                        forall|t: u32| #[trigger] roots@.contains_key(t) <==> (done.contains(t) || work@.contains(t)),
                        forall|t: u32| !(#[trigger] done.contains(t) && work@.contains(t)),
                        done.no_duplicates(),
                        work@.no_duplicates(),
                        grown(start, pre_roots),
                        grown(pre_roots, roots@),
                        forall|s: Set<u32>|
                            start.dom().subset_of(s) && surface_closed(s, reexports@) ==> #[trigger] roots@.dom().subset_of(s),
                        forall|f2: u32, k2: int|
                            done.contains(f2) && f2 != f && 0 <= k2 < reexports_of(reexports@, f2).len() ==> roots@.contains_key(
                                #[trigger] reexports_of(reexports@, f2)[k2].0,
                            ),
                        forall|k2: int| 0 <= k2 < k ==> roots@.contains_key(#[trigger] claimed.targets@[k2].0),
                        base <= edges@.len(),
                        forall|q: int| 0 <= q < base ==> edges@[q] == old(edges)@[q],
                        trace.len() == edges@.len() - base,
                        forall|j: int| 0 <= j < trace.len() ==> #[trigger] traced(edges@, base, roots@, reexports@, trace, j),
                        forall|f2: u32, k2: int|
                            done.contains(f2) && f2 != f && reexports@[f2 as int] is Some && 0 <= k2 < reexports_of(reexports@, f2).len()
                                ==> #[trigger] trace.contains((f2, k2)),
                        forall|k2: int| 0 <= k2 < k ==> #[trigger] trace.contains((f, k2)),
                        roots@.contains_key(f),
                        roots@[f] == confidence,
                        forall|t: u32| #[trigger] held_before(start, edges@, base, t, edges@.len() as int) == entry(roots@, t),
                        forall|q: int|
                            base <= q < edges@.len() ==> Some((#[trigger] edges@[q]).confidence) == held_before(
                                start,
                                edges@,
                                base,
                                edges@[q].owner.0,
                                q,
                            ),
                    decreases claimed.targets@.len() - k,
                {
                    let (target, span) = claimed.targets[k];
                    proof {
                        assert(reexports_of(reexports@, f)[k as int] == (target, span));
                        assert(target < n);
                    }
                    let ghost prev_roots = roots@;
                    let ghost prev_edges = edges@;
                    let ghost prev_work = work@;
                    let ghost prev_trace = trace;
                    edges.push(
                        Edge {
                            kind: EdgeKind::Root { kind: RootKind::Production, target: NodeRef::File(FileId(target)) },
                            confidence,
                            source: Provenance::Adapter(owned(claimed.adapter.as_str())),
                            span: Some(span),
                            owner: FileId(f),
                        },
                    );
                    match confidences_get(roots, target) {
                        None => {
                            confidences_insert(roots, target, confidence);
                            work.push(target);
                            proof {
                                assert(!done.contains(target));
                                assert(!prev_work.contains(target));
                                assert(work@ =~= prev_work.push(target));
                                assert forall|t: u32| work@.contains(t) <==> (prev_work.contains(t) || t == target) by {
                                    if work@.contains(t) && t != target {
                                        let w = choose|w: int| 0 <= w < work@.len() && work@[w] == t;
                                        if w < prev_work.len() {
                                            assert(prev_work[w] == t);
                                        }
                                    }
                                    if prev_work.contains(t) {
                                        lemma_contains_after_push(prev_work, target, t);
                                    }
                                    if t == target {
                                        assert(work@[prev_work.len() as int] == target);
                                    }
                                }
                                assert(prev_work.push(target).no_duplicates());
                            }
                        },
                        Some(held) => {
                            let merged = if held.rank() >= confidence.rank() {
                                held
                            } else {
                                confidence
                            };
                            confidences_insert(roots, target, merged);
                        },
                    }
                    proof {
                        assert(edges@ == prev_edges.push(edges@[prev_edges.len() as int]));
                        lemma_expansion_pushed(
                            start,
                            prev_edges,
                            edges@[prev_edges.len() as int],
                            base,
                            prev_roots,
                            roots@,
                            target,
                        );
                        trace = trace.push((f, k as int));
                        assert(grown(prev_roots, roots@));
                        assert(edges@.len() == prev_edges.len() + 1);
                        assert forall|q: int| 0 <= q < prev_edges.len() implies edges@[q] == prev_edges[q] by {}
                        lemma_traced_kept(prev_edges, edges@, base, prev_roots, roots@, reexports@, prev_trace, trace);
                        assert(traced(edges@, base, roots@, reexports@, trace, trace.len() - 1)) by {
                            assert(trace[trace.len() - 1] == (f, k as int));
                            assert(edges@[base + trace.len() - 1] == edges@[edges@.len() - 1]);
                            assert(roots@.contains_key(f));
                        }
                        assert forall|t: u32| #[trigger] roots@.contains_key(t) <==> (done.contains(t) || work@.contains(t)) by {
                            if t != target {
                                assert(prev_roots.contains_key(t) == roots@.contains_key(t));
                            }
                        }
                        assert forall|s: Set<u32>| start.dom().subset_of(s) && surface_closed(s, reexports@) implies #[trigger] roots@.dom().subset_of(s) by {
                            assert(prev_roots.dom().subset_of(s));
                            assert(s.contains(f));
                            assert(s.contains(reexports_of(reexports@, f)[k as int].0));
                        }
                        assert forall|f2: u32, k2: int|
                            done.contains(f2) && f2 != f && reexports@[f2 as int] is Some && 0 <= k2 < reexports_of(reexports@, f2).len()
                            implies #[trigger] trace.contains((f2, k2)) by {
                            lemma_contains_after_push(prev_trace, (f, k as int), (f2, k2));
                        }
                        assert forall|k2: int| 0 <= k2 < k + 1 implies #[trigger] trace.contains((f, k2)) by {
                            if k2 < k {
                                lemma_contains_after_push(prev_trace, (f, k as int), (f, k2));
                            } else {
                                assert(trace[trace.len() - 1] == (f, k2));
                            }
                        }
                    }
                    k = k + 1;
                }
                proof {
                    assert forall|f2: u32, k2: int|
                        done.contains(f2) && 0 <= k2 < reexports_of(reexports@, f2).len() implies roots@.contains_key(
                            #[trigger] reexports_of(reexports@, f2)[k2].0,
                        ) by {
                        if f2 == f {
                            assert(reexports_of(reexports@, f)[k2] == claimed.targets@[k2]);
                        }
                    }
                    assert forall|f2: u32, k2: int|
                        done.contains(f2) && reexports@[f2 as int] is Some && 0 <= k2 < reexports_of(reexports@, f2).len()
                        implies #[trigger] trace.contains((f2, k2)) by {
                        if f2 == f {
                            assert(trace.contains((f, k2)));
                        }
                    }
                    assert(grown(start, roots@)) by {
                        assert forall|t: u32| #[trigger] start.contains_key(t) implies roots@.contains_key(t)
                            && start[t].spec_rank() <= roots@[t].spec_rank() by {
                            assert(pre_roots.contains_key(t));
                        }
                    }
                }
            },
        }
    }
    proof {
        assert forall|f: u32, k: int|
            roots@.dom().contains(f) && 0 <= k < reexports_of(reexports@, f).len() implies roots@.dom().contains(
            #[trigger] reexports_of(reexports@, f)[k].0,
        ) by {
            assert(done.contains(f));
        }
        assert forall|f: u32, k: int|
            roots@.contains_key(f) && reexports@[f as int] is Some && 0 <= k < reexports_of(reexports@, f).len()
            implies #[trigger] trace.contains((f, k)) by {
            assert(done.contains(f));
        }
        assert(expansions_of(edges@, base, roots@, reexports@, trace));
        assert(start.dom().subset_of(roots@.dom())) by {
            assert forall|t: u32| start.dom().contains(t) implies roots@.dom().contains(t) by {
                assert(start.contains_key(t));
            }
        }
    }
}

} // verus!
