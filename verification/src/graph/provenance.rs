//! Which components a node's facts came from — the `sources` of a query answer and of
//! every finding. Provenance lives on edges, so "who contributed this?" is derived: the
//! adapter that claimed the node's file (or, for a manifest, every adapter whose
//! manifest claim accepts it), and every adapter or plugin whose edge touches the node,
//! in either direction. This is the one index both readers share.

use vstd::prelude::*;

use rustc_hash::FxHashMap;

use crate::fx::{label_ids, label_ids_get, label_ids_insert, label_ids_new};
use crate::graph::ProjectGraph;
use crate::text::{
    compare_str, join2, lemma_lex_antisymmetric, lemma_lex_total, lemma_lex_transitive, owned,
    seq_lex_le, seq_lex_lt, Comparison,
};
use crate::vocab::{DependencyId, EdgeKind, FileId, NodeRef, PackageId, Provenance, SymbolId};

verus! {

/// A node to ask about.
#[derive(Debug, Clone, Copy, PartialEq, Eq, Structural)]
pub enum Node {
    File(FileId),
    Symbol(SymbolId),
    Dependency(DependencyId),
    /// A manifest's own node: its sources are every adapter that would claim it.
    Package(PackageId),
}

/// The `sources` string of a provenance: `adapter:<id>`, `plugin:<coordinate>`,
/// `core:surface`.
pub open spec fn label_text(p: Provenance) -> Seq<char> {
    match p {
        Provenance::Adapter(id) => "adapter:"@ + id@,
        Provenance::Plugin(id) => "plugin:"@ + id@,
        Provenance::Surface => "core:surface"@,
    }
}

/// The label of the adapter `id`.
pub open spec fn adapter_label(id: Seq<char>) -> Seq<char> {
    "adapter:"@ + id
}

/// The one place a provenance's spelling is decided.
pub fn label(p: &Provenance) -> (r: String)
    ensures
        r@ == label_text(*p),
{
    match p {
        Provenance::Adapter(id) => join2("adapter:", id.as_str()),
        Provenance::Plugin(id) => join2("plugin:", id.as_str()),
        Provenance::Surface => owned("core:surface"),
    }
}

/// The node an edge endpoint names.
pub open spec fn node_of(n: NodeRef) -> Node {
    match n {
        NodeRef::File(f) => Node::File(f),
        NodeRef::Symbol(s) => Node::Symbol(s),
    }
}

/// The nodes an edge marks: both of its endpoints.
pub open spec fn endpoints(k: EdgeKind) -> Seq<Node> {
    match k {
        EdgeKind::ImportsFile { from, to } => seq![Node::File(from), Node::File(to)],
        EdgeKind::ImportsDependency { from, to } => seq![Node::File(from), Node::Dependency(to)],
        EdgeKind::References { from, to, .. } => seq![node_of(from), Node::Symbol(to)],
        EdgeKind::Declares { file, symbol } => seq![Node::File(file), Node::Symbol(symbol)],
        EdgeKind::Root { target, .. } => seq![node_of(target)],
        EdgeKind::Wildcard { from } => seq![Node::File(from)],
        EdgeKind::ReferencesFile { from, to } => seq![node_of(from), Node::File(to)],
        EdgeKind::InvokesFile { from, to } => seq![node_of(from), Node::File(to)],
    }
}

/// `l` is the claim label of node `n`: the claiming adapter of a file, or an adapter
/// whose manifest claim accepts a package's manifest.
pub open spec fn claimed(g: ProjectGraph, n: Node, l: Seq<char>) -> bool {
    match n {
        Node::File(f) => f.0 < g.files@.len() && (g.files@[f.0 as int].language matches Some(lang)
            && l == adapter_label(lang@)),
        Node::Package(p) => p.0 < g.packages@.len() && exists|k: int|
            0 <= k < g.packages@[p.0 as int].manifest_claim_languages@.len() && l == adapter_label(
                #[trigger] g.packages@[p.0 as int].manifest_claim_languages@[k]@,
            ),
        _ => false,
    }
}

/// `l` is the label of one of the first `j` edges, and that edge touches `n`.
pub open spec fn marked(g: ProjectGraph, j: int, n: Node, l: Seq<char>) -> bool {
    exists|e: int|
        0 <= e < j && endpoints(#[trigger] g.edges@[e].kind).contains(n) && l == label_text(
            g.edges@[e].source,
        )
}

/// The sources of a node: its claim, and the component of every edge touching it.
pub open spec fn sources(g: ProjectGraph, n: Node) -> Set<Seq<char>> {
    Set::new(|l: Seq<char>| claimed(g, n, l) || marked(g, g.edges@.len() as int, n, l))
}

/// Every edge marks every node it names with its component's label: both ends of a
/// two-ended edge (the declared symbol of a `Declares` edge as well as its file), the
/// one node of a root or a wildcard.
pub proof fn lemma_edges_mark_their_nodes(g: ProjectGraph, e: int)
    requires
        0 <= e < g.edges@.len(),
    ensures
        ({
            let l = label_text(g.edges@[e].source);
            match g.edges@[e].kind {
                EdgeKind::ImportsFile { from, to } => sources(g, Node::File(from)).contains(l) && sources(
                    g,
                    Node::File(to),
                ).contains(l),
                EdgeKind::ImportsDependency { from, to } => sources(g, Node::File(from)).contains(l) && sources(
                    g,
                    Node::Dependency(to),
                ).contains(l),
                EdgeKind::References { from, to, .. } => sources(g, node_of(from)).contains(l) && sources(
                    g,
                    Node::Symbol(to),
                ).contains(l),
                EdgeKind::Declares { file, symbol } => sources(g, Node::File(file)).contains(l) && sources(
                    g,
                    Node::Symbol(symbol),
                ).contains(l),
                EdgeKind::Root { target, .. } => sources(g, node_of(target)).contains(l),
                EdgeKind::Wildcard { from } => sources(g, Node::File(from)).contains(l),
                EdgeKind::ReferencesFile { from, to } => sources(g, node_of(from)).contains(l) && sources(
                    g,
                    Node::File(to),
                ).contains(l),
                EdgeKind::InvokesFile { from, to } => sources(g, node_of(from)).contains(l) && sources(
                    g,
                    Node::File(to),
                ).contains(l),
            }
        }),
{
    let k = g.edges@[e].kind;
    let l = label_text(g.edges@[e].source);
    let n = g.edges@.len() as int;
    let ends = endpoints(k);
    assert forall|q: int| 0 <= q < ends.len() implies #[trigger] sources(g, ends[q]).contains(l) by {
        assert(ends.contains(ends[q]));
        assert(marked(g, n, ends[q], l));
    }
    match k {
        EdgeKind::Root { .. } => {
            assert(sources(g, ends[0]).contains(l));
        },
        EdgeKind::Wildcard { .. } => {
            assert(sources(g, ends[0]).contains(l));
        },
        _ => {
            assert(sources(g, ends[0]).contains(l));
            assert(sources(g, ends[1]).contains(l));
        },
    }
}

/// A node's own number.
pub open spec fn node_id(n: Node) -> u32 {
    match n {
        Node::File(f) => f.0,
        Node::Symbol(s) => s.0,
        Node::Dependency(d) => d.0,
        Node::Package(p) => p.0,
    }
}

/// `(node, id)` order: by node, then by label id.
pub open spec fn pair_le(a: (u32, u16), b: (u32, u16)) -> bool {
    a.0 < b.0 || (a.0 == b.0 && a.1 <= b.1)
}

pub open spec fn pair_lt(a: (u32, u16), b: (u32, u16)) -> bool {
    a.0 < b.0 || (a.0 == b.0 && a.1 < b.1)
}

pub open spec fn pairs_ascending(s: Seq<(u32, u16)>) -> bool {
    forall|i: int, j: int| 0 <= i < j < s.len() ==> pair_le(s[i], s[j])
}

pub open spec fn pairs_increasing(s: Seq<(u32, u16)>) -> bool {
    forall|i: int, j: int| 0 <= i < j < s.len() ==> pair_lt(s[i], s[j])
}

/// Some pair of `list` is `(x, id)` with `labels[id]` spelled `l`.
pub open spec fn has_pair(list: Seq<(u32, u16)>, labels: Seq<String>, x: u32, l: Seq<char>) -> bool {
    exists|k: int|
        0 <= k < list.len() && (#[trigger] list[k]).0 == x && (list[k].1 as int) < labels.len()
            && labels[list[k].1 as int]@ == l
}

/// A node's sources, looked up after one build: three sorted `(node, label id)` pair
/// lists per node kind and the label table they index.
pub struct ProvenanceIndex {
    labels: Vec<String>,
    files: Vec<(u32, u16)>,
    symbols: Vec<(u32, u16)>,
    dependencies: Vec<(u32, u16)>,
    packages: Vec<(u32, u16)>,
}

impl ProvenanceIndex {
    /// The pair list for nodes of `n`'s kind.
    pub closed spec fn list_for(self, n: Node) -> Seq<(u32, u16)> {
        match n {
            Node::File(_) => self.files@,
            Node::Symbol(_) => self.symbols@,
            Node::Dependency(_) => self.dependencies@,
            Node::Package(_) => self.packages@,
        }
    }

    /// The number of labels the index has interned.
    pub closed spec fn label_count(self) -> nat {
        self.labels@.len()
    }

    /// The labels the index records for node `n`.
    pub closed spec fn sources_of(self, n: Node) -> Set<Seq<char>> {
        Set::new(|l: Seq<char>| has_pair(self.list_for(n), self.labels@, node_id(n), l))
    }

    /// Each list sorted without repeats, each label id naming a label.
    pub closed spec fn wf(self) -> bool {
        &&& pairs_increasing(self.files@)
        &&& pairs_increasing(self.symbols@)
        &&& pairs_increasing(self.dependencies@)
        &&& pairs_increasing(self.packages@)
        &&& forall|n: Node, k: int|
            0 <= k < self.list_for(n).len() ==> ((#[trigger] self.list_for(n)[k]).1 as int)
                < self.labels@.len()
    }
}

/// `slice::sort_unstable` on `(node, label id)` pairs: the same pairs, in ascending
/// tuple order.
#[verifier::external_body]
fn sort_pairs(v: &mut Vec<(u32, u16)>)
    ensures
        final(v)@.to_multiset() == old(v)@.to_multiset(),
        pairs_ascending(final(v)@),
{
    v.sort_unstable();
}

/// Drops repeats from an ascending list.
fn dedup_pairs(v: &mut Vec<(u32, u16)>)
    requires
        pairs_ascending(old(v)@),
    ensures
        pairs_increasing(final(v)@),
        final(v)@.to_set() == old(v)@.to_set(),
{
    let ghost input = v@;
    let mut out: Vec<(u32, u16)> = Vec::new();
    let mut i: usize = 0;
    while i < v.len()
        invariant
            v@ == input,
            pairs_ascending(input),
            i <= input.len(),
            pairs_increasing(out@),
            out@.to_set() == input.take(i as int).to_set(),
            i > 0 ==> out@.len() > 0 && out@.last() == input[i - 1],
            i == 0 ==> out@.len() == 0,
        decreases input.len() - i,
    {
        let p = v[i];
        let ghost before = out@;
        let repeat = out.len() > 0 && out[out.len() - 1].0 == p.0 && out[out.len() - 1].1 == p.1;
        if !repeat {
            out.push(p);
            proof {
                if before.len() > 0 {
                    assert(pair_le(input[i - 1], p));
                    assert forall|a: int, b: int| 0 <= a < b < out@.len() implies pair_lt(out@[a], out@[b]) by {
                        if b == out@.len() - 1 && a < before.len() - 1 {
                            assert(pair_lt(before[a], before[before.len() - 1]));
                        }
                    }
                }
            }
        }
        proof {
            assert(input.take(i + 1) =~= input.take(i as int).push(p));
            assert(out@.to_set() =~= input.take(i + 1).to_set()) by {
                assert forall|x: (u32, u16)| out@.to_set().contains(x) implies input.take(i + 1).to_set().contains(x) by {
                    let k = choose|k: int| 0 <= k < out@.len() && out@[k] == x;
                    if k < before.len() {
                        assert(before.to_set().contains(x));
                        assert(input.take(i as int).to_set().contains(x));
                        let m = choose|m: int| 0 <= m < i && #[trigger] input.take(i as int)[m] == x;
                        assert(input.take(i + 1)[m] == x);
                    } else {
                        assert(input.take(i + 1)[i as int] == x);
                    }
                }
                assert forall|x: (u32, u16)| input.take(i + 1).to_set().contains(x) implies out@.to_set().contains(x) by {
                    let m = choose|m: int| 0 <= m < i + 1 && #[trigger] input.take(i + 1)[m] == x;
                    if m < i {
                        assert(input.take(i as int)[m] == x);
                        assert(input.take(i as int).to_set().contains(x));
                        assert(before.to_set().contains(x));
                        let k = choose|k: int| 0 <= k < before.len() && before[k] == x;
                        assert(out@[k] == x);
                    } else {
                        assert(out@[out@.len() - 1] == x);
                    }
                }
            }
        }
        i = i + 1;
    }
    proof {
        assert(input.take(input.len() as int) =~= input);
    }
    *v = out;
}

/// The contiguous run of pairs for one node: the pairs are sorted by `(node, label)`,
/// so a node's labels are adjacent and two partition points bound them.
pub fn lookup(list: &[(u32, u16)], node: u32) -> (r: &[(u32, u16)])
    requires
        pairs_increasing(list@),
    ensures
        forall|p: (u32, u16)| r@.contains(p) <==> (list@.contains(p) && p.0 == node),
{
    let n = list.len();
    let mut lo: usize = 0;
    let mut hi: usize = n;
    while lo < hi
        invariant
            hi <= n == list@.len(),
            lo <= hi,
            pairs_increasing(list@),
            forall|i: int| 0 <= i < lo ==> (#[trigger] list@[i]).0 < node,
            forall|i: int| hi <= i < n ==> (#[trigger] list@[i]).0 >= node,
        decreases hi - lo,
    {
        let mid = lo + (hi - lo) / 2;
        if list[mid].0 < node {
            proof {
                assert forall|i: int| 0 <= i <= mid implies (#[trigger] list@[i]).0 < node by {
                    if i < mid {
                        assert(pair_lt(list@[i], list@[mid as int]));
                    }
                }
            }
            lo = mid + 1;
        } else {
            proof {
                assert forall|i: int| mid <= i < n implies (#[trigger] list@[i]).0 >= node by {
                    if mid < i {
                        assert(pair_lt(list@[mid as int], list@[i]));
                    }
                }
            }
            hi = mid;
        }
    }
    let start = lo;
    let mut hi: usize = n;
    while lo < hi
        invariant
            start <= lo <= hi <= n == list@.len(),
            pairs_increasing(list@),
            forall|i: int| 0 <= i < start ==> (#[trigger] list@[i]).0 < node,
            forall|i: int| start <= i < lo ==> (#[trigger] list@[i]).0 == node,
            forall|i: int| hi <= i < n ==> (#[trigger] list@[i]).0 > node,
            start < n ==> list@[start as int].0 >= node,
        decreases hi - lo,
    {
        let mid = lo + (hi - lo) / 2;
        if list[mid].0 == node {
            proof {
                assert forall|i: int| start <= i <= mid implies (#[trigger] list@[i]).0 == node by {
                    if i < mid {
                        assert(pair_lt(list@[i], list@[mid as int]));
                    }
                    assert(list@[start as int].0 >= node);
                    if start < i {
                        assert(pair_lt(list@[start as int], list@[i]));
                    }
                }
            }
            lo = mid + 1;
        } else {
            proof {
                assert(list@[start as int].0 >= node);
                if mid > start {
                    assert(pair_lt(list@[start as int], list@[mid as int]));
                }
                assert(list@[mid as int].0 > node);
                assert forall|i: int| mid <= i < n implies (#[trigger] list@[i]).0 > node by {
                    if mid < i {
                        assert(pair_lt(list@[mid as int], list@[i]));
                    }
                }
            }
            hi = mid;
        }
    }
    let r = &list[start..lo];
    proof {
        assert(r@ =~= list@.subrange(start as int, lo as int));
        assert forall|p: (u32, u16)| r@.contains(p) <==> (list@.contains(p) && p.0 == node) by {
            if r@.contains(p) {
                let k = choose|k: int| 0 <= k < r@.len() && r@[k] == p;
                assert(list@[start + k] == p);
            }
            if list@.contains(p) && p.0 == node {
                let k = choose|k: int| 0 <= k < list@.len() && list@[k] == p;
                assert(start <= k < lo);
                assert(r@[k - start] == p);
            }
        }
    }
    r
}

/// The interner agrees with the label table: labels are distinct, and each is keyed
/// by its spelling under its index, capped at `u16::MAX`.
spec fn interned(m: FxHashMap<String, u16>, labels: Seq<String>) -> bool {
    &&& forall|i: int, j: int| 0 <= i < j < labels.len() ==> labels[i]@ != labels[j]@
    &&& forall|k: Seq<char>|
        #[trigger] label_ids(m).contains_key(k) <==> exists|j: int| 0 <= j < labels.len() && labels[j]@ == k
    &&& forall|j: int|
        0 <= j < labels.len() ==> label_ids(m)[#[trigger] labels[j]@] as int == (if j < 65535 {
            j
        } else {
            65535
        })
}

/// The number of distinct entries of `s`.
pub open spec fn distinct_count(s: Seq<Seq<char>>) -> nat
    decreases s.len(),
{
    if s.len() == 0 {
        0
    } else {
        distinct_count(s.drop_last()) + if s.drop_last().contains(s.last()) {
            0nat
        } else {
            1nat
        }
    }
}

/// The interned labels are the distinct entries of `seen`.
spec fn tracks(labels: Seq<String>, seen: Seq<Seq<char>>) -> bool {
    &&& labels.len() == distinct_count(seen)
    &&& forall|k: Seq<char>|
        (exists|j: int| 0 <= j < labels.len() && labels[j]@ == k) <==> #[trigger] seen.contains(k)
}

/// The id of a label: the one it already has, else the next (saturating at
/// `u16::MAX`, which keeps a pathological label count wrong but bounded).
fn intern(interner: &mut FxHashMap<String, u16>, labels: &mut Vec<String>, l: String, Ghost(seen): Ghost<Seq<Seq<char>>>) -> (r: u16)
    requires
        interned(*old(interner), old(labels)@),
    ensures
        interned(*final(interner), final(labels)@),
        old(labels)@.len() <= final(labels)@.len(),
        final(labels)@.take(old(labels)@.len() as int) == old(labels)@,
        (r as int) < final(labels)@.len(),
        final(labels)@.len() <= 65536 ==> final(labels)@[r as int]@ == l@,
        tracks(old(labels)@, seen) ==> tracks(final(labels)@, seen.push(l@)),
{
    match label_ids_get(interner, l.as_str()) {
        Some(id) => {
            proof {
                let j = choose|j: int| 0 <= j < labels@.len() && labels@[j]@ == l@;
                assert(label_ids(*interner)[labels@[j]@] as int == (if j < 65535 { j } else { 65535 }));
                assert(labels@.take(labels@.len() as int) =~= labels@);
                if tracks(labels@, seen) {
                    assert(seen.contains(l@));
                    assert(seen.push(l@).drop_last() =~= seen);
                    assert forall|k: Seq<char>| (exists|i: int| 0 <= i < labels@.len() && labels@[i]@ == k) <==> #[trigger] seen.push(l@).contains(k) by {
                        if seen.push(l@).contains(k) {
                            let w = choose|w: int| 0 <= w < seen.push(l@).len() && seen.push(l@)[w] == k;
                            if w < seen.len() {
                                assert(seen.contains(k));
                            }
                        }
                        if seen.contains(k) {
                            let w = choose|w: int| 0 <= w < seen.len() && seen[w] == k;
                            assert(seen.push(l@)[w] == k);
                        }
                    }
                }
            }
            id
        },
        None => {
            let id: u16 = if labels.len() <= 65535 {
                labels.len() as u16
            } else {
                65535
            };
            let ghost before = labels@;
            let key = l.clone();
            labels.push(l);
            label_ids_insert(interner, key, id);
            proof {
                assert(labels@.take(before.len() as int) =~= before);
                assert forall|k: Seq<char>|
                    #[trigger] label_ids(*interner).contains_key(k) <==> exists|j: int|
                        0 <= j < labels@.len() && labels@[j]@ == k by {
                    if label_ids(*interner).contains_key(k) && k != labels@[before.len() as int]@ {
                        let j = choose|j: int| 0 <= j < before.len() && before[j]@ == k;
                        assert(labels@[j]@ == k);
                    }
                    if exists|j: int| 0 <= j < labels@.len() && labels@[j]@ == k {
                        let j = choose|j: int| 0 <= j < labels@.len() && labels@[j]@ == k;
                        if j < before.len() {
                            assert(before[j]@ == k);
                        }
                    }
                }
                assert forall|j: int| 0 <= j < labels@.len() implies label_ids(*interner)[#[trigger] labels@[j]@] as int == (if j < 65535 {
                    j
                } else {
                    65535
                }) by {
                    if j < before.len() {
                        assert(before[j]@ != l@);
                        assert(label_ids(*interner)[labels@[j]@] == label_ids(*old(interner))[before[j]@]);
                    }
                }
                assert forall|i: int, j: int| 0 <= i < j < labels@.len() implies labels@[i]@ != labels@[j]@ by {
                    if j == before.len() {
                        assert(label_ids(*old(interner)).contains_key(before[i]@));
                    }
                }
                if tracks(before, seen) {
                    assert(!seen.contains(l@)) by {
                        if seen.contains(l@) {
                            let j = choose|j: int| 0 <= j < before.len() && before[j]@ == l@;
                            assert(label_ids(*old(interner)).contains_key(before[j]@));
                        }
                    }
                    assert(seen.push(l@).drop_last() =~= seen);
                    assert forall|k: Seq<char>| (exists|i: int| 0 <= i < labels@.len() && labels@[i]@ == k) <==> #[trigger] seen.push(l@).contains(k) by {
                        if seen.push(l@).contains(k) {
                            let w = choose|w: int| 0 <= w < seen.push(l@).len() && seen.push(l@)[w] == k;
                            if w < seen.len() {
                                assert(seen.contains(k));
                                let i = choose|i: int| 0 <= i < before.len() && before[i]@ == k;
                                assert(labels@[i]@ == k);
                            } else {
                                assert(labels@[before.len() as int]@ == k);
                            }
                        }
                        if exists|i: int| 0 <= i < labels@.len() && labels@[i]@ == k {
                            let i = choose|i: int| 0 <= i < labels@.len() && labels@[i]@ == k;
                            if i < before.len() {
                                assert(before[i]@ == k);
                                assert(seen.contains(k));
                                let w = choose|w: int| 0 <= w < seen.len() && seen[w] == k;
                                assert(seen.push(l@)[w] == k);
                            } else {
                                assert(seen.push(l@)[seen.len() as int] == k);
                            }
                        }
                    }
                }
            }
            id
        },
    }
}

/// Whether two nodes are of one kind (and so share a pair list).
pub open spec fn same_kind(a: Node, b: Node) -> bool {
    match (a, b) {
        (Node::File(_), Node::File(_)) => true,
        (Node::Symbol(_), Node::Symbol(_)) => true,
        (Node::Dependency(_), Node::Dependency(_)) => true,
        (Node::Package(_), Node::Package(_)) => true,
        _ => false,
    }
}

/// Records one `(node, label id)` pair in the list for the node's kind.
fn push_pair(idx: &mut ProvenanceIndex, n: Node, id: u16)
    ensures
        final(idx).labels == old(idx).labels,
        forall|m: Node|
            #[trigger] final(idx).list_for(m) == if same_kind(m, n) {
                old(idx).list_for(m).push((node_id(n), id))
            } else {
                old(idx).list_for(m)
            },
{
    match n {
        Node::File(f) => idx.files.push((f.0, id)),
        Node::Symbol(s) => idx.symbols.push((s.0, id)),
        Node::Dependency(d) => idx.dependencies.push((d.0, id)),
        Node::Package(p) => idx.packages.push((p.0, id)),
    }
}

/// The index records exactly the pairs of `rel`, as long as every label got its own id.
spec fn represents(idx: ProvenanceIndex, rel: spec_fn(Node, Seq<char>) -> bool) -> bool {
    &&& forall|n: Node, k: int|
        0 <= k < idx.list_for(n).len() ==> ((#[trigger] idx.list_for(n)[k]).1 as int)
            < idx.labels@.len()
    &&& idx.labels@.len() <= 65536 ==> forall|n: Node, l: Seq<char>|
        #[trigger] has_pair(idx.list_for(n), idx.labels@, node_id(n), l) <==> rel(n, l)
}

proof fn lemma_has_pair_step(
    list: Seq<(u32, u16)>,
    labels0: Seq<String>,
    labels1: Seq<String>,
    x: u32,
    l: Seq<char>,
)
    requires
        labels0.len() <= labels1.len(),
        labels1.take(labels0.len() as int) == labels0,
        forall|k: int| 0 <= k < list.len() ==> ((#[trigger] list[k]).1 as int) < labels0.len(),
    ensures
        has_pair(list, labels1, x, l) <==> has_pair(list, labels0, x, l),
{
    if has_pair(list, labels1, x, l) {
        let k = choose|k: int|
            0 <= k < list.len() && (#[trigger] list[k]).0 == x && (list[k].1 as int) < labels1.len()
                && labels1[list[k].1 as int]@ == l;
        assert(labels1.take(labels0.len() as int)[list[k].1 as int] == labels0[list[k].1 as int]);
    }
    if has_pair(list, labels0, x, l) {
        let k = choose|k: int|
            0 <= k < list.len() && (#[trigger] list[k]).0 == x && (list[k].1 as int) < labels0.len()
                && labels0[list[k].1 as int]@ == l;
        assert(labels1.take(labels0.len() as int)[list[k].1 as int] == labels0[list[k].1 as int]);
    }
}

/// One interned label and one pushed pair extend the represented relation by one pair.
proof fn lemma_represents_step(
    old_idx: ProvenanceIndex,
    new_idx: ProvenanceIndex,
    n0: Node,
    id: u16,
    l0: Seq<char>,
    rel0: spec_fn(Node, Seq<char>) -> bool,
    rel1: spec_fn(Node, Seq<char>) -> bool,
)
    requires
        represents(old_idx, rel0),
        old_idx.labels@.len() <= new_idx.labels@.len(),
        new_idx.labels@.take(old_idx.labels@.len() as int) == old_idx.labels@,
        (id as int) < new_idx.labels@.len(),
        new_idx.labels@.len() <= 65536 ==> new_idx.labels@[id as int]@ == l0,
        forall|m: Node|
            #[trigger] new_idx.list_for(m) == if same_kind(m, n0) {
                old_idx.list_for(m).push((node_id(n0), id))
            } else {
                old_idx.list_for(m)
            },
        forall|n: Node, l: Seq<char>| #[trigger] rel1(n, l) <==> rel0(n, l) || (n == n0 && l == l0),
    ensures
        represents(new_idx, rel1),
{
    let labels0 = old_idx.labels@;
    let labels1 = new_idx.labels@;
    assert forall|n: Node, k: int| 0 <= k < new_idx.list_for(n).len() implies ((#[trigger] new_idx.list_for(n)[k]).1 as int)
        < labels1.len() by {
        if same_kind(n, n0) && k == old_idx.list_for(n).len() {
        } else {
            assert(new_idx.list_for(n)[k] == old_idx.list_for(n)[k]);
        }
    }
    if labels1.len() <= 65536 {
        assert forall|n: Node, l: Seq<char>|
            #[trigger] has_pair(new_idx.list_for(n), labels1, node_id(n), l) <==> rel1(n, l) by {
            let old_list = old_idx.list_for(n);
            lemma_has_pair_step(old_list, labels0, labels1, node_id(n), l);
            assert(has_pair(old_list, labels0, node_id(n), l) <==> rel0(n, l));
            if same_kind(n, n0) {
                let new_list = old_list.push((node_id(n0), id));
                assert(new_idx.list_for(n) == new_list);
                if has_pair(new_list, labels1, node_id(n), l) {
                    let k = choose|k: int|
                        0 <= k < new_list.len() && (#[trigger] new_list[k]).0 == node_id(n) && (new_list[k].1 as int)
                            < labels1.len() && labels1[new_list[k].1 as int]@ == l;
                    if k < old_list.len() {
                        assert(old_list[k] == new_list[k]);
                        assert(has_pair(old_list, labels1, node_id(n), l));
                    } else {
                        assert(n == n0);
                    }
                }
                if has_pair(old_list, labels1, node_id(n), l) {
                    let k = choose|k: int|
                        0 <= k < old_list.len() && (#[trigger] old_list[k]).0 == node_id(n) && (old_list[k].1 as int)
                            < labels1.len() && labels1[old_list[k].1 as int]@ == l;
                    assert(new_list[k] == old_list[k]);
                }
                if n == n0 && l == l0 {
                    assert(new_list[old_list.len() as int] == (node_id(n0), id));
                }
            } else {
                assert(n != n0);
            }
        }
    }
}

/// Reordering a list or dropping its repeats changes nothing it records.
proof fn lemma_has_pair_same_set(a: Seq<(u32, u16)>, b: Seq<(u32, u16)>, labels: Seq<String>, x: u32, l: Seq<char>)
    requires
        a.to_set() == b.to_set(),
    ensures
        has_pair(a, labels, x, l) <==> has_pair(b, labels, x, l),
{
    if has_pair(a, labels, x, l) {
        let k = choose|k: int|
            0 <= k < a.len() && (#[trigger] a[k]).0 == x && (a[k].1 as int) < labels.len() && labels[a[k].1 as int]@ == l;
        assert(a.to_set().contains(a[k]));
        let j = choose|j: int| 0 <= j < b.len() && b[j] == a[k];
        assert(b[j].0 == x);
    }
    if has_pair(b, labels, x, l) {
        let k = choose|k: int|
            0 <= k < b.len() && (#[trigger] b[k]).0 == x && (b[k].1 as int) < labels.len() && labels[b[k].1 as int]@ == l;
        assert(b.to_set().contains(b[k]));
        let j = choose|j: int| 0 <= j < a.len() && a[j] == b[k];
        assert(a[j].0 == x);
    }
}

/// The nodes an edge marks.
fn edge_endpoints(kind: &EdgeKind) -> (r: Vec<Node>)
    ensures
        r@ == endpoints(*kind),
{
    let node = |n: NodeRef| -> (m: Node)
        ensures
            m == node_of(n),
        {
            match n {
                NodeRef::File(f) => Node::File(f),
                NodeRef::Symbol(s) => Node::Symbol(s),
            }
        };
    let r = match *kind {
        EdgeKind::ImportsFile { from, to } => vec![Node::File(from), Node::File(to)],
        EdgeKind::ImportsDependency { from, to } => vec![Node::File(from), Node::Dependency(to)],
        EdgeKind::References { from, to, .. } => vec![node(from), Node::Symbol(to)],
        EdgeKind::Declares { file, symbol } => vec![Node::File(file), Node::Symbol(symbol)],
        EdgeKind::Root { target, .. } => vec![node(target)],
        EdgeKind::Wildcard { from } => vec![Node::File(from)],
        EdgeKind::ReferencesFile { from, to } => vec![node(from), Node::File(to)],
        EdgeKind::InvokesFile { from, to } => vec![node(from), Node::File(to)],
    };
    proof {
        assert(r@ =~= endpoints(*kind));
    }
    r
}

/// The claims of the first `i` files.
spec fn files_phase(g: ProjectGraph, i: int) -> spec_fn(Node, Seq<char>) -> bool {
    |n: Node, l: Seq<char>| n is File && node_id(n) < i && claimed(g, n, l)
}

/// Every file's claim, the claims of the first `i` packages, and package `i`'s first
/// `k` claim languages.
spec fn packages_phase(g: ProjectGraph, i: int, k: int) -> spec_fn(Node, Seq<char>) -> bool {
    |n: Node, l: Seq<char>|
        (n is File && claimed(g, n, l)) || (n is Package && ((node_id(n) < i && claimed(g, n, l)) || (
        node_id(n) == i && i < g.packages@.len() && exists|q: int|
            0 <= q < k && l == adapter_label(
                #[trigger] g.packages@[i].manifest_claim_languages@[q]@,
            ))))
}

/// Every claim, the first `j` edges, and edge `j`'s first `t` endpoints.
spec fn edges_phase(g: ProjectGraph, j: int, t: int) -> spec_fn(Node, Seq<char>) -> bool {
    |n: Node, l: Seq<char>|
        claimed(g, n, l) || marked(g, j, n, l) || (0 <= j < g.edges@.len() && exists|q: int|
            0 <= q < t && #[trigger] endpoints(g.edges@[j].kind)[q] == n && l == label_text(
                g.edges@[j].source,
            ))
}

proof fn lemma_represents_same(
    idx: ProvenanceIndex,
    rel0: spec_fn(Node, Seq<char>) -> bool,
    rel1: spec_fn(Node, Seq<char>) -> bool,
)
    requires
        represents(idx, rel0),
        forall|n: Node, l: Seq<char>| #[trigger] rel1(n, l) <==> rel0(n, l),
    ensures
        represents(idx, rel1),
{
}

/// The claim labels of the first `i` files.
pub open spec fn file_labels(g: ProjectGraph, i: int) -> Seq<Seq<char>>
    decreases i,
{
    if i <= 0 {
        Seq::empty()
    } else {
        file_labels(g, i - 1) + match g.files@[i - 1].language {
            Some(l) => seq![adapter_label(l@)],
            None => Seq::empty(),
        }
    }
}

/// The claim labels of package `i`'s manifest.
pub open spec fn manifest_labels(g: ProjectGraph, i: int) -> Seq<Seq<char>> {
    g.packages@[i].manifest_claim_languages@.map_values(|l: String| adapter_label(l@))
}

/// The claim labels of the first `i` packages.
pub open spec fn package_labels(g: ProjectGraph, i: int) -> Seq<Seq<char>>
    decreases i,
{
    if i <= 0 {
        Seq::empty()
    } else {
        package_labels(g, i - 1) + manifest_labels(g, i - 1)
    }
}

/// The labels of the first `j` edges.
pub open spec fn edge_labels(g: ProjectGraph, j: int) -> Seq<Seq<char>>
    decreases j,
{
    if j <= 0 {
        Seq::empty()
    } else {
        edge_labels(g, j - 1).push(label_text(g.edges@[j - 1].source))
    }
}

/// Every label a graph's sources can name, with repeats: file claims, manifest claims,
/// then edge components.
pub open spec fn graph_labels(g: ProjectGraph) -> Seq<Seq<char>> {
    file_labels(g, g.files@.len() as int) + package_labels(g, g.packages@.len() as int) + edge_labels(
        g,
        g.edges@.len() as int,
    )
}

/// Node numbers fit the `u32` ids the graph uses.
pub open spec fn ids_fit(g: ProjectGraph) -> bool {
    g.files@.len() <= 0xffff_ffff && g.packages@.len() <= 0xffff_ffff
}

impl ProvenanceIndex {
    /// Builds the index over a graph. As long as the graph's distinct labels number
    /// at most `u16::MAX + 1`, each node's recorded sources are exactly its sources.
    pub fn build(graph: &ProjectGraph) -> (r: Self)
        requires
            ids_fit(*graph),
        ensures
            r.wf(),
            r.label_count() == distinct_count(graph_labels(*graph)),
            distinct_count(graph_labels(*graph)) <= 65536 ==> forall|n: Node| #[trigger] r.sources_of(n) == sources(*graph, n),
    {
        let ghost g = *graph;
        let mut interner = label_ids_new();
        let ghost mut seen: Seq<Seq<char>> = Seq::empty();
        let mut idx = ProvenanceIndex {
            labels: Vec::new(),
            files: Vec::new(),
            symbols: Vec::new(),
            dependencies: Vec::new(),
            packages: Vec::new(),
        };
        proof {
            assert(tracks(idx.labels@, seen));
            assert forall|k: Seq<char>| #[trigger] label_ids(interner).contains_key(k) <==> exists|j: int|
                0 <= j < idx.labels@.len() && idx.labels@[j]@ == k by {}
            assert forall|n: Node, l: Seq<char>|
                #[trigger] has_pair(idx.list_for(n), idx.labels@, node_id(n), l) <==> files_phase(g, 0)(n, l) by {}
        }
        // (1) The claim: a claimed file's facts are its adapter's.
        let mut i: usize = 0;
        while i < graph.files.len()
            invariant
                g == *graph,
                ids_fit(g),
                i <= g.files@.len(),
                interned(interner, idx.labels@),
                represents(idx, files_phase(g, i as int)),
                tracks(idx.labels@, seen),
                seen == file_labels(g, i as int),
            decreases g.files@.len() - i,
        {
            let ghost before = idx;
            match &graph.files[i].language {
                Some(language) => {
                    let text = label(&Provenance::Adapter(language.clone()));
                    let ghost lv = text@;
                    let id = intern(&mut interner, &mut idx.labels, text, Ghost(seen));
                    proof {
                        seen = seen.push(lv);
                        assert(file_labels(g, i + 1) =~= seen);
                    }
                    let ghost mid = idx;
                    push_pair(&mut idx, Node::File(FileId(i as u32)), id);
                    proof {
                        lemma_represents_step(
                            before,
                            idx,
                            Node::File(FileId(i as u32)),
                            id,
                            adapter_label(language@),
                            files_phase(g, i as int),
                            files_phase(g, i + 1),
                        );
                    }
                },
                None => {
                    proof {
                        lemma_represents_same(idx, files_phase(g, i as int), files_phase(g, i + 1));
                        assert(file_labels(g, i + 1) =~= seen);
                    }
                },
            }
            i = i + 1;
        }
        proof {
            lemma_represents_same(idx, files_phase(g, i as int), packages_phase(g, 0, 0));
            assert(seen =~= file_labels(g, g.files@.len() as int) + package_labels(g, 0));
        }
        // (1b) A manifest's claim: every adapter whose manifest claim accepts it.
        let mut i: usize = 0;
        while i < graph.packages.len()
            invariant
                g == *graph,
                ids_fit(g),
                i <= g.packages@.len(),
                interned(interner, idx.labels@),
                represents(idx, packages_phase(g, i as int, 0)),
                tracks(idx.labels@, seen),
                seen == file_labels(g, g.files@.len() as int) + package_labels(g, i as int),
            decreases g.packages@.len() - i,
        {
            let languages = &graph.packages[i].manifest_claim_languages;
            let mut k: usize = 0;
            while k < languages.len()
                invariant
                    g == *graph,
                    ids_fit(g),
                    i < g.packages@.len(),
                    *languages == g.packages@[i as int].manifest_claim_languages,
                    k <= languages@.len(),
                    interned(interner, idx.labels@),
                    represents(idx, packages_phase(g, i as int, k as int)),
                    tracks(idx.labels@, seen),
                    seen == file_labels(g, g.files@.len() as int) + package_labels(g, i as int) + manifest_labels(
                        g,
                        i as int,
                    ).take(k as int),
                decreases languages@.len() - k,
            {
                let ghost before = idx;
                let language = &languages[k];
                let text = label(&Provenance::Adapter(language.clone()));
                let ghost lv = text@;
                let id = intern(&mut interner, &mut idx.labels, text, Ghost(seen));
                proof {
                    seen = seen.push(lv);
                    assert(manifest_labels(g, i as int).take(k + 1) =~= manifest_labels(g, i as int).take(k as int).push(lv));
                }
                push_pair(&mut idx, Node::Package(PackageId(i as u32)), id);
                proof {
                    let r0 = packages_phase(g, i as int, k as int);
                    let r1 = packages_phase(g, i as int, k + 1);
                    assert forall|n: Node, l: Seq<char>| #[trigger] r1(n, l) <==> r0(n, l) || (n == Node::Package(
                        PackageId(i as u32),
                    ) && l == adapter_label(language@)) by {
                        if n is Package && node_id(n) == i && i < g.packages@.len() {
                            if exists|q: int|
                                0 <= q < k + 1 && l == adapter_label(
                                    #[trigger] g.packages@[i as int].manifest_claim_languages@[q]@,
                                ) {
                                let q = choose|q: int|
                                    0 <= q < k + 1 && l == adapter_label(
                                        #[trigger] g.packages@[i as int].manifest_claim_languages@[q]@,
                                    );
                                if q < k {
                                    assert(r0(n, l));
                                }
                            }
                            if l == adapter_label(language@) {
                                assert(l == adapter_label(g.packages@[i as int].manifest_claim_languages@[k as int]@));
                            }
                        }
                    }
                    lemma_represents_step(
                        before,
                        idx,
                        Node::Package(PackageId(i as u32)),
                        id,
                        adapter_label(language@),
                        r0,
                        r1,
                    );
                }
                k = k + 1;
            }
            proof {
                assert(manifest_labels(g, i as int).take(k as int) =~= manifest_labels(g, i as int));
                assert(file_labels(g, g.files@.len() as int) + package_labels(g, i + 1) =~= seen);
                let r0 = packages_phase(g, i as int, k as int);
                let r1 = packages_phase(g, i + 1, 0);
                assert forall|n: Node, l: Seq<char>| #[trigger] r1(n, l) <==> r0(n, l) by {
                    if n is Package && node_id(n) == i {
                        if claimed(g, n, l) {
                            let q = choose|q: int|
                                0 <= q < g.packages@[i as int].manifest_claim_languages@.len() && l == adapter_label(
                                    #[trigger] g.packages@[i as int].manifest_claim_languages@[q]@,
                                );
                            assert(r0(n, l));
                        }
                    }
                }
                lemma_represents_same(idx, r0, r1);
            }
            i = i + 1;
        }
        proof {
            let r0 = packages_phase(g, i as int, 0);
            let r1 = edges_phase(g, 0, 0);
            assert(seen =~= file_labels(g, g.files@.len() as int) + package_labels(g, g.packages@.len() as int) + edge_labels(g, 0));
            assert forall|n: Node, l: Seq<char>| #[trigger] r1(n, l) <==> r0(n, l) by {}
            lemma_represents_same(idx, r0, r1);
        }
        // (2) Every edge, marking both endpoints.
        let mut j: usize = 0;
        while j < graph.edges.len()
            invariant
                g == *graph,
                j <= g.edges@.len(),
                interned(interner, idx.labels@),
                represents(idx, edges_phase(g, j as int, 0)),
                tracks(idx.labels@, seen),
                seen == file_labels(g, g.files@.len() as int) + package_labels(g, g.packages@.len() as int) + edge_labels(
                    g,
                    j as int,
                ),
            decreases g.edges@.len() - j,
        {
            let edge = &graph.edges[j];
            let ghost before = idx;
            let text = label(&edge.source);
            let id = intern(&mut interner, &mut idx.labels, text, Ghost(seen));
            let ghost l0 = label_text(edge.source);
            proof {
                seen = seen.push(l0);
            }
            proof {
                lemma_represents_grow(before, idx, edges_phase(g, j as int, 0));
            }
            let marks = edge_endpoints(&edge.kind);
            let mut t: usize = 0;
            while t < marks.len()
                invariant
                    g == *graph,
                    j < g.edges@.len(),
                    *edge == g.edges@[j as int],
                    l0 == label_text(edge.source),
                    marks@ == endpoints(edge.kind),
                    t <= marks@.len(),
                    (id as int) < idx.labels@.len(),
                    idx.labels@.len() <= 65536 ==> idx.labels@[id as int]@ == l0,
                    interned(interner, idx.labels@),
                    represents(idx, edges_phase(g, j as int, t as int)),
                    tracks(idx.labels@, seen),
                    seen == file_labels(g, g.files@.len() as int) + package_labels(g, g.packages@.len() as int) + edge_labels(
                        g,
                        j + 1,
                    ),
                decreases marks@.len() - t,
            {
                let ghost step = idx;
                let n = marks[t];
                push_pair(&mut idx, n, id);
                proof {
                    let r0 = edges_phase(g, j as int, t as int);
                    let r1 = edges_phase(g, j as int, t + 1);
                    assert forall|m: Node, l: Seq<char>| #[trigger] r1(m, l) <==> r0(m, l) || (m == n && l == l0) by {
                        if exists|q: int|
                            0 <= q < t + 1 && #[trigger] endpoints(g.edges@[j as int].kind)[q] == m && l == label_text(
                                g.edges@[j as int].source,
                            ) {
                            let q = choose|q: int|
                                0 <= q < t + 1 && #[trigger] endpoints(g.edges@[j as int].kind)[q] == m && l
                                    == label_text(g.edges@[j as int].source);
                            if q < t {
                                assert(r0(m, l));
                            }
                        }
                        if m == n && l == l0 {
                            assert(endpoints(g.edges@[j as int].kind)[t as int] == m);
                        }
                    }
                    assert(idx.labels@.take(step.labels@.len() as int) =~= step.labels@);
                    lemma_represents_step(step, idx, n, id, l0, r0, r1);
                }
                t = t + 1;
            }
            proof {
                let r0 = edges_phase(g, j as int, t as int);
                let r1 = edges_phase(g, j + 1, 0);
                assert forall|m: Node, l: Seq<char>| #[trigger] r1(m, l) <==> r0(m, l) by {
                    if marked(g, j + 1, m, l) {
                        let e = choose|e: int|
                            0 <= e < j + 1 && endpoints(#[trigger] g.edges@[e].kind).contains(m) && l == label_text(
                                g.edges@[e].source,
                            );
                        if e < j {
                            assert(marked(g, j as int, m, l));
                        } else {
                            let q = choose|q: int| 0 <= q < marks@.len() && marks@[q] == m;
                            assert(endpoints(g.edges@[j as int].kind)[q] == m);
                        }
                    }
                    if exists|q: int|
                        0 <= q < t && #[trigger] endpoints(g.edges@[j as int].kind)[q] == m && l == label_text(
                            g.edges@[j as int].source,
                        ) {
                        let q = choose|q: int|
                            0 <= q < t && #[trigger] endpoints(g.edges@[j as int].kind)[q] == m && l == label_text(
                                g.edges@[j as int].source,
                            );
                        assert(endpoints(g.edges@[j as int].kind).contains(m));
                        assert(marked(g, j + 1, m, l));
                    }
                    if marked(g, j as int, m, l) {
                        let e = choose|e: int|
                            0 <= e < j && endpoints(#[trigger] g.edges@[e].kind).contains(m) && l == label_text(
                                g.edges@[e].source,
                            );
                        assert(marked(g, j + 1, m, l));
                    }
                }
                lemma_represents_same(idx, r0, r1);
            }
            j = j + 1;
        }
        let ghost unsorted = idx;
        proof {
            assert(seen == graph_labels(g));
        }
        sort_pairs(&mut idx.files);
        proof {
            crate::seqs::lemma_multiset_same_set(unsorted.files@, idx.files@);
        }
        dedup_pairs(&mut idx.files);
        sort_pairs(&mut idx.symbols);
        proof {
            crate::seqs::lemma_multiset_same_set(unsorted.symbols@, idx.symbols@);
        }
        dedup_pairs(&mut idx.symbols);
        sort_pairs(&mut idx.dependencies);
        proof {
            crate::seqs::lemma_multiset_same_set(unsorted.dependencies@, idx.dependencies@);
        }
        dedup_pairs(&mut idx.dependencies);
        sort_pairs(&mut idx.packages);
        proof {
            crate::seqs::lemma_multiset_same_set(unsorted.packages@, idx.packages@);
        }
        dedup_pairs(&mut idx.packages);
        proof {
            let rel = edges_phase(g, j as int, 0);
            assert forall|n: Node| #[trigger] idx.list_for(n).to_set() == unsorted.list_for(n).to_set() by {}
            assert forall|n: Node, k: int| 0 <= k < idx.list_for(n).len() implies ((#[trigger] idx.list_for(n)[k]).1 as int)
                < idx.labels@.len() by {
                assert(idx.list_for(n).to_set().contains(idx.list_for(n)[k]));
                assert(unsorted.list_for(n).to_set().contains(idx.list_for(n)[k]));
            }
            if idx.labels@.len() <= 65536 {
                assert forall|n: Node| #[trigger] idx.sources_of(n) == sources(g, n) by {
                    assert forall|l: Seq<char>| idx.sources_of(n).contains(l) <==> sources(g, n).contains(l) by {
                        lemma_has_pair_same_set(idx.list_for(n), unsorted.list_for(n), idx.labels@, node_id(n), l);
                        assert(has_pair(unsorted.list_for(n), unsorted.labels@, node_id(n), l) <==> rel(n, l));
                    }
                    assert(idx.sources_of(n) =~= sources(g, n));
                }
            }
        }
        idx
    }
}

/// Interning a label without recording a pair keeps what is represented.
proof fn lemma_represents_grow(old_idx: ProvenanceIndex, new_idx: ProvenanceIndex, rel: spec_fn(Node, Seq<char>) -> bool)
    requires
        represents(old_idx, rel),
        old_idx.labels@.len() <= new_idx.labels@.len(),
        new_idx.labels@.take(old_idx.labels@.len() as int) == old_idx.labels@,
        forall|m: Node| #[trigger] new_idx.list_for(m) == old_idx.list_for(m),
    ensures
        represents(new_idx, rel),
{
    if new_idx.labels@.len() <= 65536 {
        assert forall|n: Node, l: Seq<char>|
            #[trigger] has_pair(new_idx.list_for(n), new_idx.labels@, node_id(n), l) <==> rel(n, l) by {
            lemma_has_pair_step(old_idx.list_for(n), old_idx.labels@, new_idx.labels@, node_id(n), l);
        }
    }
}

/// Strictly ascending by label text.
pub open spec fn labels_increasing(s: Seq<&str>) -> bool {
    forall|i: int, j: int| 0 <= i < j < s.len() ==> seq_lex_lt(s[i]@, s[j]@)
}

/// The label texts a list holds.
pub open spec fn label_set(s: Seq<&str>) -> Set<Seq<char>> {
    Set::new(|x: Seq<char>| exists|i: int| 0 <= i < s.len() && (#[trigger] s[i])@ == x)
}

/// Adds `l` to a strictly ascending list, in place, unless it is there.
fn insert_label<'a>(out: &mut Vec<&'a str>, l: &'a str)
    requires
        labels_increasing(old(out)@),
    ensures
        labels_increasing(final(out)@),
        label_set(final(out)@) == label_set(old(out)@).insert(l@),
{
    let ghost before = out@;
    let mut p: usize = 0;
    while p < out.len() && compare_str(out[p], l) == Comparison::Less
        invariant
            out@ == before,
            labels_increasing(before),
            p <= before.len(),
            forall|i: int| 0 <= i < p ==> seq_lex_lt(#[trigger] before[i]@, l@),
        decreases before.len() - p,
    {
        p = p + 1;
    }
    if p < out.len() && compare_str(out[p], l) == Comparison::Equal {
        proof {
            assert(label_set(before) =~= label_set(before).insert(l@)) by {
                assert(label_set(before).contains(before[p as int]@));
            }
        }
        return ;
    }
    proof {
        if p < before.len() {
            lemma_lex_total(before[p as int]@, l@);
            assert(seq_lex_lt(l@, before[p as int]@));
        }
    }
    out.insert(p, l);
    proof {
        let after = out@;
        assert(after =~= before.insert(p as int, l));
        assert forall|i: int, j: int| 0 <= i < j < after.len() implies seq_lex_lt(after[i]@, after[j]@) by {
            if j == p {
                assert(after[i] == before[i]);
            } else if i == p {
                assert(after[j] == before[j - 1]);
                if j - 1 > p {
                    assert(seq_lex_lt(before[p as int]@, before[j - 1]@));
                    lemma_lex_transitive(l@, before[p as int]@, before[j - 1]@);
                    if l@ == before[j - 1]@ {
                        lemma_lex_antisymmetric(l@, before[p as int]@);
                    }
                }
            } else if i < p && j > p {
                assert(after[i] == before[i]);
                assert(after[j] == before[j - 1]);
                assert(seq_lex_lt(before[i]@, before[j - 1]@));
            } else if j < p {
                assert(after[i] == before[i] && after[j] == before[j]);
            } else {
                assert(after[i] == before[i - 1] && after[j] == before[j - 1]);
            }
        }
        assert(label_set(after) =~= label_set(before).insert(l@)) by {
            assert forall|x: Seq<char>| label_set(after).contains(x) implies label_set(before).insert(l@).contains(x) by {
                let i = choose|i: int| 0 <= i < after.len() && (#[trigger] after[i])@ == x;
                if i < p {
                    assert(before[i]@ == x);
                } else if i > p {
                    assert(before[i - 1]@ == x);
                }
            }
            assert forall|x: Seq<char>| label_set(before).insert(l@).contains(x) implies label_set(after).contains(x) by {
                if x == l@ {
                    assert(after[p as int]@ == x);
                } else {
                    let i = choose|i: int| 0 <= i < before.len() && (#[trigger] before[i])@ == x;
                    if i < p {
                        assert(after[i]@ == x);
                    } else {
                        assert(after[i + 1]@ == x);
                    }
                }
            }
        }
    }
}

/// The label of one of the first `k` pairs of `list`.
spec fn run_label(labels: Seq<String>, list: Seq<(u32, u16)>, k: int, l: Seq<char>) -> bool {
    exists|m: int| 0 <= m < k && labels[(#[trigger] list[m]).1 as int]@ == l
}

proof fn lemma_run_label_step(labels: Seq<String>, list: Seq<(u32, u16)>, k: int, l: Seq<char>)
    requires
        0 <= k < list.len(),
    ensures
        run_label(labels, list, k + 1, l) <==> run_label(labels, list, k, l) || labels[list[k].1 as int]@ == l,
{
    if run_label(labels, list, k + 1, l) {
        let m = choose|m: int| 0 <= m < k + 1 && labels[(#[trigger] list[m]).1 as int]@ == l;
        if m < k {
            assert(run_label(labels, list, k, l));
        }
    }
    if run_label(labels, list, k, l) {
        let m = choose|m: int| 0 <= m < k && labels[(#[trigger] list[m]).1 as int]@ == l;
        assert(0 <= m < k + 1 && labels[(list[m]).1 as int]@ == l);
    }
    if labels[list[k].1 as int]@ == l {
        assert(0 <= k < k + 1 && labels[(list[k]).1 as int]@ == l);
    }
}

impl ProvenanceIndex {
    /// The sources of any set of nodes, each label once, sorted by label so the list
    /// is stable across runs, thread counts and cache states.
    pub fn union<'a>(&'a self, nodes: &[Node]) -> (r: Vec<&'a str>)
        requires
            self.wf(),
        ensures
            labels_increasing(r@),
            forall|l: Seq<char>|
                label_set(r@).contains(l) <==> exists|i: int|
                    0 <= i < nodes@.len() && (#[trigger] self.sources_of(nodes@[i])).contains(l),
    {
        let mut out: Vec<&'a str> = Vec::new();
        let mut i: usize = 0;
        proof {
            assert(label_set(out@) =~= Set::<Seq<char>>::empty());
        }
        while i < nodes.len()
            invariant
                self.wf(),
                i <= nodes@.len(),
                labels_increasing(out@),
                forall|l: Seq<char>|
                    label_set(out@).contains(l) <==> exists|q: int|
                        0 <= q < i && (#[trigger] self.sources_of(nodes@[q])).contains(l),
            decreases nodes@.len() - i,
        {
            let n = nodes[i];
            let list: &[(u32, u16)] = match n {
                Node::File(f) => lookup(self.files.as_slice(), f.0),
                Node::Symbol(s) => lookup(self.symbols.as_slice(), s.0),
                Node::Dependency(d) => lookup(self.dependencies.as_slice(), d.0),
                Node::Package(p) => lookup(self.packages.as_slice(), p.0),
            };
            proof {
                assert(forall|p: (u32, u16)| list@.contains(p) <==> (self.list_for(n).contains(p) && p.0 == node_id(n)));
            }
            let ghost start = out@;
            let mut k: usize = 0;
            while k < list.len()
                invariant
                    self.wf(),
                    i < nodes@.len(),
                    n == nodes@[i as int],
                    forall|p: (u32, u16)| list@.contains(p) <==> (self.list_for(n).contains(p) && p.0 == node_id(n)),
                    k <= list@.len(),
                    labels_increasing(out@),
                    forall|l: Seq<char>|
                        #[trigger] label_set(out@).contains(l) <==> label_set(start).contains(l) || run_label(
                            self.labels@,
                            list@,
                            k as int,
                            l,
                        ),
                decreases list@.len() - k,
            {
                let pair = list[k];
                proof {
                    assert(list@.contains(pair));
                    let q = choose|q: int| 0 <= q < self.list_for(n).len() && self.list_for(n)[q] == pair;
                    assert((self.list_for(n)[q].1 as int) < self.labels@.len());
                }
                let ghost mid = out@;
                let text = self.labels[pair.1 as usize].as_str();
                insert_label(&mut out, text);
                proof {
                    assert(list@[k as int] == pair);
                    assert forall|l: Seq<char>|
                        #[trigger] label_set(out@).contains(l) <==> label_set(start).contains(l) || run_label(
                            self.labels@,
                            list@,
                            k + 1,
                            l,
                        ) by {
                        lemma_run_label_step(self.labels@, list@, k as int, l);
                        assert(label_set(out@).contains(l) == (label_set(mid).contains(l) || l == text@));
                    }
                }
                k = k + 1;
            }
            proof {
                assert forall|l: Seq<char>|
                    label_set(out@).contains(l) <==> exists|q: int|
                        0 <= q < i + 1 && (#[trigger] self.sources_of(nodes@[q])).contains(l) by {
                    let from_run = run_label(self.labels@, list@, list@.len() as int, l);
                    assert(from_run <==> self.sources_of(n).contains(l)) by {
                        if from_run {
                            let m = choose|m: int| 0 <= m < list@.len() && self.labels@[(#[trigger] list@[m]).1 as int]@ == l;
                            assert(list@.contains(list@[m]));
                            let q = choose|q: int| 0 <= q < self.list_for(n).len() && self.list_for(n)[q] == list@[m];
                            assert(has_pair(self.list_for(n), self.labels@, node_id(n), l));
                        }
                        if self.sources_of(n).contains(l) {
                            assert(has_pair(self.list_for(n), self.labels@, node_id(n), l));
                            let q = choose|q: int|
                                0 <= q < self.list_for(n).len() && (#[trigger] self.list_for(n)[q]).0 == node_id(n)
                                    && (self.list_for(n)[q].1 as int) < self.labels@.len()
                                    && self.labels@[self.list_for(n)[q].1 as int]@ == l;
                            assert(self.list_for(n).contains(self.list_for(n)[q]));
                            assert(list@.contains(self.list_for(n)[q]));
                            let m = choose|m: int| 0 <= m < list@.len() && list@[m] == self.list_for(n)[q];
                            assert(self.labels@[(list@[m]).1 as int]@ == l);
                        }
                    }
                    if exists|q: int| 0 <= q < i + 1 && (#[trigger] self.sources_of(nodes@[q])).contains(l) {
                        let q = choose|q: int| 0 <= q < i + 1 && (#[trigger] self.sources_of(nodes@[q])).contains(l);
                        if q < i {
                            assert(label_set(start).contains(l));
                        }
                    }
                }
            }
            i = i + 1;
        }
        out
    }
}

} // verus!
