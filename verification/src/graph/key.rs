//! The graph snapshot's cache key: one BLAKE3 digest over the whole discovered file
//! set (every path and content hash), each registered adapter's id and facts-schema
//! version, each graph-mutating plugin's identity, and the graph schema version.
//! Every variable-length field is length-prefixed, so the digest input is
//! unambiguous by construction: two different file sets never frame to the same bytes.

use vstd::prelude::*;

use crate::text::{lemma_lex_antisymmetric, lemma_lex_total, lemma_lex_transitive, seq_lex_lt, compare_str, Comparison};
use crate::vocab::ProjectPath;

verus! {

/// Bumped whenever the persisted snapshot shape, or the assembly semantics that derive
/// a graph from the same facts, change.
pub const GRAPH_SCHEMA_VERSION: u32 = 28;

/// One discovered file: its path and the hash of its content.
#[derive(Debug, Clone)]
pub struct DiscoveredFile {
    pub path: ProjectPath,
    pub content_hash: [u8; 32],
}

/// BLAKE3 of a byte sequence, 32 bytes.
pub uninterp spec fn blake3_of(input: Seq<u8>) -> Seq<u8>;

/// `blake3::hash`: the 32-byte BLAKE3 digest of `input`.
#[verifier::external_body]
fn blake3_digest(input: &[u8]) -> (r: [u8; 32])
    ensures
        r@ == blake3_of(input@),
{
    *blake3::hash(input).as_bytes()
}

/// The little-endian bytes of a `u32`.
pub open spec fn le32(v: u32) -> Seq<u8> {
    seq![(v % 256) as u8, ((v / 256) % 256) as u8, ((v / 65536) % 256) as u8, (v / 16777216) as u8]
}

fn push_le32(out: &mut Vec<u8>, v: u32)
    ensures
        final(out)@ == old(out)@ + le32(v),
{
    out.push((v % 256) as u8);
    out.push(((v / 256) % 256) as u8);
    out.push(((v / 65536) % 256) as u8);
    out.push((v / 16777216) as u8);
    proof {
        assert(out@ =~= old(out)@ + le32(v));
    }
}

fn push_bytes(out: &mut Vec<u8>, bytes: &[u8])
    ensures
        final(out)@ == old(out)@ + bytes@,
{
    let ghost start = out@;
    let mut i: usize = 0;
    while i < bytes.len()
        invariant
            i <= bytes@.len(),
            out@ == start + bytes@.take(i as int),
        decreases bytes@.len() - i,
    {
        out.push(bytes[i]);
        proof {
            assert(bytes@.take(i + 1) =~= bytes@.take(i as int).push(bytes@[i as int]));
            assert(out@ =~= start + bytes@.take(i + 1));
        }
        i = i + 1;
    }
    proof {
        assert(bytes@.take(bytes@.len() as int) =~= bytes@);
    }
}

/// A string field, length-prefixed: its byte count, then its UTF-8 bytes.
pub open spec fn frame_str(s: Seq<char>) -> Seq<u8> {
    le32(vstd::utf8::encode_utf8(s).len() as u32) + vstd::utf8::encode_utf8(s)
}

fn push_str(out: &mut Vec<u8>, s: &str)
    ensures
        final(out)@ == old(out)@ + frame_str(s@),
{
    let bytes = s.as_bytes();
    push_le32(out, bytes.len() as u32);
    push_bytes(out, bytes);
    proof {
        assert(out@ =~= old(out)@ + frame_str(s@));
    }
}

/// One discovered file, framed: its path, length-prefixed, then its content hash.
pub open spec fn frame_file(f: DiscoveredFile) -> Seq<u8> {
    frame_str(f.path.0@) + f.content_hash@
}

/// The discovered files, framed in order.
pub open spec fn frame_files(files: Seq<DiscoveredFile>) -> Seq<u8>
    decreases files.len(),
{
    if files.len() == 0 {
        Seq::empty()
    } else {
        frame_files(files.drop_last()) + frame_file(files.last())
    }
}

/// Folds the discovered files (already sorted by path) into the key input.
pub fn fold_discovered_files(out: &mut Vec<u8>, discovered_files: &[DiscoveredFile])
    ensures
        final(out)@ == old(out)@ + frame_files(discovered_files@),
{
    let ghost start = out@;
    let mut i: usize = 0;
    while i < discovered_files.len()
        invariant
            i <= discovered_files@.len(),
            out@ == start + frame_files(discovered_files@.take(i as int)),
        decreases discovered_files@.len() - i,
    {
        let f = &discovered_files[i];
        push_str(out, f.path.0.as_str());
        push_bytes(out, &f.content_hash);
        proof {
            assert(discovered_files@.take(i + 1).drop_last() =~= discovered_files@.take(i as int));
            assert(out@ =~= start + frame_files(discovered_files@.take(i + 1)));
        }
        i = i + 1;
    }
    proof {
        assert(discovered_files@.take(discovered_files@.len() as int) =~= discovered_files@);
    }
}


/// Ascending under `le`.
pub open spec fn ascending_by<V>(s: Seq<V>, le: spec_fn(V, V) -> bool) -> bool {
    forall|i: int, j: int| 0 <= i < j < s.len() ==> le(s[i], s[j])
}

/// Under an order where mutual `le` means equal, two ascending arrangements of one
/// multiset are the same sequence.
pub proof fn lemma_sorted_unique<V>(s: Seq<V>, t: Seq<V>, le: spec_fn(V, V) -> bool)
    requires
        ascending_by(s, le),
        ascending_by(t, le),
        s.to_multiset() == t.to_multiset(),
        forall|a: V, b: V| #[trigger] le(a, b) && le(b, a) ==> a == b,
    ensures
        s == t,
    decreases s.len(),
{
    broadcast use vstd::seq_lib::group_to_multiset_ensures;
    if s.len() == 0 {
        assert(t.to_multiset().len() == 0);
        assert(t =~= s);
    } else {
        s.to_multiset_ensures();
        t.to_multiset_ensures();
        assert(t.len() == s.len());
        let x = s.last();
        let y = t.last();
        assert(s.to_multiset().count(x) > 0);
        assert(t.contains(x));
        let k = choose|k: int| 0 <= k < t.len() && t[k] == x;
        assert(t.to_multiset().count(y) > 0);
        assert(s.contains(y));
        let m = choose|m: int| 0 <= m < s.len() && s[m] == y;
        if k < t.len() - 1 && m < s.len() - 1 {
            assert(le(t[k], t[t.len() - 1]));
            assert(le(s[m], s[s.len() - 1]));
        }
        assert(x == y);
        assert(s =~= s.drop_last().push(x));
        assert(t =~= t.drop_last().push(y));
        vstd::seq_lib::to_multiset_build(s.drop_last(), x);
        vstd::seq_lib::to_multiset_build(t.drop_last(), y);
        assert(s.to_multiset() == s.drop_last().to_multiset().insert(x));
        assert(t.to_multiset() == t.drop_last().to_multiset().insert(x));
        assert(s.drop_last().to_multiset() =~= t.drop_last().to_multiset()) by {
            assert forall|v: V| s.drop_last().to_multiset().count(v) == t.drop_last().to_multiset().count(v) by {
                assert(s.to_multiset().count(v) == t.to_multiset().count(v));
                assert(s.drop_last().to_multiset().insert(x).count(v) == s.drop_last().to_multiset().count(v) + if v == x { 1nat } else { 0nat });
                assert(t.drop_last().to_multiset().insert(x).count(v) == t.drop_last().to_multiset().count(v) + if v == x { 1nat } else { 0nat });
            }
        }
        lemma_sorted_unique(s.drop_last(), t.drop_last(), le);
    }
}

/// Inserting anywhere adds one occurrence.
proof fn lemma_insert_multiset<V>(s: Seq<V>, p: int, x: V)
    requires
        0 <= p <= s.len(),
    ensures
        s.insert(p, x).to_multiset() == s.to_multiset().insert(x),
{
    let a = s.take(p);
    let b = s.skip(p);
    assert(s =~= a + b);
    assert(s.insert(p, x) =~= a.push(x) + b);
    vstd::seq_lib::lemma_multiset_commutative(a, b);
    vstd::seq_lib::lemma_multiset_commutative(a.push(x), b);
    vstd::seq_lib::to_multiset_build(a, x);
    assert(s.insert(p, x).to_multiset() =~= s.to_multiset().insert(x));
}

/// An adapter entry as plain values.
pub open spec fn adapter_view(a: (String, u32)) -> (Seq<char>, u32) {
    (a.0@, a.1)
}

/// `(id, version)` order: by id, then by version.
pub open spec fn adapter_le(a: (Seq<char>, u32), b: (Seq<char>, u32)) -> bool {
    seq_lex_lt(a.0, b.0) || (a.0 == b.0 && a.1 <= b.1)
}

proof fn lemma_adapter_order()
    ensures
        forall|a: (Seq<char>, u32), b: (Seq<char>, u32)| #[trigger] adapter_le(a, b) || adapter_le(b, a),
        forall|a: (Seq<char>, u32), b: (Seq<char>, u32)| #[trigger] adapter_le(a, b) && adapter_le(b, a) ==> a == b,
        forall|a: (Seq<char>, u32), b: (Seq<char>, u32), c: (Seq<char>, u32)|
            #[trigger] adapter_le(a, b) && #[trigger] adapter_le(b, c) ==> adapter_le(a, c),
{
    assert forall|a: (Seq<char>, u32), b: (Seq<char>, u32)| #[trigger] adapter_le(a, b) || adapter_le(b, a) by {
        lemma_lex_total(a.0, b.0);
    }
    assert forall|a: (Seq<char>, u32), b: (Seq<char>, u32)| #[trigger] adapter_le(a, b) && adapter_le(b, a) implies a == b by {
        if a.0 != b.0 {
            lemma_lex_antisymmetric(a.0, b.0);
        }
    }
    assert forall|a: (Seq<char>, u32), b: (Seq<char>, u32), c: (Seq<char>, u32)|
        #[trigger] adapter_le(a, b) && #[trigger] adapter_le(b, c) implies adapter_le(a, c) by {
        if a.0 != b.0 && b.0 != c.0 {
            lemma_lex_transitive(a.0, b.0, c.0);
            if a.0 == c.0 {
                lemma_lex_antisymmetric(a.0, b.0);
            }
        }
    }
}

fn adapter_le_exec(a: &(String, u32), b: &(String, u32)) -> (r: bool)
    ensures
        r == adapter_le(adapter_view(*a), adapter_view(*b)),
{
    match compare_str(a.0.as_str(), b.0.as_str()) {
        Comparison::Less => true,
        Comparison::Equal => a.1 <= b.1,
        Comparison::Greater => false,
    }
}

/// `adapter_view`, as a value.
pub open spec fn adapter_view_fn() -> spec_fn((String, u32)) -> (Seq<char>, u32) {
    |a: (String, u32)| adapter_view(a)
}

/// The adapter entries as plain values.
pub open spec fn adapter_views(s: Seq<(String, u32)>) -> Seq<(Seq<char>, u32)> {
    s.map_values(adapter_view_fn())
}

/// A total preorder whose mutual pairs are equal.
pub open spec fn total_order<V>(le: spec_fn(V, V) -> bool) -> bool {
    &&& forall|a: V, b: V| #[trigger] le(a, b) || le(b, a)
    &&& forall|a: V, b: V| #[trigger] le(a, b) && le(b, a) ==> a == b
    &&& forall|a: V, b: V, c: V| #[trigger] le(a, b) && #[trigger] le(b, c) ==> le(a, c)
}

/// Sorts `v` by `le` over the elements' views, comparing with `precedes`.
pub(crate) fn sort_by_view<T, V, F: Fn(&T, &T) -> bool>(
    v: Vec<T>,
    view: Ghost<spec_fn(T) -> V>,
    le: Ghost<spec_fn(V, V) -> bool>,
    precedes: F,
) -> (r: Vec<T>)
    requires
        total_order(le@),
        forall|a: &T, b: &T| #[trigger] precedes.requires((a, b)),
        forall|a: &T, b: &T, x: bool| precedes.ensures((a, b), x) ==> x == le@(view@(*a), view@(*b)),
    ensures
        r@.map_values(view@).to_multiset() == v@.map_values(view@).to_multiset(),
        ascending_by(r@.map_values(view@), le@),
{
    let ghost f = view@;
    let ghost o = le@;
    let ghost input = v@.map_values(f);
    let mut rest = crate::seqs::reversed(v);
    let mut out: Vec<T> = Vec::new();
    proof {
        assert(input.take(0) =~= Seq::<V>::empty());
        assert(out@.map_values(f) =~= Seq::<V>::empty());
    }
    while rest.len() > 0
        invariant
            f == view@,
            o == le@,
            total_order(o),
            forall|a: &T, b: &T| #[trigger] precedes.requires((a, b)),
            forall|a: &T, b: &T, x: bool| precedes.ensures((a, b), x) ==> x == o(f(*a), f(*b)),
            rest@.len() <= input.len(),
            forall|k: int| 0 <= k < rest@.len() ==> f(#[trigger] rest@[k]) == input[input.len() - 1 - k],
            out@.map_values(f).to_multiset() == input.take(input.len() - rest@.len()).to_multiset(),
            ascending_by(out@.map_values(f), o),
        decreases rest@.len(),
    {
        let ghost done = input.len() - rest@.len();
        let ghost before = out@.map_values(f);
        let x = rest.pop().unwrap();
        let ghost xv = f(x);
        proof {
            assert(xv == input[done]);
        }
        let mut p: usize = 0;
        while p < out.len() && precedes(&out[p], &x)
            invariant
                f == view@,
                o == le@,
                forall|a: &T, b: &T| #[trigger] precedes.requires((a, b)),
                forall|a: &T, b: &T, x: bool| precedes.ensures((a, b), x) ==> x == o(f(*a), f(*b)),
                out@.map_values(f) == before,
                xv == f(x),
                p <= out@.len(),
                forall|i: int| 0 <= i < p ==> o(#[trigger] before[i], xv),
            decreases out@.len() - p,
        {
            p = p + 1;
        }
        out.insert(p, x);
        proof {
            let after = out@.map_values(f);
            assert(after =~= before.insert(p as int, xv));
            lemma_insert_multiset(before, p as int, xv);
            assert(input.take(done + 1) =~= input.take(done).push(xv));
            vstd::seq_lib::to_multiset_build(input.take(done), xv);
            if p < before.len() {
                assert(o(xv, before[p as int]));
            }
            assert forall|i: int, j: int| 0 <= i < j < after.len() implies o(after[i], after[j]) by {
                if j == p {
                    assert(after[i] == before[i]);
                } else if i == p {
                    assert(after[j] == before[j - 1]);
                    if j - 1 > p {
                        assert(o(before[p as int], before[j - 1]));
                    }
                } else if i < p && j > p {
                    assert(after[i] == before[i] && after[j] == before[j - 1]);
                    assert(o(before[i], before[j - 1]));
                } else if j < p {
                    assert(after[i] == before[i] && after[j] == before[j]);
                    assert(o(before[i], before[j]));
                } else {
                    assert(after[i] == before[i - 1] && after[j] == before[j - 1]);
                    assert(o(before[i - 1], before[j - 1]));
                }
            }
        }
    }
    proof {
        assert(input.take(input.len() as int) =~= input);
    }
    out
}

/// Lexicographic order on byte strings.
pub open spec fn bytes_le(a: Seq<u8>, b: Seq<u8>) -> bool
    decreases a.len(),
{
    if a.len() == 0 {
        true
    } else if b.len() == 0 {
        false
    } else if a[0] < b[0] {
        true
    } else if a[0] == b[0] {
        bytes_le(a.drop_first(), b.drop_first())
    } else {
        false
    }
}

proof fn lemma_bytes_total(a: Seq<u8>, b: Seq<u8>)
    ensures
        bytes_le(a, b) || bytes_le(b, a),
    decreases a.len(),
{
    if a.len() > 0 && b.len() > 0 && a[0] == b[0] {
        lemma_bytes_total(a.drop_first(), b.drop_first());
    }
}

proof fn lemma_bytes_antisymmetric(a: Seq<u8>, b: Seq<u8>)
    requires
        bytes_le(a, b),
        bytes_le(b, a),
    ensures
        a == b,
    decreases a.len(),
{
    if a.len() > 0 && b.len() > 0 {
        lemma_bytes_antisymmetric(a.drop_first(), b.drop_first());
        assert(a =~= seq![a[0]] + a.drop_first());
        assert(b =~= seq![b[0]] + b.drop_first());
    } else {
        assert(a =~= b);
    }
}

proof fn lemma_bytes_transitive(a: Seq<u8>, b: Seq<u8>, c: Seq<u8>)
    requires
        bytes_le(a, b),
        bytes_le(b, c),
    ensures
        bytes_le(a, c),
    decreases a.len(),
{
    if a.len() > 0 && b.len() > 0 && c.len() > 0 && a[0] == b[0] && b[0] == c[0] {
        lemma_bytes_transitive(a.drop_first(), b.drop_first(), c.drop_first());
    }
}

fn hash_le_exec(a: &[u8; 32], b: &[u8; 32]) -> (r: bool)
    ensures
        r == bytes_le(a@, b@),
{
    let mut i: usize = 0;
    proof {
        assert(a@.skip(0) =~= a@);
        assert(b@.skip(0) =~= b@);
    }
    while i < 32
        invariant
            i <= 32,
            a@.len() == 32,
            b@.len() == 32,
            bytes_le(a@, b@) == bytes_le(a@.skip(i as int), b@.skip(i as int)),
        decreases 32 - i,
    {
        proof {
            assert(a@.skip(i as int)[0] == a@[i as int]);
            assert(b@.skip(i as int)[0] == b@[i as int]);
            assert(a@.skip(i as int).drop_first() =~= a@.skip(i + 1));
            assert(b@.skip(i as int).drop_first() =~= b@.skip(i + 1));
        }
        if a[i] < b[i] {
            return true;
        }
        if a[i] > b[i] {
            return false;
        }
        i = i + 1;
    }
    proof {
        assert(a@.skip(32).len() == 0);
    }
    true
}

/// A plugin identity as plain values: id, version, optional component content hash.
pub open spec fn plugin_view(p: (String, String, Option<[u8; 32]>)) -> (Seq<char>, Seq<char>, Option<Seq<u8>>) {
    (
        p.0@,
        p.1@,
        match p.2 {
            Some(h) => Some(h@),
            None => None,
        },
    )
}

/// `plugin_view`, as a value.
pub open spec fn plugin_view_fn() -> spec_fn((String, String, Option<[u8; 32]>)) -> (Seq<char>, Seq<char>, Option<Seq<u8>>) {
    |p: (String, String, Option<[u8; 32]>)| plugin_view(p)
}

pub open spec fn plugin_views(s: Seq<(String, String, Option<[u8; 32]>)>) -> Seq<(Seq<char>, Seq<char>, Option<Seq<u8>>)> {
    s.map_values(plugin_view_fn())
}

/// No content hash sorts before any, and hashes compare bytewise.
pub open spec fn hash_le(x: Option<Seq<u8>>, y: Option<Seq<u8>>) -> bool {
    match (x, y) {
        (None, _) => true,
        (Some(_), None) => false,
        (Some(p), Some(q)) => bytes_le(p, q),
    }
}

/// `(id, version, content hash)` order.
pub open spec fn plugin_le(
    a: (Seq<char>, Seq<char>, Option<Seq<u8>>),
    b: (Seq<char>, Seq<char>, Option<Seq<u8>>),
) -> bool {
    seq_lex_lt(a.0, b.0) || (a.0 == b.0 && (seq_lex_lt(a.1, b.1) || (a.1 == b.1 && hash_le(a.2, b.2))))
}

proof fn lemma_plugin_order()
    ensures
        total_order(|a: (Seq<char>, Seq<char>, Option<Seq<u8>>), b: (Seq<char>, Seq<char>, Option<Seq<u8>>)| plugin_le(a, b)),
{
    let le = |a: (Seq<char>, Seq<char>, Option<Seq<u8>>), b: (Seq<char>, Seq<char>, Option<Seq<u8>>)| plugin_le(a, b);
    assert forall|a: (Seq<char>, Seq<char>, Option<Seq<u8>>), b: (Seq<char>, Seq<char>, Option<Seq<u8>>)|
        #[trigger] le(a, b) || le(b, a) by {
        lemma_lex_total(a.0, b.0);
        lemma_lex_total(a.1, b.1);
        if let (Some(p), Some(q)) = (a.2, b.2) {
            lemma_bytes_total(p, q);
        }
    }
    assert forall|a: (Seq<char>, Seq<char>, Option<Seq<u8>>), b: (Seq<char>, Seq<char>, Option<Seq<u8>>)|
        #[trigger] le(a, b) && le(b, a) implies a == b by {
        if a.0 != b.0 {
            lemma_lex_antisymmetric(a.0, b.0);
        }
        if a.1 != b.1 {
            lemma_lex_antisymmetric(a.1, b.1);
        }
        if let (Some(p), Some(q)) = (a.2, b.2) {
            if p != q {
                lemma_bytes_antisymmetric(p, q);
            }
        }
    }
    assert forall|
        a: (Seq<char>, Seq<char>, Option<Seq<u8>>),
        b: (Seq<char>, Seq<char>, Option<Seq<u8>>),
        c: (Seq<char>, Seq<char>, Option<Seq<u8>>),
    | #[trigger] le(a, b) && #[trigger] le(b, c) implies le(a, c) by {
        if a.0 != b.0 && b.0 != c.0 {
            lemma_lex_transitive(a.0, b.0, c.0);
            if a.0 == c.0 {
                lemma_lex_antisymmetric(a.0, b.0);
            }
        }
        if a.0 == b.0 && b.0 == c.0 && a.1 != b.1 && b.1 != c.1 {
            lemma_lex_transitive(a.1, b.1, c.1);
            if a.1 == c.1 {
                lemma_lex_antisymmetric(a.1, b.1);
            }
        }
        if let (Some(p), Some(q), Some(r)) = (a.2, b.2, c.2) {
            if a.0 == b.0 && b.0 == c.0 && a.1 == b.1 && b.1 == c.1 {
                lemma_bytes_transitive(p, q, r);
            }
        }
    }
}

fn plugin_le_exec(a: &(String, String, Option<[u8; 32]>), b: &(String, String, Option<[u8; 32]>)) -> (r: bool)
    ensures
        r == plugin_le(plugin_view(*a), plugin_view(*b)),
{
    match compare_str(a.0.as_str(), b.0.as_str()) {
        Comparison::Less => true,
        Comparison::Greater => false,
        Comparison::Equal => match compare_str(a.1.as_str(), b.1.as_str()) {
            Comparison::Less => true,
            Comparison::Greater => false,
            Comparison::Equal => match (&a.2, &b.2) {
                (None, _) => true,
                (Some(_), None) => false,
                (Some(p), Some(q)) => hash_le_exec(p, q),
            },
        },
    }
}

/// An adapter entry, framed: its id, length-prefixed, then its version.
pub open spec fn frame_adapter(a: (Seq<char>, u32)) -> Seq<u8> {
    frame_str(a.0) + le32(a.1)
}

pub open spec fn frame_adapters(s: Seq<(Seq<char>, u32)>) -> Seq<u8>
    decreases s.len(),
{
    if s.len() == 0 {
        Seq::empty()
    } else {
        frame_adapters(s.drop_last()) + frame_adapter(s.last())
    }
}

/// A content hash, framed behind a tag byte: present and absent never collide.
pub open spec fn frame_hash(h: Option<Seq<u8>>) -> Seq<u8> {
    match h {
        Some(b) => seq![1u8] + b,
        None => seq![0u8],
    }
}

/// A plugin identity, framed: id and version, each length-prefixed, then the hash.
pub open spec fn frame_plugin(p: (Seq<char>, Seq<char>, Option<Seq<u8>>)) -> Seq<u8> {
    frame_str(p.0) + frame_str(p.1) + frame_hash(p.2)
}

pub open spec fn frame_plugins(s: Seq<(Seq<char>, Seq<char>, Option<Seq<u8>>)>) -> Seq<u8>
    decreases s.len(),
{
    if s.len() == 0 {
        Seq::empty()
    } else {
        frame_plugins(s.drop_last()) + frame_plugin(s.last())
    }
}

/// The adapter entries in `(id, version)` order.
pub open spec fn arranged_adapters(a: Seq<(String, u32)>) -> Seq<(Seq<char>, u32)> {
    choose|s: Seq<(Seq<char>, u32)>|
        #[trigger] s.to_multiset() == adapter_views(a).to_multiset() && ascending_by(
            s,
            |x: (Seq<char>, u32), y: (Seq<char>, u32)| adapter_le(x, y),
        )
}

/// The plugin identities in `(id, version, content hash)` order.
pub open spec fn arranged_plugins(p: Seq<(String, String, Option<[u8; 32]>)>) -> Seq<(Seq<char>, Seq<char>, Option<Seq<u8>>)> {
    choose|s: Seq<(Seq<char>, Seq<char>, Option<Seq<u8>>)>|
        #[trigger] s.to_multiset() == plugin_views(p).to_multiset() && ascending_by(
            s,
            |x: (Seq<char>, Seq<char>, Option<Seq<u8>>), y: (Seq<char>, Seq<char>, Option<Seq<u8>>)| plugin_le(x, y),
        )
}

/// Folds an optional component content hash: a tag byte, then the hash if present.
pub fn fold_optional_content_hash(out: &mut Vec<u8>, content_hash: Option<[u8; 32]>)
    ensures
        final(out)@ == old(out)@ + frame_hash(
            match content_hash {
                Some(h) => Some(h@),
                None => None,
            },
        ),
{
    match content_hash {
        Some(h) => {
            out.push(1u8);
            push_bytes(out, &h);
            proof {
                assert(out@ =~= old(out)@ + (seq![1u8] + h@));
            }
        },
        None => {
            out.push(0u8);
            proof {
                assert(out@ =~= old(out)@ + seq![0u8]);
            }
        },
    }
}

/// Folds the adapters' ids and facts-schema versions, sorted by `(id, version)`.
pub fn fold_adapter_versions(out: &mut Vec<u8>, adapters: &[(String, u32)])
    ensures
        final(out)@ == old(out)@ + frame_adapters(arranged_adapters(adapters@)),
{
    let ghost view = adapter_view_fn();
    let ghost le: spec_fn((Seq<char>, u32), (Seq<char>, u32)) -> bool = |x: (Seq<char>, u32), y: (Seq<char>, u32)| adapter_le(x, y);
    let mut entries: Vec<(String, u32)> = Vec::new();
    let mut i: usize = 0;
    while i < adapters.len()
        invariant
            view == adapter_view_fn(),
            i <= adapters@.len(),
            entries@.len() == i,
            entries@.map_values(view) == adapter_views(adapters@.take(i as int)),
        decreases adapters@.len() - i,
    {
        let e = (adapters[i].0.clone(), adapters[i].1);
        let ghost before = entries@;
        entries.push(e);
        proof {
            assert(adapter_view(e) == adapter_view(adapters@[i as int]));
            assert(entries@ == before.push(e));
            assert(adapters@.take(i + 1) == adapters@.take(i as int).push(adapters@[i as int]));
            let ghost lhs = entries@.map_values(view);
            let ghost rhs = adapter_views(adapters@.take(i + 1));
            assert forall|j: int| 0 <= j < i + 1 implies #[trigger] lhs[j] == rhs[j] by {
                assert(lhs[j] == view(entries@[j]));
                assert(rhs[j] == adapter_view(adapters@.take(i + 1)[j]));
                if j < i {
                    assert(entries@[j] == before[j]);
                    assert(before.map_values(view)[j] == view(before[j]));
                    assert(before.map_values(view)[j] == adapter_views(adapters@.take(i as int))[j]);
                    assert(adapter_views(adapters@.take(i as int))[j] == adapter_view(adapters@.take(i as int)[j]));
                    assert(adapters@.take(i as int)[j] == adapters@[j]);
                    assert(adapters@.take(i + 1)[j] == adapters@[j]);
                } else {
                    assert(entries@[j] == e);
                    assert(adapters@.take(i + 1)[j] == adapters@[i as int]);
                }
            }
            assert(entries@.map_values(view) =~= adapter_views(adapters@.take(i + 1)));
        }
        i = i + 1;
    }
    proof {
        assert(adapters@.take(adapters@.len() as int) =~= adapters@);
        lemma_adapter_order();
        assert(total_order(le));
    }
    let precedes = (|a: &(String, u32), b: &(String, u32)| -> (r: bool)
        ensures
            r == adapter_le(adapter_view(*a), adapter_view(*b)),
        { adapter_le_exec(a, b) });
    let sorted = sort_by_view::<(String, u32), (Seq<char>, u32), _>(entries, Ghost(view), Ghost(le), precedes);
    let ghost arranged = sorted@.map_values(view);
    proof {
        assert(arranged.to_multiset() == adapter_views(adapters@).to_multiset() && ascending_by(arranged, le));
        lemma_sorted_unique(arranged, arranged_adapters(adapters@), le);
    }
    let ghost start = out@;
    let mut k: usize = 0;
    while k < sorted.len()
        invariant
            view == adapter_view_fn(),
            k <= sorted@.len(),
            arranged == sorted@.map_values(view),
            out@ == start + frame_adapters(arranged.take(k as int)),
        decreases sorted@.len() - k,
    {
        let ghost mid = out@;
        push_str(out, sorted[k].0.as_str());
        push_le32(out, sorted[k].1);
        proof {
            assert(arranged[k as int] == adapter_view(sorted@[k as int]));
            assert(arranged.take(k + 1).last() == arranged[k as int]);
            assert(arranged.take(k + 1).drop_last() =~= arranged.take(k as int));
            assert(frame_adapters(arranged.take(k + 1)) == frame_adapters(arranged.take(k as int)) + frame_adapter(arranged[k as int]));
            assert(out@ =~= start + frame_adapters(arranged.take(k + 1)));
        }
        k = k + 1;
    }
    proof {
        assert(arranged.take(arranged.len() as int) =~= arranged);
    }
}

/// Folds the graph-mutating plugins' identities, sorted by `(id, version, hash)`.
pub fn fold_plugin_identities(out: &mut Vec<u8>, plugins: &[(String, String, Option<[u8; 32]>)])
    ensures
        final(out)@ == old(out)@ + frame_plugins(arranged_plugins(plugins@)),
{
    let ghost view = plugin_view_fn();
    let ghost le: spec_fn((Seq<char>, Seq<char>, Option<Seq<u8>>), (Seq<char>, Seq<char>, Option<Seq<u8>>)) -> bool = |x: (Seq<char>, Seq<char>, Option<Seq<u8>>), y: (Seq<char>, Seq<char>, Option<Seq<u8>>)| plugin_le(x, y);
    let mut entries: Vec<(String, String, Option<[u8; 32]>)> = Vec::new();
    let mut i: usize = 0;
    while i < plugins.len()
        invariant
            view == plugin_view_fn(),
            i <= plugins@.len(),
            entries@.len() == i,
            entries@.map_values(view) == plugin_views(plugins@.take(i as int)),
        decreases plugins@.len() - i,
    {
        let e = (plugins[i].0.clone(), plugins[i].1.clone(), plugins[i].2);
        let ghost before = entries@;
        entries.push(e);
        proof {
            assert(plugin_view(e) == plugin_view(plugins@[i as int]));
            assert(entries@ == before.push(e));
            assert(plugins@.take(i + 1) == plugins@.take(i as int).push(plugins@[i as int]));
            let ghost lhs = entries@.map_values(view);
            let ghost rhs = plugin_views(plugins@.take(i + 1));
            assert forall|j: int| 0 <= j < i + 1 implies #[trigger] lhs[j] == rhs[j] by {
                assert(lhs[j] == view(entries@[j]));
                assert(rhs[j] == plugin_view(plugins@.take(i + 1)[j]));
                if j < i {
                    assert(entries@[j] == before[j]);
                    assert(before.map_values(view)[j] == view(before[j]));
                    assert(before.map_values(view)[j] == plugin_views(plugins@.take(i as int))[j]);
                    assert(plugin_views(plugins@.take(i as int))[j] == plugin_view(plugins@.take(i as int)[j]));
                    assert(plugins@.take(i as int)[j] == plugins@[j]);
                    assert(plugins@.take(i + 1)[j] == plugins@[j]);
                } else {
                    assert(entries@[j] == e);
                    assert(plugins@.take(i + 1)[j] == plugins@[i as int]);
                }
            }
            assert(entries@.map_values(view) =~= plugin_views(plugins@.take(i + 1)));
        }
        i = i + 1;
    }
    proof {
        assert(plugins@.take(plugins@.len() as int) =~= plugins@);
        lemma_plugin_order();
    }
    let precedes = (|a: &(String, String, Option<[u8; 32]>), b: &(String, String, Option<[u8; 32]>)| -> (r: bool)
        ensures
            r == plugin_le(plugin_view(*a), plugin_view(*b)),
        { plugin_le_exec(a, b) });
    let sorted = sort_by_view::<(String, String, Option<[u8; 32]>), (Seq<char>, Seq<char>, Option<Seq<u8>>), _>(entries, Ghost(view), Ghost(le), precedes);
    let ghost arranged = sorted@.map_values(view);
    proof {
        assert(arranged.to_multiset() == plugin_views(plugins@).to_multiset() && ascending_by(arranged, le));
        lemma_sorted_unique(arranged, arranged_plugins(plugins@), le);
    }
    let ghost start = out@;
    let mut k: usize = 0;
    while k < sorted.len()
        invariant
            view == plugin_view_fn(),
            k <= sorted@.len(),
            arranged == sorted@.map_values(view),
            out@ == start + frame_plugins(arranged.take(k as int)),
        decreases sorted@.len() - k,
    {
        push_str(out, sorted[k].0.as_str());
        push_str(out, sorted[k].1.as_str());
        fold_optional_content_hash(out, sorted[k].2);
        proof {
            assert(arranged[k as int] == plugin_view(sorted@[k as int]));
            assert(arranged.take(k + 1).last() == arranged[k as int]);
            assert(arranged.take(k + 1).drop_last() =~= arranged.take(k as int));
            assert(frame_plugins(arranged.take(k + 1)) == frame_plugins(arranged.take(k as int)) + frame_plugin(arranged[k as int]));
            assert(out@ =~= start + frame_plugins(arranged.take(k + 1)));
        }
        k = k + 1;
    }
    proof {
        assert(arranged.take(arranged.len() as int) =~= arranged);
    }
}

/// What the graph key digests: the schema version, the discovered files, the
/// adapters, and the plugins, each framed.
pub open spec fn graph_key_input(
    files: Seq<DiscoveredFile>,
    adapters: Seq<(String, u32)>,
    plugins: Seq<(String, String, Option<[u8; 32]>)>,
) -> Seq<u8> {
    le32(GRAPH_SCHEMA_VERSION) + frame_files(files) + frame_adapters(arranged_adapters(adapters))
        + frame_plugins(arranged_plugins(plugins))
}

/// The graph snapshot's cache key.
pub fn compute_graph_key(
    discovered_files: &[DiscoveredFile],
    adapters: &[(String, u32)],
    graph_mutating_plugins: &[(String, String, Option<[u8; 32]>)],
) -> (r: [u8; 32])
    ensures
        r@ == blake3_of(graph_key_input(discovered_files@, adapters@, graph_mutating_plugins@)),
{
    let mut input: Vec<u8> = Vec::new();
    push_le32(&mut input, GRAPH_SCHEMA_VERSION);
    fold_discovered_files(&mut input, discovered_files);
    fold_adapter_versions(&mut input, adapters);
    fold_plugin_identities(&mut input, graph_mutating_plugins);
    proof {
        assert(input@ =~= graph_key_input(discovered_files@, adapters@, graph_mutating_plugins@));
    }
    blake3_digest(input.as_slice())
}

/// The identity digest of a graph-mutating plugin set alone; the empty set digests
/// the empty framing, itself an identity.
pub fn plugin_set_digest(graph_mutating_plugins: &[(String, String, Option<[u8; 32]>)]) -> (r: [u8; 32])
    ensures
        r@ == blake3_of(frame_plugins(arranged_plugins(graph_mutating_plugins@))),
{
    let mut input: Vec<u8> = Vec::new();
    fold_plugin_identities(&mut input, graph_mutating_plugins);
    proof {
        assert(input@ =~= frame_plugins(arranged_plugins(graph_mutating_plugins@)));
    }
    blake3_digest(input.as_slice())
}

/// One manifest, framed: its path's byte count and bytes, then its content's byte
/// count and bytes.
pub open spec fn frame_manifest(m: (String, Vec<u8>)) -> Seq<u8> {
    frame_str(m.0@) + le32(m.1@.len() as u32) + m.1@
}

/// The manifests, framed in order.
pub open spec fn frame_manifests(ms: Seq<(String, Vec<u8>)>) -> Seq<u8>
    decreases ms.len(),
{
    if ms.len() == 0 {
        Seq::empty()
    } else {
        frame_manifests(ms.drop_last()) + frame_manifest(ms.last())
    }
}

/// The digest over every discovered manifest's path and content, in path order: the
/// manifest-derived parts of a graph (anchors, the package map) are functions of it.
pub fn manifest_state(manifests: &[(String, Vec<u8>)]) -> (r: [u8; 32])
    ensures
        r@ == blake3_of(frame_manifests(manifests@)),
{
    let mut input: Vec<u8> = Vec::new();
    let mut i: usize = 0;
    while i < manifests.len()
        invariant
            i <= manifests@.len(),
            input@ == frame_manifests(manifests@.take(i as int)),
        decreases manifests@.len() - i,
    {
        let ghost before = input@;
        push_str(&mut input, manifests[i].0.as_str());
        let content = manifests[i].1.as_slice();
        push_le32(&mut input, #[verifier::truncate] (content.len() as u32));
        push_bytes(&mut input, content);
        proof {
            assert(manifests@.take(i + 1).drop_last() =~= manifests@.take(i as int));
            assert(input@ =~= before + frame_manifest(manifests@[i as int]));
        }
        i = i + 1;
    }
    proof {
        assert(manifests@.take(manifests@.len() as int) =~= manifests@);
    }
    blake3_digest(input.as_slice())
}

/// Every path's UTF-8 length fits the 32-bit length prefix.
pub open spec fn paths_fit(files: Seq<DiscoveredFile>) -> bool {
    forall|i: int| 0 <= i < files.len() ==> vstd::utf8::encode_utf8((#[trigger] files[i]).path.0@).len() <= 0xffff_ffff
}

proof fn lemma_le32_injective(x: u32, y: u32)
    requires
        le32(x) == le32(y),
    ensures
        x == y,
{
    assert(le32(x)[0] == le32(y)[0] && le32(x)[1] == le32(y)[1] && le32(x)[2] == le32(y)[2] && le32(x)[3] == le32(y)[3]);
    assert((x % 256) as int == (y % 256) as int);
    assert(((x / 256) % 256) as int == ((y / 256) % 256) as int);
    assert(((x / 65536) % 256) as int == ((y / 65536) % 256) as int);
    assert((x / 16777216) as int == (y / 16777216) as int);
    assert(x / 65536 == 256 * (x / 16777216) + (x / 65536) % 256);
    assert(y / 65536 == 256 * (y / 16777216) + (y / 65536) % 256);
    assert(x / 256 == 256 * (x / 65536) + (x / 256) % 256);
    assert(y / 256 == 256 * (y / 65536) + (y / 256) % 256);
    assert(x == 256 * (x / 256) + x % 256);
    assert(y == 256 * (y / 256) + y % 256);
}

/// The framing read from the front: the first file, then the rest.
proof fn lemma_frame_files_front(s: Seq<DiscoveredFile>)
    requires
        s.len() > 0,
    ensures
        frame_files(s) == frame_file(s[0]) + frame_files(s.drop_first()),
    decreases s.len(),
{
    if s.len() == 1 {
        assert(frame_files(s.drop_last()) == Seq::<u8>::empty());
        assert(frame_files(s.drop_first()) == Seq::<u8>::empty());
        assert(s.last() == s[0]);
        assert(frame_files(s) =~= frame_file(s[0]) + frame_files(s.drop_first()));
    } else {
        lemma_frame_files_front(s.drop_last());
        let d = s.drop_last().drop_first();
        assert(d =~= s.drop_first().drop_last());
        assert(s.drop_first().last() == s.last());
        assert(s.drop_last()[0] == s[0]);
        assert(frame_files(s) == frame_files(s.drop_last()) + frame_file(s.last()));
        assert(frame_files(s.drop_first()) == frame_files(s.drop_first().drop_last()) + frame_file(
            s.drop_first().last(),
        ));
        assert(frame_files(s.drop_last()) == frame_file(s[0]) + frame_files(d));
        assert(frame_files(s) =~= frame_file(s[0]) + frame_files(s.drop_first()));
    }
}

proof fn lemma_frame_file_len(f: DiscoveredFile)
    ensures
        frame_file(f).len() == 4 + vstd::utf8::encode_utf8(f.path.0@).len() + 32,
{
}

/// Two framed files followed by anything are equal only when the files agree and the
/// rests are equal.
proof fn lemma_frame_file_head(f: DiscoveredFile, g: DiscoveredFile, ra: Seq<u8>, rb: Seq<u8>)
    requires
        vstd::utf8::encode_utf8(f.path.0@).len() <= 0xffff_ffff,
        vstd::utf8::encode_utf8(g.path.0@).len() <= 0xffff_ffff,
        frame_file(f) + ra == frame_file(g) + rb,
    ensures
        f.path.0@ == g.path.0@,
        f.content_hash@ == g.content_hash@,
        ra == rb,
{
    let x = frame_file(f) + ra;
    let pa = vstd::utf8::encode_utf8(f.path.0@);
    let pb = vstd::utf8::encode_utf8(g.path.0@);
    lemma_frame_file_len(f);
    lemma_frame_file_len(g);
    let fa = frame_file(f);
    let fb = frame_file(g);
    assert(x.subrange(0, 4) == le32(pa.len() as u32)) by {
        assert(x.subrange(0, 4) =~= fa.subrange(0, 4));
        assert(fa.subrange(0, 4) =~= le32(pa.len() as u32));
    }
    assert(x.subrange(0, 4) == le32(pb.len() as u32)) by {
        assert(x.subrange(0, 4) =~= fb.subrange(0, 4));
        assert(fb.subrange(0, 4) =~= le32(pb.len() as u32));
    }
    lemma_le32_injective(pa.len() as u32, pb.len() as u32);
    let n = pa.len() as int;
    assert(pb.len() == n);
    assert(pa =~= x.subrange(4, 4 + n));
    assert(pb =~= x.subrange(4, 4 + n));
    assert(f.content_hash@ =~= x.subrange(4 + n, 4 + n + 32));
    assert(g.content_hash@ =~= x.subrange(4 + n, 4 + n + 32));
    vstd::utf8::encode_utf8_decode_utf8(f.path.0@);
    vstd::utf8::encode_utf8_decode_utf8(g.path.0@);
    assert(ra =~= x.skip(4 + n + 32));
    assert(rb =~= x.skip(4 + n + 32));
}

/// Framed file lists are equal only when the lists agree path for path and hash for
/// hash.
#[verifier::spinoff_prover]
#[verifier::rlimit(40)]
proof fn lemma_frame_files_injective(a: Seq<DiscoveredFile>, b: Seq<DiscoveredFile>)
    requires
        paths_fit(a),
        paths_fit(b),
        frame_files(a) == frame_files(b),
    ensures
        a.len() == b.len(),
        forall|i: int|
            0 <= i < a.len() ==> (#[trigger] a[i]).path.0@ == b[i].path.0@ && a[i].content_hash@ == b[i].content_hash@,
    decreases a.len(),
{
    if a.len() == 0 || b.len() == 0 {
        if a.len() > 0 {
            lemma_frame_files_front(a);
            lemma_frame_file_len(a[0]);
            assert(frame_files(b) == Seq::<u8>::empty());
            assert(frame_files(a).len() >= 36);
        }
        if b.len() > 0 {
            lemma_frame_files_front(b);
            lemma_frame_file_len(b[0]);
            assert(frame_files(a) == Seq::<u8>::empty());
            assert(frame_files(b).len() >= 36);
        }
    } else {
        lemma_frame_files_front(a);
        lemma_frame_files_front(b);
        lemma_frame_file_head(a[0], b[0], frame_files(a.drop_first()), frame_files(b.drop_first()));
        assert(paths_fit(a.drop_first())) by {
            assert forall|i: int| 0 <= i < a.drop_first().len() implies vstd::utf8::encode_utf8(
                (#[trigger] a.drop_first()[i]).path.0@,
            ).len() <= 0xffff_ffff by {
                assert(a.drop_first()[i] == a[i + 1]);
            }
        }
        assert(paths_fit(b.drop_first())) by {
            assert forall|i: int| 0 <= i < b.drop_first().len() implies vstd::utf8::encode_utf8(
                (#[trigger] b.drop_first()[i]).path.0@,
            ).len() <= 0xffff_ffff by {
                assert(b.drop_first()[i] == b[i + 1]);
            }
        }
        lemma_frame_files_injective(a.drop_first(), b.drop_first());
        assert forall|i: int| 0 <= i < a.len() implies (#[trigger] a[i]).path.0@ == b[i].path.0@ && a[i].content_hash@
            == b[i].content_hash@ by {
            if i > 0 {
                assert(a.drop_first()[i - 1] == a[i]);
                assert(b.drop_first()[i - 1] == b[i]);
            }
        }
    }
}

/// The cache key's input tells discovered file sets apart: with the adapters and
/// plugins held fixed, two file lists (each path within the 32-bit length prefix)
/// frame to the same key input only when they agree path for path and content hash
/// for content hash.
pub proof fn lemma_graph_key_input_tells_file_sets_apart(
    a: Seq<DiscoveredFile>,
    b: Seq<DiscoveredFile>,
    adapters: Seq<(String, u32)>,
    plugins: Seq<(String, String, Option<[u8; 32]>)>,
)
    requires
        paths_fit(a),
        paths_fit(b),
        graph_key_input(a, adapters, plugins) == graph_key_input(b, adapters, plugins),
    ensures
        a.len() == b.len(),
        forall|i: int|
            0 <= i < a.len() ==> (#[trigger] a[i]).path.0@ == b[i].path.0@ && a[i].content_hash@ == b[i].content_hash@,
{
    let head = le32(GRAPH_SCHEMA_VERSION);
    let tail = frame_adapters(arranged_adapters(adapters)) + frame_plugins(arranged_plugins(plugins));
    let x = graph_key_input(a, adapters, plugins);
    assert(x =~= head + frame_files(a) + tail);
    assert(x =~= head + frame_files(b) + tail);
    assert(frame_files(a).len() == frame_files(b).len());
    assert(frame_files(a) =~= x.subrange(4, 4 + frame_files(a).len() as int));
    assert(frame_files(b) =~= x.subrange(4, 4 + frame_files(b).len() as int));
    lemma_frame_files_injective(a, b);
}

} // verus!
