//! Moving owned elements out of vectors in order.

use vstd::prelude::*;

verus! {

/// The elements of `v`, last first.
pub fn reversed<T>(v: Vec<T>) -> (r: Vec<T>)
    ensures
        r@.len() == v@.len(),
        forall|k: int| 0 <= k < v@.len() ==> #[trigger] r@[k] == v@[v@.len() - 1 - k],
{
    let ghost input = v@;
    let mut rest = v;
    let mut out: Vec<T> = Vec::new();
    while rest.len() > 0
        invariant
            rest@ == input.take(rest@.len() as int),
            rest@.len() + out@.len() == input.len(),
            forall|k: int| 0 <= k < out@.len() ==> #[trigger] out@[k] == input[input.len() - 1 - k],
        decreases rest@.len(),
    {
        let x = rest.pop().unwrap();
        out.push(x);
    }
    out
}

/// Ascending order.
pub open spec fn ascending(s: Seq<u32>) -> bool {
    forall|i: int, j: int| 0 <= i < j < s.len() ==> s[i] <= s[j]
}

proof fn lemma_swap_multiset<T>(s: Seq<T>, j: int)
    requires
        0 < j < s.len(),
    ensures
        s.update(j - 1, s[j]).update(j, s[j - 1]).to_multiset() =~= s.to_multiset(),
{
    let t = s.update(j - 1, s[j]).update(j, s[j - 1]);
    let a = s.subrange(0, j - 1);
    let b = s.subrange(j + 1, s.len() as int);
    assert(s =~= a + seq![s[j - 1], s[j]] + b);
    assert(t =~= a + seq![s[j], s[j - 1]] + b);
    vstd::seq_lib::lemma_multiset_commutative(a + seq![s[j - 1], s[j]], b);
    vstd::seq_lib::lemma_multiset_commutative(a + seq![s[j], s[j - 1]], b);
    vstd::seq_lib::lemma_multiset_commutative(a, seq![s[j - 1], s[j]]);
    vstd::seq_lib::lemma_multiset_commutative(a, seq![s[j], s[j - 1]]);
    vstd::seq_lib::lemma_seq_union_to_multiset_commutative(seq![s[j - 1]], seq![s[j]]);
    assert(seq![s[j - 1], s[j]] =~= seq![s[j - 1]] + seq![s[j]]);
    assert(seq![s[j], s[j - 1]] =~= seq![s[j]] + seq![s[j - 1]]);
}

/// Sorts ids ascending, keeping them as a multiset.
pub fn sort_ids(v: &mut Vec<u32>)
    ensures
        final(v)@.to_multiset() == old(v)@.to_multiset(),
        ascending(final(v)@),
{
    let n = v.len();
    if n == 0 {
        return ;
    }
    let mut i: usize = 1;
    while i < n
        invariant
            n == v@.len(),
            1 <= i <= n,
            v@.to_multiset() == old(v)@.to_multiset(),
            forall|p: int, q: int| 0 <= p < q < i ==> v@[p] <= v@[q],
        decreases n - i,
    {
        let mut j: usize = i;
        while j > 0 && v[j - 1] > v[j]
            invariant
                n == v@.len(),
                1 <= i < n,
                j <= i,
                v@.to_multiset() == old(v)@.to_multiset(),
                forall|p: int, q: int| 0 <= p < q < j ==> v@[p] <= v@[q],
                forall|p: int, q: int| j < p < q <= i ==> v@[p] <= v@[q],
                forall|p: int, q: int| 0 <= p < j && j < q <= i ==> v@[p] <= v@[q],
                forall|q: int| j < q <= i ==> v@[q] > v@[j as int],
            decreases j,
        {
            let ghost before = v@;
            let a = v[j - 1];
            let b = v[j];
            v.set(j - 1, b);
            v.set(j, a);
            proof {
                lemma_swap_multiset(before, j as int);
            }
            j = j - 1;
        }
        i = i + 1;
    }
}

/// Ascending without duplicates is strictly increasing.
pub proof fn lemma_ascending_distinct(s: Seq<u32>)
    requires
        ascending(s),
        s.no_duplicates(),
    ensures
        forall|i: int, j: int| 0 <= i < j < s.len() ==> s[i] < s[j],
{
}

/// Equal multisets hold the same elements.
pub proof fn lemma_multiset_same_set<T>(a: Seq<T>, b: Seq<T>)
    requires
        a.to_multiset() == b.to_multiset(),
    ensures
        a.to_set() == b.to_set(),
        a.len() == b.len(),
{
    broadcast use vstd::seq_lib::group_to_multiset_ensures;
    assert(a.to_set() =~= b.to_set()) by {
        assert forall|x: T| a.to_set().contains(x) implies b.to_set().contains(x) by {
            assert(a.contains(x));
            assert(a.to_multiset().count(x) > 0);
            assert(b.contains(x));
        }
        assert forall|x: T| b.to_set().contains(x) implies a.to_set().contains(x) by {
            assert(b.contains(x));
            assert(b.to_multiset().count(x) > 0);
            assert(a.contains(x));
        }
    }
    assert(a.len() == b.len()) by {
        a.to_multiset_ensures();
        b.to_multiset_ensures();
    }
}

/// Equal multisets: one has duplicates exactly when the other does.
pub proof fn lemma_multiset_no_duplicates<T>(a: Seq<T>, b: Seq<T>)
    requires
        a.to_multiset() == b.to_multiset(),
        a.no_duplicates(),
    ensures
        b.no_duplicates(),
{
    broadcast use vstd::seq_lib::group_to_multiset_ensures;
    a.lemma_multiset_has_no_duplicates();
    b.lemma_multiset_has_no_duplicates_conv();
}

/// The ids below `k`.
pub proof fn lemma_id_range(k: u32)
    ensures
        Set::new(|x: u32| x < k).finite(),
        Set::new(|x: u32| x < k).len() == k,
    decreases k,
{
    if k == 0 {
        assert(Set::new(|x: u32| x < k) =~= Set::<u32>::empty());
    } else {
        lemma_id_range((k - 1) as u32);
        assert(Set::new(|x: u32| x < k) =~= Set::new(|x: u32| x < (k - 1) as u32).insert(
            (k - 1) as u32,
        ));
    }
}

/// Distinct ids below `k` number at most `k`.
pub proof fn lemma_distinct_ids_bounded(s: Seq<u32>, k: u32)
    requires
        s.no_duplicates(),
        forall|i: int| 0 <= i < s.len() ==> #[trigger] s[i] < k,
    ensures
        s.len() <= k,
{
    s.unique_seq_to_set();
    lemma_id_range(k);
    vstd::set_lib::lemma_len_subset(s.to_set(), Set::new(|x: u32| x < k));
}

} // verus!
