//! Sorting by keys.
use vstd::prelude::*;

verus! {

/// `order` lists each of the positions `0..n` once.
pub open spec fn is_permutation(order: Seq<int>, n: int) -> bool {
    &&& order.len() == n
    &&& order.no_duplicates()
    &&& forall|j: int| 0 <= j < n ==> 0 <= #[trigger] order[j] < n
    &&& forall|p: int| 0 <= p < n ==> order.contains(p)
}

/// The order of sort keys: by the first part, then the second, then the
/// third.
pub open spec fn key_le(a: (i64, usize, usize), b: (i64, usize, usize)) -> bool {
    a.0 < b.0 || (a.0 == b.0 && (a.1 < b.1 || (a.1 == b.1 && a.2 <= b.2)))
}

/// Calls `rayon`'s `par_sort_unstable`, which sorts the slice in place. Tuples
/// of integers are ordered by their first part, then the second, then the
/// third.
#[verifier::external_body]
pub(crate) fn sort_keys(keys: &mut Vec<(i64, usize, usize)>)
    ensures
        final(keys)@.to_multiset() == old(keys)@.to_multiset(),
        forall|i: int, j: int| 0 <= i < j < final(keys).len() ==> key_le(#[trigger] final(keys)[i], #[trigger] final(keys)[j]),
{
    rayon::slice::ParallelSliceMut::par_sort_unstable(keys.as_mut_slice());
}

/// Calls `sort_unstable` of slices, which sorts the slice in place in
/// ascending order.
#[verifier::external_body]
pub(crate) fn sort_indices(v: &mut Vec<usize>)
    ensures
        final(v)@.to_multiset() == old(v)@.to_multiset(),
        forall|i: int, j: int| 0 <= i < j < final(v).len() ==> final(v)[i] <= final(v)[j],
{
    v.sort_unstable();
}

/// Keys that hold their position as third part are still keys of their
/// position after sorting, and each position occurs once.
pub proof fn lemma_sorted_keys(keys0: Seq<(i64, usize, usize)>, keys: Seq<(i64, usize, usize)>)
    requires
        keys.to_multiset() == keys0.to_multiset(),
        forall|k: int| 0 <= k < keys0.len() ==> (#[trigger] keys0[k]).2 == k,
    ensures
        keys.len() == keys0.len(),
        keys.no_duplicates(),
        forall|j: int| 0 <= j < keys.len() ==> (#[trigger] keys[j]).2 < keys0.len() && keys[j] == keys0[keys[j].2 as int],
        is_permutation(Seq::new(keys.len(), |j: int| keys[j].2 as int), keys0.len() as int),
{
    broadcast use vstd::seq_lib::group_to_multiset_ensures;

    let n = keys0.len();
    assert(keys0.no_duplicates());
    keys0.lemma_multiset_has_no_duplicates();
    keys.lemma_multiset_has_no_duplicates_conv();
    vstd::seq_lib::to_multiset_len(keys);
    vstd::seq_lib::to_multiset_len(keys0);
    assert forall|j: int| 0 <= j < n implies (#[trigger] keys[j]).2 < n && keys[j] == keys0[keys[j].2 as int] by {
        assert(keys.contains(keys[j]));
        assert(keys0.to_multiset().count(keys[j]) > 0);
        assert(keys0.contains(keys[j]));
        let k = choose|k: int| 0 <= k < keys0.len() && keys0[k] == keys[j];
        assert(keys0[k].2 == k);
    }
    let order = Seq::new(n, |j: int| keys[j].2 as int);
    assert forall|a: int, b: int| 0 <= a < order.len() && 0 <= b < order.len() && a != b implies order[a] != order[b] by {
        if order[a] == order[b] {
            assert(keys[a] == keys0[keys[a].2 as int]);
            assert(keys[b] == keys0[keys[b].2 as int]);
        }
    }
    assert forall|p: int| 0 <= p < n implies order.contains(p) by {
        assert(keys0.contains(keys0[p]));
        assert(keys.to_multiset().count(keys0[p]) > 0);
        assert(keys.contains(keys0[p]));
        let k = choose|k: int| 0 <= k < keys.len() && keys[k] == keys0[p];
        assert(order[k] == p);
    }
}

} // verus!
