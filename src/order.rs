//! Permutations and sorting by a `u32` key.
use vstd::prelude::*;

verus! {

/// `b` is `a` reordered by the index map `p`: `b[i] == a[p[i]]`, with `p`
/// a bijection onto the indices of `a`.
pub open spec fn is_permutation_by<T>(a: Seq<T>, b: Seq<T>, p: Seq<int>) -> bool {
    &&& p.len() == a.len()
    &&& b.len() == a.len()
    &&& forall|i: int| 0 <= i < p.len() ==> 0 <= #[trigger] p[i] < a.len() && b[i] == a[p[i]]
    &&& forall|i: int, j: int| 0 <= i < j < p.len() ==> #[trigger] p[i] != #[trigger] p[j]
    &&& forall|j: int| 0 <= j < a.len() ==> #[trigger] p.contains(j)
}

/// `b` is a reordering of `a`.
pub open spec fn is_permutation<T>(a: Seq<T>, b: Seq<T>) -> bool {
    exists|p: Seq<int>| is_permutation_by(a, b, p)
}

/// The first components ascend (not necessarily strictly).
pub open spec fn sorted_by_first<T>(s: Seq<(u32, T)>) -> bool {
    forall|i: int, j: int| 0 <= i < j < s.len() ==> (#[trigger] s[i]).0 <= (#[trigger] s[j]).0
}

/// `b` is `a` reordered by `p`, and items of `b` with equal first
/// components keep the order they had in `a`.
pub open spec fn is_stable_permutation_by<T>(a: Seq<(u32, T)>, b: Seq<(u32, T)>, p: Seq<int>) -> bool {
    &&& is_permutation_by(a, b, p)
    &&& forall|i: int, j: int| 0 <= i < j < b.len() && b[i].0 == b[j].0 ==> #[trigger] p[i] < #[trigger] p[j]
}

/// Relies on slice::sort_by_key, a stable sort: the items are reordered,
/// none added or lost, so that their first components ascend, and items with
/// equal first components keep their order.
#[verifier::external_body]
pub(crate) fn sort_by_first<T>(v: &mut Vec<(u32, T)>)
    ensures
        is_permutation(old(v)@, final(v)@),
        exists|p: Seq<int>| is_stable_permutation_by(old(v)@, final(v)@, p),
        sorted_by_first(final(v)@),
{
    v.sort_by_key(|e| e.0)
}

/// Finds an item whose first component is `k` by binary search.
pub fn find_key<T>(v: &Vec<(u32, T)>, k: u32) -> (r: Option<usize>)
    requires
        sorted_by_first(v@),
    ensures
        match r {
            Some(i) => i < v@.len() && v@[i as int].0 == k,
            None => forall|i: int| 0 <= i < v@.len() ==> (#[trigger] v@[i]).0 != k,
        },
{
    let mut lo: usize = 0;
    let mut hi: usize = v.len();
    while lo < hi
        invariant
            lo <= hi <= v@.len(),
            sorted_by_first(v@),
            forall|i: int| 0 <= i < lo ==> (#[trigger] v@[i]).0 < k,
            forall|i: int| hi <= i < v@.len() ==> (#[trigger] v@[i]).0 > k,
        decreases hi - lo,
    {
        let mid = lo + (hi - lo) / 2;
        let m = v[mid].0;
        if m == k {
            return Some(mid);
        } else if m < k {
            lo = mid + 1;
        } else {
            hi = mid;
        }
    }
    None
}

} // verus!
