//! Ordering parts by occupancy, ties broken by column index.

use vstd::prelude::*;

verus! {

broadcast use vstd::seq_lib::group_seq_properties;

/// Whether part `a` may come before part `b`: by occupancy (ascending or
/// descending), and by column index among equal occupancies.
pub open spec fn ranks_before(occ: Seq<usize>, descending: bool, a: usize, b: usize) -> bool {
    if descending {
        occ[a as int] > occ[b as int] || (occ[a as int] == occ[b as int] && a <= b)
    } else {
        occ[a as int] < occ[b as int] || (occ[a as int] == occ[b as int] && a <= b)
    }
}

/// Whether `order` lists every part `0 .. occ.len()` in the ranking order.
pub open spec fn is_ranking(order: Seq<usize>, occ: Seq<usize>, descending: bool) -> bool {
    &&& order.len() == occ.len()
    &&& order.no_duplicates()
    &&& forall|i: int| 0 <= i < order.len() ==> #[trigger] order[i] < occ.len()
    &&& forall|c: int| 0 <= c < occ.len() ==> #[trigger] order.contains(c as usize)
    &&& forall|i: int|
        0 <= i < order.len() - 1 ==> #[trigger] ranks_before(occ, descending, order[i], order[i + 1])
}

/// Lexicographic order on pairs, as std orders tuples.
pub open spec fn pair_le(a: (usize, usize), b: (usize, usize)) -> bool {
    a.0 < b.0 || (a.0 == b.0 && a.1 <= b.1)
}

/// The pair by which part `c` is sorted.
pub open spec fn sort_key(occ: Seq<usize>, descending: bool, c: int) -> (usize, usize) {
    if descending {
        ((usize::MAX - occ[c]) as usize, c as usize)
    } else {
        (occ[c], c as usize)
    }
}

/// Relies on `slice::sort_unstable`: the pairs are rearranged, nothing added
/// or lost, into ascending order, tuples comparing by their first component
/// and then their second.
#[verifier::external_body]
fn sort_pairs(v: &mut Vec<(usize, usize)>)
    ensures
        final(v)@.to_multiset() == old(v)@.to_multiset(),
        forall|i: int, j: int|
            0 <= i < j < final(v)@.len() ==> pair_le(#[trigger] final(v)@[i], #[trigger] final(v)@[j]),
{
    v.sort_unstable();
}

/// All parts `0 .. occ.len()`, ordered by occupancy (descending when
/// `descending`, else ascending), equal occupancies by column index.
pub fn rank_parts(occ: &Vec<usize>, descending: bool) -> (order: Vec<usize>)
    ensures
        is_ranking(order@, occ@, descending),
{
    let n = occ.len();
    let mut keys: Vec<(usize, usize)> = Vec::new();
    let mut c: usize = 0;
    while c < n
        invariant
            0 <= c <= n,
            n == occ@.len(),
            keys@.len() == c,
            forall|j: int| 0 <= j < c ==> #[trigger] keys@[j] == sort_key(occ@, descending, j),
        decreases n - c,
    {
        if descending {
            keys.push((usize::MAX - occ[c], c));
        } else {
            keys.push((occ[c], c));
        }
        c = c + 1;
    }
    let ghost unsorted = keys@;
    sort_pairs(&mut keys);
    proof {
        assert(unsorted.no_duplicates());
        unsorted.lemma_multiset_has_no_duplicates();
        keys@.lemma_multiset_has_no_duplicates_conv();
        unsorted.to_multiset_ensures();
        keys@.to_multiset_ensures();
        assert forall|i: int| 0 <= i < keys@.len() implies exists|c: int|
            0 <= c < n && #[trigger] keys@[i] == sort_key(occ@, descending, c) by {
            assert(keys@.contains(keys@[i]));
            assert(keys@.to_multiset().count(keys@[i]) > 0);
            assert(unsorted.to_multiset().count(keys@[i]) > 0);
            assert(unsorted.contains(keys@[i]));
        }
    }
    let mut order: Vec<usize> = Vec::new();
    let mut i: usize = 0;
    while i < keys.len()
        invariant
            0 <= i <= keys@.len(),
            keys@.len() == n,
            order@.len() == i,
            forall|j: int| 0 <= j < i ==> #[trigger] order@[j] == keys@[j].1,
        decreases keys@.len() - i,
    {
        order.push(keys[i].1);
        i = i + 1;
    }
    proof {
        assert forall|j: int| 0 <= j < n implies #[trigger] order@[j] < n && keys@[j] == sort_key(
            occ@,
            descending,
            order@[j] as int,
        ) by {
            let c = choose|c: int| 0 <= c < n && #[trigger] keys@[j] == sort_key(occ@, descending, c);
        }
        assert forall|a: int, b: int| 0 <= a < b < n implies order@[a] != order@[b] by {
            assert(keys@[a] != keys@[b]);
        }
        assert forall|c: int| 0 <= c < n implies #[trigger] order@.contains(c as usize) by {
            assert(unsorted.contains(unsorted[c]));
            assert(unsorted.to_multiset().count(unsorted[c]) > 0);
            assert(keys@.to_multiset().count(unsorted[c]) > 0);
            assert(keys@.contains(unsorted[c]));
            let j = choose|j: int| 0 <= j < n && keys@[j] == unsorted[c];
            assert(order@[j] == c);
        }
        assert forall|j: int| 0 <= j < n - 1 implies #[trigger] ranks_before(
            occ@,
            descending,
            order@[j],
            order@[j + 1],
        ) by {
            assert(pair_le(keys@[j], keys@[j + 1]));
            assert(keys@[j] == sort_key(occ@, descending, order@[j] as int));
            assert(keys@[j + 1] == sort_key(occ@, descending, order@[j + 1] as int));
        }
    }
    order
}

} // verus!
