//! The two frontiers: for each parts budget, how many assemblies can be built.

use vstd::prelude::*;
use rayon::iter::{IntoParallelIterator, ParallelIterator};
use crate::counting::{
    count_upto, lemma_count_bound, lemma_count_flip, lemma_count_mono,
    lemma_count_none, lemma_count_split,
};
use crate::incidence::{Incidence, is_valid, total_valid, valid_at};
use crate::ranking::{is_ranking, rank_parts};

verus! {

/// The parts among the first `k` entries of `order`.
pub open spec fn prefix_set(order: Seq<usize>, k: int) -> Set<usize> {
    Set::new(|c: usize| exists|j: int| 0 <= j < k && order[j] == c)
}

/// Whether a row is valid and every part it requires is in `sel`.
pub open spec fn fits(row: Seq<usize>, sel: Set<usize>) -> bool {
    is_valid(row) && forall|i: int| 0 <= i < row.len() ==> #[trigger] sel.contains(row[i])
}

/// Whether the row at each index fits in `sel`.
pub open spec fn fits_at(rows: Seq<Seq<usize>>, sel: Set<usize>) -> spec_fn(int) -> bool {
    |r: int| fits(rows[r], sel)
}

/// Number of valid rows whose parts all lie in `sel`.
pub open spec fn buildable_with(rows: Seq<Seq<usize>>, sel: Set<usize>) -> nat {
    count_upto(rows.len() as int, fits_at(rows, sel))
}

/// Whether some part of the row is in `removed`.
pub open spec fn touched(row: Seq<usize>, removed: Set<usize>) -> bool {
    exists|i: int| 0 <= i < row.len() && #[trigger] removed.contains(row[i])
}

/// Whether a row is valid and none of the parts it requires is in `removed`.
pub open spec fn untouched(row: Seq<usize>, removed: Set<usize>) -> bool {
    is_valid(row) && !touched(row, removed)
}

/// Whether the row at each index is untouched by `removed`.
pub open spec fn untouched_at(rows: Seq<Seq<usize>>, removed: Set<usize>) -> spec_fn(int) -> bool {
    |r: int| untouched(rows[r], removed)
}

/// Number of valid rows that require none of the parts in `removed`.
pub open spec fn surviving(rows: Seq<Seq<usize>>, removed: Set<usize>) -> nat {
    count_upto(rows.len() as int, untouched_at(rows, removed))
}

/// Whether `pts` is the greedy removal frontier of `rows` for the removal
/// order `order`: entry `k` pairs the `order.len() - k` parts left after
/// removing the first `k` of `order` with the valid rows that survive.
pub open spec fn greedy_table(rows: Seq<Seq<usize>>, order: Seq<usize>, pts: Seq<(usize, usize)>) -> bool {
    &&& pts.len() == order.len() + 1
    &&& forall|k: int|
        0 <= k <= order.len() ==> (#[trigger] pts[k]).0 == order.len() - k && pts[k].1 == surviving(
            rows,
            prefix_set(order, k),
        )
}

/// Whether `pts` is the selection frontier of `rows` for the ranking `order`:
/// entry `k` pairs budget `k` with the valid rows whose parts are all among
/// the first `k` of `order`.
pub open spec fn selection_table(rows: Seq<Seq<usize>>, order: Seq<usize>, pts: Seq<(usize, usize)>) -> bool {
    &&& pts.len() == order.len() + 1
    &&& forall|k: int|
        0 <= k <= order.len() ==> (#[trigger] pts[k]).0 == k && pts[k].1 == buildable_with(
            rows,
            prefix_set(order, k),
        )
}

/// The first `k` parts of an order are among its first `j`, for `k <= j`.
pub proof fn lemma_prefix_nested(order: Seq<usize>, k: int, j: int)
    requires
        k <= j,
    ensures
        prefix_set(order, k).subset_of(prefix_set(order, j)),
{
}

/// Removing more parts never lets more assemblies survive: the greedy
/// frontier does not grow as the number of removed parts grows.
pub proof fn lemma_surviving_antitone(rows: Seq<Seq<usize>>, order: Seq<usize>, k: int, j: int)
    requires
        k <= j,
    ensures
        surviving(rows, prefix_set(order, j)) <= surviving(rows, prefix_set(order, k)),
{
    let sj = prefix_set(order, j);
    let sk = prefix_set(order, k);
    assert forall|r: int| 0 <= r < rows.len() && #[trigger] untouched_at(rows, sj)(r) implies untouched_at(
        rows,
        sk,
    )(r) by {
        if touched(rows[r], sk) {
            let i = choose|i: int| 0 <= i < rows[r].len() && #[trigger] sk.contains(rows[r][i]);
            assert(sj.contains(rows[r][i]));
        }
    }
    lemma_count_mono(rows.len() as int, untouched_at(rows, sj), untouched_at(rows, sk));
}

/// Selecting more parts never makes fewer assemblies buildable: the
/// selection frontier does not shrink as the budget grows.
pub proof fn lemma_buildable_monotone(rows: Seq<Seq<usize>>, order: Seq<usize>, k: int, j: int)
    requires
        k <= j,
    ensures
        buildable_with(rows, prefix_set(order, k)) <= buildable_with(rows, prefix_set(order, j)),
{
    let sj = prefix_set(order, j);
    let sk = prefix_set(order, k);
    assert forall|r: int| 0 <= r < rows.len() && #[trigger] fits_at(rows, sk)(r) implies fits_at(
        rows,
        sj,
    )(r) by {
        assert forall|i: int| 0 <= i < rows[r].len() implies #[trigger] sj.contains(rows[r][i]) by {
            assert(sk.contains(rows[r][i]));
        }
    }
    lemma_count_mono(rows.len() as int, fits_at(rows, sk), fits_at(rows, sj));
}

spec fn marked_at(m: Seq<bool>) -> spec_fn(int) -> bool {
    |r: int| m[r]
}

/// With `marked` telling which rows are touched, the valid rows split into
/// the surviving ones and the marked ones.
proof fn lemma_marked_split(rows: Seq<Seq<usize>>, removed: Set<usize>, marked: Seq<bool>)
    requires
        marked.len() == rows.len(),
        forall|r: int| 0 <= r < rows.len() ==> #[trigger] marked[r] == touched(rows[r], removed),
    ensures
        total_valid(rows) == surviving(rows, removed) + count_upto(rows.len() as int, marked_at(marked)),
{
    assert forall|r: int| 0 <= r < rows.len() implies #[trigger] valid_at(rows)(r) <==> (untouched_at(
        rows,
        removed,
    )(r) || marked_at(marked)(r)) by {
        if marked[r] {
            let i = choose|i: int| 0 <= i < rows[r].len() && #[trigger] removed.contains(rows[r][i]);
        }
    }
    assert forall|r: int| 0 <= r < rows.len() implies !(#[trigger] untouched_at(rows, removed)(r)
        && marked_at(marked)(r)) by {}
    lemma_count_split(
        rows.len() as int,
        valid_at(rows),
        untouched_at(rows, removed),
        marked_at(marked),
    );
}

/// Whether every `order` entry names a part of `inc`.
pub open spec fn parts_in_range(inc: &Incidence, order: Seq<usize>) -> bool {
    forall|i: int| 0 <= i < order.len() ==> #[trigger] order[i] < inc.parts()
}

/// Whether every part in `row` is marked in `sel`.
fn all_marked(row: &Vec<usize>, sel: &Vec<bool>) -> (b: bool)
    requires
        forall|i: int| 0 <= i < row@.len() ==> #[trigger] row@[i] < sel@.len(),
    ensures
        b == forall|i: int| 0 <= i < row@.len() ==> #[trigger] sel@[row@[i] as int],
{
    let mut i: usize = 0;
    while i < row.len()
        invariant
            0 <= i <= row@.len(),
            forall|j: int| 0 <= j < row@.len() ==> #[trigger] row@[j] < sel@.len(),
            forall|j: int| 0 <= j < i ==> #[trigger] sel@[row@[j] as int],
        decreases row@.len() - i,
    {
        if !sel[row[i]] {
            return false;
        }
        i = i + 1;
    }
    true
}

/// The selection frontier at budget `k`: the pair of `k` and the number of
/// valid assemblies whose parts are all among the first `k` of `order`.
pub fn selection_entry(inc: &Incidence, order: &Vec<usize>, k: usize) -> (e: (usize, usize))
    requires
        inc.wf(),
        parts_in_range(inc, order@),
        k <= order@.len(),
    ensures
        e.0 == k,
        e.1 == buildable_with(inc.rows(), prefix_set(order@, k as int)),
{
    let n = inc.num_parts();
    let ghost sel_set = prefix_set(order@, k as int);
    let mut sel: Vec<bool> = Vec::new();
    let mut c: usize = 0;
    while c < n
        invariant
            0 <= c <= n,
            sel@.len() == c,
            forall|j: int| 0 <= j < c ==> !#[trigger] sel@[j],
        decreases n - c,
    {
        sel.push(false);
        c = c + 1;
    }
    let mut j: usize = 0;
    while j < k
        invariant
            0 <= j <= k <= order@.len(),
            parts_in_range(inc, order@),
            n == inc.parts(),
            sel@.len() == n,
            forall|c: int| 0 <= c < n ==> #[trigger] sel@[c] == prefix_set(order@, j as int).contains(
                c as usize,
            ),
        decreases k - j,
    {
        let p = order[j];
        sel[p] = true;
        proof {
            assert forall|c: int| 0 <= c < n implies #[trigger] sel@[c] == prefix_set(
                order@,
                j + 1,
            ).contains(c as usize) by {
                if c == p {
                    assert(order@[j as int] == c as usize);
                } else if prefix_set(order@, j + 1).contains(c as usize) {
                    let jj = choose|jj: int| 0 <= jj < j + 1 && order@[jj] == c as usize;
                    assert(jj != j);
                }
            }
        }
        j = j + 1;
    }
    let nr = inc.num_assemblies();
    let ghost rows = inc.rows();
    let mut count: usize = 0;
    let mut r: usize = 0;
    while r < nr
        invariant
            inc.wf(),
            rows == inc.rows(),
            nr == rows.len(),
            n == inc.parts(),
            0 <= r <= nr,
            sel@.len() == n,
            forall|c: int| 0 <= c < n ==> #[trigger] sel@[c] == sel_set.contains(c as usize),
            count == count_upto(r as int, fits_at(rows, sel_set)),
        decreases nr - r,
    {
        proof {
            lemma_count_bound(r as int, fits_at(rows, sel_set));
        }
        let row = inc.assembly_parts(r);
        proof {
            assert forall|i: int| 0 <= i < row@.len() implies #[trigger] sel@[row@[i] as int]
                == sel_set.contains(row@[i]) by {
                assert(row@[i] < n);
            }
            assert(row@ == rows[r as int]);
            if fits(row@, sel_set) {
                assert forall|i: int| 0 <= i < row@.len() implies #[trigger] sel@[row@[i] as int] by {
                    assert(sel_set.contains(row@[i]));
                }
            }
            if forall|i: int| 0 <= i < row@.len() ==> #[trigger] sel@[row@[i] as int] {
                assert forall|i: int| 0 <= i < row@.len() implies #[trigger] sel_set.contains(
                    row@[i],
                ) by {
                    assert(sel@[row@[i] as int]);
                }
            }
        }
        if row.len() > 0 && all_marked(row, &sel) {
            count = count + 1;
        }
        r = r + 1;
    }
    (k, count)
}

/// Relies on rayon: an indexed parallel map over `0..=n` collected into a
/// `Vec` keeps the index order, so entry `k` is the closure's result on `k`.
#[verifier::external_body]
fn par_selection(inc: &Incidence, order: &Vec<usize>) -> (pts: Vec<(usize, usize)>)
    requires
        inc.wf(),
        parts_in_range(inc, order@),
    ensures
        selection_table(inc.rows(), order@, pts@),
{
    (0..=order.len()).into_par_iter().map(|k| selection_entry(inc, order, k)).collect()
}

/// The selection frontier for the ranking `order`: for each budget `k` from
/// 0 to `order.len()`, the number of valid assemblies whose parts are all
/// among the first `k` parts of `order`. Budgets are evaluated in parallel.
pub fn selection_frontier(inc: &Incidence, order: &Vec<usize>) -> (pts: Vec<(usize, usize)>)
    requires
        inc.wf(),
        parts_in_range(inc, order@),
    ensures
        selection_table(inc.rows(), order@, pts@),
{
    par_selection(inc, order)
}

/// The greedy removal frontier for the removal order `order`: parts are
/// removed one at a time in that order, and entry `k` holds the number of
/// parts left and of valid assemblies that lost none of their parts.
pub fn greedy_frontier(inc: &Incidence, order: &Vec<usize>) -> (pts: Vec<(usize, usize)>)
    requires
        inc.wf(),
        parts_in_range(inc, order@),
    ensures
        greedy_table(inc.rows(), order@, pts@),
{
    let n = order.len();
    let nr = inc.num_assemblies();
    let ghost rows = inc.rows();
    let total = inc.total_valid();
    let mut marked: Vec<bool> = Vec::new();
    let mut r: usize = 0;
    while r < nr
        invariant
            0 <= r <= nr,
            marked@.len() == r,
            forall|j: int| 0 <= j < r ==> !#[trigger] marked@[j],
        decreases nr - r,
    {
        marked.push(false);
        r = r + 1;
    }
    let mut nmarked: usize = 0;
    proof {
        lemma_count_none(nr as int, marked_at(marked@));
        assert forall|j: int| 0 <= j < nr implies #[trigger] marked@[j] == touched(
            rows[j],
            prefix_set(order@, 0),
        ) by {}
        lemma_marked_split(rows, prefix_set(order@, 0), marked@);
    }
    let mut pts: Vec<(usize, usize)> = Vec::new();
    pts.push((n, total));
    let mut k: usize = 0;
    while k < n && pts[k].1 != 0
        invariant
            inc.wf(),
            rows == inc.rows(),
            nr == rows.len(),
            n == order@.len(),
            parts_in_range(inc, order@),
            0 <= k <= n,
            total == total_valid(rows),
            pts@.len() == k + 1,
            forall|j: int|
                0 <= j <= k ==> (#[trigger] pts@[j]).0 == n - j && pts@[j].1 == surviving(
                    rows,
                    prefix_set(order@, j),
                ),
            marked@.len() == nr,
            forall|j: int| 0 <= j < nr ==> #[trigger] marked@[j] == touched(rows[j], prefix_set(order@, k as int)),
            nmarked == count_upto(nr as int, marked_at(marked@)),
        decreases n - k,
    {
        let c = order[k];
        let col = inc.part_assemblies(c);
        let ghost sk = prefix_set(order@, k as int);
        let mut i: usize = 0;
        while i < col.len()
            invariant
                inc.wf(),
                rows == inc.rows(),
                nr == rows.len(),
                c < inc.parts(),
                col@ == inc.cols()[c as int],
                0 <= i <= col@.len(),
                marked@.len() == nr,
                forall|j: int|
                    0 <= j < nr ==> #[trigger] marked@[j] == (touched(rows[j], sk) || col@.take(
                        i as int,
                    ).contains(j as usize)),
                nmarked == count_upto(nr as int, marked_at(marked@)),
            decreases col@.len() - i,
        {
            let rr = col[i];
            assert(rr < nr);
            let ghost before = marked@;
            proof {
                assert(col@.take(i + 1) == col@.take(i as int).push(rr));
                assert forall|x: usize| #[trigger] col@.take(i + 1).contains(x) <==> (col@.take(
                    i as int,
                ).contains(x) || x == rr) by {
                    let t = col@.take(i as int);
                    if t.push(rr).contains(x) {
                        let j = choose|j: int| 0 <= j < t.len() + 1 && t.push(rr)[j] == x;
                        if j < t.len() {
                            assert(t[j] == x);
                        }
                    }
                    if t.contains(x) {
                        let j = choose|j: int| 0 <= j < t.len() && t[j] == x;
                        assert(t.push(rr)[j] == x);
                    }
                    if x == rr {
                        assert(t.push(rr)[t.len() as int] == x);
                    }
                }
            }
            if !marked[rr] {
                marked[rr] = true;
                proof {
                    lemma_count_bound(nr as int, marked_at(before));
                    lemma_count_flip(nr as int, marked_at(before), marked_at(marked@), rr as int);
                    lemma_count_bound(nr as int, marked_at(marked@));
                }
                nmarked = nmarked + 1;
            }
            i = i + 1;
        }
        proof {
            assert(col@.take(col@.len() as int) == col@);
            let sk1 = prefix_set(order@, k + 1);
            assert forall|j: int| 0 <= j < nr implies #[trigger] marked@[j] == touched(rows[j], sk1) by {
                let row = rows[j];
                assert(inc.cols()[c as int].contains(j as usize) <==> inc.rows()[j].contains(
                    (c as int) as usize,
                ));
                if touched(row, sk1) {
                    let ii = choose|ii: int| 0 <= ii < row.len() && #[trigger] sk1.contains(row[ii]);
                    let jj = choose|jj: int| 0 <= jj < k + 1 && order@[jj] == row[ii];
                    if jj == k {
                        assert(row.contains(c));
                        assert(col@.contains(j as usize));
                    } else {
                        assert(sk.contains(row[ii]));
                    }
                }
                if touched(row, sk) {
                    let ii = choose|ii: int| 0 <= ii < row.len() && #[trigger] sk.contains(row[ii]);
                    assert(sk1.contains(row[ii]));
                }
                if col@.contains(j as usize) {
                    assert(row.contains(c));
                    let ii = choose|ii: int| 0 <= ii < row.len() && row[ii] == c;
                    assert(order@[k as int] == c);
                    assert(sk1.contains(row[ii]));
                }
            }
            lemma_marked_split(rows, sk1, marked@);
        }
        k = k + 1;
        pts.push((n - k, total - nmarked));
    }
    let ghost stop: int = k as int;
    while k < n
        invariant
            n == order@.len(),
            0 <= stop <= k <= n,
            stop < n ==> pts@[stop].1 == 0,
            pts@.len() == k + 1,
            forall|j: int|
                0 <= j <= k ==> (#[trigger] pts@[j]).0 == n - j && pts@[j].1 == surviving(
                    rows,
                    prefix_set(order@, j),
                ),
        decreases n - k,
    {
        k = k + 1;
        proof {
            lemma_surviving_antitone(rows, order@, stop, k as int);
        }
        pts.push((n - k, 0));
    }
    pts
}

/// The greedy removal frontier of `inc`: parts are removed least-required
/// first (equal occupancies by column index), and entry `k` pairs the
/// `parts - k` parts left with the number of valid assemblies still
/// buildable. Entries run from the full budget down to zero.
pub fn greedy(inc: &Incidence) -> (pts: Vec<(usize, usize)>)
    requires
        inc.wf(),
    ensures
        pts@.len() == inc.parts() + 1,
        exists|order: Seq<usize>|
            #[trigger] is_ranking(order, inc.occupancy_spec(), false) && greedy_table(
                inc.rows(),
                order,
                pts@,
            ),
{
    let occ = inc.occupancy();
    let order = rank_parts(&occ, false);
    let pts = greedy_frontier(inc, &order);
    assert(is_ranking(order@, inc.occupancy_spec(), false) && greedy_table(inc.rows(), order@, pts@));
    pts
}

/// The score-ranked selection frontier of `inc`: for each budget `k` from 0
/// to `parts`, the number of valid assemblies whose parts are all among the
/// `k` most required parts (equal occupancies by column index).
pub fn dynamic_programming(inc: &Incidence) -> (pts: Vec<(usize, usize)>)
    requires
        inc.wf(),
    ensures
        pts@.len() == inc.parts() + 1,
        exists|order: Seq<usize>|
            #[trigger] is_ranking(order, inc.occupancy_spec(), true) && selection_table(
                inc.rows(),
                order,
                pts@,
            ),
{
    let occ = inc.occupancy();
    let order = rank_parts(&occ, true);
    let pts = selection_frontier(inc, &order);
    assert(is_ranking(order@, inc.occupancy_spec(), true) && selection_table(inc.rows(), order@, pts@));
    pts
}

} // verus!
