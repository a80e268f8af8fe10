//! Properties that hold of every frontier the library computes.

use vstd::prelude::*;
use crate::counting::{lemma_count_ext, lemma_count_none};
use crate::incidence::{Incidence, total_valid, valid_at};
use crate::knapsack::{
    buildable_with, fits_at, greedy_table, lemma_buildable_monotone, lemma_prefix_nested,
    lemma_surviving_antitone, prefix_set, selection_table, surviving, untouched_at,
};
use crate::ranking::{is_ranking, ranks_before};

verus! {

/// Each frontier has one entry per budget from 0 to the number of parts,
/// and no budget occurs twice: the selection frontier lists budget `b` at
/// entry `b`, the greedy frontier at entry `n - b`.
pub proof fn lemma_frontiers_cover_budgets(
    rows: Seq<Seq<usize>>,
    asc: Seq<usize>,
    g: Seq<(usize, usize)>,
    desc: Seq<usize>,
    s: Seq<(usize, usize)>,
)
    requires
        asc.len() == desc.len(),
        greedy_table(rows, asc, g),
        selection_table(rows, desc, s),
    ensures
        g.len() == asc.len() + 1,
        s.len() == asc.len() + 1,
        forall|b: int| 0 <= b <= asc.len() ==> (#[trigger] g[asc.len() - b]).0 == b && s[b].0 == b,
        forall|i: int, j: int|
            0 <= i < j <= asc.len() ==> (#[trigger] g[i]).0 != (#[trigger] g[j]).0 && s[i].0 != s[j].0,
{
    assert forall|b: int| 0 <= b <= asc.len() implies (#[trigger] g[asc.len() - b]).0 == b && s[b].0
        == b by {
        assert(g[asc.len() - b].0 == asc.len() - (asc.len() - b));
    }
}

/// The selected part sets are nested, and the selection frontier never
/// decreases as the budget grows by one.
pub proof fn lemma_selection_frontier_monotone(
    rows: Seq<Seq<usize>>,
    order: Seq<usize>,
    s: Seq<(usize, usize)>,
    k: int,
)
    requires
        selection_table(rows, order, s),
        0 <= k < order.len(),
    ensures
        prefix_set(order, k).subset_of(prefix_set(order, k + 1)),
        s[k].1 <= s[k + 1].1,
{
    lemma_prefix_nested(order, k, k + 1);
    lemma_buildable_monotone(rows, order, k, k + 1);
}

/// Along the greedy frontier the buildable count never grows as parts are
/// removed (entry `j` has fewer parts left than entry `k`), and once it is
/// zero it stays zero.
pub proof fn lemma_greedy_frontier_monotone(
    rows: Seq<Seq<usize>>,
    order: Seq<usize>,
    g: Seq<(usize, usize)>,
    k: int,
    j: int,
)
    requires
        greedy_table(rows, order, g),
        0 <= k <= j <= order.len(),
    ensures
        g[j].0 <= g[k].0,
        g[j].1 <= g[k].1,
        g[k].1 == 0 ==> g[j].1 == 0,
{
    lemma_surviving_antitone(rows, order, k, j);
}

/// With no parts nothing is buildable, and with every part every valid
/// assembly is, on both frontiers.
pub proof fn lemma_frontier_endpoints(
    inc: &Incidence,
    asc: Seq<usize>,
    g: Seq<(usize, usize)>,
    desc: Seq<usize>,
    s: Seq<(usize, usize)>,
)
    requires
        inc.wf(),
        is_ranking(asc, inc.occupancy_spec(), false),
        is_ranking(desc, inc.occupancy_spec(), true),
        greedy_table(inc.rows(), asc, g),
        selection_table(inc.rows(), desc, s),
    ensures
        s[0].0 == 0 && s[0].1 == 0,
        s[inc.parts() as int].0 == inc.parts() && s[inc.parts() as int].1 == total_valid(inc.rows()),
        g[0].0 == inc.parts() && g[0].1 == total_valid(inc.rows()),
        g[inc.parts() as int].0 == 0 && g[inc.parts() as int].1 == 0,
{
    let rows = inc.rows();
    let nr = rows.len() as int;
    let n = inc.parts() as int;
    let empty_d = prefix_set(desc, 0);
    let empty_a = prefix_set(asc, 0);
    let all_d = prefix_set(desc, n);
    let all_a = prefix_set(asc, n);
    assert forall|r: int| 0 <= r < nr implies !#[trigger] fits_at(rows, empty_d)(r) by {
        if rows[r].len() > 0 {
            assert(!empty_d.contains(rows[r][0]));
        }
    }
    lemma_count_none(nr, fits_at(rows, empty_d));
    assert forall|r: int| 0 <= r < nr implies #[trigger] untouched_at(rows, empty_a)(r) == valid_at(
        rows,
    )(r) by {}
    lemma_count_ext(nr, untouched_at(rows, empty_a), valid_at(rows));
    assert forall|r: int| 0 <= r < nr implies #[trigger] fits_at(rows, all_d)(r) == valid_at(rows)(r) by {
        assert forall|i: int| 0 <= i < rows[r].len() implies #[trigger] all_d.contains(rows[r][i]) by {
            let c = rows[r][i];
            assert(c < n);
            assert(desc.contains((c as int) as usize));
        }
    }
    lemma_count_ext(nr, fits_at(rows, all_d), valid_at(rows));
    assert forall|r: int| 0 <= r < nr implies !#[trigger] untouched_at(rows, all_a)(r) by {
        if rows[r].len() > 0 {
            let c = rows[r][0];
            assert(c < n);
            assert(asc.contains((c as int) as usize));
            assert(all_a.contains(rows[r][0]));
        }
    }
    lemma_count_none(nr, untouched_at(rows, all_a));
}

/// Appending an assembly that requires no part changes neither the number
/// of valid assemblies nor any count on either frontier.
pub proof fn lemma_empty_assembly_excluded(rows: Seq<Seq<usize>>, parts: Set<usize>)
    ensures
        total_valid(rows.push(Seq::empty())) == total_valid(rows),
        buildable_with(rows.push(Seq::empty()), parts) == buildable_with(rows, parts),
        surviving(rows.push(Seq::empty()), parts) == surviving(rows, parts),
{
    let more = rows.push(Seq::empty());
    let n = rows.len() as int;
    assert(!valid_at(more)(n));
    assert(!fits_at(more, parts)(n));
    assert(!untouched_at(more, parts)(n));
    assert forall|r: int| 0 <= r < n implies #[trigger] valid_at(more)(r) == valid_at(rows)(r) && fits_at(
        more,
        parts,
    )(r) == fits_at(rows, parts)(r) && untouched_at(more, parts)(r) == untouched_at(rows, parts)(r) by {
        assert(more[r] == rows[r]);
    }
    lemma_count_ext(n, valid_at(more), valid_at(rows));
    lemma_count_ext(n, fits_at(more, parts), fits_at(rows, parts));
    lemma_count_ext(n, untouched_at(more, parts), untouched_at(rows, parts));
}

proof fn lemma_ranking_sorted(order: Seq<usize>, occ: Seq<usize>, descending: bool, j: int)
    requires
        is_ranking(order, occ, descending),
        0 <= j < order.len(),
    ensures
        forall|i: int| 0 <= i <= j ==> #[trigger] ranks_before(occ, descending, order[i], order[j]),
    decreases j,
{
    if j > 0 {
        lemma_ranking_sorted(order, occ, descending, j - 1);
        assert(ranks_before(occ, descending, order[j - 1], order[(j - 1) + 1]));
        assert forall|i: int| 0 <= i <= j implies #[trigger] ranks_before(
            occ,
            descending,
            order[i],
            order[j],
        ) by {
            if i < j {
                assert(ranks_before(occ, descending, order[i], order[j - 1]));
            }
        }
    }
}

proof fn lemma_ranking_agree(
    o1: Seq<usize>,
    o2: Seq<usize>,
    occ: Seq<usize>,
    descending: bool,
    i: int,
)
    requires
        is_ranking(o1, occ, descending),
        is_ranking(o2, occ, descending),
        0 <= i < o1.len(),
    ensures
        forall|j: int| 0 <= j <= i ==> #[trigger] o1[j] == o2[j],
    decreases i,
{
    if i > 0 {
        lemma_ranking_agree(o1, o2, occ, descending, i - 1);
    }
    let a = o1[i];
    let b = o2[i];
    assert(o2.contains((a as int) as usize));
    let p = choose|p: int| 0 <= p < o2.len() && o2[p] == a;
    assert(o1.contains((b as int) as usize));
    let q = choose|q: int| 0 <= q < o1.len() && o1[q] == b;
    if p < i {
        assert(o1[p] == a);
    } else if q < i {
        assert(o2[q] == b);
    } else if p > i && q > i {
        lemma_ranking_sorted(o2, occ, descending, p);
        lemma_ranking_sorted(o1, occ, descending, q);
        assert(ranks_before(occ, descending, b, a));
        assert(ranks_before(occ, descending, a, b));
    }
}

/// Two orders that both rank every part by the same occupancies are equal.
pub proof fn lemma_ranking_unique(o1: Seq<usize>, o2: Seq<usize>, occ: Seq<usize>, descending: bool)
    requires
        is_ranking(o1, occ, descending),
        is_ranking(o2, occ, descending),
    ensures
        o1 == o2,
{
    if o1.len() > 0 {
        lemma_ranking_agree(o1, o2, occ, descending, o1.len() - 1);
    }
    assert(o1 =~= o2);
}

/// Both frontiers are determined by the incidence relation alone: any two
/// results that meet the greedy frontier's contract are equal, and so are
/// any two that meet the selection frontier's.
pub proof fn lemma_frontiers_deterministic(
    inc: &Incidence,
    g1: Seq<(usize, usize)>,
    g2: Seq<(usize, usize)>,
    s1: Seq<(usize, usize)>,
    s2: Seq<(usize, usize)>,
)
    requires
        exists|o: Seq<usize>|
            #[trigger] is_ranking(o, inc.occupancy_spec(), false) && greedy_table(inc.rows(), o, g1),
        exists|o: Seq<usize>|
            #[trigger] is_ranking(o, inc.occupancy_spec(), false) && greedy_table(inc.rows(), o, g2),
        exists|o: Seq<usize>|
            #[trigger] is_ranking(o, inc.occupancy_spec(), true) && selection_table(inc.rows(), o, s1),
        exists|o: Seq<usize>|
            #[trigger] is_ranking(o, inc.occupancy_spec(), true) && selection_table(inc.rows(), o, s2),
    ensures
        g1 == g2,
        s1 == s2,
{
    let occ = inc.occupancy_spec();
    let a1 = choose|o: Seq<usize>| #[trigger] is_ranking(o, occ, false) && greedy_table(inc.rows(), o, g1);
    let a2 = choose|o: Seq<usize>| #[trigger] is_ranking(o, occ, false) && greedy_table(inc.rows(), o, g2);
    let d1 = choose|o: Seq<usize>| #[trigger] is_ranking(o, occ, true) && selection_table(inc.rows(), o, s1);
    let d2 = choose|o: Seq<usize>| #[trigger] is_ranking(o, occ, true) && selection_table(inc.rows(), o, s2);
    lemma_ranking_unique(a1, a2, occ, false);
    lemma_ranking_unique(d1, d2, occ, true);
    assert(g1 =~= g2);
    assert(s1 =~= s2);
}

} // verus!
