use lego_frontier::incidence::{Incidence, IncidenceError};
use lego_frontier::knapsack::{dynamic_programming, greedy, greedy_frontier, selection_entry, selection_frontier};
use lego_frontier::ranking::rank_parts;

fn build(num_rows: usize, num_parts: usize, entries: &[(usize, usize, i32)]) -> Incidence {
    let rows: Vec<usize> = entries.iter().map(|e| e.0).collect();
    let cols: Vec<usize> = entries.iter().map(|e| e.1).collect();
    let vals: Vec<i32> = entries.iter().map(|e| e.2).collect();
    Incidence::from_entries(num_rows, num_parts, &rows, &cols, &vals).unwrap()
}

/// Assemblies {A}, {A,B}, {B,C} with A, B, C at columns 0, 1, 2.
fn three_parts() -> Incidence {
    build(3, 3, &[(0, 0, 1), (1, 0, 2), (1, 1, 1), (2, 1, 4), (2, 2, 1)])
}

#[test]
fn scenario_three_parts_selection() {
    let inc = three_parts();
    assert_eq!(inc.occupancy(), vec![2, 2, 1]);
    assert_eq!(dynamic_programming(&inc), vec![(0, 0), (1, 1), (2, 2), (3, 3)]);
}

#[test]
fn scenario_three_parts_greedy() {
    // C goes first; among A and B the lower column index (A) goes next,
    // which breaks both {A} and {A,B} at once.
    let inc = three_parts();
    assert_eq!(greedy(&inc), vec![(3, 3), (2, 2), (1, 0), (0, 0)]);
}

#[test]
fn scenario_three_parts_b_before_a() {
    // Same assemblies with B at column 0 and A at column 1: removing B
    // second breaks only {A,B}.
    let inc = build(3, 3, &[(0, 1, 1), (1, 1, 1), (1, 0, 1), (2, 0, 1), (2, 2, 1)]);
    let mut g = greedy(&inc);
    g.reverse();
    assert_eq!(g, vec![(0, 0), (1, 1), (2, 2), (3, 3)]);
    assert_eq!(dynamic_programming(&inc), vec![(0, 0), (1, 0), (2, 2), (3, 3)]);
}

#[test]
fn length_mismatch_is_rejected() {
    let r = Incidence::from_entries(2, 2, &vec![0, 1], &vec![0], &vec![1, 1]);
    assert!(matches!(r, Err(IncidenceError::LengthMismatch)));
    let r = Incidence::from_entries(2, 2, &vec![0], &vec![0], &vec![1, 1]);
    assert!(matches!(r, Err(IncidenceError::LengthMismatch)));
}

#[test]
fn out_of_range_is_rejected() {
    let r = Incidence::from_entries(2, 2, &vec![0, 2], &vec![0, 0], &vec![1, 1]);
    assert!(matches!(r, Err(IncidenceError::IndexOutOfRange)));
    let r = Incidence::from_entries(2, 2, &vec![0, 1], &vec![0, 2], &vec![1, 1]);
    assert!(matches!(r, Err(IncidenceError::IndexOutOfRange)));
}

#[test]
fn non_positive_values_are_not_required() {
    let inc = build(2, 2, &[(0, 0, 0), (0, 1, -3), (1, 1, 5)]);
    assert_eq!(inc.assembly_parts(0).len(), 0);
    assert_eq!(inc.assembly_parts(1), &vec![1]);
    assert_eq!(inc.total_valid(), 1);
    assert_eq!(inc.occupancy(), vec![0, 1]);
}

#[test]
fn duplicate_entries_collapse() {
    let inc = build(1, 2, &[(0, 1, 2), (0, 1, 3), (0, 0, 1)]);
    assert_eq!(inc.assembly_parts(0).len(), 2);
    assert_eq!(inc.part_assemblies(1), &vec![0]);
    assert_eq!(inc.occupancy(), vec![1, 1]);
}

#[test]
fn empty_assembly_is_never_counted() {
    let with_empty = build(3, 2, &[(0, 0, 1), (2, 1, 1)]);
    let without = build(2, 2, &[(0, 0, 1), (1, 1, 1)]);
    assert_eq!(with_empty.num_assemblies(), 3);
    assert_eq!(with_empty.total_valid(), 2);
    assert_eq!(greedy(&with_empty), greedy(&without));
    assert_eq!(dynamic_programming(&with_empty), dynamic_programming(&without));
    assert_eq!(dynamic_programming(&with_empty)[2], (2, 2));
    assert_eq!(greedy(&with_empty)[0], (2, 2));
}

#[test]
fn no_parts_gives_single_zero_entry() {
    let inc = build(2, 0, &[]);
    assert_eq!(inc.num_parts(), 0);
    assert_eq!(greedy(&inc), vec![(0, 0)]);
    assert_eq!(dynamic_programming(&inc), vec![(0, 0)]);
}

#[test]
fn no_valid_assemblies_gives_all_zero() {
    let inc = build(2, 3, &[]);
    assert_eq!(greedy(&inc), vec![(3, 0), (2, 0), (1, 0), (0, 0)]);
    assert_eq!(dynamic_programming(&inc), vec![(0, 0), (1, 0), (2, 0), (3, 0)]);
}

fn larger() -> Incidence {
    let mut entries = Vec::new();
    for r in 0..40usize {
        for c in 0..12usize {
            if (r * 7 + c * 3) % 5 == 0 || (r + c) % 11 == 0 {
                entries.push((r, c, 1 + (r % 3) as i32));
            }
        }
    }
    build(40, 12, &entries)
}

#[test]
fn frontiers_have_one_entry_per_budget() {
    let inc = larger();
    let g = greedy(&inc);
    let s = dynamic_programming(&inc);
    assert_eq!(g.len(), 13);
    assert_eq!(s.len(), 13);
    for b in 0..=12usize {
        assert_eq!(s[b].0, b);
        assert_eq!(g[12 - b].0, b);
    }
}

#[test]
fn frontiers_are_monotone() {
    let inc = larger();
    let g = greedy(&inc);
    let s = dynamic_programming(&inc);
    for k in 0..12usize {
        assert!(s[k].1 <= s[k + 1].1);
        assert!(g[k + 1].1 <= g[k].1);
        if g[k].1 == 0 {
            assert_eq!(g[k + 1].1, 0);
        }
    }
}

#[test]
fn frontiers_agree_at_endpoints() {
    let inc = larger();
    let total = inc.total_valid();
    assert!(total > 0);
    let g = greedy(&inc);
    let s = dynamic_programming(&inc);
    assert_eq!(s[0], (0, 0));
    assert_eq!(s[12], (12, total));
    assert_eq!(g[0], (12, total));
    assert_eq!(g[12], (0, 0));
}

#[test]
fn frontiers_are_deterministic() {
    let inc = larger();
    assert_eq!(greedy(&inc), greedy(&inc));
    assert_eq!(dynamic_programming(&inc), dynamic_programming(&inc));
}

#[test]
fn ranking_breaks_ties_by_index() {
    let occ = vec![3, 1, 3, 0, 1];
    assert_eq!(rank_parts(&occ, false), vec![3, 1, 4, 0, 2]);
    assert_eq!(rank_parts(&occ, true), vec![0, 2, 1, 4, 3]);
}

#[test]
fn selection_entries_come_in_budget_order() {
    let inc = larger();
    let occ = inc.occupancy();
    let order = rank_parts(&occ, true);
    let all = selection_frontier(&inc, &order);
    for k in 0..=12usize {
        assert_eq!(all[k], selection_entry(&inc, &order, k));
    }
}

#[test]
fn greedy_follows_given_order() {
    let inc = three_parts();
    // removing B first breaks {A,B} and {B,C}
    assert_eq!(greedy_frontier(&inc, &vec![1, 0, 2]), vec![(3, 3), (2, 1), (1, 0), (0, 0)]);
}
