use gift_swop::moves::{
    enumerate_all_cycles, insertion_move, permute, shuffle_cycle, sorted_members, swap_move,
    two_opt_move,
};
use std::collections::HashSet;

fn sorted(mut v: Vec<usize>) -> Vec<usize> {
    v.sort();
    v
}

#[test]
fn two_opt_reverses_stretch() {
    let mut cycle = vec![0, 1, 2, 3, 4, 5];
    two_opt_move(&mut cycle, 4, 1);
    assert_eq!(cycle, vec![0, 4, 3, 2, 1, 5]);
}

#[test]
fn two_opt_leaves_short_stretches() {
    let mut cycle = vec![0, 1, 2, 3];
    two_opt_move(&mut cycle, 1, 2);
    assert_eq!(cycle, vec![0, 1, 2, 3]);
    let mut small = vec![0, 1, 2];
    two_opt_move(&mut small, 0, 2);
    assert_eq!(small, vec![0, 1, 2]);
}

#[test]
fn swap_exchanges_members() {
    let mut cycle = vec![5, 6, 7];
    swap_move(&mut cycle, 0, 2);
    assert_eq!(cycle, vec![7, 6, 5]);
    let mut one = vec![9];
    swap_move(&mut one, 0, 0);
    assert_eq!(one, vec![9]);
}

#[test]
fn insertion_moves_member() {
    let mut cycle = vec![0, 1, 2, 3, 4];
    insertion_move(&mut cycle, 1, 3);
    assert_eq!(cycle, vec![0, 2, 3, 1, 4]);
    let mut pair = vec![0, 1];
    insertion_move(&mut pair, 0, 1);
    assert_eq!(pair, vec![0, 1]);
}

#[test]
fn shuffle_follows_draws() {
    let mut cycle = vec![10, 20, 30, 40];
    // position 3 <-> 0, then 2 <-> 2, then 1 <-> 0
    shuffle_cycle(&mut cycle, &vec![0, 0, 2, 0]);
    assert_eq!(cycle, vec![20, 40, 30, 10]);
    assert_eq!(sorted(cycle), vec![10, 20, 30, 40]);
}

#[test]
fn permute_lists_every_ordering_behind_prefix() {
    let mut items = vec![9, 1, 2, 3];
    let mut results = Vec::new();
    permute(&mut items, 1, &mut results);
    assert_eq!(items, vec![9, 1, 2, 3]);
    assert_eq!(
        results,
        vec![
            vec![9, 1, 2, 3],
            vec![9, 1, 3, 2],
            vec![9, 2, 1, 3],
            vec![9, 2, 3, 1],
            vec![9, 3, 2, 1],
            vec![9, 3, 1, 2],
        ]
    );
}

#[test]
fn enumerate_small_group() {
    let participants: HashSet<usize> = [3, 1, 2].iter().copied().collect();
    let cycles = enumerate_all_cycles(&participants);
    assert_eq!(cycles.len(), 6);
    assert_eq!(cycles[0], vec![1, 2, 3]);
    let distinct: HashSet<Vec<usize>> = cycles.iter().cloned().collect();
    assert_eq!(distinct.len(), 6);
    for c in &cycles {
        assert_eq!(sorted(c.clone()), vec![1, 2, 3]);
    }
}

#[test]
fn enumerate_large_group_gives_sorted_order_only() {
    let participants: HashSet<usize> = (0..9).rev().collect();
    let cycles = enumerate_all_cycles(&participants);
    assert_eq!(cycles, vec![(0..9).collect::<Vec<usize>>()]);
}

#[test]
fn enumerate_empty_group() {
    let cycles = enumerate_all_cycles(&HashSet::new());
    assert_eq!(cycles, vec![Vec::<usize>::new()]);
}

#[test]
fn sorted_members_increasing() {
    let participants: HashSet<usize> = [15, 1, 10, 5].iter().copied().collect();
    assert_eq!(sorted_members(&participants), vec![1, 5, 10, 15]);
}

