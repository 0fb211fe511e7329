use gift_swop::assignment::{Assignment, AssignmentPair, ForbiddenPair};
use gift_swop::constraints::{
    forbidden_assignments, has_forbidden_edge, history_receivers,
    reject_forbidden_cycle,
};
use std::collections::HashSet;

fn set(items: &[usize]) -> HashSet<usize> {
    items.iter().copied().collect()
}

#[test]
fn forbidden_pairs_rule_out_both_directions() {
    let participants = set(&[0, 1, 2, 3]);
    let pairs = vec![
        ForbiddenPair { member_1: 0, member_2: 1 },
        ForbiddenPair { member_1: 2, member_2: 3 },
    ];
    let ruled_out = forbidden_assignments(&participants, &pairs);
    assert_eq!(
        ruled_out,
        vec![
            AssignmentPair { giver: 0, receiver: 1 },
            AssignmentPair { giver: 1, receiver: 0 },
            AssignmentPair { giver: 2, receiver: 3 },
            AssignmentPair { giver: 3, receiver: 2 },
        ]
    );
}

#[test]
fn forbidden_pair_with_absent_member_is_ignored() {
    let participants = set(&[0, 1]);
    let pairs = vec![ForbiddenPair { member_1: 0, member_2: 5 }];
    assert!(forbidden_assignments(&participants, &pairs).is_empty());
    assert!(forbidden_assignments(&HashSet::new(), &pairs).is_empty());
}

#[test]
fn history_receivers_follow_round_order() {
    let participants = set(&[0, 1, 2, 3]);
    let history = vec![
        Assignment { value: vec![0, 1, 2, 3] },
        Assignment { value: vec![0, 2, 1, 3] },
    ];
    // 0 gave to 1 most recently, then to 2: penalties 0.5 then 0.25.
    assert_eq!(history_receivers(0, &participants, &history), vec![1, 2]);
    // 3 gave to 0 both times.
    assert_eq!(history_receivers(3, &participants, &history), vec![0, 0]);
}

#[test]
fn history_receivers_skip_absent_people() {
    let participants = set(&[0, 1]);
    let history = vec![
        Assignment { value: vec![0, 5] },
        Assignment { value: vec![1, 0] },
        Assignment { value: vec![7, 8] },
    ];
    assert_eq!(history_receivers(0, &participants, &history), vec![1]);
    assert_eq!(history_receivers(9, &participants, &history), Vec::<usize>::new());
}

#[test]
fn forbidden_edge_detection_covers_closing_gift() {
    let pairs = vec![ForbiddenPair { member_1: 0, member_2: 3 }];
    // 3 gives back to 0 when the cycle closes.
    assert!(has_forbidden_edge(&[0, 1, 2, 3], &pairs));
    assert!(has_forbidden_edge(&[1, 3, 0, 2], &pairs));
    assert!(!has_forbidden_edge(&[0, 1, 3, 2], &pairs));
    assert!(!has_forbidden_edge(&[], &pairs));
}

#[test]
fn safeguard_rejects_forbidden_cycles_only() {
    let pairs = vec![ForbiddenPair { member_1: 0, member_2: 1 }];
    assert_eq!(reject_forbidden_cycle(Some(vec![0, 1, 2]), &pairs), None);
    assert_eq!(reject_forbidden_cycle(Some(vec![0, 2, 1]), &pairs), None);
    assert_eq!(reject_forbidden_cycle(Some(vec![0, 2, 3, 1, 4]), &pairs), Some(vec![0, 2, 3, 1, 4]));
    assert_eq!(reject_forbidden_cycle(None, &pairs), None);
}
