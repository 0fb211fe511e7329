use gift_swop::assignment::{Assignment, AssignmentPair, ForbiddenPair};
use std::collections::HashSet;

#[test]
fn test_forbidden_pair_validation() {
    let pair = ForbiddenPair { member_1: 1, member_2: 3 };

    let mut valid_set = HashSet::new();
    valid_set.insert(1);
    valid_set.insert(2);
    valid_set.insert(3);

    assert!(pair.valid(&valid_set));
    assert!(!pair.invalid(&valid_set));

    valid_set.remove(&3);
    assert!(!pair.valid(&valid_set));
    assert!(pair.invalid(&valid_set));
}

#[test]
fn test_assignment_receiver_lookup() {
    let assignment = Assignment { value: vec![0, 1, 2] };

    assert_eq!(assignment.receiver_of(0), Some(1));
    assert_eq!(assignment.receiver_of(1), Some(2));
    assert_eq!(assignment.receiver_of(2), Some(0));

    assert_eq!(assignment.receiver_of(5), None);
}

#[test]
fn test_assignment_empty() {
    let assignment = Assignment::default();

    assert_eq!(assignment.receiver_of(0), None);
    assert_eq!(assignment.receiver_of(1), None);
}

#[test]
fn test_assignment_pair_creation() {
    let pair = AssignmentPair { giver: 2, receiver: 5 };

    assert_eq!(pair.giver, 2);
    assert_eq!(pair.receiver, 5);
}

#[test]
fn test_assignment_pair_equality() {
    let pair1 = AssignmentPair { giver: 1, receiver: 2 };
    let pair2 = AssignmentPair { giver: 1, receiver: 2 };
    let pair3 = AssignmentPair { giver: 2, receiver: 1 };

    assert_eq!(pair1, pair2);
    assert_ne!(pair1, pair3);
}

#[test]
fn ordered_pair_puts_smaller_member_first() {
    assert_eq!(ForbiddenPair::ordered(3, 1), ForbiddenPair { member_1: 1, member_2: 3 });
    assert_eq!(ForbiddenPair::ordered(1, 3), ForbiddenPair { member_1: 1, member_2: 3 });
    assert_eq!(ForbiddenPair::ordered(2, 2), ForbiddenPair { member_1: 2, member_2: 2 });
}

#[test]
fn receiver_uses_first_occurrence_and_wraps() {
    let assignment = Assignment { value: vec![4, 7, 4, 9] };
    assert_eq!(assignment.receiver_of(4), Some(7));
    assert_eq!(assignment.receiver_of(9), Some(4));
    let single = Assignment { value: vec![3] };
    assert_eq!(single.receiver_of(3), Some(3));
}
