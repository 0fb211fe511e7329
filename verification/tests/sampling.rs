use gift_swop::sampling::{
    adaptive_convergence_params, draw_numerator, next_state, select_algorithm, Algorithm,
};

#[test]
fn convergence_params_by_group_size() {
    assert_eq!(adaptive_convergence_params(4), (40, 150));
    assert_eq!(adaptive_convergence_params(5), (15, 60));
    assert_eq!(adaptive_convergence_params(8), (20, 80));
    assert_eq!(adaptive_convergence_params(10), (25, 100));
    assert_eq!(adaptive_convergence_params(15), (30, 120));
    assert_eq!(adaptive_convergence_params(16), (40, 150));
}

#[test]
fn single_person_gets_no_strategy() {
    assert_eq!(select_algorithm(1, 0, 0), None);
    assert_eq!(select_algorithm(1, 5, 9), None);
}

#[test]
fn small_groups_use_exhaustive_search() {
    for n in 2..=6 {
        assert_eq!(select_algorithm(n, 0, 0), Some(Algorithm::BranchAndBound));
        assert_eq!(select_algorithm(n, 100, 100), Some(Algorithm::BranchAndBound));
    }
}

#[test]
fn dense_medium_groups_use_annealing() {
    // 8 people have 28 pairs: 9 forbidden is more than three tenths, 8 is not.
    assert_eq!(select_algorithm(8, 9, 0), Some(Algorithm::SimulatedAnnealing));
    assert_eq!(select_algorithm(8, 8, 0), Some(Algorithm::Mcmc));
    // 10 people have 45 pairs: exactly three tenths is 13.5.
    assert_eq!(select_algorithm(10, 14, 0), Some(Algorithm::SimulatedAnnealing));
    assert_eq!(select_algorithm(10, 13, 0), Some(Algorithm::Mcmc));
    // 7 people have 21 pairs: 6.3 is the boundary.
    assert_eq!(select_algorithm(7, 7, 0), Some(Algorithm::SimulatedAnnealing));
    assert_eq!(select_algorithm(7, 6, 0), Some(Algorithm::Mcmc));
}

#[test]
fn large_groups_with_long_history_use_tempering() {
    assert_eq!(select_algorithm(11, 0, 6), Some(Algorithm::ParallelTempering));
    assert_eq!(select_algorithm(12, 0, 5), Some(Algorithm::Mcmc));
    assert_eq!(select_algorithm(10, 0, 20), Some(Algorithm::Mcmc));
    assert_eq!(select_algorithm(50, 40, 100), Some(Algorithm::ParallelTempering));
}

#[test]
fn empty_group_falls_back_to_sampling() {
    assert_eq!(select_algorithm(0, 0, 0), Some(Algorithm::Mcmc));
}

#[test]
fn generator_stream_from_seed_one() {
    let s1 = next_state(1);
    assert_eq!(s1, 1103527590);
    assert_eq!(draw_numerator(s1), 16838);
    let s2 = next_state(s1);
    assert_eq!(s2, 1217759518843121895);
    assert_eq!(draw_numerator(s2), 5758);
    let s3 = next_state(s2);
    assert_eq!(s3, 15426401326682203284);
    assert_eq!(draw_numerator(s3), 10113);
}

#[test]
fn generator_wraps_at_the_top_of_the_range() {
    let top = next_state(u64::MAX);
    let expected = ((u64::MAX as u128 * 1103515245u128 + 12345) % (1u128 << 64)) as u64;
    assert_eq!(top, expected);
    assert!(draw_numerator(u64::MAX) < 32768);
    assert_eq!(draw_numerator(u64::MAX), 32767);
}
