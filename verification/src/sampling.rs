//! The integer decisions of the sampler: which search strategy a problem
//! gets, how many iterations it may run, and the pseudo-random stream used
//! when no browser supplies one.
use vstd::prelude::*;

verus! {

/// The search strategies of the assignment processor.
#[derive(PartialEq, Eq, Structural, Clone, Copy, Debug)]
pub enum Algorithm {
    /// Exhaustive search with pruning, for the smallest groups.
    BranchAndBound,
    /// Annealing over cycle moves, for medium groups with many forbidden pairs.
    SimulatedAnnealing,
    /// Several chains at different temperatures, for large groups with a long history.
    ParallelTempering,
    /// Plain Metropolis sampling over cycle moves.
    Mcmc,
}

/// The number of unordered pairs among `n` people.
pub open spec fn pair_count(n: int) -> int {
    n * (n - 1) / 2
}

/// More than three tenths of all possible pairs of `n` people are forbidden.
pub open spec fn dense_constraints(n: int, forbidden_count: int) -> bool {
    10 * forbidden_count > 3 * pair_count(n)
}

/// The strategy for `n` people, `forbidden_count` forbidden pairs and
/// `history_len` earlier rounds; none for a single person, who cannot give
/// to anyone.
pub open spec fn spec_select_algorithm(n: int, forbidden_count: int, history_len: int) -> Option<
    Algorithm,
> {
    if n == 1 {
        None
    } else if 2 <= n <= 6 {
        Some(Algorithm::BranchAndBound)
    } else if 7 <= n <= 10 && dense_constraints(n, forbidden_count) {
        Some(Algorithm::SimulatedAnnealing)
    } else if n >= 11 && history_len > 5 {
        Some(Algorithm::ParallelTempering)
    } else {
        Some(Algorithm::Mcmc)
    }
}

/// Chooses the search strategy from the size of the problem: exhaustive
/// search up to six people, annealing for seven to ten people when more
/// than three tenths of their pairs are forbidden, parallel tempering from
/// eleven people with more than five earlier rounds, plain sampling
/// otherwise. A single person gets none.
pub fn select_algorithm(n: usize, forbidden_count: usize, history_len: usize) -> (res: Option<
    Algorithm,
>)
    ensures
        res == spec_select_algorithm(n as int, forbidden_count as int, history_len as int),
        n == 1 <==> res is None,
        2 <= n <= 6 ==> res == Some(Algorithm::BranchAndBound),
        7 <= n <= 10 && 20 * forbidden_count > 3 * n * (n - 1) ==> res == Some(
            Algorithm::SimulatedAnnealing,
        ),
        7 <= n <= 10 && 20 * forbidden_count <= 3 * n * (n - 1) ==> res == Some(Algorithm::Mcmc),
        n >= 11 && history_len > 5 ==> res == Some(Algorithm::ParallelTempering),
        n >= 11 && history_len <= 5 ==> res == Some(Algorithm::Mcmc),
        n == 0 ==> res == Some(Algorithm::Mcmc),
{
    proof {
        if 7 <= n <= 10 {
            let m = n as int;
            assert(m == 7 || m == 8 || m == 9 || m == 10);
            if m == 7 {
                assert(pair_count(m) == 21);
            } else if m == 8 {
                assert(pair_count(m) == 28);
            } else if m == 9 {
                assert(pair_count(m) == 36);
            } else {
                assert(pair_count(m) == 45);
            }
            assert(2 * pair_count(m) == m * (m - 1));
            assert(3 * m * (m - 1) == 3 * (m * (m - 1)));
        }
    }
    if n == 1 {
        None
    } else if 2 <= n && n <= 6 {
        Some(Algorithm::BranchAndBound)
    } else if 7 <= n && n <= 10 && dense_pairs(n, forbidden_count) {
        Some(Algorithm::SimulatedAnnealing)
    } else if n >= 11 && history_len > 5 {
        Some(Algorithm::ParallelTempering)
    } else {
        Some(Algorithm::Mcmc)
    }
}

/// Whether more than three tenths of the pairs of `n` people (seven to ten
/// of them) are forbidden.
fn dense_pairs(n: usize, forbidden_count: usize) -> (res: bool)
    requires
        7 <= n <= 10,
    ensures
        res == dense_constraints(n as int, forbidden_count as int),
{
    let people: u64 = n as u64;
    assert(people * (people - 1) <= 90) by (nonlinear_arith)
        requires
            7 <= people <= 10,
    ;
    let pairs: u64 = people * (people - 1) / 2;
    (forbidden_count as u128) * 10 > (pairs as u128) * 3
}

/// The minimum and maximum number of sampler iterations for a group of
/// `group_size` people.
pub open spec fn spec_convergence_params(group_size: nat) -> (usize, usize) {
    if 5 <= group_size <= 6 {
        (15, 60)
    } else if 7 <= group_size <= 8 {
        (20, 80)
    } else if 9 <= group_size <= 10 {
        (25, 100)
    } else if 11 <= group_size <= 15 {
        (30, 120)
    } else {
        (40, 150)
    }
}

/// The sampler's iteration budget, growing with the group: at least the
/// first number of iterations, at most the second.
pub fn adaptive_convergence_params(group_size: usize) -> (res: (usize, usize))
    ensures
        res == spec_convergence_params(group_size as nat),
        res.0 < res.1,
        5 <= group_size <= 6 ==> res == (15usize, 60usize),
        7 <= group_size <= 8 ==> res == (20usize, 80usize),
        9 <= group_size <= 10 ==> res == (25usize, 100usize),
        11 <= group_size <= 15 ==> res == (30usize, 120usize),
        group_size < 5 || group_size > 15 ==> res == (40usize, 150usize),
{
    match group_size {
        5..=6 => (15, 60),
        7..=8 => (20, 80),
        9..=10 => (25, 100),
        11..=15 => (30, 120),
        _ => (40, 150),
    }
}

/// The multiplier of the linear congruential generator.
pub const LCG_MULTIPLIER: u64 = 1103515245;

/// The increment of the linear congruential generator.
pub const LCG_INCREMENT: u64 = 12345;

/// The number of distinct values a draw of the generator can take.
pub const LCG_RANGE: u64 = 32768;

/// The state after `state` in the generator's stream.
pub open spec fn spec_next_state(state: u64) -> int {
    (state * LCG_MULTIPLIER + LCG_INCREMENT) % 0x1_0000_0000_0000_0000
}

/// Advances the generator: multiplies by the multiplier and adds the
/// increment, modulo two to the sixty-fourth.
pub fn next_state(state: u64) -> (res: u64)
    ensures
        res as int == spec_next_state(state),
{
    let m = state.wrapping_mul(LCG_MULTIPLIER);
    let res = m.wrapping_add(LCG_INCREMENT);
    proof {
        let modulus: int = 0x1_0000_0000_0000_0000;
        let x: int = state as int * LCG_MULTIPLIER as int;
        assert(m as int == x % modulus);
        vstd::arithmetic::div_mod::lemma_add_mod_noop(x, LCG_INCREMENT as int, modulus);
        vstd::arithmetic::div_mod::lemma_small_mod(LCG_INCREMENT as nat, modulus as nat);
        vstd::arithmetic::div_mod::lemma_mod_bound(x, modulus);
        if m as int + LCG_INCREMENT as int > u64::MAX as int {
            vstd::arithmetic::div_mod::lemma_fundamental_div_mod_converse(
                m as int + LCG_INCREMENT as int,
                modulus,
                1,
                m as int + LCG_INCREMENT as int - modulus,
            );
        } else {
            vstd::arithmetic::div_mod::lemma_small_mod(
                (m as int + LCG_INCREMENT as int) as nat,
                modulus as nat,
            );
        }
    }
    res
}

/// The draw that a state yields: bits sixteen to thirty of the state, a
/// number below the range.
pub fn draw_numerator(state: u64) -> (res: u64)
    ensures
        res as int == (state as int / 65536) % (LCG_RANGE as int),
        res < LCG_RANGE,
{
    (state / 65536) % LCG_RANGE
}

} // verus!
