//! The integer decisions behind an assignment's weights and checks: which
//! directed pairs the forbidden pairs rule out, which earlier receivers of a
//! giver are penalised (and in what order), and whether a cycle uses a
//! forbidden pair.
use crate::assignment::{spec_receiver_of, Assignment, AssignmentPair, ForbiddenPair};
use std::collections::HashSet;
use vstd::prelude::*;

verus! {

/// The directed pairs ruled out by `pairs` among `participants`: for each
/// pair whose members both take part, both directions, in order.
pub open spec fn spec_forbidden_assignments(
    participants: Set<usize>,
    pairs: Seq<ForbiddenPair>,
) -> Seq<AssignmentPair>
    decreases pairs.len(),
{
    if pairs.len() == 0 {
        seq![]
    } else {
        let rest = spec_forbidden_assignments(participants, pairs.drop_last());
        let fp = pairs.last();
        if fp.spec_valid(participants) {
            rest + seq![
                AssignmentPair { giver: fp.member_1, receiver: fp.member_2 },
                AssignmentPair { giver: fp.member_2, receiver: fp.member_1 },
            ]
        } else {
            rest
        }
    }
}

/// Ruling out pairs list by list: the gifts ruled out by two lists one
/// after the other are those of the first followed by those of the second.
pub proof fn lemma_forbidden_assignments_concat(
    participants: Set<usize>,
    a: Seq<ForbiddenPair>,
    b: Seq<ForbiddenPair>,
)
    ensures
        spec_forbidden_assignments(participants, a + b) == spec_forbidden_assignments(participants, a)
            + spec_forbidden_assignments(participants, b),
    decreases b.len(),
{
    if b.len() == 0 {
        assert(a + b =~= a);
        assert(spec_forbidden_assignments(participants, a) + seq![] =~= spec_forbidden_assignments(
            participants,
            a,
        ));
    } else {
        lemma_forbidden_assignments_concat(participants, a, b.drop_last());
        assert((a + b).drop_last() =~= a + b.drop_last());
        assert((a + b).last() == b.last());
        let x = spec_forbidden_assignments(participants, a);
        let y = spec_forbidden_assignments(participants, b.drop_last());
        let z = seq![
            AssignmentPair { giver: b.last().member_1, receiver: b.last().member_2 },
            AssignmentPair { giver: b.last().member_2, receiver: b.last().member_1 },
        ];
        assert(x + y + z =~= x + (y + z));
    }
}

/// The gift from `giver` to `receiver` is ruled out by the pair at `k`
/// of `pairs`, whose members both take part.
pub open spec fn ruled_out_by(
    participants: Set<usize>,
    pairs: Seq<ForbiddenPair>,
    k: int,
    e: AssignmentPair,
) -> bool {
    &&& 0 <= k < pairs.len()
    &&& participants.contains(pairs[k].member_1)
    &&& participants.contains(pairs[k].member_2)
    &&& (e == AssignmentPair { giver: pairs[k].member_1, receiver: pairs[k].member_2 } || e
        == AssignmentPair { giver: pairs[k].member_2, receiver: pairs[k].member_1 })
}

/// Every gift ruled out comes from a pair of the list whose members both
/// take part.
proof fn lemma_forbidden_assignments_sound(participants: Set<usize>, pairs: Seq<ForbiddenPair>, i: int)
    requires
        0 <= i < spec_forbidden_assignments(participants, pairs).len(),
    ensures
        exists|k: int|
            #[trigger] ruled_out_by(
                participants,
                pairs,
                k,
                spec_forbidden_assignments(participants, pairs)[i],
            ),
    decreases pairs.len(),
{
    let init = pairs.drop_last();
    let n = pairs.len() - 1;
    let rest = spec_forbidden_assignments(participants, init);
    let res = spec_forbidden_assignments(participants, pairs);
    let e = res[i];
    if i < rest.len() {
        if pairs.last().spec_valid(participants) {
            assert(res[i] == rest[i]);
        }
        lemma_forbidden_assignments_sound(participants, init, i);
        let k = choose|k: int| #[trigger] ruled_out_by(participants, init, k, e);
        assert(pairs[k] == init[k]);
        assert(ruled_out_by(participants, pairs, k, e));
    } else {
        assert(ruled_out_by(participants, pairs, n, e));
    }
}

/// Both gifts between the members of a pair that both take part are ruled
/// out, whatever other pairs the list holds.
proof fn lemma_forbidden_assignments_complete(
    participants: Set<usize>,
    pairs: Seq<ForbiddenPair>,
    k: int,
)
    requires
        0 <= k < pairs.len(),
        participants.contains(pairs[k].member_1),
        participants.contains(pairs[k].member_2),
    ensures
        spec_forbidden_assignments(participants, pairs).contains(
            AssignmentPair { giver: pairs[k].member_1, receiver: pairs[k].member_2 },
        ),
        spec_forbidden_assignments(participants, pairs).contains(
            AssignmentPair { giver: pairs[k].member_2, receiver: pairs[k].member_1 },
        ),
    decreases pairs.len(),
{
    let init = pairs.drop_last();
    let n = pairs.len() - 1;
    let rest = spec_forbidden_assignments(participants, init);
    let res = spec_forbidden_assignments(participants, pairs);
    let a1 = AssignmentPair { giver: pairs[k].member_1, receiver: pairs[k].member_2 };
    let a2 = AssignmentPair { giver: pairs[k].member_2, receiver: pairs[k].member_1 };
    if k == n {
        assert(res == rest + seq![a1, a2]);
        assert(res[rest.len() as int] == a1);
        assert(res[rest.len() as int + 1] == a2);
    } else {
        assert(init[k] == pairs[k]);
        lemma_forbidden_assignments_complete(participants, init, k);
        let i1 = choose|i: int| 0 <= i < rest.len() && rest[i] == a1;
        let i2 = choose|i: int| 0 <= i < rest.len() && rest[i] == a2;
        if pairs.last().spec_valid(participants) {
            assert(res == rest + seq![
                AssignmentPair { giver: pairs.last().member_1, receiver: pairs.last().member_2 },
                AssignmentPair { giver: pairs.last().member_2, receiver: pairs.last().member_1 },
            ]);
        }
        assert(res[i1] == a1);
        assert(res[i2] == a2);
    }
}

/// Exactly the forbidden gifts are ruled out: for every pair whose two
/// members both take part, both directed gifts between them, whatever other
/// pairs the list holds; and every gift ruled out comes from such a pair.
pub proof fn lemma_forbidden_assignments_exact(participants: Set<usize>, pairs: Seq<ForbiddenPair>)
    ensures
        forall|k: int|
            0 <= k < pairs.len() && participants.contains(#[trigger] pairs[k].member_1)
                && participants.contains(pairs[k].member_2) ==> spec_forbidden_assignments(
                participants,
                pairs,
            ).contains(AssignmentPair { giver: pairs[k].member_1, receiver: pairs[k].member_2 })
                && spec_forbidden_assignments(participants, pairs).contains(
                AssignmentPair { giver: pairs[k].member_2, receiver: pairs[k].member_1 },
            ),
        forall|e: AssignmentPair|
            #[trigger] spec_forbidden_assignments(participants, pairs).contains(e) ==> exists|k: int|
                #[trigger] ruled_out_by(participants, pairs, k, e),
{
    let res = spec_forbidden_assignments(participants, pairs);
    assert forall|k: int|
        0 <= k < pairs.len() && participants.contains(#[trigger] pairs[k].member_1)
            && participants.contains(pairs[k].member_2) implies res.contains(
        AssignmentPair { giver: pairs[k].member_1, receiver: pairs[k].member_2 },
    ) && res.contains(AssignmentPair { giver: pairs[k].member_2, receiver: pairs[k].member_1 }) by {
        lemma_forbidden_assignments_complete(participants, pairs, k);
    }
    assert forall|e: AssignmentPair| #[trigger] res.contains(e) implies exists|k: int|
        #[trigger] ruled_out_by(participants, pairs, k, e) by {
        let i = choose|i: int| 0 <= i < res.len() && res[i] == e;
        lemma_forbidden_assignments_sound(participants, pairs, i);
    }
}

/// The directed pairs that must get no weight: both directions of every
/// forbidden pair whose members both take part. Pairs naming someone who
/// does not take part are ignored.
pub fn forbidden_assignments(
    participants: &HashSet<usize>,
    forbidden_pairs: &[ForbiddenPair],
) -> (res: Vec<AssignmentPair>)
    ensures
        res@ == spec_forbidden_assignments(participants@, forbidden_pairs@),
        forall|k: int|
            0 <= k < forbidden_pairs@.len() && participants@.contains(
                #[trigger] forbidden_pairs@[k].member_1,
            ) && participants@.contains(forbidden_pairs@[k].member_2) ==> res@.contains(
                AssignmentPair {
                    giver: forbidden_pairs@[k].member_1,
                    receiver: forbidden_pairs@[k].member_2,
                },
            ) && res@.contains(
                AssignmentPair {
                    giver: forbidden_pairs@[k].member_2,
                    receiver: forbidden_pairs@[k].member_1,
                },
            ),
        forall|e: AssignmentPair|
            #[trigger] res@.contains(e) ==> exists|k: int|
                #[trigger] ruled_out_by(participants@, forbidden_pairs@, k, e),
{
    let mut res: Vec<AssignmentPair> = Vec::new();
    let mut i: usize = 0;
    while i < forbidden_pairs.len()
        invariant
            i <= forbidden_pairs@.len(),
            res@ == spec_forbidden_assignments(participants@, forbidden_pairs@.take(i as int)),
        decreases forbidden_pairs@.len() - i,
    {
        let fp = forbidden_pairs[i];
        assert(forbidden_pairs@.take(i + 1).drop_last() =~= forbidden_pairs@.take(i as int));
        if !fp.invalid(participants) {
            res.push(AssignmentPair { giver: fp.member_1, receiver: fp.member_2 });
            res.push(AssignmentPair { giver: fp.member_2, receiver: fp.member_1 });
        }
        i += 1;
    }
    assert(forbidden_pairs@.take(forbidden_pairs@.len() as int) =~= forbidden_pairs@);
    proof {
        lemma_forbidden_assignments_exact(participants@, forbidden_pairs@);
    }
    res
}

/// The receivers of `giver` in `history` (most recent round first) that
/// still take part, one per round in which `giver` gave.
pub open spec fn spec_history_receivers(
    giver: usize,
    participants: Set<usize>,
    history: Seq<Assignment>,
) -> Seq<usize>
    decreases history.len(),
{
    if history.len() == 0 {
        seq![]
    } else {
        let rest = spec_history_receivers(giver, participants, history.drop_last());
        match spec_receiver_of(history.last().value@, giver) {
            Some(r) => if participants.contains(r) {
                rest.push(r)
            } else {
                rest
            },
            None => rest,
        }
    }
}

/// Rounds count one by one: the receivers found in two stretches of
/// history are those of the first stretch followed by those of the second,
/// so a round without the giver neither ends the search nor hides earlier
/// rounds.
pub proof fn lemma_history_receivers_concat(
    giver: usize,
    participants: Set<usize>,
    a: Seq<Assignment>,
    b: Seq<Assignment>,
)
    ensures
        spec_history_receivers(giver, participants, a + b) == spec_history_receivers(
            giver,
            participants,
            a,
        ) + spec_history_receivers(giver, participants, b),
    decreases b.len(),
{
    if b.len() == 0 {
        assert(a + b =~= a);
        assert(spec_history_receivers(giver, participants, b) =~= Seq::<usize>::empty());
        assert(spec_history_receivers(giver, participants, a) + Seq::<usize>::empty()
            =~= spec_history_receivers(giver, participants, a));
    } else {
        lemma_history_receivers_concat(giver, participants, a, b.drop_last());
        assert((a + b).drop_last() =~= a + b.drop_last());
        assert((a + b).last() == b.last());
        let x = spec_history_receivers(giver, participants, a);
        let y = spec_history_receivers(giver, participants, b.drop_last());
        match spec_receiver_of(b.last().value@, giver) {
            Some(r) => {
                if participants.contains(r) {
                    assert((x + y).push(r) =~= x + y.push(r));
                }
            },
            None => {},
        }
    }
}

/// One round gives the receiver of `giver` in it, when `giver` took part
/// and that receiver still takes part, and nothing otherwise.
pub proof fn lemma_history_receivers_one_round(
    giver: usize,
    participants: Set<usize>,
    round: Assignment,
)
    ensures
        spec_history_receivers(giver, participants, seq![round]) == match spec_receiver_of(
            round.value@,
            giver,
        ) {
            Some(r) => if participants.contains(r) {
                seq![r]
            } else {
                Seq::<usize>::empty()
            },
            None => Seq::<usize>::empty(),
        },
{
    let h = seq![round];
    assert(h.drop_last() =~= Seq::<Assignment>::empty());
    assert(h.last() == round);
    assert(spec_history_receivers(giver, participants, h.drop_last()) =~= Seq::<usize>::empty());
    match spec_receiver_of(round.value@, giver) {
        Some(r) => {
            assert(Seq::<usize>::empty().push(r) =~= seq![r]);
        },
        None => {},
    }
}

/// The earlier receivers of `giver` that are penalised, in the order of
/// the rounds: the `i`-th of them carries the `i`-th, decaying, penalty.
pub fn history_receivers(
    giver: usize,
    participants: &HashSet<usize>,
    history: &[Assignment],
) -> (res: Vec<usize>)
    ensures
        res@ == spec_history_receivers(giver, participants@, history@),
{
    broadcast use vstd::std_specs::hash::group_hash_axioms;

    let mut res: Vec<usize> = Vec::new();
    let mut i: usize = 0;
    while i < history.len()
        invariant
            i <= history@.len(),
            res@ == spec_history_receivers(giver, participants@, history@.take(i as int)),
        decreases history@.len() - i,
    {
        assert(history@.take(i + 1).drop_last() =~= history@.take(i as int));
        assert(history@.take(i + 1).last() == history@[i as int]);
        match history[i].receiver_of(giver) {
            Some(r) => {
                if participants.contains(&r) {
                    res.push(r);
                }
            },
            None => {},
        }
        i += 1;
    }
    assert(history@.take(history@.len() as int) =~= history@);
    res
}

/// The receiver of the member at `i` in the cycle `cycle`.
pub open spec fn next_in_cycle(cycle: Seq<usize>, i: int) -> usize {
    cycle[(i + 1) % (cycle.len() as int)]
}

/// `fp` forbids the gift from `giver` to `receiver` (either direction).
pub open spec fn forbids(fp: ForbiddenPair, giver: usize, receiver: usize) -> bool {
    (fp.member_1 == giver && fp.member_2 == receiver) || (fp.member_1 == receiver && fp.member_2
        == giver)
}

/// Some gift of the cycle is ruled out by some forbidden pair.
pub open spec fn spec_has_forbidden_edge(cycle: Seq<usize>, pairs: Seq<ForbiddenPair>) -> bool {
    exists|i: int, k: int|
        0 <= i < cycle.len() && 0 <= k < pairs.len() && #[trigger] forbids(
            pairs[k],
            cycle[i],
            next_in_cycle(cycle, i),
        )
}

/// The forbidden-gift test written out: some member and the member after
/// it (the first after the last) are the two members of some pair, in
/// either order.
proof fn lemma_forbidden_edge_written_out(cycle: Seq<usize>, pairs: Seq<ForbiddenPair>)
    ensures
        spec_has_forbidden_edge(cycle, pairs) <==> exists|i: int, k: int|
            0 <= i < cycle.len() && 0 <= k < pairs.len() && ((#[trigger] pairs[k].member_1
                == cycle[i] && pairs[k].member_2 == #[trigger] cycle[(i + 1) % (
            cycle.len() as int)]) || (pairs[k].member_1 == cycle[(i + 1) % (cycle.len() as int)]
                && pairs[k].member_2 == cycle[i])),
{
    if spec_has_forbidden_edge(cycle, pairs) {
        let (i, k) = choose|i: int, k: int|
            0 <= i < cycle.len() && 0 <= k < pairs.len() && #[trigger] forbids(
                pairs[k],
                cycle[i],
                next_in_cycle(cycle, i),
            );
        assert(pairs[k].member_1 == cycle[i] || pairs[k].member_1 == cycle[(i + 1) % (
        cycle.len() as int)]);
        assert(cycle[(i + 1) % (cycle.len() as int)] == next_in_cycle(cycle, i));
    }
    if exists|i: int, k: int|
        0 <= i < cycle.len() && 0 <= k < pairs.len() && ((#[trigger] pairs[k].member_1
            == cycle[i] && pairs[k].member_2 == #[trigger] cycle[(i + 1) % (
        cycle.len() as int)]) || (pairs[k].member_1 == cycle[(i + 1) % (cycle.len() as int)]
            && pairs[k].member_2 == cycle[i])) {
        let (i, k) = choose|i: int, k: int|
            0 <= i < cycle.len() && 0 <= k < pairs.len() && ((#[trigger] pairs[k].member_1
                == cycle[i] && pairs[k].member_2 == #[trigger] cycle[(i + 1) % (
            cycle.len() as int)]) || (pairs[k].member_1 == cycle[(i + 1) % (cycle.len() as int)]
                && pairs[k].member_2 == cycle[i]));
        assert(forbids(pairs[k], cycle[i], next_in_cycle(cycle, i)));
    }
}

/// Whether the cycle `cycle` makes a gift that some forbidden pair rules
/// out, in either direction.
pub fn has_forbidden_edge(cycle: &[usize], forbidden_pairs: &[ForbiddenPair]) -> (res: bool)
    ensures
        res == spec_has_forbidden_edge(cycle@, forbidden_pairs@),
        res <==> exists|i: int, k: int|
            0 <= i < cycle@.len() && 0 <= k < forbidden_pairs@.len() && ((
            #[trigger] forbidden_pairs@[k].member_1 == cycle@[i] && forbidden_pairs@[k].member_2
                == #[trigger] cycle@[(i + 1) % (cycle@.len() as int)]) || (
            forbidden_pairs@[k].member_1 == cycle@[(i + 1) % (cycle@.len() as int)]
                && forbidden_pairs@[k].member_2 == cycle@[i])),
{
    proof {
        lemma_forbidden_edge_written_out(cycle@, forbidden_pairs@);
    }
    let n = cycle.len();
    let mut i: usize = 0;
    while i < n
        invariant
            n == cycle@.len(),
            i <= n,
            forall|a: int, k: int|
                0 <= a < i && 0 <= k < forbidden_pairs@.len() ==> !#[trigger] forbids(
                    forbidden_pairs@[k],
                    cycle@[a],
                    next_in_cycle(cycle@, a),
                ),
        decreases n - i,
    {
        let giver = cycle[i];
        let next = if i + 1 == n {
            0
        } else {
            i + 1
        };
        assert((i as int + 1) % (n as int) == next as int) by (nonlinear_arith)
            requires
                i < n,
                next == (if i + 1 == n {
                    0
                } else {
                    i + 1
                }),
        ;
        let receiver = cycle[next];
        let mut k: usize = 0;
        while k < forbidden_pairs.len()
            invariant
                n == cycle@.len(),
                i < n,
                giver == cycle@[i as int],
                receiver == next_in_cycle(cycle@, i as int),
                k <= forbidden_pairs@.len(),
                forall|b: int| 0 <= b < k ==> !#[trigger] forbids(forbidden_pairs@[b], giver, receiver),
            decreases forbidden_pairs@.len() - k,
        {
            let fp = forbidden_pairs[k];
            if (fp.member_1 == giver && fp.member_2 == receiver) || (fp.member_1 == receiver
                && fp.member_2 == giver) {
                assert(forbids(forbidden_pairs@[k as int], cycle@[i as int], next_in_cycle(cycle@, i as int)));
                return true;
            }
            k += 1;
        }
        i += 1;
    }
    false
}

/// The last safeguard of the assignment processor: a cycle that makes a
/// forbidden gift is never handed out.
pub fn reject_forbidden_cycle(result: Option<Vec<usize>>, forbidden_pairs: &[ForbiddenPair]) -> (res:
    Option<Vec<usize>>)
    ensures
        match result {
            Some(c) => if spec_has_forbidden_edge(c@, forbidden_pairs@) {
                res is None
            } else {
                res == Some(c)
            },
            None => res is None,
        },
        res matches Some(c) ==> !spec_has_forbidden_edge(c@, forbidden_pairs@),
        res matches Some(c) ==> forall|i: int, k: int|
            0 <= i < c@.len() && 0 <= k < forbidden_pairs@.len() ==> !((
            #[trigger] forbidden_pairs@[k].member_1 == c@[i] && forbidden_pairs@[k].member_2
                == #[trigger] c@[(i + 1) % (c@.len() as int)]) || (forbidden_pairs@[k].member_1
                == c@[(i + 1) % (c@.len() as int)] && forbidden_pairs@[k].member_2 == c@[i])),
        result is None ==> res is None,
{
    match result {
        Some(cycle) => {
            if has_forbidden_edge(cycle.as_slice(), forbidden_pairs) {
                None
            } else {
                Some(cycle)
            }
        },
        None => None,
    }
}

} // verus!
