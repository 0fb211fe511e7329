use std::collections::HashSet;
use vstd::prelude::*;

verus! {

/// A directed giver -> receiver pair.
#[derive(PartialEq, Eq, Structural, Hash, Clone, Copy, Debug)]
pub struct AssignmentPair {
    pub giver: usize,
    pub receiver: usize,
}

/// One round of an exchange, written as a cycle: `value[i]` gives to
/// `value[i + 1]`, and the last member gives to the first.
#[derive(Debug)]
pub struct Assignment {
    pub value: Vec<usize>,
}

/// The index of the first occurrence of `x` in `s`, if any.
pub open spec fn first_index_of(s: Seq<usize>, x: usize) -> Option<int>
    decreases s.len(),
{
    if s.len() == 0 {
        None
    } else if s[0] == x {
        Some(0)
    } else {
        match first_index_of(s.drop_first(), x) {
            Some(i) => Some(i + 1),
            None => None,
        }
    }
}

/// Whom `giver` gives to in the cycle `s`: the member that follows the
/// first occurrence of `giver`, wrapping around at the end.
pub open spec fn spec_receiver_of(s: Seq<usize>, giver: usize) -> Option<usize> {
    match first_index_of(s, giver) {
        Some(i) => Some(s[(i + 1) % (s.len() as int)]),
        None => None,
    }
}

pub proof fn lemma_first_index_of(s: Seq<usize>, x: usize)
    ensures
        match first_index_of(s, x) {
            Some(i) => 0 <= i < s.len() && s[i] == x && forall|j: int| 0 <= j < i ==> s[j] != x,
            None => forall|j: int| 0 <= j < s.len() ==> s[j] != x,
        },
    decreases s.len(),
{
    if s.len() > 0 && s[0] != x {
        lemma_first_index_of(s.drop_first(), x);
        assert forall|j: int| 1 <= j < s.len() implies s[j] == s.drop_first()[j - 1] by {}
    }
}

impl Assignment {
    /// The receiver of `giver` in this round, or `None` when `giver` did not
    /// take part.
    pub fn receiver_of(&self, giver: usize) -> (res: Option<usize>)
        ensures
            res == spec_receiver_of(self.value@, giver),
            match res {
                Some(r) => exists|i: int|
                    0 <= i < self.value@.len() && #[trigger] self.value@[i] == giver && (forall|j: int|
                        0 <= j < i ==> self.value@[j] != giver) && r == self.value@[(i + 1) % (
                    self.value@.len() as int)],
                None => forall|j: int| 0 <= j < self.value@.len() ==> self.value@[j] != giver,
            },
    {
        let n = self.value.len();
        let mut i: usize = 0;
        proof {
            lemma_first_index_of(self.value@, giver);
        }
        while i < n
            invariant
                n == self.value@.len(),
                i <= n,
                forall|j: int| 0 <= j < i ==> self.value@[j] != giver,
                match first_index_of(self.value@, giver) {
                    Some(k) => 0 <= k < n && self.value@[k] == giver && forall|j: int|
                        0 <= j < k ==> self.value@[j] != giver,
                    None => forall|j: int| 0 <= j < n ==> self.value@[j] != giver,
                },
            decreases n - i,
        {
            if self.value[i] == giver {
                let next = if i + 1 == n { 0 } else { i + 1 };
                assert(first_index_of(self.value@, giver) == Some(i as int));
                assert((i as int + 1) % (n as int) == next as int) by (nonlinear_arith)
                    requires i < n, next == (if i + 1 == n { 0 } else { i + 1 }),;
                return Some(self.value[next]);
            }
            i += 1;
        }
        None
    }
}

impl Default for Assignment {
    fn default() -> (res: Self)
        ensures
            res.value@ == Seq::<usize>::empty(),
    {
        Assignment { value: Vec::new() }
    }
}

/// Two people who must not be paired, in either direction.
#[derive(PartialEq, Eq, Structural, Clone, Copy, Debug)]
pub struct ForbiddenPair {
    pub member_1: usize,
    pub member_2: usize,
}

impl ForbiddenPair {
    /// The pair of `first` and `second`, smaller member first.
    pub fn ordered(first: usize, second: usize) -> (res: ForbiddenPair)
        ensures
            res.member_1 <= res.member_2,
            (res.member_1 == first && res.member_2 == second) || (res.member_1 == second
                && res.member_2 == first),
    {
        if first < second {
            ForbiddenPair { member_1: first, member_2: second }
        } else {
            ForbiddenPair { member_1: second, member_2: first }
        }
    }

    /// Whether the pair applies to the given participants.
    pub open spec fn spec_valid(self, participants: Set<usize>) -> bool {
        participants.contains(self.member_1) && participants.contains(self.member_2)
    }

    /// Both members take part.
    pub fn valid(&self, participants: &HashSet<usize>) -> (res: bool)
        ensures
            res == self.spec_valid(participants@),
    {
        broadcast use vstd::std_specs::hash::group_hash_axioms;
        participants.contains(&self.member_1) && participants.contains(&self.member_2)
    }

    /// At least one member does not take part.
    pub fn invalid(&self, participants: &HashSet<usize>) -> (res: bool)
        ensures
            res == !self.spec_valid(participants@),
    {
        !self.valid(participants)
    }
}

} // verus!
