//! Rearrangements of a gift cycle: the local moves of the sampler (the
//! positions they act on are drawn by the caller), the Fisher-Yates
//! shuffle driven by given draws, and the enumeration of every ordering of
//! a small group.
use std::collections::HashSet;
use vstd::prelude::*;
use vstd::std_specs::iter::IteratorSpec;

verus! {

broadcast use vstd::seq_lib::group_to_multiset_ensures, vstd::multiset::group_multiset_axioms;

/// `s` with the members at `i` and `j` exchanged.
pub open spec fn swap_at(s: Seq<usize>, i: int, j: int) -> Seq<usize> {
    s.update(i, s[j]).update(j, s[i])
}

/// Exchanging two members keeps the same people.
pub proof fn lemma_swap_keeps_members(s: Seq<usize>, i: int, j: int)
    requires
        0 <= i < s.len(),
        0 <= j < s.len(),
    ensures
        swap_at(s, i, j).to_multiset() == s.to_multiset(),
        swap_at(s, i, j).len() == s.len(),
{
    broadcast use vstd::seq_lib::to_multiset_update;

    let t = s.update(i, s[j]);
    assert(t.to_multiset() == s.to_multiset().insert(s[j]).remove(s[i]));
    assert(t.update(j, s[i]).to_multiset() == t.to_multiset().insert(s[i]).remove(t[j]));
    if i == j {
        assert(t =~= s);
        assert(swap_at(s, i, j) =~= s);
    } else {
        assert(t[j] == s[j]);
    }
    assert(swap_at(s, i, j).to_multiset() =~= s.to_multiset());
}

/// The 2-opt move: the stretch between positions `i` and `j` (inclusive)
/// reversed, when the cycle has at least four members and the stretch at
/// least three.
pub open spec fn spec_two_opt(s: Seq<usize>, i: int, j: int) -> Seq<usize> {
    let start = if i < j { i } else { j };
    let end = if i < j { j } else { i };
    if s.len() < 4 || end - start < 2 {
        s
    } else {
        s.subrange(0, start) + s.subrange(start, end + 1).reverse() + s.subrange(
            end + 1,
            s.len() as int,
        )
    }
}

/// The 2-opt move reverses exactly the stretch between the two positions:
/// on a cycle of at least four members, when the positions are at least two
/// apart, the member at `k` inside the stretch is the one that stood at the
/// mirror position `lo + hi - k`, and every member outside it stays put;
/// otherwise nothing changes. The length never changes.
pub proof fn lemma_two_opt_reverses(s: Seq<usize>, i: int, j: int)
    requires
        0 <= i < s.len(),
        0 <= j < s.len(),
    ensures
        ({
            let lo = if i < j { i } else { j };
            let hi = if i < j { j } else { i };
            let r = spec_two_opt(s, i, j);
            &&& r.len() == s.len()
            &&& (s.len() < 4 || hi - lo < 2) ==> r == s
            &&& (s.len() >= 4 && hi - lo >= 2) ==> forall|k: int|
                0 <= k < s.len() ==> #[trigger] r[k] == if lo <= k <= hi {
                    s[lo + hi - k]
                } else {
                    s[k]
                }
        }),
{
    let lo = if i < j { i } else { j };
    let hi = if i < j { j } else { i };
    if s.len() >= 4 && hi - lo >= 2 {
        let mid = s.subrange(lo, hi + 1);
        let r = spec_two_opt(s, i, j);
        assert(r == s.subrange(0, lo) + mid.reverse() + s.subrange(hi + 1, s.len() as int));
        assert forall|k: int| 0 <= k < s.len() implies #[trigger] r[k] == if lo <= k <= hi {
            s[lo + hi - k]
        } else {
            s[k]
        } by {
            if lo <= k <= hi {
                assert(mid.reverse()[k - lo] == mid[mid.len() - 1 - (k - lo)]);
            }
        }
    }
}

/// Reverses the stretch of `cycle` between positions `i` and `j`
/// (a 2-opt move); cycles of fewer than four members, and stretches of fewer
/// than three, are left alone.
pub fn two_opt_move(cycle: &mut Vec<usize>, i: usize, j: usize)
    requires
        old(cycle)@.len() >= 4 ==> i < old(cycle)@.len() && j < old(cycle)@.len(),
    ensures
        final(cycle)@ == spec_two_opt(old(cycle)@, i as int, j as int),
        final(cycle)@.to_multiset() == old(cycle)@.to_multiset(),
        final(cycle)@.len() == old(cycle)@.len(),
        ({
            let lo = if i < j { i as int } else { j as int };
            let hi = if i < j { j as int } else { i as int };
            &&& (old(cycle)@.len() < 4 || hi - lo < 2) ==> final(cycle)@ == old(cycle)@
            &&& (old(cycle)@.len() >= 4 && hi - lo >= 2) ==> forall|k: int|
                0 <= k < old(cycle)@.len() ==> #[trigger] final(cycle)@[k] == if lo <= k <= hi {
                    old(cycle)@[lo + hi - k]
                } else {
                    old(cycle)@[k]
                }
        }),
{
    proof {
        if old(cycle)@.len() >= 4 {
            lemma_two_opt_reverses(old(cycle)@, i as int, j as int);
        }
    }
    let n = cycle.len();
    if n < 4 {
        return;
    }
    let (start, end) = if i < j {
        (i, j)
    } else {
        (j, i)
    };
    if end - start < 2 {
        return;
    }
    let ghost s = cycle@;
    let mut lo = start;
    let mut hi = end;
    while lo < hi
        invariant
            start <= lo <= hi + 1,
            hi <= end < n == s.len() == cycle@.len(),
            lo + hi == start + end,
            forall|k: int|
                0 <= k < n ==> #[trigger] cycle@[k] == if (start <= k < lo || hi < k <= end) {
                    s[start + end - k]
                } else {
                    s[k]
                },
            cycle@.to_multiset() == s.to_multiset(),
        decreases end + 1 - lo,
    {
        let a = cycle[lo];
        let b = cycle[hi];
        proof {
            lemma_swap_keeps_members(cycle@, lo as int, hi as int);
        }
        cycle.set(lo, b);
        cycle.set(hi, a);
        lo += 1;
        hi -= 1;
    }
    let ghost expected = spec_two_opt(s, i as int, j as int);
    let ghost mid = s.subrange(start as int, end + 1);
    assert(expected == s.subrange(0, start as int) + mid.reverse() + s.subrange(
        end + 1,
        n as int,
    ));
    assert forall|k: int| 0 <= k < n implies cycle@[k] == expected[k] by {
        if k < start {
            assert(expected[k] == s[k]);
        } else if k <= end {
            assert(mid.reverse()[k - start] == mid[mid.len() - 1 - (k - start)]);
            assert(expected[k] == mid.reverse()[k - start]);
            assert(cycle@[k] == s[start + end - k]);
        } else {
            assert(expected[k] == s[k]);
        }
    }
    assert(cycle@ =~= expected);
}

/// Swapping exchanges exactly the two members: the member at `i` is the one
/// that stood at `j`, the member at `j` the one that stood at `i`, and all
/// others stay put.
pub proof fn lemma_swap_exchanges(s: Seq<usize>, i: int, j: int)
    requires
        0 <= i < s.len(),
        0 <= j < s.len(),
    ensures
        swap_at(s, i, j).len() == s.len(),
        swap_at(s, i, j)[i] == s[j],
        swap_at(s, i, j)[j] == s[i],
        forall|k: int| 0 <= k < s.len() && k != i && k != j ==> #[trigger] swap_at(s, i, j)[k] == s[k],
{
}

/// Exchanges the members at `i` and `j`; cycles of fewer than two members
/// are left alone.
pub fn swap_move(cycle: &mut Vec<usize>, i: usize, j: usize)
    requires
        old(cycle)@.len() >= 2 ==> i < old(cycle)@.len() && j < old(cycle)@.len(),
    ensures
        final(cycle)@ == if old(cycle)@.len() < 2 {
            old(cycle)@
        } else {
            swap_at(old(cycle)@, i as int, j as int)
        },
        final(cycle)@.to_multiset() == old(cycle)@.to_multiset(),
        final(cycle)@.len() == old(cycle)@.len(),
        old(cycle)@.len() >= 2 ==> final(cycle)@[i as int] == old(cycle)@[j as int],
        old(cycle)@.len() >= 2 ==> final(cycle)@[j as int] == old(cycle)@[i as int],
        old(cycle)@.len() >= 2 ==> forall|k: int|
            0 <= k < old(cycle)@.len() && k != i && k != j ==> #[trigger] final(cycle)@[k]
                == old(cycle)@[k],
{
    proof {
        if old(cycle)@.len() >= 2 {
            lemma_swap_exchanges(old(cycle)@, i as int, j as int);
        }
    }
    let n = cycle.len();
    if n < 2 {
        return;
    }
    proof {
        lemma_swap_keeps_members(cycle@, i as int, j as int);
    }
    if i != j {
        let a = cycle[i];
        let b = cycle[j];
        cycle.set(i, b);
        cycle.set(j, a);
    } else {
        assert(swap_at(cycle@, i as int, j as int) =~= cycle@);
    }
}

/// The insertion move: the member at `from` taken out and put back at
/// `to`, when the cycle has at least three members.
pub open spec fn spec_insertion(s: Seq<usize>, from: int, to: int) -> Seq<usize> {
    if s.len() < 3 || from == to {
        s
    } else {
        s.remove(from).insert(to, s[from])
    }
}

/// The insertion move puts the member from `from` at `to` and keeps the
/// others in their order: on a cycle of at least three members with
/// `from != to`, the member at `to` is the one that stood at `from`, and
/// taking it out again gives the cycle without that member; otherwise
/// nothing changes. The length never changes.
pub proof fn lemma_insertion_moves_one(s: Seq<usize>, from: int, to: int)
    requires
        0 <= from < s.len(),
        0 <= to < s.len(),
    ensures
        spec_insertion(s, from, to).len() == s.len(),
        (s.len() < 3 || from == to) ==> spec_insertion(s, from, to) == s,
        (s.len() >= 3 && from != to) ==> spec_insertion(s, from, to)[to] == s[from],
        (s.len() >= 3 && from != to) ==> spec_insertion(s, from, to).remove(to) == s.remove(from),
{
    if s.len() >= 3 && from != to {
        let r = spec_insertion(s, from, to);
        assert(r.remove(to) =~= s.remove(from));
    }
}

/// Moves the member at `from` to position `to`; cycles of fewer than three
/// members are left alone.
pub fn insertion_move(cycle: &mut Vec<usize>, from: usize, to: usize)
    requires
        old(cycle)@.len() >= 3 ==> from < old(cycle)@.len() && to < old(cycle)@.len(),
    ensures
        final(cycle)@ == spec_insertion(old(cycle)@, from as int, to as int),
        final(cycle)@.to_multiset() == old(cycle)@.to_multiset(),
        final(cycle)@.len() == old(cycle)@.len(),
        (old(cycle)@.len() < 3 || from == to) ==> final(cycle)@ == old(cycle)@,
        (old(cycle)@.len() >= 3 && from != to) ==> final(cycle)@[to as int] == old(
            cycle,
        )@[from as int],
        (old(cycle)@.len() >= 3 && from != to) ==> final(cycle)@.remove(to as int) == old(
            cycle,
        )@.remove(from as int),
{
    proof {
        if old(cycle)@.len() >= 3 {
            lemma_insertion_moves_one(old(cycle)@, from as int, to as int);
        }
    }
    broadcast use vstd::seq_lib::to_multiset_remove, vstd::seq_lib::to_multiset_insert;

    let n = cycle.len();
    if n < 3 {
        return;
    }
    if from != to {
        let ghost s = cycle@;
        let element = cycle.remove(from);
        assert(cycle@ =~= s.remove(from as int));
        cycle.insert(to, element);
        assert(cycle@ =~= s.remove(from as int).insert(to as int, s[from as int]));
    }
}

/// The Fisher-Yates shuffle from position `i` down to 1: position `k` is
/// exchanged with position `draws[k]`.
pub open spec fn spec_shuffle(s: Seq<usize>, draws: Seq<usize>, i: int) -> Seq<usize>
    decreases i,
{
    if i <= 0 {
        s
    } else {
        spec_shuffle(swap_at(s, i, draws[i] as int), draws, i - 1)
    }
}

/// The shuffle from position `i` down to 1 keeps the same members, leaves
/// every member above `i` in place, and puts at `i` the member that stood
/// at the position drawn for `i`.
pub proof fn lemma_shuffle_positions(s: Seq<usize>, draws: Seq<usize>, i: int)
    requires
        0 <= i < s.len(),
        draws.len() == s.len(),
        forall|k: int| 1 <= k <= i ==> #[trigger] draws[k] <= k,
    ensures
        spec_shuffle(s, draws, i).len() == s.len(),
        spec_shuffle(s, draws, i).to_multiset() == s.to_multiset(),
        forall|k: int| i < k < s.len() ==> #[trigger] spec_shuffle(s, draws, i)[k] == s[k],
        i >= 1 ==> spec_shuffle(s, draws, i)[i] == s[draws[i] as int],
    decreases i,
{
    if i > 0 {
        let t = swap_at(s, i, draws[i] as int);
        lemma_swap_keeps_members(s, i, draws[i] as int);
        lemma_shuffle_positions(t, draws, i - 1);
        assert(spec_shuffle(s, draws, i) == spec_shuffle(t, draws, i - 1));
        assert forall|k: int| i < k < s.len() implies #[trigger] spec_shuffle(s, draws, i)[k]
            == s[k] by {
            assert(spec_shuffle(t, draws, i - 1)[k] == t[k]);
        }
        assert(spec_shuffle(t, draws, i - 1)[i] == t[i]);
    }
}

/// Shuffles `cycle` in place: for each position `k` from the last down to
/// 1, the member at `k` is exchanged with the member at `draws[k]`, which
/// is at most `k`.
pub fn shuffle_cycle(cycle: &mut Vec<usize>, draws: &Vec<usize>)
    requires
        draws@.len() == old(cycle)@.len(),
        forall|k: int| 1 <= k < draws@.len() ==> #[trigger] draws@[k] <= k,
    ensures
        final(cycle)@ == spec_shuffle(old(cycle)@, draws@, old(cycle)@.len() - 1),
        final(cycle)@.to_multiset() == old(cycle)@.to_multiset(),
        final(cycle)@.len() == old(cycle)@.len(),
        old(cycle)@.len() >= 2 ==> final(cycle)@[old(cycle)@.len() - 1] == old(
            cycle,
        )@[draws@[old(cycle)@.len() - 1] as int],
{
    proof {
        if old(cycle)@.len() >= 1 {
            lemma_shuffle_positions(old(cycle)@, draws@, old(cycle)@.len() - 1);
        }
    }
    let n = cycle.len();
    if n == 0 {
        return;
    }
    let ghost s = cycle@;
    let mut i = n - 1;
    while i > 0
        invariant
            i < n == cycle@.len() == draws@.len(),
            forall|k: int| 1 <= k < draws@.len() ==> #[trigger] draws@[k] <= k,
            spec_shuffle(s, draws@, n - 1) == spec_shuffle(cycle@, draws@, i as int),
            cycle@.to_multiset() == s.to_multiset(),
        decreases i,
    {
        let j = draws[i];
        assert(draws@[i as int] <= i);
        proof {
            lemma_swap_keeps_members(cycle@, i as int, j as int);
        }
        let a = cycle[i];
        let b = cycle[j];
        cycle.set(i, b);
        cycle.set(j, a);
        i -= 1;
    }
}

/// Every ordering of `s`: for each member of `s` in turn, that member first
/// (brought to the front by exchanging it with the first member), followed
/// by every ordering of the rest.
pub open spec fn orderings(s: Seq<usize>) -> Seq<Seq<usize>>
    decreases s.len(), s.len() + 1,
{
    if s.len() == 0 {
        seq![s]
    } else {
        orderings_upto(s, s.len())
    }
}

/// The orderings of `s` led by each of its first `k` members, in turn.
pub open spec fn orderings_upto(s: Seq<usize>, k: nat) -> Seq<Seq<usize>>
    decreases s.len(), k,
{
    if k == 0 || s.len() == 0 || k > s.len() {
        seq![]
    } else {
        let i = k - 1;
        orderings_upto(s, (k - 1) as nat) + orderings(swap_at(s, 0, i).drop_first()).map_values(
            |p: Seq<usize>| seq![s[i]] + p,
        )
    }
}

/// `prefix` put before each of `ps`.
pub open spec fn with_prefix(prefix: Seq<usize>, ps: Seq<Seq<usize>>) -> Seq<Seq<usize>> {
    ps.map_values(|p: Seq<usize>| prefix + p)
}

/// The contents of a list of vectors.
pub open spec fn vecs_view(v: Seq<Vec<usize>>) -> Seq<Seq<usize>> {
    v.map_values(|x: Vec<usize>| x@)
}

proof fn lemma_with_prefix_step(prefix: Seq<usize>, x: usize, ps: Seq<Seq<usize>>)
    ensures
        with_prefix(prefix.push(x), ps) == with_prefix(
            prefix,
            ps.map_values(|p: Seq<usize>| seq![x] + p),
        ),
{
    assert forall|k: int| 0 <= k < ps.len() implies #[trigger] with_prefix(prefix.push(x), ps)[k]
        == with_prefix(prefix, ps.map_values(|p: Seq<usize>| seq![x] + p))[k] by {
        assert(prefix.push(x) + ps[k] =~= prefix + (seq![x] + ps[k]));
    }
    assert(with_prefix(prefix.push(x), ps) =~= with_prefix(
        prefix,
        ps.map_values(|p: Seq<usize>| seq![x] + p),
    ));
}

proof fn lemma_with_prefix_concat(prefix: Seq<usize>, a: Seq<Seq<usize>>, b: Seq<Seq<usize>>)
    ensures
        with_prefix(prefix, a + b) == with_prefix(prefix, a) + with_prefix(prefix, b),
{
    assert(with_prefix(prefix, a + b) =~= with_prefix(prefix, a) + with_prefix(prefix, b));
}

/// Appends to `results` every ordering of `items[start..]`, each behind
/// `items[..start]`, in the order of `orderings`; `items` is left as it was.
pub fn permute(items: &mut Vec<usize>, start: usize, results: &mut Vec<Vec<usize>>)
    requires
        start <= old(items)@.len(),
    ensures
        final(items)@ == old(items)@,
        vecs_view(final(results)@) == vecs_view(old(results)@) + with_prefix(
            old(items)@.take(start as int),
            orderings(old(items)@.skip(start as int)),
        ),
    decreases old(items)@.len() - start,
{
    let ghost s = items@;
    let ghost prefix = s.take(start as int);
    let ghost suffix = s.skip(start as int);
    let ghost before = vecs_view(results@);
    let n = items.len();
    if start == n {
        let copy = items.clone();
        assert(copy@ =~= items@);
        results.push(copy);
        assert(suffix =~= Seq::<usize>::empty());
        assert(prefix + suffix =~= s);
        assert(vecs_view(results@) =~= before.push(s));
        assert(with_prefix(prefix, orderings(suffix)) =~= seq![s]);
        return;
    }
    let mut i = start;
    assert(with_prefix(prefix, orderings_upto(suffix, 0)) =~= Seq::<Seq<usize>>::empty());
    assert(vecs_view(results@) =~= before + Seq::<Seq<usize>>::empty());
    while i < n
        invariant
            start < n == s.len(),
            s == old(items)@,
            start <= i <= n,
            items@ == s,
            prefix == s.take(start as int),
            suffix == s.skip(start as int),
            vecs_view(results@) == before + with_prefix(
                prefix,
                orderings_upto(suffix, (i - start) as nat),
            ),
        decreases n - i,
    {
        let a = items[start];
        let b = items[i];
        items.set(start, b);
        items.set(i, a);
        let ghost k = i - start;
        let ghost swapped = items@;
        assert(swapped == swap_at(s, start as int, i as int));
        assert(swapped.take(start + 1) =~= prefix.push(suffix[k]));
        assert(swapped.skip(start + 1) =~= swap_at(suffix, 0, k).drop_first());
        let ghost mid = vecs_view(results@);
        permute(items, start + 1, results);
        proof {
            lemma_with_prefix_step(prefix, suffix[k], orderings(swap_at(suffix, 0, k).drop_first()));
            lemma_with_prefix_concat(
                prefix,
                orderings_upto(suffix, k as nat),
                orderings(swap_at(suffix, 0, k).drop_first()).map_values(
                    |p: Seq<usize>| seq![suffix[k]] + p,
                ),
            );
            assert(orderings_upto(suffix, (k + 1) as nat) == orderings_upto(suffix, k as nat)
                + orderings(swap_at(suffix, 0, k).drop_first()).map_values(
                |p: Seq<usize>| seq![suffix[k]] + p,
            ));
        }
        let c = items[start];
        let d = items[i];
        items.set(start, d);
        items.set(i, c);
        assert(items@ =~= s);
        i += 1;
    }
    assert(orderings(suffix) == orderings_upto(suffix, suffix.len()));
}

/// `n!`.
pub open spec fn factorial(n: nat) -> nat
    decreases n,
{
    if n == 0 {
        1
    } else {
        n * factorial((n - 1) as nat)
    }
}

proof fn lemma_lead_split(s: Seq<usize>, i: int)
    requires
        0 <= i < s.len(),
    ensures
        swap_at(s, 0, i) == seq![s[i]] + swap_at(s, 0, i).drop_first(),
        swap_at(s, 0, i).drop_first().to_multiset() == s.to_multiset().remove(s[i]),
        swap_at(s, 0, i).drop_first().len() == s.len() - 1,
{
    let t = swap_at(s, 0, i);
    lemma_swap_keeps_members(s, 0, i);
    assert(t =~= seq![s[i]] + t.drop_first());
    vstd::seq_lib::lemma_multiset_commutative(seq![s[i]], t.drop_first());
    assert(seq![s[i]].to_multiset() =~= vstd::multiset::Multiset::<usize>::empty().insert(s[i]));
    assert(t.drop_first().to_multiset() =~= s.to_multiset().remove(s[i]));
}

/// Every ordering keeps the same members, and there are `n!` of them.
pub proof fn lemma_orderings_are_permutations(s: Seq<usize>)
    ensures
        orderings(s).len() == factorial(s.len()),
        forall|k: int|
            0 <= k < orderings(s).len() ==> (#[trigger] orderings(s)[k]).to_multiset()
                == s.to_multiset(),
    decreases s.len(), s.len() + 1,
{
    if s.len() == 0 {
    } else {
        lemma_orderings_upto_are_permutations(s, s.len());
        assert(s.len() * factorial((s.len() - 1) as nat) == factorial(s.len()));
    }
}

proof fn lemma_orderings_upto_are_permutations(s: Seq<usize>, k: nat)
    requires
        0 < s.len(),
        k <= s.len(),
    ensures
        orderings_upto(s, k).len() == k * factorial((s.len() - 1) as nat),
        forall|m: int|
            0 <= m < orderings_upto(s, k).len() ==> (#[trigger] orderings_upto(s, k)[m]).to_multiset()
                == s.to_multiset(),
    decreases s.len(), k,
{
    if k == 0 {
    } else {
        let i = k - 1;
        let t = swap_at(s, 0, i).drop_first();
        lemma_orderings_upto_are_permutations(s, (k - 1) as nat);
        lemma_orderings_are_permutations(t);
        lemma_lead_split(s, i);
        let block = orderings(t).map_values(|p: Seq<usize>| seq![s[i]] + p);
        let earlier = orderings_upto(s, (k - 1) as nat);
        assert(orderings_upto(s, k) == earlier + block);
        let f = factorial((s.len() - 1) as nat);
        assert(k * f == (k - 1) * f + f) by (nonlinear_arith);
        assert forall|m: int| 0 <= m < orderings_upto(s, k).len() implies (
        #[trigger] orderings_upto(s, k)[m]).to_multiset() == s.to_multiset() by {
            if m >= earlier.len() {
                let p = orderings(t)[m - earlier.len()];
                assert(orderings_upto(s, k)[m] == seq![s[i]] + p);
                vstd::seq_lib::lemma_multiset_commutative(seq![s[i]], p);
                assert(seq![s[i]].to_multiset() =~= vstd::multiset::Multiset::<usize>::empty().insert(s[i]));
                assert(s.to_multiset().count(s[i]) > 0) by {
                    assert(s.contains(s[i]));
                }
                assert((seq![s[i]] + p).to_multiset() =~= s.to_multiset());
            } else {
                assert(orderings_upto(s, k)[m] == earlier[m]);
            }
        }
    }
}

/// Every arrangement of the members of `s` is among its orderings.
pub proof fn lemma_orderings_complete(s: Seq<usize>, q: Seq<usize>)
    requires
        q.to_multiset() == s.to_multiset(),
    ensures
        orderings(s).contains(q),
    decreases s.len(), s.len() + 1,
{
    vstd::seq_lib::to_multiset_len(q);
    vstd::seq_lib::to_multiset_len(s);
    if s.len() == 0 {
        assert(q.len() == 0);
        assert(q =~= s);
        assert(orderings(s)[0] == q);
    } else {
        assert(q.len() == s.len());
        assert(q.to_multiset().count(q[0]) > 0) by {
            assert(q.contains(q[0]));
        }
        assert(s.contains(q[0]));
        let i = choose|i: int| 0 <= i < s.len() && s[i] == q[0];
        lemma_orderings_upto_complete(s, s.len(), i, q);
    }
}

proof fn lemma_orderings_upto_complete(s: Seq<usize>, k: nat, i: int, q: Seq<usize>)
    requires
        0 <= i < k <= s.len(),
        s[i] == q[0],
        q.len() > 0,
        q.to_multiset() == s.to_multiset(),
    ensures
        orderings_upto(s, k).contains(q),
    decreases s.len(), k,
{
    let earlier = orderings_upto(s, (k - 1) as nat);
    let j = k - 1;
    let t = swap_at(s, 0, j).drop_first();
    let block = orderings(t).map_values(|p: Seq<usize>| seq![s[j]] + p);
    assert(orderings_upto(s, k) == earlier + block);
    if i < j {
        lemma_orderings_upto_complete(s, (k - 1) as nat, i, q);
        let m = choose|m: int| 0 <= m < earlier.len() && earlier[m] == q;
        assert((earlier + block)[m] == q);
    } else {
        lemma_lead_split(s, j);
        let rest = q.drop_first();
        assert(q =~= seq![q[0]] + rest);
        vstd::seq_lib::lemma_multiset_commutative(seq![q[0]], rest);
        assert(seq![q[0]].to_multiset() =~= vstd::multiset::Multiset::<usize>::empty().insert(q[0]));
        assert(rest.to_multiset() =~= q.to_multiset().remove(q[0]));
        lemma_orderings_complete(t, rest);
        let m = choose|m: int| 0 <= m < orderings(t).len() && orderings(t)[m] == rest;
        assert(block[m] == q);
        assert((earlier + block)[earlier.len() + m] == q);
    }
}

/// Strictly increasing.
pub open spec fn increasing(s: Seq<usize>) -> bool {
    forall|i: int, j: int| 0 <= i < j < s.len() ==> s[i] < s[j]
}

/// The participants, smallest first.
pub fn sorted_members(participants: &HashSet<usize>) -> (res: Vec<usize>)
    ensures
        increasing(res@),
        res@.to_set() == participants@,
        res@.len() == participants@.len(),
{
    broadcast use vstd::std_specs::hash::group_hash_axioms;
    broadcast use vstd::seq_lib::group_seq_properties;

    let mut res: Vec<usize> = Vec::new();
    let ghost keys = vstd::std_specs::hash::spec_hash_keys_iter(participants).remaining().unref();
    assert(res@.to_set() =~= keys.take(0).to_set());
    for x in it: participants.iter()
        invariant
            keys == vstd::std_specs::hash::spec_hash_keys_iter(participants).remaining().unref(),
            it.seq().unref() == keys,
            keys.no_duplicates(),
            keys.len() == participants@.len(),
            keys.to_set() == participants@,
            increasing(res@),
            res@.len() == it.index(),
            res@.to_set() == keys.take(it.index()).to_set(),
    {
        let v = *x;
        let ghost idx = it.index();
        assert(v == keys[idx]);
        assert(!res@.to_set().contains(v)) by {
            if res@.to_set().contains(v) {
                assert(keys.take(idx).to_set().contains(v));
                let j = choose|j: int| 0 <= j < idx && keys.take(idx)[j] == v;
                assert(keys[j] == keys[idx]);
            }
        }
        let mut p: usize = 0;
        while p < res.len() && res[p] < v
            invariant
                p <= res@.len(),
                forall|j: int| 0 <= j < p ==> res@[j] < v,
            decreases res@.len() - p,
        {
            p += 1;
        }
        let ghost old_res = res@;
        assert(p < old_res.len() ==> old_res[p as int] > v) by {
            if p < old_res.len() {
                assert(old_res.contains(old_res[p as int]));
            }
        }
        res.insert(p, v);
        assert(res@ == old_res.insert(p as int, v));
        assert(increasing(res@)) by {
            assert forall|a: int, b: int| 0 <= a < b < res@.len() implies res@[a] < res@[b] by {
                if b < p {
                } else if a < p && b == p {
                } else if a < p && b > p {
                    assert(res@[b] == old_res[b - 1]);
                } else if a == p {
                    assert(res@[b] == old_res[b - 1]);
                    assert(old_res[p as int] > v);
                    if b - 1 > p {
                        assert(old_res[p as int] < old_res[b - 1]);
                    }
                } else {
                    assert(res@[a] == old_res[a - 1]);
                    assert(res@[b] == old_res[b - 1]);
                }
            }
        }
        assert(keys.take(idx + 1) =~= keys.take(idx) + seq![v]);
        proof {
            Seq::lemma_to_set_insert_commutes(keys.take(idx), v);
        }
        assert(res@.to_set() =~= old_res.to_set().insert(v)) by {
            assert forall|y: usize| res@.to_set().contains(y) implies old_res.to_set().insert(
                v,
            ).contains(y) by {
                let j = choose|j: int| 0 <= j < res@.len() && res@[j] == y;
                if j < p {
                    assert(old_res[j] == y);
                } else if j > p {
                    assert(old_res[j - 1] == y);
                }
            }
            assert forall|y: usize| old_res.to_set().insert(v).contains(y) implies res@.to_set().contains(
                y,
            ) by {
                if y == v {
                    assert(res@[p as int] == v);
                } else {
                    let j = choose|j: int| 0 <= j < old_res.len() && old_res[j] == y;
                    if j < p {
                        assert(res@[j] == y);
                    } else {
                        assert(res@[j + 1] == y);
                    }
                }
            }
        }
    }
    assert(keys.take(keys.len() as int) =~= keys);
    res
}

/// The first ordering is the sequence itself.
pub proof fn lemma_first_ordering(s: Seq<usize>)
    ensures
        orderings(s).len() > 0,
        orderings(s)[0] == s,
    decreases s.len(), s.len() + 1,
{
    if s.len() > 0 {
        lemma_first_ordering_upto(s, s.len());
    }
}

proof fn lemma_first_ordering_upto(s: Seq<usize>, k: nat)
    requires
        0 < k <= s.len(),
    ensures
        orderings_upto(s, k).len() > 0,
        orderings_upto(s, k)[0] == s,
    decreases s.len(), k,
{
    if k == 1 {
        let t = swap_at(s, 0, 0).drop_first();
        lemma_first_ordering(t);
        assert(swap_at(s, 0, 0) =~= s);
        assert(orderings_upto(s, 0) =~= Seq::<Seq<usize>>::empty());
        assert(seq![s[0]] + t =~= s);
    } else {
        lemma_first_ordering_upto(s, (k - 1) as nat);
    }
}

/// Every ordering of a small group, as cycles.
pub open spec fn spec_all_cycles(members: Seq<usize>) -> Seq<Seq<usize>> {
    if members.len() > 8 {
        seq![members]
    } else {
        orderings(members)
    }
}

/// Two sequences without repeats that hold the same members are
/// arrangements of each other.
proof fn lemma_same_members(s: Seq<usize>, q: Seq<usize>)
    requires
        s.no_duplicates(),
        q.no_duplicates(),
        s.to_set() == q.to_set(),
    ensures
        q.to_multiset() == s.to_multiset(),
{
    s.lemma_multiset_has_no_duplicates();
    q.lemma_multiset_has_no_duplicates();
    assert forall|x: usize| q.to_multiset().count(x) == s.to_multiset().count(x) by {
        if q.contains(x) {
            assert(q.to_set().contains(x));
            assert(s.contains(x));
        } else if s.contains(x) {
            assert(s.to_set().contains(x));
            assert(q.contains(x));
        }
    }
    assert(q.to_multiset() =~= s.to_multiset());
}

/// Arrangements of each other hold the same members and are as long.
proof fn lemma_arrangement_members(s: Seq<usize>, q: Seq<usize>)
    requires
        q.to_multiset() == s.to_multiset(),
    ensures
        q.to_set() == s.to_set(),
        q.len() == s.len(),
{
    vstd::seq_lib::to_multiset_len(q);
    vstd::seq_lib::to_multiset_len(s);
    assert forall|x: usize| q.to_set().contains(x) == s.to_set().contains(x) by {
        assert(q.contains(x) == (q.to_multiset().count(x) > 0));
        assert(s.contains(x) == (s.to_multiset().count(x) > 0));
    }
    assert(q.to_set() =~= s.to_set());
}

/// A group of at most eight is enumerated in full: there are `n!` cycles,
/// every arrangement of the group is among them, and each of them is an
/// arrangement of the group.
pub proof fn lemma_small_groups_enumerated(members: Seq<usize>)
    requires
        members.len() <= 8,
    ensures
        spec_all_cycles(members).len() == factorial(members.len()),
        forall|q: Seq<usize>|
            q.to_multiset() == members.to_multiset() ==> #[trigger] spec_all_cycles(
                members,
            ).contains(q),
        forall|k: int|
            0 <= k < spec_all_cycles(members).len() ==> (#[trigger] spec_all_cycles(
                members,
            )[k]).to_multiset() == members.to_multiset(),
{
    lemma_orderings_are_permutations(members);
    assert forall|q: Seq<usize>| q.to_multiset() == members.to_multiset() implies #[trigger] spec_all_cycles(
        members,
    ).contains(q) by {
        lemma_orderings_complete(members, q);
    }
}

/// What the full enumeration of the increasing order of a small group holds,
/// in terms of the group.
proof fn lemma_enumeration_facts(members: Seq<usize>, group: Set<usize>)
    requires
        members.len() <= 8,
        increasing(members),
        members.to_set() == group,
        members.len() == group.len(),
    ensures
        forall|k: int|
            0 <= k < orderings(members).len() ==> (#[trigger] orderings(members)[k]).to_set()
                == group && orderings(members)[k].len() == group.len(),
        forall|q: Seq<usize>|
            q.len() == group.len() && q.to_set() == group ==> #[trigger] orderings(
                members,
            ).contains(q),
        orderings(members).len() == factorial(members.len()),
{
    lemma_small_groups_enumerated(members);
    assert forall|k: int| 0 <= k < orderings(members).len() implies (#[trigger] orderings(
        members,
    )[k]).to_set() == group && orderings(members)[k].len() == group.len() by {
        lemma_arrangement_members(members, orderings(members)[k]);
    }
    assert forall|q: Seq<usize>| q.len() == group.len() && q.to_set() == group implies #[trigger] orderings(
        members,
    ).contains(q) by {
        q.lemma_no_dup_set_cardinality();
        lemma_same_members(members, q);
        lemma_orderings_complete(members, q);
    }
}

/// Lists the cycles of a group: every ordering of the participants, the
/// first being the participants in increasing order. A group of more than
/// eight is not enumerated: only its increasing order is given.
pub fn enumerate_all_cycles(participants: &HashSet<usize>) -> (res: Vec<Vec<usize>>)
    ensures
        res@.len() > 0,
        increasing(res@[0]@),
        res@[0]@.to_set() == participants@,
        res@[0]@.len() == participants@.len(),
        vecs_view(res@) == spec_all_cycles(res@[0]@),
        forall|k: int|
            0 <= k < res@.len() ==> (#[trigger] res@[k])@.to_set() == participants@ && res@[k]@.len()
                == participants@.len(),
        participants@.len() <= 8 ==> res@.len() == factorial(participants@.len()),
        participants@.len() <= 8 ==> forall|q: Seq<usize>|
            q.len() == participants@.len() && q.to_set() == participants@
                ==> #[trigger] vecs_view(res@).contains(q),
        participants@.len() > 8 ==> res@.len() == 1,
{
    let mut items = sorted_members(participants);
    let mut results: Vec<Vec<usize>> = Vec::new();
    if items.len() > 8 {
        results.push(items);
        assert(vecs_view(results@) =~= seq![results@[0]@]);
        return results;
    }
    proof {
        lemma_enumeration_facts(items@, participants@);
    }
    let ghost s = items@;
    permute(&mut items, 0, &mut results);
    proof {
        assert(s.take(0) =~= Seq::<usize>::empty());
        assert(s.skip(0) =~= s);
        assert(with_prefix(Seq::empty(), orderings(s)) =~= orderings(s)) by {
            assert forall|k: int| 0 <= k < orderings(s).len() implies Seq::<usize>::empty()
                + #[trigger] orderings(s)[k] =~= orderings(s)[k] by {}
        }
        assert(vecs_view(Seq::<Vec<usize>>::empty()) =~= Seq::<Seq<usize>>::empty());
        assert(vecs_view(results@) =~= orderings(s));
        lemma_first_ordering(s);
        assert(results@[0]@ == vecs_view(results@)[0]);
        assert forall|k: int| 0 <= k < results@.len() implies (#[trigger] results@[k])@.to_set()
            == participants@ && results@[k]@.len() == participants@.len() by {
            assert(results@[k]@ == vecs_view(results@)[k]);
        }
    }
    results
}

} // verus!
