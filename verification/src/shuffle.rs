//! Shuffling: from the last position down to the first, each position is
//! exchanged with one that is picked at random among it and those before it.
use vstd::prelude::*;
use vstd::seq_lib::*;
use bulletformat::ChessBoard;
use crate::rng::{seeded_rng, Rng};
#[allow(unused_imports)]
use crate::rng::{rand64_range, RngState};

verus! {

broadcast use vstd::multiset::group_multiset_axioms;

/// `s` with the items at `i` and `j` exchanged.
pub open spec fn swapped<T>(s: Seq<T>, i: int, j: int) -> Seq<T> {
    s.update(i, s[j]).update(j, s[i])
}

/// There is one pick for each of `n` positions, and none points past its
/// position.
pub open spec fn valid_picks(picks: Seq<usize>, n: nat) -> bool {
    &&& picks.len() == n
    &&& forall|i: int| 0 <= i < n ==> #[trigger] picks[i] <= i
}

/// `s` after each of its first `n` positions, the last of them first, has been
/// exchanged with the position that is picked for it.
pub open spec fn arranged<T>(s: Seq<T>, picks: Seq<usize>, n: nat) -> Seq<T>
    decreases n,
{
    if n == 0 {
        s
    } else {
        arranged(swapped(s, picks[n - 1] as int, n - 1), picks, (n - 1) as nat)
    }
}

/// The picks that a generator gives for `n` positions: it is asked for the last
/// position first.
pub open spec fn picks_from(rng: RngState, n: nat) -> Seq<usize>
    decreases n,
{
    if n == 0 {
        Seq::empty()
    } else {
        picks_from(rng.after(0, n as u64), (n - 1) as nat).push(rng.drawn(0, n as u64) as usize)
    }
}

/// The generator after it has given the picks for `n` positions.
pub open spec fn rng_after_picks(rng: RngState, n: nat) -> RngState
    decreases n,
{
    if n == 0 {
        rng
    } else {
        rng_after_picks(rng.after(0, n as u64), (n - 1) as nat)
    }
}

/// `s` shuffled with the picks of a generator.
pub open spec fn shuffled<T>(s: Seq<T>, rng: RngState) -> Seq<T> {
    arranged(s, picks_from(rng, s.len()), s.len())
}

proof fn lemma_swapped_multiset<T>(s: Seq<T>, i: int, j: int)
    requires
        0 <= i < s.len(),
        0 <= j < s.len(),
    ensures
        swapped(s, i, j).to_multiset() =~= s.to_multiset(),
{
    to_multiset_update(s, i, s[j]);
    to_multiset_update(s.update(i, s[j]), j, s[i]);
    to_multiset_contains(s, s[i]);
    to_multiset_contains(s, s[j]);
}

proof fn lemma_arranged_frame<T>(s: Seq<T>, picks: Seq<usize>, n: nat)
    requires
        n <= s.len(),
        n <= picks.len(),
        forall|i: int| 0 <= i < n ==> #[trigger] picks[i] <= i,
    ensures
        arranged(s, picks, n).len() == s.len(),
        forall|i: int| n <= i < s.len() ==> arranged(s, picks, n)[i] == s[i],
        arranged(s, picks, n).to_multiset() == s.to_multiset(),
    decreases n,
{
    if n > 0 {
        lemma_swapped_multiset(s, picks[n - 1] as int, n - 1);
        let next = swapped(s, picks[n - 1] as int, n - 1);
        lemma_arranged_frame(next, picks, (n - 1) as nat);
        assert(arranged(s, picks, n) == arranged(next, picks, (n - 1) as nat));
        assert forall|i: int| n <= i < s.len() implies arranged(s, picks, n)[i] == s[i] by {
            assert(next[i] == s[i]);
        }
    }
}

proof fn lemma_arranged_prefix<T>(s: Seq<T>, picks: Seq<usize>, others: Seq<usize>, n: nat)
    requires
        n <= picks.len(),
        n <= others.len(),
        forall|i: int| 0 <= i < n ==> picks[i] == others[i],
    ensures
        arranged(s, picks, n) == arranged(s, others, n),
    decreases n,
{
    if n > 0 {
        lemma_arranged_prefix(
            swapped(s, picks[n - 1] as int, n - 1),
            picks,
            others,
            (n - 1) as nat,
        );
    }
}

/// Shuffling loses no item and adds none: whatever the picks, the outcome is a
/// rearrangement of what was there.
pub proof fn law_shuffle_rearranges<T>(s: Seq<T>, picks: Seq<usize>)
    requires
        valid_picks(picks, s.len()),
    ensures
        arranged(s, picks, s.len()).to_multiset() == s.to_multiset(),
        arranged(s, picks, s.len()).len() == s.len(),
{
    lemma_arranged_frame(s, picks, s.len());
}

proof fn lemma_reach<T>(s: Seq<T>, target: Seq<T>, n: nat) -> (picks: Seq<usize>)
    requires
        n <= s.len() <= usize::MAX,
        s.len() == target.len(),
        forall|i: int| n <= i < s.len() ==> s[i] == target[i],
        s.take(n as int).to_multiset() == target.take(n as int).to_multiset(),
    ensures
        valid_picks(picks, n),
        arranged(s, picks, n) == target,
    decreases n,
{
    if n == 0 {
        assert(s =~= target);
        Seq::empty()
    } else {
        let front = s.take(n as int);
        let goal = target.take(n as int);
        let last = goal[n - 1];
        to_multiset_contains(goal, last);
        to_multiset_contains(front, last);
        assert(goal.contains(last));
        let p = choose|p: int| 0 <= p < front.len() && front[p] == last;
        let next = swapped(s, p, n - 1);
        assert(next.take(n as int) =~= swapped(front, p, n - 1));
        lemma_swapped_multiset(front, p, n - 1);
        assert(next.take(n - 1).push(last) =~= next.take(n as int));
        assert(target.take(n - 1).push(last) =~= goal);
        to_multiset_build(next.take(n - 1), last);
        to_multiset_build(target.take(n - 1), last);
        assert(next.take(n - 1).to_multiset() =~= next.take(n as int).to_multiset().remove(last));
        assert(target.take(n - 1).to_multiset() =~= goal.to_multiset().remove(last));
        let rest = lemma_reach(next, target, (n - 1) as nat);
        let picks = rest.push(p as usize);
        lemma_arranged_prefix(next, picks, rest, (n - 1) as nat);
        picks
    }
}

/// Every rearrangement of the items can come out of a shuffle.
pub proof fn law_shuffle_reaches_every_order<T>(s: Seq<T>, target: Seq<T>)
    requires
        s.len() <= usize::MAX,
        target.to_multiset() == s.to_multiset(),
    ensures
        exists|picks: Seq<usize>|
            valid_picks(picks, s.len()) && #[trigger] arranged(s, picks, s.len()) == target,
{
    to_multiset_len(s);
    to_multiset_len(target);
    assert(s.take(s.len() as int) =~= s);
    assert(target.take(s.len() as int) =~= target);
    let picks = lemma_reach(s, target, s.len());
    assert(arranged(s, picks, s.len()) == target);
}

proof fn lemma_picks_unique<T>(s: Seq<T>, picks: Seq<usize>, others: Seq<usize>, n: nat)
    requires
        n <= s.len(),
        n <= picks.len(),
        n <= others.len(),
        s.no_duplicates(),
        forall|i: int| 0 <= i < n ==> #[trigger] picks[i] <= i,
        forall|i: int| 0 <= i < n ==> #[trigger] others[i] <= i,
        arranged(s, picks, n) == arranged(s, others, n),
    ensures
        forall|i: int| 0 <= i < n ==> picks[i] == others[i],
    decreases n,
{
    if n > 0 {
        let next = swapped(s, picks[n - 1] as int, n - 1);
        let next_other = swapped(s, others[n - 1] as int, n - 1);
        lemma_arranged_frame(next, picks, (n - 1) as nat);
        lemma_arranged_frame(next_other, others, (n - 1) as nat);
        assert(arranged(s, picks, n) == arranged(next, picks, (n - 1) as nat));
        assert(arranged(s, others, n) == arranged(next_other, others, (n - 1) as nat));
        assert(arranged(s, picks, n)[n - 1] == next[n - 1]);
        assert(arranged(s, others, n)[n - 1] == next_other[n - 1]);
        assert(next[n - 1] == s[picks[n - 1] as int]);
        assert(next_other[n - 1] == s[others[n - 1] as int]);
        assert(picks[n - 1] == others[n - 1]);
        lemma_picks_unique(next, picks, others, (n - 1) as nat);
    }
}

/// Different picks lead to different orders, as long as no two items are the
/// same. So each order comes from exactly one choice of picks, and picks that
/// are equally likely make all orders equally likely.
pub proof fn law_shuffle_order_fixes_picks<T>(s: Seq<T>, picks: Seq<usize>, others: Seq<usize>)
    requires
        s.no_duplicates(),
        valid_picks(picks, s.len()),
        valid_picks(others, s.len()),
        arranged(s, picks, s.len()) == arranged(s, others, s.len()),
    ensures
        picks == others,
{
    lemma_picks_unique(s, picks, others, s.len());
    assert(picks =~= others);
}

/// Exchanges the positions at `i` and `j`.
fn exchange(data: &mut [ChessBoard], i: usize, j: usize)
    requires
        i < old(data)@.len(),
        j < old(data)@.len(),
    ensures
        final(data)@ == swapped(old(data)@, i as int, j as int),
{
    let moved = data[i];
    let other = data[j];
    data[i] = other;
    data[j] = moved;
    assert(data@ =~= swapped(old(data)@, i as int, j as int));
}

/// Rearranges `data` with picks that are given: from the last position down,
/// exchanges each position with the one that is picked for it.
pub fn shuffle_by_picks(data: &mut [ChessBoard], picks: &[usize])
    requires
        valid_picks(picks@, old(data)@.len()),
    ensures
        final(data)@ == arranged(old(data)@, picks@, old(data)@.len()),
{
    let ghost start = data@;
    let n: usize = data.len();
    let mut i: usize = n;
    while i > 0
        invariant
            i <= n,
            data@.len() == n,
            start.len() == n,
            valid_picks(picks@, n as nat),
            arranged(data@, picks@, i as nat) == arranged(start, picks@, n as nat),
        decreases i,
    {
        i = i - 1;
        exchange(data, picks[i], i);
    }
}

/// Shuffles `data` with picks that are drawn from `rng` one by one.
pub fn shuffle_with(data: &mut [ChessBoard], rng: &mut Rng)
    ensures
        final(data)@ == shuffled(old(data)@, old(rng)@),
        final(rng)@ == rng_after_picks(old(rng)@, old(data)@.len()),
        valid_picks(picks_from(old(rng)@, old(data)@.len()), old(data)@.len()),
        final(data)@.to_multiset() == old(data)@.to_multiset(),
{
    let ghost start = data@;
    let ghost start_rng = rng@;
    let n: usize = data.len();
    let ghost picks = picks_from(rng@, n as nat);
    proof {
        lemma_picks_from_len(rng@, n as nat);
        assert(picks.take(n as int) =~= picks);
    }
    let mut i: usize = n;
    while i > 0
        invariant
            i <= n,
            data@.len() == n,
            start.len() == n,
            arranged(data@, picks_from(rng@, i as nat), i as nat) == shuffled(start, start_rng),
            rng_after_picks(rng@, i as nat) == rng_after_picks(start_rng, n as nat),
            picks.len() == n,
            picks.take(i as int) == picks_from(rng@, i as nat),
            forall|k: int| i <= k < n ==> #[trigger] picks[k] <= k,
            data@.to_multiset() == start.to_multiset(),
        decreases i,
    {
        let ghost from = rng@;
        let ghost before = data@;
        let drawn: u64 = rng.rand_range(0, i as u64);
        i = i - 1;
        exchange(data, drawn as usize, i);
        proof {
            lemma_swapped_multiset(before, drawn as int, i as int);
            lemma_picks_from_len(rng@, i as nat);
            assert(picks[i as int] == picks.take(i + 1)[i as int]);
            assert(picks.take(i as int) =~= picks.take(i + 1).drop_last());
            assert(picks_from(from, (i + 1) as nat).drop_last() =~= picks_from(rng@, i as nat));
            lemma_arranged_prefix(
                data@,
                picks_from(from, (i + 1) as nat),
                picks_from(rng@, i as nat),
                i as nat,
            );
        }
    }
}

proof fn lemma_picks_from_len(rng: RngState, n: nat)
    ensures
        picks_from(rng, n).len() == n,
    decreases n,
{
    if n > 0 {
        lemma_picks_from_len(rng.after(0, n as u64), (n - 1) as nat);
    }
}

/// Shuffles `data` with a generator that is seeded by the clock.
pub fn shuffle(data: &mut [ChessBoard])
    ensures
        exists|seed: u128|
            final(data)@ == shuffled(old(data)@, #[trigger] RngState::seeded(seed)) && valid_picks(
                picks_from(RngState::seeded(seed), old(data)@.len()),
                old(data)@.len(),
            ),
        final(data)@.to_multiset() == old(data)@.to_multiset(),
{
    let mut rng = seeded_rng();
    shuffle_with(data, &mut rng);
}

/// `after` is `before` with the items at `i` and `j` exchanged, place by place.
pub open spec fn is_exchange<T>(before: Seq<T>, after: Seq<T>, i: int, j: int) -> bool {
    &&& after.len() == before.len()
    &&& after[i] == before[j]
    &&& after[j] == before[i]
    &&& forall|k: int| 0 <= k < before.len() && k != i && k != j ==> after[k] == before[k]
}

/// What a rearrangement with given picks is, step by step: let `orders` begin
/// with `s`, and let each order after that be the one before with one more place,
/// from the last down, exchanged with the place picked for it. Then the last order
/// is the rearrangement. So every place takes part, and in that order.
pub proof fn law_arranged_place_by_place<T>(
    s: Seq<T>,
    picks: Seq<usize>,
    orders: Seq<Seq<T>>,
)
    requires
        valid_picks(picks, s.len()),
        orders.len() == s.len() + 1,
        orders[0] == s,
        forall|k: int|
            0 <= k < s.len() ==> is_exchange(
                #[trigger] orders[k],
                orders[k + 1],
                s.len() - 1 - k,
                picks[s.len() - 1 - k] as int,
            ),
    ensures
        arranged(s, picks, s.len()) == orders[s.len() as int],
{
    lemma_arranged_orders(s, picks, orders, s.len());
}

proof fn lemma_arranged_orders<T>(
    s: Seq<T>,
    picks: Seq<usize>,
    orders: Seq<Seq<T>>,
    n: nat,
)
    requires
        n <= s.len(),
        picks.len() >= n,
        forall|i: int| 0 <= i < n ==> #[trigger] picks[i] <= i,
        orders.len() == n + 1,
        orders[0] == s,
        forall|k: int|
            0 <= k < n ==> is_exchange(
                #[trigger] orders[k],
                orders[k + 1],
                n - 1 - k,
                picks[n - 1 - k] as int,
            ),
    ensures
        arranged(s, picks, n) == orders[n as int],
    decreases n,
{
    if n > 0 {
        let rest = orders.drop_first();
        let next = swapped(s, picks[n - 1] as int, n - 1);
        assert(is_exchange(orders[0], orders[1], n - 1, picks[n - 1] as int));
        assert(rest[0] == orders[1]);
        assert(rest[0] =~= next);
        assert forall|k: int| 0 <= k < n - 1 implies is_exchange(
            #[trigger] rest[k],
            rest[k + 1],
            n - 1 - 1 - k,
            picks[n - 1 - 1 - k] as int,
        ) by {
            assert(rest[k] == orders[k + 1]);
            assert(rest[k + 1] == orders[k + 2]);
        }
        lemma_arranged_orders(next, picks, rest, (n - 1) as nat);
        assert(rest[n - 1] == orders[n as int]);
    }
}

/// The generators that follow one another as a number is drawn for each of `n`
/// places, the last place first: `states[k]` is the pair of state and increment
/// with which the place `n - 1 - k` is drawn for.
pub open spec fn draws_for_places(states: Seq<(u128, u128)>, n: nat) -> bool {
    &&& states.len() == n + 1
    &&& forall|k: int|
        0 <= k < n ==> states[k + 1] == (
            rand64_range((#[trigger] states[k]).0, states[k].1, 0, (n - k) as u64).0,
            states[k].1,
        )
}

/// Every pick is a draw. Follow the outside generator from `states[0]` as it draws
/// for the last place, then for the one before, and so on down to the first, each
/// time from the numbers up to and including that place. Then the pick for each
/// place is exactly what was drawn for it, and the generator ends where the draws
/// leave it. No place goes without a draw.
pub proof fn law_every_pick_is_a_draw(rng: RngState, n: nat, states: Seq<(u128, u128)>)
    requires
        states[0] == (rng.state, rng.inc),
        draws_for_places(states, n),
    ensures
        picks_from(rng, n).len() == n,
        forall|i: int|
            0 <= i < n ==> #[trigger] picks_from(rng, n)[i] == rand64_range(
                states[n - 1 - i].0,
                states[n - 1 - i].1,
                0,
                (i + 1) as u64,
            ).1 as usize,
        (rng_after_picks(rng, n).state, rng_after_picks(rng, n).inc) == states[n as int],
    decreases n,
{
    if n > 0 {
        let rest = states.drop_first();
        let next = rng.after(0, n as u64);
        let fewer = (n - 1) as nat;
        assert(rest[0] == states[1]);
        assert(states[1] == (
            rand64_range(states[0].0, states[0].1, 0, n as u64).0,
            states[0].1,
        ));
        assert forall|k: int| 0 <= k < fewer implies rest[k + 1] == (
            rand64_range((#[trigger] rest[k]).0, rest[k].1, 0, (fewer - k) as u64).0,
            rest[k].1,
        ) by {
            assert(rest[k] == states[k + 1]);
            assert(rest[k + 1] == states[k + 2]);
            assert(n - (k + 1) == fewer - k);
        }
        law_every_pick_is_a_draw(next, fewer, rest);
        assert forall|i: int| 0 <= i < n implies #[trigger] picks_from(rng, n)[i] == rand64_range(
            states[n - 1 - i].0,
            states[n - 1 - i].1,
            0,
            (i + 1) as u64,
        ).1 as usize by {
            if i < fewer {
                assert(picks_from(rng, n)[i] == picks_from(next, fewer)[i]);
                assert(rest[fewer - 1 - i] == states[n - 1 - i]);
            }
        }
        assert(rest[fewer as int] == states[n as int]);
    }
}

/// What a shuffle is, from the draws of the outside generator alone: if `states`
/// are the generators that follow one another as a number is drawn for each place,
/// the last place first, and `orders` are the orders that follow one another as
/// each place is exchanged with the one drawn for it, then the last of `orders` is
/// the shuffled sequence.
pub proof fn law_shuffle_is_fisher_yates<T>(
    s: Seq<T>,
    rng: RngState,
    states: Seq<(u128, u128)>,
    orders: Seq<Seq<T>>,
)
    requires
        states[0] == (rng.state, rng.inc),
        draws_for_places(states, s.len()),
        forall|k: int|
            0 <= k < s.len() ==> (rand64_range(
                (#[trigger] states[k]).0,
                states[k].1,
                0,
                (s.len() - k) as u64,
            ).1 as usize) <= s.len() - 1 - k,
        orders.len() == s.len() + 1,
        orders[0] == s,
        forall|k: int|
            0 <= k < s.len() ==> is_exchange(
                #[trigger] orders[k],
                orders[k + 1],
                s.len() - 1 - k,
                (rand64_range(states[k].0, states[k].1, 0, (s.len() - k) as u64).1 as usize) as int,
            ),
    ensures
        shuffled(s, rng) == orders[s.len() as int],
        (rng_after_picks(rng, s.len()).state, rng_after_picks(rng, s.len()).inc)
            == states[s.len() as int],
{
    let n = s.len();
    let picks = picks_from(rng, n);
    law_every_pick_is_a_draw(rng, n, states);
    assert forall|i: int| 0 <= i < n implies #[trigger] picks[i] <= i by {
        let k = n - 1 - i;
        assert((rand64_range(states[k].0, states[k].1, 0, (n - k) as u64).1 as usize) <= n - 1 - k);
        assert((n - k) as u64 == (i + 1) as u64);
    }
    assert forall|k: int| 0 <= k < n implies is_exchange(
        #[trigger] orders[k],
        orders[k + 1],
        n - 1 - k,
        picks[n - 1 - k] as int,
    ) by {
        let i = n - 1 - k;
        assert(picks[i] == rand64_range(states[k].0, states[k].1, 0, (i + 1) as u64).1 as usize);
        assert((n - k) as u64 == (i + 1) as u64);
        assert(states[k] == states[k]);
    }
    law_arranged_place_by_place(s, picks, orders);
}

} // verus!
