//! Awarding the pots: who wins each pot, what each winner takes, and the odd
//! chips that a split leaves over.

use crate::cards::HandRank;
use crate::chips::{
    ints, lemma_total_bounds_entry, lemma_total_pointwise_add, lemma_total_take_all,
    lemma_total_take_step, lemma_total_zeros, non_negative, pointwise_add, total, zeros,
};
use crate::pots::{count_true, count_true_upto, pot_views, pots_total, Pot, PotView};
use vstd::prelude::*;

verus! {

/// No eligible seat holds a stronger hand than seat `i`.
pub open spec fn unbeaten(eligible: Seq<bool>, ranks: Seq<HandRank>, i: int) -> bool {
    forall|j: int|
        0 <= j < eligible.len() && #[trigger] eligible[j] ==> ranks[j].strength()
            <= ranks[i].strength()
}

/// The winners of a pot: the eligible seats whose hand no eligible seat beats.
pub open spec fn winners(eligible: Seq<bool>, ranks: Seq<HandRank>) -> Seq<bool> {
    Seq::new(eligible.len(), |i: int| eligible[i] && unbeaten(eligible, ranks, i))
}

/// What each winner of the pot takes: the pot divided by the number of
/// winners, rounded down.
pub open spec fn share(pot: PotView, ranks: Seq<HandRank>) -> int {
    pot.amount / (count_true(winners(pot.eligible, ranks)) as int)
}

/// The chips of the pot that the split leaves over.
pub open spec fn odd_chips(pot: PotView, ranks: Seq<HandRank>) -> int {
    pot.amount % (count_true(winners(pot.eligible, ranks)) as int)
}

/// `c` chips at each seat of the mask, none elsewhere.
pub open spec fn spread(mask: Seq<bool>, c: int) -> Seq<int> {
    Seq::new(mask.len(), |i: int| if mask[i] { c } else { 0 })
}

/// What each seat takes from one pot.
pub open spec fn winnings(pot: PotView, ranks: Seq<HandRank>) -> Seq<int> {
    spread(winners(pot.eligible, ranks), share(pot, ranks))
}

/// What each of `n` seats takes from all the pots together.
pub open spec fn payouts(pots: Seq<PotView>, ranks: Seq<HandRank>, n: nat) -> Seq<int>
    decreases pots.len(),
{
    if pots.len() == 0 {
        zeros(n)
    } else {
        pointwise_add(payouts(pots.drop_last(), ranks, n), winnings(pots.last(), ranks))
    }
}

/// The odd chips of all the pots together: chips that leave the table.
pub open spec fn remainder(pots: Seq<PotView>, ranks: Seq<HandRank>) -> int
    decreases pots.len(),
{
    if pots.len() == 0 {
        0
    } else {
        remainder(pots.drop_last(), ranks) + odd_chips(pots.last(), ranks)
    }
}

/// A pot that can be awarded among `n` seats: it speaks of `n` seats, holds no
/// negative amount, and at least one seat may win it.
pub open spec fn awardable(pot: PotView, n: nat) -> bool {
    &&& pot.eligible.len() == n
    &&& pot.amount >= 0
    &&& count_true(pot.eligible) > 0
}

/// Every pot of the list can be awarded among `n` seats.
pub open spec fn all_awardable(pots: Seq<PotView>, n: nat) -> bool {
    forall|k: int| 0 <= k < pots.len() ==> awardable(#[trigger] pots[k], n)
}

/// The greatest strength among the eligible seats below `k`, or -1 when none
/// of them is eligible.
pub open spec fn best_upto(eligible: Seq<bool>, ranks: Seq<HandRank>, k: nat) -> int
    decreases k,
{
    if k == 0 {
        -1
    } else {
        let rest = best_upto(eligible, ranks, (k - 1) as nat);
        if eligible[k - 1] && ranks[k - 1].strength() > rest {
            ranks[k - 1].strength()
        } else {
            rest
        }
    }
}

pub proof fn lemma_best_upto(eligible: Seq<bool>, ranks: Seq<HandRank>, k: nat)
    requires
        k <= eligible.len(),
    ensures
        best_upto(eligible, ranks, k) >= -1,
        forall|j: int|
            0 <= j < k && #[trigger] eligible[j] ==> ranks[j].strength() <= best_upto(
                eligible,
                ranks,
                k,
            ),
        best_upto(eligible, ranks, k) >= 0 ==> exists|i: int|
            0 <= i < k && eligible[i] && ranks[i].strength() == best_upto(eligible, ranks, k),
        best_upto(eligible, ranks, k) == -1 ==> forall|j: int| 0 <= j < k ==> !eligible[j],
    decreases k,
{
    if k > 0 {
        lemma_best_upto(eligible, ranks, (k - 1) as nat);
        let rest = best_upto(eligible, ranks, (k - 1) as nat);
        let b = best_upto(eligible, ranks, k);
        if b >= 0 {
            if b == rest {
                let i = choose|i: int|
                    0 <= i < k - 1 && eligible[i] && ranks[i].strength() == rest;
                assert(0 <= i < k && eligible[i] && ranks[i].strength() == b);
            } else {
                assert(eligible[k - 1] && ranks[k - 1].strength() == b);
            }
        }
    }
}

/// The winners are the eligible seats that hold the greatest strength.
pub proof fn lemma_winners_hold_best(eligible: Seq<bool>, ranks: Seq<HandRank>, i: int)
    requires
        0 <= i < eligible.len(),
    ensures
        winners(eligible, ranks)[i] == (eligible[i] && ranks[i].strength() == best_upto(
            eligible,
            ranks,
            eligible.len(),
        )),
{
    lemma_best_upto(eligible, ranks, eligible.len());
}

pub proof fn lemma_count_true_positive(mask: Seq<bool>, k: nat, i: int)
    requires
        k <= mask.len(),
        0 <= i < k,
        mask[i],
    ensures
        count_true_upto(mask, k) > 0,
    decreases k,
{
    if i < k - 1 {
        lemma_count_true_positive(mask, (k - 1) as nat, i);
    }
}

pub proof fn lemma_count_true_bounded(mask: Seq<bool>, k: nat)
    requires
        k <= mask.len(),
    ensures
        count_true_upto(mask, k) <= k,
    decreases k,
{
    if k > 0 {
        lemma_count_true_bounded(mask, (k - 1) as nat);
    }
}

/// A pot that some seat may win has a winner.
pub proof fn lemma_some_winner(eligible: Seq<bool>, ranks: Seq<HandRank>)
    requires
        count_true(eligible) > 0,
    ensures
        count_true(winners(eligible, ranks)) > 0,
{
    let n = eligible.len();
    lemma_best_upto(eligible, ranks, n);
    if best_upto(eligible, ranks, n) == -1 {
        assert forall|i: int| 0 <= i < n implies !eligible[i] by {}
        lemma_count_true_all_false(eligible, n);
    } else {
        let i = choose|i: int|
            0 <= i < n && eligible[i] && ranks[i].strength() == best_upto(eligible, ranks, n);
        assert(winners(eligible, ranks)[i]);
        lemma_count_true_positive(winners(eligible, ranks), n, i);
    }
}

pub proof fn lemma_count_true_all_false(mask: Seq<bool>, k: nat)
    requires
        k <= mask.len(),
        forall|i: int| 0 <= i < k ==> !mask[i],
    ensures
        count_true_upto(mask, k) == 0,
    decreases k,
{
    if k > 0 {
        lemma_count_true_all_false(mask, (k - 1) as nat);
    }
}

/// `c` chips at each of the seats of a mask are `c` times their number.
pub proof fn lemma_total_spread(mask: Seq<bool>, c: int, k: nat)
    requires
        k <= mask.len(),
    ensures
        total(spread(mask, c).take(k as int)) == c * count_true_upto(mask, k),
    decreases k,
{
    if k == 0 {
        assert(spread(mask, c).take(0) =~= Seq::<int>::empty());
        assert(c * 0 == 0);
    } else {
        lemma_total_spread(mask, c, (k - 1) as nat);
        lemma_total_take_step(spread(mask, c), k - 1);
        let before = count_true_upto(mask, (k - 1) as nat) as int;
        let now = count_true_upto(mask, k) as int;
        if mask[k - 1] {
            assert(c * now == c * before + c) by (nonlinear_arith)
                requires
                    now == before + 1,
            ;
        } else {
            assert(now == before);
        }
    }
}

/// A pot is split without loss: what its winners take and the odd chips make
/// up the pot.
pub proof fn lemma_pot_conserved(pot: PotView, ranks: Seq<HandRank>)
    requires
        pot.amount >= 0,
        count_true(pot.eligible) > 0,
    ensures
        total(winnings(pot, ranks)) + odd_chips(pot, ranks) == pot.amount,
        0 <= odd_chips(pot, ranks) <= pot.amount,
        0 <= share(pot, ranks) <= pot.amount,
{
    let w = winners(pot.eligible, ranks);
    let c = count_true(w) as int;
    lemma_some_winner(pot.eligible, ranks);
    lemma_total_spread(w, share(pot, ranks), w.len());
    lemma_total_take_all(winnings(pot, ranks));
    let a = pot.amount;
    assert(a == (a / c) * c + a % c && 0 <= a % c <= a && 0 <= a / c <= a) by (nonlinear_arith)
        requires
            a >= 0,
            c > 0,
    ;
    assert((a / c) * c == share(pot, ranks) * c);
    assert(share(pot, ranks) * c == share(pot, ranks) * count_true_upto(w, w.len()));
}

/// All pots together are split without loss: what the seats take and the odd
/// chips make up the pots.
pub proof fn lemma_payouts_conserved(pots: Seq<PotView>, ranks: Seq<HandRank>, n: nat)
    requires
        all_awardable(pots, n),
    ensures
        payouts(pots, ranks, n).len() == n,
        total(payouts(pots, ranks, n)) + remainder(pots, ranks) == pots_total(pots),
        0 <= remainder(pots, ranks) <= pots_total(pots),
        forall|i: int| 0 <= i < n ==> 0 <= #[trigger] payouts(pots, ranks, n)[i],
    decreases pots.len(),
{
    if pots.len() == 0 {
        lemma_total_zeros(n);
    } else {
        let before = pots.drop_last();
        let pot = pots.last();
        assert(awardable(pots[pots.len() - 1], n));
        assert forall|k: int| 0 <= k < before.len() implies awardable(#[trigger] before[k], n) by {
            assert(before[k] == pots[k]);
        }
        lemma_payouts_conserved(before, ranks, n);
        lemma_pot_conserved(pot, ranks);
        lemma_total_pointwise_add(payouts(before, ranks, n), winnings(pot, ranks));
    }
}

/// What the seats take from a list of pots is what they take from the first
/// pot and what they take from the others.
pub proof fn lemma_payouts_prepend(first: PotView, rest: Seq<PotView>, ranks: Seq<HandRank>, n: nat)
    requires
        first.eligible.len() == n,
        forall|k: int| 0 <= k < rest.len() ==> (#[trigger] rest[k]).eligible.len() == n,
    ensures
        payouts(seq![first].add(rest), ranks, n) == pointwise_add(
            winnings(first, ranks),
            payouts(rest, ranks, n),
        ),
        payouts(rest, ranks, n).len() == n,
    decreases rest.len(),
{
    let all = seq![first].add(rest);
    if rest.len() == 0 {
        assert(all.drop_last() =~= Seq::<PotView>::empty());
        assert(all.last() == first);
        assert(rest =~= Seq::<PotView>::empty());
        assert(payouts(all.drop_last(), ranks, n) == zeros(n));
        assert(payouts(rest, ranks, n) == zeros(n));
        assert(winnings(first, ranks).len() == n);
        assert(payouts(all, ranks, n) == pointwise_add(zeros(n), winnings(first, ranks)));
        assert(payouts(all, ranks, n) =~= pointwise_add(
            winnings(first, ranks),
            payouts(rest, ranks, n),
        ));
    } else {
        assert(all.drop_last() =~= seq![first].add(rest.drop_last()));
        assert(all.last() == rest.last());
        assert forall|k: int| 0 <= k < rest.drop_last().len() implies (#[trigger] rest.drop_last()[k]).eligible.len()
            == n by {
            assert(rest.drop_last()[k] == rest[k]);
        }
        lemma_payouts_prepend(first, rest.drop_last(), ranks, n);
        assert(rest[rest.len() - 1].eligible.len() == n);
        assert(winnings(first, ranks).len() == n);
        assert(winnings(rest.last(), ranks).len() == n);
        assert(payouts(all, ranks, n) =~= pointwise_add(
            winnings(first, ranks),
            payouts(rest, ranks, n),
        ));
    }
}

/// The chips of the first pots of a list are no more than the chips of all.
pub proof fn lemma_pots_total_prefix(pots: Seq<PotView>, k: int)
    requires
        0 <= k <= pots.len(),
        forall|j: int| 0 <= j < pots.len() ==> (#[trigger] pots[j]).amount >= 0,
    ensures
        0 <= pots_total(pots.take(k)) <= pots_total(pots),
    decreases pots.len() - k,
{
    if k == pots.len() {
        assert(pots.take(k) =~= pots);
        lemma_pots_total_non_negative(pots);
    } else {
        assert(pots.take(k + 1).drop_last() =~= pots.take(k));
        lemma_pots_total_prefix(pots, k + 1);
        lemma_pots_total_non_negative(pots.take(k));
    }
}

pub proof fn lemma_pots_total_non_negative(pots: Seq<PotView>)
    requires
        forall|j: int| 0 <= j < pots.len() ==> (#[trigger] pots[j]).amount >= 0,
    ensures
        pots_total(pots) >= 0,
    decreases pots.len(),
{
    if pots.len() > 0 {
        lemma_pots_total_non_negative(pots.drop_last());
    }
}

/// Turns every entry of a mask round.
pub fn turned(mask: &Vec<bool>) -> (out: Vec<bool>)
    ensures
        out@ == Seq::new(mask@.len(), |i: int| !mask@[i]),
{
    let mut out: Vec<bool> = Vec::new();
    let mut i: usize = 0;
    while i < mask.len()
        invariant
            i <= mask.len(),
            out.len() == i,
            forall|j: int| 0 <= j < i ==> #[trigger] out@[j] == !mask@[j],
        decreases mask.len() - i,
    {
        out.push(!mask[i]);
        i = i + 1;
    }
    proof {
        assert(out@ =~= Seq::new(mask@.len(), |i: int| !mask@[i]));
    }
    out
}

/// Counts the seats of a mask.
pub fn count_set(mask: &Vec<bool>) -> (count: usize)
    ensures
        count == count_true(mask@),
{
    let mut count: usize = 0;
    let mut i: usize = 0;
    while i < mask.len()
        invariant
            i <= mask.len(),
            count == count_true_upto(mask@, i as nat),
            count <= i,
        decreases mask.len() - i,
    {
        if mask[i] {
            count = count + 1;
        }
        i = i + 1;
    }
    count
}

/// Finds the winners of a pot: the eligible seats whose hand no eligible seat
/// beats.
pub fn find_winners(eligible: &Vec<bool>, ranks: &Vec<HandRank>) -> (mask: Vec<bool>)
    requires
        eligible.len() == ranks.len(),
    ensures
        mask@ == winners(eligible@, ranks@),
{
    let n = eligible.len();
    let mut found = false;
    let mut best: u64 = 0;
    let mut i: usize = 0;
    while i < n
        invariant
            i <= n,
            n == eligible.len(),
            n == ranks.len(),
            found == (best_upto(eligible@, ranks@, i as nat) >= 0),
            found ==> best == best_upto(eligible@, ranks@, i as nat),
            !found ==> best_upto(eligible@, ranks@, i as nat) == -1,
        decreases n - i,
    {
        if eligible[i] {
            let key = ranks[i].strength_key();
            if !found || key > best {
                best = key;
                found = true;
            }
        }
        i = i + 1;
    }
    let mut mask: Vec<bool> = Vec::new();
    let mut i: usize = 0;
    while i < n
        invariant
            i <= n,
            n == eligible.len(),
            n == ranks.len(),
            found == (best_upto(eligible@, ranks@, n as nat) >= 0),
            found ==> best == best_upto(eligible@, ranks@, n as nat),
            mask.len() == i,
            mask@ == winners(eligible@, ranks@).take(i as int),
        decreases n - i,
    {
        let wins = eligible[i] && found && ranks[i].strength_key() == best;
        proof {
            lemma_winners_hold_best(eligible@, ranks@, i as int);
            lemma_best_upto(eligible@, ranks@, n as nat);
        }
        mask.push(wins);
        i = i + 1;
        proof {
            assert(mask@ =~= winners(eligible@, ranks@).take(i as int));
        }
    }
    proof {
        assert(mask@ =~= winners(eligible@, ranks@));
    }
    mask
}

/// Awards every pot to its winners. Returns what each seat takes from all the
/// pots together, and the odd chips that the splits leave over.
pub fn award_pots(pots: &Vec<Pot>, ranks: &Vec<HandRank>) -> (out: (Vec<i32>, i32))
    requires
        all_awardable(pot_views(pots@), ranks@.len()),
        pots_total(pot_views(pots@)) <= i32::MAX,
    ensures
        ints(out.0@) == payouts(pot_views(pots@), ranks@, ranks@.len()),
        out.1 == remainder(pot_views(pots@), ranks@),
{
    let n = ranks.len();
    let ghost views = pot_views(pots@);
    let mut gains: Vec<i32> = Vec::new();
    let mut i: usize = 0;
    while i < n
        invariant
            i <= n,
            gains.len() == i,
            ints(gains@) == zeros(n as nat).take(i as int),
        decreases n - i,
    {
        gains.push(0);
        i = i + 1;
        proof {
            assert(ints(gains@) =~= zeros(n as nat).take(i as int));
        }
    }
    proof {
        assert(ints(gains@) =~= zeros(n as nat));
        assert(views.take(0) =~= Seq::<PotView>::empty());
        assert forall|j: int| 0 <= j < views.len() implies (#[trigger] views[j]).amount >= 0 by {
            assert(awardable(views[j], n as nat));
        }
    }
    let mut rest: i32 = 0;
    let mut k: usize = 0;
    while k < pots.len()
        invariant
            k <= pots.len(),
            n == ranks.len(),
            views == pot_views(pots@),
            all_awardable(views, n as nat),
            forall|j: int| 0 <= j < views.len() ==> (#[trigger] views[j]).amount >= 0,
            pots_total(views) <= i32::MAX,
            gains.len() == n,
            ints(gains@) == payouts(views.take(k as int), ranks@, n as nat),
            rest == remainder(views.take(k as int), ranks@),
        decreases pots.len() - k,
    {
        let pot = &pots[k];
        let ghost done = views.take(k as int);
        let ghost next = views.take(k as int + 1);
        let ghost target = payouts(next, ranks@, n as nat);
        proof {
            assert(pot@ == views[k as int]);
            assert(awardable(views[k as int], n as nat));
            assert(next.drop_last() =~= done);
            assert(next.last() == pot@);
            assert forall|j: int| 0 <= j < next.len() implies awardable(#[trigger] next[j], n as nat) by {
                assert(next[j] == views[j]);
            }
            lemma_payouts_conserved(next, ranks@, n as nat);
            lemma_pots_total_prefix(views, k as int + 1);
            lemma_pot_conserved(pot@, ranks@);
            lemma_some_winner(pot@.eligible, ranks@);
            assert(non_negative(target));
            assert forall|j: int| 0 <= j < n implies #[trigger] target[j] <= i32::MAX by {
                lemma_total_bounds_entry(target, j);
            }
        }
        let mask = find_winners(&pot.eligible, ranks);
        let count = count_set(&mask);
        let amount = pot.amount as u64;
        let part = (amount / (count as u64)) as i32;
        let odd = (amount % (count as u64)) as i32;
        proof {
            assert(part == share(pot@, ranks@));
            assert(odd == odd_chips(pot@, ranks@));
        }
        let mut updated: Vec<i32> = Vec::new();
        let mut i: usize = 0;
        while i < n
            invariant
                i <= n,
                n == mask.len(),
                n == gains.len(),
                updated.len() == i,
                target == pointwise_add(ints(gains@), spread(mask@, part as int)),
                forall|j: int| 0 <= j < n ==> 0 <= #[trigger] target[j] <= i32::MAX,
                ints(updated@) == target.take(i as int),
            decreases n - i,
        {
            let ghost updated_before = updated@;
            let add: i32 = if mask[i] { part } else { 0 };
            proof {
                assert(target[i as int] == ints(gains@)[i as int] + spread(mask@, part as int)[i as int]);
            }
            updated.push(gains[i] + add);
            i = i + 1;
            proof {
                assert forall|j: int| 0 <= j < i implies ints(updated@)[j] == target[j] by {
                    if j < i - 1 {
                        assert(ints(updated_before)[j] == target.take(i - 1)[j]);
                    }
                }
                assert(ints(updated@) =~= target.take(i as int));
            }
        }
        proof {
            assert(ints(updated@) =~= target);
        }
        gains = updated;
        rest = rest + odd;
        k = k + 1;
    }
    proof {
        assert(views.take(pots.len() as int) =~= views);
    }
    (gains, rest)
}

} // verus!
