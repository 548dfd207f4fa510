//! Why settling a hand neither makes nor loses chips, beyond the odd chips of
//! split pots, and what it leaves of the table.

use crate::cards::{rankable, HandRank};
use crate::chips::{
    lemma_total_non_negative, lemma_total_pointwise_add, lemma_total_pointwise_le,
    lemma_total_pointwise_sub, non_negative, pointwise_le, pointwise_sub, total,
};
use crate::pots::{
    count_true, count_true_upto, layer, lemma_lowest_live_upto, lemma_peel_shrinks,
    lemma_side_pots_bounded, live, live_mask, lowest_live, peel, side_pots, taken,
};
use crate::showdown::{
    all_awardable, awardable, lemma_count_true_positive, lemma_payouts_conserved, payouts,
};
use crate::table::{holes_flat, keep, negate, Table};
use crate::pots::{pots_total, PotView};
use vstd::prelude::*;

verus! {

/// Every side pot can be awarded: it speaks of every seat, holds no negative
/// amount, and is open to at least one seat.
pub proof fn lemma_side_pots_awardable(rem: Seq<int>, folded: Seq<bool>)
    requires
        non_negative(rem),
    ensures
        all_awardable(side_pots(rem, folded), rem.len()),
    decreases count_true(live_mask(rem, folded)),
{
    let h = lowest_live(rem, folded);
    if h > 0 {
        lemma_peel_shrinks(rem, folded);
        let rest = peel(rem, h);
        assert(non_negative(rest));
        lemma_side_pots_awardable(rest, folded);
        let first = layer(rem, folded, h);
        lemma_lowest_live_upto(rem, folded, rem.len());
        let i = choose|i: int| 0 <= i < rem.len() && live(rem, folded, i) && rem[i] == h;
        assert(live_mask(rem, folded)[i]);
        lemma_count_true_positive(live_mask(rem, folded), rem.len(), i);
        assert(non_negative(taken(rem, h)));
        lemma_total_non_negative(taken(rem, h));
        assert(awardable(first, rem.len()));
        let all = seq![first].add(side_pots(rest, folded));
        assert forall|k: int| 0 <= k < all.len() implies awardable(#[trigger] all[k], rem.len()) by {
            if k > 0 {
                assert(all[k] == side_pots(rest, folded)[k - 1]);
            }
        }
    }
}

/// The pots of a table in good order can be awarded, and hold no more than
/// was wagered; where one seat alone has not folded, they hold all of it.
pub proof fn lemma_pots_awardable(t: Table)
    requires
        t.in_hand(),
    ensures
        all_awardable(t.pots(), t.seats() as nat),
        0 <= pots_total(t.pots()) <= total(t.bets),
        0 <= t.chips_lost(),
        t.lone_contender() ==> t.chips_lost() == 0,
        !t.lone_contender() ==> t.chips_lost() == crate::pots::unclaimed(t.bets, t.folded),
{
    lemma_hand_chips(t);
    if t.lone_contender() {
        let pot = PotView { amount: total(t.bets), eligible: t.contenders() };
        let pots = t.pots();
        assert(pots.len() == 1);
        assert(pots[0] == pot);
        assert(pots.drop_last() =~= Seq::<PotView>::empty());
        assert(pots_total(pots.drop_last()) == 0);
        assert(pots.last() == pot);
        assert(pots_total(pots) == pot.amount);
        assert(awardable(pot, t.seats() as nat));
    } else {
        lemma_side_pots_awardable(t.bets, t.folded);
        lemma_side_pots_bounded(t.bets, t.folded);
    }
}

/// The chips on a table in good order, entry by entry: no stack and no bet is
/// negative, and no bet exceeds its stack.
pub proof fn lemma_hand_chips(t: Table)
    requires
        t.in_hand(),
    ensures
        non_negative(t.stacks),
        non_negative(t.bets),
        pointwise_le(t.bets, t.stacks),
        0 <= total(t.bets) <= total(t.stacks),
{
    assert forall|i: int| 0 <= i < t.stacks.len() implies #[trigger] t.stacks[i] >= 0 by {
        assert(t.stacks[i] >= 1);
    }
    lemma_total_pointwise_le(t.bets, t.stacks);
    lemma_total_non_negative(t.bets);
}

/// Settling a hand keeps the chips: where no chips of folded seats lie
/// outside the pots, the stacks after the settlement and the odd chips of the
/// splits make up the stacks before. No stack falls below zero.
pub proof fn lemma_settlement_conserves(t: Table, ranks: Seq<HandRank>)
    requires
        t.in_hand(),
    ensures
        t.settled_stacks(ranks).len() == t.seats(),
        non_negative(t.settled_stacks(ranks)),
        total(t.settled_stacks(ranks)) + t.odd_chips(ranks) + t.chips_lost() == total(t.stacks),
        0 <= t.odd_chips(ranks),
        0 <= t.chips_lost(),
{
    let n = t.seats() as nat;
    lemma_hand_chips(t);
    lemma_pots_awardable(t);
    lemma_payouts_conserved(t.pots(), ranks, n);
    let behind = pointwise_sub(t.stacks, t.bets);
    let gains = payouts(t.pots(), ranks, n);
    lemma_total_pointwise_sub(t.stacks, t.bets);
    lemma_total_pointwise_add(behind, gains);
    assert forall|i: int| 0 <= i < n implies #[trigger] t.settled_stacks(ranks)[i] >= 0 by {
        assert(t.bets[i] <= t.stacks[i]);
        assert(gains[i] >= 0);
    }
}

/// The entries kept are as many as the seats of the mask.
pub proof fn lemma_keep_len<T>(s: Seq<T>, mask: Seq<bool>)
    requires
        s.len() <= mask.len(),
    ensures
        keep(s, mask).len() == count_true_upto(mask, s.len()),
    decreases s.len(),
{
    if s.len() > 0 {
        lemma_keep_len(s.drop_last(), mask);
    }
}

/// Every entry kept is an entry at a seat of the mask.
pub proof fn lemma_keep_entries<T>(s: Seq<T>, mask: Seq<bool>, k: int)
    requires
        s.len() <= mask.len(),
        0 <= k < keep(s, mask).len(),
    ensures
        exists|j: int| 0 <= j < s.len() && mask[j] && s[j] == keep(s, mask)[k],
    decreases s.len(),
{
    if s.len() > 0 {
        let rest = keep(s.drop_last(), mask);
        if mask[s.len() - 1] && k == rest.len() {
            assert(s[s.len() - 1] == keep(s, mask)[k]);
        } else {
            lemma_keep_entries(s.drop_last(), mask, k);
            let j = choose|j: int| 0 <= j < s.len() - 1 && mask[j] && s.drop_last()[j] == rest[k];
            assert(0 <= j < s.len() && mask[j] && s[j] == keep(s, mask)[k]);
        }
    }
}

/// Leaving out entries that are zero does not change the sum.
pub proof fn lemma_keep_total(s: Seq<int>, mask: Seq<bool>)
    requires
        s.len() <= mask.len(),
        forall|i: int| 0 <= i < s.len() && !mask[i] ==> #[trigger] s[i] == 0,
    ensures
        total(keep(s, mask)) == total(s),
    decreases s.len(),
{
    if s.len() > 0 {
        lemma_keep_total(s.drop_last(), mask);
        if mask[s.len() - 1] {
            crate::chips::lemma_total_push(keep(s.drop_last(), mask), s.last());
        } else {
            assert(s[s.len() - 1] == 0);
        }
    }
}

/// The entry at a seat of the mask is among those kept.
pub proof fn lemma_keep_contains<T>(s: Seq<T>, mask: Seq<bool>, i: int)
    requires
        s.len() <= mask.len(),
        0 <= i < s.len(),
        mask[i],
    ensures
        keep(s, mask).contains(s[i]),
    decreases s.len(),
{
    let rest = keep(s.drop_last(), mask);
    if i == s.len() - 1 {
        assert(keep(s, mask)[rest.len() as int] == s[i]);
    } else {
        lemma_keep_contains(s.drop_last(), mask, i);
        let k = choose|k: int| 0 <= k < rest.len() && rest[k] == s.drop_last()[i];
        assert(keep(s, mask)[k] == s[i]);
    }
}

/// What a mask keeps and what its reverse keeps are, together, the entries
/// of the sequence, each as often as before.
pub proof fn lemma_keep_shares_out<T>(s: Seq<T>, mask: Seq<bool>)
    requires
        s.len() <= mask.len(),
    ensures
        keep(s, mask).to_multiset().add(keep(s, negate(mask)).to_multiset()) == s.to_multiset(),
    decreases s.len(),
{
    broadcast use vstd::multiset::group_multiset_axioms;

    let yes = keep(s, mask);
    let no = keep(s, negate(mask));
    if s.len() == 0 {
        assert(yes =~= s);
        assert(no =~= s);
        s.to_multiset_ensures();
        vstd::multiset::lemma_multiset_empty_len(s.to_multiset());
        assert(yes.to_multiset().add(no.to_multiset()) =~= s.to_multiset());
    } else {
        let front = s.drop_last();
        lemma_keep_shares_out(front, mask);
        let x = s.last();
        let front_yes = keep(front, mask);
        let front_no = keep(front, negate(mask));
        assert(front.push(x) =~= s);
        front.to_multiset_ensures();
        front_yes.to_multiset_ensures();
        front_no.to_multiset_ensures();
        assert(front.push(x).to_multiset() =~= front.to_multiset().insert(x));
        if mask[s.len() - 1] {
            assert(yes == front_yes.push(x));
            assert(no == front_no);
            assert(front_yes.push(x).to_multiset() =~= front_yes.to_multiset().insert(x));
        } else {
            assert(yes == front_yes);
            assert(no == front_no.push(x));
            assert(front_no.push(x).to_multiset() =~= front_no.to_multiset().insert(x));
        }
        assert(yes.to_multiset().add(no.to_multiset()) =~= s.to_multiset());
    }
}

/// Two line-ups of the same players, each as often in one as in the other:
/// where nobody stands twice in the first, nobody stands twice in the second.
pub proof fn lemma_same_players(a: Seq<usize>, b: Seq<usize>)
    requires
        a.to_multiset() == b.to_multiset(),
        a.no_duplicates(),
    ensures
        b.no_duplicates(),
{
    a.lemma_multiset_has_no_duplicates();
    b.lemma_multiset_has_no_duplicates_conv();
}

/// The players of a table after a settlement are those before it.
pub proof fn lemma_settled_players(t: Table, ranks: Seq<HandRank>)
    requires
        t.ids.len() == t.seats(),
    ensures
        t.settled(ranks).players().to_multiset() == t.players().to_multiset(),
{
    broadcast use vstd::multiset::group_multiset_axioms;

    let stay = t.survivors(ranks);
    let yes = keep(t.ids, stay);
    let no = keep(t.ids, negate(stay));
    lemma_keep_shares_out(t.ids, stay);
    vstd::seq_lib::lemma_multiset_commutative(t.ids, t.dead_ids);
    vstd::seq_lib::lemma_multiset_commutative(t.dead_ids, no);
    vstd::seq_lib::lemma_multiset_commutative(yes, t.dead_ids + no);
    assert(t.settled(ranks).players().to_multiset() =~= t.players().to_multiset());
}

/// A mask and its reverse share out the seats between them.
pub proof fn lemma_count_negate(mask: Seq<bool>, k: nat)
    requires
        k <= mask.len(),
    ensures
        count_true_upto(mask, k) + count_true_upto(negate(mask), k) == k,
    decreases k,
{
    if k > 0 {
        lemma_count_negate(mask, (k - 1) as nat);
    }
}

/// A table in good order is seated and funded after the settlement, with
/// everybody who has no chips left among the eliminated.
pub proof fn lemma_settled_seated(t: Table, ranks: Seq<HandRank>)
    requires
        t.in_hand(),
        t.chips_lost() == 0,
    ensures
        t.settled(ranks).seated(),
        total(t.settled(ranks).stacks) + t.odd_chips(ranks) == total(t.stacks),
        t.settled(ranks).seats() + t.settled(ranks).dead_ids.len() == t.seats()
            + t.dead_ids.len(),
        t.settled(ranks).seats() <= t.seats(),
{
    let n = t.seats() as nat;
    let stay = t.survivors(ranks);
    let after = t.settled(ranks);
    let stacks = t.settled_stacks(ranks);
    lemma_settlement_conserves(t, ranks);
    lemma_keep_len(stacks, stay);
    lemma_keep_len(t.ids, stay);
    lemma_keep_len(t.ids, negate(stay));
    lemma_keep_len(t.bets, stay);
    lemma_keep_len(t.folded, stay);
    lemma_keep_len(t.all_in, stay);
    lemma_keep_len(t.hole_cards, stay);
    lemma_count_negate(stay, n);
    crate::showdown::lemma_count_true_bounded(stay, n);
    lemma_keep_total(stacks, stay);
    assert forall|k: int| 0 <= k < after.seats() implies #[trigger] after.stacks[k] >= 1 by {
        lemma_keep_entries(stacks, stay, k);
    }
    assert(after.ids.len() + after.dead_ids.len() == t.ids.len() + t.dead_ids.len());
    lemma_settled_players(t, ranks);
    lemma_same_players(t.players(), after.players());
    assert forall|k: int| 0 <= k < after.ids.len() implies #[trigger] after.ids[k] < after.ids.len()
        + after.dead_ids.len() by {
        lemma_keep_entries(t.ids, stay, k);
    }
    assert forall|k: int| 0 <= k < after.dead_ids.len() implies #[trigger] after.dead_ids[k]
        < after.ids.len() + after.dead_ids.len() by {
        if k >= t.dead_ids.len() {
            lemma_keep_entries(t.ids, negate(stay), k - t.dead_ids.len());
        } else {
            assert(after.dead_ids[k] == t.dead_ids[k]);
        }
    }
}

/// At showdown the seven cards of a seat can be ranked.
pub proof fn lemma_cards_of_rankable(t: Table, i: int)
    requires
        t.in_hand(),
        t.community.len() == 5,
        0 <= i < t.seats(),
    ensures
        rankable(t.cards_of(i)),
{
    let n = t.seats();
    let pool = t.pool();
    let cards = t.cards_of(i);
    let place = |j: int|
        if j < 5 {
            2 * n + j
        } else if j == 5 {
            2 * i
        } else {
            2 * i + 1
        };
    assert forall|j: int| 0 <= j < 7 implies 0 <= place(j) < pool.len() && cards[j] == pool[place(
        j,
    )] by {
        if j == 5 {
            assert(pool[2 * i] == holes_flat(t.hole_cards)[2 * i]);
            assert((2 * i) % 2 == 0 && (2 * i) / 2 == i);
        } else if j == 6 {
            assert(pool[2 * i + 1] == holes_flat(t.hole_cards)[2 * i + 1]);
            assert((2 * i + 1) % 2 == 1 && (2 * i + 1) / 2 == i);
        } else {
            assert(pool[2 * n + j] == t.community[j]);
        }
    }
    assert forall|j: int| 0 <= j < cards.len() implies (#[trigger] cards[j]).valid() by {
        assert(cards[j] == pool[place(j)]);
    }
    assert forall|j: int, k: int| 0 <= j < cards.len() && 0 <= k < cards.len() && j != k implies cards[j]
        != cards[k] by {
        assert(cards[j] == pool[place(j)]);
        assert(cards[k] == pool[place(k)]);
        assert(place(j) != place(k));
    }
}

} // verus!
