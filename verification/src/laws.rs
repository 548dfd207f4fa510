//! What holds of every hand: laws of the game, proved from the rules of the
//! table.

use crate::actions::{matches_offer, offered, Action, LegalAction};
use crate::cards::{Card, HandRank};
use crate::chips::{
    lemma_total_non_negative, lemma_total_pointwise_sub, non_negative, pointwise_add,
    pointwise_sub, total, zeros,
};
use crate::pots::{
    count_true, count_true_upto, layer, lemma_lowest_live_upto, live, live_mask, lowest_live, peel,
    side_pots, taken, PotView,
};
use crate::settlement::{
    lemma_hand_chips, lemma_keep_contains, lemma_keep_total, lemma_settled_seated,
    lemma_settlement_conserves,
};
use crate::showdown::{payouts, share, winners, winnings};
use crate::table::{highest, keep, lemma_highest_upto, lemma_mod_range, negate, Table};
use vstd::prelude::*;

verus! {

/// Settling a hand keeps the chips. The stacks after the settlement, the odd
/// chips of split pots, and the chips that folded seats wagered above every
/// seat that stayed in, make up the stacks before. The engine settles only
/// where the last of these is zero. Said of the chips behind and the bets:
/// what the players have behind and what they have wagered, together, is what
/// they have after the settlement plus the odd chips.
pub proof fn law_settlement_keeps_chips(t: Table, ranks: Seq<HandRank>)
    requires
        t.in_hand(),
    ensures
        total(t.settled(ranks).stacks) + t.odd_chips(ranks) + t.chips_lost() == total(t.stacks),
        total(pointwise_sub(t.stacks, t.bets)) + total(t.bets) == total(t.settled(ranks).stacks)
            + t.odd_chips(ranks) + t.chips_lost(),
        t.odd_chips(ranks) >= 0,
        t.chips_lost() >= 0,
{
    lemma_settlement_conserves(t, ranks);
    lemma_keep_total(t.settled_stacks(ranks), t.survivors(ranks));
    lemma_total_pointwise_sub(t.stacks, t.bets);
}

/// A hand that has been played by the rules since it was dealt loses no chips
/// at its settlement: the stacks after it and the odd chips of split pots
/// make up the stacks before.
pub proof fn law_play_by_the_rules_keeps_chips(t: Table, ranks: Seq<HandRank>)
    requires
        t.in_play(),
    ensures
        t.chips_lost() == 0,
        total(t.settled(ranks).stacks) + t.odd_chips(ranks) == total(t.stacks),
{
    crate::protocol::lemma_in_play_nothing_lost(t);
    law_settlement_keeps_chips(t, ranks);
}

/// Nobody takes from the side pots more than it has matched: what a seat
/// takes is at most, from every seat, that seat's bet up to its own bet. So a
/// player that is all-in for less never wins what others wagered above its
/// bet, however strong its hand. A seat that has folded takes nothing.
pub proof fn law_nobody_takes_more_than_it_matched(
    bets: Seq<int>,
    folded: Seq<bool>,
    ranks: Seq<HandRank>,
    i: int,
)
    requires
        non_negative(bets),
        bets.len() == folded.len(),
        0 <= i < bets.len(),
    ensures
        0 <= payouts(side_pots(bets, folded), ranks, bets.len())[i] <= total(taken(bets, bets[i])),
        folded[i] ==> payouts(side_pots(bets, folded), ranks, bets.len())[i] == 0,
    decreases count_true(live_mask(bets, folded)),
{
    let n = bets.len();
    let h = lowest_live(bets, folded);
    let cap = taken(bets, bets[i]);
    assert(non_negative(cap));
    lemma_total_non_negative(cap);
    lemma_lowest_live_upto(bets, folded, n);
    if h > 0 {
        crate::pots::lemma_peel_shrinks(bets, folded);
        let rest = peel(bets, h);
        let first = layer(bets, folded, h);
        let later = side_pots(rest, folded);
        assert(non_negative(rest));
        law_nobody_takes_more_than_it_matched(rest, folded, ranks, i);
        crate::settlement::lemma_side_pots_awardable(bets, folded);
        crate::settlement::lemma_side_pots_awardable(rest, folded);
        assert forall|k: int| 0 <= k < later.len() implies (#[trigger] later[k]).eligible.len()
            == n by {
            assert(crate::showdown::awardable(later[k], n));
        }
        crate::showdown::lemma_payouts_prepend(first, later, ranks, n);
        let all = seq![first].add(later);
        assert(crate::showdown::awardable(all[0], n));
        crate::showdown::lemma_pot_conserved(first, ranks);
        let won = winnings(first, ranks)[i];
        let given = taken(bets, h);
        let rest_cap = taken(rest, rest[i]);
        if winners(first.eligible, ranks)[i] {
            assert(live(bets, folded, i));
            assert(bets[i] >= h);
            assert(pointwise_add(given, rest_cap) =~= cap);
            crate::chips::lemma_total_pointwise_add(given, rest_cap);
        } else {
            assert(won == 0);
            assert(crate::chips::pointwise_le(rest_cap, cap));
            crate::chips::lemma_total_pointwise_le(rest_cap, cap);
        }
    } else {
        assert(side_pots(bets, folded) =~= Seq::<PotView>::empty());
    }
}

/// A mask with one seat counts one.
pub proof fn lemma_count_single(mask: Seq<bool>, c: int, k: nat)
    requires
        k <= mask.len(),
        0 <= c < mask.len(),
        forall|i: int| 0 <= i < mask.len() ==> (#[trigger] mask[i] <==> i == c),
    ensures
        count_true_upto(mask, k) == if c < k {
            1nat
        } else {
            0nat
        },
    decreases k,
{
    if k > 0 {
        lemma_count_single(mask, c, (k - 1) as nat);
    }
}

/// Where all seats but one have folded, the seat that is left takes all that
/// was wagered, whatever the cards and whatever the others wagered: its stack
/// after the settlement is its stack before plus the bets of all the others.
/// Everybody else loses its bet. No chips are lost, and no hand is ranked for
/// this: at such a table every seat stands with the same rank.
pub proof fn law_lone_contender_takes_all(t: Table, ranks: Seq<HandRank>, c: int)
    requires
        t.in_hand(),
        0 <= c < t.seats(),
        forall|i: int| 0 <= i < t.seats() ==> (#[trigger] t.folded[i] <==> i != c),
    ensures
        t.lone_contender(),
        t.chips_lost() == 0,
        t.odd_chips(ranks) == 0,
        t.settled_stacks(ranks)[c] == t.stacks[c] - t.bets[c] + total(t.bets),
        forall|i: int|
            0 <= i < t.seats() && i != c ==> #[trigger] t.settled_stacks(ranks)[i] == t.stacks[i]
                - t.bets[i],
        forall|i: int| 0 <= i < t.seats() ==> #[trigger] t.showdown_ranks()[i] == HandRank::HighCard(0),
{
    let n = t.seats() as nat;
    lemma_hand_chips(t);
    lemma_count_single(t.contenders(), c, n);
    crate::settlement::lemma_pots_awardable(t);
    let pots = t.pots();
    let pot = PotView { amount: total(t.bets), eligible: t.contenders() };
    assert(pots.len() == 1);
    assert(pots[0] == pot);
    assert(pots.drop_last() =~= Seq::<PotView>::empty());
    assert(pots.last() == pot);
    let w = winners(pot.eligible, ranks);
    assert forall|i: int| 0 <= i < n implies (#[trigger] w[i] <==> i == c) by {
        if i == c {
            assert(pot.eligible[c]);
        }
    }
    lemma_count_single(w, c, n);
    assert(w.len() == n);
    assert(count_true(w) == 1);
    assert(share(pot, ranks) == pot.amount / 1);
    assert(share(pot, ranks) == pot.amount);
    assert(crate::showdown::odd_chips(pot, ranks) == pot.amount % 1);
    assert(payouts(pots.drop_last(), ranks, n) == zeros(n));
    assert(payouts(pots, ranks, n) == pointwise_add(zeros(n), winnings(pot, ranks)));
    assert(crate::showdown::remainder(pots.drop_last(), ranks) == 0);
}

/// A hand that all seats but one have folded is settled the same way
/// whatever the ranks: the outcome depends on no card.
pub proof fn law_fold_out_needs_no_cards(
    t: Table,
    ranks: Seq<HandRank>,
    other_ranks: Seq<HandRank>,
    c: int,
)
    requires
        t.in_hand(),
        0 <= c < t.seats(),
        forall|i: int| 0 <= i < t.seats() ==> (#[trigger] t.folded[i] <==> i != c),
    ensures
        t.settled(ranks) == t.settled(other_ranks),
        t.odd_chips(ranks) == t.odd_chips(other_ranks),
{
    law_lone_contender_takes_all(t, ranks, c);
    law_lone_contender_takes_all(t, other_ranks, c);
    assert(t.settled_stacks(ranks) =~= t.settled_stacks(other_ranks));
    assert(t.survivors(ranks) =~= t.survivors(other_ranks));
}

/// Every hand starts with the dealer one seat further, round the seats that
/// are taken at that moment: also when players have just left the table.
pub proof fn law_dealer_moves_one_seat(t: Table, ranks: Seq<HandRank>, deck: Seq<Card>)
    requires
        t.seats() >= 1,
    ensures
        t.dealt(deck).dealer_pos == (t.dealer_pos + 1) % t.seats(),
        0 <= t.dealt(deck).dealer_pos < t.seats(),
        t.settled(ranks).seats() >= 1 ==> t.settled(ranks).dealt(deck).dealer_pos == (t.dealer_pos
            + 1) % t.settled(ranks).seats(),
{
    lemma_mod_range(t.dealer_pos + 1, t.seats());
}

/// A player whose stack is empty when the hand is settled has left the table:
/// it is among the eliminated and at no seat, when the next hand is dealt
/// too, and everybody who still has a seat has chips. After a revival it has
/// a seat again, and everybody at the table has the initial stack.
pub proof fn law_eliminated_until_revived(t: Table, ranks: Seq<HandRank>, i: int, deck: Seq<Card>)
    requires
        t.in_hand(),
        t.chips_lost() == 0,
        0 <= i < t.seats(),
        t.settled_stacks(ranks)[i] == 0,
    ensures
        ({
            let after = t.settled(ranks);
            let revived = after.reseated().dealt(deck);
            &&& !after.ids.contains(t.ids[i])
            &&& !after.dealt(deck).ids.contains(t.ids[i])
            &&& after.dead_ids.contains(t.ids[i])
            &&& forall|k: int| 0 <= k < after.seats() ==> #[trigger] after.stacks[k] >= 1
            &&& revived.ids.contains(t.ids[i])
            &&& revived.dead_ids.len() == 0
            &&& revived.seats() == t.seats() + t.dead_ids.len()
            &&& forall|k: int|
                0 <= k < revived.seats() ==> #[trigger] revived.stacks[k] == t.initial_stack
        }),
{
    let after = t.settled(ranks);
    let who = t.ids[i];
    let stay = t.survivors(ranks);
    lemma_settled_seated(t, ranks);
    lemma_keep_contains(t.ids, negate(stay), i);
    let gone = keep(t.ids, negate(stay));
    let j = choose|j: int| 0 <= j < gone.len() && gone[j] == who;
    assert(after.dead_ids[t.dead_ids.len() + j] == who);
    if after.ids.contains(who) {
        let k = choose|k: int| 0 <= k < after.ids.len() && after.ids[k] == who;
        assert(after.players()[k] == who);
        assert(after.players()[after.ids.len() + t.dead_ids.len() + j] == who);
    }
    let seated = after.reseated();
    assert(seated.ids[after.ids.len() + t.dead_ids.len() + j] == who);
}

/// A player that faces no outstanding bet is never offered a call: only a
/// fold, a check, and a raise; and no raise where its stack does not exceed
/// the highest bet.
pub proof fn law_no_call_without_outstanding_bet(t: Table, p: int)
    requires
        0 <= p < t.seats(),
        t.bets[p] == highest(t.bets),
    ensures
        forall|k: int|
            0 <= k < t.legal_actions(p).len() ==> !(#[trigger] t.legal_actions(p)[k] is Call),
        t.stacks[p] <= highest(t.bets) ==> forall|k: int|
            0 <= k < t.legal_actions(p).len() ==> !(#[trigger] t.legal_actions(p)[k] is Raise),
        forall|x: i32| !#[trigger] offered(t.legal_actions(p), Action::Call(x)),
{
    let legal = t.legal_actions(p);
    assert forall|x: i32| !#[trigger] offered(legal, Action::Call(x)) by {
        if offered(legal, Action::Call(x)) {
            let k = choose|k: int|
                0 <= k < legal.len() && matches_offer(#[trigger] legal[k], Action::Call(x));
            assert(legal[k] is Call);
        }
    }
}

/// A call that is offered always adds chips: a player is never asked to call
/// its own bet.
pub proof fn law_call_adds_chips(t: Table, p: int, x: i32)
    requires
        t.in_hand(),
        0 <= p < t.seats(),
        offered(t.legal_actions(p), Action::Call(x)),
    ensures
        t.bets[p] < x <= t.stacks[p],
        x <= highest(t.bets),
{
    crate::invariants::lemma_offers_within_means(t, p, Action::Call(x));
    lemma_highest_upto(t.bets, t.bets.len());
    let legal = t.legal_actions(p);
    let k = choose|k: int| 0 <= k < legal.len() && matches_offer(#[trigger] legal[k], Action::Call(x));
    assert(legal[k] is Call);
    assert(t.bets[p] != highest(t.bets));
}

/// No action changes the bet of a seat that has folded, or the stack of any
/// seat; and no action lowers a bet.
pub proof fn law_folded_bets_stay(t: Table, action: Action, i: int)
    requires
        t.in_hand(),
        t.accepts(action),
        0 <= i < t.seats(),
    ensures
        t.folded[i] ==> t.after_action(action).bets[i] == t.bets[i],
        t.folded[i] ==> t.after_action(action).folded[i],
        t.after_action(action).bets[i] >= t.bets[i],
        t.after_action(action).stacks == t.stacks,
{
    crate::invariants::lemma_offers_within_means(t, t.current_player, action);
}

/// A raise is offered from the highest bet plus the minimum-raise floor up
/// to the player's stack; or, where the stack is less than twice the highest
/// bet, at the stack alone. So no raise by less than the floor is offered,
/// but the one that puts in the whole stack.
pub proof fn law_raise_respects_floor(t: Table, p: int)
    requires
        t.in_hand(),
        0 <= p < t.seats(),
    ensures
        forall|k: int|
            0 <= k < t.legal_actions(p).len() ==> (#[trigger] t.legal_actions(p)[k] matches LegalAction::Raise(
                low,
                high,
            ) ==> high == t.stacks[p] && low <= high && if t.stacks[p] >= 2 * highest(t.bets) {
                low == highest(t.bets) + t.min_raise
            } else {
                low == t.stacks[p]
            }),
        forall|x: i32|
            #[trigger] offered(t.legal_actions(p), Action::Raise(x)) ==> x - highest(t.bets)
                >= t.min_raise || (t.stacks[p] < 2 * highest(t.bets) && x == t.stacks[p]),
{
    let legal = t.legal_actions(p);
    lemma_hand_chips(t);
    crate::chips::lemma_total_bounds_entry(t.stacks, p);
    lemma_highest_upto(t.bets, t.bets.len());
    assert forall|x: i32| #[trigger] offered(legal, Action::Raise(x)) implies x - highest(t.bets)
        >= t.min_raise || (t.stacks[p] < 2 * highest(t.bets) && x == t.stacks[p]) by {
        let k = choose|k: int|
            0 <= k < legal.len() && matches_offer(#[trigger] legal[k], Action::Raise(x));
        assert(legal[k] is Raise);
    }
}

} // verus!
