//! Why the rules keep the table in good order: each rule, applied to a table
//! in good order, gives one.

use crate::actions::{offered, Action, Phase};
use crate::cards::{all_valid, proper_deck, Card};
use crate::chips::{non_negative, total};
use crate::table::{
    highest, holes_flat, least, lemma_highest_upto, lemma_mod_range, next_seat, Table,
};
use vstd::prelude::*;

verus! {

/// A hand dealt on a funded table from a proper deck that holds two cards
/// for every seat starts in good order.
pub proof fn lemma_dealt_in_hand(t: Table, deck: Seq<Card>)
    requires
        t.funded(),
        t.seats() >= 1,
        deck.len() >= 2 * t.seats(),
        proper_deck(deck),
    ensures
        t.dealt(deck).in_hand(),
        t.dealt(deck).pool() == deck.reverse(),
{
    let n = t.seats();
    let len = deck.len() as int;
    let d = t.dealt(deck);
    let dealer = next_seat(t.dealer_pos, n);
    lemma_mod_range(t.dealer_pos + 1, n);
    lemma_mod_range(dealer + 1, n);
    lemma_mod_range(dealer + 2, n);
    lemma_mod_range(dealer + 3, n);
    let first = (dealer + 3) % n;
    lemma_mod_range(first + n - 1, n);
    let small = (dealer + 1) % n;
    let big = (dealer + 2) % n;
    assert(d.stacks == t.stacks);
    assert(d.bets.len() == n);
    assert(d.bets[big] == least(t.big_blind, t.stacks[big]));
    assert(d.bets[big] >= 1);
    lemma_highest_upto(d.bets, n as nat);
    assert forall|i: int| 0 <= i < n implies 0 <= #[trigger] d.bets[i] <= d.stacks[i] by {}
    assert forall|i: int| 0 <= i < n implies #[trigger] d.all_in[i] == (d.bets[i] == d.stacks[i]) by {
        assert(t.stacks[i] >= 1);
    }
    assert(d.pool() =~= deck.reverse()) by {
        assert(d.community.len() == 0);
        assert(d.deck.len() == len - 2 * n);
        assert forall|k: int| 0 <= k < len implies d.pool()[k] == deck.reverse()[k] by {
            if k < 2 * n {
                assert(d.pool()[k] == holes_flat(d.hole_cards)[k]);
                if k % 2 == 0 {
                    assert(2 * (k / 2) == k);
                } else {
                    assert(2 * (k / 2) + 1 == k);
                }
            } else {
                assert(d.pool()[k] == d.deck.reverse()[k - 2 * n]);
            }
        }
    }
    assert(all_valid(deck.reverse()));
    assert(deck.reverse().no_duplicates());
}

/// `n` stacks of `c` chips hold `n * c` chips.
pub proof fn lemma_total_constant(n: nat, c: int)
    ensures
        total(Seq::new(n, |i: int| c)) == n * c,
    decreases n,
{
    let s = Seq::new(n, |i: int| c);
    if n == 0 {
        assert(n * c == 0) by (nonlinear_arith)
            requires
                n == 0,
        ;
    } else {
        assert(s.drop_last() =~= Seq::new((n - 1) as nat, |i: int| c));
        lemma_total_constant((n - 1) as nat, c);
        assert(n * c == (n - 1) * c + c) by (nonlinear_arith);
    }
}

/// The table before its first hand is funded, where its chips fit the
/// machine's integers.
pub proof fn lemma_opening_funded(n: nat, small_blind: int, big_blind: int, initial_stack: int)
    requires
        1 <= small_blind <= big_blind <= i32::MAX,
        1 <= initial_stack,
        n * initial_stack <= i32::MAX,
    ensures
        Table::opening(n, small_blind, big_blind, initial_stack).funded(),
{
    lemma_total_constant(n, initial_stack);
    assert(n <= n * initial_stack) by (nonlinear_arith)
        requires
            initial_stack >= 1,
            n >= 0,
    ;
}

/// A funded table is funded again with everybody back at a seat.
pub proof fn lemma_reseated_funded(t: Table)
    requires
        t.funded(),
    ensures
        t.reseated().funded(),
        t.reseated().seats() == t.seats() + t.dead_ids.len(),
{
    lemma_total_constant(t.ids.len() + t.dead_ids.len(), t.initial_stack);
}

/// The players of a table are the same after one of them has left its seat.
pub proof fn lemma_without_seat_players(t: Table, seat: int)
    requires
        0 <= seat < t.ids.len(),
        t.players().no_duplicates(),
    ensures
        t.without_seat(seat).players().no_duplicates(),
{
    broadcast use vstd::multiset::group_multiset_axioms;

    let after = t.without_seat(seat);
    t.ids.to_multiset_ensures();
    t.dead_ids.to_multiset_ensures();
    vstd::seq_lib::lemma_multiset_commutative(t.ids, t.dead_ids);
    vstd::seq_lib::lemma_multiset_commutative(after.ids, after.dead_ids);
    assert(t.ids.to_multiset().count(t.ids[seat]) > 0) by {
        assert(t.ids.contains(t.ids[seat]));
    }
    assert(after.players().to_multiset() =~= t.players().to_multiset());
    crate::settlement::lemma_same_players(t.players(), after.players());
}

/// The sum of a sequence without one entry is the sum less that entry.
pub proof fn lemma_total_remove(s: Seq<int>, i: int)
    requires
        0 <= i < s.len(),
    ensures
        total(s.remove(i)) == total(s) - s[i],
    decreases s.len(),
{
    if i == s.len() - 1 {
        assert(s.remove(i) =~= s.drop_last());
    } else {
        assert(s.remove(i).drop_last() =~= s.drop_last().remove(i));
        assert(s.remove(i).last() == s.last());
        lemma_total_remove(s.drop_last(), i);
    }
}

/// Raising one bet raises the highest bet to that bet, if it is more.
pub proof fn lemma_highest_after_bet(bets: Seq<int>, p: int, x: int)
    requires
        0 <= p < bets.len(),
        bets[p] <= x,
    ensures
        highest(bets.update(p, x)) == if x > highest(bets) {
            x
        } else {
            highest(bets)
        },
{
    let after = bets.update(p, x);
    lemma_highest_upto(bets, bets.len());
    lemma_highest_upto(after, after.len());
    let h = highest(bets);
    let j = choose|j: int| 0 <= j < bets.len() && bets[j] == h;
    let k = choose|k: int| 0 <= k < after.len() && after[k] == highest(after);
    assert(after[j] <= highest(after));
    assert(after[p] <= highest(after));
    assert(bets[k] <= h);
}

/// A seat that raises its bet within its stack leaves the table in good
/// order.
pub proof fn lemma_with_bet_in_hand(t: Table, p: int, x: int)
    requires
        t.in_hand(),
        0 <= p < t.seats(),
        t.bets[p] <= x <= t.stacks[p],
    ensures
        t.with_bet(p, x).in_hand(),
{
    let after = t.with_bet(p, x);
    lemma_highest_after_bet(t.bets, p, x);
    assert(after.pool() == t.pool());
    assert forall|i: int| 0 <= i < after.seats() implies #[trigger] after.all_in[i] == (after.bets[i]
        == after.stacks[i]) by {}
}

/// What a seat is offered lies within its means: a call from its bet up to
/// its stack, a raise above the highest bet and up to its stack.
pub proof fn lemma_offers_within_means(t: Table, p: int, action: Action)
    requires
        t.in_hand(),
        0 <= p < t.seats(),
        offered(t.legal_actions(p), action),
    ensures
        !t.all_in[p],
        t.bets[p] <= highest(t.bets),
        action matches Action::Call(x) ==> x == t.call_amount(p) && t.bets[p] <= x <= t.stacks[p],
        action matches Action::Raise(x) ==> highest(t.bets) < x <= t.stacks[p] && !t.others_inactive(
            p,
        ),
        action is Fold ==> !t.others_inactive(p),
        action is Check ==> !t.others_inactive(p) && t.bets[p] == highest(t.bets),
{
    lemma_highest_upto(t.bets, t.bets.len());
    let legal = t.legal_actions(p);
    let k = choose|k: int| 0 <= k < legal.len() && crate::actions::matches_offer(#[trigger] legal[k], action);
    assert(t.bets[p] <= highest(t.bets));
    assert(t.stacks[p] <= i32::MAX) by {
        assert(non_negative(t.stacks)) by {
            assert forall|i: int| 0 <= i < t.stacks.len() implies #[trigger] t.stacks[i] >= 0 by {
                assert(t.stacks[i] >= 1);
            }
        }
        crate::chips::lemma_total_bounds_entry(t.stacks, p);
    }
}

/// An offered action leaves the table in good order, before and after the
/// turn moves.
pub proof fn lemma_action_in_hand(t: Table, action: Action)
    requires
        t.in_hand(),
        offered(t.legal_actions(t.current_player), action),
    ensures
        t.acted(action).in_hand(),
        t.after_action(action).in_hand(),
{
    let p = t.current_player;
    let n = t.seats();
    lemma_offers_within_means(t, p, action);
    lemma_mod_range(p + n - 1, n);
    lemma_mod_range(p + 1, n);
    match action {
        Action::Fold => {
            assert(t.acted(action).pool() == t.pool());
        },
        Action::Check => {},
        Action::Call(x) => {
            lemma_with_bet_in_hand(t, p, x as int);
        },
        Action::Raise(x) => {
            lemma_with_bet_in_hand(t, p, x as int);
            lemma_highest_after_bet(t.bets, p, x as int);
            assert(t.acted(action).pool() == t.pool());
        },
    }
    assert(t.acted(action).turn_passed().pool() == t.acted(action).pool());
}

/// A table in good order during a hand is seated.
pub proof fn lemma_in_hand_seated(t: Table)
    requires
        t.in_hand(),
    ensures
        t.seated(),
{
}

/// Passing the turn leaves the table in good order.
pub proof fn lemma_turn_passed_in_hand(t: Table)
    requires
        t.in_hand(),
    ensures
        t.turn_passed().in_hand(),
{
    lemma_mod_range(t.current_player + 1, t.seats());
    assert(t.turn_passed().pool() == t.pool());
}

/// Seeking the next seat to act changes nothing but whose turn it is, and
/// brings the seat at which the round closes no farther.
pub proof fn lemma_sought_in_hand(t: Table)
    requires
        t.in_hand(),
    ensures
        t.sought().in_hand(),
        t.sought() == (Table { current_player: t.sought().current_player, ..t }),
        t.sought().turns_left() <= t.turns_left(),
        t.sought().awaits_decision() || t.sought().halts(),
    decreases t.turns_left(),
{
    if !(t.awaits_decision() || t.halts()) {
        t.lemma_pass_moves_closer();
        lemma_turn_passed_in_hand(t);
        lemma_sought_in_hand(t.turn_passed());
    }
}

/// The highest bet never exceeds the chips on the table.
pub proof fn lemma_headroom(t: Table)
    requires
        t.in_hand(),
    ensures
        t.headroom() >= 0,
{
    lemma_highest_upto(t.bets, t.bets.len());
    let j = choose|j: int| 0 <= j < t.bets.len() && t.bets[j] == highest(t.bets);
    assert(t.bets[j] <= t.stacks[j]);
    assert(non_negative(t.stacks)) by {
        assert forall|i: int| 0 <= i < t.stacks.len() implies #[trigger] t.stacks[i] >= 0 by {
            assert(t.stacks[i] >= 1);
        }
    }
    crate::chips::lemma_total_bounds_entry(t.stacks, j);
}

/// Every action that leaves the round open brings its end nearer: a raise
/// lifts the highest bet, and any other action passes the turn one seat
/// towards the seat at which the round closes.
pub proof fn lemma_action_progress(t: Table, action: Action)
    requires
        t.in_hand(),
        offered(t.legal_actions(t.current_player), action),
        !t.acted(action).closes_here(),
    ensures
        t.after_action(action).headroom() < t.headroom() || (t.after_action(action).headroom()
            == t.headroom() && t.after_action(action).turns_left() < t.turns_left()),
        t.same_hand(t.after_action(action)),
{
    let p = t.current_player;
    let n = t.seats();
    lemma_offers_within_means(t, p, action);
    let a = t.acted(action);
    match action {
        Action::Call(x) => {
            lemma_highest_after_bet(t.bets, p, x as int);
        },
        Action::Raise(x) => {
            lemma_highest_after_bet(t.bets, p, x as int);
        },
        _ => {},
    }
    if !(action is Raise) {
        assert(a.last_aggressor == t.last_aggressor);
        assert(a.current_player != a.last_aggressor);
        if p + 1 < n {
            crate::table::lemma_mod_small(p + 1, n);
        } else {
            crate::table::lemma_mod_wrap(p + 1, n);
        }
    }
}

/// An action that closes the round leaves the same hand.
pub proof fn lemma_action_same_hand(t: Table, action: Action)
    requires
        t.in_hand(),
        offered(t.legal_actions(t.current_player), action),
    ensures
        t.same_hand(t.after_action(action)),
{
    lemma_offers_within_means(t, t.current_player, action);
}

/// The next phase leaves the table in good order, where the deck holds the
/// cards that it needs.
pub proof fn lemma_advanced_in_hand(t: Table)
    requires
        t.in_hand(),
        t.phase != Phase::Showdown,
        t.deck.len() >= t.cards_needed(),
    ensures
        t.advanced().in_hand(),
        t.advanced().pool() == t.pool(),
{
    let a = t.advanced();
    let k = t.cards_needed();
    let len = t.deck.len() as int;
    lemma_mod_range(t.dealer_pos + 1, t.seats());
    assert(a.pool() =~= t.pool());
}

} // verus!
