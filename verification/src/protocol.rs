//! Why a hand that is played by the rules loses no chips: a seat that has not
//! folded always holds the highest bet, so every chip wagered ends in a pot.
//! And why a betting round on any table in good order ends with the betting
//! settled.

use crate::actions::{offered, Action, Phase};
use crate::cards::{proper_deck, Card};
use crate::chips::{non_negative, total};
use crate::invariants::{
    lemma_action_in_hand, lemma_advanced_in_hand, lemma_dealt_in_hand, lemma_highest_after_bet,
    lemma_offers_within_means, lemma_turn_passed_in_hand,
};
use crate::pots::{
    count_true, count_true_upto, layer, lemma_layer_conserves, lemma_lowest_live_upto,
    lemma_peel_shrinks, lemma_pots_total_prepend, live, live_mask, lowest_live, peel, side_pots,
    unclaimed, PotView,
};
use crate::table::{
    highest, lemma_highest_upto, lemma_mod_range, lemma_mod_small, lemma_mod_wrap, next_seat,
    previous_seat, Table,
};
use vstd::prelude::*;

verus! {

/// A sequence of zeros sums to zero.
pub proof fn lemma_total_all_zero(s: Seq<int>)
    requires
        forall|i: int| 0 <= i < s.len() ==> #[trigger] s[i] == 0,
    ensures
        total(s) == 0,
    decreases s.len(),
{
    if s.len() > 0 {
        lemma_total_all_zero(s.drop_last());
    }
}

/// Where a seat that has not folded has wagered as much as anybody, the pots
/// hold every chip that was wagered.
pub proof fn lemma_nothing_unclaimed(rem: Seq<int>, folded: Seq<bool>, j: int)
    requires
        non_negative(rem),
        rem.len() == folded.len(),
        0 <= j < rem.len(),
        !folded[j],
        forall|i: int| 0 <= i < rem.len() ==> #[trigger] rem[i] <= rem[j],
    ensures
        unclaimed(rem, folded) == 0,
    decreases count_true(live_mask(rem, folded)),
{
    let h = lowest_live(rem, folded);
    lemma_lowest_live_upto(rem, folded, rem.len());
    if h > 0 {
        lemma_peel_shrinks(rem, folded);
        let rest = peel(rem, h);
        assert(non_negative(rest));
        assert forall|i: int| 0 <= i < rest.len() implies #[trigger] rest[i] <= rest[j] by {
            assert(rem[i] <= rem[j]);
        }
        lemma_nothing_unclaimed(rest, folded, j);
        lemma_layer_conserves(rem, h);
        lemma_pots_total_prepend(layer(rem, folded, h), side_pots(rest, folded));
    } else {
        assert(!live(rem, folded, j));
        assert forall|i: int| 0 <= i < rem.len() implies #[trigger] rem[i] == 0 by {
            assert(rem[i] <= rem[j]);
        }
        lemma_total_all_zero(rem);
        assert(side_pots(rem, folded) =~= Seq::<PotView>::empty());
    }
}

/// A hand played by the rules loses no chips at its settlement.
pub proof fn lemma_in_play_nothing_lost(t: Table)
    requires
        t.in_play(),
    ensures
        t.chips_lost() == 0,
{
    let j = choose|j: int| 0 <= j < t.seats() && !t.folded[j] && #[trigger] t.matched(j);
    lemma_highest_upto(t.bets, t.bets.len());
    assert(non_negative(t.bets));
    lemma_nothing_unclaimed(t.bets, t.folded, j);
    crate::settlement::lemma_pots_awardable(t);
}

/// Where two seats have not folded, fewer than all but one have.
pub proof fn lemma_two_not_folded(folded: Seq<bool>, a: int, b: int, k: nat)
    requires
        k <= folded.len(),
        0 <= a < b < folded.len(),
        !folded[a],
        !folded[b],
    ensures
        count_true_upto(folded, k) + (if a < k {
            1int
        } else {
            0int
        }) + (if b < k {
            1int
        } else {
            0int
        }) <= k,
    decreases k,
{
    if k > 0 {
        lemma_two_not_folded(folded, a, b, (k - 1) as nat);
    }
}

/// Where all seats but one have folded, no two seats are still in.
pub proof fn lemma_one_contender(t: Table, a: int, b: int)
    requires
        t.folded.len() == t.seats(),
        count_true(t.folded) == t.seats() - 1,
        0 <= a < t.seats(),
        0 <= b < t.seats(),
        !t.folded[a],
        !t.folded[b],
    ensures
        a == b,
{
    if a < b {
        lemma_two_not_folded(t.folded, a, b, t.folded.len());
    } else if b < a {
        lemma_two_not_folded(t.folded, b, a, t.folded.len());
    }
}

/// Where all seats but one have folded in a hand played by the rules, the
/// betting is even: the seat left holds the highest bet.
pub proof fn lemma_lone_contender_matched(t: Table)
    requires
        t.in_play(),
        count_true(t.folded) == t.seats() - 1,
    ensures
        t.all_matched(),
{
    let j = choose|j: int| 0 <= j < t.seats() && !t.folded[j] && #[trigger] t.matched(j);
    assert forall|i: int| #[trigger] t.active(i) implies t.matched(i) by {
        lemma_one_contender(t, i, j);
    }
}

/// A hand in which the betting is even is played by the rules, whoever is on
/// turn, as long as a seat that has not folded holds the highest bet.
pub proof fn lemma_even_betting_in_play(t: Table)
    requires
        t.in_hand(),
        t.top_bet_stands(),
        t.all_matched(),
    ensures
        t.in_play(),
{
}

/// A freshly dealt hand is played by the rules.
pub proof fn lemma_dealt_in_play(t: Table, deck: Seq<Card>)
    requires
        t.funded(),
        t.seats() >= 1,
        deck.len() >= 2 * t.seats(),
        proper_deck(deck),
    ensures
        t.dealt(deck).in_play(),
{
    let d = t.dealt(deck);
    let n = t.seats();
    lemma_dealt_in_hand(t, deck);
    lemma_highest_upto(d.bets, d.bets.len());
    let j = choose|j: int| 0 <= j < d.bets.len() && d.bets[j] == highest(d.bets);
    assert(d.matched(j) && !d.folded[j]);
    let dealer = next_seat(t.dealer_pos, n);
    lemma_mod_range(t.dealer_pos + 1, n);
    lemma_mod_range(dealer + 1, n);
    lemma_mod_range(dealer + 2, n);
    lemma_mod_range(dealer + 3, n);
    let small = (dealer + 1) % n;
    let big = (dealer + 2) % n;
    let first = (dealer + 3) % n;
    assert(d.current_player == first);
    assert(d.last_aggressor == previous_seat(first, n));
    lemma_mod_range(first + n - 1, n);
    assert(highest(d.bets) >= 1);
    assert forall|q: int| 0 <= q < n && q != small && q != big implies !d.matched(q) by {
        assert(d.bets[q] == 0);
    }
    lemma_blind_seats(dealer, n);
    assert(d.turns_left() == n - 1) by {
        lemma_previous_is_last(first, n);
    }
    assert forall|p: int, q: int|
        #[trigger] d.active(p) && #[trigger] d.active(q) && d.offset(p) < d.offset(q) && d.matched(
            p,
        ) implies d.matched(q) by {
        if p == small && small != big {
            assert(q == big);
            assert(d.bets[big] == t.big_blind);
        }
    }
}

/// Where the blinds sit, seen from the first seat to act: with three seats or
/// more the small blind is the last but one and the big blind the last; with
/// two seats the small blind acts first and the big blind last.
pub proof fn lemma_blind_seats(dealer: int, n: int)
    requires
        n >= 1,
        0 <= dealer < n,
    ensures
        ({
            let small = (dealer + 1) % n;
            let big = (dealer + 2) % n;
            let first = (dealer + 3) % n;
            let off = |i: int|
                if i >= first {
                    i - first
                } else {
                    i + n - first
                };
            &&& off(big) == n - 1
            &&& n >= 2 ==> off(small) == n - 2
            &&& n == 1 ==> small == big
        }),
{
    let small = (dealer + 1) % n;
    let big = (dealer + 2) % n;
    let first = (dealer + 3) % n;
    lemma_step(dealer, n);
    lemma_step(dealer + 1, n);
    lemma_step(dealer + 2, n);
    lemma_mod_range(dealer + 1, n);
    lemma_mod_range(dealer + 2, n);
    lemma_mod_range(dealer + 3, n);
}

/// One step round the table: the next seat is one higher, or the first seat
/// after the last.
pub proof fn lemma_step(x: int, n: int)
    requires
        n >= 1,
        x >= 0,
    ensures
        (x + 1) % n == if x % n == n - 1 {
            0
        } else {
            x % n + 1
        },
{
    crate::table::lemma_next_seat_adds(x, n);
    lemma_mod_range(x, n);
    if x % n == n - 1 {
        lemma_mod_wrap(x % n + 1, n);
    } else {
        lemma_mod_small(x % n + 1, n);
    }
}

/// The seat before a seat is the last to be reached from it.
pub proof fn lemma_previous_is_last(seat: int, n: int)
    requires
        n >= 1,
        0 <= seat < n,
    ensures
        ({
            let last = previous_seat(seat, n);
            &&& 0 <= last < n
            &&& (if last >= seat {
                last - seat
            } else {
                last + n - seat
            }) == n - 1
        }),
{
    if seat == 0 {
        lemma_mod_small(n - 1, n);
    } else {
        crate::table::lemma_mod_shift(seat - 1, n);
        lemma_mod_small(seat - 1, n);
    }
}

/// How the turns until a seat is reached change when the turn passes on: one
/// less for every seat but the one that had the turn, which is now the last.
pub proof fn lemma_offsets_after_pass(t: Table, q: int)
    requires
        t.positions_in_range(),
        0 <= q < t.seats(),
    ensures
        t.turn_passed().offset(q) == if q == t.current_player {
            t.seats() - 1
        } else {
            t.offset(q) - 1
        },
        0 <= t.offset(q) < t.seats(),
        t.offset(q) == 0 <==> q == t.current_player,
{
    let n = t.seats();
    let p = t.current_player;
    if p + 1 < n {
        lemma_mod_small(p + 1, n);
    } else {
        lemma_mod_wrap(p + 1, n);
    }
}

/// Passing the turn keeps a hand played by the rules so, where the seat that
/// had the turn cannot act any more or has matched the highest bet, and the
/// round does not close at it.
pub proof fn lemma_pass_in_play(t: Table)
    requires
        t.in_hand(),
        t.top_bet_stands(),
        t.current_player != t.last_aggressor,
        t.active(t.current_player) ==> t.matched(t.current_player),
        forall|q: int|
            #[trigger] t.active(q) && t.offset(q) > t.turns_left() ==> t.matched(q),
        forall|p: int, q: int|
            #[trigger] t.active(p) && #[trigger] t.active(q) && p != t.current_player
                && t.offset(p) < t.offset(q) && t.matched(p) ==> t.matched(q),
    ensures
        t.turn_passed().in_play(),
{
    let after = t.turn_passed();
    let n = t.seats();
    lemma_turn_passed_in_hand(t);
    lemma_offsets_after_pass(t, t.last_aggressor);
    let j = choose|j: int| 0 <= j < t.seats() && !t.folded[j] && #[trigger] t.matched(j);
    assert(after.matched(j));
    assert forall|q: int|
        #[trigger] after.active(q) && after.offset(q) > after.turns_left() implies after.matched(
        q,
    ) by {
        lemma_offsets_after_pass(t, q);
        assert(t.active(q));
    }
    assert forall|p: int, q: int|
        #[trigger] after.active(p) && #[trigger] after.active(q) && after.offset(p) < after.offset(
            q,
        ) && after.matched(p) implies after.matched(q) by {
        lemma_offsets_after_pass(t, p);
        lemma_offsets_after_pass(t, q);
        assert(t.active(p) && t.active(q));
    }
}

/// Seeking the next seat to act keeps a hand played by the rules so.
pub proof fn lemma_sought_in_play(t: Table)
    requires
        t.in_play(),
    ensures
        t.sought().in_play(),
    decreases t.turns_left(),
{
    if !(t.awaits_decision() || t.halts()) {
        t.lemma_pass_moves_closer();
        lemma_turn_passed_in_hand(t);
        assert(!t.active(t.current_player)) by {
            lemma_highest_upto(t.bets, t.bets.len());
        }
        lemma_pass_in_play(t);
        lemma_sought_in_play(t.turn_passed());
    }
}

/// Where no seat is left to ask in a hand played by the rules, the betting
/// is even.
pub proof fn lemma_halt_is_even(t: Table)
    requires
        t.in_play(),
        !t.awaits_decision(),
        t.halts(),
    ensures
        t.all_matched(),
{
    let p = t.current_player;
    assert forall|i: int| #[trigger] t.active(i) implies t.matched(i) by {
        lemma_offsets_after_pass(t, i);
        if t.folded[p] {
            assert(t.turns_left() == 0);
        } else if t.all_in[p] {
            if count_true(t.folded) == t.seats() - 1 {
                lemma_lone_contender_matched(t);
            } else {
                assert(t.turns_left() == 0);
            }
        } else {
            assert(t.others_inactive(p));
            assert(i == p);
        }
    }
}

/// What an accepted action does to the bets of a table in good order: the
/// highest bet stays unless the action is a raise; the bets of the other
/// seats stay; and the seat that acted has matched the highest bet afterwards
/// or cannot act any more.
pub proof fn lemma_action_bets(t: Table, action: Action)
    requires
        t.in_hand(),
        t.accepts(action),
    ensures
        ({
            let a = t.acted(action);
            let p = t.current_player;
            &&& a.in_hand()
            &&& a.current_player == p
            &&& t.active(p)
            &&& a.active(p) ==> a.matched(p)
            &&& forall|q: int| #[trigger] a.active(q) ==> t.active(q)
            &&& action is Raise ==> forall|q: int|
                0 <= q < t.seats() ==> (#[trigger] a.matched(q) <==> q == p)
            &&& action is Raise ==> !a.closes_here() && a.last_aggressor == previous_seat(
                p,
                t.seats(),
            )
            &&& !(action is Raise) ==> a.last_aggressor == t.last_aggressor && forall|q: int|
                0 <= q < t.seats() && q != p ==> (#[trigger] a.matched(q) <==> t.matched(q))
        }),
{
    let a = t.acted(action);
    let p = t.current_player;
    let n = t.seats();
    lemma_offers_within_means(t, p, action);
    lemma_action_in_hand(t, action);
    lemma_highest_upto(t.bets, t.bets.len());
    match action {
        Action::Call(x) => {
            lemma_highest_after_bet(t.bets, p, x as int);
        },
        Action::Raise(x) => {
            lemma_highest_after_bet(t.bets, p, x as int);
            let q = choose|q: int|
                0 <= q < t.seats() && q != p && !(#[trigger] t.folded[q] || t.all_in[q]);
            lemma_one_contender_not(a, p, q);
            lemma_previous_is_last(p, n);
        },
        _ => {},
    }
}

/// Opening a betting round puts it in order: no seat is past its turn.
pub proof fn lemma_opened_in_order(t: Table)
    requires
        t.in_hand(),
    ensures
        t.round_opened().in_hand(),
        t.round_opened().round_in_order(),
{
    let opened = t.round_opened();
    lemma_previous_is_last(t.current_player, t.seats());
    assert(opened.pool() == t.pool());
    assert forall|q: int|
        #[trigger] opened.active(q) && opened.offset(q) > opened.turns_left() implies opened.matched(
        q,
    ) by {
        lemma_offsets_after_pass(t, q);
    }
}

/// Passing the turn keeps a round in order, where the seat that had the turn
/// cannot act any more or has matched the highest bet, and the round does
/// not close at it.
pub proof fn lemma_pass_in_order(t: Table)
    requires
        t.in_hand(),
        t.round_in_order(),
        t.current_player != t.last_aggressor,
        t.active(t.current_player) ==> t.matched(t.current_player),
    ensures
        t.turn_passed().round_in_order(),
{
    let after = t.turn_passed();
    lemma_turn_passed_in_hand(t);
    lemma_offsets_after_pass(t, t.last_aggressor);
    assert forall|q: int|
        #[trigger] after.active(q) && after.offset(q) > after.turns_left() implies after.matched(
        q,
    ) by {
        lemma_offsets_after_pass(t, q);
        assert(t.active(q));
    }
}

/// Seeking the next seat to act keeps a round in order.
pub proof fn lemma_sought_in_order(t: Table)
    requires
        t.in_hand(),
        t.round_in_order(),
    ensures
        t.sought().round_in_order(),
    decreases t.turns_left(),
{
    if !(t.awaits_decision() || t.halts()) {
        t.lemma_pass_moves_closer();
        lemma_turn_passed_in_hand(t);
        assert(!t.active(t.current_player)) by {
            lemma_highest_upto(t.bets, t.bets.len());
        }
        lemma_pass_in_order(t);
        lemma_sought_in_order(t.turn_passed());
    }
}

/// Where no seat is left to ask in a round in order, the betting is settled.
pub proof fn lemma_halt_is_settled(t: Table)
    requires
        t.in_hand(),
        t.round_in_order(),
        !t.awaits_decision(),
        t.halts(),
    ensures
        t.betting_settled(),
{
    let p = t.current_player;
    if count_true(t.folded) != t.seats() - 1 {
        assert forall|i: int| #[trigger] t.active(i) implies t.matched(i) by {
            lemma_offsets_after_pass(t, i);
            if t.folded[p] {
                assert(t.turns_left() == 0);
            } else if t.all_in[p] {
                assert(t.turns_left() == 0);
            } else {
                assert(t.others_inactive(p));
                assert(i == p);
            }
        }
    }
}

/// An accepted action keeps a round in order; and where it closes the round,
/// the betting is settled.
pub proof fn lemma_action_in_order(t: Table, action: Action)
    requires
        t.in_hand(),
        t.round_in_order(),
        t.accepts(action),
    ensures
        t.after_action(action).round_in_order(),
        t.acted(action).closes_here() ==> t.after_action(action).betting_settled(),
{
    let a = t.acted(action);
    let p = t.current_player;
    let n = t.seats();
    lemma_action_bets(t, action);
    if a.closes_here() {
        if count_true(a.folded) != n - 1 {
            assert forall|i: int| #[trigger] a.active(i) implies a.matched(i) by {
                assert(t.active(i));
                if i != p {
                    lemma_offsets_after_pass(t, i);
                    assert(t.turns_left() == 0);
                    assert(t.matched(i));
                }
            }
        }
        assert forall|q: int|
            #[trigger] a.active(q) && a.offset(q) > a.turns_left() implies a.matched(q) by {
            assert(t.active(q));
            lemma_offsets_after_pass(t, q);
            assert(t.matched(q));
        }
    } else {
        if action is Raise {
            lemma_previous_is_last(p, n);
            assert(a.turns_left() == n - 1);
            assert forall|q: int|
                #[trigger] a.active(q) && a.offset(q) > a.turns_left() implies a.matched(q) by {
                lemma_offsets_after_pass(t, q);
            }
        } else {
            assert forall|q: int|
                #[trigger] a.active(q) && a.offset(q) > a.turns_left() implies a.matched(q) by {
                assert(t.active(q));
                lemma_offsets_after_pass(t, q);
                assert(t.matched(q));
            }
        }
        lemma_pass_in_order(a);
    }
}

/// What an accepted action does to the bets: the highest bet stays unless
/// the action is a raise; the bets of the other seats stay; the seat that
/// acted has matched the highest bet afterwards or cannot act any more,
/// unless it checked without having matched, which it is not offered.
pub proof fn lemma_action_effect(t: Table, action: Action)
    requires
        t.in_play(),
        t.accepts(action),
    ensures
        ({
            let a = t.acted(action);
            let p = t.current_player;
            &&& a.in_hand()
            &&& a.top_bet_stands()
            &&& a.current_player == p
            &&& t.active(p)
            &&& a.active(p) ==> a.matched(p)
            &&& forall|q: int| #[trigger] a.active(q) ==> t.active(q)
            &&& action is Raise ==> forall|q: int|
                0 <= q < t.seats() ==> (#[trigger] a.matched(q) <==> q == p)
            &&& action is Raise ==> !a.closes_here() && a.last_aggressor == previous_seat(
                p,
                t.seats(),
            )
            &&& !(action is Raise) ==> a.last_aggressor == t.last_aggressor && forall|q: int|
                0 <= q < t.seats() && q != p ==> (#[trigger] a.matched(q) <==> t.matched(q))
        }),
{
    let a = t.acted(action);
    let p = t.current_player;
    let n = t.seats();
    lemma_offers_within_means(t, p, action);
    lemma_action_in_hand(t, action);
    lemma_highest_upto(t.bets, t.bets.len());
    let j = choose|j: int| 0 <= j < t.seats() && !t.folded[j] && #[trigger] t.matched(j);
    match action {
        Action::Fold => {
            if j == p {
                let q = choose|q: int|
                    0 <= q < t.seats() && q != p && !(#[trigger] t.folded[q] || t.all_in[q]);
                assert(t.active(q) && t.active(p));
                lemma_offsets_after_pass(t, q);
                lemma_offsets_after_pass(t, p);
                assert(t.matched(q));
                assert(a.matched(q) && !a.folded[q]);
            } else {
                assert(a.matched(j) && !a.folded[j]);
            }
        },
        Action::Check => {
            assert(a.matched(j));
        },
        Action::Call(x) => {
            lemma_highest_after_bet(t.bets, p, x as int);
            assert(a.matched(j) && !a.folded[j]);
        },
        Action::Raise(x) => {
            lemma_highest_after_bet(t.bets, p, x as int);
            assert(a.matched(p) && !a.folded[p]);
            let q = choose|q: int|
                0 <= q < t.seats() && q != p && !(#[trigger] t.folded[q] || t.all_in[q]);
            lemma_one_contender_not(a, p, q);
            lemma_previous_is_last(p, n);
        },
    }
}

/// Where two seats have not folded, it is not so that all but one have.
pub proof fn lemma_one_contender_not(t: Table, a: int, b: int)
    requires
        t.folded.len() == t.seats(),
        0 <= a < t.seats(),
        0 <= b < t.seats(),
        a != b,
        !t.folded[a],
        !t.folded[b],
    ensures
        count_true(t.folded) != t.seats() - 1,
{
    if count_true(t.folded) == t.seats() - 1 {
        lemma_one_contender(t, a, b);
    }
}

/// An accepted action keeps a hand played by the rules so; and where it
/// closes the round, the betting is even.
pub proof fn lemma_action_in_play(t: Table, action: Action)
    requires
        t.in_play(),
        t.accepts(action),
    ensures
        t.after_action(action).in_play(),
        t.acted(action).closes_here() ==> t.after_action(action).all_matched(),
{
    let a = t.acted(action);
    let p = t.current_player;
    let n = t.seats();
    lemma_action_effect(t, action);
    if a.closes_here() {
        assert forall|i: int| #[trigger] a.active(i) implies a.matched(i) by {
            assert(t.active(i));
            if count_true(a.folded) == n - 1 {
                let j = choose|j: int| 0 <= j < a.seats() && !a.folded[j] && #[trigger] a.matched(j);
                lemma_one_contender(a, i, j);
            } else if i != p {
                lemma_offsets_after_pass(t, i);
                assert(t.turns_left() == 0);
                assert(t.matched(i));
            }
        }
        lemma_even_betting_in_play(a);
    } else {
        if action is Raise {
            lemma_previous_is_last(p, n);
            assert(a.turns_left() == n - 1);
            assert forall|q: int|
                #[trigger] a.active(q) && a.offset(q) > a.turns_left() implies a.matched(q) by {
                lemma_offsets_after_pass(t, q);
            }
        } else {
            assert forall|q: int|
                #[trigger] a.active(q) && a.offset(q) > a.turns_left() implies a.matched(q) by {
                assert(t.active(q));
                lemma_offsets_after_pass(t, q);
                assert(t.matched(q));
            }
            assert forall|u: int, q: int|
                #[trigger] a.active(u) && #[trigger] a.active(q) && u != a.current_player
                    && a.offset(u) < a.offset(q) && a.matched(u) implies a.matched(q) by {
                assert(t.active(u) && t.active(q));
                lemma_offsets_after_pass(t, u);
                lemma_offsets_after_pass(t, q);
                assert(q != p);
                assert(t.matched(u));
                assert(t.matched(q));
            }
        }
        lemma_pass_in_play(a);
    }
}

/// Opening a betting round keeps a hand played by the rules so.
pub proof fn lemma_begin_round_in_play(t: Table)
    requires
        t.in_play(),
    ensures
        (Table { last_aggressor: previous_seat(t.current_player, t.seats()), ..t }).in_play(),
{
    let opened = Table { last_aggressor: previous_seat(t.current_player, t.seats()), ..t };
    lemma_previous_is_last(t.current_player, t.seats());
    assert(opened.pool() == t.pool());
    let j = choose|j: int| 0 <= j < t.seats() && !t.folded[j] && #[trigger] t.matched(j);
    assert(opened.matched(j));
    assert forall|q: int|
        #[trigger] opened.active(q) && opened.offset(q) > opened.turns_left() implies opened.matched(
        q,
    ) by {
        lemma_offsets_after_pass(t, q);
    }
    assert forall|p: int, q: int|
        #[trigger] opened.active(p) && #[trigger] opened.active(q) && opened.offset(p)
            < opened.offset(q) && opened.matched(p) implies opened.matched(q) by {
        assert(t.active(p) && t.active(q));
        lemma_offsets_after_pass(t, p);
        lemma_offsets_after_pass(t, q);
        if t.offset(p) > t.turns_left() {
        }
    }
}

/// The next phase keeps a hand played by the rules so, where the betting is
/// even.
pub proof fn lemma_advanced_in_play(t: Table)
    requires
        t.in_play(),
        t.all_matched(),
        t.phase != Phase::Showdown,
        t.deck.len() >= t.cards_needed(),
    ensures
        t.advanced().in_play(),
        t.advanced().all_matched(),
{
    let a = t.advanced();
    lemma_advanced_in_hand(t);
    let j = choose|j: int| 0 <= j < t.seats() && !t.folded[j] && #[trigger] t.matched(j);
    assert(a.matched(j));
    assert forall|i: int| #[trigger] a.active(i) implies a.matched(i) by {
        assert(t.active(i));
    }
}

} // verus!
