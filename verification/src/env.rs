//! The engine: a table in machine integers and vectors, and the operations
//! that play a hand on it. Each operation states which rule of the table it
//! computes.

use crate::actions::{is_offered, Action, LegalAction, Phase, PokerError};
use crate::cards::{
    draw, lemma_shuffled_proper, new_shuffled, proper_deck, rank_cards, shuffled, Card, HandRank,
};
use crate::chips::{ints, lemma_total_bounds_entry, sum_chips, total};
use crate::invariants::{
    lemma_action_in_hand, lemma_advanced_in_hand, lemma_offers_within_means, lemma_opening_funded,
    lemma_reseated_funded, lemma_total_remove, lemma_turn_passed_in_hand, lemma_with_bet_in_hand,
};
use crate::pots::{build_pots, pot_views, pots_total, Pot};
use crate::protocol::{
    lemma_action_in_play, lemma_advanced_in_play, lemma_begin_round_in_play, lemma_dealt_in_play,
    lemma_halt_is_even, lemma_in_play_nothing_lost, lemma_sought_in_play,
};
use crate::settlement::{
    lemma_cards_of_rankable, lemma_count_negate, lemma_hand_chips, lemma_settled_seated,
    lemma_pots_awardable, lemma_settlement_conserves,
};
use crate::showdown::{
    award_pots, awardable, count_set, lemma_pots_total_prefix, payouts, turned,
};
use crate::table::{keep, negate};
use crate::table::{
    highest_bet, lemma_mod_range, lemma_next_seat_adds, seat_after, seat_before,
    Table,
};
use vstd::prelude::*;

verus! {

/// What the player on turn may see of the table: its own cards, and what is
/// open to all.
#[derive(Debug)]
pub struct Observation {
    pub player_cards: (Card, Card),
    pub community_cards: Vec<Card>,
    pub stacks: Vec<i32>,
    pub bets: Vec<i32>,
    pub phase: Phase,
    pub current_player: usize,
    pub folded: Vec<bool>,
    pub all_in: Vec<bool>,
}

/// How a hand was settled: its pots, what every seat took from them (by seat
/// as the seats were before anybody left), and the odd chips of the splits.
#[derive(Debug)]
pub struct Settlement {
    pub pots: Vec<Pot>,
    pub payouts: Vec<i32>,
    pub remainder: i32,
}

/// Adds up the chips of a list of pots.
pub fn sum_pots(pots: &Vec<Pot>) -> (sum: i32)
    requires
        forall|k: int| 0 <= k < pots@.len() ==> (#[trigger] pots@[k]).amount >= 0,
        pots_total(pot_views(pots@)) <= i32::MAX,
    ensures
        sum == pots_total(pot_views(pots@)),
{
    let ghost views = pot_views(pots@);
    let mut sum: i32 = 0;
    let mut k: usize = 0;
    proof {
        assert(views.take(0) =~= Seq::empty());
    }
    while k < pots.len()
        invariant
            k <= pots.len(),
            views == pot_views(pots@),
            forall|j: int| 0 <= j < views.len() ==> (#[trigger] views[j]).amount >= 0,
            pots_total(views) <= i32::MAX,
            sum == pots_total(views.take(k as int)),
        decreases pots.len() - k,
    {
        proof {
            assert(views.take(k as int + 1).drop_last() =~= views.take(k as int));
            assert(views.take(k as int + 1).last() == pots@[k as int]@);
            lemma_pots_total_prefix(views, k as int + 1);
        }
        sum = sum + pots[k].amount;
        k = k + 1;
    }
    proof {
        assert(views.take(pots.len() as int) =~= views);
    }
    sum
}

/// A poker table and the hand that is played on it.
pub struct PokerEnv {
    ids: Vec<usize>,
    dead_ids: Vec<usize>,
    small_blind: i32,
    big_blind: i32,
    max_raise: i32,
    initial_stack: i32,
    stacks: Vec<i32>,
    dealer_pos: usize,
    bets: Vec<i32>,
    folded: Vec<bool>,
    all_in: Vec<bool>,
    current_phase: Phase,
    current_player: usize,
    last_bet: usize,
    deck: Vec<Card>,
    player_cards: Vec<(Card, Card)>,
    community_cards: Vec<Card>,
}

impl View for PokerEnv {
    type V = Table;

    closed spec fn view(&self) -> Table {
        Table {
            ids: self.ids@,
            dead_ids: self.dead_ids@,
            small_blind: self.small_blind as int,
            big_blind: self.big_blind as int,
            initial_stack: self.initial_stack as int,
            min_raise: self.max_raise as int,
            stacks: ints(self.stacks@),
            bets: ints(self.bets@),
            folded: self.folded@,
            all_in: self.all_in@,
            hole_cards: self.player_cards@,
            community: self.community_cards@,
            deck: self.deck@,
            dealer_pos: self.dealer_pos as int,
            phase: self.current_phase,
            current_player: self.current_player as int,
            last_aggressor: self.last_bet as int,
        }
    }
}

/// At the seat that was sought, a decision is awaited or no seat is left to
/// ask; in the second case the betting of a hand played by the rules is even.
proof fn lemma_halt_or_ask(t: Table)
    requires
        t.in_play(),
        t.awaits_decision() || t.halts(),
    ensures
        !t.awaits_decision() ==> t.all_matched(),
{
    if !t.awaits_decision() {
        lemma_halt_is_even(t);
    }
}

impl PokerEnv {
    /// The table is funded: a hand can be dealt on it.
    pub open spec fn funded(&self) -> bool {
        self@.funded()
    }

    /// A hand is being played, and the table is in good order.
    pub open spec fn in_hand(&self) -> bool {
        self@.in_hand()
    }

    /// A hand is being played, and it has been played by the rules since it
    /// was dealt.
    pub open spec fn in_play(&self) -> bool {
        self@.in_play()
    }

    /// The number of players at the table.
    pub fn num_players(&self) -> (n: usize)
        ensures
            n == self@.seats(),
    {
        self.stacks.len()
    }

    /// Starts a new hand with the given deck, whose last card is dealt first.
    /// Fails, and changes nothing, when the deck holds fewer than two cards
    /// for every seat.
    pub fn reset_with_deck(&mut self, deck: Vec<Card>) -> (result: Result<(), PokerError>)
        requires
            old(self).funded(),
            old(self)@.seats() >= 1,
            proper_deck(deck@),
        ensures
            deck@.len() >= 2 * old(self)@.seats() ==> result is Ok && final(self)@ == old(self)@.dealt(
                deck@,
            ) && final(self).in_play(),
            deck@.len() < 2 * old(self)@.seats() ==> result == Err::<(), PokerError>(
                PokerError::DeckExhausted,
            ) && final(self)@ == old(self)@,
    {
        let n = self.stacks.len();
        if deck.len() / 2 < n {
            return Err(PokerError::DeckExhausted);
        }
        let ghost before = self@;
        let len = deck.len();
        let dealer = (self.dealer_pos + 1) % n;
        let small = seat_after(dealer, n);
        let big = seat_after(small, n);
        let first = seat_after(big, n);
        proof {
            lemma_mod_range(dealer as int + 1, n as int);
            lemma_next_seat_adds(dealer as int + 1, n as int);
            lemma_next_seat_adds(dealer as int + 2, n as int);
        }
        let mut bets: Vec<i32> = Vec::new();
        let mut folded: Vec<bool> = Vec::new();
        let mut all_in: Vec<bool> = Vec::new();
        let mut holes: Vec<(Card, Card)> = Vec::new();
        let mut i: usize = 0;
        while i < n
            invariant
                i <= n,
                2 * n <= len,
                len == deck.len(),
                bets.len() == i,
                folded.len() == i,
                all_in.len() == i,
                holes.len() == i,
                forall|j: int| 0 <= j < i ==> #[trigger] bets@[j] == 0,
                forall|j: int| 0 <= j < i ==> !#[trigger] folded@[j],
                forall|j: int| 0 <= j < i ==> !#[trigger] all_in@[j],
                forall|j: int|
                    0 <= j < i ==> #[trigger] holes@[j] == (
                        deck@[len - 1 - 2 * j],
                        deck@[len - 2 - 2 * j],
                    ),
            decreases n - i,
        {
            bets.push(0);
            folded.push(false);
            all_in.push(false);
            holes.push((deck[len - 1 - 2 * i], deck[len - 2 - 2 * i]));
            i = i + 1;
        }
        let mut rest = deck;
        rest.truncate(len - 2 * n);
        let small_bet = if self.small_blind < self.stacks[small] {
            self.small_blind
        } else {
            self.stacks[small]
        };
        bets[small] = small_bet;
        if self.stacks[small] - small_bet == 0 {
            all_in[small] = true;
        }
        let big_bet = if self.big_blind < self.stacks[big] {
            self.big_blind
        } else {
            self.stacks[big]
        };
        bets[big] = big_bet;
        if self.stacks[big] - big_bet == 0 {
            all_in[big] = true;
        }
        self.max_raise = highest_bet(&bets);
        self.bets = bets;
        self.folded = folded;
        self.all_in = all_in;
        self.player_cards = holes;
        self.community_cards = Vec::new();
        self.deck = rest;
        self.current_phase = Phase::Preflop;
        self.dealer_pos = dealer;
        self.current_player = first;
        self.last_bet = seat_before(first, n);
        proof {
            let goal = before.dealt(deck@);
            assert(self@.bets =~= goal.bets);
            assert(self@.folded =~= goal.folded);
            assert(self@.all_in =~= goal.all_in);
            assert(self@.hole_cards =~= goal.hole_cards);
            assert(self@.community =~= goal.community);
            assert(self@.deck =~= goal.deck);
            assert(self@.stacks =~= goal.stacks);
            assert(self@ =~= goal);
            lemma_dealt_in_play(before, deck@);
        }
        Ok(())
    }

    /// The stack of every seat. A stack includes what its player has wagered
    /// in the running hand.
    pub fn stacks(&self) -> (stacks: &Vec<i32>)
        ensures
            ints(stacks@) == self@.stacks,
    {
        &self.stacks
    }

    /// The bet of every seat in the running hand.
    pub fn bets(&self) -> (bets: &Vec<i32>)
        ensures
            ints(bets@) == self@.bets,
    {
        &self.bets
    }

    /// For every seat, whether it has folded.
    pub fn folded(&self) -> (folded: &Vec<bool>)
        ensures
            folded@ == self@.folded,
    {
        &self.folded
    }

    /// For every seat, whether it is all-in.
    pub fn all_in(&self) -> (all_in: &Vec<bool>)
        ensures
            all_in@ == self@.all_in,
    {
        &self.all_in
    }

    /// Who sits at each seat.
    pub fn ids(&self) -> (ids: &Vec<usize>)
        ensures
            ids@ == self@.ids,
    {
        &self.ids
    }

    /// The eliminated players, in the order in which they left.
    pub fn dead_ids(&self) -> (ids: &Vec<usize>)
        ensures
            ids@ == self@.dead_ids,
    {
        &self.dead_ids
    }

    /// The hole cards of every seat.
    pub fn player_cards(&self) -> (cards: &Vec<(Card, Card)>)
        ensures
            cards@ == self@.hole_cards,
    {
        &self.player_cards
    }

    /// The community cards on the table.
    pub fn community_cards(&self) -> (cards: &Vec<Card>)
        ensures
            cards@ == self@.community,
    {
        &self.community_cards
    }

    /// The cards not dealt yet; the last one is dealt next.
    pub fn deck(&self) -> (cards: &Vec<Card>)
        ensures
            cards@ == self@.deck,
    {
        &self.deck
    }

    /// The seat of the dealer.
    pub fn dealer_pos(&self) -> (seat: usize)
        ensures
            seat == self@.dealer_pos,
    {
        self.dealer_pos
    }

    /// The seat on turn.
    pub fn current_player(&self) -> (seat: usize)
        ensures
            seat == self@.current_player,
    {
        self.current_player
    }

    /// The phase of the hand.
    pub fn current_phase(&self) -> (phase: Phase)
        ensures
            phase == self@.phase,
    {
        self.current_phase
    }

    /// The minimum-raise floor.
    pub fn max_raise(&self) -> (floor: i32)
        ensures
            floor == self@.min_raise,
    {
        self.max_raise
    }

    /// The small blind.
    pub fn small_blind(&self) -> (blind: i32)
        ensures
            blind == self@.small_blind,
    {
        self.small_blind
    }

    /// The big blind.
    pub fn big_blind(&self) -> (blind: i32)
        ensures
            blind == self@.big_blind,
    {
        self.big_blind
    }

    /// The stack that every player starts with.
    pub fn initial_stack(&self) -> (stack: i32)
        ensures
            stack == self@.initial_stack,
    {
        self.initial_stack
    }

    /// Sets the bet of a seat that has not folded to `amount`, which is at
    /// least its bet so far and at most its stack. The seat is all-in when
    /// that is its whole stack.
    pub fn apply_bet(&mut self, player: usize, amount: i32)
        requires
            old(self).in_hand(),
            player < old(self)@.seats(),
            !old(self)@.folded[player as int],
            old(self)@.bets[player as int] <= amount <= old(self)@.stacks[player as int],
        ensures
            final(self)@ == old(self)@.with_bet(player as int, amount as int),
            final(self).in_hand(),
    {
        let ghost before = self@;
        self.bets[player] = amount;
        if self.stacks[player] - self.bets[player] == 0 {
            self.all_in[player] = true;
        }
        proof {
            let goal = before.with_bet(player as int, amount as int);
            assert(self@.bets =~= goal.bets);
            assert(self@.all_in =~= goal.all_in);
            assert(self@ =~= goal);
            lemma_with_bet_in_hand(before, player as int, amount as int);
        }
    }

    /// Whether every seat but `p` has folded or is all-in.
    fn others_inactive(&self, p: usize) -> (yes: bool)
        requires
            self.in_hand(),
        ensures
            yes == self@.others_inactive(p as int),
    {
        let mut i: usize = 0;
        while i < self.stacks.len()
            invariant
                i <= self.stacks.len(),
                self.in_hand(),
                forall|j: int|
                    0 <= j < i && j != p ==> #[trigger] self@.folded[j] || self@.all_in[j],
            decreases self.stacks.len() - i,
        {
            if i != p && !self.folded[i] && !self.all_in[i] {
                return false;
            }
            i = i + 1;
        }
        true
    }

    /// What the player on turn is offered. Whether that player has folded is
    /// not looked at here: a folded player is never asked, and no action is
    /// taken from it.
    pub fn get_available_actions(&self) -> (legal: Vec<LegalAction>)
        requires
            self.in_hand(),
        ensures
            legal@ == self@.legal_actions(self@.current_player),
    {
        let p = self.current_player;
        let mut actions: Vec<LegalAction> = Vec::new();
        let current_bet = self.bets[p];
        let current_stack = self.stacks[p];
        let max_bet = highest_bet(&self.bets);
        proof {
            crate::table::lemma_highest_upto(self@.bets, self@.bets.len());
        }
        if self.all_in[p] {
            proof {
                assert(actions@ =~= self@.legal_actions(p as int));
            }
            return actions;
        }
        let call_amount = if max_bet < current_stack {
            max_bet
        } else {
            current_stack
        };
        if self.others_inactive(p) {
            if current_bet != max_bet {
                actions.push(LegalAction::Call(call_amount));
            }
            proof {
                assert(actions@ =~= self@.legal_actions(p as int));
            }
            return actions;
        }
        actions.push(LegalAction::Fold);
        if current_bet == max_bet {
            actions.push(LegalAction::Check);
        } else {
            actions.push(LegalAction::Call(call_amount));
        }
        if current_stack > max_bet {
            if current_stack - max_bet >= max_bet {
                actions.push(LegalAction::Raise(max_bet + self.max_raise, current_stack));
            } else {
                actions.push(LegalAction::Raise(current_stack, current_stack));
            }
        }
        proof {
            assert(actions@ =~= self@.legal_actions(p as int));
        }
        actions
    }

    /// What the player on turn may see of the table.
    pub fn get_state(&self) -> (state: Observation)
        requires
            self.in_hand(),
        ensures
            state.player_cards == self@.hole_cards[self@.current_player],
            state.community_cards@ == self@.community,
            ints(state.stacks@) == self@.stacks,
            ints(state.bets@) == self@.bets,
            state.phase == self@.phase,
            state.current_player == self@.current_player,
            state.folded@ == self@.folded,
            state.all_in@ == self@.all_in,
    {
        Observation {
            player_cards: self.player_cards[self.current_player],
            community_cards: self.community_cards.clone(),
            stacks: self.stacks.clone(),
            bets: self.bets.clone(),
            phase: self.current_phase,
            current_player: self.current_player,
            folded: self.folded.clone(),
            all_in: self.all_in.clone(),
        }
    }

    /// Moves the hand to its next phase and deals the cards of that phase.
    /// Fails, and changes nothing, at showdown and where the deck lacks the
    /// cards.
    pub fn advance_phase(&mut self) -> (result: Result<(), PokerError>)
        requires
            old(self).in_hand(),
        ensures
            old(self)@.phase == Phase::Showdown ==> result == Err::<(), PokerError>(
                PokerError::PhaseError,
            ),
            old(self)@.phase != Phase::Showdown && old(self)@.deck.len() < old(self)@.cards_needed() ==> result == Err::<(), PokerError>(PokerError::DeckExhausted),
            old(self)@.phase != Phase::Showdown && old(self)@.deck.len() >= old(self)@.cards_needed() ==> result is Ok,
            result is Ok ==> final(self)@ == old(self)@.advanced(),
            result is Err ==> final(self)@ == old(self)@,
            final(self).in_hand(),
            old(self).in_play() && old(self)@.all_matched() ==> final(self).in_play() && final(self)@.all_matched(),
    {
        let ghost before = self@;
        let (needed, next): (usize, Phase) = match self.current_phase {
            Phase::Preflop => (3, Phase::Flop),
            Phase::Flop => (1, Phase::Turn),
            Phase::Turn => (1, Phase::River),
            Phase::River => (0, Phase::Showdown),
            Phase::Showdown => {
                return Err(PokerError::PhaseError);
            },
        };
        let mut cards = match draw(&mut self.deck, needed) {
            Ok(cards) => cards,
            Err(e) => {
                proof {
                    assert(self@ =~= before);
                }
                return Err(e);
            },
        };
        self.community_cards.append(&mut cards);
        if next != Phase::Showdown {
            self.current_player = seat_after(self.dealer_pos, self.stacks.len());
        }
        self.current_phase = next;
        proof {
            assert(self@ =~= before.advanced());
            lemma_advanced_in_hand(before);
            if before.in_play() && before.all_matched() {
                lemma_advanced_in_play(before);
            }
        }
        Ok(())
    }

    /// Removes the player at a seat from the table and puts it among the
    /// eliminated.
    pub fn kill(&mut self, player: usize)
        requires
            old(self)@.seated(),
            player < old(self)@.seats(),
        ensures
            final(self)@ == old(self)@.without_seat(player as int),
            final(self)@.seated(),
    {
        let ghost before = self@;
        self.stacks.remove(player);
        self.bets.remove(player);
        let id = self.ids.remove(player);
        self.dead_ids.push(id);
        self.folded.remove(player);
        self.all_in.remove(player);
        self.player_cards.remove(player);
        proof {
            let goal = before.without_seat(player as int);
            assert(self@.stacks =~= goal.stacks);
            assert(self@.bets =~= goal.bets);
            assert(self@ =~= goal);
            lemma_total_remove(before.stacks, player as int);
            crate::invariants::lemma_without_seat_players(before, player as int);
        }
    }

    /// Opens a betting round: the round will close at the seat before the
    /// player on turn, once everybody has had a turn.
    pub fn begin_round(&mut self)
        requires
            old(self).in_hand(),
        ensures
            final(self)@ == old(self)@.round_opened(),
            final(self).in_hand(),
            final(self)@.round_in_order(),
            old(self).in_play() ==> final(self).in_play(),
    {
        let ghost before = self@;
        self.last_bet = seat_before(self.current_player, self.stacks.len());
        proof {
            assert(self@.pool() == before.pool());
            crate::protocol::lemma_opened_in_order(before);
            if before.in_play() {
                lemma_begin_round_in_play(before);
            }
        }
    }

    /// Whether the round is closed once the player on turn has had its turn.
    fn closes_here(&self) -> (yes: bool)
        requires
            self.in_hand(),
        ensures
            yes == self@.closes_here(),
    {
        let folded = count_set(&self.folded);
        folded == self.stacks.len() - 1 || self.last_bet == self.current_player
    }

    /// Moves the turn on to the first seat that has to decide, and returns
    /// what that seat is offered; or to the seat at which the round ends, and
    /// returns nothing.
    pub fn next_decision(&mut self) -> (request: Option<Vec<LegalAction>>)
        requires
            old(self).in_hand(),
        ensures
            final(self)@ == old(self)@.sought(),
            final(self).in_hand(),
            old(self).in_play() ==> final(self).in_play(),
            old(self).in_play() && request is None ==> final(self)@.all_matched(),
            old(self)@.round_in_order() ==> final(self)@.round_in_order(),
            old(self)@.round_in_order() && request is None ==> final(self)@.betting_settled(),
            match request {
                Some(legal) => final(self)@.awaits_decision() && legal@ == final(self)@.legal_actions(final(self)@.current_player),
                None => !final(self)@.awaits_decision() && final(self)@.halts(),
            },
    {
        let ghost before = self@;
        let n = self.stacks.len();
        proof {
            crate::invariants::lemma_sought_in_hand(before);
            if before.in_play() {
                lemma_sought_in_play(before);
                lemma_halt_or_ask(before.sought());
            }
            if before.round_in_order() {
                crate::protocol::lemma_sought_in_order(before);
                if !before.sought().awaits_decision() {
                    crate::protocol::lemma_halt_is_settled(before.sought());
                }
            }
        }
        loop
            invariant
                self.in_hand(),
                before.in_hand(),
                before == old(self)@,
                before.in_play() ==> before.sought().in_play(),
                before.in_play() && !before.sought().awaits_decision() ==> before.sought().all_matched(),
                before.round_in_order() ==> before.sought().round_in_order(),
                before.round_in_order() && !before.sought().awaits_decision()
                    ==> before.sought().betting_settled(),
                n == self@.seats(),
                self@.sought() == before.sought(),
            decreases self@.turns_left(),
        {
            let p = self.current_player;
            let ghost here = self@;
            if self.folded[p] {
                if self.last_bet == p {
                    assert(here.sought() == here);
                    return None;
                }
            } else {
                let legal = self.get_available_actions();
                if legal.len() > 0 {
                    assert(here.sought() == here);
                    return Some(legal);
                }
                if !self.all_in[p] {
                    assert(here.sought() == here);
                    return None;
                }
                if self.closes_here() {
                    assert(here.sought() == here);
                    return None;
                }
            }
            proof {
                here.lemma_pass_moves_closer();
                lemma_turn_passed_in_hand(here);
                assert(here.sought() == here.turn_passed().sought());
            }
            self.current_player = seat_after(p, n);
            proof {
                assert(self@ =~= here.turn_passed());
            }
        }
    }

    /// Takes the action of the player on turn. An action that is not among
    /// those offered is refused, and nothing changes. Otherwise the action is
    /// applied and the turn passes on, unless the round is closed. Returns
    /// whether the round goes on.
    pub fn apply_action(&mut self, action: Action) -> (result: Result<bool, PokerError>)
        requires
            old(self).in_hand(),
        ensures
            final(self).in_hand(),
            old(self).in_play() ==> final(self).in_play(),
            old(self).in_play() && result == Ok::<bool, PokerError>(false) ==> final(self)@.all_matched(),
            old(self)@.round_in_order() ==> final(self)@.round_in_order(),
            old(self)@.round_in_order() && result == Ok::<bool, PokerError>(false) ==> final(self)@.betting_settled(),
            !old(self)@.accepts(action) ==> result == Err::<bool, PokerError>(
                PokerError::InvalidAction,
            ) && final(self)@ == old(self)@,
            old(self)@.accepts(action) ==> result == Ok::<bool, PokerError>(
                !old(self)@.acted(action).closes_here(),
            ) && final(self)@ == old(self)@.after_action(action),
    {
        let ghost before = self@;
        let legal = self.get_available_actions();
        let p = self.current_player;
        if self.folded[p] || !is_offered(&legal, &action) {
            return Err(PokerError::InvalidAction);
        }
        let n = self.stacks.len();
        proof {
            lemma_offers_within_means(before, p as int, action);
            lemma_action_in_hand(before, action);
            if before.in_play() {
                lemma_action_in_play(before, action);
            }
            if before.round_in_order() {
                crate::protocol::lemma_action_in_order(before, action);
            }
        }
        match action {
            Action::Fold => {
                self.folded[p] = true;
            },
            Action::Check => {},
            Action::Call(amount) => {
                self.apply_bet(p, amount);
            },
            Action::Raise(amount) => {
                let raise_amount = amount - highest_bet(&self.bets);
                self.apply_bet(p, amount);
                if raise_amount > self.max_raise {
                    self.max_raise = raise_amount;
                }
                self.last_bet = seat_before(p, n);
            },
        }
        proof {
            assert(self@ =~= before.acted(action));
        }
        if self.closes_here() {
            return Ok(false);
        }
        self.current_player = seat_after(p, n);
        proof {
            assert(self@ =~= before.after_action(action));
        }
        Ok(true)
    }

    /// Settles the hand with the given rank for every seat: awards the pots,
    /// takes the bets out of the stacks, and removes the players that have no
    /// chips left. Where one seat alone has not folded, it takes all that was
    /// wagered, whatever the ranks. Fails, and changes nothing, where several
    /// seats have not folded and folded seats have wagered chips that no pot
    /// holds: those chips would be lost.
    pub fn settle(&mut self, ranks: &Vec<HandRank>) -> (result: Result<Settlement, PokerError>)
        requires
            old(self).in_hand(),
            ranks@.len() == old(self)@.seats(),
        ensures
            old(self)@.chips_lost() != 0 ==> result is Err && result->Err_0
                == PokerError::ChipConservationViolation && final(self)@ == old(self)@,
            old(self).in_play() ==> result is Ok,
            old(self)@.lone_contender() ==> result is Ok,
            old(self)@.chips_lost() == 0 ==> result is Ok && final(self)@ == old(self)@.settled(
                ranks@,
            ) && final(self)@.seated(),
            result matches Ok(done) ==> {
                &&& pot_views(done.pots@) == old(self)@.pots()
                &&& ints(done.payouts@) == payouts(
                    old(self)@.pots(),
                    ranks@,
                    old(self)@.seats() as nat,
                )
                &&& done.remainder == old(self)@.odd_chips(ranks@)
                &&& total(final(self)@.stacks) + done.remainder == total(old(self)@.stacks)
                &&& final(self)@.seats() + final(self)@.dead_ids.len() == old(self)@.seats() + old(self)@.dead_ids.len()
                &&& final(self)@.seats() <= old(self)@.seats()
                &&& done.remainder >= 0
            },
    {
        let ghost before = self@;
        let n = self.stacks.len();
        proof {
            if before.in_play() {
                lemma_in_play_nothing_lost(before);
            }
            lemma_hand_chips(before);
            lemma_pots_awardable(before);
            lemma_settlement_conserves(before, ranks@);
            lemma_count_negate(before.folded, n as nat);
            crate::showdown::lemma_count_true_bounded(before.folded, n as nat);
            assert(negate(before.folded).len() == n);
        }
        let wagered = sum_chips(&self.bets);
        let folded_seats = count_set(&self.folded);
        let pots = if n - folded_seats == 1 {
            let mut one: Vec<Pot> = Vec::new();
            one.push(Pot { amount: wagered, eligible: turned(&self.folded) });
            proof {
                assert(pot_views(one@) =~= before.pots());
            }
            one
        } else {
            build_pots(&self.bets, &self.folded)
        };
        proof {
            assert forall|k: int| 0 <= k < pots@.len() implies (#[trigger] pots@[k]).amount >= 0 by {
                assert(awardable(pot_views(pots@)[k], n as nat));
            }
        }
        let held = sum_pots(&pots);
        if wagered != held {
            return Err(PokerError::ChipConservationViolation);
        }
        let (gains, rest) = award_pots(&pots, ranks);
        let ghost target = before.settled_stacks(ranks@);
        let ghost stay = before.survivors(ranks@);
        proof {
            lemma_settled_seated(before, ranks@);
            crate::showdown::lemma_payouts_conserved(before.pots(), ranks@, n as nat);
            assert(ints(gains@).len() == n);
            assert forall|i: int| 0 <= i < n implies 0 <= #[trigger] target[i] <= i32::MAX by {
                lemma_total_bounds_entry(target, i);
            }
        }
        let mut ids: Vec<usize> = Vec::new();
        let mut dead: Vec<usize> = Vec::new();
        let mut stacks: Vec<i32> = Vec::new();
        let mut bets: Vec<i32> = Vec::new();
        let mut folded: Vec<bool> = Vec::new();
        let mut all_in: Vec<bool> = Vec::new();
        let mut holes: Vec<(Card, Card)> = Vec::new();
        let mut i: usize = 0;
        proof {
            assert(before.stacks.take(0) =~= Seq::<int>::empty());
        }
        while i < n
            invariant
                i <= n,
                self@ == before,
                before.in_hand(),
                n == before.seats(),
                gains.len() == n,
                target == before.settled_stacks(ranks@),
                stay == before.survivors(ranks@),
                ints(gains@) == payouts(before.pots(), ranks@, n as nat),
                forall|j: int| 0 <= j < n ==> 0 <= #[trigger] target[j] <= i32::MAX,
                ids@ == keep(before.ids.take(i as int), stay),
                dead@ == keep(before.ids.take(i as int), negate(stay)),
                ints(stacks@) == keep(target.take(i as int), stay),
                ints(bets@) == keep(before.bets.take(i as int), stay),
                folded@ == keep(before.folded.take(i as int), stay),
                all_in@ == keep(before.all_in.take(i as int), stay),
                holes@ == keep(before.hole_cards.take(i as int), stay),
            decreases n - i,
        {
            proof {
                assert(target[i as int] == before.stacks[i as int] - before.bets[i as int] + ints(
                    gains@,
                )[i as int]);
                assert(before.bets[i as int] <= before.stacks[i as int]);
                assert(before.ids.take(i + 1).drop_last() =~= before.ids.take(i as int));
                assert(target.take(i + 1).drop_last() =~= target.take(i as int));
                assert(before.bets.take(i + 1).drop_last() =~= before.bets.take(i as int));
                assert(before.folded.take(i + 1).drop_last() =~= before.folded.take(i as int));
                assert(before.all_in.take(i + 1).drop_last() =~= before.all_in.take(i as int));
                assert(before.hole_cards.take(i + 1).drop_last() =~= before.hole_cards.take(
                    i as int,
                ));
            }
            let ghost stacks_before = ints(stacks@);
            let ghost bets_before = ints(bets@);
            let left = self.stacks[i] - self.bets[i] + gains[i];
            if left != 0 {
                ids.push(self.ids[i]);
                stacks.push(left);
                bets.push(self.bets[i]);
                folded.push(self.folded[i]);
                all_in.push(self.all_in[i]);
                holes.push(self.player_cards[i]);
                proof {
                    assert(ints(stacks@) =~= stacks_before.push(left as int));
                    assert(ints(bets@) =~= bets_before.push(before.bets[i as int]));
                }
            } else {
                dead.push(self.ids[i]);
            }
            i = i + 1;
        }
        proof {
            assert(before.ids.take(n as int) =~= before.ids);
            assert(target.take(n as int) =~= target);
            assert(before.bets.take(n as int) =~= before.bets);
            assert(before.folded.take(n as int) =~= before.folded);
            assert(before.all_in.take(n as int) =~= before.all_in);
            assert(before.hole_cards.take(n as int) =~= before.hole_cards);
        }
        self.ids = ids;
        self.dead_ids.append(&mut dead);
        self.stacks = stacks;
        self.bets = bets;
        self.folded = folded;
        self.all_in = all_in;
        self.player_cards = holes;
        proof {
            assert(self@ =~= before.settled(ranks@));
        }
        Ok(Settlement { pots, payouts: gains, remainder: rest })
    }

    /// The seven cards that a seat plays at showdown.
    fn seven_cards(&self, seat: usize) -> (cards: Vec<Card>)
        requires
            self.in_hand(),
            seat < self@.seats(),
        ensures
            cards@ == self@.cards_of(seat as int),
    {
        let mut cards = self.community_cards.clone();
        cards.push(self.player_cards[seat].0);
        cards.push(self.player_cards[seat].1);
        cards
    }

    /// Ranks the seats for the showdown: every seat that has not folded is
    /// ranked by its seven cards; a folded seat is not ranked, and nobody is
    /// where one seat alone has not folded.
    pub fn showdown_ranks(&self) -> (ranks: Vec<HandRank>)
        requires
            self.in_hand(),
            self@.phase == Phase::Showdown || self@.lone_contender(),
        ensures
            ranks@ == self@.showdown_ranks(),
    {
        let n = self.stacks.len();
        let folded_seats = count_set(&self.folded);
        proof {
            crate::showdown::lemma_count_true_bounded(self@.folded, n as nat);
        }
        let lone = n - folded_seats == 1;
        proof {
            lemma_count_negate(self@.folded, n as nat);
            assert(negate(self@.folded).len() == n);
        }
        let mut ranks: Vec<HandRank> = Vec::new();
        let mut i: usize = 0;
        while i < n
            invariant
                i <= n,
                n == self@.seats(),
                self.in_hand(),
                self@.phase == Phase::Showdown || self@.lone_contender(),
                lone == self@.lone_contender(),
                ranks.len() == i,
                ranks@ == self@.showdown_ranks().take(i as int),
            decreases n - i,
        {
            let rank = if self.folded[i] || lone {
                HandRank::HighCard(0)
            } else {
                let cards = self.seven_cards(i);
                proof {
                    lemma_cards_of_rankable(self@, i as int);
                }
                rank_cards(&cards)
            };
            ranks.push(rank);
            i = i + 1;
            proof {
                assert(ranks@ =~= self@.showdown_ranks().take(i as int));
            }
        }
        proof {
            assert(ranks@ =~= self@.showdown_ranks());
        }
        ranks
    }

    /// Determines the winners and concludes the hand: at showdown every seat
    /// that has not folded is ranked by its seven cards; where one seat alone
    /// has not folded, nobody is ranked, and that seat takes all that was
    /// wagered, in whatever phase the hand is. The hand is then settled with
    /// those ranks. A hand that all seats but one have folded, and a hand
    /// played by the rules, never fail.
    pub fn resolution(&mut self) -> (result: Result<Settlement, PokerError>)
        requires
            old(self).in_hand(),
            old(self)@.phase == Phase::Showdown || old(self)@.lone_contender(),
        ensures
            old(self)@.chips_lost() != 0 ==> result is Err && result->Err_0
                == PokerError::ChipConservationViolation && final(self)@ == old(self)@,
            old(self).in_play() ==> result is Ok,
            old(self)@.lone_contender() ==> result is Ok,
            old(self)@.chips_lost() == 0 ==> result is Ok && final(self)@ == old(self)@.settled(
                old(self)@.showdown_ranks(),
            ) && final(self)@.seated(),
            result matches Ok(done) ==> {
                &&& pot_views(done.pots@) == old(self)@.pots()
                &&& ints(done.payouts@) == payouts(
                    old(self)@.pots(),
                    old(self)@.showdown_ranks(),
                    old(self)@.seats() as nat,
                )
                &&& done.remainder == old(self)@.odd_chips(old(self)@.showdown_ranks())
                &&& total(final(self)@.stacks) + done.remainder == total(old(self)@.stacks)
                &&& final(self)@.seats() + final(self)@.dead_ids.len() == old(self)@.seats() + old(self)@.dead_ids.len()
                &&& final(self)@.seats() <= old(self)@.seats()
                &&& done.remainder >= 0
            },
    {
        let ranks = self.showdown_ranks();
        self.settle(&ranks)
    }

    /// Sets up a table of `num_players` players, each with the initial
    /// stack, and deals the first hand from the given deck. Fails when the
    /// deck holds fewer than two cards for every player.
    pub fn new_with_deck(
        num_players: usize,
        small_blind: i32,
        big_blind: i32,
        initial_stack: i32,
        deck: Vec<Card>,
    ) -> (result: Result<PokerEnv, PokerError>)
        requires
            num_players >= 1,
            1 <= small_blind <= big_blind,
            1 <= initial_stack,
            num_players * initial_stack <= i32::MAX,
            proper_deck(deck@),
        ensures
            deck@.len() < 2 * num_players ==> result is Err && result->Err_0
                == PokerError::DeckExhausted,
            deck@.len() >= 2 * num_players ==> result is Ok && result->Ok_0@ == Table::opening(
                num_players as nat,
                small_blind as int,
                big_blind as int,
                initial_stack as int,
            ).dealt(deck@) && result->Ok_0.in_play(),
    {
        let mut ids: Vec<usize> = Vec::new();
        let mut stacks: Vec<i32> = Vec::new();
        let mut i: usize = 0;
        while i < num_players
            invariant
                i <= num_players,
                ids.len() == i,
                stacks.len() == i,
                forall|j: int| 0 <= j < i ==> #[trigger] ids@[j] == j,
                forall|j: int| 0 <= j < i ==> #[trigger] stacks@[j] == initial_stack,
            decreases num_players - i,
        {
            ids.push(i);
            stacks.push(initial_stack);
            i = i + 1;
        }
        let mut env = PokerEnv {
            ids,
            dead_ids: Vec::new(),
            small_blind,
            big_blind,
            max_raise: 0,
            initial_stack,
            stacks,
            dealer_pos: 0,
            bets: Vec::new(),
            folded: Vec::new(),
            all_in: Vec::new(),
            current_phase: Phase::Preflop,
            current_player: 0,
            last_bet: 0,
            deck: Vec::new(),
            player_cards: Vec::new(),
            community_cards: Vec::new(),
        };
        proof {
            let opening = Table::opening(
                num_players as nat,
                small_blind as int,
                big_blind as int,
                initial_stack as int,
            );
            assert(env@ =~= opening);
            lemma_opening_funded(
                num_players as nat,
                small_blind as int,
                big_blind as int,
                initial_stack as int,
            );
            assert(num_players < usize::MAX) by {
                assert(num_players <= num_players * initial_stack) by (nonlinear_arith)
                    requires
                        initial_stack >= 1,
                ;
            }
        }
        match env.reset_with_deck(deck) {
            Ok(()) => Ok(env),
            Err(e) => Err(e),
        }
    }

    /// Sets up a table of `num_players` players, each with the initial
    /// stack, and deals the first hand from a freshly shuffled deck. Fails
    /// when 52 cards are not two for every player.
    pub fn new(num_players: usize, small_blind: i32, big_blind: i32, initial_stack: i32) -> (result:
        Result<PokerEnv, PokerError>)
        requires
            num_players >= 1,
            1 <= small_blind <= big_blind,
            1 <= initial_stack,
            num_players * initial_stack <= i32::MAX,
        ensures
            num_players > 26 ==> result is Err && result->Err_0 == PokerError::DeckExhausted,
            num_players <= 26 ==> result is Ok && result->Ok_0.in_play() && exists|deck: Seq<Card>|
                shuffled(deck) && result->Ok_0@ == #[trigger] Table::opening(
                    num_players as nat,
                    small_blind as int,
                    big_blind as int,
                    initial_stack as int,
                ).dealt(deck),
    {
        let deck = new_shuffled();
        proof {
            lemma_shuffled_proper(deck@);
        }
        Self::new_with_deck(num_players, small_blind, big_blind, initial_stack, deck)
    }

    /// Starts a new hand with a freshly shuffled deck. Fails, and changes
    /// nothing, when 52 cards are not two for every seat.
    pub fn reset(&mut self) -> (result: Result<(), PokerError>)
        requires
            old(self).funded(),
            old(self)@.seats() >= 1,
        ensures
            old(self)@.seats() > 26 ==> result == Err::<(), PokerError>(PokerError::DeckExhausted)
                && final(self)@ == old(self)@,
            old(self)@.seats() <= 26 ==> result is Ok && final(self).in_play() && exists|
                deck: Seq<Card>,
            |
                shuffled(deck) && final(self)@ == #[trigger] old(self)@.dealt(deck),
    {
        let deck = new_shuffled();
        proof {
            lemma_shuffled_proper(deck@);
        }
        self.reset_with_deck(deck)
    }

    /// Brings the eliminated players back to the table, gives everybody the
    /// initial stack, puts the dealer position at the first seat, and starts
    /// a new hand with the given deck. Fails, and changes nothing, when the
    /// deck holds fewer than two cards for every player.
    pub fn revive_with_deck(&mut self, deck: Vec<Card>) -> (result: Result<(), PokerError>)
        requires
            old(self).funded(),
            old(self)@.seats() + old(self)@.dead_ids.len() >= 1,
            proper_deck(deck@),
        ensures
            deck@.len() >= 2 * (old(self)@.seats() + old(self)@.dead_ids.len()) ==> result is Ok
                && final(self)@ == old(self)@.reseated().dealt(deck@) && final(self).in_play(),
            deck@.len() < 2 * (old(self)@.seats() + old(self)@.dead_ids.len()) ==> result == Err::<
                (),
                PokerError,
            >(PokerError::DeckExhausted) && final(self)@ == old(self)@,
    {
        let ghost before = self@;
        let n = self.ids.len() + self.dead_ids.len();
        if deck.len() / 2 < n {
            return Err(PokerError::DeckExhausted);
        }
        self.ids.append(&mut self.dead_ids);
        let mut stacks: Vec<i32> = Vec::new();
        let mut i: usize = 0;
        while i < n
            invariant
                i <= n,
                stacks.len() == i,
                forall|j: int| 0 <= j < i ==> #[trigger] stacks@[j] == self.initial_stack,
            decreases n - i,
        {
            stacks.push(self.initial_stack);
            i = i + 1;
        }
        self.stacks = stacks;
        self.dealer_pos = 0;
        proof {
            assert(self@.stacks =~= before.reseated().stacks);
            assert(self@ =~= before.reseated());
            lemma_reseated_funded(before);
        }
        self.reset_with_deck(deck)
    }

    /// Brings the eliminated players back to the table, gives everybody the
    /// initial stack, puts the dealer position at the first seat, and starts
    /// a new hand with a freshly shuffled deck. Fails, and changes nothing,
    /// when 52 cards are not two for every player.
    pub fn revive(&mut self) -> (result: Result<(), PokerError>)
        requires
            old(self).funded(),
            old(self)@.seats() + old(self)@.dead_ids.len() >= 1,
        ensures
            old(self)@.seats() + old(self)@.dead_ids.len() > 26 ==> result == Err::<
                (),
                PokerError,
            >(PokerError::DeckExhausted) && final(self)@ == old(self)@,
            old(self)@.seats() + old(self)@.dead_ids.len() <= 26 ==> result is Ok && final(self).in_play() && exists|deck: Seq<Card>|
                shuffled(deck) && final(self)@ == #[trigger] old(self)@.reseated().dealt(deck),
    {
        let deck = new_shuffled();
        proof {
            lemma_shuffled_proper(deck@);
        }
        self.revive_with_deck(deck)
    }
}

} // verus!
