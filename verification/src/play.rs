//! Playing with agents: a betting round, a whole hand, an episode of hands
//! and a game of episodes, driven by the decisions of the agents at the
//! table.

use crate::actions::{Action, LegalAction, Phase, PokerError};
use crate::cards::{lemma_shuffled_proper, shuffled, Card};
use crate::chips::total;
use crate::env::{Observation, PokerEnv, Settlement};
use crate::invariants::{
    lemma_action_progress, lemma_action_same_hand, lemma_advanced_in_hand, lemma_headroom,
    lemma_sought_in_hand,
};
use crate::pots::count_true;
use crate::protocol::lemma_lone_contender_matched;
use crate::settlement::lemma_count_negate;
use crate::showdown::count_set;
use crate::table::Table;
use vstd::prelude::*;

verus! {

/// A player's policy. It is shown what the player may see and what it is
/// offered, and answers with one action, or with nothing when it fails.
/// Nothing is taken for granted about the answer: the engine checks it.
pub trait Agent {
    fn choose_action(&mut self, state: &Observation, legal: &Vec<LegalAction>) -> Option<Action>;
}

/// How many phases follow a phase.
pub open spec fn phases_left(phase: Phase) -> int {
    match phase {
        Phase::Preflop => 4,
        Phase::Flop => 3,
        Phase::Turn => 2,
        Phase::River => 1,
        Phase::Showdown => 0,
    }
}

impl PokerEnv {
    /// Plays one betting round. Starting with the player on turn, every
    /// player that has to decide is shown the table and what it is offered,
    /// and its agent is asked; `agents` holds one agent for every player, by
    /// the player's number. The round ends when it closes, or when an agent
    /// gives no answer or one that it was not offered: then the round stops
    /// where it is and the answer is reported as an invalid action. Whatever
    /// the agents do, the table afterwards is what the rules make of some
    /// answers of the players asked; the hand stays in good order, nobody's
    /// stack changes, and no bet goes down; and in a hand played by the
    /// rules, a round that ends well leaves the betting even. On every table a
    /// round that ends well leaves the betting settled: all who can still act
    /// have matched the highest bet, or all seats but one have folded. The
    /// round fails only at a seat that had to decide.
    pub fn step_bid<A: Agent>(&mut self, agents: &mut Vec<A>) -> (result: Result<(), PokerError>)
        requires
            old(self).in_hand(),
            old(agents).len() == old(self)@.ids.len() + old(self)@.dead_ids.len(),
        ensures
            final(self).in_hand(),
            old(self)@.same_hand(final(self)@),
            final(agents).len() == old(agents).len(),
            old(self).in_play() ==> final(self).in_play(),
            old(self).in_play() && result is Ok ==> final(self)@.all_matched(),
            final(self)@.round_in_order(),
            result is Ok ==> final(self)@.betting_settled(),
            result is Err ==> result->Err_0 == PokerError::InvalidAction && final(self)@.awaits_decision(),
            exists|answers: Seq<Action>|
                final(self)@ == (#[trigger] old(self)@.round_opened().round_after(answers)).0,
    {
        self.begin_round();
        let ghost opened = self@;
        let ghost answers: Seq<Action> = Seq::empty();
        loop
            invariant
                self.in_hand(),
                opened == old(self)@.round_opened(),
                self@.round_in_order(),
                opened.round_after(answers) == (self@.sought(), self@.sought().awaits_decision()),
                old(self)@.same_hand(self@),
                old(self).in_play() ==> self.in_play(),
                agents.len() == self@.ids.len() + self@.dead_ids.len(),
                agents.len() == old(agents).len(),
            decreases self@.headroom(), self@.turns_left(),
        {
            let ghost start = self@;
            proof {
                lemma_sought_in_hand(start);
                lemma_headroom(start);
            }
            let legal = match self.next_decision() {
                None => {
                    return Ok(());
                },
                Some(legal) => legal,
            };
            let ghost asked = self@;
            let state = self.get_state();
            let id = self.ids()[self.current_player()];
            let action = match agents[id].choose_action(&state, &legal) {
                None => {
                    return Err(PokerError::InvalidAction);
                },
                Some(action) => action,
            };
            match self.apply_action(action) {
                Err(e) => {
                    return Err(e);
                },
                Ok(goes_on) => {
                    proof {
                        lemma_action_same_hand(asked, action);
                        lemma_headroom(self@);
                        assert(answers.push(action).drop_last() =~= answers);
                    }
                    if !goes_on {
                        proof {
                            assert(self@ == opened.round_after(answers.push(action)).0);
                        }
                        return Ok(());
                    }
                    proof {
                        lemma_action_progress(asked, action);
                        answers = answers.push(action);
                    }
                },
            }
        }
    }

    /// Plays the hand to its end: betting round after betting round, each
    /// followed by the next phase, and at showdown the settlement. A betting
    /// round is left out where all seats but one have folded. Whatever the
    /// agents do, a hand that ends well is settled at showdown by the cards,
    /// between the players that it began with, with their stacks and hole
    /// cards and with the board dealt from the deck as it lay; and it keeps
    /// the chips: the stacks after it and the odd chips of split pots make up
    /// the stacks before. A hand that breaks off is left as it was played up
    /// to there. A hand played by the rules from its deal never fails for
    /// lost chips, and a hand that has five cards left for the board never
    /// for want of cards. Where all seats but one have folded, or where in a
    /// hand played by the rules nobody can act any more, and the cards
    /// suffice, no agent is asked and the hand ends well.
    pub fn play_hand<A: Agent>(&mut self, agents: &mut Vec<A>) -> (result: Result<
        Settlement,
        PokerError,
    >)
        requires
            old(self).in_hand(),
            old(agents).len() == old(self)@.ids.len() + old(self)@.dead_ids.len(),
        ensures
            final(agents).len() == old(agents).len(),
            result matches Ok(done) ==> {
                &&& final(self)@.seated()
                &&& total(final(self)@.stacks) + done.remainder == total(old(self)@.stacks)
                &&& done.remainder >= 0
                &&& final(self)@.seats() + final(self)@.dead_ids.len() == old(self)@.seats() + old(self)@.dead_ids.len()
                &&& final(self)@.seats() <= old(self)@.seats()
                &&& exists|shown: Table|
                    {
                        &&& old(self)@.plays_on(shown)
                        &&& shown.phase == Phase::Showdown
                        &&& final(self)@ == #[trigger] shown.settled(shown.showdown_ranks())
                        &&& done.remainder == shown.odd_chips(shown.showdown_ranks())
                    }
            },
            result is Err ==> old(self)@.plays_on(final(self)@),
            final(self)@.initial_stack == old(self)@.initial_stack,
            final(self)@.small_blind == old(self)@.small_blind,
            final(self)@.big_blind == old(self)@.big_blind,
            old(self)@.phase == Phase::Showdown ==> result is Err && result->Err_0
                == PokerError::PhaseError,
            old(self).in_play() && result is Err ==> result->Err_0
                != PokerError::ChipConservationViolation,
            result is Err && result->Err_0 == PokerError::InvalidAction ==> final(self)@.awaits_decision(),
            old(self)@.phase != Phase::Showdown && result is Err ==> result->Err_0
                != PokerError::PhaseError,
            old(self)@.deck.len() + old(self)@.community.len() >= 5 && result is Err
                ==> result->Err_0 != PokerError::DeckExhausted,
            old(self)@.phase != Phase::Showdown && old(self)@.deck.len() + old(self)@.community.len() >= 5 && count_true(old(self)@.folded) == old(self)@.seats() - 1
                ==> result is Ok,
            old(self).in_play() && old(self)@.nobody_active() && old(self)@.phase != Phase::Showdown
                && old(self)@.deck.len() + old(self)@.community.len() >= 5 ==> result is Ok,
    {
        proof {
            lemma_count_negate(self@.folded, self@.folded.len());
        }
        loop
            invariant
                self.in_hand(),
                old(self)@.plays_on(self@),
                count_true(old(self)@.folded) == old(self)@.seats() - 1 ==> self@.folded == old(self)@.folded && self@.lone_contender(),
                old(self)@.phase != Phase::Showdown ==> self@.phase != Phase::Showdown,
                self@.deck.len() + self@.community.len() == old(self)@.deck.len() + old(self)@.community.len(),
                self@.stacks == old(self)@.stacks,
                self@.ids == old(self)@.ids,
                self@.dead_ids == old(self)@.dead_ids,
                self@.initial_stack == old(self)@.initial_stack,
                self@.small_blind == old(self)@.small_blind,
                self@.big_blind == old(self)@.big_blind,
                agents.len() == old(agents).len(),
                agents.len() == self@.ids.len() + self@.dead_ids.len(),
                old(self)@.phase == Phase::Showdown ==> self@.phase == Phase::Showdown,
                old(self).in_play() ==> self.in_play(),
            decreases phases_left(self@.phase),
        {
            if self.current_phase() != Phase::Showdown {
                let folded = count_set(self.folded());
                if folded != self.num_players() - 1 {
                    match self.step_bid(agents) {
                        Err(e) => {
                            proof {
                                let seat = self@.current_player;
                                assert(self@.active(seat));
                                assert(old(self)@.active(seat));
                            }
                            return Err(e);
                        },
                        Ok(()) => {},
                    }
                } else {
                    proof {
                        if self.in_play() {
                            lemma_lone_contender_matched(self@);
                        }
                    }
                }
            }
            let ghost bet = self@;
            match self.advance_phase() {
                Err(e) => {
                    return Err(e);
                },
                Ok(()) => {},
            }
            proof {
                lemma_advanced_in_hand(bet);
            }
            if self.current_phase() == Phase::Showdown {
                return self.resolution();
            }
        }
    }

    /// Plays hand after hand until one player is left at the table, or until
    /// `max_hands` hands are played. Each hand is dealt from a freshly
    /// shuffled deck on the table as the hand before left it, played to its
    /// end with the agents, and settled. Returns how many hands were played.
    /// With one player or none at the table, or with no hand allowed, nothing
    /// is played and nothing changes. Where a hand cannot be dealt or breaks
    /// off, the episode stops there with that hand's error.
    pub fn play_episode<A: Agent>(&mut self, agents: &mut Vec<A>, max_hands: usize) -> (result:
        Result<usize, PokerError>)
        requires
            old(self)@.seated(),
            old(agents).len() == old(self)@.ids.len() + old(self)@.dead_ids.len(),
        ensures
            final(agents).len() == old(agents).len(),
            final(self)@.seated(),
            final(self)@.seats() + final(self)@.dead_ids.len() == old(self)@.seats() + old(self)@.dead_ids.len(),
            final(self)@.initial_stack == old(self)@.initial_stack,
            total(final(self)@.stacks) <= total(old(self)@.stacks),
            old(self)@.seats() <= 1 || max_hands == 0 ==> result == Ok::<usize, PokerError>(0),
            result matches Ok(hands) ==> {
                &&& hands <= max_hands
                &&& final(self)@.seats() <= 1 || hands == max_hands
                &&& old(self)@.hands_played(final(self)@, hands as nat)
            },
            result is Err ==> old(self)@.hands_broken_off(
                final(self)@,
                max_hands as nat,
                result->Err_0 == PokerError::DeckExhausted,
            ),
            result is Err ==> result->Err_0 == PokerError::InvalidAction || (result->Err_0
                == PokerError::DeckExhausted && old(self)@.seats() > 23),
    {
        let mut hands: usize = 0;
        while self.num_players() > 1 && hands < max_hands
            invariant
                hands <= max_hands,
                self@.seated(),
                agents.len() == old(agents).len(),
                agents.len() == self@.ids.len() + self@.dead_ids.len(),
                self@.seats() + self@.dead_ids.len() == old(self)@.seats() + old(self)@.dead_ids.len(),
                self@.seats() <= old(self)@.seats(),
                self@.initial_stack == old(self)@.initial_stack,
                total(self@.stacks) <= total(old(self)@.stacks),
                old(self)@.hands_played(self@, hands as nat),
                hands > 0 ==> old(self)@.seats() > 1 && max_hands > 0,
            decreases max_hands - hands,
        {
            let ghost before = self@;
            match self.reset() {
                Err(e) => {
                    proof {
                        assert(old(self)@.hands_played(before, hands as nat));
                    }
                    return Err(e);
                },
                Ok(()) => {},
            }
            let ghost deck: Seq<Card> = choose|deck: Seq<Card>|
                shuffled(deck) && self@ == #[trigger] before.dealt(deck);
            proof {
                lemma_shuffled_proper(deck);
            }
            match self.play_hand(agents) {
                Err(e) => {
                    proof {
                        assert(before.dealt(deck).plays_on(self@));
                        assert(before.hand_broken_off(self@));
                        assert(old(self)@.hands_played(before, hands as nat));
                    }
                    return Err(e);
                },
                Ok(_) => {},
            }
            proof {
                let shown = choose|shown: Table|
                    before.dealt(deck).plays_on(shown) && shown.phase == Phase::Showdown && self@
                        == #[trigger] shown.settled(shown.showdown_ranks());
                assert(before.dealt(deck).plays_on(shown));
                assert(before.hand_played(self@));
                old(self)@.lemma_one_more_hand(before, self@, hands as nat);
            }
            hands = hands + 1;
        }
        Ok(hands)
    }

    /// Plays the given number of episodes, one after the other. In each
    /// episode hands are played until one player is left at the table, or
    /// until `max_hands` hands are played; then everybody comes back to the
    /// table with the initial stack, and a new hand is dealt. The game stops
    /// at the first hand that breaks off and at the first deal for which the
    /// deck is too small. Where no agent is ever asked, because no hand is
    /// allowed or one player is all there is, the game ends well if 52 cards
    /// are two for every player. In a game of at most 23 players nothing but
    /// an agent's answer can make it fail; with more than 26 it always fails.
    pub fn play_game<A: Agent>(
        &mut self,
        agents: &mut Vec<A>,
        episode: i32,
        max_hands: usize,
    ) -> (result: Result<(), PokerError>)
        requires
            old(self)@.seated(),
            old(self)@.seats() + old(self)@.dead_ids.len() >= 1,
            old(agents).len() == old(self)@.ids.len() + old(self)@.dead_ids.len(),
        ensures
            final(agents).len() == old(agents).len(),
            final(self)@.seated(),
            final(self)@.seats() + final(self)@.dead_ids.len() == old(self)@.seats() + old(self)@.dead_ids.len(),
            episode <= 0 ==> result is Ok && final(self)@ == old(self)@,
            episode >= 1 && result is Ok ==> old(self)@.episodes_played(
                final(self)@,
                episode as nat,
                max_hands as nat,
            ),
            episode >= 1 && result is Ok ==> final(self).in_play() && final(self)@.dead_ids.len()
                == 0 && forall|k: int|
                0 <= k < final(self)@.seats() ==> #[trigger] final(self)@.stacks[k] == old(self)@.initial_stack,
            episode >= 1 && (max_hands == 0 || old(self)@.seats() + old(self)@.dead_ids.len() == 1)
                && old(self)@.seats() + old(self)@.dead_ids.len() <= 26 ==> result is Ok,
            episode >= 1 && old(self)@.seats() + old(self)@.dead_ids.len() > 26 ==> result is Err,
            episode >= 1 && old(self)@.seats() + old(self)@.dead_ids.len() > 26 && (max_hands == 0
                || old(self)@.seats() <= 1) ==> result is Err && result->Err_0
                == PokerError::DeckExhausted && final(self)@ == old(self)@,
            result is Err ==> exists|start: Table, done: nat|
                {
                    &&& #[trigger] old(self)@.episodes_played(start, done, max_hands as nat)
                    &&& done < episode
                    &&& start.episode_broken_off(
                        final(self)@,
                        max_hands as nat,
                        result->Err_0 == PokerError::DeckExhausted,
                    )
                },
            result is Err ==> result->Err_0 == PokerError::InvalidAction || (result->Err_0
                == PokerError::DeckExhausted && old(self)@.seats() + old(self)@.dead_ids.len()
                > 23),
    {
        let mut played: i32 = 0;
        while played < episode
            invariant
                0 <= played,
                episode <= 0 ==> self@ == old(self)@,
                played == 0 ==> self@ == old(self)@,
                played <= episode || episode <= 0,
                self@.seated(),
                agents.len() == old(agents).len(),
                agents.len() == self@.ids.len() + self@.dead_ids.len(),
                self@.seats() + self@.dead_ids.len() == old(self)@.seats() + old(self)@.dead_ids.len(),
                self@.seats() + self@.dead_ids.len() >= 1,
                self@.initial_stack == old(self)@.initial_stack,
                old(self)@.episodes_played(self@, played as nat, max_hands as nat),
                played >= 1 ==> old(self)@.seats() + old(self)@.dead_ids.len() <= 26,
                played >= 1 ==> self.in_play() && self@.dead_ids.len() == 0 && forall|k: int|
                    0 <= k < self@.seats() ==> #[trigger] self@.stacks[k] == self@.initial_stack,
            decreases episode - played,
        {
            let ghost start = self@;
            let hands = match self.play_episode(agents, max_hands) {
                Err(e) => {
                    return Err(e);
                },
                Ok(hands) => hands,
            };
            let ghost left = self@;
            proof {
                assert(start.hands_played(left, hands as nat));
                assert(start.hands_of_episode(left, max_hands as nat));
            }
            match self.revive() {
                Err(e) => {
                    return Err(e);
                },
                Ok(()) => {},
            }
            proof {
                let deck = choose|deck: Seq<Card>|
                    shuffled(deck) && self@ == #[trigger] left.reseated().dealt(deck);
                assert(self@.stacks == left.reseated().stacks);
                crate::invariants::lemma_in_hand_seated(self@);
                assert(left.revived(self@));
                assert(start.episode_played(self@, max_hands as nat));
                old(self)@.lemma_one_more_episode(start, self@, played as nat, max_hands as nat);
            }
            played = played + 1;
        }
        Ok(())
    }
}

} // verus!
