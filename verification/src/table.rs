//! The table as a mathematical value, and the rules of the game as functions
//! on it. The engine's contracts say which of these functions each operation
//! computes.

use crate::actions::{offered, Action, LegalAction, Phase};
use crate::cards::{all_valid, hand_rank, shuffled, top_cards, Card, HandRank};
use crate::chips::{ints, pointwise_add, pointwise_sub, total, zeros};
use crate::pots::{count_true, pots_total, side_pots, PotView};
use crate::showdown::{payouts, remainder};
use vstd::prelude::*;

verus! {

/// The state of a table. The sequences `ids`, `stacks`, `bets`, `folded`,
/// `all_in` and `hole_cards` hold one entry per seat, in seating order. A
/// stack counts the chips that its player has wagered in the running hand
/// too: they leave the stack when the hand is settled.
#[verifier::ext_equal]
pub struct Table {
    /// Who sits at each seat.
    pub ids: Seq<usize>,
    /// The players that were eliminated, in the order in which they left.
    pub dead_ids: Seq<usize>,
    pub small_blind: int,
    pub big_blind: int,
    pub initial_stack: int,
    /// The minimum-raise floor: the largest raise seen in this hand.
    pub min_raise: int,
    pub stacks: Seq<int>,
    pub bets: Seq<int>,
    pub folded: Seq<bool>,
    pub all_in: Seq<bool>,
    pub hole_cards: Seq<(Card, Card)>,
    pub community: Seq<Card>,
    /// The cards not dealt yet. The next card dealt is the last one.
    pub deck: Seq<Card>,
    pub dealer_pos: int,
    pub phase: Phase,
    pub current_player: int,
    /// The seat at which the running betting round closes: the seat just
    /// before the first to act, or just before the last to raise.
    pub last_aggressor: int,
}

/// The greatest of the first `k` bets; 0 where there is none.
pub open spec fn highest_upto(bets: Seq<int>, k: nat) -> int
    decreases k,
{
    if k == 0 {
        0
    } else if k == 1 {
        bets[0]
    } else {
        let rest = highest_upto(bets, (k - 1) as nat);
        if bets[k - 1] > rest {
            bets[k - 1]
        } else {
            rest
        }
    }
}

/// The greatest bet on the table; 0 at an empty table.
pub open spec fn highest(bets: Seq<int>) -> int {
    highest_upto(bets, bets.len())
}

/// What `highest_upto` finds among at least one bet: a bet that no other of
/// them exceeds.
pub proof fn lemma_highest_upto(bets: Seq<int>, k: nat)
    requires
        1 <= k <= bets.len(),
    ensures
        forall|i: int| 0 <= i < k ==> #[trigger] bets[i] <= highest_upto(bets, k),
        exists|i: int| 0 <= i < k && bets[i] == highest_upto(bets, k),
    decreases k,
{
    if k > 1 {
        lemma_highest_upto(bets, (k - 1) as nat);
        let rest = highest_upto(bets, (k - 1) as nat);
        if bets[k - 1] > rest {
            assert(bets[k - 1] == highest_upto(bets, k));
        } else {
            let i = choose|i: int| 0 <= i < k - 1 && bets[i] == rest;
            assert(0 <= i < k && bets[i] == highest_upto(bets, k));
        }
    } else {
        assert(bets[0] == highest_upto(bets, k));
    }
}

/// Finds the greatest bet on the table; 0 at an empty table.
pub fn highest_bet(bets: &Vec<i32>) -> (top: i32)
    ensures
        top == highest(ints(bets@)),
{
    let mut top: i32 = 0;
    let mut i: usize = 0;
    while i < bets.len()
        invariant
            i <= bets.len(),
            top == highest_upto(ints(bets@), i as nat),
        decreases bets.len() - i,
    {
        if i == 0 || bets[i] > top {
            top = bets[i];
        }
        i = i + 1;
    }
    top
}

/// The seat after `seat` at a table of `n` seats.
pub open spec fn next_seat(seat: int, n: int) -> int {
    (seat + 1) % n
}

/// The seat before `seat` at a table of `n` seats.
pub open spec fn previous_seat(seat: int, n: int) -> int {
    (seat + n - 1) % n
}

/// Steps to the next seat round the table.
pub fn seat_after(seat: usize, n: usize) -> (next: usize)
    requires
        seat < n,
    ensures
        next == next_seat(seat as int, n as int),
        next < n,
{
    if seat + 1 == n {
        proof {
            lemma_mod_wrap(seat as int + 1, n as int);
        }
        0
    } else {
        proof {
            lemma_mod_small(seat as int + 1, n as int);
        }
        seat + 1
    }
}

/// Steps to the seat before round the table.
pub fn seat_before(seat: usize, n: usize) -> (previous: usize)
    requires
        seat < n,
    ensures
        previous == previous_seat(seat as int, n as int),
        previous < n,
{
    if seat == 0 {
        proof {
            lemma_mod_small(n as int - 1, n as int);
        }
        n - 1
    } else {
        proof {
            lemma_mod_shift(seat as int - 1, n as int);
            lemma_mod_small(seat as int - 1, n as int);
        }
        seat - 1
    }
}

pub proof fn lemma_mod_small(x: int, n: int)
    requires
        0 <= x < n,
    ensures
        x % n == x,
{
    assert(x % n == x) by (nonlinear_arith)
        requires
            0 <= x < n,
    ;
}

pub proof fn lemma_mod_wrap(x: int, n: int)
    requires
        x == n,
        n > 0,
    ensures
        x % n == 0,
{
    assert(x % n == 0) by (nonlinear_arith)
        requires
            x == n,
            n > 0,
    ;
}

pub proof fn lemma_mod_shift(x: int, n: int)
    requires
        n > 0,
    ensures
        (x + n) % n == x % n,
{
    vstd::arithmetic::div_mod::lemma_mod_add_multiples_vanish(x, n);
}

pub proof fn lemma_mod_range(x: int, n: int)
    requires
        n > 0,
    ensures
        0 <= x % n < n,
{
    vstd::arithmetic::div_mod::lemma_mod_bound(x, n);
}

/// Stepping to the next seat is adding one before the remainder is taken.
pub proof fn lemma_next_seat_adds(x: int, n: int)
    requires
        n > 0,
        x >= 0,
    ensures
        next_seat(x % n, n) == (x + 1) % n,
{
    vstd::arithmetic::div_mod::lemma_add_mod_noop(x, 1, n);
    vstd::arithmetic::div_mod::lemma_mod_pos_bound(x, n);
    if n == 1 {
        assert((x + 1) % 1 == 0);
        assert((x % 1 + 1) % 1 == 0);
    } else {
        lemma_mod_small(1, n);
    }
}

/// The smaller of two numbers.
pub open spec fn least(a: int, b: int) -> int {
    if a < b {
        a
    } else {
        b
    }
}

/// The hole cards of all seats in the order in which they were dealt.
pub open spec fn holes_flat(hole_cards: Seq<(Card, Card)>) -> Seq<Card> {
    Seq::new(
        2 * hole_cards.len(),
        |k: int|
            if k % 2 == 0 {
                hole_cards[k / 2].0
            } else {
                hole_cards[k / 2].1
            },
    )
}

/// The entries of `s` at the seats of the mask, in order.
pub open spec fn keep<T>(s: Seq<T>, mask: Seq<bool>) -> Seq<T>
    decreases s.len(),
{
    if s.len() == 0 {
        Seq::empty()
    } else if mask[s.len() - 1] {
        keep(s.drop_last(), mask).push(s.last())
    } else {
        keep(s.drop_last(), mask)
    }
}

/// The mask with every entry turned round.
pub open spec fn negate(mask: Seq<bool>) -> Seq<bool> {
    Seq::new(mask.len(), |i: int| !mask[i])
}

impl Table {
    /// The table before its first hand: `n` players with the initial stack,
    /// the dealer position at the first seat, and no hand dealt yet.
    pub open spec fn opening(n: nat, small_blind: int, big_blind: int, initial_stack: int) -> Table {
        Table {
            ids: Seq::new(n, |i: int| i as usize),
            dead_ids: Seq::empty(),
            small_blind,
            big_blind,
            initial_stack,
            min_raise: 0,
            stacks: Seq::new(n, |i: int| initial_stack),
            bets: Seq::empty(),
            folded: Seq::empty(),
            all_in: Seq::empty(),
            hole_cards: Seq::empty(),
            community: Seq::empty(),
            deck: Seq::empty(),
            dealer_pos: 0,
            phase: Phase::Preflop,
            current_player: 0,
            last_aggressor: 0,
        }
    }

    /// The number of seats.
    pub open spec fn seats(self) -> int {
        self.stacks.len() as int
    }

    /// The seven cards that seat `i` plays at showdown: the community cards,
    /// then its two hole cards.
    pub open spec fn cards_of(self, i: int) -> Seq<Card> {
        self.community.push(self.hole_cards[i].0).push(self.hole_cards[i].1)
    }

    /// All cards of the hand in one sequence: the hole cards and the
    /// community cards as they were dealt, then the deck from its top.
    pub open spec fn pool(self) -> Seq<Card> {
        holes_flat(self.hole_cards) + self.community + self.deck.reverse()
    }

    /// What holds of a table at all times: every seat has an entry in every
    /// sequence, every player at the table has chips, and the chips in play
    /// fit the machine's integers now and after a revival.
    pub open spec fn seated(self) -> bool {
        &&& self.funded()
        &&& self.bets.len() == self.seats()
        &&& self.folded.len() == self.seats()
        &&& self.all_in.len() == self.seats()
        &&& self.hole_cards.len() == self.seats()
    }

    /// All players, those at the table first, then the eliminated.
    pub open spec fn players(self) -> Seq<usize> {
        self.ids + self.dead_ids
    }

    /// The players of a list are among those that the table was set up with:
    /// their numbers lie below the number of players, seated and eliminated.
    pub open spec fn known(self, players: Seq<usize>) -> bool {
        forall|i: int|
            0 <= i < players.len() ==> #[trigger] players[i] < self.ids.len()
                + self.dead_ids.len()
    }

    /// What a hand can be dealt on: every seat has a player with chips, and
    /// the chips in play fit the machine's integers now and after a revival.
    pub open spec fn funded(self) -> bool {
        &&& self.ids.len() == self.seats()
        &&& self.known(self.ids)
        &&& self.known(self.dead_ids)
        &&& self.players().no_duplicates()
        &&& forall|i: int| 0 <= i < self.seats() ==> #[trigger] self.stacks[i] >= 1
        &&& total(self.stacks) <= i32::MAX
        &&& 1 <= self.small_blind <= self.big_blind <= i32::MAX
        &&& 1 <= self.initial_stack
        &&& (self.seats() + self.dead_ids.len()) * self.initial_stack <= i32::MAX
        &&& 0 <= self.dealer_pos <= self.seats() + self.dead_ids.len()
        &&& self.seats() + self.dead_ids.len() < usize::MAX
    }

    /// What holds of a table while a hand is played, from the deal to the
    /// settlement.
    pub open spec fn in_hand(self) -> bool {
        &&& self.seated()
        &&& self.seats() >= 1
        &&& 0 <= self.dealer_pos < self.seats()
        &&& 0 <= self.current_player < self.seats()
        &&& 0 <= self.last_aggressor < self.seats()
        &&& forall|i: int| 0 <= i < self.seats() ==> 0 <= #[trigger] self.bets[i] <= self.stacks[i]
        &&& forall|i: int|
            0 <= i < self.seats() ==> #[trigger] self.all_in[i] == (self.bets[i] == self.stacks[i])
        &&& 1 <= self.min_raise <= highest(self.bets)
        &&& self.community.len() == self.phase.board_size()
        &&& all_valid(self.pool())
        &&& self.pool().no_duplicates()
    }

    /// Every seat but `p` has folded or is all-in: nobody is left who could
    /// answer a raise of `p`.
    pub open spec fn others_inactive(self, p: int) -> bool {
        forall|i: int|
            0 <= i < self.seats() && i != p ==> #[trigger] self.folded[i] || self.all_in[i]
    }

    /// The amount at which seat `p` calls: the highest bet, or its whole stack
    /// where that is less.
    pub open spec fn call_amount(self, p: int) -> int {
        least(highest(self.bets), self.stacks[p])
    }

    /// The range of a raise of seat `p`: from the highest bet plus the
    /// minimum-raise floor up to its stack, or the stack alone where the stack
    /// is less than twice the highest bet.
    pub open spec fn raise_range(self, p: int) -> (int, int) {
        if self.stacks[p] >= 2 * highest(self.bets) {
            (highest(self.bets) + self.min_raise, self.stacks[p])
        } else {
            (self.stacks[p], self.stacks[p])
        }
    }

    /// What seat `p` is offered.
    pub open spec fn legal_actions(self, p: int) -> Seq<LegalAction> {
        if self.all_in[p] {
            Seq::empty()
        } else if self.others_inactive(p) {
            if self.bets[p] != highest(self.bets) {
                seq![LegalAction::Call(self.call_amount(p) as i32)]
            } else {
                Seq::empty()
            }
        } else {
            let first = seq![
                LegalAction::Fold,
                if self.bets[p] == highest(self.bets) {
                    LegalAction::Check
                } else {
                    LegalAction::Call(self.call_amount(p) as i32)
                },
            ];
            if self.stacks[p] > highest(self.bets) {
                first.push(
                    LegalAction::Raise(self.raise_range(p).0 as i32, self.raise_range(p).1 as i32),
                )
            } else {
                first
            }
        }
    }

    /// The table after seat `p` has set its bet to `amount`: the seat is
    /// all-in when the bet is its whole stack.
    pub open spec fn with_bet(self, p: int, amount: int) -> Table {
        Table {
            bets: self.bets.update(p, amount),
            all_in: self.all_in.update(p, self.all_in[p] || self.stacks[p] - amount == 0),
            ..self
        }
    }

    /// The table after the player on turn has acted, before the turn moves.
    /// A raise lifts the minimum-raise floor to the size of the raise where
    /// that is more, and makes the seat before the raiser the one at which the
    /// round closes.
    pub open spec fn acted(self, action: Action) -> Table {
        let p = self.current_player;
        match action {
            Action::Fold => Table { folded: self.folded.update(p, true), ..self },
            Action::Check => self,
            Action::Call(x) => self.with_bet(p, x as int),
            Action::Raise(x) => {
                let increment = x - highest(self.bets);
                Table {
                    min_raise: if increment > self.min_raise {
                        increment
                    } else {
                        self.min_raise
                    },
                    last_aggressor: previous_seat(p, self.seats()),
                    ..self.with_bet(p, x as int)
                }
            },
        }
    }

    /// Whether the round is closed once the player on turn has had its turn:
    /// all seats but one have folded, or this is the seat at which the round
    /// closes.
    pub open spec fn closes_here(self) -> bool {
        count_true(self.folded) == self.seats() - 1 || self.last_aggressor
            == self.current_player
    }

    /// The table with the turn passed to the next seat.
    pub open spec fn turn_passed(self) -> Table {
        Table { current_player: next_seat(self.current_player, self.seats()), ..self }
    }

    /// The table after an action of the player on turn: the action is applied,
    /// and the turn passes on unless the round is closed.
    pub open spec fn after_action(self, action: Action) -> Table {
        let t = self.acted(action);
        if t.closes_here() {
            t
        } else {
            t.turn_passed()
        }
    }

    /// The player on turn has to decide: it has not folded and is offered
    /// something.
    pub open spec fn awaits_decision(self) -> bool {
        !self.folded[self.current_player] && self.legal_actions(self.current_player).len() > 0
    }

    /// The round ends at the player on turn without a decision: a folded seat
    /// at which the round closes; a seat that is all-in, when the round closes
    /// there or all others have folded; or a seat that is offered nothing
    /// because nobody is left to act against and it owes nothing.
    pub open spec fn halts(self) -> bool {
        let p = self.current_player;
        if self.folded[p] {
            self.last_aggressor == p
        } else if self.all_in[p] {
            self.closes_here()
        } else {
            self.legal_actions(p).len() == 0
        }
    }

    /// The number of seats from the player on turn to the seat at which the
    /// round closes.
    pub open spec fn turns_left(self) -> int {
        if self.last_aggressor >= self.current_player {
            self.last_aggressor - self.current_player
        } else {
            self.last_aggressor + self.seats() - self.current_player
        }
    }

    /// How many cards the next phase puts on the table.
    pub open spec fn cards_needed(self) -> int {
        match self.phase {
            Phase::Preflop => 3,
            Phase::Flop => 1,
            Phase::Turn => 1,
            Phase::River => 0,
            Phase::Showdown => 0,
        }
    }

    /// The phase that follows; showdown has none and stays.
    pub open spec fn phase_after(self) -> Phase {
        match self.phase {
            Phase::Preflop => Phase::Flop,
            Phase::Flop => Phase::Turn,
            Phase::Turn => Phase::River,
            Phase::River => Phase::Showdown,
            Phase::Showdown => Phase::Showdown,
        }
    }

    /// The table in the next phase: the cards of that phase are dealt from
    /// the top of the deck, and on the flop, the turn and the river the seat
    /// after the dealer is the first to act.
    pub open spec fn advanced(self) -> Table {
        let k = self.cards_needed();
        let len = self.deck.len() as int;
        Table {
            phase: self.phase_after(),
            community: self.community + top_cards(self.deck, k),
            deck: self.deck.take(len - k),
            current_player: if self.phase == Phase::River {
                self.current_player
            } else {
                next_seat(self.dealer_pos, self.seats())
            },
            ..self
        }
    }

    /// The table at the start of a new hand dealt from `deck`: the dealer
    /// moves on by one seat, every seat gets the next two cards from the top
    /// of the deck, the two seats after the dealer post the blinds as far as
    /// their stacks go, the greater blind is the first minimum-raise floor,
    /// and the third seat after the dealer is the first to act.
    pub open spec fn dealt(self, deck: Seq<Card>) -> Table {
        let n = self.seats();
        let len = deck.len() as int;
        let dealer = next_seat(self.dealer_pos, n);
        let small = (dealer + 1) % n;
        let big = (dealer + 2) % n;
        let first = (dealer + 3) % n;
        let cleared = Table {
            bets: zeros(n as nat),
            folded: Seq::new(n as nat, |i: int| false),
            all_in: Seq::new(n as nat, |i: int| false),
            hole_cards: Seq::new(
                n as nat,
                |i: int| (deck[len - 1 - 2 * i], deck[len - 2 - 2 * i]),
            ),
            community: Seq::empty(),
            deck: deck.take(len - 2 * n),
            phase: Phase::Preflop,
            dealer_pos: dealer,
            current_player: first,
            last_aggressor: previous_seat(first, n),
            ..self
        };
        let blinds = cleared.with_bet(small, least(self.small_blind, self.stacks[small])).with_bet(
            big,
            least(self.big_blind, self.stacks[big]),
        );
        Table { min_raise: highest(blinds.bets), ..blinds }
    }

    /// The table without the player at `seat`, who joins the eliminated.
    pub open spec fn without_seat(self, seat: int) -> Table {
        Table {
            ids: self.ids.remove(seat),
            dead_ids: self.dead_ids.push(self.ids[seat]),
            stacks: self.stacks.remove(seat),
            bets: self.bets.remove(seat),
            folded: self.folded.remove(seat),
            all_in: self.all_in.remove(seat),
            hole_cards: self.hole_cards.remove(seat),
            ..self
        }
    }

    /// The seats that have not folded.
    pub open spec fn contenders(self) -> Seq<bool> {
        negate(self.folded)
    }

    /// Exactly one seat has not folded.
    pub open spec fn lone_contender(self) -> bool {
        count_true(self.contenders()) == 1
    }

    /// The rank of every seat at showdown. A seat that has folded is not
    /// ranked, and nobody is where one seat alone has not folded: such seats
    /// stand with the lowest rank there is.
    pub open spec fn showdown_ranks(self) -> Seq<HandRank> {
        Seq::new(
            self.seats() as nat,
            |i: int|
                if self.folded[i] || self.lone_contender() {
                    HandRank::HighCard(0)
                } else {
                    hand_rank(self.cards_of(i))
                },
        )
    }

    /// The pots of the hand. Where one seat alone has not folded, all that
    /// was wagered is one pot, open to that seat. Otherwise the pots are the
    /// side pots of the bets.
    pub open spec fn pots(self) -> Seq<PotView> {
        if self.lone_contender() {
            seq![PotView { amount: total(self.bets), eligible: self.contenders() }]
        } else {
            side_pots(self.bets, self.folded)
        }
    }

    /// The chips wagered that no pot holds: what folded seats wagered above
    /// every seat that stayed in, where more than one seat stayed in. They
    /// would leave the table unaccounted for.
    pub open spec fn chips_lost(self) -> int {
        total(self.bets) - pots_total(self.pots())
    }

    /// The stack of every seat once the hand is settled: the stack, less the
    /// bet, plus what the seat takes from the pots.
    pub open spec fn settled_stacks(self, ranks: Seq<HandRank>) -> Seq<int> {
        pointwise_add(
            pointwise_sub(self.stacks, self.bets),
            payouts(self.pots(), ranks, self.seats() as nat),
        )
    }

    /// The seats that have chips left once the hand is settled.
    pub open spec fn survivors(self, ranks: Seq<HandRank>) -> Seq<bool> {
        Seq::new(self.seats() as nat, |i: int| self.settled_stacks(ranks)[i] != 0)
    }

    /// The odd chips that the splits of this hand leave over.
    pub open spec fn odd_chips(self, ranks: Seq<HandRank>) -> int {
        remainder(self.pots(), ranks)
    }

    /// The table after the hand is settled with the given ranks: the pots are
    /// awarded, the bets leave the stacks, and the players without chips
    /// leave their seats and join the eliminated, in seating order.
    pub open spec fn settled(self, ranks: Seq<HandRank>) -> Table {
        let stay = self.survivors(ranks);
        Table {
            ids: keep(self.ids, stay),
            dead_ids: self.dead_ids + keep(self.ids, negate(stay)),
            stacks: keep(self.settled_stacks(ranks), stay),
            bets: keep(self.bets, stay),
            folded: keep(self.folded, stay),
            all_in: keep(self.all_in, stay),
            hole_cards: keep(self.hole_cards, stay),
            ..self
        }
    }

    /// The table with the eliminated players back at their seats, behind
    /// those that stayed, everybody with the initial stack, and the dealer
    /// position at the first seat. The next deal makes the rest anew.
    pub open spec fn reseated(self) -> Table {
        let n = self.ids.len() + self.dead_ids.len();
        Table {
            ids: self.ids + self.dead_ids,
            dead_ids: Seq::empty(),
            stacks: Seq::new(n, |i: int| self.initial_stack),
            dealer_pos: 0,
            ..self
        }
    }

    /// Seat `i` can still act in this hand: it has not folded and is not
    /// all-in.
    pub open spec fn active(self, i: int) -> bool {
        0 <= i < self.seats() && !self.folded[i] && !self.all_in[i]
    }

    /// No seat can act any more: every seat has folded or is all-in.
    pub open spec fn nobody_active(self) -> bool {
        forall|i: int| 0 <= i < self.seats() ==> !#[trigger] self.active(i)
    }

    /// Seat `i` has matched the highest bet.
    pub open spec fn matched(self, i: int) -> bool {
        self.bets[i] == highest(self.bets)
    }

    /// How many turns pass until seat `i` is reached from the seat on turn.
    pub open spec fn offset(self, i: int) -> int {
        if i >= self.current_player {
            i - self.current_player
        } else {
            i + self.seats() - self.current_player
        }
    }

    /// The betting is even: every seat that can still act has matched the
    /// highest bet.
    pub open spec fn all_matched(self) -> bool {
        forall|i: int| #[trigger] self.active(i) ==> self.matched(i)
    }

    /// A seat that has not folded holds the highest bet.
    pub open spec fn top_bet_stands(self) -> bool {
        exists|j: int| 0 <= j < self.seats() && !self.folded[j] && #[trigger] self.matched(j)
    }

    /// Every seat that can still act and is past its turn in the running
    /// round has matched the highest bet.
    pub open spec fn round_in_order(self) -> bool {
        forall|q: int|
            #[trigger] self.active(q) && self.offset(q) > self.turns_left() ==> self.matched(q)
    }

    /// The betting is settled: every seat that can still act has matched the
    /// highest bet, or all seats but one have folded.
    pub open spec fn betting_settled(self) -> bool {
        self.all_matched() || count_true(self.folded) == self.seats() - 1
    }

    /// What holds of a hand that has been played by the rules since it was
    /// dealt. A seat that has not folded holds the highest bet. Every seat
    /// that can still act and is past its turn in the running round has
    /// matched the highest bet. And going round from the seat on turn, once
    /// a seat that can still act has matched the highest bet, so have all
    /// such seats after it.
    pub open spec fn in_play(self) -> bool {
        &&& self.in_hand()
        &&& self.top_bet_stands()
        &&& forall|q: int|
            #[trigger] self.active(q) && self.offset(q) > self.turns_left() ==> self.matched(q)
        &&& forall|p: int, q: int|
            #[trigger] self.active(p) && #[trigger] self.active(q) && self.offset(p)
                < self.offset(q) && self.matched(p) ==> self.matched(q)
    }

    /// The engine takes the action from the player on turn: the player has
    /// not folded, and the action is among those it is offered.
    pub open spec fn accepts(self, action: Action) -> bool {
        !self.folded[self.current_player] && offered(
            self.legal_actions(self.current_player),
            action,
        )
    }

    /// The table with a betting round opened at the seat on turn: the round
    /// will close at the seat before it.
    pub open spec fn round_opened(self) -> Table {
        Table { last_aggressor: previous_seat(self.current_player, self.seats()), ..self }
    }

    /// How far a betting round has come when the players that were asked
    /// have answered with `answers`, one after the other: the table, and
    /// whether a player is still to be asked. The turn moves to the first
    /// seat that has to decide; each answer that the engine accepts is
    /// applied, and the turn moves on again. The round stops at an answer
    /// that the engine does not accept, at an action that closes the round,
    /// and where no seat is left to ask; answers beyond that count for
    /// nothing.
    pub open spec fn round_after(self, answers: Seq<Action>) -> (Table, bool)
        decreases answers.len(),
    {
        if answers.len() == 0 {
            (self.sought(), self.sought().awaits_decision())
        } else {
            let (asked, open) = self.round_after(answers.drop_last());
            let answer = answers.last();
            if !open || !asked.accepts(answer) {
                (asked, false)
            } else if asked.acted(answer).closes_here() {
                (asked.after_action(answer), false)
            } else {
                let next = asked.after_action(answer).sought();
                (next, next.awaits_decision())
            }
        }
    }

    /// How far the highest bet can still rise: the chips on the table less the
    /// highest bet. Every raise makes it smaller.
    pub open spec fn headroom(self) -> int {
        total(self.stacks) - highest(self.bets)
    }

    /// Table `later` shows the same hand as this one at a later moment of its
    /// betting: the same players with the same stacks and cards, in the same
    /// phase, no bet lower than before, and whoever had folded or was all-in
    /// still so.
    pub open spec fn same_hand(self, later: Table) -> bool {
        &&& later.ids == self.ids
        &&& later.dead_ids == self.dead_ids
        &&& later.small_blind == self.small_blind
        &&& later.big_blind == self.big_blind
        &&& later.initial_stack == self.initial_stack
        &&& later.stacks == self.stacks
        &&& later.hole_cards == self.hole_cards
        &&& later.community == self.community
        &&& later.deck == self.deck
        &&& later.dealer_pos == self.dealer_pos
        &&& later.phase == self.phase
        &&& later.bets.len() == self.bets.len()
        &&& forall|i: int| 0 <= i < self.bets.len() ==> #[trigger] self.bets[i] <= later.bets[i]
        &&& later.folded.len() == self.folded.len()
        &&& forall|i: int| 0 <= i < self.folded.len() && self.folded[i] ==> #[trigger] later.folded[i]
        &&& later.all_in.len() == self.all_in.len()
        &&& forall|i: int| 0 <= i < self.all_in.len() && self.all_in[i] ==> #[trigger] later.all_in[i]
    }

    /// Table `later` shows the hand of this table further on, in the same
    /// phase or a later one: a table in good order with the same players,
    /// stacks, blinds, dealer and hole cards, the same cards in the same order
    /// between the board and the deck, no bet lower than before, and whoever
    /// had folded or was all-in still so. Where the hand was played by the
    /// rules up to here, it still is.
    pub open spec fn plays_on(self, later: Table) -> bool {
        &&& later.in_hand()
        &&& later.ids == self.ids
        &&& later.dead_ids == self.dead_ids
        &&& later.small_blind == self.small_blind
        &&& later.big_blind == self.big_blind
        &&& later.initial_stack == self.initial_stack
        &&& later.stacks == self.stacks
        &&& later.hole_cards == self.hole_cards
        &&& later.dealer_pos == self.dealer_pos
        &&& later.pool() == self.pool()
        &&& later.bets.len() == self.bets.len()
        &&& forall|i: int| 0 <= i < self.bets.len() ==> #[trigger] self.bets[i] <= later.bets[i]
        &&& later.folded.len() == self.folded.len()
        &&& forall|i: int| 0 <= i < self.folded.len() && self.folded[i] ==> #[trigger] later.folded[i]
        &&& later.all_in.len() == self.all_in.len()
        &&& forall|i: int| 0 <= i < self.all_in.len() && self.all_in[i] ==> #[trigger] later.all_in[i]
        &&& self.in_play() ==> later.in_play()
    }

    /// Table `after` is what one hand leaves of this table: the hand is dealt
    /// from some shuffled deck, with the dealer one seat further; it is
    /// played on to showdown; and it is settled there by the cards.
    pub open spec fn hand_played(self, after: Table) -> bool {
        exists|deck: Seq<Card>, shown: Table|
            {
                &&& shuffled(deck)
                &&& #[trigger] self.dealt(deck).plays_on(shown)
                &&& shown.phase == Phase::Showdown
                &&& after == shown.settled(shown.showdown_ranks())
            }
    }

    /// Table `at` is where a hand on this table broke off: the hand was dealt
    /// from some shuffled deck, with the dealer one seat further, and played
    /// on up to `at`.
    pub open spec fn hand_broken_off(self, at: Table) -> bool {
        exists|deck: Seq<Card>| shuffled(deck) && #[trigger] self.dealt(deck).plays_on(at)
    }

    /// Table `after` is what `hands` hands in a row leave of this table. Each
    /// hand is dealt on the table as the hand before left it, so those who
    /// lost their chips stay away, and the dealer moves on among the seats
    /// that are still taken. A hand is only dealt while more than one player
    /// is at the table.
    pub open spec fn hands_played(self, after: Table, hands: nat) -> bool
        decreases hands,
    {
        if hands == 0 {
            after == self
        } else {
            exists|mid: Table|
                {
                    &&& self.hands_played(mid, (hands - 1) as nat)
                    &&& mid.seats() > 1
                    &&& #[trigger] mid.hand_played(after)
                }
        }
    }

    /// Table `at` is where a run of at most `max_hands` hands on this table
    /// stopped short: after fewer hands than allowed, with more than one
    /// player still at the table, the next hand could not be dealt for want
    /// of cards (`no_cards`) and the table is as the last hand left it, or the
    /// next hand was dealt and broke off at `at`.
    pub open spec fn hands_broken_off(self, at: Table, max_hands: nat, no_cards: bool) -> bool {
        exists|mid: Table, played: nat|
            {
                &&& #[trigger] self.hands_played(mid, played)
                &&& played < max_hands
                &&& mid.seats() > 1
                &&& (no_cards && at == mid) || mid.hand_broken_off(at)
            }
    }

    /// Table `left` is what the hands of one episode leave of this table:
    /// hand after hand, until one player is left or `max_hands` hands are
    /// played.
    pub open spec fn hands_of_episode(self, left: Table, max_hands: nat) -> bool {
        exists|hands: nat|
            {
                &&& #[trigger] self.hands_played(left, hands)
                &&& hands <= max_hands
                &&& left.seats() <= 1 || hands == max_hands
            }
    }

    /// Table `after` is this table revived: everybody is back with the
    /// initial stack, and a hand is dealt from some shuffled deck.
    pub open spec fn revived(self, after: Table) -> bool {
        exists|deck: Seq<Card>| shuffled(deck) && after == #[trigger] self.reseated().dealt(deck)
    }

    /// Table `after` is what one episode leaves of this table: its hands are
    /// played, and then the table is revived.
    pub open spec fn episode_played(self, after: Table, max_hands: nat) -> bool {
        exists|left: Table| #[trigger]
            self.hands_of_episode(left, max_hands) && left.revived(after)
    }

    /// Table `at` is where an episode on this table stopped short: among its
    /// hands, or at the revival for want of cards, with the table as the
    /// hands left it.
    pub open spec fn episode_broken_off(self, at: Table, max_hands: nat, no_cards: bool) -> bool {
        self.hands_broken_off(at, max_hands, no_cards) || (no_cards && self.hands_of_episode(
            at,
            max_hands,
        ))
    }

    /// Table `after` is what `episodes` episodes in a row leave of this
    /// table.
    pub open spec fn episodes_played(self, after: Table, episodes: nat, max_hands: nat) -> bool
        decreases episodes,
    {
        if episodes == 0 {
            after == self
        } else {
            exists|mid: Table|
                {
                    &&& self.episodes_played(mid, (episodes - 1) as nat, max_hands)
                    &&& #[trigger] mid.episode_played(after, max_hands)
                }
        }
    }

    /// One more episode played after `episodes` episodes makes one more.
    pub proof fn lemma_one_more_episode(
        self,
        mid: Table,
        after: Table,
        episodes: nat,
        max_hands: nat,
    )
        requires
            self.episodes_played(mid, episodes, max_hands),
            mid.episode_played(after, max_hands),
        ensures
            self.episodes_played(after, episodes + 1, max_hands),
    {
        assert(((episodes + 1) - 1) as nat == episodes);
    }

    /// One more hand played after `hands` hands makes `hands + 1` hands.
    pub proof fn lemma_one_more_hand(self, mid: Table, after: Table, hands: nat)
        requires
            self.hands_played(mid, hands),
            mid.seats() > 1,
            mid.hand_played(after),
        ensures
            self.hands_played(after, hands + 1),
    {
        assert(((hands + 1) - 1) as nat == hands);
    }

    /// The positions of a table with at least one seat are seats.
    pub open spec fn positions_in_range(self) -> bool {
        &&& 0 <= self.current_player < self.seats()
        &&& 0 <= self.last_aggressor < self.seats()
    }

    /// The table with the turn moved on to the first seat that has to decide
    /// or at which the round ends.
    pub open spec fn sought(self) -> Table
        decreases self.turns_left(),
        when self.positions_in_range()
        via Self::sought_decreases
    {
        if self.awaits_decision() || self.halts() {
            self
        } else {
            self.turn_passed().sought()
        }
    }

    #[via_fn]
    proof fn sought_decreases(self) {
        if !(self.awaits_decision() || self.halts()) {
            self.lemma_pass_moves_closer();
        }
    }

    /// Where the turn passes on without a decision, the seat at which the
    /// round closes comes one seat nearer.
    pub proof fn lemma_pass_moves_closer(self)
        requires
            self.positions_in_range(),
            !self.awaits_decision(),
            !self.halts(),
        ensures
            self.turn_passed().positions_in_range(),
            self.turn_passed().turns_left() == self.turns_left() - 1,
            self.current_player != self.last_aggressor,
    {
        let n = self.seats();
        let p = self.current_player;
        assert(p != self.last_aggressor);
        if p + 1 < n {
            assert((p + 1) % n == p + 1) by (nonlinear_arith)
                requires
                    0 <= p + 1 < n,
            ;
        } else {
            assert((p + 1) % n == 0) by (nonlinear_arith)
                requires
                    p + 1 == n,
                    n > 0,
            ;
        }
    }
}

} // verus!
