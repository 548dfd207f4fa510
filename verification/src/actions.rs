//! The vocabulary of the engine: phases of a hand, the actions of a player,
//! what a player is offered, and the errors.

use vstd::prelude::*;

verus! {

/// The phases of a hand, in order. `Showdown` is the last.
#[derive(Clone, Copy, Debug, PartialEq, Eq, Structural)]
pub enum Phase {
    Preflop,
    Flop,
    Turn,
    River,
    Showdown,
}

/// What a player decides to do. The amount of a call or a raise is the bet
/// that the player will have on the table afterwards, not what is added.
#[derive(Clone, Copy, Debug, PartialEq, Eq, Structural)]
pub enum Action {
    Fold,
    Check,
    Call(i32),
    Raise(i32),
}

/// One entry of what a player is offered. A call is offered at one amount, a
/// raise at any amount from the first number to the second, both included.
#[derive(Clone, Copy, Debug, PartialEq, Eq, Structural)]
pub enum LegalAction {
    Fold,
    Check,
    Call(i32),
    Raise(i32, i32),
}

/// What can go wrong.
#[derive(Clone, Copy, Debug, PartialEq, Eq, Structural)]
pub enum PokerError {
    /// More cards were asked for than the deck holds.
    DeckExhausted,
    /// The action is not among those offered.
    InvalidAction,
    /// The hand is at showdown and has no further phase.
    PhaseError,
    /// Chips would be lost that no rule accounts for.
    ChipConservationViolation,
}

/// Whether an action is among those offered: a fold or a check where one is
/// offered, a call at the offered amount, a raise within an offered range.
pub open spec fn offered(legal: Seq<LegalAction>, action: Action) -> bool {
    exists|k: int| 0 <= k < legal.len() && matches_offer(#[trigger] legal[k], action)
}

/// Whether an action takes up one offer.
pub open spec fn matches_offer(offer: LegalAction, action: Action) -> bool {
    match (offer, action) {
        (LegalAction::Fold, Action::Fold) => true,
        (LegalAction::Check, Action::Check) => true,
        (LegalAction::Call(amount), Action::Call(x)) => x == amount,
        (LegalAction::Raise(low, high), Action::Raise(x)) => low <= x <= high,
        _ => false,
    }
}

/// Tests whether an action takes up one offer.
pub fn takes_offer(offer: &LegalAction, action: &Action) -> (yes: bool)
    ensures
        yes == matches_offer(*offer, *action),
{
    match (*offer, *action) {
        (LegalAction::Fold, Action::Fold) => true,
        (LegalAction::Check, Action::Check) => true,
        (LegalAction::Call(amount), Action::Call(x)) => x == amount,
        (LegalAction::Raise(low, high), Action::Raise(x)) => low <= x && x <= high,
        _ => false,
    }
}

/// Tests whether an action is among those offered.
pub fn is_offered(legal: &Vec<LegalAction>, action: &Action) -> (yes: bool)
    ensures
        yes == offered(legal@, *action),
{
    let mut k: usize = 0;
    while k < legal.len()
        invariant
            k <= legal.len(),
            forall|j: int| 0 <= j < k ==> !matches_offer(#[trigger] legal@[j], *action),
        decreases legal.len() - k,
    {
        if takes_offer(&legal[k], action) {
            return true;
        }
        k = k + 1;
    }
    false
}

impl Action {
    /// The word for the kind of the action.
    pub fn name(&self) -> (word: &'static str)
        ensures
            word@ == match *self {
                Action::Fold => "fold"@,
                Action::Check => "check"@,
                Action::Call(_) => "call"@,
                Action::Raise(_) => "raise"@,
            },
    {
        match *self {
            Action::Fold => "fold",
            Action::Check => "check",
            Action::Call(_) => "call",
            Action::Raise(_) => "raise",
        }
    }
}

impl LegalAction {
    /// The word for the kind of the offer.
    pub fn name(&self) -> (word: &'static str)
        ensures
            word@ == match *self {
                LegalAction::Fold => "fold"@,
                LegalAction::Check => "check"@,
                LegalAction::Call(_) => "call"@,
                LegalAction::Raise(_, _) => "raise"@,
            },
    {
        match *self {
            LegalAction::Fold => "fold",
            LegalAction::Check => "check",
            LegalAction::Call(_) => "call",
            LegalAction::Raise(_, _) => "raise",
        }
    }
}

impl Phase {
    /// The word for the phase.
    pub fn name(&self) -> (word: &'static str)
        ensures
            word@ == match *self {
                Phase::Preflop => "preflop"@,
                Phase::Flop => "flop"@,
                Phase::Turn => "turn"@,
                Phase::River => "river"@,
                Phase::Showdown => "showdown"@,
            },
    {
        match *self {
            Phase::Preflop => "preflop",
            Phase::Flop => "flop",
            Phase::Turn => "turn",
            Phase::River => "river",
            Phase::Showdown => "showdown",
        }
    }

    /// How many community cards lie on the table in this phase.
    pub open spec fn board_size(self) -> int {
        match self {
            Phase::Preflop => 0,
            Phase::Flop => 3,
            Phase::Turn => 4,
            Phase::River => 5,
            Phase::Showdown => 5,
        }
    }
}

} // verus!
