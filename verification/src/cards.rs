//! Playing cards, the deck, and the two places where the engine leans on
//! outside code: shuffling and seven-card hand strength.

use crate::actions::PokerError;
use vstd::prelude::*;

verus! {

/// One playing card. `rank` runs from 0 (a two) to 12 (an ace); `suit` runs
/// from 0 to 3 (spades, clubs, hearts, diamonds).
#[derive(Clone, Copy, Debug, PartialEq, Eq, Structural)]
pub struct Card {
    pub rank: u8,
    pub suit: u8,
}

impl Card {
    /// A card is valid when its rank and suit are within their ranges.
    pub open spec fn valid(self) -> bool {
        self.rank < 13 && self.suit < 4
    }

    /// The letter of the card's rank: a digit for two to nine, then `T`, `J`,
    /// `Q`, `K` and `A`.
    pub open spec fn rank_letter(self) -> char {
        match self.rank {
            0 => '2',
            1 => '3',
            2 => '4',
            3 => '5',
            4 => '6',
            5 => '7',
            6 => '8',
            7 => '9',
            8 => 'T',
            9 => 'J',
            10 => 'Q',
            11 => 'K',
            _ => 'A',
        }
    }

    /// The letter of the card's suit: `s`, `c`, `h` or `d`.
    pub open spec fn suit_letter(self) -> char {
        match self.suit {
            0 => 's',
            1 => 'c',
            2 => 'h',
            _ => 'd',
        }
    }

    /// The letter of the card's rank.
    pub fn rank_char(&self) -> (letter: char)
        ensures
            letter == self.rank_letter(),
    {
        match self.rank {
            0 => '2',
            1 => '3',
            2 => '4',
            3 => '5',
            4 => '6',
            5 => '7',
            6 => '8',
            7 => '9',
            8 => 'T',
            9 => 'J',
            10 => 'Q',
            11 => 'K',
            _ => 'A',
        }
    }

    /// The letter of the card's suit.
    pub fn suit_char(&self) -> (letter: char)
        ensures
            letter == self.suit_letter(),
    {
        match self.suit {
            0 => 's',
            1 => 'c',
            2 => 'h',
            _ => 'd',
        }
    }

    /// Position of the card in the unshuffled deck.
    pub open spec fn index(self) -> int {
        self.rank * 4 + self.suit
    }
}

/// Every card of a sequence is valid.
pub open spec fn all_valid(cards: Seq<Card>) -> bool {
    forall|i: int| 0 <= i < cards.len() ==> (#[trigger] cards[i]).valid()
}

/// The unshuffled deck: ranks ascending, the four suits of each rank together.
pub open spec fn full_deck() -> Seq<Card> {
    Seq::new(52, |k: int| Card { rank: (k / 4) as u8, suit: (k % 4) as u8 })
}

/// The cards that a hand can be dealt from: valid cards, none twice.
pub open spec fn proper_deck(deck: Seq<Card>) -> bool {
    all_valid(deck) && deck.no_duplicates()
}

/// The deck holds the 52 cards of the full deck, in any order.
pub open spec fn shuffled(deck: Seq<Card>) -> bool {
    deck.to_multiset() == full_deck().to_multiset()
}

/// The full deck holds 52 valid cards, none twice.
pub proof fn lemma_full_deck_proper()
    ensures
        full_deck().len() == 52,
        proper_deck(full_deck()),
{
    let deck = full_deck();
    assert forall|i: int, j: int| 0 <= i < deck.len() && 0 <= j < deck.len() && i != j implies deck[i]
        != deck[j] by {
        assert(deck[i].index() == i);
        assert(deck[j].index() == j);
    }
}

/// A shuffled deck holds 52 valid cards, none twice.
pub proof fn lemma_shuffled_proper(deck: Seq<Card>)
    requires
        shuffled(deck),
    ensures
        deck.len() == 52,
        proper_deck(deck),
{
    let full = full_deck();
    lemma_full_deck_proper();
    full.lemma_multiset_has_no_duplicates();
    deck.lemma_multiset_has_no_duplicates_conv();
    deck.to_multiset_ensures();
    full.to_multiset_ensures();
    assert forall|i: int| 0 <= i < deck.len() implies (#[trigger] deck[i]).valid() by {
        assert(deck.contains(deck[i]));
        assert(deck.to_multiset().count(deck[i]) > 0);
        assert(full.contains(deck[i]));
        let k = choose|k: int| 0 <= k < full.len() && full[k] == deck[i];
        assert(full[k].valid());
    }
}

/// Builds the unshuffled 52-card deck.
pub fn fresh_deck() -> (deck: Vec<Card>)
    ensures
        deck@ == full_deck(),
{
    let mut deck: Vec<Card> = Vec::new();
    let mut rank: u8 = 0;
    while rank < 13
        invariant
            rank <= 13,
            deck@.len() == rank * 4,
            forall|k: int| 0 <= k < deck@.len() ==> deck@[k] == full_deck()[k],
        decreases 13 - rank,
    {
        let mut suit: u8 = 0;
        while suit < 4
            invariant
                rank < 13,
                suit <= 4,
                deck@.len() == rank * 4 + suit,
                forall|k: int| 0 <= k < deck@.len() ==> deck@[k] == full_deck()[k],
            decreases 4 - suit,
        {
            deck.push(Card { rank, suit });
            suit = suit + 1;
        }
        rank = rank + 1;
    }
    assert(deck@ =~= full_deck());
    deck
}

/// The `n` cards on top of a deck, in the order in which they are dealt: the
/// last card of the deck first.
pub open spec fn top_cards(deck: Seq<Card>, n: int) -> Seq<Card> {
    deck.subrange(deck.len() - n, deck.len() as int).reverse()
}

/// Deals `n` cards from the top of the deck. Fails, and leaves the deck as
/// it is, when the deck holds fewer than `n` cards.
pub fn draw(deck: &mut Vec<Card>, n: usize) -> (result: Result<Vec<Card>, PokerError>)
    ensures
        n <= old(deck)@.len() ==> result is Ok && result->Ok_0@ == top_cards(old(deck)@, n as int)
            && final(deck)@ == old(deck)@.take(old(deck)@.len() - n),
        n > old(deck)@.len() ==> result is Err && result->Err_0 == PokerError::DeckExhausted
            && final(deck)@ == old(deck)@,
{
    if deck.len() < n {
        return Err(PokerError::DeckExhausted);
    }
    let ghost before = deck@;
    let len = deck.len();
    let mut cards: Vec<Card> = Vec::new();
    let mut drawn: usize = 0;
    while drawn < n
        invariant
            drawn <= n <= len,
            len == before.len(),
            deck@ == before.take(len - drawn),
            cards@ == top_cards(before, drawn as int),
        decreases n - drawn,
    {
        let card = deck.pop().unwrap();
        cards.push(card);
        drawn = drawn + 1;
        proof {
            assert(deck@ =~= before.take(len - drawn));
            assert(cards@ =~= top_cards(before, drawn as int));
        }
    }
    Ok(cards)
}

/// Puts the cards in a random order, using `rand`'s `SliceRandom::shuffle`
/// with the thread-local generator of `rand::thread_rng`. The order that comes
/// out is not determined; the shuffle only swaps elements, so the cards
/// afterwards are the cards before, each as often as before.
#[verifier::external_body]
pub(crate) fn shuffle_cards(cards: &mut Vec<Card>)
    ensures
        final(cards)@.to_multiset() == old(cards)@.to_multiset(),
{
    rand::seq::SliceRandom::shuffle(cards.as_mut_slice(), &mut rand::thread_rng());
}

/// Builds a deck of the 52 cards in a random order.
pub fn new_shuffled() -> (deck: Vec<Card>)
    ensures
        shuffled(deck@),
{
    let mut deck = fresh_deck();
    shuffle_cards(&mut deck);
    deck
}

/// The class of a five-card poker hand and its strength within that class.
/// The classes are listed from the weakest to the strongest; within one class
/// a greater number is a stronger hand.
#[derive(Clone, Copy, Debug, PartialEq, Eq, Structural)]
pub enum HandRank {
    HighCard(u32),
    OnePair(u32),
    TwoPair(u32),
    ThreeOfAKind(u32),
    Straight(u32),
    Flush(u32),
    FullHouse(u32),
    FourOfAKind(u32),
    StraightFlush(u32),
}

impl HandRank {
    /// The class of the hand, from 0 (high card) to 8 (straight flush).
    pub open spec fn class(self) -> int {
        match self {
            HandRank::HighCard(_) => 0,
            HandRank::OnePair(_) => 1,
            HandRank::TwoPair(_) => 2,
            HandRank::ThreeOfAKind(_) => 3,
            HandRank::Straight(_) => 4,
            HandRank::Flush(_) => 5,
            HandRank::FullHouse(_) => 6,
            HandRank::FourOfAKind(_) => 7,
            HandRank::StraightFlush(_) => 8,
        }
    }

    /// The strength of the hand within its class.
    pub open spec fn value(self) -> int {
        match self {
            HandRank::HighCard(v) => v as int,
            HandRank::OnePair(v) => v as int,
            HandRank::TwoPair(v) => v as int,
            HandRank::ThreeOfAKind(v) => v as int,
            HandRank::Straight(v) => v as int,
            HandRank::Flush(v) => v as int,
            HandRank::FullHouse(v) => v as int,
            HandRank::FourOfAKind(v) => v as int,
            HandRank::StraightFlush(v) => v as int,
        }
    }

    /// One number that orders all ranks: a hand of a higher class is stronger,
    /// and within a class the hand with the greater value.
    pub open spec fn strength(self) -> int {
        self.class() * 0x1_0000_0000 + self.value()
    }

    /// Computes the number by which ranks are ordered.
    pub fn strength_key(&self) -> (key: u64)
        ensures
            key == self.strength(),
    {
        let (class, value): (u64, u32) = match *self {
            HandRank::HighCard(v) => (0, v),
            HandRank::OnePair(v) => (1, v),
            HandRank::TwoPair(v) => (2, v),
            HandRank::ThreeOfAKind(v) => (3, v),
            HandRank::Straight(v) => (4, v),
            HandRank::Flush(v) => (5, v),
            HandRank::FullHouse(v) => (6, v),
            HandRank::FourOfAKind(v) => (7, v),
            HandRank::StraightFlush(v) => (8, v),
        };
        class * 0x1_0000_0000 + value as u64
    }

    /// Whether this hand is strictly stronger than the other.
    pub fn beats(&self, other: &HandRank) -> (stronger: bool)
        ensures
            stronger == (self.strength() > other.strength()),
    {
        self.strength_key() > other.strength_key()
    }
}

/// The cards of a hand that can be ranked: five to seven valid cards, no card
/// twice.
pub open spec fn rankable(cards: Seq<Card>) -> bool {
    &&& 5 <= cards.len() <= 7
    &&& all_valid(cards)
    &&& cards.no_duplicates()
}

/// The rank that `rs_poker` gives to the best five-card hand among the given
/// cards.
pub uninterp spec fn hand_rank(cards: Seq<Card>) -> HandRank;

/// The rank type of `rs_poker`, under a short name.
type Ranked = rs_poker::core::Rank;

/// Ranks five to seven cards with `rs_poker`: the cards are put into a `Hand`
/// by `Hand::new_with_cards` and ranked by `Rankable::rank`. The rank depends
/// on the cards alone. The evaluator is written for five cards or more, and
/// counts at most four cards of one value.
#[verifier::external_body]
pub(crate) fn rank_cards(cards: &Vec<Card>) -> (rank: HandRank)
    requires
        rankable(cards@),
    ensures
        rank == hand_rank(cards@),
{
    let hand = rs_poker::core::Hand::new_with_cards(
        cards.iter().map(|c| rs_poker::core::Card::new(c.rank.into(), c.suit.into())).collect()
    );
    match rs_poker::core::Rankable::rank(&hand) {
        Ranked::HighCard(v) => HandRank::HighCard(v),
        Ranked::OnePair(v) => HandRank::OnePair(v),
        Ranked::TwoPair(v) => HandRank::TwoPair(v),
        Ranked::ThreeOfAKind(v) => HandRank::ThreeOfAKind(v),
        Ranked::Straight(v) => HandRank::Straight(v),
        Ranked::Flush(v) => HandRank::Flush(v),
        Ranked::FullHouse(v) => HandRank::FullHouse(v),
        Ranked::FourOfAKind(v) => HandRank::FourOfAKind(v),
        Ranked::StraightFlush(v) => HandRank::StraightFlush(v),
    }
}

} // verus!
