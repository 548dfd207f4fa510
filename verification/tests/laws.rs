use rust_poker_env::{Action, Card, HandRank, LegalAction, Phase, PokerEnv};

fn dealing(order: &[(u8, u8)]) -> Vec<Card> {
    order.iter().rev().map(|&(rank, suit)| Card { rank, suit }).collect()
}

fn deck() -> Vec<Card> {
    dealing(&[
        (12, 0), (12, 1), (11, 0), (11, 1), (10, 0), (10, 1), (9, 0), (9, 1),
        (0, 2), (1, 3), (5, 2), (7, 3), (9, 2),
    ])
}

fn highest(env: &PokerEnv) -> i32 {
    env.bets().iter().copied().max().unwrap()
}

// The offers at a table, held against what must hold of every offer.
fn held_to_the_rules(env: &PokerEnv) {
    let seat = env.current_player();
    let top = highest(env);
    let bet = env.bets()[seat];
    let stack = env.stacks()[seat];
    let offers = env.get_available_actions();
    for offer in &offers {
        match *offer {
            LegalAction::Call(amount) => {
                assert_ne!(bet, top);
                assert!(bet < amount && amount <= stack && amount <= top);
            }
            LegalAction::Check => assert_eq!(bet, top),
            LegalAction::Raise(low, high) => {
                assert!(stack > top);
                assert_eq!(high, stack);
                if stack >= 2 * top {
                    assert_eq!(low, top + env.max_raise());
                } else {
                    assert_eq!(low, stack);
                }
                assert!(low <= high);
            }
            LegalAction::Fold => {}
        }
    }
    if bet == top {
        assert!(offers.iter().all(|offer| !matches!(offer, LegalAction::Call(_))));
    }
    if stack <= top {
        assert!(offers.iter().all(|offer| !matches!(offer, LegalAction::Raise(_, _))));
    }
}

#[test]
fn offers_follow_the_rules_through_a_hand() {
    let mut env = PokerEnv::new_with_deck(4, 5, 10, 200, deck()).unwrap();
    let script = [
        Action::Raise(30),
        Action::Call(30),
        Action::Raise(120),
        Action::Fold,
        Action::Raise(200),
        Action::Call(200),
        Action::Call(200),
    ];
    held_to_the_rules(&env);
    for action in script {
        let request = env.next_decision();
        assert!(request.is_some());
        held_to_the_rules(&env);
        assert_eq!(request.unwrap(), env.get_available_actions());
        let before: i32 = env.stacks().iter().sum();
        let bets_before = env.bets().clone();
        assert!(env.apply_action(action).is_ok());
        assert_eq!(env.stacks().iter().sum::<i32>(), before);
        for seat in 0..4 {
            assert!(env.bets()[seat] >= bets_before[seat]);
            assert!(env.bets()[seat] <= env.stacks()[seat]);
            assert_eq!(env.all_in()[seat], env.bets()[seat] == env.stacks()[seat]);
        }
        held_to_the_rules(&env);
    }
    assert_eq!(env.bets(), &vec![200, 200, 200, 10]);
    assert_eq!(env.folded(), &vec![false, false, false, true]);
    assert_eq!(env.all_in(), &vec![true, true, true, false]);
    assert_eq!(env.max_raise(), 90);
}

#[test]
fn no_call_is_offered_without_an_outstanding_bet() {
    let mut env = PokerEnv::new_with_deck(3, 1, 2, 100, deck()).unwrap();
    assert_eq!(env.apply_action(Action::Call(2)), Ok(true));
    assert_eq!(env.apply_action(Action::Call(2)), Ok(true));
    assert_eq!(env.current_player(), 0);
    assert_eq!(
        env.get_available_actions(),
        vec![LegalAction::Fold, LegalAction::Check, LegalAction::Raise(4, 100)]
    );
    held_to_the_rules(&env);
}

#[test]
fn settlement_keeps_the_chips_up_to_odd_chips() {
    let mut env = PokerEnv::new_with_deck(4, 5, 10, 200, deck()).unwrap();
    for action in [Action::Raise(35), Action::Fold, Action::Call(35), Action::Call(35)] {
        assert!(env.apply_action(action).is_ok());
    }
    while env.current_phase() != Phase::Showdown {
        env.advance_phase().unwrap();
    }
    assert_eq!(env.bets(), &vec![35, 0, 35, 35]);
    let same = HandRank::Straight(7);
    let before: i32 = env.stacks().iter().sum();
    let done = env.settle(&vec![same, same, same, HandRank::HighCard(0)]).unwrap();
    assert_eq!(done.pots.len(), 1);
    assert_eq!(done.pots[0].amount, 105);
    assert_eq!(done.pots[0].eligible, vec![true, false, true, true]);
    assert_eq!(done.payouts, vec![52, 0, 52, 0]);
    assert_eq!(done.remainder, 1);
    assert_eq!(env.stacks(), &vec![217, 200, 217, 165]);
    assert_eq!(env.stacks().iter().sum::<i32>() + done.remainder, before);
}

#[test]
fn lone_contender_takes_all_whatever_the_ranks() {
    for ranks in [
        vec![HandRank::HighCard(0), HandRank::HighCard(0), HandRank::HighCard(0)],
        vec![HandRank::StraightFlush(9), HandRank::HighCard(0), HandRank::FourOfAKind(3)],
    ] {
        let mut env = PokerEnv::new_with_deck(3, 1, 2, 100, deck()).unwrap();
        assert_eq!(env.apply_action(Action::Raise(10)), Ok(true));
        assert_eq!(env.apply_action(Action::Fold), Ok(true));
        assert_eq!(env.apply_action(Action::Fold), Ok(false));
        let done = env.settle(&ranks).unwrap();
        assert_eq!(done.payouts, vec![0, 13, 0]);
        assert_eq!(env.stacks(), &vec![98, 103, 99]);
    }
}
