use rust_poker_env::{
    Action, Card, HandRank, LegalAction, Phase, PokerEnv, PokerError,
};

fn dealing(order: &[(u8, u8)]) -> Vec<Card> {
    order.iter().rev().map(|&(rank, suit)| Card { rank, suit }).collect()
}

// Seat 0 holds aces, seat 1 kings, seat 2 queens; the board helps nobody.
fn three_handed_deck() -> Vec<Card> {
    dealing(&[
        (12, 0), (12, 1), (11, 0), (11, 1), (10, 0), (10, 1),
        (0, 2), (1, 3), (5, 2), (7, 3), (9, 2),
    ])
}

fn three_handed() -> PokerEnv {
    PokerEnv::new_with_deck(3, 1, 2, 100, three_handed_deck()).unwrap()
}

fn to_showdown(env: &mut PokerEnv) {
    while env.current_phase() != Phase::Showdown {
        env.advance_phase().unwrap();
    }
}

#[test]
fn first_hand_is_dealt_and_blinds_are_posted() {
    let env = three_handed();
    assert_eq!(env.num_players(), 3);
    assert_eq!(env.ids(), &vec![0, 1, 2]);
    assert_eq!(env.dead_ids(), &Vec::<usize>::new());
    assert_eq!(env.dealer_pos(), 1);
    assert_eq!(env.current_player(), 1);
    assert_eq!(env.current_phase(), Phase::Preflop);
    assert_eq!(env.stacks(), &vec![100, 100, 100]);
    assert_eq!(env.bets(), &vec![2, 0, 1]);
    assert_eq!(env.folded(), &vec![false, false, false]);
    assert_eq!(env.all_in(), &vec![false, false, false]);
    assert_eq!(env.max_raise(), 2);
    assert_eq!(env.small_blind(), 1);
    assert_eq!(env.big_blind(), 2);
    assert_eq!(env.initial_stack(), 100);
    assert_eq!(env.community_cards().len(), 0);
    assert_eq!(env.deck().len(), 5);
    assert_eq!(
        env.player_cards()[0],
        (Card { rank: 12, suit: 0 }, Card { rank: 12, suit: 1 })
    );
    assert_eq!(
        env.player_cards()[2],
        (Card { rank: 10, suit: 0 }, Card { rank: 10, suit: 1 })
    );
}

#[test]
fn blinds_are_capped_by_the_stack() {
    let env = PokerEnv::new_with_deck(2, 5, 10, 7, three_handed_deck()).unwrap();
    assert_eq!(env.dealer_pos(), 1);
    assert_eq!(env.bets(), &vec![5, 7]);
    assert_eq!(env.all_in(), &vec![false, true]);
    assert_eq!(env.max_raise(), 7);
    assert_eq!(env.current_player(), 0);
}

#[test]
fn single_player_posts_against_itself() {
    let env = PokerEnv::new_with_deck(1, 1, 2, 50, three_handed_deck()).unwrap();
    assert_eq!(env.dealer_pos(), 0);
    assert_eq!(env.current_player(), 0);
    assert_eq!(env.bets(), &vec![2]);
    assert_eq!(env.get_available_actions(), vec![]);
}

#[test]
fn too_few_cards_exhaust_the_deck() {
    let short = dealing(&[(0, 0), (1, 0), (2, 0), (3, 0), (4, 0)]);
    let result = PokerEnv::new_with_deck(3, 1, 2, 100, short);
    assert!(matches!(result, Err(PokerError::DeckExhausted)));
    assert!(matches!(PokerEnv::new(27, 1, 2, 10), Err(PokerError::DeckExhausted)));
    assert!(PokerEnv::new(26, 1, 2, 10).is_ok());
}

#[test]
fn opening_offer_has_fold_call_and_raise_from_the_floor() {
    let env = three_handed();
    assert_eq!(
        env.get_available_actions(),
        vec![LegalAction::Fold, LegalAction::Call(2), LegalAction::Raise(4, 100)]
    );
}

#[test]
fn raise_lifts_the_floor_and_reopens_the_round() {
    let mut env = three_handed();
    assert_eq!(env.apply_action(Action::Raise(10)), Ok(true));
    assert_eq!(env.bets(), &vec![2, 10, 1]);
    assert_eq!(env.max_raise(), 8);
    assert_eq!(env.current_player(), 2);
    assert_eq!(
        env.get_available_actions(),
        vec![LegalAction::Fold, LegalAction::Call(10), LegalAction::Raise(18, 100)]
    );
    assert_eq!(env.apply_action(Action::Raise(20)), Ok(true));
    assert_eq!(env.max_raise(), 10);
    assert_eq!(env.current_player(), 0);
    assert_eq!(env.apply_action(Action::Call(20)), Ok(true));
    assert_eq!(env.current_player(), 1);
    assert_eq!(env.apply_action(Action::Call(20)), Ok(false));
    assert_eq!(env.bets(), &vec![20, 20, 20]);
    assert_eq!(env.current_player(), 1);
}

#[test]
fn a_small_raise_leaves_the_floor() {
    let mut env = three_handed();
    assert_eq!(env.apply_action(Action::Raise(4)), Ok(true));
    assert_eq!(env.max_raise(), 2);
}

#[test]
fn stack_below_twice_the_bet_can_only_shove() {
    let mut env = three_handed();
    assert_eq!(env.apply_action(Action::Raise(60)), Ok(true));
    assert_eq!(
        env.get_available_actions(),
        vec![LegalAction::Fold, LegalAction::Call(60), LegalAction::Raise(100, 100)]
    );
    assert_eq!(env.apply_action(Action::Raise(99)), Err(PokerError::InvalidAction));
    assert_eq!(env.apply_action(Action::Raise(100)), Ok(true));
    assert_eq!(env.all_in(), &vec![false, false, true]);
    assert_eq!(env.max_raise(), 58);
}

#[test]
fn no_raise_when_the_stack_does_not_exceed_the_bet() {
    let mut env = three_handed();
    assert_eq!(env.apply_action(Action::Raise(100)), Ok(true));
    assert_eq!(env.all_in(), &vec![false, true, false]);
    assert_eq!(env.max_raise(), 98);
    assert_eq!(
        env.get_available_actions(),
        vec![LegalAction::Fold, LegalAction::Call(100)]
    );
}

#[test]
fn last_active_player_is_offered_the_call_alone() {
    let mut env = three_handed();
    assert_eq!(env.apply_action(Action::Raise(100)), Ok(true));
    assert_eq!(env.apply_action(Action::Fold), Ok(true));
    assert_eq!(env.current_player(), 0);
    assert_eq!(env.get_available_actions(), vec![LegalAction::Call(100)]);
    assert_eq!(env.apply_action(Action::Fold), Err(PokerError::InvalidAction));
    assert_eq!(env.apply_action(Action::Call(100)), Ok(false));
    assert_eq!(env.all_in(), &vec![true, true, false]);
}

#[test]
fn all_in_player_is_offered_nothing() {
    let mut env = three_handed();
    assert_eq!(env.apply_action(Action::Raise(100)), Ok(true));
    assert_eq!(env.apply_action(Action::Call(100)), Ok(true));
    assert_eq!(env.apply_action(Action::Call(100)), Ok(false));
    assert_eq!(env.current_player(), 0);
    assert_eq!(env.get_available_actions(), vec![]);
    assert_eq!(env.apply_action(Action::Check), Err(PokerError::InvalidAction));
    env.begin_round();
    assert_eq!(env.next_decision(), None);
}

#[test]
fn actions_that_are_not_offered_are_refused_and_change_nothing() {
    let mut env = three_handed();
    for action in [Action::Check, Action::Call(3), Action::Raise(3), Action::Raise(101), Action::Call(0)] {
        assert_eq!(env.apply_action(action), Err(PokerError::InvalidAction));
        assert_eq!(env.bets(), &vec![2, 0, 1]);
        assert_eq!(env.folded(), &vec![false, false, false]);
        assert_eq!(env.current_player(), 1);
        assert_eq!(env.max_raise(), 2);
    }
}

#[test]
fn folds_leave_one_contender_and_close_the_round() {
    let mut env = three_handed();
    assert_eq!(env.apply_action(Action::Fold), Ok(true));
    assert_eq!(env.current_player(), 2);
    assert_eq!(env.apply_action(Action::Fold), Ok(false));
    assert_eq!(env.folded(), &vec![false, true, true]);
    assert_eq!(env.current_player(), 2);
}

#[test]
fn a_folded_player_cannot_act() {
    let mut env = three_handed();
    assert_eq!(env.apply_action(Action::Fold), Ok(true));
    assert_eq!(env.apply_action(Action::Fold), Ok(false));
    assert_eq!(env.current_player(), 2);
    assert_eq!(env.folded(), &vec![false, true, true]);
    for action in [Action::Fold, Action::Check, Action::Call(2), Action::Raise(10)] {
        assert_eq!(env.apply_action(action), Err(PokerError::InvalidAction));
        assert_eq!(env.bets(), &vec![2, 0, 1]);
    }
}

#[test]
fn apply_bet_sets_the_bet_and_the_all_in_flag() {
    let mut env = three_handed();
    env.apply_bet(1, 50);
    assert_eq!(env.bets(), &vec![2, 50, 1]);
    assert_eq!(env.all_in(), &vec![false, false, false]);
    env.apply_bet(1, 100);
    assert_eq!(env.bets(), &vec![2, 100, 1]);
    assert_eq!(env.all_in(), &vec![false, true, false]);
}

#[test]
fn observation_is_the_view_of_the_player_on_turn() {
    let env = three_handed();
    let state = env.get_state();
    assert_eq!(state.player_cards, (Card { rank: 11, suit: 0 }, Card { rank: 11, suit: 1 }));
    assert_eq!(state.community_cards, vec![]);
    assert_eq!(state.stacks, vec![100, 100, 100]);
    assert_eq!(state.bets, vec![2, 0, 1]);
    assert_eq!(state.phase, Phase::Preflop);
    assert_eq!(state.current_player, 1);
    assert_eq!(state.folded, vec![false, false, false]);
    assert_eq!(state.all_in, vec![false, false, false]);
}

#[test]
fn phases_deal_three_one_one_and_none() {
    let mut env = three_handed();
    assert_eq!(env.advance_phase(), Ok(()));
    assert_eq!(env.current_phase(), Phase::Flop);
    assert_eq!(
        env.community_cards(),
        &vec![Card { rank: 0, suit: 2 }, Card { rank: 1, suit: 3 }, Card { rank: 5, suit: 2 }]
    );
    assert_eq!(env.current_player(), 2);
    assert_eq!(env.deck().len(), 2);
    assert_eq!(env.advance_phase(), Ok(()));
    assert_eq!(env.current_phase(), Phase::Turn);
    assert_eq!(env.community_cards().len(), 4);
    assert_eq!(env.community_cards()[3], Card { rank: 7, suit: 3 });
    assert_eq!(env.advance_phase(), Ok(()));
    assert_eq!(env.current_phase(), Phase::River);
    assert_eq!(env.community_cards()[4], Card { rank: 9, suit: 2 });
    assert_eq!(env.deck().len(), 0);
    env.apply_bet(0, 5);
    assert_eq!(env.advance_phase(), Ok(()));
    assert_eq!(env.current_phase(), Phase::Showdown);
    assert_eq!(env.community_cards().len(), 5);
    assert_eq!(env.current_player(), 2);
    assert_eq!(env.advance_phase(), Err(PokerError::PhaseError));
    assert_eq!(env.current_phase(), Phase::Showdown);
    assert_eq!(env.bets(), &vec![5, 0, 1]);
}

#[test]
fn a_phase_without_cards_exhausts_the_deck() {
    let deck = dealing(&[(0, 0), (1, 0), (2, 0), (3, 0), (4, 0), (5, 0)]);
    let mut env = PokerEnv::new_with_deck(2, 1, 2, 100, deck).unwrap();
    assert_eq!(env.deck().len(), 2);
    assert_eq!(env.advance_phase(), Err(PokerError::DeckExhausted));
    assert_eq!(env.current_phase(), Phase::Preflop);
    assert_eq!(env.deck().len(), 2);
    assert_eq!(env.community_cards().len(), 0);
    assert_eq!(env.current_player(), 0);
}

#[test]
fn turn_seeking_skips_folded_seats() {
    let mut env = three_handed();
    assert_eq!(env.apply_action(Action::Raise(4)), Ok(true));
    assert_eq!(env.apply_action(Action::Fold), Ok(true));
    assert_eq!(env.apply_action(Action::Call(4)), Ok(false));
    assert_eq!(env.advance_phase(), Ok(()));
    assert_eq!(env.current_player(), 2);
    env.begin_round();
    assert_eq!(
        env.next_decision(),
        Some(vec![LegalAction::Fold, LegalAction::Check, LegalAction::Raise(6, 100)])
    );
    assert_eq!(env.current_player(), 0);
    assert_eq!(env.apply_action(Action::Check), Ok(true));
    assert_eq!(env.current_player(), 1);
    assert_eq!(
        env.next_decision(),
        Some(vec![LegalAction::Fold, LegalAction::Check, LegalAction::Raise(6, 100)])
    );
    assert_eq!(env.apply_action(Action::Check), Ok(false));
}

#[test]
fn lone_contender_who_owes_nothing_ends_the_round() {
    let mut env = three_handed();
    assert_eq!(env.apply_action(Action::Raise(4)), Ok(true));
    assert_eq!(env.apply_action(Action::Fold), Ok(true));
    assert_eq!(env.apply_action(Action::Fold), Ok(false));
    assert_eq!(env.advance_phase(), Ok(()));
    env.begin_round();
    assert_eq!(env.next_decision(), None);
    assert_eq!(env.current_player(), 1);
}

#[test]
fn split_pot_keeps_the_odd_chip_off_the_table() {
    let mut env = three_handed();
    assert_eq!(env.apply_action(Action::Raise(4)), Ok(true));
    assert_eq!(env.apply_action(Action::Fold), Ok(true));
    assert_eq!(env.apply_action(Action::Call(4)), Ok(false));
    to_showdown(&mut env);
    let ranks = vec![HandRank::OnePair(1), HandRank::OnePair(1), HandRank::StraightFlush(9)];
    let done = env.settle(&ranks).unwrap();
    assert_eq!(done.pots.len(), 1);
    assert_eq!(done.pots[0].amount, 9);
    assert_eq!(done.pots[0].eligible, vec![true, true, false]);
    assert_eq!(done.payouts, vec![4, 4, 0]);
    assert_eq!(done.remainder, 1);
    assert_eq!(env.stacks(), &vec![100, 100, 99]);
    assert_eq!(env.ids(), &vec![0, 1, 2]);
    assert_eq!(env.stacks().iter().sum::<i32>() + done.remainder, 300);
}

#[test]
fn showdown_ranks_the_cards() {
    let mut env = three_handed();
    assert_eq!(env.apply_action(Action::Raise(4)), Ok(true));
    assert_eq!(env.apply_action(Action::Fold), Ok(true));
    assert_eq!(env.apply_action(Action::Call(4)), Ok(false));
    to_showdown(&mut env);
    let done = env.resolution().unwrap();
    assert_eq!(done.payouts, vec![9, 0, 0]);
    assert_eq!(done.remainder, 0);
    assert_eq!(env.stacks(), &vec![105, 96, 99]);
}

#[test]
fn better_cards_at_another_seat_win_too() {
    let deck = dealing(&[
        (3, 0), (8, 1), (11, 0), (11, 1), (10, 0), (10, 1),
        (0, 2), (1, 3), (5, 2), (7, 3), (9, 2),
    ]);
    let mut env = PokerEnv::new_with_deck(3, 1, 2, 100, deck).unwrap();
    assert_eq!(env.apply_action(Action::Call(2)), Ok(true));
    assert_eq!(env.apply_action(Action::Call(2)), Ok(true));
    assert_eq!(env.apply_action(Action::Check), Ok(false));
    to_showdown(&mut env);
    let done = env.resolution().unwrap();
    assert_eq!(done.payouts, vec![0, 6, 0]);
    assert_eq!(env.stacks(), &vec![98, 104, 98]);
}

#[test]
fn board_played_by_all_splits_the_pot() {
    let deck = dealing(&[
        (0, 0), (1, 1), (0, 1), (1, 2),
        (12, 3), (11, 3), (10, 3), (9, 3), (8, 3),
    ]);
    let mut env = PokerEnv::new_with_deck(2, 1, 2, 100, deck).unwrap();
    assert_eq!(env.apply_action(Action::Call(2)), Ok(true));
    assert_eq!(env.apply_action(Action::Check), Ok(false));
    to_showdown(&mut env);
    let done = env.resolution().unwrap();
    assert_eq!(done.payouts, vec![2, 2]);
    assert_eq!(done.remainder, 0);
    assert_eq!(env.stacks(), &vec![100, 100]);
}

#[test]
fn losers_of_an_all_in_leave_the_table_until_revived() {
    let mut env = three_handed();
    assert_eq!(env.apply_action(Action::Raise(100)), Ok(true));
    assert_eq!(env.apply_action(Action::Call(100)), Ok(true));
    assert_eq!(env.apply_action(Action::Call(100)), Ok(false));
    to_showdown(&mut env);
    let done = env.resolution().unwrap();
    assert_eq!(done.pots.len(), 1);
    assert_eq!(done.pots[0].amount, 300);
    assert_eq!(done.payouts, vec![300, 0, 0]);
    assert_eq!(env.num_players(), 1);
    assert_eq!(env.stacks(), &vec![300]);
    assert_eq!(env.ids(), &vec![0]);
    assert_eq!(env.dead_ids(), &vec![1, 2]);
    assert_eq!(env.reset_with_deck(three_handed_deck()), Ok(()));
    assert_eq!(env.ids(), &vec![0]);
    assert_eq!(env.stacks(), &vec![300]);
    assert_eq!(env.revive_with_deck(three_handed_deck()), Ok(()));
    assert_eq!(env.ids(), &vec![0, 1, 2]);
    assert_eq!(env.dead_ids(), &Vec::<usize>::new());
    assert_eq!(env.stacks(), &vec![100, 100, 100]);
    assert_eq!(env.dealer_pos(), 1);
    assert_eq!(env.bets(), &vec![2, 0, 1]);
}

#[test]
fn revive_with_a_short_deck_changes_nothing() {
    let mut env = three_handed();
    env.kill(2);
    let short = dealing(&[(0, 0), (1, 0), (2, 0), (3, 0), (4, 0)]);
    assert_eq!(env.revive_with_deck(short), Err(PokerError::DeckExhausted));
    assert_eq!(env.ids(), &vec![0, 1]);
    assert_eq!(env.dead_ids(), &vec![2]);
}

#[test]
fn shuffled_reset_and_revive_deal_a_full_hand() {
    let mut env = three_handed();
    env.kill(0);
    assert_eq!(env.reset(), Ok(()));
    assert_eq!(env.num_players(), 2);
    assert_eq!(env.deck().len(), 48);
    assert_eq!(env.dealer_pos(), 0);
    assert_eq!(env.revive(), Ok(()));
    assert_eq!(env.num_players(), 3);
    assert_eq!(env.ids(), &vec![1, 2, 0]);
    assert_eq!(env.deck().len(), 46);
    assert_eq!(env.dealer_pos(), 1);
    assert_eq!(env.stacks(), &vec![100, 100, 100]);
}

#[test]
fn kill_removes_a_seat_from_every_list() {
    let mut env = three_handed();
    env.kill(1);
    assert_eq!(env.num_players(), 2);
    assert_eq!(env.ids(), &vec![0, 2]);
    assert_eq!(env.dead_ids(), &vec![1]);
    assert_eq!(env.stacks(), &vec![100, 100]);
    assert_eq!(env.bets(), &vec![2, 1]);
    assert_eq!(env.folded().len(), 2);
    assert_eq!(env.all_in().len(), 2);
    assert_eq!(
        env.player_cards()[1],
        (Card { rank: 10, suit: 0 }, Card { rank: 10, suit: 1 })
    );
}

#[test]
fn chips_wagered_above_every_contender_stop_the_settlement() {
    let mut env = three_handed();
    env.apply_bet(1, 50);
    assert_eq!(env.apply_action(Action::Fold), Ok(true));
    let ranks = vec![HandRank::HighCard(1), HandRank::HighCard(2), HandRank::HighCard(3)];
    let result = env.settle(&ranks);
    assert!(matches!(result, Err(PokerError::ChipConservationViolation)));
    assert_eq!(env.stacks(), &vec![100, 100, 100]);
    assert_eq!(env.bets(), &vec![2, 50, 1]);
    assert_eq!(env.num_players(), 3);
}

#[test]
fn dealer_moves_one_seat_each_hand() {
    let mut env = three_handed();
    assert_eq!(env.dealer_pos(), 1);
    assert_eq!(env.reset_with_deck(three_handed_deck()), Ok(()));
    assert_eq!(env.dealer_pos(), 2);
    assert_eq!(env.current_player(), 2);
    assert_eq!(env.bets(), &vec![1, 2, 0]);
    assert_eq!(env.reset_with_deck(three_handed_deck()), Ok(()));
    assert_eq!(env.dealer_pos(), 0);
    assert_eq!(env.bets(), &vec![0, 1, 2]);
    env.kill(1);
    assert_eq!(env.reset_with_deck(three_handed_deck()), Ok(()));
    assert_eq!(env.dealer_pos(), 1);
    assert_eq!(env.reset_with_deck(three_handed_deck()), Ok(()));
    assert_eq!(env.dealer_pos(), 0);
}

#[test]
fn fold_out_gives_everything_to_the_seat_left_even_above_its_bet() {
    let mut env = PokerEnv::new_with_deck(2, 5, 10, 100, three_handed_deck()).unwrap();
    assert_eq!(env.current_player(), 0);
    env.apply_bet(0, 50);
    assert_eq!(env.apply_action(Action::Fold), Ok(false));
    let done = env.resolution().unwrap();
    assert_eq!(done.pots.len(), 1);
    assert_eq!(done.pots[0].amount, 60);
    assert_eq!(done.pots[0].eligible, vec![false, true]);
    assert_eq!(done.payouts, vec![0, 60]);
    assert_eq!(done.remainder, 0);
    assert_eq!(env.stacks(), &vec![50, 150]);
}

#[test]
fn fold_out_is_settled_before_showdown_and_without_ranks() {
    let mut env = three_handed();
    assert_eq!(env.apply_action(Action::Raise(10)), Ok(true));
    assert_eq!(env.apply_action(Action::Fold), Ok(true));
    assert_eq!(env.apply_action(Action::Fold), Ok(false));
    assert_eq!(env.current_phase(), Phase::Preflop);
    assert_eq!(
        env.showdown_ranks(),
        vec![HandRank::HighCard(0), HandRank::HighCard(0), HandRank::HighCard(0)]
    );
    let done = env.resolution().unwrap();
    assert_eq!(done.payouts, vec![0, 13, 0]);
    assert_eq!(env.stacks(), &vec![98, 103, 99]);
}

#[test]
fn showdown_ranks_leave_folded_seats_unranked() {
    let mut env = three_handed();
    assert_eq!(env.apply_action(Action::Raise(4)), Ok(true));
    assert_eq!(env.apply_action(Action::Fold), Ok(true));
    assert_eq!(env.apply_action(Action::Call(4)), Ok(false));
    to_showdown(&mut env);
    let ranks = env.showdown_ranks();
    assert_eq!(ranks.len(), 3);
    assert_eq!(ranks[2], HandRank::HighCard(0));
    assert!(matches!(ranks[0], HandRank::OnePair(_)));
    assert!(matches!(ranks[1], HandRank::OnePair(_)));
    assert!(ranks[0].beats(&ranks[1]));
}
