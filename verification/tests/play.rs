use rust_poker_env::{
    Action, Agent, Card, LegalAction, Observation, Phase, PokerEnv, PokerError,
};

fn dealing(order: &[(u8, u8)]) -> Vec<Card> {
    order.iter().rev().map(|&(rank, suit)| Card { rank, suit }).collect()
}

// Seat 0 holds aces; seat 1 holds nothing; the board helps nobody.
fn heads_up_deck() -> Vec<Card> {
    dealing(&[
        (12, 0), (12, 1), (0, 2), (5, 3),
        (11, 0), (7, 2), (2, 3), (1, 1), (6, 0),
    ])
}

#[derive(Clone, Copy)]
enum Style {
    Caller,
    Folder,
    Shover,
    Cheater,
    Silent,
}

struct Scripted {
    style: Style,
    asked: usize,
    last_seen: Vec<LegalAction>,
}

impl Scripted {
    fn new(style: Style) -> Scripted {
        Scripted { style, asked: 0, last_seen: Vec::new() }
    }
}

fn pick(legal: &Vec<LegalAction>, wanted: &[&str]) -> Option<Action> {
    for word in wanted {
        for offer in legal {
            if offer.name() == *word {
                return Some(match *offer {
                    LegalAction::Fold => Action::Fold,
                    LegalAction::Check => Action::Check,
                    LegalAction::Call(x) => Action::Call(x),
                    LegalAction::Raise(_, high) => Action::Raise(high),
                });
            }
        }
    }
    None
}

impl Agent for Scripted {
    fn choose_action(&mut self, _state: &Observation, legal: &Vec<LegalAction>) -> Option<Action> {
        self.asked += 1;
        self.last_seen = legal.clone();
        match self.style {
            Style::Caller => pick(legal, &["check", "call", "fold"]),
            Style::Folder => pick(legal, &["fold", "check", "call"]),
            Style::Shover => pick(legal, &["raise", "call", "check"]),
            Style::Cheater => Some(Action::Raise(1)),
            Style::Silent => None,
        }
    }
}

fn table(styles: &[Style]) -> (PokerEnv, Vec<Scripted>) {
    let env = PokerEnv::new_with_deck(styles.len(), 1, 2, 100, heads_up_deck()).unwrap();
    (env, styles.iter().map(|s| Scripted::new(*s)).collect())
}

#[test]
fn callers_play_to_showdown_and_the_better_hand_wins() {
    let (mut env, mut agents) = table(&[Style::Caller, Style::Caller]);
    let done = env.play_hand(&mut agents).unwrap();
    assert_eq!(done.payouts, vec![4, 0]);
    assert_eq!(done.remainder, 0);
    assert_eq!(env.stacks(), &vec![102, 98]);
    assert_eq!(env.current_phase(), Phase::Showdown);
    assert_eq!(env.community_cards().len(), 5);
    assert_eq!(agents[0].asked, 4);
    assert_eq!(agents[1].asked, 4);
}

#[test]
fn one_betting_round_asks_everybody_once() {
    let (mut env, mut agents) = table(&[Style::Caller, Style::Caller]);
    assert_eq!(env.step_bid(&mut agents), Ok(()));
    assert_eq!(env.bets(), &vec![2, 2]);
    assert_eq!(env.current_phase(), Phase::Preflop);
    assert_eq!(agents[0].asked, 1);
    assert_eq!(agents[1].asked, 1);
    assert_eq!(
        agents[0].last_seen,
        vec![LegalAction::Fold, LegalAction::Call(2), LegalAction::Raise(4, 100)]
    );
    assert_eq!(
        agents[1].last_seen,
        vec![LegalAction::Fold, LegalAction::Check, LegalAction::Raise(4, 100)]
    );
}

#[test]
fn fold_gives_the_pot_to_the_player_left() {
    let (mut env, mut agents) = table(&[Style::Folder, Style::Caller]);
    let done = env.play_hand(&mut agents).unwrap();
    assert_eq!(done.payouts, vec![0, 3]);
    assert_eq!(env.stacks(), &vec![99, 101]);
    assert_eq!(agents[0].asked, 1);
    assert_eq!(agents[1].asked, 0);
}

#[test]
fn all_in_and_call_eliminates_the_loser() {
    let (mut env, mut agents) = table(&[Style::Shover, Style::Shover]);
    let done = env.play_hand(&mut agents).unwrap();
    assert_eq!(done.payouts, vec![200, 0]);
    assert_eq!(env.stacks(), &vec![200]);
    assert_eq!(env.ids(), &vec![0]);
    assert_eq!(env.dead_ids(), &vec![1]);
    assert_eq!(agents[0].asked, 1);
    assert_eq!(agents[1].asked, 1);
    assert_eq!(agents[1].last_seen, vec![LegalAction::Call(100)]);
}

#[test]
fn agents_are_found_by_player_number_after_an_elimination() {
    let deck = dealing(&[
        (0, 2), (5, 3), (12, 0), (12, 1), (3, 2), (9, 1),
        (11, 0), (7, 2), (2, 3), (1, 1), (6, 0),
    ]);
    let mut env = PokerEnv::new_with_deck(3, 1, 2, 100, deck).unwrap();
    let mut agents = vec![
        Scripted::new(Style::Shover),
        Scripted::new(Style::Shover),
        Scripted::new(Style::Folder),
    ];
    let done = env.play_hand(&mut agents).unwrap();
    assert_eq!(done.payouts, vec![0, 201, 0]);
    assert_eq!(env.ids(), &vec![1, 2]);
    assert_eq!(env.dead_ids(), &vec![0]);
    assert_eq!(env.stacks(), &vec![201, 99]);
    assert_eq!(agents[2].asked, 1);
    assert_eq!(env.reset_with_deck(heads_up_deck()), Ok(()));
    let asked_before = (agents[0].asked, agents[1].asked, agents[2].asked);
    assert_eq!(env.step_bid(&mut agents), Ok(()));
    assert_eq!(agents[0].asked, asked_before.0);
    assert!(agents[1].asked > asked_before.1 || agents[2].asked > asked_before.2);
}

#[test]
fn an_answer_that_was_not_offered_stops_the_round() {
    let (mut env, mut agents) = table(&[Style::Cheater, Style::Caller]);
    assert_eq!(env.step_bid(&mut agents), Err(PokerError::InvalidAction));
    assert_eq!(env.bets(), &vec![1, 2]);
    assert_eq!(env.current_player(), 0);
    assert_eq!(agents[1].asked, 0);
    assert!(matches!(env.play_hand(&mut agents), Err(PokerError::InvalidAction)));
    assert_eq!(env.stacks(), &vec![100, 100]);
}

#[test]
fn no_answer_stops_the_round() {
    let (mut env, mut agents) = table(&[Style::Caller, Style::Silent]);
    assert_eq!(env.step_bid(&mut agents), Err(PokerError::InvalidAction));
    assert_eq!(env.bets(), &vec![2, 2]);
    assert_eq!(env.current_player(), 1);
}

#[test]
fn a_hand_at_showdown_has_no_further_phase() {
    let (mut env, mut agents) = table(&[Style::Caller, Style::Caller]);
    while env.current_phase() != Phase::Showdown {
        env.advance_phase().unwrap();
    }
    assert!(matches!(env.play_hand(&mut agents), Err(PokerError::PhaseError)));
}

#[test]
fn hands_in_a_row_keep_the_chips() {
    let (mut env, mut agents) = table(&[Style::Caller, Style::Caller]);
    let mut lost = 0;
    for _ in 0..20 {
        let before: i32 = env.stacks().iter().sum();
        let done = env.play_hand(&mut agents).unwrap();
        let after: i32 = env.stacks().iter().sum();
        assert_eq!(after + done.remainder, before);
        lost += done.remainder;
        if env.num_players() < 2 {
            break;
        }
        env.reset().unwrap();
    }
    assert_eq!(env.stacks().iter().sum::<i32>() + lost, 200);
}

#[test]
fn an_episode_ends_with_one_player_or_at_the_limit() {
    let (mut env, mut agents) = table(&[Style::Shover, Style::Shover, Style::Shover]);
    let hands = env.play_episode(&mut agents, 1000).unwrap();
    assert!(hands <= 1000);
    assert!(env.num_players() <= 1 || hands == 1000);
    assert_eq!(env.num_players() + env.dead_ids().len(), 3);
    assert!(env.stacks().iter().sum::<i32>() <= 300);
    assert!(env.stacks().iter().all(|stack| *stack >= 1));
}

#[test]
fn an_episode_of_no_hands_changes_nothing() {
    let (mut env, mut agents) = table(&[Style::Shover, Style::Shover]);
    assert_eq!(env.play_episode(&mut agents, 0), Ok(0));
    assert_eq!(env.bets(), &vec![1, 2]);
    assert_eq!(env.dealer_pos(), 1);
    assert_eq!(agents[0].asked, 0);
}

#[test]
fn an_episode_stops_at_the_limit() {
    let (mut env, mut agents) = table(&[Style::Caller, Style::Caller]);
    assert_eq!(env.play_episode(&mut agents, 3), Ok(3));
    assert_eq!(env.num_players(), 2);
    assert_eq!(env.dealer_pos(), 0);
    assert!(env.stacks().iter().sum::<i32>() <= 200);
}

#[test]
fn a_game_brings_everybody_back_with_the_initial_stack() {
    let (mut env, mut agents) = table(&[Style::Shover, Style::Shover, Style::Shover]);
    assert_eq!(env.play_game(&mut agents, 3, 1000), Ok(()));
    assert_eq!(env.num_players(), 3);
    assert_eq!(env.dead_ids().len(), 0);
    assert_eq!(env.stacks(), &vec![100, 100, 100]);
    assert_eq!(env.dealer_pos(), 1);
    assert_eq!(env.current_phase(), Phase::Preflop);
    assert_eq!(env.deck().len(), 46);
    let mut ids = env.ids().clone();
    ids.sort();
    assert_eq!(ids, vec![0, 1, 2]);
}

#[test]
fn a_game_of_no_episodes_changes_nothing() {
    let (mut env, mut agents) = table(&[Style::Shover, Style::Shover]);
    assert_eq!(env.play_game(&mut agents, 0, 10), Ok(()));
    assert_eq!(env.play_game(&mut agents, -4, 10), Ok(()));
    assert_eq!(env.bets(), &vec![1, 2]);
    assert_eq!(env.deck().len(), 5);
    assert_eq!(agents[0].asked, 0);
}

#[test]
fn a_game_stops_at_an_invalid_answer() {
    let (mut env, mut agents) = table(&[Style::Caller, Style::Cheater]);
    assert_eq!(env.play_game(&mut agents, 2, 10), Err(PokerError::InvalidAction));
    assert_eq!(env.num_players(), 2);
    assert_eq!(env.stacks(), &vec![100, 100]);
}

#[test]
fn an_episode_with_one_player_plays_nothing() {
    let (mut env, mut agents) = table(&[Style::Shover]);
    assert_eq!(env.play_episode(&mut agents, 5), Ok(0));
    assert_eq!(env.bets(), &vec![2]);
    assert_eq!(env.stacks(), &vec![100]);
    assert_eq!(env.dealer_pos(), 0);
    assert_eq!(env.deck().len(), 7);
    assert_eq!(agents[0].asked, 0);
}

#[test]
fn an_episode_leaves_the_table_as_the_last_hand_was_settled() {
    let (mut env, mut agents) = table(&[Style::Caller, Style::Folder, Style::Caller]);
    assert_eq!(env.play_episode(&mut agents, 2), Ok(2));
    assert_eq!(env.current_phase(), Phase::Showdown);
    assert_eq!(env.community_cards().len(), 5);
    assert_eq!(env.dealer_pos(), 0);
    assert_eq!(env.num_players(), 3);
    assert!(env.stacks().iter().sum::<i32>() <= 300);
    assert!(env.stacks().iter().sum::<i32>() >= 298);
}

#[test]
fn a_game_without_hands_only_revives() {
    let (mut env, mut agents) = table(&[Style::Cheater, Style::Silent]);
    assert_eq!(env.play_game(&mut agents, 3, 0), Ok(()));
    assert_eq!(env.num_players(), 2);
    assert_eq!(env.stacks(), &vec![100, 100]);
    assert_eq!(env.dealer_pos(), 1);
    assert_eq!(env.deck().len(), 48);
    assert_eq!(agents[0].asked, 0);
    assert_eq!(agents[1].asked, 0);
}

#[test]
fn a_game_of_one_player_asks_nobody() {
    let (mut env, mut agents) = table(&[Style::Cheater]);
    assert_eq!(env.play_game(&mut agents, 2, 10), Ok(()));
    assert_eq!(env.num_players(), 1);
    assert_eq!(env.stacks(), &vec![100]);
    assert_eq!(agents[0].asked, 0);
}

#[test]
fn a_game_on_an_empty_table_revives_everybody() {
    let mut env = PokerEnv::new(26, 1, 2, 10).unwrap();
    env.kill(25);
    for _ in 0..25 {
        env.kill(0);
    }
    assert_eq!(env.num_players(), 0);
    let mut agents: Vec<Scripted> = (0..26).map(|_| Scripted::new(Style::Caller)).collect();
    assert_eq!(env.play_game(&mut agents, 1, 5), Ok(()));
    assert_eq!(env.num_players(), 26);
}

#[test]
fn a_round_on_a_table_with_a_bet_set_by_hand_ends_settled() {
    let deck = dealing(&[
        (0, 2), (5, 3), (12, 0), (12, 1), (3, 2), (9, 1),
        (11, 0), (7, 2), (2, 3), (1, 1), (6, 0),
    ]);
    let mut env = PokerEnv::new_with_deck(3, 1, 2, 100, deck).unwrap();
    env.apply_bet(1, 50);
    let mut agents = vec![
        Scripted::new(Style::Caller),
        Scripted::new(Style::Caller),
        Scripted::new(Style::Caller),
    ];
    assert_eq!(env.step_bid(&mut agents), Ok(()));
    assert_eq!(env.bets(), &vec![50, 50, 50]);
    assert_eq!(agents[1].last_seen[1], LegalAction::Check);
}

#[test]
fn a_folded_out_hand_asks_nobody() {
    let (mut env, mut agents) = table(&[Style::Cheater, Style::Silent]);
    assert_eq!(env.apply_action(Action::Fold), Ok(false));
    let done = env.play_hand(&mut agents).unwrap();
    assert_eq!(done.payouts, vec![0, 3]);
    assert_eq!(env.stacks(), &vec![99, 101]);
    assert_eq!(agents[0].asked + agents[1].asked, 0);
}

#[test]
fn a_hand_in_which_everybody_is_all_in_asks_nobody() {
    let (mut env, mut agents) = table(&[Style::Cheater, Style::Silent]);
    assert_eq!(env.apply_action(Action::Raise(100)), Ok(true));
    assert_eq!(env.apply_action(Action::Call(100)), Ok(false));
    let done = env.play_hand(&mut agents).unwrap();
    assert_eq!(done.payouts, vec![200, 0]);
    assert_eq!(env.stacks(), &vec![200]);
    assert_eq!(env.dead_ids(), &vec![1]);
    assert_eq!(agents[0].asked + agents[1].asked, 0);
}
