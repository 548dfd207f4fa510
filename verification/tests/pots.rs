use rust_poker_env::chips::sum_chips;
use rust_poker_env::pots::{build_pots, lowest_live_bet, take_layer};
use rust_poker_env::showdown::{award_pots, count_set, find_winners};
use rust_poker_env::HandRank;

#[test]
fn three_way_all_in_makes_main_and_side_pot() {
    let pots = build_pots(&vec![30, 80, 80], &vec![false, false, false]);
    assert_eq!(pots.len(), 2);
    assert_eq!(pots[0].amount, 90);
    assert_eq!(pots[0].eligible, vec![true, true, true]);
    assert_eq!(pots[1].amount, 100);
    assert_eq!(pots[1].eligible, vec![false, true, true]);
}

#[test]
fn short_stack_with_best_hand_wins_main_pot_only() {
    let pots = build_pots(&vec![30, 80, 80], &vec![false, false, false]);
    let ranks = vec![HandRank::StraightFlush(10), HandRank::OnePair(5), HandRank::HighCard(3)];
    let (payouts, remainder) = award_pots(&pots, &ranks);
    assert_eq!(payouts, vec![90, 100, 0]);
    assert_eq!(remainder, 0);
}

#[test]
fn uncalled_part_of_a_bet_is_a_pot_of_its_own() {
    let pots = build_pots(&vec![30, 80, 200], &vec![false, false, false]);
    assert_eq!(pots.len(), 3);
    assert_eq!(pots[2].amount, 120);
    assert_eq!(pots[2].eligible, vec![false, false, true]);
    let ranks = vec![HandRank::FullHouse(1), HandRank::FullHouse(1), HandRank::HighCard(0)];
    let (payouts, remainder) = award_pots(&pots, &ranks);
    assert_eq!(payouts, vec![45, 145, 120]);
    assert_eq!(remainder, 0);
}

#[test]
fn folded_chips_go_into_the_pot_without_eligibility() {
    let pots = build_pots(&vec![10, 20, 20], &vec![true, false, false]);
    assert_eq!(pots.len(), 1);
    assert_eq!(pots[0].amount, 50);
    assert_eq!(pots[0].eligible, vec![false, true, true]);
}

#[test]
fn folded_chips_above_every_contender_stay_outside_the_pots() {
    let pots = build_pots(&vec![50, 20], &vec![true, false]);
    assert_eq!(pots.len(), 1);
    assert_eq!(pots[0].amount, 40);
    assert_eq!(pots[0].eligible, vec![false, true]);
}

#[test]
fn no_bets_no_pots() {
    assert_eq!(build_pots(&vec![0, 0, 0], &vec![false, false, true]).len(), 0);
    assert_eq!(build_pots(&vec![], &vec![]).len(), 0);
    assert_eq!(build_pots(&vec![5, 7], &vec![true, true]).len(), 0);
}

#[test]
fn split_pot_leaves_odd_chips() {
    let pots = build_pots(&vec![34, 33, 33], &vec![false, false, false]);
    assert_eq!(pots.len(), 2);
    assert_eq!(pots[0].amount, 99);
    assert_eq!(pots[1].amount, 1);
    let same = HandRank::TwoPair(12);
    let (payouts, remainder) = award_pots(&pots, &vec![same, same, same]);
    assert_eq!(payouts, vec![34, 33, 33]);
    assert_eq!(remainder, 0);
    let pots = build_pots(&vec![50, 50, 50], &vec![true, false, false]);
    assert_eq!(pots[0].amount, 150);
    let (payouts, remainder) = award_pots(&pots, &vec![same, same, same]);
    assert_eq!(payouts, vec![0, 75, 75]);
    assert_eq!(remainder, 0);
    let pots = build_pots(&vec![25, 25, 25, 25], &vec![true, false, false, false]);
    let (payouts, remainder) = award_pots(&pots, &vec![same, same, same, same]);
    assert_eq!(payouts, vec![0, 33, 33, 33]);
    assert_eq!(remainder, 1);
}

#[test]
fn layer_height_is_lowest_live_bet() {
    assert_eq!(lowest_live_bet(&vec![30, 80, 200], &vec![false, false, false]), 30);
    assert_eq!(lowest_live_bet(&vec![30, 80, 200], &vec![true, false, false]), 80);
    assert_eq!(lowest_live_bet(&vec![0, 80, 200], &vec![false, false, false]), 80);
    assert_eq!(lowest_live_bet(&vec![30, 80], &vec![true, true]), 0);
    assert_eq!(lowest_live_bet(&vec![], &vec![]), 0);
}

#[test]
fn taking_a_layer_peels_every_seat() {
    let (pot, rest) = take_layer(&vec![30, 80, 200, 10], &vec![false, false, false, true], 30);
    assert_eq!(pot.amount, 100);
    assert_eq!(pot.eligible, vec![true, true, true, false]);
    assert_eq!(rest, vec![0, 50, 170, 0]);
}

#[test]
fn winners_are_the_strongest_eligible() {
    let ranks = vec![
        HandRank::FourOfAKind(3),
        HandRank::Flush(9),
        HandRank::Flush(9),
        HandRank::Flush(2),
    ];
    assert_eq!(
        find_winners(&vec![true, true, true, true], &ranks),
        vec![true, false, false, false]
    );
    assert_eq!(
        find_winners(&vec![false, true, true, true], &ranks),
        vec![false, true, true, false]
    );
    assert_eq!(
        find_winners(&vec![false, false, false, true], &ranks),
        vec![false, false, false, true]
    );
    assert_eq!(
        find_winners(&vec![false, false, false, false], &ranks),
        vec![false, false, false, false]
    );
}

#[test]
fn counting_and_summing() {
    assert_eq!(count_set(&vec![true, false, true, true]), 3);
    assert_eq!(count_set(&vec![]), 0);
    assert_eq!(sum_chips(&vec![100, 0, 250]), 350);
    assert_eq!(sum_chips(&vec![]), 0);
}

#[test]
fn a_folded_seat_takes_nothing_whatever_its_rank() {
    let pots = build_pots(&vec![10, 20, 20], &vec![true, false, false]);
    let ranks = vec![HandRank::StraightFlush(10), HandRank::OnePair(5), HandRank::HighCard(3)];
    let (payouts, remainder) = award_pots(&pots, &ranks);
    assert_eq!(payouts, vec![0, 50, 0]);
    assert_eq!(remainder, 0);
}

#[test]
fn nobody_takes_more_than_it_matched() {
    let bets = vec![30, 80, 200, 15];
    let pots = build_pots(&bets, &vec![false, false, false, true]);
    let ranks = vec![
        HandRank::FullHouse(9),
        HandRank::FullHouse(9),
        HandRank::HighCard(1),
        HandRank::StraightFlush(1),
    ];
    let (payouts, remainder) = award_pots(&pots, &ranks);
    assert_eq!(payouts, vec![52, 152, 120, 0]);
    assert_eq!(remainder, 1);
    for seat in 0..4 {
        let cap: i32 = bets.iter().map(|bet| (*bet).min(bets[seat])).sum();
        assert!(payouts[seat] <= cap);
    }
}

#[test]
fn turning_a_mask_round() {
    assert_eq!(
        rust_poker_env::showdown::turned(&vec![true, false, false]),
        vec![false, true, true]
    );
    assert_eq!(rust_poker_env::showdown::turned(&vec![]), Vec::<bool>::new());
}
