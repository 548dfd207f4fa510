//! Side pots: how the chips wagered in a hand are split into layers when
//! players are all-in for different amounts.

use crate::chips::{
    ints, lemma_total_non_negative, lemma_total_pointwise_le, lemma_total_pointwise_sub,
    lemma_total_prefix_le, lemma_total_take_all, lemma_total_take_step, non_negative, pointwise_le,
    pointwise_sub, total,
};
use vstd::prelude::*;

verus! {

/// One pot: its chips, and for each seat whether that seat may win it.
#[derive(Debug)]
pub struct Pot {
    pub amount: i32,
    pub eligible: Vec<bool>,
}

/// The mathematical content of a pot.
pub struct PotView {
    pub amount: int,
    pub eligible: Seq<bool>,
}

impl View for Pot {
    type V = PotView;

    open spec fn view(&self) -> PotView {
        PotView { amount: self.amount as int, eligible: self.eligible@ }
    }
}

/// The contents of a list of pots.
pub open spec fn pot_views(pots: Seq<Pot>) -> Seq<PotView> {
    Seq::new(pots.len(), |k: int| pots[k]@)
}

/// The number of `true` entries among the first `k` entries of a mask.
pub open spec fn count_true_upto(mask: Seq<bool>, k: nat) -> nat
    decreases k,
{
    if k == 0 {
        0
    } else {
        count_true_upto(mask, (k - 1) as nat) + if mask[k - 1] {
            1nat
        } else {
            0nat
        }
    }
}

/// The number of `true` entries of a mask.
pub open spec fn count_true(mask: Seq<bool>) -> nat {
    count_true_upto(mask, mask.len())
}

/// Seat `i` still has chips in the middle that no pot holds yet, and has not
/// folded.
pub open spec fn live(rem: Seq<int>, folded: Seq<bool>, i: int) -> bool {
    0 <= i < rem.len() && !folded[i] && rem[i] > 0
}

/// The seats that are live, as a mask.
pub open spec fn live_mask(rem: Seq<int>, folded: Seq<bool>) -> Seq<bool> {
    Seq::new(rem.len(), |i: int| !folded[i] && rem[i] > 0)
}

/// The smallest remaining contribution among the live seats below `k`, or 0
/// when none of them is live.
pub open spec fn lowest_live_upto(rem: Seq<int>, folded: Seq<bool>, k: nat) -> int
    decreases k,
{
    if k == 0 {
        0
    } else {
        let rest = lowest_live_upto(rem, folded, (k - 1) as nat);
        let x = rem[k - 1];
        if !folded[k - 1] && x > 0 && (rest == 0 || x < rest) {
            x
        } else {
            rest
        }
    }
}

/// The height of the next layer: the smallest remaining contribution among
/// the live seats, or 0 when no seat is live.
pub open spec fn lowest_live(rem: Seq<int>, folded: Seq<bool>) -> int {
    lowest_live_upto(rem, folded, rem.len())
}

/// What each seat puts into a layer of height `h`: `h`, or all that it has
/// left if that is less.
pub open spec fn taken(rem: Seq<int>, h: int) -> Seq<int> {
    Seq::new(rem.len(), |i: int| if rem[i] < h { rem[i] } else { h })
}

/// What each seat has left after a layer of height `h` was taken.
pub open spec fn peel(rem: Seq<int>, h: int) -> Seq<int> {
    pointwise_sub(rem, taken(rem, h))
}

/// The pot made of one layer of height `h`.
pub open spec fn layer(rem: Seq<int>, folded: Seq<bool>, h: int) -> PotView {
    PotView { amount: total(taken(rem, h)), eligible: live_mask(rem, folded) }
}

/// The side pots of a hand, lowest layer first. Each round takes the smallest
/// remaining contribution among the seats that have not folded, collects up to
/// that much from every seat, and opens the pot to the seats that have not
/// folded and put chips into it. It ends when no seat that has not folded has
/// chips left outside a pot.
pub open spec fn side_pots(rem: Seq<int>, folded: Seq<bool>) -> Seq<PotView>
    decreases count_true(live_mask(rem, folded)),
    via side_pots_decreases
{
    let h = lowest_live(rem, folded);
    if h <= 0 {
        Seq::empty()
    } else {
        seq![layer(rem, folded, h)].add(side_pots(peel(rem, h), folded))
    }
}

#[via_fn]
proof fn side_pots_decreases(rem: Seq<int>, folded: Seq<bool>) {
    let h = lowest_live(rem, folded);
    if h > 0 {
        lemma_peel_shrinks(rem, folded);
    }
}

/// The chips of a list of pots.
pub open spec fn pots_total(pots: Seq<PotView>) -> int
    decreases pots.len(),
{
    if pots.len() == 0 {
        0
    } else {
        pots_total(pots.drop_last()) + pots.last().amount
    }
}

/// The chips that no pot holds: what folded seats wagered above every seat
/// that stayed in.
pub open spec fn unclaimed(bets: Seq<int>, folded: Seq<bool>) -> int {
    total(bets) - pots_total(side_pots(bets, folded))
}

/// What `lowest_live_upto` finds: 0 exactly when no seat below `k` is live,
/// and otherwise the remaining contribution of a live seat that no live seat
/// undercuts.
pub proof fn lemma_lowest_live_upto(rem: Seq<int>, folded: Seq<bool>, k: nat)
    requires
        k <= rem.len(),
    ensures
        lowest_live_upto(rem, folded, k) >= 0,
        lowest_live_upto(rem, folded, k) == 0 <==> forall|i: int| 0 <= i < k ==> !live(rem, folded, i),
        lowest_live_upto(rem, folded, k) > 0 ==> exists|i: int|
            0 <= i < k && live(rem, folded, i) && rem[i] == lowest_live_upto(rem, folded, k),
        forall|i: int|
            0 <= i < k && live(rem, folded, i) ==> lowest_live_upto(rem, folded, k) <= rem[i],
    decreases k,
{
    if k > 0 {
        lemma_lowest_live_upto(rem, folded, (k - 1) as nat);
        let rest = lowest_live_upto(rem, folded, (k - 1) as nat);
        let h = lowest_live_upto(rem, folded, k);
        if h > 0 {
            if h == rest {
                let i = choose|i: int|
                    0 <= i < k - 1 && live(rem, folded, i) && rem[i] == rest;
                assert(0 <= i < k && live(rem, folded, i) && rem[i] == h);
            } else {
                assert(live(rem, folded, k - 1) && rem[k - 1] == h);
            }
        }
    }
}

/// A mask that implies another has no more `true` entries, and fewer below
/// any position where the two differ.
pub proof fn lemma_count_true_monotone(a: Seq<bool>, b: Seq<bool>, k: nat)
    requires
        a.len() == b.len(),
        k <= a.len(),
        forall|i: int| 0 <= i < a.len() ==> (#[trigger] a[i] ==> b[i]),
    ensures
        count_true_upto(a, k) <= count_true_upto(b, k),
        (exists|i: int| 0 <= i < k && b[i] && !a[i]) ==> count_true_upto(a, k) < count_true_upto(
            b,
            k,
        ),
    decreases k,
{
    if k > 0 {
        lemma_count_true_monotone(a, b, (k - 1) as nat);
        if exists|i: int| 0 <= i < k && b[i] && !a[i] {
            let i = choose|i: int| 0 <= i < k && b[i] && !a[i];
            if i < k - 1 {
                assert(exists|i: int| 0 <= i < k - 1 && b[i] && !a[i]);
            }
        }
    }
}

/// Taking a layer leaves fewer live seats.
pub proof fn lemma_peel_shrinks(rem: Seq<int>, folded: Seq<bool>)
    requires
        lowest_live(rem, folded) > 0,
    ensures
        count_true(live_mask(peel(rem, lowest_live(rem, folded)), folded)) < count_true(
            live_mask(rem, folded),
        ),
{
    let h = lowest_live(rem, folded);
    lemma_lowest_live_upto(rem, folded, rem.len());
    let i = choose|i: int| 0 <= i < rem.len() && live(rem, folded, i) && rem[i] == h;
    let before = live_mask(rem, folded);
    let after = live_mask(peel(rem, h), folded);
    assert(before[i] && !after[i]);
    lemma_count_true_monotone(after, before, before.len());
}

/// A layer holds what its seats gave up: the chips before are the pot plus
/// the chips after.
pub proof fn lemma_layer_conserves(rem: Seq<int>, h: int)
    ensures
        total(rem) == total(taken(rem, h)) + total(peel(rem, h)),
{
    lemma_total_pointwise_sub(rem, taken(rem, h));
}

/// The pots never hold more than was wagered, nor a negative amount.
pub proof fn lemma_side_pots_bounded(rem: Seq<int>, folded: Seq<bool>)
    requires
        non_negative(rem),
    ensures
        0 <= pots_total(side_pots(rem, folded)) <= total(rem),
        unclaimed(rem, folded) >= 0,
    decreases count_true(live_mask(rem, folded)),
{
    let h = lowest_live(rem, folded);
    if h > 0 {
        lemma_peel_shrinks(rem, folded);
        let rest = peel(rem, h);
        assert(non_negative(rest));
        assert(non_negative(taken(rem, h)));
        lemma_side_pots_bounded(rest, folded);
        lemma_layer_conserves(rem, h);
        lemma_total_non_negative(taken(rem, h));
        lemma_pots_total_prepend(layer(rem, folded, h), side_pots(rest, folded));
    } else {
        lemma_total_non_negative(rem);
    }
}

pub proof fn lemma_pots_total_prepend(first: PotView, rest: Seq<PotView>)
    ensures
        pots_total(seq![first].add(rest)) == first.amount + pots_total(rest),
    decreases rest.len(),
{
    let all = seq![first].add(rest);
    if rest.len() == 0 {
        assert(all.drop_last() =~= Seq::<PotView>::empty());
        assert(all.last() == first);
        assert(pots_total(all.drop_last()) == 0);
    } else {
        assert(all.drop_last() =~= seq![first].add(rest.drop_last()));
        assert(all.last() == rest.last());
        lemma_pots_total_prepend(first, rest.drop_last());
    }
}

/// Finds the height of the next layer: the smallest remaining contribution
/// among the seats that have not folded and have chips left, or 0 when there
/// is no such seat.
pub fn lowest_live_bet(rem: &Vec<i32>, folded: &Vec<bool>) -> (h: i32)
    requires
        rem.len() == folded.len(),
    ensures
        h == lowest_live(ints(rem@), folded@),
{
    let mut h: i32 = 0;
    let mut i: usize = 0;
    while i < rem.len()
        invariant
            i <= rem.len(),
            rem.len() == folded.len(),
            h == lowest_live_upto(ints(rem@), folded@, i as nat),
        decreases rem.len() - i,
    {
        let x = rem[i];
        if !folded[i] && x > 0 && (h == 0 || x < h) {
            h = x;
        }
        i = i + 1;
    }
    h
}

/// Takes one layer of height `h` off the remaining contributions: returns
/// the pot that the layer makes and what every seat has left.
pub fn take_layer(rem: &Vec<i32>, folded: &Vec<bool>, h: i32) -> (out: (Pot, Vec<i32>))
    requires
        rem.len() == folded.len(),
        non_negative(ints(rem@)),
        total(ints(rem@)) <= i32::MAX,
        h > 0,
    ensures
        out.0@ == layer(ints(rem@), folded@, h as int),
        ints(out.1@) == peel(ints(rem@), h as int),
{
    let ghost before = ints(rem@);
    let ghost given = taken(before, h as int);
    let mut amount: i32 = 0;
    let mut eligible: Vec<bool> = Vec::new();
    let mut rest: Vec<i32> = Vec::new();
    let mut i: usize = 0;
    proof {
        assert(non_negative(given));
        assert(pointwise_le(given, before));
        lemma_total_pointwise_le(given, before);
    }
    while i < rem.len()
        invariant
            i <= rem.len(),
            rem.len() == folded.len(),
            before == ints(rem@),
            given == taken(before, h as int),
            non_negative(given),
            total(given) <= i32::MAX,
            h > 0,
            amount == total(given.take(i as int)),
            eligible.len() == i,
            rest.len() == i,
            eligible@ == live_mask(before, folded@).take(i as int),
            ints(rest@) == peel(before, h as int).take(i as int),
        decreases rem.len() - i,
    {
        let x = rem[i];
        let t = if x < h { x } else { h };
        proof {
            lemma_total_take_step(given, i as int);
            lemma_total_prefix_le(given, i as int + 1);
        }
        let ghost rest_before = rest@;
        amount = amount + t;
        eligible.push(!folded[i] && x > 0);
        rest.push(x - t);
        i = i + 1;
        proof {
            assert(eligible@ =~= live_mask(before, folded@).take(i as int));
            assert forall|j: int| 0 <= j < i implies ints(rest@)[j] == peel(before, h as int)[j] by {
                if j < i - 1 {
                    assert(ints(rest_before)[j] == peel(before, h as int).take(i - 1)[j]);
                }
            }
            assert(ints(rest@) =~= peel(before, h as int).take(i as int));
        }
    }
    proof {
        lemma_total_take_all(given);
        assert(eligible@ =~= live_mask(before, folded@));
        assert(ints(rest@) =~= peel(before, h as int));
    }
    (Pot { amount, eligible }, rest)
}

/// Splits the chips wagered in a hand into its side pots, lowest layer first.
pub fn build_pots(bets: &Vec<i32>, folded: &Vec<bool>) -> (pots: Vec<Pot>)
    requires
        bets.len() == folded.len(),
        non_negative(ints(bets@)),
        total(ints(bets@)) <= i32::MAX,
    ensures
        pot_views(pots@) == side_pots(ints(bets@), folded@),
{
    let mut rem: Vec<i32> = bets.clone();
    let mut pots: Vec<Pot> = Vec::new();
    proof {
        assert(rem@ == bets@);
        assert(pot_views(pots@).add(side_pots(ints(rem@), folded@)) =~= side_pots(
            ints(bets@),
            folded@,
        ));
    }
    loop
        invariant
            rem.len() == folded.len(),
            non_negative(ints(rem@)),
            total(ints(rem@)) <= i32::MAX,
            pot_views(pots@).add(side_pots(ints(rem@), folded@)) == side_pots(
                ints(bets@),
                folded@,
            ),
        ensures
            lowest_live(ints(rem@), folded@) <= 0,
        decreases count_true(live_mask(ints(rem@), folded@)),
    {
        let h = lowest_live_bet(&rem, folded);
        if h <= 0 {
            break ;
        }
        let (pot, rest) = take_layer(&rem, folded, h);
        proof {
            let before = ints(rem@);
            let after = peel(before, h as int);
            lemma_peel_shrinks(before, folded@);
            lemma_layer_conserves(before, h as int);
            assert(non_negative(taken(before, h as int)));
            lemma_total_non_negative(taken(before, h as int));
            assert(non_negative(after));
            assert(pot_views(pots@.push(pot)) =~= pot_views(pots@).push(pot@));
            assert(pot_views(pots@).push(pot@).add(side_pots(after, folded@)) =~= pot_views(
                pots@,
            ).add(seq![pot@].add(side_pots(after, folded@))));
        }
        pots.push(pot);
        rem = rest;
    }
    proof {
        assert(side_pots(ints(rem@), folded@) =~= Seq::<PotView>::empty());
        assert(pot_views(pots@).add(Seq::<PotView>::empty()) =~= pot_views(pots@));
    }
    pots
}

} // verus!
