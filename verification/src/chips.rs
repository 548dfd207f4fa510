//! Sums of chip counts, and the facts about them that the settlement proofs
//! rest on.

use vstd::prelude::*;

verus! {

/// The sum of a sequence of chip counts.
pub open spec fn total(s: Seq<int>) -> int
    decreases s.len(),
{
    if s.len() == 0 {
        0
    } else {
        total(s.drop_last()) + s.last()
    }
}

/// The chip counts of a vector, as mathematical integers.
pub open spec fn ints(v: Seq<i32>) -> Seq<int> {
    Seq::new(v.len(), |i: int| v[i] as int)
}

/// No entry is negative.
pub open spec fn non_negative(s: Seq<int>) -> bool {
    forall|i: int| 0 <= i < s.len() ==> #[trigger] s[i] >= 0
}

/// Entry by entry, `a` is at most `b`.
pub open spec fn pointwise_le(a: Seq<int>, b: Seq<int>) -> bool {
    &&& a.len() == b.len()
    &&& forall|i: int| 0 <= i < a.len() ==> #[trigger] a[i] <= b[i]
}

/// The entry-by-entry sum of two sequences of equal length.
pub open spec fn pointwise_add(a: Seq<int>, b: Seq<int>) -> Seq<int> {
    Seq::new(a.len(), |i: int| a[i] + b[i])
}

/// The entry-by-entry difference of two sequences of equal length.
pub open spec fn pointwise_sub(a: Seq<int>, b: Seq<int>) -> Seq<int> {
    Seq::new(a.len(), |i: int| a[i] - b[i])
}

/// A sequence of `n` zeros.
pub open spec fn zeros(n: nat) -> Seq<int> {
    Seq::new(n, |i: int| 0int)
}

pub proof fn lemma_total_push(s: Seq<int>, x: int)
    ensures
        total(s.push(x)) == total(s) + x,
{
    assert(s.push(x).drop_last() =~= s);
}

pub proof fn lemma_total_take_step(s: Seq<int>, k: int)
    requires
        0 <= k < s.len(),
    ensures
        total(s.take(k + 1)) == total(s.take(k)) + s[k],
{
    assert(s.take(k + 1).drop_last() =~= s.take(k));
}

pub proof fn lemma_total_take_all(s: Seq<int>)
    ensures
        total(s.take(s.len() as int)) == total(s),
{
    assert(s.take(s.len() as int) =~= s);
}

pub proof fn lemma_total_non_negative(s: Seq<int>)
    requires
        non_negative(s),
    ensures
        total(s) >= 0,
    decreases s.len(),
{
    if s.len() > 0 {
        lemma_total_non_negative(s.drop_last());
    }
}

pub proof fn lemma_total_zeros(n: nat)
    ensures
        total(zeros(n)) == 0,
    decreases n,
{
    if n > 0 {
        assert(zeros(n).drop_last() =~= zeros((n - 1) as nat));
        lemma_total_zeros((n - 1) as nat);
    }
}

pub proof fn lemma_total_pointwise_le(a: Seq<int>, b: Seq<int>)
    requires
        pointwise_le(a, b),
    ensures
        total(a) <= total(b),
    decreases a.len(),
{
    if a.len() > 0 {
        lemma_total_pointwise_le(a.drop_last(), b.drop_last());
    }
}

pub proof fn lemma_total_pointwise_add(a: Seq<int>, b: Seq<int>)
    requires
        a.len() == b.len(),
    ensures
        total(pointwise_add(a, b)) == total(a) + total(b),
    decreases a.len(),
{
    if a.len() > 0 {
        assert(pointwise_add(a, b).drop_last() =~= pointwise_add(a.drop_last(), b.drop_last()));
        lemma_total_pointwise_add(a.drop_last(), b.drop_last());
    }
}

pub proof fn lemma_total_pointwise_sub(a: Seq<int>, b: Seq<int>)
    requires
        a.len() == b.len(),
    ensures
        total(pointwise_sub(a, b)) == total(a) - total(b),
    decreases a.len(),
{
    if a.len() > 0 {
        assert(pointwise_sub(a, b).drop_last() =~= pointwise_sub(a.drop_last(), b.drop_last()));
        lemma_total_pointwise_sub(a.drop_last(), b.drop_last());
    }
}

/// In a sequence without negative entries, a prefix sums to no more than the
/// whole.
pub proof fn lemma_total_prefix_le(s: Seq<int>, k: int)
    requires
        non_negative(s),
        0 <= k <= s.len(),
    ensures
        0 <= total(s.take(k)) <= total(s),
    decreases s.len() - k,
{
    if k == s.len() {
        lemma_total_take_all(s);
        lemma_total_non_negative(s);
    } else {
        lemma_total_take_step(s, k);
        lemma_total_prefix_le(s, k + 1);
        assert(non_negative(s.take(k)));
        lemma_total_non_negative(s.take(k));
    }
}

/// In a sequence without negative entries, no entry exceeds the sum.
pub proof fn lemma_total_bounds_entry(s: Seq<int>, i: int)
    requires
        non_negative(s),
        0 <= i < s.len(),
    ensures
        s[i] <= total(s),
{
    lemma_total_take_step(s, i);
    lemma_total_prefix_le(s, i);
    lemma_total_prefix_le(s, i + 1);
}

/// Adds up the chip counts of a vector.
pub fn sum_chips(v: &Vec<i32>) -> (sum: i32)
    requires
        non_negative(ints(v@)),
        total(ints(v@)) <= i32::MAX,
    ensures
        sum == total(ints(v@)),
{
    let mut sum: i32 = 0;
    let mut i: usize = 0;
    while i < v.len()
        invariant
            i <= v.len(),
            non_negative(ints(v@)),
            total(ints(v@)) <= i32::MAX,
            sum == total(ints(v@).take(i as int)),
        decreases v.len() - i,
    {
        proof {
            lemma_total_take_step(ints(v@), i as int);
            lemma_total_prefix_le(ints(v@), i as int + 1);
        }
        sum = sum + v[i];
        i = i + 1;
    }
    proof {
        lemma_total_take_all(ints(v@));
    }
    sum
}

} // verus!
