//! Sums of scores and point values.

use vstd::prelude::*;

verus! {

/// The sum of a sequence of numbers.
pub open spec fn total(s: Seq<u32>) -> int
    decreases s.len(),
{
    if s.len() == 0 {
        0
    } else {
        total(s.drop_last()) + s.last()
    }
}

/// A sum is not negative.
pub proof fn lemma_total_nonnegative(s: Seq<u32>)
    ensures
        total(s) >= 0,
    decreases s.len(),
{
    if s.len() > 0 {
        lemma_total_nonnegative(s.drop_last());
    }
}

/// Appending a number adds it to the sum.
pub proof fn lemma_total_push(s: Seq<u32>, x: u32)
    ensures
        total(s.push(x)) == total(s) + x,
{
    assert(s.push(x).drop_last() =~= s);
}

/// The sum of a prefix grows with the prefix and stays within the whole.
pub proof fn lemma_total_take(s: Seq<u32>, i: int)
    requires
        0 <= i < s.len(),
    ensures
        total(s.take(i + 1)) == total(s.take(i)) + s[i],
        total(s.take(i + 1)) <= total(s),
    decreases s.len() - i,
{
    assert(s.take(i + 1).drop_last() =~= s.take(i));
    if i + 1 < s.len() {
        lemma_total_take(s, i + 1);
        lemma_total_nonnegative(s.take(i + 1));
    } else {
        assert(s.take(i + 1) =~= s);
    }
}

/// No member is larger than the sum.
pub proof fn lemma_total_bounds_member(s: Seq<u32>, i: int)
    requires
        0 <= i < s.len(),
    ensures
        s[i] <= total(s),
{
    lemma_total_take(s, i);
    lemma_total_nonnegative(s.take(i));
}

/// Replacing a member changes the sum by the difference.
pub proof fn lemma_total_update(s: Seq<u32>, i: int, v: u32)
    requires
        0 <= i < s.len(),
    ensures
        total(s.update(i, v)) == total(s) - s[i] + v,
    decreases s.len(),
{
    if i == s.len() - 1 {
        assert(s.update(i, v).drop_last() =~= s.drop_last());
    } else {
        assert(s.update(i, v).drop_last() =~= s.drop_last().update(i, v));
        lemma_total_update(s.drop_last(), i, v);
    }
}

/// Removing a member takes it from the sum.
pub proof fn lemma_total_remove(s: Seq<u32>, i: int)
    requires
        0 <= i < s.len(),
    ensures
        total(s.remove(i)) == total(s) - s[i],
    decreases s.len(),
{
    if i == s.len() - 1 {
        assert(s.remove(i) =~= s.drop_last());
    } else {
        assert(s.remove(i).drop_last() =~= s.drop_last().remove(i));
        assert(s.remove(i).last() == s.last());
        lemma_total_remove(s.drop_last(), i);
    }
}

/// A sequence of zeros sums to zero.
pub proof fn lemma_total_zeros(s: Seq<u32>)
    requires
        forall|i: int| 0 <= i < s.len() ==> s[i] == 0,
    ensures
        total(s) == 0,
    decreases s.len(),
{
    if s.len() > 0 {
        lemma_total_zeros(s.drop_last());
    }
}

/// The sum of `v`, where it fits.
pub fn checked_total(v: &Vec<u32>) -> (r: Option<u32>)
    ensures
        match r {
            Some(t) => t == total(v@),
            None => total(v@) > u32::MAX,
        },
{
    let mut sum: u32 = 0;
    let mut i: usize = 0;
    assert(v@.take(0) =~= Seq::empty());
    while i < v.len()
        invariant
            i <= v.len(),
            sum == total(v@.take(i as int)),
        decreases v.len() - i,
    {
        proof {
            lemma_total_take(v@, i as int);
        }
        if v[i] > u32::MAX - sum {
            return None;
        }
        sum = sum + v[i];
        i += 1;
    }
    assert(v@.take(v.len() as int) =~= v@);
    Some(sum)
}
} // verus!
