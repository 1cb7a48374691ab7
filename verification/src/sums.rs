//! Sums of integer sequences, for conservation arguments.

use vstd::prelude::*;

verus! {

/// The sum of a sequence of mathematical integers.
pub open spec fn sum_int(s: Seq<int>) -> int
    decreases s.len(),
{
    if s.len() == 0 {
        0
    } else {
        sum_int(s.drop_last()) + s.last()
    }
}

/// Appending one element adds it to the sum.
pub proof fn lemma_sum_push(s: Seq<int>, v: int)
    ensures
        sum_int(s.push(v)) == sum_int(s) + v,
{
    assert(s.push(v).drop_last() =~= s);
}

/// A sum of non-negative elements is non-negative.
pub proof fn lemma_sum_nonneg(s: Seq<int>)
    requires
        forall|i: int| 0 <= i < s.len() ==> s[i] >= 0,
    ensures
        sum_int(s) >= 0,
    decreases s.len(),
{
    if s.len() > 0 {
        lemma_sum_nonneg(s.drop_last());
    }
}

/// Each element of a sequence of non-negative integers is at most the sum.
pub proof fn lemma_elem_le_sum(s: Seq<int>, i: int)
    requires
        forall|k: int| 0 <= k < s.len() ==> s[k] >= 0,
        0 <= i < s.len(),
    ensures
        s[i] <= sum_int(s),
    decreases s.len(),
{
    if i + 1 == s.len() {
        lemma_sum_nonneg(s.drop_last());
    } else {
        lemma_elem_le_sum(s.drop_last(), i);
    }
}

/// Replacing one element changes the sum by the difference.
pub proof fn lemma_sum_update(s: Seq<int>, i: int, v: int)
    requires
        0 <= i < s.len(),
    ensures
        sum_int(s.update(i, v)) == sum_int(s) - s[i] + v,
    decreases s.len(),
{
    if i + 1 == s.len() {
        assert(s.update(i, v).drop_last() =~= s.drop_last());
    } else {
        assert(s.update(i, v).drop_last() =~= s.drop_last().update(i, v));
        lemma_sum_update(s.drop_last(), i, v);
    }
}

/// A sequence bounded above element-wise has a sum bounded by the count
/// times the bound.
pub proof fn lemma_sum_le_scale(s: Seq<int>, c: int)
    requires
        forall|i: int| 0 <= i < s.len() ==> s[i] <= c,
        c >= 0,
    ensures
        sum_int(s) <= s.len() * c,
    decreases s.len(),
{
    if s.len() > 0 {
        lemma_sum_le_scale(s.drop_last(), c);
        assert(s.len() * c == s.drop_last().len() * c + c) by (nonlinear_arith)
            requires s.len() >= 1, s.drop_last().len() == s.len() - 1;
    }
}

/// The sum over a prefix one longer gains the new element.
pub proof fn lemma_sum_take_step(s: Seq<int>, k: int)
    requires
        0 <= k < s.len(),
    ensures
        sum_int(s.take(k + 1)) == sum_int(s.take(k)) + s[k],
{
    assert(s.take(k + 1).drop_last() =~= s.take(k));
}

/// The full-length prefix is the whole sequence.
pub proof fn lemma_sum_take_all(s: Seq<int>)
    ensures
        sum_int(s.take(s.len() as int)) == sum_int(s),
{
    assert(s.take(s.len() as int) =~= s);
}

} // verus!
