//! Sums of sequences of numbers, and how they change with the sequence.

use vstd::prelude::*;

verus! {

/// The sum of the numbers of a sequence.
pub open spec fn sum_of(s: Seq<nat>) -> nat
    decreases s.len(),
{
    if s.len() == 0 {
        0
    } else {
        sum_of(s.drop_last()) + s.last()
    }
}

/// The sum of two sequences, one after the other, is the sum of their sums.
pub proof fn lemma_sum_concat(a: Seq<nat>, b: Seq<nat>)
    ensures
        sum_of(a + b) == sum_of(a) + sum_of(b),
    decreases b.len(),
{
    if b.len() == 0 {
        assert(a + b =~= a);
    } else {
        lemma_sum_concat(a, b.drop_last());
        assert((a + b).drop_last() =~= a + b.drop_last());
    }
}

/// The sum of a sequence of one number is the number.
pub proof fn lemma_sum_single(x: nat)
    ensures
        sum_of(seq![x]) == x,
{
    let one = seq![x];
    assert(one.len() == 1);
    assert(one.last() == x);
    assert(one.drop_last() =~= Seq::<nat>::empty());
    assert(sum_of(one.drop_last()) == 0);
}

/// A number put into a sequence adds to the sum.
pub proof fn lemma_sum_insert(s: Seq<nat>, k: int, x: nat)
    requires
        0 <= k <= s.len(),
    ensures
        sum_of(s.insert(k, x)) == sum_of(s) + x,
{
    let head = s.subrange(0, k);
    let tail = s.subrange(k, s.len() as int);
    assert(s =~= head + tail);
    assert(s.insert(k, x) =~= (head + seq![x]) + tail);
    lemma_sum_concat(head, tail);
    lemma_sum_concat(head, seq![x]);
    lemma_sum_concat(head + seq![x], tail);
    lemma_sum_single(x);
}

/// A number that takes the place of another changes the sum by their difference.
pub proof fn lemma_sum_update(s: Seq<nat>, k: int, x: nat)
    requires
        0 <= k < s.len(),
    ensures
        sum_of(s.update(k, x)) + s[k] == sum_of(s) + x,
{
    let head = s.subrange(0, k);
    let tail = s.subrange(k + 1, s.len() as int);
    assert(s =~= (head + seq![s[k]]) + tail);
    assert(s.update(k, x) =~= (head + seq![x]) + tail);
    lemma_sum_concat(head, seq![s[k]]);
    lemma_sum_concat(head + seq![s[k]], tail);
    lemma_sum_concat(head, seq![x]);
    lemma_sum_concat(head + seq![x], tail);
    lemma_sum_single(x);
    lemma_sum_single(s[k]);
}

/// The sum without the first number.
pub proof fn lemma_sum_drop_first(s: Seq<nat>)
    requires
        s.len() > 0,
    ensures
        sum_of(s.drop_first()) + s[0] == sum_of(s),
{
    assert(s =~= seq![s[0]] + s.drop_first());
    lemma_sum_concat(seq![s[0]], s.drop_first());
    lemma_sum_single(s[0]);
}

/// The sum of zeros is zero.
pub proof fn lemma_sum_zeros(s: Seq<nat>)
    requires
        forall|i: int| 0 <= i < s.len() ==> #[trigger] s[i] == 0,
    ensures
        sum_of(s) == 0,
    decreases s.len(),
{
    if s.len() > 0 {
        lemma_sum_zeros(s.drop_last());
    }
}

} // verus!
