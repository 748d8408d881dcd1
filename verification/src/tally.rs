//! Sums over sequences of numbers.

use vstd::prelude::*;

verus! {

/// The sum of the numbers of a sequence.
pub open spec fn total(s: Seq<nat>) -> nat
    decreases s.len(),
{
    if s.len() == 0 {
        0
    } else {
        total(s.drop_last()) + s.last()
    }
}

/// The sum of a sequence of zeros is 0.
pub proof fn lemma_total_zero(s: Seq<nat>)
    requires
        forall|i: int| 0 <= i < s.len() ==> s[i] == 0,
    ensures
        total(s) == 0,
    decreases s.len(),
{
    if s.len() > 0 {
        lemma_total_zero(s.drop_last());
    }
}

/// To raise one number of a sequence by one raises the sum by one.
pub proof fn lemma_total_after_increment(s: Seq<nat>, i: int)
    requires
        0 <= i < s.len(),
    ensures
        total(s.update(i, s[i] + 1)) == total(s) + 1,
    decreases s.len(),
{
    let changed = s.update(i, s[i] + 1);
    if i == s.len() - 1 {
        assert(changed.drop_last() =~= s.drop_last());
    } else {
        lemma_total_after_increment(s.drop_last(), i);
        assert(changed.drop_last() =~= s.drop_last().update(i, s[i] + 1));
    }
}

/// The sum of a sequence whose numbers are all `m` is `m` times its length.
pub proof fn lemma_total_uniform(s: Seq<nat>, m: nat)
    requires
        forall|i: int| 0 <= i < s.len() ==> s[i] == m,
    ensures
        total(s) == s.len() * m,
    decreases s.len(),
{
    if s.len() > 0 {
        lemma_total_uniform(s.drop_last(), m);
        assert(s.len() * m == (s.len() - 1) * m + m) by (nonlinear_arith);
    } else {
        assert(0 * m == 0) by (nonlinear_arith);
    }
}

/// Where no number of one sequence is above the number at the same place
/// of another, the sum of the first is not above the sum of the second; and
/// where the sums are the same, so are the sequences.
pub proof fn lemma_total_below(a: Seq<nat>, b: Seq<nat>)
    requires
        a.len() == b.len(),
        forall|i: int| 0 <= i < a.len() ==> a[i] <= b[i],
    ensures
        total(a) <= total(b),
        total(a) == total(b) ==> a == b,
    decreases a.len(),
{
    if a.len() > 0 {
        lemma_total_below(a.drop_last(), b.drop_last());
        if total(a) == total(b) {
            assert(a =~= a.drop_last().push(a.last()));
            assert(b =~= b.drop_last().push(b.last()));
        }
    } else {
        assert(a =~= b);
    }
}

} // verus!
