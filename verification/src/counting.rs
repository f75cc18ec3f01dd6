//! Counting the set entries of a row.

use vstd::prelude::*;
use vstd::set_lib::set_int_range;

verus! {

/// How many of the first `n` entries of `flags` are set.
pub open spec fn count_true(flags: Seq<bool>, n: int) -> nat
    decreases n,
{
    if n <= 0 {
        0
    } else {
        count_true(flags, n - 1) + if flags[n - 1] {
            1nat
        } else {
            0nat
        }
    }
}

/// The indices of the set entries among the first `n` of `flags`.
pub open spec fn true_indices(flags: Seq<bool>, n: int) -> Set<int> {
    set_int_range(0, n).filter(|i: int| flags[i])
}

/// Counts the set entries of `flags`.
pub fn count_flags(flags: &[bool]) -> (count: usize)
    ensures
        count == count_true(flags@, flags@.len() as int),
{
    let mut count: usize = 0;
    let mut i: usize = 0;
    while i < flags.len()
        invariant
            i <= flags@.len(),
            count == count_true(flags@, i as int),
            count <= i,
        decreases flags@.len() - i,
    {
        if flags[i] {
            count += 1;
        }
        i += 1;
    }
    count
}

/// A count never exceeds the number of entries looked at.
pub proof fn lemma_count_bound(flags: Seq<bool>, n: int)
    requires
        0 <= n,
    ensures
        count_true(flags, n) <= n,
    decreases n,
{
    if n > 0 {
        lemma_count_bound(flags, n - 1);
    }
}

/// Counts depend only on the entries looked at.
pub proof fn lemma_count_agrees(left: Seq<bool>, right: Seq<bool>, n: int)
    requires
        forall|i: int| 0 <= i < n ==> left[i] == right[i],
    ensures
        count_true(left, n) == count_true(right, n),
    decreases n,
{
    if n > 0 {
        lemma_count_agrees(left, right, n - 1);
    }
}

/// A count is the number of set indices.
pub proof fn lemma_count_is_cardinality(flags: Seq<bool>, n: int)
    requires
        0 <= n,
    ensures
        true_indices(flags, n).finite(),
        count_true(flags, n) == true_indices(flags, n).len(),
    decreases n,
{
    vstd::set_lib::lemma_int_range(0, n);
    if n > 0 {
        lemma_count_is_cardinality(flags, n - 1);
        let before = true_indices(flags, n - 1);
        assert(!before.contains(n - 1));
        if flags[n - 1] {
            assert(true_indices(flags, n) =~= before.insert(n - 1));
        } else {
            assert(true_indices(flags, n) =~= before);
        }
    } else {
        assert(true_indices(flags, n) =~= Set::empty());
    }
}

/// Nothing set counts as zero.
pub proof fn lemma_count_none(flags: Seq<bool>, n: int)
    requires
        forall|i: int| 0 <= i < n ==> !flags[i],
    ensures
        count_true(flags, n) == 0,
    decreases n,
{
    if n > 0 {
        lemma_count_none(flags, n - 1);
    }
}

/// A single set index counts as one.
pub proof fn lemma_count_one(flags: Seq<bool>, n: int, only: int)
    requires
        0 <= only < n,
        forall|i: int| 0 <= i < n ==> (flags[i] <==> i == only),
    ensures
        count_true(flags, n) == 1,
    decreases n,
{
    if only == n - 1 {
        lemma_count_none(flags, n - 1);
    } else {
        lemma_count_one(flags, n - 1, only);
    }
}

/// Two set indices count as two.
pub proof fn lemma_count_two(flags: Seq<bool>, n: int, low: int, high: int)
    requires
        0 <= low < high < n,
        forall|i: int| 0 <= i < n ==> (flags[i] <==> i == low || i == high),
    ensures
        count_true(flags, n) == 2,
    decreases n,
{
    if high == n - 1 {
        lemma_count_one(flags, n - 1, low);
    } else {
        lemma_count_two(flags, n - 1, low, high);
    }
}

/// A stretch of entries that are all set adds its length.
pub proof fn lemma_count_stretch(flags: Seq<bool>, from: int, to: int)
    requires
        0 <= from <= to,
        forall|i: int| from <= i < to ==> flags[i],
    ensures
        count_true(flags, to) == count_true(flags, from) + (to - from),
    decreases to - from,
{
    if from < to {
        lemma_count_stretch(flags, from, to - 1);
    }
}

/// A stretch of entries that are all clear adds nothing.
pub proof fn lemma_count_gap(flags: Seq<bool>, from: int, to: int)
    requires
        0 <= from <= to,
        forall|i: int| from <= i < to ==> !flags[i],
    ensures
        count_true(flags, to) == count_true(flags, from),
    decreases to - from,
{
    if from < to {
        lemma_count_gap(flags, from, to - 1);
    }
}

/// A count is the number of indices below `n` at which an entry is set.
pub proof fn counts_are_cardinalities(flags: Seq<bool>, n: int)
    requires
        0 <= n,
    ensures
        count_true(flags, n) == set_int_range(0, n).filter(|i: int| flags[i]).len(),
{
    lemma_count_is_cardinality(flags, n);
    assert(true_indices(flags, n) =~= set_int_range(0, n).filter(|i: int| flags[i]));
}

} // verus!
