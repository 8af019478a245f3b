//! Counting set flags over a row of booleans: the measure behind the
//! searches' termination and behind the vertex-count contracts of the
//! spanning-tree builders.

use vstd::prelude::*;

verus! {

/// How many flags in the row are set.
pub open spec fn count_trues(vs: Seq<bool>) -> nat
    decreases vs.len(),
{
    if vs.len() == 0 {
        0
    } else {
        count_trues(vs.drop_last()) + if vs.last() {
            1nat
        } else {
            0nat
        }
    }
}

/// No more flags can be set than there are slots.
pub proof fn lemma_count_trues_le(vs: Seq<bool>)
    ensures
        count_trues(vs) <= vs.len(),
    decreases vs.len(),
{
    if vs.len() > 0 {
        lemma_count_trues_le(vs.drop_last());
    }
}

/// Setting one unset flag raises the count by one.
pub proof fn lemma_count_trues_set(vs: Seq<bool>, i: int)
    requires
        0 <= i < vs.len(),
        !vs[i],
    ensures
        count_trues(vs.update(i, true)) == count_trues(vs) + 1,
    decreases vs.len(),
{
    let vs2 = vs.update(i, true);
    if i == vs.len() - 1 {
        assert(vs2.drop_last() =~= vs.drop_last());
    } else {
        assert(vs2.drop_last() =~= vs.drop_last().update(i, true));
        lemma_count_trues_set(vs.drop_last(), i);
        assert(vs2.last() == vs.last());
    }
}

/// A row with no flag set has zero count.
pub proof fn lemma_count_trues_none(n: nat)
    ensures
        count_trues(Seq::new(n, |t: int| false)) == 0,
    decreases n,
{
    if n > 0 {
        lemma_count_trues_none((n - 1) as nat);
        assert(Seq::new(n, |t: int| false).drop_last() =~= Seq::new(
            (n - 1) as nat,
            |t: int| false,
        ));
    }
}

/// Clearing one set flag lowers the count by one.
pub proof fn lemma_count_trues_unset(vs: Seq<bool>, i: int)
    requires
        0 <= i < vs.len(),
        vs[i],
    ensures
        count_trues(vs.update(i, false)) == count_trues(vs) - 1,
    decreases vs.len(),
{
    let vs2 = vs.update(i, false);
    if i == vs.len() - 1 {
        assert(vs2.drop_last() =~= vs.drop_last());
    } else {
        assert(vs2.drop_last() =~= vs.drop_last().update(i, false));
        lemma_count_trues_unset(vs.drop_last(), i);
        assert(vs2.last() == vs.last());
    }
}

/// Two distinct set flags witness a count of at least two.
pub proof fn lemma_count_trues_two(vs: Seq<bool>, i: int, j: int)
    requires
        0 <= i < vs.len(),
        0 <= j < vs.len(),
        i != j,
        vs[i],
        vs[j],
    ensures
        count_trues(vs) >= 2,
    decreases vs.len(),
{
    let (lo, hi): (int, int) = if i < j {
        (i, j)
    } else {
        (j, i)
    };
    if hi == vs.len() - 1 {
        lemma_count_trues_one(vs.drop_last(), lo);
    } else {
        lemma_count_trues_two(vs.drop_last(), lo, hi);
    }
}

/// One set flag witnesses a count of at least one.
pub proof fn lemma_count_trues_one(vs: Seq<bool>, i: int)
    requires
        0 <= i < vs.len(),
        vs[i],
    ensures
        count_trues(vs) >= 1,
    decreases vs.len(),
{
    if i < vs.len() - 1 {
        lemma_count_trues_one(vs.drop_last(), i);
    }
}

/// A row with every flag set has full count.
pub proof fn lemma_count_trues_full(vs: Seq<bool>)
    requires
        forall|t: int| 0 <= t < vs.len() ==> vs[t],
    ensures
        count_trues(vs) == vs.len(),
    decreases vs.len(),
{
    if vs.len() > 0 {
        assert forall|t: int| 0 <= t < vs.drop_last().len() implies vs.drop_last()[t] by {
            assert(vs[t]);
        }
        lemma_count_trues_full(vs.drop_last());
    }
}

/// Rows that agree pointwise have the same count.
pub proof fn lemma_count_trues_agree(a: Seq<bool>, b: Seq<bool>)
    requires
        a.len() == b.len(),
        forall|t: int| 0 <= t < a.len() ==> a[t] == b[t],
    ensures
        count_trues(a) == count_trues(b),
{
    assert(a =~= b);
}

} // verus!
