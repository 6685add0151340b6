//! Nesting depths: one counter per delimiter pair, and their sum.
use vstd::prelude::*;

verus! {

/// The sum of all counters.
pub open spec fn total(d: Seq<nat>) -> nat
    decreases d.len(),
{
    if d.len() == 0 {
        0
    } else {
        total(d.drop_last()) + d.last()
    }
}

/// `n` counters, all zero.
pub open spec fn zeros(n: nat) -> Seq<nat> {
    Seq::new(n, |i: int| 0nat)
}

/// The counters after opening pair `j`.
pub open spec fn open_pair(d: Seq<nat>, j: int) -> Seq<nat> {
    d.update(j, d[j] + 1)
}

/// The counters after closing pair `j`: one less where pair `j` is open,
/// unchanged where it is not.
pub open spec fn close_pair(d: Seq<nat>, j: int) -> Seq<nat> {
    if d[j] > 0 {
        d.update(j, (d[j] - 1) as nat)
    } else {
        d
    }
}

/// The counters after closing each pair of `ops` in turn.
pub open spec fn close_all(d: Seq<nat>, ops: Seq<int>) -> Seq<nat>
    decreases ops.len(),
{
    if ops.len() == 0 {
        d
    } else {
        close_pair(close_all(d, ops.drop_last()), ops.last())
    }
}

/// The counters of an executable depth vector.
pub open spec fn depths_of(v: Seq<usize>) -> Seq<nat> {
    v.map_values(|x: usize| x as nat)
}

/// Changing one counter by `delta` changes the sum by `delta`.
pub proof fn lemma_total_update(d: Seq<nat>, j: int, x: nat)
    requires
        0 <= j < d.len(),
    ensures
        total(d.update(j, x)) == total(d) - d[j] + x,
    decreases d.len(),
{
    let u = d.update(j, x);
    if j == d.len() - 1 {
        assert(u.drop_last() =~= d.drop_last());
    } else {
        assert(u.drop_last() =~= d.drop_last().update(j, x));
        lemma_total_update(d.drop_last(), j, x);
    }
}

/// No counter exceeds the sum.
pub proof fn lemma_counter_le_total(d: Seq<nat>, j: int)
    requires
        0 <= j < d.len(),
    ensures
        d[j] <= total(d),
    decreases d.len(),
{
    if j < d.len() - 1 {
        lemma_counter_le_total(d.drop_last(), j);
    }
}

/// Counters that are all zero sum to zero.
pub proof fn lemma_total_zeros(n: nat)
    ensures
        total(zeros(n)) == 0,
    decreases n,
{
    if n > 0 {
        assert(zeros(n).drop_last() =~= zeros((n - 1) as nat));
        lemma_total_zeros((n - 1) as nat);
    }
}

/// The sum is positive exactly where some counter is.
pub proof fn lemma_total_positive(d: Seq<nat>)
    ensures
        total(d) > 0 <==> exists|j: int| 0 <= j < d.len() && d[j] > 0,
    decreases d.len(),
{
    if d.len() > 0 {
        lemma_total_positive(d.drop_last());
        if total(d.drop_last()) > 0 {
            let j = choose|j: int| 0 <= j < d.drop_last().len() && d.drop_last()[j] > 0;
            assert(d[j] > 0);
        }
        if exists|j: int| 0 <= j < d.len() && d[j] > 0 {
            let j = choose|j: int| 0 <= j < d.len() && d[j] > 0;
            if j < d.len() - 1 {
                assert(d.drop_last()[j] > 0);
            }
        }
    }
}

/// Closing pairs that were never opened leaves every counter at zero; and
/// closing one pair never changes the counter of another.
pub proof fn lemma_unmatched_closes(n: nat, ops: Seq<int>)
    requires
        forall|i: int| 0 <= i < ops.len() ==> 0 <= #[trigger] ops[i] < n,
    ensures
        close_all(zeros(n), ops) == zeros(n),
        forall|d: Seq<nat>, j: int, i: int|
            0 <= j < d.len() && 0 <= i < d.len() && i != j ==> #[trigger] close_pair(d, j)[i]
                == d[i],
    decreases ops.len(),
{
    if ops.len() > 0 {
        lemma_unmatched_closes(n, ops.drop_last());
    }
}

} // verus!
