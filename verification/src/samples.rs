//! Sorted samples: percentiles and gaps of measured times, in nanoseconds.

use vstd::prelude::*;

verus! {

/// No value stands before a lesser one.
pub open spec fn ascending(values: Seq<u64>) -> bool {
    forall|i: int, j: int|
        #![trigger values[i], values[j]]
        0 <= i <= j < values.len() ==> values[i] <= values[j]
}

/// `sorted` holds the values of `values` in ascending order.
pub open spec fn is_sorted_of(values: Seq<u64>, sorted: Seq<u64>) -> bool {
    &&& ascending(sorted)
    &&& sorted.to_multiset() == values.to_multiset()
}

/// `<[u64]>::sort` of the standard library: rearranges the values into ascending order.
#[verifier::external_body]
fn sort_values(values: &mut Vec<u64>)
    ensures
        is_sorted_of(old(values)@, final(values)@),
{
    values.sort()
}

/// The values in ascending order.
pub fn sorted(values: &Vec<u64>) -> (r: Vec<u64>)
    ensures
        is_sorted_of(values@, r@),
        r@.len() == values@.len(),
{
    let mut out = values.clone();
    proof {
        assert(out@ =~= values@);
    }
    sort_values(&mut out);
    proof {
        values@.to_multiset_ensures();
        out@.to_multiset_ensures();
    }
    out
}

/// The position of the `pct`-th percentile among `len` sorted samples: `pct` percent of
/// the last position, rounded to the nearest one, halves upwards.
pub open spec fn percentile_index_of(len: nat, pct: nat) -> int {
    ((len - 1) * pct + 50) / 100
}

pub fn percentile_index(len: usize, pct: u32) -> (r: usize)
    requires
        len > 0,
        pct <= 100,
    ensures
        r == percentile_index_of(len as nat, pct as nat),
        r < len,
{
    proof {
        assert((len - 1) * pct <= (len - 1) * 100) by (nonlinear_arith)
            requires
                0 < len,
                pct <= 100,
        ;
        assert((len - 1) * pct >= 0) by (nonlinear_arith)
            requires
                0 < len,
        ;
    }
    let scaled: u128 = (len as u128 - 1) * (pct as u128) + 50;
    (scaled / 100) as usize
}

/// The gaps between neighbours of an ascending sequence.
pub open spec fn gaps(sorted: Seq<u64>) -> Seq<u64> {
    Seq::new(
        if sorted.len() < 2 {
            0
        } else {
            (sorted.len() - 1) as nat
        },
        |i: int| (sorted[i + 1] - sorted[i]) as u64,
    )
}

/// The gaps between points in time, once they are in order.
pub fn consecutive_diffs(times: &Vec<u64>) -> (r: Vec<u64>)
    ensures
        exists|sorted: Seq<u64>| #[trigger] is_sorted_of(times@, sorted) && r@ == gaps(sorted),
        r@.len() == if times@.len() < 2 {
            0
        } else {
            times@.len() - 1
        },
{
    let ordered = sorted(times);
    let mut out: Vec<u64> = Vec::new();
    if ordered.len() >= 2 {
        let mut i: usize = 1;
        while i < ordered.len()
            invariant
                1 <= i <= ordered@.len(),
                ascending(ordered@),
                out@.len() == i - 1,
                forall|j: int| 0 <= j < i - 1 ==> (#[trigger] out@[j]) == ordered@[j + 1] - ordered@[j],
            decreases ordered@.len() - i,
        {
            assert(ordered@[i - 1] <= ordered@[i as int]);
            out.push(ordered[i] - ordered[i - 1]);
            i += 1;
        }
    }
    assert(out@ =~= gaps(ordered@));
    out
}

/// How many of `times` are above `bound`.
pub open spec fn above(times: Seq<u64>, bound: u64) -> nat
    decreases times.len(),
{
    if times.len() == 0 {
        0
    } else {
        above(times.drop_last(), bound) + if times.last() > bound {
            1nat
        } else {
            0nat
        }
    }
}

/// How many of `times` are above `bound`: over all of them, the probability that one is.
pub fn count_above(times: &Vec<u64>, bound: u64) -> (r: usize)
    ensures
        r == above(times@, bound),
{
    let mut n: usize = 0;
    let mut i: usize = 0;
    while i < times.len()
        invariant
            n <= i <= times@.len(),
            n == above(times@.take(i as int), bound),
        decreases times@.len() - i,
    {
        assert(times@.take(i + 1).drop_last() =~= times@.take(i as int));
        if times[i] > bound {
            n += 1;
        }
        i += 1;
    }
    assert(times@.take(i as int) =~= times@);
    n
}

/// The `pct`-th percentile among `len` samples stands at the place nearest to `pct` percent of
/// the way from the first to the last, and at the later one of two that are equally near: the
/// 100th is the last sample, the 0th the first, and a single sample is every percentile.
pub proof fn law_percentile_is_the_nearest_place(len: nat, pct: nat)
    requires
        len > 0,
        pct <= 100,
    ensures
        0 <= percentile_index_of(len, pct) < len,
        100 * percentile_index_of(len, pct) - pct * (len - 1) <= 50,
        pct * (len - 1) - 100 * percentile_index_of(len, pct) < 50,
        percentile_index_of(len, 100) == len - 1,
        percentile_index_of(len, 0) == 0,
{
    assert((len - 1) * pct == pct * (len - 1)) by (nonlinear_arith);
    assert(0 <= (len - 1) * pct <= (len - 1) * 100) by (nonlinear_arith)
        requires
            0 < len,
            pct <= 100,
    ;
    assert((len - 1) * 0 == 0) by (nonlinear_arith);
}

/// The sample at a place of the sorted samples is one of the samples. Those before it are not
/// above it, and those behind it not below it.
pub proof fn law_sorted_samples_are_the_samples(values: Seq<u64>, sorted: Seq<u64>, at: int)
    requires
        is_sorted_of(values, sorted),
        0 <= at < sorted.len(),
    ensures
        sorted.len() == values.len(),
        values.contains(sorted[at]),
        forall|x: u64| #[trigger] values.contains(x) <==> sorted.contains(x),
        forall|i: int| 0 <= i <= at ==> (#[trigger] sorted[i]) <= sorted[at],
        forall|i: int| at <= i < sorted.len() ==> sorted[at] <= #[trigger] sorted[i],
{
    values.to_multiset_ensures();
    sorted.to_multiset_ensures();
    assert(sorted.contains(sorted[at]));
    assert forall|x: u64| #[trigger] values.contains(x) <==> sorted.contains(x) by {
        assert(values.to_multiset().count(x) == sorted.to_multiset().count(x));
    }
}

/// Gaps lie between neighbours: each added to a point in time gives the next one, so all of
/// them together lead from the first to the last.
pub proof fn law_gaps_lead_on(sorted: Seq<u64>, i: int)
    requires
        ascending(sorted),
    ensures
        sorted.len() > 0 ==> gaps(sorted).len() == sorted.len() - 1,
        sorted.len() == 0 ==> gaps(sorted).len() == 0,
        0 <= i < sorted.len() - 1 ==> sorted[i] + gaps(sorted)[i] == sorted[i + 1],
{
    if 0 <= i < sorted.len() - 1 {
        assert(sorted[i] <= sorted[i + 1]);
    }
}

/// A time counts as a violation exactly where it is above the bound: adding it to the times
/// adds one then, and nothing otherwise.
pub proof fn law_violations_are_above_the_bound(times: Seq<u64>, time: u64, bound: u64)
    ensures
        above(Seq::empty(), bound) == 0,
        time > bound ==> above(times.push(time), bound) == above(times, bound) + 1,
        time <= bound ==> above(times.push(time), bound) == above(times, bound),
{
    assert(times.push(time).drop_last() =~= times);
}

} // verus!
