//! Column-wise medians over the retained window of per-block estimates.
//!
//! The `high`, `middle` and `low` columns of the window are collected into
//! three independent sequences; each is sorted on its own and its median
//! taken (middle element for odd length, the floored average of the two
//! central elements for even length). The medians are column-wise on
//! purpose: the result need not be any single retained row.

use vstd::prelude::*;
use vstd::relations::sorted_by;
use vstd::seq_lib::group_to_multiset_ensures;
use vstd::seq_lib::lemma_sorted_unique;

use crate::sorting::sort_u64;
use crate::sorting::sorted_u64;
use crate::sorting::u64_leq;
use crate::types::EstimatorError;
use crate::types::FeeRateEstimate;
use crate::types::MAX_FEE_RATE;

verus! {

/// The median of a sorted column: the middle element when the length is
/// odd, else the floored average of the two central elements.
pub open spec fn median_of_sorted(s: Seq<u64>) -> int
    recommends
        s.len() >= 1,
{
    let n = s.len() as int;
    if n % 2 == 1 {
        s[n / 2] as int
    } else {
        (s[n / 2 - 1] + s[n / 2]) as int / 2
    }
}

/// The `high` column of a window.
pub open spec fn highs_of(rows: Seq<FeeRateEstimate>) -> Seq<u64> {
    rows.map_values(|x: FeeRateEstimate| x.high)
}

/// The `middle` column of a window.
pub open spec fn middles_of(rows: Seq<FeeRateEstimate>) -> Seq<u64> {
    rows.map_values(|x: FeeRateEstimate| x.middle)
}

/// The `low` column of a window.
pub open spec fn lows_of(rows: Seq<FeeRateEstimate>) -> Seq<u64> {
    rows.map_values(|x: FeeRateEstimate| x.low)
}

/// Everything a multiset-preserving reordering holds onto: a bound kept by
/// every element.
proof fn lemma_u64_bound_by_multiset(a: Seq<u64>, b: Seq<u64>, bound: u64)
    requires
        a.to_multiset() == b.to_multiset(),
        forall|i: int| 0 <= i < a.len() ==> #[trigger] a[i] <= bound,
    ensures
        forall|i: int| 0 <= i < b.len() ==> #[trigger] b[i] <= bound,
{
    broadcast use group_to_multiset_ensures;

    assert forall|i: int| 0 <= i < b.len() implies #[trigger] b[i] <= bound by {
        assert(b.to_multiset().count(b[i]) > 0);
        assert(a.contains(b[i]));
    }
}

/// Median of one sorted, bounded column.
fn median_u64(v: &Vec<u64>) -> (m: u64)
    requires
        v@.len() >= 1,
        forall|i: int| 0 <= i < v@.len() ==> #[trigger] v@[i] <= MAX_FEE_RATE,
    ensures
        m == median_of_sorted(v@),
{
    let n = v.len();
    if n % 2 == 1 {
        v[n / 2]
    } else {
        (v[n / 2 - 1] + v[n / 2]) / 2
    }
}

/// Sort one column and take its median.
fn column_median(col: &Vec<u64>) -> (m: u64)
    requires
        col@.len() >= 1,
        forall|i: int| 0 <= i < col@.len() ==> #[trigger] col@[i] <= MAX_FEE_RATE,
    ensures
        m == median_of_sorted(sorted_u64(col@)),
{
    let sorted = sort_u64(col);
    proof {
        assert(vstd::relations::total_ordering(u64_leq()));
        col@.lemma_sort_by_ensures(u64_leq());
        lemma_u64_bound_by_multiset(col@, sorted@, MAX_FEE_RATE);
        broadcast use group_to_multiset_ensures;

        assert(col@.to_multiset().len() == col@.len());
        assert(sorted@.to_multiset().len() == sorted@.len());
        assert(sorted@.len() == col@.len());
    }
    median_u64(&sorted)
}

/// Compute the running estimate from the retained window rows: the
/// column-wise median of the `high`, `middle` and `low` columns. An empty
/// window yields the no-estimate condition, never a default value.
pub fn estimate_from_window(rows: &Vec<FeeRateEstimate>) -> (r: Result<
    FeeRateEstimate,
    EstimatorError,
>)
    requires
        forall|i: int| 0 <= i < rows@.len() ==> (#[trigger] rows@[i]).storable(),
    ensures
        r is Ok <==> rows@.len() > 0,
        rows@.len() == 0 <==> r == Err::<FeeRateEstimate, EstimatorError>(
            EstimatorError::NoEstimateAvailable,
        ),
        r matches Ok(e) ==> {
            &&& e.high == median_of_sorted(sorted_u64(highs_of(rows@)))
            &&& e.middle == median_of_sorted(sorted_u64(middles_of(rows@)))
            &&& e.low == median_of_sorted(sorted_u64(lows_of(rows@)))
            &&& e.storable()
        },
{
    let n = rows.len();
    if n == 0 {
        return Err(EstimatorError::NoEstimateAvailable);
    }
    let mut highs: Vec<u64> = Vec::new();
    let mut mids: Vec<u64> = Vec::new();
    let mut lows: Vec<u64> = Vec::new();
    let mut i: usize = 0;
    while i < n
        invariant
            0 <= i <= n,
            n == rows@.len(),
            forall|j: int| 0 <= j < rows@.len() ==> (#[trigger] rows@[j]).storable(),
            highs@ =~= highs_of(rows@.take(i as int)),
            mids@ =~= middles_of(rows@.take(i as int)),
            lows@ =~= lows_of(rows@.take(i as int)),
        decreases n - i,
    {
        highs.push(rows[i].high);
        mids.push(rows[i].middle);
        lows.push(rows[i].low);
        i = i + 1;
    }
    proof {
        assert(rows@.take(n as int) =~= rows@);
        assert(highs@ =~= highs_of(rows@));
        assert(mids@ =~= middles_of(rows@));
        assert(lows@ =~= lows_of(rows@));
    }
    let high = column_median(&highs);
    let middle = column_median(&mids);
    let low = column_median(&lows);
    proof {
        lemma_median_in_bounds(highs@);
        lemma_median_in_bounds(mids@);
        lemma_median_in_bounds(lows@);
    }
    Ok(FeeRateEstimate { high, middle, low })
}

/// The median of a bounded column stays within the bound.
proof fn lemma_median_in_bounds(col: Seq<u64>)
    requires
        col.len() >= 1,
        forall|i: int| 0 <= i < col.len() ==> #[trigger] col[i] <= MAX_FEE_RATE,
    ensures
        0 <= median_of_sorted(sorted_u64(col)) <= MAX_FEE_RATE,
{
    assert(vstd::relations::total_ordering(u64_leq()));
    col.lemma_sort_by_ensures(u64_leq());
    lemma_u64_bound_by_multiset(col, sorted_u64(col), MAX_FEE_RATE);
    broadcast use group_to_multiset_ensures;

    assert(col.to_multiset().len() == col.len());
    assert(sorted_u64(col).to_multiset().len() == sorted_u64(col).len());
    assert(sorted_u64(col).len() == col.len());
}

/// Law: the column-wise median of a window holding exactly one row is that
/// row's own estimate, unchanged.
pub proof fn lemma_estimate_of_single_row(rows: Seq<FeeRateEstimate>)
    requires
        rows.len() == 1,
    ensures
        median_of_sorted(sorted_u64(highs_of(rows))) == rows[0].high,
        median_of_sorted(sorted_u64(middles_of(rows))) == rows[0].middle,
        median_of_sorted(sorted_u64(lows_of(rows))) == rows[0].low,
{
    lemma_singleton_median(highs_of(rows));
    lemma_singleton_median(middles_of(rows));
    lemma_singleton_median(lows_of(rows));
}

proof fn lemma_singleton_median(v: Seq<u64>)
    requires
        v.len() == 1,
    ensures
        median_of_sorted(sorted_u64(v)) == v[0],
{
    assert(vstd::relations::total_ordering(u64_leq()));
    v.lemma_sort_by_ensures(u64_leq());
    assert(sorted_by(v, u64_leq()));
    lemma_sorted_unique(v, sorted_u64(v), u64_leq());
}

} // verus!
