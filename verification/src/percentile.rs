//! Weighted-percentile computation over one block's sorted fee-rate samples.
//!
//! Each sample `i` sits at the midpoint percentile position
//! `(C_i - w_i / 2) / W`, where `C_i` is the cumulative weight through the
//! sample and `W` the total weight. For a target position `t`, the value is
//! the first sample's rate when `t` lies below the first midpoint, the last
//! sample's rate when it lies above the last midpoint, and otherwise the
//! linear interpolation between the two samples whose midpoints straddle
//! `t`. Positions are handled in `PCT_SCALE` fixed point; every division
//! rounds toward zero.

use vstd::arithmetic::div_mod::lemma_div_by_multiple;
use vstd::arithmetic::div_mod::lemma_div_is_ordered;
use vstd::arithmetic::div_mod::lemma_div_pos_is_pos;
use vstd::arithmetic::mul::lemma_mul_inequality;
use vstd::prelude::*;

use crate::types::FeeRateAndWeight;
use crate::types::FeeRateEstimate;
use crate::types::PCT_SCALE;
use crate::types::TARGET_HIGH;
use crate::types::TARGET_LOW;
use crate::types::TARGET_MIDDLE;

verus! {

/// The samples are sorted ascending by fee rate.
pub open spec fn sorted_by_rate(s: Seq<FeeRateAndWeight>) -> bool {
    forall|i: int, j: int| 0 <= i < j < s.len() ==> s[i].fee_rate <= s[j].fee_rate
}

/// Sum of all sample weights.
pub open spec fn total_weight(s: Seq<FeeRateAndWeight>) -> int
    decreases s.len(),
{
    if s.len() == 0 {
        0
    } else {
        total_weight(s.drop_last()) + s.last().weight
    }
}

/// Sum of the weights of the first `i` samples.
pub open spec fn prefix_weight(s: Seq<FeeRateAndWeight>, i: int) -> int {
    total_weight(s.take(i))
}

/// Numerator of sample `i`'s midpoint position, in half-weight units:
/// `2 * C_i - w_i`.
pub open spec fn position_numerator(s: Seq<FeeRateAndWeight>, i: int) -> int {
    2 * prefix_weight(s, i) + s[i].weight
}

/// Midpoint percentile position of sample `i`, in `PCT_SCALE` fixed point.
pub open spec fn position(s: Seq<FeeRateAndWeight>, i: int) -> int {
    (position_numerator(s, i) * PCT_SCALE) / (2 * total_weight(s))
}

/// Least index at or after `i` whose position reaches `t`, or `s.len()`.
pub open spec fn scan_from(s: Seq<FeeRateAndWeight>, t: int, i: int) -> int
    decreases s.len() - i,
{
    if i < 0 || i >= s.len() {
        s.len() as int
    } else if position(s, i) >= t {
        i
    } else {
        scan_from(s, t, i + 1)
    }
}

/// The weighted percentile of the sorted samples `s` at target position `t`.
pub open spec fn value_at(s: Seq<FeeRateAndWeight>, t: int) -> int {
    let k = scan_from(s, t, 0);
    if k == 0 {
        s[0].fee_rate as int
    } else if k == s.len() {
        s[s.len() - 1].fee_rate as int
    } else {
        s[k - 1].fee_rate + ((t - position(s, k - 1)) * (s[k].fee_rate - s[k - 1].fee_rate)) / (
        position(s, k) - position(s, k - 1))
    }
}

proof fn lemma_total_weight_nonneg(s: Seq<FeeRateAndWeight>)
    ensures
        total_weight(s) >= 0,
    decreases s.len(),
{
    if s.len() > 0 {
        lemma_total_weight_nonneg(s.drop_last());
    }
}

/// Extending a prefix by one sample adds that sample's weight.
pub proof fn lemma_prefix_weight_step(s: Seq<FeeRateAndWeight>, i: int)
    requires
        0 <= i < s.len(),
    ensures
        prefix_weight(s, i + 1) == prefix_weight(s, i) + s[i].weight,
{
    assert(s.take(i + 1).drop_last() =~= s.take(i));
    assert(s.take(i + 1).last() == s[i]);
}

proof fn lemma_prefix_weight_monotone(s: Seq<FeeRateAndWeight>, i: int, j: int)
    requires
        0 <= i <= j <= s.len(),
    ensures
        prefix_weight(s, i) <= prefix_weight(s, j),
    decreases j - i,
{
    if i < j {
        lemma_prefix_weight_step(s, j - 1);
        lemma_prefix_weight_monotone(s, i, j - 1);
    }
}

pub proof fn lemma_prefix_weight_total(s: Seq<FeeRateAndWeight>)
    ensures
        prefix_weight(s, s.len() as int) == total_weight(s),
{
    assert(s.take(s.len() as int) =~= s);
}

proof fn lemma_prefix_weight_nonneg(s: Seq<FeeRateAndWeight>, i: int)
    requires
        0 <= i <= s.len(),
    ensures
        0 <= prefix_weight(s, i),
{
    lemma_total_weight_nonneg(s.take(i));
}

/// The position numerator of every sample lies between 0 and twice the
/// total weight.
proof fn lemma_position_numerator_bounds(s: Seq<FeeRateAndWeight>, i: int)
    requires
        0 <= i < s.len(),
    ensures
        0 <= position_numerator(s, i) <= 2 * total_weight(s),
{
    lemma_prefix_weight_nonneg(s, i);
    lemma_prefix_weight_step(s, i);
    lemma_prefix_weight_monotone(s, i + 1, s.len() as int);
    lemma_prefix_weight_total(s);
}

/// Position numerators never decrease along the sample sequence.
proof fn lemma_position_numerator_monotone(s: Seq<FeeRateAndWeight>, i: int, j: int)
    requires
        0 <= i <= j < s.len(),
    ensures
        position_numerator(s, i) <= position_numerator(s, j),
    decreases j - i,
{
    if i < j {
        lemma_prefix_weight_step(s, j - 1);
        lemma_position_numerator_monotone(s, i, j - 1);
    }
}

/// Every position lies between 0 and `PCT_SCALE`.
proof fn lemma_position_bounds(s: Seq<FeeRateAndWeight>, i: int)
    requires
        0 <= i < s.len(),
        total_weight(s) >= 1,
    ensures
        0 <= position(s, i) <= PCT_SCALE,
{
    let w2 = 2 * total_weight(s);
    lemma_position_numerator_bounds(s, i);
    lemma_mul_inequality(position_numerator(s, i), w2, PCT_SCALE as int);
    lemma_div_pos_is_pos(position_numerator(s, i) * PCT_SCALE, w2);
    lemma_div_is_ordered(position_numerator(s, i) * PCT_SCALE, w2 * PCT_SCALE, w2);
    lemma_div_by_multiple(PCT_SCALE as int, w2);
    assert(w2 * PCT_SCALE == (PCT_SCALE as int) * w2) by (nonlinear_arith);
}

/// Positions never decrease along the sample sequence.
proof fn lemma_position_monotone(s: Seq<FeeRateAndWeight>, i: int, j: int)
    requires
        0 <= i <= j < s.len(),
        total_weight(s) >= 1,
    ensures
        position(s, i) <= position(s, j),
{
    lemma_position_numerator_monotone(s, i, j);
    lemma_mul_inequality(
        position_numerator(s, i),
        position_numerator(s, j),
        PCT_SCALE as int,
    );
    lemma_div_is_ordered(
        position_numerator(s, i) * PCT_SCALE,
        position_numerator(s, j) * PCT_SCALE,
        2 * total_weight(s),
    );
}

proof fn lemma_scan_from_range(s: Seq<FeeRateAndWeight>, t: int, i: int)
    requires
        0 <= i <= s.len(),
    ensures
        i <= scan_from(s, t, i) <= s.len(),
    decreases s.len() - i,
{
    if i < s.len() && position(s, i) < t {
        lemma_scan_from_range(s, t, i + 1);
    }
}

/// Every sample strictly before the scan result sits strictly below `t`.
proof fn lemma_scan_from_below(s: Seq<FeeRateAndWeight>, t: int, i: int, j: int)
    requires
        0 <= i <= j < scan_from(s, t, i),
        j < s.len(),
    ensures
        position(s, j) < t,
    decreases j - i,
{
    if i < j {
        lemma_scan_from_below(s, t, i + 1, j);
    }
}

/// When the scan stops before the end, the sample it stops at reaches `t`.
proof fn lemma_scan_from_at(s: Seq<FeeRateAndWeight>, t: int, i: int)
    requires
        0 <= i <= s.len(),
        scan_from(s, t, i) < s.len(),
    ensures
        position(s, scan_from(s, t, i)) >= t,
    decreases s.len() - i,
{
    if i < s.len() && position(s, i) < t {
        lemma_scan_from_at(s, t, i + 1);
    }
}

/// A later scan start with everything below `t` in between gives the same
/// result.
proof fn lemma_scan_from_skip(s: Seq<FeeRateAndWeight>, t: int, i: int)
    requires
        0 <= i < s.len(),
        position(s, i) < t,
    ensures
        scan_from(s, t, i) == scan_from(s, t, i + 1),
{
}

/// Raising the target never moves the scan result backwards.
proof fn lemma_scan_monotone(s: Seq<FeeRateAndWeight>, t1: int, t2: int)
    requires
        t1 <= t2,
    ensures
        scan_from(s, t1, 0) <= scan_from(s, t2, 0),
{
    let k1 = scan_from(s, t1, 0);
    let k2 = scan_from(s, t2, 0);
    if s.len() > 0 {
        lemma_scan_from_range(s, t1, 0);
        lemma_scan_from_range(s, t2, 0);
        if k2 < k1 {
            lemma_scan_from_at(s, t2, 0);
            lemma_scan_from_below(s, t1, 0, k2);
            assert(false);
        }
    }
}

/// When the scan for `t` lands strictly inside the sequence, the
/// interpolated value lies between the two straddling samples' rates.
proof fn lemma_interp_bounds(s: Seq<FeeRateAndWeight>, t: int)
    requires
        sorted_by_rate(s),
        total_weight(s) >= 1,
        0 < scan_from(s, t, 0) < s.len(),
    ensures
        s[scan_from(s, t, 0) - 1].fee_rate <= value_at(s, t) <= s[scan_from(s, t, 0)].fee_rate,
{
    let k = scan_from(s, t, 0);
    lemma_scan_from_range(s, t, 0);
    lemma_scan_from_at(s, t, 0);
    lemma_scan_from_below(s, t, 0, k - 1);
    let pk1 = position(s, k - 1);
    let pk = position(s, k);
    let num = t - pk1;
    let den = pk - pk1;
    let dv = s[k].fee_rate - s[k - 1].fee_rate;
    lemma_position_monotone(s, k - 1, k);
    assert(num >= 1);
    assert(den >= num);
    assert(dv >= 0);
    lemma_div_pos_is_pos(num * dv, den);
    lemma_mul_inequality(num, den, dv);
    lemma_div_is_ordered(num * dv, den * dv, den);
    lemma_div_by_multiple(dv, den);
    assert(den * dv == dv * den) by (nonlinear_arith);
}

/// Interpolating at a fixed interior index is monotone in the target.
proof fn lemma_interp_monotone_same_k(s: Seq<FeeRateAndWeight>, t1: int, t2: int)
    requires
        sorted_by_rate(s),
        total_weight(s) >= 1,
        t1 <= t2,
        scan_from(s, t1, 0) == scan_from(s, t2, 0),
        0 < scan_from(s, t1, 0) < s.len(),
    ensures
        value_at(s, t1) <= value_at(s, t2),
{
    let k = scan_from(s, t1, 0);
    let pk1 = position(s, k - 1);
    let pk = position(s, k);
    let dv = s[k].fee_rate - s[k - 1].fee_rate;
    lemma_scan_from_below(s, t1, 0, k - 1);
    lemma_scan_from_at(s, t1, 0);
    lemma_position_monotone(s, k - 1, k);
    assert(dv >= 0);
    lemma_mul_inequality(t1 - pk1, t2 - pk1, dv);
    lemma_div_is_ordered((t1 - pk1) * dv, (t2 - pk1) * dv, pk - pk1);
}

/// Law: on any non-empty sample set sorted ascending by rate with positive
/// total weight, the weighted percentile never decreases as the target
/// percentile rises.
pub proof fn lemma_value_at_monotone(s: Seq<FeeRateAndWeight>, t1: int, t2: int)
    requires
        sorted_by_rate(s),
        s.len() >= 1,
        total_weight(s) >= 1,
        t1 <= t2,
    ensures
        value_at(s, t1) <= value_at(s, t2),
{
    let k1 = scan_from(s, t1, 0);
    let k2 = scan_from(s, t2, 0);
    let n = s.len() as int;
    lemma_scan_from_range(s, t1, 0);
    lemma_scan_from_range(s, t2, 0);
    lemma_scan_monotone(s, t1, t2);
    if k1 == k2 {
        if 0 < k1 < n {
            lemma_interp_monotone_same_k(s, t1, t2);
        }
    } else {
        // k1 < k2: value_at(s, t1) <= s[k1].fee_rate and
        // s[k2 - 1].fee_rate <= value_at(s, t2), with k1 <= k2 - 1.
        let lo2: int = if k2 == n {
            s[n - 1].fee_rate as int
        } else {
        // 0 < k2 < n
            lemma_interp_bounds(s, t2);
            s[k2 - 1].fee_rate as int
        };
        assert(lo2 <= value_at(s, t2));
        if k1 == 0 {
            assert(value_at(s, t1) == s[0].fee_rate);
            assert(s[0].fee_rate <= lo2);
        } else {
            lemma_interp_bounds(s, t1);
            assert(value_at(s, t1) <= s[k1].fee_rate);
            assert(s[k1].fee_rate <= lo2);
        }
    }
}

/// Every weighted percentile lies between the smallest and largest sample
/// rate.
proof fn lemma_value_at_in_range(s: Seq<FeeRateAndWeight>, t: int)
    requires
        sorted_by_rate(s),
        s.len() >= 1,
        total_weight(s) >= 1,
    ensures
        s[0].fee_rate <= value_at(s, t) <= s[s.len() - 1].fee_rate,
{
    let k = scan_from(s, t, 0);
    lemma_scan_from_range(s, t, 0);
    if k == 0 || k == s.len() {
        assert(s[0].fee_rate <= s[s.len() - 1].fee_rate);
    } else {
        lemma_interp_bounds(s, t);
    }
}

/// Law: on any non-empty sample set sorted ascending by rate with positive
/// total weight, the block estimate's three percentiles are ordered:
/// the 5th-percentile `low` never exceeds the 50th-percentile `middle`,
/// which never exceeds the 95th-percentile `high`.
pub proof fn lemma_block_estimate_ordered(s: Seq<FeeRateAndWeight>)
    requires
        sorted_by_rate(s),
        s.len() >= 1,
        total_weight(s) >= 1,
    ensures
        value_at(s, TARGET_LOW as int) <= value_at(s, TARGET_MIDDLE as int),
        value_at(s, TARGET_MIDDLE as int) <= value_at(s, TARGET_HIGH as int),
{
    lemma_value_at_monotone(s, TARGET_LOW as int, TARGET_MIDDLE as int);
    lemma_value_at_monotone(s, TARGET_MIDDLE as int, TARGET_HIGH as int);
}

/// Find the weighted percentile at target `t`, given the samples'
/// precomputed positions.
fn value_at_target(
    rates: &Vec<FeeRateAndWeight>,
    positions: &Vec<u64>,
    t: u64,
) -> (v: u64)
    requires
        rates@.len() >= 1,
        positions@.len() == rates@.len(),
        sorted_by_rate(rates@),
        total_weight(rates@) >= 1,
        forall|j: int| 0 <= j < positions@.len() ==> positions@[j] == position(rates@, j),
    ensures
        v == value_at(rates@, t as int),
{
    let s = Ghost(rates@);
    let n = rates.len();
    let mut k: usize = 0;
    while k < n && positions[k] < t
        invariant
            0 <= k <= n,
            n == rates@.len(),
            positions@.len() == n,
            forall|j: int| 0 <= j < positions@.len() ==> positions@[j] == position(rates@, j),
            scan_from(rates@, t as int, 0) == scan_from(rates@, t as int, k as int),
        decreases n - k,
    {
        proof {
            lemma_scan_from_skip(rates@, t as int, k as int);
        }
        k = k + 1;
    }
    proof {
        if k == n {
            assert(scan_from(rates@, t as int, k as int) == n as int);
        } else {
            assert(position(rates@, k as int) >= t);
            assert(scan_from(rates@, t as int, k as int) == k as int);
        }
    }
    if k == 0 {
        rates[0].fee_rate
    } else if k == n {
        rates[n - 1].fee_rate
    } else {
        proof {
            lemma_scan_from_below(rates@, t as int, 0, k - 1);
            lemma_position_monotone(rates@, k - 1, k as int);
        }
        let pk1 = positions[k - 1];
        let pk = positions[k];
        let num = t - pk1;
        let den = pk - pk1;
        let vk1 = rates[k - 1].fee_rate;
        let vk = rates[k].fee_rate;
        let dv = vk - vk1;
        proof {
            let numi = num as int;
            let dvi = dv as int;
            assert(numi * dvi < 0x100000000000000000000000000000000) by (nonlinear_arith)
                requires 0 <= numi <= 0xffffffffffffffff && 0 <= dvi <= 0xffffffffffffffff;
        }
        let q128: u128 = ((num as u128) * (dv as u128)) / (den as u128);
        proof {
            let numi = num as int;
            let deni = den as int;
            let dvi = dv as int;
            lemma_div_pos_is_pos(numi * dvi, deni);
            lemma_mul_inequality(numi, deni, dvi);
            lemma_div_is_ordered(numi * dvi, deni * dvi, deni);
            lemma_div_by_multiple(dvi, deni);
            assert(deni * dvi == dvi * deni) by (nonlinear_arith);
        }
        let q = q128 as u64;
        vk1 + q
    }
}

/// Compute one block's fee-rate estimate from its weighted samples, sorted
/// ascending by fee rate: the weighted 5th, 50th and 95th percentile rates.
/// A sample set whose total weight is zero yields no estimate; this guard
/// cannot fire once the block-fill filler has run against a positive
/// full-block weight.
pub fn fee_rate_estimate_from_sorted_weighted_fees(
    sorted_fee_rates: &Vec<FeeRateAndWeight>,
) -> (r: Option<FeeRateEstimate>)
    requires
        sorted_fee_rates@.len() >= 1,
        sorted_by_rate(sorted_fee_rates@),
        total_weight(sorted_fee_rates@) <= u64::MAX,
    ensures
        r is None <==> total_weight(sorted_fee_rates@) == 0,
        r is Some ==> {
            let e = r.unwrap();
            &&& e.low == value_at(sorted_fee_rates@, TARGET_LOW as int)
            &&& e.middle == value_at(sorted_fee_rates@, TARGET_MIDDLE as int)
            &&& e.high == value_at(sorted_fee_rates@, TARGET_HIGH as int)
            &&& e.low <= e.middle <= e.high
            &&& sorted_fee_rates@[0].fee_rate <= e.low
            &&& e.high <= sorted_fee_rates@[sorted_fee_rates@.len() - 1].fee_rate
        },
{
    let s = Ghost(sorted_fee_rates@);
    let n = sorted_fee_rates.len();
    let mut total: u64 = 0;
    let mut i: usize = 0;
    while i < n
        invariant
            0 <= i <= n,
            n == s@.len(),
            s@ == sorted_fee_rates@,
            total == prefix_weight(s@, i as int),
            total_weight(s@) <= u64::MAX,
        decreases n - i,
    {
        proof {
            lemma_prefix_weight_step(s@, i as int);
            lemma_prefix_weight_monotone(s@, i as int + 1, s@.len() as int);
            lemma_prefix_weight_total(s@);
            lemma_prefix_weight_nonneg(s@, i as int);
        }
        total = total + sorted_fee_rates[i].weight;
        i = i + 1;
    }
    proof {
        lemma_prefix_weight_total(s@);
    }
    if total == 0 {
        return None;
    }
    // Positions of each sample's midpoint percentile, in PCT_SCALE fixed
    // point.
    let mut positions: Vec<u64> = Vec::new();
    let mut cum: u64 = 0;
    let mut i: usize = 0;
    while i < n
        invariant
            0 <= i <= n,
            n == s@.len(),
            s@ == sorted_fee_rates@,
            total == total_weight(s@),
            1 <= total,
            cum == prefix_weight(s@, i as int),
            positions@.len() == i,
            forall|j: int| 0 <= j < i ==> positions@[j] == position(s@, j),
        decreases n - i,
    {
        let w = sorted_fee_rates[i].weight;
        proof {
            lemma_prefix_weight_step(s@, i as int);
            lemma_prefix_weight_monotone(s@, i as int + 1, s@.len() as int);
            lemma_prefix_weight_total(s@);
            lemma_prefix_weight_nonneg(s@, i as int);
        }
        let numer: u128 = 2 * (cum as u128) + (w as u128);
        proof {
            let numi = numer as int;
            lemma_position_numerator_bounds(s@, i as int);
            assert(numi * PCT_SCALE < 0x100000000000000000000000000000000) by (nonlinear_arith)
                requires 0 <= numi <= 0x1fffffffffffffffe;
        }
        let p128: u128 = (numer * (PCT_SCALE as u128)) / (2 * (total as u128));
        proof {
            lemma_position_bounds(s@, i as int);
        }
        positions.push(p128 as u64);
        cum = cum + w;
        i = i + 1;
    }
    let low = value_at_target(sorted_fee_rates, &positions, TARGET_LOW);
    let middle = value_at_target(sorted_fee_rates, &positions, TARGET_MIDDLE);
    let high = value_at_target(sorted_fee_rates, &positions, TARGET_HIGH);
    proof {
        lemma_block_estimate_ordered(s@);
        lemma_value_at_in_range(s@, TARGET_LOW as int);
        lemma_value_at_in_range(s@, TARGET_HIGH as int);
    }
    Some(FeeRateEstimate { high, middle, low })
}

} // verus!
