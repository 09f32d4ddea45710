use fee_medians::percentile::fee_rate_estimate_from_sorted_weighted_fees;
use fee_medians::sampler::fee_rate_from_parts;
use fee_medians::sampler::maybe_add_minimum_fee_rate;
use fee_medians::FeeRateAndWeight;
use fee_medians::FeeRateEstimate;

// A fee rate of 1.0 in fixed point.
const ONE: u64 = 1_000_000;

#[test]
fn rate_is_fee_over_cost() {
    // 100 units of fee over 10 cost units: a rate of 10.0.
    assert_eq!(fee_rate_from_parts(100, 10), 10 * ONE);
}

#[test]
fn rate_rounds_toward_zero() {
    // 10 / 3 = 3.333333...
    assert_eq!(fee_rate_from_parts(10, 3), 3_333_333);
}

#[test]
fn zero_cost_counts_as_one() {
    assert_eq!(fee_rate_from_parts(7, 0), 7 * ONE);
}

#[test]
fn low_rate_clamps_to_minimum() {
    // 1 unit of fee over 100 cost units is below 1.0 and clamps up.
    assert_eq!(fee_rate_from_parts(1, 100), ONE);
    assert_eq!(fee_rate_from_parts(0, 5), ONE);
}

#[test]
fn huge_rate_saturates_at_storable_ceiling() {
    assert_eq!(fee_rate_from_parts(u64::MAX, 1), i64::MAX as u64);
}

#[test]
fn filler_tops_up_underfull_block() {
    let mut rates = vec![FeeRateAndWeight { fee_rate: 5 * ONE, weight: 100 }];
    maybe_add_minimum_fee_rate(&mut rates, 60_000);
    assert_eq!(rates.len(), 2);
    assert_eq!(rates[1].fee_rate, ONE);
    assert_eq!(rates[1].weight, 59_900);
}

#[test]
fn filler_skips_full_block() {
    let mut rates = vec![FeeRateAndWeight { fee_rate: 5 * ONE, weight: 60_000 }];
    maybe_add_minimum_fee_rate(&mut rates, 60_000);
    assert_eq!(rates.len(), 1);
}

#[test]
fn empty_block_becomes_single_filler_sample() {
    // A block with zero transaction weight and a positive full-block
    // weight yields exactly one synthetic sample at rate 1.0 whose weight
    // is the whole block.
    let mut rates: Vec<FeeRateAndWeight> = Vec::new();
    maybe_add_minimum_fee_rate(&mut rates, 60_000);
    assert_eq!(rates.len(), 1);
    assert_eq!(rates[0].fee_rate, ONE);
    assert_eq!(rates[0].weight, 60_000);
    let est = fee_rate_estimate_from_sorted_weighted_fees(&rates).unwrap();
    assert_eq!(est, FeeRateEstimate { high: ONE, middle: ONE, low: ONE });
}

#[test]
fn single_sample_spans_all_percentiles() {
    // One transaction with fee 100 and weight 10 sits at the 50th
    // percentile midpoint, so every target resolves to its own rate.
    let rates = vec![FeeRateAndWeight { fee_rate: fee_rate_from_parts(100, 10), weight: 10 }];
    let est = fee_rate_estimate_from_sorted_weighted_fees(&rates).unwrap();
    assert_eq!(est, FeeRateEstimate { high: 10 * ONE, middle: 10 * ONE, low: 10 * ONE });
}

#[test]
fn two_samples_interpolate_the_median() {
    // Two equal-weight samples at rates 2.0 and 4.0: midpoints at the
    // 25th and 75th percentile, so the 50th interpolates to 3.0 while the
    // 5th and 95th hit the boundary samples.
    let rates = vec![
        FeeRateAndWeight { fee_rate: 2 * ONE, weight: 30_000 },
        FeeRateAndWeight { fee_rate: 4 * ONE, weight: 30_000 },
    ];
    let est = fee_rate_estimate_from_sorted_weighted_fees(&rates).unwrap();
    assert_eq!(est.low, 2 * ONE);
    assert_eq!(est.middle, 3 * ONE);
    assert_eq!(est.high, 4 * ONE);
}

#[test]
fn percentiles_are_ordered() {
    let rates = vec![
        FeeRateAndWeight { fee_rate: ONE, weight: 17 },
        FeeRateAndWeight { fee_rate: 3 * ONE, weight: 1_000 },
        FeeRateAndWeight { fee_rate: 3 * ONE + 7, weight: 3 },
        FeeRateAndWeight { fee_rate: 9 * ONE, weight: 60_000 },
        FeeRateAndWeight { fee_rate: 450 * ONE, weight: 2 },
    ];
    let est = fee_rate_estimate_from_sorted_weighted_fees(&rates).unwrap();
    assert!(est.low <= est.middle);
    assert!(est.middle <= est.high);
}

#[test]
fn zero_total_weight_yields_no_estimate() {
    let rates = vec![FeeRateAndWeight { fee_rate: 2 * ONE, weight: 0 }];
    assert!(fee_rate_estimate_from_sorted_weighted_fees(&rates).is_none());
}
