use fee_medians::BlockReceipt;
use fee_medians::CostMetric;
use fee_medians::EstimatorError;
use fee_medians::ExecutionCost;
use fee_medians::FeeRateEstimate;
use fee_medians::StacksTxInfo;
use fee_medians::TransactionPayloadKind;
use fee_medians::TxReceiptInfo;
use fee_medians::WeightedMedianFeeRateEstimator;

// A fee rate of 1.0 in fixed point.
const ONE: u64 = 1_000_000;

/// A metric that weighs transfers by their byte length and cost-bearing
/// transactions by their runtime dimension.
struct TestMetric;

impl CostMetric for TestMetric {
    fn from_len(&self, tx_len: u64) -> u64 {
        tx_len
    }

    fn from_cost_and_len(
        &self,
        cost: &ExecutionCost,
        _block_limit: &ExecutionCost,
        _tx_len: u64,
    ) -> u64 {
        cost.runtime
    }
}

fn zero_cost() -> ExecutionCost {
    ExecutionCost {
        write_length: 0,
        write_count: 0,
        read_length: 0,
        read_count: 0,
        runtime: 0,
    }
}

fn est(high: u64, middle: u64, low: u64) -> FeeRateEstimate {
    FeeRateEstimate { high, middle, low }
}

#[test]
fn empty_store_has_no_estimate() {
    let store =
        WeightedMedianFeeRateEstimator::open(":memory:", TestMetric, 5).unwrap();
    assert_eq!(store.current_estimate(), Err(EstimatorError::NoEstimateAvailable));
    assert_eq!(store.get_rate_estimates(), Err(EstimatorError::NoEstimateAvailable));
}

#[test]
fn open_on_unusable_path_is_storage_failure() {
    let r = WeightedMedianFeeRateEstimator::open("/", TestMetric, 5);
    assert!(matches!(r, Err(EstimatorError::StorageFailure)));
}

#[test]
fn single_row_median_is_the_row() {
    let mut store =
        WeightedMedianFeeRateEstimator::open(":memory:", TestMetric, 5).unwrap();
    store.record(est(9 * ONE, 4 * ONE, 2 * ONE)).unwrap();
    assert_eq!(store.current_estimate(), Ok(est(9 * ONE, 4 * ONE, 2 * ONE)));
}

#[test]
fn medians_are_column_wise() {
    let mut store =
        WeightedMedianFeeRateEstimator::open(":memory:", TestMetric, 5).unwrap();
    store.record(est(10 * ONE, 9 * ONE, 1 * ONE)).unwrap();
    store.record(est(12 * ONE, 2 * ONE, 2 * ONE)).unwrap();
    store.record(est(11 * ONE, 5 * ONE, 3 * ONE)).unwrap();
    // Each column's median is taken on its own; the result is not any one
    // recorded row.
    assert_eq!(store.current_estimate(), Ok(est(11 * ONE, 5 * ONE, 2 * ONE)));
}

#[test]
fn even_window_averages_central_rows() {
    let mut store =
        WeightedMedianFeeRateEstimator::open(":memory:", TestMetric, 4).unwrap();
    store.record(est(2 * ONE, 2 * ONE, 2 * ONE)).unwrap();
    store.record(est(3 * ONE, 3 * ONE, 3 * ONE)).unwrap();
    assert_eq!(
        store.current_estimate(),
        Ok(est(2 * ONE + ONE / 2, 2 * ONE + ONE / 2, 2 * ONE + ONE / 2))
    );
}

#[test]
fn window_keeps_most_recent_rows() {
    let mut store =
        WeightedMedianFeeRateEstimator::open(":memory:", TestMetric, 3).unwrap();
    for v in 1..=5u64 {
        store.record(est(v * ONE, v * ONE, v * ONE)).unwrap();
    }
    // Rows 1 and 2 were evicted; the median over {3, 4, 5} is 4.
    assert_eq!(store.current_estimate(), Ok(est(4 * ONE, 4 * ONE, 4 * ONE)));
}

#[test]
fn window_of_one_keeps_only_last_row() {
    let mut store =
        WeightedMedianFeeRateEstimator::open(":memory:", TestMetric, 1).unwrap();
    for v in 1..=4u64 {
        store.record(est(v * ONE, v * ONE, v * ONE)).unwrap();
    }
    assert_eq!(store.current_estimate(), Ok(est(4 * ONE, 4 * ONE, 4 * ONE)));
}

#[test]
fn window_trims_persisted_rows_exactly() {
    // Record five rows under window 3, then read the same shared
    // in-memory database back with a much larger window: only the three
    // youngest rows may have survived.
    let uri = "file:trim_check?mode=memory&cache=shared";
    let mut writer = WeightedMedianFeeRateEstimator::open(uri, TestMetric, 3).unwrap();
    for v in 1..=5u64 {
        writer.record(est(v * ONE, v * ONE, v * ONE)).unwrap();
    }
    let reader = WeightedMedianFeeRateEstimator::open(uri, TestMetric, 100).unwrap();
    assert_eq!(reader.current_estimate(), Ok(est(4 * ONE, 4 * ONE, 4 * ONE)));
}

#[test]
fn reopening_preserves_schema_and_rows() {
    let uri = "file:reopen_check?mode=memory&cache=shared";
    let mut first = WeightedMedianFeeRateEstimator::open(uri, TestMetric, 5).unwrap();
    first.record(est(7 * ONE, 6 * ONE, 5 * ONE)).unwrap();
    // A second instance over the same storage must initialize without
    // error and see the first instance's rows.
    let second = WeightedMedianFeeRateEstimator::open(uri, TestMetric, 5).unwrap();
    assert_eq!(second.current_estimate(), Ok(est(7 * ONE, 6 * ONE, 5 * ONE)));
    // The first instance keeps working against the shared table.
    assert_eq!(first.current_estimate(), Ok(est(7 * ONE, 6 * ONE, 5 * ONE)));
}

#[test]
fn empty_block_records_filler_estimate() {
    let mut store =
        WeightedMedianFeeRateEstimator::open(":memory:", TestMetric, 5).unwrap();
    let receipt = BlockReceipt { tx_receipts: Vec::new() };
    store.notify_block(&receipt, &zero_cost()).unwrap();
    assert_eq!(store.current_estimate(), Ok(est(ONE, ONE, ONE)));
}

#[test]
fn coinbase_and_burn_receipts_are_excluded() {
    let mut store =
        WeightedMedianFeeRateEstimator::open(":memory:", TestMetric, 5).unwrap();
    let receipt = BlockReceipt {
        tx_receipts: vec![
            TxReceiptInfo {
                stacks_tx: Some(StacksTxInfo {
                    payload_kind: TransactionPayloadKind::Coinbase,
                    fee_paid: 12_345,
                    tx_len: 10,
                }),
                execution_cost: zero_cost(),
            },
            TxReceiptInfo { stacks_tx: None, execution_cost: zero_cost() },
        ],
    };
    store.notify_block(&receipt, &zero_cost()).unwrap();
    // Neither receipt contributed a sample, so the block was pure filler.
    assert_eq!(store.current_estimate(), Ok(est(ONE, ONE, ONE)));
}

#[test]
fn transfer_block_estimate_matches_hand_computation() {
    // One token transfer: fee 100 over 10 bytes gives rate 10.0 at weight
    // 10; the filler adds rate 1.0 at weight 59990. The midpoints sit at
    // positions 0.499916666 and 0.999916666 (scaled by 1e9), so the 5th
    // percentile is the filler rate, and the 50th and 95th interpolate.
    let mut store =
        WeightedMedianFeeRateEstimator::open(":memory:", TestMetric, 5).unwrap();
    let receipt = BlockReceipt {
        tx_receipts: vec![TxReceiptInfo {
            stacks_tx: Some(StacksTxInfo {
                payload_kind: TransactionPayloadKind::TokenTransfer,
                fee_paid: 100,
                tx_len: 10,
            }),
            execution_cost: zero_cost(),
        }],
    };
    store.notify_block(&receipt, &zero_cost()).unwrap();
    assert_eq!(store.current_estimate(), Ok(est(9_101_500, 1_001_500, ONE)));
}

#[test]
fn foreign_negative_rows_are_a_storage_failure() {
    let rows = vec![(3_000_000_i64, 2_000_000_i64, -1_i64)];
    assert_eq!(
        fee_medians::store::estimate_from_read_rows(&rows),
        Err(EstimatorError::StorageFailure)
    );
}

#[test]
fn read_of_no_rows_is_no_estimate() {
    let rows: Vec<(i64, i64, i64)> = Vec::new();
    assert_eq!(
        fee_medians::store::estimate_from_read_rows(&rows),
        Err(EstimatorError::NoEstimateAvailable)
    );
}

#[test]
fn zero_window_never_produces_an_estimate() {
    // A window of size zero evicts even the row it just inserted, so the
    // store always reports the cold-start condition.
    let mut store =
        WeightedMedianFeeRateEstimator::open(":memory:", TestMetric, 0).unwrap();
    store.record(est(3 * ONE, 2 * ONE, ONE)).unwrap();
    assert_eq!(store.current_estimate(), Err(EstimatorError::NoEstimateAvailable));
}

#[test]
fn smart_contract_uses_cost_metric() {
    let mut store =
        WeightedMedianFeeRateEstimator::open(":memory:", TestMetric, 5).unwrap();
    let mut cost = zero_cost();
    cost.runtime = 60_000;
    let receipt = BlockReceipt {
        tx_receipts: vec![TxReceiptInfo {
            stacks_tx: Some(StacksTxInfo {
                payload_kind: TransactionPayloadKind::SmartContract,
                fee_paid: 120_000,
                tx_len: 1,
            }),
            execution_cost: cost,
        }],
    };
    store.notify_block(&receipt, &zero_cost()).unwrap();
    assert_eq!(store.current_estimate(), Ok(est(2 * ONE, 2 * ONE, 2 * ONE)));
}

#[test]
fn contract_call_uses_cost_metric() {
    // A contract call weighted by runtime 60000 fills the block on its
    // own: no filler, a single sample of rate fee/60000 clamped to 1.0
    // spans all percentiles.
    let mut store =
        WeightedMedianFeeRateEstimator::open(":memory:", TestMetric, 5).unwrap();
    let mut cost = zero_cost();
    cost.runtime = 60_000;
    let receipt = BlockReceipt {
        tx_receipts: vec![TxReceiptInfo {
            stacks_tx: Some(StacksTxInfo {
                payload_kind: TransactionPayloadKind::ContractCall,
                fee_paid: 300_000,
                tx_len: 1,
            }),
            execution_cost: cost,
        }],
    };
    store.notify_block(&receipt, &zero_cost()).unwrap();
    assert_eq!(store.current_estimate(), Ok(est(5 * ONE, 5 * ONE, 5 * ONE)));
}
