//! Core data types and fixed-point conventions of the estimator.

use vstd::prelude::*;

verus! {

/// Fixed-point unit for fee rates: a rate of `1.0` is `FEE_RATE_SCALE`.
pub const FEE_RATE_SCALE: u64 = 1_000_000;

/// Largest fee rate the store can persist (the SQLite `INTEGER` ceiling,
/// `i64::MAX`). Rates computed above it saturate here.
pub const MAX_FEE_RATE: u64 = 0x7fff_ffff_ffff_ffff;

/// Fixed-point unit for percentile positions: a position of `1.0` (the
/// 100th percentile) is `PCT_SCALE`.
pub const PCT_SCALE: u64 = 1_000_000_000;

/// Target position of the `low` estimate: the 5th percentile.
pub const TARGET_LOW: u64 = 50_000_000;

/// Target position of the `middle` estimate: the 50th percentile.
pub const TARGET_MIDDLE: u64 = 500_000_000;

/// Target position of the `high` estimate: the 95th percentile.
pub const TARGET_HIGH: u64 = 950_000_000;

/// Resolution of the proportional cost metric; a maximally packed block
/// weighs `6 * PROPORTION_RESOLUTION` abstract cost units, one
/// `PROPORTION_RESOLUTION` per block-limit dimension.
pub const PROPORTION_RESOLUTION: u64 = 10_000;

/// One block's fee-rate estimate: the weighted 95th/50th/5th percentile
/// fee rates of the block's samples, in fixed-point form.
#[derive(Clone, Copy, Debug, PartialEq, Eq, Structural)]
pub struct FeeRateEstimate {
    pub high: u64,
    pub middle: u64,
    pub low: u64,
}

impl FeeRateEstimate {
    /// All three rates fit in a SQLite `INTEGER` column.
    pub open spec fn storable(self) -> bool {
        self.high <= MAX_FEE_RATE && self.middle <= MAX_FEE_RATE && self.low <= MAX_FEE_RATE
    }
}

/// One weighted sample: a transaction's fee rate (fixed point) and the
/// scalar resource cost that weights it in the percentile computation.
#[derive(Clone, Copy, Debug, PartialEq, Eq, Structural)]
pub struct FeeRateAndWeight {
    pub fee_rate: u64,
    pub weight: u64,
}

/// Error taxonomy of the estimator.
#[derive(Clone, Copy, Debug, PartialEq, Eq, Structural)]
pub enum EstimatorError {
    /// The window holds no rows yet; expected at cold start.
    NoEstimateAvailable,
    /// The storage layer failed or holds rows this estimator cannot read.
    StorageFailure,
}

/// A multi-dimensional resource-consumption vector, as consumed by a block
/// or allowed by a block limit.
#[derive(Clone, Copy, Debug, PartialEq, Eq, Structural)]
pub struct ExecutionCost {
    pub write_length: u64,
    pub write_count: u64,
    pub read_length: u64,
    pub read_count: u64,
    pub runtime: u64,
}

/// Payload classification of a transaction, which decides how its scalar
/// cost is derived.
#[derive(Clone, Copy, Debug, PartialEq, Eq, Structural)]
pub enum TransactionPayloadKind {
    TokenTransfer,
    Coinbase,
    PoisonMicroblock,
    ContractCall,
    SmartContract,
}

/// The fee-market data of one transaction that originated on the Stacks
/// chain: its payload kind, the fee it paid, and its byte length.
#[derive(Clone, Copy, Debug, PartialEq, Eq, Structural)]
pub struct StacksTxInfo {
    pub payload_kind: TransactionPayloadKind,
    pub fee_paid: u64,
    pub tx_len: u64,
}

/// One transaction receipt of a processed block. `stacks_tx` is `None` for
/// entries that originated on the burn chain, which take no part in the fee
/// market.
#[derive(Clone, Copy, Debug, PartialEq, Eq, Structural)]
pub struct TxReceiptInfo {
    pub stacks_tx: Option<StacksTxInfo>,
    pub execution_cost: ExecutionCost,
}

/// The receipts of one processed block.
pub struct BlockReceipt {
    pub tx_receipts: Vec<TxReceiptInfo>,
}

/// A scalar cost metric: maps a transaction's byte length, or its resource
/// cost vector together with the block limit and byte length, to one
/// abstract cost unit. Implementations are supplied by the caller; the
/// estimator promises nothing about the returned weights.
pub trait CostMetric {
    fn from_len(&self, tx_len: u64) -> u64;

    fn from_cost_and_len(
        &self,
        cost: &ExecutionCost,
        block_limit: &ExecutionCost,
        tx_len: u64,
    ) -> u64;
}

} // verus!
