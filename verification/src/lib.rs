//! A transaction fee-rate estimator.
//!
//! For each processed block, every transaction is turned into a
//! (fee rate, weight) sample, an under-full block is padded with a synthetic
//! minimum-rate filler sample, and the weighted 5th/50th/95th percentile fee
//! rates become the block's `low`/`middle`/`high` estimate. A bounded window
//! of per-block estimates is persisted in a SQLite table; the running
//! estimate returned to callers is the column-wise median over that window.
//!
//! Fee rates are exact non-negative values handled in fixed-point form:
//! a rate of `1.0` is represented by [`types::FEE_RATE_SCALE`].

pub mod median;
pub mod percentile;
pub mod sampler;
pub mod sorting;
pub mod store;
pub mod types;

pub use store::WeightedMedianFeeRateEstimator;
pub use types::BlockReceipt;
pub use types::CostMetric;
pub use types::EstimatorError;
pub use types::ExecutionCost;
pub use types::FeeRateAndWeight;
pub use types::FeeRateEstimate;
pub use types::StacksTxInfo;
pub use types::TransactionPayloadKind;
pub use types::TxReceiptInfo;
