//! The block fee-rate sampler: turns one block's transaction receipts into
//! weighted fee-rate samples and pads an under-full block with a synthetic
//! minimum-rate filler sample.

use vstd::arithmetic::mul::lemma_mul_inequality;
use vstd::prelude::*;
use vstd::seq_lib::group_to_multiset_ensures;

use crate::percentile::lemma_prefix_weight_step;
use crate::percentile::lemma_prefix_weight_total;
use crate::percentile::prefix_weight;
use crate::percentile::total_weight;
use crate::types::CostMetric;
use crate::types::ExecutionCost;
use crate::types::FeeRateAndWeight;
use crate::types::BlockReceipt;
use crate::types::TransactionPayloadKind;
use crate::types::TxReceiptInfo;
use crate::types::FEE_RATE_SCALE;
use crate::types::MAX_FEE_RATE;

verus! {

/// The fee rate of a transaction that paid `fee_paid` for `scalar_cost`
/// abstract cost units, in fixed point: `fee_paid / max(scalar_cost, 1)`,
/// rounded toward zero, clamped below at the minimum rate `1.0` and above
/// at the largest storable rate.
pub open spec fn clamped_fee_rate(fee_paid: int, scalar_cost: int) -> int {
    let den = if scalar_cost >= 1 {
        scalar_cost
    } else {
        1
    };
    let raw = (fee_paid * FEE_RATE_SCALE) / den;
    if raw < FEE_RATE_SCALE {
        FEE_RATE_SCALE as int
    } else if raw > MAX_FEE_RATE {
        MAX_FEE_RATE as int
    } else {
        raw
    }
}

/// A receipt takes no part in the fee market when it originated on the
/// burn chain or carries a coinbase payload.
pub open spec fn excluded_from_fee_market(r: TxReceiptInfo) -> bool {
    ||| r.stacks_tx is None
    ||| r.stacks_tx.unwrap().payload_kind is Coinbase
}

/// Every sample's rate lies in the representable fee-rate range.
pub open spec fn all_rates_bounded(s: Seq<FeeRateAndWeight>) -> bool {
    forall|i: int|
        0 <= i < s.len() ==> FEE_RATE_SCALE <= #[trigger] s[i].fee_rate <= MAX_FEE_RATE
}

/// Compute a transaction's fixed-point fee rate from the fee it paid and
/// its scalar cost.
pub fn fee_rate_from_parts(fee_paid: u64, scalar_cost: u64) -> (r: u64)
    ensures
        r == clamped_fee_rate(fee_paid as int, scalar_cost as int),
        FEE_RATE_SCALE <= r <= MAX_FEE_RATE,
{
    let den: u64 = if scalar_cost >= 1 {
        scalar_cost
    } else {
        1
    };
    proof {
        assert((fee_paid as int) * (FEE_RATE_SCALE as int)
            < 0x100000000000000000000000000000000) by (nonlinear_arith)
            requires 0 <= fee_paid <= 0xffffffffffffffff;
    }
    let raw: u128 = ((fee_paid as u128) * (FEE_RATE_SCALE as u128)) / (den as u128);
    if raw < FEE_RATE_SCALE as u128 {
        FEE_RATE_SCALE
    } else if raw > MAX_FEE_RATE as u128 {
        MAX_FEE_RATE
    } else {
        raw as u64
    }
}

/// Classify one receipt and, unless it is excluded from the fee market,
/// weight it by the metric's scalar cost and compute its fee rate. The
/// weight itself is whatever the caller's metric returns; the rate is
/// pinned as a function of the fee paid and that weight.
pub fn fee_rate_and_weight_from_receipt<M: CostMetric>(
    metric: &M,
    tx_receipt: &TxReceiptInfo,
    block_limit: &ExecutionCost,
) -> (r: Option<FeeRateAndWeight>)
    ensures
        r is None <==> excluded_from_fee_market(*tx_receipt),
        r matches Some(x) ==> x.fee_rate == clamped_fee_rate(
            tx_receipt.stacks_tx.unwrap().fee_paid as int,
            x.weight as int,
        ),
        r matches Some(x) ==> FEE_RATE_SCALE <= x.fee_rate <= MAX_FEE_RATE,
{
    match &tx_receipt.stacks_tx {
        None => None,
        Some(tx) => {
            let scalar_cost: u64 = match tx.payload_kind {
                TransactionPayloadKind::TokenTransfer => metric.from_len(tx.tx_len),
                TransactionPayloadKind::Coinbase => {
                    return None;
                },
                TransactionPayloadKind::PoisonMicroblock => metric.from_cost_and_len(
                    &tx_receipt.execution_cost,
                    block_limit,
                    tx.tx_len,
                ),
                TransactionPayloadKind::ContractCall => metric.from_cost_and_len(
                    &tx_receipt.execution_cost,
                    block_limit,
                    tx.tx_len,
                ),
                TransactionPayloadKind::SmartContract => metric.from_cost_and_len(
                    &tx_receipt.execution_cost,
                    block_limit,
                    tx.tx_len,
                ),
            };
            let fee_rate = fee_rate_from_parts(tx.fee_paid, scalar_cost);
            Some(FeeRateAndWeight { fee_rate, weight: scalar_cost })
        },
    }
}

/// The receipts of a block that take part in the fee market, in block
/// order.
pub open spec fn eligible_of(rs: Seq<TxReceiptInfo>) -> Seq<TxReceiptInfo>
    decreases rs.len(),
{
    if rs.len() == 0 {
        Seq::empty()
    } else {
        let rest = eligible_of(rs.drop_last());
        if excluded_from_fee_market(rs.last()) {
            rest
        } else {
            rest.push(rs.last())
        }
    }
}

proof fn lemma_eligible_of_step(rs: Seq<TxReceiptInfo>, i: int)
    requires
        0 <= i < rs.len(),
    ensures
        excluded_from_fee_market(rs[i]) ==> eligible_of(rs.take(i + 1)) == eligible_of(
            rs.take(i),
        ),
        !excluded_from_fee_market(rs[i]) ==> eligible_of(rs.take(i + 1)) == eligible_of(
            rs.take(i),
        ).push(rs[i]),
{
    assert(rs.take(i + 1).drop_last() =~= rs.take(i));
    assert(rs.take(i + 1).last() == rs[i]);
}

/// Collect the weighted fee-rate samples of one block: one sample per
/// receipt that takes part in the fee market, in receipt order. The `j`-th
/// sample's rate is the clamped fee rate of the `j`-th eligible receipt's
/// fee over that sample's own metric-assigned weight.
pub fn samples_from_block<M: CostMetric>(
    metric: &M,
    receipt: &BlockReceipt,
    block_limit: &ExecutionCost,
) -> (v: Vec<FeeRateAndWeight>)
    ensures
        all_rates_bounded(v@),
        v@.len() == eligible_of(receipt.tx_receipts@).len(),
        v@.len() <= receipt.tx_receipts@.len(),
        forall|j: int|
            0 <= j < v@.len() ==> (#[trigger] v@[j]).fee_rate == clamped_fee_rate(
                eligible_of(receipt.tx_receipts@)[j].stacks_tx.unwrap().fee_paid as int,
                v@[j].weight as int,
            ),
{
    let ghost rs = receipt.tx_receipts@;
    let mut working: Vec<FeeRateAndWeight> = Vec::new();
    let n = receipt.tx_receipts.len();
    let mut i: usize = 0;
    while i < n
        invariant
            0 <= i <= n,
            n == rs.len(),
            rs == receipt.tx_receipts@,
            all_rates_bounded(working@),
            working@.len() == eligible_of(rs.take(i as int)).len(),
            working@.len() <= i,
            forall|j: int|
                0 <= j < working@.len() ==> (#[trigger] working@[j]).fee_rate == clamped_fee_rate(
                    eligible_of(rs.take(i as int))[j].stacks_tx.unwrap().fee_paid as int,
                    working@[j].weight as int,
                ),
        decreases n - i,
    {
        proof {
            lemma_eligible_of_step(rs, i as int);
        }
        let r = fee_rate_and_weight_from_receipt(metric, &receipt.tx_receipts[i], block_limit);
        match r {
            Some(x) => working.push(x),
            None => (),
        }
        i = i + 1;
    }
    proof {
        assert(rs.take(n as int) =~= rs);
    }
    working
}

/// If the block's samples together weigh less than a full block, append one
/// synthetic filler sample at the minimum fee rate whose weight tops the
/// total up to exactly `full_block_weight`; a block at or above full weight
/// is left unchanged.
pub fn maybe_add_minimum_fee_rate(working_rates: &mut Vec<FeeRateAndWeight>, full_block_weight: u64)
    ensures
        total_weight(old(working_rates)@) >= full_block_weight ==> final(working_rates)@ == old(
            working_rates,
        )@,
        total_weight(old(working_rates)@) < full_block_weight ==> {
            &&& final(working_rates)@ == old(working_rates)@.push(
                FeeRateAndWeight {
                    fee_rate: FEE_RATE_SCALE,
                    weight: (full_block_weight - total_weight(old(working_rates)@)) as u64,
                },
            )
            &&& total_weight(final(working_rates)@) == full_block_weight
        },
{
    let ghost s = working_rates@;
    let n = working_rates.len();
    let mut total: u128 = 0;
    let mut i: usize = 0;
    while i < n
        invariant
            0 <= i <= n,
            n == working_rates@.len(),
            working_rates@ == s,
            total == prefix_weight(s, i as int),
            total <= (i as int) * 0xffffffffffffffff,
        decreases n - i,
    {
        proof {
            lemma_prefix_weight_step(s, i as int);
            lemma_mul_inequality(i as int + 1, n as int, 0xffffffffffffffff);
            assert((n as int) * 0xffffffffffffffff < 0x100000000000000000000000000000000)
                by (nonlinear_arith)
                requires 0 <= n <= 0xffffffffffffffff;
        }
        total = total + (working_rates[i].weight as u128);
        i = i + 1;
    }
    proof {
        lemma_prefix_weight_total(s);
    }
    if total < full_block_weight as u128 {
        let weight_remaining = full_block_weight - (total as u64);
        working_rates.push(
            FeeRateAndWeight { fee_rate: FEE_RATE_SCALE, weight: weight_remaining },
        );
        proof {
            assert(working_rates@.drop_last() =~= s);
        }
    }
}

/// Sum all sample weights; the sum of `usize::MAX` weights of `u64` always
/// fits the `u128` accumulator.
pub fn sum_weights(v: &Vec<FeeRateAndWeight>) -> (t: u128)
    ensures
        t == total_weight(v@),
{
    let ghost s = v@;
    let n = v.len();
    let mut total: u128 = 0;
    let mut i: usize = 0;
    while i < n
        invariant
            0 <= i <= n,
            n == v@.len(),
            v@ == s,
            total == prefix_weight(s, i as int),
            total <= (i as int) * 0xffffffffffffffff,
        decreases n - i,
    {
        proof {
            lemma_prefix_weight_step(s, i as int);
            lemma_mul_inequality(i as int + 1, n as int, 0xffffffffffffffff);
            assert((n as int) * 0xffffffffffffffff < 0x100000000000000000000000000000000)
                by (nonlinear_arith)
                requires 0 <= n <= 0xffffffffffffffff;
        }
        total = total + (v[i].weight as u128);
        i = i + 1;
    }
    proof {
        lemma_prefix_weight_total(s);
    }
    total
}

/// A sequence that holds the same samples as a rate-bounded sequence is
/// itself rate-bounded; reordering the samples keeps the bound.
pub proof fn lemma_bounded_by_multiset(a: Seq<FeeRateAndWeight>, b: Seq<FeeRateAndWeight>)
    requires
        a.to_multiset() == b.to_multiset(),
        all_rates_bounded(a),
    ensures
        all_rates_bounded(b),
{
    broadcast use group_to_multiset_ensures;

    assert forall|i: int|
        0 <= i < b.len() implies FEE_RATE_SCALE <= #[trigger] b[i].fee_rate
        <= MAX_FEE_RATE by {
        assert(b.to_multiset().count(b[i]) > 0);
        assert(a.contains(b[i]));
        let j = choose|j: int| 0 <= j < a.len() && a[j] == b[i];
        assert(FEE_RATE_SCALE <= a[j].fee_rate <= MAX_FEE_RATE);
    }
}

} // verus!
