//! Insertion sorts for the estimator: samples ordered by fee rate, and
//! plain `u64` columns for the window medians.

use vstd::prelude::*;
use vstd::seq_lib::group_to_multiset_ensures;
use vstd::seq_lib::lemma_multiset_commutative;
use vstd::seq_lib::lemma_sorted_unique;
use vstd::relations::sorted_by;
use vstd::relations::total_ordering;

use crate::percentile::sorted_by_rate;
use crate::types::FeeRateAndWeight;

verus! {

/// The ascending order on `u64`, as the comparator handed to `sort_by`.
pub open spec fn u64_leq() -> spec_fn(u64, u64) -> bool {
    |x: u64, y: u64| x <= y
}

/// The spec-level ascending sort of a `u64` sequence.
pub open spec fn sorted_u64(s: Seq<u64>) -> Seq<u64> {
    s.sort_by(u64_leq())
}

proof fn lemma_u64_total_ordering()
    ensures
        total_ordering(u64_leq()),
{
}

/// Inserting an element anywhere in a sequence inserts it into the
/// sequence's multiset.
proof fn lemma_insert_to_multiset<A>(s: Seq<A>, i: int, x: A)
    requires
        0 <= i <= s.len(),
    ensures
        s.insert(i, x).to_multiset() == s.to_multiset().insert(x),
{
    broadcast use group_to_multiset_ensures;

    assert(s.insert(i, x) =~= s.take(i).push(x) + s.skip(i));
    assert(s =~= s.take(i) + s.skip(i));
    lemma_multiset_commutative(s.take(i).push(x), s.skip(i));
    lemma_multiset_commutative(s.take(i), s.skip(i));
    assert(s.insert(i, x).to_multiset() =~= s.to_multiset().insert(x));
}

/// Removing an element and inserting it elsewhere keeps the multiset.
proof fn lemma_remove_insert_to_multiset<A>(s: Seq<A>, i: int, j: int)
    requires
        0 <= i < s.len(),
        0 <= j <= s.len() - 1,
    ensures
        s.remove(i).insert(j, s[i]).to_multiset() == s.to_multiset(),
{
    broadcast use group_to_multiset_ensures;

    lemma_insert_to_multiset(s.remove(i), j, s[i]);
    assert(s.remove(i).to_multiset() =~= s.to_multiset().remove(s[i]));
    assert(s.to_multiset().count(s[i]) > 0);
    assert(s.to_multiset().remove(s[i]).insert(s[i]) =~= s.to_multiset());
}

/// Sort the block's samples ascending by fee rate. Samples with equal
/// rates stay in their original order relative to each other.
pub fn sort_samples_by_rate(v: &mut Vec<FeeRateAndWeight>)
    ensures
        sorted_by_rate(final(v)@),
        final(v)@.to_multiset() == old(v)@.to_multiset(),
        final(v)@.len() == old(v)@.len(),
{
    let ghost orig = v@;
    let n = v.len();
    let mut i: usize = 0;
    while i < n
        invariant
            0 <= i <= n,
            n == v@.len(),
            v@.to_multiset() == orig.to_multiset(),
            sorted_by_rate(v@.take(i as int)),
        decreases n - i,
    {
        let x = v[i];
        let mut idx: usize = 0;
        while idx < i && v[idx].fee_rate <= x.fee_rate
            invariant
                0 <= idx <= i < n == v@.len(),
                x == v@[i as int],
                forall|j: int| 0 <= j < idx ==> v@[j].fee_rate <= x.fee_rate,
            decreases i - idx,
        {
            idx = idx + 1;
        }
        let ghost before = v@;
        proof {
            lemma_remove_insert_to_multiset(before, i as int, idx as int);
        }
        v.remove(i);
        v.insert(idx, x);
        proof {
            let after = before.remove(i as int).insert(idx as int, x);
            assert(v@ == after);
            assert(after.take(i as int + 1) =~= before.take(i as int).insert(idx as int, x));
            let p = before.take(i as int);
            let q = p.insert(idx as int, x);
            assert forall|a: int, b: int| 0 <= a < b < q.len() implies q[a].fee_rate
                <= q[b].fee_rate by {
                if idx < i {
                    assert(p[idx as int].fee_rate > x.fee_rate);
                }
                assert forall|c: int| idx <= c < p.len() implies x.fee_rate
                    <= p[c].fee_rate by {
                    if idx < i {
                        assert(p[idx as int].fee_rate <= p[c].fee_rate);
                    }
                }
            }
        }
        i = i + 1;
    }
    proof {
        assert(v@.take(n as int) =~= v@);
    }
}

/// Sort a `u64` column ascending; the result is exactly the spec-level
/// sort of the input.
pub fn sort_u64(v: &Vec<u64>) -> (r: Vec<u64>)
    ensures
        r@ == sorted_u64(v@),
{
    let mut out: Vec<u64> = Vec::new();
    let n = v.len();
    let mut i: usize = 0;
    proof {
        broadcast use group_to_multiset_ensures;

        assert(v@.take(0) =~= Seq::<u64>::empty());
        assert(out@.to_multiset() =~= v@.take(0).to_multiset());
    }
    while i < n
        invariant
            0 <= i <= n,
            n == v@.len(),
            out@.len() == i,
            out@.to_multiset() == v@.take(i as int).to_multiset(),
            sorted_by(out@, u64_leq()),
        decreases n - i,
    {
        let x = v[i];
        let mut idx: usize = 0;
        while idx < out.len() && out[idx] <= x
            invariant
                0 <= idx <= out@.len(),
                forall|j: int| 0 <= j < idx ==> out@[j] <= x,
            decreases out@.len() - idx,
        {
            idx = idx + 1;
        }
        let ghost before = out@;
        proof {
            broadcast use group_to_multiset_ensures;

            lemma_insert_to_multiset(before, idx as int, x);
            assert(v@.take(i as int + 1).drop_last() =~= v@.take(i as int));
            assert(v@.take(i as int).push(x) =~= v@.take(i as int + 1));
        }
        out.insert(idx, x);
        proof {
            let q = before.insert(idx as int, x);
            assert forall|a: int, b: int| 0 <= a <= b < q.len() implies u64_leq()(
                q[a],
                q[b],
            ) by {
                if idx < before.len() {
                    assert(u64_leq()(before[idx as int], before[idx as int]));
                    assert(!(before[idx as int] <= x));
                }
                assert forall|c: int| idx <= c < before.len() implies x <= before[c] by {
                    if idx < before.len() {
                        assert(u64_leq()(before[idx as int], before[c]));
                    }
                }
            }
        }
        i = i + 1;
    }
    proof {
        lemma_u64_total_ordering();
        assert(v@.take(n as int) =~= v@);
        v@.lemma_sort_by_ensures(u64_leq());
        lemma_sorted_unique(out@, sorted_u64(v@), u64_leq());
    }
    out
}

} // verus!
