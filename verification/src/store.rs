//! The windowed estimate store: a bounded history of per-block estimates
//! persisted in one SQLite table, and the estimator that feeds it.
//!
//! The table is modelled as the sequence of its rows
//! `(measure_key, high, middle, low)` enumerated ascending by key, together
//! with the key the next insert will receive. Each `record` runs one
//! transaction that inserts the newest row and deletes every row whose key
//! is more than `window_size` below the new maximum, so at most
//! `window_size` rows ever survive a completed `record`.

use vstd::prelude::*;

use crate::median::estimate_from_window;
use crate::median::highs_of;
use crate::median::lows_of;
use crate::median::median_of_sorted;
use crate::median::middles_of;
use crate::percentile::fee_rate_estimate_from_sorted_weighted_fees;
use crate::percentile::total_weight;
use crate::sampler::all_rates_bounded;
use crate::sampler::eligible_of;
use crate::sampler::lemma_bounded_by_multiset;
use crate::sampler::maybe_add_minimum_fee_rate;
use crate::sampler::samples_from_block;
use crate::sampler::sum_weights;
use crate::sorting::sort_samples_by_rate;
use crate::sorting::sorted_u64;
use crate::types::BlockReceipt;
use crate::types::CostMetric;
use crate::types::EstimatorError;
use crate::types::ExecutionCost;
use crate::types::FeeRateAndWeight;
use crate::types::FeeRateEstimate;
use crate::types::FEE_RATE_SCALE;
use crate::types::MAX_FEE_RATE;
use crate::types::PROPORTION_RESOLUTION;
use vstd::seq_lib::group_to_multiset_ensures;

verus! {

/// One persisted row: `(measure_key, high, middle, low)`.
pub type StoredRow = (i64, i64, i64, i64);

#[verifier::external_type_specification]
#[verifier::external_body]
pub struct ExConnection(rusqlite::Connection);

#[verifier::external_type_specification]
#[verifier::external_body]
pub struct ExSqlError(rusqlite::Error);

/// The rows of the estimator's table behind this connection, enumerated
/// ascending by `measure_key`.
pub uninterp spec fn table_rows(c: rusqlite::Connection) -> Seq<StoredRow>;

/// The `measure_key` the table's next successful insert receives.
pub uninterp spec fn next_row_key(c: rusqlite::Connection) -> i64;

/// Row keys appear in strictly increasing order.
pub open spec fn key_sorted(rows: Seq<StoredRow>) -> bool {
    forall|i: int, j: int| 0 <= i < j < rows.len() ==> rows[i].0 < rows[j].0
}

/// Every row key lies strictly below `k`.
pub open spec fn keys_below(rows: Seq<StoredRow>, k: int) -> bool {
    forall|i: int| 0 <= i < rows.len() ==> (#[trigger] rows[i]).0 < k
}

/// The rows that survive a trim at cutoff `t`: those whose key exceeds it,
/// in unchanged order.
pub open spec fn trimmed(rows: Seq<StoredRow>, t: int) -> Seq<StoredRow>
    decreases rows.len(),
{
    if rows.len() == 0 {
        Seq::empty()
    } else {
        let rest = trimmed(rows.drop_last(), t);
        if rows.last().0 > t {
            rest.push(rows.last())
        } else {
            rest
        }
    }
}

/// The row an estimate is persisted as, under key `k`.
pub open spec fn row_of(k: i64, e: FeeRateEstimate) -> StoredRow {
    (k, e.high as i64, e.middle as i64, e.low as i64)
}

/// The table after one completed `record` of estimate `e` under window
/// `w`: the new row is appended with key `k`, then everything at or below
/// `k - w` is deleted.
pub open spec fn recorded(rows: Seq<StoredRow>, k: i64, e: FeeRateEstimate, w: u32) -> Seq<
    StoredRow,
> {
    trimmed(rows.push(row_of(k, e)), k - w)
}

/// Number of rows a read of window `w` returns.
pub open spec fn window_len(w: int, n: int) -> int {
    if w <= n {
        w
    } else {
        n
    }
}

/// The `(high, middle, low)` triples of the `w` most recent rows, newest
/// first.
pub open spec fn selected(rows: Seq<StoredRow>, w: int) -> Seq<(i64, i64, i64)> {
    Seq::new(
        window_len(w, rows.len() as int) as nat,
        |i: int|
            (
                rows[rows.len() - 1 - i].1,
                rows[rows.len() - 1 - i].2,
                rows[rows.len() - 1 - i].3,
            ),
    )
}

/// All values of the selected triples are non-negative.
pub open spec fn all_nonneg(sel: Seq<(i64, i64, i64)>) -> bool {
    forall|i: int|
        0 <= i < sel.len() ==> (#[trigger] sel[i]).0 >= 0 && sel[i].1 >= 0 && sel[i].2 >= 0
}

/// The selected triples read back as estimates.
pub open spec fn to_estimates(sel: Seq<(i64, i64, i64)>) -> Seq<FeeRateEstimate> {
    sel.map_values(
        |t: (i64, i64, i64)|
            FeeRateEstimate { high: t.0 as u64, middle: t.1 as u64, low: t.2 as u64 },
    )
}

/// The outcome a read-back window determines: a negative component is
/// foreign data and a storage failure; an empty window is the expected
/// no-estimate condition; otherwise the estimate is the column-wise median
/// of the window.
pub open spec fn read_window_result(sel: Seq<(i64, i64, i64)>) -> Result<
    FeeRateEstimate,
    EstimatorError,
> {
    if !all_nonneg(sel) {
        Err(EstimatorError::StorageFailure)
    } else if sel.len() == 0 {
        Err(EstimatorError::NoEstimateAvailable)
    } else {
        Ok(
            FeeRateEstimate {
                high: median_of_sorted(sorted_u64(highs_of(to_estimates(sel)))) as u64,
                middle: median_of_sorted(sorted_u64(middles_of(to_estimates(sel)))) as u64,
                low: median_of_sorted(sorted_u64(lows_of(to_estimates(sel)))) as u64,
            },
        )
    }
}

/// Turn the rows read back from storage into the running estimate. The
/// result is total in the rows: exactly [`read_window_result`] of them.
pub fn estimate_from_read_rows(triples: &Vec<(i64, i64, i64)>) -> (r: Result<
    FeeRateEstimate,
    EstimatorError,
>)
    ensures
        r == read_window_result(triples@),
{
    let ghost sel = triples@;
    let n = triples.len();
    let mut window_rows: Vec<FeeRateEstimate> = Vec::new();
    let mut i: usize = 0;
    while i < n
        invariant
            0 <= i <= n,
            n == sel.len(),
            sel == triples@,
            window_rows@ =~= to_estimates(sel.take(i as int)),
            forall|j: int|
                0 <= j < i ==> (#[trigger] sel[j]).0 >= 0 && sel[j].1 >= 0 && sel[j].2 >= 0,
        decreases n - i,
    {
        let t = triples[i];
        if t.0 < 0 || t.1 < 0 || t.2 < 0 {
            proof {
                assert(!all_nonneg(sel));
            }
            return Err(EstimatorError::StorageFailure);
        }
        window_rows.push(
            FeeRateEstimate { high: t.0 as u64, middle: t.1 as u64, low: t.2 as u64 },
        );
        i = i + 1;
    }
    proof {
        assert(sel.take(n as int) =~= sel);
        assert(window_rows@ =~= to_estimates(sel));
        assert(all_nonneg(sel));
        assert(forall|j: int|
            0 <= j < window_rows@.len() ==> (#[trigger] window_rows@[j]).storable());
    }
    estimate_from_window(&window_rows)
}

/// Relies on `rusqlite::Connection::open`: opens the database file at
/// `path` with SQLite's create-if-missing flags. A SQLite table enumerated
/// ascending by its `INTEGER PRIMARY KEY` yields strictly increasing keys,
/// and `AUTOINCREMENT` hands every future insert a key strictly above
/// every key the table ever held.
#[verifier::external_body]
fn open_conn(path: &str) -> (r: Result<rusqlite::Connection, rusqlite::Error>)
    ensures
        r matches Ok(c) ==> key_sorted(table_rows(c)) && keys_below(
            table_rows(c),
            next_row_key(c) as int,
        ),
{
    rusqlite::Connection::open(path)
}

/// Relies on `rusqlite::Connection::execute_batch` running
/// `CREATE TABLE IF NOT EXISTS`: the statement creates the estimator's
/// table when it is absent and is a no-op when it already exists, so the
/// rows and the upcoming key are untouched either way, also on failure.
#[verifier::external_body]
fn init_schema(c: &mut rusqlite::Connection) -> (r: Result<(), rusqlite::Error>)
    ensures
        table_rows(*final(c)) == table_rows(*old(c)),
        next_row_key(*final(c)) == next_row_key(*old(c)),
{
    c.execute_batch(
        "CREATE TABLE IF NOT EXISTS median_fee_estimator (
             measure_key INTEGER PRIMARY KEY AUTOINCREMENT,
             high INTEGER NOT NULL,
             middle INTEGER NOT NULL,
             low INTEGER NOT NULL
         )",
    )
}

/// Relies on `rusqlite::Connection::transaction`,
/// `rusqlite::Connection::execute` (reached through the transaction's
/// deref) and `rusqlite::Transaction::commit`: within one transaction,
/// inserts the estimate — `AUTOINCREMENT` assigns it the next key and
/// advances that key by one — and deletes every row whose key is at most
/// the new maximum minus `window`. On any failure the dropped transaction
/// rolls back and the table is unchanged.
#[verifier::external_body]
fn insert_and_trim(c: &mut rusqlite::Connection, e: &FeeRateEstimate, window: u32) -> (r: Result<
    (),
    rusqlite::Error,
>)
    requires
        e.storable(),
    ensures
        r is Ok ==> table_rows(*final(c)) == recorded(
            table_rows(*old(c)),
            next_row_key(*old(c)),
            *e,
            window,
        ) && next_row_key(*final(c)) == next_row_key(*old(c)) + 1,
        r is Err ==> table_rows(*final(c)) == table_rows(*old(c)) && next_row_key(*final(c))
            == next_row_key(*old(c)),
{
    let tx = c.transaction()?;
    tx.execute(
        "INSERT INTO median_fee_estimator (high, middle, low) VALUES (?1, ?2, ?3)",
        [e.high as i64, e.middle as i64, e.low as i64],
    )?;
    tx.execute(
        "DELETE FROM median_fee_estimator
         WHERE measure_key <= (SELECT MAX(measure_key) - ?1 FROM median_fee_estimator)",
        [window as i64],
    )?;
    tx.commit()
}

/// Relies on `rusqlite::Connection::prepare` and
/// `rusqlite::Statement::query_map`: reads the `(high, middle, low)` of
/// the `window` most recent rows, newest first. Reading a column as `i64`
/// fails on any value that is not a SQLite `INTEGER`.
#[verifier::external_body]
fn select_recent(c: &rusqlite::Connection, window: u32) -> (r: Result<
    Vec<(i64, i64, i64)>,
    rusqlite::Error,
>)
    ensures
        r matches Ok(v) ==> v@ == selected(table_rows(*c), window as int),
{
    let mut stmt = c.prepare(
        "SELECT high, middle, low FROM median_fee_estimator
         ORDER BY measure_key DESC LIMIT ?1",
    )?;
    let rows = stmt.query_map([window as i64], |row| {
        Ok((row.get(0)?, row.get(1)?, row.get(2)?))
    })?;
    let mut out: Vec<(i64, i64, i64)> = Vec::new();
    for row in rows {
        out.push(row?);
    }
    Ok(out)
}

/// Trimming keeps order, bounds and only rows above the cutoff.
proof fn lemma_trimmed_props(rows: Seq<StoredRow>, t: int, k: int)
    requires
        key_sorted(rows),
        keys_below(rows, k),
    ensures
        key_sorted(trimmed(rows, t)),
        keys_below(trimmed(rows, t), k),
        trimmed(rows, t).len() <= rows.len(),
        forall|i: int| 0 <= i < trimmed(rows, t).len() ==> (#[trigger] trimmed(rows, t)[i]).0 > t,
    decreases rows.len(),
{
    if rows.len() > 0 {
        let prefix = rows.drop_last();
        let last = rows.last();
        assert(keys_below(prefix, last.0 as int));
        lemma_trimmed_props(prefix, t, last.0 as int);
        lemma_trimmed_props(prefix, t, k);
        assert(trimmed(prefix, t) =~= trimmed(prefix, t));
    }
}

/// A strictly ascending key sequence confined to `(t, hi]` has at most
/// `hi - t` rows.
proof fn lemma_strict_range_len(rows: Seq<StoredRow>, t: int, hi: int)
    requires
        key_sorted(rows),
        forall|i: int| 0 <= i < rows.len() ==> t < (#[trigger] rows[i]).0 <= hi,
        t <= hi,
    ensures
        rows.len() <= hi - t,
    decreases rows.len(),
{
    if rows.len() > 0 {
        let prefix = rows.drop_last();
        let last = rows.last();
        assert forall|i: int| 0 <= i < prefix.len() implies t < (#[trigger] prefix[i]).0 <= last.0
            - 1 by {
            assert(rows[i].0 < last.0);
        }
        if prefix.len() > 0 {
            lemma_strict_range_len(prefix, t, last.0 - 1);
        }
    }
}

/// A completed record keeps the table well formed, bounded by the window
/// size, and never empty when the window admits at least one row.
pub proof fn lemma_recorded_wf(rows: Seq<StoredRow>, k: i64, e: FeeRateEstimate, w: u32)
    requires
        key_sorted(rows),
        keys_below(rows, k as int),
    ensures
        key_sorted(recorded(rows, k, e, w)),
        keys_below(recorded(rows, k, e, w), k + 1),
        recorded(rows, k, e, w).len() <= w,
        w >= 1 ==> recorded(rows, k, e, w).len() >= 1,
{
    let pushed = rows.push((k, e.high as i64, e.middle as i64, e.low as i64));
    assert(key_sorted(pushed));
    assert(keys_below(pushed, k + 1));
    lemma_trimmed_props(pushed, k - w, k + 1);
    lemma_strict_range_len(trimmed(pushed, k - w), k - w, k as int);
    if w >= 1 {
        assert(pushed.last().0 > k - w);
        assert(recorded(rows, k, e, w).len() >= 1);
    }
}

/// The rows that a run of consecutive records appends: `vals[0]` under key
/// `k`, `vals[1]` under `k + 1`, and so on.
pub open spec fn inserted_rows(k: i64, vals: Seq<FeeRateEstimate>) -> Seq<StoredRow>
    decreases vals.len(),
{
    if vals.len() == 0 {
        Seq::empty()
    } else {
        seq![row_of(k, vals[0])] + inserted_rows((k + 1) as i64, vals.drop_first())
    }
}

/// The table after recording each of `vals` in turn, the first under key
/// `k`, under window `w`.
pub open spec fn recorded_all(
    rows: Seq<StoredRow>,
    k: i64,
    vals: Seq<FeeRateEstimate>,
    w: u32,
) -> Seq<StoredRow>
    decreases vals.len(),
{
    if vals.len() == 0 {
        rows
    } else {
        recorded_all(recorded(rows, k, vals[0], w), (k + 1) as i64, vals.drop_first(), w)
    }
}

/// Trimming distributes over concatenation.
proof fn lemma_trimmed_distributes(a: Seq<StoredRow>, b: Seq<StoredRow>, t: int)
    ensures
        trimmed(a + b, t) == trimmed(a, t) + trimmed(b, t),
    decreases b.len(),
{
    if b.len() == 0 {
        assert(a + b =~= a);
        assert(trimmed(a, t) + trimmed(b, t) =~= trimmed(a, t));
    } else {
        assert((a + b).drop_last() =~= a + b.drop_last());
        assert((a + b).last() == b.last());
        lemma_trimmed_distributes(a, b.drop_last(), t);
        if b.last().0 > t {
            assert(trimmed(a, t) + trimmed(b.drop_last(), t).push(b.last()) =~= (trimmed(a, t)
                + trimmed(b.drop_last(), t)).push(b.last()));
        }
    }
}

/// A trim at a higher cutoff absorbs an earlier trim at a lower one.
proof fn lemma_trimmed_absorbs(q: Seq<StoredRow>, t1: int, t2: int)
    requires
        t1 <= t2,
    ensures
        trimmed(trimmed(q, t1), t2) == trimmed(q, t2),
    decreases q.len(),
{
    if q.len() > 0 {
        lemma_trimmed_absorbs(q.drop_last(), t1, t2);
        if q.last().0 > t1 {
            assert(trimmed(q, t1) == trimmed(q.drop_last(), t1).push(q.last()));
            assert(trimmed(q, t1).drop_last() =~= trimmed(q.drop_last(), t1));
        }
    }
}

/// A trim whose cutoff sits at or above every key deletes everything.
proof fn lemma_trimmed_all_below(q: Seq<StoredRow>, t: int)
    requires
        keys_below(q, t + 1),
    ensures
        trimmed(q, t) == Seq::<StoredRow>::empty(),
    decreases q.len(),
{
    if q.len() > 0 {
        lemma_trimmed_all_below(q.drop_last(), t);
    }
}

/// How many of a run of consecutive-key rows survive a trim at `t`.
spec fn surviving_count(k: int, n: int, t: int) -> int {
    if n == 0 {
        0
    } else if t < k {
        n
    } else if t >= k + n - 1 {
        0
    } else {
        k + n - 1 - t
    }
}

proof fn lemma_trimmed_inserted_len(k: i64, vals: Seq<FeeRateEstimate>, t: int)
    requires
        k + vals.len() - 1 <= i64::MAX,
    ensures
        trimmed(inserted_rows(k, vals), t).len() == surviving_count(
            k as int,
            vals.len() as int,
            t,
        ),
    decreases vals.len(),
{
    if vals.len() > 0 {
        let first = seq![row_of(k, vals[0])];
        let rest = inserted_rows((k + 1) as i64, vals.drop_first());
        assert(inserted_rows(k, vals) == first + rest);
        lemma_trimmed_distributes(first, rest, t);
        lemma_trimmed_inserted_len((k + 1) as i64, vals.drop_first(), t);
        assert(first.drop_last() =~= Seq::<StoredRow>::empty());
        assert(trimmed(Seq::<StoredRow>::empty(), t) == Seq::<StoredRow>::empty());
        assert(first.last() == row_of(k, vals[0]));
        if first.last().0 > t {
            assert(trimmed(first, t) =~= seq![row_of(k, vals[0])]);
        } else {
            assert(trimmed(first, t) =~= Seq::<StoredRow>::empty());
        }
        assert(trimmed(inserted_rows(k, vals), t).len() == trimmed(first, t).len() + trimmed(
            rest,
            t,
        ).len());
    }
}

/// A run of records is one concatenation followed by one trim at the
/// final cutoff.
proof fn lemma_recorded_all_shape(
    rows: Seq<StoredRow>,
    k: i64,
    vals: Seq<FeeRateEstimate>,
    w: u32,
)
    requires
        key_sorted(rows),
        keys_below(rows, k as int),
        vals.len() >= 1,
        k + vals.len() - 1 <= i64::MAX,
    ensures
        recorded_all(rows, k, vals, w) == trimmed(
            rows + inserted_rows(k, vals),
            k + vals.len() - 1 - w,
        ),
    decreases vals.len(),
{
    let row0 = row_of(k, vals[0]);
    let q = rows.push(row0);
    if vals.len() == 1 {
        let rest = vals.drop_first();
        assert(rest.len() == 0);
        assert(inserted_rows((k + 1) as i64, rest) == Seq::<StoredRow>::empty());
        assert(inserted_rows(k, vals) == seq![row0] + inserted_rows((k + 1) as i64, rest));
        assert(rows + inserted_rows(k, vals) =~= q);
        let rows1 = recorded(rows, k, vals[0], w);
        assert(recorded_all(rows, k, vals, w) == recorded_all(rows1, (k + 1) as i64, rest, w));
        assert(recorded_all(rows1, (k + 1) as i64, rest, w) == rows1);
    } else {
        let rows1 = recorded(rows, k, vals[0], w);
        lemma_recorded_wf(rows, k, vals[0], w);
        lemma_recorded_all_shape(rows1, (k + 1) as i64, vals.drop_first(), w);
        let ins1 = inserted_rows((k + 1) as i64, vals.drop_first());
        let kk = k + vals.len() - 1 - w;
        lemma_trimmed_distributes(rows1, ins1, kk);
        lemma_trimmed_distributes(q, ins1, kk);
        lemma_trimmed_absorbs(q, k - w, kk);
        assert(q + ins1 =~= rows + inserted_rows(k, vals));
        assert(recorded_all(rows, k, vals, w) == trimmed(rows1 + ins1, kk));
        assert(trimmed(rows1 + ins1, kk) == trimmed(rows1, kk) + trimmed(ins1, kk));
        assert(trimmed(rows1, kk) == trimmed(trimmed(q, k - w), kk));
        assert(trimmed(trimmed(q, k - w), kk) == trimmed(q, kk));
    }
}

/// Law: once at least `w` block estimates have been recorded against a
/// well-formed table under window size `w`, exactly `w` rows remain — the
/// window neither grows past its bound nor drains below it.
pub proof fn lemma_window_filled(
    rows: Seq<StoredRow>,
    k: i64,
    vals: Seq<FeeRateEstimate>,
    w: u32,
)
    requires
        key_sorted(rows),
        keys_below(rows, k as int),
        1 <= vals.len(),
        w <= vals.len(),
        k + vals.len() - 1 <= i64::MAX,
    ensures
        recorded_all(rows, k, vals, w).len() == w,
{
    {
        let n = vals.len() as int;
        let t = k + n - 1 - w;
        lemma_recorded_all_shape(rows, k, vals, w);
        lemma_trimmed_distributes(rows, inserted_rows(k, vals), t);
        assert(keys_below(rows, t + 1));
        lemma_trimmed_all_below(rows, t);
        lemma_trimmed_inserted_len(k, vals, t);
        assert(trimmed(rows, t) + trimmed(inserted_rows(k, vals), t) =~= trimmed(
            inserted_rows(k, vals),
            t,
        ));
        assert(surviving_count(k as int, n, t) == w);
    }
}

/// Law: recording one estimate against an empty table and reading the
/// window straight back yields that estimate's own `(high, middle, low)`,
/// unchanged — the median of a one-row window is the row itself.
pub proof fn lemma_single_row_round_trip(k: i64, e: FeeRateEstimate, w: u32)
    requires
        w >= 1,
        e.storable(),
    ensures
        ({
            let sel = selected(recorded(Seq::<StoredRow>::empty(), k, e, w), w as int);
            &&& sel.len() == 1
            &&& all_nonneg(sel)
            &&& median_of_sorted(sorted_u64(highs_of(to_estimates(sel)))) == e.high
            &&& median_of_sorted(sorted_u64(middles_of(to_estimates(sel)))) == e.middle
            &&& median_of_sorted(sorted_u64(lows_of(to_estimates(sel)))) == e.low
            &&& read_window_result(sel) == Ok::<FeeRateEstimate, EstimatorError>(e)
        }),
{
    let row = row_of(k, e);
    let pushed = Seq::<StoredRow>::empty().push(row);
    assert(pushed.drop_last() =~= Seq::<StoredRow>::empty());
    assert(trimmed(Seq::<StoredRow>::empty(), k - w) == Seq::<StoredRow>::empty());
    assert(pushed.last() == row);
    let rows1 = recorded(Seq::<StoredRow>::empty(), k, e, w);
    assert(rows1 =~= seq![row]);
    let sel = selected(rows1, w as int);
    assert(sel =~= seq![(row.1, row.2, row.3)]);
    assert(to_estimates(sel) =~= seq![e]);
    crate::median::lemma_estimate_of_single_row(to_estimates(sel));
}

/// This estimator translates each transaction's resource cost into a
/// scalar weight using a caller-supplied [`CostMetric`], weights the
/// transaction's fee rate by it, and takes the weighted 5th, 50th and 95th
/// percentile rates of each block as the block's low, middle and high
/// estimate. Blocks that do not fill their limit are padded with a
/// minimum-rate filler sample. The running estimate served to callers is
/// the column-wise median over the `window_size` most recent block
/// estimates, persisted in SQLite.
pub struct WeightedMedianFeeRateEstimator<M: CostMetric> {
    db: rusqlite::Connection,
    /// We only look back `window_size` block estimates when computing the
    /// running estimate.
    window_size: u32,
    /// The weight of a "full block" in abstract scalar cost units: the
    /// weight of a block that is filled on each dimension.
    full_block_weight: u64,
    metric: M,
}

impl<M: CostMetric> WeightedMedianFeeRateEstimator<M> {
    /// The persisted window as this estimator's model sees it.
    pub closed spec fn rows(self) -> Seq<StoredRow> {
        table_rows(self.db)
    }

    /// The key the next recorded row receives.
    pub closed spec fn next_key(self) -> i64 {
        next_row_key(self.db)
    }

    /// The configured window size.
    pub closed spec fn spec_window_size(self) -> u32 {
        self.window_size
    }

    /// The configured weight of a full block.
    pub closed spec fn spec_full_block_weight(self) -> u64 {
        self.full_block_weight
    }

    /// Well-formedness: the table's keys ascend strictly, stay below the
    /// next key, and the full-block weight is the configured constant.
    pub closed spec fn wf(self) -> bool {
        &&& key_sorted(self.rows())
        &&& keys_below(self.rows(), self.next_key() as int)
        &&& self.full_block_weight == 6 * PROPORTION_RESOLUTION
    }

    /// Open a fee rate estimator backed by the database at the given path;
    /// the file and the estimator's table are created when missing, and a
    /// file that already holds the table — possibly shared with sibling
    /// estimators — is reused with its rows preserved.
    pub fn open(p: &str, metric: M, window_size: u32) -> (r: Result<Self, EstimatorError>)
        ensures
            r matches Ok(s) ==> s.wf() && s.spec_window_size() == window_size,
            r is Err ==> r == Err::<Self, EstimatorError>(EstimatorError::StorageFailure),
    {
        match open_conn(p) {
            Err(_) => Err(EstimatorError::StorageFailure),
            Ok(mut db) => {
                match init_schema(&mut db) {
                    Err(_) => Err(EstimatorError::StorageFailure),
                    Ok(()) => Ok(
                        WeightedMedianFeeRateEstimator {
                            db,
                            metric,
                            window_size,
                            full_block_weight: 6 * PROPORTION_RESOLUTION,
                        },
                    ),
                }
            },
        }
    }

    /// Persist one block estimate: within one atomic transaction, append
    /// the row and evict everything more than `window_size` keys below the
    /// new maximum. On failure the transaction rolls back and the store is
    /// unchanged.
    pub fn record(&mut self, new_measure: FeeRateEstimate) -> (r: Result<(), EstimatorError>)
        requires
            old(self).wf(),
            new_measure.storable(),
        ensures
            final(self).wf(),
            final(self).spec_window_size() == old(self).spec_window_size(),
            final(self).spec_full_block_weight() == old(self).spec_full_block_weight(),
            r is Ok ==> final(self).rows() == recorded(
                old(self).rows(),
                old(self).next_key(),
                new_measure,
                old(self).spec_window_size(),
            ) && final(self).next_key() == old(self).next_key() + 1,
            r is Ok ==> final(self).rows().len() <= old(self).spec_window_size(),
            r is Err ==> r == Err::<(), EstimatorError>(EstimatorError::StorageFailure)
                && final(self).rows() == old(self).rows()
                && final(self).next_key() == old(self).next_key(),
    {
        proof {
            lemma_recorded_wf(
                table_rows(self.db),
                next_row_key(self.db),
                new_measure,
                self.window_size,
            );
        }
        match insert_and_trim(&mut self.db, &new_measure, self.window_size) {
            Ok(()) => Ok(()),
            Err(_) => Err(EstimatorError::StorageFailure),
        }
    }

    /// The current running estimate: the column-wise median over the
    /// `window_size` most recent rows. An empty window is the expected
    /// cold-start state and yields `NoEstimateAvailable`; a row holding
    /// anything but non-negative integers is foreign data and yields
    /// `StorageFailure`.
    pub fn current_estimate(&self) -> (r: Result<FeeRateEstimate, EstimatorError>)
        ensures
            r == Err::<FeeRateEstimate, EstimatorError>(EstimatorError::StorageFailure) || r
                == read_window_result(selected(self.rows(), self.spec_window_size() as int)),
            r == Err::<FeeRateEstimate, EstimatorError>(EstimatorError::NoEstimateAvailable)
                ==> selected(self.rows(), self.spec_window_size() as int).len() == 0,
            window_len(self.spec_window_size() as int, self.rows().len() as int) == 0 ==> !(
            r is Ok),
    {
        match select_recent(&self.db, self.window_size) {
            Err(_) => Err(EstimatorError::StorageFailure),
            Ok(triples) => estimate_from_read_rows(&triples),
        }
    }

    /// The caller-facing read of the running estimate.
    pub fn get_rate_estimates(&self) -> (r: Result<FeeRateEstimate, EstimatorError>)
        ensures
            r == Err::<FeeRateEstimate, EstimatorError>(EstimatorError::StorageFailure) || r
                == read_window_result(selected(self.rows(), self.spec_window_size() as int)),
            r == Err::<FeeRateEstimate, EstimatorError>(EstimatorError::NoEstimateAvailable)
                ==> selected(self.rows(), self.spec_window_size() as int).len() == 0,
            window_len(self.spec_window_size() as int, self.rows().len() as int) == 0 ==> !(
            r is Ok),
    {
        self.current_estimate()
    }

    /// Process one block: sample its transactions, pad the block to full
    /// weight, compute the weighted-percentile estimate, and record it. A
    /// block that yields no samples, or whose weights overflow the summing
    /// range, is skipped silently — skipping is a valid steady state, not
    /// an error. Only a storage failure is an error, and it leaves the
    /// store unchanged.
    pub fn notify_block(&mut self, receipt: &BlockReceipt, block_limit: &ExecutionCost) -> (r:
        Result<(), EstimatorError>)
        requires
            old(self).wf(),
        ensures
            final(self).wf(),
            final(self).spec_window_size() == old(self).spec_window_size(),
            final(self).spec_full_block_weight() == old(self).spec_full_block_weight(),
            r is Err ==> r == Err::<(), EstimatorError>(EstimatorError::StorageFailure)
                && final(self).rows() == old(self).rows(),
            r is Ok ==> final(self).rows() == old(self).rows() || (exists|e: FeeRateEstimate|
                FEE_RATE_SCALE <= e.low && e.low <= e.middle && e.middle <= e.high && e.high
                    <= MAX_FEE_RATE && final(self).rows() == #[trigger] recorded(
                    old(self).rows(),
                    old(self).next_key(),
                    e,
                    old(self).spec_window_size(),
                )),
            r is Ok && eligible_of(receipt.tx_receipts@).len() == 0 ==> final(self).rows()
                == recorded(
                old(self).rows(),
                old(self).next_key(),
                FeeRateEstimate {
                    high: FEE_RATE_SCALE,
                    middle: FEE_RATE_SCALE,
                    low: FEE_RATE_SCALE,
                },
                old(self).spec_window_size(),
            ),
    {
        let ghost rs = receipt.tx_receipts@;
        let ghost filler = (FeeRateAndWeight {
            fee_rate: FEE_RATE_SCALE,
            weight: old(self).spec_full_block_weight(),
        });
        let mut working_fee_rates = samples_from_block(&self.metric, receipt, block_limit);
        let ghost pre_fill = working_fee_rates@;
        maybe_add_minimum_fee_rate(&mut working_fee_rates, self.full_block_weight);
        proof {
            assert(all_rates_bounded(working_fee_rates@));
            if eligible_of(rs).len() == 0 {
                // A block with no eligible receipts is pure filler: one
                // synthetic sample carrying the whole full-block weight.
                assert(pre_fill =~= Seq::<FeeRateAndWeight>::empty());
                assert(total_weight(pre_fill) == 0);
                assert(working_fee_rates@ =~= seq![filler]);
                assert(seq![filler].drop_last() =~= Seq::<FeeRateAndWeight>::empty());
                assert(total_weight(seq![filler]) == filler.weight);
            }
        }
        if working_fee_rates.len() == 0 {
            return Ok(());
        }
        let ghost unsorted = working_fee_rates@;
        sort_samples_by_rate(&mut working_fee_rates);
        proof {
            lemma_bounded_by_multiset(unsorted, working_fee_rates@);
            if eligible_of(rs).len() == 0 {
                // Sorting the one-sample block returns that sample alone.
                broadcast use group_to_multiset_ensures;

                assert(unsorted == seq![filler]);
                assert(Seq::<FeeRateAndWeight>::empty().push(filler).to_multiset()
                    =~= Seq::<FeeRateAndWeight>::empty().to_multiset().insert(filler));
                assert(unsorted =~= Seq::<FeeRateAndWeight>::empty().push(filler));
                assert(working_fee_rates@.to_multiset().count(filler) > 0);
                assert(working_fee_rates@.contains(filler));
                let j = choose|j: int|
                    0 <= j < working_fee_rates@.len() && working_fee_rates@[j] == filler;
                assert(j == 0);
                assert(working_fee_rates@ =~= seq![filler]);
            }
        }
        let total = sum_weights(&working_fee_rates);
        if total > 0xffffffffffffffff {
            // Defensive guard: a block whose weights together overflow the
            // summing range is skipped like an empty one.
            return Ok(());
        }
        match fee_rate_estimate_from_sorted_weighted_fees(&working_fee_rates) {
            None => Ok(()),
            Some(block_estimate) => {
                proof {
                    assert(block_estimate.storable());
                    assert(FEE_RATE_SCALE <= block_estimate.low);
                    if eligible_of(rs).len() == 0 {
                        // The lone filler sample spans every target
                        // percentile, so the block estimate is 1.0 across.
                        assert(block_estimate.low == FEE_RATE_SCALE);
                        assert(block_estimate.high == FEE_RATE_SCALE);
                        assert(block_estimate == FeeRateEstimate {
                            high: FEE_RATE_SCALE,
                            middle: FEE_RATE_SCALE,
                            low: FEE_RATE_SCALE,
                        });
                    }
                }
                match self.record(block_estimate) {
                    Ok(()) => {
                        proof {
                            assert(self.rows() == recorded(
                                old(self).rows(),
                                old(self).next_key(),
                                block_estimate,
                                old(self).spec_window_size(),
                            ));
                        }
                        Ok(())
                    },
                    Err(e) => Err(e),
                }
            },
        }
    }

    /// What well-formedness gives a caller: the persisted keys ascend
    /// strictly, every key lies below the next one to be assigned, and the
    /// full-block weight is the configured constant.
    pub proof fn wf_facts(self)
        requires
            self.wf(),
        ensures
            key_sorted(self.rows()),
            keys_below(self.rows(), self.next_key() as int),
            self.spec_full_block_weight() == 6 * PROPORTION_RESOLUTION,
    {
    }
}

} // verus!
