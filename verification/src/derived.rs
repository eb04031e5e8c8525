//! The derived relation store: an in-memory, epoch-partitioned relation
//! accumulating the results of one recursive rule across fixpoint
//! iterations.
//!
//! Epoch 0 always holds the converged total; epochs 1 and above, when
//! used, hold only the delta discovered in the matching round of
//! semi-naive evaluation. The epoch vector grows lazily: asking for an
//! epoch creates it and every missing epoch below it, empty.

use vstd::prelude::*;

use crate::aggr::{lemma_meet_commutes, spec_meet, Aggregation};
use crate::error::Error;
use crate::snapshot::{entries_as_map, seq_contains_key, snap_sorted, EntryModel, Snapshot};
use crate::tuple::{
    reassemble, reassemble_exec, tuple_clone, tuple_cmp, tuple_concat, tuple_push, tup_le, tup_lt,
    Tuple,
};
use crate::value::{val_clone, Cmp, DataValue, ValModel};

verus! {

/// Small stable integer naming one materialized rule relation within one
/// query execution.
#[derive(Clone, Copy, Debug, PartialEq, Eq, Structural, Hash)]
pub struct DerivedRelStoreId(pub u32);

/// Cooperative cancellation flag, polled between rows of long passes.
/// Cancellation surfaces as an error, not a silent truncation.
#[derive(Clone, Copy, Debug)]
pub struct Poison {
    pub poisoned: bool,
}

impl Poison {
    pub fn new() -> (r: Poison)
        ensures
            !r.poisoned,
    {
        Poison { poisoned: false }
    }

    /// Fails exactly when cancellation has been requested.
    pub fn check(&self) -> (r: Result<(), Error>)
        ensures
            self.poisoned ==> r == Err::<(), Error>(Error::Cancelled),
            !self.poisoned ==> r == Ok::<(), Error>(()),
    {
        if self.poisoned {
            Err(Error::Cancelled)
        } else {
            Ok(())
        }
    }
}

/// Row-count limiter for finalize passes. A disabled limiter never signals
/// "enough rows".
#[derive(Clone, Copy, Debug)]
pub struct QueryLimiter {
    pub enabled: bool,
    pub limit: usize,
    pub counter: usize,
}

impl QueryLimiter {
    /// A limiter that never stops a scan.
    pub fn unlimited() -> (r: QueryLimiter)
        ensures
            !r.enabled,
            r.counter == 0,
    {
        QueryLimiter { enabled: false, limit: 0, counter: 0 }
    }

    /// A limiter that signals "enough rows" once `limit` novel rows have
    /// been counted.
    pub fn with_limit(limit: usize) -> (r: QueryLimiter)
        ensures
            r.enabled,
            r.limit == limit,
            r.counter == 0,
    {
        QueryLimiter { enabled: true, limit, counter: 0 }
    }

    /// Count one more stored row; reports whether the limit is reached.
    pub fn incr(&mut self) -> (r: bool)
        requires
            old(self).counter < usize::MAX,
        ensures
            final(self).enabled == old(self).enabled,
            final(self).limit == old(self).limit,
            final(self).counter == old(self).counter + 1,
            r <==> final(self).counter >= final(self).limit,
    {
        self.counter = self.counter + 1;
        self.counter >= self.limit
    }
}

/// One declared aggregate per column: `None` marks a plain key column, a
/// `Some` holds the aggregate function and its static construction
/// arguments.
pub type AggrSpec = Option<(Aggregation, Vec<DataValue>)>;

/// The key a meet put stores a row under: aggregated positions are masked
/// by `Guard`, the rest keep their value.
pub open spec fn meet_key(t: Seq<ValModel>, aggrs: Seq<AggrSpec>) -> Seq<ValModel> {
    Seq::new(aggrs.len(), |i: int| if aggrs[i] is Some {
        ValModel::Guard
    } else {
        t[i]
    })
}

/// The mask a list of aggregate declarations induces: `true` exactly at
/// the aggregated positions.
pub open spec fn aggr_mask(aggrs: Seq<AggrSpec>) -> Seq<bool> {
    Seq::new(aggrs.len(), |i: int| aggrs[i] is Some)
}

/// The value a meet put stores for a first-seen key: aggregated positions
/// keep the row's raw value (the aggregate's identity extraction), the
/// rest are masked by `Guard`.
pub open spec fn meet_store_val(t: Seq<ValModel>, aggrs: Seq<AggrSpec>) -> Seq<ValModel> {
    Seq::new(aggrs.len(), |i: int| if aggrs[i] is Some {
        t[i]
    } else {
        ValModel::Guard
    })
}

/// The key and value maskings of a meet put are exactly the two sides of
/// the split that the reassembly laws speak of, under the aggregate mask.
pub proof fn lemma_meet_masks_are_split(t: Seq<ValModel>, aggrs: Seq<AggrSpec>)
    requires
        t.len() == aggrs.len(),
    ensures
        meet_key(t, aggrs) == crate::tuple::split_key(t, aggr_mask(aggrs)),
        meet_store_val(t, aggrs) == crate::tuple::split_val(t, aggr_mask(aggrs)),
{
    assert(meet_key(t, aggrs) =~= crate::tuple::split_key(t, aggr_mask(aggrs)));
    assert(meet_store_val(t, aggrs) =~= crate::tuple::split_val(t, aggr_mask(aggrs)));
}

/// One position of a meet merge; positions without an aggregate keep the
/// stored value.
pub open spec fn meet_at(a: AggrSpec, cur: ValModel, new: ValModel) -> ValModel {
    match a {
        Some(p) => match spec_meet(p.0, cur, new) {
            Some(m) => m,
            None => cur,
        },
        None => cur,
    }
}

/// Whether one position of a meet merge succeeds.
pub open spec fn meet_ok_at(a: AggrSpec, cur: ValModel, new: ValModel) -> bool {
    match a {
        Some(p) => spec_meet(p.0, cur, new) is Some,
        None => true,
    }
}

/// Whether merging row `t` into the stored value `cur` succeeds at every
/// aggregated position.
pub open spec fn meet_merge_ok(cur: Seq<ValModel>, t: Seq<ValModel>, aggrs: Seq<AggrSpec>) -> bool {
    forall|i: int| 0 <= i < aggrs.len() ==> meet_ok_at(#[trigger] aggrs[i], cur[i], t[i])
}

/// The stored value after merging row `t` into `cur`.
pub open spec fn meet_merge(cur: Seq<ValModel>, t: Seq<ValModel>, aggrs: Seq<AggrSpec>) -> Seq<
    ValModel,
> {
    Seq::new(aggrs.len(), |i: int| meet_at(aggrs[i], cur[i], t[i]))
}

/// The values of `t` at the positions with (`want == true`) or without
/// (`want == false`) a declared aggregate, in column order.
pub open spec fn select_vals(t: Seq<ValModel>, aggrs: Seq<AggrSpec>, want: bool) -> Seq<ValModel>
    decreases aggrs.len(),
{
    if aggrs.len() == 0 {
        Seq::empty()
    } else {
        (if (aggrs[0] is Some) == want {
            seq![t[0]]
        } else {
            Seq::empty()
        }) + select_vals(t.drop_first(), aggrs.drop_first(), want)
    }
}

/// The key a normal-aggregation put stores a row under: the non-aggregated
/// columns first, then the aggregated columns, then the serial number that
/// keeps colliding groups distinct.
pub open spec fn normal_key(t: Seq<ValModel>, aggrs: Seq<AggrSpec>, serial: int) -> Seq<ValModel> {
    select_vals(t, aggrs, false) + select_vals(t, aggrs, true) + seq![ValModel::Int(serial)]
}

/// The full row an entry stands for: an empty value tuple means the key is
/// the row (set semantics); otherwise `Guard` positions of the key take
/// the paired value-tuple element.
pub open spec fn reassembled_row(e: EntryModel) -> Seq<ValModel> {
    if e.1.len() == 0 {
        e.0
    } else {
        reassemble(e.0, e.1)
    }
}

/// All rows of a snapshot, reassembled, in ascending key order.
pub open spec fn reassembled_rows(s: Seq<EntryModel>) -> Seq<Seq<ValModel>> {
    s.map_values(|e: EntryModel| reassembled_row(e))
}

/// The value tuples of a snapshot, in ascending key order.
pub open spec fn value_rows(s: Seq<EntryModel>) -> Seq<Seq<ValModel>> {
    s.map_values(|e: EntryModel| e.1)
}

/// Whether key `k` falls in the closed range of a prefix scan: between
/// the prefix itself and the prefix extended by the upper sentinel.
pub open spec fn in_prefix_range(k: Seq<ValModel>, p: Seq<ValModel>) -> bool {
    tup_le(p, k) && tup_le(k, p.push(ValModel::Bot))
}

/// The reassembled rows of the entries whose key falls in the prefix
/// range, in ascending key order.
pub open spec fn range_rows(s: Seq<EntryModel>, p: Seq<ValModel>) -> Seq<Seq<ValModel>>
    decreases s.len(),
{
    if s.len() == 0 {
        Seq::empty()
    } else {
        (if in_prefix_range(s[0].0, p) {
            seq![reassembled_row(s[0])]
        } else {
            Seq::empty()
        }) + range_rows(s.drop_first(), p)
    }
}

/// The keys of the entries falling between `lo` and `hi` inclusive, in
/// ascending order.
pub open spec fn bounded_keys(s: Seq<EntryModel>, lo: Seq<ValModel>, hi: Seq<ValModel>) -> Seq<
    Seq<ValModel>,
>
    decreases s.len(),
{
    if s.len() == 0 {
        Seq::empty()
    } else {
        (if tup_le(lo, s[0].0) && tup_le(s[0].0, hi) {
            seq![s[0].0]
        } else {
            Seq::empty()
        }) + bounded_keys(s.drop_first(), lo, hi)
    }
}

/// Whether no position of `t` holds the upper-bound sentinel.
pub open spec fn has_no_bot(t: Seq<ValModel>) -> bool {
    forall|i: int| 0 <= i < t.len() ==> (#[trigger] t[i]) != ValModel::Bot
}

/// The closed range of a prefix scan captures exactly the keys that extend
/// the prefix, for keys free of the upper-bound sentinel: every key
/// sharing the prefix is included, every key with a different prefix is
/// excluded, however many trailing columns differ.
pub proof fn lemma_prefix_range_iff(k: Seq<ValModel>, p: Seq<ValModel>)
    requires
        has_no_bot(k),
    ensures
        in_prefix_range(k, p) <==> p.is_prefix_of(k),
    decreases p.len(),
{
    let pb = p.push(ValModel::Bot);
    if p.len() == 0 {
        assert(p.is_prefix_of(k)) by {
            assert(k.subrange(0, 0) =~= p);
        }
        if k.len() == 0 {
            assert(p =~= k);
            assert(tup_lt(k, pb));
        } else {
            assert(tup_lt(p, k));
            assert(k[0] != ValModel::Bot);
            assert(pb[0] == ValModel::Bot);
            assert(crate::value::val_lt(k[0], ValModel::Bot));
            assert(tup_lt(k, pb));
        }
    } else if k.len() == 0 {
        assert(!p.is_prefix_of(k));
        assert(!tup_lt(p, k));
        assert(p != k);
        assert(!in_prefix_range(k, p));
    } else if k[0] == p[0] {
        let kd = k.drop_first();
        let pd = p.drop_first();
        assert(has_no_bot(kd)) by {
            assert(forall|i: int| 0 <= i < kd.len() ==> kd[i] == k[i + 1]);
        }
        lemma_prefix_range_iff(kd, pd);
        assert(pb[0] == p[0]);
        assert(pb.drop_first() =~= pd.push(ValModel::Bot));
        assert(tup_lt(p, k) <==> tup_lt(pd, kd));
        assert(tup_lt(k, pb) <==> tup_lt(kd, pd.push(ValModel::Bot)));
        assert(forall|i: int| 1 <= i < p.len() ==> p[i] == pd[i - 1]);
        assert(forall|i: int| 1 <= i < k.len() ==> k[i] == kd[i - 1]);
        assert((p == k) <==> (pd == kd)) by {
            if pd == kd {
                assert(p =~= k);
            }
            if p == k {
                assert(pd =~= kd);
            }
        }
        assert((k == pb) <==> (kd == pd.push(ValModel::Bot))) by {
            let pdb = pd.push(ValModel::Bot);
            assert(forall|i: int| 1 <= i < pb.len() ==> pb[i] == pdb[i - 1]);
            if kd == pdb {
                assert(k =~= pb);
            }
            if k == pb {
                assert(kd =~= pdb);
            }
        }
        assert(p.is_prefix_of(k) <==> pd.is_prefix_of(kd)) by {
            if pd.is_prefix_of(kd) {
                assert(k.subrange(0, p.len() as int) =~= p);
            }
            if p.is_prefix_of(k) {
                assert(kd.subrange(0, pd.len() as int) =~= pd) by {
                    assert(k.subrange(0, p.len() as int) == p);
                    assert(forall|i: int|
                        0 <= i < pd.len() ==> kd[i] == k[i + 1] && k.subrange(0, p.len() as int)[i
                            + 1] == k[i + 1]);
                }
            }
        }
    } else {
        assert(!p.is_prefix_of(k)) by {
            if p.is_prefix_of(k) {
                assert(k.subrange(0, p.len() as int)[0] == k[0]);
            }
        }
        if in_prefix_range(k, p) {
            assert(p != k);
            assert(tup_lt(p, k));
            assert(crate::value::val_lt(p[0], k[0]));
            assert(pb[0] == p[0]);
            assert(k != pb);
            assert(tup_lt(k, pb));
            assert(crate::value::val_lt(k[0], p[0]));
            crate::value::lemma_val_lt_asym(p[0], k[0]);
        }
    }
}

/// A prefix scan locates every stored row whose key extends the prefix:
/// the reassembled row of any sentinel-free stored key that the prefix is
/// a prefix of appears in the scan's output. With the forward and inverse
/// edge keys stored, the edge is reachable from either endpoint by a
/// single forward scan, without a secondary index.
pub proof fn lemma_scan_finds_prefixed_key(s: Seq<EntryModel>, p: Seq<ValModel>, i: int)
    requires
        0 <= i < s.len(),
        has_no_bot(s[i].0),
        p.is_prefix_of(s[i].0),
    ensures
        range_rows(s, p).contains(reassembled_row(s[i])),
    decreases s.len(),
{
    lemma_prefix_range_iff(s[i].0, p);
    let x = reassembled_row(s[i]);
    if i == 0 {
        assert(range_rows(s, p)[0] == x);
        assert(range_rows(s, p).contains(x));
    } else {
        let d = s.drop_first();
        assert(d[i - 1] == s[i]);
        lemma_scan_finds_prefixed_key(d, p, i - 1);
        let head: Seq<Seq<ValModel>> = if in_prefix_range(s[0].0, p) {
            seq![reassembled_row(s[0])]
        } else {
            Seq::empty()
        };
        assert(range_rows(s, p) == head + range_rows(d, p));
        let idx = choose|idx: int|
            0 <= idx < range_rows(d, p).len() && range_rows(d, p)[idx] == x;
        assert(range_rows(s, p)[head.len() + idx] == x);
        assert(range_rows(s, p).contains(x));
    }
}

/// Number of columns without (`want == false`) or with (`want == true`) a
/// declared aggregate among the first `i`.
pub open spec fn count_sel(aggrs: Seq<AggrSpec>, i: int, want: bool) -> int
    decreases i,
{
    if i <= 0 {
        0
    } else {
        count_sel(aggrs, i - 1, want) + (if (aggrs[i - 1] is Some) == want {
            1int
        } else {
            0int
        })
    }
}

/// Position of original column `i` in the reordered layout that puts the
/// non-aggregated columns first and the aggregated columns after them.
pub open spec fn reorder_pos(aggrs: Seq<AggrSpec>, i: int) -> int {
    if aggrs[i] is None {
        count_sel(aggrs, i, false)
    } else {
        count_sel(aggrs, aggrs.len() as int, false) + count_sel(aggrs, i, true)
    }
}

/// Whether two reordered rows belong to the same group: their first `nk`
/// (non-aggregated) columns agree.
pub open spec fn same_group(a: Seq<ValModel>, b: Seq<ValModel>, nk: int) -> bool {
    a.subrange(0, nk) == b.subrange(0, nk)
}

/// Length of the initial run of rows grouped with the first row.
pub open spec fn run_len(rows: Seq<Seq<ValModel>>, nk: int) -> nat
    decreases rows.len(),
{
    if rows.len() == 0 {
        0
    } else if rows.len() == 1 {
        1
    } else if same_group(rows[0], rows[1], nk) {
        (1 + run_len(rows.drop_first(), nk)) as nat
    } else {
        1
    }
}

/// The initial run is nonempty, bounded by the rows, grouped with the
/// first row throughout, and maximal.
pub proof fn lemma_run_len(rows: Seq<Seq<ValModel>>, nk: int)
    requires
        rows.len() > 0,
    ensures
        1 <= run_len(rows, nk) <= rows.len(),
        forall|j: int| 0 <= j < run_len(rows, nk) ==> same_group(rows[0], #[trigger] rows[j], nk),
        run_len(rows, nk) < rows.len() ==> !same_group(rows[0], rows[run_len(rows, nk) as int], nk),
    decreases rows.len(),
{
    if rows.len() > 1 && same_group(rows[0], rows[1], nk) {
        let d = rows.drop_first();
        lemma_run_len(d, nk);
        let rl = run_len(rows, nk);
        assert(rl == 1 + run_len(d, nk));
        assert forall|j: int| 0 <= j < rl implies same_group(rows[0], #[trigger] rows[j], nk) by {
            if j > 0 {
                assert(same_group(d[0], d[j - 1], nk));
                assert(d[j - 1] == rows[j]);
                assert(d[0] == rows[1]);
            }
        }
        if rl < rows.len() {
            assert(!same_group(d[0], d[rl - 1], nk));
            assert(d[rl - 1] == rows[rl as int]);
        }
    }
}

/// The values one column contributes across a run of rows.
pub open spec fn col_of(rows: Seq<Seq<ValModel>>, c: int) -> Seq<ValModel> {
    rows.map_values(|r: Seq<ValModel>| r[c])
}

/// Every row is wide enough to be read through the reordered layout.
pub open spec fn rows_wide(rows: Seq<Seq<ValModel>>, n: int) -> bool {
    forall|i: int| 0 <= i < rows.len() ==> (#[trigger] rows[i]).len() >= n
}

/// Whether every aggregate of a group finalizes without error.
pub open spec fn group_ok(sub: Seq<Seq<ValModel>>, aggrs: Seq<AggrSpec>) -> bool {
    forall|i: int|
        0 <= i < aggrs.len() && (#[trigger] aggrs[i]) is Some ==> crate::aggr::spec_normal_acc(
            (aggrs[i]->0).0,
            col_of(sub, reorder_pos(aggrs, i)),
        ) is Some
}

/// The finalized output value of one aggregated column over a group.
pub open spec fn acc_val(a: Aggregation, vals: Seq<ValModel>) -> ValModel {
    match crate::aggr::spec_normal_acc(a, vals) {
        Some(x) => ValModel::Int(x),
        None => ValModel::Guard,
    }
}

/// The result row of one group, in original column order: group key
/// columns from the first row, finalized aggregate outputs elsewhere.
pub open spec fn group_row(sub: Seq<Seq<ValModel>>, aggrs: Seq<AggrSpec>) -> Seq<ValModel> {
    Seq::new(aggrs.len(), |i: int| match aggrs[i] {
        None => sub[0][reorder_pos(aggrs, i)],
        Some(p) => acc_val(p.0, col_of(sub, reorder_pos(aggrs, i))),
    })
}

/// Outcome of the grouped finalize pass on the destination's epoch-0
/// map.
pub enum ScanOutcome {
    /// The pass ran to the end, or the row-count limiter stopped it: the
    /// new map, the limiter counter, and whether the stop was early.
    Done(Map<Seq<ValModel>, Seq<ValModel>>, int, bool),
    /// A cooperative cancellation check was reached while the flag was
    /// set: the results of the groups already finalized remain.
    Cancelled(Map<Seq<ValModel>, Seq<ValModel>>, int),
    /// An aggregate update error.
    Failed,
}

/// Effect of the grouped finalize pass on the destination's epoch-0 map.
/// Cancellation is polled between the rows of each group, so with the
/// poison flag set the pass stops at the first group of two or more rows
/// it reaches, with everything written so far in place.
pub open spec fn spec_normal_scan(
    rows: Seq<Seq<ValModel>>,
    aggrs: Seq<AggrSpec>,
    dest: Map<Seq<ValModel>, Seq<ValModel>>,
    lim_enabled: bool,
    limit: int,
    cnt: int,
    poisoned: bool,
) -> ScanOutcome
    decreases rows.len(),
{
    let nk = count_sel(aggrs, aggrs.len() as int, false);
    if rows.len() == 0 {
        ScanOutcome::Done(dest, cnt, false)
    } else {
        let rl0 = run_len(rows, nk);
        let rl: int = if 1 <= rl0 <= rows.len() {
            rl0 as int
        } else {
            1
        };
        let sub = rows.subrange(0, rl);
        if poisoned && rl >= 2 {
            ScanOutcome::Cancelled(dest, cnt)
        } else if !group_ok(sub, aggrs) {
            ScanOutcome::Failed
        } else {
            let out = group_row(sub, aggrs);
            let rest = rows.skip(rl);
            if lim_enabled {
                if dest.dom().contains(out) {
                    spec_normal_scan(rest, aggrs, dest, true, limit, cnt, poisoned)
                } else {
                    let d2 = dest.insert(out, Seq::empty());
                    if cnt + 1 >= limit {
                        ScanOutcome::Done(d2, cnt + 1, true)
                    } else {
                        spec_normal_scan(rest, aggrs, d2, true, limit, cnt + 1, poisoned)
                    }
                }
            } else {
                spec_normal_scan(
                    rest,
                    aggrs,
                    dest.insert(out, Seq::empty()),
                    false,
                    limit,
                    cnt,
                    poisoned,
                )
            }
        }
    }
}

/// Counts of selected columns grow by at most one per column and add up
/// over the two kinds.
pub proof fn lemma_count_sel(aggrs: Seq<AggrSpec>, i: int)
    requires
        0 <= i <= aggrs.len(),
    ensures
        0 <= count_sel(aggrs, i, false) <= i,
        0 <= count_sel(aggrs, i, true) <= i,
        count_sel(aggrs, i, false) + count_sel(aggrs, i, true) == i,
    decreases i,
{
    if i > 0 {
        lemma_count_sel(aggrs, i - 1);
    }
}

/// Column counts in a prefix never exceed the totals.
pub proof fn lemma_count_sel_le_total(aggrs: Seq<AggrSpec>, i: int, want: bool)
    requires
        0 <= i <= aggrs.len(),
    ensures
        count_sel(aggrs, i, want) <= count_sel(aggrs, aggrs.len() as int, want),
    decreases aggrs.len() - i,
{
    if i < aggrs.len() {
        lemma_count_sel_le_total(aggrs, i + 1, want);
    }
}

/// Every original column lands at a distinct position inside the
/// reordered row.
pub proof fn lemma_reorder_pos_bound(aggrs: Seq<AggrSpec>, i: int)
    requires
        0 <= i < aggrs.len(),
    ensures
        0 <= reorder_pos(aggrs, i) < aggrs.len(),
{
    lemma_count_sel(aggrs, i);
    lemma_count_sel(aggrs, i + 1);
    lemma_count_sel(aggrs, aggrs.len() as int);
    lemma_count_sel_le_total(aggrs, i + 1, false);
    lemma_count_sel_le_total(aggrs, i + 1, true);
}

/// An aggregate update error in a prefix of the values poisons the whole
/// accumulation.
pub proof fn lemma_acc_none_prefix(a: Aggregation, vals: Seq<ValModel>, m: int)
    requires
        0 < m <= vals.len(),
        crate::aggr::spec_normal_acc(a, vals.take(m)) is None,
    ensures
        crate::aggr::spec_normal_acc(a, vals) is None,
    decreases vals.len() - m,
{
    if m < vals.len() {
        let t1 = vals.take(m + 1);
        assert(t1.drop_last() =~= vals.take(m));
        assert(t1.len() >= 2 || t1.len() == 1);
        if t1.len() == 1 {
            // m == 0, excluded by the precondition
        }
        lemma_acc_none_prefix(a, vals, m + 1);
    } else {
        assert(vals.take(m) =~= vals);
    }
}

/// `group_ok` restricted to the first `m` columns.
pub open spec fn group_ok_upto(sub: Seq<Seq<ValModel>>, aggrs: Seq<AggrSpec>, m: int) -> bool {
    forall|i: int|
        0 <= i < m && (#[trigger] aggrs[i]) is Some ==> crate::aggr::spec_normal_acc(
            (aggrs[i]->0).0,
            col_of(sub, reorder_pos(aggrs, i)),
        ) is Some
}

/// The grouped finalize pass over rows that may be too narrow for the
/// reordered layout: a narrow row is an aggregate update error, detected
/// before any group is processed.
pub open spec fn spec_normal_scan_checked(
    rows: Seq<Seq<ValModel>>,
    aggrs: Seq<AggrSpec>,
    dest: Map<Seq<ValModel>, Seq<ValModel>>,
    lim_enabled: bool,
    limit: int,
    cnt: int,
    poisoned: bool,
) -> ScanOutcome {
    if !rows_wide(rows, aggrs.len() as int) {
        ScanOutcome::Failed
    } else {
        spec_normal_scan(rows, aggrs, dest, lim_enabled, limit, cnt, poisoned)
    }
}

/// The rows the finalize pass reads: epoch 0 reassembled, or nothing when
/// no epoch exists yet.
pub open spec fn rows_zero(s: DerivedRelStore) -> Seq<Seq<ValModel>> {
    if s@.len() == 0 {
        Seq::empty()
    } else {
        reassembled_rows(s@[0])
    }
}

/// Whether the first `nk` columns of two rows agree.
fn prefix_eq(a: &Tuple, b: &Tuple, nk: usize) -> (r: bool)
    requires
        a@.len() >= nk,
        b@.len() >= nk,
    ensures
        r <==> same_group(a@, b@, nk as int),
{
    let mut i: usize = 0;
    while i < nk
        invariant
            i <= nk,
            nk <= a@.len(),
            nk <= b@.len(),
            a@.len() == a.0.len(),
            b@.len() == b.0.len(),
            a@.subrange(0, i as int) =~= b@.subrange(0, i as int),
        decreases nk - i,
    {
        if !crate::value::val_eq(&a.0[i], &b.0[i]) {
            proof {
                assert(a@.subrange(0, nk as int)[i as int] == a@[i as int]);
                assert(b@.subrange(0, nk as int)[i as int] == b@[i as int]);
            }
            return false;
        }
        proof {
            assert(a@.subrange(0, i as int + 1) =~= b@.subrange(0, i as int + 1));
        }
        i = i + 1;
    }
    proof {
        assert(a@.subrange(0, nk as int) =~= b@.subrange(0, nk as int));
    }
    true
}

/// Effect of one meet put on the epoch-0 map: the new map and the changed
/// flag, or `None` on an aggregate update error (which includes a stored
/// value of the wrong arity).
pub open spec fn spec_meet_put_zero(
    m0: Map<Seq<ValModel>, Seq<ValModel>>,
    t: Seq<ValModel>,
    aggrs: Seq<AggrSpec>,
) -> Option<(Map<Seq<ValModel>, Seq<ValModel>>, bool)> {
    let k = meet_key(t, aggrs);
    if !m0.dom().contains(k) {
        Some((m0.insert(k, meet_store_val(t, aggrs)), true))
    } else if m0[k].len() == aggrs.len() && meet_merge_ok(m0[k], t, aggrs) {
        let merged = meet_merge(m0[k], t, aggrs);
        Some((m0.insert(k, merged), merged != m0[k]))
    } else {
        None
    }
}

/// Meet puts are order independent: two rows with identical non-aggregated
/// key columns merged into a key absent from the store yield the same
/// epoch-0 stored value in either order, and fail in one order exactly
/// when they fail in the other.
pub proof fn lemma_meet_put_order_independent(
    m0: Map<Seq<ValModel>, Seq<ValModel>>,
    t1: Seq<ValModel>,
    t2: Seq<ValModel>,
    aggrs: Seq<AggrSpec>,
)
    requires
        t1.len() == aggrs.len(),
        t2.len() == aggrs.len(),
        meet_key(t1, aggrs) == meet_key(t2, aggrs),
        !m0.dom().contains(meet_key(t1, aggrs)),
    ensures
        ({
            let k = meet_key(t1, aggrs);
            let m1 = m0.insert(k, meet_store_val(t1, aggrs));
            let m2 = m0.insert(k, meet_store_val(t2, aggrs));
            &&& spec_meet_put_zero(m0, t1, aggrs) == Some((m1, true))
            &&& spec_meet_put_zero(m0, t2, aggrs) == Some((m2, true))
            &&& (spec_meet_put_zero(m1, t2, aggrs) is Some <==> spec_meet_put_zero(
                m2,
                t1,
                aggrs,
            ) is Some)
            &&& (match (spec_meet_put_zero(m1, t2, aggrs), spec_meet_put_zero(m2, t1, aggrs)) {
                (Some(a), Some(b)) => a.0 == b.0,
                (None, None) => true,
                _ => false,
            })
        }),
{
    let k = meet_key(t1, aggrs);
    let sv1 = meet_store_val(t1, aggrs);
    let sv2 = meet_store_val(t2, aggrs);
    let m1 = m0.insert(k, sv1);
    let m2 = m0.insert(k, sv2);
    assert(m1[k] == sv1);
    assert(m2[k] == sv2);
    assert forall|i: int|
        0 <= i < aggrs.len() implies (meet_ok_at(#[trigger] aggrs[i], sv1[i], t2[i]) == meet_ok_at(
        aggrs[i],
        sv2[i],
        t1[i],
    )) && (meet_ok_at(aggrs[i], sv1[i], t2[i]) ==> meet_at(aggrs[i], sv1[i], t2[i]) == meet_at(
        aggrs[i],
        sv2[i],
        t1[i],
    )) by {
        match aggrs[i] {
            Some(p) => {
                assert(sv1[i] == t1[i]);
                assert(sv2[i] == t2[i]);
                lemma_meet_commutes(p.0, t1[i], t2[i]);
            },
            None => {
                assert(sv1[i] == ValModel::Guard);
                assert(sv2[i] == ValModel::Guard);
            },
        }
    }
    assert(meet_merge_ok(sv1, t2, aggrs) <==> meet_merge_ok(sv2, t1, aggrs));
    if meet_merge_ok(sv1, t2, aggrs) {
        let mer12 = meet_merge(sv1, t2, aggrs);
        let mer21 = meet_merge(sv2, t1, aggrs);
        assert(mer12 =~= mer21);
        assert(m1.insert(k, mer12) =~= m2.insert(k, mer21));
    }
}

/// The epoch vector after lazily growing it so that index `epoch` exists.
pub open spec fn grown(s: Seq<Seq<EntryModel>>, epoch: int) -> Seq<Seq<EntryModel>> {
    if s.len() > epoch {
        s
    } else {
        s + Seq::new((epoch + 1 - s.len()) as nat, |i: int| Seq::<EntryModel>::empty())
    }
}

/// The in-memory, epoch-partitioned derived relation store.
///
/// Cloning a handle in the original design shares the epoch vector; here
/// exclusive access is expressed through `&mut`, which enforces the
/// single-writer discipline statically.
#[derive(Debug)]
pub struct DerivedRelStore {
    pub epochs: Vec<Snapshot>,
    pub id: DerivedRelStoreId,
    pub rule_name: Vec<u8>,
    pub arity: usize,
}

impl View for DerivedRelStore {
    type V = Seq<Seq<EntryModel>>;

    closed spec fn view(&self) -> Seq<Seq<EntryModel>> {
        self.epochs.deep_view()
    }
}

/// The identity and schema of a store are untouched by its write paths.
pub open spec fn same_meta(a: DerivedRelStore, b: DerivedRelStore) -> bool {
    &&& a.id == b.id
    &&& a.rule_name@ == b.rule_name@
    &&& a.arity == b.arity
}

impl DerivedRelStore {
    /// Every epoch snapshot is strictly sorted by key.
    pub open spec fn wf(self) -> bool {
        forall|e: int| 0 <= e < self@.len() ==> snap_sorted(#[trigger] self@[e])
    }

    /// The contents of one epoch, read as a map from key to value.
    pub open spec fn epoch_map(self, e: int) -> Map<Seq<ValModel>, Seq<ValModel>> {
        entries_as_map(self@[e])
    }

    pub fn new(id: DerivedRelStoreId, rule_name: Vec<u8>, arity: usize) -> (r: DerivedRelStore)
        ensures
            r@ =~= Seq::<Seq<EntryModel>>::empty(),
            r.wf(),
            r.id == id,
            r.rule_name@ == rule_name@,
            r.arity == arity,
    {
        DerivedRelStore { epochs: Vec::new(), id, rule_name, arity }
    }

    /// Grow the epoch vector with fresh empty snapshots until index
    /// `epoch` exists; idempotent on an already covered epoch.
    pub fn ensure_mem_db_for_epoch(&mut self, epoch: u32)
        requires
            old(self).wf(),
        ensures
            final(self).wf(),
            same_meta(*old(self), *final(self)),
            final(self)@ == grown(old(self)@, epoch as int),
    {
        let ghost s0 = self@;
        let want = epoch as usize;
        while self.epochs.len() <= want
            invariant
                self.wf(),
                self.id == old(self).id,
                self.rule_name@ == old(self).rule_name@,
                self.arity == old(self).arity,
                s0.len() <= self@.len(),
                s0.len() > want ==> self@ == s0,
                forall|e: int| 0 <= e < s0.len() ==> self@[e] == s0[e],
                forall|e: int|
                    s0.len() <= e < self@.len() ==> (#[trigger] self@[e])
                        =~= Seq::<EntryModel>::empty(),
                self@.len() <= want + 1 || self@ == s0,
            decreases want + 1 - self.epochs.len(),
        {
            let ghost pre = self@;
            self.epochs.push(Snapshot::new());
            proof {
                assert(self@ =~= pre.push(Seq::<EntryModel>::empty()));
            }
        }
        proof {
            assert(final(self)@ =~= grown(s0, epoch as int));
        }
    }

    /// Store `v` under `k` in epoch `e`, which must exist.
    fn epoch_insert(&mut self, e: usize, k: Tuple, v: Tuple)
        requires
            old(self).wf(),
            e < old(self)@.len(),
        ensures
            final(self).wf(),
            same_meta(*old(self), *final(self)),
            final(self)@.len() == old(self)@.len(),
            forall|e2: int|
                0 <= e2 < old(self)@.len() && e2 != e ==> final(self)@[e2] == old(self)@[e2],
            entries_as_map(final(self)@[e as int]) == entries_as_map(old(self)@[e as int]).insert(
                k@,
                v@,
            ),
            snap_sorted(final(self)@[e as int]),
            forall|x: Seq<ValModel>|
                seq_contains_key(final(self)@[e as int], x) <==> (x == k@ || seq_contains_key(
                    old(self)@[e as int],
                    x,
                )),
    {
        let ghost s0 = self@;
        let mut snap = self.epochs.remove(e);
        proof {
            assert(snap@ == s0[e as int]);
        }
        snap.insert(k, v);
        self.epochs.insert(e, snap);
        proof {
            assert forall|e2: int|
                0 <= e2 < self@.len() implies self@[e2] == (if e2 == e {
                self@[e as int]
            } else {
                s0[e2]
            }) by {}
            assert(self@.len() == s0.len());
        }
    }

    /// Plain put: set semantics, the value is empty; overwrites any prior
    /// value for the exact key.
    pub fn put(&mut self, tuple: Tuple, epoch: u32)
        requires
            old(self).wf(),
        ensures
            final(self).wf(),
            same_meta(*old(self), *final(self)),
            final(self)@.len() == grown(old(self)@, epoch as int).len(),
            forall|e: int|
                0 <= e < final(self)@.len() && e != epoch ==> final(self)@[e] == grown(
                    old(self)@,
                    epoch as int,
                )[e],
            entries_as_map(final(self)@[epoch as int]) == entries_as_map(
                grown(old(self)@, epoch as int)[epoch as int],
            ).insert(tuple@, Seq::<ValModel>::empty()),
            seq_contains_key(final(self)@[epoch as int], tuple@),
    {
        self.ensure_mem_db_for_epoch(epoch);
        self.epoch_insert(epoch as usize, tuple, Tuple::empty());
    }

    /// Keyed put: an explicit key/value pair, for rows whose value payload
    /// is meaningful.
    pub fn put_kv(&mut self, tuple: Tuple, val: Tuple, epoch: u32)
        requires
            old(self).wf(),
        ensures
            final(self).wf(),
            same_meta(*old(self), *final(self)),
            final(self)@.len() == grown(old(self)@, epoch as int).len(),
            forall|e: int|
                0 <= e < final(self)@.len() && e != epoch ==> final(self)@[e] == grown(
                    old(self)@,
                    epoch as int,
                )[e],
            entries_as_map(final(self)@[epoch as int]) == entries_as_map(
                grown(old(self)@, epoch as int)[epoch as int],
            ).insert(tuple@, val@),
    {
        self.ensure_mem_db_for_epoch(epoch);
        self.epoch_insert(epoch as usize, tuple, val);
    }

    /// Merge one row into the relation under the meet discipline.
    ///
    /// The row is keyed by its non-aggregated columns (aggregated
    /// positions masked by `Guard`). A first-seen key stores the row's raw
    /// aggregated values; a present key meet-merges each aggregated
    /// position. Epoch 0 always receives the converged value; when
    /// `epoch != 0` and the merge changed state, the requested epoch also
    /// records the delta. Returns whether anything changed, so the
    /// evaluator can decide convergence.
    #[verifier::loop_isolation(false)]
    pub fn aggr_meet_put(&mut self, tuple: &Tuple, aggrs: &Vec<AggrSpec>, epoch: u32) -> (r: Result<
        bool,
        Error,
    >)
        requires
            old(self).wf(),
            tuple@.len() == aggrs@.len(),
        ensures
            final(self).wf(),
            same_meta(*old(self), *final(self)),
            final(self)@.len() == grown(old(self)@, epoch as int).len(),
            ({
                let g = grown(old(self)@, epoch as int);
                let k = meet_key(tuple@, aggrs@);
                match spec_meet_put_zero(entries_as_map(g[0]), tuple@, aggrs@) {
                    Some((m0p, ch)) => {
                        &&& r == Ok::<bool, Error>(ch)
                        &&& entries_as_map(final(self)@[0]) == m0p
                        &&& forall|e: int|
                            0 < e < g.len() && e != epoch ==> final(self)@[e] == g[e]
                        &&& (epoch != 0 && ch ==> entries_as_map(final(self)@[epoch as int])
                            == entries_as_map(g[epoch as int]).insert(k, m0p[k]))
                        &&& (epoch != 0 && !ch ==> final(self)@[epoch as int] == g[epoch as int])
                    },
                    None => r == Err::<bool, Error>(Error::AggrFailed) && final(self)@ == g,
                }
            }),
    {
        self.ensure_mem_db_for_epoch(epoch);
        let ghost g = self@;
        let n = aggrs.len();

        // The key: aggregated positions masked by Guard.
        let mut keyv: Vec<DataValue> = Vec::new();
        let mut i: usize = 0;
        while i < n
            invariant
                i <= n,
                n == aggrs@.len(),
                tuple@.len() == n,
                tuple.0.len() == n,
                keyv.deep_view() =~= meet_key(tuple@, aggrs@).subrange(0, i as int),
            decreases n - i,
        {
            let ghost pre = keyv.deep_view();
            if aggrs[i].is_some() {
                keyv.push(DataValue::Guard);
            } else {
                keyv.push(val_clone(&tuple.0[i]));
            }
            proof {
                assert(keyv.deep_view() =~= pre.push(meet_key(tuple@, aggrs@)[i as int]));
                assert(pre.push(meet_key(tuple@, aggrs@)[i as int]) =~= meet_key(
                    tuple@,
                    aggrs@,
                ).subrange(0, i as int + 1));
            }
            i = i + 1;
        }
        let key = Tuple(keyv);
        proof {
            assert(meet_key(tuple@, aggrs@).subrange(0, n as int) =~= meet_key(tuple@, aggrs@));
            assert(key@ == meet_key(tuple@, aggrs@));
            assert(self@.len() == self.epochs@.len());
            assert(0 < grown(old(self)@, epoch as int).len());
            assert(self@[0] == self.epochs@[0]@);
        }

        // Probe epoch 0 for the stored accumulator row.
        let mut cur = Tuple(Vec::new());
        let mut present = false;
        match self.epochs[0].get(&key) {
            Some(c) => {
                cur = tuple_clone(c);
                present = true;
            },
            None => {},
        }
        let ghost m0 = entries_as_map(g[0]);

        if present {
            proof {
                assert(m0.dom().contains(key@));
                assert(cur@ == m0[key@]);
            }
            if cur.0.len() != n {
                return Err(Error::AggrFailed);
            }
            // Merge every aggregated position into a fresh value tuple.
            let mut merged: Vec<DataValue> = Vec::new();
            let mut changed = false;
            let mut i: usize = 0;
            while i < n
                invariant
                    i <= n,
                    n == aggrs@.len(),
                    tuple@.len() == n,
                    tuple.0.len() == n,
                    cur@.len() == n,
                    cur.0.len() == n,
                    forall|j: int|
                        0 <= j < i ==> meet_ok_at(#[trigger] aggrs@[j], cur@[j], tuple@[j]),
                    merged.deep_view() =~= meet_merge(cur@, tuple@, aggrs@).subrange(0, i as int),
                    changed <==> exists|j: int|
                        0 <= j < i && meet_merge(cur@, tuple@, aggrs@)[j] != (#[trigger] cur@[j]),
                decreases n - i,
            {
                let ghost pre = merged.deep_view();
                let ghost mm = meet_merge(cur@, tuple@, aggrs@);
                match &aggrs[i] {
                    Some(pair) => {
                        let mut cv = val_clone(&cur.0[i]);
                        match pair.0.meet_update(&mut cv, &tuple.0[i]) {
                            Ok(c) => {
                                proof {
                                    let ti = tuple@[i as int];
                                    assert(meet_ok_at(aggrs@[i as int], cur@[i as int], ti));
                                    assert(cv@ == mm[i as int]);
                                }
                                if c {
                                    changed = true;
                                }
                                proof {
                                    assert(changed <==> exists|j: int|
                                        0 <= j < i + 1 && mm[j] != (#[trigger] cur@[j]));
                                }
                                merged.push(cv);
                            },
                            Err(e) => {
                                proof {
                                    let ti = tuple@[i as int];
                                    assert(!meet_ok_at(aggrs@[i as int], cur@[i as int], ti));
                                    assert(!meet_merge_ok(m0[key@], tuple@, aggrs@));
                                    assert(spec_meet_put_zero(m0, tuple@, aggrs@) is None);
                                }
                                return Err(e);
                            },
                        }
                    },
                    None => {
                        merged.push(val_clone(&cur.0[i]));
                        proof {
                            assert(merged.deep_view() =~= pre.push(mm[i as int]));
                        }
                    },
                }
                proof {
                    assert(merged.deep_view() =~= pre.push(mm[i as int]));
                    assert(pre.push(mm[i as int]) =~= mm.subrange(0, i as int + 1));
                }
                i = i + 1;
            }
            let ghost mm = meet_merge(cur@, tuple@, aggrs@);
            proof {
                assert(mm.subrange(0, n as int) =~= mm);
                assert(meet_merge_ok(m0[key@], tuple@, aggrs@));
                assert(changed <==> mm != cur@) by {
                    if mm == cur@ {
                        assert(forall|j: int| 0 <= j < n ==> mm[j] == (#[trigger] cur@[j]));
                    }
                    if !changed {
                        assert(forall|j: int| 0 <= j < n ==> mm[j] == (#[trigger] cur@[j]));
                        assert(mm =~= cur@);
                    }
                }
            }
            let merged_t = Tuple(merged);
            let key2 = tuple_clone(&key);
            let merged2 = tuple_clone(&merged_t);
            self.epoch_insert(0, key, merged_t);
            if changed && epoch != 0 {
                proof {
                    assert((epoch as int) < self@.len());
                    assert(self@[epoch as int] == g[epoch as int]);
                }
                self.epoch_insert(epoch as usize, key2, merged2);
            }
            Ok(changed)
        } else {
            proof {
                assert(!m0.dom().contains(key@));
            }
            // First row for this key: store the raw aggregated values.
            let mut sv: Vec<DataValue> = Vec::new();
            let mut i: usize = 0;
            while i < n
                invariant
                    i <= n,
                    n == aggrs@.len(),
                    tuple@.len() == n,
                    tuple.0.len() == n,
                    sv.deep_view() =~= meet_store_val(tuple@, aggrs@).subrange(0, i as int),
                decreases n - i,
            {
                let ghost pre = sv.deep_view();
                if aggrs[i].is_some() {
                    sv.push(val_clone(&tuple.0[i]));
                } else {
                    sv.push(DataValue::Guard);
                }
                proof {
                    assert(sv.deep_view() =~= pre.push(meet_store_val(tuple@, aggrs@)[i as int]));
                    assert(pre.push(meet_store_val(tuple@, aggrs@)[i as int]) =~= meet_store_val(
                        tuple@,
                        aggrs@,
                    ).subrange(0, i as int + 1));
                }
                i = i + 1;
            }
            proof {
                assert(meet_store_val(tuple@, aggrs@).subrange(0, n as int) =~= meet_store_val(
                    tuple@,
                    aggrs@,
                ));
            }
            let sv_t = Tuple(sv);
            let key2 = tuple_clone(&key);
            let sv2 = tuple_clone(&sv_t);
            self.epoch_insert(0, key, sv_t);
            if epoch != 0 {
                proof {
                    assert((epoch as int) < self@.len());
                    assert(self@[epoch as int] == g[epoch as int]);
                }
                self.epoch_insert(epoch as usize, key2, sv2);
            }
            Ok(true)
        }
    }

    /// Store one row for a single non-incremental grouping pass, always
    /// into epoch 0: the row's columns reordered (non-aggregated first),
    /// with a strictly increasing serial appended to keep otherwise
    /// colliding rows distinct.
    #[verifier::loop_isolation(false)]
    pub fn normal_aggr_put(&mut self, tuple: &Tuple, aggrs: &Vec<AggrSpec>, serial: usize)
        requires
            old(self).wf(),
            tuple@.len() == aggrs@.len(),
            serial <= i64::MAX,
        ensures
            final(self).wf(),
            same_meta(*old(self), *final(self)),
            final(self)@.len() == grown(old(self)@, 0).len(),
            forall|e: int|
                0 < e < final(self)@.len() ==> final(self)@[e] == grown(old(self)@, 0)[e],
            entries_as_map(final(self)@[0]) == entries_as_map(grown(old(self)@, 0)[0]).insert(
                normal_key(tuple@, aggrs@, serial as int),
                Seq::<ValModel>::empty(),
            ),
    {
        self.ensure_mem_db_for_epoch(0);
        let n = aggrs.len();
        let mut vals: Vec<DataValue> = Vec::new();
        let ghost target = normal_key(tuple@, aggrs@, serial as int);

        proof {
            assert(tuple@.skip(0) =~= tuple@);
            assert(aggrs@.skip(0) =~= aggrs@);
            assert(vals.deep_view() + select_vals(tuple@, aggrs@, false) =~= select_vals(
                tuple@,
                aggrs@,
                false,
            ));
        }
        let mut i: usize = 0;
        while i < n
            invariant
                i <= n,
                vals.deep_view() + select_vals(tuple@.skip(i as int), aggrs@.skip(i as int), false)
                    =~= select_vals(tuple@, aggrs@, false),
            decreases n - i,
        {
            let ghost ts = tuple@.skip(i as int);
            let ghost gs = aggrs@.skip(i as int);
            proof {
                assert(ts.drop_first() =~= tuple@.skip(i as int + 1));
                assert(gs.drop_first() =~= aggrs@.skip(i as int + 1));
                assert(ts[0] == tuple@[i as int]);
            }
            let ghost pre = vals.deep_view();
            if aggrs[i].is_none() {
                vals.push(val_clone(&tuple.0[i]));
                proof {
                    assert(vals.deep_view() =~= pre.push(tuple@[i as int]));
                }
            }
            proof {
                assert(vals.deep_view() + select_vals(
                    tuple@.skip(i as int + 1),
                    aggrs@.skip(i as int + 1),
                    false,
                ) =~= select_vals(tuple@, aggrs@, false));
            }
            i = i + 1;
        }
        proof {
            assert(tuple@.skip(n as int) =~= Seq::<ValModel>::empty());
            assert(aggrs@.skip(n as int) =~= Seq::<AggrSpec>::empty());
            assert(vals.deep_view() =~= select_vals(tuple@, aggrs@, false));
        }

        let ghost half = vals.deep_view();
        proof {
            assert(tuple@.skip(0) =~= tuple@);
            assert(aggrs@.skip(0) =~= aggrs@);
            assert(vals.deep_view() + select_vals(tuple@, aggrs@, true) =~= half + select_vals(
                tuple@,
                aggrs@,
                true,
            ));
        }
        let mut i: usize = 0;
        while i < n
            invariant
                i <= n,
                vals.deep_view() + select_vals(tuple@.skip(i as int), aggrs@.skip(i as int), true)
                    =~= half + select_vals(tuple@, aggrs@, true),
            decreases n - i,
        {
            let ghost ts = tuple@.skip(i as int);
            let ghost gs = aggrs@.skip(i as int);
            proof {
                assert(ts.drop_first() =~= tuple@.skip(i as int + 1));
                assert(gs.drop_first() =~= aggrs@.skip(i as int + 1));
                assert(ts[0] == tuple@[i as int]);
            }
            let ghost pre = vals.deep_view();
            if aggrs[i].is_some() {
                vals.push(val_clone(&tuple.0[i]));
                proof {
                    assert(vals.deep_view() =~= pre.push(tuple@[i as int]));
                }
            }
            proof {
                assert(vals.deep_view() + select_vals(
                    tuple@.skip(i as int + 1),
                    aggrs@.skip(i as int + 1),
                    true,
                ) =~= half + select_vals(tuple@, aggrs@, true));
            }
            i = i + 1;
        }
        proof {
            assert(tuple@.skip(n as int) =~= Seq::<ValModel>::empty());
            assert(vals.deep_view() =~= select_vals(tuple@, aggrs@, false) + select_vals(
                tuple@,
                aggrs@,
                true,
            ));
        }

        let ghost pre = vals.deep_view();
        vals.push(DataValue::Int(serial as i64));
        proof {
            assert(vals.deep_view() =~= pre.push(ValModel::Int(serial as int)));
            assert(vals.deep_view() =~= target);
        }
        self.epoch_insert(0, Tuple(vals), Tuple::empty());
    }

    /// All rows of one epoch, reassembled, in ascending key order.
    #[verifier::loop_isolation(false)]
    pub fn scan_all_for_epoch(&mut self, epoch: u32) -> (r: Vec<Tuple>)
        requires
            old(self).wf(),
        ensures
            final(self).wf(),
            same_meta(*old(self), *final(self)),
            final(self)@ == grown(old(self)@, epoch as int),
            r.deep_view() == reassembled_rows(final(self)@[epoch as int]),
    {
        self.ensure_mem_db_for_epoch(epoch);
        proof {
            assert(self@.len() == self.epochs@.len());
            assert((epoch as int) < grown(old(self)@, epoch as int).len());
            assert(self@[epoch as int] == self.epochs@[epoch as int]@);
        }
        let snap = &self.epochs[epoch as usize];
        let ghost s = snap@;
        let n = snap.entry_count();
        let mut out: Vec<Tuple> = Vec::new();
        let mut i: usize = 0;
        while i < n
            invariant
                i <= n,
                out.deep_view() =~= reassembled_rows(s).subrange(0, i as int),
            decreases n - i,
        {
            let ghost pre = out.deep_view();
            out.push(reassemble_exec(snap.key_at(i), snap.val_at(i)));
            proof {
                assert(out.deep_view() =~= pre.push(reassembled_row(s[i as int])));
                assert(pre.push(reassembled_row(s[i as int])) =~= reassembled_rows(s).subrange(
                    0,
                    i as int + 1,
                ));
            }
            i = i + 1;
        }
        proof {
            assert(reassembled_rows(s).subrange(0, n as int) =~= reassembled_rows(s));
        }
        out
    }

    /// All rows of epoch 0, reassembled.
    pub fn scan_all(&mut self) -> (r: Vec<Tuple>)
        requires
            old(self).wf(),
        ensures
            final(self).wf(),
            same_meta(*old(self), *final(self)),
            final(self)@ == grown(old(self)@, 0),
            r.deep_view() == reassembled_rows(final(self)@[0]),
    {
        self.scan_all_for_epoch(0)
    }

    /// The value tuples of epoch 0, in ascending order of their keys: the
    /// output ordering mode where the key holds the sort columns and the
    /// value the payload row.
    #[verifier::loop_isolation(false)]
    pub fn scan_sorted(&mut self) -> (r: Vec<Tuple>)
        requires
            old(self).wf(),
        ensures
            final(self).wf(),
            same_meta(*old(self), *final(self)),
            final(self)@ == grown(old(self)@, 0),
            r.deep_view() == value_rows(final(self)@[0]),
    {
        self.ensure_mem_db_for_epoch(0);
        proof {
            assert(self@.len() == self.epochs@.len());
            assert(0 < grown(old(self)@, 0).len());
            assert(self@[0] == self.epochs@[0]@);
        }
        let snap = &self.epochs[0];
        let ghost s = snap@;
        let n = snap.entry_count();
        let mut out: Vec<Tuple> = Vec::new();
        let mut i: usize = 0;
        while i < n
            invariant
                i <= n,
                out.deep_view() =~= value_rows(s).subrange(0, i as int),
            decreases n - i,
        {
            let ghost pre = out.deep_view();
            out.push(tuple_clone(snap.val_at(i)));
            proof {
                assert(out.deep_view() =~= pre.push(s[i as int].1));
                assert(pre.push(s[i as int].1) =~= value_rows(s).subrange(0, i as int + 1));
            }
            i = i + 1;
        }
        proof {
            assert(value_rows(s).subrange(0, n as int) =~= value_rows(s));
        }
        out
    }

    /// Closed-range prefix scan of one epoch, bounded by the prefix
    /// extended with the explicit upper sentinel; rows are reassembled and
    /// come in ascending key order.
    #[verifier::loop_isolation(false)]
    pub fn scan_prefix_for_epoch(&mut self, prefix: &Tuple, epoch: u32) -> (r: Vec<Tuple>)
        requires
            old(self).wf(),
        ensures
            final(self).wf(),
            same_meta(*old(self), *final(self)),
            final(self)@ == grown(old(self)@, epoch as int),
            r.deep_view() == range_rows(final(self)@[epoch as int], prefix@),
    {
        let upper = tuple_push(prefix, DataValue::Bot);
        self.ensure_mem_db_for_epoch(epoch);
        proof {
            assert(self@.len() == self.epochs@.len());
            assert((epoch as int) < grown(old(self)@, epoch as int).len());
            assert(self@[epoch as int] == self.epochs@[epoch as int]@);
        }
        let snap = &self.epochs[epoch as usize];
        let ghost s = snap@;
        let n = snap.entry_count();
        let mut out: Vec<Tuple> = Vec::new();
        proof {
            assert(s.skip(0) =~= s);
            assert(out.deep_view() + range_rows(s, prefix@) =~= range_rows(s, prefix@));
        }
        let mut i: usize = 0;
        while i < n
            invariant
                i <= n,
                out.deep_view() + range_rows(s.skip(i as int), prefix@) =~= range_rows(s, prefix@),
            decreases n - i,
        {
            let ghost rest = s.skip(i as int);
            proof {
                assert(rest[0] == s[i as int]);
                assert(rest.drop_first() =~= s.skip(i as int + 1));
            }
            let k = snap.key_at(i);
            let lo_ok = !matches!(tuple_cmp(prefix, k), Cmp::Gt);
            let hi_ok = !matches!(tuple_cmp(k, &upper), Cmp::Gt);
            let ghost pre = out.deep_view();
            if lo_ok && hi_ok {
                proof {
                    assert(in_prefix_range(s[i as int].0, prefix@));
                }
                out.push(reassemble_exec(k, snap.val_at(i)));
                proof {
                    assert(out.deep_view() =~= pre.push(reassembled_row(s[i as int])));
                }
            } else {
                proof {
                    assert(!in_prefix_range(s[i as int].0, prefix@));
                }
            }
            proof {
                assert(out.deep_view() + range_rows(s.skip(i as int + 1), prefix@) =~= range_rows(
                    s,
                    prefix@,
                ));
            }
            i = i + 1;
        }
        proof {
            assert(s.skip(n as int) =~= Seq::<EntryModel>::empty());
            assert(out.deep_view() =~= range_rows(s, prefix@));
        }
        out
    }

    /// Closed-range prefix scan of epoch 0.
    pub fn scan_prefix(&mut self, prefix: &Tuple) -> (r: Vec<Tuple>)
        requires
            old(self).wf(),
        ensures
            final(self).wf(),
            same_meta(*old(self), *final(self)),
            final(self)@ == grown(old(self)@, 0),
            r.deep_view() == range_rows(final(self)@[0], prefix@),
    {
        self.scan_prefix_for_epoch(prefix, 0)
    }

    /// Doubly bounded prefix scan: keys between the prefix extended by the
    /// explicit lower column suffix and by the upper one, inclusive, for
    /// operators that emulate inequality joins over a shared key prefix.
    /// Returns the stored keys themselves, in ascending order.
    #[verifier::loop_isolation(false)]
    #[verifier::rlimit(30)]
    pub fn scan_bounded_prefix_for_epoch(
        &mut self,
        prefix: &Tuple,
        lower: &Tuple,
        upper: &Tuple,
        epoch: u32,
    ) -> (r: Vec<Tuple>)
        requires
            old(self).wf(),
        ensures
            final(self).wf(),
            same_meta(*old(self), *final(self)),
            final(self)@ == grown(old(self)@, epoch as int),
            r.deep_view() == bounded_keys(
                final(self)@[epoch as int],
                prefix@ + lower@,
                prefix@ + upper@,
            ),
    {
        let lo = tuple_concat(prefix, lower);
        let hi = tuple_concat(prefix, upper);
        self.ensure_mem_db_for_epoch(epoch);
        proof {
            assert(self@.len() == self.epochs@.len());
            assert((epoch as int) < grown(old(self)@, epoch as int).len());
            assert(self@[epoch as int] == self.epochs@[epoch as int]@);
        }
        let snap = &self.epochs[epoch as usize];
        let ghost s = snap@;
        let n = snap.entry_count();
        let mut out: Vec<Tuple> = Vec::new();
        proof {
            assert(s.skip(0) =~= s);
            assert(out.deep_view() + bounded_keys(s, lo@, hi@) =~= bounded_keys(s, lo@, hi@));
        }
        let mut i: usize = 0;
        while i < n
            invariant
                i <= n,
                out.deep_view() + bounded_keys(s.skip(i as int), lo@, hi@) =~= bounded_keys(
                    s,
                    lo@,
                    hi@,
                ),
            decreases n - i,
        {
            let ghost rest = s.skip(i as int);
            proof {
                assert(rest[0] == s[i as int]);
                assert(rest.drop_first() =~= s.skip(i as int + 1));
            }
            let k = snap.key_at(i);
            let lo_ok = !matches!(tuple_cmp(&lo, k), Cmp::Gt);
            let hi_ok = !matches!(tuple_cmp(k, &hi), Cmp::Gt);
            let ghost pre = out.deep_view();
            if lo_ok && hi_ok {
                out.push(tuple_clone(k));
                proof {
                    assert(out.deep_view() =~= pre.push(s[i as int].0));
                }
            }
            proof {
                assert(out.deep_view() + bounded_keys(s.skip(i as int + 1), lo@, hi@)
                    =~= bounded_keys(s, lo@, hi@));
            }
            i = i + 1;
        }
        proof {
            assert(s.skip(n as int) =~= Seq::<EntryModel>::empty());
            assert(out.deep_view() =~= bounded_keys(s, lo@, hi@));
        }
        out
    }

    /// The stateful aggregation finalize: read every row of epoch 0
    /// (reassembled), group contiguous rows by their non-aggregated
    /// columns, fold each group through fresh accumulators, and write each
    /// group's result row (deduplicated) into the destination store's
    /// epoch 0. A supplied row-count limiter is checked once per novel
    /// insertion; once it signals "enough rows" the scan stops early and
    /// reports it. Cancellation is polled between the rows of each group
    /// and surfaces as `Cancelled`.
    #[verifier::loop_isolation(false)]
    #[verifier::rlimit(60)]
    pub fn normal_aggr_scan_and_put(
        &self,
        aggrs: &Vec<AggrSpec>,
        store: &mut DerivedRelStore,
        limiter: &mut QueryLimiter,
        poison: &Poison,
    ) -> (r: Result<bool, Error>)
        requires
            old(store).wf(),
            old(limiter).enabled ==> old(limiter).counter < usize::MAX,
        ensures
            final(store).wf(),
            same_meta(*old(store), *final(store)),
            final(store)@.len() == grown(old(store)@, 0).len(),
            forall|e: int|
                0 < e < final(store)@.len() ==> final(store)@[e] == grown(old(store)@, 0)[e],
            final(limiter).enabled == old(limiter).enabled,
            final(limiter).limit == old(limiter).limit,
            ({
                let verdict = spec_normal_scan_checked(
                    rows_zero(*self),
                    aggrs@,
                    entries_as_map(grown(old(store)@, 0)[0]),
                    old(limiter).enabled,
                    old(limiter).limit as int,
                    old(limiter).counter as int,
                    poison.poisoned,
                );
                match verdict {
                    ScanOutcome::Done(d, c, early) => r == Ok::<bool, Error>(early)
                        && entries_as_map(final(store)@[0]) == d && final(limiter).counter == c,
                    ScanOutcome::Cancelled(d, c) => r == Err::<bool, Error>(Error::Cancelled)
                        && entries_as_map(final(store)@[0]) == d && final(limiter).counter == c,
                    ScanOutcome::Failed => r == Err::<bool, Error>(Error::AggrFailed),
                }
            }),
    {
        store.ensure_mem_db_for_epoch(0);
        let ghost d0 = entries_as_map(grown(old(store)@, 0)[0]);
        let ghost en = limiter.enabled;
        let ghost lim = limiter.limit as int;
        let ghost c0 = limiter.counter as int;
        let rows = self.collect_rows_zero();
        let ghost rows_m = rows.deep_view();
        let n = aggrs.len();
        let ghost nk_s = count_sel(aggrs@, aggrs@.len() as int, false);
        let ghost pz = poison.poisoned;
        let ghost total = spec_normal_scan_checked(rows_m, aggrs@, d0, en, lim, c0, pz);

        // Validate row widths up front: a row too narrow for the
        // reordered layout is an aggregate update error.
        let mut v: usize = 0;
        while v < rows.len()
            invariant
                v <= rows.len(),
                forall|t: int| 0 <= t < v ==> (#[trigger] rows_m[t]).len() >= n,
            decreases rows.len() - v,
        {
            if rows[v].len() < n {
                // A row too narrow for the reordered layout cannot be
                // grouped or folded.
                proof {
                    assert(rows_m[v as int].len() < n);
                    assert(!rows_wide(rows_m, n as int));
                }
                return Err(Error::AggrFailed);
            }
            v = v + 1;
        }
        proof {
            assert(rows_wide(rows_m, n as int));
            assert(total == spec_normal_scan(rows_m, aggrs@, d0, en, lim, c0, pz));
        }

        // The count of non-aggregated columns, and the position of every
        // original column inside the reordered layout.
        let mut n_keys: usize = 0;
        let mut i: usize = 0;
        while i < n
            invariant
                i <= n,
                n_keys == count_sel(aggrs@, i as int, false),
                n_keys <= i,
            decreases n - i,
        {
            if aggrs[i].is_none() {
                n_keys = n_keys + 1;
            }
            i = i + 1;
        }
        proof {
            assert(n_keys == nk_s);
            lemma_count_sel(aggrs@, n as int);
        }

        let mut inv: Vec<usize> = Vec::new();
        let mut kc: usize = 0;
        let mut ac: usize = 0;
        let mut i: usize = 0;
        while i < n
            invariant
                i <= n,
                kc == count_sel(aggrs@, i as int, false),
                ac == count_sel(aggrs@, i as int, true),
                kc <= i,
                ac <= i,
                inv@.len() == i,
                forall|j: int| 0 <= j < i ==> (#[trigger] inv@[j]) == reorder_pos(aggrs@, j),
                forall|j: int| 0 <= j < i ==> (#[trigger] inv@[j]) < n,
            decreases n - i,
        {
            proof {
                lemma_reorder_pos_bound(aggrs@, i as int);
            }
            if aggrs[i].is_none() {
                inv.push(kc);
                kc = kc + 1;
            } else {
                inv.push(n_keys + ac);
                ac = ac + 1;
            }
            i = i + 1;
        }

        // Walk the groups.
        proof {
            assert(rows_m.skip(0) =~= rows_m);
            assert(entries_as_map(store@[0]) == d0);
        }
        let mut g: usize = 0;
        while g < rows.len()
            invariant
                g <= rows.len(),
                store.wf(),
                same_meta(*old(store), *store),
                store@.len() == grown(old(store)@, 0).len(),
                forall|e: int| 0 < e < store@.len() ==> store@[e] == grown(old(store)@, 0)[e],
                limiter.enabled == en,
                limiter.limit as int == lim,
                en ==> limiter.counter < usize::MAX,
                spec_normal_scan(
                    rows_m.skip(g as int),
                    aggrs@,
                    entries_as_map(store@[0]),
                    en,
                    lim,
                    limiter.counter as int,
                    pz,
                ) == total,
            decreases rows.len() - g,
        {
            let ghost rest = rows_m.skip(g as int);
            let ghost rl = run_len(rest, nk_s);
            proof {
                lemma_run_len(rest, nk_s);
                assert(forall|t: int|
                    g <= t < rows_m.len() ==> (#[trigger] rows_m[t]) == rest[t - g]);
            }

            // Find the end of the current group.
            let mut j: usize = g + 1;
            let mut done = false;
            while !done
                invariant
                    g < j <= rows.len(),
                    j - g <= rl,
                    done ==> j - g == rl,
                decreases rows.len() - j + (if done {
                    0int
                } else {
                    1int
                }),
            {
                if j >= rows.len() {
                    proof {
                        assert(rl <= rest.len());
                        assert(j - g == rl);
                    }
                    done = true;
                } else {
                    proof {
                        assert(rows_m[g as int] == rest[0]);
                        assert(rows_m[j as int] == rest[j - g]);
                        assert(rows_m[g as int].len() >= n);
                        assert(rows_m[j as int].len() >= n);
                        assert(n_keys <= n);
                    }
                    if prefix_eq(&rows[g], &rows[j], n_keys) {
                        proof {
                            assert(j - g < rl) by {
                                if j - g == rl {
                                    assert(rl < rest.len());
                                    assert(!same_group(rest[0], rest[rl as int], nk_s));
                                }
                            }
                        }
                        j = j + 1;
                    } else {
                        proof {
                            assert(j - g == rl) by {
                                if j - g < rl {
                                    assert(same_group(rest[0], rest[j - g], nk_s));
                                }
                            }
                        }
                        done = true;
                    }
                }
            }
            let ghost sub = rows_m.subrange(g as int, j as int);
            proof {
                assert(sub =~= rest.subrange(0, rl as int));
            }

            // Cooperative cancellation, polled once per further row of
            // the group.
            let mut t: usize = g + 1;
            while t < j
                invariant
                    g + 1 <= t <= j,
                    t > g + 1 ==> !pz,
                decreases j - t,
            {
                match poison.check() {
                    Ok(_) => {},
                    Err(e) => {
                        proof {
                            // The flag is set and this group has further
                            // rows: the pass stops here, with everything
                            // written so far in place.
                            assert(pz && rl >= 2);
                            assert(total == ScanOutcome::Cancelled(
                                entries_as_map(store@[0]),
                                limiter.counter as int,
                            ));
                        }
                        return Err(e);
                    },
                }
                t = t + 1;
            }
            proof {
                assert(j - g >= 2 ==> !pz);
            }

            // Fold the group, column by column, into the result row.
            let mut out_row: Vec<DataValue> = Vec::new();
            let mut i: usize = 0;
            while i < n
                invariant
                    i <= n,
                    out_row.deep_view() =~= group_row(sub, aggrs@).subrange(0, i as int),
                    group_ok_upto(sub, aggrs@, i as int),
                decreases n - i,
            {
                let ghost pre = out_row.deep_view();
                let ghost rp = reorder_pos(aggrs@, i as int);
                proof {
                    lemma_reorder_pos_bound(aggrs@, i as int);
                }
                let c = inv[i];
                match &aggrs[i] {
                    None => {
                        out_row.push(val_clone(&rows[g].0[c]));
                        proof {
                            assert(rows_m[g as int] == sub[0]);
                            assert(out_row.deep_view() =~= pre.push(sub[0][rp]));
                        }
                    },
                    Some(pair) => {
                        let mut st = crate::aggr::NormalAggrState::init(pair.0);
                        let ghost colv = col_of(sub, rp);
                        let mut t: usize = g;
                        while t < j
                            invariant
                                g <= t <= j,
                                st.wf(),
                                st.kind == pair.0,
                                st.hist@ =~= col_of(sub, rp).take(t - g),
                            decreases j - t,
                        {
                            proof {
                                assert(rows_m[t as int] == sub[t - g]);
                                assert(colv[t - g] == sub[t - g][rp]);
                                assert(colv.take(t - g + 1) =~= colv.take(t - g).push(
                                    colv[t - g],
                                ));
                            }
                            match st.set(&rows[t].0[c]) {
                                Ok(_) => {},
                                Err(e) => {
                                    proof {
                                        assert(crate::aggr::spec_normal_acc(
                                            pair.0,
                                            colv.take(t - g + 1),
                                        ) is None);
                                        assert(colv.len() == sub.len());
                                        lemma_acc_none_prefix(pair.0, colv, t - g + 1);
                                        assert(!group_ok(sub, aggrs@)) by {
                                            assert(aggrs@[i as int] is Some);
                                            assert(crate::aggr::spec_normal_acc(
                                                (aggrs@[i as int]->0).0,
                                                col_of(sub, reorder_pos(aggrs@, i as int)),
                                            ) is None);
                                        }
                                        assert(total == ScanOutcome::Failed);
                                    }
                                    return Err(e);
                                },
                            }
                            t = t + 1;
                        }
                        proof {
                            assert(st.hist@ =~= colv);
                            assert(st.hist@.len() == sub.len() > 0);
                        }
                        match st.get() {
                            Ok(d) => {
                                out_row.push(d);
                                proof {
                                    assert(group_row(sub, aggrs@)[i as int] == acc_val(
                                        pair.0,
                                        colv,
                                    ));
                                    assert(out_row.deep_view() =~= pre.push(
                                        group_row(sub, aggrs@)[i as int],
                                    ));
                                }
                            },
                            Err(e) => {
                                return Err(e);
                            },
                        }
                    },
                }
                proof {
                    assert(out_row.deep_view() =~= group_row(sub, aggrs@).subrange(
                        0,
                        i as int + 1,
                    ));
                }
                i = i + 1;
            }
            proof {
                assert(group_ok(sub, aggrs@));
                assert(out_row.deep_view() =~= group_row(sub, aggrs@));
            }
            let res = Tuple(out_row);

            // Store the group's result, deduplicated; the limiter counts
            // only novel insertions.
            proof {
                assert(rest.skip(rl as int) =~= rows_m.skip(j as int));
                assert(store@.len() > 0);
                assert(grown(store@, 0) == store@);
            }
            if limiter.enabled {
                let present = store.key_exists(&res, 0);
                if !present {
                    let ghost pre_map = entries_as_map(store@[0]);
                    store.put(res, 0);
                    proof {
                        assert(entries_as_map(store@[0]) == pre_map.insert(
                            group_row(sub, aggrs@),
                            Seq::<ValModel>::empty(),
                        ));
                    }
                    if limiter.incr() {
                        return Ok(true);
                    }
                }
            } else {
                store.put(res, 0);
            }
            g = j;
        }
        proof {
            assert(rows_m.skip(rows_m.len() as int) =~= Seq::<Seq<ValModel>>::empty());
        }
        Ok(false)
    }

    /// The reassembled rows of epoch 0, without growing the epoch vector.
    #[verifier::loop_isolation(false)]
    fn collect_rows_zero(&self) -> (r: Vec<Tuple>)
        ensures
            r.deep_view() == rows_zero(*self),
    {
        let mut out: Vec<Tuple> = Vec::new();
        if self.epochs.len() == 0 {
            proof {
                assert(self@.len() == self.epochs@.len());
                assert(out.deep_view() =~= rows_zero(*self));
            }
            return out;
        }
        proof {
            assert(self@.len() == self.epochs@.len());
            assert(self@[0] == self.epochs@[0]@);
        }
        let snap = &self.epochs[0];
        let ghost s = snap@;
        let n = snap.entry_count();
        let mut i: usize = 0;
        while i < n
            invariant
                i <= n,
                out.deep_view() =~= reassembled_rows(s).subrange(0, i as int),
            decreases n - i,
        {
            let ghost pre = out.deep_view();
            out.push(reassemble_exec(snap.key_at(i), snap.val_at(i)));
            proof {
                assert(out.deep_view() =~= pre.push(reassembled_row(s[i as int])));
                assert(pre.push(reassembled_row(s[i as int])) =~= reassembled_rows(s).subrange(
                    0,
                    i as int + 1,
                ));
            }
            i = i + 1;
        }
        proof {
            assert(reassembled_rows(s).subrange(0, n as int) =~= reassembled_rows(s));
        }
        out
    }

    /// Whether the exact key is present in the given epoch.
    pub fn key_exists(&mut self, tuple: &Tuple, epoch: u32) -> (r: bool)
        requires
            old(self).wf(),
        ensures
            final(self).wf(),
            same_meta(*old(self), *final(self)),
            final(self)@ == grown(old(self)@, epoch as int),
            r <==> seq_contains_key(final(self)@[epoch as int], tuple@),
    {
        self.ensure_mem_db_for_epoch(epoch);
        proof {
            assert(self@.len() == self.epochs@.len());
            assert((epoch as int) < grown(old(self)@, epoch as int).len());
            assert(self@[epoch as int] == self.epochs@[epoch as int]@);
        }
        self.epochs[epoch as usize].contains_key(tuple)
    }
}

} // verus!
