use relstore::aggr::Aggregation;
use relstore::derived::{AggrSpec, DerivedRelStore, DerivedRelStoreId, Poison, QueryLimiter};
use relstore::error::Error;
use relstore::tuple::{tuple_eq, Tuple};
use relstore::value::DataValue;

fn iv(x: i64) -> DataValue {
    DataValue::Int(x)
}

fn sv(s: &str) -> DataValue {
    DataValue::Str(s.as_bytes().to_vec())
}

fn store(id: u32) -> DerivedRelStore {
    DerivedRelStore::new(DerivedRelStoreId(id), b"rule".to_vec(), 2)
}

fn sum_aggrs() -> Vec<AggrSpec> {
    vec![None, Some((Aggregation::Sum, vec![]))]
}

fn contains(rows: &[Tuple], want: &Tuple) -> bool {
    rows.iter().any(|r| tuple_eq(r, want))
}

fn run_pass(rows: &[(&str, i64)], aggrs: &Vec<AggrSpec>) -> Vec<Tuple> {
    let mut src = store(1);
    for (serial, (k, v)) in rows.iter().enumerate() {
        src.normal_aggr_put(&Tuple(vec![sv(k), iv(*v)]), aggrs, serial);
    }
    let mut dst = store(2);
    let mut lim = QueryLimiter::unlimited();
    let early = src
        .normal_aggr_scan_and_put(aggrs, &mut dst, &mut lim, &Poison::new())
        .unwrap();
    assert!(!early);
    dst.scan_all()
}

#[test]
fn two_groups_sum() {
    // key="a" rows with values [1,2,3] and key="b" with [10], sum.
    let out = run_pass(&[("a", 1), ("a", 2), ("a", 3), ("b", 10)], &sum_aggrs());
    assert_eq!(out.len(), 2);
    assert!(contains(&out, &Tuple(vec![sv("a"), iv(6)])));
    assert!(contains(&out, &Tuple(vec![sv("b"), iv(10)])));
}

#[test]
fn two_groups_sum_other_order() {
    // The same relation fed in another order emits the same two rows.
    let out = run_pass(&[("b", 10), ("a", 3), ("a", 1), ("a", 2)], &sum_aggrs());
    assert_eq!(out.len(), 2);
    assert!(contains(&out, &Tuple(vec![sv("a"), iv(6)])));
    assert!(contains(&out, &Tuple(vec![sv("b"), iv(10)])));
}

#[test]
fn count_min_max_finalize() {
    for (aggr, want_a, want_b) in [
        (Aggregation::Count, 3, 1),
        (Aggregation::Min, 1, 10),
        (Aggregation::Max, 3, 10),
    ] {
        let aggrs: Vec<AggrSpec> = vec![None, Some((aggr, vec![]))];
        let out = run_pass(&[("a", 1), ("a", 2), ("a", 3), ("b", 10)], &aggrs);
        assert_eq!(out.len(), 2);
        assert!(contains(&out, &Tuple(vec![sv("a"), iv(want_a)])));
        assert!(contains(&out, &Tuple(vec![sv("b"), iv(want_b)])));
    }
}

#[test]
fn limiter_capacity_one_stops_early() {
    // Two distinct groups, capacity 1: exactly one group's result lands
    // and the pass reports early termination.
    let aggrs = sum_aggrs();
    let mut src = store(1);
    src.normal_aggr_put(&Tuple(vec![sv("a"), iv(1)]), &aggrs, 0);
    src.normal_aggr_put(&Tuple(vec![sv("b"), iv(2)]), &aggrs, 1);
    let mut dst = store(2);
    let mut lim = QueryLimiter::with_limit(1);
    let early = src
        .normal_aggr_scan_and_put(&aggrs, &mut dst, &mut lim, &Poison::new())
        .unwrap();
    assert!(early);
    assert_eq!(dst.scan_all().len(), 1);
    assert_eq!(lim.counter, 1);
}

#[test]
fn poison_cancels_the_pass() {
    let aggrs = sum_aggrs();
    let mut src = store(1);
    src.normal_aggr_put(&Tuple(vec![sv("a"), iv(1)]), &aggrs, 0);
    src.normal_aggr_put(&Tuple(vec![sv("a"), iv(2)]), &aggrs, 1);
    let mut dst = store(2);
    let mut lim = QueryLimiter::unlimited();
    let poisoned = Poison { poisoned: true };
    let r = src.normal_aggr_scan_and_put(&aggrs, &mut dst, &mut lim, &poisoned);
    assert_eq!(r, Err(Error::Cancelled));
}

#[test]
fn aggregate_error_surfaces() {
    // A string in a sum group is an aggregate update error.
    let aggrs = sum_aggrs();
    let mut src = store(1);
    src.normal_aggr_put(&Tuple(vec![sv("a"), iv(1)]), &aggrs, 0);
    src.normal_aggr_put(&Tuple(vec![sv("a"), sv("oops")]), &aggrs, 1);
    let mut dst = store(2);
    let mut lim = QueryLimiter::unlimited();
    let r = src.normal_aggr_scan_and_put(&aggrs, &mut dst, &mut lim, &Poison::new());
    assert_eq!(r, Err(Error::AggrFailed));
}

#[test]
fn serial_keeps_identical_rows_apart() {
    // Two identical rows survive as distinct inputs thanks to the serial,
    // so a count sees both.
    let aggrs: Vec<AggrSpec> = vec![None, Some((Aggregation::Count, vec![]))];
    let out = run_pass(&[("a", 5), ("a", 5)], &aggrs);
    assert_eq!(out.len(), 1);
    assert!(contains(&out, &Tuple(vec![sv("a"), iv(2)])));
}

#[test]
fn duplicate_group_results_are_deduplicated() {
    // A group result already present in the destination is suppressed and
    // does not count against the limiter's capacity.
    let aggrs: Vec<AggrSpec> = vec![None, Some((Aggregation::Sum, vec![]))];
    let mut src = store(1);
    src.normal_aggr_put(&Tuple(vec![sv("a"), iv(4)]), &aggrs, 0);
    let mut dst = store(2);
    // Pre-store the very row the pass will produce.
    dst.put(Tuple(vec![sv("a"), iv(4)]), 0);
    let mut lim = QueryLimiter::with_limit(1);
    let early = src
        .normal_aggr_scan_and_put(&aggrs, &mut dst, &mut lim, &Poison::new())
        .unwrap();
    assert!(!early, "a duplicate insertion is not counted by the limiter");
    assert_eq!(lim.counter, 0);
    assert_eq!(dst.scan_all().len(), 1);
}

#[test]
fn empty_relation_finalizes_to_nothing() {
    let aggrs = sum_aggrs();
    let mut src = store(1);
    let mut dst = store(2);
    let mut lim = QueryLimiter::unlimited();
    let early = src
        .normal_aggr_scan_and_put(&aggrs, &mut dst, &mut lim, &Poison::new())
        .unwrap();
    assert!(!early);
    assert!(dst.scan_all().is_empty());
}

#[test]
fn single_group_without_limiter() {
    let out = run_pass(&[("only", 2), ("only", 3)], &sum_aggrs());
    assert_eq!(out.len(), 1);
    assert!(contains(&out, &Tuple(vec![sv("only"), iv(5)])));
}

#[test]
fn poisoned_pass_with_single_row_groups_completes() {
    // Cancellation is polled between the rows of a group; groups of one
    // row reach no check, so the pass runs to the end even when the flag
    // is set.
    let aggrs = sum_aggrs();
    let mut src = store(1);
    src.normal_aggr_put(&Tuple(vec![sv("a"), iv(1)]), &aggrs, 0);
    src.normal_aggr_put(&Tuple(vec![sv("b"), iv(2)]), &aggrs, 1);
    let mut dst = store(2);
    let mut lim = QueryLimiter::unlimited();
    let poisoned = Poison { poisoned: true };
    let early = src
        .normal_aggr_scan_and_put(&aggrs, &mut dst, &mut lim, &poisoned)
        .unwrap();
    assert!(!early);
    assert_eq!(dst.scan_all().len(), 2);
}

#[test]
fn cancellation_keeps_earlier_group_results() {
    // The single-row group "a" is finalized and stored; the two-row group
    // "b" reaches the per-row check and the pass stops by request.
    let aggrs = sum_aggrs();
    let mut src = store(1);
    src.normal_aggr_put(&Tuple(vec![sv("a"), iv(1)]), &aggrs, 0);
    src.normal_aggr_put(&Tuple(vec![sv("b"), iv(2)]), &aggrs, 1);
    src.normal_aggr_put(&Tuple(vec![sv("b"), iv(3)]), &aggrs, 2);
    let mut dst = store(2);
    let mut lim = QueryLimiter::unlimited();
    let poisoned = Poison { poisoned: true };
    let r = src.normal_aggr_scan_and_put(&aggrs, &mut dst, &mut lim, &poisoned);
    assert_eq!(r, Err(Error::Cancelled));
    let kept = dst.scan_all();
    assert_eq!(kept.len(), 1);
    assert!(tuple_eq(&kept[0], &Tuple(vec![sv("a"), iv(1)])));
}
