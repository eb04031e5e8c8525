use relstore::aggr::Aggregation;
use relstore::derived::{AggrSpec, DerivedRelStore, DerivedRelStoreId};
use relstore::error::Error;
use relstore::tuple::{tuple_eq, Tuple};
use relstore::value::DataValue;

fn iv(x: i64) -> DataValue {
    DataValue::Int(x)
}

fn sv(s: &str) -> DataValue {
    DataValue::Str(s.as_bytes().to_vec())
}

fn store() -> DerivedRelStore {
    DerivedRelStore::new(DerivedRelStoreId(1), b"rule".to_vec(), 2)
}

#[test]
fn ensure_epoch_grows_lazily_and_idempotently() {
    let mut s = store();
    s.ensure_mem_db_for_epoch(3);
    // Epochs 0..3 all exist and are empty.
    for e in 0..4u32 {
        assert!(s.scan_all_for_epoch(e).is_empty());
    }
    s.put(Tuple(vec![iv(5)]), 2);
    s.ensure_mem_db_for_epoch(3);
    // Still there after a redundant ensure; only epoch 2 holds the row.
    assert!(s.scan_all_for_epoch(0).is_empty());
    assert!(s.scan_all_for_epoch(1).is_empty());
    assert_eq!(s.scan_all_for_epoch(2).len(), 1);
    assert!(s.scan_all_for_epoch(3).is_empty());
}

#[test]
fn put_and_exists() {
    let mut s = store();
    let t = Tuple(vec![sv("a"), iv(1)]);
    assert!(!s.key_exists(&t, 0));
    s.put(Tuple(vec![sv("a"), iv(1)]), 0);
    assert!(s.key_exists(&t, 0));
    assert!(!s.key_exists(&t, 1));
}

#[test]
fn put_kv_and_scan_sorted() {
    let mut s = store();
    // Keys carry the ordering; values carry the payload rows.
    s.put_kv(Tuple(vec![iv(2)]), Tuple(vec![sv("second")]), 0);
    s.put_kv(Tuple(vec![iv(1)]), Tuple(vec![sv("first")]), 0);
    let rows = s.scan_sorted();
    assert_eq!(rows.len(), 2);
    assert!(tuple_eq(&rows[0], &Tuple(vec![sv("first")])));
    assert!(tuple_eq(&rows[1], &Tuple(vec![sv("second")])));
}

#[test]
fn scan_all_reassembles_guard_positions() {
    let mut s = store();
    s.put_kv(
        Tuple(vec![sv("k"), DataValue::Guard]),
        Tuple(vec![DataValue::Guard, iv(10)]),
        0,
    );
    let rows = s.scan_all();
    assert_eq!(rows.len(), 1);
    assert!(tuple_eq(&rows[0], &Tuple(vec![sv("k"), iv(10)])));
}

fn sum_aggrs() -> Vec<AggrSpec> {
    vec![None, Some((Aggregation::Sum, vec![]))]
}

#[test]
fn meet_put_inserts_then_merges() {
    let mut s = store();
    let aggrs = sum_aggrs();
    let changed = s.aggr_meet_put(&Tuple(vec![sv("a"), iv(3)]), &aggrs, 0).unwrap();
    assert!(changed, "first row for a key is always new");
    let changed = s.aggr_meet_put(&Tuple(vec![sv("a"), iv(4)]), &aggrs, 0).unwrap();
    assert!(changed);
    let rows = s.scan_all();
    assert_eq!(rows.len(), 1);
    assert!(tuple_eq(&rows[0], &Tuple(vec![sv("a"), iv(7)])));
    // Merging zero changes nothing and says so.
    let changed = s.aggr_meet_put(&Tuple(vec![sv("a"), iv(0)]), &aggrs, 0).unwrap();
    assert!(!changed);
}

#[test]
fn meet_put_is_order_independent() {
    // Same rows in either order end in the same epoch-0 stored value.
    let aggrs = sum_aggrs();
    let r1 = Tuple(vec![sv("g"), iv(3)]);
    let r2 = Tuple(vec![sv("g"), iv(11)]);

    let mut s12 = store();
    s12.aggr_meet_put(&r1, &aggrs, 0).unwrap();
    s12.aggr_meet_put(&r2, &aggrs, 0).unwrap();
    let mut s21 = store();
    s21.aggr_meet_put(&r2, &aggrs, 0).unwrap();
    s21.aggr_meet_put(&r1, &aggrs, 0).unwrap();

    let a = s12.scan_all();
    let b = s21.scan_all();
    assert_eq!(a.len(), 1);
    assert!(tuple_eq(&a[0], &b[0]));
    assert!(tuple_eq(&a[0], &Tuple(vec![sv("g"), iv(14)])));
}

#[test]
fn meet_put_min_order_independent() {
    let aggrs: Vec<AggrSpec> = vec![None, Some((Aggregation::Min, vec![]))];
    let r1 = Tuple(vec![sv("g"), iv(9)]);
    let r2 = Tuple(vec![sv("g"), iv(4)]);
    let mut s12 = store();
    s12.aggr_meet_put(&r1, &aggrs, 0).unwrap();
    let ch = s12.aggr_meet_put(&r2, &aggrs, 0).unwrap();
    assert!(ch, "a smaller value changes the minimum");
    let mut s21 = store();
    s21.aggr_meet_put(&r2, &aggrs, 0).unwrap();
    let ch = s21.aggr_meet_put(&r1, &aggrs, 0).unwrap();
    assert!(!ch, "a larger value leaves the minimum alone");
    assert!(tuple_eq(&s12.scan_all()[0], &s21.scan_all()[0]));
    assert!(tuple_eq(&s12.scan_all()[0], &Tuple(vec![sv("g"), iv(4)])));
}

#[test]
fn meet_put_into_later_epoch_updates_zero() {
    // A meet put into epoch 2 that changes state also updates epoch 0.
    let mut s = store();
    let aggrs = sum_aggrs();
    s.aggr_meet_put(&Tuple(vec![sv("a"), iv(1)]), &aggrs, 0).unwrap();
    let changed = s.aggr_meet_put(&Tuple(vec![sv("a"), iv(2)]), &aggrs, 2).unwrap();
    assert!(changed);
    let total = s.scan_all_for_epoch(0);
    assert!(tuple_eq(&total[0], &Tuple(vec![sv("a"), iv(3)])));
    let delta = s.scan_all_for_epoch(2);
    assert_eq!(delta.len(), 1);
    assert!(tuple_eq(&delta[0], &Tuple(vec![sv("a"), iv(3)])));
    assert!(s.scan_all_for_epoch(1).is_empty());
    // An unchanged merge records no delta.
    let changed = s.aggr_meet_put(&Tuple(vec![sv("a"), iv(0)]), &aggrs, 3).unwrap();
    assert!(!changed);
    assert!(s.scan_all_for_epoch(3).is_empty());
}

#[test]
fn meet_put_type_mismatch_fails() {
    let mut s = store();
    let aggrs = sum_aggrs();
    s.aggr_meet_put(&Tuple(vec![sv("a"), iv(1)]), &aggrs, 0).unwrap();
    let r = s.aggr_meet_put(&Tuple(vec![sv("a"), sv("oops")]), &aggrs, 0);
    assert_eq!(r, Err(Error::AggrFailed));
}

#[test]
fn meet_put_sum_overflow_fails() {
    let mut s = store();
    let aggrs = sum_aggrs();
    s.aggr_meet_put(&Tuple(vec![sv("a"), iv(i64::MAX)]), &aggrs, 0).unwrap();
    let r = s.aggr_meet_put(&Tuple(vec![sv("a"), iv(1)]), &aggrs, 0);
    assert_eq!(r, Err(Error::AggrFailed));
}
