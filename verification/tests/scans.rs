use relstore::derived::{DerivedRelStore, DerivedRelStoreId};
use relstore::tuple::{tuple_eq, Tuple};
use relstore::value::DataValue;

fn iv(x: i64) -> DataValue {
    DataValue::Int(x)
}

fn sv(s: &str) -> DataValue {
    DataValue::Str(s.as_bytes().to_vec())
}

fn store() -> DerivedRelStore {
    DerivedRelStore::new(DerivedRelStoreId(3), b"scans".to_vec(), 3)
}

#[test]
fn prefix_scan_includes_all_and_only_the_prefix() {
    let mut s = store();
    s.put(Tuple(vec![iv(1), iv(1)]), 0);
    s.put(Tuple(vec![iv(1), iv(2)]), 0);
    s.put(Tuple(vec![iv(1), iv(2), iv(5)]), 0);
    s.put(Tuple(vec![iv(2), iv(1)]), 0);

    let under_one = s.scan_prefix(&Tuple(vec![iv(1)]));
    assert_eq!(under_one.len(), 3, "every key sharing the prefix is included");
    let under_12 = s.scan_prefix(&Tuple(vec![iv(1), iv(2)]));
    assert_eq!(under_12.len(), 2);
    assert!(tuple_eq(&under_12[0], &Tuple(vec![iv(1), iv(2)])));
    assert!(tuple_eq(&under_12[1], &Tuple(vec![iv(1), iv(2), iv(5)])));
    let under_three = s.scan_prefix(&Tuple(vec![iv(3)]));
    assert!(under_three.is_empty(), "keys from a different prefix are excluded");
}

#[test]
fn prefix_scan_is_independent_of_trailing_columns() {
    let mut s = store();
    s.put(Tuple(vec![sv("p"), iv(1)]), 0);
    s.put(Tuple(vec![sv("p"), iv(2), iv(3), iv(4)]), 0);
    s.put(Tuple(vec![sv("q"), iv(1)]), 0);
    let hits = s.scan_prefix(&Tuple(vec![sv("p")]));
    assert_eq!(hits.len(), 2);
}

#[test]
fn prefix_scan_reassembles_values() {
    let mut s = store();
    s.put_kv(
        Tuple(vec![sv("p"), DataValue::Guard]),
        Tuple(vec![DataValue::Guard, iv(9)]),
        0,
    );
    let hits = s.scan_prefix(&Tuple(vec![sv("p")]));
    assert_eq!(hits.len(), 1);
    assert!(tuple_eq(&hits[0], &Tuple(vec![sv("p"), iv(9)])));
}

#[test]
fn prefix_scan_on_a_later_epoch() {
    let mut s = store();
    s.put(Tuple(vec![iv(1), iv(1)]), 2);
    assert!(s.scan_prefix_for_epoch(&Tuple(vec![iv(1)]), 0).is_empty());
    assert_eq!(s.scan_prefix_for_epoch(&Tuple(vec![iv(1)]), 2).len(), 1);
}

#[test]
fn bounded_prefix_scan_is_doubly_inclusive() {
    let mut s = store();
    s.put(Tuple(vec![iv(1), iv(1)]), 0);
    s.put(Tuple(vec![iv(1), iv(2)]), 0);
    s.put(Tuple(vec![iv(1), iv(3)]), 0);
    s.put(Tuple(vec![iv(2), iv(0)]), 0);
    let hits = s.scan_bounded_prefix_for_epoch(
        &Tuple(vec![iv(1)]),
        &Tuple(vec![iv(1)]),
        &Tuple(vec![iv(2)]),
        0,
    );
    assert_eq!(hits.len(), 2);
    assert!(tuple_eq(&hits[0], &Tuple(vec![iv(1), iv(1)])));
    assert!(tuple_eq(&hits[1], &Tuple(vec![iv(1), iv(2)])));
}

#[test]
fn scan_results_come_in_ascending_key_order() {
    let mut s = store();
    s.put(Tuple(vec![iv(3)]), 0);
    s.put(Tuple(vec![iv(1)]), 0);
    s.put(Tuple(vec![iv(2)]), 0);
    let rows = s.scan_all();
    assert_eq!(rows.len(), 3);
    for (i, want) in [1i64, 2, 3].iter().enumerate() {
        assert!(tuple_eq(&rows[i], &Tuple(vec![iv(*want)])));
    }
}
