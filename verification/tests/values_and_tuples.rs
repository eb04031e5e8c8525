use relstore::tuple::{reassemble_exec, tuple_clone, tuple_cmp, tuple_concat, tuple_eq, tuple_push, Tuple};
use relstore::value::{bytes_cmp, val_clone, val_cmp, val_eq, Cmp, DataValue};

fn iv(x: i64) -> DataValue {
    DataValue::Int(x)
}

fn sv(s: &str) -> DataValue {
    DataValue::Str(s.as_bytes().to_vec())
}

#[test]
fn value_order_by_tag() {
    assert_eq!(val_cmp(&DataValue::Bool(true), &iv(0)), Cmp::Lt);
    assert_eq!(val_cmp(&iv(7), &sv("")), Cmp::Lt);
    assert_eq!(val_cmp(&sv("zzz"), &DataValue::Guard), Cmp::Lt);
    assert_eq!(val_cmp(&DataValue::Guard, &DataValue::Bot), Cmp::Lt);
}

#[test]
fn bot_is_greatest() {
    for v in [DataValue::Bool(false), iv(i64::MAX), sv("zzzz"), DataValue::Guard] {
        assert_eq!(val_cmp(&v, &DataValue::Bot), Cmp::Lt);
        assert_eq!(val_cmp(&DataValue::Bot, &v), Cmp::Gt);
    }
    assert_eq!(val_cmp(&DataValue::Bot, &DataValue::Bot), Cmp::Eq);
}

#[test]
fn guard_compares_consistently() {
    assert_eq!(val_cmp(&DataValue::Guard, &DataValue::Guard), Cmp::Eq);
    assert!(val_eq(&DataValue::Guard, &DataValue::Guard));
    assert_eq!(val_cmp(&DataValue::Guard, &sv("any")), Cmp::Gt);
}

#[test]
fn int_and_string_order() {
    assert_eq!(val_cmp(&iv(-5), &iv(3)), Cmp::Lt);
    assert_eq!(val_cmp(&iv(3), &iv(3)), Cmp::Eq);
    assert_eq!(bytes_cmp(&b"ab".to_vec(), &b"abc".to_vec()), Cmp::Lt);
    assert_eq!(bytes_cmp(&b"abd".to_vec(), &b"abc".to_vec()), Cmp::Gt);
    assert_eq!(val_cmp(&sv("a"), &sv("b")), Cmp::Lt);
}

#[test]
fn val_clone_preserves() {
    let v = sv("hello");
    assert!(val_eq(&v, &val_clone(&v)));
}

#[test]
fn tuple_lex_order() {
    let a = Tuple(vec![iv(1), iv(2)]);
    let b = Tuple(vec![iv(1), iv(3)]);
    let c = Tuple(vec![iv(1)]);
    assert_eq!(tuple_cmp(&a, &b), Cmp::Lt);
    assert_eq!(tuple_cmp(&c, &a), Cmp::Lt, "a strict prefix sorts first");
    assert_eq!(tuple_cmp(&a, &a), Cmp::Eq);
    assert!(tuple_eq(&a, &tuple_clone(&a)));
}

#[test]
fn tuple_push_and_concat() {
    let a = Tuple(vec![iv(1)]);
    let b = tuple_push(&a, DataValue::Bot);
    assert_eq!(b.len(), 2);
    let c = tuple_concat(&a, &b);
    assert_eq!(c.len(), 3);
    assert!(val_eq(&c.0[2], &DataValue::Bot));
}

#[test]
fn split_then_reassemble_round_trip() {
    // A row with one aggregated column (position 1): the key masks it with
    // Guard, the value keeps it and masks the others.
    let key = Tuple(vec![sv("a"), DataValue::Guard, iv(9)]);
    let val = Tuple(vec![DataValue::Guard, iv(42), DataValue::Guard]);
    let row = reassemble_exec(&key, &val);
    assert!(tuple_eq(&row, &Tuple(vec![sv("a"), iv(42), iv(9)])));
}

#[test]
fn reassemble_empty_value_is_identity() {
    let key = Tuple(vec![sv("k"), iv(1)]);
    let row = reassemble_exec(&key, &Tuple(vec![]));
    assert!(tuple_eq(&row, &key));
}

#[test]
fn reassemble_then_split_shape() {
    // The reassembled row holds the key's real columns and the value's
    // aggregated columns, in place.
    let key = Tuple(vec![iv(1), DataValue::Guard]);
    let val = Tuple(vec![DataValue::Guard, sv("x")]);
    let row = reassemble_exec(&key, &val);
    assert!(val_eq(&row.0[0], &iv(1)));
    assert!(val_eq(&row.0[1], &sv("x")));
}
