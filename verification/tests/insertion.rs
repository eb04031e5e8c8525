use relstore::derived::{DerivedRelStore, DerivedRelStoreId};
use relstore::error::Error;
use relstore::insert::{apply_row, Expr, Insertion, ScopedDict, StoreKey};
use relstore::snapshot::Snapshot;
use relstore::table::{AssocInfo, Catalog, ColSchema, EdgeInfo, NodeInfo, TableId, TableInfo};
use relstore::tuple::{tuple_clone, tuple_eq, Tuple};
use relstore::tuple_set::{BindingCols, BindingMap, TupleSet, TupleSetIdx};
use relstore::value::DataValue;

fn iv(x: i64) -> DataValue {
    DataValue::Int(x)
}

fn sv(s: &str) -> DataValue {
    DataValue::Str(s.as_bytes().to_vec())
}

fn col(name: &str) -> ColSchema {
    ColSchema { name: name.as_bytes().to_vec() }
}

fn person_tid() -> TableId {
    TableId { in_root: false, id: 10 }
}

fn extra_tid() -> TableId {
    TableId { in_root: false, id: 11 }
}

fn user_tid() -> TableId {
    TableId { in_root: false, id: 20 }
}

fn item_tid() -> TableId {
    TableId { in_root: false, id: 21 }
}

fn bought_tid() -> TableId {
    TableId { in_root: false, id: 22 }
}

fn catalog() -> Catalog {
    Catalog {
        tables: vec![
            TableInfo::Node(NodeInfo {
                tid: person_tid(),
                name: b"person".to_vec(),
                keys: vec![col("id")],
                vals: vec![col("name")],
            }),
            TableInfo::Node(NodeInfo {
                tid: user_tid(),
                name: b"user".to_vec(),
                keys: vec![col("uid")],
                vals: vec![],
            }),
            TableInfo::Node(NodeInfo {
                tid: item_tid(),
                name: b"item".to_vec(),
                keys: vec![col("item_id")],
                vals: vec![],
            }),
            TableInfo::Edge(EdgeInfo {
                tid: bought_tid(),
                name: b"bought".to_vec(),
                src_id: user_tid(),
                dst_id: item_tid(),
                keys: vec![],
                vals: vec![col("qty")],
            }),
        ],
        assocs: vec![AssocInfo {
            tid: extra_tid(),
            name: b"extra".to_vec(),
            main_id: person_tid(),
            vals: vec![col("nick")],
        }],
    }
}

/// An upstream binding "r" whose columns c0..c3 sit in slot 0's key tuple.
fn source_map() -> BindingMap {
    let mut cols = BindingCols::new();
    for (i, name) in [b"c0".to_vec(), b"c1".to_vec(), b"c2".to_vec(), b"c3".to_vec()]
        .into_iter()
        .enumerate()
    {
        cols.set_col(name, TupleSetIdx { is_key: true, t_set: 0, col_idx: i });
    }
    let mut bm = BindingMap::new();
    bm.push_binding(b"r".to_vec(), cols);
    bm
}

fn source_row(vals: Vec<DataValue>) -> TupleSet {
    let mut ts = TupleSet::new();
    ts.push_key(Tuple(vals));
    ts
}

fn var(b: &str, c: &str) -> Expr {
    Expr::Var(b.as_bytes().to_vec(), c.as_bytes().to_vec())
}

fn person_dict() -> ScopedDict {
    ScopedDict {
        binding: b"p".to_vec(),
        keys: vec![],
        vals: vec![
            (b"id".to_vec(), var("r", "c0")),
            (b"name".to_vec(), var("r", "c1")),
        ],
    }
}

fn person_args() -> Option<(Vec<u8>, Vec<Vec<u8>>)> {
    Some((b"person".to_vec(), vec![]))
}

#[test]
fn build_missing_arguments() {
    let cat = catalog();
    let r = Insertion::build(&cat, None, Some(person_dict()), false);
    assert_eq!(r.err().map(|e| e == Error::NotEnoughArguments), Some(true));
    let r = Insertion::build(&cat, person_args(), None, false);
    assert_eq!(r.err().map(|e| e == Error::NotEnoughArguments), Some(true));
}

#[test]
fn build_rejects_keyed_dict() {
    let cat = catalog();
    let mut sd = person_dict();
    sd.keys.push((b"id".to_vec(), var("r", "c0")));
    let r = Insertion::build(&cat, person_args(), Some(sd), false);
    assert!(matches!(r, Err(Error::Parse(_))));
}

#[test]
fn build_unknown_table() {
    let cat = catalog();
    let r = Insertion::build(
        &cat,
        Some((b"nowhere".to_vec(), vec![])),
        Some(person_dict()),
        false,
    );
    assert!(matches!(r, Err(Error::TableNotFound(n)) if n == b"nowhere".to_vec()));
}

#[test]
fn build_unknown_association() {
    let cat = catalog();
    let r = Insertion::build(
        &cat,
        Some((b"person".to_vec(), vec![b"ghost".to_vec()])),
        Some(person_dict()),
        false,
    );
    assert!(matches!(r, Err(Error::TableNotFound(n)) if n == b"ghost".to_vec()));
}

#[test]
fn insert_then_conflict_then_upsert() {
    let cat = catalog();
    let ins = Insertion::build(&cat, person_args(), Some(person_dict()), false).unwrap();
    let planner = ins.make_planner(&source_map()).unwrap();
    let mut st = Snapshot::new();

    let row = source_row(vec![iv(1), sv("ada")]);
    let out = planner.process_row(&row, &mut st).unwrap();
    assert!(tuple_eq(&out.keys[0], &Tuple(vec![iv(1)])));
    assert!(tuple_eq(&out.vals[0], &Tuple(vec![sv("ada")])));

    // Same primary key again: insert mode fails with the conflict.
    let row2 = source_row(vec![iv(1), sv("bob")]);
    let r = planner.process_row(&row2, &mut st);
    match r {
        Err(Error::KeyConflict(k)) => {
            assert!(tuple_eq(&k, &Tuple(vec![iv(10), iv(1)])));
        },
        other => panic!("expected a key conflict, got {:?}", other.is_ok()),
    }

    // Upsert mode never conflicts; the second value supersedes the first.
    let ups = Insertion::build(&cat, person_args(), Some(person_dict()), true).unwrap();
    let upl = ups.make_planner(&source_map()).unwrap();
    upl.process_row(&row2, &mut st).unwrap();
    let key = StoreKey { tid: 10, cols: Tuple(vec![iv(1)]) }.encode();
    let got = st.get(&key).unwrap();
    assert!(tuple_eq(got, &Tuple(vec![sv("bob")])));
}

#[test]
fn association_rows_share_the_key() {
    let cat = catalog();
    let sd = ScopedDict {
        binding: b"p".to_vec(),
        keys: vec![],
        vals: vec![
            (b"id".to_vec(), var("r", "c0")),
            (b"name".to_vec(), var("r", "c1")),
            (b"nick".to_vec(), var("r", "c2")),
        ],
    };
    let ins = Insertion::build(
        &cat,
        Some((b"person".to_vec(), vec![b"extra".to_vec()])),
        Some(sd),
        false,
    )
    .unwrap();
    let planner = ins.make_planner(&source_map()).unwrap();
    let mut st = Snapshot::new();
    let row = source_row(vec![iv(7), sv("grace"), sv("g")]);
    let out = planner.process_row(&row, &mut st).unwrap();
    // Slot 0 key/value, slot 1 the association's value.
    assert_eq!(out.keys.len(), 1);
    assert_eq!(out.vals.len(), 2);
    assert!(tuple_eq(&out.vals[1], &Tuple(vec![sv("g")])));
    // The association row reuses the primary key under its own table id.
    let akey = StoreKey { tid: 11, cols: Tuple(vec![iv(7)]) }.encode();
    assert!(tuple_eq(st.get(&akey).unwrap(), &Tuple(vec![sv("g")])));
    // The primary row is under the target's id.
    let pkey = StoreKey { tid: 10, cols: Tuple(vec![iv(7)]) }.encode();
    assert!(tuple_eq(st.get(&pkey).unwrap(), &Tuple(vec![sv("grace")])));
}

#[test]
fn missing_row_binding_is_an_eval_error() {
    let cat = catalog();
    let ins = Insertion::build(&cat, person_args(), Some(person_dict()), false).unwrap();
    let planner = ins.make_planner(&source_map()).unwrap();
    let mut st = Snapshot::new();
    // The row has only one column; c1 is out of range.
    let row = source_row(vec![iv(1)]);
    let r = planner.process_row(&row, &mut st);
    assert!(matches!(r, Err(Error::Eval(_))));
}

#[test]
fn unresolved_variable_is_a_parse_error() {
    let cat = catalog();
    let sd = ScopedDict {
        binding: b"p".to_vec(),
        keys: vec![],
        vals: vec![
            (b"id".to_vec(), var("r", "c0")),
            (b"name".to_vec(), var("r", "missing")),
        ],
    };
    let ins = Insertion::build(&cat, person_args(), Some(sd), false).unwrap();
    let r = ins.make_planner(&source_map());
    assert!(matches!(r, Err(Error::Parse(_))));
}

fn bought_insertion(cat: &Catalog) -> Insertion {
    let sd = ScopedDict {
        binding: b"b".to_vec(),
        keys: vec![],
        vals: vec![
            (b"uid".to_vec(), var("r", "c0")),
            (b"item_id".to_vec(), var("r", "c1")),
            (b"qty".to_vec(), var("r", "c2")),
        ],
    };
    Insertion::build(cat, Some((b"bought".to_vec(), vec![])), Some(sd), false).unwrap()
}

#[test]
fn edge_insertion_writes_forward_and_inverse_keys() {
    let cat = catalog();
    let ins = bought_insertion(&cat);
    let planner = ins.make_planner(&source_map()).unwrap();
    let mut st = Snapshot::new();
    let row = source_row(vec![iv(100), iv(200), iv(3)]);
    planner.process_row(&row, &mut st).unwrap();

    // Forward: [src-table-id][src key][true][dst key], under the edge id.
    let fwd = StoreKey {
        tid: 22,
        cols: Tuple(vec![iv(20), iv(100), DataValue::Bool(true), iv(200)]),
    }
    .encode();
    // Inverse: [dst-table-id][dst key][true][src key], value = forward key.
    let inv = StoreKey {
        tid: 22,
        cols: Tuple(vec![iv(21), iv(200), DataValue::Bool(true), iv(100)]),
    }
    .encode();
    assert!(tuple_eq(st.get(&fwd).unwrap(), &Tuple(vec![iv(3)])));
    assert!(tuple_eq(st.get(&inv).unwrap(), &fwd));

    // The non-marker, non-direction columns of the two keys are
    // permutations of each other.
    let mut a: Vec<i64> = vec![100, 200];
    let mut b: Vec<i64> = vec![200, 100];
    a.sort();
    b.sort();
    assert_eq!(a, b);
}

#[test]
fn edge_scan_by_either_prefix_locates_the_edge() {
    let cat = catalog();
    let ins = bought_insertion(&cat);
    let planner = ins.make_planner(&source_map()).unwrap();
    let mut st = Snapshot::new();
    planner
        .process_row(&source_row(vec![iv(100), iv(200), iv(3)]), &mut st)
        .unwrap();

    // Feed the stored keys into an ordered relation and scan by both
    // direction prefixes.
    let mut rel = DerivedRelStore::new(DerivedRelStoreId(9), b"edges".to_vec(), 5);
    let fwd = StoreKey {
        tid: 22,
        cols: Tuple(vec![iv(20), iv(100), DataValue::Bool(true), iv(200)]),
    }
    .encode();
    let inv = StoreKey {
        tid: 22,
        cols: Tuple(vec![iv(21), iv(200), DataValue::Bool(true), iv(100)]),
    }
    .encode();
    assert!(st.get(&fwd).is_some());
    assert!(st.get(&inv).is_some());
    rel.put(tuple_clone(&fwd), 0);
    rel.put(tuple_clone(&inv), 0);

    let outgoing = rel.scan_prefix(&Tuple(vec![iv(22), iv(20), iv(100)]));
    assert_eq!(outgoing.len(), 1);
    assert!(tuple_eq(&outgoing[0], &fwd));
    let incoming = rel.scan_prefix(&Tuple(vec![iv(22), iv(21), iv(200)]));
    assert_eq!(incoming.len(), 1);
    assert!(tuple_eq(&incoming[0], &inv));
}

#[test]
fn binding_map_exposes_schema_positions() {
    let cat = catalog();
    let ins = bought_insertion(&cat);
    assert_eq!(ins.name(), "Insert");
    let bm = ins.binding_map();
    let b = b"b".to_vec();
    // Source keys sit after the leading table-id constant.
    assert_eq!(
        bm.resolve(&b, &b"uid".to_vec()),
        Some(TupleSetIdx { is_key: true, t_set: 0, col_idx: 1 })
    );
    // Destination keys follow the direction marker.
    assert_eq!(
        bm.resolve(&b, &b"item_id".to_vec()),
        Some(TupleSetIdx { is_key: true, t_set: 0, col_idx: 3 })
    );
    // The edge's own values are value columns of slot 0.
    assert_eq!(
        bm.resolve(&b, &b"qty".to_vec()),
        Some(TupleSetIdx { is_key: false, t_set: 0, col_idx: 0 })
    );
    assert_eq!(bm.resolve(&b, &b"nope".to_vec()), None);

    // A node target with an association exposes the association's value
    // columns under the next slot.
    let sd = ScopedDict {
        binding: b"p".to_vec(),
        keys: vec![],
        vals: vec![
            (b"id".to_vec(), var("r", "c0")),
            (b"name".to_vec(), var("r", "c1")),
            (b"nick".to_vec(), var("r", "c2")),
        ],
    };
    let insp = Insertion::build(
        &cat,
        Some((b"person".to_vec(), vec![b"extra".to_vec()])),
        Some(sd),
        true,
    )
    .unwrap();
    assert_eq!(insp.name(), "Upsert");
    let bmp = insp.binding_map();
    let p = b"p".to_vec();
    assert_eq!(
        bmp.resolve(&p, &b"id".to_vec()),
        Some(TupleSetIdx { is_key: true, t_set: 0, col_idx: 0 })
    );
    assert_eq!(
        bmp.resolve(&p, &b"name".to_vec()),
        Some(TupleSetIdx { is_key: false, t_set: 0, col_idx: 0 })
    );
    assert_eq!(
        bmp.resolve(&p, &b"nick".to_vec()),
        Some(TupleSetIdx { is_key: false, t_set: 1, col_idx: 0 })
    );
}

#[test]
fn apply_row_writes_nothing_on_conflict() {
    let cat = catalog();
    let ins = Insertion::build(&cat, person_args(), Some(person_dict()), false).unwrap();
    let planner = ins.make_planner(&source_map()).unwrap();
    let mut st = Snapshot::new();
    let en = planner.plan_row(&source_row(vec![iv(1), sv("ada")])).unwrap();
    apply_row(&en, false, &mut st).unwrap();
    let before = st.entry_count();
    let en2 = planner.plan_row(&source_row(vec![iv(1), sv("bob")])).unwrap();
    assert!(apply_row(&en2, false, &mut st).is_err());
    assert_eq!(st.entry_count(), before);
}

#[test]
fn build_succeeds_whenever_every_name_resolves() {
    // Construction is owed success when the table, its endpoint node
    // tables and every asked-for association resolve.
    let cat = catalog();
    assert!(Insertion::build(&cat, person_args(), Some(person_dict()), false).is_ok());
    let sd = ScopedDict {
        binding: b"p".to_vec(),
        keys: vec![],
        vals: vec![(b"id".to_vec(), var("r", "c0"))],
    };
    assert!(Insertion::build(
        &cat,
        Some((b"person".to_vec(), vec![b"extra".to_vec()])),
        Some(sd),
        true,
    )
    .is_ok());
}
