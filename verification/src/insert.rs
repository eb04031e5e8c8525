//! The insertion/upsert operator: a relational-algebra node that pulls
//! rows from an upstream source, builds storage keys and values from a
//! compiled extractor chain, detects conflicts (insert mode) or overwrites
//! blindly (upsert mode), writes through to a store, and re-emits a row
//! describing what was written.
//!
//! Construction, binding-map exposure and per-row planning are pure and
//! verified here; the caller drives the row loop and supplies the store.
//! Rows for non-root tables can be applied directly to the in-memory
//! ordered store; root-table writes go through the caller's transaction
//! handle, fed from the same planned entries.

use vstd::prelude::*;

use crate::error::Error;
use crate::snapshot::{entries_as_map, Snapshot};
use crate::table::{
    assoc_clone, assoc_selection, find_assoc, find_node, find_table, name_in, table_info_clone,
    table_tid, AssocInfo, AssocModel, Catalog, ColSchema, NodeInfo, TableId, TableInfo, TableModel,
};
use crate::tuple::{tuple_clone, Tuple};
use crate::tuple_set::{
    find_binding, find_col, fold_cols, lemma_fold_cols_snoc, ts_lookup, BindingCols, BindingMap,
    TupleSet, TupleSetIdx,
};
use crate::value::{val_clone, DataValue, ValModel};

verus! {

/// Operator names as the grammar spells them.
pub open spec fn spec_insert_name(upsert: bool) -> Seq<char> {
    if upsert {
        "Upsert"@
    } else {
        "Insert"@
    }
}

/// An extraction expression as the parser hands it over: a constant, or a
/// reference to a column of a named binding.
#[derive(Clone, Debug)]
pub enum Expr {
    Const(DataValue),
    Var(Vec<u8>, Vec<u8>),
}

/// Model of an extraction expression.
pub enum ExprModel {
    Const(ValModel),
    Var(Seq<u8>, Seq<u8>),
}

impl View for Expr {
    type V = ExprModel;

    open spec fn view(&self) -> ExprModel {
        match self {
            Expr::Const(v) => ExprModel::Const(v@),
            Expr::Var(b, c) => ExprModel::Var(b.deep_view(), c.deep_view()),
        }
    }
}

impl DeepView for Expr {
    type V = ExprModel;

    open spec fn deep_view(&self) -> ExprModel {
        self.view()
    }
}

/// A compiled extractor: a constant, or a fixed positional reference into
/// the resolved row.
#[derive(Clone, Debug)]
pub enum Extractor {
    Const(DataValue),
    Col(TupleSetIdx),
}

/// Model of a compiled extractor.
pub enum ExModel {
    Const(ValModel),
    Col(TupleSetIdx),
}

impl View for Extractor {
    type V = ExModel;

    open spec fn view(&self) -> ExModel {
        match self {
            Extractor::Const(v) => ExModel::Const(v@),
            Extractor::Col(i) => ExModel::Col(*i),
        }
    }
}

impl DeepView for Extractor {
    type V = ExModel;

    open spec fn deep_view(&self) -> ExModel {
        self.view()
    }
}

/// A parsed scoped dict: the binding name the operator introduces, the
/// keyed entries (which an insertion rejects), and the column extraction
/// entries.
pub struct ScopedDict {
    pub binding: Vec<u8>,
    pub keys: Vec<(Vec<u8>, Expr)>,
    pub vals: Vec<(Vec<u8>, Expr)>,
}

/// Resolution of one expression against the upstream binding map.
pub open spec fn resolve_expr(
    e: ExprModel,
    bm: Seq<(Seq<u8>, Seq<(Seq<u8>, TupleSetIdx)>)>,
) -> Option<ExModel> {
    match e {
        ExprModel::Const(v) => Some(ExModel::Const(v)),
        ExprModel::Var(b, c) => match find_binding(bm, b) {
            Some(cols) => match find_col(cols, c) {
                Some(idx) => Some(ExModel::Col(idx)),
                None => None,
            },
            None => None,
        },
    }
}

/// Resolution of a whole extraction dict; `None` if any entry fails.
pub open spec fn resolve_map(
    em: Seq<(Seq<u8>, ExprModel)>,
    bm: Seq<(Seq<u8>, Seq<(Seq<u8>, TupleSetIdx)>)>,
) -> Option<Seq<(Seq<u8>, ExModel)>>
    decreases em.len(),
{
    if em.len() == 0 {
        Some(Seq::empty())
    } else {
        match resolve_expr(em[0].1, bm) {
            Some(x) => match resolve_map(em.drop_first(), bm) {
                Some(rest) => Some(seq![(em[0].0, x)] + rest),
                None => None,
            },
            None => None,
        }
    }
}

/// First extractor registered under a column name in a resolved dict.
pub open spec fn find_ex(em: Seq<(Seq<u8>, ExModel)>, name: Seq<u8>) -> Option<ExModel>
    decreases em.len(),
{
    if em.len() == 0 {
        None
    } else if em[0].0 == name {
        Some(em[0].1)
    } else {
        find_ex(em.drop_first(), name)
    }
}

/// The extractor chain for a list of schema columns; `None` if any column
/// has no extractor in the resolved dict.
pub open spec fn chain_of(names: Seq<Seq<u8>>, em: Seq<(Seq<u8>, ExModel)>) -> Option<Seq<ExModel>>
    decreases names.len(),
{
    if names.len() == 0 {
        Some(Seq::empty())
    } else {
        match find_ex(em, names[0]) {
            Some(x) => match chain_of(names.drop_first(), em) {
                Some(rest) => Some(seq![x] + rest),
                None => None,
            },
            None => None,
        }
    }
}

/// The forward (or inverse) key chain of an edge: the first node table's
/// id constant, its key columns, the direction marker, the second node
/// table's key columns, then the edge's own key columns.
pub open spec fn edge_key_chain(
    first_id: TableId,
    first_keys: Seq<Seq<u8>>,
    second_keys: Seq<Seq<u8>>,
    edge_keys: Seq<Seq<u8>>,
    em: Seq<(Seq<u8>, ExModel)>,
) -> Option<Seq<ExModel>> {
    match (chain_of(first_keys, em), chain_of(second_keys, em), chain_of(edge_keys, em)) {
        (Some(a), Some(b), Some(c)) => Some(
            seq![ExModel::Const(ValModel::Int(first_id.id as int))] + a + seq![
                ExModel::Const(ValModel::Bool(true)),
            ] + b + c,
        ),
        _ => None,
    }
}

/// One evaluated extractor over a resolved row.
pub open spec fn eval_ex(
    x: ExModel,
    ts: (Seq<Seq<ValModel>>, Seq<Seq<ValModel>>),
) -> Option<ValModel> {
    match x {
        ExModel::Const(v) => Some(v),
        ExModel::Col(idx) => ts_lookup(ts, idx),
    }
}

/// A chain evaluated over a resolved row; `None` if any extractor fails.
pub open spec fn eval_chain(c: Seq<ExModel>, ts: (Seq<Seq<ValModel>>, Seq<Seq<ValModel>>)) -> Option<
    Seq<ValModel>,
>
    decreases c.len(),
{
    if c.len() == 0 {
        Some(Seq::empty())
    } else {
        match eval_ex(c[0], ts) {
            Some(v) => match eval_chain(c.drop_first(), ts) {
                Some(rest) => Some(seq![v] + rest),
                None => None,
            },
            None => None,
        }
    }
}

/// The binary encoding of a storage key: the table-id component first,
/// then the key columns.
pub open spec fn skey_enc(tid: u32, cols: Seq<ValModel>) -> Seq<ValModel> {
    seq![ValModel::Int(tid as int)] + cols
}

/// A storage key: the leading table-id component, kept apart so that
/// association writes can overwrite it, and the data columns.
#[derive(Clone, Debug)]
pub struct StoreKey {
    pub tid: u32,
    pub cols: Tuple,
}

impl StoreKey {
    /// The key as one byte-sortable tuple.
    pub fn encode(&self) -> (r: Tuple)
        ensures
            r@ == skey_enc(self.tid, self.cols@),
    {
        let mut v: Vec<DataValue> = Vec::new();
        v.push(DataValue::Int(self.tid as i64));
        let mut out = Tuple(v);
        proof {
            assert(out@ =~= seq![ValModel::Int(self.tid as int)]);
        }
        let r = crate::tuple::tuple_concat(&out, &self.cols);
        r
    }
}

/// The compiled per-row machinery of one insertion: the key, value and
/// inverse-key chains, the association value chains with their table ids,
/// and the target's identity.
pub struct RowPlanner {
    pub target: TableId,
    pub upsert: bool,
    pub key_chain: Vec<Extractor>,
    pub val_chain: Vec<Extractor>,
    pub inv_key_chain: Option<Vec<Extractor>>,
    pub assoc_chains: Vec<(TableId, Vec<Extractor>)>,
}

/// The writes one row produces: the primary key and value, the inverse
/// key for edges, and one value per bound association.
pub struct RowEntries {
    pub target: TableId,
    pub key: StoreKey,
    pub val: Tuple,
    pub inv_key: Option<StoreKey>,
    pub assocs: Vec<(TableId, Tuple)>,
}

/// All writes of a planned row, as encoded key/value pairs in write
/// order: primary, inverse (whose value is the primary key), then each
/// association under the primary key with its table-id component
/// overwritten.
pub open spec fn writes_of(
    tid: u32,
    key_cols: Seq<ValModel>,
    val: Seq<ValModel>,
    inv: Option<Seq<ValModel>>,
    assocs: Seq<(TableId, Seq<ValModel>)>,
) -> Seq<(Seq<ValModel>, Seq<ValModel>)> {
    let primary = seq![(skey_enc(tid, key_cols), val)];
    let with_inv = match inv {
        Some(ic) => primary + seq![(skey_enc(tid, ic), skey_enc(tid, key_cols))],
        None => primary,
    };
    with_inv + Seq::new(
        assocs.len(),
        |i: int| (skey_enc(assocs[i].0.id, key_cols), assocs[i].1),
    )
}

/// A sequence of writes applied to a key/value map, in order.
pub open spec fn put_all(
    m: Map<Seq<ValModel>, Seq<ValModel>>,
    ws: Seq<(Seq<ValModel>, Seq<ValModel>)>,
) -> Map<Seq<ValModel>, Seq<ValModel>>
    decreases ws.len(),
{
    if ws.len() == 0 {
        m
    } else {
        put_all(m.insert(ws[0].0, ws[0].1), ws.drop_first())
    }
}

/// Every written key is present after the writes are applied.
pub proof fn lemma_put_all_contains(
    m: Map<Seq<ValModel>, Seq<ValModel>>,
    ws: Seq<(Seq<ValModel>, Seq<ValModel>)>,
    k: Seq<ValModel>,
)
    requires
        m.dom().contains(k) || exists|i: int| 0 <= i < ws.len() && (#[trigger] ws[i]).0 == k,
    ensures
        put_all(m, ws).dom().contains(k),
    decreases ws.len(),
{
    if ws.len() > 0 {
        let m1 = m.insert(ws[0].0, ws[0].1);
        if m.dom().contains(k) || ws[0].0 == k {
            lemma_put_all_contains(m1, ws.drop_first(), k);
        } else {
            let i = choose|i: int| 0 <= i < ws.len() && (#[trigger] ws[i]).0 == k;
            assert(ws.drop_first()[i - 1].0 == k);
            lemma_put_all_contains(m1, ws.drop_first(), k);
        }
    }
}

/// Effect of applying one planned row in the given mode: `None` is the
/// insert-mode key conflict, otherwise the writes land in order.
pub open spec fn spec_apply_row(
    m: Map<Seq<ValModel>, Seq<ValModel>>,
    tid: u32,
    key_cols: Seq<ValModel>,
    val: Seq<ValModel>,
    inv: Option<Seq<ValModel>>,
    assocs: Seq<(TableId, Seq<ValModel>)>,
    upsert: bool,
) -> Option<Map<Seq<ValModel>, Seq<ValModel>>> {
    if !upsert && m.dom().contains(skey_enc(tid, key_cols)) {
        None
    } else {
        Some(put_all(m, writes_of(tid, key_cols, val, inv, assocs)))
    }
}

/// Insert-mode puts of one primary key conflict on repetition: a
/// successful insert of a row leaves its key present, so a second
/// insert-mode row with the same primary key fails with the conflict,
/// whatever else either row wrote. An upsert-mode row never conflicts,
/// and for a plain row (no inverse key, no associations) the second
/// value supersedes the first.
pub proof fn lemma_insert_conflict(
    m: Map<Seq<ValModel>, Seq<ValModel>>,
    tid: u32,
    key_cols: Seq<ValModel>,
    v1: Seq<ValModel>,
    v2: Seq<ValModel>,
    inv1: Option<Seq<ValModel>>,
    assocs1: Seq<(TableId, Seq<ValModel>)>,
)
    requires
        spec_apply_row(m, tid, key_cols, v1, inv1, assocs1, false) is Some,
    ensures
        ({
            let m1 = spec_apply_row(m, tid, key_cols, v1, inv1, assocs1, false)->0;
            &&& spec_apply_row(m1, tid, key_cols, v2, inv1, assocs1, false) is None
            &&& spec_apply_row(m1, tid, key_cols, v2, None, Seq::empty(), true) matches Some(m2)
                && m2[skey_enc(tid, key_cols)] == v2
        }),
{
    let k = skey_enc(tid, key_cols);
    let ws = writes_of(tid, key_cols, v1, inv1, assocs1);
    let m1 = put_all(m, ws);
    assert(ws[0].0 == k);
    lemma_put_all_contains(m, ws, k);
    let ws2 = writes_of(tid, key_cols, v2, None, Seq::empty());
    assert(ws2 =~= seq![(k, v2)]);
    let m2 = put_all(m1, ws2);
    assert(ws2.len() == 1);
    assert(ws2[0] == (k, v2));
    assert(ws2.drop_first() =~= Seq::<(Seq<ValModel>, Seq<ValModel>)>::empty());
    assert(m2 == put_all(m1.insert(k, v2), ws2.drop_first()));
    assert(put_all(m1.insert(k, v2), ws2.drop_first()) == m1.insert(k, v2));
    assert(m2[k] == v2);
}

/// Writes applied one after the other land as the concatenation does.
pub proof fn lemma_put_all_concat(
    m: Map<Seq<ValModel>, Seq<ValModel>>,
    a: Seq<(Seq<ValModel>, Seq<ValModel>)>,
    b: Seq<(Seq<ValModel>, Seq<ValModel>)>,
)
    ensures
        put_all(m, a + b) == put_all(put_all(m, a), b),
    decreases a.len(),
{
    if a.len() == 0 {
        assert(a + b =~= b);
    } else {
        assert((a + b)[0] == a[0]);
        assert((a + b).drop_first() =~= a.drop_first() + b);
        lemma_put_all_concat(m.insert(a[0].0, a[0].1), a.drop_first(), b);
    }
}

/// One more write lands as one more insert.
pub proof fn lemma_put_all_snoc(
    m: Map<Seq<ValModel>, Seq<ValModel>>,
    a: Seq<(Seq<ValModel>, Seq<ValModel>)>,
    w: (Seq<ValModel>, Seq<ValModel>),
)
    ensures
        put_all(m, a.push(w)) == put_all(m, a).insert(w.0, w.1),
    decreases a.len(),
{
    if a.len() == 0 {
        assert(a.push(w)[0] == w);
        assert(a.push(w).drop_first() =~= Seq::<(Seq<ValModel>, Seq<ValModel>)>::empty());
        assert(put_all(m, a.push(w)) == put_all(m.insert(w.0, w.1), a.push(w).drop_first()));
        assert(put_all(m.insert(w.0, w.1), a.push(w).drop_first()) == m.insert(w.0, w.1));
        assert(put_all(m, a) == m);
    } else {
        assert(a.push(w)[0] == a[0]);
        assert(a.push(w).drop_first() =~= a.drop_first().push(w));
        lemma_put_all_snoc(m.insert(a[0].0, a[0].1), a.drop_first(), w);
        assert(put_all(m, a.push(w)) == put_all(
            m.insert(a[0].0, a[0].1),
            a.push(w).drop_first(),
        ));
        assert(put_all(m, a) == put_all(m.insert(a[0].0, a[0].1), a.drop_first()));
    }
}

/// The real (non-marker, non-table-id) columns of an edge key whose first
/// node-key section has `first_len` columns: everything but the leading
/// table-id constant and the direction marker.
pub open spec fn real_cols(k: Seq<ValModel>, first_len: int) -> Seq<ValModel> {
    k.subrange(1, 1 + first_len) + k.subrange(2 + first_len, k.len() as int)
}

/// The forward and inverse keys of one edge row carry the same real
/// columns, as a permutation: source keys, destination keys and the
/// edge's own keys, in the two section orders.
pub proof fn lemma_edge_key_permutation(
    src_id: u32,
    dst_id: u32,
    s: Seq<ValModel>,
    d: Seq<ValModel>,
    e: Seq<ValModel>,
)
    ensures
        ({
            let fwd = seq![ValModel::Int(src_id as int)] + s + seq![ValModel::Bool(true)] + d + e;
            let inv = seq![ValModel::Int(dst_id as int)] + d + seq![ValModel::Bool(true)] + s + e;
            real_cols(fwd, s.len() as int).to_multiset() == real_cols(
                inv,
                d.len() as int,
            ).to_multiset()
        }),
{
    let fwd = seq![ValModel::Int(src_id as int)] + s + seq![ValModel::Bool(true)] + d + e;
    let inv = seq![ValModel::Int(dst_id as int)] + d + seq![ValModel::Bool(true)] + s + e;
    assert(real_cols(fwd, s.len() as int) =~= s + (d + e));
    assert(real_cols(inv, d.len() as int) =~= d + (s + e));
    let st = s.to_multiset();
    let dt = d.to_multiset();
    let et = e.to_multiset();
    vstd::seq_lib::lemma_multiset_commutative(s, d + e);
    vstd::seq_lib::lemma_multiset_commutative(d, s + e);
    vstd::seq_lib::lemma_multiset_commutative(d, e);
    vstd::seq_lib::lemma_multiset_commutative(s, e);
    assert(st.add(dt.add(et)) =~= dt.add(st.add(et)));
    assert((s + (d + e)).to_multiset() == st.add(dt.add(et)));
    assert((d + (s + e)).to_multiset() == dt.add(st.add(et)));
}


/// The binding registrations the operator's own binding map is built
/// from, in insertion order: a per-section rendering of the target
/// schema, then each association's value columns under the next slot.
pub open spec fn col_pairs(names: Seq<Seq<u8>>, is_key: bool, t_set: int, off: int) -> Seq<
    (Seq<u8>, TupleSetIdx),
> {
    Seq::new(
        names.len(),
        |i: int|
            (
                names[i],
                TupleSetIdx { is_key, t_set: t_set as usize, col_idx: (i + off) as usize },
            ),
    )
}

/// The registrations of the associations, one slot each, starting after
/// slot `iset`.
pub open spec fn assoc_pairs(assocs: Seq<AssocModel>, iset: int) -> Seq<(Seq<u8>, TupleSetIdx)>
    decreases assocs.len(),
{
    if assocs.len() == 0 {
        Seq::empty()
    } else {
        col_pairs(assocs[0].vals, false, iset + 1, 0) + assoc_pairs(assocs.drop_first(), iset + 1)
    }
}

/// The later registration of a name wins; over a concatenation the second
/// part is searched first.
pub proof fn lemma_fold_cols_concat(
    a: Seq<(Seq<u8>, TupleSetIdx)>,
    b: Seq<(Seq<u8>, TupleSetIdx)>,
    n: Seq<u8>,
)
    ensures
        fold_cols(a + b, n) == (match fold_cols(b, n) {
            Some(x) => Some(x),
            None => fold_cols(a, n),
        }),
    decreases b.len(),
{
    if b.len() == 0 {
        assert(a + b =~= a);
    } else {
        assert((a + b).last() == b.last());
        assert((a + b).drop_last() =~= a + b.drop_last());
        lemma_fold_cols_concat(a, b.drop_last(), n);
    }
}

/// Register one schema section into a scope: column `i` of the section
/// lands at `off + i` of the given slot and region.
#[verifier::loop_isolation(false)]
fn add_section(bm: &mut BindingCols, cols: &Vec<ColSchema>, is_key: bool, t_set: usize, off: usize)
    requires
        old(bm).wf(),
        off + cols@.len() <= usize::MAX,
    ensures
        final(bm).wf(),
        forall|n: Seq<u8>|
            #[trigger] find_col(final(bm)@, n) == (match fold_cols(
                col_pairs(cols.deep_view(), is_key, t_set as int, off as int),
                n,
            ) {
                Some(x) => Some(x),
                None => find_col(old(bm)@, n),
            }),
{
    let ghost cp = col_pairs(cols.deep_view(), is_key, t_set as int, off as int);
    let ghost b0 = old(bm)@;
    let m = cols.len();
    let mut i: usize = 0;
    proof {
        assert(cp.subrange(0, 0) =~= Seq::<(Seq<u8>, TupleSetIdx)>::empty());
    }
    while i < m
        invariant
            i <= m,
            bm.wf(),
            forall|n: Seq<u8>|
                #[trigger] find_col(bm@, n) == (match fold_cols(cp.subrange(0, i as int), n) {
                    Some(x) => Some(x),
                    None => find_col(b0, n),
                }),
        decreases m - i,
    {
        let name = crate::table::bytes_clone(&cols[i].name);
        let ghost nm = name@;
        let idx = TupleSetIdx { is_key, t_set, col_idx: off + i };
        proof {
            assert(cp[i as int] == (cols.deep_view()[i as int], idx));
            assert(nm =~= cols.deep_view()[i as int]);
        }
        bm.set_col(name, idx);
        proof {
            assert(cp.subrange(0, i as int + 1) =~= cp.subrange(0, i as int).push(cp[i as int]));
            assert forall|n: Seq<u8>|
                #[trigger] find_col(bm@, n) == (match fold_cols(cp.subrange(0, i as int + 1), n) {
                    Some(x) => Some(x),
                    None => find_col(b0, n),
                }) by {
                lemma_fold_cols_snoc(cp.subrange(0, i as int), nm, idx, n);
            }
        }
        i = i + 1;
    }
    proof {
        assert(cp.subrange(0, m as int) =~= cp);
    }
}

/// Whether every name an insertion's construction must resolve does
/// resolve: the target table, for an edge target its source and
/// destination node tables, and every asked-for association.
pub open spec fn build_resolvable(
    ts: Seq<TableModel>,
    asc: Seq<AssocModel>,
    tname: Seq<u8>,
    anames: Seq<Seq<u8>>,
) -> bool {
    match find_table(ts, tname) {
        None => false,
        Some(tm) => {
            &&& (tm matches TableModel::Edge(e) ==> find_node(ts, e.src_id) is Some && find_node(
                ts,
                e.dst_id,
            ) is Some)
            &&& (forall|i: int|
                0 <= i < anames.len() ==> find_assoc(asc, table_tid(tm), #[trigger] anames[i]) is Some)
        },
    }
}

/// Membership of a name among the asked-for association names.
fn name_in_exec(names: &Vec<Vec<u8>>, n: &Vec<u8>) -> (r: bool)
    ensures
        r <==> name_in(names.deep_view(), n.deep_view()),
{
    let ghost nd = names.deep_view();
    let mut i: usize = 0;
    while i < names.len()
        invariant
            i <= names.len(),
            nd == names.deep_view(),
            nd.len() == names.len(),
            forall|j: int| 0 <= j < i ==> (#[trigger] nd[j]) != n.deep_view(),
        decreases names.len() - i,
    {
        proof {
            assert(nd[i as int] =~= names@[i as int]@);
            assert(n.deep_view() =~= n@);
        }
        if matches!(crate::value::bytes_cmp(&names[i], n), crate::value::Cmp::Eq) {
            proof {
                assert(nd[i as int] == n.deep_view()) by {
                    assert(n.deep_view() =~= n@);
                }
            }
            return true;
        }
        i = i + 1;
    }
    false
}

/// The insertion/upsert operator, as built from its parsed arguments and
/// the catalog.
pub struct Insertion {
    pub binding: Vec<u8>,
    pub target_info: TableInfo,
    pub src_info: Option<NodeInfo>,
    pub dst_info: Option<NodeInfo>,
    pub assoc_infos: Vec<AssocInfo>,
    pub extract_map: Vec<(Vec<u8>, Expr)>,
    pub upsert: bool,
}

impl Insertion {
    /// An edge target carries its resolved source and destination node
    /// schemas; a node target carries none.
    pub open spec fn wf(self) -> bool {
        match self.target_info@ {
            TableModel::Node(_) => self.src_info is None && self.dst_info is None,
            TableModel::Edge(_) => self.src_info is Some && self.dst_info is Some,
        }
    }

    /// The schema is small enough for every column position to be a
    /// machine index.
    pub open spec fn schema_small(self) -> bool {
        match (self.target_info@, self.src_info, self.dst_info) {
            (TableModel::Node(n), _, _) => n.keys.len() <= usize::MAX && n.vals.len() <= usize::MAX,
            (TableModel::Edge(e), Some(s), Some(d)) => 2 + s@.keys.len() + d@.keys.len()
                + e.keys.len() <= usize::MAX && e.vals.len() <= usize::MAX,
            _ => true,
        }
    }

    /// The operator's display name.
    pub fn name(&self) -> (r: &'static str)
        ensures
            r@ == spec_insert_name(self.upsert),
    {
        if self.upsert {
            "Upsert"
        } else {
            "Insert"
        }
    }

    /// The schema this operator writes into, passed through for planners
    /// that track row identity.
    pub fn identity(&self) -> (r: Option<TableInfo>)
        ensures
            r matches Some(t) && t@ == self.target_info@,
    {
        Some(table_info_clone(&self.target_info))
    }

    /// Construct the operator: resolve the target table, its source and
    /// destination node schemas for edges, and the asked-for
    /// associations. Construction fails on missing arguments, on a keyed
    /// scoped dict, and on any unknown table or association name.
    #[verifier::loop_isolation(false)]
    pub fn build(
        catalog: &Catalog,
        table_with_assocs: Option<(Vec<u8>, Vec<Vec<u8>>)>,
        scoped: Option<ScopedDict>,
        upsert: bool,
    ) -> (r: Result<Insertion, Error>)
        ensures
            ({
                let ts = catalog.tables.deep_view();
                let asc = catalog.assocs.deep_view();
                match r {
                    Ok(ins) => {
                        &&& table_with_assocs matches Some(ta)
                        &&& scoped matches Some(sd)
                        &&& table_with_assocs matches Some(ta2) && sd.keys@.len() == 0 && ins.upsert
                            == upsert && ins.binding@ == sd.binding@ && ins.extract_map.deep_view()
                            == sd.vals.deep_view() && find_table(ts, ta2.0.deep_view()) == Some(
                            ins.target_info@,
                        ) && ins.wf() && ins.assoc_infos.deep_view() == assoc_selection(
                            asc,
                            table_tid(ins.target_info@),
                            ta2.1.deep_view(),
                        ) && (forall|i: int|
                            0 <= i < ta2.1.deep_view().len() ==> find_assoc(
                                asc,
                                table_tid(ins.target_info@),
                                #[trigger] ta2.1.deep_view()[i],
                            ) is Some) && (match ins.target_info@ {
                            TableModel::Node(_) => true,
                            TableModel::Edge(e) => (ins.src_info matches Some(s) && find_node(
                                ts,
                                e.src_id,
                            ) == Some(s@)) && (ins.dst_info matches Some(d) && find_node(
                                ts,
                                e.dst_id,
                            ) == Some(d@)),
                        })
                    },
                    Err(e) => {
                        if table_with_assocs is None || scoped is None {
                            e == Error::NotEnoughArguments
                        } else {
                            (table_with_assocs matches Some(ta) && scoped matches Some(sd) && (if sd.keys@.len()
                                != 0 {
                                e matches Error::Parse(_)
                            } else if find_table(ts, ta.0.deep_view()) is None {
                                e matches Error::TableNotFound(n) && n@ == ta.0@
                            } else {
                                (find_table(ts, ta.0.deep_view()) matches Some(tm) && (if (
                                tm matches TableModel::Edge(e2) && (find_node(ts, e2.src_id) is None
                                    || find_node(ts, e2.dst_id) is None)) {
                                    (e matches Error::TableNotFound(n) && n@ == ta.0@)
                                } else {
                                    // Only an asked-for association can
                                    // still be missing: the error names
                                    // the first one that does not resolve.
                                    (e matches Error::TableNotFound(n) && (exists|i: int|
                                        0 <= i < ta.1.deep_view().len() && find_assoc(
                                            asc,
                                            table_tid(tm),
                                            #[trigger] ta.1.deep_view()[i],
                                        ) is None && (forall|j: int|
                                            0 <= j < i ==> find_assoc(
                                                asc,
                                                table_tid(tm),
                                                #[trigger] ta.1.deep_view()[j],
                                            ) is Some) && n@ == ta.1.deep_view()[i]))
                                }))
                            }))
                        }
                    },
                }
            }),
            ((table_with_assocs matches Some(ta) && scoped matches Some(sd) && sd.keys@.len() == 0
                && build_resolvable(
                catalog.tables.deep_view(),
                catalog.assocs.deep_view(),
                ta.0.deep_view(),
                ta.1.deep_view(),
            )) ==> r is Ok),
    {
        let (tname, anames) = match table_with_assocs {
            Some(p) => p,
            None => {
                return Err(Error::NotEnoughArguments);
            },
        };
        let sd = match scoped {
            Some(s) => s,
            None => {
                return Err(Error::NotEnoughArguments);
            },
        };
        proof {
            assert(tname.deep_view() =~= tname@);
            assert(table_with_assocs == Some((tname, anames)));
            assert(table_with_assocs matches Some(ta) && ta.0 == tname && ta.1 == anames);
            assert(scoped == Some(sd));
        }
        if sd.keys.len() > 0 {
            // Insert writes brand-new rows; a keyed map would address
            // existing ones.
            return Err(Error::Parse(sd.binding));
        }
        let target = match catalog.resolve_table(&tname) {
            Some(t) => t,
            None => {
                return Err(Error::TableNotFound(tname));
            },
        };
        proof {
            assert(find_table(catalog.tables.deep_view(), tname.deep_view()) == Some(
                target@,
            ));
        }
        let tid = target.table_id();
        let (src_info, dst_info) = match &target {
            TableInfo::Node(_) => (None, None),
            TableInfo::Edge(ed) => {
                let s = match catalog.get_node_info(ed.src_id) {
                    Some(s) => s,
                    None => {
                        return Err(Error::TableNotFound(tname));
                    },
                };
                let d = match catalog.get_node_info(ed.dst_id) {
                    Some(d) => d,
                    None => {
                        return Err(Error::TableNotFound(tname));
                    },
                };
                (Some(s), Some(d))
            },
        };
        // Every asked-for association must exist for this table.
        let ghost and = anames.deep_view();
        let mut i: usize = 0;
        while i < anames.len()
            invariant
                i <= anames.len(),
                and == anames.deep_view(),
                and.len() == anames.len(),
                forall|j: int|
                    0 <= j < i ==> find_assoc(
                        catalog.assocs.deep_view(),
                        tid,
                        #[trigger] and[j],
                    ) is Some,
            decreases anames.len() - i,
        {
            proof {
                assert(and[i as int] =~= anames@[i as int]@);
            }
            match catalog.resolve_assoc(tid, &anames[i]) {
                Some(_) => {},
                None => {
                    return Err(Error::TableNotFound(crate::table::bytes_clone(&anames[i])));
                },
            }
            i = i + 1;
        }
        // Collect the matching associations in catalog declaration order.
        let ghost asc = catalog.assocs.deep_view();
        let mut assoc_infos: Vec<AssocInfo> = Vec::new();
        let mut i: usize = 0;
        proof {
            assert(asc.skip(0) =~= asc);
            assert(assoc_infos.deep_view() + assoc_selection(asc, tid, and) =~= assoc_selection(
                asc,
                tid,
                and,
            ));
        }
        while i < catalog.assocs.len()
            invariant
                i <= catalog.assocs.len(),
                asc == catalog.assocs.deep_view(),
                asc.len() == catalog.assocs.len(),
                and == anames.deep_view(),
                and.len() == anames.len(),
                assoc_infos.deep_view() + assoc_selection(asc.skip(i as int), tid, and)
                    =~= assoc_selection(asc, tid, and),
            decreases catalog.assocs.len() - i,
        {
            let ghost rest = asc.skip(i as int);
            proof {
                assert(rest[0] == asc[i as int]);
                assert(rest.drop_first() =~= asc.skip(i as int + 1));
            }
            let a = &catalog.assocs[i];
            let ghost pre = assoc_infos.deep_view();
            proof {
                assert(asc[i as int].name =~= a.name@);
            }
            if a.main_id.id == tid.id && a.main_id.in_root == tid.in_root && name_in_exec(
                &anames,
                &a.name,
            ) {
                proof {
                    assert(a.name.deep_view() =~= asc[i as int].name);
                    assert(asc[i as int].main_id == tid && name_in(and, asc[i as int].name));
                }
                assoc_infos.push(assoc_clone(a));
                proof {
                    assert(assoc_infos.deep_view() =~= pre.push(asc[i as int]));
                }
            } else {
                proof {
                    assert(!(asc[i as int].main_id == tid && name_in(and, asc[i as int].name)))
                        by {
                        assert(a.name.deep_view() =~= asc[i as int].name);
                    }
                }
            }
            proof {
                assert(assoc_infos.deep_view() + assoc_selection(asc.skip(i as int + 1), tid, and)
                    =~= assoc_selection(asc, tid, and));
            }
            i = i + 1;
        }
        proof {
            assert(asc.skip(asc.len() as int) =~= Seq::<AssocModel>::empty());
            assert(assoc_infos.deep_view() =~= assoc_selection(asc, tid, and));
        }
        Ok(
            Insertion {
                binding: sd.binding,
                target_info: target,
                src_info,
                dst_info,
                assoc_infos,
                extract_map: sd.vals,
                upsert,
            },
        )
    }
}



/// Taking one more association appends its section.
pub proof fn lemma_assoc_pairs_snoc(ad: Seq<AssocModel>, i: int, iset: int)
    requires
        0 <= i < ad.len(),
    ensures
        assoc_pairs(ad.take(i + 1), iset) == assoc_pairs(ad.take(i), iset) + col_pairs(
            ad[i].vals,
            false,
            iset + i + 1,
            0,
        ),
    decreases i,
{
    let t1 = ad.take(i + 1);
    let t0 = ad.take(i);
    if i == 0 {
        assert(t1[0] == ad[0]);
        assert(t1.drop_first() =~= Seq::<AssocModel>::empty());
        assert(t0 =~= Seq::<AssocModel>::empty());
        assert(assoc_pairs(t1.drop_first(), iset + 1) =~= Seq::<(Seq<u8>, TupleSetIdx)>::empty());
        assert(assoc_pairs(t1, iset) == col_pairs(t1[0].vals, false, iset + 1, 0) + assoc_pairs(
            t1.drop_first(),
            iset + 1,
        ));
        assert(assoc_pairs(t1, iset) =~= col_pairs(ad[0].vals, false, iset + 1, 0));
        assert(assoc_pairs(t0, iset) + col_pairs(ad[0].vals, false, iset + 1, 0) =~= col_pairs(
            ad[0].vals,
            false,
            iset + 1,
            0,
        ));
    } else {
        let d = ad.drop_first();
        assert(t1[0] == ad[0]);
        assert(t0[0] == ad[0]);
        assert(t1.drop_first() =~= d.take(i));
        assert(t0.drop_first() =~= d.take(i - 1));
        assert(d[i - 1] == ad[i]);
        lemma_assoc_pairs_snoc(d, i - 1, iset + 1);
        assert(assoc_pairs(t1, iset) == col_pairs(ad[0].vals, false, iset + 1, 0) + (assoc_pairs(
            d.take(i - 1),
            iset + 1,
        ) + col_pairs(ad[i].vals, false, iset + i + 1, 0)));
        assert(col_pairs(ad[0].vals, false, iset + 1, 0) + (assoc_pairs(d.take(i - 1), iset + 1)
            + col_pairs(ad[i].vals, false, iset + i + 1, 0)) =~= (col_pairs(
            ad[0].vals,
            false,
            iset + 1,
            0,
        ) + assoc_pairs(d.take(i - 1), iset + 1)) + col_pairs(ad[i].vals, false, iset + i + 1, 0));
    }
}

impl Insertion {
    /// The non-association registrations of the binding map: the target
    /// schema's own columns.
    pub open spec fn base_pairs(self) -> Seq<(Seq<u8>, TupleSetIdx)> {
        match (self.target_info@, self.src_info, self.dst_info) {
            (TableModel::Node(n), _, _) => col_pairs(n.keys, true, 0, 0) + col_pairs(
                n.vals,
                false,
                0,
                0,
            ),
            (TableModel::Edge(e), Some(s), Some(d)) => ((col_pairs(s@.keys, true, 0, 1)
                + col_pairs(d@.keys, true, 0, 2 + s@.keys.len() as int)) + col_pairs(
                e.keys,
                true,
                0,
                2 + s@.keys.len() as int + d@.keys.len() as int,
            )) + col_pairs(e.vals, false, 0, 0),
            _ => Seq::empty(),
        }
    }

    /// Build the operator's own column registrations: the target schema's
    /// key and value columns (node directly; edge with source keys,
    /// destination keys, then the edge's own keys, each offset past the
    /// leading constants), then each bound association's value columns
    /// under the next slot. Later registrations of a recurring name win.
    #[verifier::loop_isolation(false)]
    pub fn build_binding_map_inner(&self) -> (r: BindingCols)
        requires
            self.wf(),
            self.schema_small(),
        ensures
            r.wf(),
            forall|n: Seq<u8>|
                #[trigger] find_col(r@, n) == fold_cols(
                    self.base_pairs() + assoc_pairs(self.assoc_infos.deep_view(), 0),
                    n,
                ),
    {
        let mut bm = BindingCols::new();
        proof {
            assert(forall|n: Seq<u8>| #[trigger] find_col(bm@, n) is None);
        }
        match (&self.target_info, &self.src_info, &self.dst_info) {
            (TableInfo::Node(nd), _, _) => {
                let ghost cp1 = col_pairs(nd.keys.deep_view(), true, 0, 0);
                let ghost cp2 = col_pairs(nd.vals.deep_view(), false, 0, 0);
                add_section(&mut bm, &nd.keys, true, 0, 0);
                add_section(&mut bm, &nd.vals, false, 0, 0);
                proof {
                    assert forall|n: Seq<u8>| #[trigger]
                        find_col(bm@, n) == fold_cols(self.base_pairs(), n) by {
                        lemma_fold_cols_concat(cp1, cp2, n);
                    }
                }
            },
            (TableInfo::Edge(ed), Some(sn), Some(dn)) => {
                let ghost cp1 = col_pairs(sn.keys.deep_view(), true, 0, 1);
                let ghost cp2 = col_pairs(
                    dn.keys.deep_view(),
                    true,
                    0,
                    2 + sn.keys.deep_view().len() as int,
                );
                let ghost cp3 = col_pairs(
                    ed.keys.deep_view(),
                    true,
                    0,
                    2 + sn.keys.deep_view().len() as int + dn.keys.deep_view().len() as int,
                );
                let ghost cp4 = col_pairs(ed.vals.deep_view(), false, 0, 0);
                add_section(&mut bm, &sn.keys, true, 0, 1);
                add_section(&mut bm, &dn.keys, true, 0, 2 + sn.keys.len());
                add_section(&mut bm, &ed.keys, true, 0, 2 + sn.keys.len() + dn.keys.len());
                add_section(&mut bm, &ed.vals, false, 0, 0);
                proof {
                    assert forall|n: Seq<u8>| #[trigger]
                        find_col(bm@, n) == fold_cols(self.base_pairs(), n) by {
                        lemma_fold_cols_concat(cp1, cp2, n);
                        lemma_fold_cols_concat(cp1 + cp2, cp3, n);
                        lemma_fold_cols_concat((cp1 + cp2) + cp3, cp4, n);
                    }
                }
            },
            _ => {
                proof {
                    assert(false);
                }
            },
        }
        let ghost base = self.base_pairs();
        let ghost ad = self.assoc_infos.deep_view();
        let na = self.assoc_infos.len();
        let mut is: usize = 0;
        proof {
            assert(ad.take(0) =~= Seq::<AssocModel>::empty());
            assert forall|n: Seq<u8>| #[trigger]
                find_col(bm@, n) == fold_cols(base + assoc_pairs(ad.take(0), 0), n) by {
                assert(base + assoc_pairs(ad.take(0), 0) =~= base);
            }
        }
        while is < na
            invariant
                is <= na,
                bm.wf(),
                forall|n: Seq<u8>|
                    #[trigger] find_col(bm@, n) == fold_cols(
                        base + assoc_pairs(ad.take(is as int), 0),
                        n,
                    ),
            decreases na - is,
        {
            let ghost cp = col_pairs(ad[is as int].vals, false, is + 1, 0);
            proof {
                assert(ad[is as int].vals == self.assoc_infos@[is as int]@.vals);
            }
            let _section_len = self.assoc_infos[is].vals.len();
            add_section(&mut bm, &self.assoc_infos[is].vals, false, is + 1, 0);
            proof {
                lemma_assoc_pairs_snoc(ad, is as int, 0);
                assert forall|n: Seq<u8>| #[trigger]
                    find_col(bm@, n) == fold_cols(
                        base + assoc_pairs(ad.take(is as int + 1), 0),
                        n,
                    ) by {
                    lemma_fold_cols_concat(base + assoc_pairs(ad.take(is as int), 0), cp, n);
                    assert((base + assoc_pairs(ad.take(is as int), 0)) + cp =~= base + (assoc_pairs(
                        ad.take(is as int),
                        0,
                    ) + cp));
                }
            }
            is = is + 1;
        }
        proof {
            assert(ad.take(na as int) =~= ad);
        }
        bm
    }

    /// The operator's binding map: its output scope, exposing the target
    /// schema's columns and each association's value columns, computed
    /// independently of the runtime extraction dict.
    pub fn binding_map(&self) -> (r: BindingMap)
        requires
            self.wf(),
            self.schema_small(),
        ensures
            r@.len() == 1,
            r@[0].0 == self.binding.deep_view(),
            forall|n: Seq<u8>|
                #[trigger] find_col(r@[0].1, n) == fold_cols(
                    self.base_pairs() + assoc_pairs(self.assoc_infos.deep_view(), 0),
                    n,
                ),
    {
        let inner = self.build_binding_map_inner();
        let ghost iv = inner@;
        let mut r = BindingMap::new();
        r.push_binding(crate::table::bytes_clone(&self.binding), inner);
        proof {
            assert(r@[0].1 == iv);
        }
        r
    }
}

/// A copy of an extractor, equal in the model.
pub fn ex_clone(x: &Extractor) -> (r: Extractor)
    ensures
        r@ == x@,
{
    match x {
        Extractor::Const(v) => Extractor::Const(val_clone(v)),
        Extractor::Col(i) => Extractor::Col(*i),
    }
}

/// A copy of an extractor chain, equal in the model.
pub fn chain_clone(c: &Vec<Extractor>) -> (r: Vec<Extractor>)
    ensures
        r.deep_view() == c.deep_view(),
{
    let mut out: Vec<Extractor> = Vec::new();
    let mut i: usize = 0;
    while i < c.len()
        invariant
            i <= c.len(),
            out.deep_view() =~= c.deep_view().subrange(0, i as int),
        decreases c.len() - i,
    {
        let ghost pre = out.deep_view();
        out.push(ex_clone(&c[i]));
        proof {
            assert(out.deep_view() =~= pre.push(c.deep_view()[i as int]));
            assert(pre.push(c.deep_view()[i as int]) =~= c.deep_view().subrange(0, i as int + 1));
        }
        i = i + 1;
    }
    proof {
        assert(c.deep_view().subrange(0, c.deep_view().len() as int) =~= c.deep_view());
    }
    out
}

/// The extractor a resolved dict holds for a column name.
fn lookup_ex(em: &Vec<(Vec<u8>, Extractor)>, name: &Vec<u8>) -> (r: Option<Extractor>)
    ensures
        match r {
            Some(x) => find_ex(em.deep_view(), name.deep_view()) == Some(x@),
            None => find_ex(em.deep_view(), name.deep_view()) is None,
        },
{
    let ghost s = em.deep_view();
    let ghost nd = name.deep_view();
    let n = em.len();
    let mut i: usize = 0;
    proof {
        assert(s.skip(0) =~= s);
        assert(nd =~= name@);
    }
    while i < n
        invariant
            i <= n,
            s == em.deep_view(),
            nd == name.deep_view(),
            nd == name@,
            n == em.len(),
            n == s.len(),
            find_ex(s, nd) == find_ex(s.skip(i as int), nd),
        decreases n - i,
    {
        let ghost rest = s.skip(i as int);
        proof {
            assert(rest[0] == s[i as int]);
            assert(rest.drop_first() =~= s.skip(i as int + 1));
            assert(s[i as int].0 =~= em@[i as int].0@);
            assert(s[i as int].1 == em@[i as int].1@);
        }
        if matches!(crate::value::bytes_cmp(&em[i].0, name), crate::value::Cmp::Eq) {
            return Some(ex_clone(&em[i].1));
        }
        i = i + 1;
    }
    proof {
        assert(s.skip(n as int) =~= Seq::<(Seq<u8>, ExModel)>::empty());
    }
    None
}

/// The extractor chain for a list of schema columns; a column with no
/// extractor in the dict is a missing binding.
#[verifier::loop_isolation(false)]
fn build_chain(cols: &Vec<ColSchema>, em: &Vec<(Vec<u8>, Extractor)>) -> (r: Result<
    Vec<Extractor>,
    Error,
>)
    ensures
        match chain_of(cols.deep_view(), em.deep_view()) {
            Some(c) => (r matches Ok(v) && v.deep_view() == c),
            None => (r matches Err(e) && e is Parse),
        },
{
    let ghost names = cols.deep_view();
    let ghost emv = em.deep_view();
    let mut out: Vec<Extractor> = Vec::new();
    let n = cols.len();
    let mut i: usize = 0;
    proof {
        assert(names.skip(0) =~= names);
    }
    while i < n
        invariant
            i <= n,
            (match chain_of(names.skip(i as int), emv) {
                Some(c) => chain_of(names, emv) == Some(out.deep_view() + c),
                None => chain_of(names, emv) is None,
            }),
        decreases n - i,
    {
        let ghost rest = names.skip(i as int);
        proof {
            assert(rest[0] == names[i as int]);
            assert(rest.drop_first() =~= names.skip(i as int + 1));
            assert(names[i as int] =~= cols@[i as int].name@);
        }
        let ghost pre = out.deep_view();
        match lookup_ex(em, &cols[i].name) {
            Some(x) => {
                out.push(x);
                proof {
                    assert(out.deep_view() =~= pre.push(x@));
                    if chain_of(names.skip(i as int + 1), emv) is Some {
                        let c2 = chain_of(names.skip(i as int + 1), emv)->0;
                        assert(chain_of(rest, emv) == Some(seq![x@] + c2));
                        assert(pre + (seq![x@] + c2) =~= (pre.push(x@)) + c2);
                    }
                }
            },
            None => {
                return Err(Error::Parse(crate::table::bytes_clone(&cols[i].name)));
            },
        }
        i = i + 1;
    }
    proof {
        assert(names.skip(n as int) =~= Seq::<Seq<u8>>::empty());
        assert(out.deep_view() + Seq::<ExModel>::empty() =~= out.deep_view());
    }
    Ok(out)
}

/// One resolved (table id, value chain) pair per bound association.
pub open spec fn assoc_chains_of(
    assocs: Seq<AssocModel>,
    em: Seq<(Seq<u8>, ExModel)>,
) -> Option<Seq<(TableId, Seq<ExModel>)>>
    decreases assocs.len(),
{
    if assocs.len() == 0 {
        Some(Seq::empty())
    } else {
        match chain_of(assocs[0].vals, em) {
            Some(c) => match assoc_chains_of(assocs.drop_first(), em) {
                Some(rest) => Some(seq![(assocs[0].tid, c)] + rest),
                None => None,
            },
            None => None,
        }
    }
}

/// The evaluated association values of one row.
pub open spec fn eval_assoc_chains(
    chains: Seq<(TableId, Seq<ExModel>)>,
    ts: (Seq<Seq<ValModel>>, Seq<Seq<ValModel>>),
) -> Option<Seq<(TableId, Seq<ValModel>)>>
    decreases chains.len(),
{
    if chains.len() == 0 {
        Some(Seq::empty())
    } else {
        match eval_chain(chains[0].1, ts) {
            Some(v) => match eval_assoc_chains(chains.drop_first(), ts) {
                Some(rest) => Some(seq![(chains[0].0, v)] + rest),
                None => None,
            },
            None => None,
        }
    }
}


/// Evaluate one extractor chain over a row into a tuple.
#[verifier::loop_isolation(false)]
pub fn eval_to_tuple(chain: &Vec<Extractor>, row: &TupleSet) -> (r: Result<Tuple, Error>)
    ensures
        eval_chain(chain.deep_view(), row@) is Some ==> (r matches Ok(t) && t@ == eval_chain(
            chain.deep_view(),
            row@,
        )->0),
        eval_chain(chain.deep_view(), row@) is None ==> (r matches Err(e) && e is Eval),
{
    let ghost cm = chain.deep_view();
    let mut out: Vec<DataValue> = Vec::new();
    let n = chain.len();
    let mut i: usize = 0;
    proof {
        assert(cm.skip(0) =~= cm);
    }
    while i < n
        invariant
            i <= n,
            (match eval_chain(cm.skip(i as int), row@) {
                Some(vs) => eval_chain(cm, row@) == Some(out.deep_view() + vs),
                None => eval_chain(cm, row@) is None,
            }),
        decreases n - i,
    {
        let ghost rest = cm.skip(i as int);
        proof {
            assert(rest[0] == cm[i as int]);
            assert(rest.drop_first() =~= cm.skip(i as int + 1));
        }
        let ghost pre = out.deep_view();
        let got = match &chain[i] {
            Extractor::Const(c) => Ok(val_clone(c)),
            Extractor::Col(idx) => row.get(idx),
        };
        match got {
            Ok(v) => {
                proof {
                    assert(eval_ex(cm[i as int], row@) == Some(v@));
                }
                out.push(v);
                proof {
                    if eval_chain(cm.skip(i as int + 1), row@) is Some {
                        let c2 = eval_chain(cm.skip(i as int + 1), row@)->0;
                        assert(pre + (seq![out.deep_view().last()] + c2) =~= out.deep_view() + c2);
                    }
                }
            },
            Err(e) => {
                proof {
                    assert(eval_ex(cm[i as int], row@) is None);
                }
                return Err(e);
            },
        }
        i = i + 1;
    }
    proof {
        assert(cm.skip(n as int) =~= Seq::<ExModel>::empty());
        assert(out.deep_view() + Seq::<ValModel>::empty() =~= out.deep_view());
    }
    Ok(Tuple(out))
}

/// The three extractor chains of one target: key builder, value builder,
/// and (edge targets only) the inverse key builder.
pub struct KeyBuilderSet {
    pub key: Vec<Extractor>,
    pub val: Vec<Extractor>,
    pub inv_key: Option<Vec<Extractor>>,
}

/// Assemble one edge key chain: the node table id constant, the first
/// node's key extractors, the direction marker, the second node's key
/// extractors, then the edge's own key extractors.
fn assemble_edge_key(
    id: u32,
    first: &Vec<Extractor>,
    second: &Vec<Extractor>,
    ekeys: &Vec<Extractor>,
) -> (r: Vec<Extractor>)
    ensures
        r.deep_view() == seq![ExModel::Const(ValModel::Int(id as int))] + first.deep_view() + seq![
            ExModel::Const(ValModel::Bool(true)),
        ] + second.deep_view() + ekeys.deep_view(),
{
    let mut out: Vec<Extractor> = Vec::new();
    out.push(Extractor::Const(DataValue::Int(id as i64)));
    let mut f = chain_clone(first);
    out.append(&mut f);
    out.push(Extractor::Const(DataValue::Bool(true)));
    let mut sx = chain_clone(second);
    out.append(&mut sx);
    let mut ex = chain_clone(ekeys);
    out.append(&mut ex);
    proof {
        assert(out.deep_view() =~= seq![ExModel::Const(ValModel::Int(id as int))]
            + first.deep_view() + seq![ExModel::Const(ValModel::Bool(true))] + second.deep_view()
            + ekeys.deep_view());
    }
    out
}

impl Insertion {
    /// Translate the target schema plus the resolved extraction dict into
    /// the key, value and (edges) inverse-key extractor chains. A column
    /// with no extractor is a missing binding.
    pub fn make_key_builders(&self, extract_map: &Vec<(Vec<u8>, Extractor)>) -> (r: Result<
        KeyBuilderSet,
        Error,
    >)
        requires
            self.wf(),
        ensures
            ({
                let em = extract_map.deep_view();
                match self.target_info@ {
                    TableModel::Node(n) => match (chain_of(n.keys, em), chain_of(n.vals, em)) {
                        (Some(k), Some(v)) => (r matches Ok(kb) && kb.key.deep_view() == k
                            && kb.val.deep_view() == v && kb.inv_key is None),
                        _ => (r matches Err(e) && e is Parse),
                    },
                    TableModel::Edge(e) => {
                        let s = self.src_info->0@;
                        let d = self.dst_info->0@;
                        match (
                            edge_key_chain(e.src_id, s.keys, d.keys, e.keys, em),
                            edge_key_chain(e.dst_id, d.keys, s.keys, e.keys, em),
                            chain_of(e.vals, em),
                        ) {
                            (Some(kf), Some(kb_), Some(v)) => (r matches Ok(kb) && kb.key.deep_view()
                                == kf && kb.val.deep_view() == v && (kb.inv_key matches Some(ic)
                                && ic.deep_view() == kb_)),
                            _ => (r matches Err(e2) && e2 is Parse),
                        }
                    },
                }
            }),
    {
        match (&self.target_info, &self.src_info, &self.dst_info) {
            (TableInfo::Node(nd), _, _) => {
                let k = match build_chain(&nd.keys, extract_map) {
                    Ok(k) => k,
                    Err(e) => {
                        return Err(e);
                    },
                };
                let v = match build_chain(&nd.vals, extract_map) {
                    Ok(v) => v,
                    Err(e) => {
                        return Err(e);
                    },
                };
                Ok(KeyBuilderSet { key: k, val: v, inv_key: None })
            },
            (TableInfo::Edge(ed), Some(sn), Some(dn)) => {
                let sk = match build_chain(&sn.keys, extract_map) {
                    Ok(c) => c,
                    Err(e) => {
                        return Err(e);
                    },
                };
                let dk = match build_chain(&dn.keys, extract_map) {
                    Ok(c) => c,
                    Err(e) => {
                        return Err(e);
                    },
                };
                let ek = match build_chain(&ed.keys, extract_map) {
                    Ok(c) => c,
                    Err(e) => {
                        return Err(e);
                    },
                };
                let ev = match build_chain(&ed.vals, extract_map) {
                    Ok(c) => c,
                    Err(e) => {
                        return Err(e);
                    },
                };
                let fwd = assemble_edge_key(ed.src_id.id, &sk, &dk, &ek);
                let inv = assemble_edge_key(ed.dst_id.id, &dk, &sk, &ek);
                Ok(KeyBuilderSet { key: fwd, val: ev, inv_key: Some(inv) })
            },
            _ => {
                proof {
                    assert(false);
                }
                Err(Error::NotEnoughArguments)
            },
        }
    }

    /// Partially evaluate the raw extraction dict against the upstream
    /// binding map, turning every variable reference into a fixed
    /// positional reference. An unresolved variable is a parse error.
    #[verifier::loop_isolation(false)]
    pub fn resolve_extract_map(&self, source_map: &BindingMap) -> (r: Result<
        Vec<(Vec<u8>, Extractor)>,
        Error,
    >)
        ensures
            ({
                let outcome = resolve_map(self.extract_map.deep_view(), source_map@);
                match outcome {
                    Some(rm) => (r matches Ok(v) && v.deep_view() == rm),
                    None => (r matches Err(e) && e is Parse),
                }
            }),
    {
        let ghost emv = self.extract_map.deep_view();
        let ghost bmv = source_map@;
        let mut out: Vec<(Vec<u8>, Extractor)> = Vec::new();
        let n = self.extract_map.len();
        let mut i: usize = 0;
        proof {
            assert(emv.skip(0) =~= emv);
        }
        while i < n
            invariant
                i <= n,
                (match resolve_map(emv.skip(i as int), bmv) {
                    Some(rm) => resolve_map(emv, bmv) == Some(out.deep_view() + rm),
                    None => resolve_map(emv, bmv) is None,
                }),
            decreases n - i,
        {
            let ghost rest = emv.skip(i as int);
            proof {
                assert(rest[0] == emv[i as int]);
                assert(rest.drop_first() =~= emv.skip(i as int + 1));
                assert(emv[i as int].0 =~= self.extract_map@[i as int].0@);
                assert(emv[i as int].1 == self.extract_map@[i as int].1@);
            }
            let ghost pre = out.deep_view();
            let entry = &self.extract_map[i];
            let resolved = match &entry.1 {
                Expr::Const(v) => Extractor::Const(val_clone(v)),
                Expr::Var(b, c) => {
                    match source_map.resolve(b, c) {
                        Some(idx) => {
                            proof {
                                assert(b.deep_view() =~= b@);
                                assert(c.deep_view() =~= c@);
                            }
                            Extractor::Col(idx)
                        },
                        None => {
                            proof {
                                assert(b.deep_view() =~= b@);
                                assert(c.deep_view() =~= c@);
                                assert(resolve_expr(emv[i as int].1, bmv) is None);
                            }
                            return Err(Error::Parse(crate::table::bytes_clone(b)));
                        },
                    }
                },
            };
            proof {
                assert(resolve_expr(emv[i as int].1, bmv) == Some(resolved@));
            }
            out.push((crate::table::bytes_clone(&entry.0), resolved));
            proof {
                assert(out.deep_view() =~= pre.push((emv[i as int].0, resolved@)));
                if resolve_map(emv.skip(i as int + 1), bmv) is Some {
                    let r2 = resolve_map(emv.skip(i as int + 1), bmv)->0;
                    assert(pre + (seq![(emv[i as int].0, resolved@)] + r2) =~= out.deep_view()
                        + r2);
                }
            }
            i = i + 1;
        }
        proof {
            assert(emv.skip(n as int) =~= Seq::<(Seq<u8>, ExprModel)>::empty());
            assert(out.deep_view() + Seq::<(Seq<u8>, ExModel)>::empty() =~= out.deep_view());
        }
        Ok(out)
    }

    /// Compile the per-row machinery: resolve the extraction dict, build
    /// the key/value/inverse chains and one value chain per bound
    /// association.
    #[verifier::loop_isolation(false)]
    pub fn make_planner(&self, source_map: &BindingMap) -> (r: Result<RowPlanner, Error>)
        requires
            self.wf(),
        ensures
            ({
                let outcome = resolve_map(self.extract_map.deep_view(), source_map@);
                match outcome {
                    None => (r matches Err(e) && e is Parse),
                    Some(em) => (match self.target_info@ {
                        TableModel::Node(n) => match (
                            chain_of(n.keys, em),
                            chain_of(n.vals, em),
                            assoc_chains_of(self.assoc_infos.deep_view(), em),
                        ) {
                            (Some(k), Some(v), Some(ac)) => (r matches Ok(p) && p.target
                                == table_tid(self.target_info@) && p.upsert == self.upsert
                                && p.key_chain.deep_view() == k && p.val_chain.deep_view() == v
                                && p.inv_key_chain is None && p.assoc_chains.deep_view() == ac),
                            _ => (r matches Err(e) && e is Parse),
                        },
                        TableModel::Edge(e) => {
                            let s = self.src_info->0@;
                            let d = self.dst_info->0@;
                            match (
                                edge_key_chain(e.src_id, s.keys, d.keys, e.keys, em),
                                edge_key_chain(e.dst_id, d.keys, s.keys, e.keys, em),
                                chain_of(e.vals, em),
                                assoc_chains_of(self.assoc_infos.deep_view(), em),
                            ) {
                                (Some(kf), Some(kb_), Some(v), Some(ac)) => (r matches Ok(p)
                                    && p.target == table_tid(self.target_info@) && p.upsert
                                    == self.upsert && p.key_chain.deep_view() == kf
                                    && p.val_chain.deep_view() == v && (p.inv_key_chain matches
                                Some(ic) && ic.deep_view() == kb_) && p.assoc_chains.deep_view()
                                    == ac),
                                _ => (r matches Err(e2) && e2 is Parse),
                            }
                        },
                    }),
                }
            }),
    {
        let em = match self.resolve_extract_map(source_map) {
            Ok(em) => em,
            Err(e) => {
                return Err(e);
            },
        };
        let kb = match self.make_key_builders(&em) {
            Ok(kb) => kb,
            Err(e) => {
                return Err(e);
            },
        };
        let ghost emv = em.deep_view();
        let ghost ad = self.assoc_infos.deep_view();
        let mut assoc_chains: Vec<(TableId, Vec<Extractor>)> = Vec::new();
        let n = self.assoc_infos.len();
        let mut i: usize = 0;
        proof {
            assert(ad.skip(0) =~= ad);
        }
        while i < n
            invariant
                i <= n,
                (match assoc_chains_of(ad.skip(i as int), emv) {
                    Some(ac) => assoc_chains_of(ad, emv) == Some(assoc_chains.deep_view() + ac),
                    None => assoc_chains_of(ad, emv) is None,
                }),
            decreases n - i,
        {
            let ghost rest = ad.skip(i as int);
            proof {
                assert(rest[0] == ad[i as int]);
                assert(rest.drop_first() =~= ad.skip(i as int + 1));
                assert(ad[i as int].vals == self.assoc_infos@[i as int]@.vals);
            }
            let ghost pre = assoc_chains.deep_view();
            let a = &self.assoc_infos[i];
            match build_chain(&a.vals, &em) {
                Ok(c) => {
                    let ghost cm = c.deep_view();
                    assoc_chains.push((a.tid, c));
                    proof {
                        assert(assoc_chains.deep_view() =~= pre.push((ad[i as int].tid, cm)));
                        if assoc_chains_of(ad.skip(i as int + 1), emv) is Some {
                            let r2 = assoc_chains_of(ad.skip(i as int + 1), emv)->0;
                            assert(pre + (seq![(ad[i as int].tid, cm)] + r2)
                                =~= assoc_chains.deep_view() + r2);
                        }
                    }
                },
                Err(e) => {
                    return Err(e);
                },
            }
            i = i + 1;
        }
        proof {
            assert(ad.skip(n as int) =~= Seq::<AssocModel>::empty());
            assert(assoc_chains.deep_view() + Seq::<(TableId, Seq<ExModel>)>::empty()
                =~= assoc_chains.deep_view());
        }
        Ok(
            RowPlanner {
                target: self.target_info.table_id(),
                upsert: self.upsert,
                key_chain: kb.key,
                val_chain: kb.val,
                inv_key_chain: kb.inv_key,
                assoc_chains,
            },
        )
    }
}

impl RowPlanner {
    /// The inverse-key evaluation of one row: absent for node targets,
    /// otherwise the evaluated inverse columns, or an error.
    pub open spec fn inv_eval(
        self,
        ts: (Seq<Seq<ValModel>>, Seq<Seq<ValModel>>),
    ) -> Option<Option<Seq<ValModel>>> {
        match self.inv_key_chain {
            None => Some(None),
            Some(c) => match eval_chain(c.deep_view(), ts) {
                Some(v) => Some(Some(v)),
                None => None,
            },
        }
    }

    /// Evaluate one upstream row into its planned writes: the primary key
    /// and value, the inverse key for edges, and each association's
    /// value. A missing or out-of-range binding is an evaluation error
    /// and plans nothing.
    #[verifier::loop_isolation(false)]
    pub fn plan_row(&self, row: &TupleSet) -> (r: Result<RowEntries, Error>)
        ensures
            ({
                let kc = eval_chain(self.key_chain.deep_view(), row@);
                let vv = eval_chain(self.val_chain.deep_view(), row@);
                let iv = self.inv_eval(row@);
                let av = eval_assoc_chains(self.assoc_chains.deep_view(), row@);
                if kc is None || vv is None || iv is None || av is None {
                    (r matches Err(e) && e is Eval)
                } else {
                    (r matches Ok(en) && en.target == self.target && en.key.tid == self.target.id
                        && en.key.cols@ == kc->0 && en.val@ == vv->0 && (match iv->0 {
                        Some(ic) => (en.inv_key matches Some(k) && k.tid == self.target.id
                            && k.cols@ == ic),
                        None => en.inv_key is None,
                    }) && en.assocs.deep_view() == av->0)
                }
            }),
    {
        let key_t = match eval_to_tuple(&self.key_chain, row) {
            Ok(t) => t,
            Err(e) => {
                return Err(e);
            },
        };
        let val_t = match eval_to_tuple(&self.val_chain, row) {
            Ok(t) => t,
            Err(e) => {
                return Err(e);
            },
        };
        let inv_key = match &self.inv_key_chain {
            None => None,
            Some(c) => {
                match eval_to_tuple(c, row) {
                    Ok(t) => Some(StoreKey { tid: self.target.id, cols: t }),
                    Err(e) => {
                        return Err(e);
                    },
                }
            },
        };
        let ghost acm = self.assoc_chains.deep_view();
        let mut assocs: Vec<(TableId, Tuple)> = Vec::new();
        let n = self.assoc_chains.len();
        let mut i: usize = 0;
        proof {
            assert(acm.skip(0) =~= acm);
        }
        while i < n
            invariant
                i <= n,
                (match eval_assoc_chains(acm.skip(i as int), row@) {
                    Some(av) => eval_assoc_chains(acm, row@) == Some(assocs.deep_view() + av),
                    None => eval_assoc_chains(acm, row@) is None,
                }),
            decreases n - i,
        {
            let ghost rest = acm.skip(i as int);
            proof {
                assert(rest[0] == acm[i as int]);
                assert(rest.drop_first() =~= acm.skip(i as int + 1));
                assert(acm[i as int].1 == self.assoc_chains@[i as int].1.deep_view());
            }
            let ghost pre = assocs.deep_view();
            let pair = &self.assoc_chains[i];
            match eval_to_tuple(&pair.1, row) {
                Ok(t) => {
                    let ghost tm = t@;
                    assocs.push((pair.0, t));
                    proof {
                        assert(assocs.deep_view() =~= pre.push((acm[i as int].0, tm)));
                        if eval_assoc_chains(acm.skip(i as int + 1), row@) is Some {
                            let r2 = eval_assoc_chains(acm.skip(i as int + 1), row@)->0;
                            assert(pre + (seq![(acm[i as int].0, tm)] + r2) =~= assocs.deep_view()
                                + r2);
                        }
                    }
                },
                Err(e) => {
                    return Err(e);
                },
            }
            i = i + 1;
        }
        proof {
            assert(acm.skip(n as int) =~= Seq::<(TableId, Seq<ExModel>)>::empty());
            assert(assocs.deep_view() + Seq::<(TableId, Seq<ValModel>)>::empty()
                =~= assocs.deep_view());
        }
        Ok(
            RowEntries {
                target: self.target,
                key: StoreKey { tid: self.target.id, cols: key_t },
                val: val_t,
                inv_key,
                assocs,
            },
        )
    }
}

/// The inverse-key columns of planned entries, as the write model reads
/// them.
pub open spec fn entries_inv(en: RowEntries) -> Option<Seq<ValModel>> {
    match en.inv_key {
        Some(k) => Some(k.cols@),
        None => None,
    }
}

/// Apply one planned row to the in-memory ordered store: probe for a
/// conflict in insert mode, then write the primary pair, the inverse pair
/// for edges, and each association's pair under the overwritten table-id
/// component. On a conflict nothing is written.
#[verifier::loop_isolation(false)]
pub fn apply_row(en: &RowEntries, upsert: bool, store: &mut Snapshot) -> (r: Result<(), Error>)
    requires
        old(store).wf(),
        en.inv_key matches Some(k) ==> k.tid == en.key.tid,
    ensures
        final(store).wf(),
        ({
            let m = entries_as_map(old(store)@);
            let outcome = spec_apply_row(
                m,
                en.key.tid,
                en.key.cols@,
                en.val@,
                entries_inv(*en),
                en.assocs.deep_view(),
                upsert,
            );
            match outcome {
                None => (r matches Err(e) && (e matches Error::KeyConflict(t) && t@ == skey_enc(
                    en.key.tid,
                    en.key.cols@,
                )) && final(store)@ == old(store)@),
                Some(m2) => r == Ok::<(), Error>(()) && entries_as_map(final(store)@) == m2,
            }
        }),
{
    let ghost m = entries_as_map(store@);
    let ghost ws = writes_of(
        en.key.tid,
        en.key.cols@,
        en.val@,
        entries_inv(*en),
        en.assocs.deep_view(),
    );
    let enc = en.key.encode();
    if !upsert && store.contains_key(&enc) {
        return Err(Error::KeyConflict(enc));
    }
    let ghost base_len: int = if en.inv_key is Some {
        2
    } else {
        1
    };
    proof {
        assert(ws.len() == base_len + en.assocs.deep_view().len());
        assert(ws[0] == (skey_enc(en.key.tid, en.key.cols@), en.val@));
        assert(ws.take(0) =~= Seq::<(Seq<ValModel>, Seq<ValModel>)>::empty());
        assert(put_all(m, ws.take(0)) == m);
    }
    store.insert(enc, tuple_clone(&en.val));
    proof {
        assert(ws.take(1) =~= ws.take(0).push(ws[0]));
        lemma_put_all_snoc(m, ws.take(0), ws[0]);
        assert(entries_as_map(store@) == put_all(m, ws.take(1)));
    }
    let mut done: usize = 1;
    match &en.inv_key {
        Some(ik) => {
            proof {
                assert(ws[1] == (skey_enc(ik.tid, ik.cols@), skey_enc(en.key.tid, en.key.cols@)));
            }
            store.insert(ik.encode(), en.key.encode());
            proof {
                assert(ws.take(2) =~= ws.take(1).push(ws[1]));
                lemma_put_all_snoc(m, ws.take(1), ws[1]);
                assert(entries_as_map(store@) == put_all(m, ws.take(2)));
            }
            done = 2;
        },
        None => {},
    }
    let n = en.assocs.len();
    let mut i: usize = 0;
    while i < n
        invariant
            i <= n,
            store.wf(),
            done == base_len,
            entries_as_map(store@) == put_all(m, ws.take(base_len + i)),
        decreases n - i,
    {
        let a = &en.assocs[i];
        let ak = StoreKey { tid: a.0.id, cols: tuple_clone(&en.key.cols) };
        proof {
            assert(en.assocs.deep_view()[i as int] == (a.0, a.1@));
            assert(ws[base_len + i] == (
                skey_enc(en.assocs.deep_view()[i as int].0.id, en.key.cols@),
                en.assocs.deep_view()[i as int].1,
            ));
        }
        store.insert(ak.encode(), tuple_clone(&a.1));
        proof {
            assert(ws.take(base_len + i + 1) =~= ws.take(base_len + i).push(ws[base_len + i]));
            lemma_put_all_snoc(m, ws.take(base_len + i), ws[base_len + i]);
        }
        i = i + 1;
    }
    proof {
        assert(ws.take(ws.len() as int) =~= ws);
    }
    Ok(())
}

/// The emitted row of one applied insertion: slot 0 holds the primary key
/// and value, the later slots each association's value, in declaration
/// order.
#[verifier::loop_isolation(false)]
pub fn output_row(en: &RowEntries) -> (r: TupleSet)
    ensures
        r@.0 == seq![en.key.cols@],
        r@.1 == seq![en.val@] + en.assocs.deep_view().map_values(
            |p: (TableId, Seq<ValModel>)| p.1,
        ),
{
    let ghost avals = en.assocs.deep_view().map_values(|p: (TableId, Seq<ValModel>)| p.1);
    let mut ts = TupleSet::new();
    ts.push_key(tuple_clone(&en.key.cols));
    ts.push_val(tuple_clone(&en.val));
    proof {
        assert(ts@.0 =~= seq![en.key.cols@]);
        assert(ts@.1 =~= seq![en.val@] + avals.take(0));
    }
    let n = en.assocs.len();
    let mut i: usize = 0;
    while i < n
        invariant
            i <= n,
            ts@.0 == seq![en.key.cols@],
            ts@.1 =~= seq![en.val@] + avals.take(i as int),
        decreases n - i,
    {
        proof {
            assert(avals[i as int] == en.assocs.deep_view()[i as int].1);
        }
        ts.push_val(tuple_clone(&en.assocs[i].1));
        proof {
            assert(avals.take(i as int + 1) =~= avals.take(i as int).push(avals[i as int]));
            assert(ts@.1 =~= seq![en.val@] + avals.take(i as int + 1));
        }
        i = i + 1;
    }
    proof {
        assert(avals.take(n as int) =~= avals);
    }
    ts
}

impl RowPlanner {
    /// One full row of the operator against the in-memory store: plan the
    /// writes, probe and apply them in the operator's mode, and emit the
    /// row describing what was written.
    pub fn process_row(&self, row: &TupleSet, store: &mut Snapshot) -> (r: Result<TupleSet, Error>)
        requires
            old(store).wf(),
        ensures
            final(store).wf(),
            ({
                let kc = eval_chain(self.key_chain.deep_view(), row@);
                let vv = eval_chain(self.val_chain.deep_view(), row@);
                let iv = self.inv_eval(row@);
                let av = eval_assoc_chains(self.assoc_chains.deep_view(), row@);
                if kc is None || vv is None || iv is None || av is None {
                    (r matches Err(e) && e is Eval) && final(store)@ == old(store)@
                } else {
                    ({
                        let m = entries_as_map(old(store)@);
                        let outcome = spec_apply_row(
                            m,
                            self.target.id,
                            kc->0,
                            vv->0,
                            iv->0,
                            av->0,
                            self.upsert,
                        );
                        match outcome {
                            None => (r matches Err(e) && (e matches Error::KeyConflict(t) && t@
                                == skey_enc(self.target.id, kc->0)) && final(store)@ == old(
                                store,
                            )@),
                            Some(m2) => entries_as_map(final(store)@) == m2 && (r matches Ok(out)
                                && out@.0 == seq![kc->0] && out@.1 == seq![vv->0] + (av
                                ->0).map_values(|p: (TableId, Seq<ValModel>)| p.1)),
                        }
                    })
                }
            }),
    {
        let en = match self.plan_row(row) {
            Ok(en) => en,
            Err(e) => {
                return Err(e);
            },
        };
        match apply_row(&en, self.upsert, store) {
            Ok(_) => {},
            Err(e) => {
                return Err(e);
            },
        }
        Ok(output_row(&en))
    }
}


} // verus!