//! Schema descriptions of the storage tables an insertion can target, and
//! the catalog they are resolved from by name.

use vstd::prelude::*;

use crate::value::bytes_cmp;
use crate::value::Cmp;

verus! {

/// A table id plus the flag selecting the physical backing store: root
/// tables write through the caller-supplied transaction, non-root tables
/// through the temporary store.
#[derive(Clone, Copy, Debug, PartialEq, Eq, Structural, Hash)]
pub struct TableId {
    pub in_root: bool,
    pub id: u32,
}

impl DeepView for TableId {
    type V = TableId;

    open spec fn deep_view(&self) -> TableId {
        *self
    }
}

/// One declared column. Typing is checked by the schema layer and is not
/// re-checked here.
#[derive(Clone, Debug)]
pub struct ColSchema {
    pub name: Vec<u8>,
}

impl View for ColSchema {
    type V = Seq<u8>;

    open spec fn view(&self) -> Seq<u8> {
        self.name.deep_view()
    }
}

impl DeepView for ColSchema {
    type V = Seq<u8>;

    open spec fn deep_view(&self) -> Seq<u8> {
        self.view()
    }
}

/// Model of a node table: id, name, key and value column names in
/// declared order.
pub struct NodeModel {
    pub tid: TableId,
    pub name: Seq<u8>,
    pub keys: Seq<Seq<u8>>,
    pub vals: Seq<Seq<u8>>,
}

/// A node table: ordered key columns and ordered value columns.
#[derive(Clone, Debug)]
pub struct NodeInfo {
    pub tid: TableId,
    pub name: Vec<u8>,
    pub keys: Vec<ColSchema>,
    pub vals: Vec<ColSchema>,
}

impl View for NodeInfo {
    type V = NodeModel;

    open spec fn view(&self) -> NodeModel {
        NodeModel {
            tid: self.tid,
            name: self.name.deep_view(),
            keys: self.keys.deep_view(),
            vals: self.vals.deep_view(),
        }
    }
}

/// Model of an edge table: its own columns plus the ids of its source and
/// destination node tables.
pub struct EdgeModel {
    pub tid: TableId,
    pub name: Seq<u8>,
    pub src_id: TableId,
    pub dst_id: TableId,
    pub keys: Seq<Seq<u8>>,
    pub vals: Seq<Seq<u8>>,
}

/// An edge table: its own key and value columns, and references to the
/// source and destination node tables.
#[derive(Clone, Debug)]
pub struct EdgeInfo {
    pub tid: TableId,
    pub name: Vec<u8>,
    pub src_id: TableId,
    pub dst_id: TableId,
    pub keys: Vec<ColSchema>,
    pub vals: Vec<ColSchema>,
}

impl View for EdgeInfo {
    type V = EdgeModel;

    open spec fn view(&self) -> EdgeModel {
        EdgeModel {
            tid: self.tid,
            name: self.name.deep_view(),
            src_id: self.src_id,
            dst_id: self.dst_id,
            keys: self.keys.deep_view(),
            vals: self.vals.deep_view(),
        }
    }
}

/// Model of a table schema.
pub enum TableModel {
    Node(NodeModel),
    Edge(EdgeModel),
}

/// Schema description of one table.
#[derive(Clone, Debug)]
pub enum TableInfo {
    Node(NodeInfo),
    Edge(EdgeInfo),
}

impl View for TableInfo {
    type V = TableModel;

    open spec fn view(&self) -> TableModel {
        match self {
            TableInfo::Node(n) => TableModel::Node(n@),
            TableInfo::Edge(e) => TableModel::Edge(e@),
        }
    }
}

impl DeepView for TableInfo {
    type V = TableModel;

    open spec fn deep_view(&self) -> TableModel {
        self.view()
    }
}

/// The name a table schema was declared under.
pub open spec fn table_name(t: TableModel) -> Seq<u8> {
    match t {
        TableModel::Node(n) => n.name,
        TableModel::Edge(e) => e.name,
    }
}

/// The id of a table schema.
pub open spec fn table_tid(t: TableModel) -> TableId {
    match t {
        TableModel::Node(n) => n.tid,
        TableModel::Edge(e) => e.tid,
    }
}

impl TableInfo {
    /// The target table's id and root flag.
    pub fn table_id(&self) -> (r: TableId)
        ensures
            r == table_tid(self@),
    {
        match self {
            TableInfo::Node(n) => n.tid,
            TableInfo::Edge(e) => e.tid,
        }
    }
}

/// Model of an association table.
pub struct AssocModel {
    pub tid: TableId,
    pub name: Seq<u8>,
    pub main_id: TableId,
    pub vals: Seq<Seq<u8>>,
}

/// A side table sharing the primary key of the table `main_id` names,
/// holding its own value columns only.
#[derive(Clone, Debug)]
pub struct AssocInfo {
    pub tid: TableId,
    pub name: Vec<u8>,
    pub main_id: TableId,
    pub vals: Vec<ColSchema>,
}

impl View for AssocInfo {
    type V = AssocModel;

    open spec fn view(&self) -> AssocModel {
        AssocModel {
            tid: self.tid,
            name: self.name.deep_view(),
            main_id: self.main_id,
            vals: self.vals.deep_view(),
        }
    }
}

impl DeepView for AssocInfo {
    type V = AssocModel;

    open spec fn deep_view(&self) -> AssocModel {
        self.view()
    }
}

/// The declared tables and associations an operator resolves names
/// against.
#[derive(Clone, Debug)]
pub struct Catalog {
    pub tables: Vec<TableInfo>,
    pub assocs: Vec<AssocInfo>,
}

/// First table declared under `name`.
pub open spec fn find_table(ts: Seq<TableModel>, name: Seq<u8>) -> Option<TableModel>
    decreases ts.len(),
{
    if ts.len() == 0 {
        None
    } else if table_name(ts[0]) == name {
        Some(ts[0])
    } else {
        find_table(ts.drop_first(), name)
    }
}

/// First node table declared with id `tid`.
pub open spec fn find_node(ts: Seq<TableModel>, tid: TableId) -> Option<NodeModel>
    decreases ts.len(),
{
    if ts.len() == 0 {
        None
    } else if ts[0] is Node && table_tid(ts[0]) == tid {
        Some(ts[0]->Node_0)
    } else {
        find_node(ts.drop_first(), tid)
    }
}

/// First association of table `main` declared under `name`.
pub open spec fn find_assoc(asc: Seq<AssocModel>, main: TableId, name: Seq<u8>) -> Option<
    AssocModel,
>
    decreases asc.len(),
{
    if asc.len() == 0 {
        None
    } else if asc[0].main_id == main && asc[0].name == name {
        Some(asc[0])
    } else {
        find_assoc(asc.drop_first(), main, name)
    }
}

/// Whether `n` occurs among `names`.
pub open spec fn name_in(names: Seq<Seq<u8>>, n: Seq<u8>) -> bool {
    exists|i: int| 0 <= i < names.len() && names[i] == n
}

/// The associations of table `main` whose names were asked for, in the
/// order the catalog declares them.
pub open spec fn assoc_selection(asc: Seq<AssocModel>, main: TableId, names: Seq<Seq<u8>>) -> Seq<
    AssocModel,
>
    decreases asc.len(),
{
    if asc.len() == 0 {
        Seq::empty()
    } else {
        (if asc[0].main_id == main && name_in(names, asc[0].name) {
            seq![asc[0]]
        } else {
            Seq::empty()
        }) + assoc_selection(asc.drop_first(), main, names)
    }
}

/// A copy of a byte string, equal in the model.
pub fn bytes_clone(b: &Vec<u8>) -> (r: Vec<u8>)
    ensures
        r@ == b@,
        r.deep_view() == b.deep_view(),
{
    let c = b.clone();
    proof {
        assert(c@ =~= b@);
        assert(c.deep_view() =~= b.deep_view());
    }
    c
}

/// A copy of a column list, equal in the model.
pub fn cols_clone(cols: &Vec<ColSchema>) -> (r: Vec<ColSchema>)
    ensures
        r.deep_view() == cols.deep_view(),
{
    let mut out: Vec<ColSchema> = Vec::new();
    let mut i: usize = 0;
    while i < cols.len()
        invariant
            i <= cols.len(),
            out.deep_view() =~= cols.deep_view().subrange(0, i as int),
        decreases cols.len() - i,
    {
        let ghost pre = out.deep_view();
        out.push(ColSchema { name: bytes_clone(&cols[i].name) });
        proof {
            assert(out.deep_view() =~= pre.push(cols.deep_view()[i as int]));
            assert(pre.push(cols.deep_view()[i as int]) =~= cols.deep_view().subrange(
                0,
                i as int + 1,
            ));
        }
        i = i + 1;
    }
    proof {
        assert(cols.deep_view().subrange(0, cols.deep_view().len() as int) =~= cols.deep_view());
    }
    out
}

/// A copy of a node schema, equal in the model.
pub fn node_clone(n: &NodeInfo) -> (r: NodeInfo)
    ensures
        r@ == n@,
{
    NodeInfo {
        tid: n.tid,
        name: bytes_clone(&n.name),
        keys: cols_clone(&n.keys),
        vals: cols_clone(&n.vals),
    }
}

/// A copy of an edge schema, equal in the model.
pub fn edge_clone(e: &EdgeInfo) -> (r: EdgeInfo)
    ensures
        r@ == e@,
{
    EdgeInfo {
        tid: e.tid,
        name: bytes_clone(&e.name),
        src_id: e.src_id,
        dst_id: e.dst_id,
        keys: cols_clone(&e.keys),
        vals: cols_clone(&e.vals),
    }
}

/// A copy of a table schema, equal in the model.
pub fn table_info_clone(t: &TableInfo) -> (r: TableInfo)
    ensures
        r@ == t@,
{
    match t {
        TableInfo::Node(n) => TableInfo::Node(node_clone(n)),
        TableInfo::Edge(e) => TableInfo::Edge(edge_clone(e)),
    }
}

/// A copy of an association schema, equal in the model.
pub fn assoc_clone(a: &AssocInfo) -> (r: AssocInfo)
    ensures
        r@ == a@,
{
    AssocInfo {
        tid: a.tid,
        name: bytes_clone(&a.name),
        main_id: a.main_id,
        vals: cols_clone(&a.vals),
    }
}

impl Catalog {
    /// The table declared under `name`, if any.
    pub fn resolve_table(&self, name: &Vec<u8>) -> (r: Option<TableInfo>)
        ensures
            match r {
                Some(t) => find_table(self.tables.deep_view(), name@) == Some(t@),
                None => find_table(self.tables.deep_view(), name@) is None,
            },
    {
        let ghost s = self.tables.deep_view();
        let n = self.tables.len();
        let mut i: usize = 0;
        proof {
            assert(s.skip(0) =~= s);
        }
        while i < n
            invariant
                i <= n,
                s == self.tables.deep_view(),
                n == self.tables.len(),
                n == s.len(),
                find_table(s, name@) == find_table(s.skip(i as int), name@),
            decreases n - i,
        {
            let ghost rest = s.skip(i as int);
            proof {
                assert(rest[0] == s[i as int]);
                assert(rest.drop_first() =~= s.skip(i as int + 1));
            }
            let t = &self.tables[i];
            let tn = match t {
                TableInfo::Node(nd) => &nd.name,
                TableInfo::Edge(ed) => &ed.name,
            };
            proof {
                assert(table_name(s[i as int]) =~= tn@);
            }
            if matches!(bytes_cmp(tn, name), Cmp::Eq) {
                return Some(table_info_clone(t));
            }
            i = i + 1;
        }
        proof {
            assert(s.skip(n as int) =~= Seq::<TableModel>::empty());
        }
        None
    }

    /// The node table with id `tid`, if any.
    pub fn get_node_info(&self, tid: TableId) -> (r: Option<NodeInfo>)
        ensures
            match r {
                Some(nd) => find_node(self.tables.deep_view(), tid) == Some(nd@),
                None => find_node(self.tables.deep_view(), tid) is None,
            },
    {
        let ghost s = self.tables.deep_view();
        let n = self.tables.len();
        let mut i: usize = 0;
        proof {
            assert(s.skip(0) =~= s);
        }
        while i < n
            invariant
                i <= n,
                s == self.tables.deep_view(),
                n == self.tables.len(),
                n == s.len(),
                find_node(s, tid) == find_node(s.skip(i as int), tid),
            decreases n - i,
        {
            let ghost rest = s.skip(i as int);
            proof {
                assert(rest[0] == s[i as int]);
                assert(rest.drop_first() =~= s.skip(i as int + 1));
            }
            match &self.tables[i] {
                TableInfo::Node(nd) => {
                    if nd.tid.id == tid.id && nd.tid.in_root == tid.in_root {
                        proof {
                            assert(s[i as int] is Node && table_tid(s[i as int]) == tid);
                        }
                        return Some(node_clone(nd));
                    }
                },
                TableInfo::Edge(_) => {},
            }
            i = i + 1;
        }
        proof {
            assert(s.skip(n as int) =~= Seq::<TableModel>::empty());
        }
        None
    }

    /// The association of table `main` declared under `name`, if any.
    pub fn resolve_assoc(&self, main: TableId, name: &Vec<u8>) -> (r: Option<AssocInfo>)
        ensures
            match r {
                Some(a) => find_assoc(self.assocs.deep_view(), main, name@) == Some(a@),
                None => find_assoc(self.assocs.deep_view(), main, name@) is None,
            },
    {
        let ghost s = self.assocs.deep_view();
        let n = self.assocs.len();
        let mut i: usize = 0;
        proof {
            assert(s.skip(0) =~= s);
        }
        while i < n
            invariant
                i <= n,
                s == self.assocs.deep_view(),
                n == self.assocs.len(),
                n == s.len(),
                find_assoc(s, main, name@) == find_assoc(s.skip(i as int), main, name@),
            decreases n - i,
        {
            let ghost rest = s.skip(i as int);
            proof {
                assert(rest[0] == s[i as int]);
                assert(rest.drop_first() =~= s.skip(i as int + 1));
            }
            let a = &self.assocs[i];
            proof {
                assert(s[i as int].name =~= a.name@);
            }
            if a.main_id.id == main.id && a.main_id.in_root == main.in_root && matches!(
                bytes_cmp(&a.name, name),
                Cmp::Eq,
            ) {
                proof {
                    assert(s[i as int].main_id == main && s[i as int].name == name@);
                }
                return Some(assoc_clone(a));
            }
            proof {
                assert(!(s[i as int].main_id == main && s[i as int].name == name@));
            }
            i = i + 1;
        }
        proof {
            assert(s.skip(n as int) =~= Seq::<AssocModel>::empty());
        }
        None
    }
}

} // verus!
