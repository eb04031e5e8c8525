//! Rows as algebra operators see them, and compiled binding maps.
//!
//! A `TupleSet` is one row: slot 0 carries the primary table's key and
//! value tuples, slots 1 and above one value tuple per associated side
//! table. A `BindingMap` compiles named logical variables into fixed
//! positional references, once per operator, independent of runtime data.

use vstd::prelude::*;

use crate::error::Error;
use crate::tuple::Tuple;
use crate::value::{bytes_cmp, val_clone, Cmp, DataValue, ValModel};

verus! {

/// A fixed positional reference: which region (key or value), which slot,
/// which column.
#[derive(Clone, Copy, Debug, PartialEq, Eq, Structural)]
pub struct TupleSetIdx {
    pub is_key: bool,
    pub t_set: usize,
    pub col_idx: usize,
}

impl DeepView for TupleSetIdx {
    type V = TupleSetIdx;

    open spec fn deep_view(&self) -> TupleSetIdx {
        *self
    }
}

/// One row produced by an algebra operator.
#[derive(Clone, Debug)]
pub struct TupleSet {
    pub keys: Vec<Tuple>,
    pub vals: Vec<Tuple>,
}

impl View for TupleSet {
    type V = (Seq<Seq<ValModel>>, Seq<Seq<ValModel>>);

    open spec fn view(&self) -> (Seq<Seq<ValModel>>, Seq<Seq<ValModel>>) {
        (self.keys.deep_view(), self.vals.deep_view())
    }
}

/// The scalar a positional reference picks out of a row, if in range.
pub open spec fn ts_lookup(ts: (Seq<Seq<ValModel>>, Seq<Seq<ValModel>>), idx: TupleSetIdx) -> Option<
    ValModel,
> {
    let side = if idx.is_key {
        ts.0
    } else {
        ts.1
    };
    if idx.t_set < side.len() && idx.col_idx < side[idx.t_set as int].len() {
        Some(side[idx.t_set as int][idx.col_idx as int])
    } else {
        None
    }
}

impl TupleSet {
    /// A row with no slots.
    pub fn new() -> (r: TupleSet)
        ensures
            r@.0 =~= Seq::<Seq<ValModel>>::empty(),
            r@.1 =~= Seq::<Seq<ValModel>>::empty(),
    {
        TupleSet { keys: Vec::new(), vals: Vec::new() }
    }

    pub fn push_key(&mut self, k: Tuple)
        ensures
            final(self)@.0 == old(self)@.0.push(k@),
            final(self)@.1 == old(self)@.1,
    {
        let ghost pre = self@.0;
        let ghost km = k@;
        self.keys.push(k);
        proof {
            assert(self@.0 =~= pre.push(km));
        }
    }

    pub fn push_val(&mut self, v: Tuple)
        ensures
            final(self)@.1 == old(self)@.1.push(v@),
            final(self)@.0 == old(self)@.0,
    {
        let ghost pre = self@.1;
        let ghost vm = v@;
        self.vals.push(v);
        proof {
            assert(self@.1 =~= pre.push(vm));
        }
    }

    /// The scalar at a positional reference; a reference outside the row
    /// is an evaluation error.
    pub fn get(&self, idx: &TupleSetIdx) -> (r: Result<DataValue, Error>)
        ensures
            match ts_lookup(self@, *idx) {
                Some(v) => (r matches Ok(d) && d@ == v),
                None => r == Err::<DataValue, Error>(Error::Eval(*idx)),
            },
    {
        let side = if idx.is_key {
            &self.keys
        } else {
            &self.vals
        };
        if idx.t_set < side.len() {
            let t = &side[idx.t_set];
            if idx.col_idx < t.0.len() {
                return Ok(val_clone(&t.0[idx.col_idx]));
            }
        }
        Err(Error::Eval(*idx))
    }
}

/// First extractor position registered under a column name.
pub open spec fn find_col(cols: Seq<(Seq<u8>, TupleSetIdx)>, name: Seq<u8>) -> Option<TupleSetIdx>
    decreases cols.len(),
{
    if cols.len() == 0 {
        None
    } else if cols[0].0 == name {
        Some(cols[0].1)
    } else {
        find_col(cols.drop_first(), name)
    }
}

/// The position a sequence of `(name, index)` registrations leaves a
/// column name at: the last registration wins, as repeated insertions
/// into a map would leave it.
pub open spec fn fold_cols(pairs: Seq<(Seq<u8>, TupleSetIdx)>, name: Seq<u8>) -> Option<TupleSetIdx>
    decreases pairs.len(),
{
    if pairs.len() == 0 {
        None
    } else if pairs.last().0 == name {
        Some(pairs.last().1)
    } else {
        fold_cols(pairs.drop_last(), name)
    }
}

/// One scope of a binding map: column name to positional reference, names
/// unique.
pub struct BindingCols {
    pub cols: Vec<(Vec<u8>, TupleSetIdx)>,
}

impl View for BindingCols {
    type V = Seq<(Seq<u8>, TupleSetIdx)>;

    open spec fn view(&self) -> Seq<(Seq<u8>, TupleSetIdx)> {
        self.cols.deep_view()
    }
}

impl DeepView for BindingCols {
    type V = Seq<(Seq<u8>, TupleSetIdx)>;

    open spec fn deep_view(&self) -> Seq<(Seq<u8>, TupleSetIdx)> {
        self.view()
    }
}

impl BindingCols {
    /// No column name occurs twice.
    pub open spec fn wf(self) -> bool {
        forall|i: int, j: int|
            0 <= i < j < self@.len() ==> (#[trigger] self@[i]).0 != (#[trigger] self@[j]).0
    }

    pub fn new() -> (r: BindingCols)
        ensures
            r@ =~= Seq::<(Seq<u8>, TupleSetIdx)>::empty(),
            r.wf(),
    {
        BindingCols { cols: Vec::new() }
    }

    /// Register a column, replacing any earlier registration of the same
    /// name, as a map insertion would.
    #[verifier::loop_isolation(false)]
    pub fn set_col(&mut self, name: Vec<u8>, idx: TupleSetIdx)
        requires
            old(self).wf(),
        ensures
            final(self).wf(),
            forall|n: Seq<u8>|
                #[trigger] find_col(final(self)@, n) == (if n == name@ {
                    Some(idx)
                } else {
                    find_col(old(self)@, n)
                }),
    {
        let ghost s0 = self@;
        let n = self.cols.len();
        let mut i: usize = 0;
        while i < n
            invariant
                i <= n,
                self.wf(),
                self@ == s0,
                n == self.cols.len(),
                n == s0.len(),
                forall|j: int| 0 <= j < i ==> (#[trigger] s0[j]).0 != name@,
            decreases n - i,
        {
            proof {
                assert(s0[i as int].0 =~= self.cols@[i as int].0@);
            }
            if matches!(bytes_cmp(&self.cols[i].0, &name), Cmp::Eq) {
                self.cols.remove(i);
                self.cols.insert(i, (name, idx));
                proof {
                    let s1 = self@;
                    assert(s1 =~~= s0.update(i as int, (s0[i as int].0, idx)));
                    assert(final(self).wf()) by {
                        assert(forall|j: int| 0 <= j < s1.len() ==> (#[trigger] s1[j]).0 == s0[j].0);
                    }
                    assert forall|n2: Seq<u8>| #[trigger]
                        find_col(s1, n2) == (if n2 == s0[i as int].0 {
                        Some(idx)
                    } else {
                        find_col(s0, n2)
                    }) by {
                        lemma_find_col_update(s0, i as int, idx, n2);
                    }
                }
                return ;
            }
            i = i + 1;
        }
        let ghost nm = name@;
        self.cols.push((name, idx));
        proof {
            let s1 = self@;
            assert(s1 =~~= s0 + seq![(nm, idx)]);
            assert(final(self).wf()) by {
                assert(forall|j: int| 0 <= j < s0.len() ==> s1[j] == s0[j]);
                assert(s1[s0.len() as int].0 == nm);
            }
            assert forall|n2: Seq<u8>| #[trigger]
                find_col(s1, n2) == (if n2 == nm {
                Some(idx)
            } else {
                find_col(s0, n2)
            }) by {
                lemma_find_col_snoc(s0, nm, idx, n2);
            }
        }
    }

    /// The positional reference registered under `name`.
    pub fn get_col(&self, name: &Vec<u8>) -> (r: Option<TupleSetIdx>)
        ensures
            r == find_col(self@, name@),
    {
        let ghost s = self@;
        let n = self.cols.len();
        let mut i: usize = 0;
        proof {
            assert(s.skip(0) =~= s);
        }
        while i < n
            invariant
                i <= n,
                s == self@,
                n == self.cols.len(),
                n == s.len(),
                find_col(s, name@) == find_col(s.skip(i as int), name@),
            decreases n - i,
        {
            let ghost rest = s.skip(i as int);
            proof {
                assert(rest[0] == s[i as int]);
                assert(rest.drop_first() =~= s.skip(i as int + 1));
                assert(s[i as int].0 =~= self.cols@[i as int].0@);
            }
            if matches!(bytes_cmp(&self.cols[i].0, name), Cmp::Eq) {
                proof {
                    assert(find_col(rest, name@) == Some(rest[0].1));
                }
                return Some(self.cols[i].1);
            }
            i = i + 1;
        }
        proof {
            assert(s.skip(n as int) =~= Seq::<(Seq<u8>, TupleSetIdx)>::empty());
        }
        None
    }
}

/// Replacing the entry at a unique name's position rebinds that name only.
proof fn lemma_find_col_update(s: Seq<(Seq<u8>, TupleSetIdx)>, i: int, idx: TupleSetIdx, n: Seq<u8>)
    requires
        0 <= i < s.len(),
        forall|j: int| 0 <= j < i ==> (#[trigger] s[j]).0 != s[i].0,
    ensures
        find_col(s.update(i, (s[i].0, idx)), n) == (if n == s[i].0 {
            Some(idx)
        } else {
            find_col(s, n)
        }),
    decreases s.len(),
{
    let s1 = s.update(i, (s[i].0, idx));
    if i == 0 {
        if s[0].0 != n {
            assert(s1.drop_first() =~= s.drop_first());
        }
    } else {
        assert(s1[0] == s[0]);
        assert(s1.drop_first() =~= s.drop_first().update(i - 1, (s.drop_first()[i - 1].0, idx)));
        lemma_find_col_update(s.drop_first(), i - 1, idx, n);
    }
}

/// Appending a fresh entry binds its name and leaves the rest.
proof fn lemma_find_col_snoc(s: Seq<(Seq<u8>, TupleSetIdx)>, name: Seq<u8>, idx: TupleSetIdx, n: Seq<
    u8,
>)
    requires
        forall|j: int| 0 <= j < s.len() ==> (#[trigger] s[j]).0 != name,
    ensures
        find_col(s + seq![(name, idx)], n) == (if n == name {
            Some(idx)
        } else {
            find_col(s, n)
        }),
    decreases s.len(),
{
    let s1 = s + seq![(name, idx)];
    assert(s1.len() == s.len() + 1);
    if s.len() == 0 {
        assert(s1[0] == (name, idx));
        if n == name {
            assert(s1[0].0 == n);
            assert(find_col(s1, n) == Some(idx));
        } else {
            assert(s1[0].0 != n);
            assert(s1.drop_first() =~= Seq::<(Seq<u8>, TupleSetIdx)>::empty());
            assert(find_col(s1, n) is None);
            assert(find_col(s, n) is None);
        }
    } else {
        assert(s1[0] == s[0]);
        assert(s[0].0 != name);
        if s[0].0 == n {
            assert(find_col(s1, n) == Some(s[0].1));
            assert(find_col(s, n) == Some(s[0].1));
            assert(n != name);
        } else {
            assert(s1.drop_first() =~= s.drop_first() + seq![(name, idx)]);
            assert(forall|j: int|
                0 <= j < s.drop_first().len() ==> (#[trigger] s.drop_first()[j]) == s[j + 1]);
            lemma_find_col_snoc(s.drop_first(), name, idx, n);
            assert(find_col(s1, n) == find_col(s1.drop_first(), n));
            assert(find_col(s, n) == find_col(s.drop_first(), n));
        }
    }
}

/// `fold_cols` over a snoc: the newest registration wins.
pub proof fn lemma_fold_cols_snoc(
    pairs: Seq<(Seq<u8>, TupleSetIdx)>,
    name: Seq<u8>,
    idx: TupleSetIdx,
    n: Seq<u8>,
)
    ensures
        fold_cols(pairs.push((name, idx)), n) == (if n == name {
            Some(idx)
        } else {
            fold_cols(pairs, n)
        }),
{
    let p1 = pairs.push((name, idx));
    assert(p1.last() == (name, idx));
    assert(p1.drop_last() =~= pairs);
}

/// A compiled binding map: scope label to its column registrations.
pub struct BindingMap {
    pub entries: Vec<(Vec<u8>, BindingCols)>,
}

/// First scope registered under a binding name.
pub open spec fn find_binding(s: Seq<(Seq<u8>, Seq<(Seq<u8>, TupleSetIdx)>)>, name: Seq<u8>) -> Option<
    Seq<(Seq<u8>, TupleSetIdx)>,
>
    decreases s.len(),
{
    if s.len() == 0 {
        None
    } else if s[0].0 == name {
        Some(s[0].1)
    } else {
        find_binding(s.drop_first(), name)
    }
}

impl View for BindingMap {
    type V = Seq<(Seq<u8>, Seq<(Seq<u8>, TupleSetIdx)>)>;

    open spec fn view(&self) -> Seq<(Seq<u8>, Seq<(Seq<u8>, TupleSetIdx)>)> {
        self.entries.deep_view()
    }
}

impl BindingMap {
    pub fn new() -> (r: BindingMap)
        ensures
            r@ =~= Seq::<(Seq<u8>, Seq<(Seq<u8>, TupleSetIdx)>)>::empty(),
    {
        BindingMap { entries: Vec::new() }
    }

    /// Register one scope under a binding name.
    pub fn push_binding(&mut self, name: Vec<u8>, cols: BindingCols)
        ensures
            final(self)@ == old(self)@.push((name@, cols@)),
    {
        let ghost pre = self@;
        let ghost nm = name@;
        let ghost cm = cols@;
        self.entries.push((name, cols));
        proof {
            assert(self@ =~~= pre.push((nm, cm)));
        }
    }

    /// Look a variable up: the scope, then the column within it.
    pub fn resolve(&self, binding: &Vec<u8>, col: &Vec<u8>) -> (r: Option<TupleSetIdx>)
        ensures
            r == (match find_binding(self@, binding@) {
                Some(cols) => find_col(cols, col@),
                None => None,
            }),
    {
        let ghost s = self@;
        let n = self.entries.len();
        let mut i: usize = 0;
        proof {
            assert(s.skip(0) =~= s);
        }
        while i < n
            invariant
                i <= n,
                s == self@,
                n == self.entries.len(),
                n == s.len(),
                find_binding(s, binding@) == find_binding(s.skip(i as int), binding@),
            decreases n - i,
        {
            let ghost rest = s.skip(i as int);
            proof {
                assert(rest[0] == s[i as int]);
                assert(rest.drop_first() =~= s.skip(i as int + 1));
                assert(s[i as int].0 =~= self.entries@[i as int].0@);
                assert(s[i as int].1 == self.entries@[i as int].1@);
            }
            if matches!(bytes_cmp(&self.entries[i].0, binding), Cmp::Eq) {
                proof {
                    assert(find_binding(rest, binding@) == Some(rest[0].1));
                }
                let e = &self.entries[i];
                return e.1.get_col(col);
            }
            i = i + 1;
        }
        proof {
            assert(s.skip(n as int) =~= Seq::<(Seq<u8>, Seq<(Seq<u8>, TupleSetIdx)>)>::empty());
        }
        None
    }
}

} // verus!
