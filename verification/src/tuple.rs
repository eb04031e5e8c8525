//! Tuples: ordered sequences of scalar values.
//!
//! Tuples compare lexicographically by position, with a strict prefix
//! ordering below every proper extension, so that an ordered store of
//! encoded tuples supports prefix range scans directly.
//!
//! A tuple may be split into a key tuple and a value tuple: positions that
//! carry an aggregate keep their value in the value tuple and a `Guard`
//! sentinel in the key tuple. `reassemble` undoes the split.

use vstd::prelude::*;

use crate::value::{
    lemma_val_lt_asym, lemma_val_lt_connected, lemma_val_lt_irrefl, lemma_val_lt_trans, val_clone,
    val_cmp, val_lt, Cmp, DataValue, ValModel,
};

verus! {

/// A row: an ordered sequence of scalar values.
#[derive(Clone, Debug, PartialEq, Eq)]
pub struct Tuple(pub Vec<DataValue>);

impl View for Tuple {
    type V = Seq<ValModel>;

    open spec fn view(&self) -> Seq<ValModel> {
        self.0.deep_view()
    }
}

impl DeepView for Tuple {
    type V = Seq<ValModel>;

    open spec fn deep_view(&self) -> Seq<ValModel> {
        self.view()
    }
}

impl Tuple {
    /// The empty tuple, the value of rows with pure set semantics.
    pub fn empty() -> (r: Tuple)
        ensures
            r@ =~= Seq::<ValModel>::empty(),
    {
        Tuple(Vec::new())
    }

    pub fn len(&self) -> (n: usize)
        ensures
            n == self@.len(),
    {
        self.0.len()
    }
}

/// Strict lexicographic order on tuples; a strict prefix sorts below every
/// proper extension.
pub open spec fn tup_lt(a: Seq<ValModel>, b: Seq<ValModel>) -> bool
    decreases a.len(),
{
    if b.len() == 0 {
        false
    } else if a.len() == 0 {
        true
    } else if a[0] != b[0] {
        val_lt(a[0], b[0])
    } else {
        tup_lt(a.drop_first(), b.drop_first())
    }
}

/// Non-strict counterpart of `tup_lt`.
pub open spec fn tup_le(a: Seq<ValModel>, b: Seq<ValModel>) -> bool {
    a == b || tup_lt(a, b)
}

pub proof fn lemma_tup_lt_irrefl(a: Seq<ValModel>)
    ensures
        !tup_lt(a, a),
    decreases a.len(),
{
    if a.len() > 0 {
        lemma_val_lt_irrefl(a[0]);
        lemma_tup_lt_irrefl(a.drop_first());
    }
}

pub proof fn lemma_tup_lt_asym(a: Seq<ValModel>, b: Seq<ValModel>)
    requires
        tup_lt(a, b),
    ensures
        !tup_lt(b, a),
    decreases a.len(),
{
    if a.len() > 0 && b.len() > 0 {
        if a[0] == b[0] {
            lemma_tup_lt_asym(a.drop_first(), b.drop_first());
        } else {
            lemma_val_lt_asym(a[0], b[0]);
        }
    }
}

pub proof fn lemma_tup_lt_trans(a: Seq<ValModel>, b: Seq<ValModel>, c: Seq<ValModel>)
    requires
        tup_lt(a, b),
        tup_lt(b, c),
    ensures
        tup_lt(a, c),
    decreases a.len(),
{
    if a.len() > 0 && b.len() > 0 && c.len() > 0 {
        if a[0] == b[0] && b[0] == c[0] {
            lemma_tup_lt_trans(a.drop_first(), b.drop_first(), c.drop_first());
        } else if a[0] == b[0] {
            // a[0] == b[0] and val_lt(b[0], c[0]), so the heads decide.
            lemma_val_lt_irrefl(a[0]);
        } else if b[0] == c[0] {
            lemma_val_lt_irrefl(b[0]);
        } else {
            lemma_val_lt_trans(a[0], b[0], c[0]);
            lemma_val_lt_irrefl(a[0]);
        }
    }
}

/// Tuples sharing an equal prefix are ordered as their tails are.
pub proof fn lemma_tup_lt_skip(a: Seq<ValModel>, b: Seq<ValModel>, i: int)
    requires
        0 <= i <= a.len(),
        i <= b.len(),
        a.subrange(0, i) == b.subrange(0, i),
    ensures
        tup_lt(a, b) <==> tup_lt(a.skip(i), b.skip(i)),
    decreases i,
{
    if i > 0 {
        assert(a[0] == a.subrange(0, i)[0]);
        assert(b[0] == b.subrange(0, i)[0]);
        assert(a.drop_first().subrange(0, i - 1) =~= a.subrange(0, i).drop_first());
        assert(b.drop_first().subrange(0, i - 1) =~= b.subrange(0, i).drop_first());
        lemma_tup_lt_skip(a.drop_first(), b.drop_first(), i - 1);
        assert(a.drop_first().skip(i - 1) =~= a.skip(i));
        assert(b.drop_first().skip(i - 1) =~= b.skip(i));
    } else {
        assert(a.skip(0) =~= a);
        assert(b.skip(0) =~= b);
    }
}

/// Three-way comparison of tuples, the executable counterpart of `tup_lt`.
pub fn tuple_cmp(a: &Tuple, b: &Tuple) -> (c: Cmp)
    ensures
        (c == Cmp::Lt) <==> tup_lt(a@, b@),
        (c == Cmp::Eq) <==> a@ == b@,
        (c == Cmp::Gt) <==> tup_lt(b@, a@),
{
    let mut i: usize = 0;
    loop
        invariant
            i <= a.0.len(),
            i <= b.0.len(),
            a@.len() == a.0.len(),
            b@.len() == b.0.len(),
            a@.subrange(0, i as int) =~= b@.subrange(0, i as int),
        decreases a.0.len() - i,
    {
        proof {
            lemma_tup_lt_skip(a@, b@, i as int);
            lemma_tup_lt_skip(b@, a@, i as int);
        }
        if i >= a.0.len() || i >= b.0.len() {
            if a.0.len() == b.0.len() {
                proof {
                    assert(a@ =~= a@.subrange(0, i as int) + a@.skip(i as int));
                    assert(b@ =~= b@.subrange(0, i as int) + b@.skip(i as int));
                    assert(a@.skip(i as int) =~= b@.skip(i as int));
                    lemma_tup_lt_irrefl(a@);
                }
                return Cmp::Eq;
            } else if a.0.len() < b.0.len() {
                proof {
                    assert(tup_lt(a@.skip(i as int), b@.skip(i as int)));
                    lemma_tup_lt_asym(a@, b@);
                }
                return Cmp::Lt;
            } else {
                proof {
                    assert(tup_lt(b@.skip(i as int), a@.skip(i as int)));
                    lemma_tup_lt_asym(b@, a@);
                }
                return Cmp::Gt;
            }
        }
        let c = val_cmp(&a.0[i], &b.0[i]);
        proof {
            assert(a@.skip(i as int)[0] == a@[i as int]);
            assert(b@.skip(i as int)[0] == b@[i as int]);
        }
        match c {
            Cmp::Lt => {
                proof {
                    assert(tup_lt(a@.skip(i as int), b@.skip(i as int)));
                    assert(a@[i as int] != b@[i as int]) by {
                        lemma_val_lt_irrefl(a@[i as int]);
                    }
                    lemma_tup_lt_asym(a@, b@);
                }
                return Cmp::Lt;
            },
            Cmp::Gt => {
                proof {
                    assert(tup_lt(b@.skip(i as int), a@.skip(i as int)));
                    assert(a@[i as int] != b@[i as int]) by {
                        lemma_val_lt_irrefl(a@[i as int]);
                    }
                    lemma_tup_lt_asym(b@, a@);
                }
                return Cmp::Gt;
            },
            Cmp::Eq => {
                proof {
                    assert(a@.subrange(0, i as int + 1) =~= b@.subrange(0, i as int + 1));
                }
                i = i + 1;
            },
        }
    }
}

/// Equality test on tuples through the three-way comparison.
pub fn tuple_eq(a: &Tuple, b: &Tuple) -> (r: bool)
    ensures
        r <==> a@ == b@,
{
    matches!(tuple_cmp(a, b), Cmp::Eq)
}

/// A copy of a tuple, equal to the original in the model.
pub fn tuple_clone(t: &Tuple) -> (r: Tuple)
    ensures
        r@ == t@,
{
    let mut out: Vec<DataValue> = Vec::new();
    let mut i: usize = 0;
    while i < t.0.len()
        invariant
            i <= t.0.len(),
            t@.len() == t.0.len(),
            out.deep_view() =~= t@.subrange(0, i as int),
        decreases t.0.len() - i,
    {
        let ghost pre = out.deep_view();
        out.push(val_clone(&t.0[i]));
        proof {
            assert(out.deep_view() =~= pre.push(t@[i as int]));
            assert(pre.push(t@[i as int]) =~= t@.subrange(0, i as int + 1));
        }
        i = i + 1;
    }
    proof {
        assert(t@.subrange(0, t@.len() as int) =~= t@);
    }
    Tuple(out)
}

/// A copy of `t` with one more value appended.
pub fn tuple_push(t: &Tuple, v: DataValue) -> (r: Tuple)
    ensures
        r@ == t@.push(v@),
{
    let ghost vm = v@;
    let mut out = tuple_clone(t);
    let ghost pre = out@;
    out.0.push(v);
    proof {
        assert(out@ =~= pre.push(vm));
    }
    out
}

/// The concatenation of two tuples.
pub fn tuple_concat(a: &Tuple, b: &Tuple) -> (r: Tuple)
    ensures
        r@ == a@ + b@,
{
    let mut out = tuple_clone(a);
    let mut i: usize = 0;
    while i < b.0.len()
        invariant
            i <= b.0.len(),
            b@.len() == b.0.len(),
            out@ =~= a@ + b@.subrange(0, i as int),
        decreases b.0.len() - i,
    {
        let ghost pre = out@;
        out.0.push(val_clone(&b.0[i]));
        proof {
            assert(out@ =~= pre.push(b@[i as int]));
            assert(pre.push(b@[i as int]) =~= a@ + b@.subrange(0, i as int + 1));
        }
        i = i + 1;
    }
    proof {
        assert(a@ + b@.subrange(0, b@.len() as int) =~= a@ + b@);
    }
    out
}

/// The key side of a split: aggregated positions are masked by `Guard`.
pub open spec fn split_key(t: Seq<ValModel>, mask: Seq<bool>) -> Seq<ValModel> {
    Seq::new(t.len(), |i: int| if mask[i] { ValModel::Guard } else { t[i] })
}

/// The value side of a split: aggregated positions keep their value, the
/// rest are masked by `Guard`.
pub open spec fn split_val(t: Seq<ValModel>, mask: Seq<bool>) -> Seq<ValModel> {
    Seq::new(t.len(), |i: int| if mask[i] { t[i] } else { ValModel::Guard })
}

/// Reassembly of a key/value pair: every `Guard` position of the key takes
/// the corresponding value-tuple element.
pub open spec fn reassemble(k: Seq<ValModel>, v: Seq<ValModel>) -> Seq<ValModel> {
    Seq::new(k.len(), |i: int| if k[i] == ValModel::Guard && i < v.len() { v[i] } else { k[i] })
}

/// Splitting and reassembling are mutually inverse.
///
/// Reassembly undoes any split; and whenever a key/value pair has the shape
/// a split produces (the key holds `Guard` exactly at the masked positions,
/// the value exactly at the others), splitting the reassembled tuple gives
/// the pair back.
pub proof fn lemma_split_reassemble(k: Seq<ValModel>, v: Seq<ValModel>, mask: Seq<bool>)
    requires
        k.len() == mask.len(),
        v.len() == mask.len(),
        forall|i: int| 0 <= i < mask.len() ==> ((k[i] == ValModel::Guard) <==> mask[i]),
        forall|i: int| 0 <= i < mask.len() ==> ((v[i] == ValModel::Guard) <==> !mask[i]),
    ensures
        split_key(reassemble(k, v), mask) == k,
        split_val(reassemble(k, v), mask) == v,
{
    assert(split_key(reassemble(k, v), mask) =~= k);
    assert(split_val(reassemble(k, v), mask) =~= v);
}

/// Splitting a tuple and reassembling the two halves gives the tuple back,
/// for any mask, provided no unmasked position holds the `Guard` sentinel
/// reserved for masking.
pub proof fn lemma_reassemble_split(t: Seq<ValModel>, mask: Seq<bool>)
    requires
        t.len() == mask.len(),
    ensures
        reassemble(split_key(t, mask), split_val(t, mask)) == t,
{
    assert(reassemble(split_key(t, mask), split_val(t, mask)) =~= t);
}

/// Executable reassembly: rows whose value tuple is empty are pure keys and
/// pass through unchanged, as stored by the set-semantics write paths.
pub fn reassemble_exec(k: &Tuple, v: &Tuple) -> (r: Tuple)
    ensures
        v@.len() == 0 ==> r@ == k@,
        v@.len() != 0 ==> r@ == reassemble(k@, v@),
{
    if v.0.len() == 0 {
        return tuple_clone(k);
    }
    let mut out: Vec<DataValue> = Vec::new();
    let mut i: usize = 0;
    while i < k.0.len()
        invariant
            i <= k.0.len(),
            k@.len() == k.0.len(),
            v@.len() == v.0.len(),
            out.deep_view() =~= reassemble(k@, v@).subrange(0, i as int),
        decreases k.0.len() - i,
    {
        let ghost pre = out.deep_view();
        let kel = &k.0[i];
        if matches!(kel, DataValue::Guard) && i < v.0.len() {
            out.push(val_clone(&v.0[i]));
        } else {
            out.push(val_clone(&k.0[i]));
        }
        proof {
            assert(out.deep_view() =~= pre.push(reassemble(k@, v@)[i as int]));
            assert(pre.push(reassemble(k@, v@)[i as int]) =~= reassemble(k@, v@).subrange(
                0,
                i as int + 1,
            ));
        }
        i = i + 1;
    }
    proof {
        assert(reassemble(k@, v@).subrange(0, k@.len() as int) =~= reassemble(k@, v@));
    }
    Tuple(out)
}

} // verus!
