//! Scalar values of the tuple model.
//!
//! A `DataValue` is a tagged scalar plus two sentinels: `Guard` marks "the
//! real value of this position is stored in the paired value tuple", and
//! `Bot` is the greatest value of the order, used as an upper bound when a
//! prefix range scan needs an explicit upper sentinel.
//!
//! The ordering is total and byte-sortable: values are ranked by tag first,
//! then compared within the tag (integers numerically, strings by their
//! bytes, lexicographically).

use vstd::prelude::*;

verus! {

/// Executable scalar value. Strings are carried as their UTF-8 bytes, which
/// is also the form in which they sort.
#[derive(Clone, Debug, PartialEq, Eq)]
pub enum DataValue {
    Bool(bool),
    Int(i64),
    Str(Vec<u8>),
    Guard,
    Bot,
}

/// Mathematical model of a `DataValue`: the same tags over `int` and
/// `Seq<u8>`, so that contracts compare values structurally.
pub enum ValModel {
    Bool(bool),
    Int(int),
    Str(Seq<u8>),
    Guard,
    Bot,
}

impl View for DataValue {
    type V = ValModel;

    open spec fn view(&self) -> ValModel {
        match self {
            DataValue::Bool(b) => ValModel::Bool(*b),
            DataValue::Int(i) => ValModel::Int(*i as int),
            DataValue::Str(s) => ValModel::Str(s@),
            DataValue::Guard => ValModel::Guard,
            DataValue::Bot => ValModel::Bot,
        }
    }
}

impl DeepView for DataValue {
    type V = ValModel;

    open spec fn deep_view(&self) -> ValModel {
        self.view()
    }
}

/// Outcome of a three-way comparison.
#[derive(Clone, Copy, Debug, PartialEq, Eq, Structural)]
pub enum Cmp {
    Lt,
    Eq,
    Gt,
}

/// Rank of a value's tag in the total order.
pub open spec fn val_rank(v: ValModel) -> int {
    match v {
        ValModel::Bool(_) => 0,
        ValModel::Int(_) => 1,
        ValModel::Str(_) => 2,
        ValModel::Guard => 3,
        ValModel::Bot => 4,
    }
}

/// Strict lexicographic order on byte strings.
pub open spec fn bytes_lt(a: Seq<u8>, b: Seq<u8>) -> bool
    decreases a.len(),
{
    if b.len() == 0 {
        false
    } else if a.len() == 0 {
        true
    } else if a[0] != b[0] {
        a[0] < b[0]
    } else {
        bytes_lt(a.drop_first(), b.drop_first())
    }
}

/// Strict total order on scalar values: by tag rank, then within the tag.
pub open spec fn val_lt(a: ValModel, b: ValModel) -> bool {
    if val_rank(a) != val_rank(b) {
        val_rank(a) < val_rank(b)
    } else {
        match (a, b) {
            (ValModel::Bool(x), ValModel::Bool(y)) => !x && y,
            (ValModel::Int(x), ValModel::Int(y)) => x < y,
            (ValModel::Str(x), ValModel::Str(y)) => bytes_lt(x, y),
            _ => false,
        }
    }
}

pub proof fn lemma_bytes_lt_irrefl(a: Seq<u8>)
    ensures
        !bytes_lt(a, a),
    decreases a.len(),
{
    if a.len() > 0 {
        lemma_bytes_lt_irrefl(a.drop_first());
    }
}

pub proof fn lemma_bytes_lt_asym(a: Seq<u8>, b: Seq<u8>)
    requires
        bytes_lt(a, b),
    ensures
        !bytes_lt(b, a),
    decreases a.len(),
{
    if b.len() > 0 && a.len() > 0 && a[0] == b[0] {
        lemma_bytes_lt_asym(a.drop_first(), b.drop_first());
    }
}

/// Byte strings that are not ordered either way are equal.
pub proof fn lemma_bytes_lt_connected(a: Seq<u8>, b: Seq<u8>)
    requires
        !bytes_lt(a, b),
        !bytes_lt(b, a),
    ensures
        a == b,
    decreases a.len(),
{
    if a.len() == 0 && b.len() == 0 {
        assert(a =~= b);
    } else if a.len() > 0 && b.len() > 0 {
        lemma_bytes_lt_connected(a.drop_first(), b.drop_first());
        assert(a =~= seq![a[0]] + a.drop_first());
        assert(b =~= seq![b[0]] + b.drop_first());
    }
}

pub proof fn lemma_bytes_lt_trans(a: Seq<u8>, b: Seq<u8>, c: Seq<u8>)
    requires
        bytes_lt(a, b),
        bytes_lt(b, c),
    ensures
        bytes_lt(a, c),
    decreases a.len(),
{
    if a.len() > 0 && b.len() > 0 && c.len() > 0 {
        if a[0] == b[0] && b[0] == c[0] {
            lemma_bytes_lt_trans(a.drop_first(), b.drop_first(), c.drop_first());
        }
    }
}

pub proof fn lemma_val_lt_irrefl(a: ValModel)
    ensures
        !val_lt(a, a),
{
    if let ValModel::Str(s) = a {
        lemma_bytes_lt_irrefl(s);
    }
}

pub proof fn lemma_val_lt_asym(a: ValModel, b: ValModel)
    requires
        val_lt(a, b),
    ensures
        !val_lt(b, a),
{
    if let (ValModel::Str(x), ValModel::Str(y)) = (a, b) {
        lemma_bytes_lt_asym(x, y);
    }
}

/// Values that are not ordered either way are equal.
pub proof fn lemma_val_lt_connected(a: ValModel, b: ValModel)
    requires
        !val_lt(a, b),
        !val_lt(b, a),
    ensures
        a == b,
{
    if let (ValModel::Str(x), ValModel::Str(y)) = (a, b) {
        lemma_bytes_lt_connected(x, y);
    }
}

pub proof fn lemma_val_lt_trans(a: ValModel, b: ValModel, c: ValModel)
    requires
        val_lt(a, b),
        val_lt(b, c),
    ensures
        val_lt(a, c),
{
    if let (ValModel::Str(x), ValModel::Str(y)) = (a, b) {
        if let ValModel::Str(z) = c {
            lemma_bytes_lt_trans(x, y, z);
        }
    }
}

/// Two byte strings sharing an equal prefix are ordered as their tails are.
proof fn lemma_bytes_lt_skip(a: Seq<u8>, b: Seq<u8>, i: int)
    requires
        0 <= i <= a.len(),
        i <= b.len(),
        a.subrange(0, i) == b.subrange(0, i),
    ensures
        bytes_lt(a, b) <==> bytes_lt(a.skip(i), b.skip(i)),
    decreases i,
{
    if i > 0 {
        assert(a[0] == a.subrange(0, i)[0]);
        assert(b[0] == b.subrange(0, i)[0]);
        assert(a.drop_first().subrange(0, i - 1) =~= a.subrange(0, i).drop_first());
        assert(b.drop_first().subrange(0, i - 1) =~= b.subrange(0, i).drop_first());
        lemma_bytes_lt_skip(a.drop_first(), b.drop_first(), i - 1);
        assert(a.drop_first().skip(i - 1) =~= a.skip(i));
        assert(b.drop_first().skip(i - 1) =~= b.skip(i));
    } else {
        assert(a.skip(0) =~= a);
        assert(b.skip(0) =~= b);
    }
}

/// Three-way comparison of byte strings, the executable counterpart of
/// `bytes_lt`.
pub fn bytes_cmp(a: &Vec<u8>, b: &Vec<u8>) -> (c: Cmp)
    ensures
        (c == Cmp::Lt) <==> bytes_lt(a@, b@),
        (c == Cmp::Eq) <==> a@ == b@,
        (c == Cmp::Gt) <==> bytes_lt(b@, a@),
{
    let mut i: usize = 0;
    loop
        invariant
            i <= a.len(),
            i <= b.len(),
            a@.subrange(0, i as int) =~= b@.subrange(0, i as int),
        decreases a.len() - i,
    {
        proof {
            lemma_bytes_lt_skip(a@, b@, i as int);
            lemma_bytes_lt_skip(b@, a@, i as int);
        }
        if i >= a.len() || i >= b.len() {
            if a.len() == b.len() {
                proof {
                    assert(a@.skip(i as int) =~= b@.skip(i as int));
                    assert(a@ =~= a@.subrange(0, i as int) + a@.skip(i as int));
                    assert(b@ =~= b@.subrange(0, i as int) + b@.skip(i as int));
                    lemma_bytes_lt_irrefl(a@);
                }
                return Cmp::Eq;
            } else if a.len() < b.len() {
                proof {
                    assert(a@.skip(i as int).len() == 0);
                    assert(b@.skip(i as int).len() > 0);
                    assert(bytes_lt(a@.skip(i as int), b@.skip(i as int)));
                    lemma_bytes_lt_asym(a@, b@);
                }
                return Cmp::Lt;
            } else {
                proof {
                    assert(b@.skip(i as int).len() == 0);
                    assert(a@.skip(i as int).len() > 0);
                    assert(bytes_lt(b@.skip(i as int), a@.skip(i as int)));
                    lemma_bytes_lt_asym(b@, a@);
                }
                return Cmp::Gt;
            }
        }
        let x = a[i];
        let y = b[i];
        if x < y {
            proof {
                assert(a@.skip(i as int)[0] == x);
                assert(b@.skip(i as int)[0] == y);
                assert(bytes_lt(a@.skip(i as int), b@.skip(i as int)));
                assert(a@[i as int] != b@[i as int]);
                lemma_bytes_lt_asym(a@, b@);
            }
            return Cmp::Lt;
        } else if x > y {
            proof {
                assert(b@.skip(i as int)[0] == y);
                assert(a@.skip(i as int)[0] == x);
                assert(bytes_lt(b@.skip(i as int), a@.skip(i as int)));
                assert(a@[i as int] != b@[i as int]);
                lemma_bytes_lt_asym(b@, a@);
            }
            return Cmp::Gt;
        }
        proof {
            assert(a@.subrange(0, i as int + 1) =~= b@.subrange(0, i as int + 1));
        }
        i = i + 1;
    }
}

/// Three-way comparison of scalar values; the result characterises the
/// total order `val_lt` exactly.
pub fn val_cmp(a: &DataValue, b: &DataValue) -> (c: Cmp)
    ensures
        (c == Cmp::Lt) <==> val_lt(a@, b@),
        (c == Cmp::Eq) <==> a@ == b@,
        (c == Cmp::Gt) <==> val_lt(b@, a@),
{
    match (a, b) {
        (DataValue::Bool(x), DataValue::Bool(y)) => {
            if *x == *y {
                Cmp::Eq
            } else if !*x {
                Cmp::Lt
            } else {
                Cmp::Gt
            }
        },
        (DataValue::Int(x), DataValue::Int(y)) => {
            if *x < *y {
                Cmp::Lt
            } else if *x == *y {
                Cmp::Eq
            } else {
                Cmp::Gt
            }
        },
        (DataValue::Str(x), DataValue::Str(y)) => bytes_cmp(x, y),
        (DataValue::Guard, DataValue::Guard) => Cmp::Eq,
        (DataValue::Bot, DataValue::Bot) => Cmp::Eq,
        _ => {
            let ra = val_rank_exec(a);
            let rb = val_rank_exec(b);
            if ra < rb {
                Cmp::Lt
            } else {
                Cmp::Gt
            }
        },
    }
}

/// Executable tag rank, mirroring `val_rank`.
fn val_rank_exec(v: &DataValue) -> (r: u8)
    ensures
        r as int == val_rank(v@),
{
    match v {
        DataValue::Bool(_) => 0,
        DataValue::Int(_) => 1,
        DataValue::Str(_) => 2,
        DataValue::Guard => 3,
        DataValue::Bot => 4,
    }
}

/// Equality test through the three-way comparison.
pub fn val_eq(a: &DataValue, b: &DataValue) -> (r: bool)
    ensures
        r <==> a@ == b@,
{
    matches!(val_cmp(a, b), Cmp::Eq)
}

/// A copy of a scalar value, equal to the original in the model.
pub fn val_clone(v: &DataValue) -> (r: DataValue)
    ensures
        r@ == v@,
{
    match v {
        DataValue::Bool(b) => DataValue::Bool(*b),
        DataValue::Int(i) => DataValue::Int(*i),
        DataValue::Str(s) => {
            let c = s.clone();
            proof {
                assert(c@ =~= s@);
            }
            DataValue::Str(c)
        },
        DataValue::Guard => DataValue::Guard,
        DataValue::Bot => DataValue::Bot,
    }
}

} // verus!
