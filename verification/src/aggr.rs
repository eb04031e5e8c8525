//! Aggregations over integer columns.
//!
//! An aggregation operates in one of two mutually exclusive modes. The
//! *meet* mode is an order-independent merge of an accumulator with one new
//! value, used for incremental epoch merging; `lemma_meet_commutes` states
//! the order independence. The *normal* mode is a stateful
//! accumulate-then-finalize pass applied once over a complete grouped
//! relation; `Count` exists only in this mode.

use vstd::prelude::*;

use crate::error::Error;
use crate::value::{DataValue, ValModel};

verus! {

/// A declared aggregate function.
#[derive(Clone, Copy, Debug, PartialEq, Eq, Structural)]
pub enum Aggregation {
    Sum,
    Min,
    Max,
    Count,
}

/// Meet-merge of the stored accumulator `cur` with a new value `new`:
/// `None` is an aggregate update error (a non-integer value, or overflow).
pub open spec fn spec_meet(a: Aggregation, cur: ValModel, new: ValModel) -> Option<ValModel> {
    match (cur, new) {
        (ValModel::Int(x), ValModel::Int(y)) => match a {
            Aggregation::Sum => if i64::MIN <= x + y <= i64::MAX {
                Some(ValModel::Int(x + y))
            } else {
                None
            },
            Aggregation::Min => Some(ValModel::Int(if x <= y { x } else { y })),
            Aggregation::Max => Some(ValModel::Int(if x >= y { x } else { y })),
            Aggregation::Count => None,
        },
        _ => None,
    }
}

/// Meet merges are order independent: merging `y` into `x` and merging `x`
/// into `y` agree, both on the merged value and on whether the merge is an
/// error.
pub proof fn lemma_meet_commutes(a: Aggregation, x: ValModel, y: ValModel)
    ensures
        spec_meet(a, x, y) == spec_meet(a, y, x),
{
}

impl Aggregation {
    /// Merge `new` into the stored accumulator `cur` under the meet
    /// discipline; reports whether the stored value changed.
    pub fn meet_update(&self, cur: &mut DataValue, new: &DataValue) -> (r: Result<bool, Error>)
        ensures
            match spec_meet(*self, old(cur)@, new@) {
                Some(m) => r == Ok::<bool, Error>(final(cur)@ != old(cur)@) && final(cur)@ == m,
                None => r == Err::<bool, Error>(Error::AggrFailed) && final(cur)@ == old(cur)@,
            },
    {
        let y: i64 = match new {
            DataValue::Int(y) => *y,
            _ => {
                return Err(Error::AggrFailed);
            },
        };
        let x: i64 = match cur {
            DataValue::Int(x) => *x,
            _ => {
                return Err(Error::AggrFailed);
            },
        };
        match self {
            Aggregation::Sum => match x.checked_add(y) {
                Some(z) => {
                    *cur = DataValue::Int(z);
                    Ok(z != x)
                },
                None => Err(Error::AggrFailed),
            },
            Aggregation::Min => {
                if y < x {
                    *cur = DataValue::Int(y);
                    Ok(true)
                } else {
                    Ok(false)
                }
            },
            Aggregation::Max => {
                if y > x {
                    *cur = DataValue::Int(y);
                    Ok(true)
                } else {
                    Ok(false)
                }
            },
            Aggregation::Count => Err(Error::AggrFailed),
        }
    }
}

/// Accumulator value after folding one more value into a normal-mode
/// accumulation standing at `acc`.
pub open spec fn spec_normal_step(a: Aggregation, acc: int, v: ValModel) -> Option<int> {
    match a {
        Aggregation::Count => if acc + 1 <= i64::MAX {
            Some(acc + 1)
        } else {
            None
        },
        _ => match v {
            ValModel::Int(y) => match a {
                Aggregation::Sum => if i64::MIN <= acc + y <= i64::MAX {
                    Some(acc + y)
                } else {
                    None
                },
                Aggregation::Min => Some(if acc <= y {
                    acc
                } else {
                    y
                }),
                Aggregation::Max => Some(if acc >= y {
                    acc
                } else {
                    y
                }),
                Aggregation::Count => None,
            },
            _ => None,
        },
    }
}

/// Accumulator seeded from the first value of a group.
pub open spec fn spec_normal_seed(a: Aggregation, v: ValModel) -> Option<int> {
    match a {
        Aggregation::Count => Some(1),
        _ => match v {
            ValModel::Int(y) => Some(y as int),
            _ => None,
        },
    }
}

/// Accumulator after a whole normal-mode pass over `vals`, or `None` on an
/// empty group or an aggregate update error.
pub open spec fn spec_normal_acc(a: Aggregation, vals: Seq<ValModel>) -> Option<int>
    decreases vals.len(),
{
    if vals.len() == 0 {
        None
    } else if vals.len() == 1 {
        spec_normal_seed(a, vals[0])
    } else {
        match spec_normal_acc(a, vals.drop_last()) {
            Some(acc) => spec_normal_step(a, acc, vals.last()),
            None => None,
        }
    }
}

/// Stateful accumulator for one aggregate of one group during the
/// finalize pass.
pub struct NormalAggrState {
    pub kind: Aggregation,
    pub acc: i64,
    pub seen: bool,
    /// The values folded in so far, in order.
    pub hist: Ghost<Seq<ValModel>>,
}

impl NormalAggrState {
    /// The accumulator field faithfully folds the consumed history.
    pub open spec fn wf(self) -> bool {
        &&& (self.seen <==> self.hist@.len() > 0)
        &&& (self.hist@.len() > 0 ==> spec_normal_acc(self.kind, self.hist@) == Some(
            self.acc as int,
        ))
    }

    /// A fresh accumulator that has consumed nothing.
    pub fn init(a: Aggregation) -> (st: NormalAggrState)
        ensures
            st.wf(),
            st.kind == a,
            st.hist@ == Seq::<ValModel>::empty(),
    {
        NormalAggrState { kind: a, acc: 0, seen: false, hist: Ghost(Seq::empty()) }
    }

    /// Fold one more value into the accumulation. On an aggregate update
    /// error the state is left unchanged.
    pub fn set(&mut self, v: &DataValue) -> (r: Result<(), Error>)
        requires
            old(self).wf(),
        ensures
            final(self).kind == old(self).kind,
            match spec_normal_acc(old(self).kind, old(self).hist@.push(v@)) {
                Some(_) => r == Ok::<(), Error>(()) && final(self).wf() && final(self).hist@
                    == old(self).hist@.push(v@),
                None => r == Err::<(), Error>(Error::AggrFailed) && *final(self) == *old(self),
            },
    {
        proof {
            let ext = self.hist@.push(v@);
            assert(ext.drop_last() =~= self.hist@);
            assert(ext.last() == v@);
        }
        if !self.seen {
            // Seed from the first value of the group.
            match self.kind {
                Aggregation::Count => {
                    self.acc = 1;
                    self.seen = true;
                    self.hist = Ghost(self.hist@.push(v@));
                    Ok(())
                },
                _ => match v {
                    DataValue::Int(y) => {
                        self.acc = *y;
                        self.seen = true;
                        self.hist = Ghost(self.hist@.push(v@));
                        Ok(())
                    },
                    _ => Err(Error::AggrFailed),
                },
            }
        } else {
            match self.kind {
                Aggregation::Count => {
                    if self.acc == i64::MAX {
                        return Err(Error::AggrFailed);
                    }
                    self.acc = self.acc + 1;
                    self.hist = Ghost(self.hist@.push(v@));
                    Ok(())
                },
                Aggregation::Sum => match v {
                    DataValue::Int(y) => match self.acc.checked_add(*y) {
                        Some(z) => {
                            self.acc = z;
                            self.hist = Ghost(self.hist@.push(v@));
                            Ok(())
                        },
                        None => Err(Error::AggrFailed),
                    },
                    _ => Err(Error::AggrFailed),
                },
                Aggregation::Min => match v {
                    DataValue::Int(y) => {
                        if *y < self.acc {
                            self.acc = *y;
                        }
                        self.hist = Ghost(self.hist@.push(v@));
                        Ok(())
                    },
                    _ => Err(Error::AggrFailed),
                },
                Aggregation::Max => match v {
                    DataValue::Int(y) => {
                        if *y > self.acc {
                            self.acc = *y;
                        }
                        self.hist = Ghost(self.hist@.push(v@));
                        Ok(())
                    },
                    _ => Err(Error::AggrFailed),
                },
            }
        }
    }

    /// Finalize the accumulation to the aggregate's output value; an
    /// accumulator that consumed nothing is an error.
    pub fn get(&self) -> (r: Result<DataValue, Error>)
        requires
            self.wf(),
        ensures
            self.hist@.len() == 0 ==> r == Err::<DataValue, Error>(Error::AggrFailed),
            self.hist@.len() > 0 ==> (r matches Ok(d) && d@ == ValModel::Int(
                spec_normal_acc(self.kind, self.hist@).unwrap(),
            )),
    {
        if !self.seen {
            Err(Error::AggrFailed)
        } else {
            Ok(DataValue::Int(self.acc))
        }
    }
}

} // verus!
