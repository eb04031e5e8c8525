//! An ordered tuple-keyed table: the building block of the derived
//! relation store (one per epoch) and of the in-memory temporary store the
//! insertion operator writes through.
//!
//! Entries are kept strictly sorted by key under the lexicographic tuple
//! order, so that lookups are exact and range scans walk a contiguous run
//! of entries in ascending key order.

use vstd::prelude::*;

use crate::tuple::{
    lemma_tup_lt_asym, lemma_tup_lt_irrefl, lemma_tup_lt_trans, tuple_cmp, tup_lt, Tuple,
};
use crate::value::{Cmp, ValModel};

verus! {

/// Model of one stored entry: a key tuple and a value tuple.
pub type EntryModel = (Seq<ValModel>, Seq<ValModel>);

/// Entries strictly ascending by key.
pub open spec fn snap_sorted(s: Seq<EntryModel>) -> bool {
    forall|i: int, j: int| 0 <= i < j < s.len() ==> tup_lt(#[trigger] s[i].0, #[trigger] s[j].0)
}

/// Whether some entry of `s` has key `k`.
pub open spec fn seq_contains_key(s: Seq<EntryModel>, k: Seq<ValModel>) -> bool {
    exists|i: int| 0 <= i < s.len() && (#[trigger] s[i].0) == k
}

/// Index of the entry with key `k`.
pub open spec fn seq_key_index(s: Seq<EntryModel>, k: Seq<ValModel>) -> int {
    choose|i: int| 0 <= i < s.len() && (#[trigger] s[i].0) == k
}

/// The entries read as a finite map from key to value.
pub open spec fn entries_as_map(s: Seq<EntryModel>) -> Map<Seq<ValModel>, Seq<ValModel>> {
    Map::new(|k: Seq<ValModel>| seq_contains_key(s, k), |k: Seq<ValModel>| s[seq_key_index(s, k)].1)
}

/// In a sorted entry sequence the entry holding a key is unique.
pub proof fn lemma_key_index_unique(s: Seq<EntryModel>, k: Seq<ValModel>, i: int)
    requires
        snap_sorted(s),
        0 <= i < s.len(),
        s[i].0 == k,
    ensures
        seq_contains_key(s, k),
        seq_key_index(s, k) == i,
{
    assert(seq_contains_key(s, k));
    let j = seq_key_index(s, k);
    if j < i {
        assert(tup_lt(s[j].0, s[i].0));
        lemma_tup_lt_irrefl(k);
    } else if j > i {
        assert(tup_lt(s[i].0, s[j].0));
        lemma_tup_lt_irrefl(k);
    }
}

/// One epoch snapshot, or one in-memory table: an ordered mapping from key
/// tuple to value tuple.
#[derive(Clone, Debug)]
pub struct Snapshot {
    pub(crate) entries: Vec<(Tuple, Tuple)>,
}

impl View for Snapshot {
    type V = Seq<EntryModel>;

    closed spec fn view(&self) -> Seq<EntryModel> {
        self.entries.deep_view()
    }
}

impl DeepView for Snapshot {
    type V = Seq<EntryModel>;

    open spec fn deep_view(&self) -> Seq<EntryModel> {
        self.view()
    }
}

impl Snapshot {
    /// Well-formed: entries strictly ascending by key.
    pub open spec fn wf(self) -> bool {
        snap_sorted(self@)
    }

    /// The snapshot read as a map from key to value.
    pub open spec fn as_map(self) -> Map<Seq<ValModel>, Seq<ValModel>> {
        entries_as_map(self@)
    }

    /// A fresh, empty snapshot.
    pub fn new() -> (r: Snapshot)
        ensures
            r@ =~= Seq::<EntryModel>::empty(),
            r.wf(),
            r.as_map() =~= Map::<Seq<ValModel>, Seq<ValModel>>::empty(),
    {
        Snapshot { entries: Vec::new() }
    }

    pub fn entry_count(&self) -> (n: usize)
        ensures
            n == self@.len(),
    {
        self.entries.len()
    }

    pub fn key_at(&self, i: usize) -> (k: &Tuple)
        requires
            i < self@.len(),
        ensures
            k@ == self@[i as int].0,
    {
        &self.entries[i].0
    }

    pub fn val_at(&self, i: usize) -> (v: &Tuple)
        requires
            i < self@.len(),
        ensures
            v@ == self@[i as int].1,
    {
        &self.entries[i].1
    }

    /// Position of `k` among the entries: either the index holding it, or
    /// the index where it would be inserted to keep the order.
    fn find(&self, k: &Tuple) -> (r: (usize, bool))
        requires
            self.wf(),
        ensures
            r.1 ==> r.0 < self@.len() && self@[r.0 as int].0 == k@,
            !r.1 ==> r.0 <= self@.len() && !seq_contains_key(self@, k@) && (r.0 < self@.len()
                ==> tup_lt(k@, self@[r.0 as int].0)),
            forall|j: int| 0 <= j < r.0 ==> tup_lt(#[trigger] self@[j].0, k@),
    {
        let ghost s = self@;
        let n = self.entries.len();
        let mut i: usize = 0;
        while i < n
            invariant
                self.wf(),
                s == self@,
                n == s.len(),
                i <= n,
                forall|j: int| 0 <= j < i ==> tup_lt(#[trigger] s[j].0, k@),
            decreases n - i,
        {
            match tuple_cmp(&self.entries[i].0, k) {
                Cmp::Lt => {
                    i = i + 1;
                },
                Cmp::Eq => {
                    return (i, true);
                },
                Cmp::Gt => {
                    proof {
                        assert forall|j: int| 0 <= j < s.len() implies (#[trigger] s[j].0)
                            != k@ by {
                            if j < i {
                                lemma_tup_lt_irrefl(k@);
                            } else if j == i as int {
                                lemma_tup_lt_irrefl(k@);
                            } else {
                                assert(tup_lt(s[i as int].0, s[j].0));
                                lemma_tup_lt_trans(k@, s[i as int].0, s[j].0);
                                lemma_tup_lt_irrefl(k@);
                            }
                        }
                    }
                    return (i, false);
                },
            }
        }
        proof {
            assert forall|j: int| 0 <= j < s.len() implies (#[trigger] s[j].0) != k@ by {
                lemma_tup_lt_irrefl(k@);
            }
        }
        (n, false)
    }

    /// Whether the table holds a value for key `k`.
    pub fn contains_key(&self, k: &Tuple) -> (r: bool)
        requires
            self.wf(),
        ensures
            r <==> seq_contains_key(self@, k@),
            r <==> self.as_map().dom().contains(k@),
    {
        let (_, found) = self.find(k);
        found
    }

    /// The value stored for key `k`, if any.
    pub fn get(&self, k: &Tuple) -> (r: Option<&Tuple>)
        requires
            self.wf(),
        ensures
            match r {
                Some(v) => seq_contains_key(self@, k@) && v@ == self.as_map()[k@],
                None => !seq_contains_key(self@, k@),
            },
    {
        let (p, found) = self.find(k);
        if found {
            proof {
                lemma_key_index_unique(self@, k@, p as int);
            }
            Some(&self.entries[p].1)
        } else {
            None
        }
    }

    /// Store `v` under `k`, replacing any prior value for the same key.
    pub fn insert(&mut self, k: Tuple, v: Tuple)
        requires
            old(self).wf(),
        ensures
            final(self).wf(),
            final(self).as_map() == old(self).as_map().insert(k@, v@),
            seq_contains_key(old(self)@, k@) ==> final(self)@.len() == old(self)@.len(),
            !seq_contains_key(old(self)@, k@) ==> final(self)@.len() == old(self)@.len() + 1,
            forall|x: Seq<ValModel>|
                seq_contains_key(final(self)@, x) <==> (x == k@ || seq_contains_key(
                    old(self)@,
                    x,
                )),
    {
        let ghost s0 = self@;
        let (p, found) = self.find(&k);
        if found {
            let e = self.entries.remove(p);
            self.entries.insert(p, (e.0, v));
            proof {
                let s1 = self@;
                assert(s1 =~= s0.update(p as int, (s0[p as int].0, v@)));
                assert(self.wf()) by {
                    assert forall|i: int, j: int| 0 <= i < j < s1.len() implies tup_lt(
                        #[trigger] s1[i].0,
                        #[trigger] s1[j].0,
                    ) by {
                        assert(s1[i].0 == s0[i].0);
                        assert(s1[j].0 == s0[j].0);
                    }
                }
                lemma_key_index_unique(s1, k@, p as int);
                assert forall|x: Seq<ValModel>|
                    seq_contains_key(s1, x) <==> (x == k@ || seq_contains_key(s0, x)) by {
                    assert forall|i: int| 0 <= i < s1.len() implies s1[i].0 == s0[i].0 by {}
                    if seq_contains_key(s1, x) {
                        let i = seq_key_index(s1, x);
                        assert(s0[i].0 == x);
                    }
                    if seq_contains_key(s0, x) {
                        let i = choose|i: int| 0 <= i < s0.len() && (#[trigger] s0[i].0) == x;
                        assert(s1[i].0 == x);
                    }
                }
                assert(entries_as_map(s1) =~= entries_as_map(s0).insert(k@, v@)) by {
                    assert forall|x: Seq<ValModel>| #[trigger]
                        seq_contains_key(s1, x) implies entries_as_map(s1)[x] == entries_as_map(
                        s0,
                    ).insert(k@, v@)[x] by {
                        let i = seq_key_index(s1, x);
                        lemma_key_index_unique(s1, x, i);
                        if x == k@ {
                            assert(i == p as int);
                        } else {
                            assert(s0[i].0 == x);
                            lemma_key_index_unique(s0, x, i);
                            assert(i != p as int);
                        }
                    }
                }
            }
        } else {
            self.entries.insert(p, (k, v));
            proof {
                let s1 = self@;
                assert(s1 =~= s0.insert(p as int, (k@, v@)));
                assert forall|i: int|
                    0 <= i < s1.len() implies s1[i] == (if i < p as int {
                    s0[i]
                } else if i == p as int {
                    (k@, v@)
                } else {
                    s0[i - 1]
                }) by {}
                assert(self.wf()) by {
                    assert forall|i: int, j: int| 0 <= i < j < s1.len() implies tup_lt(
                        #[trigger] s1[i].0,
                        #[trigger] s1[j].0,
                    ) by {
                        let pi = p as int;
                        if i < pi && j == pi {
                            // s0[i].0 < k
                        } else if i == pi && j > pi {
                            // k < s0[p].0 <= s0[j-1].0
                            if j - 1 > pi {
                                assert(tup_lt(s0[pi].0, s0[j - 1].0));
                                lemma_tup_lt_trans(k@, s0[pi].0, s0[j - 1].0);
                            }
                        } else if i < pi && j > pi {
                            if j - 1 > i {
                                assert(tup_lt(s0[i].0, s0[j - 1].0));
                            }
                        }
                    }
                }
                assert forall|x: Seq<ValModel>|
                    seq_contains_key(s1, x) <==> (x == k@ || seq_contains_key(s0, x)) by {
                    if seq_contains_key(s1, x) {
                        let i = seq_key_index(s1, x);
                        assert(0 <= i < s1.len() && s1[i].0 == x);
                        if i != p as int {
                            let i0 = if i < p as int {
                                i
                            } else {
                                i - 1
                            };
                            assert(s0[i0].0 == x);
                        }
                    }
                    if x == k@ {
                        assert(s1[p as int].0 == x);
                        assert(seq_contains_key(s1, x));
                    }
                    if seq_contains_key(s0, x) {
                        let i = choose|i: int| 0 <= i < s0.len() && (#[trigger] s0[i].0) == x;
                        if i < p as int {
                            assert(s1[i].0 == x);
                        } else {
                            assert(s1[i + 1].0 == x);
                        }
                        assert(seq_contains_key(s1, x));
                    }
                }
                assert(entries_as_map(s1) =~= entries_as_map(s0).insert(k@, v@)) by {
                    lemma_key_index_unique(s1, k@, p as int);
                    assert forall|x: Seq<ValModel>| #[trigger]
                        seq_contains_key(s1, x) implies entries_as_map(s1)[x] == entries_as_map(
                        s0,
                    ).insert(k@, v@)[x] by {
                        let i = seq_key_index(s1, x);
                        lemma_key_index_unique(s1, x, i);
                        if x == k@ {
                            assert(i == p as int);
                        } else {
                            let i0 = if i < p as int {
                                i
                            } else {
                                i - 1
                            };
                            assert(s0[i0].0 == x);
                            lemma_key_index_unique(s0, x, i0);
                        }
                    }
                }
            }
        }
    }
}

} // verus!
