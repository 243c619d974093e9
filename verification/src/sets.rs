//! Small ordered sets used by the candidate cache.
//!
//! Candidate values and candidate cells are kept as strictly increasing
//! vectors: the representation is canonical, iteration order is
//! deterministic, and membership is cheap for the tiny sizes involved
//! (at most the side length of a board).

use vstd::prelude::*;

use crate::board::CellLoc;

verus! {

/// A set of candidate values, stored as a strictly increasing vector.
#[derive(Debug, Clone, PartialEq, Eq)]
pub struct ValueSet {
    /// The values in strictly increasing order.
    pub values: Vec<u8>,
}

impl ValueSet {
    /// Canonical representation: strictly increasing, hence no duplicates.
    pub open spec fn wf(&self) -> bool {
        forall|i: int, j: int|
            0 <= i < j < self.values@.len() ==> self.values@[i] < self.values@[j]
    }

    /// The sequence of values in increasing order.
    pub open spec fn vseq(&self) -> Seq<u8> {
        self.values@
    }

    /// The mathematical set of values.
    pub open spec fn vset(&self) -> Set<u8> {
        self.values@.to_set()
    }

    /// The empty set of values.
    pub fn new() -> (r: ValueSet)
        ensures
            r.wf(),
            r.vset() =~= Set::<u8>::empty(),
            r.vseq().len() == 0,
    {
        ValueSet { values: Vec::new() }
    }

    /// The full range `1..=max`.
    pub fn full(max: u8) -> (r: ValueSet)
        ensures
            r.wf(),
            r.vset() =~= Set::new(|v: u8| 1 <= v <= max),
            r.vseq().len() == max,
    {
        let mut values: Vec<u8> = Vec::new();
        let mut v: usize = 1;
        while v <= max as usize
            invariant
                1 <= v <= max as int + 1,
                values@.len() == v - 1,
                forall|i: int| 0 <= i < values@.len() ==> values@[i] == i + 1,
            decreases max as int + 1 - v,
        {
            values.push(v as u8);
            v = v + 1;
        }
        let r = ValueSet { values };
        proof {
            assert forall|w: u8| r.vset().contains(w) <==> 1 <= w <= max by {
                if 1 <= w <= max {
                    assert(r.values@[w - 1] == w);
                    assert(r.values@.contains(w));
                }
            }
            assert(r.vset() =~= Set::new(|v: u8| 1 <= v <= max));
        }
        r
    }

    /// How many values the set holds.
    pub fn len(&self) -> (r: usize)
        ensures
            r == self.vseq().len(),
    {
        self.values.len()
    }

    /// Whether the set holds no value.
    pub fn is_empty(&self) -> (r: bool)
        ensures
            r == (self.vseq().len() == 0),
            r == self.vset().is_empty(),
    {
        proof {
            if self.values@.len() == 0 {
                assert(self.vset() =~= Set::<u8>::empty());
            } else {
                assert(self.vset().contains(self.values@[0]));
            }
        }
        self.values.len() == 0
    }

    /// Whether `v` is in the set.
    pub fn contains(&self, v: u8) -> (r: bool)
        ensures
            r == self.vset().contains(v),
    {
        let mut i: usize = 0;
        while i < self.values.len()
            invariant
                0 <= i <= self.values@.len(),
                forall|k: int| 0 <= k < i ==> self.values@[k] != v,
            decreases self.values@.len() - i,
        {
            if self.values[i] == v {
                assert(self.values@.contains(v));
                return true;
            }
            i = i + 1;
        }
        assert(!self.values@.contains(v));
        false
    }

    /// The value at position `i` of the increasing order.
    pub fn get(&self, i: usize) -> (r: u8)
        requires
            i < self.vseq().len(),
        ensures
            r == self.vseq()[i as int],
            self.vset().contains(r),
    {
        assert(self.values@.contains(self.values@[i as int]));
        self.values[i]
    }

    /// The smallest value of a non-empty set.
    pub fn first(&self) -> (r: u8)
        requires
            self.wf(),
            self.vseq().len() > 0,
        ensures
            r == self.vseq()[0],
            self.vset().contains(r),
            forall|v: u8| self.vset().contains(v) ==> r <= v,
    {
        proof {
            assert(self.values@.contains(self.values@[0]));
            assert forall|v: u8| self.vset().contains(v) implies self.values@[0] <= v by {
                let k = choose|k: int| 0 <= k < self.values@.len() && self.values@[k] == v;
                if k > 0 {
                    assert(self.values@[0] < self.values@[k]);
                }
            }
        }
        self.values[0]
    }

    /// Inserts `v`; returns whether the set changed (that is, `v` was new).
    pub fn insert(&mut self, v: u8) -> (r: bool)
        requires
            old(self).wf(),
        ensures
            final(self).wf(),
            final(self).vset() =~= old(self).vset().insert(v),
            r == !old(self).vset().contains(v),
            final(self).vseq().len() == old(self).vseq().len() + if r {
                1int
            } else {
                0int
            },
    {
        let ghost orig = self.values@;
        let mut i: usize = 0;
        while i < self.values.len() && self.values[i] < v
            invariant
                0 <= i <= self.values@.len(),
                self.values@ == orig,
                orig == old(self).vseq(),
                old(self).wf(),
                forall|k: int| 0 <= k < i ==> self.values@[k] < v,
            decreases self.values@.len() - i,
        {
            i = i + 1;
        }
        if i < self.values.len() && self.values[i] == v {
            assert(self.values@.contains(v));
            proof {
                assert(old(self).vset().insert(v) =~= old(self).vset());
            }
            return false;
        }
        assert(forall|k: int| i <= k < orig.len() ==> #[trigger] orig[k] > v) by {
            assert forall|k: int| i <= k < orig.len() implies #[trigger] orig[k] > v by {
                if k > i {
                    assert(orig[i as int] < orig[k]);
                }
            }
        }
        self.values.insert(i, v);
        proof {
            assert(!orig.contains(v));
            assert(self.values@ == orig.insert(i as int, v));
            assert forall|w: u8| self.vset().contains(w) <==> orig.to_set().insert(v).contains(w)
                by {
                if self.values@.contains(w) {
                    let k = choose|k: int|
                        0 <= k < self.values@.len() && self.values@[k] == w;
                    if k < i {
                        assert(orig[k] == w);
                        assert(orig.contains(w));
                    } else if k > i {
                        assert(orig[k - 1] == w);
                        assert(orig.contains(w));
                    }
                }
                if orig.contains(w) {
                    let k = choose|k: int| 0 <= k < orig.len() && orig[k] == w;
                    if k < i {
                        assert(self.values@[k] == w);
                    } else {
                        assert(self.values@[k + 1] == w);
                    }
                    assert(self.values@.contains(w));
                }
                if w == v {
                    assert(self.values@[i as int] == v);
                    assert(self.values@.contains(v));
                }
            }
            assert(self.vset() =~= orig.to_set().insert(v));
        }
        true
    }

    /// Removes `v`; returns whether it was present.
    pub fn remove(&mut self, v: u8) -> (r: bool)
        requires
            old(self).wf(),
        ensures
            final(self).wf(),
            final(self).vset() =~= old(self).vset().remove(v),
            r == old(self).vset().contains(v),
            final(self).vseq().len() == old(self).vseq().len() - if r {
                1int
            } else {
                0int
            },
    {
        let ghost orig = self.values@;
        let mut i: usize = 0;
        while i < self.values.len()
            invariant
                0 <= i <= self.values@.len(),
                self.values@ == orig,
                orig == old(self).vseq(),
                old(self).wf(),
                forall|k: int| 0 <= k < i ==> self.values@[k] != v,
            decreases self.values@.len() - i,
        {
            if self.values[i] == v {
                self.values.remove(i);
                proof {
                    assert(orig[i as int] == v);
                    assert(orig.contains(v));
                    assert(forall|k: int|
                        0 <= k < orig.len() && k != i ==> #[trigger] orig[k] != v);
                    assert forall|w: u8|
                        self.vset().contains(w) <==> orig.to_set().remove(v).contains(w) by {
                        if self.values@.contains(w) {
                            let k = choose|k: int|
                                0 <= k < self.values@.len() && self.values@[k] == w;
                            if k < i {
                                assert(orig[k] == w);
                            } else {
                                assert(orig[k + 1] == w);
                            }
                            assert(orig.contains(w));
                        }
                        if orig.contains(w) && w != v {
                            let k = choose|k: int| 0 <= k < orig.len() && orig[k] == w;
                            if k < i {
                                assert(self.values@[k] == w);
                            } else {
                                assert(self.values@[k - 1] == w);
                            }
                            assert(self.values@.contains(w));
                        }
                    }
                    assert(self.vset() =~= orig.to_set().remove(v));
                }
                return true;
            }
            i = i + 1;
        }
        assert(!orig.contains(v));
        proof {
            assert(self.vset() =~= orig.to_set().remove(v));
        }
        false
    }

    /// Builds a set from the values of a vector, in any order.
    pub fn from_vec(values: Vec<u8>) -> (r: ValueSet)
        ensures
            r.wf(),
            r.vset() =~= values@.to_set(),
    {
        let mut r = ValueSet::new();
        let mut i: usize = 0;
        while i < values.len()
            invariant
                0 <= i <= values@.len(),
                r.wf(),
                r.vset() =~= values@.take(i as int).to_set(),
            decreases values@.len() - i,
        {
            let v = values[i];
            r.insert(v);
            proof {
                assert(values@.take(i + 1).drop_last() == values@.take(i as int));
                assert(values@.take(i + 1).last() == values@[i as int]);
                assert(values@.take(i + 1).to_set() =~= values@.take(i as int).to_set().insert(v))
                    by {
                    lemma_to_set_drop_last(values@.take(i + 1));
                }
            }
            i = i + 1;
        }
        proof {
            assert(values@.take(values@.len() as int) == values@);
        }
        r
    }

    /// The values as a vector, in increasing order.
    pub fn to_vec(&self) -> (r: Vec<u8>)
        ensures
            r@ == self.vseq(),
    {
        self.values.clone()
    }

    /// A copy of the set with the same contents.
    pub fn duplicate(&self) -> (r: ValueSet)
        ensures
            r.vseq() == self.vseq(),
            r.vset() == self.vset(),
    {
        ValueSet { values: self.values.clone() }
    }

    /// All values in the set lie in `1..=max`.
    pub open spec fn in_range(&self, max: int) -> bool {
        forall|v: u8| self.vset().contains(v) ==> 1 <= v <= max
    }
}

/// The set of a non-empty sequence is the set of its prefix plus its last
/// element.
pub proof fn lemma_to_set_drop_last<A>(s: Seq<A>)
    requires
        s.len() > 0,
    ensures
        s.to_set() =~= s.drop_last().to_set().insert(s.last()),
{
    assert forall|a: A| s.to_set().contains(a) implies s.drop_last().to_set().insert(
        s.last(),
    ).contains(a) by {
        let k = choose|k: int| 0 <= k < s.len() && s[k] == a;
        if k < s.len() - 1 {
            assert(s.drop_last()[k] == a);
            assert(s.drop_last().contains(a));
        }
    }
    assert forall|a: A|
        s.drop_last().to_set().insert(s.last()).contains(a) implies s.to_set().contains(a) by {
        if s.drop_last().contains(a) {
            let k = choose|k: int| 0 <= k < s.drop_last().len() && s.drop_last()[k] == a;
            assert(s[k] == a);
        }
        assert(s.contains(s.last()));
    }
}

/// A set of cell locations, stored as a vector strictly increasing by flat
/// index.  Membership is decided by the flat index alone; the candidate
/// cache keeps all cells of one set on the same board.
#[derive(Debug, Clone, PartialEq, Eq)]
pub struct CellSet {
    /// The cells, strictly increasing by flat index.
    pub cells: Vec<CellLoc>,
}

impl CellSet {
    /// Canonical representation: strictly increasing flat indices.
    pub open spec fn wf(&self) -> bool {
        forall|i: int, j: int|
            0 <= i < j < self.cells@.len() ==> self.cells@[i].spec_index()
                < self.cells@[j].spec_index()
    }

    /// The sequence of cells in increasing index order.
    pub open spec fn cseq(&self) -> Seq<CellLoc> {
        self.cells@
    }

    /// The mathematical set of flat indices.
    pub open spec fn iset(&self) -> Set<int> {
        Set::new(
            |i: int|
                exists|k: int|
                    0 <= k < self.cells@.len() && (#[trigger] self.cells@[k]).spec_index() == i,
        )
    }

    /// The empty set of cells.
    pub fn new() -> (r: CellSet)
        ensures
            r.wf(),
            r.iset() =~= Set::<int>::empty(),
            r.cseq().len() == 0,
    {
        CellSet { cells: Vec::new() }
    }

    /// How many cells the set holds.
    pub fn len(&self) -> (r: usize)
        ensures
            r == self.cseq().len(),
    {
        self.cells.len()
    }

    /// Whether the set holds no cell.
    pub fn is_empty(&self) -> (r: bool)
        ensures
            r == (self.cseq().len() == 0),
            r == self.iset().is_empty(),
    {
        proof {
            if self.cells@.len() == 0 {
                assert(self.iset() =~= Set::<int>::empty());
            } else {
                assert(self.iset().contains(self.cells@[0].spec_index()));
            }
        }
        self.cells.len() == 0
    }

    /// Whether a cell with this flat index is in the set.
    pub fn contains(&self, cell: &CellLoc) -> (r: bool)
        ensures
            r == self.iset().contains(cell.spec_index()),
    {
        let idx = cell.get_index();
        let mut i: usize = 0;
        while i < self.cells.len()
            invariant
                0 <= i <= self.cells@.len(),
                idx == cell.spec_index(),
                forall|k: int| 0 <= k < i ==> (#[trigger] self.cells@[k]).spec_index() != idx,
            decreases self.cells@.len() - i,
        {
            if self.cells[i].get_index() == idx {
                proof {
                    assert(0 <= i < self.cells@.len() && self.cells@[i as int].spec_index()
                        == cell.spec_index());
                    assert(self.iset().contains(cell.spec_index()));
                }
                return true;
            }
            i = i + 1;
        }
        false
    }

    /// The cell at position `i` of the increasing order.
    pub fn get(&self, i: usize) -> (r: CellLoc)
        requires
            i < self.cseq().len(),
        ensures
            r == self.cseq()[i as int],
            self.iset().contains(r.spec_index()),
    {
        proof {
            assert(self.cells@[i as int].spec_index() == self.cells@[i as int].spec_index());
        }
        self.cells[i]
    }

    /// Inserts a cell; returns whether the set changed.
    pub fn insert(&mut self, cell: CellLoc) -> (r: bool)
        requires
            old(self).wf(),
        ensures
            final(self).wf(),
            final(self).iset() =~= old(self).iset().insert(cell.spec_index()),
            r == !old(self).iset().contains(cell.spec_index()),
            final(self).cseq().len() == old(self).cseq().len() + if r {
                1int
            } else {
                0int
            },
            !r ==> final(self).cseq() == old(self).cseq(),
            r ==> (forall|k: int|
                0 <= k < final(self).cseq().len() ==> final(self).cseq()[k] == cell || old(
                    self,
                ).cseq().contains(#[trigger] final(self).cseq()[k])),
            r ==> final(self).cseq().contains(cell),
    {
        let ghost orig = self.cells@;
        let idx = cell.get_index();
        let mut i: usize = 0;
        while i < self.cells.len() && self.cells[i].get_index() < idx
            invariant
                0 <= i <= self.cells@.len(),
                self.cells@ == orig,
                orig == old(self).cseq(),
                old(self).wf(),
                idx == cell.spec_index(),
                forall|k: int| 0 <= k < i ==> (#[trigger] self.cells@[k]).spec_index() < idx,
            decreases self.cells@.len() - i,
        {
            i = i + 1;
        }
        if i < self.cells.len() && self.cells[i].get_index() == idx {
            proof {
                assert(old(self).iset().contains(cell.spec_index()));
                assert(old(self).iset().insert(cell.spec_index()) =~= old(self).iset());
            }
            return false;
        }
        proof {
            assert forall|k: int| i <= k < orig.len() implies (#[trigger] orig[k]).spec_index()
                > idx by {
                if k > i {
                    assert(orig[i as int].spec_index() < orig[k].spec_index());
                }
            }
            assert(!old(self).iset().contains(cell.spec_index()));
        }
        self.cells.insert(i, cell);
        proof {
            assert(self.cells@ == orig.insert(i as int, cell));
            assert forall|w: int| #[trigger]
                self.iset().contains(w) implies (w == idx || old(self).iset().contains(w)) by {
                let k = choose|k: int|
                    0 <= k < self.cells@.len() && self.cells@[k].spec_index() == w;
                if k < i {
                    assert(orig[k].spec_index() == w);
                } else if k > i {
                    assert(orig[k - 1].spec_index() == w);
                }
            }
            assert forall|w: int|
                w == idx || old(self).iset().contains(w) implies #[trigger] self.iset().contains(
                w,
            ) by {
                if w == idx {
                    assert(self.cells@[i as int].spec_index() == w);
                } else {
                    let k = choose|k: int| 0 <= k < orig.len() && orig[k].spec_index() == w;
                    if k < i {
                        assert(self.cells@[k].spec_index() == w);
                    } else {
                        assert(self.cells@[k + 1].spec_index() == w);
                    }
                }
            }
            assert(self.iset() =~= old(self).iset().insert(cell.spec_index()));
            assert forall|k: int|
                0 <= k < self.cells@.len() implies self.cells@[k] == cell || orig.contains(
                #[trigger] self.cells@[k],
            ) by {
                if k < i {
                    assert(orig[k] == self.cells@[k]);
                } else if k > i {
                    assert(orig[k - 1] == self.cells@[k]);
                }
            }
            assert(self.cells@[i as int] == cell);
            assert(self.cells@.contains(cell));
        }
        true
    }

    /// Removes the cell with this flat index; returns whether it was present.
    pub fn remove(&mut self, cell: &CellLoc) -> (r: bool)
        requires
            old(self).wf(),
        ensures
            final(self).wf(),
            final(self).iset() =~= old(self).iset().remove(cell.spec_index()),
            r == old(self).iset().contains(cell.spec_index()),
            final(self).cseq().len() == old(self).cseq().len() - if r {
                1int
            } else {
                0int
            },
            forall|k: int|
                0 <= k < final(self).cseq().len() ==> old(self).cseq().contains(
                    #[trigger] final(self).cseq()[k],
                ),
    {
        let ghost orig = self.cells@;
        let idx = cell.get_index();
        let mut i: usize = 0;
        while i < self.cells.len()
            invariant
                0 <= i <= self.cells@.len(),
                self.cells@ == orig,
                orig == old(self).cseq(),
                old(self).wf(),
                idx == cell.spec_index(),
                forall|k: int| 0 <= k < i ==> (#[trigger] self.cells@[k]).spec_index() != idx,
            decreases self.cells@.len() - i,
        {
            if self.cells[i].get_index() == idx {
                self.cells.remove(i);
                proof {
                    assert(orig[i as int].spec_index() == idx);
                    assert(old(self).iset().contains(cell.spec_index()));
                    assert forall|k: int|
                        0 <= k < orig.len() && k != i implies (#[trigger] orig[k]).spec_index()
                        != idx by {
                        if k < i {
                            assert(orig[k].spec_index() < orig[i as int].spec_index());
                        } else {
                            assert(orig[i as int].spec_index() < orig[k].spec_index());
                        }
                    }
                    assert forall|w: int| #[trigger]
                        self.iset().contains(w) implies old(self).iset().remove(
                        cell.spec_index(),
                    ).contains(w) by {
                        let k = choose|k: int|
                            0 <= k < self.cells@.len() && self.cells@[k].spec_index() == w;
                        if k < i {
                            assert(orig[k].spec_index() == w);
                        } else {
                            assert(orig[k + 1].spec_index() == w);
                        }
                    }
                    assert forall|w: int|
                        old(self).iset().remove(cell.spec_index()).contains(w) implies #[trigger]
                    self.iset().contains(w) by {
                        let k = choose|k: int| 0 <= k < orig.len() && orig[k].spec_index() == w;
                        if k < i {
                            assert(self.cells@[k].spec_index() == w);
                        } else if k > i {
                            assert(self.cells@[k - 1].spec_index() == w);
                        }
                    }
                    assert(self.iset() =~= old(self).iset().remove(cell.spec_index()));
                    assert forall|k: int|
                        0 <= k < self.cells@.len() implies orig.contains(
                        #[trigger] self.cells@[k],
                    ) by {
                        if k < i {
                            assert(orig[k] == self.cells@[k]);
                        } else {
                            assert(orig[k + 1] == self.cells@[k]);
                        }
                    }
                }
                return true;
            }
            i = i + 1;
        }
        proof {
            assert(!old(self).iset().contains(cell.spec_index()));
            assert(self.iset() =~= old(self).iset().remove(cell.spec_index()));
        }
        false
    }

    /// The cells as a vector, in increasing index order.
    pub fn to_vec(&self) -> (r: Vec<CellLoc>)
        ensures
            r@ == self.cseq(),
    {
        self.cells.clone()
    }

    /// A copy of the set with the same contents.
    pub fn duplicate(&self) -> (r: CellSet)
        ensures
            r.cseq() == self.cseq(),
            r.iset() == self.iset(),
    {
        CellSet { cells: self.cells.clone() }
    }
}

} // verus!
