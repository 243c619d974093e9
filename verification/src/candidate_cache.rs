//! The candidate cache: the derived indexes that drive the solver.
//!
//! From a board snapshot the cache derives (a) the set of still-legal values
//! per empty cell and (b), for every (block, value) pair, the set of cells
//! where that value can still go.  The two indexes are kept mutually
//! consistent at every stable point; a single [`CandidateCache::set_value`]
//! call may break the invariant internally but either completes with it
//! restored, or rolls itself back and fails.

use vstd::prelude::*;

use crate::board::{
    Board, CellLoc, candidates_of, cell_count, col_of, line_of, same_block, side_len, square_of,
    valid_base,
};
use crate::indexed_map::{Indexed, IndexedMap};
use crate::sets::{CellSet, ValueSet};

verus! {

impl Indexed for CellLoc {
    open spec fn key_idx(&self) -> int {
        self.spec_index()
    }

    open spec fn idx_ok(&self) -> bool {
        true
    }

    fn idx(&self) -> (r: usize)
        ensures
            r as int == self.key_idx(),
    {
        self.get_index()
    }
}

/// One of the three constraint groups a cell belongs to: its line, its
/// column or its square, each named by its 0-based number.
#[derive(Hash, Debug, PartialEq, Eq, Copy, Clone, Structural)]
pub enum Block {
    /// A full line of the board.
    Line(usize),
    /// A full column of the board.
    Col(usize),
    /// A square sub-block of the board.
    Square(usize),
}

/// The dense axis number of a block among the `3 * side` blocks of a board.
pub open spec fn block_axis(b: Block, side: int) -> int {
    match b {
        Block::Line(l) => l as int,
        Block::Col(c) => side + c,
        Block::Square(s) => 2 * side + s,
    }
}

/// The block's own coordinate is within the side length.
pub open spec fn block_in_range(b: Block, side: int) -> bool {
    match b {
        Block::Line(l) => l < side,
        Block::Col(c) => c < side,
        Block::Square(s) => s < side,
    }
}

/// Whether the cell with index `j` belongs to the block with axis number `a`.
pub open spec fn cell_in_axis(j: int, a: int, n: int) -> bool {
    if a < side_len(n) {
        line_of(j, n) == a
    } else if a < 2 * side_len(n) {
        col_of(j, n) == a - side_len(n)
    } else {
        square_of(j, n) == a - 2 * side_len(n)
    }
}

/// The bucket index of the pair (block axis `a`, value `v`).
pub open spec fn bk_of(a: int, v: u8, n: int) -> int {
    a * side_len(n) + (v - 1)
}

/// The value a bucket index stands for.
pub open spec fn bk_val(bk: int, n: int) -> u8 {
    (bk % side_len(n) + 1) as u8
}

/// The block axis a bucket index stands for.
pub open spec fn bk_axis(bk: int, n: int) -> int {
    bk / side_len(n)
}

/// A bucket index decomposes uniquely into its axis and value.
pub proof fn lemma_bk_decompose(a: int, v: u8, n: int)
    requires
        valid_base(n),
        0 <= a < 3 * side_len(n),
        1 <= v <= side_len(n),
    ensures
        0 <= bk_of(a, v, n) < 3 * side_len(n) * side_len(n),
        bk_axis(bk_of(a, v, n), n) == a,
        bk_val(bk_of(a, v, n), n) == v,
{
    assert(0 <= a * side_len(n) + (v - 1) < 3 * side_len(n) * side_len(n)) by (nonlinear_arith)
        requires
            0 <= a < 3 * side_len(n),
            1 <= v <= side_len(n),
            side_len(n) >= 1,
    ;
    if n == 2 {
        assert(bk_of(a, v, 2) == a * 4 + (v - 1));
        assert((a * 4 + (v - 1)) / 4 == a && (a * 4 + (v - 1)) % 4 == v - 1);
    } else if n == 3 {
        assert(bk_of(a, v, 3) == a * 9 + (v - 1));
        assert((a * 9 + (v - 1)) / 9 == a && (a * 9 + (v - 1)) % 9 == v - 1);
    } else {
        assert(bk_of(a, v, 4) == a * 16 + (v - 1));
        assert((a * 16 + (v - 1)) / 16 == a && (a * 16 + (v - 1)) % 16 == v - 1);
    }
}

/// The key of a candidate bucket: a block paired with a value, on a board
/// with the given side length.
#[derive(Debug, PartialEq, Eq, Copy, Clone, Structural)]
pub struct BlockValue {
    /// The block.
    pub block: Block,
    /// The value tracked for that block.
    pub value: u8,
    /// The side length of the board (`base_size * base_size`).
    pub side: usize,
}

impl Indexed for BlockValue {
    open spec fn key_idx(&self) -> int {
        block_axis(self.block, self.side as int) * (self.side as int) + (self.value - 1)
    }

    open spec fn idx_ok(&self) -> bool {
        &&& self.side <= 16
        &&& block_in_range(self.block, self.side as int)
        &&& 1 <= self.value <= self.side
    }

    fn idx(&self) -> (r: usize)
        ensures
            r as int == self.key_idx(),
    {
        proof {
            assert(self.idx_ok());
        }
        let a = match self.block {
            Block::Line(l) => l,
            Block::Col(c) => self.side + c,
            Block::Square(s) => 2 * self.side + s,
        };
        proof {
            assert(a <= 48);
            assert(a * self.side <= 48 * 16) by (nonlinear_arith)
                requires
                    a <= 48,
                    self.side <= 16,
            ;
        }
        a * self.side + (self.value as usize - 1)
    }
}

/// An opaque undo token: records every candidate cache change that one
/// successful [`CandidateCache::set_value`] call made, sufficient to restore
/// the cache exactly to the pre-assignment state.
#[derive(Debug)]
pub struct UndoSetValue {
    /// Cells removed from candidate buckets: (value, cell, block).
    pub moves: Vec<(u8, CellLoc, Block)>,
    /// The assigned cell and the whole candidate entry it lost.
    pub options: (CellLoc, Option<ValueSet>),
    /// Single values removed from other cells' candidate entries.
    pub affected_cell_options: Vec<(CellLoc, u8)>,
}

impl UndoSetValue {
    /// The candidate values the assigned cell had before the assignment.
    pub fn alternative_options(&self) -> (r: &Option<ValueSet>)
        ensures
            r == &self.options.1,
    {
        &self.options.1
    }

    /// All recorded items are on a board of base size `n` and in range.
    pub open spec fn ranges_ok(&self, n: int) -> bool {
        let side = side_len(n);
        &&& forall|t: int|
            0 <= t < self.moves@.len() ==> {
                let (v, c, b) = #[trigger] self.moves@[t];
                c.wf() && c.spec_base() == n && 1 <= v <= side && block_in_range(b, side)
            }
        &&& forall|t: int|
            0 <= t < self.affected_cell_options@.len() ==> {
                let (c, v) = #[trigger] self.affected_cell_options@[t];
                c.wf() && c.spec_base() == n && 1 <= v <= side
            }
        &&& self.options.0.wf() && self.options.0.spec_base() == n
        &&& (self.options.1 is Some ==> self.options.1->0.wf() && self.options.1->0.in_range(side))
    }
}

/// The bucket index a recorded move targets.
pub open spec fn bk_of_move(mv: (u8, CellLoc, Block), n: int) -> int {
    bk_of(block_axis(mv.2, side_len(n)), mv.0, n)
}

/// Adds cell `i` to bucket `bk`, creating the bucket if absent.
pub open spec fn cc_add(cc: Map<int, Set<int>>, bk: int, i: int) -> Map<int, Set<int>> {
    cc.insert(
        bk,
        if cc.dom().contains(bk) {
            cc[bk].insert(i)
        } else {
            Set::empty().insert(i)
        },
    )
}

/// Applies the recorded bucket reinsertions, first to last.
pub open spec fn apply_moves(
    cc: Map<int, Set<int>>,
    moves: Seq<(u8, CellLoc, Block)>,
    n: int,
) -> Map<int, Set<int>>
    decreases moves.len(),
{
    if moves.len() == 0 {
        cc
    } else {
        let mv = moves.last();
        cc_add(apply_moves(cc, moves.drop_last(), n), bk_of_move(mv, n), mv.1.spec_index())
    }
}

/// The buckets the recorded moves touch.
pub open spec fn move_buckets(moves: Seq<(u8, CellLoc, Block)>, n: int) -> Set<int> {
    Set::new(
        |bk: int| exists|t: int| 0 <= t < moves.len() && bk_of_move(#[trigger] moves[t], n) == bk,
    )
}

/// The cells the recorded moves add to bucket `bk`.
pub open spec fn move_adds(moves: Seq<(u8, CellLoc, Block)>, bk: int, n: int) -> Set<int> {
    Set::new(
        |i: int|
            exists|t: int|
                0 <= t < moves.len() && bk_of_move(#[trigger] moves[t], n) == bk
                    && moves[t].1.spec_index() == i,
    )
}

/// What applying recorded moves does, bucket by bucket: each touched bucket
/// gains exactly the recorded cells, every other bucket is unchanged.
pub proof fn lemma_apply_moves_char(cc: Map<int, Set<int>>, moves: Seq<(u8, CellLoc, Block)>, n: int)
    ensures
        apply_moves(cc, moves, n).dom() =~= cc.dom().union(move_buckets(moves, n)),
        forall|bk: int|
            cc.dom().contains(bk) && !move_buckets(moves, n).contains(bk)
                ==> apply_moves(cc, moves, n)[bk] == cc[bk],
        forall|bk: int|
            move_buckets(moves, n).contains(bk) ==> apply_moves(cc, moves, n)[bk] =~= (
            if cc.dom().contains(bk) {
                cc[bk]
            } else {
                Set::empty()
            }).union(move_adds(moves, bk, n)),
    decreases moves.len(),
{
    if moves.len() == 0 {
        assert(move_buckets(moves, n) =~= Set::<int>::empty());
        assert(apply_moves(cc, moves, n).dom() =~= cc.dom().union(move_buckets(moves, n)));
    } else {
        let pre = moves.drop_last();
        let mv = moves.last();
        let bk0 = bk_of_move(mv, n);
        let i0 = mv.1.spec_index();
        lemma_apply_moves_char(cc, pre, n);
        let before = apply_moves(cc, pre, n);
        assert(apply_moves(cc, moves, n) == cc_add(before, bk0, i0));
        assert(move_buckets(moves, n) =~= move_buckets(pre, n).insert(bk0)) by {
            assert forall|bk: int| move_buckets(moves, n).contains(bk) implies move_buckets(
                pre,
                n,
            ).insert(bk0).contains(bk) by {
                let t = choose|t: int|
                    0 <= t < moves.len() && bk_of_move(#[trigger] moves[t], n) == bk;
                if t < moves.len() - 1 {
                    assert(pre[t] == moves[t]);
                    assert(move_buckets(pre, n).contains(bk));
                }
            }
            assert forall|bk: int|
                move_buckets(pre, n).insert(bk0).contains(bk) implies move_buckets(
                moves,
                n,
            ).contains(bk) by {
                if bk == bk0 {
                    assert(bk_of_move(moves[moves.len() - 1], n) == bk);
                } else {
                    let t = choose|t: int|
                        0 <= t < pre.len() && bk_of_move(#[trigger] pre[t], n) == bk;
                    assert(bk_of_move(moves[t], n) == bk);
                }
            }
        }
        assert forall|bk: int| #[trigger]
            move_buckets(moves, n).contains(bk) implies apply_moves(cc, moves, n)[bk] =~= (
        if cc.dom().contains(bk) {
            cc[bk]
        } else {
            Set::empty()
        }).union(move_adds(moves, bk, n)) by {
            let base = if cc.dom().contains(bk) {
                cc[bk]
            } else {
                Set::<int>::empty()
            };
            assert forall|i: int|
                move_adds(moves, bk, n).contains(i) && !(bk == bk0 && i == i0) implies move_adds(
                pre,
                bk,
                n,
            ).contains(i) by {
                let t = choose|t: int|
                    0 <= t < moves.len() && bk_of_move(#[trigger] moves[t], n) == bk
                        && moves[t].1.spec_index() == i;
                assert(t < moves.len() - 1);
                assert(pre[t] == moves[t]);
            }
            assert forall|i: int| move_adds(pre, bk, n).contains(i) implies move_adds(
                moves,
                bk,
                n,
            ).contains(i) by {
                let t = choose|t: int|
                    0 <= t < pre.len() && bk_of_move(#[trigger] pre[t], n) == bk
                        && pre[t].1.spec_index() == i;
                assert(bk_of_move(moves[t], n) == bk && moves[t].1.spec_index() == i);
            }
            if bk == bk0 {
                assert(move_adds(moves, bk, n).contains(i0)) by {
                    assert(bk_of_move(moves[moves.len() - 1], n) == bk);
                }
                if move_buckets(pre, n).contains(bk) {
                    assert(before[bk] =~= base.union(move_adds(pre, bk, n)));
                    assert(apply_moves(cc, moves, n)[bk] =~= before[bk].insert(i0));
                    assert(before[bk].insert(i0) =~= base.union(move_adds(moves, bk, n)));
                } else {
                    assert(move_adds(pre, bk, n) =~= Set::<int>::empty());
                    if cc.dom().contains(bk) {
                        assert(before[bk] == cc[bk]);
                        assert(apply_moves(cc, moves, n)[bk] =~= cc[bk].insert(i0));
                        assert(cc[bk].insert(i0) =~= base.union(move_adds(moves, bk, n)));
                    } else {
                        assert(!before.dom().contains(bk));
                        assert(apply_moves(cc, moves, n)[bk] =~= Set::empty().insert(i0));
                        assert(Set::empty().insert(i0) =~= base.union(move_adds(moves, bk, n)));
                    }
                }
            } else {
                assert(move_buckets(pre, n).contains(bk));
                assert(apply_moves(cc, moves, n)[bk] == before[bk]);
                assert(move_adds(moves, bk, n) =~= move_adds(pre, bk, n));
            }
        }
        assert(apply_moves(cc, moves, n).dom() =~= cc.dom().union(move_buckets(moves, n)));
    }
}

/// Adds value `v` to the entry of cell `j`, creating the entry if absent.
pub open spec fn pv_add(pv: Map<int, Set<u8>>, j: int, v: u8) -> Map<int, Set<u8>> {
    pv.insert(
        j,
        if pv.dom().contains(j) {
            pv[j].insert(v)
        } else {
            Set::empty().insert(v)
        },
    )
}

/// Applies the recorded per-cell value reinsertions, first to last.
pub open spec fn apply_affected(
    pv: Map<int, Set<u8>>,
    affected: Seq<(CellLoc, u8)>,
) -> Map<int, Set<u8>>
    decreases affected.len(),
{
    if affected.len() == 0 {
        pv
    } else {
        let (c, v) = affected.last();
        pv_add(apply_affected(pv, affected.drop_last()), c.spec_index(), v)
    }
}

/// Reinstates the assigned cell's whole candidate entry, if one was removed.
pub open spec fn apply_options(
    pv: Map<int, Set<u8>>,
    options: (CellLoc, Option<ValueSet>),
) -> Map<int, Set<u8>> {
    match options.1 {
        Some(vs) => pv.insert(options.0.spec_index(), vs.vset()),
        None => pv,
    }
}

/// The full effect of an undo token on the per-cell candidate map.
pub open spec fn apply_undo_pv(pv: Map<int, Set<u8>>, tok: UndoSetValue) -> Map<int, Set<u8>> {
    apply_affected(apply_options(pv, tok.options), tok.affected_cell_options@)
}

/// The cells the recorded reinsertions touch.
pub open spec fn affected_cells(affected: Seq<(CellLoc, u8)>) -> Set<int> {
    Set::new(
        |j: int|
            exists|t: int|
                0 <= t < affected.len() && (#[trigger] affected[t]).0.spec_index() == j,
    )
}

/// The values the recorded reinsertions add to cell `j`.
pub open spec fn affected_adds(affected: Seq<(CellLoc, u8)>, j: int) -> Set<u8> {
    Set::new(
        |v: u8|
            exists|t: int|
                0 <= t < affected.len() && (#[trigger] affected[t]).0.spec_index() == j
                    && affected[t].1 == v,
    )
}

/// What applying recorded value reinsertions does, cell by cell.
pub proof fn lemma_apply_affected_char(pv: Map<int, Set<u8>>, affected: Seq<(CellLoc, u8)>)
    ensures
        apply_affected(pv, affected).dom() =~= pv.dom().union(affected_cells(affected)),
        forall|j: int|
            pv.dom().contains(j) && !affected_cells(affected).contains(j) ==> apply_affected(
                pv,
                affected,
            )[j] == pv[j],
        forall|j: int|
            affected_cells(affected).contains(j) ==> apply_affected(pv, affected)[j] =~= (
            if pv.dom().contains(j) {
                pv[j]
            } else {
                Set::empty()
            }).union(affected_adds(affected, j)),
    decreases affected.len(),
{
    if affected.len() == 0 {
        assert(affected_cells(affected) =~= Set::<int>::empty());
        assert(apply_affected(pv, affected).dom() =~= pv.dom().union(affected_cells(affected)));
    } else {
        let pre = affected.drop_last();
        let (c0, v0) = affected.last();
        let j0 = c0.spec_index();
        lemma_apply_affected_char(pv, pre);
        let before = apply_affected(pv, pre);
        assert(apply_affected(pv, affected) == pv_add(before, j0, v0));
        assert(affected_cells(affected) =~= affected_cells(pre).insert(j0)) by {
            assert forall|j: int| affected_cells(affected).contains(j) implies affected_cells(
                pre,
            ).insert(j0).contains(j) by {
                let t = choose|t: int|
                    0 <= t < affected.len() && (#[trigger] affected[t]).0.spec_index() == j;
                if t < affected.len() - 1 {
                    assert(pre[t] == affected[t]);
                    assert(affected_cells(pre).contains(j));
                }
            }
            assert forall|j: int|
                affected_cells(pre).insert(j0).contains(j) implies affected_cells(
                affected,
            ).contains(j) by {
                if j == j0 {
                    assert((affected[affected.len() - 1]).0.spec_index() == j);
                } else {
                    let t = choose|t: int|
                        0 <= t < pre.len() && (#[trigger] pre[t]).0.spec_index() == j;
                    assert((affected[t]).0.spec_index() == j);
                }
            }
        }
        assert forall|j: int| #[trigger]
            affected_cells(affected).contains(j) implies apply_affected(pv, affected)[j] =~= (
        if pv.dom().contains(j) {
            pv[j]
        } else {
            Set::empty()
        }).union(affected_adds(affected, j)) by {
            let base = if pv.dom().contains(j) {
                pv[j]
            } else {
                Set::<u8>::empty()
            };
            assert forall|v: u8|
                affected_adds(affected, j).contains(v) && !(j == j0 && v == v0)
                    implies affected_adds(pre, j).contains(v) by {
                let t = choose|t: int|
                    0 <= t < affected.len() && (#[trigger] affected[t]).0.spec_index() == j
                        && affected[t].1 == v;
                assert(t < affected.len() - 1);
                assert(pre[t] == affected[t]);
            }
            assert forall|v: u8| affected_adds(pre, j).contains(v) implies affected_adds(
                affected,
                j,
            ).contains(v) by {
                let t = choose|t: int|
                    0 <= t < pre.len() && (#[trigger] pre[t]).0.spec_index() == j && pre[t].1 == v;
                assert((affected[t]).0.spec_index() == j && affected[t].1 == v);
            }
            if j == j0 {
                assert(affected_adds(affected, j).contains(v0)) by {
                    assert((affected[affected.len() - 1]).0.spec_index() == j);
                }
                if affected_cells(pre).contains(j) {
                    assert(before[j] =~= base.union(affected_adds(pre, j)));
                    assert(apply_affected(pv, affected)[j] =~= before[j].insert(v0));
                    assert(before[j].insert(v0) =~= base.union(affected_adds(affected, j)));
                } else {
                    assert(affected_adds(pre, j) =~= Set::<u8>::empty());
                    if pv.dom().contains(j) {
                        assert(before[j] == pv[j]);
                        assert(apply_affected(pv, affected)[j] =~= pv[j].insert(v0));
                        assert(pv[j].insert(v0) =~= base.union(affected_adds(affected, j)));
                    } else {
                        assert(!before.dom().contains(j));
                        assert(apply_affected(pv, affected)[j] =~= Set::empty().insert(v0));
                        assert(Set::empty().insert(v0) =~= base.union(
                            affected_adds(affected, j),
                        ));
                    }
                }
            } else {
                assert(affected_cells(pre).contains(j));
                assert(apply_affected(pv, affected)[j] == before[j]);
                assert(affected_adds(affected, j) =~= affected_adds(pre, j));
            }
        }
        assert(apply_affected(pv, affected).dom() =~= pv.dom().union(affected_cells(affected)));
    }
}

/// Bucket `bk` exists and holds cell `i`.
pub open spec fn bucket_has(cc: Map<int, Set<int>>, bk: int, i: int) -> bool {
    cc.dom().contains(bk) && cc[bk].contains(i)
}

/// Cell `i` with candidate `v` is registered in the buckets of all three of
/// its blocks.
pub open spec fn fwd_ok(i: int, v: u8, cc: Map<int, Set<int>>, n: int) -> bool {
    &&& bucket_has(cc, bk_of(line_of(i, n), v, n), i)
    &&& bucket_has(cc, bk_of(side_len(n) + col_of(i, n), v, n), i)
    &&& bucket_has(cc, bk_of(2 * side_len(n) + square_of(i, n), v, n), i)
}

/// A bucket member points back at a candidate entry: the cell is open, still
/// allows the bucket's value, and lies in the bucket's block.
pub open spec fn bwd_ok(bk: int, i: int, pv: Map<int, Set<u8>>, n: int) -> bool {
    let side = side_len(n);
    &&& 0 <= bk < 3 * side * side
    &&& 0 <= i < cell_count(n)
    &&& pv.dom().contains(i)
    &&& pv[i].contains(bk_val(bk, n))
    &&& cell_in_axis(i, bk_axis(bk, n), n)
}

/// The cache consistency invariant: a value is possible at a cell exactly
/// when the cell is a member of that value's bucket in every block that
/// contains the cell.
pub open spec fn cache_consistent(pv: Map<int, Set<u8>>, cc: Map<int, Set<int>>, n: int) -> bool {
    &&& forall|i: int, v: u8|
        pv.dom().contains(i) && #[trigger] pv[i].contains(v) ==> 0 <= i < cell_count(n) && 1 <= v
            <= side_len(n) && fwd_ok(i, v, cc, n)
    &&& forall|bk: int, i: int|
        cc.dom().contains(bk) && #[trigger] cc[bk].contains(i) ==> bwd_ok(bk, i, pv, n)
}

/// One (block, value, candidate cells) triple as exposed by
/// [`CandidateCache::iter_candidates`].
#[derive(Debug, Clone, PartialEq)]
pub struct Candidates {
    /// The value.
    pub value: u8,
    /// The block.
    pub block: Block,
    /// The cells of the block where the value can still go.
    pub cells: CellSet,
}

/// Error returned by [`CandidateCache::set_value`] when an assignment would
/// leave some open cell with no candidate value at all; the field is the
/// cell whose assignment was attempted.
#[derive(Debug, Clone, PartialEq)]
pub struct NoCadidatesLeftError(pub CellLoc);

/// The per-cell and per-(block, value) candidate indexes derived from a
/// board snapshot, supporting reversible single-cell assignment.
#[derive(Debug, Clone, PartialEq)]
pub struct CandidateCache {
    /// The base size of the board the cache was built from.
    pub base_size: usize,
    /// Maps every open cell to its still-legal values.
    pub possible_values: IndexedMap<CellLoc, ValueSet>,
    /// Maps every (block, value) bucket to the cells where the value can
    /// still go.
    pub candidate_cells: IndexedMap<BlockValue, CellSet>,
}

impl CandidateCache {
    /// The base size as a mathematical integer.
    pub open spec fn sbase(&self) -> int {
        self.base_size as int
    }

    /// The per-cell candidate map, cell index to value set.
    pub open spec fn pv(&self) -> Map<int, Set<u8>> {
        self.possible_values.m().map_values(|vs: ValueSet| vs.vset())
    }

    /// The bucket map, bucket index to cell index set.
    pub open spec fn cc(&self) -> Map<int, Set<int>> {
        self.candidate_cells.m().map_values(|cs: CellSet| cs.iset())
    }

    /// Representation invariants that hold even mid-operation: map shapes,
    /// key shapes, canonical sets.
    pub open spec fn structural(&self) -> bool {
        let n = self.sbase();
        let side = side_len(n);
        &&& valid_base(n)
        &&& self.possible_values.wf()
        &&& self.possible_values.capacity() == cell_count(n)
        &&& self.candidate_cells.wf()
        &&& self.candidate_cells.capacity() == 3 * side * side
        &&& forall|i: int|
            self.possible_values.m().dom().contains(i) ==> (
            #[trigger] self.possible_values.key_at(i)).wf() && self.possible_values.key_at(
                i,
            ).spec_base() == n
        &&& forall|i: int|
            self.possible_values.m().dom().contains(i) ==> (
            #[trigger] self.possible_values.m()[i]).wf()
                && self.possible_values.m()[i].in_range(side)
        &&& forall|bk: int|
            self.candidate_cells.m().dom().contains(bk) ==> {
                let key = #[trigger] self.candidate_cells.key_at(bk);
                key.side == side && block_in_range(key.block, side) && 1 <= key.value <= side
            }
        &&& forall|bk: int|
            self.candidate_cells.m().dom().contains(bk) ==> (
            #[trigger] self.candidate_cells.m()[bk]).wf()
        &&& forall|bk: int, t: int|
            self.candidate_cells.m().dom().contains(bk) && 0 <= t
                < self.candidate_cells.m()[bk].cseq().len() ==> (
            #[trigger] self.candidate_cells.m()[bk].cseq()[t]).wf()
                && self.candidate_cells.m()[bk].cseq()[t].spec_base() == n
    }

    /// The cache invariant: well-shaped, and the two indexes mutually
    /// consistent.
    pub open spec fn wf(&self) -> bool {
        &&& self.structural()
        &&& cache_consistent(self.pv(), self.cc(), self.sbase())
    }

    /// The side length of the cache's board.
    fn side(&self) -> (r: usize)
        requires
            valid_base(self.sbase()),
        ensures
            r == side_len(self.sbase()),
    {
        self.base_size * self.base_size
    }

    /// Adds `cell` to the bucket of (`block`, `value`), creating the bucket
    /// if it does not exist yet.
    fn bucket_insert_cell(&mut self, block: Block, value: u8, cell: CellLoc)
        requires
            old(self).structural(),
            block_in_range(block, side_len(old(self).sbase())),
            1 <= value <= side_len(old(self).sbase()),
            cell.wf(),
            cell.spec_base() == old(self).sbase(),
        ensures
            final(self).structural(),
            final(self).base_size == old(self).base_size,
            final(self).possible_values == old(self).possible_values,
            final(self).cc() =~= cc_add(
                old(self).cc(),
                bk_of(block_axis(block, side_len(old(self).sbase())), value, old(self).sbase()),
                cell.spec_index(),
            ),
    {
        let ghost n = self.sbase();
        let side = self.side();
        let key = BlockValue { block, value, side };
        proof {
            lemma_bk_decompose(block_axis(block, side_len(n)), value, n);
            assert(key.key_idx() == bk_of(block_axis(block, side_len(n)), value, n));
        }
        let existing = self.candidate_cells.remove(&key);
        let mut cs = match existing {
            Some(cs) => cs,
            None => CellSet::new(),
        };
        cs.insert(cell);
        self.candidate_cells.insert(key, cs);
        proof {
            assert(final(self).cc() =~= cc_add(
                old(self).cc(),
                key.key_idx(),
                cell.spec_index(),
            ));
        }
    }

    /// Removes `cell` from the bucket of (`block`, `value`), if the bucket
    /// exists; the bucket itself stays.  Returns whether the cell was a
    /// member.
    fn bucket_remove_cell(&mut self, block: Block, value: u8, cell: &CellLoc) -> (r: bool)
        requires
            old(self).structural(),
            block_in_range(block, side_len(old(self).sbase())),
            1 <= value <= side_len(old(self).sbase()),
            cell.wf(),
            cell.spec_base() == old(self).sbase(),
        ensures
            final(self).structural(),
            final(self).base_size == old(self).base_size,
            final(self).possible_values == old(self).possible_values,
            r == bucket_has(
                old(self).cc(),
                bk_of(block_axis(block, side_len(old(self).sbase())), value, old(self).sbase()),
                cell.spec_index(),
            ),
            ({
                let bk = bk_of(
                    block_axis(block, side_len(old(self).sbase())),
                    value,
                    old(self).sbase(),
                );
                if old(self).cc().dom().contains(bk) {
                    final(self).cc() =~= old(self).cc().insert(
                        bk,
                        old(self).cc()[bk].remove(cell.spec_index()),
                    )
                } else {
                    final(self).cc() =~= old(self).cc()
                }
            }),
    {
        let ghost n = self.sbase();
        let side = self.side();
        let key = BlockValue { block, value, side };
        proof {
            lemma_bk_decompose(block_axis(block, side_len(n)), value, n);
            assert(key.key_idx() == bk_of(block_axis(block, side_len(n)), value, n));
        }
        let existing = self.candidate_cells.remove(&key);
        match existing {
            Some(mut cs) => {
                let r = cs.remove(cell);
                self.candidate_cells.insert(key, cs);
                proof {
                    assert(final(self).cc() =~= old(self).cc().insert(
                        key.key_idx(),
                        old(self).cc()[key.key_idx()].remove(cell.spec_index()),
                    ));
                }
                r
            },
            None => {
                proof {
                    assert(final(self).cc() =~= old(self).cc());
                }
                false
            },
        }
    }

    /// Replays an undo token: reinserts the removed candidate entry, the
    /// removed per-cell values and the removed bucket members, restoring the
    /// cache to the state before the recorded call.
    pub fn undo(&mut self, undo: UndoSetValue)
        requires
            old(self).structural(),
            undo.ranges_ok(old(self).sbase()),
        ensures
            final(self).structural(),
            final(self).base_size == old(self).base_size,
            final(self).pv() =~= apply_undo_pv(old(self).pv(), undo),
            final(self).cc() =~= apply_moves(old(self).cc(), undo.moves@, old(self).sbase()),
    {
        let ghost n = self.sbase();
        let ghost tok = undo;
        let ghost pv0 = self.pv();
        let ghost cc0 = self.cc();
        let side = self.side();
        let UndoSetValue { moves, options, affected_cell_options } = undo;
        let (cell, maybe) = options;
        if let Some(vs) = maybe {
            self.possible_values.insert(cell, vs);
        }
        let ghost pv1 = apply_options(pv0, tok.options);
        proof {
            assert(self.pv() =~= pv1);
        }
        let mut t: usize = 0;
        while t < affected_cell_options.len()
            invariant
                self.structural(),
                self.base_size == old(self).base_size,
                n == self.sbase(),
                side == side_len(n),
                t <= affected_cell_options@.len(),
                affected_cell_options@ == tok.affected_cell_options@,
                moves@ == tok.moves@,
                tok.ranges_ok(n),
                self.cc() =~= cc0,
                self.pv() =~= apply_affected(pv1, tok.affected_cell_options@.take(t as int)),
            decreases affected_cell_options@.len() - t,
        {
            let ghost pv_pre = self.pv();
            let (c, v) = affected_cell_options[t];
            let existing = self.possible_values.remove(&c);
            let mut vs = match existing {
                Some(vs) => vs,
                None => ValueSet::new(),
            };
            vs.insert(v);
            self.possible_values.insert(c, vs);
            proof {
                assert(self.pv() =~= pv_add(pv_pre, c.spec_index(), v));
                assert(tok.affected_cell_options@.take(t + 1).drop_last()
                    == tok.affected_cell_options@.take(t as int));
                assert(tok.affected_cell_options@.take(t + 1).last()
                    == tok.affected_cell_options@[t as int]);
                assert(self.pv() =~= apply_affected(pv1, tok.affected_cell_options@.take(t + 1)));
            }
            t = t + 1;
        }
        proof {
            assert(tok.affected_cell_options@.take(tok.affected_cell_options@.len() as int)
                == tok.affected_cell_options@);
            assert(self.pv() =~= apply_undo_pv(pv0, tok));
        }
        let ghost pv_done = self.pv();
        let mut t: usize = 0;
        while t < moves.len()
            invariant
                self.structural(),
                self.base_size == old(self).base_size,
                n == self.sbase(),
                side == side_len(n),
                t <= moves@.len(),
                moves@ == tok.moves@,
                tok.ranges_ok(n),
                self.pv() =~= pv_done,
                self.cc() =~= apply_moves(cc0, tok.moves@.take(t as int), n),
            decreases moves@.len() - t,
        {
            let ghost cc_pre = self.cc();
            let (v, c, b) = moves[t];
            self.bucket_insert_cell(b, v, c);
            proof {
                assert(tok.moves@.take(t + 1).drop_last() == tok.moves@.take(t as int));
                assert(tok.moves@.take(t + 1).last() == tok.moves@[t as int]);
                assert(self.cc() =~= apply_moves(cc0, tok.moves@.take(t + 1), n));
            }
            t = t + 1;
        }
        proof {
            assert(tok.moves@.take(tok.moves@.len() as int) == tok.moves@);
        }
    }
}

/// Whether `bk` is the bucket of value `v` for one of the three blocks of
/// cell `i`.
pub open spec fn is_axis_bk(bk: int, i: int, v: u8, n: int) -> bool {
    ||| bk == bk_of(line_of(i, n), v, n)
    ||| bk == bk_of(side_len(n) + col_of(i, n), v, n)
    ||| bk == bk_of(2 * side_len(n) + square_of(i, n), v, n)
}

/// A bucket that holds cell `i` and is in range must be the bucket of one of
/// the cell's three blocks.
pub proof fn lemma_bucket_of_cell(bk: int, i: int, n: int)
    requires
        valid_base(n),
        0 <= i < cell_count(n),
        0 <= bk < 3 * side_len(n) * side_len(n),
        cell_in_axis(i, bk_axis(bk, n), n),
        1 <= bk_val(bk, n) <= side_len(n),
    ensures
        is_axis_bk(bk, i, bk_val(bk, n), n),
{
    crate::board::lemma_cell_geometry(i, n);
    let a = bk_axis(bk, n);
    let v = bk_val(bk, n);
    assert(0 <= a < 3 * side_len(n)) by {
        if n == 2 {
            assert(a == bk / 4 && v == (bk % 4 + 1) as u8);
        } else if n == 3 {
            assert(a == bk / 9 && v == (bk % 9 + 1) as u8);
        } else {
            assert(a == bk / 16 && v == (bk % 16 + 1) as u8);
        }
    }
    lemma_bk_decompose(a, v, n);
    assert(bk == bk_of(a, v, n)) by {
        vstd::arithmetic::div_mod::lemma_fundamental_div_mod(bk, side_len(n));
    }
    if a < side_len(n) {
        assert(a == line_of(i, n));
    } else if a < 2 * side_len(n) {
        assert(a == side_len(n) + col_of(i, n));
    } else {
        assert(a == 2 * side_len(n) + square_of(i, n));
    }
}

/// Every bucket value is in range.
pub proof fn lemma_bk_val_range(bk: int, n: int)
    requires
        valid_base(n),
        0 <= bk,
    ensures
        1 <= bk_val(bk, n) <= side_len(n),
{
    if n == 2 {
        assert(0 <= bk % 4 < 4);
    } else if n == 3 {
        assert(0 <= bk % 9 < 9);
    } else {
        assert(0 <= bk % 16 < 16);
    }
}

impl CandidateCache {
    /// Registers `cell` as a candidate for `value` in the buckets of all
    /// three of the cell's blocks.
    fn add_candidate(&mut self, value: &u8, cell: &CellLoc)
        requires
            old(self).structural(),
            cell.wf(),
            cell.spec_base() == old(self).sbase(),
            1 <= *value <= side_len(old(self).sbase()),
        ensures
            final(self).structural(),
            final(self).base_size == old(self).base_size,
            final(self).possible_values == old(self).possible_values,
            final(self).cc().dom() =~= old(self).cc().dom().union(
                Set::new(|bk: int| is_axis_bk(bk, cell.spec_index(), *value, old(self).sbase())),
            ),
            forall|bk: int|
                #![trigger final(self).cc()[bk]]
                final(self).cc().dom().contains(bk) ==> if is_axis_bk(
                    bk,
                    cell.spec_index(),
                    *value,
                    old(self).sbase(),
                ) {
                    final(self).cc()[bk] =~= (if old(self).cc().dom().contains(bk) {
                        old(self).cc()[bk]
                    } else {
                        Set::empty()
                    }).insert(cell.spec_index())
                } else {
                    final(self).cc()[bk] == old(self).cc()[bk]
                },
    {
        let ghost n = self.sbase();
        let ghost i = cell.spec_index();
        let l = cell.line();
        let c = cell.col();
        let sq = cell.square();
        proof {
            lemma_bk_decompose(l as int, *value, n);
            lemma_bk_decompose(side_len(n) + c, *value, n);
            lemma_bk_decompose(2 * side_len(n) + sq, *value, n);
        }
        self.bucket_insert_cell(Block::Line(l), *value, *cell);
        self.bucket_insert_cell(Block::Col(c), *value, *cell);
        self.bucket_insert_cell(Block::Square(sq), *value, *cell);
        proof {
            let bk1 = bk_of(line_of(i, n), *value, n);
            let bk2 = bk_of(side_len(n) + col_of(i, n), *value, n);
            let bk3 = bk_of(2 * side_len(n) + square_of(i, n), *value, n);
            assert(final(self).cc() =~= cc_add(cc_add(cc_add(old(self).cc(), bk1, i), bk2, i), bk3, i));
            assert(final(self).cc().dom() =~= old(self).cc().dom().union(
                Set::new(|bk: int| is_axis_bk(bk, i, *value, n)),
            ));
        }
    }

    /// Permanently excludes `value` from the candidates of `cell`: removes it
    /// from the cell's entry and removes the cell from the value's buckets.
    /// Used during backtracking to rule out an already-tried guess.
    pub fn remove_candidate(&mut self, value: &u8, cell: &CellLoc)
        requires
            old(self).structural(),
            cell.wf(),
            cell.spec_base() == old(self).sbase(),
            1 <= *value <= side_len(old(self).sbase()),
        ensures
            final(self).structural(),
            final(self).base_size == old(self).base_size,
            old(self).wf() ==> final(self).wf(),
            ({
                let i = cell.spec_index();
                let n = old(self).sbase();
                if old(self).pv().dom().contains(i) && old(self).pv()[i].contains(*value) {
                    final(self).pv() =~= old(self).pv().insert(i, old(self).pv()[i].remove(*value))
                } else {
                    final(self).pv() =~= old(self).pv()
                }
            }),
    {
        let ghost n = self.sbase();
        let ghost i = cell.spec_index();
        let ghost pv0 = self.pv();
        let ghost cc0 = self.cc();
        let existing = self.possible_values.remove(cell);
        match existing {
            Some(mut vs) => {
                let removed = vs.remove(*value);
                self.possible_values.insert(*cell, vs);
                proof {
                    assert(self.pv() =~= pv0.insert(i, pv0[i].remove(*value)));
                }
                if removed {
                    let l = cell.line();
                    let c = cell.col();
                    let sq = cell.square();
                    proof {
                        lemma_bk_decompose(l as int, *value, n);
                        lemma_bk_decompose(side_len(n) + c, *value, n);
                        lemma_bk_decompose(2 * side_len(n) + sq, *value, n);
                        if old(self).wf() {
                            assert(fwd_ok(i, *value, cc0, n));
                        }
                    }
                    self.bucket_remove_cell(Block::Line(l), *value, cell);
                    self.bucket_remove_cell(Block::Col(c), *value, cell);
                    self.bucket_remove_cell(Block::Square(sq), *value, cell);
                    proof {
                        if old(self).wf() {
                            assert(fwd_ok(i, *value, cc0, n));
                            assert(self.cc().dom() =~= cc0.dom());
                            assert forall|bk: int|
                                #![trigger self.cc()[bk]]
                                self.cc().dom().contains(bk) implies if is_axis_bk(
                                    bk,
                                    i,
                                    *value,
                                    n,
                                ) {
                                self.cc()[bk] =~= cc0[bk].remove(i)
                            } else {
                                self.cc()[bk] == cc0[bk]
                            } by {
                                lemma_bucket_distinct(bk, i, *value, n);
                            }
                            lemma_remove_candidate_wf(pv0, cc0, n, i, *value, self.pv(), self.cc());
                        }
                    }
                } else {
                    proof {
                        assert(pv0[i].remove(*value) =~= pv0[i]);
                        assert(self.pv() =~= pv0.insert(i, pv0[i]));
                        assert(self.pv() =~= pv0);
                        assert(self.cc() =~= cc0);
                    }
                }
            },
            None => {
                proof {
                    assert(self.pv() =~= pv0);
                    assert(self.cc() =~= cc0);
                }
            },
        }
    }
}

/// Removing one candidate pair, mirrored on both indexes, preserves the
/// cache consistency invariant.
proof fn lemma_remove_candidate_wf(
    pv0: Map<int, Set<u8>>,
    cc0: Map<int, Set<int>>,
    n: int,
    i: int,
    value: u8,
    pv1: Map<int, Set<u8>>,
    cc1: Map<int, Set<int>>,
)
    requires
        valid_base(n),
        cache_consistent(pv0, cc0, n),
        0 <= i < cell_count(n),
        1 <= value <= side_len(n),
        pv0.dom().contains(i),
        pv1 =~= pv0.insert(i, pv0[i].remove(value)),
        cc1.dom() =~= cc0.dom(),
        forall|bk: int|
            #![trigger cc1[bk]]
            cc1.dom().contains(bk) ==> if is_axis_bk(bk, i, value, n) {
                cc1[bk] =~= cc0[bk].remove(i)
            } else {
                cc1[bk] == cc0[bk]
            },
    ensures
        cache_consistent(pv1, cc1, n),
{
    crate::board::lemma_cell_geometry(i, n);
    assert forall|j: int, v: u8|
        pv1.dom().contains(j) && #[trigger] pv1[j].contains(v) implies 0 <= j < cell_count(n) && 1
        <= v <= side_len(n) && fwd_ok(j, v, cc1, n) by {
        assert(pv0.dom().contains(j) && pv0[j].contains(v));
        assert(fwd_ok(j, v, cc0, n));
        let bka = bk_of(line_of(j, n), v, n);
        let bkb = bk_of(side_len(n) + col_of(j, n), v, n);
        let bkc = bk_of(2 * side_len(n) + square_of(j, n), v, n);
        assert forall|bk: int|
            bk == bka || bk == bkb || bk == bkc implies bucket_has(cc1, bk, j) by {
            assert(bucket_has(cc0, bk, j));
            if is_axis_bk(bk, i, value, n) {
                assert(cc1[bk] =~= cc0[bk].remove(i));
                assert(j != i || v != value);
                if j == i {
                    crate::board::lemma_cell_geometry(j, n);
                    lemma_bk_decompose(line_of(j, n), v, n);
                    lemma_bk_decompose(side_len(n) + col_of(j, n), v, n);
                    lemma_bk_decompose(2 * side_len(n) + square_of(j, n), v, n);
                    lemma_bk_decompose(line_of(i, n), value, n);
                    lemma_bk_decompose(side_len(n) + col_of(i, n), value, n);
                    lemma_bk_decompose(2 * side_len(n) + square_of(i, n), value, n);
                    assert(bk_val(bk, n) == v && bk_val(bk, n) == value);
                    assert(false);
                }
            }
        }
    }
    assert forall|bk: int, j: int|
        cc1.dom().contains(bk) && #[trigger] cc1[bk].contains(j) implies bwd_ok(bk, j, pv1, n) by {
        assert(cc0[bk].contains(j)) by {
            if is_axis_bk(bk, i, value, n) {
                assert(cc1[bk] =~= cc0[bk].remove(i));
            }
        }
        assert(bwd_ok(bk, j, pv0, n));
        if j == i && bk_val(bk, n) == value {
            lemma_bk_val_range(bk, n);
            lemma_bucket_of_cell(bk, i, n);
            assert(is_axis_bk(bk, i, value, n));
            assert(cc1[bk] =~= cc0[bk].remove(i));
            assert(false);
        }
    }
}

/// The buckets that tie cell `i` to any of the values of `vals`.
pub open spec fn cell_value_buckets(i: int, vals: Set<u8>, n: int) -> Set<int> {
    Set::new(|bk: int| exists|v: u8| #[trigger] vals.contains(v) && is_axis_bk(bk, i, v, n))
}

impl CandidateCache {
    /// Reinstalls a fresh candidate set for a cell whose board value was
    /// cleared by backtracking: the cell's entry becomes `options`, and the
    /// cell is registered in every matching bucket.  Returns the entry the
    /// cell had before, if any.  The previous entry, if present, must be a
    /// subset of `options`.
    pub fn reset_candidates(&mut self, cell: &CellLoc, options: ValueSet) -> (r: Option<ValueSet>)
        requires
            old(self).structural(),
            cell.wf(),
            cell.spec_base() == old(self).sbase(),
            options.wf(),
            options.in_range(side_len(old(self).sbase())),
        ensures
            final(self).structural(),
            final(self).base_size == old(self).base_size,
            (old(self).wf() && (old(self).pv().dom().contains(cell.spec_index()) ==> old(
                self,
            ).pv()[cell.spec_index()].subset_of(options.vset()))) ==> final(self).wf(),
            final(self).pv() =~= old(self).pv().insert(cell.spec_index(), options.vset()),
            r is Some <==> old(self).pv().dom().contains(cell.spec_index()),
            r is Some ==> r->0.vset() == old(self).pv()[cell.spec_index()],
            final(self).cc().dom() =~= old(self).cc().dom().union(
                cell_value_buckets(cell.spec_index(), options.vset(), old(self).sbase()),
            ),
            forall|bk: int|
                #![trigger final(self).cc()[bk]]
                final(self).cc().dom().contains(bk) ==> if cell_value_buckets(
                    cell.spec_index(),
                    options.vset(),
                    old(self).sbase(),
                ).contains(bk) {
                    final(self).cc()[bk] =~= (if old(self).cc().dom().contains(bk) {
                        old(self).cc()[bk]
                    } else {
                        Set::empty()
                    }).insert(cell.spec_index())
                } else {
                    final(self).cc()[bk] == old(self).cc()[bk]
                },
    {
        let ghost n = self.sbase();
        let ghost i = cell.spec_index();
        let ghost pv0 = self.pv();
        self.add_all_candidates(cell, &options);
        let r = self.possible_values.insert(*cell, options);
        proof {
            assert(self.pv() =~= pv0.insert(i, options.vset()));
            if old(self).wf() && (old(self).pv().dom().contains(i) ==> old(self).pv()[
                i].subset_of(options.vset())) {
                lemma_reset_candidates_wf(
                    pv0,
                    old(self).cc(),
                    n,
                    i,
                    options.vset(),
                    self.pv(),
                    self.cc(),
                );
            }
        }
        r
    }

    /// Registers `cell` in the buckets of every value of `options`.
    fn add_all_candidates(&mut self, cell: &CellLoc, options: &ValueSet)
        requires
            old(self).structural(),
            cell.wf(),
            cell.spec_base() == old(self).sbase(),
            options.wf(),
            options.in_range(side_len(old(self).sbase())),
        ensures
            final(self).structural(),
            final(self).base_size == old(self).base_size,
            final(self).possible_values == old(self).possible_values,
            final(self).cc().dom() =~= old(self).cc().dom().union(
                cell_value_buckets(cell.spec_index(), options.vset(), old(self).sbase()),
            ),
            forall|bk: int|
                #![trigger final(self).cc()[bk]]
                final(self).cc().dom().contains(bk) ==> if cell_value_buckets(
                    cell.spec_index(),
                    options.vset(),
                    old(self).sbase(),
                ).contains(bk) {
                    final(self).cc()[bk] =~= (if old(self).cc().dom().contains(bk) {
                        old(self).cc()[bk]
                    } else {
                        Set::empty()
                    }).insert(cell.spec_index())
                } else {
                    final(self).cc()[bk] == old(self).cc()[bk]
                },
    {
        let ghost n = self.sbase();
        let ghost i = cell.spec_index();
        let ghost cc0 = self.cc();
        let mut t: usize = 0;
        while t < options.len()
            invariant
                self.structural(),
                self.base_size == old(self).base_size,
                n == self.sbase(),
                i == cell.spec_index(),
                cell.wf(),
                cell.spec_base() == n,
                options.wf(),
                options.in_range(side_len(n)),
                t <= options.vseq().len(),
                self.possible_values == old(self).possible_values,
                cc0 == old(self).cc(),
                self.cc().dom() =~= cc0.dom().union(
                    cell_value_buckets(i, options.vseq().take(t as int).to_set(), n),
                ),
                forall|bk: int|
                    #![trigger self.cc()[bk]]
                    self.cc().dom().contains(bk) ==> if cell_value_buckets(
                        i,
                        options.vseq().take(t as int).to_set(),
                        n,
                    ).contains(bk) {
                        self.cc()[bk] =~= (if cc0.dom().contains(bk) {
                            cc0[bk]
                        } else {
                            Set::empty()
                        }).insert(i)
                    } else {
                        self.cc()[bk] == cc0[bk]
                    },
            decreases options.vseq().len() - t,
        {
            let ghost cc_pre = self.cc();
            let ghost vals_pre = options.vseq().take(t as int).to_set();
            let v = options.get(t);
            self.add_candidate(&v, cell);
            proof {
                let vals_now = options.vseq().take(t + 1).to_set();
                assert(options.vseq().take(t + 1).drop_last() == options.vseq().take(t as int));
                assert(options.vseq().take(t + 1).last() == options.vseq()[t as int]);
                crate::sets::lemma_to_set_drop_last(options.vseq().take(t + 1));
                assert(vals_now =~= vals_pre.insert(v));
                assert(cell_value_buckets(i, vals_now, n) =~= cell_value_buckets(
                    i,
                    vals_pre,
                    n,
                ).union(Set::new(|bk: int| is_axis_bk(bk, i, v, n)))) by {
                    assert forall|bk: int|
                        cell_value_buckets(i, vals_now, n).contains(bk) implies cell_value_buckets(
                        i,
                        vals_pre,
                        n,
                    ).union(Set::new(|bk2: int| is_axis_bk(bk2, i, v, n))).contains(bk) by {
                        let w = choose|w: u8|
                            #[trigger] vals_now.contains(w) && is_axis_bk(bk, i, w, n);
                        if w != v {
                            assert(vals_pre.contains(w));
                        }
                    }
                    assert forall|bk: int|
                        cell_value_buckets(i, vals_pre, n).union(
                            Set::new(|bk2: int| is_axis_bk(bk2, i, v, n)),
                        ).contains(bk) implies cell_value_buckets(i, vals_now, n).contains(bk) by {
                        if cell_value_buckets(i, vals_pre, n).contains(bk) {
                            let w = choose|w: u8|
                                #[trigger] vals_pre.contains(w) && is_axis_bk(bk, i, w, n);
                            assert(vals_now.contains(w));
                        } else {
                            assert(vals_now.contains(v));
                        }
                    }
                }
                assert(self.cc().dom() =~= cc0.dom().union(cell_value_buckets(i, vals_now, n)));
                assert forall|bk: int|
                    #![trigger self.cc()[bk]]
                    self.cc().dom().contains(bk) implies if cell_value_buckets(
                        i,
                        vals_now,
                        n,
                    ).contains(bk) {
                    self.cc()[bk] =~= (if cc0.dom().contains(bk) {
                        cc0[bk]
                    } else {
                        Set::empty()
                    }).insert(i)
                } else {
                    self.cc()[bk] == cc0[bk]
                } by {
                    if cell_value_buckets(i, vals_now, n).contains(bk) {
                        if is_axis_bk(bk, i, v, n) {
                            if cell_value_buckets(i, vals_pre, n).contains(bk) {
                                assert(cc_pre[bk] =~= (if cc0.dom().contains(bk) {
                                    cc0[bk]
                                } else {
                                    Set::empty()
                                }).insert(i));
                            }
                        } else {
                            assert(cell_value_buckets(i, vals_pre, n).contains(bk));
                            assert(cc_pre.dom().contains(bk));
                        }
                    } else {
                        assert(!cell_value_buckets(i, vals_pre, n).contains(bk));
                        assert(!is_axis_bk(bk, i, v, n));
                        assert(self.cc()[bk] == cc_pre[bk]);
                    }
                }
            }
            t = t + 1;
        }
        proof {
            assert(options.vseq().take(options.vseq().len() as int) == options.vseq());
        }
    }
}

/// Reinstalling a full candidate entry, mirrored on both indexes, preserves
/// the cache consistency invariant, provided the previous entry was a subset
/// of the reinstalled one.
proof fn lemma_reset_candidates_wf(
    pv0: Map<int, Set<u8>>,
    cc0: Map<int, Set<int>>,
    n: int,
    i: int,
    vals: Set<u8>,
    pv1: Map<int, Set<u8>>,
    cc1: Map<int, Set<int>>,
)
    requires
        valid_base(n),
        cache_consistent(pv0, cc0, n),
        0 <= i < cell_count(n),
        forall|v: u8| vals.contains(v) ==> 1 <= v <= side_len(n),
        pv0.dom().contains(i) ==> pv0[i].subset_of(vals),
        pv1 =~= pv0.insert(i, vals),
        cc1.dom() =~= cc0.dom().union(cell_value_buckets(i, vals, n)),
        forall|bk: int|
            #![trigger cc1[bk]]
            cc1.dom().contains(bk) ==> if cell_value_buckets(i, vals, n).contains(bk) {
                cc1[bk] =~= (if cc0.dom().contains(bk) {
                    cc0[bk]
                } else {
                    Set::empty()
                }).insert(i)
            } else {
                cc1[bk] == cc0[bk]
            },
    ensures
        cache_consistent(pv1, cc1, n),
{
    crate::board::lemma_cell_geometry(i, n);
    assert forall|j: int, v: u8|
        pv1.dom().contains(j) && #[trigger] pv1[j].contains(v) implies 0 <= j < cell_count(n) && 1
        <= v <= side_len(n) && fwd_ok(j, v, cc1, n) by {
        if j == i {
            let bka = bk_of(line_of(i, n), v, n);
            let bkb = bk_of(side_len(n) + col_of(i, n), v, n);
            let bkc = bk_of(2 * side_len(n) + square_of(i, n), v, n);
            assert(vals.contains(v));
            assert(is_axis_bk(bka, i, v, n) && is_axis_bk(bkb, i, v, n) && is_axis_bk(
                bkc,
                i,
                v,
                n,
            ));
            assert(cell_value_buckets(i, vals, n).contains(bka));
            assert(cell_value_buckets(i, vals, n).contains(bkb));
            assert(cell_value_buckets(i, vals, n).contains(bkc));
            assert(bucket_has(cc1, bka, i) && bucket_has(cc1, bkb, i) && bucket_has(cc1, bkc, i));
        } else {
            assert(pv0.dom().contains(j) && pv0[j].contains(v));
            assert(fwd_ok(j, v, cc0, n));
            let bka = bk_of(line_of(j, n), v, n);
            let bkb = bk_of(side_len(n) + col_of(j, n), v, n);
            let bkc = bk_of(2 * side_len(n) + square_of(j, n), v, n);
            assert forall|bk: int|
                bk == bka || bk == bkb || bk == bkc implies bucket_has(cc1, bk, j) by {
                assert(bucket_has(cc0, bk, j));
                if cell_value_buckets(i, vals, n).contains(bk) {
                    assert(cc1[bk] =~= cc0[bk].insert(i));
                }
            }
        }
    }
    assert forall|bk: int, j: int|
        cc1.dom().contains(bk) && #[trigger] cc1[bk].contains(j) implies bwd_ok(bk, j, pv1, n) by {
        if cell_value_buckets(i, vals, n).contains(bk) {
            let w = choose|w: u8| #[trigger] vals.contains(w) && is_axis_bk(bk, i, w, n);
            lemma_bk_decompose(line_of(i, n), w, n);
            lemma_bk_decompose(side_len(n) + col_of(i, n), w, n);
            lemma_bk_decompose(2 * side_len(n) + square_of(i, n), w, n);
            if j == i {
                assert(bk_val(bk, n) == w);
                assert(pv1[i].contains(w));
                assert(cell_in_axis(i, bk_axis(bk, n), n));
                assert(bwd_ok(bk, j, pv1, n));
            } else {
                assert(cc0.dom().contains(bk) && cc0[bk].contains(j)) by {
                    assert(cc1[bk] =~= (if cc0.dom().contains(bk) {
                        cc0[bk]
                    } else {
                        Set::empty()
                    }).insert(i));
                }
                assert(bwd_ok(bk, j, pv0, n));
                assert(pv1.dom().contains(j) && pv1[j] == pv0[j]);
            }
        } else {
            assert(cc0.dom().contains(bk));
            assert(cc1[bk] == cc0[bk]);
            assert(bwd_ok(bk, j, pv0, n));
            if j == i {
                assert(pv0[i].contains(bk_val(bk, n)));
                assert(vals.contains(bk_val(bk, n)));
                assert(pv1[i].contains(bk_val(bk, n)));
            }
        }
    }
}

impl CandidateCache {
    /// The per-cell candidate index: every open cell mapped to its remaining
    /// legal values.
    pub fn possible_values(&self) -> (r: &IndexedMap<CellLoc, ValueSet>)
        ensures
            r == &self.possible_values,
    {
        &self.possible_values
    }

    /// The candidate cells of one (block, value) pair, if the bucket exists.
    pub fn candidates_at(&self, block: &Block, value: &u8) -> (r: Option<&CellSet>)
        requires
            self.structural(),
            block_in_range(*block, side_len(self.sbase())),
            1 <= *value <= side_len(self.sbase()),
        ensures
            ({
                let bk = bk_of(block_axis(*block, side_len(self.sbase())), *value, self.sbase());
                &&& r is Some <==> self.cc().dom().contains(bk)
                &&& r is Some <==> self.candidate_cells.m().dom().contains(bk)
                &&& r is Some ==> r->0.iset() == self.cc()[bk] && r->0.wf() && *r->0
                    == self.candidate_cells.m()[bk]
            }),
    {
        let side = self.side();
        let key = BlockValue { block: *block, value: *value, side };
        proof {
            lemma_bk_decompose(block_axis(*block, side_len(self.sbase())), *value, self.sbase());
        }
        self.candidate_cells.get(&key)
    }

    /// Yields every (block, value, candidate cells) triple of the cache, in
    /// bucket order — the basis for hidden-single detection.
    pub fn iter_candidates(&self) -> (r: Vec<Candidates>)
        requires
            self.structural(),
        ensures
            forall|t: int|
                0 <= t < r@.len() ==> {
                    let e = #[trigger] r@[t];
                    let bk = bk_of(
                        block_axis(e.block, side_len(self.sbase())),
                        e.value,
                        self.sbase(),
                    );
                    &&& block_in_range(e.block, side_len(self.sbase()))
                    &&& 1 <= e.value <= side_len(self.sbase())
                    &&& self.cc().dom().contains(bk)
                    &&& e.cells.iset() == self.cc()[bk]
                    &&& e.cells.wf()
                    &&& e.cells.cseq().len() > 0 ==> e.cells.cseq()[0].wf()
                        && e.cells.cseq()[0].spec_base() == self.sbase()
                },
            forall|bk: int|
                self.cc().dom().contains(bk) ==> exists|t: int|
                    0 <= t < r@.len() && bk_of(
                        block_axis((#[trigger] r@[t]).block, side_len(self.sbase())),
                        r@[t].value,
                        self.sbase(),
                    ) == bk,
            forall|t1: int, t2: int|
                0 <= t1 < t2 < r@.len() ==> bk_of(
                    block_axis(r@[t1].block, side_len(self.sbase())),
                    r@[t1].value,
                    self.sbase(),
                ) < bk_of(
                    block_axis(r@[t2].block, side_len(self.sbase())),
                    r@[t2].value,
                    self.sbase(),
                ),
    {
        let ghost n = self.sbase();
        let side = self.side();
        proof {
            assert(side == 4 || side == 9 || side == 16);
        }
        let cap = 3 * side * side;
        let mut r: Vec<Candidates> = Vec::new();
        let mut bk: usize = 0;
        while bk < cap
            invariant
                self.structural(),
                n == self.sbase(),
                side == side_len(n),
                cap == 3 * side_len(n) * side_len(n),
                self.candidate_cells.capacity() == cap,
                bk <= cap,
                forall|t: int|
                    0 <= t < r@.len() ==> {
                        let e = #[trigger] r@[t];
                        let bk2 = bk_of(block_axis(e.block, side_len(n)), e.value, n);
                        &&& block_in_range(e.block, side_len(n))
                        &&& 1 <= e.value <= side_len(n)
                        &&& self.cc().dom().contains(bk2)
                        &&& e.cells.iset() == self.cc()[bk2]
                        &&& e.cells.wf()
                        &&& e.cells.cseq().len() > 0 ==> e.cells.cseq()[0].wf()
                            && e.cells.cseq()[0].spec_base() == n
                    },
                forall|bk2: int|
                    0 <= bk2 < bk && self.cc().dom().contains(bk2) ==> exists|t: int|
                        0 <= t < r@.len() && bk_of(
                            block_axis((#[trigger] r@[t]).block, side_len(n)),
                            r@[t].value,
                            n,
                        ) == bk2,
                forall|t: int|
                    0 <= t < r@.len() ==> bk_of(
                        block_axis((#[trigger] r@[t]).block, side_len(n)),
                        r@[t].value,
                        n,
                    ) < bk,
                forall|t1: int, t2: int|
                    0 <= t1 < t2 < r@.len() ==> bk_of(
                        block_axis(r@[t1].block, side_len(n)),
                        r@[t1].value,
                        n,
                    ) < bk_of(block_axis(r@[t2].block, side_len(n)), r@[t2].value, n),
            decreases cap - bk,
        {
            let key_opt = self.candidate_cells.key_at_slot(bk);
            if let Some(key) = key_opt {
                let cells_ref = self.candidate_cells.value_at_slot(bk);
                if let Some(cs) = cells_ref {
                    let ghost old_r = r@;
                    let ghost rlen = r@.len() as int;
                    let entry = Candidates { value: key.value, block: key.block, cells: cs.duplicate() };
                    r.push(entry);
                    proof {
                        lemma_bk_decompose(block_axis(key.block, side_len(n)), key.value, n);
                        assert(r@[rlen].cells.iset() == self.cc()[bk as int]);
                        assert forall|bk2: int|
                            0 <= bk2 < bk + 1 && self.cc().dom().contains(bk2) implies exists|
                            t: int,
                        |
                            0 <= t < r@.len() && bk_of(
                                block_axis((#[trigger] r@[t]).block, side_len(n)),
                                r@[t].value,
                                n,
                            ) == bk2 by {
                            if bk2 == bk {
                                assert(bk_of(
                                    block_axis(r@[rlen].block, side_len(n)),
                                    r@[rlen].value,
                                    n,
                                ) == bk2);
                            } else {
                                let t = choose|t: int|
                                    0 <= t < rlen && bk_of(
                                        block_axis((#[trigger] old_r[t]).block, side_len(n)),
                                        old_r[t].value,
                                        n,
                                    ) == bk2;
                                assert(r@[t] == old_r[t]);
                            }
                        }
                    }
                }
            }
            bk = bk + 1;
        }
        r
    }
}

/// The buckets built from the candidate entries of the first `upto` cells.
#[verifier::opaque]
pub open spec fn built_dom(pvm: Map<int, Set<u8>>, upto: int, n: int) -> Set<int> {
    Set::new(
        |bk: int|
            exists|j: int, v: u8|
                0 <= j < upto && pvm.dom().contains(j) && #[trigger] pvm[j].contains(v)
                    && is_axis_bk(bk, j, v, n),
    )
}

/// The members bucket `bk` gains from the candidate entries of the first
/// `upto` cells.
#[verifier::opaque]
pub open spec fn built_members(pvm: Map<int, Set<u8>>, upto: int, bk: int, n: int) -> Set<int> {
    Set::new(
        |j: int|
            0 <= j < upto && pvm.dom().contains(j) && exists|v: u8|
                #[trigger] pvm[j].contains(v) && is_axis_bk(bk, j, v, n),
    )
}

impl CandidateCache {
    /// The per-cell candidate entries of a board snapshot: every empty cell
    /// mapped to the values not already present in its line, column or
    /// square.
    fn build_possible_values(board: &Board) -> (r: IndexedMap<CellLoc, ValueSet>)
        requires
            board.wf(),
        ensures
            r.wf(),
            r.capacity() == cell_count(board.spec_base()),
            forall|i: int|
                r.m().dom().contains(i) ==> (#[trigger] r.key_at(i)).wf() && r.key_at(
                    i,
                ).spec_base() == board.spec_base(),
            forall|i: int| r.m().dom().contains(i) ==> (#[trigger] r.m()[i]).wf(),
            r.m().map_values(|vs: ValueSet| vs.vset()) =~= Map::new(
                |i: int| 0 <= i < cell_count(board.spec_base()) && board.grid()[i] is None,
                |i: int| candidates_of(board.grid(), i, board.spec_base()),
            ),
    {
        let ghost n = board.spec_base();
        let ghost grid = board.grid();
        let base_size = board.board_size().get_base_size();
        let side = base_size * base_size;
        proof {
            assert(side == 4 || side == 9 || side == 16);
        }
        let count = side * side;
        let cells = board.iter_cells();
        let mut possible_values: IndexedMap<CellLoc, ValueSet> = IndexedMap::new(count);
        let mut k: usize = 0;
        while k < count
            invariant
                board.wf(),
                n == board.spec_base(),
                grid == board.grid(),
                base_size as int == n,
                side == side_len(n),
                count == cell_count(n),
                cells@.len() == count,
                forall|t: int|
                    0 <= t < cells@.len() ==> (#[trigger] cells@[t]).spec_index() == t
                        && cells@[t].spec_base() == n && cells@[t].wf(),
                k <= count,
                possible_values.wf(),
                possible_values.capacity() == count,
                forall|i: int|
                    possible_values.m().dom().contains(i) ==> (
                    #[trigger] possible_values.key_at(i)).wf() && possible_values.key_at(
                        i,
                    ).spec_base() == n,
                forall|i: int|
                    possible_values.m().dom().contains(i) ==> (#[trigger] possible_values.m()[
                    i]).wf(),
                possible_values.m().map_values(|vs: ValueSet| vs.vset()) =~= Map::new(
                    |i: int| 0 <= i < k && grid[i] is None,
                    |i: int| candidates_of(grid, i, n),
                ),
            decreases count - k,
        {
            let cell = cells[k];
            let ghost pre = possible_values;
            let vs_opt = cell.get_possible_values(board);
            if let Some(vs) = vs_opt {
                proof {
                    assert(vs.vset() == candidates_of(grid, k as int, n));
                }
                possible_values.insert(cell, vs);
                proof {
                    assert forall|i: int|
                        possible_values.m().dom().contains(i) implies (
                    #[trigger] possible_values.key_at(i)).wf() && possible_values.key_at(
                        i,
                    ).spec_base() == n && possible_values.m()[i].wf() by {
                        if i != k {
                            assert(possible_values.key_at(i) == pre.key_at(i));
                            assert(possible_values.m()[i] == pre.m()[i]);
                        }
                    }
                    let fpre = pre.m().map_values(|vs2: ValueSet| vs2.vset());
                    let fnow = possible_values.m().map_values(|vs2: ValueSet| vs2.vset());
                    let goal = Map::new(
                        |i: int| 0 <= i < k + 1 && grid[i] is None,
                        |i: int| candidates_of(grid, i, n),
                    );
                    assert(possible_values.m()[k as int] == vs);
                    assert forall|i: int|
                        #![trigger fnow.dom().contains(i)]
                        #![trigger goal.dom().contains(i)]
                        true implies (fnow.dom().contains(i) <==> goal.dom().contains(i)) && (
                    fnow.dom().contains(i) ==> fnow[i] == goal[i]) by {
                        if i == k {
                            assert(fnow.dom().contains(i));
                            assert(fnow[i] == vs.vset());
                        } else {
                            assert(possible_values.m().dom().contains(i) <==> pre.m().dom().contains(i));
                            assert(fnow.dom().contains(i) <==> fpre.dom().contains(i));
                            if fnow.dom().contains(i) {
                                assert(possible_values.m()[i] == pre.m()[i]);
                                assert(fnow[i] == fpre[i]);
                                assert(fpre[i] == candidates_of(grid, i, n));
                            }
                        }
                    }
                    assert(fnow =~= goal);
                }
            } else {
                proof {
                    assert(grid[k as int] is Some);
                    assert(possible_values.m().map_values(|vs2: ValueSet| vs2.vset()) =~= Map::new(
                        |i: int| 0 <= i < k + 1 && grid[i] is None,
                        |i: int| candidates_of(grid, i, n),
                    ));
                }
            }
            k = k + 1;
        }
        proof {
            assert(possible_values.m().map_values(|vs2: ValueSet| vs2.vset()) =~= Map::new(
                |i: int| 0 <= i < cell_count(n) && grid[i] is None,
                |i: int| candidates_of(grid, i, n),
            ));
        }
        possible_values
    }

    /// Derives the buckets from the current candidate entries; the bucket
    /// index must be empty.
    fn populate_buckets(&mut self, cells: &Vec<CellLoc>)
        requires
            old(self).structural(),
            old(self).cc().dom() =~= Set::<int>::empty(),
            forall|i: int, v: u8|
                old(self).pv().dom().contains(i) && #[trigger] old(self).pv()[i].contains(v) ==> 0
                    <= i < cell_count(old(self).sbase()) && 1 <= v <= side_len(old(self).sbase()),
            cells@.len() == cell_count(old(self).sbase()),
            forall|t: int|
                0 <= t < cells@.len() ==> (#[trigger] cells@[t]).spec_index() == t
                    && cells@[t].spec_base() == old(self).sbase() && cells@[t].wf(),
        ensures
            final(self).structural(),
            final(self).base_size == old(self).base_size,
            final(self).possible_values == old(self).possible_values,
            final(self).cc().dom() =~= built_dom(
                old(self).pv(),
                cell_count(old(self).sbase()),
                old(self).sbase(),
            ),
            forall|bk: int|
                #![trigger final(self).cc()[bk]]
                final(self).cc().dom().contains(bk) ==> final(self).cc()[bk] =~= built_members(
                    old(self).pv(),
                    cell_count(old(self).sbase()),
                    bk,
                    old(self).sbase(),
                ),
    {
        let ghost n = self.sbase();
        let count = cells.len();
        let ghost pvm = self.pv();
        proof {
            reveal(built_dom);
            assert(self.cc().dom() =~= built_dom(pvm, 0, n));
            assert forall|i: int, v: u8|
                pvm.dom().contains(i) && #[trigger] pvm[i].contains(v) implies 0 <= i
                < cell_count(n) && 1 <= v <= side_len(n) by {}
        }
        let mut k: usize = 0;
        while k < count
            invariant
                n == self.sbase(),
                valid_base(n),
                count == cell_count(n),
                cells@.len() == count,
                forall|t: int|
                    0 <= t < cells@.len() ==> (#[trigger] cells@[t]).spec_index() == t
                        && cells@[t].spec_base() == n && cells@[t].wf(),
                k <= count,
                self.structural(),
                self.possible_values == old(self).possible_values,
                pvm == self.pv(),
                forall|i: int, v: u8|
                    pvm.dom().contains(i) && #[trigger] pvm[i].contains(v) ==> 0 <= i
                        < cell_count(n) && 1 <= v <= side_len(n),
                self.cc().dom() =~= built_dom(pvm, k as int, n),
                forall|bk: int|
                    #![trigger self.cc()[bk]]
                    self.cc().dom().contains(bk) ==> self.cc()[bk] =~= built_members(
                        pvm,
                        k as int,
                        bk,
                        n,
                    ),
            decreases count - k,
        {
            let cell = cells[k];
            let vs_opt = self.possible_values.get(&cell);
            let vs = match vs_opt {
                Some(v) => Some(v.duplicate()),
                None => None,
            };
            if let Some(vs) = vs {
                let ghost cc_k = self.cc();
                proof {
                    assert(pvm.dom().contains(k as int) && vs.vset() == pvm[k as int]);
                    assert forall|v: u8| vs.vset().contains(v) implies 1 <= v <= side_len(n) by {
                        assert(pvm[k as int].contains(v));
                    }
                }
                self.add_all_candidates(&cell, &vs);
                proof {
                    lemma_built_step(pvm, k as int, n, cc_k, self.cc(), vs.vset());
                }
            } else {
                proof {
                    reveal(built_dom);
                    reveal(built_members);
                    assert(!pvm.dom().contains(k as int));
                    assert(self.cc().dom() =~= built_dom(pvm, k + 1, n)) by {
                        assert forall|bk: int|
                            built_dom(pvm, k + 1, n).contains(bk) implies built_dom(
                            pvm,
                            k as int,
                            n,
                        ).contains(bk) by {}
                        assert forall|bk: int|
                            built_dom(pvm, k as int, n).contains(bk) implies built_dom(
                            pvm,
                            k + 1,
                            n,
                        ).contains(bk) by {}
                    }
                    assert forall|bk: int|
                        #![trigger self.cc()[bk]]
                        self.cc().dom().contains(bk) implies self.cc()[bk] =~= built_members(
                        pvm,
                        k + 1,
                        bk,
                        n,
                    ) by {
                        assert(self.cc()[bk] =~= built_members(pvm, k as int, bk, n));
                        assert(built_members(pvm, k + 1, bk, n) =~= built_members(
                            pvm,
                            k as int,
                            bk,
                            n,
                        ));
                    }
                }
            }
            k = k + 1;
        }
    }

    /// Builds the cache from a board snapshot: every empty cell is mapped to
    /// the values not already present in its line, column or square, and the
    /// buckets are derived from those entries.
    #[verifier::spinoff_prover]
    #[verifier::rlimit(100)]
    pub fn from_board(board: &Board) -> (r: CandidateCache)
        requires
            board.wf(),
        ensures
            r.wf(),
            r.sbase() == board.spec_base(),
            r.pv() =~= Map::new(
                |i: int| 0 <= i < cell_count(board.spec_base()) && board.grid()[i] is None,
                |i: int| candidates_of(board.grid(), i, board.spec_base()),
            ),
    {
        let ghost n = board.spec_base();
        let ghost grid = board.grid();
        let base_size = board.board_size().get_base_size();
        proof {
            assert(valid_base(base_size as int));
            assert(base_size == 2 || base_size == 3 || base_size == 4);
        }
        let side = base_size * base_size;
        proof {
            assert(side == 4 || side == 9 || side == 16);
        }
        let count = side * side;
        let cells = board.iter_cells();
        let possible_values = CandidateCache::build_possible_values(board);
        proof {
            let mapped = possible_values.m().map_values(|vs: ValueSet| vs.vset());
            assert forall|i: int|
                possible_values.m().dom().contains(i) implies (
            #[trigger] possible_values.m()[i]).in_range(side_len(n)) by {
                assert forall|v: u8|
                    possible_values.m()[i].vset().contains(v) implies 1 <= v <= side_len(n) by {
                    assert(mapped.dom().contains(i));
                    assert(mapped[i] == candidates_of(grid, i, n));
                    assert(mapped[i].contains(v));
                }
            }
        }
        proof {
            assert(side == 4 || side == 9 || side == 16);
            assert(3 * (side as int) * (side as int) <= 768) by (nonlinear_arith)
                requires
                    side as int <= 16,
            ;
        }
        let candidate_cells: IndexedMap<BlockValue, CellSet> = IndexedMap::new(3 * side * side);
        let mut cache = CandidateCache { base_size, possible_values, candidate_cells };
        let ghost pvm = cache.pv();
        cache.populate_buckets(&cells);
        proof {
            let ccm = cache.cc();
            assert forall|i: int, v: u8|
                pvm.dom().contains(i) && #[trigger] pvm[i].contains(v) implies 0 <= i
                < cell_count(n) && 1 <= v <= side_len(n) && fwd_ok(i, v, ccm, n) by {
                lemma_built_fwd_one(pvm, ccm, count as int, n, i, v);
            }
            assert forall|bk: int, i: int|
                ccm.dom().contains(bk) && #[trigger] ccm[bk].contains(i) implies bwd_ok(
                bk,
                i,
                pvm,
                n,
            ) by {
                lemma_built_bwd_one(pvm, ccm, count as int, n, bk, i);
            }
            assert(cache_consistent(pvm, ccm, n));
            assert(cache.pv() =~= Map::new(
                |i: int| 0 <= i < cell_count(board.spec_base()) && board.grid()[i] is None,
                |i: int| candidates_of(board.grid(), i, board.spec_base()),
            ));
        }
        cache
    }
}

/// Extending the built buckets by one cell's full candidate entry advances
/// the construction by one cell.
proof fn lemma_built_step(
    pvm: Map<int, Set<u8>>,
    k: int,
    n: int,
    cc_k: Map<int, Set<int>>,
    cc_now: Map<int, Set<int>>,
    vals: Set<u8>,
)
    requires
        0 <= k,
        pvm.dom().contains(k),
        pvm[k] == vals,
        cc_k.dom() =~= built_dom(pvm, k, n),
        forall|bk: int|
            #![trigger cc_k[bk]]
            cc_k.dom().contains(bk) ==> cc_k[bk] =~= built_members(pvm, k, bk, n),
        cc_now.dom() =~= cc_k.dom().union(cell_value_buckets(k, vals, n)),
        forall|bk: int|
            #![trigger cc_now[bk]]
            cc_now.dom().contains(bk) ==> if cell_value_buckets(k, vals, n).contains(bk) {
                cc_now[bk] =~= (if cc_k.dom().contains(bk) {
                    cc_k[bk]
                } else {
                    Set::empty()
                }).insert(k)
            } else {
                cc_now[bk] == cc_k[bk]
            },
    ensures
        cc_now.dom() =~= built_dom(pvm, k + 1, n),
        forall|bk: int|
            #![trigger cc_now[bk]]
            cc_now.dom().contains(bk) ==> cc_now[bk] =~= built_members(pvm, k + 1, bk, n),
{
    reveal(built_dom);
    reveal(built_members);
    assert(cc_now.dom() =~= built_dom(pvm, k + 1, n)) by {
        assert forall|bk: int| cc_now.dom().contains(bk) implies built_dom(pvm, k + 1, n).contains(
            bk,
        ) by {
            if built_dom(pvm, k, n).contains(bk) {
                let (j, v) = choose|j: int, v: u8|
                    0 <= j < k && pvm.dom().contains(j) && #[trigger] pvm[j].contains(v)
                        && is_axis_bk(bk, j, v, n);
                assert(0 <= j < k + 1 && pvm[j].contains(v) && is_axis_bk(bk, j, v, n));
            } else {
                let v = choose|v: u8| #[trigger] vals.contains(v) && is_axis_bk(bk, k, v, n);
                assert(pvm[k].contains(v) && is_axis_bk(bk, k, v, n));
            }
        }
        assert forall|bk: int| built_dom(pvm, k + 1, n).contains(bk) implies cc_now.dom().contains(
            bk,
        ) by {
            let (j, v) = choose|j: int, v: u8|
                0 <= j < k + 1 && pvm.dom().contains(j) && #[trigger] pvm[j].contains(v)
                    && is_axis_bk(bk, j, v, n);
            if j < k {
                assert(built_dom(pvm, k, n).contains(bk));
            } else {
                assert(vals.contains(v));
                assert(cell_value_buckets(k, vals, n).contains(bk));
            }
        }
    }
    assert forall|bk: int|
        #![trigger cc_now[bk]]
        cc_now.dom().contains(bk) implies cc_now[bk] =~= built_members(pvm, k + 1, bk, n) by {
        assert forall|j: int| cc_now[bk].contains(j) implies built_members(
            pvm,
            k + 1,
            bk,
            n,
        ).contains(j) by {
            if cell_value_buckets(k, vals, n).contains(bk) && j == k {
                let v = choose|v: u8| #[trigger] vals.contains(v) && is_axis_bk(bk, k, v, n);
                assert(pvm[k].contains(v) && is_axis_bk(bk, k, v, n));
            } else {
                assert(cc_k.dom().contains(bk) && cc_k[bk].contains(j));
                assert(built_members(pvm, k, bk, n).contains(j));
            }
        }
        assert forall|j: int|
            built_members(pvm, k + 1, bk, n).contains(j) implies cc_now[bk].contains(j) by {
            if j < k {
                assert(built_members(pvm, k, bk, n).contains(j));
                assert(cc_k.dom().contains(bk)) by {
                    let v = choose|v: u8| #[trigger] pvm[j].contains(v) && is_axis_bk(bk, j, v, n);
                    assert(built_dom(pvm, k, n).contains(bk));
                }
                assert(cc_k[bk].contains(j));
            } else {
                assert(j == k);
                let v = choose|v: u8| #[trigger] pvm[k].contains(v) && is_axis_bk(bk, k, v, n);
                assert(vals.contains(v));
                assert(cell_value_buckets(k, vals, n).contains(bk));
                assert(cc_now[bk] =~= (if cc_k.dom().contains(bk) {
                    cc_k[bk]
                } else {
                    Set::empty()
                }).insert(k));
            }
        }
    }
}

/// One candidate pair of the built cache is registered in all three of its
/// buckets.
proof fn lemma_built_fwd_one(
    pvm: Map<int, Set<u8>>,
    ccm: Map<int, Set<int>>,
    count: int,
    n: int,
    i: int,
    v: u8,
)
    requires
        valid_base(n),
        count == cell_count(n),
        forall|i2: int, v2: u8|
            pvm.dom().contains(i2) && #[trigger] pvm[i2].contains(v2) ==> 0 <= i2 < cell_count(n)
                && 1 <= v2 <= side_len(n),
        forall|bk3: int|
            #![trigger ccm.dom().contains(bk3)]
            ccm.dom().contains(bk3) <==> built_dom(pvm, count, n).contains(bk3),
        forall|bk: int, j: int|
            #![trigger ccm[bk].contains(j)]
            ccm.dom().contains(bk) ==> (ccm[bk].contains(j) <==> built_members(
                pvm,
                count,
                bk,
                n,
            ).contains(j)),
        pvm.dom().contains(i),
        pvm[i].contains(v),
    ensures
        0 <= i < cell_count(n),
        1 <= v <= side_len(n),
        fwd_ok(i, v, ccm, n),
{
    reveal(built_dom);
    reveal(built_members);
    crate::board::lemma_cell_geometry(i, n);
    let bka = bk_of(line_of(i, n), v, n);
    let bkb = bk_of(side_len(n) + col_of(i, n), v, n);
    let bkc = bk_of(2 * side_len(n) + square_of(i, n), v, n);
    assert(is_axis_bk(bka, i, v, n) && is_axis_bk(bkb, i, v, n) && is_axis_bk(bkc, i, v, n));
    assert forall|bk: int| bk == bka || bk == bkb || bk == bkc implies bucket_has(ccm, bk, i) by {
        assert(built_dom(pvm, count, n).contains(bk));
        assert(built_members(pvm, count, bk, n).contains(i));
    }
}

/// One bucket member of the built cache points back at a candidate pair.
proof fn lemma_built_bwd_one(
    pvm: Map<int, Set<u8>>,
    ccm: Map<int, Set<int>>,
    count: int,
    n: int,
    bk: int,
    i: int,
)
    requires
        valid_base(n),
        count == cell_count(n),
        forall|i2: int, v2: u8|
            pvm.dom().contains(i2) && #[trigger] pvm[i2].contains(v2) ==> 0 <= i2 < cell_count(n)
                && 1 <= v2 <= side_len(n),
        forall|bk3: int|
            #![trigger ccm.dom().contains(bk3)]
            ccm.dom().contains(bk3) <==> built_dom(pvm, count, n).contains(bk3),
        forall|bk2: int, j: int|
            #![trigger ccm[bk2].contains(j)]
            ccm.dom().contains(bk2) ==> (ccm[bk2].contains(j) <==> built_members(
                pvm,
                count,
                bk2,
                n,
            ).contains(j)),
        ccm.dom().contains(bk),
        ccm[bk].contains(i),
    ensures
        bwd_ok(bk, i, pvm, n),
{
    reveal(built_dom);
    reveal(built_members);
    assert(built_members(pvm, count, bk, n).contains(i));
    let v = choose|v: u8| #[trigger] pvm[i].contains(v) && is_axis_bk(bk, i, v, n);
    crate::board::lemma_cell_geometry(i, n);
    lemma_bk_decompose(line_of(i, n), v, n);
    lemma_bk_decompose(side_len(n) + col_of(i, n), v, n);
    lemma_bk_decompose(2 * side_len(n) + square_of(i, n), v, n);
    assert(bk_val(bk, n) == v);
    assert(cell_in_axis(i, bk_axis(bk, n), n));
}

/// Appending one move record extends the touched buckets and the recorded
/// cells by exactly that record.
pub proof fn lemma_move_push(moves: Seq<(u8, CellLoc, Block)>, mv: (u8, CellLoc, Block), n: int)
    ensures
        move_buckets(moves.push(mv), n) =~= move_buckets(moves, n).insert(bk_of_move(mv, n)),
        forall|bk: int|
            #![trigger move_adds(moves.push(mv), bk, n)]
            move_adds(moves.push(mv), bk, n) =~= if bk == bk_of_move(mv, n) {
                move_adds(moves, bk, n).insert(mv.1.spec_index())
            } else {
                move_adds(moves, bk, n)
            },
{
    let s = moves.push(mv);
    assert forall|bk: int| move_buckets(s, n).contains(bk) implies move_buckets(moves, n).insert(
        bk_of_move(mv, n),
    ).contains(bk) by {
        let t = choose|t: int| 0 <= t < s.len() && bk_of_move(#[trigger] s[t], n) == bk;
        if t < moves.len() {
            assert(moves[t] == s[t]);
        }
    }
    assert forall|bk: int|
        move_buckets(moves, n).insert(bk_of_move(mv, n)).contains(bk) implies move_buckets(
        s,
        n,
    ).contains(bk) by {
        if bk == bk_of_move(mv, n) {
            assert(bk_of_move(s[s.len() - 1], n) == bk);
        } else {
            let t = choose|t: int| 0 <= t < moves.len() && bk_of_move(#[trigger] moves[t], n) == bk;
            assert(bk_of_move(s[t], n) == bk);
        }
    }
    assert forall|bk: int|
        #![trigger move_adds(s, bk, n)]
        true implies move_adds(s, bk, n) =~= (if bk == bk_of_move(mv, n) {
        move_adds(moves, bk, n).insert(mv.1.spec_index())
    } else {
        move_adds(moves, bk, n)
    }) by {
        assert forall|i: int| move_adds(s, bk, n).contains(i) implies (if bk == bk_of_move(mv, n) {
            move_adds(moves, bk, n).insert(mv.1.spec_index())
        } else {
            move_adds(moves, bk, n)
        }).contains(i) by {
            let t = choose|t: int|
                0 <= t < s.len() && bk_of_move(#[trigger] s[t], n) == bk && s[t].1.spec_index()
                    == i;
            if t < moves.len() {
                assert(moves[t] == s[t]);
            }
        }
        assert forall|i: int|
            (if bk == bk_of_move(mv, n) {
                move_adds(moves, bk, n).insert(mv.1.spec_index())
            } else {
                move_adds(moves, bk, n)
            }).contains(i) implies move_adds(s, bk, n).contains(i) by {
            if move_adds(moves, bk, n).contains(i) {
                let t = choose|t: int|
                    0 <= t < moves.len() && bk_of_move(#[trigger] moves[t], n) == bk
                        && moves[t].1.spec_index() == i;
                assert(bk_of_move(s[t], n) == bk && s[t].1.spec_index() == i);
            } else {
                assert(bk_of_move(s[s.len() - 1], n) == bk && s[s.len() - 1].1.spec_index() == i);
            }
        }
    }
}

/// Removing one recorded cell from a bucket and recording the removal leaves
/// the replayed state unchanged.
pub proof fn lemma_moves_removal_step(
    cc: Map<int, Set<int>>,
    moves: Seq<(u8, CellLoc, Block)>,
    mv: (u8, CellLoc, Block),
    n: int,
)
    requires
        cc.dom().contains(bk_of_move(mv, n)),
        cc[bk_of_move(mv, n)].contains(mv.1.spec_index()),
    ensures
        apply_moves(
            cc.insert(bk_of_move(mv, n), cc[bk_of_move(mv, n)].remove(mv.1.spec_index())),
            moves.push(mv),
            n,
        ) =~= apply_moves(cc, moves, n),
{
    let bk0 = bk_of_move(mv, n);
    let i0 = mv.1.spec_index();
    let cc2 = cc.insert(bk0, cc[bk0].remove(i0));
    lemma_apply_moves_char(cc2, moves.push(mv), n);
    lemma_apply_moves_char(cc, moves, n);
    lemma_move_push(moves, mv, n);
    let lhs = apply_moves(cc2, moves.push(mv), n);
    let rhs = apply_moves(cc, moves, n);
    assert(lhs.dom() =~= rhs.dom());
    assert forall|bk: int| #[trigger] lhs.dom().contains(bk) implies lhs[bk] =~= rhs[bk] by {
        if bk == bk0 {
            assert(move_buckets(moves.push(mv), n).contains(bk)) by {
                assert(bk_of_move(moves.push(mv)[moves.len() as int], n) == bk);
            }
            assert(lhs[bk] =~= cc[bk0].remove(i0).union(move_adds(moves.push(mv), bk, n)));
            if move_buckets(moves, n).contains(bk) {
                assert(rhs[bk] =~= cc[bk].union(move_adds(moves, bk, n)));
            } else {
                assert(rhs[bk] == cc[bk]);
                assert(move_adds(moves, bk, n) =~= Set::<int>::empty()) by {
                    assert forall|i: int| !move_adds(moves, bk, n).contains(i) by {
                        if move_adds(moves, bk, n).contains(i) {
                            let t = choose|t: int|
                                0 <= t < moves.len() && bk_of_move(#[trigger] moves[t], n) == bk
                                    && moves[t].1.spec_index() == i;
                            assert(move_buckets(moves, n).contains(bk));
                        }
                    }
                }
            }
            assert(lhs[bk] =~= rhs[bk]);
        } else {
            if move_buckets(moves, n).contains(bk) {
                assert(move_buckets(moves.push(mv), n).contains(bk));
                assert(move_adds(moves.push(mv), bk, n) =~= move_adds(moves, bk, n));
                assert(cc2.dom().contains(bk) <==> cc.dom().contains(bk));
                if cc.dom().contains(bk) {
                    assert(cc2[bk] == cc[bk]);
                }
            } else {
                assert(!move_buckets(moves.push(mv), n).contains(bk));
                assert(lhs[bk] == cc2[bk] && rhs[bk] == cc[bk]);
            }
        }
    }
}

/// Removing one value from one cell's entry and recording the removal leaves
/// the replayed per-cell state unchanged.
pub proof fn lemma_affected_removal_step(
    pv: Map<int, Set<u8>>,
    options: (CellLoc, Option<ValueSet>),
    affected: Seq<(CellLoc, u8)>,
    c2: CellLoc,
    value: u8,
)
    requires
        pv.dom().contains(c2.spec_index()),
        pv[c2.spec_index()].contains(value),
        options.0.spec_index() != c2.spec_index(),
    ensures
        apply_affected(
            apply_options(pv.insert(c2.spec_index(), pv[c2.spec_index()].remove(value)), options),
            affected.push((c2, value)),
        ) =~= apply_affected(apply_options(pv, options), affected),
{
    let j0 = c2.spec_index();
    let pv2 = pv.insert(j0, pv[j0].remove(value));
    let m2 = apply_options(pv2, options);
    let m1 = apply_options(pv, options);
    assert(m2 =~= m1.insert(j0, pv[j0].remove(value)));
    let aff2 = affected.push((c2, value));
    lemma_apply_affected_char(m2, aff2);
    lemma_apply_affected_char(m1, affected);
    assert(affected_cells(aff2) =~= affected_cells(affected).insert(j0)) by {
        assert forall|j: int| affected_cells(aff2).contains(j) implies affected_cells(
            affected,
        ).insert(j0).contains(j) by {
            let t = choose|t: int|
                0 <= t < aff2.len() && (#[trigger] aff2[t]).0.spec_index() == j;
            if t < affected.len() {
                assert(affected[t] == aff2[t]);
            }
        }
        assert forall|j: int|
            affected_cells(affected).insert(j0).contains(j) implies affected_cells(aff2).contains(
            j,
        ) by {
            if j == j0 {
                assert((aff2[aff2.len() - 1]).0.spec_index() == j);
            } else {
                let t = choose|t: int|
                    0 <= t < affected.len() && (#[trigger] affected[t]).0.spec_index() == j;
                assert((aff2[t]).0.spec_index() == j);
            }
        }
    }
    assert forall|j: int|
        #![trigger affected_adds(aff2, j)]
        true implies affected_adds(aff2, j) =~= (if j == j0 {
        affected_adds(affected, j).insert(value)
    } else {
        affected_adds(affected, j)
    }) by {
        assert forall|v: u8| affected_adds(aff2, j).contains(v) implies (if j == j0 {
            affected_adds(affected, j).insert(value)
        } else {
            affected_adds(affected, j)
        }).contains(v) by {
            let t = choose|t: int|
                0 <= t < aff2.len() && (#[trigger] aff2[t]).0.spec_index() == j && aff2[t].1 == v;
            if t < affected.len() {
                assert(affected[t] == aff2[t]);
            }
        }
        assert forall|v: u8|
            (if j == j0 {
                affected_adds(affected, j).insert(value)
            } else {
                affected_adds(affected, j)
            }).contains(v) implies affected_adds(aff2, j).contains(v) by {
            if affected_adds(affected, j).contains(v) {
                let t = choose|t: int|
                    0 <= t < affected.len() && (#[trigger] affected[t]).0.spec_index() == j
                        && affected[t].1 == v;
                assert((aff2[t]).0.spec_index() == j && aff2[t].1 == v);
            } else {
                assert((aff2[aff2.len() - 1]).0.spec_index() == j && aff2[aff2.len() - 1].1 == v);
            }
        }
    }
    let lhs = apply_affected(m2, aff2);
    let rhs = apply_affected(m1, affected);
    assert(lhs.dom() =~= rhs.dom());
    assert forall|j: int| #[trigger] lhs.dom().contains(j) implies lhs[j] =~= rhs[j] by {
        if j == j0 {
            assert(affected_cells(aff2).contains(j)) by {
                assert((aff2[aff2.len() - 1]).0.spec_index() == j);
            }
            assert(m1.dom().contains(j) && m1[j] == pv[j0]);
            assert(m2[j] == pv[j0].remove(value));
            assert(lhs[j] =~= pv[j0].remove(value).union(affected_adds(aff2, j)));
            if affected_cells(affected).contains(j) {
                assert(rhs[j] =~= pv[j0].union(affected_adds(affected, j)));
            } else {
                assert(rhs[j] == m1[j]);
                assert(affected_adds(affected, j) =~= Set::<u8>::empty()) by {
                    assert forall|v: u8| !affected_adds(affected, j).contains(v) by {
                        if affected_adds(affected, j).contains(v) {
                            let t = choose|t: int|
                                0 <= t < affected.len() && (#[trigger] affected[t]).0.spec_index()
                                    == j && affected[t].1 == v;
                            assert(affected_cells(affected).contains(j));
                        }
                    }
                }
            }
            assert(lhs[j] =~= rhs[j]);
        } else {
            if affected_cells(affected).contains(j) {
                assert(affected_cells(aff2).contains(j));
                assert(affected_adds(aff2, j) =~= affected_adds(affected, j));
                assert(m2.dom().contains(j) <==> m1.dom().contains(j));
                if m1.dom().contains(j) {
                    assert(m2[j] == m1[j]);
                }
            } else {
                assert(!affected_cells(aff2).contains(j));
                assert(lhs[j] == m2[j] && rhs[j] == m1[j]);
            }
        }
    }
}

/// Removing a bucket that the records can rebuild leaves the replayed state
/// unchanged, provided the bucket is empty.
pub proof fn lemma_moves_empty_bucket_removal(
    cc: Map<int, Set<int>>,
    moves: Seq<(u8, CellLoc, Block)>,
    bk: int,
    n: int,
)
    requires
        cc.dom().contains(bk),
        cc[bk] =~= Set::<int>::empty(),
        move_buckets(moves, n).contains(bk),
    ensures
        apply_moves(cc.remove(bk), moves, n) =~= apply_moves(cc, moves, n),
{
    lemma_apply_moves_char(cc.remove(bk), moves, n);
    lemma_apply_moves_char(cc, moves, n);
    let lhs = apply_moves(cc.remove(bk), moves, n);
    let rhs = apply_moves(cc, moves, n);
    assert(lhs.dom() =~= rhs.dom());
    assert forall|bk2: int| #[trigger] lhs.dom().contains(bk2) implies lhs[bk2] =~= rhs[bk2] by {
        if bk2 == bk {
            assert(lhs[bk2] =~= Set::empty().union(move_adds(moves, bk2, n)));
            assert(rhs[bk2] =~= cc[bk].union(move_adds(moves, bk2, n)));
        } else {
            if move_buckets(moves, n).contains(bk2) {
                assert(cc.remove(bk).dom().contains(bk2) <==> cc.dom().contains(bk2));
                if cc.dom().contains(bk2) {
                    assert(cc.remove(bk)[bk2] == cc[bk2]);
                }
            } else {
                assert(lhs[bk2] == cc.remove(bk)[bk2] && rhs[bk2] == cc[bk2]);
            }
        }
    }
}

/// The per-cell candidate map after `value` has been struck from the entries
/// of the cells in `seen`.
pub open spec fn masked(
    pv1: Map<int, Set<u8>>,
    seen: Set<int>,
    value: u8,
) -> Map<int, Set<u8>> {
    Map::new(
        |j: int| pv1.dom().contains(j),
        |j: int|
            if seen.contains(j) {
                pv1[j].remove(value)
            } else {
                pv1[j]
            },
    )
}

impl CandidateCache {
    /// Removes `cell2` from the bucket of (`block`, `value`) and records the
    /// removal, if the cell was a member.
    fn remove_cell_record(
        &mut self,
        block: Block,
        value: u8,
        cell2: CellLoc,
        moves: &mut Vec<(u8, CellLoc, Block)>,
    )
        requires
            old(self).structural(),
            block_in_range(block, side_len(old(self).sbase())),
            1 <= value <= side_len(old(self).sbase()),
            cell2.wf(),
            cell2.spec_base() == old(self).sbase(),
        ensures
            final(self).structural(),
            final(self).base_size == old(self).base_size,
            final(self).possible_values == old(self).possible_values,
            apply_moves(final(self).cc(), final(moves)@, old(self).sbase()) =~= apply_moves(
                old(self).cc(),
                old(moves)@,
                old(self).sbase(),
            ),
            ({
                let bk = bk_of(
                    block_axis(block, side_len(old(self).sbase())),
                    value,
                    old(self).sbase(),
                );
                if bucket_has(old(self).cc(), bk, cell2.spec_index()) {
                    final(self).cc() =~= old(self).cc().insert(
                        bk,
                        old(self).cc()[bk].remove(cell2.spec_index()),
                    ) && final(moves)@ == old(moves)@.push((value, cell2, block))
                } else {
                    final(self).cc() =~= old(self).cc() && final(moves)@ == old(moves)@
                }
            }),
    {
        let ghost n = self.sbase();
        let ghost bk = bk_of(block_axis(block, side_len(n)), value, n);
        let r = self.bucket_remove_cell(block, value, &cell2);
        if r {
            moves.push((value, cell2, block));
            proof {
                assert(self.cc() =~= old(self).cc().insert(
                    bk,
                    old(self).cc()[bk].remove(cell2.spec_index()),
                ));
                lemma_moves_removal_step(old(self).cc(), old(moves)@, (value, cell2, block), n);
            }
        } else {
            proof {
                assert(self.cc() =~= old(self).cc()) by {
                    if old(self).cc().dom().contains(bk) {
                        assert(old(self).cc()[bk].remove(cell2.spec_index()) =~= old(self).cc()[
                        bk]);
                        assert forall|bk2: int| #[trigger]
                            self.cc().dom().contains(bk2) implies self.cc()[bk2] == old(
                            self,
                        ).cc()[bk2] by {}
                    }
                }
            }
        }
    }

    /// Drops the whole bucket of (`block`, `value`) and records every member,
    /// if the bucket exists and is not empty.
    fn clear_value_bucket(
        &mut self,
        block: Block,
        value: u8,
        moves: &mut Vec<(u8, CellLoc, Block)>,
    )
        requires
            old(self).structural(),
            block_in_range(block, side_len(old(self).sbase())),
            1 <= value <= side_len(old(self).sbase()),
        ensures
            final(self).structural(),
            final(self).base_size == old(self).base_size,
            final(self).possible_values == old(self).possible_values,
            apply_moves(final(self).cc(), final(moves)@, old(self).sbase()) =~= apply_moves(
                old(self).cc(),
                old(moves)@,
                old(self).sbase(),
            ),
            ({
                let bk = bk_of(
                    block_axis(block, side_len(old(self).sbase())),
                    value,
                    old(self).sbase(),
                );
                if old(self).cc().dom().contains(bk) && old(self).cc()[bk] !== Set::<int>::empty()
                 {
                    final(self).cc() =~= old(self).cc().remove(bk)
                } else {
                    final(self).cc() =~= old(self).cc()
                }
            }),
            final(moves)@.len() >= old(moves)@.len(),
            forall|u: int| 0 <= u < old(moves)@.len() ==> final(moves)@[u] == old(moves)@[u],
            forall|u: int|
                old(moves)@.len() <= u < final(moves)@.len() ==> {
                    let (v2, c2, b2) = #[trigger] final(moves)@[u];
                    v2 == value && b2 == block && c2.wf() && c2.spec_base() == old(self).sbase()
                },
    {
        let ghost n = self.sbase();
        let side = self.side();
        let key = BlockValue { block, value, side };
        proof {
            lemma_bk_decompose(block_axis(block, side_len(n)), value, n);
        }
        let ghost bk = key.key_idx();
        let cs = match self.candidate_cells.get(&key) {
            Some(cs) => Some(cs.duplicate()),
            None => None,
        };
        if let Some(cs) = cs {
            if cs.len() > 0 {
                let ghost cc0 = self.cc();
                let ghost moves0 = moves@;
                let ghost mut removed: Set<int> = Set::empty();
                proof {
                    assert(cs.iset().contains(cs.cseq()[0].spec_index()));
                    assert(cc0[bk].difference(removed) =~= cc0[bk]);
                    assert(self.cc() =~= cc0.insert(bk, cc0[bk]));
                    assert(cc0.insert(bk, cc0[bk]).insert(bk, cc0[bk].difference(removed))
                        =~= cc0.insert(bk, cc0[bk].difference(removed)));
                    assert(self.cc() =~= cc0.insert(bk, cc0[bk].difference(removed)));
                }
                let mut t: usize = 0;
                while t < cs.len()
                    invariant
                        self.structural(),
                        self.base_size == old(self).base_size,
                        self.possible_values == old(self).possible_values,
                        n == self.sbase(),
                        cc0 == old(self).cc(),
                        moves0 == old(moves)@,
                        block_in_range(block, side_len(n)),
                        1 <= value <= side_len(n),
                        bk == bk_of(block_axis(block, side_len(n)), value, n),
                        t <= cs.cseq().len(),
                        cs.wf(),
                        cs.cseq().len() > 0,
                        forall|u: int|
                            0 <= u < cs.cseq().len() ==> (#[trigger] cs.cseq()[u]).wf()
                                && cs.cseq()[u].spec_base() == n,
                        cc0.dom().contains(bk),
                        cc0[bk] == cs.iset(),
                        forall|i: int|
                            #[trigger] removed.contains(i) <==> exists|u: int|
                                0 <= u < t && (#[trigger] cs.cseq()[u]).spec_index() == i,
                        self.cc() =~= cc0.insert(bk, cc0[bk].difference(removed)),
                        apply_moves(self.cc(), moves@, n) =~= apply_moves(cc0, moves0, n),
                        moves@.len() == moves0.len() + t,
                        forall|u: int| 0 <= u < moves0.len() ==> moves@[u] == moves0[u],
                        forall|u: int|
                            moves0.len() <= u < moves@.len() ==> moves@[u] == (
                            value,
                            cs.cseq()[u - moves0.len()],
                            block,
                            ),
                    decreases cs.cseq().len() - t,
                {
                    let ghost cc_pre = self.cc();
                    let ghost moves_pre = moves@;
                    let member = cs.get(t);
                    proof {
                        assert(cc_pre.dom().contains(bk));
                        assert(!removed.contains(member.spec_index())) by {
                            if removed.contains(member.spec_index()) {
                                let u = choose|u: int|
                                    0 <= u < t && (#[trigger] cs.cseq()[u]).spec_index()
                                        == member.spec_index();
                                assert(cs.cseq()[u].spec_index() < cs.cseq()[
                                t as int].spec_index());
                            }
                        }
                        assert(cc_pre[bk].contains(member.spec_index())) by {
                            assert(cs.iset().contains(member.spec_index()));
                        }
                    }
                    self.remove_cell_record(block, value, member, moves);
                    proof {
                        removed = removed.insert(member.spec_index());
                        assert forall|i: int| #[trigger]
                            removed.contains(i) <==> exists|u: int|
                                0 <= u < t + 1 && (#[trigger] cs.cseq()[u]).spec_index() == i by {
                            if removed.contains(i) && i != member.spec_index() {
                                let u = choose|u: int|
                                    0 <= u < t && (#[trigger] cs.cseq()[u]).spec_index() == i;
                            }
                            if i == member.spec_index() {
                                assert(cs.cseq()[t as int].spec_index() == i);
                            }
                        }
                        assert(cc_pre[bk].remove(member.spec_index()) =~= cc0[bk].difference(
                            removed,
                        ));
                        assert(self.cc() =~= cc_pre.insert(
                            bk,
                            cc_pre[bk].remove(member.spec_index()),
                        ));
                        assert(self.cc() =~= cc0.insert(bk, cc0[bk].difference(removed)));
                    }
                    t = t + 1;
                }
                proof {
                    assert(self.cc()[bk] =~= Set::<int>::empty()) by {
                        assert forall|i: int| !self.cc()[bk].contains(i) by {
                            if self.cc()[bk].contains(i) {
                                assert(cs.iset().contains(i));
                                let u = choose|u: int|
                                    0 <= u < cs.cseq().len() && (
                                    #[trigger] cs.cseq()[u]).spec_index() == i;
                                assert(removed.contains(i));
                            }
                        }
                    }
                    assert(move_buckets(moves@, n).contains(bk)) by {
                        assert(moves@[moves0.len() as int] == (value, cs.cseq()[0], block));
                        assert(bk_of_move(moves@[moves0.len() as int], n) == bk);
                    }
                }
                let ghost cc_mid = self.cc();
                let _ = self.candidate_cells.remove(&key);
                proof {
                    assert(self.cc() =~= cc_mid.remove(bk));
                    lemma_moves_empty_bucket_removal(cc_mid, moves@, bk, n);
                    assert(apply_moves(self.cc(), moves@, n) =~= apply_moves(cc0, moves0, n));
                    assert(self.cc() =~= cc0.remove(bk));
                }
            } else {
                proof {
                    assert(self.cc()[bk] =~= Set::<int>::empty()) by {
                        assert(self.cc()[bk] == cs.iset());
                    }
                }
            }
        }
    }
}

} // verus!

verus! {

impl CandidateCache {
    /// Strikes `value` from the candidate entry of `cell2`, recording the
    /// removal and the matching bucket removals.  Returns whether the entry
    /// exists but ends up with no candidate value at all.
    fn strike_affected_cell(
        &mut self,
        cell2: CellLoc,
        value: u8,
        moves: &mut Vec<(u8, CellLoc, Block)>,
        affected: &mut Vec<(CellLoc, u8)>,
    ) -> (now_empty: bool)
        requires
            old(self).structural(),
            cell2.wf(),
            cell2.spec_base() == old(self).sbase(),
            1 <= value <= side_len(old(self).sbase()),
        ensures
            final(self).structural(),
            final(self).base_size == old(self).base_size,
            apply_moves(final(self).cc(), final(moves)@, old(self).sbase()) =~= apply_moves(
                old(self).cc(),
                old(moves)@,
                old(self).sbase(),
            ),
            forall|u: int| 0 <= u < old(moves)@.len() ==> final(moves)@[u] == old(moves)@[u],
            final(moves)@.len() >= old(moves)@.len(),
            forall|u: int|
                old(moves)@.len() <= u < final(moves)@.len() ==> {
                    let (v2, c2, b2) = #[trigger] final(moves)@[u];
                    v2 == value && c2 == cell2 && block_in_range(b2, side_len(old(self).sbase()))
                },
            ({
                let i2 = cell2.spec_index();
                if old(self).pv().dom().contains(i2) {
                    &&& final(self).pv() =~= old(self).pv().insert(
                        i2,
                        old(self).pv()[i2].remove(value),
                    )
                    &&& now_empty == old(self).pv()[i2].subset_of(Set::empty().insert(value))
                    &&& (old(self).pv()[i2].contains(value) ==> final(affected)@ == old(
                        affected,
                    )@.push((cell2, value)))
                    &&& (!old(self).pv()[i2].contains(value) ==> final(affected)@ == old(
                        affected,
                    )@ && final(moves)@ == old(moves)@ && final(self).cc() =~= old(self).cc())
                } else {
                    &&& final(self).pv() =~= old(self).pv()
                    &&& final(self).cc() =~= old(self).cc()
                    &&& now_empty == false
                    &&& final(affected)@ == old(affected)@
                    &&& final(moves)@ == old(moves)@
                }
            }),
    {
        let ghost n = self.sbase();
        let ghost i2 = cell2.spec_index();
        let ghost pv0 = self.pv();
        let ghost cc0 = self.cc();
        let existing = self.possible_values.remove(&cell2);
        match existing {
            Some(mut vs) => {
                let removed = vs.remove(value);
                let now_empty = vs.is_empty();
                self.possible_values.insert(cell2, vs);
                proof {
                    assert(self.pv() =~= pv0.insert(i2, pv0[i2].remove(value)));
                    assert(self.cc() =~= cc0);
                    assert(now_empty == pv0[i2].subset_of(Set::empty().insert(value))) by {
                        if pv0[i2].remove(value).len() == 0 {
                            assert(pv0[i2].remove(value) =~= Set::empty());
                            assert forall|w: u8| pv0[i2].contains(w) implies Set::empty().insert(
                                value,
                            ).contains(w) by {
                                if w != value {
                                    assert(pv0[i2].remove(value).contains(w));
                                }
                            }
                        } else {
                            let w = pv0[i2].remove(value).choose();
                            assert(pv0[i2].remove(value).contains(w)) by {
                                vstd::set_lib::lemma_set_empty_equivalency_len(
                                    pv0[i2].remove(value),
                                );
                                if pv0[i2].remove(value) =~= Set::<u8>::empty() {
                                }
                            }
                            assert(pv0[i2].contains(w) && w != value);
                        }
                    }
                }
                if removed {
                    affected.push((cell2, value));
                    let l = cell2.line();
                    let c = cell2.col();
                    let sq = cell2.square();
                    self.remove_cell_record(Block::Line(l), value, cell2, moves);
                    self.remove_cell_record(Block::Col(c), value, cell2, moves);
                    self.remove_cell_record(Block::Square(sq), value, cell2, moves);
                } else {
                    proof {
                        assert(!pv0[i2].contains(value));
                    }
                }
                now_empty
            },
            None => {
                proof {
                    assert(self.pv() =~= pv0);
                    assert(self.cc() =~= cc0);
                }
                false
            },
        }
    }
}

/// Every move record is on-board and in range.
pub open spec fn moves_ok(moves: Seq<(u8, CellLoc, Block)>, n: int) -> bool {
    forall|t: int|
        0 <= t < moves.len() ==> {
            let (v, c, b) = #[trigger] moves[t];
            c.wf() && c.spec_base() == n && 1 <= v <= side_len(n) && block_in_range(b, side_len(n))
        }
}

impl CandidateCache {
    /// Commits `value` at `cell` on the cache: drops the cell's candidate
    /// entry, drops the value's buckets in the cell's three blocks, and
    /// strikes the value from every cell sharing a block with it.  On
    /// success the returned token restores the cache exactly; if some
    /// affected cell would be left without any candidate, everything is
    /// rolled back and the error names the assigned cell.
    pub fn set_value(&mut self, value: u8, cell: CellLoc) -> (r: Result<
        UndoSetValue,
        NoCadidatesLeftError,
    >)
        requires
            old(self).structural(),
            cell.wf(),
            cell.spec_base() == old(self).sbase(),
            1 <= value <= side_len(old(self).sbase()),
        ensures
            final(self).structural(),
            final(self).base_size == old(self).base_size,
            r is Err ==> final(self).pv() =~= old(self).pv() && final(self).cc() =~= old(
                self,
            ).cc() && r->Err_0.0 == cell,
            (r is Err <==> exists|j: int|
                #![trigger old(self).pv().dom().contains(j)]
                old(self).pv().dom().contains(j) && j != cell.spec_index() && same_block(
                    cell.spec_index(),
                    j,
                    old(self).sbase(),
                ) && old(self).pv()[j].subset_of(Set::empty().insert(value))),
            r is Ok ==> ({
                let tok = r->Ok_0;
                let n = old(self).sbase();
                let i = cell.spec_index();
                &&& tok.ranges_ok(n)
                &&& apply_undo_pv(final(self).pv(), tok) =~= old(self).pv()
                &&& apply_moves(final(self).cc(), tok.moves@, n) =~= old(self).cc()
                &&& final(self).pv().dom() =~= old(self).pv().dom().remove(i)
                &&& (forall|j: int|
                    #![trigger final(self).pv()[j]]
                    final(self).pv().dom().contains(j) ==> if same_block(i, j, n) {
                        final(self).pv()[j] == old(self).pv()[j].remove(value)
                    } else {
                        final(self).pv()[j] == old(self).pv()[j]
                    })
                &&& tok.options.0 == cell
                &&& (tok.options.1 is Some <==> old(self).pv().dom().contains(i))
                &&& (tok.options.1 is Some ==> tok.options.1->0.vset() == old(self).pv()[i])
                &&& (forall|t: int|
                    0 <= t < tok.affected_cell_options@.len() ==> {
                        let (c2, v2) = #[trigger] tok.affected_cell_options@[t];
                        &&& v2 == value
                        &&& c2.spec_index() != i
                        &&& old(self).pv().dom().contains(c2.spec_index())
                        &&& old(self).pv()[c2.spec_index()].contains(value)
                    })
            }),
    {
        let ghost n = self.sbase();
        let ghost i = cell.spec_index();
        let ghost pv0 = self.pv();
        let ghost cc0 = self.cc();
        let maybe_options = self.possible_values.remove(&cell);
        let ghost gopts = (cell, maybe_options);
        let ghost pv1 = self.pv();
        let mut moves: Vec<(u8, CellLoc, Block)> = Vec::new();
        let mut affected: Vec<(CellLoc, u8)> = Vec::new();
        proof {
            assert(pv1 =~= pv0.remove(i));
            assert(gopts.1 is Some ==> gopts.1->0.wf() && gopts.1->0.in_range(side_len(n))
                && gopts.1->0.vset() == pv0[i]);
            assert(apply_affected(apply_options(pv1, gopts), affected@) =~= pv0) by {
                match gopts.1 {
                    Some(vs) => {
                        assert(apply_options(pv1, gopts) =~= pv1.insert(i, vs.vset()));
                        assert(pv1.insert(i, vs.vset()) =~= pv0);
                    },
                    None => {
                        assert(pv1 =~= pv0);
                    },
                }
            }
        }
        let l = cell.line();
        let c = cell.col();
        let sq = cell.square();
        let ghost m0 = moves@;
        self.clear_value_bucket(Block::Line(l), value, &mut moves);
        let ghost m1 = moves@;
        self.clear_value_bucket(Block::Col(c), value, &mut moves);
        let ghost m2 = moves@;
        self.clear_value_bucket(Block::Square(sq), value, &mut moves);
        proof {
            assert(apply_moves(self.cc(), moves@, n) =~= cc0);
            assert(moves_ok(moves@, n)) by {
                assert forall|t: int| 0 <= t < moves@.len() implies {
                    let (v2, c2, b2) = #[trigger] moves@[t];
                    c2.wf() && c2.spec_base() == n && 1 <= v2 <= side_len(n) && block_in_range(
                        b2,
                        side_len(n),
                    )
                } by {
                    if t < m1.len() {
                    } else if t < m2.len() {
                    }
                }
            }
        }
        if let Some(opts) = &maybe_options {
            let ghost pvmap_snap = self.possible_values;
            let mut t: usize = 0;
            while t < opts.len()
                invariant
                    self.structural(),
                    self.base_size == old(self).base_size,
                    n == self.sbase(),
                    valid_base(n),
                    cell.wf(),
                    cell.spec_base() == n,
                    i == cell.spec_index(),
                    1 <= value <= side_len(n),
                    l == line_of(i, n) && l < side_len(n),
                    c == col_of(i, n) && c < side_len(n),
                    sq == square_of(i, n) && sq < side_len(n),
                    t <= opts.vseq().len(),
                    opts.wf(),
                    opts.in_range(side_len(n)),
                    self.possible_values == pvmap_snap,
                    pv1 == self.pv(),
                    cc0 == old(self).cc(),
                    apply_moves(self.cc(), moves@, n) =~= cc0,
                    moves_ok(moves@, n),
                decreases opts.vseq().len() - t,
            {
                let ov = opts.get(t);
                if ov != value {
                    let ghost mp0 = moves@;
                    self.remove_cell_record(Block::Line(l), ov, cell, &mut moves);
                    let ghost mp1 = moves@;
                    self.remove_cell_record(Block::Col(c), ov, cell, &mut moves);
                    let ghost mp2 = moves@;
                    self.remove_cell_record(Block::Square(sq), ov, cell, &mut moves);
                    proof {
                        assert(moves_ok(moves@, n)) by {
                            assert forall|u: int| 0 <= u < moves@.len() implies {
                                let (v2, c2, b2) = #[trigger] moves@[u];
                                c2.wf() && c2.spec_base() == n && 1 <= v2 <= side_len(n)
                                    && block_in_range(b2, side_len(n))
                            } by {
                                if u < mp0.len() {
                                    assert(moves@[u] == mp0[u]);
                                } else if u < mp1.len() {
                                    assert(moves@[u] == (ov, cell, Block::Line(l)));
                                } else if u < mp2.len() {
                                    assert(moves@[u] == (ov, cell, Block::Col(c)));
                                } else {
                                    assert(moves@[u] == (ov, cell, Block::Square(sq)));
                                }
                            }
                        }
                    }
                }
                t = t + 1;
            }
        }
        let line_cells = cell.iter_line();
        let col_cells = cell.iter_col();
        let square_cells = cell.iter_square();
        proof {
            crate::board::lemma_cell_geometry(i, n);
            assert forall|k2: int|
                0 <= k2 < line_cells@.len() implies same_block(
                i,
                (#[trigger] line_cells@[k2]).spec_index(),
                n,
            ) by {
                crate::board::lemma_line_col(line_of(i, n), k2, n);
            }
            assert forall|k2: int|
                0 <= k2 < col_cells@.len() implies same_block(
                i,
                (#[trigger] col_cells@[k2]).spec_index(),
                n,
            ) by {
                crate::board::lemma_line_col(k2, col_of(i, n), n);
            }
            assert forall|k2: int|
                0 <= k2 < square_cells@.len() implies same_block(
                i,
                (#[trigger] square_cells@[k2]).spec_index(),
                n,
            ) by {}
        }
        let ghost mut seen: Set<int> = Set::empty();
        proof {
            assert(self.pv() =~= masked(pv1, seen, value));
        }
        let mut k: usize = 0;
        while k < line_cells.len()
            invariant
                self.structural(),
                self.base_size == old(self).base_size,
                n == self.sbase(),
                valid_base(n),
                cell.wf(),
                cell.spec_base() == n,
                i == cell.spec_index(),
                0 <= i < cell_count(n),
                1 <= value <= side_len(n),
                gopts.0 == cell,
                gopts.1 == maybe_options,
                gopts.1 is Some <==> pv0.dom().contains(i),
                gopts.1 is Some ==> gopts.1->0.wf() && gopts.1->0.in_range(side_len(n))
                    && gopts.1->0.vset() == pv0[i],
                pv1 =~= pv0.remove(i),
                pv0 == old(self).pv(),
                cc0 == old(self).cc(),
                line_cells@.len() == side_len(n),
                col_cells@.len() == side_len(n),
                square_cells@.len() == side_len(n),
                forall|k2: int|
                    0 <= k2 < line_cells@.len() ==> (#[trigger] line_cells@[k2]).wf()
                        && line_cells@[k2].spec_base() == n && same_block(
                        i,
                        line_cells@[k2].spec_index(),
                        n,
                    ),
                forall|k2: int|
                    0 <= k2 < col_cells@.len() ==> (#[trigger] col_cells@[k2]).wf()
                        && col_cells@[k2].spec_base() == n && same_block(
                        i,
                        col_cells@[k2].spec_index(),
                        n,
                    ),
                forall|k2: int|
                    0 <= k2 < square_cells@.len() ==> (#[trigger] square_cells@[k2]).wf()
                        && square_cells@[k2].spec_base() == n && same_block(
                        i,
                        square_cells@[k2].spec_index(),
                        n,
                    ),
                k <= line_cells@.len(),
                seen =~= Set::new(
                    |j: int|
                        exists|k2: int|
                            0 <= k2 < k && (#[trigger] line_cells@[k2]).spec_index() == j,
                ),
                self.pv() =~= masked(pv1, seen, value),
                apply_affected(apply_options(self.pv(), gopts), affected@) =~= pv0,
                apply_moves(self.cc(), moves@, n) =~= cc0,
                moves_ok(moves@, n),
                forall|j: int|
                    #[trigger] seen.contains(j) && pv1.dom().contains(j) ==> !pv1[j].subset_of(
                        Set::empty().insert(value),
                    ),
                forall|t: int|
                    0 <= t < affected@.len() ==> {
                        let (c2, v2) = #[trigger] affected@[t];
                        &&& v2 == value
                        &&& c2.wf()
                        &&& c2.spec_base() == n
                        &&& c2.spec_index() != i
                        &&& pv0.dom().contains(c2.spec_index())
                        &&& pv0[c2.spec_index()].contains(value)
                    },
            decreases line_cells@.len() - k,
        {
            let cell2 = line_cells[k];
            let ghost pv_pre = self.pv();
            let ghost aff_pre = affected@;
            let ghost seen_old = seen;
            let ghost i2 = cell2.spec_index();
            let now_empty = self.strike_affected_cell(cell2, value, &mut moves, &mut affected);
            proof {
                if pv_pre.dom().contains(i2) {
                    assert(i2 != i);
                    if pv_pre[i2].contains(value) {
                        lemma_affected_removal_step(pv_pre, gopts, aff_pre, cell2, value);
                        assert(self.pv() =~= pv_pre.insert(i2, pv_pre[i2].remove(value)));
                        assert(apply_affected(apply_options(self.pv(), gopts), affected@) =~= pv0);
                        assert(pv_pre[i2] == masked(pv1, seen_old, value)[i2]);
                        assert(pv1[i2].contains(value));
                        assert(pv0[i2].contains(value));
                    } else {
                        assert(pv_pre[i2].remove(value) =~= pv_pre[i2]);
                        assert(self.pv() =~= pv_pre);
                        assert(apply_affected(apply_options(self.pv(), gopts), affected@) =~= pv0);
                    }
                } else {
                    assert(self.pv() =~= pv_pre);
                }
                seen = seen.insert(i2);
                assert(seen =~= Set::new(
                    |j: int|
                        exists|k2: int|
                            0 <= k2 < k + 1 && (#[trigger] line_cells@[k2]).spec_index() == j,
                ));
                assert(self.pv() =~= masked(pv1, seen, value)) by {
                    assert(self.pv().dom() =~= masked(pv1, seen, value).dom());
                    assert forall|j: int| #[trigger]
                        self.pv().dom().contains(j) implies self.pv()[j] == masked(
                        pv1,
                        seen,
                        value,
                    )[j] by {
                        assert(pv_pre[j] == masked(pv1, seen_old, value)[j]);
                        if j == i2 {
                            assert(self.pv()[j] =~= pv_pre[j].remove(value));
                            assert(pv_pre[j].remove(value) =~= pv1[j].remove(value)) by {
                                if seen_old.contains(j) {
                                    assert(pv_pre[j] == pv1[j].remove(value));
                                }
                            }
                        } else {
                            assert(self.pv()[j] == pv_pre[j]);
                            assert(masked(pv1, seen, value)[j] == masked(pv1, seen_old, value)[j]);
                        }
                    }
                }
                if !now_empty && pv_pre.dom().contains(i2) {
                    assert(!pv1[i2].subset_of(Set::empty().insert(value))) by {
                        assert(!pv_pre[i2].subset_of(Set::empty().insert(value)));
                        let w = choose|w: u8|
                            pv_pre[i2].contains(w) && !Set::empty().insert(value).contains(w);
                        assert(pv_pre[i2] == masked(pv1, seen_old, value)[i2]);
                        assert(pv1[i2].contains(w)) by {
                            if seen_old.contains(i2) {
                                assert(pv_pre[i2] == pv1[i2].remove(value));
                            }
                        }
                    }
                }
            }
            if now_empty {
                let tok = UndoSetValue {
                    moves,
                    options: (cell, maybe_options),
                    affected_cell_options: affected,
                };
                proof {
                    assert(tok.ranges_ok(n)) by {
                        assert(moves_ok(tok.moves@, n));
                    }
                    assert(pv0.dom().contains(i2) && i2 != i && same_block(i, i2, n) && pv0[
                    i2].subset_of(Set::empty().insert(value))) by {
                        assert(pv_pre.dom().contains(i2));
                        assert(pv_pre[i2].subset_of(Set::empty().insert(value)));
                        assert(pv_pre[i2] == masked(pv1, seen_old, value)[i2]);
                        assert forall|w: u8| pv1[i2].contains(w) implies Set::empty().insert(
                            value,
                        ).contains(w) by {
                            if w != value {
                                assert(pv_pre[i2].contains(w)) by {
                                    if seen_old.contains(i2) {
                                        assert(pv_pre[i2] == pv1[i2].remove(value));
                                    }
                                }
                            }
                        }
                        assert(pv1[i2] == pv0[i2]);
                    }
                }
                self.undo(tok);
                proof {
                    assert(self.pv() =~= pv0);
                    assert(self.cc() =~= cc0);
                    assert(old(self).pv().dom().contains(i2));
                }
                return Err(NoCadidatesLeftError(cell));
            }
            proof {
                assert forall|j: int|
                    #[trigger] seen.contains(j) && pv1.dom().contains(j) implies !pv1[
                j].subset_of(Set::empty().insert(value)) by {
                    if j != i2 {
                        assert(seen_old.contains(j));
                    }
                }
            }
            k = k + 1;
        }

        proof {
            assert(seen =~= Set::new(
                    |j: int|
                        (exists|k2: int|
                            0 <= k2 < line_cells@.len() && (#[trigger] line_cells@[k2]).spec_index()
                                == j) || (exists|k2: int|
                            0 <= k2 < 0 && (#[trigger] col_cells@[k2]).spec_index() == j),
                ));
        }
        let mut k: usize = 0;
        while k < col_cells.len()
            invariant
                self.structural(),
                self.base_size == old(self).base_size,
                n == self.sbase(),
                valid_base(n),
                cell.wf(),
                cell.spec_base() == n,
                i == cell.spec_index(),
                0 <= i < cell_count(n),
                1 <= value <= side_len(n),
                gopts.0 == cell,
                gopts.1 == maybe_options,
                gopts.1 is Some <==> pv0.dom().contains(i),
                gopts.1 is Some ==> gopts.1->0.wf() && gopts.1->0.in_range(side_len(n))
                    && gopts.1->0.vset() == pv0[i],
                pv1 =~= pv0.remove(i),
                pv0 == old(self).pv(),
                cc0 == old(self).cc(),
                line_cells@.len() == side_len(n),
                col_cells@.len() == side_len(n),
                square_cells@.len() == side_len(n),
                forall|k2: int|
                    0 <= k2 < line_cells@.len() ==> (#[trigger] line_cells@[k2]).wf()
                        && line_cells@[k2].spec_base() == n && same_block(
                        i,
                        line_cells@[k2].spec_index(),
                        n,
                    ),
                forall|k2: int|
                    0 <= k2 < col_cells@.len() ==> (#[trigger] col_cells@[k2]).wf()
                        && col_cells@[k2].spec_base() == n && same_block(
                        i,
                        col_cells@[k2].spec_index(),
                        n,
                    ),
                forall|k2: int|
                    0 <= k2 < square_cells@.len() ==> (#[trigger] square_cells@[k2]).wf()
                        && square_cells@[k2].spec_base() == n && same_block(
                        i,
                        square_cells@[k2].spec_index(),
                        n,
                    ),
                k <= col_cells@.len(),
                seen =~= Set::new(
                    |j: int|
                        (exists|k2: int|
                            0 <= k2 < line_cells@.len() && (#[trigger] line_cells@[k2]).spec_index()
                                == j) || (exists|k2: int|
                            0 <= k2 < k && (#[trigger] col_cells@[k2]).spec_index() == j),
                ),
                self.pv() =~= masked(pv1, seen, value),
                apply_affected(apply_options(self.pv(), gopts), affected@) =~= pv0,
                apply_moves(self.cc(), moves@, n) =~= cc0,
                moves_ok(moves@, n),
                forall|j: int|
                    #[trigger] seen.contains(j) && pv1.dom().contains(j) ==> !pv1[j].subset_of(
                        Set::empty().insert(value),
                    ),
                forall|t: int|
                    0 <= t < affected@.len() ==> {
                        let (c2, v2) = #[trigger] affected@[t];
                        &&& v2 == value
                        &&& c2.wf()
                        &&& c2.spec_base() == n
                        &&& c2.spec_index() != i
                        &&& pv0.dom().contains(c2.spec_index())
                        &&& pv0[c2.spec_index()].contains(value)
                    },
            decreases col_cells@.len() - k,
        {
            let cell2 = col_cells[k];
            let ghost pv_pre = self.pv();
            let ghost aff_pre = affected@;
            let ghost seen_old = seen;
            let ghost i2 = cell2.spec_index();
            let now_empty = self.strike_affected_cell(cell2, value, &mut moves, &mut affected);
            proof {
                if pv_pre.dom().contains(i2) {
                    assert(i2 != i);
                    if pv_pre[i2].contains(value) {
                        lemma_affected_removal_step(pv_pre, gopts, aff_pre, cell2, value);
                        assert(self.pv() =~= pv_pre.insert(i2, pv_pre[i2].remove(value)));
                        assert(apply_affected(apply_options(self.pv(), gopts), affected@) =~= pv0);
                        assert(pv_pre[i2] == masked(pv1, seen_old, value)[i2]);
                        assert(pv1[i2].contains(value));
                        assert(pv0[i2].contains(value));
                    } else {
                        assert(pv_pre[i2].remove(value) =~= pv_pre[i2]);
                        assert(self.pv() =~= pv_pre);
                        assert(apply_affected(apply_options(self.pv(), gopts), affected@) =~= pv0);
                    }
                } else {
                    assert(self.pv() =~= pv_pre);
                }
                seen = seen.insert(i2);
                assert(seen =~= Set::new(
                    |j: int|
                        (exists|k2: int|
                            0 <= k2 < line_cells@.len() && (#[trigger] line_cells@[k2]).spec_index()
                                == j) || (exists|k2: int|
                            0 <= k2 < k + 1 && (#[trigger] col_cells@[k2]).spec_index() == j),
                ));
                assert(self.pv() =~= masked(pv1, seen, value)) by {
                    assert(self.pv().dom() =~= masked(pv1, seen, value).dom());
                    assert forall|j: int| #[trigger]
                        self.pv().dom().contains(j) implies self.pv()[j] == masked(
                        pv1,
                        seen,
                        value,
                    )[j] by {
                        assert(pv_pre[j] == masked(pv1, seen_old, value)[j]);
                        if j == i2 {
                            assert(self.pv()[j] =~= pv_pre[j].remove(value));
                            assert(pv_pre[j].remove(value) =~= pv1[j].remove(value)) by {
                                if seen_old.contains(j) {
                                    assert(pv_pre[j] == pv1[j].remove(value));
                                }
                            }
                        } else {
                            assert(self.pv()[j] == pv_pre[j]);
                            assert(masked(pv1, seen, value)[j] == masked(pv1, seen_old, value)[j]);
                        }
                    }
                }
                if !now_empty && pv_pre.dom().contains(i2) {
                    assert(!pv1[i2].subset_of(Set::empty().insert(value))) by {
                        assert(!pv_pre[i2].subset_of(Set::empty().insert(value)));
                        let w = choose|w: u8|
                            pv_pre[i2].contains(w) && !Set::empty().insert(value).contains(w);
                        assert(pv_pre[i2] == masked(pv1, seen_old, value)[i2]);
                        assert(pv1[i2].contains(w)) by {
                            if seen_old.contains(i2) {
                                assert(pv_pre[i2] == pv1[i2].remove(value));
                            }
                        }
                    }
                }
            }
            if now_empty {
                let tok = UndoSetValue {
                    moves,
                    options: (cell, maybe_options),
                    affected_cell_options: affected,
                };
                proof {
                    assert(tok.ranges_ok(n)) by {
                        assert(moves_ok(tok.moves@, n));
                    }
                    assert(pv0.dom().contains(i2) && i2 != i && same_block(i, i2, n) && pv0[
                    i2].subset_of(Set::empty().insert(value))) by {
                        assert(pv_pre.dom().contains(i2));
                        assert(pv_pre[i2].subset_of(Set::empty().insert(value)));
                        assert(pv_pre[i2] == masked(pv1, seen_old, value)[i2]);
                        assert forall|w: u8| pv1[i2].contains(w) implies Set::empty().insert(
                            value,
                        ).contains(w) by {
                            if w != value {
                                assert(pv_pre[i2].contains(w)) by {
                                    if seen_old.contains(i2) {
                                        assert(pv_pre[i2] == pv1[i2].remove(value));
                                    }
                                }
                            }
                        }
                        assert(pv1[i2] == pv0[i2]);
                    }
                }
                self.undo(tok);
                proof {
                    assert(self.pv() =~= pv0);
                    assert(self.cc() =~= cc0);
                    assert(old(self).pv().dom().contains(i2));
                }
                return Err(NoCadidatesLeftError(cell));
            }
            proof {
                assert forall|j: int|
                    #[trigger] seen.contains(j) && pv1.dom().contains(j) implies !pv1[
                j].subset_of(Set::empty().insert(value)) by {
                    if j != i2 {
                        assert(seen_old.contains(j));
                    }
                }
            }
            k = k + 1;
        }

        proof {
            assert(seen =~= Set::new(
                    |j: int|
                        (exists|k2: int|
                            0 <= k2 < line_cells@.len() && (#[trigger] line_cells@[k2]).spec_index()
                                == j) || (exists|k2: int|
                            0 <= k2 < col_cells@.len() && (#[trigger] col_cells@[k2]).spec_index()
                                == j) || (exists|k2: int|
                            0 <= k2 < 0 && (#[trigger] square_cells@[k2]).spec_index() == j),
                ));
        }
        let mut k: usize = 0;
        while k < square_cells.len()
            invariant
                self.structural(),
                self.base_size == old(self).base_size,
                n == self.sbase(),
                valid_base(n),
                cell.wf(),
                cell.spec_base() == n,
                i == cell.spec_index(),
                0 <= i < cell_count(n),
                1 <= value <= side_len(n),
                gopts.0 == cell,
                gopts.1 == maybe_options,
                gopts.1 is Some <==> pv0.dom().contains(i),
                gopts.1 is Some ==> gopts.1->0.wf() && gopts.1->0.in_range(side_len(n))
                    && gopts.1->0.vset() == pv0[i],
                pv1 =~= pv0.remove(i),
                pv0 == old(self).pv(),
                cc0 == old(self).cc(),
                line_cells@.len() == side_len(n),
                col_cells@.len() == side_len(n),
                square_cells@.len() == side_len(n),
                forall|k2: int|
                    0 <= k2 < line_cells@.len() ==> (#[trigger] line_cells@[k2]).wf()
                        && line_cells@[k2].spec_base() == n && same_block(
                        i,
                        line_cells@[k2].spec_index(),
                        n,
                    ),
                forall|k2: int|
                    0 <= k2 < col_cells@.len() ==> (#[trigger] col_cells@[k2]).wf()
                        && col_cells@[k2].spec_base() == n && same_block(
                        i,
                        col_cells@[k2].spec_index(),
                        n,
                    ),
                forall|k2: int|
                    0 <= k2 < square_cells@.len() ==> (#[trigger] square_cells@[k2]).wf()
                        && square_cells@[k2].spec_base() == n && same_block(
                        i,
                        square_cells@[k2].spec_index(),
                        n,
                    ),
                k <= square_cells@.len(),
                seen =~= Set::new(
                    |j: int|
                        (exists|k2: int|
                            0 <= k2 < line_cells@.len() && (#[trigger] line_cells@[k2]).spec_index()
                                == j) || (exists|k2: int|
                            0 <= k2 < col_cells@.len() && (#[trigger] col_cells@[k2]).spec_index()
                                == j) || (exists|k2: int|
                            0 <= k2 < k && (#[trigger] square_cells@[k2]).spec_index() == j),
                ),
                self.pv() =~= masked(pv1, seen, value),
                apply_affected(apply_options(self.pv(), gopts), affected@) =~= pv0,
                apply_moves(self.cc(), moves@, n) =~= cc0,
                moves_ok(moves@, n),
                forall|j: int|
                    #[trigger] seen.contains(j) && pv1.dom().contains(j) ==> !pv1[j].subset_of(
                        Set::empty().insert(value),
                    ),
                forall|t: int|
                    0 <= t < affected@.len() ==> {
                        let (c2, v2) = #[trigger] affected@[t];
                        &&& v2 == value
                        &&& c2.wf()
                        &&& c2.spec_base() == n
                        &&& c2.spec_index() != i
                        &&& pv0.dom().contains(c2.spec_index())
                        &&& pv0[c2.spec_index()].contains(value)
                    },
            decreases square_cells@.len() - k,
        {
            let cell2 = square_cells[k];
            let ghost pv_pre = self.pv();
            let ghost aff_pre = affected@;
            let ghost seen_old = seen;
            let ghost i2 = cell2.spec_index();
            let now_empty = self.strike_affected_cell(cell2, value, &mut moves, &mut affected);
            proof {
                if pv_pre.dom().contains(i2) {
                    assert(i2 != i);
                    if pv_pre[i2].contains(value) {
                        lemma_affected_removal_step(pv_pre, gopts, aff_pre, cell2, value);
                        assert(self.pv() =~= pv_pre.insert(i2, pv_pre[i2].remove(value)));
                        assert(apply_affected(apply_options(self.pv(), gopts), affected@) =~= pv0);
                        assert(pv_pre[i2] == masked(pv1, seen_old, value)[i2]);
                        assert(pv1[i2].contains(value));
                        assert(pv0[i2].contains(value));
                    } else {
                        assert(pv_pre[i2].remove(value) =~= pv_pre[i2]);
                        assert(self.pv() =~= pv_pre);
                        assert(apply_affected(apply_options(self.pv(), gopts), affected@) =~= pv0);
                    }
                } else {
                    assert(self.pv() =~= pv_pre);
                }
                seen = seen.insert(i2);
                assert(seen =~= Set::new(
                    |j: int|
                        (exists|k2: int|
                            0 <= k2 < line_cells@.len() && (#[trigger] line_cells@[k2]).spec_index()
                                == j) || (exists|k2: int|
                            0 <= k2 < col_cells@.len() && (#[trigger] col_cells@[k2]).spec_index()
                                == j) || (exists|k2: int|
                            0 <= k2 < k + 1 && (#[trigger] square_cells@[k2]).spec_index() == j),
                ));
                assert(self.pv() =~= masked(pv1, seen, value)) by {
                    assert(self.pv().dom() =~= masked(pv1, seen, value).dom());
                    assert forall|j: int| #[trigger]
                        self.pv().dom().contains(j) implies self.pv()[j] == masked(
                        pv1,
                        seen,
                        value,
                    )[j] by {
                        assert(pv_pre[j] == masked(pv1, seen_old, value)[j]);
                        if j == i2 {
                            assert(self.pv()[j] =~= pv_pre[j].remove(value));
                            assert(pv_pre[j].remove(value) =~= pv1[j].remove(value)) by {
                                if seen_old.contains(j) {
                                    assert(pv_pre[j] == pv1[j].remove(value));
                                }
                            }
                        } else {
                            assert(self.pv()[j] == pv_pre[j]);
                            assert(masked(pv1, seen, value)[j] == masked(pv1, seen_old, value)[j]);
                        }
                    }
                }
                if !now_empty && pv_pre.dom().contains(i2) {
                    assert(!pv1[i2].subset_of(Set::empty().insert(value))) by {
                        assert(!pv_pre[i2].subset_of(Set::empty().insert(value)));
                        let w = choose|w: u8|
                            pv_pre[i2].contains(w) && !Set::empty().insert(value).contains(w);
                        assert(pv_pre[i2] == masked(pv1, seen_old, value)[i2]);
                        assert(pv1[i2].contains(w)) by {
                            if seen_old.contains(i2) {
                                assert(pv_pre[i2] == pv1[i2].remove(value));
                            }
                        }
                    }
                }
            }
            if now_empty {
                let tok = UndoSetValue {
                    moves,
                    options: (cell, maybe_options),
                    affected_cell_options: affected,
                };
                proof {
                    assert(tok.ranges_ok(n)) by {
                        assert(moves_ok(tok.moves@, n));
                    }
                    assert(pv0.dom().contains(i2) && i2 != i && same_block(i, i2, n) && pv0[
                    i2].subset_of(Set::empty().insert(value))) by {
                        assert(pv_pre.dom().contains(i2));
                        assert(pv_pre[i2].subset_of(Set::empty().insert(value)));
                        assert(pv_pre[i2] == masked(pv1, seen_old, value)[i2]);
                        assert forall|w: u8| pv1[i2].contains(w) implies Set::empty().insert(
                            value,
                        ).contains(w) by {
                            if w != value {
                                assert(pv_pre[i2].contains(w)) by {
                                    if seen_old.contains(i2) {
                                        assert(pv_pre[i2] == pv1[i2].remove(value));
                                    }
                                }
                            }
                        }
                        assert(pv1[i2] == pv0[i2]);
                    }
                }
                self.undo(tok);
                proof {
                    assert(self.pv() =~= pv0);
                    assert(self.cc() =~= cc0);
                    assert(old(self).pv().dom().contains(i2));
                }
                return Err(NoCadidatesLeftError(cell));
            }
            proof {
                assert forall|j: int|
                    #[trigger] seen.contains(j) && pv1.dom().contains(j) implies !pv1[
                j].subset_of(Set::empty().insert(value)) by {
                    if j != i2 {
                        assert(seen_old.contains(j));
                    }
                }
            }
            k = k + 1;
        }
        proof {
            assert forall|j: int| #[trigger] seen.contains(j) implies 0 <= j < cell_count(n)
                && same_block(i, j, n) by {
                if exists|k2: int|
                    0 <= k2 < line_cells@.len() && (#[trigger] line_cells@[k2]).spec_index() == j {
                    let k2 = choose|k2: int|
                        0 <= k2 < line_cells@.len() && (#[trigger] line_cells@[k2]).spec_index()
                            == j;
                    assert(line_cells@[k2].wf());
                } else if exists|k2: int|
                    0 <= k2 < col_cells@.len() && (#[trigger] col_cells@[k2]).spec_index() == j {
                    let k2 = choose|k2: int|
                        0 <= k2 < col_cells@.len() && (#[trigger] col_cells@[k2]).spec_index()
                            == j;
                    assert(col_cells@[k2].wf());
                } else {
                    let k2 = choose|k2: int|
                        0 <= k2 < square_cells@.len() && (
                        #[trigger] square_cells@[k2]).spec_index() == j;
                    assert(square_cells@[k2].wf());
                }
            }
            assert forall|j: int|
                0 <= j < cell_count(n) && same_block(i, j, n) implies seen.contains(j) by {
                crate::board::lemma_cell_geometry(j, n);
                if line_of(j, n) == line_of(i, n) {
                    assert(exists|k2: int|
                        0 <= k2 < line_cells@.len() && (#[trigger] line_cells@[k2]).spec_index()
                            == j);
                } else if col_of(j, n) == col_of(i, n) {
                    assert(exists|k2: int|
                        0 <= k2 < col_cells@.len() && (#[trigger] col_cells@[k2]).spec_index()
                            == j);
                } else {
                    assert(exists|k2: int|
                        0 <= k2 < square_cells@.len() && (
                        #[trigger] square_cells@[k2]).spec_index() == j);
                }
            }
        }
        let tok = UndoSetValue {
            moves,
            options: (cell, maybe_options),
            affected_cell_options: affected,
        };
        proof {
            assert(tok.ranges_ok(n)) by {
                assert(moves_ok(tok.moves@, n));
            }
            assert(self.pv().dom() =~= pv0.dom().remove(i));
            assert forall|j: int|
                #![trigger self.pv()[j]]
                self.pv().dom().contains(j) implies if same_block(i, j, n) {
                self.pv()[j] == pv0[j].remove(value)
            } else {
                self.pv()[j] == pv0[j]
            } by {
                assert(self.pv()[j] == masked(pv1, seen, value)[j]);
                assert(0 <= j < cell_count(n)) by {
                    assert(self.possible_values.m().dom().contains(j));
                }
                if same_block(i, j, n) {
                    assert(seen.contains(j));
                    assert(pv1[j] == pv0[j]);
                    assert(self.pv()[j] =~= pv0[j].remove(value));
                } else {
                    assert(!seen.contains(j));
                    assert(self.pv()[j] == pv1[j]);
                }
            }
            assert forall|j: int|
                #![trigger pv0.dom().contains(j)]
                !(pv0.dom().contains(j) && j != i && same_block(i, j, n) && pv0[j].subset_of(
                    Set::empty().insert(value),
                )) by {
                if pv0.dom().contains(j) && j != i && same_block(i, j, n) {
                    assert(seen.contains(j));
                    assert(pv1.dom().contains(j) && pv1[j] == pv0[j]);
                    assert(!pv1[j].subset_of(Set::empty().insert(value)));
                }
            }
        }
        Ok(tok)
    }
}

} // verus!

verus! {

/// A bucket of one of a cell's blocks for a value is never a bucket of a
/// different value, and two of the cell's axis buckets for the same value
/// never coincide with buckets of other blocks.
proof fn lemma_bucket_distinct(bk: int, i: int, value: u8, n: int)
    requires
        valid_base(n),
        0 <= i < cell_count(n),
        1 <= value <= side_len(n),
    ensures
        is_axis_bk(bk, i, value, n) ==> bk_val(bk, n) == value,
{
    crate::board::lemma_cell_geometry(i, n);
    if is_axis_bk(bk, i, value, n) {
        lemma_bk_decompose(line_of(i, n), value, n);
        lemma_bk_decompose(side_len(n) + col_of(i, n), value, n);
        lemma_bk_decompose(2 * side_len(n) + square_of(i, n), value, n);
    }
}


/// The round-trip law: a successful [`CandidateCache::set_value`] followed by
/// [`CandidateCache::undo`] of the returned token restores both candidate
/// indexes exactly.  `set_value` guarantees that replaying its token over the
/// post-call state yields the pre-call state, and `undo` computes exactly
/// that replay, so the caches before the call and after the round trip carry
/// equal maps.
pub proof fn lemma_set_value_undo_round_trip(
    pre: CandidateCache,
    post: CandidateCache,
    restored: CandidateCache,
    tok: UndoSetValue,
)
    requires
        post.sbase() == pre.sbase(),
        restored.sbase() == pre.sbase(),
        apply_undo_pv(post.pv(), tok) =~= pre.pv(),
        apply_moves(post.cc(), tok.moves@, pre.sbase()) =~= pre.cc(),
        restored.pv() =~= apply_undo_pv(post.pv(), tok),
        restored.cc() =~= apply_moves(post.cc(), tok.moves@, pre.sbase()),
    ensures
        restored.pv() =~= pre.pv(),
        restored.cc() =~= pre.cc(),
{
}

impl CandidateCache {
    /// Rebuilds the per-cell candidate map from the buckets: for every open
    /// cell, the values whose bucket in the cell's line lists the cell.  On
    /// a consistent cache this reproduces the per-cell index exactly, up to
    /// cells with no candidates left.
    /// The values of one open cell that its line bucket confirms.
    fn rebuilt_entry(&self, cell: &CellLoc, vs: &ValueSet) -> (out: ValueSet)
        requires
            self.wf(),
            cell.wf(),
            cell.spec_base() == self.sbase(),
            self.pv().dom().contains(cell.spec_index()),
            vs.wf(),
            vs.vset() == self.pv()[cell.spec_index()],
            vs.in_range(side_len(self.sbase())),
        ensures
            out.wf(),
            out.vset() =~= vs.vset(),
    {
        let ghost n = self.sbase();
        let ghost i = cell.spec_index();
        let l = cell.line();
        let side = self.side();
        let mut out = ValueSet::new();
        let mut t: usize = 0;
        while t < vs.len()
            invariant
                self.wf(),
                n == self.sbase(),
                cell.wf(),
                cell.spec_base() == n,
                i == cell.spec_index(),
                l == line_of(i, n),
                l < side_len(n),
                side == side_len(n),
                self.pv().dom().contains(i),
                vs.vset() == self.pv()[i],
                vs.wf(),
                vs.in_range(side_len(n)),
                t <= vs.vseq().len(),
                out.wf(),
                out.vset() =~= vs.vseq().take(t as int).to_set(),
            decreases vs.vseq().len() - t,
        {
            let v = vs.get(t);
            proof {
                assert(vs.vset().contains(v));
                assert(fwd_ok(i, v, self.cc(), n));
                lemma_bk_decompose(line_of(i, n), v, n);
            }
            let key = BlockValue { block: Block::Line(l), value: v, side };
            let in_bucket = match self.candidate_cells.get(&key) {
                Some(cs) => cs.contains(cell),
                None => false,
            };
            if in_bucket {
                out.insert(v);
            } else {
                proof {
                    assert(bucket_has(self.cc(), bk_of(line_of(i, n), v, n), i));
                    assert(false);
                }
            }
            proof {
                assert(vs.vseq().take(t + 1).drop_last() == vs.vseq().take(t as int));
                assert(vs.vseq().take(t + 1).last() == vs.vseq()[t as int]);
                crate::sets::lemma_to_set_drop_last(vs.vseq().take(t + 1));
            }
            t = t + 1;
        }
        proof {
            assert(vs.vseq().take(vs.vseq().len() as int) == vs.vseq());
        }
        out
    }

    #[verifier::spinoff_prover]
    #[verifier::rlimit(100)]
    pub fn possible_values_from_candidates(&self) -> (r: IndexedMap<CellLoc, ValueSet>)
        requires
            self.wf(),
        ensures
            r.wf(),
            r.capacity() == cell_count(self.sbase()),
            forall|i: int|
                #[trigger] r.m().dom().contains(i) <==> (self.pv().dom().contains(i) && !self.pv()[
                i].is_empty()),
            forall|i: int|
                #[trigger] r.m().dom().contains(i) ==> r.m()[i].vset() == self.pv()[i],
    {
        let ghost n = self.sbase();
        let pv = &self.possible_values;
        let cap = pv.keys.len();
        let mut r: IndexedMap<CellLoc, ValueSet> = IndexedMap::new(cap);
        let mut i: usize = 0;
        while i < cap
            invariant
                self.wf(),
                n == self.sbase(),
                cap == self.possible_values.capacity(),
                cap == cell_count(n),
                pv == &self.possible_values,
                i <= cap,
                r.wf(),
                r.capacity() == cap,
                forall|i2: int|
                    #[trigger] r.m().dom().contains(i2) <==> (0 <= i2 < i
                        && self.pv().dom().contains(i2) && !self.pv()[i2].is_empty()),
                forall|i2: int|
                    #[trigger] r.m().dom().contains(i2) ==> r.m()[i2].vset() == self.pv()[i2]
                        && r.key_at(i2) == self.possible_values.key_at(i2),
            decreases cap - i,
        {
            if let Some(cell) = pv.key_at_slot(i) {
                if let Some(vs) = pv.value_at_slot(i) {
                    proof {
                        assert(self.possible_values.m()[i as int].in_range(side_len(n)));
                        assert(vs.vset() == self.pv()[i as int]);
                    }
                    let out = self.rebuilt_entry(&cell, vs);
                    proof {
                        assert(out.vset() =~= vs.vset());
                    }
                    if !out.is_empty() {
                        let ghost r_pre = r;
                        r.insert(cell, out);
                        proof {
                            assert forall|i2: int|
                                #[trigger] r.m().dom().contains(i2) implies r.m()[i2].vset()
                                == self.pv()[i2] && r.key_at(i2) == self.possible_values.key_at(
                                i2,
                            ) by {
                                if i2 != i {
                                    assert(r.m()[i2] == r_pre.m()[i2]);
                                    assert(r.key_at(i2) == r_pre.key_at(i2));
                                }
                            }
                        }
                    } else {
                        proof {
                            assert(self.pv()[i as int].is_empty()) by {
                                assert(out.vset() =~= vs.vset());
                            }
                        }
                    }
                }
            }
            i = i + 1;
        }
        r
    }
}

} // verus!
