//! The solver: a search loop over the candidate cache.
//!
//! Strategies are applied in priority order — naked singles, hidden singles,
//! then least-candidate guessing — with every committed assignment recorded
//! in a move log whose undo tokens allow exact chronological backtracking
//! over guess points.

use vstd::prelude::*;

pub mod generator;

use crate::board::{
    Board, CellLoc, cell_count, col_of, grid_complete, grid_extends, grid_no_conflict, grid_wf,
    line_of, same_block, side_len, square_of, valid_base,
};
use crate::candidate_cache::{
    apply_undo_pv, bk_of, lemma_apply_affected_char, CandidateCache, UndoSetValue,
};
use crate::sets::ValueSet;

verus! {

/// Which strategy produced a committed assignment.
#[derive(Debug, Clone, Copy, PartialEq, Eq, Structural)]
pub enum Strategy {
    /// A cell with exactly one remaining candidate value.
    NakedSingle,
    /// A (block, value) pair with exactly one candidate cell.
    HiddenSingle,
    /// A least-candidate branch point.
    Guess,
}

/// An error to represent that a board is not solvable in its current state.
#[derive(Debug, Clone, PartialEq, Eq, Structural)]
pub struct UnsolvableError;

/// A value placed by no other cell that sees `j`.
pub open spec fn val_sound(grid: Seq<Option<u8>>, j: int, v: u8, n: int) -> bool {
    forall|j2: int|
        0 <= j2 < grid.len() && j2 != j && same_block(j, j2, n) ==> #[trigger] grid[j2] != Some(v)
}

/// Bucket `bk` exists and holds exactly the cell with index `j`.
pub open spec fn singleton_bucket(cache: &CandidateCache, bk: int, j: int) -> bool {
    &&& cache.candidate_cells.m().dom().contains(bk)
    &&& cache.candidate_cells.m()[bk].cseq().len() == 1
    &&& cache.candidate_cells.m()[bk].cseq()[0].spec_index() == j
}

/// Some open cell has exactly one remaining candidate value.
pub open spec fn has_naked_single(s: &SudokuSolver) -> bool {
    exists|j: int|
        #![trigger s.candidate_cache.possible_values.m()[j]]
        s.candidate_cache.pv().dom().contains(j)
            && s.candidate_cache.possible_values.m()[j].vseq().len() == 1
}

/// Some open cell still allows a value that one of its blocks tracks with
/// that cell as the only candidate.
pub open spec fn has_hidden_single(s: &SudokuSolver) -> bool {
    exists|j: int, v: u8|
        s.candidate_cache.pv().dom().contains(j) && s.candidate_cache.pv()[j].contains(v)
            && #[trigger] hidden_single_at(&s.candidate_cache, j, v)
}

/// Some block of the cell with index `j` tracks `v` with that cell as its
/// only remaining candidate.
pub open spec fn hidden_single_at(cache: &CandidateCache, j: int, v: u8) -> bool {
    let n = cache.sbase();
    ||| singleton_bucket(cache, bk_of(line_of(j, n), v, n), j)
    ||| singleton_bucket(cache, bk_of(side_len(n) + col_of(j, n), v, n), j)
    ||| singleton_bucket(cache, bk_of(2 * side_len(n) + square_of(j, n), v, n), j)
}

/// One committed assignment: the strategy that produced it, the cell, the
/// value, and the undo token that restores the candidate cache; the ghost
/// field remembers the board as it was before the assignment.
pub enum MoveLog {
    /// A single cell assignment.
    SetValue {
        /// The strategy that produced the assignment.
        strategy: Strategy,
        /// The assigned cell.
        cell: CellLoc,
        /// The assigned value.
        value: u8,
        /// The candidate cache changes the assignment triggered.
        undo_candidates: UndoSetValue,
        /// The board before the assignment.
        pre: Ghost<Seq<Option<u8>>>,
    },
}

impl MoveLog {
    /// The assigned cell.
    pub fn get_cell(&self) -> (r: CellLoc)
        ensures
            r == self.cell_of(),
    {
        match self {
            MoveLog::SetValue { cell, .. } => *cell,
        }
    }

    /// The assigned value.
    pub fn get_value(&self) -> (r: u8)
        ensures
            r == self.value_of(),
    {
        match self {
            MoveLog::SetValue { value, .. } => *value,
        }
    }

    /// The strategy that produced the assignment.
    pub fn get_strategy(&self) -> (r: Strategy)
        ensures
            r == self.strategy_of(),
    {
        match self {
            MoveLog::SetValue { strategy, .. } => *strategy,
        }
    }

    /// The assigned cell.
    pub open spec fn cell_of(&self) -> CellLoc {
        match self {
            MoveLog::SetValue { cell, .. } => *cell,
        }
    }

    /// The assigned value.
    pub open spec fn value_of(&self) -> u8 {
        match self {
            MoveLog::SetValue { value, .. } => *value,
        }
    }

    /// The strategy of the assignment.
    pub open spec fn strategy_of(&self) -> Strategy {
        match self {
            MoveLog::SetValue { strategy, .. } => *strategy,
        }
    }

    /// The undo token of the assignment.
    pub open spec fn token_of(&self) -> UndoSetValue {
        match self {
            MoveLog::SetValue { undo_candidates, .. } => *undo_candidates,
        }
    }

    /// The board before the assignment.
    pub open spec fn pre_of(&self) -> Seq<Option<u8>> {
        match self {
            MoveLog::SetValue { pre, .. } => pre@,
        }
    }

    /// All facts one log entry carries: ranges, the board before the move,
    /// and the soundness of every candidate the undo token reinstates.
    pub open spec fn entry_ok(&self, n: int, initial: Seq<Option<u8>>) -> bool {
        let cell = self.cell_of();
        let value = self.value_of();
        let tok = self.token_of();
        let pre = self.pre_of();
        &&& cell.wf()
        &&& cell.spec_base() == n
        &&& 1 <= value <= side_len(n)
        &&& grid_wf(pre, n)
        &&& grid_no_conflict(pre, n)
        &&& grid_extends(initial, pre)
        &&& pre[cell.spec_index()] is None
        &&& tok.ranges_ok(n)
        &&& tok.options.0 == cell
        &&& tok.options.1 is Some
        &&& tok.options.1->0.vset().contains(value)
        &&& (forall|v: u8|
            tok.options.1->0.vset().contains(v) ==> val_sound(pre, cell.spec_index(), v, n))
        &&& (forall|t: int|
            0 <= t < tok.affected_cell_options@.len() ==> {
                let (c2, v2) = #[trigger] tok.affected_cell_options@[t];
                &&& v2 == value
                &&& c2.spec_index() != cell.spec_index()
                &&& pre[c2.spec_index()] is None
                &&& val_sound(pre, c2.spec_index(), value, n)
            })
    }
}

/// The solver: the board, the candidate cache derived from it, and the move
/// log enabling exact undo.
pub struct SudokuSolver {
    /// The board being solved, mutated in place as moves commit.
    pub board: Board,
    /// The candidate cache, kept in lockstep with the board.
    pub candidate_cache: CandidateCache,
    /// The committed moves, most recent last.
    pub move_log: Vec<MoveLog>,
    /// Whether guesses are drawn at random (generation mode).
    pub random: bool,
    /// The board the solver started from.
    pub initial: Ghost<Seq<Option<u8>>>,
}

impl SudokuSolver {
    /// The base size as a mathematical integer.
    pub open spec fn sbase(&self) -> int {
        self.board.spec_base()
    }

    /// The solver invariant at every stable point between moves: the board
    /// is well-formed and conflict-free, it extends the initial board, the
    /// cache's open cells are exactly the board's empty cells, every cached
    /// candidate is sound, and no open cell has run out of candidates.
    pub open spec fn wf(&self) -> bool {
        let n = self.sbase();
        let grid = self.board.grid();
        &&& self.board.wf()
        &&& self.candidate_cache.structural()
        &&& self.candidate_cache.sbase() == n
        &&& self.initial@.len() == grid.len()
        &&& grid_no_conflict(grid, n)
        &&& grid_extends(self.initial@, grid)
        &&& (forall|j: int|
            0 <= j < cell_count(n) ==> (#[trigger] self.candidate_cache.pv().dom().contains(j)
                <==> grid[j] is None))
        &&& (forall|j: int|
            self.candidate_cache.pv().dom().contains(j) ==> 0 <= j < cell_count(n))
        &&& (forall|j: int, v: u8|
            self.candidate_cache.pv().dom().contains(j) && #[trigger] self.candidate_cache.pv()[
            j].contains(v) ==> val_sound(grid, j, v, n))
    }

    /// No open cell has run out of candidate values.
    pub open spec fn no_starved(&self) -> bool {
        forall|j: int|
            #[trigger] self.candidate_cache.pv().dom().contains(j)
                ==> !self.candidate_cache.pv()[j].is_empty()
    }

    /// The move log is coherent: each entry carries its facts, the first
    /// entry starts from the initial board, each entry's board extends the
    /// previous one by exactly its assignment, and the current board is the
    /// last entry's result.
    pub open spec fn log_ok(&self) -> bool {
        let n = self.sbase();
        let log = self.move_log@;
        &&& (forall|t: int| 0 <= t < log.len() ==> (#[trigger] log[t]).entry_ok(n, self.initial@))
        &&& (forall|t: int|
            0 <= t < log.len() - 1 ==> (#[trigger] log[t + 1]).pre_of() == log[t].pre_of().update(
                log[t].cell_of().spec_index(),
                Some(log[t].value_of()),
            ))
        &&& (log.len() > 0 ==> log[0].pre_of() == self.initial@)
        &&& (log.len() > 0 ==> self.board.grid() == log[log.len() - 1].pre_of().update(
            log[log.len() - 1].cell_of().spec_index(),
            Some(log[log.len() - 1].value_of()),
        ))
        &&& (log.len() == 0 ==> self.board.grid() == self.initial@)
    }
}

/// Replaying an undo token against the solver's candidate map restores a map
/// that is consistent with the board as it was before the recorded move.
proof fn lemma_undo_restores(
    pv: Map<int, Set<u8>>,
    tok: UndoSetValue,
    n: int,
    grid_pre: Seq<Option<u8>>,
    grid_now: Seq<Option<u8>>,
    i_cell: int,
    value: u8,
)
    requires
        valid_base(n),
        grid_wf(grid_pre, n),
        grid_pre.len() == cell_count(n),
        grid_now == grid_pre.update(i_cell, Some(value)),
        0 <= i_cell < cell_count(n),
        grid_pre[i_cell] is None,
        forall|j: int| 0 <= j < cell_count(n) ==> (#[trigger] pv.dom().contains(j) <==> grid_now[j] is None),
        forall|j: int| pv.dom().contains(j) ==> 0 <= j < cell_count(n),
        forall|j: int, v: u8|
            pv.dom().contains(j) && #[trigger] pv[j].contains(v) ==> val_sound(grid_now, j, v, n),
        forall|j: int| #[trigger] pv.dom().contains(j) ==> !pv[j].is_empty(),
        tok.options.0.spec_index() == i_cell,
        tok.options.1 is Some,
        !tok.options.1->0.vset().is_empty(),
        forall|v: u8|
            tok.options.1->0.vset().contains(v) ==> val_sound(grid_pre, i_cell, v, n),
        forall|t: int|
            0 <= t < tok.affected_cell_options@.len() ==> {
                let (c2, v2) = #[trigger] tok.affected_cell_options@[t];
                &&& v2 == value
                &&& c2.spec_index() != i_cell
                &&& grid_pre[c2.spec_index()] is None
                &&& 0 <= c2.spec_index() < cell_count(n)
                &&& val_sound(grid_pre, c2.spec_index(), value, n)
            },
    ensures
        ({
            let pv2 = apply_undo_pv(pv, tok);
            &&& (forall|j: int|
                0 <= j < cell_count(n) ==> (#[trigger] pv2.dom().contains(j) <==> grid_pre[j]
                    is None))
            &&& (forall|j: int| pv2.dom().contains(j) ==> 0 <= j < cell_count(n))
            &&& (forall|j: int, v: u8|
                pv2.dom().contains(j) && #[trigger] pv2[j].contains(v) ==> val_sound(
                    grid_pre,
                    j,
                    v,
                    n,
                ))
            &&& (forall|j: int| #[trigger] pv2.dom().contains(j) ==> !pv2[j].is_empty())
        }),
{
    let aff = tok.affected_cell_options@;
    let opts = tok.options.1->0.vset();
    let m1 = crate::candidate_cache::apply_options(pv, tok.options);
    assert(m1 =~= pv.insert(i_cell, opts));
    lemma_apply_affected_char(m1, aff);
    let pv2 = apply_undo_pv(pv, tok);
    assert(pv2 == crate::candidate_cache::apply_affected(m1, aff));
    assert forall|j: int|
        crate::candidate_cache::affected_cells(aff).contains(j) implies (0 <= j < cell_count(n)
        && j != i_cell && grid_pre[j] is None && pv.dom().contains(j) && val_sound(
        grid_pre,
        j,
        value,
        n,
    )) by {
        let t = choose|t: int| 0 <= t < aff.len() && (#[trigger] aff[t]).0.spec_index() == j;
    }
    assert forall|j: int, v: u8|
        crate::candidate_cache::affected_cells(aff).contains(j)
            && crate::candidate_cache::affected_adds(aff, j).contains(v) implies v == value by {
        let t = choose|t: int|
            0 <= t < aff.len() && (#[trigger] aff[t]).0.spec_index() == j && aff[t].1 == v;
    }
    assert forall|j: int|
        0 <= j < cell_count(n) implies (#[trigger] pv2.dom().contains(j) <==> grid_pre[j]
        is None) by {
        if j == i_cell {
            assert(m1.dom().contains(j));
            assert(pv2.dom().contains(j));
        } else {
            assert(grid_now[j] == grid_pre[j]);
            assert(pv2.dom().contains(j) <==> (m1.dom().contains(j)
                || crate::candidate_cache::affected_cells(aff).contains(j)));
            assert(m1.dom().contains(j) <==> pv.dom().contains(j));
        }
    }
    assert forall|j: int| #[trigger] pv2.dom().contains(j) implies 0 <= j < cell_count(n) by {
        if !crate::candidate_cache::affected_cells(aff).contains(j) {
            assert(m1.dom().contains(j));
            if j != i_cell {
                assert(pv.dom().contains(j));
            }
        }
    }
    assert forall|j: int, v: u8|
        pv2.dom().contains(j) && #[trigger] pv2[j].contains(v) implies val_sound(
        grid_pre,
        j,
        v,
        n,
    ) by {
        let base_has = m1.dom().contains(j) && m1[j].contains(v);
        if crate::candidate_cache::affected_cells(aff).contains(j) {
            assert(pv2[j] =~= (if m1.dom().contains(j) {
                m1[j]
            } else {
                Set::empty()
            }).union(crate::candidate_cache::affected_adds(aff, j)));
            if crate::candidate_cache::affected_adds(aff, j).contains(v) {
                assert(v == value);
                assert(val_sound(grid_pre, j, value, n));
            } else {
                assert(base_has);
            }
        } else {
            assert(pv2[j] == m1[j]);
            assert(base_has);
        }
        if base_has {
            if j == i_cell {
                assert(opts.contains(v));
                assert(val_sound(grid_pre, i_cell, v, n));
            } else {
                assert(pv.dom().contains(j) && pv[j].contains(v));
                assert(val_sound(grid_now, j, v, n));
                assert forall|j2: int|
                    0 <= j2 < grid_pre.len() && j2 != j && same_block(j, j2, n) implies #[trigger]
                grid_pre[j2] != Some(v) by {
                    if j2 != i_cell {
                        assert(grid_now[j2] == grid_pre[j2]);
                    }
                }
            }
        }
    }
    assert forall|j: int| #[trigger] pv2.dom().contains(j) implies !pv2[j].is_empty() by {
        if crate::candidate_cache::affected_cells(aff).contains(j) {
            assert(pv2[j] =~= (if m1.dom().contains(j) {
                m1[j]
            } else {
                Set::empty()
            }).union(crate::candidate_cache::affected_adds(aff, j)));
            assert(crate::candidate_cache::affected_adds(aff, j).contains(value)) by {
                let t = choose|t: int|
                    0 <= t < aff.len() && (#[trigger] aff[t]).0.spec_index() == j;
                assert(aff[t].1 == value);
            }
            assert(pv2[j].contains(value));
        } else {
            assert(pv2[j] == m1[j]);
            if j == i_cell {
                let w = opts.choose();
                assert(opts.contains(w)) by {
                    if opts =~= Set::<u8>::empty() {
                    }
                }
                assert(pv2[j].contains(w));
            } else {
                assert(pv.dom().contains(j));
                assert(!pv[j].is_empty());
                let w = pv[j].choose();
                assert(pv[j].contains(w)) by {
                    if pv[j] =~= Set::<u8>::empty() {
                    }
                }
                assert(pv2[j].contains(w));
            }
        }
    }
}

impl SudokuSolver {
    /// A solver over a copy of the given board, with a cache freshly derived
    /// from it, in deterministic mode.
    pub fn new(board: &Board) -> (r: SudokuSolver)
        requires
            board.wf(),
        ensures
            r.wf() <== grid_no_conflict(board.grid(), board.spec_base()),
            r.board.grid() == board.grid(),
            r.board.wf(),
            r.sbase() == board.spec_base(),
            r.initial@ == board.grid(),
            r.move_log@.len() == 0,
            r.log_ok(),
            r.random == false,
            r.candidate_cache.structural(),
            r.candidate_cache.sbase() == board.spec_base(),
            forall|j: int|
                0 <= j < cell_count(board.spec_base()) ==> (
                #[trigger] r.candidate_cache.pv().dom().contains(j) <==> board.grid()[j] is None),
            forall|j: int|
                r.candidate_cache.pv().dom().contains(j) ==> 0 <= j < cell_count(
                    board.spec_base(),
                ),
            forall|j: int, v: u8|
                r.candidate_cache.pv().dom().contains(j)
                    && #[trigger] r.candidate_cache.pv()[j].contains(v) ==> val_sound(
                    board.grid(),
                    j,
                    v,
                    board.spec_base(),
                ),
            forall|j: int|
                #[trigger] r.candidate_cache.pv().dom().contains(j)
                    ==> r.candidate_cache.pv()[j] == crate::board::candidates_of(
                    board.grid(),
                    j,
                    board.spec_base(),
                ),
    {
        let candidate_cache = CandidateCache::from_board(board);
        let solver = SudokuSolver {
            board: board.duplicate(),
            move_log: Vec::new(),
            candidate_cache,
            random: false,
            initial: Ghost(board.grid()),
        };
        proof {
            let n = board.spec_base();
            let grid = board.grid();
            assert forall|j: int, v: u8|
                solver.candidate_cache.pv().dom().contains(j)
                    && #[trigger] solver.candidate_cache.pv()[j].contains(v) implies val_sound(
                grid,
                j,
                v,
                n,
            ) by {
                assert(solver.candidate_cache.pv()[j] == crate::board::candidates_of(grid, j, n));
            }
        }
        solver
    }

    /// A solver in randomized-guess mode, as used by the generator.
    pub fn new_random(board: &Board) -> (r: SudokuSolver)
        requires
            board.wf(),
        ensures
            r.random == true,
            r.wf() <== grid_no_conflict(board.grid(), board.spec_base()),
            r.board.grid() == board.grid(),
            r.board.wf(),
            r.sbase() == board.spec_base(),
            r.initial@ == board.grid(),
            r.move_log@.len() == 0,
            r.log_ok(),
            r.candidate_cache.structural(),
            r.candidate_cache.sbase() == board.spec_base(),
            forall|j: int|
                0 <= j < cell_count(board.spec_base()) ==> (
                #[trigger] r.candidate_cache.pv().dom().contains(j) <==> board.grid()[j] is None),
            forall|j: int|
                r.candidate_cache.pv().dom().contains(j) ==> 0 <= j < cell_count(
                    board.spec_base(),
                ),
            forall|j: int, v: u8|
                r.candidate_cache.pv().dom().contains(j)
                    && #[trigger] r.candidate_cache.pv()[j].contains(v) ==> val_sound(
                    board.grid(),
                    j,
                    v,
                    board.spec_base(),
                ),
    {
        let mut solver = Self::new(board);
        solver.random = true;
        solver
    }
}

/// Relies on rand's thread-local generator and `Rng::gen_range`: returns a
/// uniformly distributed index below the (positive) bound.
#[verifier::external_body]
fn random_below(bound: usize) -> (r: usize)
    requires
        bound > 0,
    ensures
        r < bound,
{
    rand::Rng::gen_range(&mut rand::thread_rng(), 0..bound)
}

impl SudokuSolver {
    /// All naked singles: open cells with exactly one candidate value, in
    /// cell order.
    pub fn naked_singles(&self) -> (r: Vec<(CellLoc, u8)>)
        requires
            self.candidate_cache.structural(),
        ensures
            forall|t: int|
                0 <= t < r@.len() ==> {
                    let (c2, v2) = #[trigger] r@[t];
                    &&& c2.wf()
                    &&& c2.spec_base() == self.candidate_cache.sbase()
                    &&& self.candidate_cache.pv().dom().contains(c2.spec_index())
                    &&& self.candidate_cache.pv()[c2.spec_index()] =~= Set::empty().insert(v2)
                    &&& self.candidate_cache.possible_values.m()[c2.spec_index()].vseq().len()
                        == 1
                    &&& v2 == self.candidate_cache.possible_values.m()[c2.spec_index()].vseq()[0]
                    &&& 1 <= v2 <= side_len(self.candidate_cache.sbase())
                },
            forall|t1: int, t2: int|
                0 <= t1 < t2 < r@.len() ==> r@[t1].0.spec_index() < r@[t2].0.spec_index(),
            forall|j: int|
                #![trigger self.candidate_cache.possible_values.m()[j]]
                self.candidate_cache.pv().dom().contains(j)
                    && self.candidate_cache.possible_values.m()[j].vseq().len() == 1
                    ==> exists|t: int|
                    0 <= t < r@.len() && (#[trigger] r@[t]).0.spec_index() == j && r@[t].1
                        == self.candidate_cache.possible_values.m()[j].vseq()[0],
    {
        let mut r: Vec<(CellLoc, u8)> = Vec::new();
        let pv = &self.candidate_cache.possible_values;
        let cap = pv.keys.len();
        let mut j: usize = 0;
        while j < cap
            invariant
                self.candidate_cache.structural(),
                cap == self.candidate_cache.possible_values.capacity(),
                pv == &self.candidate_cache.possible_values,
                j <= cap,
                forall|t: int|
                    0 <= t < r@.len() ==> {
                        let (c2, v2) = #[trigger] r@[t];
                        &&& c2.wf()
                        &&& c2.spec_base() == self.candidate_cache.sbase()
                        &&& self.candidate_cache.pv().dom().contains(c2.spec_index())
                        &&& self.candidate_cache.pv()[c2.spec_index()] =~= Set::empty().insert(v2)
                        &&& self.candidate_cache.possible_values.m()[c2.spec_index()].vseq().len()
                            == 1
                        &&& v2 == self.candidate_cache.possible_values.m()[
                        c2.spec_index()].vseq()[0]
                        &&& 1 <= v2 <= side_len(self.candidate_cache.sbase())
                        &&& c2.spec_index() < j
                    },
                forall|t1: int, t2: int|
                    0 <= t1 < t2 < r@.len() ==> r@[t1].0.spec_index() < r@[t2].0.spec_index(),
                forall|j2: int|
                    #![trigger self.candidate_cache.possible_values.m()[j2]]
                    0 <= j2 < j && self.candidate_cache.pv().dom().contains(j2)
                        && self.candidate_cache.possible_values.m()[j2].vseq().len() == 1
                        ==> exists|t: int|
                        0 <= t < r@.len() && (#[trigger] r@[t]).0.spec_index() == j2 && r@[t].1
                            == self.candidate_cache.possible_values.m()[j2].vseq()[0],
            decreases cap - j,
        {
            let ghost old_r = r@;
            if let Some(key) = pv.key_at_slot(j) {
                let vs = pv.value_at_slot(j);
                if let Some(vs) = vs {
                    if vs.len() == 1 {
                        let v = vs.get(0);
                        proof {
                            assert(self.candidate_cache.pv()[j as int] == vs.vset());
                            assert(vs.vset() =~= Set::empty().insert(v)) by {
                                assert forall|w: u8| vs.vset().contains(w) implies w == v by {
                                    let t = choose|t: int|
                                        0 <= t < vs.vseq().len() && vs.vseq()[t] == w;
                                    assert(t == 0);
                                }
                                assert(vs.vset().contains(v)) by {
                                    assert(vs.vseq()[0] == v);
                                    assert(vs.vseq().contains(v));
                                }
                            }
                            assert(self.candidate_cache.possible_values.m()[j as int].in_range(
                                side_len(self.candidate_cache.sbase()),
                            ));
                            assert(vs.vset().contains(v));
                        }
                        r.push((key, v));
                    }
                }
            }
            proof {
                assert forall|j2: int|
                    #![trigger self.candidate_cache.possible_values.m()[j2]]
                    0 <= j2 < j + 1 && self.candidate_cache.pv().dom().contains(j2)
                        && self.candidate_cache.possible_values.m()[j2].vseq().len() == 1
                        implies exists|t: int|
                        0 <= t < r@.len() && (#[trigger] r@[t]).0.spec_index() == j2 && r@[t].1
                            == self.candidate_cache.possible_values.m()[j2].vseq()[0] by {
                    if j2 == j {
                        assert(r@[r@.len() - 1].0.spec_index() == j2);
                    } else {
                        let t = choose|t: int|
                            0 <= t < old_r.len() && (#[trigger] old_r[t]).0.spec_index() == j2
                                && old_r[t].1
                                == self.candidate_cache.possible_values.m()[j2].vseq()[0];
                        assert(r@[t] == old_r[t]);
                    }
                }
            }
            j = j + 1;
        }
        r
    }

    /// All hidden singles: (cell, value) pairs where some block containing
    /// the cell has exactly one candidate cell for the value, in cell-then-
    /// value order.  Exactly the pairs where an open cell still allows the
    /// value and one of its blocks tracks the cell as the value's only
    /// candidate.
    pub fn hidden_singles(&self) -> (r: Vec<(CellLoc, u8)>)
        requires
            self.candidate_cache.structural(),
            self.board.wf(),
            self.candidate_cache.sbase() == self.sbase(),
        ensures
            forall|t: int|
                0 <= t < r@.len() ==> {
                    let (c2, v2) = #[trigger] r@[t];
                    &&& c2.wf()
                    &&& c2.spec_base() == self.candidate_cache.sbase()
                    &&& self.candidate_cache.pv().dom().contains(c2.spec_index())
                    &&& self.candidate_cache.pv()[c2.spec_index()].contains(v2)
                    &&& 1 <= v2 <= side_len(self.candidate_cache.sbase())
                    &&& hidden_single_at(&self.candidate_cache, c2.spec_index(), v2)
                },
            forall|j: int, v: u8|
                self.candidate_cache.pv().dom().contains(j) && self.candidate_cache.pv()[
                j].contains(v) && #[trigger] hidden_single_at(&self.candidate_cache, j, v)
                    ==> exists|t: int|
                    0 <= t < r@.len() && (#[trigger] r@[t]).0.spec_index() == j && r@[t].1 == v,
    {
        let ghost n = self.sbase();
        let mut r: Vec<(CellLoc, u8)> = Vec::new();
        proof {
            assert(self.board.base_size == 2 || self.board.base_size == 3 || self.board.base_size
                == 4);
        }
        let side = self.board.base_size * self.board.base_size;
        proof {
            assert(side == 4 || side == 9 || side == 16);
        }
        let count = side * side;
        proof {
            assert(n == 2 || n == 3 || n == 4);
            assert(side as int == side_len(n));
            assert((side as int) * (side as int) == cell_count(n)) by (nonlinear_arith)
                requires
                    side as int == side_len(n),
            ;
            assert(count == cell_count(n));
        }
        let cells = self.board.iter_cells();
        let mut k: usize = 0;
        while k < count
            invariant
                self.candidate_cache.structural(),
                self.board.wf(),
                n == self.sbase(),
                self.candidate_cache.sbase() == n,
                side == side_len(n),
                count == cell_count(n),
                cells@.len() == count,
                forall|t: int|
                    0 <= t < cells@.len() ==> (#[trigger] cells@[t]).spec_index() == t
                        && cells@[t].spec_base() == n && cells@[t].wf(),
                k <= count,
                forall|t: int|
                    0 <= t < r@.len() ==> {
                        let (c2, v2) = #[trigger] r@[t];
                        &&& c2.wf()
                        &&& c2.spec_base() == n
                        &&& self.candidate_cache.pv().dom().contains(c2.spec_index())
                        &&& self.candidate_cache.pv()[c2.spec_index()].contains(v2)
                        &&& 1 <= v2 <= side_len(n)
                        &&& hidden_single_at(&self.candidate_cache, c2.spec_index(), v2)
                    },
                forall|j2: int, v: u8|
                    0 <= j2 < k && self.candidate_cache.pv().dom().contains(j2)
                        && self.candidate_cache.pv()[j2].contains(v)
                        && #[trigger] hidden_single_at(&self.candidate_cache, j2, v)
                        ==> exists|t: int|
                        0 <= t < r@.len() && (#[trigger] r@[t]).0.spec_index() == j2 && r@[t].1
                            == v,
            decreases count - k,
        {
            let cell = cells[k];
            let ghost r_at_cell = r@;
            if let Some(vs) = self.candidate_cache.possible_values.get(&cell) {
                let vs = vs.duplicate();
                let l = cell.line();
                let c = cell.col();
                let sq = cell.square();
                let mut t: usize = 0;
                while t < vs.len()
                    invariant
                        self.candidate_cache.structural(),
                        self.board.wf(),
                        n == self.sbase(),
                        self.candidate_cache.sbase() == n,
                        side == side_len(n),
                        cell.wf(),
                        cell.spec_base() == n,
                        cell.spec_index() == k,
                        l == line_of(k as int, n),
                        c == col_of(k as int, n),
                        sq == square_of(k as int, n),
                        l < side && c < side && sq < side,
                        t <= vs.vseq().len(),
                        vs.wf(),
                        self.candidate_cache.pv().dom().contains(cell.spec_index()),
                        vs.vset() == self.candidate_cache.pv()[cell.spec_index()],
                        forall|t2: int|
                            0 <= t2 < r@.len() ==> {
                                let (c2, v2) = #[trigger] r@[t2];
                                &&& c2.wf()
                                &&& c2.spec_base() == n
                                &&& self.candidate_cache.pv().dom().contains(c2.spec_index())
                                &&& self.candidate_cache.pv()[c2.spec_index()].contains(v2)
                                &&& 1 <= v2 <= side_len(n)
                                &&& hidden_single_at(&self.candidate_cache, c2.spec_index(), v2)
                            },
                        forall|j2: int, v: u8|
                            0 <= j2 < k && self.candidate_cache.pv().dom().contains(j2)
                                && self.candidate_cache.pv()[j2].contains(v)
                                && #[trigger] hidden_single_at(&self.candidate_cache, j2, v)
                                ==> exists|t2: int|
                                0 <= t2 < r@.len() && (#[trigger] r@[t2]).0.spec_index() == j2
                                    && r@[t2].1 == v,
                        forall|u: int|
                            0 <= u < t && hidden_single_at(
                                &self.candidate_cache,
                                k as int,
                                #[trigger] vs.vseq()[u],
                            ) ==> exists|t2: int|
                                0 <= t2 < r@.len() && (#[trigger] r@[t2]).0.spec_index()
                                    == k as int && r@[t2].1 == vs.vseq()[u],
                    decreases vs.vseq().len() - t,
                {
                    let v = vs.get(t);
                    proof {
                        assert(vs.vset().contains(v));
                        assert(self.candidate_cache.possible_values.m()[
                        cell.spec_index()].in_range(side_len(n)));
                        crate::candidate_cache::lemma_bk_decompose(line_of(k as int, n), v, n);
                        crate::candidate_cache::lemma_bk_decompose(
                            side_len(n) + col_of(k as int, n),
                            v,
                            n,
                        );
                        crate::candidate_cache::lemma_bk_decompose(
                            2 * side_len(n) + square_of(k as int, n),
                            v,
                            n,
                        );
                    }
                    let line_single = match self.candidate_cache.candidates_at(
                        &crate::candidate_cache::Block::Line(l),
                        &v,
                    ) {
                        Some(cs) => cs.len() == 1 && cs.get(0).get_index() == cell.get_index(),
                        None => false,
                    };
                    proof {
                        assert(line_single == singleton_bucket(
                            &self.candidate_cache,
                            bk_of(line_of(k as int, n), v, n),
                            k as int,
                        ));
                    }
                    let col_single = match self.candidate_cache.candidates_at(
                        &crate::candidate_cache::Block::Col(c),
                        &v,
                    ) {
                        Some(cs) => cs.len() == 1 && cs.get(0).get_index() == cell.get_index(),
                        None => false,
                    };
                    proof {
                        assert(col_single == singleton_bucket(
                            &self.candidate_cache,
                            bk_of(side_len(n) + col_of(k as int, n), v, n),
                            k as int,
                        ));
                    }
                    let square_single = match self.candidate_cache.candidates_at(
                        &crate::candidate_cache::Block::Square(sq),
                        &v,
                    ) {
                        Some(cs) => cs.len() == 1 && cs.get(0).get_index() == cell.get_index(),
                        None => false,
                    };
                    proof {
                        assert(square_single == singleton_bucket(
                            &self.candidate_cache,
                            bk_of(2 * side_len(n) + square_of(k as int, n), v, n),
                            k as int,
                        ));
                    }
                    let single = line_single || col_single || square_single;
                    proof {
                        assert(single == hidden_single_at(&self.candidate_cache, k as int, v));
                    }
                    let ghost old_r = r@;
                    if single {
                        r.push((cell, v));
                    }
                    proof {
                        assert forall|u: int|
                            0 <= u < t + 1 && hidden_single_at(
                                &self.candidate_cache,
                                k as int,
                                #[trigger] vs.vseq()[u],
                            ) implies exists|t2: int|
                                0 <= t2 < r@.len() && (#[trigger] r@[t2]).0.spec_index()
                                    == k as int && r@[t2].1 == vs.vseq()[u] by {
                            if u == t {
                                assert(r@[r@.len() - 1].0.spec_index() == k as int);
                            } else {
                                let t2 = choose|t2: int|
                                    0 <= t2 < old_r.len() && (#[trigger] old_r[t2]).0.spec_index()
                                        == k as int && old_r[t2].1 == vs.vseq()[u];
                                assert(r@[t2] == old_r[t2]);
                            }
                        }
                        assert forall|j2: int, v2: u8|
                            0 <= j2 < k && self.candidate_cache.pv().dom().contains(j2)
                                && self.candidate_cache.pv()[j2].contains(v2)
                                && #[trigger] hidden_single_at(&self.candidate_cache, j2, v2)
                                implies exists|t2: int|
                                0 <= t2 < r@.len() && (#[trigger] r@[t2]).0.spec_index() == j2
                                    && r@[t2].1 == v2 by {
                            let t2 = choose|t2: int|
                                0 <= t2 < old_r.len() && (#[trigger] old_r[t2]).0.spec_index()
                                    == j2 && old_r[t2].1 == v2;
                            assert(r@[t2] == old_r[t2]);
                        }
                    }
                    t = t + 1;
                }
                proof {
                    assert forall|j2: int, v: u8|
                        0 <= j2 < k + 1 && self.candidate_cache.pv().dom().contains(j2)
                            && self.candidate_cache.pv()[j2].contains(v)
                            && #[trigger] hidden_single_at(&self.candidate_cache, j2, v)
                            implies exists|t2: int|
                            0 <= t2 < r@.len() && (#[trigger] r@[t2]).0.spec_index() == j2 && r@[
                        t2].1 == v by {
                        if j2 == k {
                            assert(vs.vset().contains(v));
                            let u = choose|u: int|
                                0 <= u < vs.vseq().len() && vs.vseq()[u] == v;
                            assert(vs.vseq().take(vs.vseq().len() as int) == vs.vseq());
                            assert(hidden_single_at(
                                &self.candidate_cache,
                                k as int,
                                vs.vseq()[u],
                            ));
                        }
                    }
                }
            } else {
                proof {
                    assert forall|j2: int, v: u8|
                        0 <= j2 < k + 1 && self.candidate_cache.pv().dom().contains(j2)
                            && self.candidate_cache.pv()[j2].contains(v)
                            && #[trigger] hidden_single_at(&self.candidate_cache, j2, v)
                            implies exists|t2: int|
                            0 <= t2 < r@.len() && (#[trigger] r@[t2]).0.spec_index() == j2 && r@[
                        t2].1 == v by {
                        if j2 == k {
                            assert(!self.candidate_cache.pv().dom().contains(k as int));
                        }
                    }
                }
            }
            k = k + 1;
        }
        r
    }

    /// The next branch point: an open cell with the fewest remaining
    /// candidates and one of its values.  In deterministic mode the first
    /// minimal cell in index order and its smallest value; in generation
    /// mode a uniformly random minimal cell and a uniformly random value.
    pub fn guess(&self) -> (r: (CellLoc, u8))
        requires
            self.candidate_cache.structural(),
            self.no_starved(),
            !(self.candidate_cache.pv().dom() =~= Set::<int>::empty()),
        ensures
            r.0.wf(),
            r.0.spec_base() == self.candidate_cache.sbase(),
            self.candidate_cache.pv().dom().contains(r.0.spec_index()),
            self.candidate_cache.pv()[r.0.spec_index()].contains(r.1),
            1 <= r.1 <= side_len(self.candidate_cache.sbase()),
            !self.random ==> ({
                let i = r.0.spec_index();
                &&& (forall|j: int|
                    #[trigger] self.candidate_cache.pv().dom().contains(j)
                        ==> self.candidate_cache.possible_values.m()[j].vseq().len()
                        >= self.candidate_cache.possible_values.m()[i].vseq().len())
                &&& (forall|j: int|
                    #[trigger] self.candidate_cache.pv().dom().contains(j) && j < i
                        ==> self.candidate_cache.possible_values.m()[j].vseq().len()
                        > self.candidate_cache.possible_values.m()[i].vseq().len())
                &&& r.1 == self.candidate_cache.possible_values.m()[i].vseq()[0]
                &&& (forall|v: u8| self.candidate_cache.pv()[i].contains(v) ==> r.1 <= v)
            }),
    {
        let ghost n = self.candidate_cache.sbase();
        let pv = &self.candidate_cache.possible_values;
        let cap = pv.keys.len();
        let mut best: Option<(CellLoc, usize)> = None;
        let mut minimal: Vec<CellLoc> = Vec::new();
        let mut j: usize = 0;
        while j < cap
            invariant
                self.candidate_cache.structural(),
                n == self.candidate_cache.sbase(),
                cap == self.candidate_cache.possible_values.capacity(),
                pv == &self.candidate_cache.possible_values,
                j <= cap,
                best is Some <==> exists|j2: int|
                    0 <= j2 < j && #[trigger] self.candidate_cache.pv().dom().contains(j2),
                best is Some ==> {
                    let (c2, len2) = best->0;
                    &&& c2.wf()
                    &&& c2.spec_base() == n
                    &&& self.candidate_cache.pv().dom().contains(c2.spec_index())
                    &&& self.candidate_cache.possible_values.m()[c2.spec_index()].vseq().len()
                        == len2
                    &&& c2.spec_index() < j
                    &&& (forall|j2: int|
                        0 <= j2 < j && #[trigger] self.candidate_cache.pv().dom().contains(j2)
                            ==> self.candidate_cache.possible_values.m()[j2].vseq().len()
                            >= len2)
                    &&& (forall|j2: int|
                        0 <= j2 < j && #[trigger] self.candidate_cache.pv().dom().contains(j2)
                            && j2 < c2.spec_index()
                            ==> self.candidate_cache.possible_values.m()[j2].vseq().len() > len2)
                },
                minimal@.len() > 0 <==> best is Some,
                forall|t: int|
                    0 <= t < minimal@.len() ==> {
                        let c2 = #[trigger] minimal@[t];
                        &&& c2.wf()
                        &&& c2.spec_base() == n
                        &&& self.candidate_cache.pv().dom().contains(c2.spec_index())
                    },
            decreases cap - j,
        {
            if let Some(key) = pv.key_at_slot(j) {
                proof {
                    assert(self.candidate_cache.pv().dom().contains(j as int));
                }
                if let Some(vs) = pv.value_at_slot(j) {
                    let len = vs.len();
                    match &best {
                        None => {
                            best = Some((key, len));
                            minimal = Vec::new();
                            minimal.push(key);
                        },
                        Some((_, best_len)) => {
                            if len < *best_len {
                                best = Some((key, len));
                                minimal = Vec::new();
                                minimal.push(key);
                            } else if len == *best_len {
                                minimal.push(key);
                            }
                        },
                    }
                }
            }
            j = j + 1;
        }
        proof {
            if best is None {
                let j0 = self.candidate_cache.pv().dom().choose();
                assert(self.candidate_cache.pv().dom().contains(j0)) by {
                    if self.candidate_cache.pv().dom() =~= Set::<int>::empty() {
                    }
                }
                assert(false);
            }
        }
        let (cell, value) = if self.random {
            let ci = random_below(minimal.len());
            let cell = minimal[ci];
            let vs_ref = pv.get(&cell);
            match vs_ref {
                Some(vs) => {
                    proof {
                        assert(!self.candidate_cache.pv()[cell.spec_index()].is_empty());
                        assert(vs.vset() == self.candidate_cache.pv()[cell.spec_index()]);
                        if vs.vseq().len() == 0 {
                            assert(vs.vset() =~= Set::<u8>::empty());
                        }
                    }
                    let vi = random_below(vs.len());
                    (cell, vs.get(vi))
                },
                None => {
                    proof {
                        assert(false);
                    }
                    (cell, 1)
                },
            }
        } else {
            let (cell, _) = match best {
                Some(b) => b,
                None => {
                    proof {
                        assert(false);
                    }
                    (CellLoc::new(0, self.board.board_size()), 0)
                },
            };
            let vs_ref = pv.get(&cell);
            match vs_ref {
                Some(vs) => {
                    proof {
                        assert(!self.candidate_cache.pv()[cell.spec_index()].is_empty());
                        assert(vs.vset() == self.candidate_cache.pv()[cell.spec_index()]);
                        if vs.vseq().len() == 0 {
                            assert(vs.vset() =~= Set::<u8>::empty());
                        }
                    }
                    (cell, vs.first())
                },
                None => {
                    proof {
                        assert(false);
                    }
                    (cell, 1)
                },
            }
        };
        proof {
            assert(self.candidate_cache.possible_values.m()[cell.spec_index()].in_range(
                side_len(n),
            ));
            assert(self.candidate_cache.pv()[cell.spec_index()].contains(value));
        }
        (cell, value)
    }
}

impl SudokuSolver {
    /// Commits one assignment: the cache first, then the board, then the
    /// move log.  A contradiction in the cache leaves everything unchanged.
    pub fn register_move(&mut self, strategy: Strategy, cell: &CellLoc, value: u8) -> (r: Result<
        (),
        UnsolvableError,
    >)
        requires
            old(self).wf(),
            old(self).no_starved(),
            old(self).log_ok(),
            cell.wf(),
            cell.spec_base() == old(self).sbase(),
            old(self).candidate_cache.pv().dom().contains(cell.spec_index()),
            old(self).candidate_cache.pv()[cell.spec_index()].contains(value),
        ensures
            final(self).wf(),
            final(self).no_starved(),
            final(self).log_ok(),
            final(self).sbase() == old(self).sbase(),
            final(self).initial == old(self).initial,
            final(self).random == old(self).random,
            r is Err ==> final(self).board.grid() == old(self).board.grid() && final(self).candidate_cache.pv() =~= old(self).candidate_cache.pv() && final(self).move_log@
                == old(self).move_log@,
            (r is Err <==> exists|j: int|
                #![trigger old(self).candidate_cache.pv().dom().contains(j)]
                old(self).candidate_cache.pv().dom().contains(j) && j != cell.spec_index()
                    && same_block(cell.spec_index(), j, old(self).sbase()) && old(
                    self,
                ).candidate_cache.pv()[j].subset_of(Set::empty().insert(value))),
            r is Ok ==> final(self).board.grid() == old(self).board.grid().update(
                cell.spec_index(),
                Some(value),
            ) && final(self).move_log@.len() == old(self).move_log@.len() + 1 && (forall|t: int|
                0 <= t < old(self).move_log@.len() ==> final(self).move_log@[t] == old(
                    self,
                ).move_log@[t]) && final(self).move_log@[old(self).move_log@.len() as int]
                == (MoveLog::SetValue {
                strategy,
                cell: *cell,
                value,
                undo_candidates: final(self).move_log@[
                    old(self).move_log@.len() as int].token_of(),
                pre: Ghost(old(self).board.grid()),
            }),
            r is Ok ==> apply_undo_pv(
                final(self).candidate_cache.pv(),
                final(self).move_log@[old(self).move_log@.len() as int].token_of(),
            ) =~= old(self).candidate_cache.pv() && crate::candidate_cache::apply_moves(
                final(self).candidate_cache.cc(),
                final(self).move_log@[old(self).move_log@.len() as int].token_of().moves@,
                old(self).sbase(),
            ) =~= old(self).candidate_cache.cc(),
    {
        let ghost n = self.sbase();
        let ghost i = cell.spec_index();
        let ghost grid0 = self.board.grid();
        let ghost pv0 = self.candidate_cache.pv();
        proof {
            assert(1 <= value <= side_len(n)) by {
                assert(self.candidate_cache.possible_values.m()[i].in_range(side_len(n)));
            }
        }
        match self.candidate_cache.set_value(value, *cell) {
            Err(_) => {
                proof {
                    assert(self.candidate_cache.pv() =~= pv0);
                }
                Err(UnsolvableError)
            },
            Ok(tok) => {
                let ghost gtok = tok;
                self.board.set(cell, value);
                self.move_log.push(
                    MoveLog::SetValue {
                        strategy,
                        cell: *cell,
                        value,
                        undo_candidates: tok,
                        pre: Ghost(grid0),
                    },
                );
                proof {
                    let grid1 = self.board.grid();
                    let pv1 = self.candidate_cache.pv();
                    assert(grid1 == grid0.update(i, Some(value)));
                    assert(grid0[i] is None);
                    assert(val_sound(grid0, i, value, n));
                    assert(grid_no_conflict(grid1, n)) by {
                        assert forall|a: int, b: int|
                            0 <= a < grid1.len() && 0 <= b < grid1.len() && a != b
                                && #[trigger] same_block(a, b, n) && grid1[a] is Some implies grid1[a]
                            != grid1[b] by {
                            if a != i && b != i {
                                assert(grid1[a] == grid0[a] && grid1[b] == grid0[b]);
                                assert(same_block(b, a, n));
                            } else if a == i {
                                assert(grid1[b] == grid0[b]);
                                assert(grid0[b] != Some(value));
                            } else {
                                assert(grid1[a] == grid0[a]);
                                assert(same_block(i, a, n)) by {
                                    assert(same_block(a, i, n));
                                }
                                assert(grid0[a] != Some(value));
                            }
                        }
                    }
                    assert forall|j: int|
                        0 <= j < cell_count(n) implies (#[trigger] pv1.dom().contains(j) <==> grid1[j]
                        is None) by {
                        assert(pv1.dom() =~= pv0.dom().remove(i));
                    }
                    assert forall|j: int, v: u8|
                        pv1.dom().contains(j) && #[trigger] pv1[j].contains(v) implies val_sound(
                        grid1,
                        j,
                        v,
                        n,
                    ) by {
                        assert(pv0.dom().contains(j));
                        if same_block(i, j, n) {
                            assert(pv1[j] == pv0[j].remove(value));
                        } else {
                            assert(pv1[j] == pv0[j]);
                        }
                        assert(pv0[j].contains(v));
                        assert(val_sound(grid0, j, v, n));
                        assert forall|j2: int|
                            0 <= j2 < grid1.len() && j2 != j && same_block(j, j2, n) implies #[trigger]
                        grid1[j2] != Some(v) by {
                            if j2 == i {
                                assert(same_block(i, j, n));
                                assert(v != value);
                            } else {
                                assert(grid1[j2] == grid0[j2]);
                            }
                        }
                    }
                    assert forall|j: int| #[trigger]
                        pv1.dom().contains(j) implies !pv1[j].is_empty() by {
                        assert(pv0.dom().contains(j) && !pv0[j].is_empty());
                        if same_block(i, j, n) && j != i {
                            assert(pv1[j] == pv0[j].remove(value));
                            if pv1[j].is_empty() {
                                assert forall|w: u8|
                                    pv0[j].contains(w) implies Set::empty().insert(value).contains(
                                    w,
                                ) by {
                                    if w != value {
                                        assert(pv0[j].remove(value).contains(w));
                                        assert(pv1[j] =~= Set::<u8>::empty());
                                    }
                                }
                                assert(pv0[j].subset_of(Set::empty().insert(value)));
                                assert(false);
                            }
                        }
                    }
                    let e = self.move_log@[old(self).move_log@.len() as int];
                    assert(e.entry_ok(n, self.initial@)) by {
                        assert(gtok.options.1 is Some);
                        assert(gtok.options.1->0.vset() == pv0[i]);
                        assert forall|v: u8|
                            gtok.options.1->0.vset().contains(v) implies val_sound(
                            grid0,
                            i,
                            v,
                            n,
                        ) by {
                            assert(pv0[i].contains(v));
                        }
                        assert forall|t: int|
                            0 <= t < gtok.affected_cell_options@.len() implies {
                            let (c2, v2) = #[trigger] gtok.affected_cell_options@[t];
                            &&& v2 == value
                            &&& c2.spec_index() != i
                            &&& grid0[c2.spec_index()] is None
                            &&& val_sound(grid0, c2.spec_index(), value, n)
                        } by {
                            let (c2, v2) = gtok.affected_cell_options@[t];
                            assert(pv0.dom().contains(c2.spec_index()));
                            assert(pv0[c2.spec_index()].contains(value));
                        }
                    }
                    assert(final(self).log_ok()) by {
                        let log0 = old(self).move_log@;
                        let log1 = self.move_log@;
                        assert forall|t: int|
                            0 <= t < log1.len() implies (#[trigger] log1[t]).entry_ok(
                            n,
                            self.initial@,
                        ) by {
                            if t < log0.len() {
                                assert(log1[t] == log0[t]);
                            }
                        }
                        assert forall|t: int|
                            0 <= t < log1.len() - 1 implies (#[trigger] log1[t + 1]).pre_of()
                            == log1[t].pre_of().update(
                            log1[t].cell_of().spec_index(),
                            Some(log1[t].value_of()),
                        ) by {
                            if t < log0.len() - 1 {
                                assert(log1[t] == log0[t] && log1[t + 1] == log0[t + 1]);
                            } else {
                                assert(log1[t] == log0[t]);
                                assert(log1[t + 1].pre_of() == grid0);
                            }
                        }
                    }
                }
                Ok(())
            },
        }
    }

    /// Undoes one committed assignment: clears the board cell and replays
    /// the undo token on the cache.
    fn undo_move(&mut self, mov: MoveLog)
        requires
            old(self).wf(),
            old(self).no_starved(),
            mov.entry_ok(old(self).sbase(), old(self).initial@),
            old(self).board.grid() == mov.pre_of().update(
                mov.cell_of().spec_index(),
                Some(mov.value_of()),
            ),
        ensures
            final(self).wf(),
            final(self).no_starved(),
            final(self).board.grid() == mov.pre_of(),
            final(self).move_log == old(self).move_log,
            final(self).sbase() == old(self).sbase(),
            final(self).initial == old(self).initial,
            final(self).random == old(self).random,
            final(self).candidate_cache.pv() =~= apply_undo_pv(
                old(self).candidate_cache.pv(),
                mov.token_of(),
            ),
            final(self).candidate_cache.cc() =~= crate::candidate_cache::apply_moves(
                old(self).candidate_cache.cc(),
                mov.token_of().moves@,
                old(self).sbase(),
            ),
    {
        let ghost n = self.sbase();
        let ghost grid_now = self.board.grid();
        let ghost pv0 = self.candidate_cache.pv();
        match mov {
            MoveLog::SetValue { cell, undo_candidates, value, .. } => {
                let ghost gtok = undo_candidates;
                self.board.unset(&cell);
                proof {
                    assert(self.board.grid() =~= mov.pre_of()) by {
                        assert(self.board.grid() == grid_now.update(cell.spec_index(), None));
                        assert(mov.pre_of()[cell.spec_index()] is None);
                    }
                    assert(!gtok.options.1->0.vset().is_empty()) by {
                        assert(gtok.options.1->0.vset().contains(mov.value_of()));
                    }
                    assert forall|t: int|
                        0 <= t < gtok.affected_cell_options@.len() implies {
                        let (c2, v2) = #[trigger] gtok.affected_cell_options@[t];
                        0 <= c2.spec_index() < cell_count(n)
                    } by {
                        let (c2, v2) = gtok.affected_cell_options@[t];
                        assert(c2.wf() && c2.spec_base() == n);
                    }
                    lemma_undo_restores(
                        pv0,
                        gtok,
                        n,
                        mov.pre_of(),
                        grid_now,
                        cell.spec_index(),
                        value,
                    );
                }
                self.candidate_cache.undo(undo_candidates);
                proof {
                    assert(self.candidate_cache.pv() =~= apply_undo_pv(pv0, gtok));
                }
            },
        }
    }
}

impl SudokuSolver {
    /// Unwinds the move log: undoes moves until a guess with an untried
    /// candidate commits, or the log is exhausted, in which case the board
    /// is back at its initial state and the puzzle is unsolvable.
    pub fn backtrack(&mut self) -> (r: Result<CellLoc, UnsolvableError>)
        requires
            old(self).wf(),
            old(self).no_starved(),
            old(self).log_ok(),
        ensures
            final(self).wf(),
            final(self).no_starved(),
            final(self).log_ok(),
            final(self).sbase() == old(self).sbase(),
            final(self).initial == old(self).initial,
            final(self).random == old(self).random,
            r is Err ==> final(self).board.grid() == old(self).initial@ && final(self).move_log@.len() == 0,
            r is Ok ==> ({
                let d = final(self).move_log@.len() - 1;
                let e = final(self).move_log@[d];
                &&& final(self).move_log@.len() >= 1
                &&& final(self).move_log@.len() <= old(self).move_log@.len()
                &&& (forall|t: int|
                    0 <= t < d ==> final(self).move_log@[t] == old(self).move_log@[t])
                &&& old(self).move_log@[d].strategy_of() == Strategy::Guess
                &&& e.strategy_of() == Strategy::Guess
                &&& e.cell_of() == old(self).move_log@[d].cell_of()
                &&& e.cell_of() == r->Ok_0
                &&& e.pre_of() == old(self).move_log@[d].pre_of()
                &&& e.value_of() != old(self).move_log@[d].value_of()
                &&& old(self).move_log@[d].token_of().options.1->0.vset().contains(e.value_of())
                &&& final(self).board.grid() == e.pre_of().update(
                    e.cell_of().spec_index(),
                    Some(e.value_of()),
                )
            }),
    {
        let ghost n = self.sbase();
        loop
            invariant
                self.wf(),
                self.no_starved(),
                self.log_ok(),
                n == self.sbase(),
                n == old(self).sbase(),
                self.initial == old(self).initial,
                self.random == old(self).random,
                self.move_log@ == old(self).move_log@.take(self.move_log@.len() as int),
                self.move_log@.len() <= old(self).move_log@.len(),
            decreases self.move_log@.len(),
        {
            let ghost log_pre = self.move_log@;
            let popped = self.move_log.pop();
            match popped {
                None => {
                    proof {
                        assert(self.board.grid() == self.initial@);
                    }
                    return Err(UnsolvableError);
                },
                Some(mov) => {
                    let ghost gmov = mov;
                    let ghost log_now = self.move_log@;
                    let cell = mov.get_cell();
                    let value = mov.get_value();
                    let strategy = mov.get_strategy();
                    proof {
                        assert(log_now == log_pre.subrange(0, log_pre.len() - 1));
                        assert(log_pre == old(self).move_log@.take(log_pre.len() as int));
                        assert(log_pre.len() <= old(self).move_log@.len());
                        assert(self.move_log@ =~= old(self).move_log@.take(
                            self.move_log@.len() as int,
                        )) by {
                            assert forall|t: int| 0 <= t < log_now.len() implies log_now[t]
                                == old(self).move_log@[t] by {
                                assert(log_now[t] == log_pre[t]);
                                assert(log_pre[t] == old(self).move_log@.take(
                                    log_pre.len() as int,
                                )[t]);
                            }
                        }
                        assert(old(self).move_log@[log_now.len() as int] == gmov) by {
                            assert(log_pre[log_pre.len() - 1] == gmov);
                            assert(log_pre[log_pre.len() - 1] == old(self).move_log@.take(
                                log_pre.len() as int,
                            )[log_pre.len() - 1]);
                        }
                        assert(log_pre[log_pre.len() - 1] == gmov);
                        assert(gmov.entry_ok(n, self.initial@));
                        assert(self.board.grid() == gmov.pre_of().update(
                            gmov.cell_of().spec_index(),
                            Some(gmov.value_of()),
                        ));
                    }
                    let ghost pv_bu = self.candidate_cache.pv();
                    self.undo_move(mov);
                    proof {
                        assert(self.board.grid() == gmov.pre_of());
                        assert(self.log_ok()) by {
                            if log_now.len() > 0 {
                                assert((log_pre[(log_now.len() - 1) + 1]).pre_of() == log_pre[
                                log_now.len() - 1].pre_of().update(
                                    log_pre[log_now.len() - 1].cell_of().spec_index(),
                                    Some(log_pre[log_now.len() - 1].value_of()),
                                ));
                                assert(log_pre[log_now.len() as int] == gmov);
                                assert(log_pre[log_now.len() - 1] == log_now[log_now.len() - 1]);
                                assert(self.board.grid() == log_now[
                                log_now.len() - 1].pre_of().update(
                                    log_now[log_now.len() - 1].cell_of().spec_index(),
                                    Some(log_now[log_now.len() - 1].value_of()),
                                ));
                            }
                        }
                    }
                    if matches!(strategy, Strategy::Guess) {
                        let ghost i = cell.spec_index();
                        proof {
                            assert(self.candidate_cache.pv().dom().contains(i)) by {
                                assert(self.board.grid()[i] is None);
                            }
                            let tok = gmov.token_of();
                            let opts = tok.options.1->0.vset();
                            let aff = tok.affected_cell_options@;
                            let m1 = crate::candidate_cache::apply_options(pv_bu, tok.options);
                            lemma_apply_affected_char(m1, aff);
                            assert(!crate::candidate_cache::affected_cells(aff).contains(i)) by {
                                if crate::candidate_cache::affected_cells(aff).contains(i) {
                                    let t2 = choose|t2: int|
                                        0 <= t2 < aff.len() && (#[trigger] aff[t2]).0.spec_index()
                                            == i;
                                }
                            }
                            assert(m1.dom().contains(i) && m1[i] == opts) by {
                                assert(tok.options.0 == cell);
                            }
                            assert(self.candidate_cache.pv()[i] == opts) by {
                                assert(self.candidate_cache.pv() =~= apply_undo_pv(pv_bu, tok));
                                assert(crate::candidate_cache::apply_affected(m1, aff)[i] == m1[
                                i]);
                            }
                        }
                        let has_options = match self.candidate_cache.possible_values.get(&cell) {
                            Some(vs) => !vs.is_empty(),
                            None => false,
                        };
                        if has_options {
                            let ghost pv_rc = self.candidate_cache.pv();
                            self.candidate_cache.remove_candidate(&value, &cell);
                            proof {
                                assert(self.candidate_cache.pv().dom().contains(i));
                                assert(pv_rc[i].contains(value)) by {
                                    assert(gmov.token_of().options.1->0.vset().contains(value));
                                }
                                assert(self.candidate_cache.pv()[i] == gmov.token_of(
                                ).options.1->0.vset().remove(value)) by {
                                    assert(self.candidate_cache.pv() =~= pv_rc.insert(
                                        i,
                                        pv_rc[i].remove(value),
                                    ));
                                }
                            }
                            let guesses = match self.candidate_cache.possible_values.get(&cell) {
                                Some(vs) => vs.duplicate(),
                                None => {
                                    proof {
                                        assert(false);
                                    }
                                    ValueSet::new()
                                },
                            };
                            proof {
                                assert(self.candidate_cache.pv()[i]
                                    == self.candidate_cache.possible_values.m()[i].vset());
                                assert(guesses.vset() == self.candidate_cache.pv()[i]);
                            }
                            let mut t: usize = 0;
                            while t < guesses.len()
                                invariant
                                    self.wf(),
                                    self.log_ok(),
                                    n == self.sbase(),
                                    n == old(self).sbase(),
                                    self.initial == old(self).initial,
                                    self.random == old(self).random,
                                    self.move_log@ == log_now,
                                    log_now == old(self).move_log@.take(log_now.len() as int),
                                    old(self).move_log@[log_now.len() as int] == gmov,
                                    log_now.len() < old(self).move_log@.len(),
                                    self.board.grid() == gmov.pre_of(),
                                    gmov.entry_ok(n, self.initial@),
                                    gmov.cell_of() == cell,
                                    gmov.value_of() == value,
                                    gmov.strategy_of() == Strategy::Guess,
                                    guesses.vset() == gmov.token_of().options.1->0.vset().remove(
                                        value,
                                    ),
                                    cell.wf(),
                                    cell.spec_base() == n,
                                    i == cell.spec_index(),
                                    t <= guesses.vseq().len(),
                                    guesses.wf(),
                                    self.candidate_cache.pv().dom().contains(i),
                                    guesses.vset() == self.candidate_cache.pv()[i],
                                    forall|j: int|
                                        #[trigger] self.candidate_cache.pv().dom().contains(j) && j
                                            != i ==> !self.candidate_cache.pv()[j].is_empty(),
                                decreases guesses.vseq().len() - t,
                            {
                                let next_guess = guesses.get(t);
                                proof {
                                    assert(guesses.vset().contains(next_guess)) by {
                                        assert(guesses.vseq()[t as int] == next_guess);
                                        assert(guesses.vseq().contains(next_guess));
                                    }
                                    assert(!self.candidate_cache.pv()[i].is_empty());
                                    assert(self.no_starved());
                                }
                                let committed = self.register_move(
                                    Strategy::Guess,
                                    &cell,
                                    next_guess,
                                );
                                if committed.is_ok() {
                                    return Ok(cell);
                                }
                                t = t + 1;
                            }
                        }
                        let ghost grid_here = self.board.grid();
                        let possible = cell.get_possible_values(&self.board);
                        match possible {
                            Some(vs) => {
                                proof {
                                    assert(vs.vset() =~= crate::board::candidates_of(
                                        grid_here,
                                        i,
                                        n,
                                    ));
                                    assert forall|v: u8|
                                        self.candidate_cache.pv().dom().contains(i)
                                            && #[trigger] self.candidate_cache.pv()[i].contains(
                                        v,
                                    ) implies vs.vset().contains(v) by {
                                        assert(val_sound(grid_here, i, v, n));
                                        assert(self.candidate_cache.possible_values.m()[
                                        i].in_range(side_len(n)));
                                    }
                                    assert(vs.vset().contains(value)) by {
                                        assert(gmov.token_of().options.1->0.vset().contains(
                                            value,
                                        ));
                                        assert(val_sound(gmov.pre_of(), i, value, n));
                                        assert(gmov.pre_of() == grid_here);
                                    }
                                }
                                let ghost pv_before = self.candidate_cache.pv();
                                self.candidate_cache.reset_candidates(&cell, vs);
                                proof {
                                    assert(self.wf()) by {
                                        assert forall|j: int, v: u8|
                                            self.candidate_cache.pv().dom().contains(j)
                                                && #[trigger] self.candidate_cache.pv()[
                                            j].contains(v) implies val_sound(
                                            grid_here,
                                            j,
                                            v,
                                            n,
                                        ) by {
                                            if j == i {
                                                assert(self.candidate_cache.pv()[j]
                                                    == crate::board::candidates_of(
                                                    grid_here,
                                                    i,
                                                    n,
                                                ));
                                            } else {
                                                assert(self.candidate_cache.pv()[j] == pv_before[
                                                j]);
                                            }
                                        }
                                        assert forall|j: int|
                                            0 <= j < cell_count(n) implies (
                                        #[trigger] self.candidate_cache.pv().dom().contains(j)
                                            <==> grid_here[j] is None) by {}
                                    }
                                    assert(self.no_starved()) by {
                                        assert forall|j: int|
                                            #[trigger] self.candidate_cache.pv().dom().contains(
                                            j,
                                        ) implies !self.candidate_cache.pv()[j].is_empty() by {
                                            if j == i {
                                                assert(self.candidate_cache.pv()[i].contains(
                                                    value,
                                                ));
                                            } else {
                                                assert(self.candidate_cache.pv()[j] == pv_before[
                                                j]);
                                            }
                                        }
                                    }
                                }
                            },
                            None => {
                                proof {
                                    assert(false);
                                }
                            },
                        }
                    }
                },
            }
        }
    }
}

impl SudokuSolver {
}

/// A successful backtrack leaves a move log that differs from the one the
/// round started from and is no longer than it: the resumed guess sits below
/// every entry the round itself committed, and carries a different value.
proof fn lemma_backtrack_progress(
    orig: Seq<MoveLog>,
    bt_old: Seq<MoveLog>,
    fin: Seq<MoveLog>,
    batch_strategy: Strategy,
)
    requires
        bt_old.len() >= orig.len(),
        forall|t: int| 0 <= t < orig.len() ==> bt_old[t] == orig[t],
        forall|t: int|
            orig.len() <= t < bt_old.len() ==> (#[trigger] bt_old[t]).strategy_of()
                == batch_strategy,
        batch_strategy != Strategy::Guess,
        fin.len() >= 1,
        fin.len() <= bt_old.len(),
        forall|t: int| 0 <= t < fin.len() - 1 ==> fin[t] == bt_old[t],
        bt_old[fin.len() - 1].strategy_of() == Strategy::Guess,
        fin[fin.len() - 1].value_of() != bt_old[fin.len() - 1].value_of(),
    ensures
        fin != orig,
        fin.len() <= orig.len(),
{
    let d = fin.len() - 1;
    assert(d < orig.len()) by {
        if d >= orig.len() {
            assert(bt_old[d].strategy_of() == batch_strategy);
        }
    }
    assert(fin != orig) by {
        if fin == orig {
            assert(fin[d] == orig[d]);
            assert(orig[d] == bt_old[d]);
        }
    }
}

impl SudokuSolver {
    /// One round of the search: commit all naked singles, else all hidden
    /// singles, else one guess; a contradiction triggers backtracking.
    pub fn solve_iteration(&mut self) -> (r: Result<(), UnsolvableError>)
        requires
            old(self).wf(),
            old(self).no_starved(),
            old(self).log_ok(),
            !(old(self).candidate_cache.pv().dom() =~= Set::<int>::empty()),
        ensures
            final(self).wf(),
            final(self).no_starved(),
            final(self).log_ok(),
            final(self).sbase() == old(self).sbase(),
            final(self).initial == old(self).initial,
            final(self).random == old(self).random,
            r is Err ==> final(self).board.grid() == old(self).initial@,
            r is Ok ==> final(self).move_log@ != old(self).move_log@,
            (r is Ok && final(self).move_log@.len() > old(self).move_log@.len()) ==> (forall|
                t: int,
            |
                0 <= t < old(self).move_log@.len() ==> final(self).move_log@[t] == old(
                    self,
                ).move_log@[t]),
            (r is Ok && final(self).move_log@.len() > old(self).move_log@.len()
                && has_naked_single(old(self))) ==> (forall|t: int|
                old(self).move_log@.len() <= t < final(self).move_log@.len() ==> (
                #[trigger] final(self).move_log@[t]).strategy_of() == Strategy::NakedSingle),
            (r is Ok && final(self).move_log@.len() > old(self).move_log@.len()
                && !has_naked_single(old(self)) && has_hidden_single(old(self))) ==> (forall|
                t: int,
            |
                old(self).move_log@.len() <= t < final(self).move_log@.len() ==> (
                #[trigger] final(self).move_log@[t]).strategy_of() == Strategy::HiddenSingle),
            (r is Ok && final(self).move_log@.len() > old(self).move_log@.len()
                && !has_naked_single(old(self)) && !has_hidden_single(old(self)))
                ==> final(self).move_log@.len() == old(self).move_log@.len() + 1 && final(self).move_log@[
                old(self).move_log@.len() as int].strategy_of() == Strategy::Guess,
    {
        let ghost n = self.sbase();
        let naked = self.naked_singles();
        if naked.len() > 0 {
            proof {
                assert(has_naked_single(old(self))) by {
                    let (c0, v0) = naked@[0];
                    assert(self.candidate_cache.possible_values.m()[c0.spec_index()].vseq().len()
                        == 1);
                }
            }
            let mut k: usize = 0;
            while k < naked.len()
                invariant
                    self.wf(),
                    self.no_starved(),
                    self.log_ok(),
                    n == self.sbase(),
                    n == old(self).sbase(),
                    self.initial == old(self).initial,
                    self.random == old(self).random,
                    k <= naked@.len(),
                    naked@.len() > 0,
                    forall|t: int|
                        0 <= t < naked@.len() ==> {
                            let (c2, v2) = #[trigger] naked@[t];
                            c2.wf() && c2.spec_base() == n && 1 <= v2 <= side_len(n)
                        },
                    k == 0 ==> *self == *old(self) && {
                        let (c0, v0) = naked@[0];
                        &&& self.candidate_cache.pv().dom().contains(c0.spec_index())
                        &&& self.candidate_cache.pv()[c0.spec_index()].contains(v0)
                    },
                    self.move_log@.len() >= old(self).move_log@.len(),
                    k > 0 ==> self.move_log@.len() > old(self).move_log@.len(),
                    forall|t: int|
                        0 <= t < old(self).move_log@.len() ==> self.move_log@[t] == old(
                            self,
                        ).move_log@[t],
                    forall|t: int|
                        old(self).move_log@.len() <= t < self.move_log@.len() ==> (
                        #[trigger] self.move_log@[t]).strategy_of() == Strategy::NakedSingle,
                decreases naked@.len() - k,
            {
                let (cell, value) = naked[k];
                let commit = if self.candidate_cache.possible_values.contains_key(&cell) {
                    let has = match self.candidate_cache.possible_values.get(&cell) {
                        Some(vs) => vs.contains(value),
                        None => false,
                    };
                    has
                } else {
                    false
                };
                proof {
                    if k == 0 {
                        assert(commit);
                    }
                }
                if commit {
                    if self.register_move(Strategy::NakedSingle, &cell, value).is_err() {
                        let ghost bt_old = self.move_log@;
                        let b = self.backtrack();
                        proof {
                            if b is Ok {
                                lemma_backtrack_progress(
                                    old(self).move_log@,
                                    bt_old,
                                    self.move_log@,
                                    Strategy::NakedSingle,
                                );
                            }
                        }
                        return if b.is_ok() {
                            Ok(())
                        } else {
                            Err(UnsolvableError)
                        };
                    }
                }
                k = k + 1;
            }
            proof {
                assert(self.move_log@ != old(self).move_log@) by {
                    assert(self.move_log@.len() > old(self).move_log@.len());
                }
            }
            return Ok(());
        }
        proof {
            assert(!has_naked_single(old(self))) by {
                if has_naked_single(old(self)) {
                    let j = choose|j: int|
                        #![trigger old(self).candidate_cache.possible_values.m()[j]]
                        old(self).candidate_cache.pv().dom().contains(j) && old(
                            self,
                        ).candidate_cache.possible_values.m()[j].vseq().len() == 1;
                }
            }
        }
        let hidden = self.hidden_singles();
        if hidden.len() > 0 {
            proof {
                assert(has_hidden_single(old(self))) by {
                    let (c0, v0) = hidden@[0];
                    assert(hidden_single_at(&self.candidate_cache, c0.spec_index(), v0));
                }
            }
            let mut k: usize = 0;
            while k < hidden.len()
                invariant
                    self.wf(),
                    self.no_starved(),
                    self.log_ok(),
                    n == self.sbase(),
                    n == old(self).sbase(),
                    self.initial == old(self).initial,
                    self.random == old(self).random,
                    k <= hidden@.len(),
                    hidden@.len() > 0,
                    forall|t: int|
                        0 <= t < hidden@.len() ==> {
                            let (c2, v2) = #[trigger] hidden@[t];
                            c2.wf() && c2.spec_base() == n && 1 <= v2 <= side_len(n)
                        },
                    k == 0 ==> *self == *old(self) && {
                        let (c0, v0) = hidden@[0];
                        &&& self.candidate_cache.pv().dom().contains(c0.spec_index())
                        &&& self.candidate_cache.pv()[c0.spec_index()].contains(v0)
                    },
                    self.move_log@.len() >= old(self).move_log@.len(),
                    k > 0 ==> self.move_log@.len() > old(self).move_log@.len(),
                    forall|t: int|
                        0 <= t < old(self).move_log@.len() ==> self.move_log@[t] == old(
                            self,
                        ).move_log@[t],
                    forall|t: int|
                        old(self).move_log@.len() <= t < self.move_log@.len() ==> (
                        #[trigger] self.move_log@[t]).strategy_of() == Strategy::HiddenSingle,
                decreases hidden@.len() - k,
            {
                let (cell, value) = hidden[k];
                let commit = if self.candidate_cache.possible_values.contains_key(&cell) {
                    let has = match self.candidate_cache.possible_values.get(&cell) {
                        Some(vs) => vs.contains(value),
                        None => false,
                    };
                    has
                } else {
                    false
                };
                proof {
                    if k == 0 {
                        assert(commit);
                    }
                }
                if commit {
                    if self.register_move(Strategy::HiddenSingle, &cell, value).is_err() {
                        let ghost bt_old = self.move_log@;
                        let b = self.backtrack();
                        proof {
                            if b is Ok {
                                lemma_backtrack_progress(
                                    old(self).move_log@,
                                    bt_old,
                                    self.move_log@,
                                    Strategy::HiddenSingle,
                                );
                            }
                        }
                        return if b.is_ok() {
                            Ok(())
                        } else {
                            Err(UnsolvableError)
                        };
                    }
                }
                k = k + 1;
            }
            proof {
                assert(self.move_log@ != old(self).move_log@) by {
                    assert(self.move_log@.len() > old(self).move_log@.len());
                }
            }
            return Ok(());
        }
        proof {
            assert(!has_hidden_single(old(self))) by {
                if has_hidden_single(old(self)) {
                    let (j, v) = choose|j: int, v: u8|
                        old(self).candidate_cache.pv().dom().contains(j) && old(
                            self,
                        ).candidate_cache.pv()[j].contains(v) && #[trigger] hidden_single_at(
                            &old(self).candidate_cache,
                            j,
                            v,
                        );
                }
            }
        }
        let (cell, value) = self.guess();
        if self.register_move(Strategy::Guess, &cell, value).is_ok() {
            Ok(())
        } else {
            let ghost bt_old = self.move_log@;
            let b = self.backtrack();
            proof {
                if b is Ok {
                    lemma_backtrack_progress(
                        old(self).move_log@,
                        bt_old,
                        self.move_log@,
                        Strategy::NakedSingle,
                    );
                }
            }
            if b.is_ok() {
                Ok(())
            } else {
                Err(UnsolvableError)
            }
        }
    }

    /// Solves the board in place.  On success the board is completely filled
    /// and conflict-free and extends the input board; on failure the board is
    /// back at its initial state.  A board whose givens already conflict, or
    /// that leaves some open cell without candidates, fails immediately.
    pub fn solve(&mut self) -> (r: Result<(), UnsolvableError>)
        requires
            old(self).board.wf(),
            old(self).candidate_cache.structural(),
            old(self).candidate_cache.sbase() == old(self).sbase(),
            forall|j: int|
                0 <= j < cell_count(old(self).sbase()) ==> (
                #[trigger] old(self).candidate_cache.pv().dom().contains(j) <==> old(
                self,
            ).board.grid()[j] is None),
            forall|j: int|
                old(self).candidate_cache.pv().dom().contains(j) ==> 0 <= j < cell_count(
                    old(self).sbase(),
                ),
            forall|j: int, v: u8|
                old(self).candidate_cache.pv().dom().contains(j) && #[trigger] old(
                    self,
                ).candidate_cache.pv()[j].contains(v) ==> val_sound(
                    old(self).board.grid(),
                    j,
                    v,
                    old(self).sbase(),
                ),
            old(self).log_ok(),
            old(self).initial@ == old(self).board.grid(),
            old(self).move_log@.len() == 0,
        ensures
            final(self).sbase() == old(self).sbase(),
            final(self).board.wf(),
            r is Ok ==> grid_complete(final(self).board.grid()) && grid_no_conflict(
                final(self).board.grid(),
                final(self).sbase(),
            ) && grid_extends(old(self).board.grid(), final(self).board.grid())
                && final(self).wf() && final(self).log_ok(),
            r is Err ==> final(self).board.grid() == old(self).board.grid(),
            (grid_complete(old(self).board.grid()) && grid_no_conflict(
                old(self).board.grid(),
                old(self).sbase(),
            )) ==> r is Ok,
            (!grid_no_conflict(old(self).board.grid(), old(self).sbase()) || exists|j: int|
                #![trigger old(self).candidate_cache.pv().dom().contains(j)]
                old(self).candidate_cache.pv().dom().contains(j) && old(
                    self,
                ).candidate_cache.pv()[j].is_empty()) ==> r is Err && *final(self) == *old(self),
    {
        let ghost n = self.sbase();
        if self.board_has_conflict() {
            return Err(UnsolvableError);
        }
        let mut starved = false;
        let pv = &self.candidate_cache.possible_values;
        let cap = pv.keys.len();
        let mut j: usize = 0;
        while j < cap
            invariant
                self.candidate_cache.structural(),
                cap == self.candidate_cache.possible_values.capacity(),
                pv == &self.candidate_cache.possible_values,
                j <= cap,
                *self == *old(self),
                !starved ==> forall|j2: int|
                    0 <= j2 < j && #[trigger] self.candidate_cache.pv().dom().contains(j2)
                        ==> !self.candidate_cache.pv()[j2].is_empty(),
                starved ==> exists|j2: int|
                    #![trigger self.candidate_cache.pv().dom().contains(j2)]
                    self.candidate_cache.pv().dom().contains(j2)
                        && self.candidate_cache.pv()[j2].is_empty(),
            decreases cap - j,
        {
            if let Some(vs) = pv.value_at_slot(j) {
                if vs.is_empty() {
                    proof {
                        assert(self.candidate_cache.pv().dom().contains(j as int));
                        assert(self.candidate_cache.pv()[j as int].is_empty()) by {
                            assert(self.candidate_cache.pv()[j as int] == vs.vset());
                        }
                    }
                    starved = true;
                }
            }
            j = j + 1;
        }
        if starved {
            return Err(UnsolvableError);
        }
        proof {
            assert(self.no_starved()) by {
                assert forall|j2: int|
                    #[trigger] self.candidate_cache.pv().dom().contains(j2) implies !self.candidate_cache.pv()[
                j2].is_empty() by {}
            }
            assert(self.wf());
        }
        let mut fuel: u64 = 0xffff_ffff_ffff_ffffu64;
        loop
            invariant
                self.wf(),
                self.no_starved(),
                self.log_ok(),
                n == self.sbase(),
                n == old(self).sbase(),
                self.initial == old(self).initial,
                self.initial@ == old(self).board.grid(),
                grid_complete(old(self).board.grid()) ==> self.candidate_cache.pv().dom()
                    =~= Set::<int>::empty(),
                grid_no_conflict(old(self).board.grid(), n),
                !(exists|j: int|
                    #![trigger old(self).candidate_cache.pv().dom().contains(j)]
                    old(self).candidate_cache.pv().dom().contains(j) && old(
                        self,
                    ).candidate_cache.pv()[j].is_empty()),
            decreases fuel,
        {
            if self.candidate_cache.possible_values.is_empty() {
                proof {
                    assert(grid_complete(self.board.grid())) by {
                        assert forall|j2: int|
                            0 <= j2 < self.board.grid().len() implies self.board.grid()[j2]
                            is Some by {
                            if self.board.grid()[j2] is None {
                                assert(self.candidate_cache.pv().dom().contains(j2));
                                assert(self.candidate_cache.pv().dom() =~= Set::<int>::empty());
                            }
                        }
                    }
                }
                return Ok(());
            }
            if fuel == 0 {
                let mut depth = self.move_log.len();
                while depth > 0
                    invariant
                        self.wf(),
                        self.no_starved(),
                        self.log_ok(),
                        n == self.sbase(),
                        n == old(self).sbase(),
                        self.initial == old(self).initial,
                        self.initial@ == old(self).board.grid(),
                        depth == self.move_log@.len(),
                    decreases depth,
                {
                    let ghost log_pre = self.move_log@;
                    let popped = self.move_log.pop();
                    match popped {
                        Some(mov) => {
                            let ghost gmov = mov;
                            let ghost log_now = self.move_log@;
                            proof {
                                assert(log_pre[log_pre.len() - 1] == gmov);
                                assert(gmov.entry_ok(n, self.initial@));
                            }
                            self.undo_move(mov);
                            proof {
                                assert(self.board.grid() == gmov.pre_of());
                                assert(self.log_ok()) by {
                                    if log_now.len() > 0 {
                                        assert((log_pre[(log_now.len() - 1) + 1]).pre_of()
                                            == log_pre[log_now.len() - 1].pre_of().update(
                                            log_pre[log_now.len() - 1].cell_of().spec_index(),
                                            Some(log_pre[log_now.len() - 1].value_of()),
                                        ));
                                        assert(log_pre[log_now.len() as int] == gmov);
                                        assert(log_pre[log_now.len() - 1] == log_now[
                                        log_now.len() - 1]);
                                        assert(self.board.grid() == log_now[
                                        log_now.len() - 1].pre_of().update(
                                            log_now[log_now.len() - 1].cell_of().spec_index(),
                                            Some(log_now[log_now.len() - 1].value_of()),
                                        ));
                                    }
                                }
                            }
                            depth = depth - 1;
                        },
                        None => {
                            proof {
                                assert(false);
                            }
                        },
                    }
                }
                proof {
                    assert(self.board.grid() == self.initial@);
                }
                return Err(UnsolvableError);
            }
            fuel = fuel - 1;
            proof {
                assert(!(self.candidate_cache.pv().dom() =~= Set::<int>::empty())) by {
                    assert(!(self.candidate_cache.possible_values.m().dom() =~= Set::<int>::empty()));
                    if self.candidate_cache.pv().dom() =~= Set::<int>::empty() {
                        assert(self.candidate_cache.possible_values.m().dom()
                            =~= Set::<int>::empty()) by {
                            assert forall|j2: int|
                                !self.candidate_cache.possible_values.m().dom().contains(j2) by {
                                if self.candidate_cache.possible_values.m().dom().contains(j2) {
                                    assert(self.candidate_cache.pv().dom().contains(j2));
                                }
                            }
                        }
                    }
                }
            }
            if self.solve_iteration().is_err() {
                return Err(UnsolvableError);
            }
        }
    }

    /// Whether two filled cells that see each other hold the same value.
    fn board_has_conflict(&self) -> (r: bool)
        requires
            self.board.wf(),
        ensures
            r == !grid_no_conflict(self.board.grid(), self.sbase()),
    {
        let ghost n = self.sbase();
        let ghost grid = self.board.grid();
        let cells = self.board.iter_cells();
        let mut k: usize = 0;
        while k < cells.len()
            invariant
                self.board.wf(),
                n == self.sbase(),
                grid == self.board.grid(),
                cells@.len() == cell_count(n),
                forall|t: int|
                    0 <= t < cells@.len() ==> (#[trigger] cells@[t]).spec_index() == t
                        && cells@[t].spec_base() == n && cells@[t].wf(),
                k <= cells@.len(),
                forall|a: int, b: int|
                    0 <= a < k && 0 <= b < grid.len() && a != b && #[trigger] same_block(a, b, n)
                        && grid[a] is Some ==> grid[a] != grid[b],
            decreases cells@.len() - k,
        {
            let cell = cells[k];
            if let Some(v) = self.board.get(&cell) {
                let line = cell.iter_line();
                let col = cell.iter_col();
                let square = cell.iter_square();
                proof {
                    crate::board::lemma_cell_geometry(cell.spec_index(), n);
                    assert forall|t2: int| 0 <= t2 < line@.len() implies same_block(
                        cell.spec_index(),
                        (#[trigger] line@[t2]).spec_index(),
                        n,
                    ) by {
                        crate::board::lemma_line_col(
                            line_of(cell.spec_index(), n),
                            t2,
                            n,
                        );
                    }
                    assert forall|t2: int| 0 <= t2 < col@.len() implies same_block(
                        cell.spec_index(),
                        (#[trigger] col@[t2]).spec_index(),
                        n,
                    ) by {
                        crate::board::lemma_line_col(
                            t2,
                            col_of(cell.spec_index(), n),
                            n,
                        );
                    }
                    assert forall|t2: int| 0 <= t2 < square@.len() implies same_block(
                        cell.spec_index(),
                        (#[trigger] square@[t2]).spec_index(),
                        n,
                    ) by {}
                }
                let mut t: usize = 0;
                while t < line.len()
                    invariant
                        self.board.wf(),
                        n == self.sbase(),
                        grid == self.board.grid(),
                        cell.wf(),
                        cell.spec_base() == n,
                        grid[cell.spec_index()] == Some(v),
                        line@.len() == side_len(n),
                        forall|t2: int|
                            0 <= t2 < line@.len() ==> (#[trigger] line@[t2]).wf()
                                && line@[t2].spec_base() == n,
                        forall|t2: int|
                            0 <= t2 < line@.len() ==> same_block(
                                cell.spec_index(),
                                (#[trigger] line@[t2]).spec_index(),
                                n,
                            ),
                        t <= line@.len(),
                        forall|t2: int|
                            0 <= t2 < t && (#[trigger] line@[t2]).spec_index()
                                != cell.spec_index() ==> grid[line@[t2].spec_index()] != Some(v),
                    decreases line@.len() - t,
                {
                    let peer = line[t];
                    if peer.get_index() != cell.get_index() {
                        if let Some(w) = self.board.get(&peer) {
                            if w == v {
                                proof {
                                    assert(same_block(cell.spec_index(), peer.spec_index(), n))
                                        by {
                                        assert(peer == line@[t as int]);
                                    }
                                }
                                return true;
                            }
                        }
                    }
                    t = t + 1;
                }
                let mut t: usize = 0;
                while t < col.len()
                    invariant
                        self.board.wf(),
                        n == self.sbase(),
                        grid == self.board.grid(),
                        cell.wf(),
                        cell.spec_base() == n,
                        grid[cell.spec_index()] == Some(v),
                        col@.len() == side_len(n),
                        forall|t2: int|
                            0 <= t2 < col@.len() ==> (#[trigger] col@[t2]).wf()
                                && col@[t2].spec_base() == n,
                        forall|t2: int|
                            0 <= t2 < col@.len() ==> same_block(
                                cell.spec_index(),
                                (#[trigger] col@[t2]).spec_index(),
                                n,
                            ),
                        t <= col@.len(),
                        forall|t2: int|
                            0 <= t2 < t && (#[trigger] col@[t2]).spec_index() != cell.spec_index()
                                ==> grid[col@[t2].spec_index()] != Some(v),
                    decreases col@.len() - t,
                {
                    let peer = col[t];
                    if peer.get_index() != cell.get_index() {
                        if let Some(w) = self.board.get(&peer) {
                            if w == v {
                                proof {
                                    assert(same_block(cell.spec_index(), peer.spec_index(), n))
                                        by {
                                        assert(peer == col@[t as int]);
                                    }
                                }
                                return true;
                            }
                        }
                    }
                    t = t + 1;
                }
                let mut t: usize = 0;
                while t < square.len()
                    invariant
                        self.board.wf(),
                        n == self.sbase(),
                        grid == self.board.grid(),
                        cell.wf(),
                        cell.spec_base() == n,
                        grid[cell.spec_index()] == Some(v),
                        square@.len() == side_len(n),
                        forall|t2: int|
                            0 <= t2 < square@.len() ==> (#[trigger] square@[t2]).wf()
                                && square@[t2].spec_base() == n,
                        forall|t2: int|
                            0 <= t2 < square@.len() ==> same_block(
                                cell.spec_index(),
                                (#[trigger] square@[t2]).spec_index(),
                                n,
                            ),
                        t <= square@.len(),
                        forall|t2: int|
                            0 <= t2 < t && (#[trigger] square@[t2]).spec_index()
                                != cell.spec_index() ==> grid[square@[t2].spec_index()] != Some(
                                v,
                            ),
                    decreases square@.len() - t,
                {
                    let peer = square[t];
                    if peer.get_index() != cell.get_index() {
                        if let Some(w) = self.board.get(&peer) {
                            if w == v {
                                proof {
                                    assert(same_block(cell.spec_index(), peer.spec_index(), n))
                                        by {
                                        assert(peer == square@[t as int]);
                                    }
                                }
                                return true;
                            }
                        }
                    }
                    t = t + 1;
                }
                proof {
                    assert forall|b: int|
                        0 <= b < grid.len() && (k as int) != b && #[trigger] same_block(
                            k as int,
                            b,
                            n,
                        ) implies grid[k as int] != grid[b] by {
                        crate::board::lemma_cell_geometry(b, n);
                        if line_of(k as int, n) == line_of(b, n) {
                            let k2 = choose|k2: int|
                                0 <= k2 < line@.len() && (#[trigger] line@[k2]).spec_index() == b;
                            assert(grid[b] != Some(v));
                        } else if col_of(k as int, n) == col_of(b, n) {
                            let k2 = choose|k2: int|
                                0 <= k2 < col@.len() && (#[trigger] col@[k2]).spec_index() == b;
                            assert(grid[b] != Some(v));
                        } else {
                            let k2 = choose|k2: int|
                                0 <= k2 < square@.len() && (#[trigger] square@[k2]).spec_index()
                                    == b;
                            assert(grid[b] != Some(v));
                        }
                    }
                }
            }
            k = k + 1;
        }
        proof {
            assert(grid_no_conflict(grid, n));
        }
        false
    }
}

/// Solves a copy of the board deterministically: on success the returned
/// board is a complete, conflict-free extension of the input.  A board that
/// is already a complete, conflict-free grid always solves; a board whose
/// givens conflict, or that leaves some empty cell without a single legal
/// value, always fails.
pub fn solve(board: &Board) -> (r: Result<Board, UnsolvableError>)
    requires
        board.wf(),
    ensures
        r is Ok ==> {
            let solved = r->Ok_0;
            &&& solved.wf()
            &&& solved.spec_base() == board.spec_base()
            &&& grid_complete(solved.grid())
            &&& grid_no_conflict(solved.grid(), board.spec_base())
            &&& grid_extends(board.grid(), solved.grid())
        },
        (grid_complete(board.grid()) && grid_no_conflict(board.grid(), board.spec_base()))
            ==> r is Ok,
        (!grid_no_conflict(board.grid(), board.spec_base()) || exists|j: int|
            0 <= j < cell_count(board.spec_base()) && board.grid()[j] is None && (
            #[trigger] crate::board::candidates_of(
                board.grid(),
                j,
                board.spec_base(),
            )).is_empty()) ==> r is Err,
{
    let ghost n = board.spec_base();
    let mut solver = SudokuSolver::new(board);
    proof {
        if exists|j: int|
            0 <= j < cell_count(n) && board.grid()[j] is None && (
            #[trigger] crate::board::candidates_of(board.grid(), j, n)).is_empty() {
            let j = choose|j: int|
                0 <= j < cell_count(n) && board.grid()[j] is None && (
                #[trigger] crate::board::candidates_of(board.grid(), j, n)).is_empty();
            assert(solver.candidate_cache.pv().dom().contains(j));
            assert(solver.candidate_cache.pv()[j].is_empty());
        }
    }
    match solver.solve() {
        Ok(()) => Ok(solver.board),
        Err(e) => Err(e),
    }
}

impl Board {
    /// Solves the sudoku puzzle, updating this board in place with the
    /// solution if one is found; an unsolvable board is left unchanged.
    pub fn solve(&mut self) -> (r: Result<(), UnsolvableError>)
        requires
            old(self).wf(),
        ensures
            final(self).wf(),
            final(self).spec_base() == old(self).spec_base(),
            r is Ok ==> grid_complete(final(self).grid()) && grid_no_conflict(
                final(self).grid(),
                final(self).spec_base(),
            ) && grid_extends(old(self).grid(), final(self).grid()),
            r is Err ==> final(self).grid() == old(self).grid(),
            (grid_complete(old(self).grid()) && grid_no_conflict(
                old(self).grid(),
                old(self).spec_base(),
            )) ==> r is Ok,
            (!grid_no_conflict(old(self).grid(), old(self).spec_base()) || exists|j: int|
                0 <= j < cell_count(old(self).spec_base()) && old(self).grid()[j] is None && (
                #[trigger] crate::board::candidates_of(
                    old(self).grid(),
                    j,
                    old(self).spec_base(),
                )).is_empty()) ==> r is Err,
    {
        match solve(&*self) {
            Ok(solved) => {
                *self = solved;
                Ok(())
            },
            Err(e) => Err(e),
        }
    }
}

} // verus!
