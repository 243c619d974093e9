//! The puzzle generator.
//!
//! Solves an empty board with randomized guesses, strips every cell that was
//! deduced rather than guessed, minimizes the remaining givens with parallel
//! trial solves, and records, for every guess of a deterministic re-solve,
//! the alternative values available at that guess point — the basis for the
//! approximate uniqueness check.

use vstd::prelude::*;

use crate::board::{
    Board, BoardSize, CellLoc, cell_count, grid_complete, grid_extends, grid_no_conflict,
    lemma_extends_trans, lemma_extension_transport, side_len,
};
use crate::sets::ValueSet;
use crate::solver::{MoveLog, Strategy, SudokuSolver};

use rayon::prelude::ParallelIterator;
use rayon::prelude::IntoParallelRefIterator;

verus! {

/// A generated board together with its solution and, for every cell set by
/// guessing during the deterministic re-solve, the alternative candidate
/// values at that guess point.
pub struct Puzzle {
    /// The minimized board.
    pub board: Board,
    /// The full solution of the minimized board.
    pub solution: Board,
    /// Alternative values per guess point of the deterministic re-solve.
    pub guesses: Vec<(CellLoc, ValueSet)>,
}

/// Some complete, conflict-free grid extends the board with `v` placed at
/// cell index `j`.
pub open spec fn placement_solvable(grid: Seq<Option<u8>>, j: int, v: u8, n: int) -> bool {
    exists|g: Seq<Option<u8>>|
        grid_complete(g) && grid_no_conflict(g, n) && #[trigger] grid_extends(
            grid.update(j, Some(v)),
            g,
        )
}

/// Whether placing `value` at `cell` still leaves the board solvable, tried
/// on a private copy.  A value outside the board's range never does.
pub fn trial_solves(board: &Board, cell: &CellLoc, value: u8) -> (r: bool)
    requires
        board.wf(),
        board.on_board(*cell),
    ensures
        r ==> 1 <= value <= side_len(board.spec_base()) && placement_solvable(
            board.grid(),
            cell.spec_index(),
            value,
            board.spec_base(),
        ),
{
    if value < 1 || value as usize > board.base_size * board.base_size {
        return false;
    }
    let mut copy = board.duplicate();
    copy.set(cell, value);
    let res = copy.solve();
    proof {
        if res is Ok {
            assert(grid_extends(
                board.grid().update(cell.spec_index(), Some(value)),
                copy.grid(),
            ));
        }
    }
    res.is_ok()
}

/// Relies on rayon's parallel iterator `any`: runs one [`trial_solves`] per
/// value on a fork-join pool, short-circuiting once any trial succeeds, and
/// returns whether some trial returned true — the disjunction over the set,
/// per rayon's documentation, so a success witnesses a solvable placement
/// through `trial_solves`' own contract, and an empty set always yields
/// false.  Which trials run to completion is scheduling-dependent, so
/// nothing more is promised.
#[verifier::external_body]
fn any_alternative_solves(board: &Board, cell: &CellLoc, values: &ValueSet) -> (r: bool)
    requires
        board.wf(),
        board.on_board(*cell),
    ensures
        r ==> exists|k: int|
            0 <= k < values.vseq().len() && placement_solvable(
                board.grid(),
                cell.spec_index(),
                #[trigger] values.vseq()[k],
                board.spec_base(),
            ),
        values.vseq().len() == 0 ==> !r,
{
    let vals = values.to_vec();
    vals.par_iter().any(|v| trial_solves(board, cell, *v))
}

/// Removes every given that is already implied by the others: a given stays
/// only when some alternative value in its place would also leave the board
/// solvable (so removing it would admit extra solutions).  The result holds
/// a subset of the original givens, each unchanged, and every kept given has
/// an alternative value under which the remaining board still extends to a
/// complete, conflict-free grid.
pub fn remove_false_guesses(board: &mut Board)
    requires
        old(board).wf(),
    ensures
        final(board).wf(),
        final(board).spec_base() == old(board).spec_base(),
        grid_extends(final(board).grid(), old(board).grid()),
        forall|j: int|
            0 <= j < cell_count(final(board).spec_base()) && final(board).grid()[j]
                is Some ==> exists|v: u8|
                v != final(board).grid()[j]->0 && #[trigger] placement_solvable(
                    final(board).grid().update(j, None),
                    j,
                    v,
                    final(board).spec_base(),
                ),
{
    let ghost n = board.spec_base();
    let ghost orig = board.grid();
    let cells = board.iter_cells();
    let mut k: usize = 0;
    while k < cells.len()
        invariant
            board.wf(),
            n == board.spec_base(),
            orig == old(board).grid(),
            cells@.len() == cell_count(n),
            forall|t: int|
                0 <= t < cells@.len() ==> (#[trigger] cells@[t]).spec_index() == t
                    && cells@[t].spec_base() == n && cells@[t].wf(),
            k <= cells@.len(),
            grid_extends(board.grid(), orig),
            forall|j: int|
                0 <= j < k && board.grid()[j] is Some ==> exists|v: u8|
                    v != board.grid()[j]->0 && #[trigger] placement_solvable(
                        board.grid().update(j, None),
                        j,
                        v,
                        n,
                    ),
        decreases cells@.len() - k,
    {
        let cell = cells[k];
        if let Some(value) = board.get(&cell) {
            let ghost before = board.grid();
            board.unset(&cell);
            let ghost removed = board.grid();
            let alternatives = cell.get_possible_values(board);
            match alternatives {
                Some(mut vs) => {
                    vs.remove(value);
                    let is_guess = any_alternative_solves(board, &cell, &vs);
                    if is_guess {
                        board.set(&cell, value);
                        proof {
                            assert(board.grid() =~= before);
                            let ki = choose|ki: int|
                                0 <= ki < vs.vseq().len() && placement_solvable(
                                    removed,
                                    k as int,
                                    #[trigger] vs.vseq()[ki],
                                    n,
                                );
                            let v = vs.vseq()[ki];
                            assert(vs.vset().contains(v)) by {
                                assert(vs.vseq().contains(v));
                            }
                            assert(v != value);
                            assert(board.grid().update(k as int, None) =~= removed);
                            assert(placement_solvable(board.grid().update(k as int, None), k as int, v, n));
                            assert forall|j: int|
                                0 <= j < k + 1 && board.grid()[j] is Some implies exists|v2: u8|
                                v2 != board.grid()[j]->0 && #[trigger] placement_solvable(
                                    board.grid().update(j, None),
                                    j,
                                    v2,
                                    n,
                                ) by {
                                if j < k {
                                    assert(board.grid()[j] == before[j]);
                                }
                            }
                        }
                    } else {
                        proof {
                            assert forall|j: int|
                                0 <= j < k + 1 && board.grid()[j] is Some implies exists|v2: u8|
                                v2 != board.grid()[j]->0 && #[trigger] placement_solvable(
                                    board.grid().update(j, None),
                                    j,
                                    v2,
                                    n,
                                ) by {
                                if j < k {
                                    assert(before[j] is Some && board.grid()[j] == before[j]);
                                    let v2 = choose|v2: u8|
                                        v2 != before[j]->0 && #[trigger] placement_solvable(
                                            before.update(j, None),
                                            j,
                                            v2,
                                            n,
                                        );
                                    let g = choose|g: Seq<Option<u8>>|
                                        grid_complete(g) && grid_no_conflict(g, n)
                                            && #[trigger] grid_extends(
                                            before.update(j, None).update(j, Some(v2)),
                                            g,
                                        );
                                    assert(grid_extends(
                                        board.grid().update(j, None),
                                        before.update(j, None),
                                    ));
                                    lemma_extension_transport(
                                        board.grid().update(j, None),
                                        before.update(j, None),
                                        g,
                                        j,
                                        v2,
                                    );
                                    assert(placement_solvable(
                                        board.grid().update(j, None),
                                        j,
                                        v2,
                                        n,
                                    ));
                                }
                            }
                        }
                    }
                },
                None => {
                    proof {
                        assert(false);
                    }
                },
            }
        } else {
            proof {
                assert forall|j: int|
                    0 <= j < k + 1 && board.grid()[j] is Some implies exists|v2: u8|
                    v2 != board.grid()[j]->0 && #[trigger] placement_solvable(
                        board.grid().update(j, None),
                        j,
                        v2,
                        n,
                    ) by {}
            }
        }
        k = k + 1;
    }
}

impl Puzzle {
    /// Generates a new puzzle: the solution is always a complete,
    /// conflict-free grid, and the minimized board is a strict sub-assignment
    /// of it.
    pub fn generate(board_size: BoardSize) -> (r: Puzzle)
        ensures
            r.board.wf(),
            r.solution.wf(),
            r.board.spec_base() == board_size.base(),
            r.solution.spec_base() == board_size.base(),
            grid_extends(r.board.grid(), r.solution.grid()),
            grid_complete(r.solution.grid()),
            grid_no_conflict(r.solution.grid(), board_size.base()),
            !grid_complete(r.board.grid()),
    {
        let ghost n = board_size.base();
        let board = Board::new(board_size);
        let mut solver = SudokuSolver::new_random(&board);
        let solved_ok = solver.solve().is_ok();
        let solved_board = if solved_ok {
            solver.board.duplicate()
        } else {
            Board::reference_solution(board_size)
        };
        let mut puzzle_board = solved_board.duplicate();
        if solved_ok {
            let mut t: usize = 0;
            while t < solver.move_log.len()
                invariant
                    solver.board.wf(),
                    solver.log_ok(),
                    solver.sbase() == n,
                    puzzle_board.wf(),
                    puzzle_board.spec_base() == n,
                    solved_board.wf(),
                    solved_board.spec_base() == n,
                    solved_board.grid() == solver.board.grid(),
                    t <= solver.move_log@.len(),
                    grid_extends(puzzle_board.grid(), solved_board.grid()),
                decreases solver.move_log@.len() - t,
            {
                let mov = &solver.move_log[t];
                let strategy = mov.get_strategy();
                if !matches!(strategy, Strategy::Guess) {
                    let cell = mov.get_cell();
                    proof {
                        assert(solver.move_log@[t as int].entry_ok(n, solver.initial@));
                    }
                    puzzle_board.unset(&cell);
                }
                t = t + 1;
            }
        }
        remove_false_guesses(&mut puzzle_board);
        let ghost after_min = puzzle_board.grid();
        let cells = puzzle_board.iter_cells();
        let mut open_cell: Option<CellLoc> = None;
        let mut k: usize = 0;
        while k < cells.len()
            invariant
                puzzle_board.wf(),
                puzzle_board.spec_base() == n,
                cells@.len() == cell_count(n),
                forall|t: int|
                    0 <= t < cells@.len() ==> (#[trigger] cells@[t]).spec_index() == t
                        && cells@[t].spec_base() == n && cells@[t].wf(),
                k <= cells@.len(),
                open_cell is Some ==> puzzle_board.grid()[open_cell->0.spec_index()] is None
                    && 0 <= open_cell->0.spec_index() < cell_count(n),
            decreases cells@.len() - k,
        {
            if open_cell.is_none() {
                let cell = cells[k];
                if puzzle_board.get(&cell).is_none() {
                    open_cell = Some(cell);
                }
            }
            k = k + 1;
        }
        if open_cell.is_none() {
            // a board with no open cell is no puzzle: open one
            let first = CellLoc::new(0, puzzle_board.board_size());
            puzzle_board.unset(&first);
            proof {
                assert(puzzle_board.grid()[0] is None);
                assert(grid_extends(puzzle_board.grid(), after_min)) by {
                    assert(puzzle_board.grid() == after_min.update(0, None));
                }
            }
        } else {
            proof {
                assert(grid_extends(puzzle_board.grid(), after_min));
            }
        }
        let minimal = puzzle_board;
        let mut resolver = SudokuSolver::new(&minimal);
        let resolved_ok = resolver.solve().is_ok();
        let solution = if resolved_ok {
            resolver.board.duplicate()
        } else {
            proof {
                lemma_extends_trans(minimal.grid(), after_min, solved_board.grid());
            }
            solved_board.duplicate()
        };
        let mut guesses: Vec<(CellLoc, ValueSet)> = Vec::new();
        if resolved_ok {
            let mut t: usize = 0;
            while t < resolver.move_log.len()
                invariant
                    resolver.log_ok(),
                    resolver.sbase() == n,
                    minimal.wf(),
                    minimal.spec_base() == n,
                    t <= resolver.move_log@.len(),
                decreases resolver.move_log@.len() - t,
            {
                proof {
                    assert(resolver.move_log@[t as int].entry_ok(n, resolver.initial@));
                }
                match &resolver.move_log[t] {
                    MoveLog::SetValue { strategy, cell, value, undo_candidates, .. } => {
                        if matches!(strategy, Strategy::Guess) {
                            let given = minimal.get(cell);
                            if given.is_none() {
                                if let Some(vs) = undo_candidates.alternative_options() {
                                    let mut options = vs.duplicate();
                                    options.remove(*value);
                                    guesses.push((*cell, options));
                                }
                            }
                        }
                    },
                }
                t = t + 1;
            }
        }
        proof {
            if resolved_ok {
                assert(grid_extends(minimal.grid(), solution.grid()));
            }
            let wj: int = if open_cell is Some {
                open_cell->0.spec_index()
            } else {
                0
            };
            assert(n == board_size.base());
            assert(0 <= wj < cell_count(board_size.base()) && minimal.grid()[wj] is None);
            assert(!grid_complete(minimal.grid()));
        }
        Puzzle { board: minimal, solution, guesses }
    }

    /// The minimized board generated.
    pub fn board(&self) -> (r: &Board)
        ensures
            r == &self.board,
    {
        &self.board
    }

    /// The solution for the generated board.
    pub fn solution(&self) -> (r: &Board)
        ensures
            r == &self.solution,
    {
        &self.solution
    }

    /// Checks that no recorded alternative guess value also solves the
    /// puzzle: a false answer witnesses a second solvable placement.  The
    /// check only probes alternatives that surfaced as guess points during
    /// one particular deterministic re-solve of the minimized board: it is an
    /// approximation, not an exhaustive uniqueness proof.
    pub fn is_solution_unique(&self) -> (r: bool)
        requires
            self.board.wf(),
        ensures
            !r ==> exists|t: int|
                #![trigger self.guesses@[t]]
                0 <= t < self.guesses@.len() && ({
                    let (c2, opts) = self.guesses@[t];
                    &&& 0 <= c2.spec_index() < cell_count(self.board.spec_base())
                    &&& exists|k: int|
                        0 <= k < opts.vseq().len() && placement_solvable(
                            self.board.grid(),
                            c2.spec_index(),
                            #[trigger] opts.vseq()[k],
                            self.board.spec_base(),
                        )
                }),
    {
        let mut t: usize = 0;
        while t < self.guesses.len()
            invariant
                self.board.wf(),
                t <= self.guesses@.len(),
            decreases self.guesses@.len() - t,
        {
            let (cell, options) = &self.guesses[t];
            let ok = cell.get_index() < self.board.cells.len() && cell.base_size
                == self.board.base_size;
            if ok {
                proof {
                    assert(self.board.on_board(self.guesses@[t as int].0));
                }
                if any_alternative_solves(&self.board, cell, options) {
                    proof {
                        assert(0 <= t < self.guesses@.len());
                    }
                    return false;
                }
            }
            t = t + 1;
        }
        true
    }
}

impl Board {
    /// Generates a new sudoku board with a claimed-unique solution: the
    /// minimized board of a freshly generated [`Puzzle`].
    pub fn generate(board_size: BoardSize) -> (r: Board)
        ensures
            r.wf(),
            r.spec_base() == board_size.base(),
    {
        let puzzle = Puzzle::generate(board_size);
        puzzle.board
    }
}

} // verus!
