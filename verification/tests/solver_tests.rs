use std::collections::HashSet;

use sudokugen::solver::{Strategy, SudokuSolver, UnsolvableError};
use sudokugen::Board;

#[test]
fn solver_naked_singles() {
    let board: Board = "
    12345678.
    2........
    3........
    4........
    5........
    6........
    7.....246
    8.....975
    ......13.
    "
    .parse()
    .unwrap();

    let solver = SudokuSolver::new(&board);

    let ns: HashSet<_> = solver.naked_singles().into_iter().collect();
    let res: HashSet<_> = vec![
        (solver.board.cell_at(0, 8), 9),
        (solver.board.cell_at(8, 0), 9),
        (solver.board.cell_at(8, 8), 8),
    ]
    .into_iter()
    .collect();

    assert_eq!(ns, res);
}

#[test]
fn solver_hidden_singles() {
    let board: Board = "
    ...45.78.
    9........
    .........
    .........
    .........
    .........
    .........
    .........
    .....9...
    "
    .parse()
    .unwrap();

    let solver = SudokuSolver::new(&board);

    assert_eq!(
        solver.hidden_singles().into_iter().collect::<HashSet<_>>(),
        vec![(solver.board.cell_at(0, 8), 9)]
            .into_iter()
            .collect::<HashSet<_>>()
    );
}

#[test]
fn solver_hidden_singles_after_backtrack() {
    let board: Board = "
    ....
    3...
    ....
    ....
    "
    .parse()
    .unwrap();
    let mut solver = SudokuSolver::new(&board);

    let cell = solver.board.cell_at(3, 3);
    solver.register_move(Strategy::Guess, &cell, 3).unwrap();

    assert_eq!(
        solver.hidden_singles().into_iter().collect::<HashSet<_>>(),
        vec![
            (solver.board.cell_at(0, 2), 3),
            (solver.board.cell_at(2, 1), 3)
        ]
        .into_iter()
        .collect::<HashSet<_>>()
    );

    solver.backtrack().unwrap();

    assert!(solver.hidden_singles().is_empty());
}

#[test]
fn solver_register_move_results_in_error() {
    let board: Board = "
        12..
        3...
        ....
        ....
    "
    .parse()
    .unwrap();

    let mut solver = SudokuSolver::new(&board);

    let cell = solver.board.cell_at(2, 1);
    assert_eq!(
        // setting a 4 on this cell removes all possible values at (1, 1)
        solver.register_move(Strategy::Guess, &cell, 4).unwrap_err(),
        UnsolvableError
    );
}

#[test]
fn mod_naked_singles() {
    let board: Board = "
    12345678.
    2........
    3........
    4........
    5........
    6........
    7.....246
    8.....975
    ......13.
    "
    .parse()
    .unwrap();

    let solver = SudokuSolver::new(&board);

    let ns: HashSet<_> = solver.naked_singles().into_iter().collect();
    let res: HashSet<_> = vec![
        (solver.board.cell_at(0, 8), 9),
        (solver.board.cell_at(8, 0), 9),
        (solver.board.cell_at(8, 8), 8),
    ]
    .into_iter()
    .collect();

    assert_eq!(ns, res);
}

#[test]
fn mod_hidden_singles() {
    let board: Board = "
    ...45.78.
    9........
    .........
    .........
    .........
    .........
    .........
    .........
    .....9...
    "
    .parse()
    .unwrap();

    let solver = SudokuSolver::new(&board);

    assert_eq!(
        solver.hidden_singles().into_iter().collect::<HashSet<_>>(),
        vec![(solver.board.cell_at(0, 8), 9)]
            .into_iter()
            .collect::<HashSet<_>>()
    );
}

#[test]
fn mod_hidden_singles_after_backtrack() {
    let board: Board = "
    ....
    3...
    ....
    ....
    "
    .parse()
    .unwrap();
    let mut solver = SudokuSolver::new(&board);

    let cell = solver.board.cell_at(3, 3);
    solver.register_move(Strategy::Guess, &cell, 3).unwrap();

    assert_eq!(
        solver.hidden_singles().into_iter().collect::<HashSet<_>>(),
        vec![
            (solver.board.cell_at(0, 2), 3),
            (solver.board.cell_at(2, 1), 3)
        ]
        .into_iter()
        .collect::<HashSet<_>>()
    );

    solver.backtrack().unwrap();

    assert!(solver.hidden_singles().is_empty());
}

#[test]
fn mod_register_move_results_in_error() {
    let board: Board = "
        12..
        3...
        ....
        ....
    "
    .parse()
    .unwrap();

    let mut solver = SudokuSolver::new(&board);

    let cell = solver.board.cell_at(2, 1);
    assert_eq!(
        solver.register_move(Strategy::Guess, &cell, 4).unwrap_err(),
        UnsolvableError
    );
}

#[test]
fn solving_is_deterministic() {
    let text = ".724..3........49.........2921...5.7..4.6...3......2...4..7.....3..196....5..4.21";
    let mut first: Board = text.parse().unwrap();
    let mut second: Board = text.parse().unwrap();
    first.solve().unwrap();
    second.solve().unwrap();
    assert_eq!(first, second);
}

#[test]
fn duplicate_values_in_a_line_are_unsolvable() {
    let board: Board =
        "123123..........................................................................."
            .parse()
            .unwrap();
    let mut board = board;
    assert!(board.solve().is_err());
}

#[test]
fn unsolvable_board_is_left_unchanged() {
    let text = "123123...........................................................................";
    let mut board: Board = text.parse().unwrap();
    let original: Board = text.parse().unwrap();
    assert!(board.solve().is_err());
    assert_eq!(board, original);
}

#[test]
fn small_board_solves() {
    let mut board: Board = "1234........3...".parse().unwrap();
    board.solve().unwrap();
    for l in 0..4 {
        for c in 0..4 {
            assert!(board.get_at(l, c).is_some());
        }
    }
}
