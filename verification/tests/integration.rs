use sudokugen::{Board, Puzzle};

fn assert_valid_solution(board: &Board) {
    let side = match board.board_size() {
        sudokugen::BoardSize::FourByFour => 4,
        sudokugen::BoardSize::NineByNine => 9,
        sudokugen::BoardSize::SixteenBySixteen => 16,
    };
    for l in 0..side {
        let mut seen = vec![false; side + 1];
        for c in 0..side {
            let v = board.get_at(l, c).expect("solved boards are complete") as usize;
            assert!(1 <= v && v <= side && !seen[v], "value repeated in a line");
            seen[v] = true;
        }
    }
    for c in 0..side {
        let mut seen = vec![false; side + 1];
        for l in 0..side {
            let v = board.get_at(l, c).unwrap() as usize;
            assert!(!seen[v], "value repeated in a column");
            seen[v] = true;
        }
    }
    let base = (side as f64).sqrt() as usize;
    for sq in 0..side {
        let mut seen = vec![false; side + 1];
        for k in 0..side {
            let l = (sq / base) * base + k / base;
            let c = (sq % base) * base + k % base;
            let v = board.get_at(l, c).unwrap() as usize;
            assert!(!seen[v], "value repeated in a square");
            seen[v] = true;
        }
    }
}

#[test]
fn solve_sudoku_simple() {
    let mut table: Board =
        "...4..87.4.3......2....3..9..62....7...9.6...3.9.8...........4.8725........72.6.."
            .parse()
            .unwrap();

    table.solve().unwrap();

    assert_eq!(
        table,
        "695412873413879526287653419146235987728946135359187264561398742872564391934721658"
            .parse()
            .unwrap()
    );
}

#[test]
fn solve_sudoku_with_backtrack() {
    let mut table: Board =
        ".724..3........49.........2921...5.7..4.6...3......2...4..7.....3..196....5..4.21"
            .parse()
            .unwrap();

    table.solve().unwrap();
    assert_eq!(
        table,
        "572491386318726495469583172921348567754962813683157249146275938237819654895634721"
            .parse()
            .unwrap()
    );
}

#[test]
fn test_solved() {
    let mut board: Board = "
    1 2 3 4 5 6 7 8 9
    4 5 6 7 8 9 1 2 3
    7 8 9 1 2 3 4 5 6
    2 3 4 5 6 7 8 9 1
    5 6 7 8 9 1 2 3 4
    8 9 1 2 3 4 5 6 7
    3 4 5 6 7 8 9 1 2
    6 7 8 9 1 2 3 4 5
    9 1 2 3 4 5 6 7 8
    "
    .parse()
    .unwrap();

    board.solve().unwrap();

    assert_eq!(
        board,
        "
    1 2 3 4 5 6 7 8 9
    4 5 6 7 8 9 1 2 3
    7 8 9 1 2 3 4 5 6
    2 3 4 5 6 7 8 9 1
    5 6 7 8 9 1 2 3 4
    8 9 1 2 3 4 5 6 7
    3 4 5 6 7 8 9 1 2
    6 7 8 9 1 2 3 4 5
    9 1 2 3 4 5 6 7 8
    "
        .parse()
        .unwrap()
    );
}

#[test]
fn generate_test() {
    let puzzle = Puzzle::generate(sudokugen::BoardSize::NineByNine);
    let board = puzzle.board();

    println!(
        "Final board ({})\n{}",
        board
            .iter_cells()
            .iter()
            .filter(|cell| board.get(cell).is_some())
            .count(),
        board.to_text(),
    );

    assert!(puzzle.is_solution_unique());
}

#[test]
fn solved_boards_satisfy_all_constraints() {
    let mut table: Board =
        "...4..87.4.3......2....3..9..62....7...9.6...3.9.8...........4.8725........72.6.."
            .parse()
            .unwrap();
    table.solve().unwrap();
    assert_valid_solution(&table);
}

#[test]
fn generated_puzzle_is_a_strict_subset_of_a_valid_solution() {
    let puzzle = Puzzle::generate(sudokugen::BoardSize::NineByNine);
    let board = puzzle.board();
    let solution = puzzle.solution();
    assert_valid_solution(solution);
    let mut givens = 0;
    for cell in board.iter_cells() {
        if let Some(v) = board.get(&cell) {
            assert_eq!(solution.get(&cell), Some(v));
            givens += 1;
        }
    }
    assert!(givens < 81, "a generated puzzle keeps some cells open");
}

#[test]
fn minimized_board_resolves_to_its_solution() {
    let puzzle = Puzzle::generate(sudokugen::BoardSize::NineByNine);
    let mut board = puzzle.board().clone();
    board.solve().unwrap();
    assert_eq!(&board, puzzle.solution());
}
