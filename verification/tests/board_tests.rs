use sudokugen::board::CellLoc;
use sudokugen::sets::ValueSet;
use sudokugen::{Board, BoardSize};

#[test]
fn basics() {
    let table = Board::new(BoardSize::FourByFour);

    assert!(table.iter_cells().iter().all(|cell| table.get(cell).is_none()));
}

#[test]
fn set_value() {
    let mut table = Board::new(BoardSize::NineByNine);
    assert_eq!(table.get_at(0, 0), None);
    table.set(&CellLoc::new(0, BoardSize::NineByNine), 3);
    assert_eq!(table.get_at(0, 0), Some(3));
}

#[test]
fn square() {
    assert_eq!(CellLoc::at(0, 0, BoardSize::NineByNine).square(), 0);
    assert_eq!(CellLoc::at(0, 3, BoardSize::NineByNine).square(), 1);
    assert_eq!(CellLoc::at(3, 0, BoardSize::NineByNine).square(), 3);
}

#[test]
fn iter_cells() {
    let table = Board::new(BoardSize::NineByNine);
    assert_eq!(
        table
            .iter_cells()
            .iter()
            .map(|cell| cell.get_index())
            .collect::<Vec<usize>>(),
        (0..81).collect::<Vec<usize>>()
    )
}

#[test]
fn iter_square() {
    let cell0 = CellLoc {
        idx: 0,
        base_size: 3,
    };

    assert_eq!(
        cell0
            .iter_square()
            .iter()
            .map(|cell| cell.get_index())
            .collect::<Vec<usize>>(),
        &[0, 1, 2, 9, 10, 11, 18, 19, 20]
    )
}

#[test]
fn possible_values_is_zero() {
    let mut table = Board::new(BoardSize::NineByNine);
    table.set_at(0, 0, 1);

    let mut iter = table.iter_cells().into_iter();
    let cell = iter.next().expect("table should have 81 cells");

    assert_eq!(cell.get_index(), 0);
    assert!(cell.get_possible_values(&table).is_none())
}

#[test]
fn possible_values() {
    let mut table = Board::new(BoardSize::NineByNine);
    table.set_at(0, 1, 2);
    table.set_at(0, 2, 3);
    table.set_at(1, 0, 4);
    table.set_at(2, 2, 5);

    let mut iter = table.iter_cells().into_iter();
    let cell = iter.next().expect("table should have 81 cells");

    assert_eq!(
        cell.get_possible_values(&table),
        Some(ValueSet::from_vec(vec![1u8, 6, 7, 8, 9]))
    )
}

#[test]
fn from() {
    let table: Board = "................".parse().unwrap();
    println!("{}", table.to_text());
    assert_eq!(table, Board::new(BoardSize::FourByFour));
}

#[test]
fn parse_rejects_bad_characters() {
    assert!("x...............".parse::<Board>().is_err());
}

#[test]
fn parse_rejects_bad_length() {
    assert!("12345".parse::<Board>().is_err());
    assert!("".parse::<Board>().is_err());
}

#[test]
fn parse_rejects_digit_out_of_range() {
    assert!("9...............".parse::<Board>().is_err());
}

#[test]
fn parse_ignores_formatting() {
    let plain: Board = "1234............".parse().unwrap();
    let formatted: Board = "
    1 2 | 3 4
    . . | . .
    ---------
    . . | . .
    . . | . .
    "
    .parse()
    .unwrap();
    assert_eq!(plain, formatted);
}

#[test]
fn rotated_moves_cells() {
    let board: Board = "
    1 2 | . .
    3 4 | . .
    ---------
    . . | . .
    . . | . .
    "
    .parse()
    .unwrap();

    let rotated_board: Board = "
    . . | 3 1
    . . | 4 2
    ---------
    . . | . .
    . . | . .
    "
    .parse()
    .unwrap();

    assert_eq!(board.rotated(), rotated_board);
}

#[test]
fn possible_values_uses_all_blocks() {
    let board: Board = "
    1 . | . .
    . . | . .
    ---------
    . 2 | . .
    . . | . .
    "
    .parse()
    .unwrap();
    let cell = CellLoc::at(0, 1, BoardSize::FourByFour);
    assert_eq!(
        cell.get_possible_values(&board),
        Some(ValueSet::from_vec(vec![3, 4]))
    );
}
