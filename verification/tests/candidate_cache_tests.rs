use std::collections::BTreeSet;

use sudokugen::board::CellLoc;
use sudokugen::candidate_cache::Block::{Col, Line, Square};
use sudokugen::candidate_cache::CandidateCache;
use sudokugen::sets::{CellSet, ValueSet};
use sudokugen::{Board, BoardSize};

fn candidate_cache_from_board(board: &Board) -> CandidateCache {
    CandidateCache::from_board(board)
}

fn candidate_cache_from_board_str(board_str: &str) -> CandidateCache {
    candidate_cache_from_board(&board_str.parse().unwrap())
}

fn cell_set(cells: Vec<CellLoc>) -> CellSet {
    let mut set = CellSet::new();
    for cell in cells {
        set.insert(cell);
    }
    set
}

#[test]
fn test_iter_candidates() {
    let cc = candidate_cache_from_board(&Board::new(BoardSize::NineByNine));

    assert_eq!(cc.iter_candidates().len(), 81 * 3);
    assert_eq!(
        cc.iter_candidates()
            .iter()
            .map(|candidate| candidate.value)
            .collect::<BTreeSet<u8>>(),
        (1..=9).collect()
    );
}

#[test]
fn possible_values_after_parse() {
    let board: Board =
        "...4..87.4.3......2....3..9..62....7...9.6...3.9.8...........4.8725........72.6.."
            .parse()
            .unwrap();
    let cc = candidate_cache_from_board(&board);
    for cell in board.iter_cells() {
        if board.get(&cell).is_some() {
            assert!(cc.possible_values().get(&cell).is_none());
        }
    }
}

#[test]
fn possible_locs_after_parse() {
    let cc = candidate_cache_from_board_str(
        "
    1234567..
    456......
    78.......
    2........
    3........
    5........
    6........
    .........
    .........
    ",
    );

    assert_eq!(
        cc.candidates_at(&Line(0), &9),
        Some(&cell_set(vec![
            CellLoc::at(0, 7, BoardSize::NineByNine),
            CellLoc::at(0, 8, BoardSize::NineByNine),
        ]))
    );

    assert_eq!(
        cc.candidates_at(&Col(0), &9),
        Some(&cell_set(vec![
            CellLoc::at(7, 0, BoardSize::NineByNine),
            CellLoc::at(8, 0, BoardSize::NineByNine),
        ]))
    );

    assert_eq!(
        cc.candidates_at(&Square(0), &9),
        Some(&cell_set(vec![CellLoc::at(2, 2, BoardSize::NineByNine)]))
    );
}

#[test]
fn set_value_updates_possible_values() {
    let board: Board = "
    12..
    ....
    ....
    ....
    "
    .parse()
    .unwrap();

    let mut cc = candidate_cache_from_board(&board);

    cc.set_value(3, CellLoc::at(1, 0, BoardSize::FourByFour))
        .unwrap();

    assert_eq!(
        cc.possible_values().get(&board.cell_at(1, 1)),
        Some(&ValueSet::from_vec(vec![4u8]))
    );
}

#[test]
fn set_value_updates_possible_loc() {
    let board: Board = "
    12..
    ....
    ....
    ....
    "
    .parse()
    .unwrap();

    let mut cc = candidate_cache_from_board(&board);

    cc.set_value(3, board.cell_at(3, 0)).unwrap();

    // square already contains 3 therefore it's removed from possible locations
    assert_eq!(cc.candidates_at(&Square(2), &3), None);

    // line already contains 3 therefore it's removed from possible locations
    assert_eq!(cc.candidates_at(&Line(3), &3), None);

    // column already contains 3 therefore it's removed from possible locations
    assert_eq!(cc.candidates_at(&Col(0), &3), None);

    // setting the 3 above removes the other possible location for a 3 in square 0
    assert_eq!(
        cc.candidates_at(&Square(0), &3),
        Some(&cell_set(vec![board.cell_at(1, 1)])),
    );

    // setting a cell removes it as a possibility to all other values in its blocks
    assert!(!cc
        .candidates_at(&Square(2), &4)
        .unwrap()
        .contains(&board.cell_at(3, 0)));
}

#[test]
fn test_set_value_removes_cell_as_candidate_for_other_values() {
    let board: Board = "
    ....
    ....
    ....
    ....
    "
    .parse()
    .unwrap();

    let mut cc = candidate_cache_from_board(&board);

    assert!(cc
        .candidates_at(&Line(0), &1)
        .unwrap()
        .contains(&board.cell_at(0, 0)));

    cc.set_value(2, board.cell_at(0, 0)).unwrap();

    assert!(!cc
        .candidates_at(&Line(0), &1)
        .unwrap()
        .contains(&board.cell_at(0, 0)));
}

#[test]
fn test_undo() {
    let board: Board = "
    ....
    ....
    ....
    ....
    "
    .parse()
    .unwrap();

    let cc = candidate_cache_from_board(&board);
    let mut cc_clone = cc.clone();

    let undo = cc_clone.set_value(2, board.cell_at(3, 2)).unwrap();
    cc_clone.undo(undo);

    assert_eq!(cc, cc_clone);
}

#[test]
fn set_value_contradiction_rolls_back() {
    let board: Board = "
    12..
    3...
    ....
    ....
    "
    .parse()
    .unwrap();

    let cc = candidate_cache_from_board(&board);
    let mut cc_probe = cc.clone();
    // setting a 4 at (2, 1) removes all possible values at (1, 1)
    assert!(cc_probe.set_value(4, board.cell_at(2, 1)).is_err());
    assert_eq!(cc, cc_probe);
}

#[test]
fn consistency_between_both_indexes() {
    let cc = candidate_cache_from_board_str(
        "
    12..
    3...
    ....
    ....
    ",
    );
    for entry in cc.iter_candidates() {
        for k in 0..entry.cells.len() {
            let cell = entry.cells.get(k);
            let values = cc.possible_values().get(&cell).unwrap();
            assert!(values.contains(entry.value));
        }
    }
}

#[test]
fn per_cell_index_rebuilt_from_buckets() {
    let board: Board = "
    12..
    3...
    ....
    ....
    "
    .parse()
    .unwrap();
    let cc = candidate_cache_from_board(&board);
    let rebuilt = cc.possible_values_from_candidates();
    for cell in board.iter_cells() {
        assert_eq!(rebuilt.get(&cell), cc.possible_values().get(&cell));
    }
}
