use std::collections::BTreeSet;

use calendar_puzzle::board::{dedup_boards, sort_boards_by_serial, Board};
use calendar_puzzle::calendar::{Day, Month, MonthDay, Weekday};
use calendar_puzzle::piece::{Piece, Placement, Rotation};
use calendar_puzzle::pieces::Pieces;

fn bar(symbol: char) -> Piece {
    Piece::new(
        symbol,
        vec![(0, 0), (1, 0), (2, 0), (3, 0), (4, 0)],
        (0, 0, 0),
        (0, 0, 0),
        false,
    )
}

fn prepared(board: &Board, mut pieces: Vec<Piece>) -> Vec<Piece> {
    for piece in &mut pieces {
        piece.precompute_allowed_placements(board);
    }
    pieces
}

/// Exhaustive reference search without the pocket-pruning rule.
fn brute_force(board: &Board, pieces: &[Piece], found: &mut BTreeSet<String>) {
    if pieces.is_empty() {
        found.insert(board.serialize());
        return;
    }
    let piece = &pieces[0];
    for rotation in [
        Rotation::Zero,
        Rotation::Ninety,
        Rotation::OneEighty,
        Rotation::TwoSeventy,
    ] {
        for flipped in [false, true] {
            if flipped && !piece.flippable {
                continue;
            }
            for y in 0..board.height {
                for x in 0..board.width {
                    let pl = Placement::new(rotation, flipped, (x as i32, y as i32));
                    if board.can_place_piece(piece, pl).is_ok() {
                        let mut next = board.duplicate();
                        next.place_piece(piece, pl);
                        brute_force(&next, &pieces[1..], found);
                    }
                }
            }
        }
    }
}

#[test]
fn test_find_all_two_bars_on_two_rows() {
    let board = Board::new(5, 2, '.');
    let pieces = prepared(&board, vec![bar('A'), bar('B')]);
    let solutions = board.find_boards_placing_all_pieces(&pieces, true);
    let serials: BTreeSet<String> = solutions.iter().map(|b| b.serialize()).collect();
    let expected: BTreeSet<String> = ["AAAAABBBBB".to_string(), "BBBBBAAAAA".to_string()]
        .into_iter()
        .collect();
    assert_eq!(serials, expected);
    assert_eq!(solutions.len(), 2);
}

#[test]
fn test_pruning_discards_no_solution() {
    // the pruned search must return exactly what an unpruned exhaustive
    // search finds
    let board = Board::new(5, 2, '.');
    let pieces = prepared(&board, vec![bar('A'), bar('B')]);
    let pruned: BTreeSet<String> = board
        .find_boards_placing_all_pieces(&pieces, true)
        .iter()
        .map(|b| b.serialize())
        .collect();
    let mut unpruned = BTreeSet::new();
    brute_force(&board, &pieces, &mut unpruned);
    assert_eq!(pruned, unpruned);
}

#[test]
fn test_placement_order_collapses_to_one_serialization() {
    let board = Board::new(5, 2, '.');
    let a = bar('A');
    let b = bar('B');
    let mut first_a = board.duplicate();
    assert!(first_a.place_piece(&a, Placement::new(Rotation::Zero, false, (0, 0))));
    assert!(first_a.place_piece(&b, Placement::new(Rotation::Zero, false, (0, 1))));
    let mut first_b = board.duplicate();
    assert!(first_b.place_piece(&b, Placement::new(Rotation::Zero, false, (0, 1))));
    assert!(first_b.place_piece(&a, Placement::new(Rotation::Zero, false, (0, 0))));
    assert_eq!(first_a.serialize(), first_b.serialize());

    // the same arrangement reached with either piece order is one solution
    let ab = prepared(&board, vec![bar('A'), bar('B')]);
    let ba = prepared(&board, vec![bar('B'), bar('A')]);
    let from_ab: BTreeSet<String> = board
        .find_boards_placing_all_pieces(&ab, true)
        .iter()
        .map(|b| b.serialize())
        .collect();
    let from_ba: BTreeSet<String> = board
        .find_boards_placing_all_pieces(&ba, true)
        .iter()
        .map(|b| b.serialize())
        .collect();
    assert_eq!(from_ab, from_ba);
}

#[test]
fn test_find_first_is_within_find_all() {
    let board = Board::new(5, 2, '.');
    let pieces = prepared(&board, vec![bar('A'), bar('B')]);
    let all: BTreeSet<String> = board
        .find_boards_placing_all_pieces(&pieces, true)
        .iter()
        .map(|b| b.serialize())
        .collect();
    let first = board.find_boards_placing_all_pieces(&pieces, false);
    assert_eq!(first.len(), 1);
    assert!(all.contains(&first[0].serialize()));
}

#[test]
fn test_find_first_empty_when_unsolvable() {
    // a 3-cell row cannot take a 5-cell bar
    let board = Board::new(3, 1, '.');
    let pieces = prepared(&board, vec![bar('A')]);
    let first = board.find_boards_placing_all_pieces(&pieces, false);
    assert!(first.is_empty());
    let all = board.find_boards_placing_all_pieces(&pieces, true);
    assert!(all.is_empty());
}

#[test]
fn test_symmetric_piece_duplicates_collapse() {
    // all four rotations of a square are geometrically identical, so the
    // enumerator lists duplicate placements, but only one board results
    let board = Board::new(2, 2, '.');
    let square = Piece::new(
        'S',
        vec![(0, 0), (1, 0), (0, 1), (1, 1)],
        (0, 0, 0),
        (0, 0, 0),
        false,
    );
    let pieces = prepared(&board, vec![square]);
    assert_eq!(pieces[0].get_allowed_placements().len(), 4);
    let solutions = board.find_boards_placing_all_pieces(&pieces, true);
    assert_eq!(solutions.len(), 1);
    assert_eq!(solutions[0].serialize(), "SSSS".to_string());
}

#[test]
fn test_dedup_boards_keeps_each_serialization_once() {
    let mut one = Board::new(2, 1, '.');
    let a = Piece::new('A', vec![(0, 0)], (0, 0, 0), (0, 0, 0), false);
    assert!(one.place_piece(&a, Placement::new(Rotation::Zero, false, (0, 0))));
    let same = one.duplicate();
    let other = Board::new(2, 1, '.');
    let deduped = dedup_boards(vec![one, same, other]);
    let serials: BTreeSet<String> = deduped.iter().map(|b| b.serialize()).collect();
    assert_eq!(deduped.len(), 2);
    assert!(serials.contains("A."));
    assert!(serials.contains(".."));
}

#[test]
fn test_sort_boards_by_serialization() {
    let board = Board::new(5, 2, '.');
    let pieces = prepared(&board, vec![bar('A'), bar('B')]);
    let solutions = board.find_boards_placing_all_pieces(&pieces, true);
    let sorted = sort_boards_by_serial(solutions);
    let serials: Vec<String> = sorted.iter().map(|b| b.serialize()).collect();
    assert_eq!(
        serials,
        vec!["AAAAABBBBB".to_string(), "BBBBBAAAAA".to_string()]
    );
}

#[test]
fn test_make_places_four_markers() {
    let day = Day::new(
        Month::June,
        MonthDay::new(10).unwrap(),
        Weekday::Friday,
    )
    .unwrap();
    let board = Board::make(&day);
    let serial = board.serialize();
    assert_eq!(serial.chars().count(), 54);
    assert_eq!(serial.chars().filter(|&c| c == 'm').count(), 1);
    assert_eq!(serial.chars().filter(|&c| c == 'd').count(), 1);
    assert_eq!(serial.chars().filter(|&c| c == 'w').count(), 1);
    assert_eq!(serial.chars().filter(|&c| c == 'x').count(), 1);
    assert_eq!(serial.chars().filter(|&c| c == '\u{b7}').count(), 50);
    // June 10th, Friday: month cell (0,2), day cell (1,2), weekday (7,3)
    let cells: Vec<char> = serial.chars().collect();
    assert_eq!(cells[2 * 9 + 0], 'm');
    assert_eq!(cells[2 * 9 + 1], 'd');
    assert_eq!(cells[3 * 9 + 7], 'w');
    assert_eq!(cells[5 * 9 + 8], 'x');
}

#[test]
fn test_full_calendar_board_has_a_tiling() {
    let day = Day::new(
        Month::June,
        MonthDay::new(10).unwrap(),
        Weekday::Friday,
    )
    .unwrap();
    let board = Board::make(&day);
    let pieces = Pieces::get_defaults_for_board(&board);
    let solutions = board.find_boards_placing_all_pieces(&pieces, false);
    assert_eq!(solutions.len(), 1);
    let serial = solutions[0].serialize();
    assert_eq!(serial.chars().count(), 54);
    // no blank cell is left
    assert_eq!(serial.chars().filter(|&c| c == '\u{b7}').count(), 0);
    // the four date markers and fifty piece cells
    assert_eq!(serial.chars().filter(|&c| c == 'm').count(), 1);
    assert_eq!(serial.chars().filter(|&c| c == 'd').count(), 1);
    assert_eq!(serial.chars().filter(|&c| c == 'w').count(), 1);
    assert_eq!(serial.chars().filter(|&c| c == 'x').count(), 1);
    for sym in ['F', 'T', 'U', 'Z', 'L', 'V', 'N', 'Y', 'P', 'I'] {
        assert_eq!(serial.chars().filter(|&c| c == sym).count(), 5);
    }
}
