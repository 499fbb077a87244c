use calendar_puzzle::board::{Board, PlacementError};
use calendar_puzzle::piece::{Piece, Placement, Rotation};
use calendar_puzzle::pieces::Pieces;

fn marker(symbol: char) -> Piece {
    Piece::new(symbol, vec![(0, 0)], (0, 0, 0), (0, 0, 0), false)
}

#[test]
fn test_new_board_is_blank() {
    let board = Board::new(3, 2, '.');
    assert_eq!(board.serialize(), "......".to_string());
}

#[test]
fn test_rotations_follow_quarter_turn_transform() {
    let piece = Piece::new('A', vec![(0, 0), (1, 0), (1, 2)], (0, 0, 0), (0, 0, 0), true);
    let mut cur: Vec<(i32, i32)> = vec![(0, 0), (1, 0), (1, 2)];
    for rotation in [
        Rotation::Zero,
        Rotation::Ninety,
        Rotation::OneEighty,
        Rotation::TwoSeventy,
    ] {
        assert_eq!(piece.get_shape(rotation, false), &cur);
        let mirrored: Vec<(i32, i32)> = cur.iter().map(|(x, y)| (-*x, *y)).collect();
        assert_eq!(piece.get_shape(rotation, true), &mirrored);
        cur = cur.iter().map(|(x, y)| (*y, -*x)).collect();
    }
    // four quarter turns return to the original shape
    assert_eq!(cur, vec![(0, 0), (1, 0), (1, 2)]);
}

#[test]
fn test_dimensions_of_shape() {
    let piece = Piece::new('A', vec![(0, 0), (1, 0), (1, 2)], (0, 0, 0), (0, 0, 0), false);
    assert_eq!(piece.get_dimensions_of_shape(Rotation::Zero, false), (2, 3));
}

#[test]
fn test_can_place_out_of_bounds_on_tiny_board() {
    // a 1 by 1 board rejects any piece with more than one cell
    let board = Board::new(1, 1, '.');
    let two = Piece::new('A', vec![(0, 0), (1, 0)], (0, 0, 0), (0, 0, 0), false);
    let verdict = board.can_place_piece(&two, Placement::new(Rotation::Zero, false, (0, 0)));
    assert_eq!(verdict, Err(PlacementError::OutOfBounds { x: 1, y: 0 }));
    let one = marker('B');
    assert!(board
        .can_place_piece(&one, Placement::new(Rotation::Zero, false, (0, 0)))
        .is_ok());
    let verdict = board.can_place_piece(&one, Placement::new(Rotation::Zero, false, (1, 0)));
    assert_eq!(verdict, Err(PlacementError::OutOfBounds { x: 1, y: 0 }));
}

#[test]
fn test_can_place_occupied() {
    let mut board = Board::new(2, 1, '.');
    let a = marker('A');
    assert!(board.place_piece(&a, Placement::new(Rotation::Zero, false, (0, 0))));
    let verdict = board.can_place_piece(&a, Placement::new(Rotation::Zero, false, (0, 0)));
    assert_eq!(verdict, Err(PlacementError::Occupied { x: 0, y: 0 }));
    assert_eq!(board.serialize(), "A.".to_string());
}

#[test]
fn test_place_piece_writes_symbol_cells() {
    let mut board = Board::new(3, 2, '.');
    let ell = Piece::new('L', vec![(0, 0), (1, 0), (2, 0), (0, 1)], (0, 0, 0), (0, 0, 0), false);
    assert!(board.place_piece(&ell, Placement::new(Rotation::Zero, false, (0, 0))));
    assert_eq!(board.serialize(), "LLLL..".to_string());
    // an illegal placement leaves the board unchanged
    assert!(!board.place_piece(&ell, Placement::new(Rotation::Zero, false, (0, 0))));
    assert_eq!(board.serialize(), "LLLL..".to_string());
}

#[test]
fn test_scan_blank_areas_sizes() {
    let mut board = Board::new(3, 1, '.');
    let a = marker('A');
    assert!(board.place_piece(&a, Placement::new(Rotation::Zero, false, (1, 0))));
    let mut sizes = board.scan_blank_areas();
    sizes.sort();
    assert_eq!(sizes, vec![1, 1]);

    let empty = Board::new(2, 3, '.');
    assert_eq!(empty.scan_blank_areas(), vec![6]);
}

#[test]
fn test_has_dead_end_blanks_not_divisible_by() {
    let board = Board::new(2, 3, '.');
    assert!(board.has_dead_end_blanks_not_divisible_by(5));
    assert!(!board.has_dead_end_blanks_not_divisible_by(3));
    assert!(!board.has_dead_end_blanks_not_divisible_by(2));

    let mut split = Board::new(3, 1, '.');
    let a = marker('A');
    assert!(split.place_piece(&a, Placement::new(Rotation::Zero, false, (1, 0))));
    // two regions of size one
    assert!(split.has_dead_end_blanks_not_divisible_by(5));
    assert!(!split.has_dead_end_blanks_not_divisible_by(1));
}

#[test]
fn test_precompute_allowed_placements_counts() {
    let board = Board::new(2, 2, '.');
    let mut one = marker('A');
    one.precompute_allowed_placements(&board);
    // four rotations of a single cell at each of the four anchors
    assert_eq!(one.get_allowed_placements().len(), 16);

    let mut square = Piece::new(
        'S',
        vec![(0, 0), (1, 0), (0, 1), (1, 1)],
        (0, 0, 0),
        (0, 0, 0),
        false,
    );
    square.precompute_allowed_placements(&board);
    // only the origin anchor fits, once per rotation
    assert_eq!(square.get_allowed_placements().len(), 4);
}

#[test]
fn test_serialize_uses_piece_identity_not_display() {
    let mut board = Board::new(2, 1, '.');
    let mut m = Pieces::get_month();
    m.display_as('*');
    assert!(board.place_piece(&m, Placement::new(Rotation::Zero, false, (1, 0))));
    assert_eq!(board.serialize(), ".m".to_string());
}

#[test]
fn test_by_symbol_catalogue() {
    let f = Pieces::by_symbol('F').unwrap();
    assert_eq!(f.symbol, 'F');
    assert!(f.flippable);
    let m = Pieces::by_symbol('m').unwrap();
    assert_eq!(m.symbol, 'm');
    assert!(!m.flippable);
    assert!(Pieces::by_symbol('?').is_none());
}

#[test]
fn test_duplicate_is_equal_copy() {
    let mut board = Board::new(2, 2, '.');
    let a = marker('A');
    assert!(board.place_piece(&a, Placement::new(Rotation::Zero, false, (1, 1))));
    let copy = board.duplicate();
    assert_eq!(copy.serialize(), board.serialize());
}

#[test]
fn test_can_place_is_stable_on_unchanged_board() {
    // a placement found legal stays legal while the board is unchanged
    let mut board = Board::new(3, 2, '.');
    let ell = Piece::new('L', vec![(0, 0), (1, 0), (2, 0), (0, 1)], (0, 0, 0), (0, 0, 0), false);
    let pl = Placement::new(Rotation::Zero, false, (0, 0));
    let first = board.can_place_piece(&ell, pl);
    let second = board.can_place_piece(&ell, pl);
    assert!(first.is_ok());
    assert_eq!(first, second);
    // once its cells are occupied, the same placement is illegal
    assert!(board.place_piece(&ell, pl));
    assert!(board.can_place_piece(&ell, pl).is_err());
}
