use calendar_puzzle::board::Board;
use calendar_puzzle::piece::{Piece, Placement, Rotation};

fn bar(symbol: char) -> Piece {
    Piece::new(
        symbol,
        vec![(0, 0), (1, 0), (2, 0), (3, 0), (4, 0)],
        (0, 0, 0),
        (0, 0, 0),
        false,
    )
}

fn solved_two_bar_board() -> Board {
    let mut board = Board::new(5, 2, '.');
    assert!(board.place_piece(&bar('A'), Placement::new(Rotation::Zero, false, (0, 0))));
    assert!(board.place_piece(&bar('B'), Placement::new(Rotation::Zero, false, (0, 1))));
    board
}

#[test]
fn test_collect_piece_coordinates() {
    let board = solved_two_bar_board();
    let map = board.collect_piece_coordinates();
    assert_eq!(map.len(), 2);
    assert_eq!(map[0].0, 'A');
    assert_eq!(map[0].1, vec![(0, 0), (1, 0), (2, 0), (3, 0), (4, 0)]);
    assert_eq!(map[1].0, 'B');
    assert_eq!(map[1].1, vec![(0, 1), (1, 1), (2, 1), (3, 1), (4, 1)]);
}

#[test]
fn test_collect_skips_markers_and_blanks() {
    let mut board = Board::new(2, 1, '.');
    let marker = Piece::new('m', vec![(0, 0)], (0, 0, 0), (0, 0, 0), false);
    assert!(board.place_piece(&marker, Placement::new(Rotation::Zero, false, (0, 0))));
    assert!(board.collect_piece_coordinates().is_empty());
}

#[test]
fn test_boundary_and_adjacency_scores() {
    let board = solved_two_bar_board();
    let map = board.collect_piece_coordinates();
    let boundary = board.build_boundary_adjacency(&map);
    // each bar touches the border with its two end cells twice and its
    // five cells once along the long edge
    assert_eq!(boundary, vec![('A', 7), ('B', 7)]);
    let adjacency = Board::build_piece_adjacency(&map);
    // the two bars touch in five cell pairs, recorded under both orders
    assert_eq!(adjacency, vec![(('A', 'B'), 5), (('B', 'A'), 5)]);
}

#[test]
fn test_create_hint_board_keeps_listed_pieces() {
    let board = solved_two_bar_board();
    let kept = board.create_hint_board(&vec!['B']);
    assert_eq!(kept.serialize(), ".....BBBBB".to_string());
    let none = board.create_hint_board(&vec![]);
    assert_eq!(none.serialize(), "..........".to_string());
    let both = board.create_hint_board(&vec!['A', 'B']);
    assert_eq!(both.serialize(), board.serialize());
}

#[test]
fn test_pick_subset_maximizes_combined_score() {
    let symbols = vec!['A', 'B', 'C'];
    let boundary = vec![('A', 1usize), ('B', 5), ('C', 2)];
    let adjacency: Vec<((char, char), usize)> = vec![(('A', 'C'), 9)];
    let best_one =
        Board::pick_subset_max_combined_adjacency(&symbols, &adjacency, &boundary, 1);
    assert_eq!(best_one, vec!['B']);
    // the pair score 9 outweighs the best boundary pair 5 + 2
    let best_two =
        Board::pick_subset_max_combined_adjacency(&symbols, &adjacency, &boundary, 2);
    assert_eq!(best_two, vec!['A', 'C']);
    // no subset of four symbols exists, so nothing can score above zero
    let none = Board::pick_subset_max_combined_adjacency(&symbols, &adjacency, &boundary, 4);
    assert!(none.is_empty());
}

#[test]
fn test_hint_pieces_keeps_requested_count() {
    let board = solved_two_bar_board();
    let one = board.hint_pieces(1);
    let serial = one.serialize();
    let pieces_left: usize = serial.chars().filter(|c| c.is_ascii_uppercase()).count();
    assert_eq!(pieces_left, 5);
    let two = board.hint_pieces(2);
    assert_eq!(two.serialize(), board.serialize());
}
