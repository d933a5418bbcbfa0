use reversi::board::{Board, Color, Tile};
use reversi::position::Position;

#[test]
fn iter_all_positions_test() {
    let board = Board::new(3, 4);
    let mut iter = board.iter_all_positions().into_iter();
    assert_eq!(iter.next(), Some(Position{x: 0, y: 0}));
    assert_eq!(iter.next(), Some(Position{x: 1, y: 0}));
    assert_eq!(iter.next(), Some(Position{x: 2, y: 0}));
    assert_eq!(iter.next(), Some(Position{x: 0, y: 1}));
    assert_eq!(iter.next(), Some(Position{x: 1, y: 1}));
    assert_eq!(iter.next(), Some(Position{x: 2, y: 1}));
    assert_eq!(iter.next(), Some(Position{x: 0, y: 2}));
    assert_eq!(iter.next(), Some(Position{x: 1, y: 2}));
    assert_eq!(iter.next(), Some(Position{x: 2, y: 2}));
    assert_eq!(iter.next(), Some(Position{x: 0, y: 3}));
    assert_eq!(iter.next(), Some(Position{x: 1, y: 3}));
    assert_eq!(iter.next(), Some(Position{x: 2, y: 3}));
    assert_eq!(iter.next(), None);
}

#[test]
fn calculate_flip_positions_test() {
    let mut board = Board::new(4, 4);
    board.set(&Position{x: 0, y: 0}, &Color::Black);
    board.set(&Position{x: 0, y: 1}, &Color::White);
    board.set(&Position{x: 1, y: 0}, &Color::White);
    assert_eq!(board.calculate_flip_positions(&Position{x: 0, y: 2}, &Color::Black), vec![Position{x: 0, y: 1}]);
    assert_eq!(board.calculate_flip_positions(&Position{x: 1, y: 1}, &Color::Black), Vec::new());
}

#[test]
fn iteration_covers_each_cell_once_in_row_major_order() {
    let board = Board::new(5, 2);
    let positions = board.iter_all_positions();
    assert_eq!(positions.len(), 10);
    for (i, p) in positions.iter().enumerate() {
        assert_eq!(p.y * 5 + p.x, i);
        assert!(p.x < 5 && p.y < 2);
    }
    let empty = Board::new(0, 7);
    assert!(empty.iter_all_positions().is_empty());
}

#[test]
fn new_board_is_empty_and_set_unset_round_trip() {
    let mut board = Board::new(3, 3);
    for p in board.iter_all_positions() {
        assert_eq!(board.get(&p), Tile(None));
        assert!(!board.taken(&p));
    }
    let p = Position { x: 2, y: 1 };
    board.set(&p, &Color::White);
    assert_eq!(board.get(&p), Tile(Some(Color::White)));
    assert!(board.taken(&p));
    assert_eq!(board.get(&Position { x: 1, y: 2 }), Tile(None));
    board.set(&p, &Color::Black);
    assert_eq!(board.get(&p), Tile(Some(Color::Black)));
    board.unset(&p);
    assert_eq!(board.get(&p), Tile(None));
    assert!(!board.taken(&p));
}

#[test]
fn opposite_swaps_and_is_involutive() {
    assert_eq!(Color::White.opposite(), Color::Black);
    assert_eq!(Color::Black.opposite(), Color::White);
    assert_eq!(Color::White.opposite().opposite(), Color::White);
}

#[test]
fn flips_along_several_directions_in_direction_order() {
    // Black plays at (2,2) on a 5x5 board.
    let mut board = Board::new(5, 5);
    board.set(&Position { x: 2, y: 1 }, &Color::White);
    board.set(&Position { x: 2, y: 0 }, &Color::Black);
    board.set(&Position { x: 3, y: 2 }, &Color::White);
    board.set(&Position { x: 4, y: 2 }, &Color::Black);
    board.set(&Position { x: 1, y: 1 }, &Color::White);
    board.set(&Position { x: 0, y: 0 }, &Color::Black);
    board.set(&Position { x: 2, y: 3 }, &Color::White);
    board.set(&Position { x: 2, y: 4 }, &Color::White);
    assert_eq!(
        board.calculate_flip_positions(&Position { x: 2, y: 2 }, &Color::Black),
        vec![Position { x: 1, y: 1 }, Position { x: 2, y: 1 }, Position { x: 3, y: 2 }]
    );
}

#[test]
fn long_run_is_flipped_whole() {
    let mut board = Board::new(6, 1);
    board.set(&Position { x: 1, y: 0 }, &Color::White);
    board.set(&Position { x: 2, y: 0 }, &Color::White);
    board.set(&Position { x: 3, y: 0 }, &Color::White);
    board.set(&Position { x: 4, y: 0 }, &Color::Black);
    assert_eq!(
        board.calculate_flip_positions(&Position { x: 0, y: 0 }, &Color::Black),
        vec![Position { x: 1, y: 0 }, Position { x: 2, y: 0 }, Position { x: 3, y: 0 }]
    );
    // A run that meets the edge brackets nothing.
    assert_eq!(board.calculate_flip_positions(&Position { x: 0, y: 0 }, &Color::White), Vec::new());
    // An adjacent own tile brackets nothing.
    assert_eq!(board.calculate_flip_positions(&Position { x: 5, y: 0 }, &Color::Black), Vec::new());
}
