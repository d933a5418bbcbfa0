use reversi::position::{Direction, Position, Size};

#[test]
fn position_add_test() {
    assert_eq!(Position{x: 1, y: 1}.advance(&Direction::Left, &Size{width: 6, height: 6}), Some(Position{x: 0, y: 1}));
    assert_eq!(Position{x: 1, y: 5}.advance(&Direction::UpLeft, &Size{width: 6, height: 6}), Some(Position{x: 0, y: 4}));
    assert_eq!(Position{x: 2, y: 1}.advance(&Direction::DownLeft, &Size{width: 6, height: 6}), Some(Position{x: 1, y: 2}));
    assert_eq!(Position{x: 1, y: 1}.advance(&Direction::UpRight, &Size{width: 6, height: 6}), Some(Position{x: 2, y: 0}));
    assert_eq!(Position{x: 1, y: 0}.advance(&Direction::Left, &Size{width: 6, height: 6}), Some(Position{x: 0, y: 0}));
    assert_eq!(Position{x: 0, y: 1}.advance(&Direction::Up, &Size{width: 6, height: 6}), Some(Position{x: 0, y: 0}));
}

#[test]
fn position_add_test_underflow() {
    assert_eq!(Position{x: 0, y: 1}.advance(&Direction::Left, &Size{width: 4, height: 6}), None);
    assert_eq!(Position{x: 0, y: 0}.advance(&Direction::DownLeft, &Size{width: 4, height: 6}), None);
    assert_eq!(Position{x: 1, y: 0}.advance(&Direction::UpRight, &Size{width: 4, height: 6}), None);
    assert_eq!(Position{x: 0, y: 1}.advance(&Direction::DownLeft, &Size{width: 4, height: 6}), None);
    assert_eq!(Position{x: 0, y: 0}.advance(&Direction::UpLeft, &Size{width: 4, height: 6}), None);
}

#[test]
fn position_add_test_overflow() {
    assert_eq!(Position{x: 3, y: 1}.advance(&Direction::Right, &Size{width: 4, height: 6}), None);
    assert_eq!(Position{x: 3, y: 5}.advance(&Direction::Down, &Size{width: 4, height: 6}), None);
    assert_eq!(Position{x: 0, y: 3}.advance(&Direction::DownLeft, &Size{width: 4, height: 4}), None);
}

#[test]
fn advance_reaches_every_neighbour_of_an_inner_cell() {
    let size = Size { width: 3, height: 3 };
    let centre = Position { x: 1, y: 1 };
    let reached: Vec<Position> = Direction::iter_all()
        .iter()
        .map(|d| centre.advance(d, &size).unwrap())
        .collect();
    assert_eq!(
        reached,
        vec![
            Position { x: 0, y: 0 },
            Position { x: 1, y: 0 },
            Position { x: 2, y: 0 },
            Position { x: 2, y: 1 },
            Position { x: 2, y: 2 },
            Position { x: 1, y: 2 },
            Position { x: 0, y: 2 },
            Position { x: 0, y: 1 },
        ]
    );
}

#[test]
fn advance_on_a_single_cell_board_goes_nowhere() {
    let size = Size { width: 1, height: 1 };
    for d in Direction::iter_all().iter() {
        assert_eq!(Position { x: 0, y: 0 }.advance(d, &size), None);
    }
}

#[test]
fn advance_at_the_largest_coordinate_does_not_overflow() {
    let size = Size { width: usize::MAX, height: usize::MAX };
    let corner = Position { x: usize::MAX - 1, y: usize::MAX - 1 };
    assert_eq!(corner.advance(&Direction::DownRight, &size), None);
    assert_eq!(corner.advance(&Direction::UpLeft, &size), Some(Position { x: usize::MAX - 2, y: usize::MAX - 2 }));
}

#[test]
fn all_directions_in_fixed_order() {
    assert_eq!(
        Direction::iter_all(),
        vec![
            Direction::UpLeft,
            Direction::Up,
            Direction::UpRight,
            Direction::Right,
            Direction::DownRight,
            Direction::Down,
            Direction::DownLeft,
            Direction::Left,
        ]
    );
}
