use reversi::board::{Color, Tile};
use reversi::game::{ChangeSet, Game};
use reversi::position::Position;

fn tile_at(cs: &ChangeSet, x: usize, y: usize) -> Tile {
    cs.tiles.iter().find(|(p, _)| *p == Position { x, y }).unwrap().1
}

fn snapshot(game: &Game) -> (Vec<(Position, Tile)>, Color) {
    let s = game.summary();
    (s.tiles, s.player)
}

#[test]
fn opening_position() {
    let mut game = Game::new();
    let s = game.start();
    assert_eq!(s.player, Color::Black);
    assert_eq!(s.tiles.len(), 100);
    assert_eq!(tile_at(&s, 4, 4), Tile(Some(Color::White)));
    assert_eq!(tile_at(&s, 4, 5), Tile(Some(Color::Black)));
    assert_eq!(tile_at(&s, 5, 4), Tile(Some(Color::Black)));
    assert_eq!(tile_at(&s, 5, 5), Tile(Some(Color::White)));
    let occupied = s.tiles.iter().filter(|(_, t)| *t != Tile(None)).count();
    assert_eq!(occupied, 4);
    for (i, (p, _)) in s.tiles.iter().enumerate() {
        assert_eq!(p.y * 10 + p.x, i);
    }
}

#[test]
fn start_discards_history() {
    let mut game = Game::new();
    game.start();
    assert!(game.do_turn(Position { x: 4, y: 3 }).is_ok());
    let s = game.start();
    assert_eq!(s.player, Color::Black);
    assert_eq!(tile_at(&s, 4, 3), Tile(None));
    assert_eq!(game.cancel().err(), Some("No more moves to cancel".to_string()));
}

#[test]
fn legal_turn_reports_written_tiles_and_next_player() {
    let mut game = Game::new();
    let r = game.do_turn(Position { x: 4, y: 3 }).unwrap();
    assert_eq!(r.player, Color::White);
    assert_eq!(
        r.tiles,
        vec![
            (Position { x: 4, y: 4 }, Tile(Some(Color::Black))),
            (Position { x: 4, y: 3 }, Tile(Some(Color::Black))),
        ]
    );
    let s = game.summary();
    assert_eq!(s.player, Color::White);
    assert_eq!(tile_at(&s, 4, 4), Tile(Some(Color::Black)));
    assert_eq!(tile_at(&s, 4, 3), Tile(Some(Color::Black)));
}

#[test]
fn cancel_returns_the_undo_entry() {
    let mut game = Game::new();
    game.do_turn(Position { x: 4, y: 3 }).unwrap();
    let undo = game.cancel().unwrap();
    assert_eq!(undo.player, Color::Black);
    assert_eq!(
        undo.tiles,
        vec![
            (Position { x: 4, y: 4 }, Tile(Some(Color::White))),
            (Position { x: 4, y: 3 }, Tile(None)),
        ]
    );
}

#[test]
fn undoing_every_turn_restores_the_start() {
    let mut game = Game::new();
    let before = snapshot(&game);
    let moves = [
        Position { x: 4, y: 3 },
        Position { x: 3, y: 3 },
        Position { x: 2, y: 3 },
        Position { x: 4, y: 6 },
    ];
    let mut states = vec![before.clone()];
    for m in moves.iter() {
        assert!(game.do_turn(*m).is_ok());
        states.push(snapshot(&game));
    }
    for k in (0..moves.len()).rev() {
        assert!(game.cancel().is_ok());
        assert_eq!(snapshot(&game), states[k]);
    }
    assert_eq!(snapshot(&game), before);
    assert_eq!(game.cancel().err(), Some("No more moves to cancel".to_string()));
}

#[test]
fn occupied_position_is_rejected_the_same_way_twice() {
    let mut game = Game::new();
    let before = snapshot(&game);
    let first = game.do_turn(Position { x: 4, y: 4 });
    let second = game.do_turn(Position { x: 4, y: 4 });
    assert_eq!(first.err(), Some("Position already taken".to_string()));
    assert_eq!(second.err(), Some("Position already taken".to_string()));
    assert_eq!(snapshot(&game), before);
}

#[test]
fn turn_without_flips_is_rejected() {
    let mut game = Game::new();
    let before = snapshot(&game);
    assert_eq!(
        game.do_turn(Position { x: 0, y: 0 }).err(),
        Some("You must flip at least one tile".to_string())
    );
    // Adjacent to an opponent tile, but with nothing of the mover's behind it.
    assert_eq!(
        game.do_turn(Position { x: 3, y: 3 }).err(),
        Some("You must flip at least one tile".to_string())
    );
    assert_eq!(snapshot(&game), before);
}

#[test]
fn turn_flips_only_bracketed_tiles() {
    let mut game = Game::new();
    let before = snapshot(&game);
    game.do_turn(Position { x: 4, y: 3 }).unwrap();
    let after = snapshot(&game);
    let changed: Vec<Position> = before
        .0
        .iter()
        .zip(after.0.iter())
        .filter(|(a, b)| a.1 != b.1)
        .map(|(a, _)| a.0)
        .collect();
    assert_eq!(changed, vec![Position { x: 4, y: 3 }, Position { x: 4, y: 4 }]);
}
