use reversi::board::{Color, Tile};
use reversi::game::ChangeSet;
use reversi::handler::{Request, Response};
use reversi::parser::ParsingError;
use reversi::position::Position;

#[test]
fn request_test_empty() {
    assert_eq!(Request::parse(""), Err(ParsingError::unrecognized_request_type("")));
}

#[test]
fn request_test_non_existent_type() {
    assert_eq!(Request::parse("NonExistent"), Err(ParsingError::unrecognized_request_type("NonExistent")));
    assert_eq!(Request::parse("StartIt"), Err(ParsingError::unrecognized_request_type("StartIt")));
}

#[test]
fn request_test_start_and_cancel() {
    assert_eq!(Request::parse("Start"), Ok(Request::Start));
    assert_eq!(Request::parse("Cancel"), Ok(Request::Cancel));
}

#[test]
fn request_test_do_turn() {
    assert_eq!(Request::parse("DoTurn;2,4"), Ok(Request::DoTurn(Position{x: 2, y: 4})));
}

#[test]
fn request_test_do_turn_no_position() {
    assert_eq!(Request::parse("DoTurn"), Err(ParsingError::missing("Request::DoTurn::Position", "DoTurn")));
}

#[test]
fn request_test_do_turn_position_no_y() {
    assert_eq!(Request::parse("DoTurn;2"), Err(ParsingError::missing("Position::y", "2")));
}

#[test]
fn request_test_do_turn_position_empty_x() {
    assert_eq!(Request::parse("DoTurn;,8"), Err(ParsingError::invalid_number("Position::x", "")));
}

#[test]
fn request_test_do_turn_position_empty_y() {
    assert_eq!(Request::parse("DoTurn;2,"), Err(ParsingError::invalid_number("Position::y", "")));
}

#[test]
fn request_test_do_turn_position_wrong_delimiter() {
    assert_eq!(Request::parse("DoTurn;2.4"), Err(ParsingError::invalid_number("Position::x", "2.4")));
}

#[test]
fn response_test_update_no_pairs() {
    let tiles: Vec<(Position, Tile)> = Vec::new();
    assert_eq!(Response::Update(ChangeSet{tiles: tiles, player: Color::Black}).stringify(), "Update;0.0.0,")
}

#[test]
fn response_test_update_one_pair() {
    let mut tiles: Vec<(Position, Tile)> = Vec::new();
    tiles.push((Position{x: 4, y: 5}, Tile(Some(Color::White))));
    assert_eq!(Response::Update(ChangeSet{tiles: tiles, player: Color::White}).stringify(), "Update;255.255.255,4.5:255.255.255")
}

#[test]
fn response_test_update_two_pairs() {
    let mut tiles: Vec<(Position, Tile)> = Vec::new();
    tiles.push((Position{x: 8, y: 5}, Tile(None)));
    tiles.push((Position{x: 4, y: 5}, Tile(Some(Color::White))));
    let actual = Response::Update(ChangeSet{tiles: tiles, player: Color::Black}).stringify();
    let expected1 = "Update;0.0.0,4.5:255.255.255|8.5:128.128.128";
    let expected2 = "Update;0.0.0,8.5:128.128.128|4.5:255.255.255";
    assert!(actual == expected1 || actual == expected2, "{} isn't equeal to {} nor {}", actual, expected1, expected2);
}

#[test]
fn response_test_error() {
    assert_eq!(Response::Error("Custom error message".to_string()).stringify(), "Error;Custom error message");
}

#[test]
fn request_fields_after_the_used_ones_are_ignored() {
    assert_eq!(Request::parse("Start;anything"), Ok(Request::Start));
    assert_eq!(Request::parse("DoTurn;3,7,9"), Ok(Request::DoTurn(Position { x: 3, y: 7 })));
    assert_eq!(Request::parse("DoTurn;3,7;more"), Ok(Request::DoTurn(Position { x: 3, y: 7 })));
}

#[test]
fn request_numbers_follow_decimal_usize_syntax() {
    assert_eq!(Request::parse("DoTurn;+3,007"), Ok(Request::DoTurn(Position { x: 3, y: 7 })));
    assert_eq!(Request::parse("DoTurn;+,1"), Err(ParsingError::invalid_number("Position::x", "+")));
    assert_eq!(Request::parse("DoTurn;-1,1"), Err(ParsingError::invalid_number("Position::x", "-1")));
    assert_eq!(Request::parse("DoTurn;1, 2"), Err(ParsingError::invalid_number("Position::y", " 2")));
    assert_eq!(Request::parse("DoTurn;1,é"), Err(ParsingError::invalid_number("Position::y", "é")));
    let max = format!("DoTurn;{},0", usize::MAX);
    assert_eq!(Request::parse(&max), Ok(Request::DoTurn(Position { x: usize::MAX, y: 0 })));
    assert_eq!(
        Request::parse("DoTurn;1,18446744073709551616"),
        Err(ParsingError::invalid_number("Position::y", "18446744073709551616"))
    );
}

#[test]
fn parsing_error_description() {
    assert_eq!(
        ParsingError::unrecognized_request_type("Foo").describe(),
        "ParsingError! Could not parse \"Foo\". Could not recognize request type."
    );
    assert_eq!(
        ParsingError::invalid_number("Position::x", "q").describe(),
        "ParsingError! Could not parse \"q\". Could not be parsed into a number (Position::x)."
    );
    assert_eq!(
        ParsingError::missing("Position::y", "2").describe(),
        "ParsingError! Could not parse \"2\". Could not find Position::y."
    );
}

#[test]
fn response_numbers_are_written_in_decimal() {
    let tiles = vec![
        (Position { x: 10, y: 0 }, Tile(Some(Color::Black))),
        (Position { x: 123, y: 9 }, Tile(None)),
        (Position { x: 7, y: 4560 }, Tile(Some(Color::White))),
    ];
    assert_eq!(
        Response::Update(ChangeSet { tiles, player: Color::White }).stringify(),
        "Update;255.255.255,10.0:0.0.0|123.9:128.128.128|7.4560:255.255.255"
    );
}
