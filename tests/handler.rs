use reversi::handler::Handler;

#[test]
fn requests_before_start_need_a_game() {
    let mut h = Handler::new();
    assert_eq!(h.handle_raw("DoTurn;4,3".to_string()), "Error;No game is running");
    assert_eq!(h.handle_raw("Cancel".to_string()), "Error;No game is running");
}

#[test]
fn start_reports_the_whole_board() {
    let mut h = Handler::new();
    let r = h.handle_raw("Start".to_string());
    assert!(r.starts_with("Update;0.0.0,0.0:128.128.128|1.0:128.128.128|"));
    assert!(r.contains("|4.4:255.255.255|5.4:0.0.0|"));
    assert!(r.contains("|4.5:0.0.0|5.5:255.255.255|"));
    assert!(r.ends_with("|9.9:128.128.128"));
    assert_eq!(r.matches('|').count(), 99);
}

#[test]
fn a_session_plays_and_undoes() {
    let mut h = Handler::new();
    h.handle_raw("Start".to_string());
    assert_eq!(h.handle_raw("DoTurn;4,3".to_string()), "Update;255.255.255,4.4:0.0.0|4.3:0.0.0");
    assert_eq!(h.handle_raw("DoTurn;4,3".to_string()), "Error;Position already taken");
    assert_eq!(h.handle_raw("DoTurn;0,0".to_string()), "Error;You must flip at least one tile");
    assert_eq!(h.handle_raw("Cancel".to_string()), "Update;0.0.0,4.4:255.255.255|4.3:128.128.128");
    assert_eq!(h.handle_raw("Cancel".to_string()), "Error;No more moves to cancel");
}

#[test]
fn malformed_requests_are_answered_with_the_parsing_error() {
    let mut h = Handler::new();
    assert_eq!(
        h.handle_raw("Jump".to_string()),
        "Error;ParsingError! Could not parse \"Jump\". Could not recognize request type."
    );
    h.handle_raw("Start".to_string());
    assert_eq!(
        h.handle_raw("DoTurn;2".to_string()),
        "Error;ParsingError! Could not parse \"2\". Could not find Position::y."
    );
    assert_eq!(
        h.handle_raw("DoTurn;,8".to_string()),
        "Error;ParsingError! Could not parse \"\". Could not be parsed into a number (Position::x)."
    );
    // The game is untouched by the bad requests.
    assert_eq!(h.handle_raw("DoTurn;4,3".to_string()), "Update;255.255.255,4.4:0.0.0|4.3:0.0.0");
}

#[test]
fn turns_off_the_board_are_rejected() {
    let mut h = Handler::new();
    h.handle_raw("Start".to_string());
    assert_eq!(h.handle_raw("DoTurn;10,3".to_string()), "Error;Position is outside the board");
    assert_eq!(h.handle_raw("DoTurn;3,10".to_string()), "Error;Position is outside the board");
    assert_eq!(h.handle_raw("DoTurn;4,3".to_string()), "Update;255.255.255,4.4:0.0.0|4.3:0.0.0");
}

#[test]
fn start_again_begins_a_fresh_game() {
    let mut h = Handler::new();
    let first = h.handle_raw("Start".to_string());
    h.handle_raw("DoTurn;4,3".to_string());
    assert_eq!(h.handle_raw("Start".to_string()), first);
    assert_eq!(h.handle_raw("Cancel".to_string()), "Error;No more moves to cancel");
}
