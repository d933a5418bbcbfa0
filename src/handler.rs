use vstd::prelude::*;

use crate::game::{
    board_size, cancel_outcome, fresh_game, summary_of, turn_outcome, turn_rejection, turn_report,
    ChangeSet, ChangeSetView, Game, GameView, BOARD_HEIGHT, BOARD_WIDTH,
};
use crate::parser::{error_text, request_of, response_text};
use crate::position::{in_bounds, Position};

verus! {

/// A request of a player.
#[derive(Debug, PartialEq, Eq, Structural, Clone, Copy)]
pub enum Request {
    /// Start a new game.
    Start,
    /// Play at a position.
    DoTurn(Position),
    /// Undo the latest turn.
    Cancel,
}

/// The answer to a request.
pub enum Response {
    /// Cells that changed, with the player to move.
    Update(ChangeSet),
    /// Why the request failed.
    Error(String),
}

/// A response as mathematical values.
pub enum ResponseView {
    Update(ChangeSetView),
    Error(Seq<char>),
}

impl View for Response {
    type V = ResponseView;

    open spec fn view(&self) -> ResponseView {
        match self {
            Response::Update(cs) => ResponseView::Update(cs@),
            Response::Error(m) => ResponseView::Error(m@),
        }
    }
}

/// The message for a request that needs a game before any was started.
pub open spec fn no_game_text() -> Seq<char> {
    "No game is running"@
}

/// The message for a turn at a position off the board.
pub open spec fn off_board_text() -> Seq<char> {
    "Position is outside the board"@
}

/// The session after a request, and the response: `None` stands for a
/// session in which no game was started.
pub open spec fn handle_model(h: Option<GameView>, q: Request) -> (Option<GameView>, ResponseView) {
    match q {
        Request::Start => (Some(fresh_game()), ResponseView::Update(summary_of(fresh_game()))),
        Request::DoTurn(p) => match h {
            None => (h, ResponseView::Error(no_game_text())),
            Some(g) => if !in_bounds(p.key(), board_size()) {
                (h, ResponseView::Error(off_board_text()))
            } else {
                match turn_outcome(g, p) {
                    Some(next) => (Some(next), ResponseView::Update(turn_report(g, p))),
                    None => (h, ResponseView::Error(turn_rejection(g, p))),
                }
            },
        },
        Request::Cancel => match h {
            None => (h, ResponseView::Error(no_game_text())),
            Some(g) => match cancel_outcome(g) {
                Some(prev) => (Some(prev), ResponseView::Update(g.history.last())),
                None => (h, ResponseView::Error("No more moves to cancel"@)),
            },
        },
    }
}

/// The session after a request written as text, and the response text.
pub open spec fn raw_model(h: Option<GameView>, s: Seq<char>) -> (Option<GameView>, Seq<char>) {
    match request_of(s) {
        Ok(q) => (handle_model(h, q).0, response_text(handle_model(h, q).1)),
        Err(e) => (h, response_text(ResponseView::Error(error_text(e)))),
    }
}

/// One player's session: no game until the first start, then one game.
pub struct Handler {
    game: Option<Game>,
}

impl View for Handler {
    type V = Option<GameView>;

    closed spec fn view(&self) -> Option<GameView> {
        match self.game {
            Some(g) => Some(g@),
            None => None,
        }
    }
}

impl Handler {
    /// The session's game, if any, satisfies its invariant.
    pub closed spec fn wf(&self) -> bool {
        self.game matches Some(g) ==> g.wf()
    }

    /// A session in which no game was started.
    pub fn new() -> (r: Handler)
        ensures
            r.wf(),
            r@ is None,
    {
        Handler { game: None }
    }

    /// Carries out a request on the session's game.
    fn handle_parsed(&mut self, request: Request) -> (r: Response)
        requires
            old(self).wf(),
        ensures
            final(self).wf(),
            (final(self)@, r@) == handle_model(old(self)@, request),
    {
        let result = match request {
            Request::Start => {
                let mut game = Game::new();
                let summary = game.start();
                self.game = Some(game);
                Ok(summary)
            },
            Request::DoTurn(position) => match &mut self.game {
                None => Err("No game is running".to_string()),
                Some(game) => {
                    if position.x < BOARD_WIDTH && position.y < BOARD_HEIGHT {
                        game.do_turn(position)
                    } else {
                        Err("Position is outside the board".to_string())
                    }
                },
            },
            Request::Cancel => match &mut self.game {
                None => Err("No game is running".to_string()),
                Some(game) => game.cancel(),
            },
        };
        match result {
            Ok(change_set) => Response::Update(change_set),
            Err(error) => Response::Error(error),
        }
    }

    /// Reads a request, carries it out, and writes the response. A request
    /// that cannot be read leaves the session as it was and is answered with
    /// `Error;` and the description of the parsing error.
    pub fn handle_raw(&mut self, request_raw: String) -> (r: String)
        requires
            old(self).wf(),
        ensures
            final(self).wf(),
            (final(self)@, r@) == raw_model(old(self)@, request_raw@),
    {
        let response = match Request::parse(request_raw.as_str()) {
            Ok(request) => self.handle_parsed(request),
            Err(parsing_error) => Response::Error(parsing_error.describe()),
        };
        response.stringify()
    }
}

} // verus!
