use vstd::prelude::*;

use crate::board::{
    brackets, flip_within, flip_witness, flips, keys_of, lemma_flips_distinct, row_major, Board, Color,
    Tile,
};
use crate::position::{in_bounds, Direction, Position, Size};

verus! {

/// Width of the board that a game is played on.
pub const BOARD_WIDTH: usize = 10;

/// Height of the board that a game is played on.
pub const BOARD_HEIGHT: usize = 10;

/// A set of tile values with a player, used in two ways.
///
/// Reported to a caller, it holds the tiles a turn has just written and the
/// player now to move. Kept in the undo history, it holds the tiles as they
/// were before a turn and the player who made it, so that writing it back
/// onto the board restores the state before that turn.
///
/// The change sets a game hands out hold each position at most once (see
/// `ChangeSetView::unique_cells`).
pub struct ChangeSet {
    pub tiles: Vec<(Position, Tile)>,
    pub player: Color,
}

/// A change set as mathematical values: cells with their tiles, and a player.
pub struct ChangeSetView {
    pub tiles: Seq<((int, int), Tile)>,
    pub player: Color,
}

impl View for ChangeSet {
    type V = ChangeSetView;

    open spec fn view(&self) -> ChangeSetView {
        ChangeSetView {
            tiles: self.tiles@.map_values(|e: (Position, Tile)| (e.0.key(), e.1)),
            player: self.player,
        }
    }
}

impl ChangeSetView {
    /// No cell occurs twice.
    pub open spec fn unique_cells(self) -> bool {
        forall|i: int, j: int|
            0 <= i < j < self.tiles.len() ==> (#[trigger] self.tiles[i]).0 != (
            #[trigger] self.tiles[j]).0
    }
}

/// Scratch state of the turn being built, and the undo history.
pub struct ChangeLog {
    pending_tile_changes: Vec<Position>,
    pending_player_change: bool,
    history: Vec<ChangeSet>,
}

/// A change log as mathematical values.
pub struct ChangeLogView {
    /// Positions the turn being built will write, in order.
    pub pending: Seq<Position>,
    /// Whether the turn being built passes the move to the other player.
    pub player_change: bool,
    /// One entry per committed turn, the latest last.
    pub history: Seq<ChangeSetView>,
}

impl View for ChangeLog {
    type V = ChangeLogView;

    closed spec fn view(&self) -> ChangeLogView {
        ChangeLogView {
            pending: self.pending_tile_changes@,
            player_change: self.pending_player_change,
            history: self.history@.map_values(|c: ChangeSet| c@),
        }
    }
}

impl ChangeLog {
    /// An empty log: nothing pending, no history.
    pub fn new() -> (r: ChangeLog)
        ensures
            r@.pending == Seq::<Position>::empty(),
            !r@.player_change,
            r@.history == Seq::<ChangeSetView>::empty(),
    {
        let r = ChangeLog {
            pending_tile_changes: Vec::new(),
            pending_player_change: false,
            history: Vec::new(),
        };
        assert(r@.history =~= Seq::<ChangeSetView>::empty());
        r
    }

    /// Records that the turn being built writes `position`.
    pub fn push_tile_change(&mut self, position: Position)
        ensures
            final(self)@.pending == old(self)@.pending.push(position),
            final(self)@.player_change == old(self)@.player_change,
            final(self)@.history == old(self)@.history,
    {
        self.pending_tile_changes.push(position);
    }

    /// Toggles whether the turn being built passes the move to the other player.
    pub fn push_player_change(&mut self)
        ensures
            final(self)@.pending == old(self)@.pending,
            final(self)@.player_change == !old(self)@.player_change,
            final(self)@.history == old(self)@.history,
    {
        self.pending_player_change = !self.pending_player_change;
    }

    /// Drops the turn being built; the history stays.
    pub fn discard_changes(&mut self)
        ensures
            final(self)@.pending == Seq::<Position>::empty(),
            !final(self)@.player_change,
            final(self)@.history == old(self)@.history,
    {
        self.pending_tile_changes.clear();
        self.pending_player_change = false;
    }
}

/// The dimensions of a game's board.
pub open spec fn board_size() -> Size {
    Size { width: BOARD_WIDTH, height: BOARD_HEIGHT }
}

/// The tile of cell `c` in the opening position: the central two-by-two block
/// holds two tiles of each colour, diagonally opposed.
pub open spec fn opening_tile(c: (int, int)) -> Tile {
    let x0 = BOARD_WIDTH / 2 - 1;
    let y0 = BOARD_HEIGHT / 2 - 1;
    if c == (x0, y0) || c == (x0 + 1, y0 + 1) {
        Tile(Some(Color::White))
    } else if c == (x0, y0 + 1) || c == (x0 + 1, y0) {
        Tile(Some(Color::Black))
    } else {
        Tile(None)
    }
}

/// The board in the opening position.
pub open spec fn opening_cells() -> Map<(int, int), Tile> {
    Map::new(|c: (int, int)| in_bounds(c, board_size()), |c: (int, int)| opening_tile(c))
}

/// A game as mathematical values: the board, the player to move, and the undo history.
pub struct GameView {
    pub cells: Map<(int, int), Tile>,
    pub player: Color,
    pub history: Seq<ChangeSetView>,
}

/// A game just started: the opening position, Black to move, no history.
pub open spec fn fresh_game() -> GameView {
    GameView { cells: opening_cells(), player: Color::Black, history: Seq::empty() }
}

/// Every cell of the board with its tile, in row-major order, and the player to move.
pub open spec fn summary_of(g: GameView) -> ChangeSetView {
    ChangeSetView {
        tiles: row_major(board_size()).map_values(|q: Position| (q.key(), g.cells[q.key()])),
        player: g.player,
    }
}

/// `cells` with tile `t` written at each of `ks`.
pub open spec fn paint(cells: Map<(int, int), Tile>, ks: Seq<(int, int)>, t: Tile) -> Map<
    (int, int),
    Tile,
>
    decreases ks.len(),
{
    if ks.len() == 0 {
        cells
    } else {
        paint(cells, ks.drop_last(), t).insert(ks.last(), t)
    }
}

/// Each of `ks` with its tile in `cells`.
pub open spec fn snapshot(cells: Map<(int, int), Tile>, ks: Seq<(int, int)>) -> Seq<
    ((int, int), Tile),
> {
    ks.map_values(|k: (int, int)| (k, cells[k]))
}

/// `cells` with each entry of `es` written back, in order.
pub open spec fn restore(cells: Map<(int, int), Tile>, es: Seq<((int, int), Tile)>) -> Map<
    (int, int),
    Tile,
>
    decreases es.len(),
{
    if es.len() == 0 {
        cells
    } else {
        restore(cells, es.drop_last()).insert(es.last().0, es.last().1)
    }
}

/// The cells a turn at `pos` writes: those it turns over, then `pos`.
pub open spec fn turn_cells(g: GameView, pos: Position) -> Seq<(int, int)> {
    flips(g.cells, pos, g.player).push(pos.key())
}

/// Whether a turn at `pos` is legal: the cell is on the board, empty, and
/// the move turns over at least one tile.
pub open spec fn turn_allowed(g: GameView, pos: Position) -> bool {
    &&& g.cells.contains_key(pos.key())
    &&& g.cells[pos.key()] == Tile(None)
    &&& flips(g.cells, pos, g.player).len() > 0
}

/// The game after a turn at `pos`, or `None` when the turn is rejected.
pub open spec fn turn_outcome(g: GameView, pos: Position) -> Option<GameView> {
    if turn_allowed(g, pos) {
        Some(
            GameView {
                cells: paint(g.cells, turn_cells(g, pos), Tile(Some(g.player))),
                player: g.player.other(),
                history: g.history.push(
                    ChangeSetView { tiles: snapshot(g.cells, turn_cells(g, pos)), player: g.player },
                ),
            },
        )
    } else {
        None
    }
}

/// What a legal turn at `pos` reports: the written cells with the mover's
/// tile, and the player now to move.
pub open spec fn turn_report(g: GameView, pos: Position) -> ChangeSetView {
    ChangeSetView {
        tiles: turn_cells(g, pos).map_values(|k: (int, int)| (k, Tile(Some(g.player)))),
        player: g.player.other(),
    }
}

/// Why a turn at an on-board cell `pos` is rejected.
pub open spec fn turn_rejection(g: GameView, pos: Position) -> Seq<char> {
    if g.cells[pos.key()] != Tile(None) {
        "Position already taken"@
    } else {
        "You must flip at least one tile"@
    }
}

/// The game after undoing its latest turn, or `None` when there is none.
pub open spec fn cancel_outcome(g: GameView) -> Option<GameView> {
    if g.history.len() == 0 {
        None
    } else {
        Some(
            GameView {
                cells: restore(g.cells, g.history.last().tiles),
                player: g.history.last().player,
                history: g.history.drop_last(),
            },
        )
    }
}

/// Painting keeps the cells that are not written and writes the others.
pub proof fn lemma_paint(cells: Map<(int, int), Tile>, ks: Seq<(int, int)>, t: Tile)
    ensures
        forall|k: (int, int)|
            #[trigger] paint(cells, ks, t).contains_key(k) <==> cells.contains_key(k)
                || ks.contains(k),
        forall|k: (int, int)|
            #[trigger] paint(cells, ks, t)[k] == if ks.contains(k) {
                t
            } else {
                cells[k]
            },
    decreases ks.len(),
{
    if ks.len() > 0 {
        lemma_paint(cells, ks.drop_last(), t);
        assert forall|k: (int, int)| ks.contains(k) <==> ks.drop_last().contains(k) || k
            == ks.last() by {
            if ks.contains(k) {
                let j = choose|j: int| 0 <= j < ks.len() && ks[j] == k;
                if j < ks.len() - 1 {
                    assert(ks.drop_last()[j] == k);
                }
            }
            if ks.drop_last().contains(k) {
                let j = choose|j: int| 0 <= j < ks.drop_last().len() && ks.drop_last()[j] == k;
                assert(ks[j] == k);
            }
            if k == ks.last() {
                assert(ks[ks.len() - 1] == k);
            }
        }
    }
}

/// Writing back a snapshot of `ks` taken from `m` restores `m` on `ks` and keeps the rest.
pub proof fn lemma_restore_snapshot(
    x: Map<(int, int), Tile>,
    m: Map<(int, int), Tile>,
    ks: Seq<(int, int)>,
)
    ensures
        forall|k: (int, int)|
            #[trigger] restore(x, snapshot(m, ks)).contains_key(k) <==> x.contains_key(k)
                || ks.contains(k),
        forall|k: (int, int)|
            #[trigger] restore(x, snapshot(m, ks))[k] == if ks.contains(k) {
                m[k]
            } else {
                x[k]
            },
    decreases ks.len(),
{
    let es = snapshot(m, ks);
    if ks.len() == 0 {
        assert(es.len() == 0);
        assert(restore(x, es) == x);
    } else {
        lemma_restore_snapshot(x, m, ks.drop_last());
        assert(es.drop_last() =~= snapshot(m, ks.drop_last()));
        assert(es.last() == (ks.last(), m[ks.last()]));
        assert(restore(x, es) == restore(x, es.drop_last()).insert(ks.last(), m[ks.last()]));
        assert forall|k: (int, int)| ks.contains(k) <==> ks.drop_last().contains(k) || k
            == ks.last() by {
            if ks.contains(k) {
                let j = choose|j: int| 0 <= j < ks.len() && ks[j] == k;
                if j < ks.len() - 1 {
                    assert(ks.drop_last()[j] == k);
                }
            }
            if ks.drop_last().contains(k) {
                let j = choose|j: int| 0 <= j < ks.drop_last().len() && ks.drop_last()[j] == k;
                assert(ks[j] == k);
            }
            if k == ks.last() {
                assert(ks[ks.len() - 1] == k);
            }
        }
    }
}

/// Undoing a legal turn gives back the game as it was before the turn.
pub proof fn lemma_turn_then_cancel(g: GameView, pos: Position)
    requires
        turn_allowed(g, pos),
    ensures
        cancel_outcome(turn_outcome(g, pos).unwrap()) == Some(g),
{
    let ks = turn_cells(g, pos);
    let t = Tile(Some(g.player));
    let h = turn_outcome(g, pos).unwrap();
    lemma_flips_distinct(g.cells, pos, g.player);
    lemma_paint(g.cells, ks, t);
    lemma_restore_snapshot(paint(g.cells, ks, t), g.cells, ks);
    assert forall|k: (int, int)| ks.contains(k) implies g.cells.contains_key(k) by {
        let j = choose|j: int| 0 <= j < ks.len() && ks[j] == k;
        if j < ks.len() - 1 {
            assert(flips(g.cells, pos, g.player)[j] == k);
        }
    }
    let back = restore(h.cells, snapshot(g.cells, ks));
    assert(back =~= g.cells);
    assert(h.history.drop_last() =~= g.history);
}

/// The game after the turns `moves`, in order, or `None` if one is rejected.
pub open spec fn play(g: GameView, moves: Seq<Position>) -> Option<GameView>
    decreases moves.len(),
{
    if moves.len() == 0 {
        Some(g)
    } else {
        match play(g, moves.drop_last()) {
            Some(h) => turn_outcome(h, moves.last()),
            None => None,
        }
    }
}

/// The game after `n` undos, or `None` if the history runs out.
pub open spec fn undo(g: GameView, n: nat) -> Option<GameView>
    decreases n,
{
    if n == 0 {
        Some(g)
    } else {
        match cancel_outcome(g) {
            Some(h) => undo(h, (n - 1) as nat),
            None => None,
        }
    }
}

/// After any sequence of legal turns, undoing once per turn gives back the
/// board, the player to move and the history exactly as they were before.
pub proof fn lemma_undo_round_trip(g: GameView, moves: Seq<Position>)
    requires
        play(g, moves) is Some,
    ensures
        undo(play(g, moves).unwrap(), moves.len()) == Some(g),
    decreases moves.len(),
{
    if moves.len() > 0 {
        let prev = play(g, moves.drop_last()).unwrap();
        assert(turn_allowed(prev, moves.last()));
        lemma_turn_then_cancel(prev, moves.last());
        lemma_undo_round_trip(g, moves.drop_last());
    }
}

/// A turn changes no cell but the one played and cells that lie strictly
/// between it and a tile of the mover, in one of the eight directions, with
/// only tiles of the opponent from the played cell up to that tile.
pub proof fn lemma_turn_flips_only_brackets(g: GameView, pos: Position, c: (int, int))
    requires
        turn_outcome(g, pos) is Some,
        turn_outcome(g, pos).unwrap().cells[c] != g.cells[c],
        c != pos.key(),
    ensures
        exists|d: Direction, n: int, k: int|
            1 <= k <= n && #[trigger] brackets(g.cells, pos, d, g.player, n) && c == #[trigger] pos.ray(
                d,
                k,
            ),
{
    let ks = turn_cells(g, pos);
    let f = flips(g.cells, pos, g.player);
    lemma_paint(g.cells, ks, Tile(Some(g.player)));
    lemma_flips_distinct(g.cells, pos, g.player);
    let j = choose|j: int| 0 <= j < ks.len() && ks[j] == c;
    assert(j < f.len());
    assert(f[j] == c);
    assert(flip_within(g.cells, pos, g.player, f[j], 8));
    let (a, n, k) = choose|a: int, n: int, k: int|
        a < 8 && flip_witness(g.cells, pos, g.player, f[j], a, n, k);
    assert(c == pos.ray(Direction::all()[a], k));
}

/// A turn on an occupied cell is rejected with "Position already taken";
/// since a rejection leaves the game unchanged, playing there again is
/// rejected the same way.
pub proof fn lemma_taken_rejection_repeats(g: GameView, pos: Position)
    requires
        g.cells.contains_key(pos.key()),
        g.cells[pos.key()] != Tile(None),
    ensures
        turn_outcome(g, pos) is None,
        turn_rejection(g, pos) == "Position already taken"@,
{
}

/// A state of a turn-based game on the standard board.
pub struct Game {
    board: Board,
    current_player: Color,
    change_log: ChangeLog,
}

impl View for Game {
    type V = GameView;

    closed spec fn view(&self) -> GameView {
        GameView {
            cells: self.board@,
            player: self.current_player,
            history: self.change_log@.history,
        }
    }
}

/// The board in the opening position.
fn opening_board() -> (r: Board)
    ensures
        r.wf(),
        r.size() == board_size(),
        r@ == opening_cells(),
{
    let mut board = Board::new(BOARD_WIDTH, BOARD_HEIGHT);
    let x0: usize = BOARD_WIDTH / 2 - 1;
    let y0: usize = BOARD_HEIGHT / 2 - 1;
    board.set(&Position { x: x0, y: y0 }, &Color::White);
    board.set(&Position { x: x0, y: y0 + 1 }, &Color::Black);
    board.set(&Position { x: x0 + 1, y: y0 }, &Color::Black);
    board.set(&Position { x: x0 + 1, y: y0 + 1 }, &Color::White);
    assert(board@ =~= opening_cells());
    board
}

impl Game {
    /// The game's invariant: the board has the standard size, nothing is
    /// pending between operations, and the history only names cells of the board.
    pub closed spec fn wf(&self) -> bool {
        &&& self.board.wf()
        &&& self.board.size() == board_size()
        &&& self.change_log@.pending.len() == 0
        &&& !self.change_log@.player_change
        &&& forall|i: int, j: int|
            0 <= i < self.change_log@.history.len() && 0 <= j < self.change_log@.history[i].tiles.len()
                ==> in_bounds(#[trigger] self.change_log@.history[i].tiles[j].0, board_size())
        &&& forall|i: int|
            0 <= i < self.change_log@.history.len() ==> (#[trigger] self.change_log@.history[i]).unique_cells()
    }

    /// A game in the opening position with Black to move.
    pub fn new() -> (r: Game)
        ensures
            r.wf(),
            r@ == fresh_game(),
    {
        let r = Game {
            board: opening_board(),
            current_player: Color::Black,
            change_log: ChangeLog::new(),
        };
        assert(r@.history =~= Seq::<ChangeSetView>::empty());
        r
    }

    /// Every cell with its tile, row by row, and the player to move.
    pub fn summary(&self) -> (r: ChangeSet)
        requires
            self.wf(),
        ensures
            r@ == summary_of(self@),
            r@.unique_cells(),
    {
        let positions = self.board.iter_all_positions();
        let mut tiles: Vec<(Position, Tile)> = Vec::new();
        let mut i: usize = 0;
        while i < positions.len()
            invariant
                self.wf(),
                positions@ == row_major(board_size()),
                i <= positions@.len(),
                tiles@.len() == i,
                forall|j: int|
                    0 <= j < i ==> #[trigger] tiles@[j] == (positions@[j], self.board@[positions@[j].key()]),
            decreases positions@.len() - i,
        {
            let pos = positions[i];
            proof {
                vstd::arithmetic::div_mod::lemma_mod_bound(i as int, BOARD_WIDTH as int);
                vstd::arithmetic::div_mod::lemma_div_is_ordered(i as int, 100, BOARD_WIDTH as int);
            }
            let t = self.board.get(&pos);
            tiles.push((pos, t));
            i = i + 1;
        }
        let r = ChangeSet { tiles, player: self.current_player };
        assert(r@.tiles =~= summary_of(self@).tiles);
        proof {
            crate::board::lemma_row_major_enumerates(board_size());
            assert forall|a: int, b: int| 0 <= a < b < r@.tiles.len() implies (#[trigger] r@.tiles[a]).0
                != (#[trigger] r@.tiles[b]).0 by {
                assert(r@.tiles[a].0 == positions@[a].key());
                assert(r@.tiles[b].0 == positions@[b].key());
            }
        }
        r
    }

    /// Starts a new game: the opening position, Black to move, and an empty
    /// history. Returns every cell with its tile and the player to move.
    pub fn start(&mut self) -> (r: ChangeSet)
        ensures
            final(self).wf(),
            final(self)@ == fresh_game(),
            r@ == summary_of(fresh_game()),
            r@.unique_cells(),
    {
        *self = Game::new();
        self.summary()
    }
    fn error(&mut self, message: &str) -> (r: Result<ChangeSet, String>)
        ensures
            final(self).board == old(self).board,
            final(self).current_player == old(self).current_player,
            final(self).change_log@.pending == Seq::<Position>::empty(),
            !final(self).change_log@.player_change,
            final(self).change_log@.history == old(self).change_log@.history,
            r matches Err(e) && e@ == message@,
    {
        self.change_log.discard_changes();
        Err(message.to_string())
    }

    /// Commits the pending turn: writes the mover's tile at every pending
    /// position, passes the move on if asked, and records the undo entry.
    fn flush_changes(&mut self) -> (r: ChangeSet)
        requires
            old(self).board.wf(),
            old(self).board.size() == board_size(),
            forall|i: int, j: int|
                0 <= i < old(self).change_log@.history.len() && 0 <= j < old(
                    self,
                ).change_log@.history[i].tiles.len() ==> in_bounds(
                    #[trigger] old(self).change_log@.history[i].tiles[j].0,
                    board_size(),
                ),
            forall|i: int|
                0 <= i < old(self).change_log@.history.len() ==> (#[trigger] old(
                    self,
                ).change_log@.history[i]).unique_cells(),
            keys_of(old(self).change_log@.pending).no_duplicates(),
            forall|j: int|
                0 <= j < old(self).change_log@.pending.len() ==> in_bounds(
                    #[trigger] old(self).change_log@.pending[j].key(),
                    board_size(),
                ),
        ensures
            final(self).wf(),
            final(self)@ == (GameView {
                cells: paint(
                    old(self)@.cells,
                    keys_of(old(self).change_log@.pending),
                    Tile(Some(old(self)@.player)),
                ),
                player: if old(self).change_log@.player_change {
                    old(self)@.player.other()
                } else {
                    old(self)@.player
                },
                history: old(self)@.history.push(
                    ChangeSetView {
                        tiles: snapshot(old(self)@.cells, keys_of(old(self).change_log@.pending)),
                        player: old(self)@.player,
                    },
                ),
            }),
            r@ == (ChangeSetView {
                tiles: keys_of(old(self).change_log@.pending).map_values(
                    |k: (int, int)| (k, Tile(Some(old(self)@.player))),
                ),
                player: final(self)@.player,
            }),
    {
        let ghost cells0 = self.board@;
        let ghost ks = keys_of(self.change_log@.pending);
        let player = self.current_player;
        let ghost t = Tile(Some(player));
        let mut tiles: Vec<(Position, Tile)> = Vec::new();
        let mut history_tiles: Vec<(Position, Tile)> = Vec::new();
        let n = self.change_log.pending_tile_changes.len();
        let mut i: usize = 0;
        assert(ks.take(0) =~= Seq::<(int, int)>::empty());
        while i < n
            invariant
                self.board.wf(),
                self.board.size() == board_size(),
                self.change_log == old(self).change_log,
                self.current_player == player,
                t == Tile(Some(player)),
                n == self.change_log@.pending.len(),
                ks == keys_of(self.change_log@.pending),
                ks.no_duplicates(),
                forall|j: int|
                    0 <= j < n ==> in_bounds(#[trigger] self.change_log@.pending[j].key(), board_size()),
                i <= n,
                self.board@ == paint(cells0, ks.take(i as int), t),
                history_tiles@.len() == i,
                tiles@.len() == i,
                forall|j: int|
                    0 <= j < i ==> #[trigger] history_tiles@[j] == (
                        self.change_log@.pending[j],
                        cells0[ks[j]],
                    ),
                forall|j: int|
                    0 <= j < i ==> #[trigger] tiles@[j] == (self.change_log@.pending[j], t),
            decreases n - i,
        {
            let pos = self.change_log.pending_tile_changes[i];
            proof {
                lemma_paint(cells0, ks.take(i as int), t);
                if ks.take(i as int).contains(ks[i as int]) {
                    let j = choose|j: int| 0 <= j < i && ks.take(i as int)[j] == ks[i as int];
                    assert(ks[j] == ks[i as int]);
                }
                self.board.lemma_view_dom();
            }
            assert(ks[i as int] == pos.key());
            let before = self.board.get(&pos);
            history_tiles.push((pos, before));
            let ghost b0 = self.board@;
            self.board.set(&pos, &player);
            assert(self.board@ == b0.insert(pos.key(), t));
            assert(self.board@[pos.key()] == t);
            let after = self.board.get(&pos);
            assert(after == t);
            tiles.push((pos, after));
            proof {
                let next = ks.take(i + 1);
                assert(next.drop_last() =~= ks.take(i as int));
                assert(next.last() == pos.key());
                assert(paint(cells0, next, t) == paint(cells0, next.drop_last(), t).insert(next.last(), t));
            }
            i = i + 1;
        }
        assert(ks.take(n as int) =~= ks);
        if self.change_log.pending_player_change {
            self.current_player = self.current_player.opposite();
        }
        let ghost old_history = self.change_log@.history;
        let undo = ChangeSet { tiles: history_tiles, player };
        assert(undo@.tiles =~= snapshot(cells0, ks));
        assert(undo@.unique_cells()) by {
            assert forall|a: int, b: int| 0 <= a < b < undo@.tiles.len() implies (
            #[trigger] undo@.tiles[a]).0 != (#[trigger] undo@.tiles[b]).0 by {
                assert(undo@.tiles[a].0 == ks[a]);
                assert(undo@.tiles[b].0 == ks[b]);
            }
        }
        self.change_log.history.push(undo);
        assert(self.change_log@.history =~= old_history.push(undo@));
        self.change_log.discard_changes();
        let r = ChangeSet { tiles, player: self.current_player };
        assert(r@.tiles =~= ks.map_values(|k: (int, int)| (k, t)));
        r
    }

    /// Takes the latest entry off the history and writes it back onto the board.
    fn revoke_changes(&mut self) -> (r: Option<ChangeSet>)
        requires
            old(self).wf(),
        ensures
            final(self).wf(),
            match r {
                Some(cs) => cancel_outcome(old(self)@) == Some(final(self)@) && cs@ == old(
                    self,
                )@.history.last() && cs@.unique_cells(),
                None => cancel_outcome(old(self)@) is None && final(self)@ == old(self)@,
            },
    {
        let ghost old_history = self.change_log@.history;
        let ghost last = old_history.len() - 1;
        let popped = self.change_log.history.pop();
        let ghost before = *self;
        match popped {
            None => {
                assert(self.change_log@.history =~= old_history);
                assert(old_history.len() == 0);
                None
            },
            Some(change_set) => {
                assert(self.change_log@.history =~= old_history.drop_last());
                assert(change_set@ == old_history[last]);
                let ghost es = change_set@.tiles;
                assert forall|j: int| 0 <= j < es.len() implies in_bounds(#[trigger] es[j].0, board_size()) by {
                    assert(old_history[last].tiles[j].0 == es[j].0);
                }
                let ghost cells0 = self.board@;
                let mut i: usize = 0;
                assert(es.take(0) =~= Seq::<((int, int), Tile)>::empty());
                while i < change_set.tiles.len()
                    invariant
                        self.board.wf(),
                        self.board.size() == board_size(),
                        self.change_log == before.change_log,
                        self.current_player == before.current_player,
                        es == change_set@.tiles,
                        forall|j: int| 0 <= j < es.len() ==> in_bounds(#[trigger] es[j].0, board_size()),
                        i <= es.len(),
                        self.board@ == restore(cells0, es.take(i as int)),
                    decreases es.len() - i,
                {
                    let (pos, tile) = change_set.tiles[i];
                    assert(es[i as int] == (pos.key(), tile));
                    assert(in_bounds(es[i as int].0, board_size()));
                    match tile.0 {
                        Some(color) => self.board.set(&pos, &color),
                        None => self.board.unset(&pos),
                    }
                    proof {
                        let next = es.take(i + 1);
                        assert(next.drop_last() =~= es.take(i as int));
                        assert(next.last() == (pos.key(), tile));
                        assert(restore(cells0, next) == restore(cells0, next.drop_last()).insert(pos.key(), tile));
                    }
                    i = i + 1;
                }
                assert(es.take(es.len() as int) =~= es);
                self.current_player = change_set.player;
                Some(change_set)
            },
        }
    }

    /// Plays the player to move at `position`.
    ///
    /// Rejected, with the board and history untouched, when the cell is taken
    /// ("Position already taken") or the move turns over no tile ("You must
    /// flip at least one tile"). Otherwise writes the mover's tile at every
    /// turned-over cell and at `position`, passes the move to the other
    /// player, pushes the undo entry, and returns the written tiles with the
    /// player now to move.
    pub fn do_turn(&mut self, position: Position) -> (r: Result<ChangeSet, String>)
        requires
            old(self).wf(),
            in_bounds(position.key(), board_size()),
        ensures
            final(self).wf(),
            match r {
                Ok(cs) => turn_outcome(old(self)@, position) == Some(final(self)@) && cs@
                    == turn_report(old(self)@, position) && cs@.unique_cells(),
                Err(e) => turn_outcome(old(self)@, position) is None && final(self)@ == old(self)@
                    && e@ == turn_rejection(old(self)@, position),
            },
    {
        proof {
            self.board.lemma_view_dom();
        }
        if self.board.taken(&position) {
            return self.error("Position already taken");
        }
        let flip_positions = self.board.calculate_flip_positions(&position, &self.current_player);
        if flip_positions.is_empty() {
            return self.error("You must flip at least one tile");
        }
        let ghost g = self@;
        proof {
            lemma_flips_distinct(g.cells, position, g.player);
        }
        let mut i: usize = 0;
        assert(self.change_log@.pending =~= flip_positions@.take(0));
        while i < flip_positions.len()
            invariant
                self.board == old(self).board,
                self.current_player == old(self).current_player,
                self.change_log@.history == old(self).change_log@.history,
                !self.change_log@.player_change,
                i <= flip_positions@.len(),
                self.change_log@.pending == flip_positions@.take(i as int),
            decreases flip_positions@.len() - i,
        {
            self.change_log.push_tile_change(flip_positions[i]);
            assert(self.change_log@.pending =~= flip_positions@.take(i + 1));
            i = i + 1;
        }
        self.change_log.push_tile_change(position);
        self.change_log.push_player_change();
        proof {
            let pending = self.change_log@.pending;
            assert(pending =~= flip_positions@.push(position));
            assert(keys_of(pending) =~= keys_of(flip_positions@).push(position.key()));
            assert forall|j: int| 0 <= j < pending.len() implies in_bounds(
                #[trigger] pending[j].key(),
                board_size(),
            ) by {
                if j < flip_positions@.len() {
                    assert(keys_of(pending)[j] == flips(g.cells, position, g.player)[j]);
                } else {
                    assert(keys_of(pending)[j] == position.key());
                }
            }
        }
        let r = self.flush_changes();
        proof {
            assert forall|a: int, b: int| 0 <= a < b < r@.tiles.len() implies (#[trigger] r@.tiles[a]).0
                != (#[trigger] r@.tiles[b]).0 by {
                assert(r@.tiles[a].0 == turn_cells(g, position)[a]);
                assert(r@.tiles[b].0 == turn_cells(g, position)[b]);
            }
        }
        Ok(r)
    }

    /// Undoes the latest committed turn: writes back the tiles as they were
    /// before it and gives the move back to its player. Returns that entry.
    /// Rejected with "No more moves to cancel", the game untouched, when the
    /// history is empty.
    pub fn cancel(&mut self) -> (r: Result<ChangeSet, String>)
        requires
            old(self).wf(),
        ensures
            final(self).wf(),
            match r {
                Ok(cs) => cancel_outcome(old(self)@) == Some(final(self)@) && cs@ == old(
                    self,
                )@.history.last() && cs@.unique_cells(),
                Err(e) => cancel_outcome(old(self)@) is None && final(self)@ == old(self)@ && e@
                    == "No more moves to cancel"@,
            },
    {
        match self.revoke_changes() {
            Some(change_set) => Ok(change_set),
            None => self.error("No more moves to cancel"),
        }
    }
}

} // verus!
