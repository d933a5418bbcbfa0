use vstd::prelude::*;
use vstd::arithmetic::div_mod::lemma_fundamental_div_mod_converse;

use crate::position::{in_bounds, Direction, Position, Size};

verus! {

/// The two players, and the colours of their tiles.
#[derive(PartialEq, Eq, Structural, Debug, Clone, Copy)]
pub enum Color {
    White,
    Black,
}

impl Color {
    /// The other player.
    pub fn opposite(&self) -> (r: Color)
        ensures
            r == self.other(),
    {
        match self {
            Color::White => Color::Black,
            Color::Black => Color::White,
        }
    }

    /// The other player, as a value.
    pub open spec fn other(self) -> Color {
        match self {
            Color::White => Color::Black,
            Color::Black => Color::White,
        }
    }
}

/// Content of one cell: a tile of some colour, or nothing.
#[derive(PartialEq, Eq, Structural, Debug, Clone, Copy)]
pub struct Tile(pub Option<Color>);

/// A fixed-size grid of tiles, stored row by row.
pub struct Board {
    tiles: Vec<Tile>,
    size: Size,
}

/// Row-major index of cell `c` on a board `w` cells wide.
pub open spec fn cell_index(c: (int, int), w: int) -> int {
    c.1 * w + c.0
}

/// A board of the given size with every cell empty.
pub open spec fn empty_cells(size: Size) -> Map<(int, int), Tile> {
    Map::new(|c: (int, int)| in_bounds(c, size), |c: (int, int)| Tile(None))
}

/// Every position of a board of the given size, in row-major order.
pub open spec fn row_major(size: Size) -> Seq<Position> {
    Seq::new(
        (size.width * size.height) as nat,
        |i: int| Position { x: (i % size.width as int) as usize, y: (i / size.width as int) as usize },
    )
}

/// The cells after `p` in direction `d`: the first `n` hold the opponent of
/// `player`, and the next one holds `player`.
pub open spec fn brackets(
    cells: Map<(int, int), Tile>,
    p: Position,
    d: Direction,
    player: Color,
    n: int,
) -> bool {
    &&& 1 <= n
    &&& forall|k: int|
        1 <= k <= n ==> cells.contains_key(#[trigger] p.ray(d, k)) && cells[p.ray(d, k)] == Tile(
            Some(player.other()),
        )
    &&& cells.contains_key(p.ray(d, n + 1))
    &&& cells[p.ray(d, n + 1)] == Tile(Some(player))
}

/// The first `n` cells after `p` in direction `d`.
pub open spec fn run_of(p: Position, d: Direction, n: int) -> Seq<(int, int)> {
    Seq::new(n as nat, |i: int| p.ray(d, i + 1))
}

/// The cells that a move of `player` at `p` turns over in direction `d`.
pub open spec fn flips_toward(
    cells: Map<(int, int), Tile>,
    p: Position,
    d: Direction,
    player: Color,
) -> Seq<(int, int)> {
    if exists|n: int| brackets(cells, p, d, player, n) {
        run_of(p, d, choose|n: int| brackets(cells, p, d, player, n))
    } else {
        Seq::empty()
    }
}

/// The cells turned over in the first `i` directions of `Direction::all()`.
pub open spec fn flips_upto(
    cells: Map<(int, int), Tile>,
    p: Position,
    player: Color,
    i: nat,
) -> Seq<(int, int)>
    decreases i,
{
    if i == 0 {
        Seq::empty()
    } else {
        flips_upto(cells, p, player, (i - 1) as nat) + flips_toward(
            cells,
            p,
            Direction::all()[i - 1],
            player,
        )
    }
}

/// Every cell that a move of `player` at `p` turns over, direction by direction.
pub open spec fn flips(cells: Map<(int, int), Tile>, p: Position, player: Color) -> Seq<
    (int, int),
> {
    flips_upto(cells, p, player, 8)
}

/// The cells of a sequence of positions.
pub open spec fn keys_of(ps: Seq<Position>) -> Seq<(int, int)> {
    ps.map_values(|q: Position| q.key())
}

proof fn lemma_index_in_range(x: int, y: int, w: int, h: int)
    requires
        0 <= x < w,
        0 <= y < h,
    ensures
        0 <= y * w + x < w * h,
{
    assert(y * w + x < w * h) by (nonlinear_arith)
        requires
            0 <= x < w,
            0 <= y < h,
    ;
    assert(0 <= y * w) by (nonlinear_arith)
        requires
            0 <= x < w,
            0 <= y,
    ;
}

proof fn lemma_index_of_cell(x: int, y: int, w: int)
    requires
        0 <= x < w,
        0 <= y,
    ensures
        (y * w + x) % w == x,
        (y * w + x) / w == y,
{
    lemma_fundamental_div_mod_converse(y * w + x, w, y, x);
}

proof fn lemma_cell_of_index(i: int, w: int, h: int)
    requires
        0 <= i < w * h,
        0 <= w,
        0 <= h,
    ensures
        0 <= i % w < w,
        0 <= i / w < h,
        (i / w) * w + i % w == i,
{
    assert(0 < w) by (nonlinear_arith)
        requires
            0 <= i < w * h,
            0 <= h,
    ;
    vstd::arithmetic::div_mod::lemma_fundamental_div_mod(i, w);
    vstd::arithmetic::div_mod::lemma_mod_bound(i, w);
    vstd::arithmetic::div_mod::lemma_div_pos_is_pos(i, w);
    assert((i / w) * w + i % w == i) by (nonlinear_arith)
        requires
            i == w * (i / w) + i % w,
    ;
    assert(i / w < h) by (nonlinear_arith)
        requires
            (i / w) * w + i % w == i,
            i < w * h,
            0 <= i % w,
            0 < w,
    ;
}

proof fn lemma_index_injective(a: (int, int), b: (int, int), w: int)
    requires
        0 <= a.0 < w,
        0 <= b.0 < w,
        0 <= a.1,
        0 <= b.1,
        cell_index(a, w) == cell_index(b, w),
    ensures
        a == b,
{
    lemma_index_of_cell(a.0, a.1, w);
    lemma_index_of_cell(b.0, b.1, w);
}

/// A bracketing run in one direction has only one possible length.
pub proof fn lemma_brackets_unique(
    cells: Map<(int, int), Tile>,
    p: Position,
    d: Direction,
    player: Color,
    n1: int,
    n2: int,
)
    requires
        brackets(cells, p, d, player, n1),
        brackets(cells, p, d, player, n2),
    ensures
        n1 == n2,
{
    if n1 < n2 {
        assert(cells[p.ray(d, n1 + 1)] == Tile(Some(player.other())));
    } else if n2 < n1 {
        assert(cells[p.ray(d, n2 + 1)] == Tile(Some(player.other())));
    }
}

/// With a bracket of length `n` in direction `d`, the run there is its first `n` cells.
pub proof fn lemma_flips_toward_bracket(
    cells: Map<(int, int), Tile>,
    p: Position,
    d: Direction,
    player: Color,
    n: int,
)
    requires
        brackets(cells, p, d, player, n),
    ensures
        flips_toward(cells, p, d, player) == run_of(p, d, n),
{
    let m = choose|m: int| brackets(cells, p, d, player, m);
    lemma_brackets_unique(cells, p, d, player, n, m);
}

/// No bracket exists when the ray, after `k - 1` opponent tiles, meets the edge,
/// an empty cell, or (at once) a tile of the mover.
proof fn lemma_no_bracket(
    cells: Map<(int, int), Tile>,
    p: Position,
    d: Direction,
    player: Color,
    k: int,
)
    requires
        1 <= k,
        forall|j: int|
            1 <= j < k ==> cells.contains_key(#[trigger] p.ray(d, j)) && cells[p.ray(d, j)]
                == Tile(Some(player.other())),
        !cells.contains_key(p.ray(d, k)) || cells[p.ray(d, k)] == Tile(None) || (k == 1
            && cells[p.ray(d, k)] == Tile(Some(player))),
    ensures
        flips_toward(cells, p, d, player) == Seq::<(int, int)>::empty(),
{
    assert forall|n: int| !brackets(cells, p, d, player, n) by {
        if brackets(cells, p, d, player, n) {
            if n >= k {
                assert(cells[p.ray(d, k)] == Tile(Some(player.other())));
            } else if n + 1 < k {
                assert(cells[p.ray(d, n + 1)] == Tile(Some(player.other())));
            }
        }
    }
}

/// A ray that stays on the board is shorter than the board's width plus height.
proof fn lemma_ray_bound(p: Position, d: Direction, k: int, size: Size)
    requires
        in_bounds(p.key(), size),
        in_bounds(p.ray(d, k), size),
        0 <= k,
    ensures
        k < size.width + size.height,
{
}

/// Cell `c` lies `k` cells after `p` in the `a`-th direction, inside a bracket of length `n`.
pub open spec fn flip_witness(
    cells: Map<(int, int), Tile>,
    p: Position,
    player: Color,
    c: (int, int),
    a: int,
    n: int,
    k: int,
) -> bool {
    &&& 0 <= a < 8
    &&& 1 <= k <= n
    &&& brackets(cells, p, Direction::all()[a], player, n)
    &&& c == p.ray(Direction::all()[a], k)
}

/// Cell `c` lies inside a bracket of one of the first `i` directions.
pub open spec fn flip_within(cells: Map<(int, int), Tile>, p: Position, player: Color, c: (int, int), i: int) -> bool {
    exists|a: int, n: int, k: int| a < i && flip_witness(cells, p, player, c, a, n, k)
}

proof fn lemma_ray_injective(p: Position, d1: Direction, k1: int, d2: Direction, k2: int)
    requires
        1 <= k1,
        1 <= k2,
        p.ray(d1, k1) == p.ray(d2, k2),
    ensures
        d1 == d2,
        k1 == k2,
{
}

proof fn lemma_ray_leaves_origin(p: Position, d: Direction, k: int)
    requires
        1 <= k,
    ensures
        p.ray(d, k) != p.key(),
{
}

/// The cells turned over in the first `i` directions are distinct, lie on the
/// board, and each lies inside a bracket of one of those directions.
proof fn lemma_flips_upto(cells: Map<(int, int), Tile>, p: Position, player: Color, i: nat)
    requires
        i <= 8,
    ensures
        flips_upto(cells, p, player, i).no_duplicates(),
        forall|j: int|
            0 <= j < flips_upto(cells, p, player, i).len() ==> flip_within(
                cells,
                p,
                player,
                #[trigger] flips_upto(cells, p, player, i)[j],
                i as int,
            ),
    decreases i,
{
    if i > 0 {
        let prev = flips_upto(cells, p, player, (i - 1) as nat);
        let d = Direction::all()[i - 1];
        let run = flips_toward(cells, p, d, player);
        let all = flips_upto(cells, p, player, i);
        lemma_flips_upto(cells, p, player, (i - 1) as nat);
        assert(all == prev + run);
        if exists|n: int| brackets(cells, p, d, player, n) {
            let n = choose|n: int| brackets(cells, p, d, player, n);
            assert(run == run_of(p, d, n));
            assert forall|j: int| 0 <= j < all.len() implies flip_within(cells, p, player, #[trigger] all[j], i as int) by {
                if j >= prev.len() {
                    assert(flip_witness(cells, p, player, all[j], i - 1, n, j - prev.len() + 1));
                } else {
                    assert(all[j] == prev[j]);
                    assert(flip_within(cells, p, player, prev[j], i - 1));
                    let (a, m, k) = choose|a: int, m: int, k: int|
                        a < i - 1 && flip_witness(cells, p, player, prev[j], a, m, k);
                    assert(flip_witness(cells, p, player, all[j], a, m, k));
                }
            }
            assert forall|j1: int, j2: int|
                0 <= j1 < all.len() && 0 <= j2 < all.len() && j1 != j2 implies all[j1]
                != all[j2] by {
                if j1 < prev.len() && j2 < prev.len() {
                    assert(all[j1] == prev[j1] && all[j2] == prev[j2]);
                } else if j1 >= prev.len() && j2 >= prev.len() {
                    if all[j1] == all[j2] {
                        lemma_ray_injective(p, d, j1 - prev.len() + 1, d, j2 - prev.len() + 1);
                    }
                } else {
                    let (jp, jr) = if j1 < prev.len() { (j1, j2) } else { (j2, j1) };
                    assert(all[jp] == prev[jp]);
                    assert(flip_within(cells, p, player, prev[jp], i - 1));
                    let (a, m, k) = choose|a: int, m: int, k: int|
                        a < i - 1 && flip_witness(cells, p, player, prev[jp], a, m, k);
                    if all[jp] == all[jr] {
                        lemma_ray_injective(p, Direction::all()[a], k, d, jr - prev.len() + 1);
                        assert(Direction::all()[a] != Direction::all()[i - 1]);
                    }
                }
            }
        } else {
            assert(run == Seq::<(int, int)>::empty());
            assert(all =~= prev);
            assert forall|j: int| 0 <= j < all.len() implies flip_within(cells, p, player, #[trigger] all[j], i as int) by {
                assert(flip_within(cells, p, player, prev[j], i - 1));
                let (a, m, k) = choose|a: int, m: int, k: int|
                    a < i - 1 && flip_witness(cells, p, player, prev[j], a, m, k);
                assert(flip_witness(cells, p, player, all[j], a, m, k));
            }
        }
    }
}

/// The cells a move at `p` turns over, followed by `p` itself, are distinct; the
/// turned-over cells lie on the board, each inside a bracket of some direction.
pub proof fn lemma_flips_distinct(cells: Map<(int, int), Tile>, p: Position, player: Color)
    ensures
        flips(cells, p, player).push(p.key()).no_duplicates(),
        forall|j: int|
            0 <= j < flips(cells, p, player).len() ==> flip_within(
                cells,
                p,
                player,
                #[trigger] flips(cells, p, player)[j],
                8,
            ),
        forall|j: int|
            0 <= j < flips(cells, p, player).len() ==> cells.contains_key(
                #[trigger] flips(cells, p, player)[j],
            ),
{
    let f = flips(cells, p, player);
    lemma_flips_upto(cells, p, player, 8);
    assert forall|j: int| 0 <= j < f.len() implies cells.contains_key(#[trigger] f[j]) by {
        assert(flip_within(cells, p, player, f[j], 8));
        let (a, n, k) = choose|a: int, n: int, k: int|
            a < 8 && flip_witness(cells, p, player, f[j], a, n, k);
    }
    assert forall|j: int| 0 <= j < f.len() implies f[j] != p.key() by {
        assert(flip_within(cells, p, player, f[j], 8));
        let (a, n, k) = choose|a: int, n: int, k: int|
            a < 8 && flip_witness(cells, p, player, f[j], a, n, k);
        lemma_ray_leaves_origin(p, Direction::all()[a], k);
    }
    let g = f.push(p.key());
    assert forall|j1: int, j2: int|
        0 <= j1 < g.len() && 0 <= j2 < g.len() && j1 != j2 implies g[j1] != g[j2] by {
        if j1 < f.len() && j2 < f.len() {
            assert(g[j1] == f[j1] && g[j2] == f[j2]);
        } else if j1 < f.len() {
            assert(g[j1] == f[j1]);
        } else if j2 < f.len() {
            assert(g[j2] == f[j2]);
        }
    }
}

/// The row-major enumeration of a `w` by `h` board has `w * h` positions, all
/// on the board, strictly increasing by row and then by column (so none
/// repeats), and every position of the board occurs in it.
pub proof fn lemma_row_major_enumerates(size: Size)
    ensures
        row_major(size).len() == size.width * size.height,
        forall|i: int|
            0 <= i < row_major(size).len() ==> in_bounds(#[trigger] row_major(size)[i].key(), size),
        forall|i: int, j: int|
            0 <= i < j < row_major(size).len() ==> (#[trigger] row_major(size)[i]).y < (
            #[trigger] row_major(size)[j]).y || (row_major(size)[i].y == row_major(size)[j].y
                && row_major(size)[i].x < row_major(size)[j].x),
        forall|q: Position|
            #![trigger in_bounds(q.key(), size)]
            in_bounds(q.key(), size) ==> exists|i: int|
                0 <= i < row_major(size).len() && row_major(size)[i] == q,
{
    let w = size.width as int;
    let h = size.height as int;
    let rm = row_major(size);
    assert(0 <= w * h) by (nonlinear_arith)
        requires
            0 <= w,
            0 <= h,
    ;
    assert forall|i: int| 0 <= i < rm.len() implies in_bounds(#[trigger] rm[i].key(), size) by {
        lemma_cell_of_index(i, w, h);
    }
    assert forall|i: int, j: int| 0 <= i < j < rm.len() implies (#[trigger] rm[i]).y < (
    #[trigger] rm[j]).y || (rm[i].y == rm[j].y && rm[i].x < rm[j].x) by {
        lemma_cell_of_index(i, w, h);
        lemma_cell_of_index(j, w, h);
        let (xi, yi, xj, yj) = (i % w, i / w, j % w, j / w);
        assert(yi < yj || (yi == yj && xi < xj)) by (nonlinear_arith)
            requires
                yi * w + xi == i,
                yj * w + xj == j,
                i < j,
                0 <= xi < w,
                0 <= xj < w,
        ;
    }
    assert forall|q: Position| #![trigger in_bounds(q.key(), size)] in_bounds(q.key(), size) implies exists|i: int|
        0 <= i < rm.len() && rm[i] == q by {
        let i = q.y * w + q.x;
        lemma_index_in_range(q.x as int, q.y as int, w, h);
        lemma_index_of_cell(q.x as int, q.y as int, w);
        assert(rm[i] == q);
    }
}

impl View for Board {
    type V = Map<(int, int), Tile>;

    /// Each cell of the board with its tile.
    closed spec fn view(&self) -> Map<(int, int), Tile> {
        Map::new(
            |c: (int, int)| in_bounds(c, self.size),
            |c: (int, int)| self.tiles@[cell_index(c, self.size.width as int)],
        )
    }
}

impl Board {
    /// The board's dimensions, as a value.
    pub closed spec fn spec_size(&self) -> Size {
        self.size
    }

    /// The board's dimensions.
    #[verifier::when_used_as_spec(spec_size)]
    pub fn size(&self) -> (r: Size)
        ensures
            r == self.spec_size(),
    {
        self.size
    }

    /// The tile vector holds exactly one tile per cell.
    pub closed spec fn wf(&self) -> bool {
        &&& self.tiles@.len() == self.size.width * self.size.height
        &&& self.size.width * self.size.height <= usize::MAX
    }

    /// The board holds exactly the cells inside its bounds.
    pub proof fn lemma_view_dom(&self)
        ensures
            forall|c: (int, int)| #[trigger] self@.contains_key(c) <==> in_bounds(c, self.size()),
    {
    }

    /// A board of `width` by `height` cells, all empty.
    pub fn new(width: usize, height: usize) -> (r: Board)
        requires
            width * height <= usize::MAX,
        ensures
            r.wf(),
            r.size() == (Size { width, height }),
            r@ == empty_cells(r.size()),
    {
        let n: usize = width * height;
        let mut tiles: Vec<Tile> = Vec::new();
        let mut i: usize = 0;
        while i < n
            invariant
                i <= n,
                tiles@.len() == i,
                forall|j: int| 0 <= j < i ==> tiles@[j] == Tile(None),
            decreases n - i,
        {
            tiles.push(Tile(None));
            i = i + 1;
        }
        let r = Board { tiles, size: Size { width, height } };
        assert forall|c: (int, int)| #[trigger] r@.contains_key(c) implies r@[c] == Tile(None) by {
            lemma_index_in_range(c.0, c.1, width as int, height as int);
        }
        assert(r@ =~= empty_cells(r.size));
        r
    }

    fn at(&self, pos: &Position) -> (r: &Tile)
        requires
            self.wf(),
            in_bounds(pos.key(), self.size()),
        ensures
            *r == self@[pos.key()],
    {
        proof {
            lemma_index_in_range(pos.x as int, pos.y as int, self.size.width as int, self.size.height as int);
        }
        &self.tiles[pos.y * self.size.width + pos.x]
    }

    fn at_mut(&mut self, pos: &Position) -> (r: &mut Tile)
        requires
            old(self).wf(),
            in_bounds(pos.key(), old(self).size()),
        ensures
            *r == old(self)@[pos.key()],
            final(self).size() == old(self).size(),
            final(self).tiles@ == old(self).tiles@.update(
                cell_index(pos.key(), old(self).size.width as int),
                *final(r),
            ),
    {
        proof {
            lemma_index_in_range(pos.x as int, pos.y as int, self.size.width as int, self.size.height as int);
        }
        let i: usize = pos.y * self.size.width + pos.x;
        &mut self.tiles[i]
    }

    proof fn lemma_update_view(old_board: &Board, new_board: &Board, pos: Position, t: Tile)
        requires
            old_board.wf(),
            in_bounds(pos.key(), old_board.size),
            new_board.size == old_board.size,
            new_board.tiles@ == old_board.tiles@.update(
                cell_index(pos.key(), old_board.size.width as int),
                t,
            ),
        ensures
            new_board.wf(),
            new_board@ == old_board@.insert(pos.key(), t),
    {
        let w = old_board.size.width as int;
        let h = old_board.size.height as int;
        lemma_index_in_range(pos.x as int, pos.y as int, w, h);
        assert forall|c: (int, int)| #[trigger] new_board@.contains_key(c) implies new_board@[c]
            == old_board@.insert(pos.key(), t)[c] by {
            lemma_index_in_range(c.0, c.1, w, h);
            if c != pos.key() {
                if cell_index(c, w) == cell_index(pos.key(), w) {
                    lemma_index_injective(c, pos.key(), w);
                }
            }
        }
        assert(new_board@ =~= old_board@.insert(pos.key(), t));
    }

    /// The tile at `pos`.
    pub fn get(&self, pos: &Position) -> (r: Tile)
        requires
            self.wf(),
            in_bounds(pos.key(), self.size()),
        ensures
            r == self@[pos.key()],
    {
        *self.at(pos)
    }

    /// Places a tile of `color` at `pos`.
    pub fn set(&mut self, pos: &Position, color: &Color)
        requires
            old(self).wf(),
            in_bounds(pos.key(), old(self).size()),
        ensures
            final(self).wf(),
            final(self).size() == old(self).size(),
            final(self)@ == old(self)@.insert(pos.key(), Tile(Some(*color))),
    {
        let ghost before = *self;
        let t = self.at_mut(pos);
        *t = Tile(Some(*color));
        proof {
            Board::lemma_update_view(&before, self, *pos, Tile(Some(*color)));
        }
    }

    /// Empties the cell at `pos`.
    pub fn unset(&mut self, pos: &Position)
        requires
            old(self).wf(),
            in_bounds(pos.key(), old(self).size()),
        ensures
            final(self).wf(),
            final(self).size() == old(self).size(),
            final(self)@ == old(self)@.insert(pos.key(), Tile(None)),
    {
        let ghost before = *self;
        let t = self.at_mut(pos);
        *t = Tile(None);
        proof {
            Board::lemma_update_view(&before, self, *pos, Tile(None));
        }
    }

    /// Every position of the board, row by row (`y` outer, `x` inner).
    pub fn iter_all_positions(&self) -> (r: Vec<Position>)
        requires
            self.wf(),
        ensures
            r@ == row_major(self.size()),
    {
        let w = self.size.width;
        let h = self.size.height;
        let mut r: Vec<Position> = Vec::new();
        let mut y: usize = 0;
        while y < h
            invariant
                w == self.size.width,
                h == self.size.height,
                w * h <= usize::MAX,
                y <= h,
                r@.len() == y * w,
                forall|j: int| 0 <= j < r@.len() ==> #[trigger] r@[j] == row_major(self.size)[j],
            decreases h - y,
        {
            let mut x: usize = 0;
            while x < w
                invariant
                    w == self.size.width,
                    h == self.size.height,
                    w * h <= usize::MAX,
                    y < h,
                    x <= w,
                    r@.len() == y * w + x,
                    forall|j: int| 0 <= j < r@.len() ==> #[trigger] r@[j] == row_major(self.size)[j],
                decreases w - x,
            {
                proof {
                    lemma_index_in_range(x as int, y as int, w as int, h as int);
                    lemma_index_of_cell(x as int, y as int, w as int);
                }
                r.push(Position { x, y });
                x = x + 1;
            }
            assert((y + 1) * w == y * w + w) by (nonlinear_arith);
            y = y + 1;
        }
        assert(h * w == w * h) by (nonlinear_arith);
        assert(r@ =~= row_major(self.size));
        r
    }

    /// Whether a tile lies at `pos`.
    pub fn taken(&self, pos: &Position) -> (r: bool)
        requires
            self.wf(),
            in_bounds(pos.key(), self.size()),
        ensures
            r == (self@[pos.key()] != Tile(None)),
    {
        self.at(pos).0.is_some()
    }
    fn calculate_flip_vector(&self, position: &Position, direction: &Direction, player: &Color) -> (r:
        Option<Vec<Position>>)
        requires
            self.wf(),
            in_bounds(position.key(), self.size()),
        ensures
            match r {
                Some(v) => v@.len() > 0 && keys_of(v@) == flips_toward(
                    self@,
                    *position,
                    *direction,
                    *player,
                ),
                None => flips_toward(self@, *position, *direction, *player) == Seq::<
                    (int, int),
                >::empty(),
            },
    {
        let ghost w = self.size.width as int;
        let ghost h = self.size.height as int;
        let ghost cells = self@;
        let ghost p = *position;
        let ghost d = *direction;
        let mut current = position.advance(direction, &self.size);
        let mut flip_vector: Vec<Position> = Vec::new();
        let ghost mut k: int = 1;
        assert(keys_of(flip_vector@) =~= run_of(p, d, 0));
        loop
            invariant
                self.wf(),
                cells == self@,
                p == *position,
                d == *direction,
                w == self.size.width,
                h == self.size.height,
                in_bounds(p.key(), self.size()),
                1 <= k <= w + h,
                flip_vector@.len() == k - 1,
                keys_of(flip_vector@) == run_of(p, d, k - 1),
                forall|j: int|
                    1 <= j < k ==> cells.contains_key(#[trigger] p.ray(d, j)) && cells[p.ray(d, j)]
                        == Tile(Some(player.other())),
                current.is_some() == in_bounds(p.ray(d, k), self.size()),
                current matches Some(q) ==> q.key() == p.ray(d, k),
            decreases w + h - k,
        {
            proof {
                self.lemma_view_dom();
            }
            match current {
                Some(pos) => {
                    match self.at(&pos).0 {
                        Some(color) => {
                            if color == *player {
                                if flip_vector.is_empty() {
                                    proof {
                                        lemma_no_bracket(cells, p, d, *player, k);
                                    }
                                    return None;
                                } else {
                                    proof {
                                        assert(brackets(cells, p, d, *player, k - 1));
                                        lemma_flips_toward_bracket(cells, p, d, *player, k - 1);
                                    }
                                    return Some(flip_vector);
                                }
                            } else {
                                proof {
                                    lemma_ray_bound(p, d, k, self.size);
                                }
                                let ghost prev = flip_vector@;
                                flip_vector.push(pos);
                                current = pos.advance(direction, &self.size);
                                proof {
                                    assert(keys_of(flip_vector@) =~= keys_of(prev).push(pos.key()));
                                    k = k + 1;
                                    assert(keys_of(flip_vector@) =~= run_of(p, d, k - 1));
                                }
                            }
                        },
                        None => {
                            proof {
                                lemma_no_bracket(cells, p, d, *player, k);
                            }
                            return None;
                        },
                    }
                },
                None => {
                    proof {
                        lemma_no_bracket(cells, p, d, *player, k);
                    }
                    return None;
                },
            }
        }
    }

    /// The positions that a move of `player` at `position` turns over: for each
    /// direction in the order of `Direction::all()`, the opponent tiles between
    /// `position` and the nearest tile of `player` beyond them.
    pub fn calculate_flip_positions(&self, position: &Position, player: &Color) -> (r: Vec<
        Position,
    >)
        requires
            self.wf(),
            in_bounds(position.key(), self.size()),
        ensures
            keys_of(r@) == flips(self@, *position, *player),
    {
        let directions = Direction::iter_all();
        let mut r: Vec<Position> = Vec::new();
        let mut i: usize = 0;
        assert(keys_of(r@) =~= flips_upto(self@, *position, *player, 0));
        while i < directions.len()
            invariant
                self.wf(),
                in_bounds(position.key(), self.size()),
                directions@ == Direction::all(),
                i <= 8,
                keys_of(r@) == flips_upto(self@, *position, *player, i as nat),
            decreases 8 - i,
        {
            let ghost before = r@;
            match self.calculate_flip_vector(position, &directions[i], player) {
                Some(mut v) => {
                    let ghost run = v@;
                    r.append(&mut v);
                    assert(keys_of(r@) =~= keys_of(before) + keys_of(run));
                },
                None => {
                    assert(r@ =~= before);
                    assert(keys_of(r@) =~= keys_of(before) + Seq::<(int, int)>::empty());
                },
            }
            i = i + 1;
        }
        r
    }
}

} // verus!
