use vstd::prelude::*;
use crate::board::{Board, WIDTH, HEIGHT, empty_grid, full_count, lemma_board_is_grid, rows_cleared};
use crate::chance::{clock_now, micros_between, random_below};
use crate::piece::{Shape, SHAPE_COUNT, matrix_of, columns, is_matrix, shape_matrix, rotated, rotate_matrix, lemma_rotated_is_matrix};

verus! {

broadcast use lemma_board_is_grid;

/// Column at which a new piece is anchored.
pub const SPAWN_X: i32 = 4;

/// Row at which a new piece is anchored.
pub const SPAWN_Y: i32 = 19;

/// Whether column `x`, row `y` is admissible for a piece cell: the column lies
/// within the grid and the row is not above the top row. Rows below the floor
/// are admissible here; they count as blocked instead.
pub open spec fn cell_in_bounds(x: int, y: int) -> bool {
    0 <= x < WIDTH && y <= HEIGHT - 1
}

/// Whether a piece cell at column `x`, row `y` would collide: below the floor,
/// or on an occupied cell of `g`.
pub open spec fn blocked(g: Seq<Seq<bool>>, x: int, y: int) -> bool {
    y < 0 || (0 <= x < WIDTH && y < HEIGHT && g[y][x])
}

/// Whether `m` has a piece cell `c` columns right of and `r` rows above its
/// anchor.
pub open spec fn in_piece(m: Seq<Seq<bool>>, c: int, r: int) -> bool {
    0 <= r < m.len() && 0 <= c < columns(m) && m[r][c]
}

/// Every cell of piece `m` anchored at (`px`, `py`) is admissible.
pub open spec fn cells_in_bounds(m: Seq<Seq<bool>>, px: int, py: int) -> bool {
    forall|r: int, c: int| #[trigger] in_piece(m, c, r) ==> cell_in_bounds(px + c, py + r)
}

/// Every cell of piece `m` anchored at (`px`, `py`) lies on the grid.
pub open spec fn on_board(m: Seq<Seq<bool>>, px: int, py: int) -> bool {
    forall|r: int, c: int| #[trigger] in_piece(m, c, r) ==> 0 <= px + c < WIDTH && 0 <= py + r < HEIGHT
}

/// Some cell of piece `m` anchored at (`px`, `py`) collides with `g`.
pub open spec fn any_blocked(g: Seq<Seq<bool>>, m: Seq<Seq<bool>>, px: int, py: int) -> bool {
    exists|r: int, c: int| #[trigger] in_piece(m, c, r) && blocked(g, px + c, py + r)
}

/// Piece `m` can stand anchored at (`px`, `py`) on `g`.
pub open spec fn fits(g: Seq<Seq<bool>>, m: Seq<Seq<bool>>, px: int, py: int) -> bool {
    cells_in_bounds(m, px, py) && !any_blocked(g, m, px, py)
}

/// Grid `g` with every cell of piece `m` anchored at (`px`, `py`) occupied.
pub open spec fn locked(g: Seq<Seq<bool>>, m: Seq<Seq<bool>>, px: int, py: int) -> Seq<Seq<bool>> {
    Seq::new(
        HEIGHT as nat,
        |y: int| Seq::new(WIDTH as nat, |x: int| g[y][x] || in_piece(m, x - px, y - py)),
    )
}

/// A piece `m` placed at the spawn anchor overlaps an occupied cell of `g`.
pub open spec fn spawn_blocked(g: Seq<Seq<bool>>, m: Seq<Seq<bool>>) -> bool {
    exists|r: int, c: int| #[trigger] in_piece(m, c, r)
        && cell_in_bounds(SPAWN_X + c, SPAWN_Y + r)
        && blocked(g, SPAWN_X + c, SPAWN_Y + r)
}

/// What the rules act on: the grid, the falling piece's matrix, its anchor and
/// the score.
pub struct Play {
    pub board: Seq<Seq<bool>>,
    pub piece: Seq<Seq<bool>>,
    pub x: int,
    pub y: int,
    pub score: int,
}

/// The piece locks: its cells are written into the grid if they all lie on it,
/// else the run resets. Then a piece of shape `next` appears at the spawn
/// anchor, and if it overlaps an occupied cell the run resets.
pub open spec fn lock_and_spawn(p: Play, next: Shape) -> Play {
    let fixed = on_board(p.piece, p.x, p.y);
    let b = if fixed { locked(p.board, p.piece, p.x, p.y) } else { empty_grid() };
    let m = shape_matrix(next);
    if spawn_blocked(b, m) {
        Play { board: empty_grid(), piece: m, x: SPAWN_X as int, y: SPAWN_Y as int, score: 0 }
    } else {
        Play { board: b, piece: m, x: SPAWN_X as int, y: SPAWN_Y as int, score: if fixed { p.score } else { 0 } }
    }
}

/// The score at which the run ended, if locking reset it.
pub open spec fn lock_reset(p: Play, next: Shape) -> Option<int> {
    if !on_board(p.piece, p.x, p.y) || spawn_blocked(locked(p.board, p.piece, p.x, p.y), shape_matrix(next)) {
        Some(p.score)
    } else {
        None
    }
}

/// An attempt to move the piece by (`dx`, `dy`). Where the piece fits at the
/// target it moves there. A downward attempt whose target is admissible but
/// collides locks the piece. Any other attempt changes nothing.
pub open spec fn translate(p: Play, dx: int, dy: int, next: Shape) -> Play {
    if fits(p.board, p.piece, p.x + dx, p.y + dy) {
        Play { x: p.x + dx, y: p.y + dy, ..p }
    } else if dy == -1 && cells_in_bounds(p.piece, p.x + dx, p.y + dy) {
        lock_and_spawn(p, next)
    } else {
        p
    }
}

/// The score at which the run ended, if the attempt reset it.
pub open spec fn translate_reset(p: Play, dx: int, dy: int, next: Shape) -> Option<int> {
    if !fits(p.board, p.piece, p.x + dx, p.y + dy) && dy == -1 && cells_in_bounds(p.piece, p.x + dx, p.y + dy) {
        lock_reset(p, next)
    } else {
        None
    }
}

/// An attempt to turn the piece a quarter where it stands. It turns only if the
/// turned piece fits; it is never shifted to make room.
pub open spec fn rotate(p: Play) -> Play {
    if fits(p.board, rotated(p.piece), p.x, p.y) {
        Play { piece: rotated(p.piece), ..p }
    } else {
        p
    }
}

/// Microseconds that the piece waits between falls.
pub const TICK_TIME: u64 = 125_000;

/// `a + b`, held at `u64::MAX`.
pub open spec fn sat_add(a: int, b: int) -> int {
    if a + b > u64::MAX { u64::MAX as int } else { a + b }
}

/// Every full row is cleared; each one adds one to the score.
pub open spec fn clear_rows(p: Play) -> Play {
    Play { board: rows_cleared(p.board), score: sat_add(p.score, full_count(p.board)), ..p }
}

/// The time accumulated towards a fall after `elapsed` more microseconds; a
/// pending soft drop counts the time twice.
pub open spec fn charged(tick: u64, elapsed: u64, dir: Option<Dir>) -> int {
    let once = sat_add(tick as int, elapsed as int);
    if dir == Some(Dir::Down) { sat_add(once, elapsed as int) } else { once }
}

/// The pending horizontal move, if any, applied to `p`.
pub open spec fn shifted(p: Play, dir: Option<Dir>, next: Shape) -> Play {
    match dir {
        Some(Dir::Left) => translate(p, -1, 0, next),
        Some(Dir::Right) => translate(p, 1, 0, next),
        _ => p,
    }
}

/// The pending direction after a step: a horizontal move is used up, a soft
/// drop stays.
pub open spec fn dir_after(dir: Option<Dir>) -> Option<Dir> {
    if dir == Some(Dir::Down) { dir } else { None }
}

/// `post` is `pre` after a step of `elapsed` microseconds in which a locking
/// piece is followed by one of shape `next`; `reset` is the final score if the
/// run reset. A paused run does not change. Otherwise the pending horizontal
/// move is made first; then, if the accumulated time exceeds `TICK_TIME`, the
/// piece tries to fall one row and the accumulated time starts again from
/// zero; last, full rows are cleared.
pub open spec fn stepped(pre: GameState, post: GameState, elapsed: u64, next: Shape, reset: Option<u64>) -> bool {
    if pre.paused {
        &&& post.play() == pre.play()
        &&& post.tick == pre.tick
        &&& post.dir == pre.dir
        &&& post.paused
        &&& reset.is_none()
    } else {
        let t = charged(pre.tick, elapsed, pre.dir);
        let p = shifted(pre.play(), pre.dir, next);
        let falls = t > TICK_TIME;
        &&& post.play() == clear_rows(if falls { translate(p, 0, -1, next) } else { p })
        &&& post.tick == if falls { 0 } else { t }
        &&& post.dir == dir_after(pre.dir)
        &&& !post.paused
        &&& reported(reset) == if falls { translate_reset(p, 0, -1, next) } else { None }
    }
}

/// A reported final score, as an integer.
pub open spec fn reported(o: Option<u64>) -> Option<int> {
    match o {
        Some(v) => Some(v as int),
        None => None,
    }
}

/// A piece that fits somewhere has its anchor near the grid.
proof fn lemma_fit_anchor(g: Seq<Seq<bool>>, m: Seq<Seq<bool>>, px: int, py: int)
    requires
        is_matrix(m),
        fits(g, m, px, py),
    ensures
        -3 <= px <= WIDTH - 1,
        -3 <= py <= HEIGHT - 1,
{
    let (r, c) = choose|r: int, c: int| 0 <= r < m.len() && 0 <= c < columns(m) && #[trigger] m[r][c];
    assert(in_piece(m, c, r));
}

/// Whether column `x`, row `y` is admissible for a piece cell.
fn cell_admissible(x: i32, y: i32) -> (r: bool)
    ensures
        r == cell_in_bounds(x as int, y as int),
{
    0 <= x && x < WIDTH as i32 && y <= HEIGHT as i32 - 1
}

/// Whether every cell of `m` anchored at (`px`, `py`) is admissible.
fn piece_in_bounds(m: &Vec<Vec<bool>>, px: i32, py: i32) -> (r: bool)
    requires
        is_matrix(matrix_of(*m)),
        -16 <= px <= 64,
        -16 <= py <= 64,
    ensures
        r == cells_in_bounds(matrix_of(*m), px as int, py as int),
{
    let ghost g = matrix_of(*m);
    let mut r: usize = 0;
    while r < m.len()
        invariant
            g == matrix_of(*m),
            is_matrix(g),
            r <= g.len(),
            -16 <= px <= 64,
            -16 <= py <= 64,
            forall|rr: int, c: int| #[trigger] in_piece(g, c, rr) && rr < r ==> cell_in_bounds(px + c, py + rr),
        decreases g.len() - r,
    {
        let row = &m[r];
        assert(row@ == g[r as int]);
        let mut c: usize = 0;
        while c < row.len()
            invariant
                g == matrix_of(*m),
                is_matrix(g),
                r < g.len(),
                row@ == g[r as int],
                c <= row@.len(),
                -16 <= px <= 64,
                -16 <= py <= 64,
                forall|rr: int, cc: int| #[trigger] in_piece(g, cc, rr) && (rr < r || (rr == r && cc < c)) ==> cell_in_bounds(px + cc, py + rr),
            decreases row@.len() - c,
        {
            if row[c] {
                if !cell_admissible(px + c as i32, py + r as i32) {
                    assert(in_piece(g, c as int, r as int));
                    return false;
                }
            }
            c += 1;
        }
        r += 1;
    }
    true
}


/// Whether the cell at column `x`, row `y` collides, for an admissible cell.
fn blocked_at(b: &Board, x: i32, y: i32) -> (r: bool)
    requires
        b.wf(),
        cell_in_bounds(x as int, y as int),
    ensures
        r == blocked(b@, x as int, y as int),
{
    if y < 0 {
        true
    } else {
        b.cell(x as usize, y as usize)
    }
}

/// Whether no cell of `m` anchored at (`px`, `py`) collides with `b`, for a
/// piece whose cells are all admissible.
fn piece_free(b: &Board, m: &Vec<Vec<bool>>, px: i32, py: i32) -> (r: bool)
    requires
        b.wf(),
        is_matrix(matrix_of(*m)),
        -16 <= px <= 64,
        -16 <= py <= 64,
        cells_in_bounds(matrix_of(*m), px as int, py as int),
    ensures
        r == !any_blocked(b@, matrix_of(*m), px as int, py as int),
{
    let ghost g = matrix_of(*m);
    let mut r: usize = 0;
    while r < m.len()
        invariant
            b.wf(),
            g == matrix_of(*m),
            is_matrix(g),
            r <= g.len(),
            -16 <= px <= 64,
            -16 <= py <= 64,
            cells_in_bounds(g, px as int, py as int),
            forall|rr: int, c: int| #[trigger] in_piece(g, c, rr) && rr < r ==> !blocked(b@, px + c, py + rr),
        decreases g.len() - r,
    {
        let row = &m[r];
        assert(row@ == g[r as int]);
        let mut c: usize = 0;
        while c < row.len()
            invariant
                b.wf(),
                g == matrix_of(*m),
                is_matrix(g),
                r < g.len(),
                row@ == g[r as int],
                c <= row@.len(),
                -16 <= px <= 64,
                -16 <= py <= 64,
                cells_in_bounds(g, px as int, py as int),
                forall|rr: int, cc: int| #[trigger] in_piece(g, cc, rr) && (rr < r || (rr == r && cc < c)) ==> !blocked(b@, px + cc, py + rr),
            decreases row@.len() - c,
        {
            if row[c] {
                assert(in_piece(g, c as int, r as int));
                if blocked_at(b, px + c as i32, py + r as i32) {
                    return false;
                }
            }
            c += 1;
        }
        r += 1;
    }
    true
}

/// Whether every cell of `m` anchored at (`px`, `py`) lies on the grid.
fn piece_on_board(m: &Vec<Vec<bool>>, px: i32, py: i32) -> (r: bool)
    requires
        is_matrix(matrix_of(*m)),
        -16 <= px <= 64,
        -16 <= py <= 64,
    ensures
        r == on_board(matrix_of(*m), px as int, py as int),
{
    let ghost g = matrix_of(*m);
    let mut r: usize = 0;
    while r < m.len()
        invariant
            g == matrix_of(*m),
            is_matrix(g),
            r <= g.len(),
            -16 <= px <= 64,
            -16 <= py <= 64,
            forall|rr: int, c: int| #[trigger] in_piece(g, c, rr) && rr < r ==> 0 <= px + c < WIDTH && 0 <= py + rr < HEIGHT,
        decreases g.len() - r,
    {
        let row = &m[r];
        assert(row@ == g[r as int]);
        let mut c: usize = 0;
        while c < row.len()
            invariant
                g == matrix_of(*m),
                is_matrix(g),
                r < g.len(),
                row@ == g[r as int],
                c <= row@.len(),
                -16 <= px <= 64,
                -16 <= py <= 64,
                forall|rr: int, cc: int| #[trigger] in_piece(g, cc, rr) && (rr < r || (rr == r && cc < c)) ==> 0 <= px + cc < WIDTH && 0 <= py + rr < HEIGHT,
            decreases row@.len() - c,
        {
            if row[c] {
                let x = px + c as i32;
                let y = py + r as i32;
                if !(0 <= x && x < WIDTH as i32 && 0 <= y && y < HEIGHT as i32) {
                    assert(in_piece(g, c as int, r as int));
                    return false;
                }
            }
            c += 1;
        }
        r += 1;
    }
    true
}

/// Whether a piece `m` at the spawn anchor overlaps an occupied cell of `b`.
fn spawn_overlaps(b: &Board, m: &Vec<Vec<bool>>) -> (r: bool)
    requires
        b.wf(),
        is_matrix(matrix_of(*m)),
    ensures
        r == spawn_blocked(b@, matrix_of(*m)),
{
    let ghost g = matrix_of(*m);
    let mut r: usize = 0;
    while r < m.len()
        invariant
            b.wf(),
            g == matrix_of(*m),
            is_matrix(g),
            r <= g.len(),
            forall|rr: int, c: int| #[trigger] in_piece(g, c, rr) && rr < r ==> !(cell_in_bounds(SPAWN_X + c, SPAWN_Y + rr) && blocked(b@, SPAWN_X + c, SPAWN_Y + rr)),
        decreases g.len() - r,
    {
        let row = &m[r];
        assert(row@ == g[r as int]);
        let mut c: usize = 0;
        while c < row.len()
            invariant
                b.wf(),
                g == matrix_of(*m),
                is_matrix(g),
                r < g.len(),
                row@ == g[r as int],
                c <= row@.len(),
                forall|rr: int, cc: int| #[trigger] in_piece(g, cc, rr) && (rr < r || (rr == r && cc < c)) ==> !(cell_in_bounds(SPAWN_X + cc, SPAWN_Y + rr) && blocked(b@, SPAWN_X + cc, SPAWN_Y + rr)),
            decreases row@.len() - c,
        {
            if row[c] {
                let x = SPAWN_X + c as i32;
                let y = SPAWN_Y + r as i32;
                if cell_admissible(x, y) {
                    if blocked_at(b, x, y) {
                        assert(in_piece(g, c as int, r as int));
                        return true;
                    }
                }
            }
            c += 1;
        }
        r += 1;
    }
    false
}

/// Writes every cell of `m` anchored at (`px`, `py`) into `b`.
fn write_piece(b: &mut Board, m: &Vec<Vec<bool>>, px: i32, py: i32)
    requires
        old(b).wf(),
        is_matrix(matrix_of(*m)),
        -16 <= px <= 64,
        -16 <= py <= 64,
        on_board(matrix_of(*m), px as int, py as int),
    ensures
        final(b).wf(),
        final(b)@ == locked(old(b)@, matrix_of(*m), px as int, py as int),
{
    let ghost g = matrix_of(*m);
    let ghost start = old(b)@;
    let mut r: usize = 0;
    while r < m.len()
        invariant
            b.wf(),
            g == matrix_of(*m),
            is_matrix(g),
            r <= g.len(),
            -16 <= px <= 64,
            -16 <= py <= 64,
            on_board(g, px as int, py as int),
            start == old(b)@,
            forall|y: int, x: int| 0 <= y < HEIGHT && 0 <= x < WIDTH ==> #[trigger] b@[y][x] == (start[y][x] || (in_piece(g, x - px, y - py) && y - py < r)),
        decreases g.len() - r,
    {
        let row = &m[r];
        assert(row@ == g[r as int]);
        let mut c: usize = 0;
        while c < row.len()
            invariant
                b.wf(),
                g == matrix_of(*m),
                is_matrix(g),
                r < g.len(),
                row@ == g[r as int],
                c <= row@.len(),
                -16 <= px <= 64,
                -16 <= py <= 64,
                on_board(g, px as int, py as int),
                start == old(b)@,
                forall|y: int, x: int| 0 <= y < HEIGHT && 0 <= x < WIDTH ==> #[trigger] b@[y][x] == (start[y][x] || (in_piece(g, x - px, y - py) && (y - py < r || (y - py == r && x - px < c)))),
            decreases row@.len() - c,
        {
            if row[c] {
                assert(in_piece(g, c as int, r as int));
                let ghost prev = b@;
                b.fill((px + c as i32) as usize, (py + r as i32) as usize);
                assert forall|y: int, x: int| 0 <= y < HEIGHT && 0 <= x < WIDTH implies #[trigger] b@[y][x] == (
                prev[y][x] || (y == py + r && x == px + c)) by {
                    if y == py + r {
                        assert(b@[y] == prev[y].update(px + c, true));
                    }
                }
            }
            c += 1;
        }
        r += 1;
    }
    assert(b@ =~~= locked(start, g, px as int, py as int));
}

/// What the player asks for: a soft drop, a move left or right, a quarter
/// turn, pausing or resuming, or anything else.
#[derive(Clone, Copy, Debug, PartialEq, Eq, Structural)]
pub enum Action {
    Down,
    Left,
    Right,
    Rotate,
    TogglePause,
    Other,
}

/// A pending horizontal move or soft drop, set by input and taken up by the
/// next step.
#[derive(Clone, Copy, Debug, PartialEq, Eq, Structural)]
pub enum Dir {
    Down,
    Right,
    Left,
}

/// The whole state of a run.
pub struct GameState {
    /// The locked cells.
    pub board: Board,
    /// The anchor of the falling piece: column, then row.
    pub pos: [i32; 2],
    /// The falling piece's matrix, bottom row first.
    pub tetrimino: Vec<Vec<bool>>,
    /// The direction that the next step takes up, if any.
    pub dir: Option<Dir>,
    /// The clock reading at the previous step.
    pub previous_time: instant::Instant,
    /// Microseconds accumulated towards the next fall.
    pub tick: u64,
    /// Rows cleared in this run.
    pub score: u64,
    /// Whether steps are suspended.
    pub paused: bool,
}

impl GameState {
    /// The state is consistent: a full grid, a well-formed piece, an anchor
    /// near the grid.
    pub open spec fn wf(&self) -> bool {
        &&& self.board.wf()
        &&& is_matrix(matrix_of(self.tetrimino))
        &&& -4 <= self.pos[0] <= WIDTH
        &&& -4 <= self.pos[1] <= HEIGHT
    }

    /// What the rules act on.
    pub open spec fn play(&self) -> Play {
        Play {
            board: self.board@,
            piece: matrix_of(self.tetrimino),
            x: self.pos[0] as int,
            y: self.pos[1] as int,
            score: self.score as int,
        }
    }
}


impl GameState {
    /// A fresh run with a piece of shape `shape` at the spawn anchor.
    pub fn with_shape(shape: Shape) -> (s: GameState)
        ensures
            s.wf(),
            s.board@ == empty_grid(),
            matrix_of(s.tetrimino) == shape_matrix(shape),
            s.pos[0] == SPAWN_X,
            s.pos[1] == SPAWN_Y,
            s.dir.is_none(),
            s.tick == 0,
            s.score == 0,
            !s.paused,
    {
        GameState {
            board: Board::new(),
            pos: [SPAWN_X, SPAWN_Y],
            tetrimino: shape.matrix(),
            dir: None,
            previous_time: clock_now(),
            tick: 0,
            score: 0,
            paused: false,
        }
    }

    /// A fresh run with a piece of a randomly chosen shape at the spawn anchor.
    pub fn new() -> (s: GameState)
        ensures
            s.wf(),
            s.board@ == empty_grid(),
            exists|shape: Shape| matrix_of(s.tetrimino) == shape_matrix(shape),
            s.pos[0] == SPAWN_X,
            s.pos[1] == SPAWN_Y,
            s.dir.is_none(),
            s.tick == 0,
            s.score == 0,
            !s.paused,
    {
        GameState::with_shape(GameState::random_shape())
    }

    /// A shape drawn at random from the catalogue.
    pub fn random_shape() -> (s: Shape) {
        Shape::from_index(random_below(SHAPE_COUNT))
    }

    /// A fresh matrix of a shape drawn at random from the catalogue.
    pub fn random_tetrimino() -> (m: Vec<Vec<bool>>)
        ensures
            exists|shape: Shape| matrix_of(m) == shape_matrix(shape),
            is_matrix(matrix_of(m)),
    {
        GameState::random_shape().matrix()
    }

    /// Whether `pos` (column, row) is admissible for a piece cell: the column
    /// lies within the grid and the row is not above the top row.
    pub fn in_bounds(&self, pos: [i32; 2]) -> (r: bool)
        ensures
            r == cell_in_bounds(pos[0] as int, pos[1] as int),
    {
        cell_admissible(pos[0], pos[1])
    }

    /// Whether a piece cell at the admissible `pos` (column, row), at most one
    /// row below the floor, collides: it is on the row under the floor or on an
    /// occupied cell.
    pub fn is_blocked(&self, pos: [i32; 2]) -> (r: bool)
        requires
            self.wf(),
            cell_in_bounds(pos[0] as int, pos[1] as int),
            pos[1] >= -1,
        ensures
            r == blocked(self.board@, pos[0] as int, pos[1] as int),
    {
        blocked_at(&self.board, pos[0], pos[1])
    }

    /// Ends the run: empties the grid and sets the score to zero. Returns the
    /// score that the run ended with.
    pub fn reset_game(&mut self) -> (final_score: u64)
        requires
            old(self).wf(),
        ensures
            final(self).wf(),
            final_score == old(self).score,
            final(self).board@ == empty_grid(),
            final(self).score == 0,
            final(self).pos == old(self).pos,
            final(self).tetrimino == old(self).tetrimino,
            final(self).dir == old(self).dir,
            final(self).tick == old(self).tick,
            final(self).paused == old(self).paused,
    {
        let s = self.score;
        self.board.clear();
        self.score = 0;
        s
    }

    /// Locks the piece and brings in a piece of shape `next`, as
    /// `lock_and_spawn` describes. Returns the final score if the run reset.
    fn lock_and_spawn(&mut self, next: Shape) -> (reset: Option<u64>)
        requires
            old(self).wf(),
        ensures
            final(self).wf(),
            final(self).play() == lock_and_spawn(old(self).play(), next),
            reported(reset) == lock_reset(old(self).play(), next),
            final(self).dir == old(self).dir,
            final(self).tick == old(self).tick,
            final(self).paused == old(self).paused,
    {
        let ghost p = self.play();
        let mut reset: Option<u64> = None;
        if piece_on_board(&self.tetrimino, self.pos[0], self.pos[1]) {
            write_piece(&mut self.board, &self.tetrimino, self.pos[0], self.pos[1]);
        } else {
            reset = Some(self.reset_game());
        }
        self.tetrimino = next.matrix();
        self.pos = [SPAWN_X, SPAWN_Y];
        if spawn_overlaps(&self.board, &self.tetrimino) {
            let s = self.reset_game();
            if reset.is_none() {
                reset = Some(s);
            }
        }
        assert(self.play() == lock_and_spawn(p, next));
        reset
    }

    /// Attempts to move the piece by `dir` (columns, rows), as `translate`
    /// describes; `next` is the shape that appears if the piece locks.
    /// Returns the final score if the run reset.
    pub fn move_tetrimino(&mut self, dir: [i32; 2], next: Shape) -> (reset: Option<u64>)
        requires
            old(self).wf(),
            -1 <= dir[0] <= 1,
            -1 <= dir[1] <= 1,
        ensures
            final(self).wf(),
            final(self).play() == translate(old(self).play(), dir[0] as int, dir[1] as int, next),
            reported(reset) == translate_reset(old(self).play(), dir[0] as int, dir[1] as int, next),
            final(self).dir == old(self).dir,
            final(self).tick == old(self).tick,
            final(self).paused == old(self).paused,
    {
        let ghost p = self.play();
        let nx = self.pos[0] + dir[0];
        let ny = self.pos[1] + dir[1];
        let admissible = piece_in_bounds(&self.tetrimino, nx, ny);
        if admissible && piece_free(&self.board, &self.tetrimino, nx, ny) {
            proof {
                lemma_fit_anchor(p.board, p.piece, nx as int, ny as int);
            }
            self.pos = [nx, ny];
            assert(self.play() == translate(p, dir[0] as int, dir[1] as int, next));
            None
        } else if dir[1] == -1 && admissible {
            self.lock_and_spawn(next)
        } else {
            None
        }
    }

    /// Attempts to turn the piece a quarter, as `rotate` describes.
    pub fn rotate_tetrimino(&mut self)
        requires
            old(self).wf(),
        ensures
            final(self).wf(),
            final(self).play() == rotate(old(self).play()),
            final(self).dir == old(self).dir,
            final(self).tick == old(self).tick,
            final(self).paused == old(self).paused,
    {
        let ghost p = self.play();
        proof {
            lemma_rotated_is_matrix(p.piece);
        }
        let t = rotate_matrix(&self.tetrimino);
        let px = self.pos[0];
        let py = self.pos[1];
        if piece_in_bounds(&t, px, py) && piece_free(&self.board, &t, px, py) {
            self.tetrimino = t;
            assert(self.play() == rotate(p));
        }
    }
}


impl GameState {
    /// The cells (column, row) that the falling piece covers, bottom row
    /// first, left to right.
    pub fn piece_cells(&self) -> (cells: Vec<(i32, i32)>)
        requires
            self.wf(),
        ensures
            forall|i: int| 0 <= i < cells@.len() ==> in_piece(
                matrix_of(self.tetrimino), #[trigger] cells@[i].0 - self.pos[0], cells@[i].1 - self.pos[1]),
            forall|r: int, c: int| #[trigger] in_piece(matrix_of(self.tetrimino), c, r) ==> cells@.contains(
                ((self.pos[0] + c) as i32, (self.pos[1] + r) as i32)),
    {
        let ghost g = matrix_of(self.tetrimino);
        let px = self.pos[0];
        let py = self.pos[1];
        let m = &self.tetrimino;
        let mut cells: Vec<(i32, i32)> = Vec::new();
        let mut r: usize = 0;
        while r < m.len()
            invariant
                g == matrix_of(*m),
                is_matrix(g),
                r <= g.len(),
                -4 <= px <= WIDTH,
                -4 <= py <= HEIGHT,
                forall|i: int| 0 <= i < cells@.len() ==> in_piece(g, #[trigger] cells@[i].0 - px, cells@[i].1 - py),
                forall|rr: int, c: int| #[trigger] in_piece(g, c, rr) && rr < r ==> cells@.contains(
                    ((px + c) as i32, (py + rr) as i32)),
            decreases g.len() - r,
        {
            let row = &m[r];
            assert(row@ == g[r as int]);
            let mut c: usize = 0;
            while c < row.len()
                invariant
                    g == matrix_of(*m),
                    is_matrix(g),
                    r < g.len(),
                    row@ == g[r as int],
                    c <= row@.len(),
                    -4 <= px <= WIDTH,
                    -4 <= py <= HEIGHT,
                    forall|i: int| 0 <= i < cells@.len() ==> in_piece(g, #[trigger] cells@[i].0 - px, cells@[i].1 - py),
                    forall|rr: int, cc: int| #[trigger] in_piece(g, cc, rr) && (rr < r || (rr == r && cc < c))
                        ==> cells@.contains(((px + cc) as i32, (py + rr) as i32)),
                decreases row@.len() - c,
            {
                if row[c] {
                    let cell = (px + c as i32, py + r as i32);
                    let ghost before = cells@;
                    cells.push(cell);
                    proof {
                        assert(in_piece(g, c as int, r as int));
                        assert(cells@[cells@.len() - 1] == cell);
                        assert forall|i: int| 0 <= i < cells@.len() implies in_piece(g, #[trigger] cells@[i].0 - px, cells@[i].1 - py) by {
                            if i < before.len() {
                                assert(cells@[i] == before[i]);
                            }
                        }
                        assert forall|rr: int, cc: int| #[trigger] in_piece(g, cc, rr) && (rr < r || (rr == r && cc < c + 1))
                            implies cells@.contains(((px + cc) as i32, (py + rr) as i32)) by {
                            if rr == r && cc == c {
                                assert(cells@[cells@.len() - 1] == ((px + cc) as i32, (py + rr) as i32));
                            } else {
                                let j = choose|j: int| 0 <= j < before.len() && before[j] == ((px + cc) as i32, (py + rr) as i32);
                                assert(cells@[j] == before[j]);
                            }
                        }
                    }
                }
                c += 1;
            }
            r += 1;
        }
        cells
    }

    /// Clears every full row, as `clear_rows` describes.
    pub fn check_rows(&mut self)
        requires
            old(self).wf(),
        ensures
            final(self).wf(),
            final(self).play() == clear_rows(old(self).play()),
            final(self).dir == old(self).dir,
            final(self).tick == old(self).tick,
            final(self).paused == old(self).paused,
    {
        let n = self.board.clear_full_rows();
        self.score = self.score.saturating_add(n as u64);
    }

    /// One step of `elapsed_micros` microseconds, as `stepped` describes; a
    /// piece that locks is followed by one of shape `next`. Returns the final
    /// score if the run reset.
    pub fn advance(&mut self, elapsed_micros: u64, next: Shape) -> (reset: Option<u64>)
        requires
            old(self).wf(),
        ensures
            final(self).wf(),
            stepped(*old(self), *final(self), elapsed_micros, next, reset),
    {
        if self.paused {
            return None;
        }
        self.tick = self.tick.saturating_add(elapsed_micros);
        match self.dir {
            Some(Dir::Down) => {
                self.tick = self.tick.saturating_add(elapsed_micros);
            },
            Some(Dir::Left) => {
                self.move_tetrimino([-1, 0], next);
                self.dir = None;
            },
            Some(Dir::Right) => {
                self.move_tetrimino([1, 0], next);
                self.dir = None;
            },
            None => {},
        }
        let mut reset: Option<u64> = None;
        if self.tick > TICK_TIME {
            reset = self.move_tetrimino([0, -1], next);
            self.tick = 0;
        }
        self.check_rows();
        reset
    }

    /// One step of the time that passed on the clock since the previous one;
    /// a piece that locks is followed by one of a random shape. Returns the
    /// final score if the run reset.
    pub fn update(&mut self) -> (reset: Option<u64>)
        requires
            old(self).wf(),
        ensures
            final(self).wf(),
            exists|elapsed: u64, next: Shape| stepped(*old(self), *final(self), elapsed, next, reset),
    {
        let ghost pre = *self;
        let now = clock_now();
        let elapsed = micros_between(&self.previous_time, &now);
        self.previous_time = now;
        assert(self.play() == pre.play());
        let next = GameState::random_shape();
        let reset = self.advance(elapsed, next);
        assert(stepped(pre, *self, elapsed, next, reset));
        reset
    }

    /// Takes in one action of the player. Pausing toggles whether the run is
    /// suspended. While it runs, a soft drop or a horizontal move becomes the
    /// pending direction and a turn is attempted at once; while it is
    /// suspended they change nothing. Any other action drops the pending
    /// direction. Returns whether the action was one of the five recognized.
    pub fn input(&mut self, action: Action) -> (consumed: bool)
        requires
            old(self).wf(),
        ensures
            final(self).wf(),
            consumed == (action != Action::Other),
            final(self).tick == old(self).tick,
            final(self).paused == if action == Action::TogglePause { !old(self).paused } else { old(self).paused },
            final(self).play() == if action == Action::Rotate && !old(self).paused {
                rotate(old(self).play())
            } else {
                old(self).play()
            },
            final(self).dir == if old(self).paused && action != Action::Other {
                old(self).dir
            } else {
                match action {
                    Action::Down => Some(Dir::Down),
                    Action::Left => Some(Dir::Left),
                    Action::Right => Some(Dir::Right),
                    Action::Other => None,
                    _ => old(self).dir,
                }
            },
    {
        match action {
            Action::TogglePause => {
                self.paused = !self.paused;
                true
            },
            Action::Down => {
                if !self.paused {
                    self.dir = Some(Dir::Down);
                }
                true
            },
            Action::Left => {
                if !self.paused {
                    self.dir = Some(Dir::Left);
                }
                true
            },
            Action::Right => {
                if !self.paused {
                    self.dir = Some(Dir::Right);
                }
                true
            },
            Action::Rotate => {
                if !self.paused {
                    self.rotate_tetrimino();
                }
                true
            },
            Action::Other => {
                self.dir = None;
                false
            },
        }
    }
}


/// A horizontal move that would take any cell of the piece out of the columns
/// of the grid changes nothing: the anchor stays where it was.
pub proof fn lemma_blocked_sideways_stays(p: Play, dx: int, r: int, c: int, next: Shape)
    requires
        in_piece(p.piece, c, r),
        !(0 <= p.x + dx + c < WIDTH),
    ensures
        translate(p, dx, 0, next) == p,
        translate_reset(p, dx, 0, next).is_none(),
{
    assert(!cells_in_bounds(p.piece, p.x + dx, p.y));
}

/// A fall whose target cells are all admissible and free moves the anchor
/// one row down and leaves the grid as it was.
pub proof fn lemma_free_fall(p: Play, next: Shape)
    requires
        cells_in_bounds(p.piece, p.x, p.y - 1),
        !any_blocked(p.board, p.piece, p.x, p.y - 1),
    ensures
        translate(p, 0, -1, next) == (Play { y: p.y - 1, ..p }),
        translate(p, 0, -1, next).board == p.board,
        translate_reset(p, 0, -1, next).is_none(),
{
}

/// A fall whose target is admissible but holds a blocked cell locks the piece:
/// a piece of shape `next` then stands at the spawn anchor. Unless the run
/// resets, every cell of the old piece is now occupied in the grid.
pub proof fn lemma_fall_locks(p: Play, next: Shape)
    requires
        cells_in_bounds(p.piece, p.x, p.y - 1),
        any_blocked(p.board, p.piece, p.x, p.y - 1),
    ensures
        translate(p, 0, -1, next).x == SPAWN_X,
        translate(p, 0, -1, next).y == SPAWN_Y,
        translate(p, 0, -1, next).piece == shape_matrix(next),
        forall|r: int, c: int| #[trigger] in_piece(p.piece, c, r) && on_board(p.piece, p.x, p.y)
            ==> locked(p.board, p.piece, p.x, p.y)[p.y + r][p.x + c],
        on_board(p.piece, p.x, p.y) && !spawn_blocked(locked(p.board, p.piece, p.x, p.y), shape_matrix(next))
            ==> translate(p, 0, -1, next).board == locked(p.board, p.piece, p.x, p.y)
            && translate(p, 0, -1, next).score == p.score,
{
    assert forall|r: int, c: int| #[trigger] in_piece(p.piece, c, r) && on_board(p.piece, p.x, p.y)
        implies locked(p.board, p.piece, p.x, p.y)[p.y + r][p.x + c] by {
        assert(in_piece(p.piece, (p.x + c) - p.x, (p.y + r) - p.y));
    }
}

/// A new piece that overlaps an occupied cell where it appears ends the run:
/// the grid is emptied, the score is zero, and the old score is reported.
pub proof fn lemma_spawn_overlap_resets(p: Play, next: Shape)
    requires
        spawn_blocked(locked(p.board, p.piece, p.x, p.y), shape_matrix(next)),
    ensures
        lock_and_spawn(p, next).board == empty_grid(),
        lock_and_spawn(p, next).score == 0,
        lock_reset(p, next) == Some(p.score),
{
}

/// A turn after which some cell of the piece would be out of bounds or
/// blocked is refused: the piece keeps its matrix, and nothing else changes.
pub proof fn lemma_refused_turn(p: Play)
    requires
        !cells_in_bounds(rotated(p.piece), p.x, p.y) || any_blocked(p.board, rotated(p.piece), p.x, p.y),
    ensures
        rotate(p) == p,
        rotate(p).piece == p.piece,
{
}

} // verus!
