use vstd::prelude::*;

verus! {

/// Number of columns of the grid.
pub const WIDTH: usize = 10;

/// Number of rows of the grid; row 0 is the floor.
pub const HEIGHT: usize = 20;

/// A row with every cell occupied.
pub open spec fn row_full(r: Seq<bool>) -> bool {
    forall|x: int| 0 <= x < r.len() ==> #[trigger] r[x]
}

/// A row with no cell occupied.
pub open spec fn empty_row() -> Seq<bool> {
    Seq::new(WIDTH as nat, |x: int| false)
}

/// The grid with no cell occupied.
pub open spec fn empty_grid() -> Seq<Seq<bool>> {
    Seq::new(HEIGHT as nat, |y: int| empty_row())
}

/// A grid of `HEIGHT` rows of `WIDTH` cells each.
pub open spec fn is_grid(g: Seq<Seq<bool>>) -> bool {
    &&& g.len() == HEIGHT
    &&& forall|y: int| 0 <= y < g.len() ==> (#[trigger] g[y]).len() == WIDTH
}

/// The rows of `g` that are not full, in their order.
pub open spec fn kept_rows(g: Seq<Seq<bool>>) -> Seq<Seq<bool>>
    decreases g.len(),
{
    if g.len() == 0 {
        g
    } else if row_full(g[0]) {
        kept_rows(g.drop_first())
    } else {
        seq![g[0]] + kept_rows(g.drop_first())
    }
}

/// Number of full rows of `g`.
pub open spec fn full_count(g: Seq<Seq<bool>>) -> int {
    g.len() - kept_rows(g).len()
}

/// `n` empty rows.
pub open spec fn empty_rows(n: int) -> Seq<Seq<bool>> {
    Seq::new(n as nat, |i: int| empty_row())
}

/// `g` with every full row taken out and the rows above moved down to close
/// the gap; empty rows fill the top.
pub open spec fn rows_cleared(g: Seq<Seq<bool>>) -> Seq<Seq<bool>> {
    kept_rows(g) + empty_rows(full_count(g))
}

/// Number of occupied cells of a row.
pub open spec fn row_count(r: Seq<bool>) -> int
    decreases r.len(),
{
    if r.len() == 0 {
        0
    } else {
        (if r[0] { 1int } else { 0int }) + row_count(r.drop_first())
    }
}

/// Number of occupied cells of a grid.
pub open spec fn occupied(g: Seq<Seq<bool>>) -> int
    decreases g.len(),
{
    if g.len() == 0 {
        0
    } else {
        row_count(g[0]) + occupied(g.drop_first())
    }
}

/// Taking out full rows never adds rows, and no row that stays is full.
pub proof fn lemma_kept_rows(g: Seq<Seq<bool>>)
    ensures
        kept_rows(g).len() <= g.len(),
        forall|i: int| 0 <= i < kept_rows(g).len() ==> !row_full(#[trigger] kept_rows(g)[i]),
    decreases g.len(),
{
    if g.len() > 0 {
        lemma_kept_rows(g.drop_first());
        if !row_full(g[0]) {
            let k = seq![g[0]] + kept_rows(g.drop_first());
            assert forall|i: int| 0 <= i < k.len() implies !row_full(#[trigger] k[i]) by {
                if i > 0 {
                    assert(k[i] == kept_rows(g.drop_first())[i - 1]);
                }
            }
        }
    }
}

/// The occupied cells of two grids put one on the other add up.
proof fn lemma_occupied_concat(a: Seq<Seq<bool>>, b: Seq<Seq<bool>>)
    ensures
        occupied(a + b) == occupied(a) + occupied(b),
    decreases a.len(),
{
    if a.len() > 0 {
        assert((a + b).drop_first() =~= a.drop_first() + b);
        lemma_occupied_concat(a.drop_first(), b);
    } else {
        assert(a + b =~= b);
    }
}

/// A full row has all its cells occupied.
proof fn lemma_full_row_count(r: Seq<bool>)
    requires
        row_full(r),
    ensures
        row_count(r) == r.len(),
    decreases r.len(),
{
    if r.len() > 0 {
        assert(r[0]);
        assert forall|x: int| 0 <= x < r.drop_first().len() implies #[trigger] r.drop_first()[x] by {
            assert(r[x + 1]);
        }
        lemma_full_row_count(r.drop_first());
    }
}

/// A row with no occupied cell counts none.
proof fn lemma_blank_row_count(r: Seq<bool>)
    requires
        forall|x: int| 0 <= x < r.len() ==> !#[trigger] r[x],
    ensures
        row_count(r) == 0,
    decreases r.len(),
{
    if r.len() > 0 {
        assert forall|x: int| 0 <= x < r.drop_first().len() implies !#[trigger] r.drop_first()[x] by {
            assert(!r[x + 1]);
        }
        lemma_blank_row_count(r.drop_first());
    }
}

/// Empty rows hold no occupied cell.
proof fn lemma_empty_rows_count(n: int)
    requires
        n >= 0,
    ensures
        occupied(empty_rows(n)) == 0,
    decreases n,
{
    if n > 0 {
        lemma_blank_row_count(empty_row());
        assert(empty_rows(n).drop_first() =~= empty_rows(n - 1));
        lemma_empty_rows_count(n - 1);
    }
}

/// Taking out the full rows of a grid whose rows all have `WIDTH` cells takes
/// out `WIDTH` occupied cells per full row.
proof fn lemma_kept_rows_count(g: Seq<Seq<bool>>)
    requires
        forall|y: int| 0 <= y < g.len() ==> (#[trigger] g[y]).len() == WIDTH,
    ensures
        occupied(kept_rows(g)) == occupied(g) - full_count(g) * WIDTH,
    decreases g.len(),
{
    if g.len() > 0 {
        let t = g.drop_first();
        assert forall|y: int| 0 <= y < t.len() implies (#[trigger] t[y]).len() == WIDTH by {
            assert(t[y] == g[y + 1]);
        }
        lemma_kept_rows_count(t);
        assert(occupied(g) == row_count(g[0]) + occupied(t));
        if row_full(g[0]) {
            lemma_full_row_count(g[0]);
            assert(kept_rows(g) == kept_rows(t));
        } else {
            let one = seq![g[0]];
            lemma_occupied_concat(one, kept_rows(t));
            assert(one.drop_first() =~= Seq::<Seq<bool>>::empty());
            assert(occupied(one.drop_first()) == 0);
            assert(occupied(one) == row_count(g[0]));
            assert(kept_rows(g) == one + kept_rows(t));
        }
    }
}

/// Clearing full rows leaves a grid of the same shape with no full row, and
/// removes exactly `WIDTH` occupied cells for each row that was full.
pub proof fn lemma_rows_cleared(g: Seq<Seq<bool>>)
    requires
        is_grid(g),
    ensures
        is_grid(rows_cleared(g)),
        forall|y: int| 0 <= y < HEIGHT ==> !row_full(#[trigger] rows_cleared(g)[y]),
        occupied(rows_cleared(g)) == occupied(g) - full_count(g) * WIDTH,
        0 <= full_count(g) <= HEIGHT,
{
    lemma_kept_rows(g);
    lemma_kept_rows_count(g);
    lemma_empty_rows_count(full_count(g));
    lemma_occupied_concat(kept_rows(g), empty_rows(full_count(g)));
    let h = rows_cleared(g);
    let k = kept_rows(g);
    assert forall|y: int| 0 <= y < HEIGHT implies !row_full(#[trigger] h[y]) && h[y].len() == WIDTH by {
        if y < k.len() {
            assert(h[y] == k[y]);
            lemma_kept_rows_in(g, y);
        } else {
            assert(h[y] == empty_row());
            assert(!h[y][0]);
        }
    }
}

/// Each row that stays after clearing is a row of the original grid.
proof fn lemma_kept_rows_in(g: Seq<Seq<bool>>, i: int)
    requires
        0 <= i < kept_rows(g).len(),
    ensures
        g.contains(kept_rows(g)[i]),
    decreases g.len(),
{
    lemma_kept_rows(g);
    let t = g.drop_first();
    if row_full(g[0]) {
        lemma_kept_rows_in(t, i);
        let j = choose|j: int| 0 <= j < t.len() && t[j] == kept_rows(t)[i];
        assert(g[j + 1] == kept_rows(g)[i]);
    } else if i == 0 {
        assert(g[0] == kept_rows(g)[0]);
    } else {
        lemma_kept_rows_in(t, i - 1);
        let j = choose|j: int| 0 <= j < t.len() && t[j] == kept_rows(t)[i - 1];
        assert(g[j + 1] == kept_rows(g)[i]);
    }
}

/// The indices, in ascending order, of the rows of `g` that are not full.
pub open spec fn kept_indices(g: Seq<Seq<bool>>) -> Seq<int>
    decreases g.len(),
{
    if g.len() == 0 {
        Seq::empty()
    } else {
        let rest = kept_indices(g.drop_first()).map_values(|j: int| j + 1);
        if row_full(g[0]) {
            rest
        } else {
            seq![0int] + rest
        }
    }
}

/// The rows that stay are the rows of `g` at `kept_indices(g)`; those indices
/// ascend, and every row that is not full is among them.
proof fn lemma_kept_indices(g: Seq<Seq<bool>>)
    ensures
        kept_indices(g).len() == kept_rows(g).len(),
        forall|i: int| 0 <= i < kept_indices(g).len() ==> 0 <= #[trigger] kept_indices(g)[i] < g.len(),
        forall|i: int| 0 <= i < kept_indices(g).len() ==> #[trigger] kept_rows(g)[i] == g[kept_indices(g)[i]],
        forall|i: int, j: int| 0 <= i < j < kept_indices(g).len() ==> #[trigger] kept_indices(g)[i] < #[trigger] kept_indices(g)[j],
        forall|y: int| 0 <= y < g.len() && !row_full(#[trigger] g[y]) ==> kept_indices(g).contains(y),
    decreases g.len(),
{
    if g.len() > 0 {
        let t = g.drop_first();
        lemma_kept_indices(t);
        let kt = kept_indices(t);
        let rest = kt.map_values(|j: int| j + 1);
        let k = kept_indices(g);
        assert forall|y: int| 0 <= y < g.len() && !row_full(#[trigger] g[y]) implies k.contains(y) by {
            if y == 0 {
                assert(k[0] == 0);
            } else {
                assert(t[y - 1] == g[y]);
                let i = choose|i: int| 0 <= i < kt.len() && kt[i] == y - 1;
                if row_full(g[0]) {
                    assert(k[i] == y);
                } else {
                    assert(k[i + 1] == y);
                }
            }
        }
        if row_full(g[0]) {
            assert forall|i: int| 0 <= i < k.len() implies #[trigger] kept_rows(g)[i] == g[k[i]] by {
                assert(t[kt[i]] == g[kt[i] + 1]);
            }
        } else {
            assert forall|i: int| 0 <= i < k.len() implies #[trigger] kept_rows(g)[i] == g[k[i]] by {
                if i > 0 {
                    assert(k[i] == kt[i - 1] + 1);
                    assert(t[kt[i - 1]] == g[kt[i - 1] + 1]);
                    assert(kept_rows(g)[i] == kept_rows(t)[i - 1]);
                }
            }
            assert forall|i: int, j: int| 0 <= i < j < k.len() implies #[trigger] k[i] < #[trigger] k[j] by {
                if i > 0 {
                    assert(kt[i - 1] < kt[j - 1]);
                } else {
                    assert(0 <= kt[j - 1]);
                }
            }
        }
    }
}

/// Clearing full rows keeps the rows that are not full in their relative
/// vertical order: row `i` of the result is row `kept_indices(g)[i]` of `g`,
/// those indices ascend, every row that is not full is among them, and the
/// rows above them are empty.
pub proof fn lemma_clear_keeps_row_order(g: Seq<Seq<bool>>)
    requires
        is_grid(g),
    ensures
        forall|i: int| 0 <= i < kept_indices(g).len() ==> 0 <= #[trigger] kept_indices(g)[i] < HEIGHT,
        forall|i: int| 0 <= i < kept_indices(g).len() ==> #[trigger] rows_cleared(g)[i] == g[kept_indices(g)[i]],
        forall|i: int, j: int| 0 <= i < j < kept_indices(g).len() ==> #[trigger] kept_indices(g)[i] < #[trigger] kept_indices(g)[j],
        forall|y: int| 0 <= y < HEIGHT && !row_full(#[trigger] g[y]) ==> kept_indices(g).contains(y),
        forall|i: int| kept_indices(g).len() <= i < HEIGHT ==> #[trigger] rows_cleared(g)[i] == empty_row(),
{
    lemma_kept_indices(g);
    lemma_kept_rows(g);
    let k = kept_rows(g);
    assert forall|i: int| 0 <= i < k.len() implies #[trigger] rows_cleared(g)[i] == k[i] by {}
}

/// Clearing row `y` keeps the rows below it where they were and moves each
/// row above it down by exactly one, so the rows above keep their order; the
/// top row becomes empty.
pub proof fn lemma_clear_row_keeps_order(g: Seq<Seq<bool>>, y: int)
    requires
        is_grid(g),
        0 <= y < HEIGHT,
    ensures
        forall|i: int| 0 <= i < y ==> #[trigger] g.remove(y).push(empty_row())[i] == g[i],
        forall|i: int| y < i < HEIGHT ==> #[trigger] g.remove(y).push(empty_row())[i - 1] == g[i],
        g.remove(y).push(empty_row())[HEIGHT - 1] == empty_row(),
        is_grid(g.remove(y).push(empty_row())),
{
}

/// The occupancy grid. Viewed as a sequence of rows, bottom row first; each row
/// is a sequence of cells, left column first.
pub struct Board {
    /// Row-major cells: the cell at column `x` of row `y` is `cells[y * WIDTH + x]`.
    cells: Vec<bool>,
}

impl Board {
    /// The cell vector holds the whole grid.
    pub closed spec fn wf(&self) -> bool {
        self.cells@.len() == WIDTH * HEIGHT
    }

    spec fn at(&self, x: int, y: int) -> bool {
        self.cells@[y * WIDTH + x]
    }
}

impl View for Board {
    type V = Seq<Seq<bool>>;

    closed spec fn view(&self) -> Seq<Seq<bool>> {
        Seq::new(HEIGHT as nat, |y: int| Seq::new(WIDTH as nat, |x: int| self.at(x, y)))
    }
}

/// Every board is a grid of `HEIGHT` rows of `WIDTH` cells.
pub broadcast proof fn lemma_board_is_grid(b: &Board)
    ensures
        is_grid(#[trigger] b@),
{
}

impl Board {
    /// A board with every cell empty.
    pub fn new() -> (b: Board)
        ensures
            b.wf(),
            b@ == empty_grid(),
    {
        let cells = vec![false; WIDTH * HEIGHT];
        let b = Board { cells };
        assert(b@ =~~= empty_grid());
        b
    }

    /// Whether the cell at column `x` of row `y` is occupied.
    pub fn cell(&self, x: usize, y: usize) -> (r: bool)
        requires
            self.wf(),
            x < WIDTH,
            y < HEIGHT,
        ensures
            r == self@[y as int][x as int],
    {
        self.cells[y * WIDTH + x]
    }
}


impl Board {
    /// Marks the cell at column `x` of row `y` occupied.
    pub fn fill(&mut self, x: usize, y: usize)
        requires
            old(self).wf(),
            x < WIDTH,
            y < HEIGHT,
        ensures
            final(self).wf(),
            final(self)@ == old(self)@.update(y as int, old(self)@[y as int].update(x as int, true)),
    {
        self.cells.set(y * WIDTH + x, true);
        assert(self@ =~~= old(self)@.update(y as int, old(self)@[y as int].update(x as int, true)));
    }

    /// Whether every cell of row `y` is occupied.
    pub fn row_is_full(&self, y: usize) -> (r: bool)
        requires
            self.wf(),
            y < HEIGHT,
        ensures
            r == row_full(self@[y as int]),
    {
        let mut x: usize = 0;
        while x < WIDTH
            invariant
                x <= WIDTH,
                y < HEIGHT,
                self.cells@.len() == WIDTH * HEIGHT,
                forall|i: int| 0 <= i < x ==> #[trigger] self@[y as int][i],
            decreases WIDTH - x,
        {
            if !self.cells[y * WIDTH + x] {
                assert(!self@[y as int][x as int]);
                return false;
            }
            x += 1;
        }
        true
    }

    /// Empties row `y` and moves every row above it down by one; the top row
    /// becomes empty.
    pub fn clear_row(&mut self, y: usize)
        requires
            old(self).wf(),
            y < HEIGHT,
        ensures
            final(self).wf(),
            final(self)@ == old(self)@.remove(y as int).push(empty_row()),
    {
        let ghost g = old(self)@;
        let mut yy: usize = y;
        while yy + 1 < HEIGHT
            invariant
                y <= yy < HEIGHT,
                self.cells@.len() == WIDTH * HEIGHT,
                g == old(self)@,
                forall|r: int, c: int|
                    0 <= r < HEIGHT && 0 <= c < WIDTH ==> #[trigger] self.at(c, r) == if r < y {
                        g[r][c]
                    } else if r < yy {
                        g[r + 1][c]
                    } else {
                        g[r][c]
                    },
            decreases HEIGHT - yy,
        {
            let mut x: usize = 0;
            while x < WIDTH
                invariant
                    x <= WIDTH,
                    y <= yy,
                    yy + 1 < HEIGHT,
                    self.cells@.len() == WIDTH * HEIGHT,
                    g == old(self)@,
                    forall|r: int, c: int|
                        0 <= r < HEIGHT && 0 <= c < WIDTH ==> #[trigger] self.at(c, r) == if r < y {
                            g[r][c]
                        } else if r < yy || (r == yy && c < x) {
                            g[r + 1][c]
                        } else {
                            g[r][c]
                        },
                decreases WIDTH - x,
            {
                let v = self.cells[(yy + 1) * WIDTH + x];
                assert(v == self.at(x as int, yy + 1));
                let ghost prev = *self;
                self.cells.set(yy * WIDTH + x, v);
                proof {
                    assert forall|r: int, c: int| 0 <= r < HEIGHT && 0 <= c < WIDTH implies
                        #[trigger] self.at(c, r) == if r < y {
                            g[r][c]
                        } else if r < yy || (r == yy && c < x + 1) {
                            g[r + 1][c]
                        } else {
                            g[r][c]
                        } by {
                        if r * WIDTH + c != yy * WIDTH + x {
                            assert(self.at(c, r) == prev.at(c, r));
                        }
                    }
                }
                x += 1;
            }
            yy += 1;
        }
        let mut x: usize = 0;
        while x < WIDTH
            invariant
                x <= WIDTH,
                y < HEIGHT,
                self.cells@.len() == WIDTH * HEIGHT,
                g == old(self)@,
                forall|r: int, c: int|
                    0 <= r < HEIGHT && 0 <= c < WIDTH ==> #[trigger] self.at(c, r) == if r < y {
                        g[r][c]
                    } else if r < HEIGHT - 1 {
                        g[r + 1][c]
                    } else if c < x {
                        false
                    } else {
                        g[r][c]
                    },
            decreases WIDTH - x,
        {
            let ghost prev = *self;
            self.cells.set((HEIGHT - 1) * WIDTH + x, false);
            assert forall|r: int, c: int| 0 <= r < HEIGHT && 0 <= c < WIDTH && r * WIDTH + c != (
            HEIGHT - 1) * WIDTH + x implies #[trigger] self.at(c, r) == prev.at(c, r) by {}
            x += 1;
        }
        assert(self@ =~~= g.remove(y as int).push(empty_row()));
    }

    /// Empties every cell.
    pub fn clear(&mut self)
        ensures
            final(self).wf(),
            final(self)@ == empty_grid(),
    {
        *self = Board::new();
    }
}


impl Board {
    /// Clears every full row, moving the rows above down each time. Returns
    /// the number of rows cleared.
    pub fn clear_full_rows(&mut self) -> (n: usize)
        requires
            old(self).wf(),
        ensures
            final(self).wf(),
            final(self)@ == rows_cleared(old(self)@),
            n == full_count(old(self)@),
    {
        let ghost g = self@;
        let mut y: usize = HEIGHT;
        let mut n: usize = 0;
        proof {
            assert(g.subrange(HEIGHT as int, HEIGHT as int) =~= Seq::<Seq<bool>>::empty());
            assert(g.subrange(0, HEIGHT as int) + Seq::<Seq<bool>>::empty() + empty_rows(0) =~= g);
        }
        while y > 0
            invariant
                self.wf(),
                y <= HEIGHT,
                g == old(self)@,
                is_grid(g),
                kept_rows(g.subrange(y as int, HEIGHT as int)).len() + n == HEIGHT - y,
                self@ == g.subrange(0, y as int) + kept_rows(g.subrange(y as int, HEIGHT as int))
                    + empty_rows(n as int),
            decreases y,
        {
            y -= 1;
            let ghost rest = g.subrange(y as int, HEIGHT as int);
            let ghost k = kept_rows(g.subrange(y + 1, HEIGHT as int));
            proof {
                lemma_kept_rows(rest);
                assert(rest.drop_first() =~= g.subrange(y + 1, HEIGHT as int));
                assert(rest[0] == g[y as int]);
                assert(self@[y as int] == g[y as int]);
            }
            if self.row_is_full(y) {
                self.clear_row(y);
                n += 1;
                assert(self@ =~= g.subrange(0, y as int) + kept_rows(rest) + empty_rows(n as int));
            } else {
                assert(self@ =~= g.subrange(0, y as int) + kept_rows(rest) + empty_rows(n as int));
            }
        }
        assert(g.subrange(0, HEIGHT as int) =~= g);
        assert(g.subrange(0, 0) + kept_rows(g) =~= kept_rows(g));
        n
    }
}

} // verus!
