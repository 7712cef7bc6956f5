use vstd::prelude::*;

verus! {

/// The seven shapes that a piece can take when it appears.
#[derive(Clone, Copy, Debug, PartialEq, Eq, Structural)]
pub enum Shape {
    O,
    T,
    S,
    Z,
    J,
    L,
    I,
}

/// Number of shapes in the catalogue.
pub const SHAPE_COUNT: usize = 7;

/// The occupancy matrix of a piece: `m[r][c]` tells whether the cell `c`
/// columns right of and `r` rows above the piece's anchor is part of the piece.
pub open spec fn matrix_of(v: Vec<Vec<bool>>) -> Seq<Seq<bool>> {
    v@.map_values(|row: Vec<bool>| row@)
}

/// Number of columns of a matrix.
pub open spec fn columns(m: Seq<Seq<bool>>) -> int {
    if m.len() == 0 { 0 } else { m[0].len() as int }
}

/// A rectangular matrix of one to four rows and one to four columns that
/// holds at least one cell of the piece.
pub open spec fn is_matrix(m: Seq<Seq<bool>>) -> bool {
    &&& 1 <= m.len() <= 4
    &&& 1 <= columns(m) <= 4
    &&& forall|r: int| 0 <= r < m.len() ==> (#[trigger] m[r]).len() == columns(m)
    &&& exists|r: int, c: int| 0 <= r < m.len() && 0 <= c < columns(m) && #[trigger] m[r][c]
}

/// The matrix of each shape, bottom row first.
pub open spec fn shape_matrix(s: Shape) -> Seq<Seq<bool>> {
    match s {
        Shape::O => seq![seq![true, true], seq![true, true]],
        Shape::T => seq![seq![false, true, false], seq![true, true, true]],
        Shape::S => seq![seq![false, true, true], seq![true, true, false]],
        Shape::Z => seq![seq![true, true, false], seq![false, true, true]],
        Shape::J => seq![seq![true, false, false], seq![true, true, true]],
        Shape::L => seq![seq![false, false, true], seq![true, true, true]],
        Shape::I => seq![seq![true, true, true, true]],
    }
}

/// The shape at position `i` of the catalogue.
pub open spec fn shape_at(i: int) -> Shape {
    if i == 0 {
        Shape::O
    } else if i == 1 {
        Shape::T
    } else if i == 2 {
        Shape::S
    } else if i == 3 {
        Shape::Z
    } else if i == 4 {
        Shape::J
    } else if i == 5 {
        Shape::L
    } else {
        Shape::I
    }
}

/// The matrix turned a quarter: row `i` of the result is column
/// `columns(m) - 1 - i` of `m`, read from the bottom row up.
pub open spec fn rotated(m: Seq<Seq<bool>>) -> Seq<Seq<bool>> {
    Seq::new(
        columns(m) as nat,
        |i: int| Seq::new(m.len(), |j: int| m[j][columns(m) - 1 - i]),
    )
}

/// Turning a well-formed matrix gives a well-formed matrix.
pub proof fn lemma_rotated_is_matrix(m: Seq<Seq<bool>>)
    requires
        is_matrix(m),
    ensures
        is_matrix(rotated(m)),
        rotated(m).len() == columns(m),
        columns(rotated(m)) == m.len(),
{
    let t = rotated(m);
    let (r, c) = choose|r: int, c: int| 0 <= r < m.len() && 0 <= c < columns(m) && #[trigger] m[r][c];
    assert(t[columns(m) - 1 - c][r]);
}

impl Shape {
    /// The shape at position `i` of the catalogue.
    pub fn from_index(i: usize) -> (s: Shape)
        requires
            i < SHAPE_COUNT,
        ensures
            s == shape_at(i as int),
    {
        if i == 0 {
            Shape::O
        } else if i == 1 {
            Shape::T
        } else if i == 2 {
            Shape::S
        } else if i == 3 {
            Shape::Z
        } else if i == 4 {
            Shape::J
        } else if i == 5 {
            Shape::L
        } else {
            Shape::I
        }
    }

    /// A fresh matrix of this shape.
    pub fn matrix(self) -> (m: Vec<Vec<bool>>)
        ensures
            matrix_of(m) == shape_matrix(self),
            is_matrix(matrix_of(m)),
    {
        let m = match self {
            Shape::O => vec![vec![true, true], vec![true, true]],
            Shape::T => vec![vec![false, true, false], vec![true, true, true]],
            Shape::S => vec![vec![false, true, true], vec![true, true, false]],
            Shape::Z => vec![vec![true, true, false], vec![false, true, true]],
            Shape::J => vec![vec![true, false, false], vec![true, true, true]],
            Shape::L => vec![vec![false, false, true], vec![true, true, true]],
            Shape::I => vec![vec![true, true, true, true]],
        };
        assert(matrix_of(m) =~~= shape_matrix(self));
        let ghost g = matrix_of(m);
        proof {
            match self {
                Shape::J => assert(g[0][0]),
                Shape::L => assert(g[0][2]),
                _ => assert(g[0][1]),
            }
        }
        m
    }
}

/// The matrix `m` turned a quarter, as `rotated` describes.
pub fn rotate_matrix(m: &Vec<Vec<bool>>) -> (t: Vec<Vec<bool>>)
    requires
        is_matrix(matrix_of(*m)),
    ensures
        matrix_of(t) == rotated(matrix_of(*m)),
{
    let ghost g = matrix_of(*m);
    let rows = m.len();
    let cols = m[0].len();
    let mut t: Vec<Vec<bool>> = Vec::new();
    let mut i: usize = 0;
    while i < cols
        invariant
            g == matrix_of(*m),
            is_matrix(g),
            rows == g.len(),
            cols == columns(g),
            i <= cols,
            t@.len() == i,
            forall|k: int| 0 <= k < i ==> #[trigger] t@[k]@ == rotated(g)[k],
        decreases cols - i,
    {
        let mut row: Vec<bool> = Vec::new();
        let mut j: usize = 0;
        while j < rows
            invariant
                g == matrix_of(*m),
                is_matrix(g),
                rows == g.len(),
                cols == columns(g),
                i < cols,
                j <= rows,
                row@ =~= Seq::new(j as nat, |jj: int| g[jj][cols - 1 - i]),
            decreases rows - j,
        {
            assert(m@[j as int]@ == g[j as int]);
            row.push(m[j][cols - 1 - i]);
            j += 1;
        }
        assert(row@ =~= rotated(g)[i as int]);
        t.push(row);
        i += 1;
    }
    assert(matrix_of(t) =~= rotated(g));
    t
}

} // verus!
