use vstd::prelude::*;

verus! {

/// The largest number of rows or columns a grid may have.
pub const MAX_SIDE: usize = 1048576;

/// One cell of the maze grid.
///
/// Cells are identified by `index`; the potential is advisory data attached
/// later and plays no part in identity.
#[derive(Clone, Copy, Debug)]
pub struct Square {
    pub solid: bool,
    pub index: (usize, usize),
    pub potential: u64,
}

/// Number of rows.
pub open spec fn rows_of(g: Seq<Vec<Square>>) -> int {
    g.len() as int
}

/// Number of columns, as the first row has them.
pub open spec fn cols_of(g: Seq<Vec<Square>>) -> int {
    if g.len() > 0 {
        g[0]@.len() as int
    } else {
        0
    }
}

/// `(r, c)` lies inside the grid.
pub open spec fn in_grid(g: Seq<Vec<Square>>, r: int, c: int) -> bool {
    0 <= r < rows_of(g) && 0 <= c < cols_of(g)
}

/// The cell at row `r`, column `c`.
pub open spec fn cell(g: Seq<Vec<Square>>, r: int, c: int) -> Square {
    g[r]@[c]
}

/// A rectangular, non-empty grid whose cells carry their own index.
pub open spec fn grid_wf(g: Seq<Vec<Square>>) -> bool {
    &&& 0 < rows_of(g) <= MAX_SIDE
    &&& 0 < cols_of(g) <= MAX_SIDE
    &&& forall|r: int| 0 <= r < rows_of(g) ==> #[trigger] g[r]@.len() == cols_of(g)
    &&& forall|r: int, c: int|
        in_grid(g, r, c) ==> (#[trigger] cell(g, r, c)).index == (r as usize, c as usize)
}

/// Two grids of the same shape whose cells agree everywhere but, possibly, in walkability.
pub open spec fn same_but_solid(a: Seq<Vec<Square>>, b: Seq<Vec<Square>>) -> bool {
    &&& a.len() == b.len()
    &&& forall|r: int| 0 <= r < a.len() ==> #[trigger] a[r]@.len() == b[r]@.len()
    &&& forall|r: int, c: int|
        0 <= r < a.len() && 0 <= c < a[r]@.len() ==> {
            &&& (#[trigger] cell(a, r, c)).index == cell(b, r, c).index
            &&& cell(a, r, c).potential == cell(b, r, c).potential
        }
}

/// Builds a `rows` by `cols` grid of solid cells with zero potential.
///
/// Empty and single-cell grids, and grids wider or taller than `MAX_SIDE`,
/// are refused.
pub fn new_grid(rows: usize, cols: usize) -> (res: Option<Vec<Vec<Square>>>)
    ensures
        res is None <==> (rows == 0 || cols == 0 || (rows == 1 && cols == 1) || rows > MAX_SIDE
            || cols > MAX_SIDE),
        res matches Some(g) ==> {
            &&& grid_wf(g@)
            &&& rows_of(g@) == rows
            &&& cols_of(g@) == cols
            &&& forall|r: int, c: int|
                in_grid(g@, r, c) ==> (#[trigger] cell(g@, r, c)).solid && cell(g@, r, c).potential
                    == 0
        },
{
    if rows == 0 || cols == 0 || (rows == 1 && cols == 1) || rows > MAX_SIDE || cols > MAX_SIDE {
        return None;
    }
    let mut squares: Vec<Vec<Square>> = Vec::new();
    let mut i: usize = 0;
    while i < rows
        invariant
            i <= rows <= MAX_SIDE,
            0 < cols <= MAX_SIDE,
            squares@.len() == i,
            forall|r: int| 0 <= r < i ==> #[trigger] squares@[r]@.len() == cols,
            forall|r: int, c: int|
                0 <= r < i && 0 <= c < cols ==> {
                    &&& (#[trigger] cell(squares@, r, c)).index == (r as usize, c as usize)
                    &&& cell(squares@, r, c).solid
                    &&& cell(squares@, r, c).potential == 0
                },
        decreases rows - i,
    {
        let mut row: Vec<Square> = Vec::new();
        let mut j: usize = 0;
        while j < cols
            invariant
                j <= cols,
                row@.len() == j,
                forall|c: int|
                    0 <= c < j ==> (#[trigger] row@[c]) == (Square {
                        solid: true,
                        index: (i, c as usize),
                        potential: 0,
                    }),
            decreases cols - j,
        {
            row.push(Square { solid: true, index: (i, j), potential: 0 });
            j = j + 1;
        }
        let ghost before = squares@;
        squares.push(row);
        proof {
            assert forall|r: int, c: int| 0 <= r <= i && 0 <= c < cols implies {
                &&& (#[trigger] cell(squares@, r, c)).index == (r as usize, c as usize)
                &&& cell(squares@, r, c).solid
                &&& cell(squares@, r, c).potential == 0
            } by {
                if r == i as int {
                    assert(cell(squares@, r, c) == row@[c]);
                } else {
                    assert(squares@[r] == before[r]);
                    assert(cell(squares@, r, c) == cell(before, r, c));
                }
            }
        }
        i = i + 1;
    }
    Some(squares)
}

} // verus!
