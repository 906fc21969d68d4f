use vstd::prelude::*;

use crate::squares::{cell, cols_of, grid_wf, in_grid, rows_of, same_but_solid, Square, MAX_SIDE};

verus! {

broadcast use vstd::seq_lib::group_to_multiset_ensures;

/// Relies on rand's `Rng::gen_range` on the thread-local generator: it returns
/// a value of the half-open range `0..n`, and panics only when that range is empty.
#[verifier::external_body]
fn random_below(n: usize) -> (r: usize)
    requires
        n > 0,
    ensures
        r < n,
{
    rand::Rng::gen_range(&mut rand::thread_rng(), 0..n)
}

/// Relies on rand's `SliceRandom::shuffle` on the thread-local generator, which
/// only swaps items: the result is a permutation of the input.
#[verifier::external_body]
fn shuffle(v: &mut Vec<(usize, usize)>)
    ensures
        final(v)@.to_multiset() == old(v)@.to_multiset(),
{
    rand::seq::SliceRandom::shuffle(v.as_mut_slice(), &mut rand::thread_rng())
}

/// The cell is inside the grid and can be walked on.
pub open spec fn walkable(g: Seq<Vec<Square>>, x: (int, int)) -> bool {
    in_grid(g, x.0, x.1) && !cell(g, x.0, x.1).solid
}

/// Every cell walkable in `a` is walkable in `b`, and nothing else changed.
pub open spec fn opens_only(a: Seq<Vec<Square>>, b: Seq<Vec<Square>>) -> bool {
    &&& same_but_solid(a, b)
    &&& forall|x: (int, int)| #[trigger] walkable(a, x) ==> walkable(b, x)
}

/// Number of solid cells among the first `n` of a row.
pub open spec fn row_solid(row: Seq<Square>, n: int) -> nat
    decreases n,
{
    if n <= 0 {
        0
    } else {
        row_solid(row, n - 1) + if row[n - 1].solid {
            1nat
        } else {
            0nat
        }
    }
}

/// Number of solid cells in the first `n` rows.
pub open spec fn grid_solid(g: Seq<Vec<Square>>, n: int) -> nat
    decreases n,
{
    if n <= 0 {
        0
    } else {
        grid_solid(g, n - 1) + row_solid(g[n - 1]@, g[n - 1]@.len() as int)
    }
}

/// Number of solid cells in the grid.
pub open spec fn solid_count(g: Seq<Vec<Square>>) -> nat {
    grid_solid(g, g.len() as int)
}

proof fn lemma_row_solid_update(a: Seq<Square>, b: Seq<Square>, c: int, n: int)
    requires
        a.len() == b.len(),
        0 <= c < a.len(),
        0 <= n <= a.len(),
        forall|k: int| 0 <= k < a.len() && k != c ==> a[k] == b[k],
        !b[c].solid,
    ensures
        n > c ==> row_solid(b, n) + (if a[c].solid {
            1nat
        } else {
            0nat
        }) == row_solid(a, n),
        n <= c ==> row_solid(b, n) == row_solid(a, n),
    decreases n,
{
    if n > 0 {
        lemma_row_solid_update(a, b, c, n - 1);
    }
}

proof fn lemma_grid_solid_update(a: Seq<Vec<Square>>, b: Seq<Vec<Square>>, r: int, c: int, n: int)
    requires
        a.len() == b.len(),
        0 <= r < a.len(),
        0 <= n <= a.len(),
        forall|k: int| 0 <= k < a.len() && k != r ==> a[k] == b[k],
        a[r]@.len() == b[r]@.len(),
        0 <= c < a[r]@.len(),
        forall|k: int| 0 <= k < a[r]@.len() && k != c ==> a[r]@[k] == b[r]@[k],
        !b[r]@[c].solid,
    ensures
        n > r ==> grid_solid(b, n) + (if a[r]@[c].solid {
            1nat
        } else {
            0nat
        }) == grid_solid(a, n),
        n <= r ==> grid_solid(b, n) == grid_solid(a, n),
    decreases n,
{
    if n > 0 {
        lemma_grid_solid_update(a, b, r, c, n - 1);
        if n - 1 == r {
            lemma_row_solid_update(a[r]@, b[r]@, c, a[r]@.len() as int);
        }
    }
}

/// Number of solid cells among the first `n` of row `r` that lie on the lattice of `s`.
pub open spec fn row_lattice_solid(row: Seq<Square>, r: int, s: (int, int), n: int) -> nat
    decreases n,
{
    if n <= 0 {
        0
    } else {
        row_lattice_solid(row, r, s, n - 1) + if row[n - 1].solid && on_lattice(s, (r, n - 1)) {
            1nat
        } else {
            0nat
        }
    }
}

/// Number of solid cells in the first `n` rows that lie on the lattice of `s`.
pub open spec fn grid_lattice_solid(g: Seq<Vec<Square>>, s: (int, int), n: int) -> nat
    decreases n,
{
    if n <= 0 {
        0
    } else {
        grid_lattice_solid(g, s, n - 1) + row_lattice_solid(
            g[n - 1]@,
            n - 1,
            s,
            g[n - 1]@.len() as int,
        )
    }
}

/// Number of solid cells on the lattice of `s`.
pub open spec fn lattice_solid(g: Seq<Vec<Square>>, s: (int, int)) -> nat {
    grid_lattice_solid(g, s, g.len() as int)
}

proof fn lemma_row_lattice_update(a: Seq<Square>, b: Seq<Square>, r: int, s: (int, int), c: int, n: int)
    requires
        a.len() == b.len(),
        0 <= c < a.len(),
        0 <= n <= a.len(),
        forall|k: int| 0 <= k < a.len() && k != c ==> a[k] == b[k],
        !b[c].solid,
    ensures
        n > c ==> row_lattice_solid(b, r, s, n) + (if a[c].solid && on_lattice(s, (r, c)) {
            1nat
        } else {
            0nat
        }) == row_lattice_solid(a, r, s, n),
        n <= c ==> row_lattice_solid(b, r, s, n) == row_lattice_solid(a, r, s, n),
    decreases n,
{
    if n > 0 {
        lemma_row_lattice_update(a, b, r, s, c, n - 1);
    }
}

proof fn lemma_grid_lattice_update(
    a: Seq<Vec<Square>>,
    b: Seq<Vec<Square>>,
    s: (int, int),
    r: int,
    c: int,
    n: int,
)
    requires
        a.len() == b.len(),
        0 <= r < a.len(),
        0 <= n <= a.len(),
        forall|k: int| 0 <= k < a.len() && k != r ==> a[k] == b[k],
        a[r]@.len() == b[r]@.len(),
        0 <= c < a[r]@.len(),
        forall|k: int| 0 <= k < a[r]@.len() && k != c ==> a[r]@[k] == b[r]@[k],
        !b[r]@[c].solid,
    ensures
        n > r ==> grid_lattice_solid(b, s, n) + (if a[r]@[c].solid && on_lattice(s, (r, c)) {
            1nat
        } else {
            0nat
        }) == grid_lattice_solid(a, s, n),
        n <= r ==> grid_lattice_solid(b, s, n) == grid_lattice_solid(a, s, n),
    decreases n,
{
    if n > 0 {
        lemma_grid_lattice_update(a, b, s, r, c, n - 1);
        if n - 1 == r {
            lemma_row_lattice_update(a[r]@, b[r]@, r, s, c, a[r]@.len() as int);
        }
    }
}

/// Makes the cell at `(r, c)` walkable.
fn open_cell(squares: &mut Vec<Vec<Square>>, r: usize, c: usize)
    requires
        grid_wf(old(squares)@),
        in_grid(old(squares)@, r as int, c as int),
    ensures
        grid_wf(final(squares)@),
        opens_only(old(squares)@, final(squares)@),
        walkable(final(squares)@, (r as int, c as int)),
        forall|x: (int, int)|
            x != (r as int, c as int) ==> (#[trigger] walkable(final(squares)@, x) == walkable(
                old(squares)@,
                x,
            )),
        solid_count(final(squares)@) + (if cell(old(squares)@, r as int, c as int).solid {
            1nat
        } else {
            0nat
        }) == solid_count(old(squares)@),
        forall|s: (int, int)|
            #[trigger] lattice_solid(final(squares)@, s) + (if cell(
                old(squares)@,
                r as int,
                c as int,
            ).solid && on_lattice(s, (r as int, c as int)) {
                1nat
            } else {
                0nat
            }) == lattice_solid(old(squares)@, s),
{
    let ghost a = squares@;
    squares[r][c].solid = false;
    proof {
        let b = squares@;
        assert(forall|k: int| 0 <= k < a.len() && k != r ==> a[k] == b[k]);
        lemma_grid_solid_update(a, b, r as int, c as int, a.len() as int);
        assert forall|s: (int, int)|
            #[trigger] lattice_solid(b, s) + (if cell(a, r as int, c as int).solid && on_lattice(
                s,
                (r as int, c as int),
            ) {
                1nat
            } else {
                0nat
            }) == lattice_solid(a, s) by {
            lemma_grid_lattice_update(a, b, s, r as int, c as int, a.len() as int);
        }
        assert forall|rr: int| 0 <= rr < a.len() implies #[trigger] b[rr]@.len() == a[rr]@.len() by {
            if rr != r as int {
                assert(a[rr] == b[rr]);
            }
        }
        assert(cols_of(b) == cols_of(a));
        assert forall|rr: int, cc: int| in_grid(b, rr, cc) implies (#[trigger] cell(b, rr, cc)).index
            == (rr as usize, cc as usize) by {
            assert(in_grid(a, rr, cc));
            assert(cell(a, rr, cc).index == (rr as usize, cc as usize));
            assert(cell(a, rr, cc).index == cell(b, rr, cc).index);
            if rr == r as int && cc != c as int {
                assert(a[rr]@[cc] == b[rr]@[cc]);
            } else if rr != r as int {
                assert(a[rr] == b[rr]);
            }
        }
        assert forall|rr: int, cc: int| 0 <= rr < a.len() && 0 <= cc < a[rr]@.len() implies {
            &&& (#[trigger] cell(a, rr, cc)).index == cell(b, rr, cc).index
            &&& cell(a, rr, cc).potential == cell(b, rr, cc).potential
        } by {
            if rr == r as int && cc == c as int {
            } else if rr == r as int {
                assert(a[rr]@[cc] == b[rr]@[cc]);
            } else {
                assert(a[rr] == b[rr]);
            }
        }
        assert forall|x: (int, int)| x != (r as int, c as int) implies (#[trigger] walkable(
            b,
            x,
        ) == walkable(a, x)) by {
            if in_grid(a, x.0, x.1) {
                if x.0 == r as int {
                    assert(a[x.0]@[x.1] == b[x.0]@[x.1]);
                } else {
                    assert(a[x.0] == b[x.0]);
                }
            }
        }
    }
}

/// Two cells that share a side.
pub open spec fn adjacent(a: (int, int), b: (int, int)) -> bool {
    (a.0 == b.0 && (a.1 - b.1 == 1 || b.1 - a.1 == 1)) || (a.1 == b.1 && (a.0 - b.0 == 1 || b.0
        - a.0 == 1))
}

/// A non-empty sequence of walkable cells, each sharing a side with the next.
pub open spec fn is_walk(g: Seq<Vec<Square>>, p: Seq<(int, int)>) -> bool {
    &&& p.len() > 0
    &&& forall|i: int| 0 <= i < p.len() ==> walkable(g, #[trigger] p[i])
    &&& forall|i: int| 0 <= i < p.len() - 1 ==> adjacent(#[trigger] p[i], p[i + 1])
}

/// A walk over walkable cells leads from `a` to `b`.
pub open spec fn connected(g: Seq<Vec<Square>>, a: (int, int), b: (int, int)) -> bool {
    exists|p: Seq<(int, int)>| #[trigger] is_walk(g, p) && p[0] == a && p.last() == b
}

/// `x` lies on the lattice of cells an even number of rows and columns away from `s`.
pub open spec fn on_lattice(s: (int, int), x: (int, int)) -> bool {
    (x.0 - s.0) % 2 == 0 && (x.1 - s.1) % 2 == 0
}

/// `y` is two cells away from `x` along one axis.
pub open spec fn lattice_neighbor(x: (int, int), y: (int, int)) -> bool {
    y == (x.0 + 2, x.1) || y == (x.0 - 2, x.1) || y == (x.0, x.1 + 2) || y == (x.0, x.1 - 2)
}

/// No cell of the grid is walkable.
pub open spec fn all_solid(g: Seq<Vec<Square>>) -> bool {
    forall|r: int, c: int| in_grid(g, r, c) ==> (#[trigger] cell(g, r, c)).solid
}

/// Every lattice cell of `s` in the grid is walkable and connected to `s`.
pub open spec fn carved_from(g: Seq<Vec<Square>>, s: (int, int)) -> bool {
    &&& in_grid(g, s.0, s.1)
    &&& forall|x: (int, int)|
        in_grid(g, x.0, x.1) && #[trigger] on_lattice(s, x) ==> walkable(g, x) && connected(g, s, x)
}

/// Every in-grid lattice neighbour of `x` is walkable.
pub open spec fn neighbors_open(g: Seq<Vec<Square>>, x: (int, int)) -> bool {
    forall|y: (int, int)|
        #[trigger] lattice_neighbor(x, y) && in_grid(g, y.0, y.1) ==> walkable(g, y)
}

/// A pair of indices as integers.
pub open spec fn pt(p: (usize, usize)) -> (int, int) {
    (p.0 as int, p.1 as int)
}

/// Some entry of the stack stands at `x`.
pub open spec fn in_stack(st: Seq<(usize, usize)>, x: (int, int)) -> bool {
    exists|k: int| 0 <= k < st.len() && #[trigger] pt(st[k]) == x
}

proof fn lemma_walk_mono(a: Seq<Vec<Square>>, b: Seq<Vec<Square>>, p: Seq<(int, int)>)
    requires
        opens_only(a, b),
        is_walk(a, p),
    ensures
        is_walk(b, p),
{
    assert forall|i: int| 0 <= i < p.len() implies walkable(b, #[trigger] p[i]) by {
        assert(walkable(a, p[i]));
    }
}

proof fn lemma_connected_mono(a: Seq<Vec<Square>>, b: Seq<Vec<Square>>, s: (int, int), x: (int, int))
    requires
        opens_only(a, b),
        connected(a, s, x),
    ensures
        connected(b, s, x),
{
    let p = choose|p: Seq<(int, int)>| #[trigger] is_walk(a, p) && p[0] == s && p.last() == x;
    lemma_walk_mono(a, b, p);
}

proof fn lemma_connected_extend(
    g: Seq<Vec<Square>>,
    s: (int, int),
    x: (int, int),
    m: (int, int),
    n: (int, int),
)
    requires
        connected(g, s, x),
        adjacent(x, m),
        adjacent(m, n),
        walkable(g, m),
        walkable(g, n),
    ensures
        connected(g, s, n),
{
    let p = choose|p: Seq<(int, int)>| #[trigger] is_walk(g, p) && p[0] == s && p.last() == x;
    let q = p.push(m).push(n);
    assert forall|i: int| 0 <= i < q.len() implies walkable(g, #[trigger] q[i]) by {
        if i < p.len() {
            assert(q[i] == p[i]);
        }
    }
    assert forall|i: int| 0 <= i < q.len() - 1 implies adjacent(#[trigger] q[i], q[i + 1]) by {
        if i < p.len() - 1 {
            assert(q[i] == p[i] && q[i + 1] == p[i + 1]);
        } else if i == p.len() - 1 {
            assert(q[i] == x);
        }
    }
    assert(is_walk(g, q));
}

proof fn lemma_carved_mono(a: Seq<Vec<Square>>, b: Seq<Vec<Square>>, s: (int, int))
    requires
        opens_only(a, b),
        carved_from(a, s),
    ensures
        carved_from(b, s),
{
    assert forall|x: (int, int)|
        in_grid(b, x.0, x.1) && #[trigger] on_lattice(s, x) implies walkable(b, x) && connected(
            b,
            s,
            x,
        ) by {
        assert(in_grid(a, x.0, x.1));
        lemma_connected_mono(a, b, s, x);
    }
}

/// When every walkable lattice cell has all its lattice neighbours walkable, the
/// whole lattice of a walkable `s` is walkable.
proof fn lemma_lattice_complete(g: Seq<Vec<Square>>, s: (int, int), x: (int, int))
    requires
        walkable(g, s),
        in_grid(g, x.0, x.1),
        on_lattice(s, x),
        forall|y: (int, int)|
            in_grid(g, y.0, y.1) && #[trigger] on_lattice(s, y) && walkable(g, y) ==> neighbors_open(
                g,
                y,
            ),
    ensures
        walkable(g, x),
    decreases (if x.0 >= s.0 {
        x.0 - s.0
    } else {
        s.0 - x.0
    }) + (if x.1 >= s.1 {
        x.1 - s.1
    } else {
        s.1 - x.1
    }),
{
    if x != s {
        let y = if x.0 > s.0 {
            (x.0 - 2, x.1)
        } else if x.0 < s.0 {
            (x.0 + 2, x.1)
        } else if x.1 > s.1 {
            (x.0, x.1 - 2)
        } else {
            (x.0, x.1 + 2)
        };
        assert(x.0 != s.0 ==> (x.0 - s.0 >= 2 || s.0 - x.0 >= 2));
        assert(x.1 != s.1 ==> (x.1 - s.1 >= 2 || s.1 - x.1 >= 2));
        assert(on_lattice(s, y));
        lemma_lattice_complete(g, s, y);
        assert(lattice_neighbor(y, x));
    }
}

/// `s` started a carving that took `a` to `b` with up to `extra` random
/// openings. Apart from those and the eight corner cells, at most two cells
/// opened for each solid lattice cell of `s`, one fewer when `s` itself was
/// solid: on a fresh grid with `L` lattice cells, at most `2L - 1`. On a fresh
/// grid, too, every lattice cell is carved and connected to `s`.
pub open spec fn carved_with(a: Seq<Vec<Square>>, b: Seq<Vec<Square>>, s: (int, int), extra: nat) -> bool {
    &&& in_grid(a, s.0, s.1)
    &&& solid_count(a) + (if cell(a, s.0, s.1).solid {
        1nat
    } else {
        0nat
    }) <= solid_count(b) + 2 * lattice_solid(a, s) + extra + 8
    &&& all_solid(a) ==> carved_from(b, s)
}

/// Opens the still-solid lattice cell `(nx, ny)` two steps from `(x, y)`,
/// together with the cell between them, and pushes it on the stack.
fn carve_to(
    squares: &mut Vec<Vec<Square>>,
    stack: &mut Vec<(usize, usize)>,
    x: usize,
    y: usize,
    nx: usize,
    ny: usize,
    Ghost(s): Ghost<(int, int)>,
)
    requires
        grid_wf(old(squares)@),
        walkable(old(squares)@, (x as int, y as int)),
        lattice_neighbor((x as int, y as int), (nx as int, ny as int)),
        in_grid(old(squares)@, nx as int, ny as int),
        cell(old(squares)@, nx as int, ny as int).solid,
    ensures
        grid_wf(final(squares)@),
        opens_only(old(squares)@, final(squares)@),
        walkable(final(squares)@, (nx as int, ny as int)),
        final(stack)@ == old(stack)@.push((nx, ny)),
        solid_count(final(squares)@) < solid_count(old(squares)@),
        forall|z: (int, int)|
            #[trigger] walkable(final(squares)@, z) && !walkable(old(squares)@, z) && z != (
                nx as int,
                ny as int,
            ) ==> !on_lattice((x as int, y as int), z),
        connected(old(squares)@, s, (x as int, y as int)) ==> connected(
            final(squares)@,
            s,
            (nx as int, ny as int),
        ),
        solid_count(old(squares)@) <= solid_count(final(squares)@) + 2,
        on_lattice(s, (x as int, y as int)) ==> lattice_solid(final(squares)@, s) + 1
            == lattice_solid(old(squares)@, s),
{
    let ghost g2 = squares@;
    let ghost x0 = (x as int, y as int);
    let ghost n = (nx as int, ny as int);
    assert(x < rows_of(g2) && y < cols_of(g2));
    assert(rows_of(g2) <= MAX_SIDE && cols_of(g2) <= MAX_SIDE);
    let mx = (x + nx) / 2;
    let my = (y + ny) / 2;
    let ghost m: (int, int) = (mx as int, my as int);
    proof {
        if nx == x + 2 {
            assert(mx == x + 1);
        } else if x == nx + 2 {
            assert(mx == x - 1);
        } else {
            assert(mx == x);
        }
        if ny == y + 2 {
            assert(my == y + 1);
        } else if y == ny + 2 {
            assert(my == y - 1);
        } else {
            assert(my == y);
        }
    }
    open_cell(squares, nx, ny);
    let ghost g3 = squares@;
    assert(lattice_solid(g3, s) + (if on_lattice(s, n) {
        1nat
    } else {
        0nat
    }) == lattice_solid(g2, s));
    open_cell(squares, mx, my);
    assert(lattice_solid(squares@, s) + (if cell(g3, mx as int, my as int).solid && on_lattice(
        s,
        m,
    ) {
        1nat
    } else {
        0nat
    }) == lattice_solid(g3, s));
    stack.push((nx, ny));
    proof {
        if on_lattice(s, x0) {
            assert(on_lattice(s, n));
            assert(!on_lattice(s, m));
        }
        assert(adjacent(x0, m));
        assert(adjacent(m, n));
        assert(!on_lattice(x0, m));
        if connected(g2, s, x0) {
            lemma_connected_mono(g2, squares@, s, x0);
            lemma_connected_extend(squares@, s, x0, m, n);
        }
    }
}

/// Carving one lattice cell keeps every walkable lattice cell connected to `s`
/// and either fully surrounded, on the stack, or the cell being worked on.
proof fn lemma_carve_keeps(
    g2: Seq<Vec<Square>>,
    g3: Seq<Vec<Square>>,
    st2: Seq<(usize, usize)>,
    st3: Seq<(usize, usize)>,
    s: (int, int),
    x0: (int, int),
    n: (int, int),
)
    requires
        opens_only(g2, g3),
        st3.len() == st2.len() + 1,
        forall|k: int| 0 <= k < st2.len() ==> st3[k] == st2[k],
        pt(st3[st2.len() as int]) == n,
        on_lattice(s, x0),
        forall|z: (int, int)|
            #[trigger] walkable(g3, z) && !walkable(g2, z) && z != n ==> !on_lattice(x0, z),
        connected(g3, s, n),
        forall|z: (int, int)|
            in_grid(g2, z.0, z.1) && #[trigger] on_lattice(s, z) && walkable(g2, z)
                ==> connected(g2, s, z) && (neighbors_open(g2, z) || in_stack(st2, z) || z == x0),
    ensures
        forall|z: (int, int)|
            in_grid(g3, z.0, z.1) && #[trigger] on_lattice(s, z) && walkable(g3, z)
                ==> connected(g3, s, z) && (neighbors_open(g3, z) || in_stack(st3, z) || z == x0),
{
    assert forall|z: (int, int)|
        in_grid(g3, z.0, z.1) && #[trigger] on_lattice(s, z) && walkable(
            g3,
            z,
        ) implies connected(g3, s, z) && (neighbors_open(g3, z) || in_stack(st3, z) || z == x0) by {
        if z == n {
            assert(pt(st3[st2.len() as int]) == z);
        } else {
            if !walkable(g2, z) {
                assert(!on_lattice(x0, z));
                assert(false);
            }
            assert(in_grid(g2, z.0, z.1));
            lemma_connected_mono(g2, g3, s, z);
            if in_stack(st2, z) {
                let k = choose|k: int| 0 <= k < st2.len() && #[trigger] pt(st2[k]) == z;
                assert(pt(st3[k]) == z);
            } else if z != x0 {
                assert(neighbors_open(g2, z));
                assert forall|y2: (int, int)|
                    #[trigger] lattice_neighbor(z, y2) && in_grid(g3, y2.0, y2.1) implies walkable(
                    g3,
                    y2,
                ) by {
                    assert(in_grid(g2, y2.0, y2.1));
                    assert(walkable(g2, y2));
                }
            }
        }
    }
}

/// `p` was solid in `a` and is walkable in `b`.
pub open spec fn newly_open(a: Seq<Vec<Square>>, b: Seq<Vec<Square>>, p: (int, int)) -> bool {
    walkable(b, p) && !walkable(a, p)
}

/// Opens the cell at `(x, y)` when it is solid; otherwise leaves the grid as it
/// is. Returns whether it opened the cell.
pub fn open_if_solid(squares: &mut Vec<Vec<Square>>, x: usize, y: usize) -> (opened: bool)
    requires
        grid_wf(old(squares)@),
        in_grid(old(squares)@, x as int, y as int),
    ensures
        opened == cell(old(squares)@, x as int, y as int).solid,
        grid_wf(final(squares)@),
        opens_only(old(squares)@, final(squares)@),
        opened ==> walkable(final(squares)@, (x as int, y as int)),
        forall|p: (int, int)|
            p != (x as int, y as int) ==> #[trigger] walkable(final(squares)@, p) == walkable(
                old(squares)@,
                p,
            ),
        !opened ==> final(squares)@ == old(squares)@,
        solid_count(final(squares)@) + (if opened {
            1nat
        } else {
            0nat
        }) == solid_count(old(squares)@),
{
    assert(squares@[x as int]@.len() == cols_of(squares@));
    if squares[x][y].solid {
        open_cell(squares, x, y);
        true
    } else {
        false
    }
}

/// Opens one random solid cell, giving up after twenty draws that all land on
/// open cells. At most one cell changes, and it was solid; when every draw
/// misses, the grid is left as it was.
fn choose_random_square(squares: &mut Vec<Vec<Square>>)
    requires
        grid_wf(old(squares)@),
    ensures
        grid_wf(final(squares)@),
        opens_only(old(squares)@, final(squares)@),
        forall|p: (int, int), q: (int, int)|
            #[trigger] newly_open(old(squares)@, final(squares)@, p) && #[trigger] newly_open(
                old(squares)@,
                final(squares)@,
                q,
            ) ==> p == q,
        solid_count(final(squares)@) + 1 >= solid_count(old(squares)@),
        solid_count(final(squares)@) == solid_count(old(squares)@) ==> final(squares)@ == old(
            squares,
        )@,
{
    let rows = squares.len();
    let cols = squares[0].len();
    let ghost g0 = squares@;
    let mut times: usize = 0;
    let mut opened: bool = false;
    while times < 20 && !opened
        invariant
            opened ==> {
                &&& grid_wf(squares@)
                &&& opens_only(g0, squares@)
                &&& solid_count(squares@) + 1 == solid_count(g0)
                &&& forall|p: (int, int), q: (int, int)|
                    #[trigger] newly_open(g0, squares@, p) && #[trigger] newly_open(g0, squares@, q)
                        ==> p == q
            },
            !opened ==> squares@ == g0,
            grid_wf(g0),
            rows == rows_of(g0),
            cols == cols_of(g0),
        decreases 20 - times,
    {
        let x = random_below(rows);
        let y = random_below(cols);
        opened = open_if_solid(squares, x, y);
        proof {
            if opened {
                assert forall|p: (int, int), q: (int, int)|
                    #[trigger] newly_open(g0, squares@, p) && #[trigger] newly_open(
                        g0,
                        squares@,
                        q,
                    ) implies p == q by {
                    if p != (x as int, y as int) {
                        assert(walkable(squares@, p) == walkable(g0, p));
                    }
                    if q != (x as int, y as int) {
                        assert(walkable(squares@, q) == walkable(g0, q));
                    }
                }
            }
        }
        times = times + 1;
    }
    assert(opens_only(g0, squares@));
}

/// Carves a maze into `squares` by a randomised depth-first walk over a lattice
/// of every other cell, then opens up to `open_count` further random cells and
/// the two-by-two blocks at both diagonal corners. Grids with fewer than two
/// rows or columns are refused and left as they are.
#[verifier::rlimit(40)]
#[verifier::spinoff_prover]
pub fn create_maze(squares: &mut Vec<Vec<Square>>, open_count: usize) -> (carved: bool)
    requires
        grid_wf(old(squares)@),
    ensures
        grid_wf(final(squares)@),
        opens_only(old(squares)@, final(squares)@),
        carved == (rows_of(old(squares)@) >= 2 && cols_of(old(squares)@) >= 2),
        !carved ==> final(squares)@ == old(squares)@,
        carved ==> {
            let g = final(squares)@;
            let rows = rows_of(g);
            let cols = cols_of(g);
            &&& walkable(g, (0, 0))
            &&& walkable(g, (1, 0))
            &&& walkable(g, (0, 1))
            &&& walkable(g, (1, 1))
            &&& walkable(g, (rows - 1, cols - 1))
            &&& walkable(g, (rows - 2, cols - 1))
            &&& walkable(g, (rows - 1, cols - 2))
            &&& walkable(g, (rows - 2, cols - 2))
        },
        carved ==> exists|s: (int, int)| #[trigger]
            carved_with(old(squares)@, final(squares)@, s, open_count as nat),
{
    let rows = squares.len();
    let cols = squares[0].len();
    if rows < 2 || cols < 2 {
        return false;
    }
    let ghost g0 = squares@;
    let ghost fresh = all_solid(g0);
    let start_x = random_below(rows);
    let start_y = random_below(cols);
    let ghost s: (int, int) = (start_x as int, start_y as int);
    let ghost sb: nat = if cell(g0, s.0, s.1).solid {
        1nat
    } else {
        0nat
    };
    open_cell(squares, start_x, start_y);
    assert(lattice_solid(squares@, s) + sb == lattice_solid(g0, s));
    let mut stack: Vec<(usize, usize)> = Vec::new();
    stack.push((start_x, start_y));
    proof {
        assert forall|x: (int, int)|
            in_grid(squares@, x.0, x.1) && #[trigger] on_lattice(s, x) && walkable(
                squares@,
                x,
            ) && fresh implies connected(squares@, s, x) && (neighbors_open(squares@, x)
            || in_stack(stack@, x)) by {
            if x != s {
                assert(walkable(g0, x));
                assert(cell(g0, x.0, x.1).solid);
            }
            let p = seq![s];
            assert(is_walk(squares@, p));
            assert(pt(stack@[0]) == s);
        }
    }
    while stack.len() > 0
        invariant
            grid_wf(squares@),
            opens_only(g0, squares@),
            rows == rows_of(squares@),
            cols == cols_of(squares@),
            rows >= 2,
            cols >= 2,
            fresh == all_solid(g0),
            in_grid(squares@, s.0, s.1),
            walkable(squares@, s),
            forall|k: int|
                0 <= k < stack@.len() ==> walkable(squares@, pt(#[trigger] stack@[k])) && on_lattice(
                    s,
                    pt(stack@[k]),
                ),
            forall|x: (int, int)|
                in_grid(squares@, x.0, x.1) && #[trigger] on_lattice(s, x) && walkable(squares@, x)
                    && fresh ==> connected(squares@, s, x) && (neighbors_open(squares@, x)
                    || in_stack(stack@, x)),
            solid_count(g0) + 2 * lattice_solid(squares@, s) + sb <= solid_count(squares@) + 2
                * lattice_solid(g0, s),
        decreases 5 * solid_count(squares@) + stack@.len(),
    {
        let ghost st0 = stack@;
        let (x, y) = stack.pop().unwrap();
        let ghost x0: (int, int) = (x as int, y as int);
        let ghost g1 = squares@;
        let ghost st1 = stack@;
        let mut neighbors: Vec<(usize, usize)> = Vec::new();
        let ghost i1 = neighbors@.len() as int;
        if x > 1 {
            neighbors.push((x - 2, y));
        }
        let ghost i2 = neighbors@.len() as int;
        if x < rows - 2 {
            neighbors.push((x + 2, y));
        }
        let ghost i3 = neighbors@.len() as int;
        if y > 1 {
            neighbors.push((x, y - 2));
        }
        let ghost i4 = neighbors@.len() as int;
        if y < cols - 2 {
            neighbors.push((x, y + 2));
        }
        proof {
            assert forall|n: (int, int)|
                #[trigger] lattice_neighbor(x0, n) && in_grid(g1, n.0, n.1) implies neighbors@.contains(
                (n.0 as usize, n.1 as usize),
            ) by {
                if n == (x0.0 - 2, x0.1) {
                    assert(neighbors@[i1] == ((x - 2) as usize, y));
                } else if n == (x0.0 + 2, x0.1) {
                    assert(neighbors@[i2] == ((x + 2) as usize, y));
                } else if n == (x0.0, x0.1 - 2) {
                    assert(neighbors@[i3] == (x, (y - 2) as usize));
                } else {
                    assert(neighbors@[i4] == (x, (y + 2) as usize));
                }
            }
        }
        let ghost pre = neighbors@;
        shuffle(&mut neighbors);
        proof {
            assert forall|k: int| 0 <= k < neighbors@.len() implies lattice_neighbor(
                x0,
                pt(#[trigger] neighbors@[k]),
            ) && in_grid(g1, neighbors@[k].0 as int, neighbors@[k].1 as int) by {
                assert(neighbors@.contains(neighbors@[k]));
                assert(neighbors@.to_multiset().count(neighbors@[k]) > 0);
                assert(pre.contains(neighbors@[k]));
            }
            assert forall|n: (int, int)|
                #[trigger] lattice_neighbor(x0, n) && in_grid(g1, n.0, n.1) implies neighbors@.contains(
                (n.0 as usize, n.1 as usize),
            ) by {
                assert(pre.contains((n.0 as usize, n.1 as usize)));
                assert(pre.to_multiset().count((n.0 as usize, n.1 as usize)) > 0);
            }
        }
        proof {
            assert(st0.last() == (x, y));
            assert(stack@ == st0.drop_last());
            assert(walkable(squares@, pt(st0[st0.len() - 1])));
            assert forall|z: (int, int)|
                in_grid(squares@, z.0, z.1) && #[trigger] on_lattice(s, z) && walkable(squares@, z)
                    && fresh implies connected(squares@, s, z) && (neighbors_open(squares@, z)
                || in_stack(stack@, z) || z == x0) by {
                if in_stack(st0, z) {
                    let k = choose|k: int| 0 <= k < st0.len() && #[trigger] pt(st0[k]) == z;
                    if k < stack@.len() {
                        assert(pt(stack@[k]) == z);
                    }
                }
            }
        }
        let mut j: usize = 0;
        while j < neighbors.len()
            invariant
                grid_wf(squares@),
                opens_only(g0, squares@),
                opens_only(g1, squares@),
                rows == rows_of(squares@),
                cols == cols_of(squares@),
                rows >= 2,
                cols >= 2,
                fresh == all_solid(g0),
                in_grid(squares@, s.0, s.1),
                walkable(squares@, s),
                walkable(squares@, x0),
                in_grid(g1, x0.0, x0.1),
                rows == rows_of(g1),
                cols == cols_of(g1),
                x0 == (x as int, y as int),
                on_lattice(s, x0),
                j <= neighbors@.len(),
                forall|k: int|
                    0 <= k < neighbors@.len() ==> lattice_neighbor(x0, pt(#[trigger] neighbors@[k]))
                        && in_grid(g1, neighbors@[k].0 as int, neighbors@[k].1 as int),
                forall|k: int| 0 <= k < j ==> walkable(squares@, pt(#[trigger] neighbors@[k])),
                forall|k: int|
                    0 <= k < stack@.len() ==> walkable(squares@, pt(#[trigger] stack@[k])) && on_lattice(
                        s,
                        pt(stack@[k]),
                    ),
                forall|x: (int, int)|
                    in_grid(squares@, x.0, x.1) && #[trigger] on_lattice(s, x) && walkable(
                        squares@,
                        x,
                    ) && fresh ==> connected(squares@, s, x) && (neighbors_open(squares@, x)
                        || in_stack(stack@, x) || x == x0),
                5 * solid_count(squares@) + stack@.len() <= 5 * solid_count(g1) + st1.len(),
                solid_count(g0) + 2 * lattice_solid(squares@, s) + sb <= solid_count(squares@) + 2
                    * lattice_solid(g0, s),
            decreases neighbors@.len() - j,
        {
            let (nx, ny) = neighbors[j];
            let ghost n: (int, int) = (nx as int, ny as int);
            assert(pt(neighbors@[j as int]) == n);
            assert(lattice_neighbor(x0, n) && in_grid(g1, n.0, n.1));
            let ghost g2 = squares@;
            let ghost st2 = stack@;
            assert(g2[nx as int]@.len() == cols);
            if squares[nx][ny].solid {
                carve_to(squares, &mut stack, x, y, nx, ny, Ghost(s));
                proof {
                    assert(pt(stack@[stack@.len() - 1]) == n);
                    assert forall|k: int| 0 <= k < stack@.len() implies walkable(
                        squares@,
                        pt(#[trigger] stack@[k]),
                    ) && on_lattice(s, pt(stack@[k])) by {
                        if k < st2.len() {
                            assert(stack@[k] == st2[k]);
                            assert(walkable(g2, pt(st2[k])));
                        }
                    }
                    if fresh {
                        lemma_connected_mono(g2, squares@, s, x0);
                        lemma_carve_keeps(g2, squares@, st2, stack@, s, x0, n);
                    }
                    assert forall|k: int| 0 <= k < j + 1 implies walkable(
                        squares@,
                        pt(#[trigger] neighbors@[k]),
                    ) by {
                        if k < j {
                            assert(walkable(g2, pt(neighbors@[k])));
                        }
                    }
                }
            } else {
                proof {
                    assert(walkable(squares@, n));
                }
            }
            j = j + 1;
        }
        proof {
            assert(neighbors_open(squares@, x0)) by {
                assert forall|y2: (int, int)|
                    #[trigger] lattice_neighbor(x0, y2) && in_grid(squares@, y2.0, y2.1) implies walkable(
                    squares@,
                    y2,
                ) by {
                    assert(in_grid(g1, y2.0, y2.1));
                    assert(neighbors@.contains((y2.0 as usize, y2.1 as usize)));
                    let k = choose|k: int|
                        0 <= k < neighbors@.len() && neighbors@[k] == (y2.0 as usize, y2.1 as usize);
                    assert(pt(neighbors@[k]) == y2);
                }
            }
        }
    }
    proof {
        if fresh {
            assert forall|x: (int, int)|
                in_grid(squares@, x.0, x.1) && #[trigger] on_lattice(s, x) implies walkable(
                squares@,
                x,
            ) && connected(squares@, s, x) by {
                lemma_lattice_complete(squares@, s, x);
            }
            assert(carved_from(squares@, s));
        }
    }
    let ghost g4 = squares@;
    let mut k: usize = 0;
    while k < open_count
        invariant
            grid_wf(squares@),
            opens_only(g0, squares@),
            opens_only(g4, squares@),
            rows == rows_of(squares@),
            cols == cols_of(squares@),
            k <= open_count,
            solid_count(g4) <= solid_count(squares@) + k,
        decreases open_count - k,
    {
        choose_random_square(squares);
        k = k + 1;
    }
    open_cell(squares, 0, 0);
    open_cell(squares, 1, 0);
    open_cell(squares, 0, 1);
    open_cell(squares, 1, 1);
    open_cell(squares, rows - 1, cols - 1);
    open_cell(squares, rows - 2, cols - 1);
    open_cell(squares, rows - 1, cols - 2);
    open_cell(squares, rows - 2, cols - 2);
    proof {
        if fresh {
            lemma_carved_mono(g4, squares@, s);
        }
        assert(carved_with(g0, squares@, s, open_count as nat));
    }
    true
}

} // verus!
