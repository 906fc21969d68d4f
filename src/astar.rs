use vstd::prelude::*;

use crate::potential::{
    distance, index_fits, lemma_distance_symmetric, lemma_floor_sqrt_zero, lemma_scaled_distance_small,
    lemma_triangle, potential_of, scaled_distance, sq_dist,
};
use crate::squares::{cell, cols_of, grid_wf, in_grid, Square};
use crate::walker::{
    copy_path, fresh, lemma_with_cell_no_duplicates, moved, path_contains, speed_of, views, walker_wf, Done, Walker, WalkerModel,
    MAX_POTENTIAL, SPEED_ONE, THRESHOLD,
};

verus! {

/// The four sides a walker looks at, in order: next column, next row,
/// previous row, previous column.
pub open spec fn side(pos: (usize, usize), k: int) -> (int, int) {
    if k == 0 {
        (pos.0 as int, pos.1 + 1)
    } else if k == 1 {
        (pos.0 + 1, pos.1 as int)
    } else if k == 2 {
        (pos.0 - 1, pos.1 as int)
    } else {
        (pos.0 as int, pos.1 - 1)
    }
}

/// The cell at `rc` is inside the grid, walkable and not yet visited.
pub open spec fn open_at(g: Seq<Vec<Square>>, visited: Seq<(usize, usize)>, rc: (int, int)) -> bool {
    in_grid(g, rc.0, rc.1) && !cell(g, rc.0, rc.1).solid && !visited.contains(
        cell(g, rc.0, rc.1).index,
    )
}

/// The cell at `rc` as a one-item sequence when it is open, else nothing.
pub open spec fn keep(g: Seq<Vec<Square>>, visited: Seq<(usize, usize)>, rc: (int, int)) -> Seq<
    Square,
> {
    if open_at(g, visited, rc) {
        seq![cell(g, rc.0, rc.1)]
    } else {
        seq![]
    }
}

/// The open, unvisited neighbours of `pos`, in side order.
pub open spec fn candidates(g: Seq<Vec<Square>>, visited: Seq<(usize, usize)>, pos: (usize, usize)) -> Seq<
    Square,
> {
    keep(g, visited, side(pos, 0)) + keep(g, visited, side(pos, 1)) + keep(g, visited, side(pos, 2))
        + keep(g, visited, side(pos, 3))
}

/// Scanning from `i`, the first cell of least potential, starting from `cur`.
pub open spec fn best_from(cands: Seq<Square>, i: int, cur: Square) -> Square
    decreases cands.len() - i,
{
    if i >= cands.len() {
        cur
    } else {
        best_from(
            cands,
            i + 1,
            if cur.potential > cands[i].potential {
                cands[i]
            } else {
                cur
            },
        )
    }
}

/// The first candidate of least potential.
pub open spec fn best(cands: Seq<Square>) -> Square {
    best_from(cands, 0, cands[0])
}

/// No cell of the grid has a potential above `m`.
pub open spec fn bounded_by(g: Seq<Vec<Square>>, m: u64) -> bool {
    forall|r: int, c: int| in_grid(g, r, c) ==> (#[trigger] cell(g, r, c)).potential <= m
}

/// Each cell carries the potential for this start and goal.
pub open spec fn potentials_for(g: Seq<Vec<Square>>, start: (usize, usize), goal: (usize, usize)) -> bool {
    forall|r: int, c: int|
        in_grid(g, r, c) ==> (#[trigger] cell(g, r, c)).potential == potential_of(
            start,
            goal,
            cell(g, r, c).index,
        ) as u64
}

proof fn lemma_candidates_bounded(
    g: Seq<Vec<Square>>,
    visited: Seq<(usize, usize)>,
    pos: (usize, usize),
    m: u64,
)
    requires
        bounded_by(g, m),
    ensures
        forall|j: int|
            0 <= j < candidates(g, visited, pos).len() ==> (#[trigger] candidates(
                g,
                visited,
                pos,
            )[j]).potential <= m,
{
    let k0 = keep(g, visited, side(pos, 0));
    let k1 = keep(g, visited, side(pos, 1));
    let k2 = keep(g, visited, side(pos, 2));
    let k3 = keep(g, visited, side(pos, 3));
    let c = candidates(g, visited, pos);
    assert forall|j: int| 0 <= j < c.len() implies (#[trigger] c[j]).potential <= m by {
        let l0 = k0.len() as int;
        let l1 = l0 + k1.len();
        let l2 = l1 + k2.len();
        if j < l0 {
            assert(c[j] == k0[j]);
        } else if j < l1 {
            assert(c[j] == k1[j - l0]);
        } else if j < l2 {
            assert(c[j] == k2[j - l1]);
        } else {
            assert(c[j] == k3[j - l2]);
        }
    }
}

/// What one walker's turn leaves behind.
pub ghost struct Turn {
    pub walker: WalkerModel,
    pub visited: Seq<(usize, usize)>,
    pub spawned: Seq<WalkerModel>,
    pub reached: bool,
}

/// One turn of a walker that has not finished: a stuck walker is left alone;
/// otherwise its timer runs, and once past the threshold it either becomes
/// stuck, or forks one walker onto each open neighbour, marks them visited and
/// moves onto the best of them.
pub open spec fn turn(
    w: WalkerModel,
    visited: Seq<(usize, usize)>,
    g: Seq<Vec<Square>>,
    goal: (usize, usize),
    max: u64,
) -> Turn {
    let idle = Turn { walker: w, visited, spawned: seq![], reached: false };
    if w.done == Done::NotFinished(true) {
        idle
    } else {
        let w1 = WalkerModel { counter: (w.counter + w.speed) as u64, ..w };
        if w1.counter <= THRESHOLD {
            Turn { walker: w1, ..idle }
        } else {
            let cands = candidates(g, visited, w.position);
            if cands.len() == 0 {
                Turn { walker: WalkerModel { done: Done::NotFinished(true), ..w1 }, ..idle }
            } else {
                let chosen = best(cands);
                let w2 = moved(w1, chosen, max);
                let reached = chosen.index == goal;
                Turn {
                    walker: if reached {
                        WalkerModel { done: Done::Finished, ..w2 }
                    } else {
                        w2
                    },
                    visited: visited + cands.map_values(|s: Square| s.index),
                    spawned: cands.map_values(|s: Square| moved(fresh(s, w1.path), s, max)),
                    reached,
                }
            }
        }
    }
}

/// Appends the cell at `(r, c)` to `out` when it is walkable and unvisited.
fn consider(
    squares: &Vec<Vec<Square>>,
    visited: &Vec<(usize, usize)>,
    r: usize,
    c: usize,
    out: &mut Vec<Square>,
)
    requires
        grid_wf(squares@),
        in_grid(squares@, r as int, c as int),
    ensures
        final(out)@ == old(out)@ + keep(squares@, visited@, (r as int, c as int)),
{
    let ghost before = out@;
    let sq = squares[r][c];
    assert(sq == cell(squares@, r as int, c as int));
    if !sq.solid && !path_contains(visited, sq.index) {
        out.push(sq);
        assert(out@ =~= before + keep(squares@, visited@, (r as int, c as int)));
    } else {
        assert(out@ =~= before + keep(squares@, visited@, (r as int, c as int)));
    }
}

/// The open, unvisited neighbours of `pos`, in side order.
fn open_neighbors(squares: &Vec<Vec<Square>>, visited: &Vec<(usize, usize)>, pos: (usize, usize)) -> (r:
    Vec<Square>)
    requires
        grid_wf(squares@),
    ensures
        r@ == candidates(squares@, visited@, pos),
{
    let ghost g = squares@;
    let rows = squares.len();
    let cols = squares[0].len();
    let mut out: Vec<Square> = Vec::new();
    if pos.0 < rows && pos.1 < cols - 1 {
        consider(squares, visited, pos.0, pos.1 + 1, &mut out);
    }
    assert(out@ =~= keep(g, visited@, side(pos, 0)));
    let ghost o0 = out@;
    if pos.0 < rows - 1 && pos.1 < cols {
        consider(squares, visited, pos.0 + 1, pos.1, &mut out);
    }
    assert(out@ =~= o0 + keep(g, visited@, side(pos, 1)));
    let ghost o1 = out@;
    if pos.0 >= 1 && pos.0 <= rows && pos.1 < cols {
        consider(squares, visited, pos.0 - 1, pos.1, &mut out);
    }
    assert(out@ =~= o1 + keep(g, visited@, side(pos, 2)));
    let ghost o2 = out@;
    if pos.1 >= 1 && pos.1 <= cols && pos.0 < rows {
        consider(squares, visited, pos.0, pos.1 - 1, &mut out);
    }
    assert(out@ =~= o2 + keep(g, visited@, side(pos, 3)));
    out
}

/// Plays one walker's turn (see `turn`). Returns whether it reached `goal`.
fn advance_walker(
    w: &mut Walker,
    visited: &mut Vec<(usize, usize)>,
    spawned: &mut Vec<Walker>,
    squares: &Vec<Vec<Square>>,
    goal: (usize, usize),
    max: u64,
) -> (reached: bool)
    requires
        grid_wf(squares@),
        old(w)@.done != Done::Finished,
        walker_wf(old(w)@),
        max <= MAX_POTENTIAL,
        bounded_by(squares@, max),
    ensures
        ({
            let t = turn(old(w)@, old(visited)@, squares@, goal, max);
            &&& final(w)@ == t.walker
            &&& final(visited)@ == t.visited
            &&& views(final(spawned)@) == views(old(spawned)@) + t.spawned
            &&& reached == t.reached
        }),
{
    let ghost w0 = w@;
    let ghost v0 = visited@;
    let ghost s0 = spawned@;
    let ghost t = turn(w0, v0, squares@, goal, max);
    if w.done == Done::NotFinished(true) {
        assert(views(spawned@) =~= views(s0) + t.spawned);
        return false;
    }
    w.counter = w.counter + w.speed;
    if w.counter <= THRESHOLD {
        assert(views(spawned@) =~= views(s0) + t.spawned);
        return false;
    }
    let cands = open_neighbors(squares, visited, w.position);
    if cands.len() == 0 {
        w.done = Done::NotFinished(true);
        assert(views(spawned@) =~= views(s0) + t.spawned);
        return false;
    }
    let ghost w1 = w@;
    proof {
        lemma_candidates_bounded(squares@, v0, w0.position, max);
        lemma_best_is_candidate(cands@, 0, cands@[0]);
    }
    let mut chosen: Square = cands[0];
    let mut k: usize = 0;
    while k < cands.len()
        invariant
            k <= cands@.len(),
            cands@ == candidates(squares@, v0, w0.position),
            cands@.len() > 0,
            w@ == w1,
            max <= MAX_POTENTIAL,
            best_from(cands@, k as int, chosen) == best(cands@),
            forall|q: int| 0 <= q < cands@.len() ==> (#[trigger] cands@[q]).potential <= max,
            cands@.contains(best(cands@)),
            visited@ == v0 + cands@.subrange(0, k as int).map_values(|s: Square| s.index),
            views(spawned@) == views(s0) + cands@.subrange(0, k as int).map_values(
                |s: Square| moved(fresh(s, w1.path), s, max),
            ),
        decreases cands@.len() - k,
    {
        let c = cands[k];
        if chosen.potential > c.potential {
            chosen = c;
        }
        let ghost vb = visited@;
        let ghost sb = spawned@;
        let mut nw = Walker::new(c, copy_path(&w.path));
        nw.step(c, max);
        spawned.push(nw);
        visited.push(c.index);
        proof {
            let pre = cands@.subrange(0, k as int);
            let post = cands@.subrange(0, k + 1);
            assert(post =~= pre.push(c));
            assert(post.map_values(|s: Square| s.index) =~= pre.map_values(|s: Square| s.index).push(
                c.index,
            ));
            assert(visited@ =~= v0 + post.map_values(|s: Square| s.index));
            assert(views(spawned@) =~= views(sb).push(nw@));
            assert(post.map_values(|s: Square| moved(fresh(s, w1.path), s, max)) =~= pre.map_values(
                |s: Square| moved(fresh(s, w1.path), s, max),
            ).push(moved(fresh(c, w1.path), c, max)));
            assert(views(spawned@) =~= views(s0) + post.map_values(
                |s: Square| moved(fresh(s, w1.path), s, max),
            ));
        }
        k = k + 1;
    }
    assert(cands@.subrange(0, k as int) =~= cands@);
    w.step(chosen, max);
    if w.position.0 == goal.0 && w.position.1 == goal.1 {
        w.done = Done::Finished;
        return true;
    }
    false
}

/// The search engine: a list of walkers sharing one visited list.
///
/// Only walkable cells are ever visited, so a cell's index alone identifies it
/// in the visited list and in each walker's path.
pub struct AStar {
    pub start: (usize, usize),
    pub end: (usize, usize),
    pub position: (usize, usize),
    pub path: Vec<(usize, usize)>,
    pub walkers: Vec<Walker>,
    pub max_potential: u64,
}

/// What the engine holds, with its lists as sequences.
pub ghost struct AStarModel {
    pub start: (usize, usize),
    pub end: (usize, usize),
    pub position: (usize, usize),
    pub path: Seq<(usize, usize)>,
    pub walkers: Seq<WalkerModel>,
    pub max_potential: u64,
}

impl View for AStar {
    type V = AStarModel;

    open spec fn view(&self) -> AStarModel {
        AStarModel {
            start: self.start,
            end: self.end,
            position: self.position,
            path: self.path@,
            walkers: views(self.walkers@),
            max_potential: self.max_potential,
        }
    }
}

/// The engine's arithmetic stays in range, its visited list holds each cell
/// once, and its walkers are well-formed.
pub open spec fn astar_wf(a: AStarModel) -> bool {
    &&& a.max_potential <= MAX_POTENTIAL
    &&& a.path.no_duplicates()
    &&& forall|i: int| 0 <= i < a.walkers.len() ==> walker_wf(#[trigger] a.walkers[i])
}

/// The state part-way through a tick: after the first few walkers have had their turn.
pub ghost struct Sweep {
    pub walkers: Seq<WalkerModel>,
    pub visited: Seq<(usize, usize)>,
    pub spawned: Seq<WalkerModel>,
    pub finished: int,
    pub halted: bool,
}

/// The first `n` walkers take their turns in order. A finished walker halts the sweep.
pub open spec fn sweep(a: AStarModel, g: Seq<Vec<Square>>, n: nat) -> Sweep
    decreases n,
{
    if n == 0 {
        Sweep { walkers: a.walkers, visited: a.path, spawned: seq![], finished: -1, halted: false }
    } else {
        let s = sweep(a, g, (n - 1) as nat);
        let i = n - 1;
        if s.halted || i >= s.walkers.len() {
            s
        } else if s.walkers[i].done == Done::Finished {
            Sweep { halted: true, ..s }
        } else {
            let t = turn(s.walkers[i], s.visited, g, a.end, a.max_potential);
            Sweep {
                walkers: s.walkers.update(i, t.walker),
                visited: t.visited,
                spawned: s.spawned + t.spawned,
                finished: if t.reached {
                    i
                } else {
                    s.finished
                },
                halted: false,
            }
        }
    }
}

/// `s` with the items at `i` and `j` traded.
pub open spec fn swap_seq<T>(s: Seq<T>, i: int, j: int) -> Seq<T> {
    s.update(i, s[j]).update(j, s[i])
}

/// One tick of the engine: every walker takes its turn, then the walker that
/// reached the goal, if any, trades places with the first, and the forked
/// walkers join the end of the list.
pub open spec fn tick(a: AStarModel, g: Seq<Vec<Square>>) -> AStarModel {
    let s = sweep(a, g, a.walkers.len());
    AStarModel {
        path: s.visited,
        walkers: if s.finished > 0 {
            swap_seq(s.walkers, 0, s.finished)
        } else {
            s.walkers
        } + s.spawned,
        ..a
    }
}

/// Speeds never exceed one unit.
pub proof fn lemma_speed_bound(p: u64, max: u64)
    requires
        max <= MAX_POTENTIAL,
        p <= max,
    ensures
        speed_of(p, max) <= SPEED_ONE,
{
    if max != 0 {
        let d = (max - p) as int;
        let m = max as int;
        assert(0 <= d * d * 1000 / (m * m) <= 1000) by (nonlinear_arith)
            requires
                0 <= d <= m,
                m > 0,
        ;
        assert((max - p) * (max - p) * SPEED_ONE / (max * max) == d * d * 1000 / (m * m));
        assert(speed_of(p, max) == (d * d * 1000 / (m * m)) as u64);
    }
}

/// A turn keeps the walker, and every walker it forks, well-formed.
pub proof fn lemma_turn_wf(
    w: WalkerModel,
    visited: Seq<(usize, usize)>,
    g: Seq<Vec<Square>>,
    goal: (usize, usize),
    max: u64,
)
    requires
        walker_wf(w),
        max <= MAX_POTENTIAL,
        bounded_by(g, max),
    ensures
        walker_wf(turn(w, visited, g, goal, max).walker),
        forall|j: int|
            0 <= j < turn(w, visited, g, goal, max).spawned.len() ==> walker_wf(
                #[trigger] turn(w, visited, g, goal, max).spawned[j],
            ),
{
    let cands = candidates(g, visited, w.position);
    lemma_candidates_bounded(g, visited, w.position, max);
    assert forall|j: int| 0 <= j < cands.len() implies walker_wf(
        moved(fresh(cands[j], w.path), cands[j], max),
    ) by {
        lemma_speed_bound(cands[j].potential, max);
        lemma_with_cell_no_duplicates(w.path, cands[j].index);
    }
    if cands.len() > 0 {
        lemma_with_cell_no_duplicates(w.path, best(cands).index);
        lemma_best_is_candidate(cands, 0, cands[0]);
        lemma_speed_bound(best(cands).potential, max);
    }
}

/// Once a sweep has halted, later walkers change nothing.
pub proof fn lemma_sweep_halted(a: AStarModel, g: Seq<Vec<Square>>, i: nat, n: nat)
    requires
        i <= n,
        sweep(a, g, i).halted,
    ensures
        sweep(a, g, n) == sweep(a, g, i),
    decreases n - i,
{
    if i < n {
        lemma_sweep_halted(a, g, i, (n - 1) as nat);
    }
}

/// A sweep keeps the walker list's length, and any finisher index points into it.
pub proof fn lemma_sweep_len(a: AStarModel, g: Seq<Vec<Square>>, n: nat)
    ensures
        sweep(a, g, n).walkers.len() == a.walkers.len(),
        sweep(a, g, n).finished < a.walkers.len(),
        sweep(a, g, n).finished >= -1,
    decreases n,
{
    if n > 0 {
        lemma_sweep_len(a, g, (n - 1) as nat);
    }
}

/// Trades the items at `index1` and `index2` when both are in range and differ.
#[verifier::spinoff_prover]
pub fn flip_between<T>(items: &mut Vec<T>, index1: usize, index2: usize)
    ensures
        final(items)@ == if index1 != index2 && index1 < old(items)@.len() && index2 < old(
            items,
        )@.len() {
            swap_seq(old(items)@, index1 as int, index2 as int)
        } else {
            old(items)@
        },
{
    if index1 != index2 && index1 < items.len() && index2 < items.len() {
        let ghost s = items@;
        let lo = if index1 < index2 {
            index1
        } else {
            index2
        };
        let hi = if index1 < index2 {
            index2
        } else {
            index1
        };
        let x = items.remove(hi);
        let y = items.remove(lo);
        items.insert(lo, x);
        items.insert(hi, y);
        assert(items@ =~= swap_seq(s, index1 as int, index2 as int));
    }
}

/// The cell with its potential for this start and goal filled in.
pub open spec fn with_potential(sq: Square, start: (usize, usize), goal: (usize, usize)) -> Square {
    Square { potential: potential_of(start, goal, sq.index) as u64, ..sq }
}

/// `new` is `old` with every cell's potential filled in.
pub open spec fn annotated(
    old: Seq<Vec<Square>>,
    new: Seq<Vec<Square>>,
    start: (usize, usize),
    goal: (usize, usize),
) -> bool {
    &&& new.len() == old.len()
    &&& forall|r: int| 0 <= r < old.len() ==> #[trigger] new[r]@.len() == old[r]@.len()
    &&& forall|r: int, c: int|
        0 <= r < old.len() && 0 <= c < old[r]@.len() ==> #[trigger] cell(new, r, c)
            == with_potential(cell(old, r, c), start, goal)
}

/// `m` is the largest potential in the grid.
pub open spec fn is_max_potential(g: Seq<Vec<Square>>, m: u64) -> bool {
    &&& forall|r: int, c: int| in_grid(g, r, c) ==> (#[trigger] cell(g, r, c)).potential <= m
    &&& exists|r: int, c: int| in_grid(g, r, c) && (#[trigger] cell(g, r, c)).potential == m
}

/// The walkers that are not stuck, in their order.
pub open spec fn unstuck(s: Seq<WalkerModel>) -> Seq<WalkerModel>
    decreases s.len(),
{
    if s.len() == 0 {
        s
    } else {
        unstuck(s.drop_last()) + if s.last().done == Done::NotFinished(true) {
            Seq::<WalkerModel>::empty()
        } else {
            seq![s.last()]
        }
    }
}

proof fn lemma_unstuck_wf(s: Seq<WalkerModel>)
    requires
        forall|i: int| 0 <= i < s.len() ==> walker_wf(#[trigger] s[i]),
    ensures
        forall|i: int| 0 <= i < unstuck(s).len() ==> walker_wf(#[trigger] unstuck(s)[i]),
    decreases s.len(),
{
    if s.len() > 0 {
        let d = s.drop_last();
        assert forall|i: int| 0 <= i < d.len() implies walker_wf(#[trigger] d[i]) by {
            assert(d[i] == s[i]);
        }
        lemma_unstuck_wf(d);
        let u = unstuck(s);
        assert forall|i: int| 0 <= i < u.len() implies walker_wf(#[trigger] u[i]) by {
            if i < unstuck(d).len() {
                assert(u[i] == unstuck(d)[i]);
            } else {
                assert(u[i] == s.last());
            }
        }
    }
}

impl AStar {
    pub open spec fn wf(&self) -> bool {
        astar_wf(self@)
    }

    /// A new search from `start` towards `end`, with one walker on the start cell.
    pub fn new(start: (usize, usize), end: (usize, usize)) -> (a: AStar)
        ensures
            a.wf(),
            a@.start == start,
            a@.end == end,
            a@.position == start,
            a@.path == Seq::<(usize, usize)>::empty(),
            a@.max_potential == 0,
            a@.walkers == seq![
                fresh(Square { solid: false, potential: 0, index: start }, Seq::empty()),
            ],
    {
        let mut returning = AStar {
            start,
            end,
            position: start,
            path: Vec::new(),
            walkers: Vec::new(),
            max_potential: 0,
        };
        returning.walkers.push(
            Walker::new(Square { solid: false, potential: 0, index: start }, Vec::new()),
        );
        assert(returning@.walkers =~= seq![
            fresh(Square { solid: false, potential: 0, index: start }, Seq::empty()),
        ]);
        returning
    }

    /// Advances the search by one tick (see `tick`).
    pub fn step(&mut self, squares: &Vec<Vec<Square>>)
        requires
            grid_wf(squares@),
            old(self).wf(),
            potentials_for(squares@, old(self).start, old(self).end),
            is_max_potential(squares@, old(self).max_potential),
        ensures
            final(self)@ == tick(old(self)@, squares@),
            final(self).wf(),
    {
        let ghost a = self@;
        let n = self.walkers.len();
        let mut new_walkers: Vec<Walker> = Vec::new();
        let mut finished_walker: usize = 0;
        let mut any: bool = false;
        let mut halted: bool = false;
        let mut i: usize = 0;
        proof {
            assert forall|j: int| 0 <= j < self.walkers@.len() implies walker_wf(
                #[trigger] self.walkers@[j]@,
            ) by {
                assert(a.walkers[j] == self.walkers@[j]@);
            }
        }
        while i < n && !halted
            invariant
                n == a.walkers.len(),
                i <= n,
                grid_wf(squares@),
                self.start == a.start,
                self.end == a.end,
                self.position == a.position,
                self.max_potential == a.max_potential,
                a.max_potential <= MAX_POTENTIAL,
                bounded_by(squares@, a.max_potential),
                self.path@.no_duplicates(),
                views(self.walkers@) == sweep(a, squares@, i as nat).walkers,
                self.path@ == sweep(a, squares@, i as nat).visited,
                views(new_walkers@) == sweep(a, squares@, i as nat).spawned,
                sweep(a, squares@, i as nat).finished == if any {
                    finished_walker as int
                } else {
                    -1
                },
                sweep(a, squares@, i as nat).halted == halted,
                forall|j: int|
                    0 <= j < self.walkers@.len() ==> walker_wf(#[trigger] self.walkers@[j]@),
                forall|j: int|
                    0 <= j < new_walkers@.len() ==> walker_wf(#[trigger] new_walkers@[j]@),
            decreases n - i,
        {
            proof {
                lemma_sweep_len(a, squares@, i as nat);
            }
            let ghost s = sweep(a, squares@, i as nat);
            assert(self.walkers@[i as int]@ == s.walkers[i as int]);
            if self.walkers[i].done == Done::Finished {
                halted = true;
            } else {
                let ghost ws = self.walkers@;
                let ghost nb = new_walkers@;
                proof {
                    lemma_turn_wf(s.walkers[i as int], s.visited, squares@, a.end, a.max_potential);
                    lemma_branch_count(s.walkers[i as int], s.visited, squares@, a.end, a.max_potential);
                }
                let reached = advance_walker(
                    &mut self.walkers[i],
                    &mut self.path,
                    &mut new_walkers,
                    squares,
                    self.end,
                    self.max_potential,
                );
                if reached {
                    finished_walker = i;
                    any = true;
                }
                proof {
                    assert(views(self.walkers@) =~= s.walkers.update(
                        i as int,
                        self.walkers@[i as int]@,
                    ));
                    let t = turn(s.walkers[i as int], s.visited, squares@, a.end, a.max_potential);
                    assert(views(new_walkers@) == views(nb) + t.spawned);
                    assert(views(new_walkers@).len() == new_walkers@.len());
                    assert(views(nb).len() == nb.len());
                    assert forall|j: int| 0 <= j < new_walkers@.len() implies walker_wf(
                        #[trigger] new_walkers@[j]@,
                    ) by {
                        assert(views(new_walkers@)[j] == new_walkers@[j]@);
                        if j >= nb.len() {
                            assert(views(new_walkers@)[j] == t.spawned[j - nb.len()]);
                        } else {
                            assert(views(new_walkers@)[j] == views(nb)[j]);
                            assert(views(nb)[j] == nb[j]@);
                        }
                    }
                }
            }
            i = i + 1;
        }
        proof {
            if halted {
                lemma_sweep_halted(a, squares@, i as nat, n as nat);
            }
            lemma_sweep_len(a, squares@, n as nat);
        }
        let ghost before = self.walkers@;
        if any && finished_walker > 0 {
            flip_between(&mut self.walkers, 0, finished_walker);
            assert(views(self.walkers@) =~= swap_seq(views(before), 0, finished_walker as int));
        }
        let ghost mid = self.walkers@;
        let ghost nw = new_walkers@;
        self.walkers.append(&mut new_walkers);
        assert(views(self.walkers@) =~= views(mid) + views(nw));
        proof {
            assert forall|j: int| 0 <= j < self.walkers@.len() implies walker_wf(
                #[trigger] views(self.walkers@)[j],
            ) by {
                if j < mid.len() {
                    assert(self.walkers@[j] == mid[j]);
                    if any && finished_walker > 0 {
                        assert(mid[j] == before[j] || mid[j] == before[0] || mid[j]
                            == before[finished_walker as int]);
                    }
                } else {
                    assert(self.walkers@[j] == nw[j - mid.len()]);
                }
            }
        }
    }

    /// Drops every stuck walker, keeping the others in order. The search never
    /// does this by itself; long-running callers may, to bound the list.
    pub fn prune_stuck(&mut self)
        requires
            old(self).wf(),
        ensures
            final(self)@ == (AStarModel { walkers: unstuck(old(self)@.walkers), ..old(self)@ }),
            final(self).wf(),
    {
        let mut old_walkers: Vec<Walker> = Vec::new();
        std::mem::swap(&mut old_walkers, &mut self.walkers);
        let ghost orig = views(old_walkers@);
        let mut i: usize = 0;
        while i < old_walkers.len()
            invariant
                i <= old_walkers@.len(),
                old_walkers@.len() == orig.len(),
                orig == old(self)@.walkers,
                self.start == old(self).start,
                self.end == old(self).end,
                self.position == old(self).position,
                self.path@ == old(self).path@,
                self.max_potential == old(self).max_potential,
                forall|k: int| i <= k < orig.len() ==> #[trigger] old_walkers@[k]@ == orig[k],
                views(self.walkers@) == unstuck(orig.subrange(0, i as int)),
            decreases old_walkers@.len() - i,
        {
            let mut w = Walker::new(Square { solid: true, index: (0, 0), potential: 0 }, Vec::new());
            let ghost before = old_walkers@;
            std::mem::swap(&mut w, &mut old_walkers[i]);
            proof {
                assert(w@ == orig[i as int]);
                assert(orig.subrange(0, i + 1).drop_last() =~= orig.subrange(0, i as int));
                assert forall|k: int| i < k < orig.len() implies #[trigger] old_walkers@[k]@
                    == orig[k] by {
                    assert(old_walkers@[k] == before[k]);
                }
            }
            let ghost kept = self.walkers@;
            if w.done != Done::NotFinished(true) {
                self.walkers.push(w);
                assert(views(self.walkers@) =~= views(kept).push(w@));
            }
            assert(views(self.walkers@) =~= unstuck(orig.subrange(0, i + 1)));
            i = i + 1;
        }
        assert(orig.subrange(0, i as int) =~= orig);
        proof {
            lemma_unstuck_wf(orig);
        }
    }

    /// The cell of `squares` at the engine's current position, if that lies in the grid.
    pub fn find_position_square(&self, squares: &Vec<Vec<Square>>) -> (r: Option<Square>)
        requires
            grid_wf(squares@),
        ensures
            r == if in_grid(squares@, self.position.0 as int, self.position.1 as int) {
                Some(cell(squares@, self.position.0 as int, self.position.1 as int))
            } else {
                None::<Square>
            },
    {
        let mut i: usize = 0;
        while i < squares.len()
            invariant
                grid_wf(squares@),
                i <= squares@.len(),
                forall|r: int, c: int|
                    0 <= r < i && 0 <= c < cols_of(squares@) ==> (#[trigger] cell(
                        squares@,
                        r,
                        c,
                    )).index != self.position,
            decreases squares@.len() - i,
        {
            let row = &squares[i];
            let mut j: usize = 0;
            while j < row.len()
                invariant
                    grid_wf(squares@),
                    i < squares@.len(),
                    row@ == squares@[i as int]@,
                    j <= row@.len(),
                    forall|c: int|
                        0 <= c < j ==> (#[trigger] cell(squares@, i as int, c)).index
                            != self.position,
                decreases row@.len() - j,
            {
                let square = row[j];
                assert(square == cell(squares@, i as int, j as int));
                if square.index.0 == self.position.0 && square.index.1 == self.position.1 {
                    return Some(square);
                }
                j = j + 1;
            }
            i = i + 1;
        }
        None
    }

    /// The distance from `square` to `end`: the goal-seeking half of a potential.
    fn potential(end: (usize, usize), square: &Square) -> (r: u64)
        requires
            index_fits(end),
            index_fits(square.index),
        ensures
            r == scaled_distance(end, square.index),
            r < 0x1_0000_0000,
    {
        distance(end, square.index)
    }

    /// Returns `squares` with every cell's potential filled in, and records the
    /// largest of them as `max_potential`.
    pub fn generate_potentials(&mut self, squares: &Vec<Vec<Square>>) -> (res: Vec<Vec<Square>>)
        requires
            grid_wf(squares@),
            old(self).wf(),
            in_grid(squares@, old(self).start.0 as int, old(self).start.1 as int),
            in_grid(squares@, old(self).end.0 as int, old(self).end.1 as int),
        ensures
            grid_wf(res@),
            annotated(squares@, res@, old(self).start, old(self).end),
            potentials_for(res@, old(self).start, old(self).end),
            is_max_potential(res@, final(self).max_potential),
            final(self)@ == (AStarModel { max_potential: final(self).max_potential, ..old(self)@ }),
            final(self).wf(),
    {
        let ghost g = squares@;
        let rows = squares.len();
        let cols = squares[0].len();
        let mut max_potential: u64 = 0;
        let ghost mut wr: int = 0;
        let ghost mut wc: int = 0;
        let mut new_squares: Vec<Vec<Square>> = Vec::new();
        let mut i: usize = 0;
        while i < rows
            invariant
                grid_wf(g),
                g == squares@,
                rows == g.len(),
                cols == g[0]@.len(),
                i <= rows,
                index_fits(self.start),
                index_fits(self.end),
                new_squares@.len() == i,
                max_potential <= MAX_POTENTIAL,
                forall|r: int| 0 <= r < i ==> #[trigger] new_squares@[r]@.len() == cols,
                forall|r: int, c: int|
                    0 <= r < i && 0 <= c < cols ==> #[trigger] cell(new_squares@, r, c)
                        == with_potential(cell(g, r, c), self.start, self.end),
                forall|r: int, c: int|
                    0 <= r < i && 0 <= c < cols ==> (#[trigger] cell(new_squares@, r, c)).potential
                        <= max_potential,
                max_potential == 0 || (0 <= wr < i && 0 <= wc < cols && cell(
                    new_squares@,
                    wr,
                    wc,
                ).potential == max_potential),
            decreases rows - i,
        {
            let mut row: Vec<Square> = Vec::new();
            let mut j: usize = 0;
            assert(g[i as int]@.len() == cols);
            while j < cols
                invariant
                    grid_wf(g),
                    g == squares@,
                    rows == g.len(),
                    cols == g[0]@.len(),
                    i < rows,
                    j <= cols,
                    index_fits(self.start),
                    index_fits(self.end),
                    row@.len() == j,
                    max_potential <= MAX_POTENTIAL,
                    new_squares@.len() == i,
                    forall|r: int, c: int|
                        0 <= r < i && 0 <= c < cols ==> (#[trigger] cell(
                            new_squares@,
                            r,
                            c,
                        )).potential <= max_potential,
                    forall|c: int|
                        0 <= c < j ==> #[trigger] row@[c] == with_potential(
                            cell(g, i as int, c),
                            self.start,
                            self.end,
                        ),
                    forall|c: int| 0 <= c < j ==> (#[trigger] row@[c]).potential <= max_potential,
                    max_potential == 0 || (0 <= wr < i && 0 <= wc < cols && cell(
                        new_squares@,
                        wr,
                        wc,
                    ).potential == max_potential) || (wr == i && 0 <= wc < j
                        && row@[wc].potential == max_potential),
                decreases cols - j,
            {
                let square = squares[i][j];
                assert(square == cell(g, i as int, j as int));
                assert(square.index == (i, j));
                let start_square = Square { solid: false, index: self.start, potential: 0 };
                let potential: u64 = Self::potential(self.end, &square) + distance(
                    start_square.index,
                    square.index,
                );
                let new_square = Square { potential, ..square };
                if potential > max_potential {
                    max_potential = potential;
                    proof {
                        wr = i as int;
                        wc = j as int;
                    }
                }
                row.push(new_square);
                j = j + 1;
            }
            let ghost before = new_squares@;
            new_squares.push(row);
            proof {
                assert forall|r: int, c: int| 0 <= r <= i && 0 <= c < cols implies {
                    &&& #[trigger] cell(new_squares@, r, c) == with_potential(
                        cell(g, r, c),
                        self.start,
                        self.end,
                    )
                    &&& cell(new_squares@, r, c).potential <= max_potential
                } by {
                    if r < i {
                        assert(new_squares@[r] == before[r]);
                        assert(cell(new_squares@, r, c) == cell(before, r, c));
                    } else {
                        assert(cell(new_squares@, r, c) == row@[c]);
                    }
                }
                if max_potential != 0 && wr < i {
                    assert(cell(new_squares@, wr, wc) == cell(before, wr, wc));
                }
                if max_potential != 0 && wr == i {
                    assert(cell(new_squares@, wr, wc) == row@[wc]);
                }
            }
            i = i + 1;
        }
        self.max_potential = max_potential;
        proof {
            assert(cols_of(new_squares@) == cols);
            if max_potential == 0 {
                assert(cell(new_squares@, 0, 0).potential == 0);
                assert(in_grid(new_squares@, 0, 0));
            } else {
                assert(in_grid(new_squares@, wr, wc));
            }
            assert(views(self.walkers@) == old(self)@.walkers);
        }
        new_squares
    }
}

/// The potential of the goal cell is its distance from the start: the
/// goal-seeking term vanishes there.
pub proof fn lemma_goal_potential(
    old: Seq<Vec<Square>>,
    new: Seq<Vec<Square>>,
    start: (usize, usize),
    goal: (usize, usize),
)
    requires
        grid_wf(old),
        annotated(old, new, start, goal),
        in_grid(old, start.0 as int, start.1 as int),
        in_grid(old, goal.0 as int, goal.1 as int),
    ensures
        cell(new, goal.0 as int, goal.1 as int).potential == scaled_distance(start, goal),
{
    let (r, c) = (goal.0 as int, goal.1 as int);
    assert(cell(old, r, c).index == goal);
    assert(sq_dist(goal, goal) == 0);
    lemma_floor_sqrt_zero();
    assert(scaled_distance(goal, goal) == 0);
    assert(index_fits(start) && index_fits(goal));
    lemma_scaled_distance_small(start, goal);
}

/// The shared visited list only grows during a sweep: what was there stays, in place.
pub proof fn lemma_sweep_visited_grows(a: AStarModel, g: Seq<Vec<Square>>, n: nat)
    ensures
        sweep(a, g, n).visited.len() >= a.path.len(),
        sweep(a, g, n).visited.subrange(0, a.path.len() as int) == a.path,
    decreases n,
{
    if n > 0 {
        lemma_sweep_visited_grows(a, g, (n - 1) as nat);
        let s = sweep(a, g, (n - 1) as nat);
        let i = n - 1;
        if !s.halted && i < s.walkers.len() && s.walkers[i].done != Done::Finished {
            let t = turn(s.walkers[i], s.visited, g, a.end, a.max_potential);
            assert(t.visited.subrange(0, a.path.len() as int) =~= s.visited.subrange(
                0,
                a.path.len() as int,
            ));
        }
    }
}

/// Visited cells are never given up: after a tick the old visited list is a
/// prefix of the new one, so its size never shrinks.
pub proof fn lemma_visited_monotone(a: AStarModel, g: Seq<Vec<Square>>)
    ensures
        tick(a, g).path.len() >= a.path.len(),
        tick(a, g).path.subrange(0, a.path.len() as int) == a.path,
{
    lemma_sweep_visited_grows(a, g, a.walkers.len());
}

/// No walker ever steps onto a cell that was already visited: each forked
/// walker, and the walker itself when it moves, lands on a cell outside the
/// visited list it was given.
pub proof fn lemma_turn_avoids_visited(
    w: WalkerModel,
    visited: Seq<(usize, usize)>,
    g: Seq<Vec<Square>>,
    goal: (usize, usize),
    max: u64,
)
    ensures
        forall|j: int|
            0 <= j < turn(w, visited, g, goal, max).spawned.len() ==> !visited.contains(
                (#[trigger] turn(w, visited, g, goal, max).spawned[j]).position,
            ),
        turn(w, visited, g, goal, max).walker.position != w.position ==> !visited.contains(
            turn(w, visited, g, goal, max).walker.position,
        ),
{
    let cands = candidates(g, visited, w.position);
    lemma_candidates_unvisited(g, visited, w.position);
    if cands.len() > 0 {
        lemma_best_is_candidate(cands, 0, cands[0]);
    }
}

proof fn lemma_candidates_unvisited(g: Seq<Vec<Square>>, visited: Seq<(usize, usize)>, pos: (usize, usize))
    ensures
        forall|j: int|
            0 <= j < candidates(g, visited, pos).len() ==> !visited.contains(
                (#[trigger] candidates(g, visited, pos)[j]).index,
            ) && !candidates(g, visited, pos)[j].solid,
{
    let k0 = keep(g, visited, side(pos, 0));
    let k1 = keep(g, visited, side(pos, 1));
    let k2 = keep(g, visited, side(pos, 2));
    let k3 = keep(g, visited, side(pos, 3));
    let c = candidates(g, visited, pos);
    assert forall|j: int| 0 <= j < c.len() implies !visited.contains((#[trigger] c[j]).index)
        && !c[j].solid by {
        if j < k0.len() {
            assert(c[j] == k0[j]);
        } else if j < k0.len() + k1.len() {
            assert(c[j] == k1[j - k0.len()]);
        } else if j < k0.len() + k1.len() + k2.len() {
            assert(c[j] == k2[j - k0.len() - k1.len()]);
        } else {
            assert(c[j] == k3[j - k0.len() - k1.len() - k2.len()]);
        }
    }
}

proof fn lemma_best_is_candidate(cands: Seq<Square>, i: int, cur: Square)
    requires
        0 <= i <= cands.len(),
        cands.contains(cur),
    ensures
        cands.contains(best_from(cands, i, cur)),
    decreases cands.len() - i,
{
    if i < cands.len() {
        let next = if cur.potential > cands[i].potential {
            cands[i]
        } else {
            cur
        };
        assert(cands.contains(next));
        lemma_best_is_candidate(cands, i + 1, next);
    }
}

/// The walker takes a real step on this turn: it is not stuck, its timer
/// passes the threshold, and it has somewhere to go.
pub open spec fn advances(w: WalkerModel, visited: Seq<(usize, usize)>, g: Seq<Vec<Square>>) -> bool {
    &&& w.done != Done::NotFinished(true)
    &&& (w.counter + w.speed) as u64 > THRESHOLD
    &&& candidates(g, visited, w.position).len() > 0
}

proof fn lemma_candidates_distinct(g: Seq<Vec<Square>>, visited: Seq<(usize, usize)>, pos: (usize, usize))
    requires
        grid_wf(g),
    ensures
        forall|j1: int, j2: int|
            0 <= j1 < j2 < candidates(g, visited, pos).len() ==> (#[trigger] candidates(
                g,
                visited,
                pos,
            )[j1]).index != (#[trigger] candidates(g, visited, pos)[j2]).index,
{
    let k0 = keep(g, visited, side(pos, 0));
    let k1 = keep(g, visited, side(pos, 1));
    let k2 = keep(g, visited, side(pos, 2));
    let k3 = keep(g, visited, side(pos, 3));
    let c = candidates(g, visited, pos);
    let l0 = k0.len() as int;
    let l1 = l0 + k1.len();
    let l2 = l1 + k2.len();
    assert forall|j: int| 0 <= j < c.len() implies {
        let b = if j < l0 {
            0int
        } else if j < l1 {
            1int
        } else if j < l2 {
            2int
        } else {
            3int
        };
        &&& in_grid(g, side(pos, b).0, side(pos, b).1)
        &&& (#[trigger] c[j]).index == (side(pos, b).0 as usize, side(pos, b).1 as usize)
    } by {
        if j < l0 {
            assert(c[j] == k0[j]);
        } else if j < l1 {
            assert(c[j] == k1[j - l0]);
        } else if j < l2 {
            assert(c[j] == k2[j - l1]);
        } else {
            assert(c[j] == k3[j - l2]);
        }
    }
}

/// One turn that moves a walker with `k` open, unvisited neighbours forks
/// exactly `k` walkers, one onto each neighbour, and adds exactly `k` new,
/// distinct cells to the visited list; a turn that does not move adds nothing.
pub proof fn lemma_branch_count(
    w: WalkerModel,
    visited: Seq<(usize, usize)>,
    g: Seq<Vec<Square>>,
    goal: (usize, usize),
    max: u64,
)
    requires
        grid_wf(g),
    ensures
        ({
            let t = turn(w, visited, g, goal, max);
            let cands = candidates(g, visited, w.position);
            &&& t.spawned.len() == if advances(w, visited, g) {
                cands.len()
            } else {
                0
            }
            &&& forall|j: int|
                0 <= j < t.spawned.len() ==> (#[trigger] t.spawned[j]).position == cands[j].index
            &&& t.visited.len() == visited.len() + t.spawned.len()
            &&& t.visited.subrange(0, visited.len() as int) == visited
            &&& forall|j: int|
                visited.len() <= j < t.visited.len() ==> !visited.contains(#[trigger] t.visited[j])
            &&& forall|j1: int, j2: int|
                visited.len() <= j1 < j2 < t.visited.len() ==> #[trigger] t.visited[j1]
                    != #[trigger] t.visited[j2]
            &&& visited.no_duplicates() ==> t.visited.no_duplicates()
        }),
{
    let t = turn(w, visited, g, goal, max);
    let cands = candidates(g, visited, w.position);
    lemma_candidates_unvisited(g, visited, w.position);
    lemma_candidates_distinct(g, visited, w.position);
    if advances(w, visited, g) {
        let added = cands.map_values(|s: Square| s.index);
        assert(t.visited == visited + added);
        assert(t.spawned.len() == cands.len());
        assert forall|j: int| 0 <= j < t.spawned.len() implies (#[trigger] t.spawned[j]).position
            == cands[j].index by {
            assert(t.spawned[j] == moved(fresh(cands[j], w.path), cands[j], max));
        }
        assert(t.visited.subrange(0, visited.len() as int) =~= visited);
        assert forall|j: int| visited.len() <= j < t.visited.len() implies !visited.contains(
            #[trigger] t.visited[j],
        ) by {
            assert(t.visited[j] == cands[j - visited.len()].index);
        }
        assert forall|j1: int, j2: int|
            visited.len() <= j1 < j2 < t.visited.len() implies #[trigger] t.visited[j1]
                != #[trigger] t.visited[j2] by {
            assert(t.visited[j1] == cands[j1 - visited.len()].index);
            assert(t.visited[j2] == cands[j2 - visited.len()].index);
        }
        if visited.no_duplicates() {
            assert forall|i: int, j: int|
                0 <= i < t.visited.len() && 0 <= j < t.visited.len() && i != j implies t.visited[i]
                != t.visited[j] by {
                let n = visited.len() as int;
                if i < n && j < n {
                    assert(t.visited[i] == visited[i] && t.visited[j] == visited[j]);
                } else if i < n {
                    assert(t.visited[i] == visited[i]);
                    assert(!visited.contains(t.visited[j]));
                } else if j < n {
                    assert(t.visited[j] == visited[j]);
                    assert(!visited.contains(t.visited[i]));
                } else if i < j {
                    assert(t.visited[i] != t.visited[j]);
                } else {
                    assert(t.visited[j] != t.visited[i]);
                }
            }
        }
    } else {
        assert(t.visited == visited);
        assert(t.spawned.len() == 0);
        assert(t.visited.subrange(0, visited.len() as int) =~= visited);
    }
}

/// A walker whose chosen neighbour is the goal finishes on that same turn.
pub proof fn lemma_turn_goal(
    w: WalkerModel,
    visited: Seq<(usize, usize)>,
    g: Seq<Vec<Square>>,
    goal: (usize, usize),
    max: u64,
)
    requires
        advances(w, visited, g),
        best(candidates(g, visited, w.position)).index == goal,
    ensures
        turn(w, visited, g, goal, max).reached,
        turn(w, visited, g, goal, max).walker.done == Done::Finished,
        turn(w, visited, g, goal, max).walker.position == goal,
{
}

proof fn lemma_sweep_finished(a: AStarModel, g: Seq<Vec<Square>>, n: nat)
    ensures
        sweep(a, g, n).finished >= 0 ==> {
            let s = sweep(a, g, n);
            &&& s.finished < a.walkers.len()
            &&& s.walkers[s.finished].done == Done::Finished
            &&& s.walkers[s.finished].position == a.end
        },
        sweep(a, g, n).finished < n,
    decreases n,
{
    if n > 0 {
        lemma_sweep_finished(a, g, (n - 1) as nat);
        lemma_sweep_len(a, g, (n - 1) as nat);
    }
}

/// When a walker reaches the goal during a tick, the tick ends with that
/// finished walker, standing on the goal, first in the list.
pub proof fn lemma_goal_first(a: AStarModel, g: Seq<Vec<Square>>)
    requires
        sweep(a, g, a.walkers.len()).finished >= 0,
    ensures
        tick(a, g).walkers[0].done == Done::Finished,
        tick(a, g).walkers[0].position == a.end,
{
    lemma_sweep_finished(a, g, a.walkers.len());
    lemma_sweep_len(a, g, a.walkers.len());
}

proof fn lemma_sweep_keeps_stuck(a: AStarModel, g: Seq<Vec<Square>>, n: nat, i: int)
    requires
        0 <= i < a.walkers.len(),
        a.walkers[i].done == Done::NotFinished(true),
    ensures
        sweep(a, g, n).walkers[i] == a.walkers[i],
    decreases n,
{
    if n > 0 {
        lemma_sweep_keeps_stuck(a, g, (n - 1) as nat, i);
        lemma_sweep_len(a, g, (n - 1) as nat);
    }
}

/// A stuck walker is never moved again: a tick leaves it exactly as it was, in
/// its place, unless it stood first and a walker reached the goal, in which
/// case it trades places with that walker.
pub proof fn lemma_stuck_kept(a: AStarModel, g: Seq<Vec<Square>>, i: int)
    requires
        0 <= i < a.walkers.len(),
        a.walkers[i].done == Done::NotFinished(true),
    ensures
        ({
            let f = sweep(a, g, a.walkers.len()).finished;
            tick(a, g).walkers[if i == 0 && f > 0 {
                f
            } else {
                i
            }] == a.walkers[i]
        }),
{
    let s = sweep(a, g, a.walkers.len());
    lemma_sweep_keeps_stuck(a, g, a.walkers.len(), i);
    lemma_sweep_finished(a, g, a.walkers.len());
    lemma_sweep_len(a, g, a.walkers.len());
}

/// A tick of an engine with one walker, which moves, forks exactly one walker
/// onto each of its `k` open, unvisited neighbours, in side order, adds exactly
/// those neighbours to the visited list, and moves the walker onto one of them.
pub proof fn lemma_step_branches(a: AStarModel, g: Seq<Vec<Square>>)
    requires
        grid_wf(g),
        a.walkers.len() == 1,
        a.walkers[0].done != Done::Finished,
        advances(a.walkers[0], a.path, g),
    ensures
        ({
            let w = a.walkers[0];
            let c = candidates(g, a.path, w.position);
            let b = tick(a, g);
            &&& b.walkers.len() == 1 + c.len()
            &&& forall|j: int|
                0 <= j < c.len() ==> {
                    &&& (#[trigger] b.walkers[1 + j]).position == c[j].index
                    &&& b.walkers[1 + j].done == Done::NotFinished(false)
                    &&& b.walkers[1 + j].path == crate::walker::with_cell(w.path, c[j].index)
                }
            &&& b.path == a.path + c.map_values(|q: Square| q.index)
            &&& c.contains(b.walkers[0].square)
            &&& b.walkers[0].position == b.walkers[0].square.index
        }),
{
    let w = a.walkers[0];
    let c = candidates(g, a.path, w.position);
    let s0 = sweep(a, g, 0);
    assert(s0.walkers == a.walkers && s0.visited == a.path && s0.spawned == Seq::<WalkerModel>::empty());
    let t = turn(w, a.path, g, a.end, a.max_potential);
    let s1 = sweep(a, g, 1);
    assert(s1.walkers == a.walkers.update(0, t.walker));
    assert(s1.spawned =~= t.spawned);
    lemma_best_is_candidate(c, 0, c[0]);
    let b = tick(a, g);
    assert(b.walkers == s1.walkers + s1.spawned);
    assert forall|j: int| 0 <= j < c.len() implies {
        &&& (#[trigger] b.walkers[1 + j]).position == c[j].index
        &&& b.walkers[1 + j].done == Done::NotFinished(false)
        &&& b.walkers[1 + j].path == crate::walker::with_cell(w.path, c[j].index)
    } by {
        assert(b.walkers[1 + j] == t.spawned[j]);
        assert(t.spawned[j] == moved(fresh(c[j], w.path), c[j], a.max_potential));
    }
}

/// No walker of the list has finished.
pub open spec fn none_finished(ws: Seq<WalkerModel>) -> bool {
    forall|i: int| 0 <= i < ws.len() ==> (#[trigger] ws[i]).done != Done::Finished
}

/// Starting from a list with no finished walker, a sweep never halts; once a
/// walker has reached the goal, the goal is visited, that walker is the only
/// finished one, it holds the goal in its path, and no forked walker is finished.
proof fn lemma_sweep_one_finisher(a: AStarModel, g: Seq<Vec<Square>>, n: nat)
    requires
        none_finished(a.walkers),
    ensures
        ({
            let s = sweep(a, g, n);
            &&& !s.halted
            &&& s.finished >= 0 ==> s.visited.contains(a.end) && s.walkers[s.finished].path.contains(
                a.end,
            )
            &&& forall|i: int|
                0 <= i < s.walkers.len() && i != s.finished ==> (#[trigger] s.walkers[i]).done
                    != Done::Finished
            &&& forall|j: int|
                0 <= j < s.spawned.len() ==> (#[trigger] s.spawned[j]).done == Done::NotFinished(
                    false,
                )
        }),
    decreases n,
{
    if n > 0 {
        let p = sweep(a, g, (n - 1) as nat);
        lemma_sweep_one_finisher(a, g, (n - 1) as nat);
        lemma_sweep_len(a, g, (n - 1) as nat);
        lemma_sweep_finished(a, g, (n - 1) as nat);
        let i = n - 1;
        if i < p.walkers.len() {
            assert(p.walkers[i].done != Done::Finished) by {
                assert(i != p.finished);
            }
            let w = p.walkers[i];
            let t = turn(w, p.visited, g, a.end, a.max_potential);
            let c = candidates(g, p.visited, w.position);
            let s = sweep(a, g, n);
            lemma_candidates_unvisited(g, p.visited, w.position);
            if c.len() > 0 {
                lemma_best_is_candidate(c, 0, c[0]);
            }
            if p.finished >= 0 && t.reached {
                assert(!p.visited.contains(best(c).index));
            }
            if t.reached {
                let k = choose|k: int| 0 <= k < c.len() && c[k] == best(c);
                assert(t.visited[p.visited.len() + k] == a.end);
            }
            if p.finished >= 0 {
                let k = choose|k: int| 0 <= k < p.visited.len() && p.visited[k] == a.end;
                if advances(w, p.visited, g) {
                    assert(t.visited == p.visited + c.map_values(|q: Square| q.index));
                } else {
                    assert(t.visited == p.visited);
                }
                assert(t.visited[k] == a.end);
                assert(s.walkers[p.finished] == p.walkers[p.finished]);
            }
            if t.reached {
                assert(s.finished == i);
                assert(s.walkers[i] == t.walker);
                assert(t.walker.path == crate::walker::with_cell(w.path, a.end));
                assert(t.walker.path.contains(a.end)) by {
                    if !w.path.contains(a.end) {
                        assert(t.walker.path[w.path.len() as int] == a.end);
                    }
                }
            }
            assert forall|q: int|
                0 <= q < s.walkers.len() && q != s.finished implies (#[trigger] s.walkers[q]).done
                != Done::Finished by {
                if q != i {
                    assert(s.walkers[q] == p.walkers[q]);
                }
            }
            assert forall|j: int| 0 <= j < s.spawned.len() implies (#[trigger] s.spawned[j]).done
                == Done::NotFinished(false) by {
                if j >= p.spawned.len() {
                    assert(s.spawned[j] == t.spawned[j - p.spawned.len()]);
                }
            }
        }
    }
}

/// In a tick that starts with no finished walker, at most one walker
/// finishes: when one reaches the goal it stands first, on the goal, with the
/// goal in its path, and no other walker of the new list is finished.
pub proof fn lemma_unique_finisher(a: AStarModel, g: Seq<Vec<Square>>)
    requires
        none_finished(a.walkers),
    ensures
        forall|j: int|
            0 < j < tick(a, g).walkers.len() ==> (#[trigger] tick(a, g).walkers[j]).done
                != Done::Finished,
        sweep(a, g, a.walkers.len()).finished >= 0 ==> {
            &&& tick(a, g).walkers[0].done == Done::Finished
            &&& tick(a, g).walkers[0].position == a.end
            &&& tick(a, g).walkers[0].path.contains(a.end)
        },
{
    let s = sweep(a, g, a.walkers.len());
    lemma_sweep_one_finisher(a, g, a.walkers.len());
    lemma_sweep_len(a, g, a.walkers.len());
    lemma_sweep_finished(a, g, a.walkers.len());
    let b = tick(a, g);
    let ws = if s.finished > 0 {
        swap_seq(s.walkers, 0, s.finished)
    } else {
        s.walkers
    };
    assert(b.walkers == ws + s.spawned);
    assert forall|j: int| 0 < j < b.walkers.len() implies (#[trigger] b.walkers[j]).done
        != Done::Finished by {
        if j < ws.len() {
            if s.finished > 0 && j == s.finished {
                assert(ws[j] == s.walkers[0]);
            } else {
                assert(ws[j] == s.walkers[j]);
            }
        } else {
            assert(b.walkers[j] == s.spawned[j - ws.len()]);
        }
    }
}

/// Once a walker has reached the goal, later turns of the same sweep leave it
/// the finisher, and leave it as it is.
proof fn lemma_finished_stays(a: AStarModel, g: Seq<Vec<Square>>, k: nat, n: nat)
    requires
        none_finished(a.walkers),
        k <= n,
        sweep(a, g, k).finished >= 0,
    ensures
        sweep(a, g, n).finished == sweep(a, g, k).finished,
        sweep(a, g, n).walkers[sweep(a, g, k).finished] == sweep(a, g, k).walkers[sweep(
            a,
            g,
            k,
        ).finished],
    decreases n - k,
{
    if k < n {
        let m = (n - 1) as nat;
        lemma_finished_stays(a, g, k, m);
        let p = sweep(a, g, m);
        lemma_sweep_one_finisher(a, g, m);
        lemma_sweep_finished(a, g, m);
        lemma_sweep_len(a, g, m);
        if m < p.walkers.len() {
            let w = p.walkers[m as int];
            let c = candidates(g, p.visited, w.position);
            lemma_candidates_unvisited(g, p.visited, w.position);
            if c.len() > 0 {
                lemma_best_is_candidate(c, 0, c[0]);
            }
        }
    }
}

/// A walker whose turn picks the goal finishes on that same tick and ends it
/// first in the list, on the goal.
pub proof fn lemma_goal_detected(a: AStarModel, g: Seq<Vec<Square>>, i: nat)
    requires
        none_finished(a.walkers),
        i < a.walkers.len(),
        advances(sweep(a, g, i).walkers[i as int], sweep(a, g, i).visited, g),
        best(
            candidates(g, sweep(a, g, i).visited, sweep(a, g, i).walkers[i as int].position),
        ).index == a.end,
    ensures
        sweep(a, g, a.walkers.len()).finished == i,
        tick(a, g).walkers[0] == sweep(a, g, a.walkers.len()).walkers[i as int],
        tick(a, g).walkers[0].done == Done::Finished,
        tick(a, g).walkers[0].position == a.end,
{
    lemma_sweep_one_finisher(a, g, i);
    lemma_sweep_len(a, g, i);
    lemma_sweep_finished(a, g, i);
    let p = sweep(a, g, i);
    assert(p.walkers[i as int].done != Done::Finished) by {
        if p.finished >= 0 {
            assert(p.finished < i);
        }
    }
    assert(sweep(a, g, i + 1).finished == i);
    lemma_finished_stays(a, g, i + 1, a.walkers.len());
    lemma_unique_finisher(a, g);
    lemma_sweep_len(a, g, a.walkers.len());
}

/// Positions of a list of walkers.
pub open spec fn positions(ws: Seq<WalkerModel>) -> Seq<(usize, usize)> {
    ws.map_values(|w: WalkerModel| w.position)
}

/// During a sweep the visited list grows by exactly the cells the forked
/// walkers stand on, in order; it keeps each cell once; and a walker that
/// moved stands on a cell that was not visited before the sweep, and is now.
proof fn lemma_sweep_new_cells(a: AStarModel, g: Seq<Vec<Square>>, n: nat)
    requires
        grid_wf(g),
        a.path.no_duplicates(),
    ensures
        ({
            let s = sweep(a, g, n);
            &&& s.visited == a.path + positions(s.spawned)
            &&& s.visited.no_duplicates()
            &&& forall|i: int|
                0 <= i < a.walkers.len() && (#[trigger] s.walkers[i]).position
                    != a.walkers[i].position ==> !a.path.contains(s.walkers[i].position)
                    && s.visited.contains(s.walkers[i].position)
        }),
    decreases n,
{
    if n > 0 {
        let m = (n - 1) as nat;
        lemma_sweep_new_cells(a, g, m);
        lemma_sweep_len(a, g, m);
        lemma_sweep_visited_grows(a, g, m);
        let p = sweep(a, g, m);
        let s = sweep(a, g, n);
        if !p.halted && m < p.walkers.len() && p.walkers[m as int].done != Done::Finished {
            let w = p.walkers[m as int];
            let t = turn(w, p.visited, g, a.end, a.max_potential);
            let c = candidates(g, p.visited, w.position);
            lemma_branch_count(w, p.visited, g, a.end, a.max_potential);
            lemma_candidates_unvisited(g, p.visited, w.position);
            assert(positions(t.spawned) =~= t.visited.subrange(
                p.visited.len() as int,
                t.visited.len() as int,
            )) by {
                if advances(w, p.visited, g) {
                    assert(t.visited == p.visited + c.map_values(|q: Square| q.index));
                }
            }
            assert(positions(s.spawned) =~= positions(p.spawned) + positions(t.spawned));
            assert(t.visited =~= p.visited + t.visited.subrange(
                p.visited.len() as int,
                t.visited.len() as int,
            ));
            assert(s.visited =~= a.path + positions(s.spawned));
            if c.len() > 0 {
                lemma_best_is_candidate(c, 0, c[0]);
            }
            assert forall|i: int|
                0 <= i < a.walkers.len() && (#[trigger] s.walkers[i]).position
                    != a.walkers[i].position implies !a.path.contains(s.walkers[i].position)
                && s.visited.contains(s.walkers[i].position) by {
                if i != m {
                    assert(s.walkers[i] == p.walkers[i]);
                    let k = choose|k: int|
                        0 <= k < p.visited.len() && p.visited[k] == p.walkers[i].position;
                    assert(s.visited[k] == p.visited[k]);
                } else if t.walker.position != w.position {
                    let b = best(c);
                    assert(advances(w, p.visited, g));
                    assert(t.walker.position == b.index);
                    let k = choose|k: int| 0 <= k < c.len() && c[k] == b;
                    assert(t.visited[p.visited.len() + k] == b.index);
                    assert(!p.visited.contains(b.index));
                    if a.path.contains(b.index) {
                        let q = choose|q: int| 0 <= q < a.path.len() && a.path[q] == b.index;
                        assert(p.visited[q] == a.path[q]);
                    }
                } else {
                    assert(s.walkers[i].position == p.walkers[i].position);
                    let k = choose|k: int|
                        0 <= k < p.visited.len() && p.visited[k] == p.walkers[i].position;
                    assert(s.visited[k] == p.visited[k]);
                }
            }
        }
    } else {
        assert(positions(Seq::<WalkerModel>::empty()) =~= Seq::<(usize, usize)>::empty());
        assert(a.path + Seq::<(usize, usize)>::empty() =~= a.path);
    }
}

/// Where a tick puts the walker that stood at `i`: the finisher and the first
/// walker trade places, the others stay.
pub open spec fn placed(f: int, i: int) -> int {
    if f > 0 && i == 0 {
        f
    } else if f > 0 && i == f {
        0
    } else {
        i
    }
}

/// A tick never puts a walker on a cell that was visited before it: every
/// forked walker, and every walker that moved, stands on a cell that was not
/// visited before the tick and is visited after it, and the forked walkers
/// stand on distinct cells.
pub proof fn lemma_tick_new_cells(a: AStarModel, g: Seq<Vec<Square>>)
    requires
        grid_wf(g),
        a.path.no_duplicates(),
    ensures
        ({
            let b = tick(a, g);
            let n = a.walkers.len() as int;
            let f = sweep(a, g, a.walkers.len()).finished;
            &&& forall|j: int|
                n <= j < b.walkers.len() ==> !a.path.contains((#[trigger] b.walkers[j]).position)
                    && b.path.contains(b.walkers[j].position)
            &&& forall|j1: int, j2: int|
                n <= j1 < j2 < b.walkers.len() ==> (#[trigger] b.walkers[j1]).position
                    != (#[trigger] b.walkers[j2]).position
            &&& forall|i: int|
                0 <= i < n && (#[trigger] b.walkers[placed(f, i)]).position
                    != a.walkers[i].position ==> !a.path.contains(b.walkers[placed(f, i)].position)
                    && b.path.contains(b.walkers[placed(f, i)].position)
        }),
{
    let s = sweep(a, g, a.walkers.len());
    lemma_sweep_new_cells(a, g, a.walkers.len());
    lemma_sweep_len(a, g, a.walkers.len());
    lemma_sweep_finished(a, g, a.walkers.len());
    let b = tick(a, g);
    let n = a.walkers.len() as int;
    let f = s.finished;
    let ws = if f > 0 {
        swap_seq(s.walkers, 0, f)
    } else {
        s.walkers
    };
    assert(b.walkers == ws + s.spawned);
    let pl = a.path.len() as int;
    assert forall|j: int| n <= j < b.walkers.len() implies !a.path.contains(
        (#[trigger] b.walkers[j]).position,
    ) && b.path.contains(b.walkers[j].position) by {
        assert(b.walkers[j] == s.spawned[j - n]);
        assert(s.visited[pl + j - n] == b.walkers[j].position);
        if a.path.contains(b.walkers[j].position) {
            let q = choose|q: int| 0 <= q < pl && a.path[q] == b.walkers[j].position;
            assert(s.visited[q] == a.path[q]);
        }
    }
    assert forall|j1: int, j2: int|
        n <= j1 < j2 < b.walkers.len() implies (#[trigger] b.walkers[j1]).position
            != (#[trigger] b.walkers[j2]).position by {
        assert(s.visited[pl + j1 - n] == b.walkers[j1].position);
        assert(s.visited[pl + j2 - n] == b.walkers[j2].position);
    }
    assert forall|i: int|
        0 <= i < n && (#[trigger] b.walkers[placed(f, i)]).position
            != a.walkers[i].position implies !a.path.contains(b.walkers[placed(f, i)].position)
        && b.path.contains(b.walkers[placed(f, i)].position) by {
        assert(b.walkers[placed(f, i)] == s.walkers[i]);
    }
}

/// The goal cell has the least potential of the field, to within the one unit
/// that rounding each distance down can lose.
pub proof fn lemma_goal_near_minimum(
    old: Seq<Vec<Square>>,
    new: Seq<Vec<Square>>,
    start: (usize, usize),
    goal: (usize, usize),
    r: int,
    c: int,
)
    requires
        grid_wf(old),
        annotated(old, new, start, goal),
        in_grid(old, start.0 as int, start.1 as int),
        in_grid(old, goal.0 as int, goal.1 as int),
        in_grid(old, r, c),
    ensures
        cell(new, goal.0 as int, goal.1 as int).potential <= cell(new, r, c).potential + 1,
{
    lemma_goal_potential(old, new, start, goal);
    let at = cell(old, r, c).index;
    assert(at == (r as usize, c as usize));
    assert(index_fits(at) && index_fits(start) && index_fits(goal));
    lemma_scaled_distance_small(goal, at);
    lemma_scaled_distance_small(start, at);
    lemma_distance_symmetric(goal, at);
    lemma_triangle(start, at, goal);
    assert(cell(new, r, c).potential == potential_of(start, goal, at));
}

} // verus!
