use vstd::prelude::*;

use crate::squares::Square;

verus! {

/// A walker's progress: still searching (and whether it is stuck), or at the goal.
#[derive(Clone, Copy, PartialEq, Eq, Structural, Debug)]
pub enum Done {
    NotFinished(bool),
    Finished,
}

/// A walker advances once its timer exceeds this value (0.3 in units of `SPEED_ONE`).
pub const THRESHOLD: u64 = 300;

/// Unit speed in the fixed-point scale of timers.
pub const SPEED_ONE: u64 = 1000;

/// The speed a walker starts with, so that a fresh walker moves on its first tick.
pub const INITIAL_SPEED: u64 = 100_000_000;

/// An upper bound on every potential the library computes.
pub const MAX_POTENTIAL: u64 = 0x2_0000_0000;

/// `(1 - p / max)^2` in units of `SPEED_ONE`, rounded down: close to the best
/// potentials a walker is fast, near the worst it crawls. Without a maximum the
/// speed is one unit.
pub open spec fn speed_of(p: u64, max: u64) -> u64 {
    if max == 0 {
        SPEED_ONE
    } else {
        ((max - p) * (max - p) * SPEED_ONE / (max * max)) as u64
    }
}

/// One exploration thread of the search.
pub struct Walker {
    pub position: (usize, usize),
    pub square: Square,
    pub path: Vec<(usize, usize)>,
    pub counter: u64,
    pub speed: u64,
    pub done: Done,
}

/// What a walker holds, with its path as a sequence of indices.
pub ghost struct WalkerModel {
    pub position: (usize, usize),
    pub square: Square,
    pub path: Seq<(usize, usize)>,
    pub counter: u64,
    pub speed: u64,
    pub done: Done,
}

impl View for Walker {
    type V = WalkerModel;

    open spec fn view(&self) -> WalkerModel {
        WalkerModel {
            position: self.position,
            square: self.square,
            path: self.path@,
            counter: self.counter,
            speed: self.speed,
            done: self.done,
        }
    }
}

/// The models of a list of walkers.
pub open spec fn views(s: Seq<Walker>) -> Seq<WalkerModel> {
    s.map_values(|w: Walker| w@)
}

/// The path with `at` added, unless it is there already.
pub open spec fn with_cell(path: Seq<(usize, usize)>, at: (usize, usize)) -> Seq<(usize, usize)> {
    if path.contains(at) {
        path
    } else {
        path.push(at)
    }
}

/// A walker placed on `square` with the given path and a full timer budget.
pub open spec fn fresh(square: Square, path: Seq<(usize, usize)>) -> WalkerModel {
    WalkerModel {
        position: square.index,
        square,
        path,
        counter: 0,
        speed: INITIAL_SPEED,
        done: Done::NotFinished(false),
    }
}

/// The walker after it steps onto `next`.
pub open spec fn moved(w: WalkerModel, next: Square, max: u64) -> WalkerModel {
    WalkerModel {
        position: next.index,
        square: next,
        path: with_cell(w.path, next.index),
        counter: 0,
        speed: speed_of(next.potential, max),
        done: w.done,
    }
}

/// A walker's path holds each cell once, and while it is active its timer
/// arithmetic stays in range.
pub open spec fn walker_wf(w: WalkerModel) -> bool {
    &&& w.path.no_duplicates()
    &&& w.done == Done::NotFinished(false) ==> w.counter <= THRESHOLD && w.speed <= INITIAL_SPEED
}

/// Adding a cell to a path keeps it free of repeats.
pub proof fn lemma_with_cell_no_duplicates(path: Seq<(usize, usize)>, at: (usize, usize))
    requires
        path.no_duplicates(),
    ensures
        with_cell(path, at).no_duplicates(),
{
    if !path.contains(at) {
        let q = path.push(at);
        assert forall|i: int, j: int| 0 <= i < q.len() && 0 <= j < q.len() && i != j implies q[i]
            != q[j] by {
            if i < path.len() && j < path.len() {
                assert(q[i] == path[i] && q[j] == path[j]);
            } else if i < path.len() {
                assert(q[i] == path[i]);
            } else {
                assert(q[j] == path[j]);
            }
        }
    }
}

/// The speed of a walker on a cell of potential `p` (see `speed_of`).
pub fn speed_for(p: u64, max: u64) -> (r: u64)
    requires
        max <= MAX_POTENTIAL,
        p <= max,
    ensures
        r == speed_of(p, max),
        r <= SPEED_ONE,
{
    if max == 0 {
        SPEED_ONE
    } else {
        let d: u128 = (max - p) as u128;
        let m: u128 = max as u128;
        assert(d * d <= m * m) by (nonlinear_arith)
            requires
                d <= m,
        ;
        assert(m * m <= 0x4_0000_0000 * 0x2_0000_0000) by (nonlinear_arith)
            requires
                m <= 0x2_0000_0000,
        ;
        let num: u128 = d * d * 1000;
        let den: u128 = m * m;
        assert(den > 0) by (nonlinear_arith)
            requires
                m > 0,
                den == m * m,
        ;
        assert(num / den <= 1000) by (nonlinear_arith)
            requires
                num == d * d * 1000,
                d * d <= den,
                den > 0,
        ;
        (num / den) as u64
    }
}

/// Whether `path` holds `at`.
pub fn path_contains(path: &Vec<(usize, usize)>, at: (usize, usize)) -> (r: bool)
    ensures
        r == path@.contains(at),
{
    let mut i: usize = 0;
    while i < path.len()
        invariant
            i <= path@.len(),
            forall|j: int| 0 <= j < i ==> path@[j] != at,
        decreases path@.len() - i,
    {
        let p = path[i];
        if p.0 == at.0 && p.1 == at.1 {
            return true;
        }
        i = i + 1;
    }
    false
}

/// A copy of a path.
pub fn copy_path(path: &Vec<(usize, usize)>) -> (r: Vec<(usize, usize)>)
    ensures
        r@ == path@,
{
    let mut r: Vec<(usize, usize)> = Vec::new();
    let mut i: usize = 0;
    while i < path.len()
        invariant
            i <= path@.len(),
            r@ == path@.subrange(0, i as int),
        decreases path@.len() - i,
    {
        r.push(path[i]);
        i = i + 1;
    }
    assert(r@ =~= path@);
    r
}

impl Walker {
    /// A walker standing on `square`, which has walked `path`.
    pub fn new(square: Square, path: Vec<(usize, usize)>) -> (w: Walker)
        ensures
            w@ == fresh(square, path@),
    {
        Walker {
            position: square.index,
            square,
            path,
            counter: 0,
            done: Done::NotFinished(false),
            speed: INITIAL_SPEED,
        }
    }

    /// Moves the walker onto `next_square`: its timer restarts and its speed
    /// follows the potential of the new cell.
    pub fn step(&mut self, next_square: Square, max_potential: u64)
        requires
            max_potential <= MAX_POTENTIAL,
            next_square.potential <= max_potential,
        ensures
            final(self)@ == moved(old(self)@, next_square, max_potential),
    {
        self.square = next_square;
        self.position = next_square.index;
        self.counter = 0;
        if !path_contains(&self.path, next_square.index) {
            self.path.push(next_square.index);
        }
        self.speed = speed_for(next_square.potential, max_potential);
    }
}

} // verus!
