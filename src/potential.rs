use vstd::prelude::*;

use crate::squares::MAX_SIDE;

verus! {

/// Distances and potentials are kept in fixed point: one lattice step is `SCALE` units.
pub const SCALE: u64 = 1000;

/// `r` is the square root of `n`, rounded down.
pub open spec fn is_floor_sqrt(r: int, n: int) -> bool {
    0 <= r && r * r <= n && n < (r + 1) * (r + 1)
}

/// The square root of `n`, rounded down.
pub open spec fn floor_sqrt(n: nat) -> nat {
    choose|r: nat| is_floor_sqrt(r as int, n as int)
}

/// A number has one rounded-down square root.
pub proof fn lemma_floor_sqrt_unique(a: int, b: int, n: int)
    requires
        is_floor_sqrt(a, n),
        is_floor_sqrt(b, n),
    ensures
        a == b,
{
    if a < b {
        assert((a + 1) * (a + 1) <= b * b) by (nonlinear_arith)
            requires
                0 <= a,
                a + 1 <= b,
        ;
    } else if b < a {
        assert((b + 1) * (b + 1) <= a * a) by (nonlinear_arith)
            requires
                0 <= b,
                b + 1 <= a,
        ;
    }
}

/// Any witness of `is_floor_sqrt` is `floor_sqrt`.
pub proof fn lemma_floor_sqrt_is(r: int, n: int)
    requires
        is_floor_sqrt(r, n),
    ensures
        floor_sqrt(n as nat) == r,
{
    let w = r as nat;
    assert(is_floor_sqrt(w as int, n));
    let c = floor_sqrt(n as nat);
    assert(is_floor_sqrt(c as int, n));
    lemma_floor_sqrt_unique(c as int, r, n);
}

/// The square root of zero is zero.
pub proof fn lemma_floor_sqrt_zero()
    ensures
        floor_sqrt(0) == 0,
{
    lemma_floor_sqrt_is(0, 0);
}

/// Square root of `n`, rounded down.
pub fn isqrt(n: u64) -> (r: u64)
    ensures
        r == floor_sqrt(n as nat),
        r < 0x1_0000_0000,
{
    let mut lo: u64 = 0;
    let mut hi: u64 = 0x1_0000_0000;
    assert((hi as int) * (hi as int) == 0x1_0000_0000_0000_0000);
    while hi - lo > 1
        invariant
            lo < hi <= 0x1_0000_0000,
            (lo as int) * (lo as int) <= n,
            n < (hi as int) * (hi as int),
        decreases hi - lo,
    {
        let mid: u64 = lo + (hi - lo) / 2;
        assert((mid as int) * (mid as int) < 0x1_0000_0000_0000_0000) by (nonlinear_arith)
            requires
                mid < 0x1_0000_0000,
        ;
        let sq: u128 = (mid as u128) * (mid as u128);
        if sq <= n as u128 {
            lo = mid;
        } else {
            hi = mid;
        }
    }
    proof {
        lemma_floor_sqrt_is(lo as int, n as int);
    }
    lo
}

/// Squared Euclidean distance between two lattice indices.
pub open spec fn sq_dist(a: (usize, usize), b: (usize, usize)) -> nat {
    let dr = a.0 as int - b.0 as int;
    let dc = a.1 as int - b.1 as int;
    (dr * dr + dc * dc) as nat
}

/// Euclidean distance between two lattice indices, in units of `1 / SCALE`, rounded down.
pub open spec fn scaled_distance(a: (usize, usize), b: (usize, usize)) -> nat {
    floor_sqrt((SCALE * SCALE) as nat * sq_dist(a, b))
}

/// The guidance value of a cell: its distance to the goal plus its distance to the start.
pub open spec fn potential_of(start: (usize, usize), goal: (usize, usize), at: (usize, usize)) -> nat {
    scaled_distance(goal, at) + scaled_distance(start, at)
}

/// Both coordinates are below `MAX_SIDE`.
pub open spec fn index_fits(a: (usize, usize)) -> bool {
    a.0 < MAX_SIDE && a.1 < MAX_SIDE
}

/// The distance between two coordinates.
fn abs_diff(x: usize, y: usize) -> (r: u64)
    requires
        x < MAX_SIDE,
        y < MAX_SIDE,
    ensures
        r == if x >= y { x - y } else { y - x },
        r < MAX_SIDE,
{
    if x >= y {
        (x - y) as u64
    } else {
        (y - x) as u64
    }
}

/// Euclidean distance between two lattice indices, in units of `1 / SCALE`.
pub fn distance(a: (usize, usize), b: (usize, usize)) -> (r: u64)
    requires
        index_fits(a),
        index_fits(b),
    ensures
        r == scaled_distance(a, b),
        r < 0x1_0000_0000,
{
    let dr = abs_diff(a.0, b.0);
    let dc = abs_diff(a.1, b.1);
    assert(dr * dr < 0x100_0000_0000) by (nonlinear_arith)
        requires
            dr < 0x10_0000,
    ;
    assert(dc * dc < 0x100_0000_0000) by (nonlinear_arith)
        requires
            dc < 0x10_0000,
    ;
    let sum: u64 = dr * dr + dc * dc;
    assert(sum * 1_000_000 < 0x1_0000_0000_0000_0000) by (nonlinear_arith)
        requires
            sum < 0x200_0000_0000,
    ;
    let scaled: u64 = sum * 1_000_000;
    assert(SCALE * SCALE == 1_000_000);
    proof {
        let ddr = a.0 as int - b.0 as int;
        let ddc = a.1 as int - b.1 as int;
        assert(ddr * ddr == dr * dr) by (nonlinear_arith)
            requires
                ddr == dr || ddr == -dr,
        ;
        assert(ddc * ddc == dc * dc) by (nonlinear_arith)
            requires
                ddc == dc || ddc == -dc,
        ;
        assert(sq_dist(a, b) == sum as nat);
        assert(scaled as int == sum as int * 1_000_000);
        assert((SCALE * SCALE) as nat == 1_000_000);
    }
    isqrt(scaled)
}

/// The square root of a value below 2^64 is below 2^32.
pub proof fn lemma_floor_sqrt_small(n: nat)
    requires
        n < 0x1_0000_0000_0000_0000,
    ensures
        floor_sqrt(n) < 0x1_0000_0000,
{
    lemma_floor_sqrt_exists(n);
    let r = floor_sqrt(n);
    if r >= 0x1_0000_0000 {
        assert(r * r >= 0x1_0000_0000_0000_0000) by (nonlinear_arith)
            requires
                r >= 0x1_0000_0000,
        ;
    }
}

/// Every number has a rounded-down square root.
pub proof fn lemma_floor_sqrt_exists(n: nat)
    ensures
        exists|q: nat| #[trigger] is_floor_sqrt(q as int, n as int),
    decreases n,
{
    if n == 0 {
        assert(is_floor_sqrt(0, 0));
    } else {
        lemma_floor_sqrt_exists((n - 1) as nat);
        let q = choose|q: nat| #[trigger] is_floor_sqrt(q as int, (n - 1) as int);
        if n < (q + 1) * (q + 1) {
            assert(is_floor_sqrt(q as int, n as int));
        } else {
            assert((q + 1) * (q + 1) == n);
            assert(n < (q + 2) * (q + 2)) by (nonlinear_arith)
                requires
                    (q + 1) * (q + 1) == n,
                    q >= 0,
            ;
            assert(is_floor_sqrt(q + 1 as int, n as int));
        }
    }
}

/// Going through a third cell is never shorter, less the one unit each
/// rounded-down distance can lose.
pub proof fn lemma_triangle(p: (usize, usize), q: (usize, usize), r: (usize, usize))
    ensures
        scaled_distance(p, r) <= scaled_distance(p, q) + scaled_distance(q, r) + 1,
{
    let ux = p.0 as int - q.0 as int;
    let uy = p.1 as int - q.1 as int;
    let vx = q.0 as int - r.0 as int;
    let vy = q.1 as int - r.1 as int;
    let m: int = 1_000_000;
    let su = ux * ux + uy * uy;
    let sv = vx * vx + vy * vy;
    let sw = (ux + vx) * (ux + vx) + (uy + vy) * (uy + vy);
    let dot = ux * vx + uy * vy;
    assert(su >= 0 && sv >= 0 && sw >= 0) by (nonlinear_arith)
        requires
            su == ux * ux + uy * uy,
            sv == vx * vx + vy * vy,
            sw == (ux + vx) * (ux + vx) + (uy + vy) * (uy + vy),
    ;
    assert(sq_dist(p, q) == su);
    assert(sq_dist(q, r) == sv);
    assert(sq_dist(p, r) == sw);
    assert(SCALE * SCALE == m);
    let x: int = m * su;
    let y: int = m * sv;
    let w: int = m * sw;
    assert(x >= 0 && y >= 0) by (nonlinear_arith)
        requires
            x == m * su,
            y == m * sv,
            su >= 0,
            sv >= 0,
            m > 0,
    ;
    lemma_floor_sqrt_exists(x as nat);
    lemma_floor_sqrt_exists(y as nat);
    lemma_floor_sqrt_exists((m * sw) as nat);
    let a = floor_sqrt(x as nat) as int;
    let b = floor_sqrt(y as nat) as int;
    let c = floor_sqrt(w as nat) as int;
    assert(is_floor_sqrt(a, x));
    assert(is_floor_sqrt(b, y));
    assert(is_floor_sqrt(c, w));
    assert(sw == su + sv + 2 * dot) by (nonlinear_arith)
        requires
            su == ux * ux + uy * uy,
            sv == vx * vx + vy * vy,
            sw == (ux + vx) * (ux + vx) + (uy + vy) * (uy + vy),
            dot == ux * vx + uy * vy,
    ;
    let a1 = ux * vx;
    let a2 = uy * vy;
    let b1 = ux * vy;
    let b2 = uy * vx;
    let p1 = ux * ux;
    let p2 = uy * uy;
    let q1 = vx * vx;
    let q2 = vy * vy;
    assert(su * sv == p1 * q1 + p1 * q2 + p2 * q1 + p2 * q2) by (nonlinear_arith)
        requires
            su == p1 + p2,
            sv == q1 + q2,
    ;
    assert(p1 * q1 == a1 * a1) by (nonlinear_arith)
        requires
            p1 == ux * ux,
            q1 == vx * vx,
            a1 == ux * vx,
    ;
    assert(p1 * q2 == b1 * b1) by (nonlinear_arith)
        requires
            p1 == ux * ux,
            q2 == vy * vy,
            b1 == ux * vy,
    ;
    assert(p2 * q1 == b2 * b2) by (nonlinear_arith)
        requires
            p2 == uy * uy,
            q1 == vx * vx,
            b2 == uy * vx,
    ;
    assert(p2 * q2 == a2 * a2) by (nonlinear_arith)
        requires
            p2 == uy * uy,
            q2 == vy * vy,
            a2 == uy * vy,
    ;
    assert(a1 * a2 == b1 * b2) by (nonlinear_arith)
        requires
            a1 == ux * vx,
            a2 == uy * vy,
            b1 == ux * vy,
            b2 == uy * vx,
    ;
    assert(su * sv >= dot * dot) by (nonlinear_arith)
        requires
            su * sv == a1 * a1 + b1 * b1 + b2 * b2 + a2 * a2,
            a1 * a2 == b1 * b2,
            dot == a1 + a2,
    ;
    let pa = a + 1;
    let pb = b + 1;
    assert(pa * pa * (pb * pb) > x * y) by (nonlinear_arith)
        requires
            pa * pa > x,
            pb * pb > y,
            x >= 0,
            y >= 0,
    ;
    assert(x * y >= (m * dot) * (m * dot)) by (nonlinear_arith)
        requires
            x == m * su,
            y == m * sv,
            su * sv >= dot * dot,
            m > 0,
    ;
    assert(pa * pb > m * dot) by (nonlinear_arith)
        requires
            pa * pa * (pb * pb) > (m * dot) * (m * dot),
            pa > 0,
            pb > 0,
    {
        if pa * pb <= m * dot {
            assert((pa * pb) * (pa * pb) <= (m * dot) * (m * dot)) by (nonlinear_arith)
                requires
                    0 < pa * pb <= m * dot,
            ;
            assert(pa * pa * (pb * pb) == (pa * pb) * (pa * pb)) by (nonlinear_arith);
        }
    }
    assert(w == x + y + 2 * (m * dot)) by (nonlinear_arith)
        requires
            w == m * sw,
            x == m * su,
            y == m * sv,
            sw == su + sv + 2 * dot,
    ;
    assert(w < (a + b + 2) * (a + b + 2)) by (nonlinear_arith)
        requires
            w == x + y + 2 * (m * dot),
            pa * pa > x,
            pb * pb > y,
            pa * pb > m * dot,
            pa == a + 1,
            pb == b + 1,
    ;
    assert(c < a + b + 2) by (nonlinear_arith)
        requires
            c * c <= w,
            w < (a + b + 2) * (a + b + 2),
            c >= 0,
            a + b + 2 > 0,
    ;
}

/// Distances between indices that fit stay below 2^32.
pub proof fn lemma_scaled_distance_small(a: (usize, usize), b: (usize, usize))
    requires
        index_fits(a),
        index_fits(b),
    ensures
        scaled_distance(a, b) < 0x1_0000_0000,
{
    let d = a.0 as int - b.0 as int;
    let e = a.1 as int - b.1 as int;
    assert(0 <= d * d < 0x100_0000_0000 && 0 <= e * e < 0x100_0000_0000) by (nonlinear_arith)
        requires
            -0x10_0000 < d < 0x10_0000,
            -0x10_0000 < e < 0x10_0000,
    ;
    assert(sq_dist(a, b) == d * d + e * e);
    assert(sq_dist(a, b) < 0x200_0000_0000);
    assert((SCALE * SCALE) as nat == 1_000_000);
    assert((SCALE * SCALE) as nat * sq_dist(a, b) < 0x1_0000_0000_0000_0000);
    lemma_floor_sqrt_small((SCALE * SCALE) as nat * sq_dist(a, b));
}

/// Distance does not depend on the direction it is measured in.
pub proof fn lemma_distance_symmetric(a: (usize, usize), b: (usize, usize))
    ensures
        scaled_distance(a, b) == scaled_distance(b, a),
{
    let d = a.0 as int - b.0 as int;
    let e = a.1 as int - b.1 as int;
    assert(d * d == (-d) * (-d) && e * e == (-e) * (-e)) by (nonlinear_arith);
    assert(sq_dist(a, b) == sq_dist(b, a));
}

} // verus!
