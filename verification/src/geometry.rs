//! Integer geometry: squared distances, rounded-up square roots, the
//! movement step and the clamp into the world.

use vstd::prelude::*;
use crate::units::{BASE_STEP, LIMIT, SIZE_SCALE};

verus! {

/// A point of the plane, in fixed-point steps.
#[derive(Clone, Copy, Debug, PartialEq, Eq, Structural)]
pub struct Point {
    pub x: i64,
    pub y: i64,
}


/// Squared distance between two points.
pub open spec fn dist_sq(ax: int, ay: int, bx: int, by: int) -> int {
    (ax - bx) * (ax - bx) + (ay - by) * (ay - by)
}

/// The squared distance does not depend on which point comes first.
pub proof fn lemma_dist_sq_symmetric(ax: int, ay: int, bx: int, by: int)
    ensures
        dist_sq(ax, ay, bx, by) == dist_sq(bx, by, ax, ay),
        dist_sq(ax, ay, bx, by) >= 0,
{
    assert((ax - bx) * (ax - bx) == (bx - ax) * (bx - ax)) by (nonlinear_arith);
    assert((ay - by) * (ay - by) == (by - ay) * (by - ay)) by (nonlinear_arith);
    assert((ax - bx) * (ax - bx) >= 0) by (nonlinear_arith);
    assert((ay - by) * (ay - by) >= 0) by (nonlinear_arith);
}

/// `r` is the least natural number whose square reaches `n`.
pub open spec fn is_ceil_root(n: nat, r: nat) -> bool {
    r * r >= n && (r == 0 || (r - 1) * (r - 1) < n)
}

/// The square root of `n`, rounded up.
pub open spec fn ceil_root(n: nat) -> nat {
    choose|r: nat| is_ceil_root(n, r)
}

/// At most one number is the rounded-up root of `n`.
pub proof fn lemma_ceil_root_unique(n: nat, a: nat, b: nat)
    requires
        is_ceil_root(n, a),
        is_ceil_root(n, b),
    ensures
        a == b,
{
    if a < b {
        assert(a * a <= (b - 1) * (b - 1)) by (nonlinear_arith)
            requires
                0 <= a <= b - 1,
        ;
    }
    if b < a {
        assert(b * b <= (a - 1) * (a - 1)) by (nonlinear_arith)
            requires
                0 <= b <= a - 1,
        ;
    }
}

/// Squaring keeps the order of natural numbers.
pub proof fn lemma_square_monotone(a: int, b: int)
    requires
        0 <= a <= b,
    ensures
        a * a <= b * b,
{
    assert(a * a <= b * b) by (nonlinear_arith)
        requires
            0 <= a <= b,
    ;
}

/// The square root of `n`, rounded up.
pub fn ceil_sqrt(n: u128) -> (r: u128)
    ensures
        is_ceil_root(n as nat, r as nat),
        r == ceil_root(n as nat),
        r <= 0x1_0000_0000_0000_0000,
{
    let top: u128 = 0xFFFF_FFFF_FFFF_FFFF;
    proof {
        assert(top * top == 0xFFFF_FFFF_FFFF_FFFE_0000_0000_0000_0001) by (nonlinear_arith)
            requires
                top == 0xFFFF_FFFF_FFFF_FFFF,
        ;
    }
    let r: u128 = if n == 0 {
        0
    } else if n > top * top {
        proof {
            assert((top + 1) * (top + 1) == 0x1_0000_0000_0000_0000_0000_0000_0000_0000) by (nonlinear_arith)
                requires
                    top == 0xFFFF_FFFF_FFFF_FFFF,
            ;
        }
        top + 1
    } else {
        let mut lo: u128 = 0;
        let mut hi: u128 = top;
        while hi - lo > 1
            invariant
                lo < hi <= top,
                top == 0xFFFF_FFFF_FFFF_FFFF,
                lo * lo < n,
                n <= hi * hi,
            decreases hi - lo,
        {
            let mid: u128 = lo + (hi - lo) / 2;
            proof {
                lemma_square_monotone(mid as int, top as int);
                assert(top * top == 0xFFFF_FFFF_FFFF_FFFE_0000_0000_0000_0001) by (nonlinear_arith)
                    requires
                        top == 0xFFFF_FFFF_FFFF_FFFF,
                ;
            }
            if mid * mid >= n {
                hi = mid;
            } else {
                lo = mid;
            }
        }
        hi
    };
    proof {
        assert(is_ceil_root(n as nat, r as nat));
        lemma_ceil_root_unique(n as nat, r as nat, ceil_root(n as nat));
    }
    r
}

/// Every natural number has a rounded-up root.
pub proof fn lemma_ceil_root_exists(n: nat)
    ensures
        is_ceil_root(n, ceil_root(n)),
{
    assert(n * n >= n) by (nonlinear_arith);
    lemma_ceil_root_below(n, n);
}

proof fn lemma_ceil_root_below(n: nat, r: nat)
    requires
        r * r >= n,
    ensures
        exists|q: nat| is_ceil_root(n, q),
    decreases r,
{
    if r == 0 || (r - 1) * (r - 1) < n {
        assert(is_ceil_root(n, r));
    } else {
        lemma_ceil_root_below(n, (r - 1) as nat);
    }
}

/// Of two natural numbers, the one with the smaller square is the smaller.
pub proof fn lemma_root_monotone(a: int, b: int)
    requires
        0 <= a,
        0 <= b,
        a * a <= b * b,
    ensures
        a <= b,
{
    if a > b {
        assert(a * a > b * b) by (nonlinear_arith)
            requires
                0 <= b < a,
        ;
    }
}

/// The farthest a player of the given size moves in one tick:
/// `BASE_STEP / (1 + size / SIZE_SCALE)`, rounded down.
pub open spec fn step_limit(size: int) -> int {
    (BASE_STEP * SIZE_SCALE) / (SIZE_SCALE + size)
}

/// `from` moved by `|delta| * limit / span` (rounded toward `from`) in the
/// direction of `delta`.
pub open spec fn toward(from: int, delta: int, limit: int, span: int) -> int {
    if delta >= 0 {
        from + (delta * limit) / span
    } else {
        from - ((-delta) * limit) / span
    }
}

/// Where a player of the given size standing at `(x, y)` is after one tick
/// of movement toward `(tx, ty)`: on the target when it is within the step
/// limit, else the step limit along the straight line to it.
pub open spec fn advanced(x: int, y: int, size: int, tx: int, ty: int) -> (int, int) {
    let limit = step_limit(size);
    let gap = dist_sq(tx, ty, x, y);
    if gap <= limit * limit {
        (tx, ty)
    } else {
        let span = ceil_root(gap as nat) as int;
        (toward(x, tx - x, limit, span), toward(y, ty - y, limit, span))
    }
}

/// `v` brought into `[size, extent - size]`: raised to `size` first, then
/// lowered to `extent - size`.
pub open spec fn confined(v: int, size: int, extent: int) -> int {
    let raised = if v < size { size } else { v };
    if raised > extent - size { extent - size } else { raised }
}

/// The step limit lies in `[0, BASE_STEP)` and never grows with size.
pub proof fn lemma_step_limit_decreasing(small: int, large: int)
    requires
        0 < small <= large,
    ensures
        0 <= step_limit(large) <= step_limit(small) < BASE_STEP,
{
    let n = (BASE_STEP * SIZE_SCALE) as int;
    let a = SIZE_SCALE + small;
    let b = SIZE_SCALE + large;
    assert(0 <= n / b <= n / a && n / a < 5000) by (nonlinear_arith)
        requires
            n == 500_000_000,
            100_000 < a <= b,
    ;
}

/// One tick of movement covers at most the step limit, and stays between
/// the old position and the target on each axis.
pub proof fn lemma_advanced_bounded(x: int, y: int, size: int, tx: int, ty: int)
    requires
        0 < size,
    ensures
        ({
            let (nx, ny) = advanced(x, y, size, tx, ty);
            &&& dist_sq(nx, ny, x, y) <= step_limit(size) * step_limit(size)
            &&& (x <= nx <= tx || tx <= nx <= x)
            &&& (y <= ny <= ty || ty <= ny <= y)
        }),
{
    let limit = step_limit(size);
    lemma_step_limit_decreasing(size, size);
    let gap = dist_sq(tx, ty, x, y);
    assert(gap >= 0) by (nonlinear_arith)
        requires
            gap == (tx - x) * (tx - x) + (ty - y) * (ty - y),
    ;
    if gap <= limit * limit {
        assert(dist_sq(tx, ty, x, y) == dist_sq(tx, ty, x, y));
    } else {
        lemma_ceil_root_exists(gap as nat);
        let span = ceil_root(gap as nat) as int;
        let dx = if tx >= x { tx - x } else { x - tx };
        let dy = if ty >= y { ty - y } else { y - ty };
        let a = (dx * limit) / span;
        let b = (dy * limit) / span;
        let (nx, ny) = advanced(x, y, size, tx, ty);
        assert(span > 0) by (nonlinear_arith)
            requires
                span * span >= gap,
                gap > limit * limit,
                span >= 0,
        ;
        assert(gap == dx * dx + dy * dy) by (nonlinear_arith)
            requires
                gap == (tx - x) * (tx - x) + (ty - y) * (ty - y),
                dx == tx - x || dx == x - tx,
                dy == ty - y || dy == y - ty,
        ;
        assert(nx - x == a || nx - x == -a);
        assert(ny - y == b || ny - y == -b);
        assert(limit * limit <= span * span);
        lemma_root_monotone(limit, span);
        lemma_scaled_share(dx, dy, limit, span);
        assert(dist_sq(nx, ny, x, y) == a * a + b * b) by (nonlinear_arith)
            requires
                nx - x == a || nx - x == -a,
                ny - y == b || ny - y == -b,
                dist_sq(nx, ny, x, y) == (nx - x) * (nx - x) + (ny - y) * (ny - y),
        ;
    }
}

/// Scaling both legs of a right triangle by `limit / span`, where `span` is
/// at least the hypotenuse and at least `limit`, gives legs no longer than
/// before and a hypotenuse of at most `limit`.
pub proof fn lemma_scaled_share(dx: int, dy: int, limit: int, span: int)
    requires
        0 <= dx,
        0 <= dy,
        0 <= limit <= span,
        0 < span,
        dx * dx + dy * dy <= span * span,
    ensures
        ({
            let a = (dx * limit) / span;
            let b = (dy * limit) / span;
            &&& 0 <= a <= dx
            &&& 0 <= b <= dy
            &&& a <= limit
            &&& b <= limit
            &&& a * a + b * b <= limit * limit
        }),
{
    let a = (dx * limit) / span;
    let b = (dy * limit) / span;
    assert(dx * dx <= span * span && dy * dy <= span * span) by (nonlinear_arith)
        requires
            dx * dx + dy * dy <= span * span,
    ;
    lemma_root_monotone(dx, span);
    lemma_root_monotone(dy, span);
    lemma_share(dx, limit, span);
    lemma_share(dy, limit, span);
    // (a^2 + b^2) * span^2 <= (dx^2 + dy^2) * limit^2 <= span^2 * limit^2
    assert((a * a) * (span * span) <= (dx * dx) * (limit * limit)) by (nonlinear_arith)
        requires
            0 <= a,
            0 < span,
            a * span <= dx * limit,
    ;
    assert((b * b) * (span * span) <= (dy * dy) * (limit * limit)) by (nonlinear_arith)
        requires
            0 <= b,
            0 < span,
            b * span <= dy * limit,
    ;
    assert(a * a + b * b <= limit * limit) by (nonlinear_arith)
        requires
            (a * a) * (span * span) <= (dx * dx) * (limit * limit),
            (b * b) * (span * span) <= (dy * dy) * (limit * limit),
            dx * dx + dy * dy <= span * span,
            0 < span,
            0 <= limit,
    ;
}

/// `d * limit / span` for `0 <= d <= span`: a share of `limit` and of `d`.
proof fn lemma_share(d: int, limit: int, span: int)
    requires
        0 <= d <= span,
        0 <= limit <= span,
        0 < span,
    ensures
        0 <= (d * limit) / span <= d,
        (d * limit) / span <= limit,
        ((d * limit) / span) * span <= d * limit,
{
    let q = (d * limit) / span;
    assert(0 <= q && q * span <= d * limit && d * limit < (q + 1) * span) by (nonlinear_arith)
        requires
            q == (d * limit) / span,
            0 <= d,
            0 <= limit,
            0 < span,
    ;
    assert(q <= limit) by (nonlinear_arith)
        requires
            q * span <= d * limit,
            0 <= d <= span,
            0 <= limit,
            0 < span,
            0 <= q,
    ;
    assert(q <= d) by (nonlinear_arith)
        requires
            q * span <= d * limit,
            0 <= d,
            0 <= limit <= span,
            0 < span,
            0 <= q,
    ;
}

/// A value clamped for a size of at most half the extent keeps the whole
/// disc of that size inside `[0, extent]`.
pub proof fn lemma_confined_inside(v: int, size: int, extent: int)
    requires
        2 * size <= extent,
    ensures
        size <= confined(v, size, extent) <= extent - size,
{
}

/// A value whose disc is inside `[0, extent]` already is kept as it is.
pub proof fn lemma_confined_keeps(v: int, size: int, extent: int)
    requires
        size <= v <= extent - size,
    ensures
        confined(v, size, extent) == v,
{
}

/// Magnitude of `a - b`.
pub fn span_between(a: i64, b: i64) -> (d: u64)
    ensures
        d == if a >= b { a - b } else { b - a },
{
    if a >= b {
        (a as i128 - b as i128) as u64
    } else {
        (b as i128 - a as i128) as u64
    }
}

/// The farthest a player of the given size moves in one tick.
pub fn max_step(size: i64) -> (m: i64)
    requires
        0 < size <= LIMIT,
    ensures
        m == step_limit(size as int),
        0 <= m < BASE_STEP,
{
    proof {
        lemma_step_limit_decreasing(size as int, size as int);
    }
    (BASE_STEP * SIZE_SCALE) / (SIZE_SCALE + size)
}

/// Squared distance between `(ax, ay)` and `(bx, by)`, the second of which
/// lies within the coordinate limit.
pub fn distance_squared(ax: i64, ay: i64, bx: i64, by: i64) -> (d: u128)
    requires
        -LIMIT <= bx <= LIMIT,
        -LIMIT <= by <= LIMIT,
    ensures
        d == dist_sq(ax as int, ay as int, bx as int, by as int),
{
    let dx: u128 = span_between(ax, bx) as u128;
    let dy: u128 = span_between(ay, by) as u128;
    proof {
        let top: int = 0x8000_0000_0000_0000int + 1_000_000_000int;
        lemma_square_monotone(dx as int, top);
        lemma_square_monotone(dy as int, top);
        assert(top * top + top * top < 0x1_0000_0000_0000_0000_0000_0000_0000_0000) by (nonlinear_arith)
            requires
                top == 0x8000_0000_0000_0000 + 1_000_000_000,
        ;
        assert(dx * dx == (ax - bx) * (ax - bx)) by (nonlinear_arith)
            requires
                dx == ax - bx || dx == bx - ax,
        ;
        assert(dy * dy == (ay - by) * (ay - by)) by (nonlinear_arith)
            requires
                dy == ay - by || dy == by - ay,
        ;
    }
    dx * dx + dy * dy
}

/// One tick of movement from `(x, y)` toward `(tx, ty)`.
pub fn advance(x: i64, y: i64, size: i64, tx: i64, ty: i64) -> (p: Point)
    requires
        -LIMIT <= x <= LIMIT,
        -LIMIT <= y <= LIMIT,
        0 < size <= LIMIT,
    ensures
        (p.x as int, p.y as int) == advanced(x as int, y as int, size as int, tx as int, ty as int),
{
    let limit: u128 = max_step(size) as u128;
    let gap: u128 = distance_squared(tx, ty, x, y);
    proof {
        assert(limit * limit <= 5000 * 5000) by (nonlinear_arith)
            requires
                0 <= limit <= 5000,
        ;
    }
    if gap <= limit * limit {
        Point { x: tx, y: ty }
    } else {
        let span: u128 = ceil_sqrt(gap);
        let dx: u128 = span_between(tx, x) as u128;
        let dy: u128 = span_between(ty, y) as u128;
        proof {
            assert(gap == dx * dx + dy * dy) by (nonlinear_arith)
                requires
                    gap == (tx - x) * (tx - x) + (ty - y) * (ty - y),
                    dx == tx - x || dx == x - tx,
                    dy == ty - y || dy == y - ty,
            ;
            assert(span > 0) by (nonlinear_arith)
                requires
                    span * span >= gap,
                    gap > limit * limit,
                    span >= 0,
            ;
            assert(limit * limit <= span * span);
            lemma_root_monotone(limit as int, span as int);
            lemma_scaled_share(dx as int, dy as int, limit as int, span as int);
            assert(dx * limit <= 0x1_0000_0000_0000_0000 * 5000) by (nonlinear_arith)
                requires
                    0 <= dx <= 0x1_0000_0000_0000_0000,
                    0 <= limit <= 5000,
            ;
            assert(dy * limit <= 0x1_0000_0000_0000_0000 * 5000) by (nonlinear_arith)
                requires
                    0 <= dy <= 0x1_0000_0000_0000_0000,
                    0 <= limit <= 5000,
            ;
        }
        let sx: i64 = (dx * limit / span) as i64;
        let sy: i64 = (dy * limit / span) as i64;
        let nx: i64 = if tx >= x { x + sx } else { x - sx };
        let ny: i64 = if ty >= y { y + sy } else { y - sy };
        Point { x: nx, y: ny }
    }
}

/// `v` brought into `[size, extent - size]`.
pub fn confine(v: i64, size: i64, extent: i64) -> (r: i64)
    requires
        0 < size <= LIMIT,
        0 <= extent <= LIMIT,
    ensures
        r == confined(v as int, size as int, extent as int),
{
    let raised: i64 = if v < size { size } else { v };
    if raised > extent - size { extent - size } else { raised }
}

} // verus!
