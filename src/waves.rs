use rand::Rng;
use vstd::prelude::*;
use vstd::arithmetic::div_mod::lemma_fundamental_div_mod;
use crate::entities::{Enemy, BODY_SIZE};
use crate::geometry::{dist2, isqrt, norm2, root, scaled, Rect, Vec2};

verus! {

/// Nearest an enemy spawns to the spawn origin, in milli-units.
pub const RING_MIN: i64 = 300_000;

/// Bound (exclusive) on how far an enemy spawns from the spawn origin.
pub const RING_MAX: i64 = 800_000;

/// Directions are drawn as integer vectors in `[-DIR_SPAN, DIR_SPAN]` on each
/// axis, kept when their length lies in `[DIR_SPAN / 2, DIR_SPAN]`; that ring is
/// symmetric under rotation, so the kept directions are uniform in angle.
pub const DIR_SPAN: i64 = 1000;

/// Bounds on the squared length of an accepted direction.
pub const DIR_MIN_LEN2: i64 = 250_000;
pub const DIR_MAX_LEN2: i64 = 1_000_000;

/// Draws of a direction before falling back to the positive x-axis. A draw is
/// accepted with probability about 0.59, so the fallback is reached with
/// probability below 10^-24.
pub const DIR_ATTEMPTS: usize = 64;

/// `p` lies in the spawn ring around `origin`.
pub open spec fn in_ring(origin: Vec2, p: Vec2) -> bool {
    RING_MIN * RING_MIN <= dist2(p, origin) < RING_MAX * RING_MAX
}

/// The spawn ring around `origin` lies within the coordinate range.
pub open spec fn ring_fits(origin: Vec2) -> bool {
    i32::MIN + RING_MAX <= origin.x <= i32::MAX - RING_MAX
        && i32::MIN + RING_MAX <= origin.y <= i32::MAX - RING_MAX
}

/// A drawn direction that is accepted.
pub open spec fn valid_dir(ux: int, uy: int) -> bool {
    -DIR_SPAN <= ux <= DIR_SPAN && -DIR_SPAN <= uy <= DIR_SPAN
        && DIR_MIN_LEN2 <= norm2(ux, uy) <= DIR_MAX_LEN2
}

/// Distance from the origin below which a draw that rounding pushes out of
/// the ring is lengthened, and at or above which it is shortened.
pub const RING_MID: i64 = 550_000;

/// Magnitude of an integer.
pub open spec fn mag(x: int) -> int {
    if x >= 0 { x } else { -x }
}

/// `a / m` rounded away from zero.
pub open spec fn away_div(a: int, m: int) -> int {
    if a >= 0 {
        (a + m - 1) / m
    } else {
        -((-a + m - 1) / m)
    }
}

/// `u * d / n`, rounded away from zero.
pub open spec fn scaled_away(u: int, d: int, n: int) -> int {
    away_div(u * d, n)
}

/// The offset at distance `d` along `(ux, uy)`, where `n` is the integer square
/// root of the direction's squared length, each coordinate rounded toward
/// zero. When that rounding puts it outside the spawn ring, it is rescaled along
/// the same direction: a far draw is divided by `n + 1` instead, which
/// shortens it, and a near draw is rounded away from zero, which lengthens it.
pub open spec fn ring_offset_of(ux: int, uy: int, d: int, n: int) -> (int, int) {
    let ox = scaled(ux, d, n);
    let oy = scaled(uy, d, n);
    if RING_MIN * RING_MIN <= norm2(ox, oy) < RING_MAX * RING_MAX {
        (ox, oy)
    } else if d >= RING_MID {
        (scaled(ux, d, n + 1), scaled(uy, d, n + 1))
    } else {
        (scaled_away(ux, d, n), scaled_away(uy, d, n))
    }
}

/// `o` is `a / m` rounded toward zero, stated as bounds on `m * o`.
spec fn rounds_toward(o: int, a: int, m: int) -> bool {
    &&& -m < m * o - a < m
    &&& (m * o) * (m * o) <= a * a
    &&& (m * o) * (m * o) >= a * a - 2 * m * mag(a)
}

/// `o` is `a / m` rounded away from zero, stated as bounds on `m * o`.
spec fn rounds_away(o: int, a: int, m: int) -> bool {
    &&& -m < m * o - a < m
    &&& (m * o) * (m * o) >= a * a
    &&& (m * o) * (m * o) <= a * a + 2 * m * mag(a) + m * m
}

/// Relies on rand's `thread_rng` and `Rng::gen_range`, which for a non-empty
/// half-open range of integers returns a value inside it.
#[verifier::external_body]
fn random_in(lo: i64, hi: i64) -> (r: i64)
    requires
        lo < hi,
    ensures
        lo <= r < hi,
{
    rand::thread_rng().gen_range(lo..hi)
}

proof fn lemma_toward_sq(p: int, a: int, m: int)
    requires
        0 <= p <= a < p + m,
        m >= 1,
    ensures
        p * p <= a * a,
        p * p >= a * a - 2 * m * a,
{
    assert(p * p <= a * a) by (nonlinear_arith)
        requires 0 <= p <= a;
    if a >= m {
        assert(p * p >= (a - m) * (a - m)) by (nonlinear_arith)
            requires 0 <= a - m < p;
        assert((a - m) * (a - m) == a * a - 2 * m * a + m * m) by (nonlinear_arith);
    } else {
        assert(a * a - 2 * m * a <= 0) by (nonlinear_arith)
            requires 0 <= a < m;
    }
}

proof fn lemma_away_sq(p: int, a: int, m: int)
    requires
        0 <= a <= p < a + m,
        m >= 1,
    ensures
        p * p >= a * a,
        p * p <= a * a + 2 * m * a + m * m,
{
    assert(p * p >= a * a) by (nonlinear_arith)
        requires 0 <= a <= p;
    assert(p * p <= (a + m) * (a + m)) by (nonlinear_arith)
        requires 0 <= p < a + m;
    assert((a + m) * (a + m) == a * a + 2 * m * a + m * m) by (nonlinear_arith);
}

/// Carries the bounds on `m * q` against `big = |u| * d` over to the signed
/// quotient `r = ±q`, whose sign is that of `u`.
proof fn lemma_signed(u: int, d: int, m: int, big: int, q: int, r: int)
    requires
        d >= 0,
        big == mag(u) * d,
        r == if u >= 0 { q } else { -q },
    ensures
        m * r - u * d == if u >= 0 { m * q - big } else { -(m * q - big) },
        (m * r) * (m * r) == (m * q) * (m * q),
        (u * d) * (u * d) == big * big,
        mag(u * d) == big,
{
    if u >= 0 {
        assert(u * d >= 0) by (nonlinear_arith)
            requires u >= 0, d >= 0;
    } else {
        assert(m * r == -(m * q)) by (nonlinear_arith)
            requires r == -q;
        assert(u * d == -big) by (nonlinear_arith)
            requires big == (-u) * d;
        assert(u * d <= 0) by (nonlinear_arith)
            requires u < 0, d >= 0;
        assert((m * r) * (m * r) == (m * q) * (m * q)) by (nonlinear_arith)
            requires m * r == -(m * q);
        assert((u * d) * (u * d) == big * big) by (nonlinear_arith)
            requires u * d == -big;
    }
}

/// `u * d / m`, rounded toward zero.
fn scale(u: i64, d: i64, m: i64) -> (r: i64)
    requires
        -DIR_SPAN <= u <= DIR_SPAN,
        0 <= d < RING_MAX,
        1 <= m <= DIR_SPAN + 1,
    ensures
        r == scaled(u as int, d as int, m as int),
        rounds_toward(r as int, u * d, m as int),
        -(DIR_SPAN * RING_MAX) <= r <= DIR_SPAN * RING_MAX,
{
    let a: i64 = if u >= 0 { u } else { -u };
    assert(0 <= a * d <= DIR_SPAN * RING_MAX) by (nonlinear_arith)
        requires 0 <= a <= DIR_SPAN, 0 <= d < RING_MAX;
    let big: i64 = a * d;
    assert(u >= 0 ==> big == u * d) by (nonlinear_arith)
        requires u >= 0 ==> a == u, big == a * d;
    assert(u < 0 ==> big == -(u * d)) by (nonlinear_arith)
        requires u < 0 ==> a == -u, big == a * d;
    assert(u * d >= 0 <==> (u >= 0 || d == 0)) by (nonlinear_arith)
        requires d >= 0;
    let q: i64 = big / m;
    proof {
        lemma_fundamental_div_mod(big as int, m as int);
        assert(0 <= big % m < m);
        assert(0 <= q <= big) by (nonlinear_arith)
            requires big >= 0, m >= 1, q == big / m;
        lemma_toward_sq(m * q, big as int, m as int);
    }
    let r: i64 = if u >= 0 { q } else { -q };
    proof {
        lemma_signed(u as int, d as int, m as int, big as int, q as int, r as int);
    }
    r
}

/// `u * d / m`, rounded away from zero.
fn scale_away(u: i64, d: i64, m: i64) -> (r: i64)
    requires
        -DIR_SPAN <= u <= DIR_SPAN,
        0 <= d < RING_MAX,
        1 <= m <= DIR_SPAN + 1,
    ensures
        r == scaled_away(u as int, d as int, m as int),
        rounds_away(r as int, u * d, m as int),
        -(DIR_SPAN * RING_MAX) <= r <= DIR_SPAN * RING_MAX,
{
    let a: i64 = if u >= 0 { u } else { -u };
    assert(0 <= a * d <= DIR_SPAN * RING_MAX) by (nonlinear_arith)
        requires 0 <= a <= DIR_SPAN, 0 <= d < RING_MAX;
    let big: i64 = a * d;
    assert(u >= 0 ==> big == u * d) by (nonlinear_arith)
        requires u >= 0 ==> a == u, big == a * d;
    assert(u < 0 ==> big == -(u * d)) by (nonlinear_arith)
        requires u < 0 ==> a == -u, big == a * d;
    assert(u * d >= 0 <==> (u >= 0 || d == 0)) by (nonlinear_arith)
        requires d >= 0;
    let q: i64 = (big + m - 1) / m;
    proof {
        let t = big + m - 1;
        lemma_fundamental_div_mod(t, m as int);
        assert(0 <= t % (m as int) < m);
        assert(m * q <= t && t < m * q + m);
        assert(0 <= q <= big) by (nonlinear_arith)
            requires big >= 0, m >= 1, m * q <= big + m - 1, q >= 0;
        lemma_away_sq(m * q, big as int, m as int);
    }
    let r: i64 = if u >= 0 { q } else { -q };
    proof {
        lemma_signed(u as int, d as int, m as int, big as int, q as int, r as int);
    }
    r
}

/// A drawn direction, scaled by `d / m` with errors below one in each
/// coordinate, stays along that direction: the cross product with it is at
/// most `|ux| + |uy|` and the dot product is positive.
proof fn lemma_along(ux: int, uy: int, d: int, m: int, ox: int, oy: int)
    requires
        valid_dir(ux, uy),
        1 <= m <= DIR_SPAN + 1,
        RING_MIN <= d < RING_MAX,
        -m < m * ox - ux * d < m,
        -m < m * oy - uy * d < m,
    ensures
        mag(ox * uy - oy * ux) <= mag(ux) + mag(uy),
        ox * ux + oy * uy > 0,
{
    let ex = m * ox - ux * d;
    let ey = m * oy - uy * d;
    let c = ox * uy - oy * ux;
    let au = mag(ux);
    let av = mag(uy);
    assert(m * c == ex * uy - ey * ux) by (nonlinear_arith)
        requires ex == m * ox - ux * d, ey == m * oy - uy * d, c == ox * uy - oy * ux;
    assert(-m * av <= ex * uy <= m * av) by (nonlinear_arith)
        requires -m < ex < m, av >= 0, uy == av || uy == -av, m >= 1;
    assert(-m * au <= ey * ux <= m * au) by (nonlinear_arith)
        requires -m < ey < m, au >= 0, ux == au || ux == -au, m >= 1;
    assert(mag(c) <= au + av) by (nonlinear_arith)
        requires
            m * c == ex * uy - ey * ux,
            -m * av <= ex * uy <= m * av,
            -m * au <= ey * ux <= m * au,
            m >= 1,
            mag(c) == if c >= 0 { c } else { -c };
    let dot = ox * ux + oy * uy;
    let q = norm2(ux, uy);
    assert(m * dot == (m * ox) * ux + (m * oy) * uy) by (nonlinear_arith)
        requires dot == ox * ux + oy * uy;
    assert((m * ox) * ux == ex * ux + d * (ux * ux)) by (nonlinear_arith)
        requires ex == m * ox - ux * d;
    assert((m * oy) * uy == ey * uy + d * (uy * uy)) by (nonlinear_arith)
        requires ey == m * oy - uy * d;
    assert(d * (ux * ux) + d * (uy * uy) == d * q) by (nonlinear_arith)
        requires q == ux * ux + uy * uy;
    assert(-(m * au) <= ex * ux) by (nonlinear_arith)
        requires -m < ex < m, au >= 0, ux == au || ux == -au, m >= 1;
    assert(-(m * av) <= ey * uy) by (nonlinear_arith)
        requires -m < ey < m, av >= 0, uy == av || uy == -av, m >= 1;
    assert(m * au <= (DIR_SPAN + 1) * DIR_SPAN && m * av <= (DIR_SPAN + 1) * DIR_SPAN) by (nonlinear_arith)
        requires 1 <= m <= DIR_SPAN + 1, 0 <= au <= DIR_SPAN, 0 <= av <= DIR_SPAN;
    assert(d * q >= RING_MIN * DIR_MIN_LEN2) by (nonlinear_arith)
        requires d >= RING_MIN, q >= DIR_MIN_LEN2;
    assert(dot > 0) by (nonlinear_arith)
        requires m * dot > 0, m >= 1;
}

proof fn lemma_mag_scaled(u: int, d: int)
    requires
        -DIR_SPAN <= u <= DIR_SPAN,
        d >= 0,
    ensures
        0 <= mag(u * d) <= DIR_SPAN * d,
{
    if u >= 0 {
        assert(0 <= u * d <= DIR_SPAN * d) by (nonlinear_arith)
            requires 0 <= u <= DIR_SPAN, d >= 0;
    } else {
        assert(0 <= -(u * d) <= DIR_SPAN * d) by (nonlinear_arith)
            requires -DIR_SPAN <= u < 0, d >= 0;
    }
}

/// The squared lengths of the exact offset `(ux * d, uy * d)` and of its
/// rescaled form `(m * ox, m * oy)`.
proof fn lemma_square_sums(ux: int, uy: int, d: int, m: int, ox: int, oy: int)
    requires
        -DIR_SPAN <= ux <= DIR_SPAN,
        -DIR_SPAN <= uy <= DIR_SPAN,
        d >= 0,
    ensures
        (m * ox) * (m * ox) + (m * oy) * (m * oy) == (m * m) * norm2(ox, oy),
        (ux * d) * (ux * d) + (uy * d) * (uy * d) == (d * d) * norm2(ux, uy),
        mag(ux * d) + mag(uy * d) <= 2 * DIR_SPAN * d,
{
    assert((m * ox) * (m * ox) + (m * oy) * (m * oy) == (m * m) * (ox * ox + oy * oy)) by (nonlinear_arith);
    assert((ux * d) * (ux * d) + (uy * d) * (uy * d) == (d * d) * (ux * ux + uy * uy)) by (nonlinear_arith);
    lemma_mag_scaled(ux, d);
    lemma_mag_scaled(uy, d);
    assert(DIR_SPAN * d + DIR_SPAN * d == 2 * DIR_SPAN * d) by (nonlinear_arith);
}

/// A far draw divided by `m = n + 1`, rounded toward zero, lies in the ring.
proof fn lemma_far_in_ring(ux: int, uy: int, d: int, m: int, ox: int, oy: int)
    requires
        valid_dir(ux, uy),
        (m - 1) * (m - 1) <= norm2(ux, uy) < m * m,
        4 <= m <= DIR_SPAN + 1,
        RING_MID <= d < RING_MAX,
        rounds_toward(ox, ux * d, m),
        rounds_toward(oy, uy * d, m),
    ensures
        RING_MIN * RING_MIN <= norm2(ox, oy) < RING_MAX * RING_MAX,
{
    lemma_square_sums(ux, uy, d, m, ox, oy);
    let q = norm2(ux, uy);
    let l = norm2(ox, oy);
    let mm = m * m;
    let dd = d * d;
    let s = mag(ux * d) + mag(uy * d);
    assert(mm * l <= dd * q);
    assert(2 * m * mag(ux * d) + 2 * m * mag(uy * d) == 2 * m * s) by (nonlinear_arith)
        requires s == mag(ux * d) + mag(uy * d);
    assert(mm * l >= dd * q - 2 * m * s);
    assert(dd > 0) by (nonlinear_arith)
        requires d >= RING_MID, dd == d * d;
    assert(dd * q < dd * mm) by (nonlinear_arith)
        requires q < mm, dd > 0;
    assert(l < dd) by (nonlinear_arith)
        requires mm * l < mm * dd, mm > 0;
    assert(dd < RING_MAX * RING_MAX) by (nonlinear_arith)
        requires 0 <= d < RING_MAX, dd == d * d;
    assert(2 * q >= mm) by (nonlinear_arith)
        requires (m - 1) * (m - 1) <= q, m >= 4, mm == m * m;
    assert(dd >= RING_MID * RING_MID) by (nonlinear_arith)
        requires d >= RING_MID, dd == d * d;
    assert(2 * (dd * q) >= RING_MID * RING_MID * mm) by (nonlinear_arith)
        requires 2 * q >= mm, dd >= RING_MID * RING_MID, mm >= 0;
    assert(4 * m * s <= 8 * DIR_SPAN * RING_MAX * mm) by (nonlinear_arith)
        requires 0 <= s <= 2 * DIR_SPAN * d, 0 <= d < RING_MAX, m >= 1, mm == m * m;
    assert(2 * (2 * m * s) == 4 * m * s) by (nonlinear_arith);
    assert(mm * l >= RING_MIN * RING_MIN * mm) by (nonlinear_arith)
        requires
            2 * (mm * l) >= 2 * (dd * q) - 4 * m * s,
            2 * (dd * q) >= RING_MID * RING_MID * mm,
            4 * m * s <= 8 * DIR_SPAN * RING_MAX * mm,
            mm >= 0;
    assert(l >= RING_MIN * RING_MIN) by (nonlinear_arith)
        requires mm * l >= RING_MIN * RING_MIN * mm, mm > 0;
}

/// A near draw divided by `m = n`, rounded away from zero, lies in the ring.
proof fn lemma_near_in_ring(ux: int, uy: int, d: int, m: int, ox: int, oy: int)
    requires
        valid_dir(ux, uy),
        m * m <= norm2(ux, uy) < (m + 1) * (m + 1),
        3 <= m <= DIR_SPAN,
        RING_MIN <= d < RING_MID,
        rounds_away(ox, ux * d, m),
        rounds_away(oy, uy * d, m),
    ensures
        RING_MIN * RING_MIN <= norm2(ox, oy) < RING_MAX * RING_MAX,
{
    lemma_square_sums(ux, uy, d, m, ox, oy);
    let q = norm2(ux, uy);
    let l = norm2(ox, oy);
    let mm = m * m;
    let dd = d * d;
    let s = mag(ux * d) + mag(uy * d);
    assert(2 * m * mag(ux * d) + 2 * m * mag(uy * d) == 2 * m * s) by (nonlinear_arith)
        requires s == mag(ux * d) + mag(uy * d);
    assert(mm * l >= dd * q);
    assert(mm * l <= dd * q + 2 * m * s + 2 * mm);
    assert(mm > 0) by (nonlinear_arith)
        requires m >= 3, mm == m * m;
    assert(dd * q >= dd * mm) by (nonlinear_arith)
        requires q >= mm, dd >= 0;
    assert(l >= dd) by (nonlinear_arith)
        requires mm * l >= mm * dd, mm > 0;
    assert(dd >= RING_MIN * RING_MIN) by (nonlinear_arith)
        requires d >= RING_MIN, dd == d * d;
    assert(q < 2 * mm) by (nonlinear_arith)
        requires q < (m + 1) * (m + 1), m >= 3, mm == m * m;
    assert(dd < RING_MID * RING_MID) by (nonlinear_arith)
        requires 0 <= d < RING_MID, dd == d * d;
    assert(dd * q <= 2 * RING_MID * RING_MID * mm) by (nonlinear_arith)
        requires q < 2 * mm, 0 <= dd < RING_MID * RING_MID, q >= 0, mm >= 0;
    assert(2 * m * s <= 4 * DIR_SPAN * RING_MID * mm) by (nonlinear_arith)
        requires 0 <= s <= 2 * DIR_SPAN * d, 0 <= d < RING_MID, m >= 1, mm == m * m;
    assert(mm * l < RING_MAX * RING_MAX * mm) by (nonlinear_arith)
        requires
            mm * l <= dd * q + 2 * m * s + 2 * mm,
            dd * q <= 2 * RING_MID * RING_MID * mm,
            2 * m * s <= 4 * DIR_SPAN * RING_MID * mm,
            mm > 0;
    assert(l < RING_MAX * RING_MAX) by (nonlinear_arith)
        requires mm * l < RING_MAX * RING_MAX * mm, mm > 0;
}

/// The offset from the spawn origin of an enemy drawn with direction
/// `(ux, uy)` and distance `d`. It lies in the spawn ring and along the drawn
/// direction, up to rounding.
pub fn ring_offset(ux: i64, uy: i64, d: i64) -> (r: (i64, i64))
    requires
        valid_dir(ux as int, uy as int),
        RING_MIN <= d < RING_MAX,
    ensures
        (r.0 as int, r.1 as int) == ring_offset_of(ux as int, uy as int, d as int, root(norm2(ux as int, uy as int))),
        RING_MIN * RING_MIN <= norm2(r.0 as int, r.1 as int) < RING_MAX * RING_MAX,
        mag(r.0 * uy - r.1 * ux) <= mag(ux as int) + mag(uy as int),
        r.0 * ux + r.1 * uy > 0,
{
    assert(0 <= ux * ux <= DIR_SPAN * DIR_SPAN) by (nonlinear_arith)
        requires -DIR_SPAN <= ux <= DIR_SPAN;
    assert(0 <= uy * uy <= DIR_SPAN * DIR_SPAN) by (nonlinear_arith)
        requires -DIR_SPAN <= uy <= DIR_SPAN;
    let q: i64 = ux * ux + uy * uy;
    assert(q as int == norm2(ux as int, uy as int));
    let n128: u128 = isqrt(q as u128);
    assert(n128 >= 500) by (nonlinear_arith)
        requires n128 * n128 <= q < (n128 + 1) * (n128 + 1), q >= DIR_MIN_LEN2;
    assert(n128 <= DIR_SPAN) by (nonlinear_arith)
        requires n128 * n128 <= q < (n128 + 1) * (n128 + 1), q <= DIR_MAX_LEN2;
    let n: i64 = n128 as i64;
    let ox: i64 = scale(ux, d, n);
    let oy: i64 = scale(uy, d, n);
    assert(0 <= ox * ox <= (DIR_SPAN * RING_MAX) * (DIR_SPAN * RING_MAX)) by (nonlinear_arith)
        requires -(DIR_SPAN * RING_MAX) <= ox <= DIR_SPAN * RING_MAX;
    assert(0 <= oy * oy <= (DIR_SPAN * RING_MAX) * (DIR_SPAN * RING_MAX)) by (nonlinear_arith)
        requires -(DIR_SPAN * RING_MAX) <= oy <= DIR_SPAN * RING_MAX;
    let len2: i64 = ox * ox + oy * oy;
    if RING_MIN * RING_MIN <= len2 && len2 < RING_MAX * RING_MAX {
        proof {
            lemma_along(ux as int, uy as int, d as int, n as int, ox as int, oy as int);
        }
        (ox, oy)
    } else if d >= RING_MID {
        let bx: i64 = scale(ux, d, n + 1);
        let by: i64 = scale(uy, d, n + 1);
        proof {
            lemma_far_in_ring(ux as int, uy as int, d as int, n + 1, bx as int, by as int);
            lemma_along(ux as int, uy as int, d as int, n + 1, bx as int, by as int);
        }
        (bx, by)
    } else {
        let cx: i64 = scale_away(ux, d, n);
        let cy: i64 = scale_away(uy, d, n);
        proof {
            lemma_near_in_ring(ux as int, uy as int, d as int, n as int, cx as int, cy as int);
            lemma_along(ux as int, uy as int, d as int, n as int, cx as int, cy as int);
        }
        (cx, cy)
    }
}

/// Draws a direction: repeated draws until one is accepted, or the positive
/// x-axis after `DIR_ATTEMPTS` rejected draws.
fn draw_direction() -> (r: (i64, i64))
    ensures
        valid_dir(r.0 as int, r.1 as int),
{
    let mut k: usize = 0;
    while k < DIR_ATTEMPTS
        decreases DIR_ATTEMPTS - k,
    {
        let ux = random_in(-DIR_SPAN, DIR_SPAN + 1);
        let uy = random_in(-DIR_SPAN, DIR_SPAN + 1);
        assert(0 <= ux * ux <= DIR_SPAN * DIR_SPAN) by (nonlinear_arith)
            requires -DIR_SPAN <= ux <= DIR_SPAN;
        assert(0 <= uy * uy <= DIR_SPAN * DIR_SPAN) by (nonlinear_arith)
            requires -DIR_SPAN <= uy <= DIR_SPAN;
        let q: i64 = ux * ux + uy * uy;
        if DIR_MIN_LEN2 <= q && q <= DIR_MAX_LEN2 {
            return (ux, uy);
        }
        k = k + 1;
    }
    assert(norm2(DIR_SPAN as int, 0) == 1_000_000) by (nonlinear_arith);
    (DIR_SPAN, 0)
}

/// An enemy at `origin` moved by `offset`, with the given speed and health and
/// no hit flash.
pub open spec fn enemy_at(origin: Vec2, offset: (int, int), speed: i64, hp: i64) -> Enemy {
    Enemy {
        rect: Rect {
            pos: Vec2 { x: (origin.x + offset.0) as i32, y: (origin.y + offset.1) as i32 },
            w: BODY_SIZE,
            h: BODY_SIZE,
        },
        speed,
        hp,
        flash: 0,
    }
}

/// Places one enemy from drawn values: direction `(ux, uy)`, distance `d` and
/// speed `speed`. Its offset from `origin` lies in the spawn ring and along the
/// drawn direction, up to rounding.
pub fn place_enemy(origin: Vec2, ux: i64, uy: i64, d: i64, speed: i64, hp: i64) -> (r: Enemy)
    requires
        ring_fits(origin),
        valid_dir(ux as int, uy as int),
        RING_MIN <= d < RING_MAX,
    ensures
        r == enemy_at(origin, ring_offset_of(ux as int, uy as int, d as int, root(norm2(ux as int, uy as int))), speed, hp),
        in_ring(origin, r.rect.pos),
        mag((r.rect.pos.x - origin.x) * uy - (r.rect.pos.y - origin.y) * ux) <= mag(ux as int) + mag(uy as int),
        (r.rect.pos.x - origin.x) * ux + (r.rect.pos.y - origin.y) * uy > 0,
{
    let off = ring_offset(ux, uy, d);
    assert(-RING_MAX < off.0 < RING_MAX && -RING_MAX < off.1 < RING_MAX) by (nonlinear_arith)
        requires norm2(off.0 as int, off.1 as int) < RING_MAX * RING_MAX;
    let pos = Vec2 { x: (origin.x as i64 + off.0) as i32, y: (origin.y as i64 + off.1) as i32 };
    Enemy { rect: Rect { pos, w: BODY_SIZE, h: BODY_SIZE }, speed, hp, flash: 0 }
}

/// Creates `count` enemies around `origin`: each at a uniformly drawn distance
/// in `[RING_MIN, RING_MAX)` along a uniformly drawn direction, with a speed
/// drawn from `[speed.0, speed.1)` (exactly `speed.0` when the two are equal),
/// the given health and no hit flash.
pub fn spawn_wave(origin: Vec2, count: u64, speed: (i64, i64), hp: i64) -> (r: Vec<Enemy>)
    requires
        ring_fits(origin),
        speed.0 <= speed.1,
        hp > 0,
    ensures
        r.len() == count,
        forall|i: int| 0 <= i < count ==> in_ring(origin, #[trigger] r[i].rect.pos),
        forall|i: int| 0 <= i < count ==> speed.0 <= #[trigger] r[i].speed
            && (r[i].speed < speed.1 || r[i].speed == speed.0),
        forall|i: int| 0 <= i < count ==> #[trigger] r[i].hp == hp && r[i].flash == 0
            && r[i].rect.w == BODY_SIZE && r[i].rect.h == BODY_SIZE,
{
    let mut out: Vec<Enemy> = Vec::new();
    let mut k: u64 = 0;
    while k < count
        invariant
            ring_fits(origin),
            speed.0 <= speed.1,
            k <= count,
            out.len() == k,
            forall|i: int| 0 <= i < k ==> in_ring(origin, #[trigger] out[i].rect.pos),
            forall|i: int| 0 <= i < k ==> speed.0 <= #[trigger] out[i].speed
                && (out[i].speed < speed.1 || out[i].speed == speed.0),
            forall|i: int| 0 <= i < k ==> #[trigger] out[i].hp == hp && out[i].flash == 0
                && out[i].rect.w == BODY_SIZE && out[i].rect.h == BODY_SIZE,
        decreases count - k,
    {
        let dir = draw_direction();
        let d = random_in(RING_MIN, RING_MAX);
        let s: i64 = if speed.0 < speed.1 { random_in(speed.0, speed.1) } else { speed.0 };
        let e = place_enemy(origin, dir.0, dir.1, d, s, hp);
        out.push(e);
        k = k + 1;
    }
    out
}

} // verus!
