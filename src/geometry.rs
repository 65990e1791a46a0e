use vstd::prelude::*;

verus! {

/// Milli-units in one world unit.
pub const UNIT: i64 = 1000;

/// Bound on the magnitude of a displacement handed to `Vec2::shift`.
pub const DELTA_LIMIT: i128 = 0x1_0000_0000_0000_0000_0000_0000_0000;

/// Clamps a mathematical integer into the range of `i32`.
pub open spec fn clamp32(v: int) -> i32 {
    if v < i32::MIN as int {
        i32::MIN
    } else if v > i32::MAX as int {
        i32::MAX
    } else {
        v as i32
    }
}

/// A point or a displacement, in milli-units.
#[derive(Clone, Copy, Debug, PartialEq, Eq, Structural)]
pub struct Vec2 {
    pub x: i32,
    pub y: i32,
}

/// Squared Euclidean distance between two points.
pub open spec fn dist2(a: Vec2, b: Vec2) -> int {
    (a.x - b.x) * (a.x - b.x) + (a.y - b.y) * (a.y - b.y)
}

/// Squared length of the vector `(x, y)`.
pub open spec fn norm2(x: int, y: int) -> int {
    x * x + y * y
}

/// `r` is the integer square root of `q`.
pub open spec fn is_isqrt(q: int, r: int) -> bool {
    0 <= r && r * r <= q && q < (r + 1) * (r + 1)
}

/// The integer square root of `q`.
pub open spec fn root(q: int) -> int {
    choose|r: int| is_isqrt(q, r)
}

/// Division rounded toward zero, as Rust's integer division does.
pub open spec fn trunc_div(a: int, b: int) -> int {
    if a >= 0 {
        a / b
    } else {
        -((-a) / b)
    }
}

/// `u * d / n`, rounded toward zero.
pub open spec fn scaled(u: int, d: int, n: int) -> int {
    trunc_div(u * d, n)
}

/// Translates a point, saturating each coordinate at the bounds of `i32`.
pub open spec fn shifted(p: Vec2, dx: int, dy: int) -> Vec2 {
    Vec2 { x: clamp32(p.x + dx), y: clamp32(p.y + dy) }
}

/// An axis-aligned rectangle: top-left corner and size, in milli-units.
#[derive(Clone, Copy, Debug, PartialEq, Eq, Structural)]
pub struct Rect {
    pub pos: Vec2,
    pub w: i32,
    pub h: i32,
}

/// A point lies inside a rectangle when it falls within `[pos, pos + size)` on both axes.
pub open spec fn rect_contains(r: Rect, p: Vec2) -> bool {
    r.pos.x <= p.x < r.pos.x + r.w && r.pos.y <= p.y < r.pos.y + r.h
}

/// Clamps `v` into the range of `i32`.
pub fn clamp_to_i32(v: i128) -> (r: i32)
    ensures
        r == clamp32(v as int),
{
    if v < i32::MIN as i128 {
        i32::MIN
    } else if v > i32::MAX as i128 {
        i32::MAX
    } else {
        v as i32
    }
}

impl Vec2 {
    /// The point `(x, y)`.
    pub fn new(x: i32, y: i32) -> (r: Vec2)
        ensures
            r.x == x && r.y == y,
    {
        Vec2 { x, y }
    }

    /// This point moved by `(dx, dy)`, saturating at the bounds of `i32`.
    pub fn shift(self, dx: i128, dy: i128) -> (r: Vec2)
        requires
            -DELTA_LIMIT <= dx <= DELTA_LIMIT,
            -DELTA_LIMIT <= dy <= DELTA_LIMIT,
        ensures
            r == shifted(self, dx as int, dy as int),
    {
        Vec2 { x: clamp_to_i32(self.x as i128 + dx), y: clamp_to_i32(self.y as i128 + dy) }
    }

    /// Squared distance to another point.
    pub fn dist2_to(self, o: Vec2) -> (r: u128)
        ensures
            r as int == dist2(self, o),
    {
        let dx: i64 = self.x as i64 - o.x as i64;
        let dy: i64 = self.y as i64 - o.y as i64;
        let ax: u64 = if dx < 0 { (-dx) as u64 } else { dx as u64 };
        let ay: u64 = if dy < 0 { (-dy) as u64 } else { dy as u64 };
        assert(ax * ax <= 0xffff_ffffu64 * 0xffff_ffffu64) by (nonlinear_arith)
            requires ax <= 0xffff_ffffu64;
        assert(ay * ay <= 0xffff_ffffu64 * 0xffff_ffffu64) by (nonlinear_arith)
            requires ay <= 0xffff_ffffu64;
        assert(ax * ax == dx * dx) by (nonlinear_arith)
            requires ax == dx || ax == -dx;
        assert(ay * ay == dy * dy) by (nonlinear_arith)
            requires ay == dy || ay == -dy;
        (ax * ax) as u128 + (ay * ay) as u128
    }
}

impl Rect {
    /// The rectangle with corner `pos` and size `w` by `h`.
    pub fn new(pos: Vec2, w: i32, h: i32) -> (r: Rect)
        ensures
            r.pos == pos && r.w == w && r.h == h,
    {
        Rect { pos, w, h }
    }

    /// Whether `p` lies within `[pos, pos + size)` on both axes.
    pub fn contains(&self, p: Vec2) -> (r: bool)
        ensures
            r == rect_contains(*self, p),
    {
        (self.pos.x as i64) <= (p.x as i64) && (p.x as i64) < self.pos.x as i64 + self.w as i64
            && (self.pos.y as i64) <= (p.y as i64) && (p.y as i64) < self.pos.y as i64
            + self.h as i64
    }
}

proof fn lemma_isqrt_unique(q: int, a: int, b: int)
    requires
        is_isqrt(q, a),
        is_isqrt(q, b),
    ensures
        a == b,
{
    if a < b {
        assert((a + 1) * (a + 1) <= b * b) by (nonlinear_arith)
            requires 0 <= a < b;
    } else if b < a {
        assert((b + 1) * (b + 1) <= a * a) by (nonlinear_arith)
            requires 0 <= b < a;
    }
}

/// `x / n`, rounded toward zero.
pub fn div_trunc(x: i128, n: i128) -> (r: i128)
    requires
        n > 0,
        x > i128::MIN,
    ensures
        r == trunc_div(x as int, n as int),
{
    if x >= 0 {
        x / n
    } else {
        -((-x) / n)
    }
}

/// Integer square root: the largest `r` with `r * r <= q`.
pub fn isqrt(q: u128) -> (r: u128)
    requires
        q < 0x1_0000_0000_0000_0000_0000u128,
    ensures
        is_isqrt(q as int, r as int),
        r == root(q as int),
{
    let mut lo: u128 = 0;
    let mut hi: u128 = 0x100_0000_0000u128;
    while hi - lo > 1
        invariant
            lo < hi <= 0x100_0000_0000u128,
            lo * lo <= q < hi * hi,
        decreases hi - lo,
    {
        let mid: u128 = lo + (hi - lo) / 2;
        assert(mid * mid <= 0x100_0000_0000u128 * 0x100_0000_0000u128) by (nonlinear_arith)
            requires mid <= 0x100_0000_0000u128;
        if mid * mid <= q {
            lo = mid;
        } else {
            hi = mid;
        }
    }
    assert(hi == lo + 1);
    proof {
        assert(is_isqrt(q as int, lo as int));
        let c = root(q as int);
        lemma_isqrt_unique(q as int, lo as int, c);
    }
    lo
}

} // verus!
