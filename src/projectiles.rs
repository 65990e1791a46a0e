use vstd::prelude::*;
use crate::entities::{Bullet, BULLET_H, BULLET_W};
use crate::geometry::{shifted, Rect, Vec2};

verus! {

/// Angular step of the fan, in microradians: the outermost projectiles of a
/// fan of three or more sit this far from the aim.
pub const SPREAD: i64 = 300_000;

/// Speed of every projectile, in milli-units per second.
pub const BULLET_SPEED: i64 = 500_000;

/// Bound on the magnitude of an aim heading (pi, in microradians, rounded up).
pub const HALF_TURN: i64 = 3_141_593;

/// Offset from the aim of projectile `i` of `count`, in microradians:
/// `(i - half) * SPREAD / max(half, 1)` with `half = (count - 1) / 2`, that is
/// `(2i - (count - 1)) * SPREAD / max(count - 1, 2)`, rounded toward zero.
pub open spec fn spread_offset(i: int, count: int) -> int {
    let num = 2 * i - (count - 1);
    let den = if count - 1 > 2 { count - 1 } else { 2 };
    if num >= 0 {
        num * SPREAD / den
    } else {
        -((-num) * SPREAD / den)
    }
}

/// Sum of the offsets of projectiles `lo` to `hi - 1` of `count`.
pub open spec fn offset_sum(count: int, lo: int, hi: int) -> int
    decreases hi - lo,
{
    if lo >= hi {
        0
    } else {
        spread_offset(lo, count) + offset_sum(count, lo + 1, hi)
    }
}

/// The rectangle of a projectile fired from `origin`: centred on it.
pub open spec fn muzzle_rect(origin: Vec2) -> Rect {
    Rect { pos: shifted(origin, -(BULLET_W / 2) as int, -(BULLET_H / 2) as int), w: BULLET_W, h: BULLET_H }
}

/// The projectiles of one shot: `count` of them from `origin`, fanned around
/// `heading`.
pub open spec fn fan(origin: Vec2, heading: i64, count: int) -> Seq<Bullet> {
    Seq::new(count as nat, |i: int| Bullet {
        rect: muzzle_rect(origin),
        heading: (heading + spread_offset(i, count)) as i64,
        speed: BULLET_SPEED,
    })
}

/// Offset of projectile `i` of `count` from the aim.
pub fn offset_of(i: usize, count: usize) -> (r: i64)
    requires
        i < count,
    ensures
        r == spread_offset(i as int, count as int),
        -SPREAD <= r <= SPREAD,
{
    let num: i128 = 2 * (i as i128) - (count as i128 - 1);
    let den: i128 = if count as i128 - 1 > 2 { count as i128 - 1 } else { 2 };
    let a: i128 = if num >= 0 { num } else { -num };
    assert(a <= den);
    assert(0 <= a * (SPREAD as i128) <= den * (SPREAD as i128)) by (nonlinear_arith)
        requires 0 <= a <= den;
    let m: i128 = a * (SPREAD as i128);
    assert(m / den <= SPREAD) by (nonlinear_arith)
        requires 0 <= m <= den * SPREAD, den >= 2;
    assert(m / den >= 0) by (nonlinear_arith)
        requires 0 <= m, den >= 2;
    let q: i64 = (m / den) as i64;
    if num >= 0 { q } else { -q }
}

/// Fires `count` projectiles from `origin` fanned around the aim `heading`
/// (microradians, as `atan2` gives it): projectile `i` heads at
/// `heading + spread_offset(i, count)`, moves at `BULLET_SPEED`, and its
/// rectangle is centred on `origin`.
pub fn spawn_bullets(origin: Vec2, heading: i64, count: usize) -> (r: Vec<Bullet>)
    requires
        -HALF_TURN <= heading <= HALF_TURN,
    ensures
        r@ == fan(origin, heading, count as int),
        r.len() == count,
        forall|i: int| 0 <= i < count ==> (#[trigger] r[i]).heading == heading + spread_offset(i, count as int)
            && r[i].speed == BULLET_SPEED && r[i].rect == muzzle_rect(origin),
{
    let rect = Rect { pos: origin.shift(-(BULLET_W / 2) as i128, -(BULLET_H / 2) as i128), w: BULLET_W, h: BULLET_H };
    let mut out: Vec<Bullet> = Vec::new();
    let mut i: usize = 0;
    while i < count
        invariant
            -HALF_TURN <= heading <= HALF_TURN,
            rect == muzzle_rect(origin),
            i <= count,
            out.len() == i,
            forall|k: int| 0 <= k < i ==> (#[trigger] out[k]).heading == heading + spread_offset(k, count as int)
                && out[k].speed == BULLET_SPEED && out[k].rect == rect,
        decreases count - i,
    {
        let off = offset_of(i, count);
        out.push(Bullet { rect, heading: heading + off, speed: BULLET_SPEED });
        i = i + 1;
    }
    assert(out@ =~= fan(origin, heading, count as int));
    out
}

proof fn lemma_offset_sum_last(count: int, lo: int, hi: int)
    requires
        lo < hi,
    ensures
        offset_sum(count, lo, hi) == offset_sum(count, lo, hi - 1) + spread_offset(hi - 1, count),
    decreases hi - lo,
{
    assert(offset_sum(count, lo, hi) == spread_offset(lo, count) + offset_sum(count, lo + 1, hi));
    if lo < hi - 1 {
        lemma_offset_sum_last(count, lo + 1, hi);
        assert(offset_sum(count, lo, hi - 1) == spread_offset(lo, count) + offset_sum(count, lo + 1, hi - 1));
    } else {
        assert(offset_sum(count, lo + 1, hi) == 0);
        assert(offset_sum(count, lo, hi - 1) == 0);
    }
}

proof fn lemma_offset_mirror(i: int, count: int)
    ensures
        spread_offset(i, count) == -spread_offset(count - 1 - i, count),
{
}

proof fn lemma_window_sum_zero(count: int, lo: int, hi: int)
    requires
        lo <= hi,
        lo + hi == count,
    ensures
        offset_sum(count, lo, hi) == 0,
    decreases hi - lo,
{
    if hi - lo >= 2 {
        assert(offset_sum(count, lo, hi) == spread_offset(lo, count) + offset_sum(count, lo + 1, hi));
        lemma_offset_sum_last(count, lo + 1, hi);
        lemma_window_sum_zero(count, lo + 1, hi - 1);
        lemma_offset_mirror(lo, count);
    } else if hi - lo == 1 {
        assert(2 * lo - (count - 1) == 0);
        assert(offset_sum(count, lo, hi) == spread_offset(lo, count) + offset_sum(count, lo + 1, hi));
        assert(offset_sum(count, lo + 1, hi) == 0);
        assert(spread_offset(lo, count) == 0);
    }
}

/// The fan is symmetric about the aim: projectiles `i` and `count - 1 - i`
/// sit at opposite offsets, the offsets sum to zero, and a single projectile
/// flies exactly along the aim.
pub proof fn lemma_spread_balanced(count: int)
    requires
        count >= 1,
    ensures
        forall|i: int| 0 <= i < count ==> #[trigger] spread_offset(i, count) == -spread_offset(count - 1 - i, count),
        offset_sum(count, 0, count) == 0,
        count == 1 ==> spread_offset(0, count) == 0,
{
    assert forall|i: int| 0 <= i < count implies #[trigger] spread_offset(i, count) == -spread_offset(count - 1 - i, count) by {
        lemma_offset_mirror(i, count);
    }
    lemma_window_sum_zero(count, 0, count);
}

} // verus!
