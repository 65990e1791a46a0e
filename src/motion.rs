use vstd::prelude::*;
use crate::entities::{Bullet, Enemy};
use crate::geometry::{clamp32, dist2, div_trunc, is_isqrt, isqrt, norm2, root, scaled, shifted, trunc_div, Rect, Vec2};
use vstd::arithmetic::div_mod::lemma_fundamental_div_mod;

verus! {

/// Microseconds in one second.
pub const MICROS: i64 = 1_000_000;

/// Distance covered in `dt` microseconds at `speed` milli-units per second.
pub open spec fn step_len(speed: int, dt: int) -> int {
    trunc_div(speed * dt, MICROS as int)
}

/// The square root of `q`, rounded up.
pub open spec fn root_up(q: int) -> int {
    if root(q) * root(q) == q { root(q) } else { root(q) + 1 }
}

/// An enemy after `dt` microseconds of pursuit of `target`: it moves its step
/// length along the direction to the target (the square root of the squared
/// distance, rounded up, serving as the length, so the step never exceeds
/// `speed * dt`), and stays put when it is on the target.
pub open spec fn pursued(e: Enemy, target: Vec2, dt: int) -> Enemy {
    let dx = target.x - e.rect.pos.x;
    let dy = target.y - e.rect.pos.y;
    if dx == 0 && dy == 0 {
        e
    } else {
        let s = step_len(e.speed as int, dt);
        let n = root_up(norm2(dx, dy));
        Enemy {
            rect: Rect { pos: shifted(e.rect.pos, scaled(dx, s, n), scaled(dy, s, n)), ..e.rect },
            ..e
        }
    }
}

/// Every enemy of `es` after `dt` microseconds of pursuit of `target`.
pub open spec fn pursued_all(es: Seq<Enemy>, target: Vec2, dt: int) -> Seq<Enemy> {
    Seq::new(es.len(), |i: int| pursued(es[i], target, dt))
}

/// A projectile moved by `(dx, dy)`.
pub open spec fn moved(b: Bullet, dx: int, dy: int) -> Bullet {
    Bullet { rect: Rect { pos: shifted(b.rect.pos, dx, dy), ..b.rect }, ..b }
}

/// Every projectile of `bs` moved by its own displacement in `ds`.
pub open spec fn moved_all(bs: Seq<Bullet>, ds: Seq<Vec2>) -> Seq<Bullet> {
    Seq::new(bs.len(), |i: int| moved(bs[i], ds[i].x as int, ds[i].y as int))
}

fn scale_by(u: i128, s: i128, n: i128) -> (r: i128)
    requires
        -0x2_0000_0000 <= u <= 0x2_0000_0000,
        -0x2000_0000_0000_0000_0000 <= s <= 0x2000_0000_0000_0000_0000,
        n >= 1,
    ensures
        r == scaled(u as int, s as int, n as int),
        -0x4000_0000_0000_0000_0000_0000_0000 <= r <= 0x4000_0000_0000_0000_0000_0000_0000,
{
    assert(-0x4000_0000_0000_0000_0000_0000_0000 <= u * s <= 0x4000_0000_0000_0000_0000_0000_0000) by (nonlinear_arith)
        requires
            -0x2_0000_0000 <= u <= 0x2_0000_0000,
            -0x2000_0000_0000_0000_0000 <= s <= 0x2000_0000_0000_0000_0000;
    let m: i128 = u * s;
    let r = div_trunc(m, n);
    assert(0 <= m ==> m / n <= m) by (nonlinear_arith)
        requires n >= 1;
    assert(m < 0 ==> (-(m as int)) / (n as int) <= -(m as int)) by (nonlinear_arith)
        requires n >= 1;
    assert(0 <= m ==> m / n >= 0) by (nonlinear_arith)
        requires n >= 1;
    assert(m < 0 ==> (-(m as int)) / (n as int) >= 0) by (nonlinear_arith)
        requires n >= 1;
    r
}

/// Moves one enemy toward `target` for `dt` microseconds.
pub fn pursue(e: Enemy, target: Vec2, dt: u32) -> (r: Enemy)
    ensures
        r == pursued(e, target, dt as int),
{
    let dx: i128 = target.x as i128 - e.rect.pos.x as i128;
    let dy: i128 = target.y as i128 - e.rect.pos.y as i128;
    if dx == 0 && dy == 0 {
        return e;
    }
    assert(0 <= dx * dx <= 0x1_0000_0000_0000_0000) by (nonlinear_arith)
        requires -0x1_0000_0000 <= dx <= 0x1_0000_0000;
    assert(0 <= dy * dy <= 0x1_0000_0000_0000_0000) by (nonlinear_arith)
        requires -0x1_0000_0000 <= dy <= 0x1_0000_0000;
    let q: u128 = (dx * dx + dy * dy) as u128;
    assert(q >= 1) by (nonlinear_arith)
        requires q == dx * dx + dy * dy, dx != 0 || dy != 0;
    let r128: u128 = isqrt(q);
    assert(r128 >= 1) by (nonlinear_arith)
        requires r128 * r128 <= q < (r128 + 1) * (r128 + 1), q >= 1;
    assert(r128 <= 0x2_0000_0000) by (nonlinear_arith)
        requires r128 * r128 <= q, q <= 0x2_0000_0000_0000_0000;
    let n128: u128 = if r128 * r128 == q { r128 } else { r128 + 1 };
    let n: i128 = n128 as i128;
    assert(-0x8000_0000_0000_0000_0000_0000 <= e.speed as i128 * dt as i128 <= 0x8000_0000_0000_0000_0000_0000) by (nonlinear_arith)
        requires
            -0x8000_0000_0000_0000 <= e.speed <= 0x8000_0000_0000_0000,
            0 <= dt <= 0x1_0000_0000;
    let s = div_trunc(e.speed as i128 * dt as i128, MICROS as i128);
    assert(-0x2000_0000_0000_0000_0000 <= s <= 0x2000_0000_0000_0000_0000) by (nonlinear_arith)
        requires
            s == trunc_div(e.speed as int * dt as int, MICROS as int),
            -0x8000_0000_0000_0000_0000_0000 <= e.speed as int * dt as int <= 0x8000_0000_0000_0000_0000_0000;
    let mx = scale_by(dx, s, n);
    let my = scale_by(dy, s, n);
    let pos = e.rect.pos.shift(mx, my);
    Enemy { rect: Rect { pos, ..e.rect }, ..e }
}

/// Moves every enemy toward `target` for `dt` microseconds.
pub fn advance_enemies(enemies: &mut Vec<Enemy>, target: Vec2, dt: u32)
    ensures
        final(enemies)@ == pursued_all(old(enemies)@, target, dt as int),
{
    let ghost es0 = enemies@;
    let mut i: usize = 0;
    while i < enemies.len()
        invariant
            enemies.len() == es0.len(),
            i <= es0.len(),
            forall|k: int| 0 <= k < i ==> #[trigger] enemies[k] == pursued(es0[k], target, dt as int),
            forall|k: int| i <= k < es0.len() ==> #[trigger] enemies[k] == es0[k],
        decreases es0.len() - i,
    {
        let e = pursue(enemies[i], target, dt);
        enemies.set(i, e);
        i = i + 1;
    }
    assert(enemies@ =~= pursued_all(es0, target, dt as int));
}

/// Moves every projectile by its own displacement for this tick, as the host
/// derived it from the projectile's heading, speed and the tick's duration.
pub fn advance_bullets(bullets: &mut Vec<Bullet>, deltas: &Vec<Vec2>)
    requires
        deltas.len() == old(bullets).len(),
    ensures
        final(bullets)@ == moved_all(old(bullets)@, deltas@),
{
    let ghost bs0 = bullets@;
    let mut i: usize = 0;
    while i < bullets.len()
        invariant
            bullets.len() == bs0.len(),
            deltas.len() == bs0.len(),
            i <= bs0.len(),
            forall|k: int| 0 <= k < i ==> #[trigger] bullets[k] == moved(bs0[k], deltas[k].x as int, deltas[k].y as int),
            forall|k: int| i <= k < bs0.len() ==> #[trigger] bullets[k] == bs0[k],
        decreases bs0.len() - i,
    {
        let b = bullets[i];
        let d = deltas[i];
        let pos = b.rect.pos.shift(d.x as i128, d.y as i128);
        bullets.set(i, Bullet { rect: Rect { pos, ..b.rect }, ..b });
        i = i + 1;
    }
    assert(bullets@ =~= moved_all(bs0, deltas@));
}

/// An enemy's hit flash after `dt` microseconds: it counts down to zero.
pub open spec fn faded(e: Enemy, dt: int) -> Enemy {
    Enemy { flash: if e.flash <= dt { 0 } else { (e.flash - dt) as i64 }, ..e }
}

/// Counts down every enemy's hit flash by `dt` microseconds, stopping at zero.
pub fn fade_flashes(enemies: &mut Vec<Enemy>, dt: u32)
    ensures
        final(enemies)@ == Seq::new(old(enemies)@.len(), |i: int| faded(old(enemies)@[i], dt as int)),
{
    let ghost es0 = enemies@;
    let mut i: usize = 0;
    while i < enemies.len()
        invariant
            enemies.len() == es0.len(),
            i <= es0.len(),
            forall|k: int| 0 <= k < i ==> #[trigger] enemies[k] == faded(es0[k], dt as int),
            forall|k: int| i <= k < es0.len() ==> #[trigger] enemies[k] == es0[k],
        decreases es0.len() - i,
    {
        let e = enemies[i];
        let flash: i64 = if e.flash <= dt as i64 { 0 } else { e.flash - dt as i64 };
        enemies.set(i, Enemy { flash, ..e });
        i = i + 1;
    }
    assert(enemies@ =~= Seq::new(es0.len(), |i: int| faded(es0[i], dt as int)));
}

proof fn lemma_trunc_div_mag(a: int, n: int)
    requires
        n >= 1,
    ensures
        (n * trunc_div(a, n)) * (n * trunc_div(a, n)) <= a * a,
{
    if a >= 0 {
        lemma_fundamental_div_mod(a, n);
        let t = a / n;
        assert(0 <= n * t <= a) by (nonlinear_arith)
            requires a == n * t + a % n, 0 <= a % n < n, a >= 0, n >= 1;
        assert((n * t) * (n * t) <= a * a) by (nonlinear_arith)
            requires 0 <= n * t <= a;
    } else {
        lemma_fundamental_div_mod(-a, n);
        let t = (-a) / n;
        assert(0 <= n * t <= -a) by (nonlinear_arith)
            requires -a == n * t + (-a) % n, 0 <= (-a) % n < n, -a >= 0, n >= 1;
        assert((n * (-t)) * (n * (-t)) <= a * a) by (nonlinear_arith)
            requires 0 <= n * t <= -a;
    }
}

proof fn lemma_clamp_shorter(x: i32, t: int)
    ensures
        (clamp32(x + t) - x) * (clamp32(x + t) - x) <= t * t,
{
    let c = clamp32(x + t) - x;
    assert(0 <= c <= t || t <= c <= 0);
    assert(c * c <= t * t) by (nonlinear_arith)
        requires 0 <= c <= t || t <= c <= 0;
}

/// In one tick an enemy moves no farther than its step length: its speed
/// times the tick's duration.
pub proof fn lemma_pursuit_step_bounded(e: Enemy, target: Vec2, dt: int)
    ensures
        dist2(pursued(e, target, dt).rect.pos, e.rect.pos) <= step_len(e.speed as int, dt) * step_len(e.speed as int, dt),
{
    let dx = target.x - e.rect.pos.x;
    let dy = target.y - e.rect.pos.y;
    if !(dx == 0 && dy == 0) {
        let s = step_len(e.speed as int, dt);
        let q = norm2(dx, dy);
        let n = root_up(q);
        let r = root(q);
        assert(q >= 1) by (nonlinear_arith)
            requires q == dx * dx + dy * dy, dx != 0 || dy != 0;
        let w = lemma_root_witness(q);
        assert(is_isqrt(q, w));
        assert(is_isqrt(q, r));
        assert(n * n >= q && n >= 1) by (nonlinear_arith)
            requires is_isqrt(q, r), n == if r * r == q { r } else { r + 1 }, q >= 1;
        let ox = scaled(dx, s, n);
        let oy = scaled(dy, s, n);
        lemma_trunc_div_mag(dx * s, n);
        lemma_trunc_div_mag(dy * s, n);
        assert((n * ox) * (n * ox) + (n * oy) * (n * oy) == (n * n) * (ox * ox + oy * oy)) by (nonlinear_arith);
        assert((dx * s) * (dx * s) + (dy * s) * (dy * s) == (s * s) * q) by (nonlinear_arith)
            requires q == dx * dx + dy * dy;
        assert((s * s) * q <= (s * s) * (n * n)) by (nonlinear_arith)
            requires q <= n * n;
        assert(ox * ox + oy * oy <= s * s) by (nonlinear_arith)
            requires (n * n) * (ox * ox + oy * oy) <= (s * s) * (n * n), n >= 1;
        lemma_clamp_shorter(e.rect.pos.x, ox);
        lemma_clamp_shorter(e.rect.pos.y, oy);
        let p = pursued(e, target, dt).rect.pos;
        assert(p == shifted(e.rect.pos, ox, oy));
        assert(p.x == clamp32(e.rect.pos.x + ox) && p.y == clamp32(e.rect.pos.y + oy));
        assert(dist2(p, e.rect.pos) == (p.x - e.rect.pos.x) * (p.x - e.rect.pos.x) + (p.y - e.rect.pos.y) * (p.y - e.rect.pos.y));
    } else {
        let s = step_len(e.speed as int, dt);
        assert(s * s >= 0) by (nonlinear_arith);
        assert(dist2(e.rect.pos, e.rect.pos) == 0);
    }
}

/// Every non-negative integer has an integer square root.
proof fn lemma_root_witness(q: int) -> (k: int)
    requires
        q >= 0,
    ensures
        is_isqrt(q, k),
    decreases q,
{
    if q == 0 {
        assert(is_isqrt(0, 0)) by (nonlinear_arith);
        0
    } else {
        let k = lemma_root_witness(q - 1);
        assert(k * k <= q - 1 && q - 1 < (k + 1) * (k + 1) && k >= 0);
        if (k + 1) * (k + 1) == q {
            assert((k + 2) * (k + 2) > q) by (nonlinear_arith)
                requires (k + 1) * (k + 1) == q, k >= 0;
            k + 1
        } else {
            k
        }
    }
}

} // verus!
