use vstd::prelude::*;
use crate::entities::{Bullet, Enemy};
use crate::geometry::{dist2, rect_contains, Vec2};

verus! {

/// Health taken from an enemy by one projectile.
pub const HIT_DAMAGE: i64 = 1000;

/// Hit-flash time set on a struck enemy, in microseconds.
pub const HIT_FLASH: i64 = 100_000;

/// Farthest a projectile may be from the player and stay alive, in milli-units.
pub const MAX_RANGE: i64 = 2_000_000;

/// Health after one hit, saturating at the floor of `i64`.
pub open spec fn damaged(hp: i64) -> i64 {
    if hp >= i64::MIN + HIT_DAMAGE {
        (hp - HIT_DAMAGE) as i64
    } else {
        i64::MIN
    }
}

/// An enemy after being struck by one projectile.
pub open spec fn struck(e: Enemy) -> Enemy {
    Enemy { hp: damaged(e.hp), flash: HIT_FLASH, ..e }
}

/// Index of the first enemy at or after `i` whose rectangle contains `p`,
/// or the length of `es` when there is none.
pub open spec fn first_hit_from(es: Seq<Enemy>, p: Vec2, i: int) -> int
    decreases es.len() - i,
{
    if i >= es.len() {
        es.len() as int
    } else if rect_contains(es[i].rect, p) {
        i
    } else {
        first_hit_from(es, p, i + 1)
    }
}

pub open spec fn first_hit(es: Seq<Enemy>, p: Vec2) -> int {
    first_hit_from(es, p, 0)
}

/// Whether a projectile at `p` is beyond the maximum range from `player`.
pub open spec fn out_of_range(p: Vec2, player: Vec2) -> bool {
    dist2(p, player) > MAX_RANGE * MAX_RANGE
}

/// One projectile against the enemies: it strikes the first enemy that
/// contains it and is consumed, else it is dropped when out of range, else kept.
pub open spec fn shot(kept: Seq<Bullet>, es: Seq<Enemy>, b: Bullet, player: Vec2) -> (Seq<Bullet>, Seq<Enemy>) {
    let j = first_hit(es, b.rect.pos);
    if j < es.len() {
        (kept, es.update(j, struck(es[j])))
    } else if out_of_range(b.rect.pos, player) {
        (kept, es)
    } else {
        (kept.push(b), es)
    }
}

/// All projectiles in order against the enemies: the projectiles kept and the
/// enemies as they stand after the hits.
pub open spec fn volley(bs: Seq<Bullet>, es: Seq<Enemy>, player: Vec2) -> (Seq<Bullet>, Seq<Enemy>)
    decreases bs.len(),
{
    if bs.len() == 0 {
        (Seq::empty(), es)
    } else {
        let prev = volley(bs.drop_last(), es, player);
        shot(prev.0, prev.1, bs.last(), player)
    }
}

/// The enemies with positive health, in order.
pub open spec fn survivors(es: Seq<Enemy>) -> Seq<Enemy>
    decreases es.len(),
{
    if es.len() == 0 {
        Seq::empty()
    } else if es.last().hp > 0 {
        survivors(es.drop_last()).push(es.last())
    } else {
        survivors(es.drop_last())
    }
}

/// How many enemies have no health left.
pub open spec fn dead_count(es: Seq<Enemy>) -> nat
    decreases es.len(),
{
    if es.len() == 0 {
        0
    } else if es.last().hp > 0 {
        dead_count(es.drop_last())
    } else {
        dead_count(es.drop_last()) + 1
    }
}

/// Index of the first enemy whose rectangle contains `p`, or `es.len()`.
pub fn first_hit_index(es: &Vec<Enemy>, p: Vec2) -> (r: usize)
    ensures
        r as int == first_hit(es@, p),
{
    let mut j: usize = 0;
    while j < es.len()
        invariant
            j <= es.len(),
            first_hit_from(es@, p, j as int) == first_hit(es@, p),
        decreases es.len() - j,
    {
        if es[j].rect.contains(p) {
            return j;
        }
        j = j + 1;
    }
    j
}

fn strike(e: Enemy) -> (r: Enemy)
    ensures
        r == struck(e),
{
    let hp: i64 = if e.hp >= i64::MIN + HIT_DAMAGE {
        e.hp - HIT_DAMAGE
    } else {
        i64::MIN
    };
    Enemy { hp, flash: HIT_FLASH, ..e }
}

/// Resolves projectile hits for one tick. Each projectile strikes the first
/// enemy whose rectangle contains its position, taking one hit point and
/// setting the flash timer, and is consumed; a projectile that hits nothing is
/// dropped when farther than the maximum range from `player`. Enemies left with
/// no health are then removed, and their number is returned.
pub fn resolve(bullets: &mut Vec<Bullet>, enemies: &mut Vec<Enemy>, player: Vec2) -> (kills: usize)
    ensures
        final(bullets)@ == volley(old(bullets)@, old(enemies)@, player).0,
        final(enemies)@ == survivors(volley(old(bullets)@, old(enemies)@, player).1),
        kills == dead_count(volley(old(bullets)@, old(enemies)@, player).1),
{
    let ghost bs0 = bullets@;
    let ghost es0 = enemies@;
    let mut kept: Vec<Bullet> = Vec::new();
    let mut i: usize = 0;
    while i < bullets.len()
        invariant
            bullets@ == bs0,
            0 <= i <= bs0.len(),
            (kept@, enemies@) == volley(bs0.take(i as int), es0, player),
        decreases bs0.len() - i,
    {
        let b = bullets[i];
        assert(bs0.take(i + 1).drop_last() == bs0.take(i as int));
        assert(bs0.take(i + 1).last() == b);
        let j = first_hit_index(enemies, b.rect.pos);
        if j < enemies.len() {
            let e = strike(enemies[j]);
            enemies.set(j, e);
        } else if b.rect.pos.dist2_to(player) <= (MAX_RANGE * MAX_RANGE) as u128 {
            kept.push(b);
        }
        i = i + 1;
    }
    assert(bs0.take(bs0.len() as int) == bs0);
    *bullets = kept;
    let ghost hit = enemies@;
    let mut alive: Vec<Enemy> = Vec::new();
    let mut kills: usize = 0;
    let mut k: usize = 0;
    while k < enemies.len()
        invariant
            enemies@ == hit,
            0 <= k <= hit.len(),
            alive@ == survivors(hit.take(k as int)),
            kills == dead_count(hit.take(k as int)),
            kills <= k,
        decreases hit.len() - k,
    {
        assert(hit.take(k + 1).drop_last() == hit.take(k as int));
        assert(hit.take(k + 1).last() == hit[k as int]);
        if enemies[k].hp > 0 {
            alive.push(enemies[k]);
        } else {
            kills = kills + 1;
        }
        k = k + 1;
    }
    assert(hit.take(hit.len() as int) == hit);
    *enemies = alive;
    kills
}

proof fn lemma_first_hit_none(es: Seq<Enemy>, p: Vec2, i: int)
    requires
        0 <= i <= es.len(),
        forall|j: int| i <= j < es.len() ==> !rect_contains(#[trigger] es[j].rect, p),
    ensures
        first_hit_from(es, p, i) == es.len(),
    decreases es.len() - i,
{
    if i < es.len() {
        lemma_first_hit_none(es, p, i + 1);
    }
}

proof fn lemma_first_hit_bounds(es: Seq<Enemy>, p: Vec2, i: int)
    requires
        0 <= i <= es.len(),
    ensures
        i <= first_hit_from(es, p, i) <= es.len(),
    decreases es.len() - i,
{
    if i < es.len() {
        lemma_first_hit_bounds(es, p, i + 1);
    }
}

proof fn lemma_volley_len(bs: Seq<Bullet>, es: Seq<Enemy>, player: Vec2)
    ensures
        volley(bs, es, player).1.len() == es.len(),
    decreases bs.len(),
{
    if bs.len() > 0 {
        let prev = volley(bs.drop_last(), es, player);
        lemma_volley_len(bs.drop_last(), es, player);
        lemma_first_hit_bounds(prev.1, bs.last().rect.pos, 0);
    }
}

proof fn lemma_survivors_count(es: Seq<Enemy>)
    ensures
        survivors(es).len() + dead_count(es) == es.len(),
        forall|k: int| 0 <= k < survivors(es).len() ==> #[trigger] survivors(es)[k].hp > 0,
    decreases es.len(),
{
    if es.len() > 0 {
        lemma_survivors_count(es.drop_last());
        let s = survivors(es.drop_last());
        if es.last().hp > 0 {
            assert forall|k: int| 0 <= k < survivors(es).len() implies #[trigger] survivors(es)[k].hp > 0 by {
                if k < s.len() {
                    assert(survivors(es)[k] == s[k]);
                }
            }
        }
    }
}

/// No projectile that `resolve` keeps lies beyond the maximum range from the player.
pub proof fn lemma_kept_in_range(bs: Seq<Bullet>, es: Seq<Enemy>, player: Vec2)
    ensures
        forall|k: int| 0 <= k < volley(bs, es, player).0.len()
            ==> !out_of_range(#[trigger] volley(bs, es, player).0[k].rect.pos, player),
    decreases bs.len(),
{
    if bs.len() > 0 {
        lemma_kept_in_range(bs.drop_last(), es, player);
        let prev = volley(bs.drop_last(), es, player);
        let now = volley(bs, es, player);
        assert forall|k: int| 0 <= k < now.0.len() implies !out_of_range(#[trigger] now.0[k].rect.pos, player) by {
            if k < prev.0.len() {
                assert(now.0[k] == prev.0[k]);
            }
        }
    }
}

/// After `resolve` every enemy left has positive health, and the kill count is
/// the number of enemies that were removed.
pub proof fn lemma_resolve_kills(bs: Seq<Bullet>, es: Seq<Enemy>, player: Vec2)
    ensures
        forall|k: int| 0 <= k < survivors(volley(bs, es, player).1).len()
            ==> #[trigger] survivors(volley(bs, es, player).1)[k].hp > 0,
        dead_count(volley(bs, es, player).1) == es.len() - survivors(volley(bs, es, player).1).len(),
{
    lemma_volley_len(bs, es, player);
    lemma_survivors_count(volley(bs, es, player).1);
}

/// With no projectile inside any enemy, every projectile in range and every
/// enemy alive, `resolve` changes nothing and reports no kill.
pub proof fn lemma_quiet_resolve(bs: Seq<Bullet>, es: Seq<Enemy>, player: Vec2)
    requires
        forall|i: int, j: int| 0 <= i < bs.len() && 0 <= j < es.len()
            ==> !rect_contains(#[trigger] es[j].rect, #[trigger] bs[i].rect.pos),
        forall|i: int| 0 <= i < bs.len() ==> !out_of_range(#[trigger] bs[i].rect.pos, player),
        forall|j: int| 0 <= j < es.len() ==> #[trigger] es[j].hp > 0,
    ensures
        volley(bs, es, player) == (bs, es),
        survivors(es) == es,
        dead_count(es) == 0,
    decreases bs.len() + es.len(),
{
    if bs.len() > 0 {
        let b = bs.last();
        lemma_quiet_resolve(bs.drop_last(), es, player);
        assert forall|j: int| 0 <= j < es.len() implies !rect_contains(#[trigger] es[j].rect, b.rect.pos) by {
            assert(bs[bs.len() - 1] == b);
        }
        lemma_first_hit_none(es, b.rect.pos, 0);
        assert(bs.drop_last().push(b) == bs);
    } else if es.len() > 0 {
        lemma_quiet_resolve(bs, es.drop_last(), player);
        assert(es.drop_last().push(es.last()) == es);
    }
}

} // verus!
