use shooter_core::collision::resolve;
use shooter_core::entities::{Bullet, Enemy, BULLET_H, BULLET_W};
use shooter_core::geometry::{Rect, Vec2};
use shooter_core::motion::{advance_bullets, advance_enemies, fade_flashes, pursue};
use shooter_core::projectiles::{offset_of, spawn_bullets, BULLET_SPEED};

fn bullet_at(x: i32, y: i32) -> Bullet {
    Bullet { rect: Rect { pos: Vec2 { x, y }, w: BULLET_W, h: BULLET_H }, heading: 0, speed: BULLET_SPEED }
}

fn enemy_at(x: i32, y: i32, w: i32, hp: i64) -> Enemy {
    Enemy { rect: Rect { pos: Vec2 { x, y }, w, h: w }, speed: 0, hp, flash: 0 }
}

#[test]
fn three_bullet_fan() {
    let bs = spawn_bullets(Vec2::new(0, 0), 0, 3);
    assert_eq!(bs.len(), 3);
    let headings: Vec<i64> = bs.iter().map(|b| b.heading).collect();
    assert_eq!(headings, vec![-300_000, 0, 300_000]);
    for b in &bs {
        assert_eq!(b.speed, 500_000);
        let a = b.heading as f64 / 1e6;
        let (vx, vy) = (a.cos() * 500.0, a.sin() * 500.0);
        assert!(((vx * vx + vy * vy).sqrt() - 500.0).abs() < 1e-9);
        assert_eq!(b.rect, Rect { pos: Vec2 { x: -2_500, y: -5_000 }, w: 5_000, h: 10_000 });
    }
}

#[test]
fn two_bullet_fan_is_half_step() {
    let bs = spawn_bullets(Vec2::new(1_000, 1_000), 100, 2);
    let headings: Vec<i64> = bs.iter().map(|b| b.heading).collect();
    assert_eq!(headings, vec![100 - 150_000, 100 + 150_000]);
}

#[test]
fn single_bullet_follows_aim() {
    let bs = spawn_bullets(Vec2::new(0, 0), 1_234_567, 1);
    assert_eq!(bs.len(), 1);
    assert_eq!(bs[0].heading, 1_234_567);
}

#[test]
fn fan_offsets_are_symmetric() {
    for count in 1usize..=20 {
        let bs = spawn_bullets(Vec2::new(0, 0), 0, count);
        assert_eq!(bs.len(), count);
        let sum: i64 = bs.iter().map(|b| b.heading).sum();
        assert_eq!(sum, 0);
        for i in 0..count {
            assert_eq!(bs[i].heading, -bs[count - 1 - i].heading);
        }
    }
    assert_eq!(offset_of(0, 4), -300_000);
    assert_eq!(offset_of(1, 4), -100_000);
    assert_eq!(offset_of(2, 5), 0);
}

#[test]
fn no_bullets_for_zero_count() {
    assert!(spawn_bullets(Vec2::new(0, 0), 0, 0).is_empty());
}

#[test]
fn hit_takes_one_health_and_consumes_bullet() {
    let mut bullets = vec![bullet_at(10_000, 10_000)];
    let mut enemies = vec![enemy_at(0, 0, 20_000, 3_000)];
    let kills = resolve(&mut bullets, &mut enemies, Vec2::new(0, 0));
    assert_eq!(kills, 0);
    assert!(bullets.is_empty());
    assert_eq!(enemies.len(), 1);
    assert_eq!(enemies[0].hp, 2_000);
    assert_eq!(enemies[0].flash, 100_000);
}

#[test]
fn lethal_hit_removes_enemy() {
    let mut bullets = vec![bullet_at(10_000, 10_000), bullet_at(500_000, 0)];
    let mut enemies = vec![enemy_at(0, 0, 20_000, 1_000), enemy_at(100_000, 100_000, 64_000, 1_000)];
    let kills = resolve(&mut bullets, &mut enemies, Vec2::new(0, 0));
    assert_eq!(kills, 1);
    assert_eq!(bullets.len(), 1);
    assert_eq!(enemies.len(), 1);
    assert_eq!(enemies[0].rect.pos, Vec2::new(100_000, 100_000));
}

#[test]
fn two_hits_in_one_tick() {
    let mut bullets = vec![bullet_at(1_000, 1_000), bullet_at(2_000, 2_000)];
    let mut enemies = vec![enemy_at(0, 0, 20_000, 1_500)];
    let kills = resolve(&mut bullets, &mut enemies, Vec2::new(0, 0));
    assert_eq!(kills, 1);
    assert!(bullets.is_empty());
    assert!(enemies.is_empty());
}

#[test]
fn first_enemy_is_credited_on_overlap() {
    let mut bullets = vec![bullet_at(5_000, 5_000)];
    let mut enemies = vec![enemy_at(0, 0, 20_000, 5_000), enemy_at(1_000, 1_000, 20_000, 5_000)];
    resolve(&mut bullets, &mut enemies, Vec2::new(0, 0));
    assert_eq!(enemies[0].hp, 4_000);
    assert_eq!(enemies[1].hp, 5_000);
}

#[test]
fn rectangle_is_half_open() {
    let r = Rect::new(Vec2::new(0, 0), 20_000, 20_000);
    assert!(r.contains(Vec2::new(0, 0)));
    assert!(r.contains(Vec2::new(19_999, 19_999)));
    assert!(!r.contains(Vec2::new(20_000, 10_000)));
    assert!(!r.contains(Vec2::new(10_000, 20_000)));
    assert!(!r.contains(Vec2::new(-1, 0)));
}

#[test]
fn far_bullets_are_dropped() {
    let mut bullets = vec![bullet_at(2_000_000, 0), bullet_at(2_000_001, 0), bullet_at(1_200_000, 1_600_001)];
    let mut enemies: Vec<Enemy> = Vec::new();
    let kills = resolve(&mut bullets, &mut enemies, Vec2::new(0, 0));
    assert_eq!(kills, 0);
    assert_eq!(bullets.len(), 1);
    assert_eq!(bullets[0].rect.pos, Vec2::new(2_000_000, 0));
}

#[test]
fn quiet_resolve_changes_nothing() {
    let b0 = vec![bullet_at(500_000, 0), bullet_at(-300_000, 40_000)];
    let e0 = vec![enemy_at(0, 0, 64_000, 1_000), enemy_at(900_000, 900_000, 64_000, 2_500)];
    let mut bullets = b0.clone();
    let mut enemies = e0.clone();
    let kills = resolve(&mut bullets, &mut enemies, Vec2::new(0, 0));
    assert_eq!(kills, 0);
    assert_eq!(bullets, b0);
    assert_eq!(enemies, e0);
}

#[test]
fn resolve_on_empty_sets() {
    let mut bullets: Vec<Bullet> = Vec::new();
    let mut enemies: Vec<Enemy> = Vec::new();
    assert_eq!(resolve(&mut bullets, &mut enemies, Vec2::new(0, 0)), 0);
}

#[test]
fn enemy_walks_toward_player() {
    let e = Enemy { speed: 5_000, ..enemy_at(0, 0, 64_000, 1_000) };
    let moved = pursue(e, Vec2::new(3_000, 4_000), 1_000_000);
    assert_eq!(moved.rect.pos, Vec2::new(3_000, 4_000));
    let half = pursue(e, Vec2::new(-30_000, 40_000), 500_000);
    assert_eq!(half.rect.pos, Vec2::new(-1_500, 2_000));
    assert_eq!(half.hp, 1_000);
}

#[test]
fn enemy_on_player_stays_put() {
    let e = Enemy { speed: 80_000, ..enemy_at(7_000, -9_000, 64_000, 1_000) };
    assert_eq!(pursue(e, Vec2::new(7_000, -9_000), 16_000), e);
}

#[test]
fn advancing_moves_every_entity() {
    let mut enemies = vec![Enemy { speed: 10_000, ..enemy_at(10_000, 0, 64_000, 1_000) }];
    advance_enemies(&mut enemies, Vec2::new(0, 0), 100_000);
    assert_eq!(enemies[0].rect.pos, Vec2::new(9_000, 0));
    let mut bullets = vec![bullet_at(0, 0), bullet_at(5, 5)];
    advance_bullets(&mut bullets, &vec![Vec2::new(8_000, 0), Vec2::new(-1, 2)]);
    assert_eq!(bullets[0].rect.pos, Vec2::new(8_000, 0));
    assert_eq!(bullets[1].rect.pos, Vec2::new(4, 7));
}

#[test]
fn movement_saturates_at_coordinate_bounds() {
    let mut bullets = vec![bullet_at(i32::MAX - 10, 0)];
    advance_bullets(&mut bullets, &vec![Vec2::new(100, 0)]);
    assert_eq!(bullets[0].rect.pos.x, i32::MAX);
}

#[test]
fn flashes_count_down_to_zero() {
    let mut enemies = vec![Enemy { flash: 100_000, ..enemy_at(0, 0, 64_000, 1_000) }, enemy_at(5, 5, 64_000, 1_000)];
    fade_flashes(&mut enemies, 30_000);
    assert_eq!(enemies[0].flash, 70_000);
    assert_eq!(enemies[1].flash, 0);
    fade_flashes(&mut enemies, 80_000);
    assert_eq!(enemies[0].flash, 0);
    assert_eq!(enemies[0].hp, 1_000);
}

#[test]
fn step_never_exceeds_speed_times_dt() {
    // At (1, 1) milli-units the root of 2 rounds up to 2, so each axis moves 500.
    let e = Enemy { speed: 1_000, ..enemy_at(0, 0, 64_000, 1_000) };
    let moved = pursue(e, Vec2::new(1, 1), 1_000_000);
    assert_eq!(moved.rect.pos, Vec2::new(500, 500));
    let far = pursue(e, Vec2::new(7, -3), 1_000_000);
    let (x, y) = (far.rect.pos.x as i64, far.rect.pos.y as i64);
    assert!(x * x + y * y <= 1_000 * 1_000);
}
