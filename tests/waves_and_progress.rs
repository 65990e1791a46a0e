use shooter_core::game::Game;
use shooter_core::geometry::{isqrt, Vec2};
use shooter_core::progression::{WavePlan, WaveState};
use shooter_core::waves::{place_enemy, ring_offset, spawn_wave};

fn dist2(a: Vec2, b: Vec2) -> i64 {
    let dx = a.x as i64 - b.x as i64;
    let dy = a.y as i64 - b.y as i64;
    dx * dx + dy * dy
}

#[test]
fn wave_lands_in_ring() {
    let origin = Vec2::new(12_345, -6_789);
    let es = spawn_wave(origin, 200, (50_000, 125_000), 1_000);
    assert_eq!(es.len(), 200);
    for e in &es {
        let d = dist2(e.rect.pos, origin);
        assert!(d >= 300_000 * 300_000 && d < 800_000 * 800_000);
        assert!(e.speed >= 50_000 && e.speed < 125_000);
        assert_eq!(e.hp, 1_000);
        assert_eq!(e.flash, 0);
    }
}

#[test]
fn wave_draws_differ() {
    let es = spawn_wave(Vec2::new(0, 0), 64, (50_000, 125_000), 1_000);
    let first = es[0];
    assert!(es.iter().any(|e| e.rect.pos != first.rect.pos));
    assert!(es.iter().any(|e| e.speed != 50_000));
    assert!(es.iter().any(|e| dist2(e.rect.pos, Vec2::new(0, 0)) > 301_000 * 301_000));
}

#[test]
fn empty_wave() {
    assert!(spawn_wave(Vec2::new(0, 0), 0, (1, 2), 5).is_empty());
}

#[test]
fn equal_speed_bounds() {
    let es = spawn_wave(Vec2::new(0, 0), 10, (70_000, 70_000), 2_000);
    assert!(es.iter().all(|e| e.speed == 70_000 && e.hp == 2_000));
}

#[test]
fn ring_offsets_exact() {
    assert_eq!(ring_offset(1_000, 0, 300_000), (300_000, 0));
    assert_eq!(ring_offset(600, 800, 500_000), (300_000, 400_000));
    assert_eq!(ring_offset(-600, -800, 500_000), (-300_000, -400_000));
    assert_eq!(ring_offset(0, -500, 799_999), (0, -799_999));
}

#[test]
fn far_draw_is_shortened_along_its_direction() {
    // 707 * 799_999 / 999 rounds to a point just outside the ring; dividing by
    // 1000 instead keeps the 45 degree direction.
    assert_eq!(ring_offset(707, 707, 799_999), (565_599, 565_599));
    let e = place_enemy(Vec2::new(0, 0), 707, 707, 799_999, 60_000, 1_000);
    assert_eq!(e.rect.pos, Vec2::new(565_599, 565_599));
}

#[test]
fn near_draw_is_lengthened_along_its_direction() {
    // Rounding toward zero leaves (152_736, -258_208), inside the ring's hole.
    assert_eq!(ring_offset(307, -519, 300_000), (152_737, -258_209));
    let (x, y) = ring_offset(307, -519, 300_000);
    assert!(x * x + y * y >= 300_000 * 300_000);
}

#[test]
fn placed_enemies_follow_their_direction() {
    for &(ux, uy) in &[(707i64, 707i64), (-500, 0), (0, 999), (-600, -800), (314, 417), (1000, -3)] {
        for &d in &[300_000i64, 412_345, 549_999, 550_000, 799_999] {
            let (x, y) = ring_offset(ux, uy, d);
            let len2 = x * x + y * y;
            assert!(len2 >= 300_000 * 300_000 && len2 < 800_000 * 800_000);
            assert!((x * uy - y * ux).abs() <= ux.abs() + uy.abs());
            assert!(x * ux + y * uy > 0);
        }
    }
}

#[test]
fn place_enemy_keeps_drawn_values() {
    let e = place_enemy(Vec2::new(1_000, 2_000), 600, 800, 500_000, 60_000, 1_100);
    assert_eq!(e.rect.pos, Vec2::new(301_000, 402_000));
    assert_eq!((e.speed, e.hp, e.flash), (60_000, 1_100, 0));
}

#[test]
fn integer_roots() {
    assert_eq!(isqrt(0), 0);
    assert_eq!(isqrt(1), 1);
    assert_eq!(isqrt(24), 4);
    assert_eq!(isqrt(25), 5);
    assert_eq!(isqrt(1_000_000), 1_000);
    assert_eq!(isqrt(999_999), 999);
}

fn at_wave(wave: u32) -> WaveState {
    WaveState { wave, ..WaveState::new() }
}

#[test]
fn third_wave_escalates() {
    let mut s = at_wave(2);
    let plan = s.advance();
    assert_eq!(s.wave, 3);
    assert_eq!(s.health, 1_100);
    assert_eq!(s.spread, 2);
    assert_eq!(s.fire_rate, 21);
    assert_eq!(plan, WavePlan { count: 15, speed_lo: 59_000, speed_hi: 134_000, health: 1_100 });
}

#[test]
fn fourth_wave_does_not_escalate() {
    let mut s = WaveState { wave: 3, health: 1_100, spread: 2, ..WaveState::new() };
    let plan = s.advance();
    assert_eq!(s.wave, 4);
    assert_eq!(s.health, 1_100);
    assert_eq!(s.spread, 2);
    assert_eq!(plan.count, 18);
}

#[test]
fn spread_is_capped() {
    let mut s = WaveState { wave: 5, spread: 20, ..WaveState::new() };
    s.advance();
    assert_eq!(s.spread, 20);
    assert_eq!(s.health, 1_100);
}

#[test]
fn cooldown_gates_fire() {
    let mut s = WaveState::new();
    assert!(s.tick_fire(16_000, true));
    assert_eq!(s.fire_cd, 500_000);
    assert!(!s.tick_fire(400_000, true));
    assert_eq!(s.fire_cd, 100_000);
    assert!(!s.tick_fire(200_000, false));
    assert_eq!(s.fire_cd, 0);
    assert!(s.tick_fire(0, true));
}

#[test]
fn new_game_starts_first_wave() {
    let g = Game::new();
    assert_eq!(g.enemies.len(), 5);
    assert!(g.bullets.is_empty());
    assert_eq!(g.waves.wave, 1);
    assert_eq!(g.waves.spread, 1);
}

#[test]
fn tick_fires_and_clears_wave() {
    let mut g = Game::new();
    g.enemies.clear();
    let r = g.tick(16_000, Vec2::new(0, 0), &Vec::new(), Some(0));
    assert!(r.fired);
    assert!(r.cleared);
    assert_eq!(r.kills, 0);
    assert_eq!(g.bullets.len(), 1);
    assert_eq!(g.waves.wave, 2);
    assert_eq!(g.enemies.len(), 12);
    let again = g.tick(16_000, Vec2::new(0, 0), &vec![Vec2::new(8_000, 0)], Some(0));
    assert!(!again.fired);
    assert_eq!(g.bullets[0].rect.pos, Vec2::new(32_000 - 2_500 + 8_000, 32_000 - 5_000));
}
