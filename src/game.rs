use vstd::prelude::*;
use crate::collision::{dead_count, lemma_kept_in_range, lemma_resolve_kills, out_of_range, resolve, survivors, volley};
use crate::entities::{Bullet, Enemy, Soldier, BODY_SIZE};
use crate::geometry::{shifted, Rect, Vec2};
use crate::motion::{advance_bullets, advance_enemies, moved_all, pursued_all};
use crate::progression::{advanced, cooled, plan_for, WaveState};
use crate::projectiles::{fan, spawn_bullets, HALF_TURN};
use crate::waves::{in_ring, ring_fits, spawn_wave};

verus! {

/// Number of enemies in the first wave.
pub const FIRST_WAVE: u64 = 5;

/// Speeds of the first wave, in milli-units per second.
pub const FIRST_SPEED_LO: i64 = 50_000;
pub const FIRST_SPEED_HI: i64 = 125_000;

/// The whole simulation: the player, the live enemies and projectiles, and
/// the wave progression.
pub struct Game {
    pub player: Soldier,
    pub enemies: Vec<Enemy>,
    pub bullets: Vec<Bullet>,
    pub waves: WaveState,
}

/// What happened in one tick.
#[derive(Clone, Copy, Debug, PartialEq, Eq, Structural)]
pub struct TickReport {
    pub kills: usize,
    pub fired: bool,
    pub cleared: bool,
}

/// Centre of the player's square when its corner stands at `p`.
pub open spec fn center_of(p: Vec2) -> Vec2 {
    shifted(p, (BODY_SIZE / 2) as int, (BODY_SIZE / 2) as int)
}

/// `a + b`, saturating at the top of `u64`.
pub open spec fn sat_add(a: int, b: int) -> u64 {
    if a + b > u64::MAX {
        u64::MAX
    } else {
        (a + b) as u64
    }
}

/// The projectiles fired in a tick: a fan around the aim when a shot was fired.
pub open spec fn shot_of(origin: Vec2, aim: Option<i64>, fired: bool, spread: int) -> Seq<Bullet> {
    match aim {
        Some(h) if fired => fan(origin, h, spread),
        _ => Seq::empty(),
    }
}

impl Game {
    /// Every enemy in play has health left and the progression state is valid.
    pub open spec fn wf(&self) -> bool {
        &&& self.waves.wf()
        &&& forall|i: int| 0 <= i < self.enemies.len() ==> #[trigger] self.enemies[i].hp > 0
    }

    /// A new game: the player at the world origin, no projectiles, and a first
    /// wave of `FIRST_WAVE` enemies of full health around the player.
    pub fn new() -> (r: Game)
        ensures
            r.wf(),
            r.player == Soldier::spawned(Vec2 { x: 0, y: 0 }),
            r.bullets.len() == 0,
            r.waves == WaveState::first(),
            r.enemies.len() == FIRST_WAVE,
            forall|i: int| 0 <= i < r.enemies.len() ==> in_ring(Vec2 { x: 0, y: 0 }, #[trigger] r.enemies[i].rect.pos),
    {
        let origin = Vec2 { x: 0, y: 0 };
        let waves = WaveState::new();
        let enemies = spawn_wave(origin, FIRST_WAVE, (FIRST_SPEED_LO, FIRST_SPEED_HI), waves.health);
        Game { player: Soldier::new(origin), enemies, bullets: Vec::new(), waves }
    }

    /// Advances the simulation by `dt` microseconds. The player stands at
    /// `player_pos`; `deltas` holds each live projectile's displacement for the
    /// tick; `aim` holds the aim heading while the trigger is held. In order:
    /// enemies pursue the player and projectiles move; a shot is fired when the
    /// cooldown allows; hits are resolved and the kills counted; and when no
    /// enemy is left the next wave begins around the player.
    pub fn tick(&mut self, dt: u32, player_pos: Vec2, deltas: &Vec<Vec2>, aim: Option<i64>) -> (r: TickReport)
        requires
            old(self).wf(),
            deltas.len() == old(self).bullets.len(),
            ring_fits(player_pos),
            old(self).waves.can_advance(),
            aim matches Some(h) ==> -HALF_TURN <= h <= HALF_TURN,
        ensures
            final(self).wf(),
            final(self).player == (Soldier { rect: Rect { pos: player_pos, ..old(self).player.rect }, ..old(self).player }),
            r.fired == (aim is Some && old(self).waves.fire_cd <= dt),
            ({
                let all = moved_all(old(self).bullets@, deltas@) + shot_of(center_of(player_pos), aim, r.fired, old(self).waves.spread as int);
                let hit = volley(all, pursued_all(old(self).enemies@, player_pos, dt as int), player_pos);
                let w1 = WaveState {
                    fire_cd: cooled(old(self).waves.fire_cd as int, dt as int, r.fired, old(self).waves.fire_rate as int) as i64,
                    kills: sat_add(old(self).waves.kills as int, r.kills as int),
                    ..old(self).waves
                };
                &&& final(self).bullets@ == hit.0
                &&& r.kills == dead_count(hit.1)
                &&& r.cleared == (survivors(hit.1).len() == 0)
                &&& !r.cleared ==> final(self).enemies@ == survivors(hit.1) && final(self).waves == w1
                &&& r.cleared ==> final(self).waves == advanced(w1)
                    && final(self).enemies.len() == plan_for(final(self).waves.wave as int, final(self).waves.health).count
            }),
            forall|k: int| 0 <= k < final(self).bullets.len() ==> !out_of_range(#[trigger] final(self).bullets[k].rect.pos, player_pos),
            r.cleared ==> forall|i: int| 0 <= i < final(self).enemies.len() ==> in_ring(player_pos, #[trigger] final(self).enemies[i].rect.pos),
            r.cleared ==> forall|i: int| 0 <= i < final(self).enemies.len()
                ==> #[trigger] final(self).enemies[i].hp == final(self).waves.health && final(self).enemies[i].flash == 0,
            r.cleared ==> forall|i: int| 0 <= i < final(self).enemies.len()
                ==> plan_for(final(self).waves.wave as int, final(self).waves.health).speed_lo <= #[trigger] final(self).enemies[i].speed
                    && final(self).enemies[i].speed < plan_for(final(self).waves.wave as int, final(self).waves.health).speed_hi,
    {
        self.player.rect.pos = player_pos;
        advance_enemies(&mut self.enemies, player_pos, dt);
        advance_bullets(&mut self.bullets, deltas);
        let ghost moved_b = self.bullets@;
        let ghost moved_e = self.enemies@;
        let fired = self.waves.tick_fire(dt, aim.is_some());
        let center = player_pos.shift((BODY_SIZE / 2) as i128, (BODY_SIZE / 2) as i128);
        if fired {
            match aim {
                Some(h) => {
                    let mut shot = spawn_bullets(center, h, self.waves.spread as usize);
                    self.bullets.append(&mut shot);
                },
                None => {},
            }
        }
        assert(self.bullets@ == moved_b + shot_of(center_of(player_pos), aim, fired, old(self).waves.spread as int));
        let ghost all_b = self.bullets@;
        let kills = resolve(&mut self.bullets, &mut self.enemies, player_pos);
        proof {
            lemma_kept_in_range(all_b, moved_e, player_pos);
            lemma_resolve_kills(all_b, moved_e, player_pos);
        }
        self.waves.kills = if self.waves.kills as u128 + kills as u128 > u64::MAX as u128 {
            u64::MAX
        } else {
            self.waves.kills + kills as u64
        };
        let cleared = self.enemies.len() == 0;
        if cleared {
            let plan = self.waves.advance();
            assert(plan.speed_lo < plan.speed_hi);
            self.enemies = spawn_wave(player_pos, plan.count, (plan.speed_lo, plan.speed_hi), plan.health);
        }
        TickReport { kills, fired, cleared }
    }
}

} // verus!
