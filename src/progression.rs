use vstd::prelude::*;

verus! {

/// Largest number of projectiles per shot.
pub const SPREAD_CAP: u32 = 20;

/// Enemy health at the first wave, in thousandths of a hit point.
pub const START_HEALTH: i64 = 1000;

/// Fire rate at the first wave, in tenths of a shot per second.
pub const START_FIRE_RATE: u32 = 20;

/// Tenths of a second in a microsecond count: a cooldown lasts
/// `COOLDOWN_SCALE / fire_rate` microseconds.
pub const COOLDOWN_SCALE: i64 = 10_000_000;

/// Health after the every-third-wave bonus: multiplied by 1.1 (rounded down),
/// saturating at the top of `i64`.
pub open spec fn escalated(h: int) -> int {
    if h * 11 / 10 > i64::MAX { i64::MAX as int } else { h * 11 / 10 }
}

/// Length of one fire cooldown, in microseconds.
pub open spec fn cooldown_of(rate: int) -> int {
    COOLDOWN_SCALE as int / rate
}

/// The fire cooldown after `dt` microseconds, given whether a shot was fired.
pub open spec fn cooled(cd: int, dt: int, fired: bool, rate: int) -> int {
    if fired {
        cooldown_of(rate)
    } else if cd <= dt {
        0
    } else {
        cd - dt
    }
}

/// The scalar state of the wave progression.
#[derive(Clone, Copy, Debug, PartialEq, Eq, Structural)]
pub struct WaveState {
    pub wave: u32,
    pub kills: u64,
    /// Health of the enemies of the next wave, in thousandths of a hit point.
    pub health: i64,
    /// Time left before the next shot, in microseconds.
    pub fire_cd: i64,
    /// Shots per second, in tenths.
    pub fire_rate: u32,
    /// Projectiles per shot.
    pub spread: u32,
    pub game_over: bool,
}

/// What the next wave is made of.
#[derive(Clone, Copy, Debug, PartialEq, Eq, Structural)]
pub struct WavePlan {
    pub count: u64,
    /// Speeds are drawn from `[speed_lo, speed_hi)`, in milli-units per second.
    pub speed_lo: i64,
    pub speed_hi: i64,
    pub health: i64,
}

/// The state after a wave is cleared: the wave number goes up by one, the fire
/// rate by a tenth of a shot per second, and on every third wave the health
/// is escalated and the spread widened by one up to `SPREAD_CAP`.
pub open spec fn advanced(s: WaveState) -> WaveState {
    let w = s.wave + 1;
    let bonus = w % 3 == 0;
    WaveState {
        wave: w as u32,
        health: if bonus { escalated(s.health as int) as i64 } else { s.health },
        spread: if bonus && s.spread < SPREAD_CAP { (s.spread + 1) as u32 } else { s.spread },
        fire_rate: (s.fire_rate + 1) as u32,
        ..s
    }
}

/// The wave that follows reaching wave `w` with enemy health `health`:
/// `(w + 2) * 3` enemies with speeds in `[50 + 3w, 125 + 3w)` units per second.
pub open spec fn plan_for(w: int, health: i64) -> WavePlan {
    WavePlan {
        count: ((w + 2) * 3) as u64,
        speed_lo: ((50 + 3 * w) * 1000) as i64,
        speed_hi: ((125 + 3 * w) * 1000) as i64,
        health,
    }
}

impl WaveState {
    /// Every state the progression can reach.
    pub open spec fn wf(&self) -> bool {
        self.wave >= 1 && self.health > 0 && self.fire_rate >= 1 && 1 <= self.spread <= SPREAD_CAP
            && self.fire_cd >= 0
    }

    /// The state of the first wave.
    pub open spec fn first() -> WaveState {
        WaveState {
            wave: 1,
            kills: 0,
            health: START_HEALTH,
            fire_cd: 0,
            fire_rate: START_FIRE_RATE,
            spread: 1,
            game_over: false,
        }
    }

    /// Starts the progression at the first wave.
    pub fn new() -> (r: WaveState)
        ensures
            r.wf(),
            r == WaveState::first(),
    {
        WaveState {
            wave: 1,
            kills: 0,
            health: START_HEALTH,
            fire_cd: 0,
            fire_rate: START_FIRE_RATE,
            spread: 1,
            game_over: false,
        }
    }

    /// Whether `advance` may be called: the counters have room to grow.
    pub open spec fn can_advance(&self) -> bool {
        self.wave < u32::MAX && self.fire_rate < u32::MAX
    }

    /// Whether `advance` may be called now.
    pub fn can_advance_now(&self) -> (r: bool)
        ensures
            r == self.can_advance(),
    {
        self.wave < u32::MAX && self.fire_rate < u32::MAX
    }

    /// Moves to the next wave once the current one is cleared, and returns
    /// what that wave is made of.
    pub fn advance(&mut self) -> (plan: WavePlan)
        requires
            old(self).wf(),
            old(self).can_advance(),
        ensures
            *final(self) == advanced(*old(self)),
            final(self).wf(),
            final(self).wave > old(self).wave,
            plan == plan_for(final(self).wave as int, final(self).health),
    {
        let w: u32 = self.wave + 1;
        if w % 3 == 0 {
            let h: i128 = self.health as i128 * 11 / 10;
            assert(h >= self.health) by (nonlinear_arith)
                requires h == self.health as int * 11 / 10, self.health > 0;
            self.health = if h > i64::MAX as i128 { i64::MAX } else { h as i64 };
            if self.spread < SPREAD_CAP {
                self.spread = self.spread + 1;
            }
        }
        self.wave = w;
        self.fire_rate = self.fire_rate + 1;
        let wl: i64 = w as i64;
        WavePlan {
            count: ((w as u64) + 2) * 3,
            speed_lo: (50 + 3 * wl) * 1000,
            speed_hi: (125 + 3 * wl) * 1000,
            health: self.health,
        }
    }

    /// Counts down the fire cooldown by `dt` microseconds, stopping at zero,
    /// and fires when the trigger is held and the cooldown has run out; a shot
    /// restarts the cooldown at `cooldown_of(fire_rate)`.
    pub fn tick_fire(&mut self, dt: u32, trigger: bool) -> (fired: bool)
        requires
            old(self).wf(),
        ensures
            final(self).wf(),
            fired == (trigger && old(self).fire_cd <= dt),
            final(self).fire_cd == cooled(old(self).fire_cd as int, dt as int, fired, old(self).fire_rate as int),
            *final(self) == (WaveState { fire_cd: final(self).fire_cd, ..*old(self) }),
    {
        let left: i64 = if self.fire_cd <= dt as i64 { 0 } else { self.fire_cd - dt as i64 };
        if trigger && left == 0 {
            self.fire_cd = COOLDOWN_SCALE / self.fire_rate as i64;
            true
        } else {
            self.fire_cd = left;
            false
        }
    }
}

/// Clearing the second wave gives the every-third-wave bonus (health times
/// 1.1, one more projectile per shot up to the cap); clearing the third does
/// not touch health or spread. Every clear raises the fire rate, and the next
/// wave is planned with the health that results.
pub proof fn lemma_escalation(s: WaveState, t: WaveState)
    requires
        s.wf(),
        t.wf(),
        s.can_advance(),
        t.can_advance(),
        s.wave == 2,
        t.wave == 3,
    ensures
        advanced(s).wave == 3,
        advanced(s).health == escalated(s.health as int),
        advanced(s).spread == if s.spread < SPREAD_CAP { s.spread + 1 } else { SPREAD_CAP as int },
        advanced(t).wave == 4,
        advanced(t).health == t.health,
        advanced(t).spread == t.spread,
        advanced(s).fire_rate == s.fire_rate + 1,
        advanced(t).fire_rate == t.fire_rate + 1,
        plan_for(advanced(s).wave as int, advanced(s).health) == (WavePlan {
            count: 15,
            speed_lo: 59_000,
            speed_hi: 134_000,
            health: escalated(s.health as int) as i64,
        }),
        plan_for(advanced(t).wave as int, advanced(t).health) == (WavePlan {
            count: 18,
            speed_lo: 62_000,
            speed_hi: 137_000,
            health: t.health,
        }),
{
    assert(s.health * 11 / 10 >= s.health) by (nonlinear_arith)
        requires s.health > 0;
}

} // verus!
