use vstd::prelude::*;

verus! {

/// A point in time or a duration, in milliseconds.
#[derive(Copy, Clone, Debug, PartialEq, Eq, Structural)]
pub struct Millisecond(pub i128);

/// Simple time: exactly `turn_time` for every turn.
#[derive(Copy, Clone, Debug, PartialEq, Eq, Structural)]
pub struct SimpleClock {
    pub turn_time: Millisecond,
}

/// Fischer time: `main_time` to start with, `increment` added after each action.
#[derive(Copy, Clone, Debug, PartialEq, Eq, Structural)]
pub struct FischerClock {
    pub main_time: Millisecond,
    pub increment: Millisecond,
}

#[derive(Copy, Clone, Debug, PartialEq, Eq, Structural)]
pub enum ClockRule {
    /// Simple time gives the player exactly `turn_time` milliseconds per turn.
    Simple(SimpleClock),
    /// Fischer time adds `increment` milliseconds to the player's clock after making an action.
    Fischer(FischerClock),
}

#[derive(Copy, Clone, Debug, PartialEq, Eq, Structural)]
pub enum PlayerClock {
    /// Only main time
    Plain { last_time: Millisecond, time_left: Millisecond },
}

/// The clocks of a game.
#[derive(Clone, Debug)]
pub struct GameClock {
    /// One clock per team or player. This is decided by the game controller, this module doesn't care which is used.
    pub clocks: Vec<PlayerClock>,
    pub rule: ClockRule,
    pub paused: bool,
}

impl SimpleClock {
    pub open spec fn spec_clock(&self) -> PlayerClock {
        PlayerClock::Plain { last_time: Millisecond(0), time_left: self.turn_time }
    }

    /// A fresh player clock: a full turn's time.
    pub fn clock(&self) -> (c: PlayerClock)
        ensures
            c == self.spec_clock(),
    {
        PlayerClock::Plain { last_time: Millisecond(0), time_left: self.turn_time }
    }
}

impl FischerClock {
    pub open spec fn spec_clock(&self) -> PlayerClock {
        PlayerClock::Plain { last_time: Millisecond(0), time_left: self.main_time }
    }

    /// A fresh player clock: the main time.
    pub fn clock(&self) -> (c: PlayerClock)
        ensures
            c == self.spec_clock(),
    {
        PlayerClock::Plain { last_time: Millisecond(0), time_left: self.main_time }
    }
}

impl ClockRule {
    pub open spec fn spec_clock(&self) -> PlayerClock {
        match self {
            ClockRule::Simple(rule) => rule.spec_clock(),
            ClockRule::Fischer(rule) => rule.spec_clock(),
        }
    }

    /// A fresh player clock under this rule.
    pub fn clock(&self) -> (c: PlayerClock)
        ensures
            c == self.spec_clock(),
    {
        match self {
            ClockRule::Simple(rule) => rule.clock(),
            ClockRule::Fischer(rule) => rule.clock(),
        }
    }
}

impl PlayerClock {
    pub open spec fn last_time(self) -> i128 {
        match self {
            PlayerClock::Plain { last_time, .. } => last_time.0,
        }
    }

    pub open spec fn time_left(self) -> i128 {
        match self {
            PlayerClock::Plain { time_left, .. } => time_left.0,
        }
    }
}

/// `c` with its last reading moved to `t`.
pub open spec fn restarted(c: PlayerClock, t: Millisecond) -> PlayerClock {
    match c {
        PlayerClock::Plain { time_left, .. } => PlayerClock::Plain { last_time: t, time_left },
    }
}

impl GameClock {
    /// `time_left - (time - last_time)` of clock `idx` fits in an `i128`.
    pub open spec fn can_advance(&self, idx: int, time: Millisecond) -> bool {
        let c = self.clocks@[idx];
        &&& i128::MIN <= time.0 - c.last_time() <= i128::MAX
        &&& i128::MIN <= c.time_left() - (time.0 - c.last_time()) <= i128::MAX
    }

    /// Adding the increment to clock `idx` fits in an `i128`.
    pub open spec fn can_end_turn(&self, idx: int) -> bool {
        match self.rule {
            ClockRule::Simple(_) => true,
            ClockRule::Fischer(rule) => i128::MIN <= self.clocks@[idx].time_left() + rule.increment.0
                <= i128::MAX,
        }
    }

    /// `clock_count` fresh clocks under `rule`, paused.
    pub fn new(rule: ClockRule, clock_count: usize) -> (g: GameClock)
        ensures
            g.clocks@ == Seq::new(clock_count as nat, |i: int| rule.spec_clock()),
            g.rule == rule,
            g.paused,
    {
        let c = rule.clock();
        let mut clocks: Vec<PlayerClock> = Vec::new();
        let mut i: usize = 0;
        while i < clock_count
            invariant
                i <= clock_count,
                clocks@ == Seq::new(i as nat, |k: int| rule.spec_clock()),
                c == rule.spec_clock(),
            decreases clock_count - i,
        {
            clocks.push(c);
            i = i + 1;
            proof {
                assert(clocks@ =~= Seq::new(i as nat, |k: int| rule.spec_clock()));
            }
        }
        GameClock { clocks, rule, paused: true }
    }

    /// Sets the last reading of every clock to `initial_time`.
    pub fn initialize_clocks(&mut self, initial_time: Millisecond)
        ensures
            final(self).clocks@ == old(self).clocks@.map_values(|c: PlayerClock| restarted(c, initial_time)),
            final(self).rule == old(self).rule,
            final(self).paused == old(self).paused,
    {
        let ghost start = self.clocks@;
        let mut i: usize = 0;
        while i < self.clocks.len()
            invariant
                i <= self.clocks@.len(),
                self.clocks@.len() == start.len(),
                forall|k: int| 0 <= k < i ==> self.clocks@[k] == restarted(start[k], initial_time),
                forall|k: int| i <= k < start.len() ==> self.clocks@[k] == start[k],
                self.rule == old(self).rule,
                self.paused == old(self).paused,
                start == old(self).clocks@,
            decreases self.clocks@.len() - i,
        {
            let c = match self.clocks[i] {
                PlayerClock::Plain { time_left, .. } => PlayerClock::Plain { last_time: initial_time, time_left },
            };
            self.clocks.set(i, c);
            i = i + 1;
        }
        proof {
            assert(self.clocks@ =~= start.map_values(|c: PlayerClock| restarted(c, initial_time)));
        }
    }

    /// Returns the time left for the given clock at current timestamp `time`,
    /// charging it the time since its last reading, which becomes `time`: a
    /// second reading charges only the time since the first. A paused clock
    /// reads `0` and is left alone.
    pub fn advance_clock(&mut self, clock_idx: usize, time: Millisecond) -> (left: Millisecond)
        requires
            old(self).paused || (clock_idx < old(self).clocks@.len() && old(self).can_advance(clock_idx as int, time)),
        ensures
            old(self).paused ==> left.0 == 0 && *final(self) == *old(self),
            !old(self).paused ==> {
                let c = old(self).clocks@[clock_idx as int];
                &&& left.0 == c.time_left() - (time.0 - c.last_time())
                &&& final(self).clocks@ == old(self).clocks@.update(
                    clock_idx as int,
                    PlayerClock::Plain { last_time: time, time_left: left },
                )
                &&& final(self).rule == old(self).rule
                &&& final(self).paused == old(self).paused
            },
    {
        if self.paused {
            return Millisecond(0);
        }
        match self.clocks[clock_idx] {
            PlayerClock::Plain { last_time, time_left } => {
                let duration = time.0 - last_time.0;
                let left = Millisecond(time_left.0 - duration);
                self.clocks.set(clock_idx, PlayerClock::Plain { last_time: time, time_left: left });
                left
            },
        }
    }

    /// Ends the turn of the given clock: Simple time refills it, Fischer time
    /// adds the increment; every clock's last reading becomes `time`. A paused
    /// clock is left alone.
    pub fn end_turn(&mut self, clock_idx: usize, time: Millisecond)
        requires
            old(self).paused || (clock_idx < old(self).clocks@.len() && old(self).can_end_turn(clock_idx as int)),
        ensures
            old(self).paused ==> *final(self) == *old(self),
            !old(self).paused ==> {
                let c = old(self).clocks@[clock_idx as int];
                let refilled = match old(self).rule {
                    ClockRule::Simple(rule) => rule.turn_time,
                    ClockRule::Fischer(rule) => Millisecond((c.time_left() + rule.increment.0) as i128),
                };
                &&& final(self).clocks@ == old(self).clocks@.update(
                    clock_idx as int,
                    PlayerClock::Plain { last_time: Millisecond(c.last_time()), time_left: refilled },
                ).map_values(|x: PlayerClock| restarted(x, time))
                &&& final(self).rule == old(self).rule
                &&& final(self).paused == old(self).paused
            },
    {
        if self.paused {
            return;
        }
        let c = match self.clocks[clock_idx] {
            PlayerClock::Plain { last_time, time_left } => match self.rule {
                ClockRule::Simple(rule) => PlayerClock::Plain { last_time, time_left: rule.turn_time },
                ClockRule::Fischer(rule) => PlayerClock::Plain {
                    last_time,
                    time_left: Millisecond(time_left.0 + rule.increment.0),
                },
            },
        };
        self.clocks.set(clock_idx, c);
        self.initialize_clocks(time);
    }

    /// Pauses or resumes the clocks.
    pub fn pause(&mut self, paused: bool)
        ensures
            final(self).paused == paused,
            final(self).clocks@ == old(self).clocks@,
            final(self).rule == old(self).rule,
    {
        self.paused = paused;
    }

    /// A copy of the clocks.
    pub fn copy(&self) -> (c: GameClock)
        ensures
            c.clocks@ == self.clocks@,
            c.rule == self.rule,
            c.paused == self.paused,
    {
        GameClock { clocks: crate::game::vecs::copy_vec(&self.clocks), rule: self.rule, paused: self.paused }
    }
}

} // verus!
