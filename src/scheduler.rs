//! Fixed-timestep pacing of simulation steps against a wall clock, and the
//! frame-rate cap applied after each render. All times are nanoseconds.

use vstd::prelude::*;

verus! {

/// Simulated time handed to every update: the time since the session clock
/// started and the fixed step.
#[derive(Clone, Copy, Debug, PartialEq, Eq, Structural)]
pub struct GameTime {
    pub elapsed: u64,
    pub delta: u64,
}

/// The authoritative simulated clock. `steps` counts the updates issued.
#[derive(Clone, Copy, Debug)]
pub struct Scheduler {
    pub time: GameTime,
    pub steps: u64,
}

impl Scheduler {
    /// The clock only ever advances by whole steps.
    pub open spec fn wf(&self) -> bool {
        &&& self.time.delta > 0
        &&& self.time.elapsed == self.steps * self.time.delta
    }

    pub fn new(delta: u64) -> (s: Scheduler)
        requires
            delta > 0,
        ensures
            s.wf(),
            s.time == (GameTime { elapsed: 0, delta: delta }),
            s.steps == 0,
    {
        Scheduler { time: GameTime { elapsed: 0, delta }, steps: 0 }
    }

    /// Number of whole steps the wall clock is ahead of the simulated clock.
    pub fn steps_due(&self, wall: u64) -> (n: u64)
        requires
            self.wf(),
        ensures
            wall < self.time.elapsed ==> n == 0,
            wall >= self.time.elapsed ==> n == (wall - self.time.elapsed) / (self.time.delta as int),
    {
        if wall < self.time.elapsed {
            0
        } else {
            (wall - self.time.elapsed) / self.time.delta
        }
    }

    /// Issues one step if at least a whole step of backlog is pending.
    pub fn next_step(&mut self, wall: u64) -> (r: Option<GameTime>)
        requires
            old(self).wf(),
        ensures
            final(self).wf(),
            final(self).time.delta == old(self).time.delta,
            wall >= old(self).time.elapsed && wall - old(self).time.elapsed >= old(self).time.delta
                ==> {
                &&& r == Some(GameTime { elapsed: (old(self).time.elapsed + old(self).time.delta) as u64, delta: old(self).time.delta })
                &&& final(self).time == r->Some_0
                &&& final(self).steps == old(self).steps + 1
            },
            !(wall >= old(self).time.elapsed && wall - old(self).time.elapsed >= old(self).time.delta)
                ==> r is None && *final(self) == *old(self),
    {
        if wall >= self.time.elapsed && wall - self.time.elapsed >= self.time.delta {
            let steps = self.steps;
            let delta = self.time.delta;
            proof {
                assert((steps + 1) * delta == steps * delta + delta) by (nonlinear_arith);
                assert(steps + 1 <= (steps + 1) * delta) by (nonlinear_arith)
                    requires delta > 0;
            }
            self.time = GameTime { elapsed: self.time.elapsed + delta, delta };
            self.steps = steps + 1;
            Some(self.time)
        } else {
            None
        }
    }

    /// Plans the catch-up of one frame: every step that fits in the backlog,
    /// in order, each with the fixed step as its delta. Afterwards less than
    /// one step of backlog remains.
    pub fn plan_updates(&mut self, wall: u64) -> (r: Vec<GameTime>)
        requires
            old(self).wf(),
        ensures
            final(self).wf(),
            final(self).time.delta == old(self).time.delta,
            wall < old(self).time.elapsed ==> r.len() == 0 && *final(self) == *old(self),
            wall >= old(self).time.elapsed ==> {
                &&& r.len() == (wall - old(self).time.elapsed) / (old(self).time.delta as int)
                &&& final(self).time.elapsed <= wall < final(self).time.elapsed + final(self).time.delta
            },
            final(self).steps == old(self).steps + r.len(),
            final(self).time.elapsed == old(self).time.elapsed + r.len() * old(self).time.delta,
            forall|i: int| 0 <= i < r.len() ==> r[i] == (GameTime {
                elapsed: (old(self).time.elapsed + (i + 1) * old(self).time.delta) as u64,
                delta: old(self).time.delta,
            }),
    {
        let mut out: Vec<GameTime> = Vec::new();
        let ghost start = *self;
        let ghost d = start.time.delta as int;
        loop
            invariant
                d == start.time.delta as int,
                self.wf(),
                self.time.delta == start.time.delta,
                self.steps == start.steps + out.len(),
                self.time.elapsed == start.time.elapsed + out.len() * d,
                wall >= start.time.elapsed ==> self.time.elapsed <= wall,
                wall < start.time.elapsed ==> *self == start && out.len() == 0,
                forall|i: int| 0 <= i < out.len() ==> out[i] == (GameTime {
                    elapsed: (start.time.elapsed + (i + 1) * d) as u64,
                    delta: start.time.delta,
                }),
            ensures
                self.wf(),
                self.time.delta == start.time.delta,
                self.steps == start.steps + out.len(),
                self.time.elapsed == start.time.elapsed + out.len() * d,
                wall >= start.time.elapsed ==> self.time.elapsed <= wall && wall - self.time.elapsed < d,
                wall < start.time.elapsed ==> *self == start && out.len() == 0,
                forall|i: int| 0 <= i < out.len() ==> out[i] == (GameTime {
                    elapsed: (start.time.elapsed + (i + 1) * d) as u64,
                    delta: start.time.delta,
                }),
            decreases (if wall >= self.time.elapsed { wall - self.time.elapsed } else { 0 }),
        {
            let ghost before = *self;
            let step = self.next_step(wall);
            proof {
                if wall >= start.time.elapsed {
                    assert(before.time.elapsed <= wall);
                }
            }
            match step {
                Some(t) => {
                    proof {
                        assert((out.len() + 1) * d == out.len() * d + d) by (nonlinear_arith);
                        assert(t.elapsed == before.time.elapsed + d);
                        assert(t.elapsed == start.time.elapsed + (out.len() + 1) * d);
                    }
                    let ghost prev = out@;
                    out.push(t);
                    proof {
                        assert forall|i: int| 0 <= i < out.len() implies out[i] == (GameTime {
                            elapsed: (start.time.elapsed + (i + 1) * d) as u64,
                            delta: start.time.delta,
                        }) by {
                            if i < prev.len() {
                                assert(out[i] == prev[i]);
                            }
                        }
                    }
                },
                None => {
                    break;
                },
            }
        }
        proof {
            if wall >= start.time.elapsed {
                let x = (wall - start.time.elapsed) as int;
                let q = out.len() as int;
                let rem = (wall - self.time.elapsed) as int;
                assert(x == q * d + rem);
                vstd::arithmetic::div_mod::lemma_fundamental_div_mod_converse(x, d, q, rem);
            }
        }
        out
    }
}

/// Frame-rate cap: remembers when the previous frame ended.
#[derive(Clone, Copy, Debug)]
pub struct FrameLimiter {
    pub last_tick_time: u64,
}

/// Time to sleep so that a frame whose work took `work` lasts `period`:
/// the remainder when the work was shorter, else nothing.
pub fn sleep_time(work: u64, period: u64) -> (r: u64)
    ensures
        work < period ==> r == period - work && work + r == period,
        work >= period ==> r == 0,
{
    if work < period {
        period - work
    } else {
        0
    }
}

impl FrameLimiter {
    pub fn new(now: u64) -> (l: FrameLimiter)
        ensures
            l.last_tick_time == now,
    {
        FrameLimiter { last_tick_time: now }
    }

    /// Measures the frame that ends at `now`, returns how long to sleep to
    /// hold `fps` frames per second, and starts the next frame's measure at
    /// the end of that sleep. A frame whose work was shorter than the
    /// period therefore lasts exactly the period.
    pub fn limit_fps(&mut self, now: u64, fps: u64) -> (r: u64)
        requires
            fps > 0,
            now >= old(self).last_tick_time,
            now + 1_000_000_000int / (fps as int) <= u64::MAX,
        ensures
            r == sleep_time_spec((now - old(self).last_tick_time) as int, 1_000_000_000int / (fps as int)),
            final(self).last_tick_time == now + r,
            now - old(self).last_tick_time < 1_000_000_000int / (fps as int)
                ==> final(self).last_tick_time - old(self).last_tick_time == 1_000_000_000int / (fps as int),
    {
        let work = now - self.last_tick_time;
        let r = sleep_time(work, 1_000_000_000 / fps);
        self.last_tick_time = now + r;
        r
    }
}

/// What `sleep_time` returns, over integers.
pub open spec fn sleep_time_spec(work: int, period: int) -> int {
    if work < period { period - work } else { 0 }
}

} // verus!
