use vstd::prelude::*;

use crate::error::ConfigurationError;

verus! {

/// Timestamps handed to the clock count microseconds.
pub const MICROS_PER_SECOND: u64 = 1_000_000;

/// Rates count thousandths of a generation per second.
pub const THOUSANDTHS_PER_GENERATION: u64 = 1_000;

/// Elapsed microseconds times a rate in thousandths per second, divided by
/// this, is a number of generations: `MICROS_PER_SECOND` times
/// `THOUSANDTHS_PER_GENERATION`.
pub const PENDING_DIVISOR: u64 = 1_000_000_000;

/// Whether the clock runs, and when it was stopped if it does not.
#[derive(Debug, Copy, Clone, PartialEq, Eq, Structural)]
pub enum PauseState {
    Paused { time: u64 },
    Playing,
}

/// A clock as a value.
///
/// `reference` is the moment from which due generations are counted,
/// multiplied by the rate (microseconds times thousandths per second), so
/// that no fraction of a generation is ever lost; `paused_at` is the moment
/// the clock was stopped, if it is stopped.
pub struct ClockModel {
    pub milli_updates_per_second: nat,
    pub reference: int,
    pub paused_at: Option<int>,
}

impl ClockModel {
    /// A running clock that counts from `now`.
    pub open spec fn started(milli_updates_per_second: nat, now: int) -> ClockModel {
        ClockModel { milli_updates_per_second, reference: now * milli_updates_per_second, paused_at: None }
    }

    pub open spec fn is_running(self) -> bool {
        self.paused_at is None
    }

    /// Whole generations that the time from the reference to `now` is worth.
    pub open spec fn pending(self, now: int) -> int {
        let scaled = now * self.milli_updates_per_second;
        if scaled >= self.reference {
            (scaled - self.reference) / (PENDING_DIVISOR as int)
        } else {
            0
        }
    }

    /// Generations handed out by a frame at `now`: none while stopped, else
    /// all that are due, up to `u32::MAX` (the rest stays due).
    pub open spec fn ticks_at(self, now: int) -> nat {
        if !self.is_running() {
            0
        } else if self.pending(now) > u32::MAX {
            u32::MAX as nat
        } else {
            self.pending(now) as nat
        }
    }

    /// The clock after a frame at `now`: the reference moves on by exactly
    /// the generations handed out.
    pub open spec fn after_tick(self, now: int) -> ClockModel {
        ClockModel {
            reference: self.reference + self.ticks_at(now) * (PENDING_DIVISOR as int),
            ..self
        }
    }

    /// Stopped at `now`; a stopped clock stays as it is.
    pub open spec fn paused(self, now: int) -> ClockModel {
        if self.is_running() {
            ClockModel { paused_at: Some(now), ..self }
        } else {
            self
        }
    }

    /// Running again at `now`, with the stopped time added to the reference
    /// (within the range of a `u128`); a running clock stays as it is.
    pub open spec fn resumed(self, now: int) -> ClockModel {
        match self.paused_at {
            None => self,
            Some(since) => {
                let moved = self.reference + (now - since) * self.milli_updates_per_second;
                ClockModel {
                    reference: if moved < 0 {
                        0
                    } else if moved > u128::MAX {
                        u128::MAX as int
                    } else {
                        moved
                    },
                    paused_at: None,
                    ..self
                }
            },
        }
    }

    /// Stopped if running, running if stopped.
    pub open spec fn toggled(self, now: int) -> ClockModel {
        if self.is_running() {
            self.paused(now)
        } else {
            self.resumed(now)
        }
    }

    /// Generations handed out by frames at `times`, one after the other.
    pub open spec fn ticks_over(self, times: Seq<int>) -> nat
        decreases times.len(),
    {
        if times.len() == 0 {
            0
        } else {
            self.ticks_at(times[0]) + self.after_tick(times[0]).ticks_over(times.drop_first())
        }
    }
}

/// A product of two `u64` values fits in a `u128`.
proof fn lemma_product_fits(a: int, b: int)
    requires
        0 <= a <= u64::MAX,
        0 <= b <= u64::MAX,
    ensures
        0 <= a * b <= u128::MAX,
{
    assert(0 <= a * b <= u64::MAX * u64::MAX) by (nonlinear_arith)
        requires
            0 <= a <= u64::MAX,
            0 <= b <= u64::MAX,
    ;
}

/// Later moments have at least as many generations due.
proof fn lemma_pending_monotone(c: ClockModel, t1: int, t2: int)
    requires
        0 <= t1 <= t2,
    ensures
        0 <= c.pending(t1) <= c.pending(t2),
{
    let ups = c.milli_updates_per_second as int;
    assert(t1 * ups <= t2 * ups) by (nonlinear_arith)
        requires
            0 <= t1 <= t2,
            0 <= ups,
    ;
}

/// After a frame at `t` that handed out all that was due, what is due at a
/// later `s` is what was due at `s` less what the frame handed out.
proof fn lemma_pending_after_tick(c: ClockModel, t: int, s: int)
    requires
        c.is_running(),
        0 <= t <= s,
        c.pending(t) <= u32::MAX,
    ensures
        c.after_tick(t).pending(s) == c.pending(s) - c.pending(t),
{
    lemma_pending_monotone(c, t, s);
    let ups = c.milli_updates_per_second as int;
    assert(t * ups <= s * ups) by (nonlinear_arith)
        requires
            0 <= t <= s,
            0 <= ups,
    ;
}

/// However the running time is cut into frames, the generations handed out
/// add up to what the whole time is worth: after frames at the
/// non-decreasing moments `times`, a running clock has handed out exactly the
/// generations due at the last of them (provided no frame is owed more
/// than `u32::MAX`), and after each frame exactly those due at its moment.
pub proof fn lemma_frames_add_up(c: ClockModel, times: Seq<int>)
    requires
        c.is_running(),
        times.len() >= 1,
        forall|i: int| 0 <= i < times.len() ==> 0 <= #[trigger] times[i],
        forall|i: int, j: int| 0 <= i <= j < times.len() ==> times[i] <= times[j],
        c.pending(times.last()) <= u32::MAX,
    ensures
        c.ticks_over(times) == c.pending(times.last()),
    decreases times.len(),
{
    let t = times[0];
    lemma_pending_monotone(c, t, times.last());
    let after = c.after_tick(t);
    let rest = times.drop_first();
    if times.len() == 1 {
        assert(rest.len() == 0);
        assert(after.ticks_over(rest) == 0);
        assert(t == times.last());
    } else {
        lemma_pending_after_tick(c, t, rest.last());
        assert(rest.last() == times.last());
        lemma_frames_add_up(after, rest);
    }
}

/// What a clock started at `t0` has due at a later `t`: the elapsed
/// microseconds times the rate in thousandths, divided by
/// `PENDING_DIVISOR` and rounded down; that is, the elapsed seconds times
/// the rate in generations per second, rounded down.
pub proof fn lemma_started_pending(milli_updates_per_second: nat, t0: int, t: int)
    requires
        0 <= t0 <= t,
    ensures
        ClockModel::started(milli_updates_per_second, t0).pending(t) == ((t - t0) * milli_updates_per_second)
            / (PENDING_DIVISOR as int),
{
    let ups = milli_updates_per_second as int;
    assert(t * ups - t0 * ups == (t - t0) * ups) by (nonlinear_arith);
    assert(t0 * ups <= t * ups) by (nonlinear_arith)
        requires
            0 <= t0 <= t,
            0 <= ups,
    ;
}

/// The total handed out never falls from one frame to the next: the
/// generations of the first `k` frames are at most those of all of them.
pub proof fn lemma_totals_never_decrease(c: ClockModel, times: Seq<int>, k: int)
    requires
        0 <= k <= times.len(),
    ensures
        c.ticks_over(times.take(k)) <= c.ticks_over(times),
    decreases times.len(),
{
    if k > 0 {
        let t = times[0];
        assert(times.take(k).drop_first() =~= times.drop_first().take(k - 1));
        lemma_totals_never_decrease(c.after_tick(t), times.drop_first(), k - 1);
    }
}

/// Time spent stopped does not count: a clock stopped at `tp` and started
/// again at `tr` hands out at `t` what it would have handed out at
/// `t - (tr - tp)` had it never stopped; and while stopped it hands out
/// nothing. The clock must not have been ahead of `tp` when stopped.
pub proof fn lemma_pause_compensation(c: ClockModel, tp: int, tr: int, t: int)
    requires
        c.is_running(),
        0 <= tp <= tr <= t,
        tr <= u64::MAX,
        c.milli_updates_per_second <= u64::MAX,
        0 <= c.reference <= tp * c.milli_updates_per_second,
    ensures
        c.paused(tp).ticks_at(t) == 0,
        c.paused(tp).resumed(tr).ticks_at(t) == c.ticks_at(t - (tr - tp)),
{
    let ups = c.milli_updates_per_second as int;
    lemma_product_fits(tr, ups);
    assert(tp * ups + (tr - tp) * ups == tr * ups) by (nonlinear_arith);
    assert(0 <= (tr - tp) * ups) by (nonlinear_arith)
        requires
            tp <= tr,
            0 <= ups,
    ;
    assert((t - (tr - tp)) * ups == t * ups - (tr - tp) * ups) by (nonlinear_arith);
}

/// Decides how many generations each frame advances, from a fixed rate and
/// the time that frames report.
pub struct SimulationClock {
    milli_updates_per_second: u64,
    reference: u128,
    pause_state: PauseState,
}

impl View for SimulationClock {
    type V = ClockModel;

    closed spec fn view(&self) -> ClockModel {
        ClockModel {
            milli_updates_per_second: self.milli_updates_per_second as nat,
            reference: self.reference as int,
            paused_at: match self.pause_state {
                PauseState::Paused { time } => Some(time as int),
                PauseState::Playing => None,
            },
        }
    }
}

impl SimulationClock {
    /// The ranges of the machine values behind the view: the rate and the
    /// moment of a pause fit in a `u64`, the reference in a `u128`.
    pub proof fn lemma_view_in_range(&self)
        ensures
            self@.milli_updates_per_second <= u64::MAX,
            0 <= self@.reference <= u128::MAX,
            self@.paused_at matches Some(t) ==> 0 <= t <= u64::MAX,
    {
    }

    /// A running clock that advances `milli_updates_per_second` thousandths
    /// of a generation per second, counting from `now`.
    pub fn new(milli_updates_per_second: u64, now: u64) -> (r: Result<SimulationClock, ConfigurationError>)
        ensures
            milli_updates_per_second == 0 <==> r == Err::<SimulationClock, _>(
                ConfigurationError::ZeroUpdateRate,
            ),
            r is Ok <==> milli_updates_per_second > 0,
            r matches Ok(c) ==> c@ == ClockModel::started(milli_updates_per_second as nat, now as int),
    {
        if milli_updates_per_second == 0 {
            return Err(ConfigurationError::ZeroUpdateRate);
        }
        proof {
            lemma_product_fits(now as int, milli_updates_per_second as int);
        }
        let reference = (now as u128) * (milli_updates_per_second as u128);
        Ok(SimulationClock { milli_updates_per_second, reference, pause_state: PauseState::Playing })
    }

    pub fn milli_updates_per_second(&self) -> (r: u64)
        ensures
            r == self@.milli_updates_per_second,
    {
        self.milli_updates_per_second
    }

    pub fn is_paused(&self) -> (r: bool)
        ensures
            r == !self@.is_running(),
    {
        match self.pause_state {
            PauseState::Paused { .. } => true,
            PauseState::Playing => false,
        }
    }

    /// The number of generations to advance in a frame at `now`; the
    /// reference moves on by exactly that many generations' worth of time.
    pub fn tick(&mut self, now: u64) -> (r: u32)
        ensures
            r == old(self)@.ticks_at(now as int),
            final(self)@ == old(self)@.after_tick(now as int),
    {
        match self.pause_state {
            PauseState::Paused { .. } => 0,
            PauseState::Playing => {
                proof {
                    lemma_product_fits(now as int, self.milli_updates_per_second as int);
                }
                let scaled = (now as u128) * (self.milli_updates_per_second as u128);
                if scaled < self.reference {
                    return 0;
                }
                let pending = (scaled - self.reference) / (PENDING_DIVISOR as u128);
                let ticks: u32 = if pending > u32::MAX as u128 {
                    u32::MAX
                } else {
                    pending as u32
                };
                assert((ticks as int) * (PENDING_DIVISOR as int) <= scaled - self.reference);
                self.reference = self.reference + (ticks as u128) * (PENDING_DIVISOR as u128);
                ticks
            },
        }
    }

    /// Stops the clock at `now`; nothing changes if it is stopped already.
    pub fn pause(&mut self, now: u64)
        ensures
            final(self)@ == old(self)@.paused(now as int),
    {
        if let PauseState::Playing = self.pause_state {
            self.pause_state = PauseState::Paused { time: now };
        }
    }

    /// Starts the clock again at `now`, so that the time it stood still is
    /// not counted; nothing changes if it runs already.
    pub fn resume(&mut self, now: u64)
        ensures
            final(self)@ == old(self)@.resumed(now as int),
    {
        if let PauseState::Paused { time } = self.pause_state {
            let ups = self.milli_updates_per_second as u128;
            if now >= time {
                proof {
                    lemma_product_fits((now - time) as int, ups as int);
                }
                let shift = ((now - time) as u128) * ups;
                self.reference = if self.reference <= u128::MAX - shift {
                    self.reference + shift
                } else {
                    u128::MAX
                };
            } else {
                proof {
                    lemma_product_fits((time - now) as int, ups as int);
                    assert((now as int - time as int) * ups as int == -((time as int - now as int)
                        * ups as int)) by (nonlinear_arith);
                }
                let shift = ((time - now) as u128) * ups;
                self.reference = if self.reference >= shift {
                    self.reference - shift
                } else {
                    0
                };
            }
            self.pause_state = PauseState::Playing;
        }
    }

    /// Stops a running clock, or starts a stopped one, at `now`.
    pub fn swap_pause_state(&mut self, now: u64)
        ensures
            final(self)@ == old(self)@.toggled(now as int),
    {
        if self.is_paused() {
            self.resume(now);
        } else {
            self.pause(now);
        }
    }
}

} // verus!
