use vstd::prelude::*;

verus! {

/// Nanoseconds in a second.
pub const NANOS_PER_SEC: u64 = 1_000_000_000;

/// The margin the timer starts with: it wakes this long before the deadline
/// and snoozes the rest.
pub const INITIAL_MARGIN: u64 = 3_500_000;

/// A wake-up this much or less before the deadline counts as on time.
pub const EARLY_THRESHOLD: u64 = 200_000;

/// The frame period for `target_fps` frames a second, in nanoseconds: a second
/// divided by `target_fps`, rounded to the nearest nanosecond, a tie going to the
/// even neighbour.
pub open spec fn spec_period(target_fps: u64) -> u64 {
    let q = NANOS_PER_SEC / target_fps;
    let r = NANOS_PER_SEC % target_fps;
    if 2 * r > target_fps || (2 * r == target_fps && q % 2 == 1) {
        (q + 1) as u64
    } else {
        q
    }
}

/// The least of three durations.
pub open spec fn min3(a: u64, b: u64, c: u64) -> u64 {
    if a <= b && a <= c {
        a
    } else if b <= c {
        b
    } else {
        c
    }
}

/// The abstract state of a `Timer`; all times in nanoseconds.
pub struct TimerView {
    pub period: u64,
    pub margin: u64,
    pub early_threshold: u64,
    pub next: u64,
    pub recent: (u64, u64, u64),
}

impl TimerView {
    /// How early the wake-up at `after` came, or zero if it was late.
    pub open spec fn how_early(self, after: u64) -> u64 {
        if after <= self.next {
            (self.next - after) as u64
        } else {
            0
        }
    }

    /// The recent timings once `after` has been recorded, the newest first.
    pub open spec fn recent_after(self, after: u64) -> (u64, u64, u64) {
        (self.how_early(after), self.recent.0, self.recent.1)
    }

    /// The least early of the recent wake-ups once `after` has been recorded.
    pub open spec fn least_early(self, after: u64) -> u64 {
        let r = self.recent_after(after);
        min3(r.0, r.1, r.2)
    }

    /// Whether the margin can be adjusted for a wake-up at `after` without
    /// overflowing or going below zero.
    pub open spec fn can_adjust(self, after: u64) -> bool {
        if after > self.next {
            self.margin + (after - self.next) <= u64::MAX
        } else {
            self.least_early(after) > self.early_threshold ==> self.margin >= self.least_early(after) / 8
        }
    }

    /// The margin after a wake-up at `after`: a late wake-up widens it by how late
    /// it was; when even the least early of the recent wake-ups was early by more
    /// than the threshold, it narrows by an eighth of that.
    pub open spec fn margin_after(self, after: u64) -> u64 {
        if after > self.next {
            (self.margin + (after - self.next)) as u64
        } else if self.least_early(after) > self.early_threshold {
            (self.margin - self.least_early(after) / 8) as u64
        } else {
            self.margin
        }
    }
}

/// Where a wait for the next deadline stands between two readings of the clock.
#[derive(Debug, Clone, Copy, PartialEq, Eq, Structural)]
pub enum WaitPhase {
    /// The wait is about to start.
    Begin,
    /// The first, long sleep is over; the margin is to be adjusted.
    Woken,
    /// Snoozing in shrinking steps until the deadline.
    Snoozing,
}

/// What the caller of a wait step does before reading the clock again.
#[derive(Debug, Clone, Copy, PartialEq, Eq, Structural)]
pub enum WaitAction {
    /// Sleep this many nanoseconds.
    Sleep(u64),
    /// Sleep not at all.
    Check,
    /// The wait is over; the new deadline is this.
    Done(u64),
    /// The margin or the deadline would leave `u64`; the wait cannot go on.
    OutOfRange,
}

/// The snooze at `now`, or, once the deadline has come, the move of the
/// deadline one period on.
pub open spec fn snooze_or_done(t: TimerView, now: u64) -> (TimerView, WaitPhase, WaitAction) {
    if now < t.next {
        (t, WaitPhase::Snoozing, WaitAction::Sleep(((t.next - now) * 2 / 3) as u64))
    } else if t.next + t.period <= u64::MAX {
        let next = (t.next + t.period) as u64;
        (TimerView { next, ..t }, WaitPhase::Begin, WaitAction::Done(next))
    } else {
        (t, WaitPhase::Snoozing, WaitAction::OutOfRange)
    }
}

/// One step of waiting for the next deadline, from `phase`, with the clock
/// reading `now`: the timer after it, the phase after it, and what to do.
pub open spec fn wait_step(t: TimerView, phase: WaitPhase, now: u64) -> (TimerView, WaitPhase, WaitAction) {
    match phase {
        WaitPhase::Begin => if t.how_early(now) >= t.margin {
            (t, WaitPhase::Woken, WaitAction::Sleep((t.how_early(now) - t.margin) as u64))
        } else {
            (t, WaitPhase::Woken, WaitAction::Check)
        },
        WaitPhase::Woken => if t.can_adjust(now) {
            snooze_or_done(
                TimerView { margin: t.margin_after(now), recent: t.recent_after(now), ..t },
                now,
            )
        } else {
            (t, WaitPhase::Woken, WaitAction::OutOfRange)
        },
        WaitPhase::Snoozing => snooze_or_done(t, now),
    }
}

/// The deadlines a run of wait steps reports, in order, with the clock
/// reading the times of `nows` in turn.
pub open spec fn deadlines_reached(t: TimerView, phase: WaitPhase, nows: Seq<u64>) -> Seq<u64>
    decreases nows.len(),
{
    if nows.len() == 0 {
        Seq::empty()
    } else {
        let (t2, p2, a) = wait_step(t, phase, nows[0]);
        let rest = deadlines_reached(t2, p2, nows.drop_first());
        match a {
            WaitAction::Done(n) => seq![n] + rest,
            _ => rest,
        }
    }
}

/// Late frames never shift the deadline grid: whatever the clock reads, the
/// `k`-th deadline a run of wait steps reports (from zero) is the deadline it
/// started with plus `k + 1` periods.
pub proof fn lemma_deadline_grid(t: TimerView, phase: WaitPhase, nows: Seq<u64>)
    ensures
        forall|k: int|
            0 <= k < deadlines_reached(t, phase, nows).len() ==> #[trigger] deadlines_reached(t, phase, nows)[k]
                == t.next + (k + 1) * t.period,
    decreases nows.len(),
{
    if nows.len() > 0 {
        let (t2, p2, a) = wait_step(t, phase, nows[0]);
        lemma_deadline_grid(t2, p2, nows.drop_first());
        let rest = deadlines_reached(t2, p2, nows.drop_first());
        assert(t2.period == t.period);
        match a {
            WaitAction::Done(n) => {
                assert(n == t.next + t.period && t2.next == n);
                let d = deadlines_reached(t, phase, nows);
                assert(d == seq![n] + rest);
                assert forall|k: int| 0 <= k < d.len() implies #[trigger] d[k] == t.next + (k + 1) * t.period by {
                    if k > 0 {
                        assert(d[k] == rest[k - 1]);
                        assert(rest[k - 1] == t2.next + ((k - 1) + 1) * t2.period);
                        assert(t.next + t.period + k * t.period == t.next + (k + 1) * t.period) by (nonlinear_arith);
                    } else {
                        assert(d[0] == n);
                        assert((0 + 1) * t.period == t.period);
                    }
                }
            },
            _ => {
                assert(t2.next == t.next);
            },
        }
    }
}

/// The logic loop's frame timer. It sleeps until shortly before each deadline,
/// then snoozes in shrinking steps, and learns from how its wake-ups land how
/// early it must wake. Times are nanoseconds on the caller's monotonic clock.
pub struct Timer {
    period: u64,
    margin: u64,
    early_threshold: u64,
    next: u64,
    recent_timings: [u64; 3],
}

impl View for Timer {
    type V = TimerView;

    closed spec fn view(&self) -> TimerView {
        TimerView {
            period: self.period,
            margin: self.margin,
            early_threshold: self.early_threshold,
            next: self.next,
            recent: (self.recent_timings@[0], self.recent_timings@[1], self.recent_timings@[2]),
        }
    }
}

impl Timer {
    /// A timer for `target_fps` frames a second whose first deadline is `now`.
    pub fn new(target_fps: u64, now: u64) -> (t: Timer)
        requires
            target_fps >= 1,
        ensures
            t@.period == spec_period(target_fps),
            t@.margin == INITIAL_MARGIN,
            t@.early_threshold == EARLY_THRESHOLD,
            t@.next == now,
            t@.recent == (0u64, 0u64, 0u64),
    {
        let q = NANOS_PER_SEC / target_fps;
        let r = NANOS_PER_SEC % target_fps;
        assert(q <= NANOS_PER_SEC) by (nonlinear_arith)
            requires
                target_fps >= 1,
                q == NANOS_PER_SEC / target_fps,
        ;
        let rest = target_fps - r;
        let period = if r > rest || (r == rest && q % 2 == 1) {
            q + 1
        } else {
            q
        };
        Timer {
            period,
            margin: INITIAL_MARGIN,
            early_threshold: EARLY_THRESHOLD,
            next: now,
            recent_timings: [0, 0, 0],
        }
    }

    /// The deadline being waited for.
    pub fn deadline(&self) -> (d: u64)
        ensures
            d == self@.next,
    {
        self.next
    }

    /// How long to sleep when starting to wait at `now`: until the margin before
    /// the deadline, if that much time is left.
    pub fn first_sleep(&self, now: u64) -> (d: Option<u64>)
        ensures
            d == (if self@.how_early(now) >= self@.margin {
                Some((self@.how_early(now) - self@.margin) as u64)
            } else {
                None
            }),
    {
        let time_left = if now <= self.next {
            self.next - now
        } else {
            0
        };
        if time_left >= self.margin {
            Some(time_left - self.margin)
        } else {
            None
        }
    }

    /// Records how the wake-up at `instant_after_sleep` landed, and adjusts the margin.
    pub fn adjust_margin(&mut self, instant_after_sleep: u64)
        requires
            old(self)@.can_adjust(instant_after_sleep),
        ensures
            final(self)@ == (TimerView {
                margin: old(self)@.margin_after(instant_after_sleep),
                recent: old(self)@.recent_after(instant_after_sleep),
                ..old(self)@
            }),
    {
        let how_early = if instant_after_sleep <= self.next {
            self.next - instant_after_sleep
        } else {
            0
        };
        let r0 = self.recent_timings[0];
        let r1 = self.recent_timings[1];
        self.recent_timings = [how_early, r0, r1];
        if instant_after_sleep > self.next {
            self.margin = self.margin + (instant_after_sleep - self.next);
        } else {
            let least_early = if how_early <= r0 && how_early <= r1 {
                how_early
            } else if r0 <= r1 {
                r0
            } else {
                r1
            };
            if least_early > self.early_threshold {
                self.margin = self.margin - least_early / 8;
            }
        }
    }

    /// Whether the margin can be adjusted for a wake-up at `after`.
    pub fn can_adjust_margin(&self, after: u64) -> (b: bool)
        ensures
            b == self@.can_adjust(after),
    {
        if after > self.next {
            self.margin <= u64::MAX - (after - self.next)
        } else {
            let how_early = self.next - after;
            let r0 = self.recent_timings[0];
            let r1 = self.recent_timings[1];
            let least_early = if how_early <= r0 && how_early <= r1 {
                how_early
            } else if r0 <= r1 {
                r0
            } else {
                r1
            };
            !(least_early > self.early_threshold) || self.margin >= least_early / 8
        }
    }

    /// Whether the deadline can move one period on within `u64`.
    pub fn can_advance(&self) -> (b: bool)
        ensures
            b == (self@.next + self@.period <= u64::MAX),
    {
        self.next <= u64::MAX - self.period
    }

    /// How long to snooze at `now` before the deadline: two thirds of the time
    /// left, or nothing once the deadline has come.
    pub fn snooze(&self, now: u64) -> (d: Option<u64>)
        ensures
            d == (if now < self@.next {
                Some(((self@.next - now) * 2 / 3) as u64)
            } else {
                None
            }),
    {
        if now < self.next {
            let left = self.next - now;
            Some((left as u128 * 2 / 3) as u64)
        } else {
            None
        }
    }

    /// Moves the deadline one period on, and returns the new deadline.
    pub fn advance(&mut self) -> (next: u64)
        requires
            old(self)@.next + old(self)@.period <= u64::MAX,
        ensures
            next == old(self)@.next + old(self)@.period,
            final(self)@ == (TimerView { next, ..old(self)@ }),
    {
        self.next = self.next + self.period;
        self.next
    }

    /// One step of waiting for the next deadline, from `phase`, with the clock
    /// reading `now`. The caller does what the action says, reads the clock
    /// again, and steps on from the phase returned, until the action is `Done`.
    pub fn wait_step(&mut self, phase: WaitPhase, now: u64) -> (r: (WaitPhase, WaitAction))
        ensures
            (final(self)@, r.0, r.1) == wait_step(old(self)@, phase, now),
    {
        match phase {
            WaitPhase::Begin => match self.first_sleep(now) {
                Some(d) => (WaitPhase::Woken, WaitAction::Sleep(d)),
                None => (WaitPhase::Woken, WaitAction::Check),
            },
            WaitPhase::Woken => {
                if self.can_adjust_margin(now) {
                    self.adjust_margin(now);
                    self.snooze_or_advance(now)
                } else {
                    (WaitPhase::Woken, WaitAction::OutOfRange)
                }
            },
            WaitPhase::Snoozing => self.snooze_or_advance(now),
        }
    }

    /// The snooze at `now`, or, once the deadline has come, the move of the
    /// deadline one period on.
    fn snooze_or_advance(&mut self, now: u64) -> (r: (WaitPhase, WaitAction))
        ensures
            (final(self)@, r.0, r.1) == snooze_or_done(old(self)@, now),
    {
        match self.snooze(now) {
            Some(d) => (WaitPhase::Snoozing, WaitAction::Sleep(d)),
            None => {
                if self.can_advance() {
                    let next = self.advance();
                    (WaitPhase::Begin, WaitAction::Done(next))
                } else {
                    (WaitPhase::Snoozing, WaitAction::OutOfRange)
                }
            },
        }
    }
}

/// The snoozes shrink: each is at most two thirds of the time left, so after
/// it the time left is at least a third of what it was.
pub proof fn lemma_snooze_shrinks(left: u64)
    requires
        left > 0,
    ensures
        left * 2 / 3 < left,
        left - left * 2 / 3 >= left / 3,
{
}

/// A wake-up on time or late never narrows the margin, and a late one widens it
/// by exactly how late it was.
pub proof fn lemma_late_widens(t: TimerView, after: u64)
    requires
        after > t.next,
        t.can_adjust(after),
    ensures
        t.margin_after(after) == t.margin + (after - t.next),
        t.recent_after(after).0 == 0,
{
}

/// Narrowing only happens after three wake-ups in a row that all came earlier
/// than the threshold, and takes at most an eighth of the least early one.
pub proof fn lemma_narrowing_needs_three_earlies(t: TimerView, after: u64)
    requires
        t.can_adjust(after),
        t.margin_after(after) < t.margin,
    ensures
        after <= t.next,
        t.recent_after(after).0 > t.early_threshold,
        t.recent.0 > t.early_threshold,
        t.recent.1 > t.early_threshold,
        t.margin - t.margin_after(after) == t.least_early(after) / 8,
{
}

} // verus!
