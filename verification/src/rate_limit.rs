//! A governor for the rate at which calls are issued.
//!
//! The rate goes down by a fixed step when S3 throttles, at most once per window, and up by
//! a fixed step when it has been quiet for an interval. Calls take tokens out of a small
//! bucket that fills at the rate; a throttle takes none away. Calls of low priority wait
//! while calls of high priority do. Time is given in milliseconds since the start.

use vstd::prelude::*;

verus! {

/// The rate at the start, in calls per second.
pub const START_RATE: u64 = 1_800;

/// The highest rate.
pub const CEIL_RATE: u64 = 3_200;

/// The lowest rate.
pub const FLOOR_RATE: u64 = 200;

/// How far the rate goes down at a time.
pub const STEP_DOWN: u64 = 100;

/// At most one step down in so many milliseconds.
pub const DOWN_WINDOW_MS: u64 = 100;

/// How far the rate goes up at a time.
pub const STEP_UP: u64 = 150;

/// At most one step up in so many milliseconds, and none so soon after a throttle.
pub const RECOVER_INTERVAL_MS: u64 = 500;

/// What the bucket holds at most, in thousandths of a token.
pub const MAX_BURST_MILLI: u64 = 4_000;

/// What a call takes, in thousandths of a token.
pub const TOKEN_MILLI: u64 = 1_000;

/// How urgent a call is.
#[derive(Debug, Clone, Copy, PartialEq, Eq, Structural)]
pub enum Priority {
    /// On the critical path: served first.
    High,
    /// Can wait.
    Low,
}

/// The governor's state.
#[derive(Debug, Clone, Copy, PartialEq, Eq, Structural)]
pub struct RateLimiter {
    /// Calls per second.
    pub rate: u64,
    /// What is in the bucket, in thousandths of a token.
    pub tokens_milli: u64,
    pub last_refill_ms: u64,
    /// Calls of high priority that wait.
    pub high_waiters: u64,
    pub last_down_ms: u64,
    pub last_up_ms: u64,
    pub last_throttle_ms: u64,
    pub acquires: u64,
    pub throttles: u64,
    pub down_steps: u64,
    pub up_steps: u64,
    pub retries: u64,
    /// The lowest rate so far.
    pub min_rate: u64,
}

/// What the governor did so far.
#[derive(Debug, Clone, Copy, PartialEq, Eq, Structural)]
pub struct RateStats {
    pub rate: u64,
    pub min_rate: u64,
    pub acquires: u64,
    pub throttles: u64,
    pub down_steps: u64,
    pub up_steps: u64,
    pub retries: u64,
}

/// What a waiting call does next.
#[derive(Debug, Clone, Copy, PartialEq, Eq, Structural)]
pub enum AcquireStep {
    /// It waits until it is woken: calls of high priority go first.
    Yield,
    /// It goes ahead. Where `wake` is set, the waiting calls are woken.
    Granted { wake: bool },
    /// There is no token: it waits a moment and tries again.
    Retry,
}

/// How much time lies between two moments, none where the second is not later.
pub open spec fn since(now: u64, then_ms: u64) -> int {
    if now >= then_ms {
        now - then_ms
    } else {
        0
    }
}

/// A rate kept between the lowest and the highest.
pub open spec fn kept_in_range(rate: int) -> u64 {
    if rate < FLOOR_RATE {
        FLOOR_RATE
    } else if rate > CEIL_RATE {
        CEIL_RATE
    } else {
        rate as u64
    }
}

/// A counter goes up by one, and round at its end.
pub open spec fn counted(n: u64) -> u64 {
    if n == u64::MAX {
        0
    } else {
        (n + 1) as u64
    }
}

impl RateLimiter {
    /// The governor at its start: the bucket is full, and nothing has happened.
    pub open spec fn fresh() -> RateLimiter {
        RateLimiter {
            rate: START_RATE,
            tokens_milli: MAX_BURST_MILLI,
            last_refill_ms: 0,
            high_waiters: 0,
            last_down_ms: 0,
            last_up_ms: 0,
            last_throttle_ms: 0,
            acquires: 0,
            throttles: 0,
            down_steps: 0,
            up_steps: 0,
            retries: 0,
            min_rate: START_RATE,
        }
    }

    /// The rate is between the lowest and the highest, and never was below the lowest seen;
    /// the bucket holds no more than it can.
    pub open spec fn wf(&self) -> bool {
        &&& FLOOR_RATE <= self.min_rate <= self.rate <= CEIL_RATE
        &&& self.tokens_milli <= MAX_BURST_MILLI
    }

    /// The governor at another rate.
    pub open spec fn at_rate(self, rate: int) -> RateLimiter {
        let kept = kept_in_range(rate);
        RateLimiter {
            rate: kept,
            min_rate: if kept < self.min_rate {
                kept
            } else {
                self.min_rate
            },
            ..self
        }
    }

    /// The bucket filled for the time since the last filling.
    pub open spec fn filled(self, now_ms: u64) -> RateLimiter {
        let grown = self.tokens_milli + since(now_ms, self.last_refill_ms) * self.rate;
        RateLimiter {
            last_refill_ms: now_ms,
            tokens_milli: if grown > MAX_BURST_MILLI {
                MAX_BURST_MILLI
            } else {
                grown as u64
            },
            ..self
        }
    }

    /// Whether a step up is due: none was made, and no throttle seen, for the interval.
    pub open spec fn recovers(self, now_ms: u64) -> bool {
        &&& since(now_ms, self.last_up_ms) >= RECOVER_INTERVAL_MS
        &&& since(now_ms, self.last_throttle_ms) >= RECOVER_INTERVAL_MS
    }

    /// The governor after a step up, where one is due.
    pub open spec fn stepped_up(self, now_ms: u64) -> RateLimiter {
        if self.recovers(now_ms) {
            let noted = RateLimiter { last_up_ms: now_ms, ..self };
            if self.rate < CEIL_RATE {
                RateLimiter {
                    up_steps: counted(self.up_steps),
                    ..noted.at_rate(self.rate + STEP_UP)
                }
            } else {
                noted
            }
        } else {
            self
        }
    }

    /// The governor at a later moment.
    pub open spec fn refilled(self, now_ms: u64) -> RateLimiter {
        self.filled(now_ms).stepped_up(now_ms)
    }

    /// Whether a step down is due: none was made within the window.
    pub open spec fn steps_down(self, now_ms: u64) -> bool {
        since(now_ms, self.last_down_ms) >= DOWN_WINDOW_MS
    }

    /// The governor after a throttle.
    pub open spec fn throttled(self, now_ms: u64) -> RateLimiter {
        let noted = RateLimiter {
            throttles: counted(self.throttles),
            last_throttle_ms: now_ms,
            ..self
        };
        if self.steps_down(now_ms) {
            RateLimiter {
                last_down_ms: now_ms,
                down_steps: counted(self.down_steps),
                ..noted.at_rate(self.rate - STEP_DOWN)
            }
        } else {
            noted
        }
    }

    /// A governor at its start.
    pub fn new() -> (limiter: RateLimiter)
        ensures
            limiter.wf(),
            limiter == RateLimiter::fresh(),
    {
        RateLimiter {
            rate: START_RATE,
            tokens_milli: MAX_BURST_MILLI,
            last_refill_ms: 0,
            high_waiters: 0,
            last_down_ms: 0,
            last_up_ms: 0,
            last_throttle_ms: 0,
            acquires: 0,
            throttles: 0,
            down_steps: 0,
            up_steps: 0,
            retries: 0,
            min_rate: START_RATE,
        }
    }

    /// Sets the rate, kept between the lowest and the highest.
    fn set_rate(&mut self, rate: u64)
        ensures
            *final(self) == old(self).at_rate(rate as int),
    {
        let kept: u64 = if rate < FLOOR_RATE {
            FLOOR_RATE
        } else if rate > CEIL_RATE {
            CEIL_RATE
        } else {
            rate
        };
        self.rate = kept;
        if kept < self.min_rate {
            self.min_rate = kept;
        }
    }

    /// Fills the bucket for the time that has passed, and steps up if that is due.
    pub fn refill(&mut self, now_ms: u64)
        requires
            old(self).wf(),
        ensures
            final(self).wf(),
            *final(self) == old(self).refilled(now_ms),
    {
        let elapsed: u64 = now_ms.saturating_sub(self.last_refill_ms);
        self.last_refill_ms = now_ms;
        assert(elapsed * self.rate <= u64::MAX * CEIL_RATE) by (nonlinear_arith)
            requires
                elapsed <= u64::MAX,
                self.rate <= CEIL_RATE,
        ;
        let grown: u128 = self.tokens_milli as u128 + elapsed as u128 * self.rate as u128;
        self.tokens_milli = if grown > MAX_BURST_MILLI as u128 {
            MAX_BURST_MILLI
        } else {
            grown as u64
        };
        assert(*self == old(self).filled(now_ms)) by {
            assert(elapsed * self.rate >= 0) by (nonlinear_arith);
        }
        if now_ms.saturating_sub(self.last_up_ms) >= RECOVER_INTERVAL_MS && now_ms.saturating_sub(
            self.last_throttle_ms,
        ) >= RECOVER_INTERVAL_MS {
            self.last_up_ms = now_ms;
            if self.rate < CEIL_RATE {
                self.set_rate(self.rate + STEP_UP);
                self.up_steps = self.up_steps.wrapping_add(1);
            }
        }
    }

    /// The governor after a try for a token.
    pub open spec fn tried(self, now_ms: u64) -> RateLimiter {
        let r = self.refilled(now_ms);
        if r.tokens_milli < TOKEN_MILLI {
            r
        } else {
            RateLimiter {
                tokens_milli: (r.tokens_milli - TOKEN_MILLI) as u64,
                acquires: counted(r.acquires),
                ..r
            }
        }
    }

    /// Takes a token, if there is one.
    pub fn try_take(&mut self, now_ms: u64) -> (taken: bool)
        requires
            old(self).wf(),
        ensures
            final(self).wf(),
            *final(self) == old(self).tried(now_ms),
            taken == (old(self).refilled(now_ms).tokens_milli >= TOKEN_MILLI),
    {
        self.refill(now_ms);
        if self.tokens_milli < TOKEN_MILLI {
            return false;
        }
        self.tokens_milli = self.tokens_milli - TOKEN_MILLI;
        self.acquires = self.acquires.wrapping_add(1);
        true
    }

    /// A call starts to wait.
    pub fn begin_acquire(&mut self, prio: Priority)
        requires
            old(self).wf(),
            old(self).high_waiters < u64::MAX,
        ensures
            final(self).wf(),
            *final(self) == (if prio == Priority::High {
                RateLimiter { high_waiters: (old(self).high_waiters + 1) as u64, ..*old(self) }
            } else {
                *old(self)
            }),
    {
        if prio == Priority::High {
            self.high_waiters = self.high_waiters + 1;
        }
    }

    /// What a waiting call does next, and the governor after it.
    pub open spec fn stepped(self, prio: Priority, now_ms: u64) -> (AcquireStep, RateLimiter) {
        let tried = self.tried(now_ms);
        if prio == Priority::Low && self.high_waiters > 0 {
            (AcquireStep::Yield, self)
        } else if self.refilled(now_ms).tokens_milli < TOKEN_MILLI {
            (AcquireStep::Retry, tried)
        } else if prio == Priority::High {
            (
                AcquireStep::Granted { wake: true },
                RateLimiter { high_waiters: (tried.high_waiters - 1) as u64, ..tried },
            )
        } else {
            (AcquireStep::Granted { wake: false }, tried)
        }
    }

    /// What a waiting call does next.
    pub fn acquire_step(&mut self, prio: Priority, now_ms: u64) -> (step: AcquireStep)
        requires
            old(self).wf(),
            prio == Priority::High ==> old(self).high_waiters > 0,
        ensures
            final(self).wf(),
            (step, *final(self)) == old(self).stepped(prio, now_ms),
            ({
                let taken = old(self).refilled(now_ms).tokens_milli >= TOKEN_MILLI;
                let tried = old(self).tried(now_ms);
                if prio == Priority::Low && old(self).high_waiters > 0 {
                    step == AcquireStep::Yield && *final(self) == *old(self)
                } else if !taken {
                    step == AcquireStep::Retry && *final(self) == tried
                } else if prio == Priority::High {
                    &&& step == (AcquireStep::Granted { wake: true })
                    &&& *final(self) == (RateLimiter {
                        high_waiters: (tried.high_waiters - 1) as u64,
                        ..tried
                    })
                } else {
                    step == (AcquireStep::Granted { wake: false }) && *final(self) == tried
                }
            }),
    {
        if prio == Priority::Low && self.high_waiters > 0 {
            return AcquireStep::Yield;
        }
        if self.try_take(now_ms) {
            if prio == Priority::High {
                self.high_waiters = self.high_waiters - 1;
                return AcquireStep::Granted { wake: true };
            }
            return AcquireStep::Granted { wake: false };
        }
        AcquireStep::Retry
    }

    /// S3 has throttled a call.
    pub fn on_throttle(&mut self, now_ms: u64)
        requires
            old(self).wf(),
        ensures
            final(self).wf(),
            *final(self) == old(self).throttled(now_ms),
    {
        self.throttles = self.throttles.wrapping_add(1);
        self.last_throttle_ms = now_ms;
        if now_ms.saturating_sub(self.last_down_ms) >= DOWN_WINDOW_MS {
            self.last_down_ms = now_ms;
            self.set_rate(self.rate - STEP_DOWN);
            self.down_steps = self.down_steps.wrapping_add(1);
        }
    }

    /// Counts a retry.
    pub fn note_retry(&mut self)
        requires
            old(self).wf(),
        ensures
            final(self).wf(),
            *final(self) == (RateLimiter { retries: counted(old(self).retries), ..*old(self) }),
    {
        self.retries = self.retries.wrapping_add(1);
    }

    /// What the governor did so far.
    pub fn stats(&self) -> (stats: RateStats)
        ensures
            stats == (RateStats {
                rate: self.rate,
                min_rate: self.min_rate,
                acquires: self.acquires,
                throttles: self.throttles,
                down_steps: self.down_steps,
                up_steps: self.up_steps,
                retries: self.retries,
            }),
    {
        RateStats {
            rate: self.rate,
            min_rate: self.min_rate,
            acquires: self.acquires,
            throttles: self.throttles,
            down_steps: self.down_steps,
            up_steps: self.up_steps,
            retries: self.retries,
        }
    }
}

impl Default for RateLimiter {
    fn default() -> (limiter: RateLimiter)
        ensures
            limiter.wf(),
            limiter == RateLimiter::fresh(),
    {
        RateLimiter::new()
    }
}

/// A wave of throttles steps the rate down once: a throttle within the window after a step
/// leaves the rate as it is.
pub proof fn one_step_down_per_window(limiter: RateLimiter, first_ms: u64, second_ms: u64)
    requires
        limiter.wf(),
        limiter.steps_down(first_ms),
        first_ms <= second_ms < first_ms + DOWN_WINDOW_MS,
    ensures
        limiter.throttled(first_ms).throttled(second_ms).rate == limiter.throttled(first_ms).rate,
        limiter.throttled(first_ms).rate == kept_in_range(limiter.rate - STEP_DOWN),
{
}

/// A throttle takes no token away.
pub proof fn throttles_take_no_tokens(limiter: RateLimiter, now_ms: u64)
    ensures
        limiter.throttled(now_ms).tokens_milli == limiter.tokens_milli,
{
}

/// After a throttle the rate does not go up before the interval is over.
pub proof fn recovery_waits_for_quiet(limiter: RateLimiter, throttle_ms: u64, now_ms: u64)
    requires
        limiter.wf(),
        throttle_ms <= now_ms < throttle_ms + RECOVER_INTERVAL_MS,
    ensures
        limiter.throttled(throttle_ms).refilled(now_ms).rate == limiter.throttled(
            throttle_ms,
        ).rate,
{
}

/// A throttle steps the rate down by 100 calls per second, to no less than 200, where the
/// last step down is at least 100 milliseconds ago, and else leaves it. It counts.
pub proof fn throttles_slow_down(limiter: RateLimiter, now_ms: u64)
    requires
        limiter.wf(),
    ensures
        ({
            let after = limiter.throttled(now_ms);
            let due = now_ms >= limiter.last_down_ms && now_ms - limiter.last_down_ms >= 100;
            &&& due && limiter.rate >= 300 ==> after.rate == limiter.rate - 100
            &&& due && limiter.rate < 300 ==> after.rate == 200
            &&& !due ==> after.rate == limiter.rate
            &&& due ==> after.last_down_ms == now_ms
            &&& after.last_throttle_ms == now_ms
            &&& after.min_rate <= after.rate
            &&& after.min_rate == limiter.min_rate || after.min_rate == after.rate
            &&& after.acquires == limiter.acquires && after.up_steps == limiter.up_steps
            &&& limiter.throttles < u64::MAX ==> after.throttles == limiter.throttles + 1
            &&& limiter.down_steps < u64::MAX ==> after.down_steps == limiter.down_steps + (if due {
                1int
            } else {
                0
            })
        }),
{
}

/// Time fills the bucket, by one token for each call that the rate allows, up to four. Where
/// neither a step up nor a throttle was seen for half a second, the rate goes up by 150 calls
/// per second, to no more than 3200, and else it stays.
pub proof fn time_fills_and_recovers(limiter: RateLimiter, now_ms: u64)
    requires
        limiter.wf(),
        limiter.last_refill_ms <= now_ms,
    ensures
        ({
            let after = limiter.refilled(now_ms);
            let grown = limiter.tokens_milli + (now_ms - limiter.last_refill_ms) * limiter.rate;
            let quiet = now_ms >= limiter.last_up_ms + 500 && now_ms >= limiter.last_throttle_ms
                + 500;
            &&& grown <= 4000 ==> after.tokens_milli == grown
            &&& grown > 4000 ==> after.tokens_milli == 4000
            &&& after.last_refill_ms == now_ms
            &&& quiet && limiter.rate <= 3050 ==> after.rate == limiter.rate + 150
            &&& quiet && limiter.rate > 3050 ==> after.rate == 3200
            &&& !quiet ==> after.rate == limiter.rate
            &&& after.throttles == limiter.throttles && after.down_steps == limiter.down_steps
            &&& after.last_throttle_ms == limiter.last_throttle_ms
            &&& limiter.last_up_ms <= now_ms && after.last_up_ms == now_ms || after.last_up_ms
                == limiter.last_up_ms
        }),
{
}

/// A call that is let through takes one token, and only a call that finds one is let through.
pub proof fn calls_take_tokens(limiter: RateLimiter, now_ms: u64)
    requires
        limiter.wf(),
    ensures
        ({
            let before = limiter.refilled(now_ms);
            let after = limiter.tried(now_ms);
            &&& before.tokens_milli >= 1000 ==> after.tokens_milli == before.tokens_milli - 1000
            &&& before.tokens_milli < 1000 ==> after == before
            &&& before.tokens_milli >= 1000 && before.acquires < u64::MAX ==> after.acquires
                == before.acquires + 1
            &&& after.rate == before.rate
        }),
{
}

/// No call waits for ever: five milliseconds after the last filling there is a token.
pub proof fn tokens_come_back(limiter: RateLimiter, now_ms: u64)
    requires
        limiter.wf(),
        now_ms >= limiter.last_refill_ms + 5,
    ensures
        limiter.refilled(now_ms).tokens_milli >= 1000,
{
    let elapsed = now_ms - limiter.last_refill_ms;
    assert(elapsed * limiter.rate >= 1000) by (nonlinear_arith)
        requires
            elapsed >= 5,
            limiter.rate >= 200,
    ;
}

/// A call of low priority waits for those of high priority, and a call of high priority for
/// none; a call is granted exactly where it takes a token.
pub proof fn high_priority_goes_first(limiter: RateLimiter, prio: Priority, now_ms: u64)
    requires
        limiter.wf(),
        prio == Priority::High ==> limiter.high_waiters > 0,
    ensures
        ({
            let (step, after) = limiter.stepped(prio, now_ms);
            let token = limiter.refilled(now_ms).tokens_milli >= 1000;
            &&& step == AcquireStep::Yield <==> prio == Priority::Low && limiter.high_waiters > 0
            &&& step == AcquireStep::Yield ==> after == limiter
            &&& prio == Priority::High && token ==> step == (AcquireStep::Granted { wake: true })
                && after.high_waiters == limiter.high_waiters - 1
            &&& prio == Priority::Low && limiter.high_waiters == 0 && token ==> step == (
            AcquireStep::Granted { wake: false }) && after.high_waiters == 0
            &&& step is Granted ==> token && after.tokens_milli == limiter.refilled(
                now_ms,
            ).tokens_milli - 1000
            &&& step != AcquireStep::Yield && !token ==> step == AcquireStep::Retry
                && after.high_waiters == limiter.high_waiters
        }),
{
}

/// The governor after tries at the first `n` of the given moments.
pub open spec fn after_tries(limiter: RateLimiter, times: Seq<u64>, n: nat) -> RateLimiter
    decreases n,
{
    if n == 0 {
        limiter
    } else {
        after_tries(limiter, times, (n - 1) as nat).tried(times[n - 1])
    }
}

/// How many of the first `n` tries are let through.
pub open spec fn grants(limiter: RateLimiter, times: Seq<u64>, n: nat) -> nat
    decreases n,
{
    if n == 0 {
        0
    } else {
        grants(limiter, times, (n - 1) as nat) + if after_tries(
            limiter,
            times,
            (n - 1) as nat,
        ).refilled(times[n - 1]).tokens_milli >= TOKEN_MILLI {
            1nat
        } else {
            0nat
        }
    }
}

proof fn lemma_tried_wf(limiter: RateLimiter, now_ms: u64)
    requires
        limiter.wf(),
    ensures
        limiter.tried(now_ms).wf(),
        limiter.tried(now_ms).last_refill_ms == now_ms,
{
    assert(since(now_ms, limiter.last_refill_ms) * limiter.rate >= 0) by (nonlinear_arith)
        requires
            since(now_ms, limiter.last_refill_ms) >= 0,
            limiter.rate >= 0,
    ;
}

/// However the calls come, in any stretch of time no more are let through than four at once
/// and 3200 per second.
pub proof fn calls_are_limited(limiter: RateLimiter, times: Seq<u64>, n: nat)
    requires
        limiter.wf(),
        0 < n <= times.len(),
        limiter.last_refill_ms <= times[0],
        forall|i: int, j: int| 0 <= i < j < times.len() ==> times[i] <= times[j],
    ensures
        1000 * grants(limiter, times, n) <= 4000 + 3200 * (times[n - 1] - limiter.last_refill_ms),
{
    lemma_grants(limiter, times, n);
}

proof fn lemma_grants(limiter: RateLimiter, times: Seq<u64>, n: nat)
    requires
        limiter.wf(),
        n <= times.len(),
        n > 0 ==> limiter.last_refill_ms <= times[0],
        forall|i: int, j: int| 0 <= i < j < times.len() ==> times[i] <= times[j],
    ensures
        after_tries(limiter, times, n).wf(),
        after_tries(limiter, times, n).last_refill_ms == (if n == 0 {
            limiter.last_refill_ms
        } else {
            times[n - 1]
        }),
        1000 * grants(limiter, times, n) + after_tries(limiter, times, n).tokens_milli
            <= limiter.tokens_milli + 3200 * (after_tries(limiter, times, n).last_refill_ms
            - limiter.last_refill_ms),
    decreases n,
{
    if n > 0 {
        let m = (n - 1) as nat;
        lemma_grants(limiter, times, m);
        let before = after_tries(limiter, times, m);
        let now = times[n - 1];
        assert(before.last_refill_ms <= now);
        lemma_tried_wf(before, now);
        let elapsed = now - before.last_refill_ms;
        assert(elapsed * before.rate <= 3200 * elapsed) by (nonlinear_arith)
            requires
                elapsed >= 0,
                before.rate <= 3200,
        ;
    }
}

} // verus!
