//! A fixed-timestep clock.
use vstd::prelude::*;
use std::time::{Duration, Instant};

verus! {

#[verifier::external_type_specification]
#[verifier::external_body]
pub struct ExInstant(Instant);

/// Reads the monotonic clock (`Instant::now`). Nothing is stated of the
/// reading: it depends on the machine and the moment.
#[verifier::external_body]
fn now() -> Instant {
    Instant::now()
}

/// The time from `earlier` to `later`, zero where `later` is the earlier of
/// the two (`Instant::saturating_duration_since`). Nothing is stated of the
/// amount: it depends on when the two readings were taken.
#[verifier::external_body]
fn saturating_since(later: &Instant, earlier: &Instant) -> Duration {
    later.saturating_duration_since(*earlier)
}

/// The whole nanoseconds of a duration (`Duration::as_nanos`). A duration is
/// opaque here, so nothing is stated of the amount.
#[verifier::external_body]
fn whole_nanos(d: Duration) -> u128 {
    d.as_nanos()
}

/// How many whole steps of `dt` fit in `total`, capped at what a `u32` holds.
pub open spec fn steps_due(total: int, dt: int) -> int {
    if total / dt > u32::MAX {
        u32::MAX as int
    } else {
        total / dt
    }
}

/// One `advance` on the model: the steps paid out, and what stays
/// accumulated.
pub open spec fn advance_model(acc: int, elapsed: int, dt: int) -> (int, int) {
    let steps = steps_due(acc + elapsed, dt);
    (steps, acc + elapsed - steps * dt)
}

/// A run of `advance` calls with the same step: the steps paid out in all,
/// and what stays accumulated.
pub open spec fn advances(acc: int, elapsed: Seq<int>, dt: int) -> (int, int)
    decreases elapsed.len(),
{
    if elapsed.len() == 0 {
        (0, acc)
    } else {
        let (paid, rest) = advances(acc, elapsed.drop_last(), dt);
        let (steps, left) = advance_model(rest, elapsed.last(), dt);
        (paid + steps, left)
    }
}

/// The sum of a run of amounts.
pub open spec fn total(s: Seq<int>) -> int
    decreases s.len(),
{
    if s.len() == 0 {
        0
    } else {
        total(s.drop_last()) + s.last()
    }
}

/// Law: over any run of `advance` calls with the same step, every nanosecond
/// is counted once: the steps paid out in all, times the step, plus what stays
/// accumulated, is the time put in. What stays is never negative, and when the
/// last call did not reach the cap on steps it is less than one step, so the
/// steps paid out in all are the whole time divided by the step.
pub proof fn law_time_is_counted_once(acc: int, elapsed: Seq<int>, dt: int)
    requires
        dt > 0,
        acc >= 0,
        forall|k: int| 0 <= k < elapsed.len() ==> #[trigger] elapsed[k] >= 0,
    ensures
        advances(acc, elapsed, dt).0 * dt + advances(acc, elapsed, dt).1 == acc + total(elapsed),
        advances(acc, elapsed, dt).1 >= 0,
        elapsed.len() > 0 && (advances(acc, elapsed.drop_last(), dt).1 + elapsed.last()) / dt
            <= u32::MAX ==> advances(acc, elapsed, dt).0 == (acc + total(elapsed)) / dt
            && advances(acc, elapsed, dt).1 == (acc + total(elapsed)) % dt,
    decreases elapsed.len(),
{
    if elapsed.len() > 0 {
        let p = elapsed.drop_last();
        assert forall|k: int| 0 <= k < p.len() implies #[trigger] p[k] >= 0 by {
            assert(p[k] == elapsed[k]);
        }
        law_time_is_counted_once(acc, p, dt);
        let (paid, rest) = advances(acc, p, dt);
        let e = elapsed.last();
        assert(e == elapsed[elapsed.len() - 1]);
        let x = rest + e;
        let q = x / dt;
        vstd::arithmetic::div_mod::lemma_fundamental_div_mod(x, dt);
        vstd::arithmetic::div_mod::lemma_mod_bound(x, dt);
        let steps = steps_due(x, dt);
        assert((paid + steps) * dt == paid * dt + steps * dt) by (nonlinear_arith);
        if q > u32::MAX {
            assert(steps * dt <= q * dt) by (nonlinear_arith)
                requires
                    steps <= q,
                    dt > 0,
            ;
        } else {
            let n = acc + total(elapsed);
            assert(n == (paid + steps) * dt + (x - q * dt));
            vstd::arithmetic::div_mod::lemma_fundamental_div_mod_converse(
                n,
                dt,
                paid + steps,
                x - q * dt,
            );
        }
    }
}

/// What one tick does on the model: the time from the previous reading
/// `last` to the reading `now` (none if `now` is not later), as much of it as
/// the accumulator can hold, is accumulated and paid out as `advance` does.
pub open spec fn tick_model(acc: int, last: int, now: int, dt: int) -> (int, int) {
    let elapsed = if now > last {
        now - last
    } else {
        0
    };
    let room = u128::MAX - acc;
    advance_model(
        acc,
        if elapsed > room {
            room
        } else {
            elapsed
        },
        dt,
    )
}

/// A run of ticks on a fresh clock, reading `readings` in turn: the steps paid
/// out in all, and what stays accumulated.
pub open spec fn ticks(readings: Seq<int>, dt: int) -> (int, int)
    decreases readings.len(),
{
    if readings.len() == 0 {
        (0, 0)
    } else {
        let (paid, acc) = ticks(readings.drop_last(), dt);
        let last = if readings.len() >= 2 {
            readings[readings.len() - 2]
        } else {
            0
        };
        let (steps, left) = tick_model(acc, last, readings.last(), dt);
        (paid + steps, left)
    }
}

/// Law: on a fresh clock whose readings never go back, every nanosecond up to
/// the last reading is counted once: the steps paid out in all, times the
/// step, plus what stays accumulated, is the last reading. When the last tick
/// did not reach the cap on steps, the steps paid out in all are the last
/// reading divided by the step.
pub proof fn law_ticks_count_time_once(readings: Seq<int>, dt: int)
    requires
        dt > 0,
        forall|k: int| 0 <= k < readings.len() ==> 0 <= #[trigger] readings[k] <= u128::MAX,
        forall|i: int, j: int| 0 <= i <= j < readings.len() ==> readings[i] <= readings[j],
    ensures
        readings.len() == 0 ==> ticks(readings, dt) == (0int, 0int),
        readings.len() > 0 ==> ticks(readings, dt).0 * dt + ticks(readings, dt).1
            == readings.last(),
        0 <= ticks(readings, dt).1,
        0 <= ticks(readings, dt).0,
        readings.len() > 0 && ticks(readings, dt).1 < dt ==> ticks(readings, dt).0
            == readings.last() / dt,
        readings.len() > 0 && ({
            let last = if readings.len() >= 2 {
                readings[readings.len() - 2]
            } else {
                0
            };
            (ticks(readings.drop_last(), dt).1 + readings.last() - last) / dt <= u32::MAX
        }) ==> ticks(readings, dt).0 == readings.last() / dt,
    decreases readings.len(),
{
    if readings.len() > 0 {
        let p = readings.drop_last();
        assert forall|k: int| 0 <= k < p.len() implies 0 <= #[trigger] p[k] <= u128::MAX by {
            assert(p[k] == readings[k]);
        }
        assert forall|i: int, j: int| 0 <= i <= j < p.len() implies p[i] <= p[j] by {
            assert(p[i] == readings[i]);
            assert(p[j] == readings[j]);
        }
        law_ticks_count_time_once(p, dt);
        let (paid, acc) = ticks(p, dt);
        let n = readings.len() as int;
        let last = if n >= 2 {
            readings[n - 2]
        } else {
            0
        };
        if n >= 2 {
            assert(p.last() == readings[n - 2]);
            assert(paid * dt + acc == last);
        } else {
            assert(paid == 0 && acc == 0);
        }
        let now = readings.last();
        assert(now == readings[n - 1]);
        assert(last <= now);
        assert(paid * dt >= 0) by (nonlinear_arith)
            requires
                paid >= 0,
                dt > 0,
        ;
        let x = acc + (now - last);
        assert(x <= u128::MAX);
        let q = x / dt;
        vstd::arithmetic::div_mod::lemma_fundamental_div_mod(x, dt);
        vstd::arithmetic::div_mod::lemma_mod_bound(x, dt);
        let steps = steps_due(x, dt);
        assert((paid + steps) * dt == paid * dt + steps * dt) by (nonlinear_arith);
        if q > u32::MAX {
            assert(steps * dt <= q * dt) by (nonlinear_arith)
                requires
                    steps <= q,
                    dt > 0,
            ;
        } else {
            assert(q * dt == dt * q) by (nonlinear_arith);
            assert(steps == q);
            assert(now == (paid + steps) * dt + (x - q * dt));
            vstd::arithmetic::div_mod::lemma_fundamental_div_mod_converse(
                now,
                dt,
                paid + steps,
                x - q * dt,
            );
        }
        let (total_paid, left) = ticks(readings, dt);
        if left < dt {
            vstd::arithmetic::div_mod::lemma_fundamental_div_mod_converse(
                now,
                dt,
                total_paid,
                left,
            );
        }
    }
}

/// Accumulates elapsed time and pays it out in fixed steps.
pub struct Clock {
    /// The instant readings are measured from, fixed when the clock is made.
    origin: Instant,
    /// The reading the previous tick kept, in nanoseconds since `origin`.
    last: u128,
    /// Time accumulated and not yet paid out, in nanoseconds.
    accumulator: u128,
}

impl View for Clock {
    /// The accumulated time not yet paid out, in nanoseconds.
    type V = nat;

    closed spec fn view(&self) -> nat {
        self.accumulator as nat
    }
}

impl Clock {
    /// The reading the previous tick kept, in nanoseconds since the clock was
    /// made.
    pub closed spec fn last_reading(&self) -> u128 {
        self.last
    }

    /// A clock that starts counting now, with nothing accumulated: its first
    /// reading is zero.
    pub fn new() -> (c: Clock)
        ensures
            c@ == 0,
            c.last_reading() == 0,
    {
        Clock { origin: now(), last: 0, accumulator: 0 }
    }

    /// Adds `elapsed` nanoseconds to the accumulator and pays out as many
    /// whole steps of `fixed_dt` nanoseconds as it holds, at most `u32::MAX`
    /// at once; what is left stays for later.
    pub fn advance(&mut self, elapsed: u128, fixed_dt: u128) -> (steps: u32)
        requires
            fixed_dt > 0,
            old(self)@ + elapsed <= u128::MAX,
        ensures
            steps == steps_due(old(self)@ + elapsed, fixed_dt as int),
            final(self)@ + steps * fixed_dt == old(self)@ + elapsed,
            (steps as int, final(self)@ as int) == advance_model(
                old(self)@ as int,
                elapsed as int,
                fixed_dt as int,
            ),
            final(self).last_reading() == old(self).last_reading(),
    {
        let ghost sum_in: nat = (self.accumulator + elapsed) as nat;
        self.accumulator = self.accumulator + elapsed;
        let mut steps: u32 = 0;
        while self.accumulator >= fixed_dt && steps < u32::MAX
            invariant
                fixed_dt > 0,
                self.accumulator + steps * fixed_dt == sum_in,
                self.last == old(self).last,
            decreases self.accumulator,
        {
            self.accumulator = self.accumulator - fixed_dt;
            assert((steps + 1) * fixed_dt == steps * fixed_dt + fixed_dt) by (nonlinear_arith);
            steps = steps + 1;
        }
        proof {
            let a = self.accumulator as int;
            let s = steps as int;
            let d = fixed_dt as int;
            if a < d {
                vstd::arithmetic::div_mod::lemma_fundamental_div_mod_converse(
                    sum_in as int,
                    d,
                    s,
                    a,
                );
            } else {
                assert(s == u32::MAX);
                assert(a + s * d == sum_in as int);
                assert(s * d <= sum_in as int);
                vstd::arithmetic::div_mod::lemma_div_is_ordered(s * d, sum_in as int, d);
                vstd::arithmetic::div_mod::lemma_div_multiples_vanish(s, d);
                assert(d * s == s * d) by (nonlinear_arith);
                assert((s * d) / d == s);
                assert(sum_in as int / d >= s);
            }
        }
        steps
    }

    /// Takes the reading `now_nanos`: accumulates the time since the reading
    /// the previous tick kept (none if the new one is not later), as much of
    /// it as the accumulator can hold, pays out whole steps of `fixed_dt`
    /// nanoseconds as `advance` does, and keeps the new reading.
    pub fn tick_at(&mut self, now_nanos: u128, fixed_dt: u128) -> (steps: u32)
        requires
            fixed_dt > 0,
        ensures
            final(self).last_reading() == now_nanos,
            (steps as int, final(self)@ as int) == tick_model(
                old(self)@ as int,
                old(self).last_reading() as int,
                now_nanos as int,
                fixed_dt as int,
            ),
    {
        let elapsed = if now_nanos > self.last {
            now_nanos - self.last
        } else {
            0
        };
        self.last = now_nanos;
        let room = u128::MAX - self.accumulator;
        let elapsed = if elapsed > room {
            room
        } else {
            elapsed
        };
        self.advance(elapsed, fixed_dt)
    }

    /// Reads the clock, accumulates the time since the reading the previous
    /// tick kept, and pays out whole steps of `fixed_dt` nanoseconds as
    /// `tick_at` does with that reading.
    pub fn tick(&mut self, fixed_dt: u128) -> (steps: u32)
        requires
            fixed_dt > 0,
        ensures
            exists|reading: u128|
                {
                    &&& final(self).last_reading() == reading
                    &&& (steps as int, final(self)@ as int) == #[trigger] tick_model(
                        old(self)@ as int,
                        old(self).last_reading() as int,
                        reading as int,
                        fixed_dt as int,
                    )
                },
    {
        let reading = whole_nanos(saturating_since(&now(), &self.origin));
        let steps = self.tick_at(reading, fixed_dt);
        steps
    }
}

impl Default for Clock {
    fn default() -> (c: Clock)
        ensures
            c@ == 0,
    {
        Clock::new()
    }
}

} // verus!
