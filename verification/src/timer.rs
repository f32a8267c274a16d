//! The repeating timer that paces a tower's fire.
use vstd::prelude::*;
use vstd::arithmetic::div_mod::lemma_fundamental_div_mod_converse;
use bevy::time::{Timer, TimerMode};
use std::time::Duration;
use crate::fixed::DT_LIMIT;

verus! {

/// A timer that starts over each time its period has elapsed. Times are in
/// milliseconds.
#[derive(Clone, Copy, Debug, PartialEq, Eq, Structural)]
pub struct RepeatingTimer {
    /// Time gathered since the timer last started over.
    pub elapsed: u64,
    /// The least time between two firings.
    pub period: u64,
}

/// Advances a repeating `bevy::time::Timer` by one tick.
///
/// The body builds a repeating timer of `period_ms` with `Timer::new`, sets
/// it to `elapsed_ms` with `Timer::set_elapsed`, calls `Timer::tick` with
/// `delta_ms`, and hands back what `Timer::elapsed` and
/// `Timer::just_finished` then report; `Duration::from_millis` and
/// `Duration::as_millis` carry the numbers in and out. Nothing of this is
/// verified. The contract claims what `tick` does to a running repeating
/// timer: it adds the delta to the elapsed time, and once the sum has reached
/// the period it takes out as many whole periods as fit and reports that it
/// just finished. The bounds keep the number of whole periods within the
/// `u32` in which the timer counts them, and the period away from the zero
/// that it divides by.
#[verifier::external_body]
fn tick_repeating(elapsed_ms: u64, period_ms: u64, delta_ms: u64) -> (r: (u64, bool))
    requires
        0 < period_ms,
        elapsed_ms < period_ms,
        delta_ms <= DT_LIMIT,
    ensures
        r.0 == (elapsed_ms + delta_ms) % (period_ms as int),
        r.1 == (elapsed_ms + delta_ms >= period_ms),
{
    let mut timer = Timer::new(Duration::from_millis(period_ms), TimerMode::Repeating);
    timer.set_elapsed(Duration::from_millis(elapsed_ms));
    timer.tick(Duration::from_millis(delta_ms));
    (timer.elapsed().as_millis() as u64, timer.just_finished())
}

impl RepeatingTimer {
    /// The period is positive and the elapsed time lies below it.
    pub open spec fn wf(self) -> bool {
        0 < self.period && self.elapsed < self.period
    }

    /// A timer of the given period with nothing elapsed; `None` for a period
    /// of zero, which would finish without end.
    pub fn new(period_ms: u64) -> (t: Option<RepeatingTimer>)
        ensures
            period_ms == 0 <==> t is None,
            t matches Some(timer) ==> timer == (RepeatingTimer { elapsed: 0, period: period_ms })
                && timer.wf(),
    {
        if period_ms == 0 {
            None
        } else {
            Some(RepeatingTimer { elapsed: 0, period: period_ms })
        }
    }

    /// The timer after a tick of `delta` milliseconds: the elapsed time grows
    /// by the delta, and a timer that reaches its period starts over from
    /// nothing, so that a full period lies between two firings.
    pub open spec fn ticked(self, delta: int) -> RepeatingTimer {
        RepeatingTimer {
            elapsed: if self.fires(delta) {
                0
            } else {
                (self.elapsed + delta) as u64
            },
            period: self.period,
        }
    }

    /// Whether a tick of `delta` milliseconds reaches the period.
    pub open spec fn fires(self, delta: int) -> bool {
        self.elapsed + delta >= self.period
    }

    /// Advances the timer by `delta_ms` and reports whether it reached its
    /// period during this tick. A timer that did starts over from nothing:
    /// what the tick had over the period is not kept.
    pub fn tick(&mut self, delta_ms: u64) -> (fired: bool)
        requires
            old(self).wf(),
            delta_ms <= DT_LIMIT,
        ensures
            *final(self) == old(self).ticked(delta_ms as int),
            fired == old(self).fires(delta_ms as int),
            final(self).wf(),
    {
        let (left_over, fired) = tick_repeating(self.elapsed, self.period, delta_ms);
        if fired {
            self.elapsed = 0;
        } else {
            proof {
                let sum = self.elapsed + delta_ms;
                lemma_fundamental_div_mod_converse(sum, self.period as int, 0, sum);
            }
            self.elapsed = left_over;
        }
        fired
    }

    /// The elapsed share of the period, in thousandths.
    pub fn progress(&self) -> (p: u64)
        requires
            self.wf(),
        ensures
            p == self.elapsed * 1000 / (self.period as int),
            p < 1000,
    {
        let e: u128 = self.elapsed as u128;
        let d: u128 = self.period as u128;
        assert(e * 1000 / (d as int) < 1000) by (nonlinear_arith)
            requires
                0 <= e < d,
        ;
        (e * 1000 / d) as u64
    }

    /// The timer after the ticks `deltas`, taken in order.
    pub open spec fn after(self, deltas: Seq<nat>) -> RepeatingTimer
        decreases deltas.len(),
    {
        if deltas.len() == 0 {
            self
        } else {
            self.after(deltas.drop_last()).ticked(deltas.last() as int)
        }
    }

    /// The number of ticks among `deltas` on which the timer fires.
    pub open spec fn fire_count(self, deltas: Seq<nat>) -> nat
        decreases deltas.len(),
    {
        if deltas.len() == 0 {
            0
        } else {
            let before = self.after(deltas.drop_last());
            let now: nat = if before.fires(deltas.last() as int) {
                1
            } else {
                0
            };
            self.fire_count(deltas.drop_last()) + now
        }
    }
}

/// The sum of the time steps `deltas`.
pub open spec fn total(deltas: Seq<nat>) -> nat
    decreases deltas.len(),
{
    if deltas.len() == 0 {
        0
    } else {
        total(deltas.drop_last()) + deltas.last()
    }
}

/// However many ticks pass, the timer stays well formed and keeps its
/// period.
pub proof fn lemma_after_is_wf(t: RepeatingTimer, deltas: Seq<nat>)
    requires
        t.wf(),
    ensures
        t.after(deltas).wf(),
        t.after(deltas).period == t.period,
    decreases deltas.len(),
{
    if deltas.len() > 0 {
        lemma_after_is_wf(t, deltas.drop_last());
    }
}

/// While the timer does not fire, its elapsed time is the time it started
/// with and every step since.
pub proof fn lemma_silent_timer_only_gathers(t: RepeatingTimer, deltas: Seq<nat>)
    requires
        t.wf(),
        t.fire_count(deltas) == 0,
    ensures
        t.after(deltas).elapsed == t.elapsed + total(deltas),
        t.elapsed + total(deltas) < t.period,
    decreases deltas.len(),
{
    if deltas.len() > 0 {
        lemma_silent_timer_only_gathers(t, deltas.drop_last());
        lemma_after_is_wf(t, deltas.drop_last());
    }
}

/// A timer that has just fired has nothing elapsed.
pub proof fn lemma_firing_starts_over(t: RepeatingTimer, delta: nat)
    requires
        t.wf(),
        t.fires(delta as int),
    ensures
        t.ticked(delta as int).elapsed == 0,
        t.ticked(delta as int).period == t.period,
        t.ticked(delta as int).wf(),
{
}

/// A timer does not fire before its time: while what has elapsed and the
/// steps of a run of ticks add up to less than the period, none of the ticks
/// fires.
pub proof fn lemma_silent_below_the_period(t: RepeatingTimer, deltas: Seq<nat>)
    requires
        t.wf(),
        t.elapsed + total(deltas) < t.period,
    ensures
        t.fire_count(deltas) == 0,
        t.after(deltas).elapsed == t.elapsed + total(deltas),
    decreases deltas.len(),
{
    if deltas.len() > 0 {
        lemma_silent_below_the_period(t, deltas.drop_last());
        lemma_after_is_wf(t, deltas.drop_last());
    }
}

/// A tower fires at most once every period: after a tick on which the timer
/// fires, no tick fires while the steps since add up to less than the
/// period. Two shots of one tower are never less than a period apart.
pub proof fn lemma_no_shot_within_a_period_of_the_last(t: RepeatingTimer, delta: nat, deltas: Seq<nat>)
    requires
        t.wf(),
        t.fires(delta as int),
        total(deltas) < t.period,
    ensures
        t.ticked(delta as int).fire_count(deltas) == 0,
        t.ticked(delta as int).after(deltas).elapsed == total(deltas),
{
    lemma_firing_starts_over(t, delta);
    lemma_silent_below_the_period(t.ticked(delta as int), deltas);
}

/// The time between two shots: where the timer fires on a tick, stays
/// silent for a run of ticks and fires on the tick after them, the steps
/// since the first firing, that of the second included, make up a period or
/// more, and without the step of the second less than a period: the second
/// shot comes a period after the first, and no more than its own tick late.
pub proof fn lemma_shots_are_a_period_apart(t: RepeatingTimer, first: nat, between: Seq<nat>, second: nat)
    requires
        t.wf(),
        t.fires(first as int),
        t.ticked(first as int).fire_count(between) == 0,
        t.ticked(first as int).after(between).fires(second as int),
    ensures
        total(between) < t.period <= total(between) + second,
{
    lemma_firing_starts_over(t, first);
    let started = t.ticked(first as int);
    lemma_silent_timer_only_gathers(started, between);
    lemma_after_is_wf(started, between);
}

/// A tower fires at most once for every full period: however the time steps
/// fall, each firing accounts for one whole period of the time gathered, and
/// what has elapsed since the last for the rest.
pub proof fn lemma_fires_at_most_once_per_period(t: RepeatingTimer, deltas: Seq<nat>)
    requires
        t.wf(),
    ensures
        t.fire_count(deltas) * t.period + t.after(deltas).elapsed <= t.elapsed + total(deltas),
        t.fire_count(deltas) * t.period <= t.elapsed + total(deltas),
    decreases deltas.len(),
{
    let p = t.period as int;
    if deltas.len() == 0 {
        assert(t.fire_count(deltas) * t.period == 0) by (nonlinear_arith)
            requires
                t.fire_count(deltas) == 0,
        ;
    } else {
        let init = deltas.drop_last();
        lemma_fires_at_most_once_per_period(t, init);
        lemma_after_is_wf(t, init);
        let count = t.fire_count(init) as int;
        assert((count + 1) * p == count * p + p) by (nonlinear_arith);
        assert(0 <= t.fire_count(deltas) * t.period) by (nonlinear_arith)
            requires
                0 <= t.fire_count(deltas),
                0 <= t.period,
        ;
    }
}

/// A tower with an enemy in range is never silent for a whole period: any
/// run of ticks that gathers at least one period holds a tick on which the
/// timer fires.
pub proof fn lemma_fires_within_a_period(t: RepeatingTimer, deltas: Seq<nat>)
    requires
        t.wf(),
        total(deltas) >= t.period,
    ensures
        t.fire_count(deltas) >= 1,
{
    if t.fire_count(deltas) == 0 {
        lemma_silent_timer_only_gathers(t, deltas);
    }
}

} // verus!
