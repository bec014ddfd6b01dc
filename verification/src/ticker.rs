use vstd::prelude::*;

use std::time::Duration;

verus! {

/// Something driven at a fixed rate, with a slower timer beside it.
pub trait Tickable: Sized {
    type Error;

    /// Time between two calls of `tick`, in microseconds.
    const DT_TICK_MICROS: u64;

    /// Time between two calls of `tick_timer`, in microseconds; longer than
    /// `DT_TICK_MICROS`.
    const DT_TICK_TIMER_MICROS: u64;

    /// `after` is what a tick that gave `r` leaves of `self`. Unless an
    /// implementation says more, any outcome may follow.
    open spec fn ticked(&self, after: &Self, r: Result<(), Self::Error>) -> bool {
        true
    }

    /// `after` is what a timer tick leaves of `self`. Unless an implementation
    /// says more, any outcome may follow.
    open spec fn timer_ticked(&self, after: &Self) -> bool {
        true
    }

    fn tick(&mut self) -> (r: Result<(), Self::Error>)
        ensures
            old(self).ticked(final(self), r),
    ;

    fn tick_timer(&mut self)
        ensures
            old(self).timer_ticked(final(self)),
    ;
}

/// One call that a ticker makes on its target.
pub enum TickEvent {
    /// A call of `tick`.
    Tick,
    /// A call of `tick_timer`.
    Timer,
}

/// `after` is what `call` leaves of `before`, a tick succeeding.
pub open spec fn called<T: Tickable>(before: T, call: TickEvent, after: T) -> bool {
    match call {
        TickEvent::Tick => before.ticked(&after, Ok(())),
        TickEvent::Timer => before.timer_ticked(&after),
    }
}

/// `states` are the values that the calls `events` lead through, the first
/// before any call and each next one what a call leaves of the one before it.
pub open spec fn is_trace<T: Tickable>(states: Seq<T>, events: Seq<TickEvent>) -> bool {
    &&& states.len() == events.len() + 1
    &&& forall|i: int| 0 <= i < events.len() ==> #[trigger] called(states[i], events[i], states[i + 1])
}

/// `after` is what the calls `events` leave of `before`, each tick succeeding.
pub open spec fn runs<T: Tickable>(before: T, after: T, events: Seq<TickEvent>) -> bool {
    exists|states: Seq<T>|
        #[trigger] is_trace(states, events) && states[0] == before && states.last() == after
}

/// A run followed by one more call is a run of the longer sequence of calls.
proof fn lemma_runs_push<T: Tickable>(before: T, mid: T, after: T, events: Seq<TickEvent>, e: TickEvent)
    requires
        runs(before, mid, events),
        called(mid, e, after),
    ensures
        runs(before, after, events.push(e)),
{
    let states = choose|states: Seq<T>|
        #[trigger] is_trace(states, events) && states[0] == before && states.last() == mid;
    let longer = states.push(after);
    assert forall|i: int| 0 <= i < events.push(e).len() implies #[trigger] called(
        longer[i],
        events.push(e)[i],
        longer[i + 1],
    ) by {
        if i < events.len() {
            assert(called(states[i], events[i], states[i + 1]));
        }
    }
    assert(is_trace(longer, events.push(e)));
}

/// A run of no calls ends where it starts; a run of one call ends where that
/// call leads.
pub proof fn lemma_runs_short<T: Tickable>(before: T, after: T, events: Seq<TickEvent>)
    requires
        runs(before, after, events),
        events.len() <= 1,
    ensures
        events.len() == 0 ==> after == before,
        events.len() == 1 ==> called(before, events[0], after),
{
    let s = choose|s: Seq<T>| #[trigger] is_trace(s, events) && s[0] == before && s.last() == after;
    assert(is_trace(s, events));
    if events.len() == 1 {
        let i: int = 0;
        assert(called(s[i], events[i], s[i + 1]));
        assert(s.last() == s[1]);
    }
}

/// Nothing happens in a run of no calls.
proof fn lemma_runs_empty<T: Tickable>(t: T)
    ensures
        runs(t, t, Seq::empty()),
{
    assert(is_trace(seq![t], Seq::<TickEvent>::empty()));
}

/// The calls that `k` ticks of `dt` make, starting from the timer backlog `t`:
/// before each tick that brings the backlog to `dtt`, a timer tick.
pub open spec fn schedule(t: int, k: nat, dt: int, dtt: int) -> Seq<TickEvent>
    decreases k,
{
    if k == 0 {
        Seq::empty()
    } else {
        let before = schedule(t, (k - 1) as nat, dt, dtt);
        if timer_after(t, (k - 1) as nat, dt, dtt) + dt >= dtt {
            before.push(TickEvent::Timer).push(TickEvent::Tick)
        } else {
            before.push(TickEvent::Tick)
        }
    }
}

/// The whole number of nanoseconds in a duration.
pub uninterp spec fn duration_nanos(d: Duration) -> u128;

/// `Duration::as_nanos`; its result is named [`duration_nanos`] of the duration.
#[verifier::external_body]
fn as_nanos(d: Duration) -> (r: u128)
    ensures
        r == duration_nanos(d),
{
    d.as_nanos()
}

/// Time not yet spent, in nanoseconds.
pub struct TickerState {
    /// Time received and not yet spent on ticks.
    pub pending: u128,
    /// Time spent on ticks since the last timer tick.
    pub timer_pending: u128,
}

/// The timer backlog after `k` ticks of `dt` starting from `t`: each tick adds
/// `dt`, and once the backlog reaches `dtt` a timer tick takes `dtt` off.
pub open spec fn timer_after(t: int, k: nat, dt: int, dtt: int) -> int
    decreases k,
{
    if k == 0 {
        t
    } else {
        let u = timer_after(t, (k - 1) as nat, dt, dtt) + dt;
        if u >= dtt {
            u - dtt
        } else {
            u
        }
    }
}

/// How many timer ticks fall within `k` ticks of `dt` starting from backlog `t`.
pub open spec fn timer_ticks(t: int, k: nat, dt: int, dtt: int) -> nat
    decreases k,
{
    if k == 0 {
        0
    } else {
        let u = timer_after(t, (k - 1) as nat, dt, dtt) + dt;
        timer_ticks(t, (k - 1) as nat, dt, dtt) + if u >= dtt { 1nat } else { 0nat }
    }
}

/// `after` is `before` once `delta` nanoseconds were added and ticks of `dt`
/// nanoseconds run, with timer ticks of `dtt`: all the ticks that fit when `r`
/// is `Ok`, the first `k` of them when the `k`-th failed.
pub open spec fn advanced<E>(before: TickerState, delta: u128, dt: u128, dtt: u128, r: Result<(), E>, after: TickerState) -> bool {
    let total = before.pending + delta;
    let t = before.timer_pending as int;
    match r {
        Ok(()) => {
            &&& after.pending == total % (dt as int)
            &&& after.timer_pending == timer_after(t, (total / (dt as int)) as nat, dt as int, dtt as int)
        },
        Err(_) => exists|k: nat|
            1 <= k <= total / (dt as int) && after.pending == total - k * dt
                && after.timer_pending == #[trigger] timer_after(t, k, dt as int, dtt as int),
    }
}

/// `target` went from `before` to `after` through the calls that `advanced`
/// describes, the clock going from `clock` to `clock_after`: the whole
/// schedule when `r` is `Ok`; when `r` is an error, the schedule up to the
/// failing tick, whose error it is, the clock having spent the time of the
/// ticks up to it.
pub open spec fn driven<T: Tickable>(
    clock: TickerState,
    delta: u128,
    dt: u128,
    dtt: u128,
    r: Result<(), T::Error>,
    clock_after: TickerState,
    before: T,
    after: T,
) -> bool {
    let total = clock.pending + delta;
    let t = clock.timer_pending as int;
    match r {
        Ok(()) => runs(before, after, schedule(t, (total / (dt as int)) as nat, dt as int, dtt as int)),
        Err(e) => exists|k: nat, mid: T|
            1 <= k <= total / (dt as int) && clock_after.pending == total - k * dt
                && clock_after.timer_pending == timer_after(t, k, dt as int, dtt as int) && #[trigger] runs(
                before,
                mid,
                schedule(t, k, dt as int, dtt as int).drop_last(),
            ) && mid.ticked(&after, Err(e)),
    }
}

/// The rates that [`Ticker::advance`] runs with: a tick is shorter than a timer
/// tick, and both are far from the range of the counters.
pub open spec fn rates_fit(dt: u128, dtt: u128) -> bool {
    0 < dt < dtt <= u128::MAX / 2
}

/// Turns elapsed time into a whole number of ticks, and ticks into timer ticks.
pub struct Ticker {
    accumulator: u128,
    timer_accumulator: u128,
}

impl Ticker {
    pub closed spec fn view(&self) -> TickerState {
        TickerState { pending: self.accumulator, timer_pending: self.timer_accumulator }
    }

    /// A ticker with no time pending.
    pub fn new() -> (r: Self)
        ensures
            r@ == (TickerState { pending: 0, timer_pending: 0 }),
    {
        Ticker { accumulator: 0, timer_accumulator: 0 }
    }

    /// Adds `delta` nanoseconds and runs every tick that fits in the time
    /// pending, each `dt` nanoseconds long; before each tick that brings the
    /// timer backlog to `dtt` nanoseconds, runs a timer tick. Stops at the first
    /// tick that fails and passes its error on.
    pub fn advance<T: Tickable>(&mut self, delta: u128, dt: u128, dtt: u128, target: &mut T) -> (r: Result<(), T::Error>)
        requires
            rates_fit(dt, dtt),
            old(self)@.timer_pending <= u128::MAX / 2,
            old(self)@.pending + delta <= u128::MAX,
        ensures
            final(self)@.timer_pending <= u128::MAX / 2,
            advanced(old(self)@, delta, dt, dtt, r, final(self)@),
            driven(old(self)@, delta, dt, dtt, r, final(self)@, *old(target), *final(target)),
    {
        let ghost total: int = self.accumulator + delta;
        let ghost t0 = self.timer_accumulator as int;
        let ghost start = *target;
        self.accumulator = self.accumulator + delta;
        let ghost mut k: nat = 0;
        proof {
            lemma_runs_empty(start);
        }
        assert(schedule(t0, 0, dt as int, dtt as int) =~= Seq::<TickEvent>::empty());

        while self.accumulator >= dt
            invariant
                rates_fit(dt, dtt),
                total == old(self)@.pending + delta,
                t0 == old(self)@.timer_pending,
                start == *old(target),
                total == self.accumulator + k * dt,
                self.timer_accumulator == timer_after(t0, k, dt as int, dtt as int),
                self.timer_accumulator <= u128::MAX / 2,
                runs(start, *target, schedule(t0, k, dt as int, dtt as int)),
            decreases self.accumulator,
        {
            let ghost events = schedule(t0, k, dt as int, dtt as int);
            let ghost before_timer = *target;
            self.accumulator = self.accumulator - dt;
            self.timer_accumulator = self.timer_accumulator + dt;

            if self.timer_accumulator >= dtt {
                target.tick_timer();

                self.timer_accumulator = self.timer_accumulator - dtt;
                proof {
                    lemma_runs_push(start, before_timer, *target, events, TickEvent::Timer);
                }
            }
            let ghost before_tick = *target;
            let ghost prefix = schedule(t0, k + 1, dt as int, dtt as int).drop_last();
            proof {
                if timer_after(t0, k, dt as int, dtt as int) + dt >= dtt {
                    assert(prefix =~= events.push(TickEvent::Timer));
                } else {
                    assert(prefix =~= events);
                }
                assert(runs(start, before_tick, prefix));
                assert((k + 1) * dt == k * dt + dt) by (nonlinear_arith);
                k = k + 1;
            }

            let outcome = target.tick();
            match outcome {
                Ok(u) => {
                    proof {
                        assert(u == ());
                        assert(outcome == Ok::<(), T::Error>(u));
                        let next = schedule(t0, k, dt as int, dtt as int);
                        lemma_runs_push(start, before_tick, *target, prefix, TickEvent::Tick);
                        assert(prefix.push(TickEvent::Tick) =~= next);
                    }
                },
                Err(e) => {
                    proof {
                        assert(k <= total / (dt as int)) by (nonlinear_arith)
                            requires total == self.accumulator + k * dt, dt > 0, k >= 1;
                        assert(self@.timer_pending == timer_after(t0, k, dt as int, dtt as int));
                        assert(runs(start, before_tick, schedule(t0, k, dt as int, dtt as int).drop_last()));
                    }
                    return Err(e);
                },
            }
        }
        proof {
            assert(k == total / (dt as int) && self.accumulator == total % (dt as int)) by (nonlinear_arith)
                requires total == self.accumulator + k * dt, self.accumulator < dt, dt > 0;
        }
        Ok(())
    }

    /// Runs the ticks of `target` that `delta` more time allows, as
    /// [`Ticker::advance`] does with the durations in nanoseconds. A tick of `T`
    /// must be shorter than its timer tick and longer than nothing. Where the time
    /// pending would leave the counters' range, nothing runs and the ticker stays
    /// as it is.
    pub fn tick<T: Tickable>(&mut self, delta: Duration, target: &mut T) -> (r: Result<(), T::Error>)
        requires
            0 < T::DT_TICK_MICROS < T::DT_TICK_TIMER_MICROS,
        ensures
            ({
                let dt = (T::DT_TICK_MICROS * 1000) as u128;
                let dtt = (T::DT_TICK_TIMER_MICROS * 1000) as u128;
                let d = duration_nanos(delta);
                if old(self)@.timer_pending <= u128::MAX / 2 && old(self)@.pending + d <= u128::MAX {
                    &&& advanced(old(self)@, d, dt, dtt, r, final(self)@)
                    &&& driven(old(self)@, d, dt, dtt, r, final(self)@, *old(target), *final(target))
                } else {
                    &&& r is Ok
                    &&& final(self)@ == old(self)@
                    &&& *final(target) == *old(target)
                }
            }),
    {
        let dt = T::DT_TICK_MICROS as u128 * 1000;
        let dtt = T::DT_TICK_TIMER_MICROS as u128 * 1000;
        let d = as_nanos(delta);
        if self.timer_accumulator <= u128::MAX / 2 && d <= u128::MAX - self.accumulator {
            self.advance(d, dt, dtt, target)
        } else {
            Ok(())
        }
    }
}

/// How many times `e` occurs in `events`.
pub open spec fn occurrences(events: Seq<TickEvent>, e: TickEvent) -> nat
    decreases events.len(),
{
    if events.len() == 0 {
        0
    } else {
        occurrences(events.drop_last(), e) + if events.last() == e { 1nat } else { 0nat }
    }
}

/// `k` ticks make `k` calls of `tick` and as many calls of `tick_timer` as
/// timer ticks fall due.
pub proof fn law_schedule_counts(t: int, k: nat, dt: int, dtt: int)
    ensures
        schedule(t, k, dt, dtt).len() == k + timer_ticks(t, k, dt, dtt),
        occurrences(schedule(t, k, dt, dtt), TickEvent::Tick) == k,
        occurrences(schedule(t, k, dt, dtt), TickEvent::Timer) == timer_ticks(t, k, dt, dtt),
    decreases k,
{
    if k > 0 {
        let before = schedule(t, (k - 1) as nat, dt, dtt);
        law_schedule_counts(t, (k - 1) as nat, dt, dtt);
        if timer_after(t, (k - 1) as nat, dt, dtt) + dt >= dtt {
            let mid = before.push(TickEvent::Timer);
            assert(mid.drop_last() =~= before);
            assert(mid.push(TickEvent::Tick).drop_last() =~= mid);
            assert(occurrences(mid, TickEvent::Tick) == occurrences(before, TickEvent::Tick));
            assert(occurrences(mid, TickEvent::Timer) == occurrences(before, TickEvent::Timer) + 1);
            assert(occurrences(mid.push(TickEvent::Tick), TickEvent::Tick) == occurrences(mid, TickEvent::Tick) + 1);
            assert(occurrences(mid.push(TickEvent::Tick), TickEvent::Timer) == occurrences(mid, TickEvent::Timer));
        } else {
            assert(before.push(TickEvent::Tick).drop_last() =~= before);
            assert(occurrences(before.push(TickEvent::Tick), TickEvent::Tick) == occurrences(before, TickEvent::Tick) + 1);
            assert(occurrences(before.push(TickEvent::Tick), TickEvent::Timer) == occurrences(before, TickEvent::Timer));
        }
    }
}

/// While the timer backlog starts below a timer tick, the backlog after `k`
/// ticks is the time they took, plus the backlog, modulo a timer tick; the timer
/// ticks are the whole timer ticks in it.
pub proof fn law_timer_closed_form(t: int, k: nat, dt: int, dtt: int)
    requires
        0 <= t < dtt,
        0 < dt <= dtt,
    ensures
        timer_after(t, k, dt, dtt) == (t + k * dt) % dtt,
        timer_ticks(t, k, dt, dtt) == (t + k * dt) / dtt,
    decreases k,
{
    if k == 0 {
        vstd::arithmetic::div_mod::lemma_fundamental_div_mod_converse(t, dtt, 0, t);
    } else {
        let j = (k - 1) as nat;
        law_timer_closed_form(t, j, dt, dtt);
        let q = (t + j * dt) / dtt;
        let u0 = (t + j * dt) % dtt;
        vstd::arithmetic::div_mod::lemma_fundamental_div_mod(t + j * dt, dtt);
        assert(t + k * dt == t + j * dt + dt) by (nonlinear_arith)
            requires k == j + 1;
        if u0 + dt >= dtt {
            assert(t + k * dt == (q + 1) * dtt + (u0 + dt - dtt)) by (nonlinear_arith)
                requires t + j * dt == dtt * q + u0, t + k * dt == t + j * dt + dt;
            vstd::arithmetic::div_mod::lemma_fundamental_div_mod_converse(t + k * dt, dtt, q + 1, u0 + dt - dtt);
        } else {
            assert(t + k * dt == q * dtt + (u0 + dt)) by (nonlinear_arith)
                requires t + j * dt == dtt * q + u0, t + k * dt == t + j * dt + dt;
            vstd::arithmetic::div_mod::lemma_fundamental_div_mod_converse(t + k * dt, dtt, q, u0 + dt);
        }
    }
}

/// `k1` ticks and then `k2` more leave the backlog that `k1 + k2` ticks leave.
proof fn lemma_timer_after_add(t: int, k1: nat, k2: nat, dt: int, dtt: int)
    ensures
        timer_after(timer_after(t, k1, dt, dtt), k2, dt, dtt) == timer_after(t, k1 + k2, dt, dtt),
    decreases k2,
{
    if k2 > 0 {
        lemma_timer_after_add(t, k1, (k2 - 1) as nat, dt, dtt);
        assert((k1 + k2 - 1) as nat == k1 + (k2 - 1) as nat);
    }
}

/// The calls of `k1 + k2` ticks are those of the first `k1`, then those of the
/// `k2` after them.
proof fn lemma_schedule_append(t: int, k1: nat, k2: nat, dt: int, dtt: int)
    ensures
        schedule(t, k1 + k2, dt, dtt) == schedule(t, k1, dt, dtt) + schedule(timer_after(t, k1, dt, dtt), k2, dt, dtt),
    decreases k2,
{
    let t1 = timer_after(t, k1, dt, dtt);
    if k2 == 0 {
        assert(schedule(t, k1, dt, dtt) + schedule(t1, 0, dt, dtt) =~= schedule(t, k1, dt, dtt));
    } else {
        let j = (k2 - 1) as nat;
        lemma_schedule_append(t, k1, j, dt, dtt);
        lemma_timer_after_add(t, k1, j, dt, dtt);
        assert((k1 + k2 - 1) as nat == k1 + j);
        let a = schedule(t, k1, dt, dtt);
        let b = schedule(t1, j, dt, dtt);
        if timer_after(t1, j, dt, dtt) + dt >= dtt {
            assert(a + b.push(TickEvent::Timer).push(TickEvent::Tick) =~= (a + b).push(TickEvent::Timer).push(TickEvent::Tick));
        } else {
            assert(a + b.push(TickEvent::Tick) =~= (a + b).push(TickEvent::Tick));
        }
    }
}

/// A run followed by another is a run of both sequences of calls.
proof fn lemma_runs_append<T: Tickable>(a: T, b: T, c: T, first: Seq<TickEvent>, second: Seq<TickEvent>)
    requires
        runs(a, b, first),
        runs(b, c, second),
    ensures
        runs(a, c, first + second),
{
    let s1 = choose|states: Seq<T>| #[trigger] is_trace(states, first) && states[0] == a && states.last() == b;
    let s2 = choose|states: Seq<T>| #[trigger] is_trace(states, second) && states[0] == b && states.last() == c;
    let states = s1 + s2.drop_first();
    let events = first + second;
    assert forall|i: int| 0 <= i < events.len() implies #[trigger] called(states[i], events[i], states[i + 1]) by {
        if i < first.len() {
            assert(called(s1[i], first[i], s1[i + 1]));
        } else {
            let j = i - first.len();
            assert(called(s2[j], second[j], s2[j + 1]));
        }
    }
    assert(is_trace(states, events));
}

/// Time given in two parts runs what the same time given at once runs: the
/// clock ends the same, and the target goes through the same calls.
pub proof fn law_split_time<T: Tickable>(
    clock0: TickerState,
    d1: u128,
    d2: u128,
    dt: u128,
    dtt: u128,
    clock1: TickerState,
    clock2: TickerState,
    a: T,
    b: T,
    c: T,
)
    requires
        rates_fit(dt, dtt),
        clock0.pending + d1 + d2 <= u128::MAX,
        advanced(clock0, d1, dt, dtt, Ok::<(), T::Error>(()), clock1),
        driven(clock0, d1, dt, dtt, Ok::<(), T::Error>(()), clock1, a, b),
        advanced(clock1, d2, dt, dtt, Ok::<(), T::Error>(()), clock2),
        driven(clock1, d2, dt, dtt, Ok::<(), T::Error>(()), clock2, b, c),
    ensures
        advanced(clock0, (d1 + d2) as u128, dt, dtt, Ok::<(), T::Error>(()), clock2),
        driven(clock0, (d1 + d2) as u128, dt, dtt, Ok::<(), T::Error>(()), clock2, a, c),
{
    let d = dt as int;
    let x1 = clock0.pending + d1;
    let k1 = x1 / d;
    let r1 = x1 % d;
    let k2 = (r1 + d2) / d;
    let r2 = (r1 + d2) % d;
    vstd::arithmetic::div_mod::lemma_fundamental_div_mod(x1, d);
    vstd::arithmetic::div_mod::lemma_fundamental_div_mod(r1 + d2, d);
    assert(x1 + d2 == (k1 + k2) * d + r2) by (nonlinear_arith)
        requires x1 == d * k1 + r1, r1 + d2 == d * k2 + r2;
    vstd::arithmetic::div_mod::lemma_fundamental_div_mod_converse(x1 + d2, d, k1 + k2, r2);
    let t0 = clock0.timer_pending as int;
    lemma_timer_after_add(t0, k1 as nat, k2 as nat, d, dtt as int);
    lemma_schedule_append(t0, k1 as nat, k2 as nat, d, dtt as int);
    lemma_runs_append(
        a,
        b,
        c,
        schedule(t0, k1 as nat, d, dtt as int),
        schedule(clock1.timer_pending as int, k2 as nat, d, dtt as int),
    );
}

/// After a run that went through, less than a tick of time is pending, and a
/// timer backlog that was below a timer tick stays below it.
pub proof fn law_backlog_stays_small<E>(before: TickerState, delta: u128, dt: u128, dtt: u128, after: TickerState)
    requires
        rates_fit(dt, dtt),
        before.timer_pending < dtt,
        advanced(before, delta, dt, dtt, Ok::<(), E>(()), after),
    ensures
        after.pending < dt,
        after.timer_pending < dtt,
{
    let k = ((before.pending + delta) / (dt as int)) as nat;
    law_timer_closed_form(before.timer_pending as int, k, dt as int, dtt as int);
}

/// Each call leads from a state to one state only, and a tick gives one outcome
/// only.
pub open spec fn deterministic<T: Tickable>() -> bool {
    &&& forall|x: T, y1: T, y2: T, r1: Result<(), T::Error>, r2: Result<(), T::Error>|
        #![trigger x.ticked(&y1, r1), x.ticked(&y2, r2)]
        x.ticked(&y1, r1) && x.ticked(&y2, r2) ==> r1 == r2 && y1 == y2
    &&& forall|x: T, y1: T, y2: T|
        #![trigger x.timer_ticked(&y1), x.timer_ticked(&y2)]
        x.timer_ticked(&y1) && x.timer_ticked(&y2) ==> y1 == y2
}

/// Two traces from the same state through the same first `j` calls of a
/// deterministic target reach the same state after them.
proof fn lemma_traces_agree<T: Tickable>(s1: Seq<T>, e1: Seq<TickEvent>, s2: Seq<T>, e2: Seq<TickEvent>, j: int)
    requires
        deterministic::<T>(),
        is_trace(s1, e1),
        is_trace(s2, e2),
        s1[0] == s2[0],
        0 <= j <= e1.len(),
        j <= e2.len(),
        forall|i: int| 0 <= i < j ==> e1[i] == e2[i],
    ensures
        s1[j] == s2[j],
    decreases j,
{
    if j > 0 {
        lemma_traces_agree(s1, e1, s2, e2, j - 1);
        let i = j - 1;
        assert(called(s1[i], e1[i], s1[i + 1]));
        assert(called(s2[i], e2[i], s2[i + 1]));
        match e1[i] {
            TickEvent::Tick => {
                assert(s1[i].ticked(&s1[i + 1], Ok(())) && s1[i].ticked(&s2[i + 1], Ok(())));
            },
            TickEvent::Timer => {
                assert(s1[i].timer_ticked(&s1[i + 1]) && s1[i].timer_ticked(&s2[i + 1]));
            },
        }
    }
}

/// The schedule of `k` ticks, for `k` of at least one, ends with the `k`-th tick.
proof fn lemma_schedule_ends_with_tick(t: int, k: nat, dt: int, dtt: int)
    requires
        k >= 1,
    ensures
        schedule(t, k, dt, dtt).len() >= 1,
        schedule(t, k, dt, dtt).last() == TickEvent::Tick,
{
}

/// The schedule of `k` ticks starts the schedule of `k + m` ticks.
proof fn lemma_schedule_prefix(t: int, k: nat, m: nat, dt: int, dtt: int)
    ensures
        schedule(t, k, dt, dtt).len() <= schedule(t, k + m, dt, dtt).len(),
        forall|i: int|
            0 <= i < schedule(t, k, dt, dtt).len() ==> schedule(t, k + m, dt, dtt)[i] == schedule(t, k, dt, dtt)[i],
{
    lemma_schedule_append(t, k, m, dt, dtt);
}

/// A run through calls `events` and a trace through more calls that start with
/// them agree on the state after those calls, for a deterministic target.
proof fn lemma_run_matches_trace<T: Tickable>(before: T, mid: T, events: Seq<TickEvent>, states: Seq<T>, longer: Seq<TickEvent>)
    requires
        deterministic::<T>(),
        runs(before, mid, events),
        is_trace(states, longer),
        states[0] == before,
        events.len() <= longer.len(),
        forall|i: int| 0 <= i < events.len() ==> longer[i] == events[i],
    ensures
        states[events.len() as int] == mid,
{
    let s = choose|s: Seq<T>| #[trigger] is_trace(s, events) && s[0] == before && s.last() == mid;
    lemma_traces_agree(s, events, states, longer, events.len() as int);
}

/// A deterministic target driven for the same time from the same clock ends in
/// the same state, with the same outcome and the same clock.
pub proof fn law_driven_deterministic<T: Tickable>(
    clock: TickerState,
    delta: u128,
    dt: u128,
    dtt: u128,
    before: T,
    r1: Result<(), T::Error>,
    clock1: TickerState,
    after1: T,
    r2: Result<(), T::Error>,
    clock2: TickerState,
    after2: T,
)
    requires
        rates_fit(dt, dtt),
        deterministic::<T>(),
        advanced(clock, delta, dt, dtt, r1, clock1),
        driven(clock, delta, dt, dtt, r1, clock1, before, after1),
        advanced(clock, delta, dt, dtt, r2, clock2),
        driven(clock, delta, dt, dtt, r2, clock2, before, after2),
    ensures
        r1 == r2,
        clock1 == clock2,
        after1 == after2,
{
    let total = clock.pending + delta;
    let t = clock.timer_pending as int;
    let kk = (total / (dt as int)) as nat;
    let full = schedule(t, kk, dt as int, dtt as int);
    match (r1, r2) {
        (Ok(u1), Ok(u2)) => {
            assert(u1 == u2);
            let s1 = choose|s: Seq<T>| #[trigger] is_trace(s, full) && s[0] == before && s.last() == after1;
            lemma_run_matches_trace(before, after2, full, s1, full);
        },
        (Ok(()), Err(e)) => {
            lemma_ok_excludes_err(clock, delta, dt, dtt, before, after1, e, clock2, after2);
        },
        (Err(e), Ok(())) => {
            lemma_ok_excludes_err(clock, delta, dt, dtt, before, after2, e, clock1, after1);
        },
        (Err(e1), Err(e2)) => {
            let (k1, m1) = choose|k: nat, mid: T|
                1 <= k <= total / (dt as int) && clock1.pending == total - k * dt
                    && clock1.timer_pending == timer_after(t, k, dt as int, dtt as int) && #[trigger] runs(
                    before,
                    mid,
                    schedule(t, k, dt as int, dtt as int).drop_last(),
                ) && mid.ticked(&after1, Err(e1));
            let (k2, m2) = choose|k: nat, mid: T|
                1 <= k <= total / (dt as int) && clock2.pending == total - k * dt
                    && clock2.timer_pending == timer_after(t, k, dt as int, dtt as int) && #[trigger] runs(
                    before,
                    mid,
                    schedule(t, k, dt as int, dtt as int).drop_last(),
                ) && mid.ticked(&after2, Err(e2));
            if k1 < k2 {
                lemma_err_before_err(clock, delta, dt, dtt, before, k1, m1, after1, e1, k2, m2);
            } else if k2 < k1 {
                lemma_err_before_err(clock, delta, dt, dtt, before, k2, m2, after2, e2, k1, m1);
            } else {
                let prefix = schedule(t, k1, dt as int, dtt as int).drop_last();
                let s1 = choose|s: Seq<T>| #[trigger] is_trace(s, prefix) && s[0] == before && s.last() == m1;
                lemma_run_matches_trace(before, m2, prefix, s1, prefix);
                assert(s1.last() == s1[prefix.len() as int]);
                assert(m1.ticked(&after1, Err(e1)) && m1.ticked(&after2, Err(e2)));
            }
        },
    }
}

/// A deterministic target cannot both get through every tick of a run and fail
/// one of them.
proof fn lemma_ok_excludes_err<T: Tickable>(
    clock: TickerState,
    delta: u128,
    dt: u128,
    dtt: u128,
    before: T,
    after_ok: T,
    e: T::Error,
    clock_err: TickerState,
    after_err: T,
)
    requires
        rates_fit(dt, dtt),
        deterministic::<T>(),
        driven(clock, delta, dt, dtt, Ok(()), clock_err, before, after_ok),
    ensures
        !driven(clock, delta, dt, dtt, Err(e), clock_err, before, after_err),
{
    if driven(clock, delta, dt, dtt, Err(e), clock_err, before, after_err) {
        lemma_ok_err_contradict(clock, delta, dt, dtt, before, after_ok, e, clock_err, after_err);
    }
}

/// The two runs that [`lemma_ok_excludes_err`] rules out cannot both happen.
proof fn lemma_ok_err_contradict<T: Tickable>(
    clock: TickerState,
    delta: u128,
    dt: u128,
    dtt: u128,
    before: T,
    after_ok: T,
    e: T::Error,
    clock_err: TickerState,
    after_err: T,
)
    requires
        rates_fit(dt, dtt),
        deterministic::<T>(),
        driven(clock, delta, dt, dtt, Ok(()), clock_err, before, after_ok),
        driven(clock, delta, dt, dtt, Err(e), clock_err, before, after_err),
    ensures
        !driven(clock, delta, dt, dtt, Err(e), clock_err, before, after_err),
{
    let total = clock.pending + delta;
    let t = clock.timer_pending as int;
    let kk = (total / (dt as int)) as nat;
    let full = schedule(t, kk, dt as int, dtt as int);
    let (k, m) = choose|k: nat, mid: T|
        1 <= k <= total / (dt as int) && clock_err.pending == total - k * dt
            && clock_err.timer_pending == timer_after(t, k, dt as int, dtt as int) && #[trigger] runs(
            before,
            mid,
            schedule(t, k, dt as int, dtt as int).drop_last(),
        ) && mid.ticked(&after_err, Err(e));
    let upto = schedule(t, k, dt as int, dtt as int);
    lemma_schedule_ends_with_tick(t, k, dt as int, dtt as int);
    lemma_schedule_prefix(t, k, (kk - k) as nat, dt as int, dtt as int);
    let n = upto.len() - 1;
    let s = choose|s: Seq<T>| #[trigger] is_trace(s, full) && s[0] == before && s.last() == after_ok;
    lemma_run_matches_trace(before, m, upto.drop_last(), s, full);
    assert(full[n] == TickEvent::Tick);
    assert(called(s[n], full[n], s[n + 1]));
    assert(m.ticked(&s[n + 1], Ok(())) && m.ticked(&after_err, Err(e)));
    assert(false);
}

/// A deterministic target cannot fail a tick of a run and get past it in another
/// run.
proof fn lemma_err_before_err<T: Tickable>(
    clock: TickerState,
    delta: u128,
    dt: u128,
    dtt: u128,
    before: T,
    k1: nat,
    m1: T,
    after1: T,
    e1: T::Error,
    k2: nat,
    m2: T,
)
    requires
        rates_fit(dt, dtt),
        deterministic::<T>(),
        1 <= k1 < k2,
        runs(before, m1, schedule(clock.timer_pending as int, k1, dt as int, dtt as int).drop_last()),
        m1.ticked(&after1, Err(e1)),
    ensures
        !runs(before, m2, schedule(clock.timer_pending as int, k2, dt as int, dtt as int).drop_last()),
{
    if !runs(before, m2, schedule(clock.timer_pending as int, k2, dt as int, dtt as int).drop_last()) {
        return;
    }
    let t = clock.timer_pending as int;
    let upto = schedule(t, k1, dt as int, dtt as int);
    let longer = schedule(t, k2, dt as int, dtt as int);
    lemma_schedule_ends_with_tick(t, k1, dt as int, dtt as int);
    lemma_schedule_ends_with_tick(t, k2, dt as int, dtt as int);
    lemma_schedule_prefix(t, k1, (k2 - k1) as nat, dt as int, dtt as int);
    law_schedule_counts(t, k1, dt as int, dtt as int);
    law_schedule_counts(t, k2, dt as int, dtt as int);
    let n = upto.len() - 1;
    let events = longer.drop_last();
    assert(n < events.len()) by {
        lemma_timer_ticks_grow(t, k1, k2, dt as int, dtt as int);
    }
    let s = choose|s: Seq<T>| #[trigger] is_trace(s, events) && s[0] == before && s.last() == m2;
    lemma_run_matches_trace(before, m1, upto.drop_last(), s, events);
    assert(events[n] == TickEvent::Tick);
    assert(called(s[n], events[n], s[n + 1]));
    assert(m1.ticked(&s[n + 1], Ok(())) && m1.ticked(&after1, Err(e1)));
    assert(false);
}

/// More ticks never make fewer timer ticks.
proof fn lemma_timer_ticks_grow(t: int, k1: nat, k2: nat, dt: int, dtt: int)
    requires
        k1 <= k2,
    ensures
        timer_ticks(t, k1, dt, dtt) <= timer_ticks(t, k2, dt, dtt),
    decreases k2,
{
    if k1 < k2 {
        lemma_timer_ticks_grow(t, k1, (k2 - 1) as nat, dt, dtt);
    }
}

/// The calls of one more tick, while the timer backlog starts below a timer
/// tick: a timer tick and then the tick when the time run so far crosses a
/// whole number of timer ticks, the tick alone otherwise.
pub proof fn law_schedule_next(t: int, k: nat, dt: int, dtt: int)
    requires
        0 <= t < dtt,
        0 < dt <= dtt,
    ensures
        schedule(t, k + 1, dt, dtt) == schedule(t, k, dt, dtt) + if (t + (k + 1) * dt) / dtt > (t + k * dt) / dtt {
            seq![TickEvent::Timer, TickEvent::Tick]
        } else {
            seq![TickEvent::Tick]
        },
{
    law_timer_closed_form(t, k, dt, dtt);
    let q = (t + k * dt) / dtt;
    let u = (t + k * dt) % dtt;
    vstd::arithmetic::div_mod::lemma_fundamental_div_mod(t + k * dt, dtt);
    assert(t + (k + 1) * dt == t + k * dt + dt) by (nonlinear_arith);
    if u + dt >= dtt {
        assert(t + (k + 1) * dt == (q + 1) * dtt + (u + dt - dtt)) by (nonlinear_arith)
            requires t + k * dt == dtt * q + u, t + (k + 1) * dt == t + k * dt + dt;
        vstd::arithmetic::div_mod::lemma_fundamental_div_mod_converse(t + (k + 1) * dt, dtt, q + 1, u + dt - dtt);
        assert(schedule(t, k, dt, dtt).push(TickEvent::Timer).push(TickEvent::Tick) =~= schedule(t, k, dt, dtt) + seq![TickEvent::Timer, TickEvent::Tick]);
    } else {
        assert(t + (k + 1) * dt == q * dtt + (u + dt)) by (nonlinear_arith)
            requires t + k * dt == dtt * q + u, t + (k + 1) * dt == t + k * dt + dt;
        vstd::arithmetic::div_mod::lemma_fundamental_div_mod_converse(t + (k + 1) * dt, dtt, q, u + dt);
        assert(schedule(t, k, dt, dtt).push(TickEvent::Tick) =~= schedule(t, k, dt, dtt) + seq![TickEvent::Tick]);
    }
    assert(((k + 1) - 1) as nat == k);
}

impl Default for Ticker {
    fn default() -> (r: Self)
        ensures
            r@ == (TickerState { pending: 0, timer_pending: 0 }),
    {
        Self::new()
    }
}

} // verus!
