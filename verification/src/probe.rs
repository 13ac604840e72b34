//! Probes that measure how long operations take. A probe has a number of
//! timers; an operation is timed between `start` and `stop` of the timer
//! with its number.
use std::time::Instant;
use vstd::prelude::*;

verus! {

/// A point on the monotonic clock of the standard library. Verus sees
/// nothing inside it.
#[verifier::external_type_specification]
#[verifier::external_body]
pub struct ExInstant(Instant);

/// Reads the clock.
///
/// Trusted: this is `Instant::now` of the standard library. Nothing is
/// claimed of the result.
#[verifier::external_body]
fn clock_now() -> Instant {
    Instant::now()
}

/// The nanoseconds that have passed since `start`.
///
/// Trusted: this is `Instant::elapsed` of the standard library, read in
/// nanoseconds by `Duration::as_nanos`. The result depends on the clock, and
/// nothing is claimed of it.
#[verifier::external_body]
fn nanos_since(start: &Instant) -> u128 {
    start.elapsed().as_nanos()
}

/// A probe: something that is told when an operation starts and stops.
pub trait Probe {
    /// Whether the probe has a timer with the number `id`.
    spec fn accepts(&self, id: u64) -> bool;

    /// Starts timing the operation `id`.
    fn start(&mut self, id: u64)
        requires
            old(self).accepts(id),
        ensures
            forall|other: u64| final(self).accepts(other) == old(self).accepts(other),
    ;

    /// Stops timing the operation `id`.
    fn stop(&mut self, id: u64)
        requires
            old(self).accepts(id),
        ensures
            forall|other: u64| final(self).accepts(other) == old(self).accepts(other),
    ;
}

/// A probe that does nothing.
#[derive(Debug, Default)]
pub struct NopProbe;

impl Probe for NopProbe {
    open spec fn accepts(&self, id: u64) -> bool {
        true
    }

    fn start(&mut self, _id: u64) {
    }

    fn stop(&mut self, _id: u64) {
    }
}

/// The value of a timer: whether it is running, and the nanoseconds that it
/// has measured so far.
pub struct TimerModel {
    pub running: bool,
    pub total: nat,
}

impl TimerModel {
    /// The timer after it was stopped `elapsed` nanoseconds after its start:
    /// a running timer stops and adds them to what it has measured, up to
    /// the largest `u128`; a timer that is not running stays as it is.
    pub open spec fn stopped(self, elapsed: nat) -> TimerModel {
        if !self.running {
            self
        } else if self.total + elapsed > u128::MAX {
            TimerModel { running: false, total: u128::MAX as nat }
        } else {
            TimerModel { running: false, total: self.total + elapsed }
        }
    }
}

/// A timer: the time at which it was started, if it is running, and the
/// nanoseconds that it has measured so far.
struct Timer {
    start_time: Option<Instant>,
    total_nanos: u128,
}

impl View for Timer {
    type V = TimerModel;

    closed spec fn view(&self) -> TimerModel {
        TimerModel { running: self.start_time is Some, total: self.total_nanos as nat }
    }
}

impl Timer {
    /// Creates a timer that is not running and has measured nothing.
    fn new() -> (timer: Self)
        ensures
            timer@ == (TimerModel { running: false, total: 0 }),
    {
        Self { start_time: None, total_nanos: 0 }
    }

    /// Starts the timer, or starts it again if it is running.
    fn start(&mut self)
        ensures
            final(self)@ == (TimerModel { running: true, total: old(self)@.total }),
    {
        self.start_time = Some(clock_now());
    }

    /// Stops the timer `elapsed` nanoseconds after its start.
    fn stop_after(&mut self, elapsed: u128)
        ensures
            final(self)@ == old(self)@.stopped(elapsed as nat),
    {
        if self.start_time.is_some() {
            self.total_nanos = if elapsed > u128::MAX - self.total_nanos {
                u128::MAX
            } else {
                self.total_nanos + elapsed
            };
            self.start_time = None;
        }
    }

    /// Stops the timer and adds the time since it was started; does nothing
    /// if it is not running.
    fn stop(&mut self)
        ensures
            exists|elapsed: nat| final(self)@ == #[trigger] old(self)@.stopped(elapsed),
    {
        let elapsed = match &self.start_time {
            Some(start) => nanos_since(start),
            None => 0,
        };
        self.stop_after(elapsed);
        assert(self@ == old(self)@.stopped(elapsed as nat));
    }

    /// The nanoseconds that the timer has measured.
    fn get_duration(&self) -> (nanos: u128)
        ensures
            nanos == self@.total,
    {
        self.total_nanos
    }
}

/// A probe that measures, with each of its timers, the time between `start`
/// and `stop`, and adds it up. Its value is the sequence of its timers.
pub struct TimerProbe {
    timers: Vec<Timer>,
}

impl View for TimerProbe {
    type V = Seq<TimerModel>;

    closed spec fn view(&self) -> Seq<TimerModel> {
        Seq::new(self.timers@.len(), |i: int| self.timers@[i]@)
    }
}

impl TimerProbe {
    /// Creates a probe with `num_timers` timers, none of them running.
    pub fn new(num_timers: u64) -> (probe: Self)
        ensures
            probe@.len() == num_timers,
            forall|i: int|
                0 <= i < num_timers ==> #[trigger] probe@[i] == (TimerModel {
                    running: false,
                    total: 0,
                }),
    {
        let mut timers: Vec<Timer> = Vec::new();
        let mut made: u64 = 0;
        while made < num_timers
            invariant
                made <= num_timers,
                timers@.len() == made,
                forall|i: int|
                    0 <= i < made ==> (#[trigger] timers@[i])@ == (TimerModel {
                        running: false,
                        total: 0,
                    }),
            decreases num_timers - made,
        {
            timers.push(Timer::new());
            made += 1;
        }
        Self { timers }
    }

    /// Stops the timer `id` as if `elapsed` nanoseconds had passed since its
    /// start. The probe must have such a timer.
    pub fn stop_after(&mut self, id: u64, elapsed: u128)
        requires
            id < old(self)@.len(),
        ensures
            final(self)@ == old(self)@.update(
                id as int,
                old(self)@[id as int].stopped(elapsed as nat),
            ),
    {
        assert(id < self.timers.len());
        self.timers[id as usize].stop_after(elapsed);
        assert(self@ =~= old(self)@.update(
            id as int,
            old(self)@[id as int].stopped(elapsed as nat),
        ));
    }

    /// The nanoseconds that the timer `id` has measured. The probe must have
    /// such a timer.
    pub fn get_duration(&self, id: u64) -> (nanos: u128)
        requires
            id < self@.len(),
        ensures
            nanos == self@[id as int].total,
    {
        assert(id < self.timers.len());
        self.timers[id as usize].get_duration()
    }
}

impl Probe for TimerProbe {
    open spec fn accepts(&self, id: u64) -> bool {
        id < self@.len()
    }

    /// Starts the timer `id`; what it has measured stays.
    fn start(&mut self, id: u64)
        ensures
            final(self)@ == old(self)@.update(
                id as int,
                TimerModel { running: true, total: old(self)@[id as int].total },
            ),
    {
        assert(id < self.timers.len());
        self.timers[id as usize].start();
        assert(self@ =~= old(self)@.update(
            id as int,
            TimerModel { running: true, total: old(self)@[id as int].total },
        ));
    }

    /// Stops the timer `id`: if it is running it stops, and adds the time
    /// since it was started to what it has measured.
    fn stop(&mut self, id: u64)
        ensures
            exists|elapsed: nat|
                final(self)@ == old(self)@.update(
                    id as int,
                    #[trigger] old(self)@[id as int].stopped(elapsed),
                ),
    {
        assert(id < self.timers.len());
        self.timers[id as usize].stop();
        proof {
            let elapsed = choose|elapsed: nat|
                self.timers@[id as int]@ == #[trigger] old(self).timers@[id as int]@.stopped(
                    elapsed,
                );
            assert(self@ =~= old(self)@.update(
                id as int,
                old(self)@[id as int].stopped(elapsed),
            ));
        }
    }
}

} // verus!
