//! A stopwatch for the stages of a piece of work.

use std::time::{Duration, Instant};
use vstd::prelude::*;

verus! {

/// `std::time::Instant`: a reading of the monotonic clock.
#[verifier::external_type_specification]
#[verifier::external_body]
pub struct ExInstant(Instant);

/// `std::time::Instant::now`: the time of the call. Nothing is claimed of it.
pub assume_specification[ Instant::now ]() -> (r: Instant);

/// `std::time::Instant::elapsed`: the time since the instant. Nothing is
/// claimed of it.
pub assume_specification[ Instant::elapsed ](instant: &Instant) -> (r: Duration);

/// `std::time::Duration::as_nanos`: the duration in nanoseconds. Nothing is
/// claimed of the number.
pub assume_specification[ Duration::as_nanos ](duration: &Duration) -> (r: u128);

/// The nanoseconds from the reading `earlier` to the reading `later`; none
/// where the clock has gone backwards.
pub open spec fn span(earlier: u64, later: u64) -> u64 {
    if later >= earlier {
        (later - earlier) as u64
    } else {
        0
    }
}

/// A number of nanoseconds as a reading: the number itself, or the largest
/// reading where it is larger.
pub open spec fn reading_spec(nanos: u128) -> u64 {
    if nanos > u64::MAX {
        u64::MAX
    } else {
        nanos as u64
    }
}

/// Turns a number of nanoseconds into a reading.
pub fn reading_of(nanos: u128) -> (r: u64)
    ensures
        r == reading_spec(nanos),
{
    if nanos > u64::MAX as u128 {
        u64::MAX
    } else {
        nanos as u64
    }
}

/// Measures how long each of a row of stages took. A reading is a number of
/// nanoseconds since the timer was made.
pub struct Timer {
    epoch: Instant,
    start: u64,
    entries: Vec<(String, u64)>,
}

impl Timer {
    /// The reading at which the first stage began.
    pub closed spec fn start(&self) -> u64 {
        self.start
    }

    /// The number of stages that have ended.
    pub closed spec fn stages(&self) -> nat {
        self.entries@.len()
    }

    /// The name of the stage `i`.
    pub closed spec fn name(&self, i: int) -> Seq<char> {
        self.entries@[i].0@
    }

    /// The reading at which the stage `i` ended.
    pub closed spec fn reading(&self, i: int) -> u64 {
        self.entries@[i].1
    }

    /// The reading at which the stage `i` began: the end of the stage before
    /// it.
    pub open spec fn begin(&self, i: int) -> u64 {
        if i == 0 {
            self.start()
        } else {
            self.reading(i - 1)
        }
    }

    /// How long the stage `i` took.
    pub open spec fn duration(&self, i: int) -> u64 {
        span(self.begin(i), self.reading(i))
    }

    /// Whether `other` has the stages of `self`, and one more.
    pub open spec fn extended_by(&self, other: &Timer, name: Seq<char>, now: u64) -> bool {
        &&& other.start() == self.start()
        &&& other.stages() == self.stages() + 1
        &&& forall|i: int|
            0 <= i < self.stages() ==> #[trigger] other.name(i) == self.name(i) && other.reading(i)
                == self.reading(i)
        &&& other.name(self.stages() as int) == name
        &&& other.reading(self.stages() as int) == now
    }

    /// The clock: the nanoseconds since the timer was made, as far as a
    /// reading can hold them.
    fn read(&self) -> (r: u64) {
        reading_of(self.epoch.elapsed().as_nanos())
    }

    /// A timer whose first stage begins now.
    pub fn new() -> (r: Self)
        ensures
            r.stages() == 0,
    {
        let mut timer = Self { epoch: Instant::now(), start: 0, entries: Vec::new() };
        timer.start = timer.read();
        timer
    }

    /// Forgets all stages; the first stage begins now.
    pub fn reset(&mut self)
        ensures
            final(self).stages() == 0,
    {
        let now = self.read();
        self.reset_at(now);
    }

    /// Forgets all stages; the first stage begins at the reading `now`.
    pub fn reset_at(&mut self, now: u64)
        ensures
            final(self).stages() == 0,
            final(self).start() == now,
    {
        self.start = now;
        self.entries.truncate(0);
    }

    /// Ends the current stage now and gives it a name. The next stage begins.
    pub fn stage_end(&mut self, name: &str)
        ensures
            exists|now: u64| old(self).extended_by(final(self), name@, now),
    {
        let now = self.read();
        self.stage_end_at(name, now);
    }

    /// Ends the current stage at the reading `now` and gives it a name. The
    /// next stage begins.
    pub fn stage_end_at(&mut self, name: &str, now: u64)
        ensures
            old(self).extended_by(final(self), name@, now),
    {
        self.entries.push((name.to_owned(), now));
    }

    /// The stages in the order in which they ended, each with its name and
    /// the nanoseconds that it took.
    pub fn get_durations(&self) -> (r: Vec<(&str, u64)>)
        ensures
            r@.len() == self.stages(),
            forall|i: int|
                0 <= i < r@.len() ==> (#[trigger] r@[i]).0@ == self.name(i) && r@[i].1
                    == self.duration(i),
    {
        let mut durations: Vec<(&str, u64)> = Vec::with_capacity(self.entries.len());
        let mut stage_start: u64 = self.start;
        let mut i: usize = 0;
        while i < self.entries.len()
            invariant
                i <= self.entries@.len(),
                durations@.len() == i,
                stage_start == self.begin(i as int),
                forall|k: int|
                    0 <= k < i ==> (#[trigger] durations@[k]).0@ == self.name(k) && durations@[k].1
                        == self.duration(k),
            decreases self.entries.len() - i,
        {
            let stage_end: u64 = self.entries[i].1;
            let taken: u64 = if stage_end >= stage_start {
                stage_end - stage_start
            } else {
                0
            };
            durations.push((self.entries[i].0.as_str(), taken));
            stage_start = stage_end;
            i += 1;
        }
        durations
    }
}

} // verus!
