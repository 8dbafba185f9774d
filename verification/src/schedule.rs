//! When a worker collects, and what those who wait for it are given.
use crate::catalog::ProviderSample;
use crate::model::Nanos;
use vstd::prelude::*;

verus! {

/// How often what nobody looks at is refreshed, in nanoseconds.
pub const BACKGROUND_REFRESH_INTERVAL: Nanos = 5_000_000_000;

/// How many times at steps of the interval have gone by since a deadline.
pub open spec fn steps_missed(deadline: Nanos, interval: Nanos, now: Nanos) -> int {
    if now < deadline {
        0
    } else {
        (now - deadline) / interval as int
    }
}

/// The next deadline: the first time at steps of the interval that is still to come.
pub open spec fn deadline_after(deadline: Nanos, interval: Nanos, now: Nanos) -> int {
    deadline + interval * (steps_missed(deadline, interval, now) + 1)
}

/// A deadline, and how many before it were missed.
pub struct Advance {
    pub deadline: Nanos,
    pub missed: u64,
}

/// The next deadline after a collection: those that have gone by are left out, and the
/// steps stay where they are.
pub fn advance_deadline(deadline: Nanos, interval: Nanos, now: Nanos) -> (advance: Advance)
    requires
        interval > 0,
        deadline + interval <= Nanos::MAX,
        now + interval <= Nanos::MAX,
    ensures
        advance.deadline == deadline_after(deadline, interval, now),
        advance.missed == if steps_missed(deadline, interval, now) > u64::MAX {
            u64::MAX as int
        } else {
            steps_missed(deadline, interval, now)
        },
        now < advance.deadline,
        deadline < advance.deadline,
        advance.deadline <= now + interval || advance.deadline == deadline + interval,
{
    if now < deadline {
        assert(interval * (0int + 1) == interval) by (nonlinear_arith);
        return Advance { deadline: deadline + interval, missed: 0 };
    }
    let steps: Nanos = (now - deadline) / interval;
    proof {
        let late = (now - deadline) as int;
        let size = interval as int;
        vstd::arithmetic::div_mod::lemma_fundamental_div_mod(late, size);
        assert(steps == late / size);
        assert(size * steps <= late < size * (steps + 1)) by (nonlinear_arith)
            requires
                late == size * steps + late % size,
                0 <= late % size < size,
        ;
        assert(size * (steps + 1) == size * steps + size) by (nonlinear_arith);
    }
    Advance {
        deadline: deadline + interval * steps + interval,
        missed: if steps > u64::MAX as u128 {
            u64::MAX
        } else {
            steps as u64
        },
    }
}

/// How often routes are collected: as asked for while they are looked at, and seldom
/// otherwise.
pub fn refresh_interval(interval: Nanos, foreground: bool) -> (refresh: Nanos)
    ensures
        refresh == if foreground || interval > BACKGROUND_REFRESH_INTERVAL {
            interval
        } else {
            BACKGROUND_REFRESH_INTERVAL
        },
        interval <= refresh,
        foreground ==> refresh == interval,
        !foreground ==> refresh >= 5_000_000_000,
        refresh > interval ==> refresh == 5_000_000_000,
{
    if foreground || interval > BACKGROUND_REFRESH_INTERVAL {
        interval
    } else {
        BACKGROUND_REFRESH_INTERVAL
    }
}

/// The latest of the times at which the first `n` samples were finished.
pub open spec fn finish_upto(samples: Seq<ProviderSample>, n: int) -> Nanos
    decreases n,
{
    if n <= 0 {
        0
    } else {
        let before = finish_upto(samples, n - 1);
        let at = samples[n - 1].finished_at;
        if at >= before {
            at
        } else {
            before
        }
    }
}

/// The time of a cycle: that of its last sample, or `otherwise` without any.
pub fn cycle_time(samples: &Vec<ProviderSample>, otherwise: Nanos) -> (at: Nanos)
    ensures
        at == if samples@.len() == 0 {
            otherwise
        } else {
            finish_upto(samples@, samples@.len() as int)
        },
        samples@.len() == 0 ==> at == otherwise,
        samples@.len() == 1 ==> at == samples@[0].finished_at,
{
    if samples.len() == 0 {
        return otherwise;
    }
    proof {
        reveal_with_fuel(finish_upto, 2);
    }
    let mut latest: Nanos = 0;
    for i in 0..samples.len()
        invariant
            latest == finish_upto(samples@, i as int),
    {
        let at: Nanos = samples[i].finished_at;
        if at >= latest {
            latest = at;
        }
    }
    latest
}

/// The latest snapshot of a worker, and what was handed out.
#[derive(Clone, Copy, Debug, PartialEq, Eq, Structural)]
pub struct Latest {
    pub sequence: Option<u64>,
    pub last_observed: u64,
    pub closed: bool,
    pub failed: bool,
}

/// What one who waited is given.
#[derive(Clone, Copy, Debug, PartialEq, Eq, Structural)]
pub enum Waited {
    Newer,
    Nothing,
    Failed,
}

impl Latest {
    pub fn new() -> (latest: Latest)
        ensures
            latest == (Latest {
                sequence: None,
                last_observed: 0,
                closed: false,
                failed: false,
            }),
    {
        Latest { sequence: None, last_observed: 0, closed: false, failed: false }
    }

    /// Whether there is a snapshot that is newer than another one.
    pub open spec fn newer_than(self, sequence: u64) -> bool {
        self.sequence matches Some(latest) && latest > sequence
    }

    fn is_newer(&self, sequence: u64) -> (newer: bool)
        ensures
            newer == self.newer_than(sequence),
    {
        match self.sequence {
            Some(latest) => latest > sequence,
            None => false,
        }
    }

    /// Takes a new snapshot, and says whether the one before was never handed out.
    pub fn publish(&mut self, sequence: u64) -> (skipped: bool)
        ensures
            *final(self) == (Latest { sequence: Some(sequence), ..*old(self) }),
            skipped == old(self).newer_than(old(self).last_observed),
            skipped ==> old(self).sequence is Some && old(self).sequence->0 > old(
                self,
            ).last_observed,
            old(self).sequence matches Some(kept) ==> kept > old(self).last_observed ==> skipped,
    {
        let skipped = self.is_newer(self.last_observed);
        self.sequence = Some(sequence);
        skipped
    }

    /// The worker ended.
    pub fn close(&mut self, failed: bool)
        ensures
            *final(self) == (Latest { closed: true, failed, ..*old(self) }),
    {
        self.closed = true;
        self.failed = failed;
    }

    /// Whether one who has seen a snapshot goes on waiting for the next.
    pub fn keeps_waiting(&self, sequence: u64) -> (waits: bool)
        ensures
            waits == (!self.closed && !self.newer_than(sequence)),
            self.closed ==> !waits,
            self.sequence is None && !self.closed ==> waits,
            self.sequence matches Some(latest) ==> latest > sequence ==> !waits,
            self.sequence matches Some(latest) ==> latest <= sequence && !self.closed ==> waits,
    {
        !self.closed && !self.is_newer(sequence)
    }

    /// What one who waited is given: a newer snapshot before anything else, and a
    /// failure only when the worker ended with one.
    pub fn take(&mut self, sequence: u64) -> (waited: Waited)
        ensures
            waited == if old(self).newer_than(sequence) {
                Waited::Newer
            } else if old(self).closed && old(self).failed {
                Waited::Failed
            } else {
                Waited::Nothing
            },
            *final(self) == if old(self).newer_than(sequence) {
                Latest { last_observed: old(self).sequence->0, ..*old(self) }
            } else {
                *old(self)
            },
            waited is Newer ==> final(self).last_observed > sequence && final(self).sequence
                == Some(final(self).last_observed),
            old(self).sequence matches Some(latest) ==> latest > sequence ==> waited is Newer,
            waited is Failed ==> old(self).closed && old(self).failed,
            !old(self).failed ==> !(waited is Failed),
    {
        match self.sequence {
            Some(latest) => if latest > sequence {
                self.last_observed = latest;
                return Waited::Newer;
            },
            None => {},
        }
        if self.closed && self.failed {
            Waited::Failed
        } else {
            Waited::Nothing
        }
    }
}

} // verus!
