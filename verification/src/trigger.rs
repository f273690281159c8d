//! A fixed-interval trigger and its due check.
//!
//! Time is a reading of a monotonic clock in nanoseconds, handed in by the
//! host. Intervals and waits are whole seconds.

use vstd::prelude::*;

verus! {

/// Clock readings per second.
pub const NANOS_PER_SEC: u64 = 1_000_000_000;

/// Whole seconds that lie between two readings of the clock. A reading that
/// lies before the earlier one counts as no time at all.
pub open spec fn secs_between(earlier: u64, later: u64) -> int {
    if later >= earlier {
        (later - earlier) / (NANOS_PER_SEC as int)
    } else {
        0
    }
}

/// A named job fires a trigger whenever its interval has passed since the last
/// shot.
#[derive(Clone, Copy, Debug, PartialEq, Eq)]
pub struct Trigger {
    /// Seconds that must pass between two shots.
    pub interval: u64,
    /// Reading of the clock at the last shot; `None` until the first one.
    pub last_shot: Option<u64>,
    /// A paused trigger is skipped by every scan.
    pub paused: bool,
}

impl Trigger {
    /// The trigger that `new` makes: never fired, not paused.
    pub open spec fn fresh(interval_sec: u16) -> Trigger {
        Trigger { interval: interval_sec as u64, last_shot: None, paused: false }
    }

    /// Whether the trigger is due at `now`: it has never fired, or at least
    /// `interval` whole seconds lie between its last shot and `now`.
    pub open spec fn due_at(self, now: u64) -> bool {
        match self.last_shot {
            None => true,
            Some(last) => secs_between(last, now) >= self.interval,
        }
    }

    /// Seconds from `now` until the trigger is due: 0 where it is due
    /// already, else what is left of the interval.
    pub open spec fn wait_at(self, now: u64) -> int {
        match self.last_shot {
            None => 0,
            Some(last) => if secs_between(last, now) >= self.interval {
                0
            } else {
                self.interval - secs_between(last, now)
            },
        }
    }

    /// The trigger after a shot at `now`.
    pub open spec fn stamped(self, now: u64) -> Trigger {
        Trigger { last_shot: Some(now), ..self }
    }

    /// The trigger with a new interval: the record of the last shot is
    /// dropped, so the trigger is due at once.
    pub open spec fn with_interval(self, interval_sec: u16) -> Trigger {
        Trigger { interval: interval_sec as u64, last_shot: None, ..self }
    }

    /// The trigger paused or resumed.
    pub open spec fn with_paused(self, paused: bool) -> Trigger {
        Trigger { paused, ..self }
    }

    /// A trigger that has never fired and is not paused.
    pub fn new(interval_sec: u16) -> (trigger: Trigger)
        ensures
            trigger == Trigger::fresh(interval_sec),
    {
        let trigger: Trigger = Trigger {
            interval: interval_sec as u64,
            paused: false,
            last_shot: None,
        };
        trigger
    }

    /// Whether the trigger is due at `now`.
    pub fn is_due(&self, now: u64) -> (due: bool)
        ensures
            due == self.due_at(now),
    {
        match self.last_shot {
            None => true,
            Some(last) => {
                if now >= last {
                    (now - last) / NANOS_PER_SEC >= self.interval
                } else {
                    0 >= self.interval
                }
            },
        }
    }

    /// Seconds from `now` until the trigger is due.
    pub fn wait_secs(&self, now: u64) -> (wait: u64)
        ensures
            wait == self.wait_at(now),
    {
        match self.last_shot {
            None => 0,
            Some(last) => {
                let elapsed: u64 = if now >= last {
                    (now - last) / NANOS_PER_SEC
                } else {
                    0
                };
                if elapsed >= self.interval {
                    0
                } else {
                    self.interval - elapsed
                }
            },
        }
    }
}

/// A trigger that has never fired is due at every reading of the clock,
/// whatever its interval.
pub proof fn lemma_fresh_is_due(interval_sec: u16, now: u64)
    ensures
        Trigger::fresh(interval_sec).due_at(now),
        Trigger::fresh(interval_sec).wait_at(now) == 0,
{
}

/// A trigger whose interval was changed is due at every reading of the clock.
pub proof fn lemma_changed_interval_is_due(trigger: Trigger, interval_sec: u16, now: u64)
    ensures
        trigger.with_interval(interval_sec).due_at(now),
        trigger.with_interval(interval_sec).interval == interval_sec,
        trigger.with_interval(interval_sec).paused == trigger.paused,
{
}

/// A trigger that is due stays due while the clock goes on.
pub proof fn lemma_due_stays_due(trigger: Trigger, earlier: u64, later: u64)
    requires
        earlier <= later,
        trigger.due_at(earlier),
    ensures
        trigger.due_at(later),
{
    if trigger.last_shot.is_some() {
        let last = trigger.last_shot.unwrap();
        if later >= last {
            let near: int = if earlier >= last { earlier - last } else { 0 };
            let far: int = later - last;
            assert(far / 1_000_000_000int >= near / 1_000_000_000int) by (nonlinear_arith)
                requires
                    far >= near >= 0,
            ;
        }
    }
}

/// Spacing: a trigger with a positive interval that has fired is due again
/// exactly from the reading on that lies a full interval behind the last shot.
pub proof fn lemma_spacing(trigger: Trigger, now: u64)
    requires
        trigger.last_shot.is_some(),
        trigger.interval >= 1,
    ensures
        trigger.due_at(now) <==> now - trigger.last_shot.unwrap() >= trigger.interval
            * NANOS_PER_SEC,
{
    let last = trigger.last_shot.unwrap();
    if now >= last {
        let gap: int = now - last;
        let secs: int = gap / 1_000_000_000int;
        if secs >= trigger.interval {
            assert(trigger.interval * 1_000_000_000 <= secs * 1_000_000_000) by (nonlinear_arith)
                requires
                    trigger.interval <= secs,
            ;
        } else {
            assert((secs + 1) * 1_000_000_000 <= trigger.interval * 1_000_000_000)
                by (nonlinear_arith)
                requires
                    secs + 1 <= trigger.interval,
            ;
        }
    } else {
        assert(trigger.interval * 1_000_000_000 >= 1_000_000_000) by (nonlinear_arith)
            requires
                trigger.interval >= 1,
        ;
    }
}

/// The wait is 0 exactly where the trigger is due, never more than the
/// interval, and a host that sleeps for the wait finds the trigger due.
pub proof fn lemma_wait(trigger: Trigger, now: u64, later: u64)
    requires
        trigger.last_shot.is_some() ==> trigger.last_shot.unwrap() <= now,
        later - now >= trigger.wait_at(now) * NANOS_PER_SEC,
    ensures
        0 <= trigger.wait_at(now) <= trigger.interval,
        trigger.wait_at(now) == 0 <==> trigger.due_at(now),
        trigger.due_at(later),
{
    if trigger.last_shot.is_some() && !trigger.due_at(now) {
        let last = trigger.last_shot.unwrap();
        let gap: int = now - last;
        let secs: int = gap / 1_000_000_000int;
        let wait: int = trigger.interval - secs;
        assert(wait * 1_000_000_000 == trigger.interval * 1_000_000_000 - secs * 1_000_000_000)
            by (nonlinear_arith)
            requires
                wait == trigger.interval - secs,
        ;
        let far: int = later - last;
        assert(far / 1_000_000_000int >= trigger.interval as int) by (nonlinear_arith)
            requires
                far >= trigger.interval * 1_000_000_000,
        ;
    } else if trigger.last_shot.is_some() {
        let last = trigger.last_shot.unwrap();
        let gap: int = now - last;
        let far: int = later - last;
        assert(far / 1_000_000_000int >= gap / 1_000_000_000int) by (nonlinear_arith)
            requires
                far >= gap,
        ;
    }
}

} // verus!
