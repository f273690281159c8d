//! A job: a worker, the named triggers that fire it, and the iteration of
//! the job's control loop.
//!
//! The loop belongs to the host: it holds the triggers while it iterates,
//! and sleeps as long as the iteration allows. `iterate` is the iteration of
//! a loop that runs beside the calls that change the job; `tick` is the
//! iteration at a reading of the clock that the host hands in.

use crate::clock::Clock;
use crate::registry::{amended, distinct, each, index_of, inserted, known, names, removed, texts};
use crate::registry::{lemma_amended, lemma_each, lemma_index_of_distinct, lemma_index_of_known};
use crate::registry::{lemma_inserted, lemma_known_is_listed, lemma_removed};
use crate::registry::{Named, Registry};
use crate::trigger::{lemma_due_stays_due, lemma_spacing, Trigger, NANOS_PER_SEC};
use crate::worker::Worker;
use std::sync::atomic::AtomicBool;
use vstd::prelude::*;

verus! {

/// A job as contracts see it.
pub struct JobView<W> {
    /// The triggers, in the order in which a scan visits them.
    pub triggers: Seq<Named<Trigger>>,
    /// The worker that every shot runs.
    pub worker: W,
    /// Set once the job is released: its loop ends at the next iteration.
    pub closing: bool,
}

impl<W> JobView<W> {
    /// No trigger name occurs twice.
    pub open spec fn wf(self) -> bool {
        distinct(self.triggers)
    }

    /// A job without triggers that runs `worker`.
    pub open spec fn fresh(worker: W) -> JobView<W> {
        JobView { triggers: Seq::empty(), worker, closing: false }
    }

    /// The names of the triggers, in order.
    pub open spec fn trigger_names(self) -> Seq<Seq<char>> {
        names(self.triggers)
    }

    /// A new trigger under `name`, due at once; a name that is already there
    /// keeps its trigger.
    pub open spec fn add_trigger(self, name: Seq<char>, interval_sec: u16) -> JobView<W> {
        JobView { triggers: inserted(self.triggers, name, Trigger::fresh(interval_sec)), ..self }
    }

    /// Without the trigger under `name`.
    pub open spec fn remove_trigger(self, name: Seq<char>) -> JobView<W> {
        JobView { triggers: removed(self.triggers, name), ..self }
    }

    /// Without any trigger.
    pub open spec fn remove_triggers(self) -> JobView<W> {
        JobView { triggers: Seq::empty(), ..self }
    }

    /// The trigger under `name` gets a new interval and forgets its last shot.
    pub open spec fn change_trigger_interval(self, name: Seq<char>, interval_sec: u16) -> JobView<
        W,
    > {
        JobView {
            triggers: amended(
                self.triggers,
                name,
                |t: Trigger| t.with_interval(interval_sec),
            ),
            ..self
        }
    }

    /// The trigger under `name` paused.
    pub open spec fn pause_trigger(self, name: Seq<char>) -> JobView<W> {
        JobView { triggers: amended(self.triggers, name, |t: Trigger| t.with_paused(true)), ..self }
    }

    /// The trigger under `name` resumed.
    pub open spec fn resume_trigger(self, name: Seq<char>) -> JobView<W> {
        JobView {
            triggers: amended(self.triggers, name, |t: Trigger| t.with_paused(false)),
            ..self
        }
    }

    /// Every trigger paused.
    pub open spec fn pause_triggers(self) -> JobView<W> {
        JobView { triggers: each(self.triggers, |t: Trigger| t.with_paused(true)), ..self }
    }

    /// Every trigger resumed.
    pub open spec fn resume_triggers(self) -> JobView<W> {
        JobView { triggers: each(self.triggers, |t: Trigger| t.with_paused(false)), ..self }
    }

    /// The job marked as closing.
    pub open spec fn release(self) -> JobView<W> {
        JobView { closing: true, ..self }
    }

    /// There is a trigger at `i` and it is not paused.
    pub open spec fn active(self, i: int) -> bool {
        0 <= i < self.triggers.len() && !self.triggers[i].item.paused
    }

    /// No trigger at a position from `from` up to, not including, `to` is
    /// active.
    pub open spec fn idle_between(self, from: int, to: int) -> bool {
        forall|k: int| from <= k < to ==> !self.active(k)
    }

    /// The job after the trigger at `i` has fired at `now`.
    pub open spec fn shot(self, i: int, now: u64) -> JobView<W> {
        JobView {
            triggers: self.triggers.update(
                i,
                Named { name: self.triggers[i].name, item: self.triggers[i].item.stamped(now) },
            ),
            ..self
        }
    }

    /// The job after a whole scan at `now`: every trigger that is active and
    /// due has fired, the others are as they were.
    pub open spec fn pass(self, now: u64) -> JobView<W> {
        JobView {
            triggers: each(
                self.triggers,
                |t: Trigger|
                    if !t.paused && t.due_at(now) {
                        t.stamped(now)
                    } else {
                        t
                    },
            ),
            ..self
        }
    }

    /// What a scan can have made of this job while the clock went from
    /// `from` to `to`: the same triggers under the same names, each either
    /// as it was or fired. One that fired was active, was due at a reading
    /// of the clock between `from` and `to`, and has that reading as its
    /// last shot.
    pub open spec fn scanned(self, after: JobView<W>, from: u64, to: u64) -> bool {
        &&& after.worker == self.worker
        &&& after.closing == self.closing
        &&& after.triggers.len() == self.triggers.len()
        &&& forall|k: int|
            0 <= k < self.triggers.len() ==> {
                let was = #[trigger] self.triggers[k];
                let is = after.triggers[k];
                is == was || {
                    &&& self.active(k)
                    &&& is.name == was.name
                    &&& is.item.last_shot.is_some()
                    &&& from <= is.item.last_shot.unwrap() <= to
                    &&& was.item.due_at(is.item.last_shot.unwrap())
                    &&& is.item == was.item.stamped(is.item.last_shot.unwrap())
                }
            }
    }

    /// A scan that began when the clock read `from` came as far as `stop`:
    /// it visited every active trigger before `stop` and touched none from
    /// there on. A visited trigger that was due when the scan began has
    /// fired: its last shot is a reading of the clock not before `from`.
    pub open spec fn came_to(self, after: JobView<W>, stop: int, from: u64) -> bool {
        &&& 0 <= stop <= self.triggers.len()
        &&& after.triggers.len() == self.triggers.len()
        &&& forall|k: int|
            stop <= k < self.triggers.len() ==> after.triggers[k] == #[trigger] self.triggers[k]
        &&& forall|k: int|
            0 <= k < stop && self.active(k) && (#[trigger] self.triggers[k]).item.due_at(from)
                ==> {
                let is = after.triggers[k];
                &&& is.item.last_shot.is_some()
                &&& from <= is.item.last_shot.unwrap()
                &&& is.item == self.triggers[k].item.stamped(is.item.last_shot.unwrap())
            }
    }

    /// The job after one iteration of its loop at `now` with no change
    /// pending: scanned, unless it is closing.
    pub open spec fn tick(self, now: u64) -> JobView<W> {
        if self.closing {
            self
        } else {
            self.pass(now)
        }
    }

    /// What the loop does after an iteration at `now` with no change
    /// pending: a closing job ends it; any other sleeps until the closest
    /// shot that is left after the scan.
    pub open spec fn directive(self, now: u64) -> Directive {
        if self.closing {
            Directive::Terminate
        } else {
            Directive::Sleep(self.pass(now).closest_shot(now))
        }
    }

    /// `wait` is how long the loop may sleep at `now`: the least wait among
    /// the active triggers, or `None` where no trigger is active.
    pub open spec fn is_closest(self, now: u64, wait: Option<u64>) -> bool {
        match wait {
            None => forall|i: int| !self.active(i),
            Some(w) => {
                &&& exists|i: int| self.active(i) && self.triggers[i].item.wait_at(now) == w
                &&& forall|j: int| self.active(j) ==> w <= self.triggers[j].item.wait_at(now)
            },
        }
    }

    /// How long the loop may sleep at `now`, in seconds; `None` is without
    /// bound.
    pub open spec fn closest_shot(self, now: u64) -> Option<u64> {
        choose|wait: Option<u64>| self.is_closest(now, wait)
    }
}

/// There is one closest shot, and `closest_shot` names it.
pub proof fn lemma_closest_shot<W>(job: JobView<W>, now: u64, wait: Option<u64>)
    requires
        job.is_closest(now, wait),
    ensures
        job.closest_shot(now) == wait,
{
}

/// Every change to the triggers keeps their names distinct, and leaves the
/// worker and the closing mark alone.
pub proof fn lemma_changes_keep_valid<W>(
    job: JobView<W>,
    name: Seq<char>,
    interval_sec: u16,
    now: u64,
)
    requires
        job.wf(),
    ensures
        job.add_trigger(name, interval_sec).wf(),
        job.remove_trigger(name).wf(),
        job.remove_triggers().wf(),
        job.change_trigger_interval(name, interval_sec).wf(),
        job.pause_trigger(name).wf(),
        job.resume_trigger(name).wf(),
        job.pause_triggers().wf(),
        job.resume_triggers().wf(),
        job.release().wf(),
        job.pass(now).wf(),
        job.pass(now).trigger_names() == job.trigger_names(),
{
    lemma_inserted(job.triggers, name, Trigger::fresh(interval_sec));
    lemma_removed(job.triggers, name);
    lemma_amended(job.triggers, name, |t: Trigger| t.with_interval(interval_sec));
    lemma_amended(job.triggers, name, |t: Trigger| t.with_paused(true));
    lemma_amended(job.triggers, name, |t: Trigger| t.with_paused(false));
    lemma_each(job.triggers, |t: Trigger| t.with_paused(true));
    lemma_each(job.triggers, |t: Trigger| t.with_paused(false));
    lemma_each(
        job.triggers,
        |t: Trigger|
            if !t.paused && t.due_at(now) {
                t.stamped(now)
            } else {
                t
            },
    );
}

/// A trigger that was added is listed; one that was removed is not, whether
/// or not it was there.
pub proof fn lemma_add_then_remove_trigger<W>(job: JobView<W>, name: Seq<char>, interval_sec: u16)
    requires
        job.wf(),
    ensures
        job.add_trigger(name, interval_sec).trigger_names().contains(name),
        !job.remove_trigger(name).trigger_names().contains(name),
        !job.add_trigger(name, interval_sec).remove_trigger(name).trigger_names().contains(name),
{
    let added = job.add_trigger(name, interval_sec);
    lemma_inserted(job.triggers, name, Trigger::fresh(interval_sec));
    lemma_removed(job.triggers, name);
    lemma_removed(added.triggers, name);
    lemma_known_is_listed(added.triggers, name);
    lemma_known_is_listed(job.remove_trigger(name).triggers, name);
    lemma_known_is_listed(added.remove_trigger(name).triggers, name);
}

/// A trigger that has just been added fires at once: whatever the clock
/// reads, the loop may not sleep at all, and the next scan fires the trigger.
pub proof fn lemma_new_trigger_fires_at_once<W>(
    job: JobView<W>,
    name: Seq<char>,
    interval_sec: u16,
    now: u64,
)
    requires
        job.wf(),
        !known(job.triggers, name),
    ensures
        ({
            let added = job.add_trigger(name, interval_sec);
            let last = job.triggers.len() as int;
            &&& added.triggers.len() == last + 1
            &&& added.triggers[last].name == name
            &&& added.active(last)
            &&& added.triggers[last].item.due_at(now)
            &&& added.closest_shot(now) == Some(0u64)
            &&& added.pass(now).triggers[last].item.last_shot == Some(now)
        }),
{
    let added = job.add_trigger(name, interval_sec);
    let last = job.triggers.len() as int;
    assert(added.active(last));
    lemma_closest_shot(added, now, Some(0u64));
}

/// Spacing: once an active trigger with a positive interval has fired at
/// `first`, a scan at `second` fires it again exactly if a full interval lies
/// between the two readings of the clock.
pub proof fn lemma_shots_are_spaced<W>(job: JobView<W>, i: int, first: u64, second: u64)
    requires
        job.active(i),
        job.triggers[i].item.due_at(first),
        job.triggers[i].item.interval >= 1,
    ensures
        job.pass(first).triggers[i].item.last_shot == Some(first),
        job.pass(first).active(i),
        job.pass(first).triggers[i].item.due_at(second) <==> second - first
            >= job.triggers[i].item.interval * NANOS_PER_SEC,
        !job.pass(first).triggers[i].item.due_at(second) ==> job.pass(first).pass(
            second,
        ).triggers[i] == job.pass(first).triggers[i],
{
    lemma_spacing(job.pass(first).triggers[i].item, second);
}

/// A paused trigger is not active, so no scan visits it and a whole scan
/// leaves it as it is, at every reading of the clock. Resumed, it is active
/// again.
pub proof fn lemma_paused_never_fires<W>(job: JobView<W>, name: Seq<char>, now: u64)
    requires
        job.wf(),
        known(job.triggers, name),
    ensures
        ({
            let i = index_of(job.triggers, name);
            let paused = job.pause_trigger(name);
            &&& !paused.active(i)
            &&& paused.triggers[i].name == name
            &&& paused.pass(now).triggers[i] == paused.triggers[i]
            &&& paused.pass(now).pause_trigger(name) == paused.pass(now)
            &&& paused.resume_trigger(name).active(i)
            &&& paused.resume_trigger(name).triggers[i].item == job.triggers[i].item.with_paused(
                false,
            )
        }),
{
    let i = index_of(job.triggers, name);
    let paused = job.pause_trigger(name);
    lemma_amended(job.triggers, name, |t: Trigger| t.with_paused(true));
    lemma_index_of_known(job.triggers, name);
    lemma_index_of_distinct(paused.triggers, name, i);
    let later = paused.pass(now);
    lemma_changes_keep_valid(paused, name, 0, now);
    lemma_index_of_distinct(later.triggers, name, i);
    assert(later.pause_trigger(name).triggers =~= later.triggers);
}

/// With every trigger paused nothing is active: a scan fires nothing and the
/// loop sleeps without bound.
pub proof fn lemma_all_paused_sleeps<W>(job: JobView<W>, now: u64)
    ensures
        job.pause_triggers().pass(now) == job.pause_triggers(),
        job.pause_triggers().closest_shot(now).is_none(),
        job.remove_triggers().closest_shot(now).is_none(),
{
    let paused = job.pause_triggers();
    assert(paused.pass(now).triggers =~= paused.triggers);
    lemma_closest_shot(paused, now, None);
    lemma_closest_shot(job.remove_triggers(), now, None);
}

/// To release a job twice is to release it once, and a release leaves the
/// triggers and the worker alone.
pub proof fn lemma_release_is_idempotent<W>(job: JobView<W>)
    ensures
        job.release().release() == job.release(),
        job.release().closing,
        job.release().triggers == job.triggers,
        job.release().worker == job.worker,
{
}

/// What one step of a scan did.
#[derive(Clone, Copy, Debug, PartialEq, Eq)]
pub enum ScanStep {
    /// The next active trigger was visited, and fired if it was due. The scan
    /// goes on behind `position`.
    Visited { position: usize, fired: bool },
    /// A change is pending: the scan ends here, before it visits the next
    /// active trigger.
    Aborted,
    /// No active trigger is left to visit.
    Finished,
}

/// What the control loop does after an iteration.
#[derive(Clone, Copy, Debug, PartialEq, Eq)]
pub enum Directive {
    /// The job is closing: the loop ends.
    Terminate,
    /// Wait for a wake signal, at most this many seconds; `None` is without
    /// bound. Then iterate again.
    Sleep(Option<u64>),
}

/// A worker and the named triggers that fire it.
pub struct Job<W> {
    triggers: Registry<Trigger>,
    worker: W,
    closing: bool,
}

impl<W: Worker> Job<W> {
    /// The job as contracts see it.
    pub closed spec fn view(&self) -> JobView<W> {
        JobView { triggers: self.triggers@, worker: self.worker, closing: self.closing }
    }

    /// The invariant of a job: no trigger name occurs twice.
    pub open spec fn wf(&self) -> bool {
        self@.wf()
    }

    /// A job without triggers that runs `worker`.
    pub fn new(worker: W) -> (job: Job<W>)
        ensures
            job@ == JobView::fresh(worker),
            job.wf(),
    {
        let job: Job<W> = Job { triggers: Registry::new(), worker: worker, closing: false };
        job
    }

    /// The worker that every shot of this job runs.
    pub fn worker(&self) -> (worker: &W)
        ensures
            *worker == self@.worker,
    {
        &self.worker
    }

    /// Whether the job was released.
    pub fn is_closing(&self) -> (closing: bool)
        ensures
            closing == self@.closing,
    {
        self.closing
    }

    /// The trigger under `trigger_name` as it stands, if there is one.
    pub fn trigger(&self, trigger_name: &str) -> (found: Option<Trigger>)
        ensures
            found == if known(self@.triggers, trigger_name@) {
                Some(self@.triggers[index_of(self@.triggers, trigger_name@)].item)
            } else {
                None
            },
    {
        match self.triggers.position(trigger_name) {
            Some(i) => Some(*self.triggers.item_at(i)),
            None => None,
        }
    }

    /// The names of the triggers, in the order in which a scan visits them.
    pub fn get_trigger_names(&mut self) -> (listed: Vec<String>)
        ensures
            texts(listed@) == old(self)@.trigger_names(),
            final(self)@ == old(self)@,
    {
        self.triggers.names()
    }

    /// Adds a trigger that is due at once. A name that is already there keeps
    /// its trigger, and nothing changes.
    pub fn add_trigger(&mut self, trigger_name: &str, interval_sec: u16)
        ensures
            old(self).wf() ==> final(self).wf(),
            final(self)@ == old(self)@.add_trigger(trigger_name@, interval_sec),
    {
        let trigger: Trigger = Trigger::new(interval_sec);
        self.triggers.insert(trigger_name, trigger);
    }

    /// Removes the trigger under `trigger_name`; nothing changes where the
    /// name is unknown.
    pub fn remove_trigger(&mut self, trigger_name: &str)
        ensures
            old(self).wf() ==> final(self).wf(),
            final(self)@ == old(self)@.remove_trigger(trigger_name@),
    {
        let _ = self.triggers.remove(trigger_name);
    }

    /// Removes every trigger.
    pub fn remove_triggers(&mut self)
        ensures
            final(self).wf(),
            final(self)@ == old(self)@.remove_triggers(),
    {
        self.triggers.clear();
    }

    /// Gives the trigger under `trigger_name` a new interval. The record of
    /// its last shot is dropped, so it is due at once. Nothing changes where
    /// the name is unknown.
    pub fn change_trigger_interval(&mut self, trigger_name: &str, interval_sec: u16)
        ensures
            old(self).wf() ==> final(self).wf(),
            final(self)@ == old(self)@.change_trigger_interval(trigger_name@, interval_sec),
    {
        proof {
            lemma_amended(
                self@.triggers,
                trigger_name@,
                |t: Trigger| t.with_interval(interval_sec),
            );
        }
        if let Some(i) = self.triggers.position(trigger_name) {
            let trigger = self.triggers.slot_mut(i);
            trigger.interval = interval_sec as u64;
            trigger.last_shot = None;
        }
        assert(self@.triggers =~= old(self)@.change_trigger_interval(
            trigger_name@,
            interval_sec,
        ).triggers);
    }

    /// Pauses the trigger under `trigger_name`: no scan fires it until it is
    /// resumed. Nothing changes where the name is unknown.
    pub fn pause_trigger(&mut self, trigger_name: &str)
        ensures
            old(self).wf() ==> final(self).wf(),
            final(self)@ == old(self)@.pause_trigger(trigger_name@),
    {
        proof {
            lemma_amended(self@.triggers, trigger_name@, |t: Trigger| t.with_paused(true));
        }
        if let Some(i) = self.triggers.position(trigger_name) {
            let trigger = self.triggers.slot_mut(i);
            trigger.paused = true;
        }
    }

    /// Resumes the trigger under `trigger_name`. Nothing changes where the
    /// name is unknown.
    pub fn resume_trigger(&mut self, trigger_name: &str)
        ensures
            old(self).wf() ==> final(self).wf(),
            final(self)@ == old(self)@.resume_trigger(trigger_name@),
    {
        proof {
            lemma_amended(self@.triggers, trigger_name@, |t: Trigger| t.with_paused(false));
        }
        if let Some(i) = self.triggers.position(trigger_name) {
            let trigger = self.triggers.slot_mut(i);
            trigger.paused = false;
        }
    }

    /// Pauses every trigger.
    pub fn pause_triggers(&mut self)
        ensures
            old(self).wf() ==> final(self).wf(),
            final(self)@ == old(self)@.pause_triggers(),
    {
        self.set_paused(true);
        proof {
            lemma_each(old(self)@.triggers, |t: Trigger| t.with_paused(true));
        }
        assert(self@.triggers =~= old(self)@.pause_triggers().triggers);
    }

    /// Resumes every trigger.
    pub fn resume_triggers(&mut self)
        ensures
            old(self).wf() ==> final(self).wf(),
            final(self)@ == old(self)@.resume_triggers(),
    {
        self.set_paused(false);
        proof {
            lemma_each(old(self)@.triggers, |t: Trigger| t.with_paused(false));
        }
        assert(self@.triggers =~= old(self)@.resume_triggers().triggers);
    }

    fn set_paused(&mut self, paused: bool)
        ensures
            final(self)@.worker == old(self)@.worker,
            final(self)@.closing == old(self)@.closing,
            final(self)@.triggers.len() == old(self)@.triggers.len(),
            forall|k: int|
                0 <= k < old(self)@.triggers.len() ==> final(self)@.triggers[k] == (Named {
                    name: old(self)@.triggers[k].name,
                    item: old(self)@.triggers[k].item.with_paused(paused),
                }),
    {
        let n: usize = self.triggers.len();
        let mut i: usize = 0;
        while i < n
            invariant
                i <= n,
                n == self@.triggers.len(),
                n == old(self)@.triggers.len(),
                self@.worker == old(self)@.worker,
                self@.closing == old(self)@.closing,
                forall|k: int|
                    0 <= k < i ==> self@.triggers[k] == (Named {
                        name: old(self)@.triggers[k].name,
                        item: old(self)@.triggers[k].item.with_paused(paused),
                    }),
                forall|k: int| i <= k < n ==> self@.triggers[k] == old(self)@.triggers[k],
            decreases n - i,
        {
            let trigger = self.triggers.slot_mut(i);
            trigger.paused = paused;
            i = i + 1;
        }
    }

    /// Marks the job as closing: the next iteration of its loop ends the
    /// loop. Releasing a job again changes nothing.
    pub fn release(&mut self)
        ensures
            final(self)@ == old(self)@.release(),
            old(self).wf() ==> final(self).wf(),
    {
        self.closing = true;
    }

    /// One step of a scan at `now`: visits the first active trigger at or
    /// behind `from`, and fires it if it is due. To fire a trigger is to
    /// record `now` as its last shot and to run the worker with its name.
    /// With `write_intent` set, a change is waiting for the triggers: the
    /// scan ends before the visit.
    pub fn scan_step(&mut self, from: usize, now: u64, write_intent: bool) -> (step: ScanStep)
        ensures
            old(self).wf() ==> final(self).wf(),
            match step {
                ScanStep::Finished => {
                    &&& old(self)@.idle_between(from as int, old(self)@.triggers.len() as int)
                    &&& final(self)@ == old(self)@
                },
                ScanStep::Aborted => {
                    &&& write_intent
                    &&& !old(self)@.idle_between(from as int, old(self)@.triggers.len() as int)
                    &&& final(self)@ == old(self)@
                },
                ScanStep::Visited { position, fired } => {
                    &&& !write_intent
                    &&& from <= position
                    &&& old(self)@.active(position as int)
                    &&& old(self)@.idle_between(from as int, position as int)
                    &&& fired == old(self)@.triggers[position as int].item.due_at(now)
                    &&& final(self)@ == if fired {
                        old(self)@.shot(position as int, now)
                    } else {
                        old(self)@
                    }
                },
            },
    {
        let n: usize = self.triggers.len();
        let mut i: usize = from;
        while i < n && self.triggers.item_at(i).paused
            invariant
                from <= i,
                n == self@.triggers.len(),
                self@ == old(self)@,
                self@.idle_between(from as int, i as int),
            decreases n - i,
        {
            i = i + 1;
        }
        if i >= n {
            return ScanStep::Finished;
        }
        assert(self@.active(i as int));
        if write_intent {
            return ScanStep::Aborted;
        }
        let due: bool = self.triggers.item_at(i).is_due(now);
        if due {
            let trigger = self.triggers.slot_mut(i);
            trigger.last_shot = Some(now);
            self.worker.run(self.triggers.name_at(i));
        }
        ScanStep::Visited { position: i, fired: due }
    }

    /// How long the loop may sleep at `now`: the least wait among the active
    /// triggers, in seconds, which is 0 where one of them is due; `None`
    /// where no trigger is active.
    pub fn closest_shot(&self, now: u64) -> (wait: Option<u64>)
        ensures
            wait == self@.closest_shot(now),
            self@.is_closest(now, wait),
    {
        let n: usize = self.triggers.len();
        let mut best: Option<u64> = None;
        let mut i: usize = 0;
        while i < n
            invariant
                i <= n,
                n == self@.triggers.len(),
                match best {
                    None => forall|k: int| 0 <= k < i ==> !self@.active(k),
                    Some(w) => {
                        &&& exists|k: int|
                            0 <= k < i && self@.active(k) && self@.triggers[k].item.wait_at(now)
                                == w
                        &&& forall|k: int|
                            0 <= k < i && self@.active(k) ==> w <= self@.triggers[k].item.wait_at(
                                now,
                            )
                    },
                },
            decreases n - i,
        {
            let trigger = self.triggers.item_at(i);
            if !trigger.paused {
                let wait: u64 = trigger.wait_secs(now);
                best = match best {
                    None => Some(wait),
                    Some(w) => if wait < w {
                        Some(wait)
                    } else {
                        Some(w)
                    },
                };
                assert(self@.active(i as int) && self@.triggers[i as int].item.wait_at(now)
                    == wait);
            }
            i = i + 1;
        }
        proof {
            lemma_closest_shot(self@, now, best);
        }
        best
    }

    /// A whole scan as the loop of a running job makes it. Before it visits
    /// a trigger it looks at `write_intent` and reads `clock`: a raised mark
    /// ends the scan at once, so that a change does not wait for the
    /// triggers that are left; the reading decides whether the trigger is
    /// due, and is recorded as its last shot if it fires.
    ///
    /// Returns whether the scan came to its end. Then every active trigger
    /// that was due when the scan began has fired. A scan that was cut
    /// short visited the active triggers up to some position and left an
    /// active one unvisited. A job without an active trigger is always
    /// scanned to its end.
    pub fn scan(&mut self, write_intent: &AtomicBool, clock: &mut Clock) -> (finished: bool)
        ensures
            old(self).wf() ==> final(self).wf(),
            old(clock).latest() <= final(clock).latest(),
            old(self)@.scanned(final(self)@, old(clock).latest(), final(clock).latest()),
            finished ==> old(self)@.came_to(
                final(self)@,
                old(self)@.triggers.len() as int,
                old(clock).latest(),
            ),
            !finished ==> exists|stop: int|
                #[trigger] old(self)@.came_to(final(self)@, stop, old(clock).latest()) && !old(
                    self,
                )@.idle_between(stop, old(self)@.triggers.len() as int),
            old(self)@.idle_between(0, old(self)@.triggers.len() as int) ==> finished,
    {
        let n: usize = self.triggers.len();
        let mut from: usize = 0;
        let mut scanning: bool = true;
        let mut finished: bool = false;
        while scanning
            invariant
                n == self@.triggers.len(),
                n == old(self)@.triggers.len(),
                from <= n,
                old(self).wf() ==> self.wf(),
                old(clock).latest() <= clock.latest(),
                old(self)@.scanned(self@, old(clock).latest(), clock.latest()),
                old(self)@.came_to(self@, from as int, old(clock).latest()),
                !scanning && finished ==> old(self)@.came_to(
                    self@,
                    n as int,
                    old(clock).latest(),
                ),
                !scanning && !finished ==> !old(self)@.idle_between(from as int, n as int),
                scanning ==> !finished,
            decreases n - from + if scanning { 1int } else { 0int },
        {
            let ghost before = self@;
            let raised: bool = intent_raised(write_intent);
            let now: u64 = clock.now();
            match self.scan_step(from, now, raised) {
                ScanStep::Visited { position, fired: _ } => {
                    proof {
                        let began = old(clock).latest();
                        let was = old(self)@.triggers[position as int];
                        assert(before.triggers[position as int] == was);
                        if was.item.due_at(began) {
                            lemma_due_stays_due(was.item, began, now);
                        }
                        assert forall|k: int|
                            from <= k < position implies !old(self)@.active(k) by {
                            assert(!before.active(k));
                            assert(before.triggers[k] == old(self)@.triggers[k]);
                        }
                    }
                    from = position + 1;
                },
                ScanStep::Aborted => {
                    proof {
                        let k = choose|k: int| from <= k < n && before.active(k);
                        assert(before.triggers[k] == old(self)@.triggers[k]);
                        assert(old(self)@.active(k));
                    }
                    scanning = false;
                },
                ScanStep::Finished => {
                    proof {
                        assert forall|k: int| from <= k < n implies !old(self)@.active(k) by {
                            assert(!before.active(k));
                            assert(before.triggers[k] == old(self)@.triggers[k]);
                        }
                    }
                    scanning = false;
                    finished = true;
                },
            }
        }
        proof {
            if !finished {
                let k = choose|k: int| from <= k < n && old(self)@.active(k);
                assert(!old(self)@.idle_between(0, n as int)) by {
                    assert(old(self)@.active(k));
                }
                assert(old(self)@.came_to(self@, from as int, old(clock).latest())
                    && !old(self)@.idle_between(from as int, n as int));
            }
        }
        finished
    }

    /// One iteration of the control loop as the thread of a running job
    /// makes it, with the triggers in hand. A closing job ends its loop and
    /// fires nothing. Otherwise the job is scanned, and the loop may sleep
    /// until the closest shot, counted from the last reading of the clock.
    pub fn iterate(&mut self, write_intent: &AtomicBool, clock: &mut Clock) -> (next: Directive)
        ensures
            old(self).wf() ==> final(self).wf(),
            old(clock).latest() <= final(clock).latest(),
            old(self)@.closing ==> next == Directive::Terminate && final(self)@ == old(self)@,
            !old(self)@.closing ==> old(self)@.scanned(
                final(self)@,
                old(clock).latest(),
                final(clock).latest(),
            ) && next == Directive::Sleep(final(self)@.closest_shot(final(clock).latest())),
    {
        if self.closing {
            return Directive::Terminate;
        }
        self.scan(write_intent, clock);
        let now: u64 = clock.now();
        Directive::Sleep(self.closest_shot(now))
    }

    /// One iteration of the control loop at `now`, with no change pending. A
    /// closing job ends its loop and fires nothing. Otherwise every trigger
    /// that is active and due fires, and the loop may sleep until the closest
    /// shot.
    pub fn tick(&mut self, now: u64) -> (next: Directive)
        ensures
            old(self).wf() ==> final(self).wf(),
            final(self)@ == old(self)@.tick(now),
            next == old(self)@.directive(now),
    {
        if self.closing {
            return Directive::Terminate;
        }
        let ghost passed = old(self)@.pass(now);
        let n: usize = self.triggers.len();
        let mut from: usize = 0;
        let mut scanning: bool = true;
        while scanning
            invariant
                passed == old(self)@.pass(now),
                self@.worker == old(self)@.worker,
                self@.closing == old(self)@.closing,
                self@.triggers.len() == old(self)@.triggers.len(),
                n == self@.triggers.len(),
                from <= n,
                forall|k: int| 0 <= k < from ==> self@.triggers[k] == passed.triggers[k],
                forall|k: int|
                    from <= k < self@.triggers.len() ==> self@.triggers[k] == old(
                        self,
                    )@.triggers[k],
                !scanning ==> self@.idle_between(from as int, self@.triggers.len() as int),
            decreases self@.triggers.len() - from + if scanning { 1int } else { 0int },
        {
            let ghost before = self@;
            match self.scan_step(from, now, false) {
                ScanStep::Visited { position, fired: _ } => {
                    assert forall|k: int| 0 <= k < position + 1 implies self@.triggers[k]
                        == passed.triggers[k] by {
                        if from <= k < position {
                            assert(!before.active(k));
                        }
                    }
                    from = position + 1;
                },
                ScanStep::Aborted => {
                    scanning = false;
                },
                ScanStep::Finished => {
                    scanning = false;
                },
            }
        }
        assert(self@.triggers =~= passed.triggers) by {
            assert forall|k: int| from <= k < self@.triggers.len() implies self@.triggers[k]
                == passed.triggers[k] by {
                assert(!self@.active(k));
            }
        }
        Directive::Sleep(self.closest_shot(now))
    }
}

/// Whether a change is waiting for the triggers. Another thread raises and
/// lowers the mark, so nothing is known of what is read.
fn intent_raised(write_intent: &AtomicBool) -> (raised: bool) {
    write_intent.load(std::sync::atomic::Ordering::Relaxed)
}

} // verus!
