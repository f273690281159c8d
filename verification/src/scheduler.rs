//! The scheduler: a directory of jobs keyed by name. Every operation on a
//! trigger names its job and is handed on to it; a name that the directory
//! does not know makes the operation do nothing.

use crate::job::{lemma_changes_keep_valid, Directive, Job, JobView};
use crate::registry::{amended, distinct, first_at, index_of, inserted, known, names, removed};
use crate::registry::{lemma_amended, lemma_index_of, lemma_index_of_distinct};
use crate::registry::{lemma_index_of_known, lemma_inserted, lemma_known_is_listed};
use crate::registry::{lemma_removed, lemma_same_names, texts, Named, Registry};
use crate::worker::Worker;
use vstd::prelude::*;

verus! {

/// A scheduler as contracts see it: its jobs, in the order in which they were
/// added.
pub struct SchedulerView<W> {
    pub jobs: Seq<Named<JobView<W>>>,
}

impl<W> SchedulerView<W> {
    /// No job name occurs twice, and no trigger name occurs twice in a job.
    pub open spec fn wf(self) -> bool {
        &&& distinct(self.jobs)
        &&& forall|i: int| 0 <= i < self.jobs.len() ==> (#[trigger] self.jobs[i]).item.wf()
    }

    /// A scheduler without jobs.
    pub open spec fn empty() -> SchedulerView<W> {
        SchedulerView { jobs: Seq::empty() }
    }

    /// The names of the jobs, in order.
    pub open spec fn job_names(self) -> Seq<Seq<char>> {
        names(self.jobs)
    }

    /// The job under `job_name`; meaningful only where the name is known.
    pub open spec fn job(self, job_name: Seq<char>) -> JobView<W> {
        self.jobs[index_of(self.jobs, job_name)].item
    }

    /// The names of the triggers of the job under `job_name`; none where the
    /// job is unknown.
    pub open spec fn trigger_names(self, job_name: Seq<char>) -> Seq<Seq<char>> {
        if known(self.jobs, job_name) {
            self.job(job_name).trigger_names()
        } else {
            Seq::empty()
        }
    }

    /// The scheduler with `change` applied to the job under `job_name`;
    /// unchanged where the job is unknown.
    pub open spec fn on_job(
        self,
        job_name: Seq<char>,
        change: spec_fn(JobView<W>) -> JobView<W>,
    ) -> SchedulerView<W> {
        SchedulerView { jobs: amended(self.jobs, job_name, change) }
    }

    /// A new job under `job_name` that runs `worker`; a name that is already
    /// there keeps its job, its triggers and its worker.
    pub open spec fn add_job(self, job_name: Seq<char>, worker: W) -> SchedulerView<W> {
        SchedulerView { jobs: inserted(self.jobs, job_name, JobView::fresh(worker)) }
    }

    /// Without the job under `job_name`.
    pub open spec fn remove_job(self, job_name: Seq<char>) -> SchedulerView<W> {
        SchedulerView { jobs: removed(self.jobs, job_name) }
    }

    /// The job under `job_name` with a new trigger.
    pub open spec fn add_trigger(
        self,
        job_name: Seq<char>,
        trigger_name: Seq<char>,
        interval_sec: u16,
    ) -> SchedulerView<W> {
        self.on_job(job_name, |job: JobView<W>| job.add_trigger(trigger_name, interval_sec))
    }

    /// The job under `job_name` without the trigger under `trigger_name`.
    pub open spec fn remove_trigger(self, job_name: Seq<char>, trigger_name: Seq<char>)
        -> SchedulerView<W> {
        self.on_job(job_name, |job: JobView<W>| job.remove_trigger(trigger_name))
    }

    /// The job under `job_name` without any trigger.
    pub open spec fn remove_triggers(self, job_name: Seq<char>) -> SchedulerView<W> {
        self.on_job(job_name, |job: JobView<W>| job.remove_triggers())
    }

    /// The job under `job_name` with a new interval for one trigger.
    pub open spec fn change_trigger_interval(
        self,
        job_name: Seq<char>,
        trigger_name: Seq<char>,
        interval_sec: u16,
    ) -> SchedulerView<W> {
        self.on_job(
            job_name,
            |job: JobView<W>| job.change_trigger_interval(trigger_name, interval_sec),
        )
    }

    /// The job under `job_name` with one trigger paused.
    pub open spec fn pause_trigger(self, job_name: Seq<char>, trigger_name: Seq<char>)
        -> SchedulerView<W> {
        self.on_job(job_name, |job: JobView<W>| job.pause_trigger(trigger_name))
    }

    /// The job under `job_name` with one trigger resumed.
    pub open spec fn resume_trigger(self, job_name: Seq<char>, trigger_name: Seq<char>)
        -> SchedulerView<W> {
        self.on_job(job_name, |job: JobView<W>| job.resume_trigger(trigger_name))
    }

    /// The job under `job_name` with every trigger paused.
    pub open spec fn pause_triggers(self, job_name: Seq<char>) -> SchedulerView<W> {
        self.on_job(job_name, |job: JobView<W>| job.pause_triggers())
    }

    /// The job under `job_name` with every trigger resumed.
    pub open spec fn resume_triggers(self, job_name: Seq<char>) -> SchedulerView<W> {
        self.on_job(job_name, |job: JobView<W>| job.resume_triggers())
    }

    /// Without any job.
    pub open spec fn release(self) -> SchedulerView<W> {
        SchedulerView::empty()
    }

    /// The scheduler after one iteration of the loop of the job under
    /// `job_name` at `now`.
    pub open spec fn tick(self, job_name: Seq<char>, now: u64) -> SchedulerView<W> {
        self.on_job(job_name, |job: JobView<W>| job.tick(now))
    }

    /// What the loop of the job under `job_name` does after an iteration at
    /// `now`. Where the directory does not know the job there is no loop to
    /// go on.
    pub open spec fn directive(self, job_name: Seq<char>, now: u64) -> Directive {
        if known(self.jobs, job_name) {
            self.job(job_name).directive(now)
        } else {
            Directive::Terminate
        }
    }
}

/// Every operation keeps a valid scheduler valid.
pub proof fn lemma_operations_keep_valid<W>(
    scheduler: SchedulerView<W>,
    job_name: Seq<char>,
    worker: W,
    trigger_name: Seq<char>,
    interval_sec: u16,
    now: u64,
)
    requires
        scheduler.wf(),
    ensures
        scheduler.add_job(job_name, worker).wf(),
        scheduler.remove_job(job_name).wf(),
        scheduler.add_trigger(job_name, trigger_name, interval_sec).wf(),
        scheduler.remove_trigger(job_name, trigger_name).wf(),
        scheduler.remove_triggers(job_name).wf(),
        scheduler.change_trigger_interval(job_name, trigger_name, interval_sec).wf(),
        scheduler.pause_trigger(job_name, trigger_name).wf(),
        scheduler.resume_trigger(job_name, trigger_name).wf(),
        scheduler.pause_triggers(job_name).wf(),
        scheduler.resume_triggers(job_name).wf(),
        scheduler.tick(job_name, now).wf(),
        scheduler.release().wf(),
{
    lemma_inserted(scheduler.jobs, job_name, JobView::fresh(worker));
    lemma_removed(scheduler.jobs, job_name);
    lemma_on_job_keeps_valid(
        scheduler,
        job_name,
        |job: JobView<W>| job.add_trigger(trigger_name, interval_sec),
    );
    lemma_on_job_keeps_valid(
        scheduler,
        job_name,
        |job: JobView<W>| job.remove_trigger(trigger_name),
    );
    lemma_on_job_keeps_valid(scheduler, job_name, |job: JobView<W>| job.remove_triggers());
    lemma_on_job_keeps_valid(
        scheduler,
        job_name,
        |job: JobView<W>| job.change_trigger_interval(trigger_name, interval_sec),
    );
    lemma_on_job_keeps_valid(
        scheduler,
        job_name,
        |job: JobView<W>| job.pause_trigger(trigger_name),
    );
    lemma_on_job_keeps_valid(
        scheduler,
        job_name,
        |job: JobView<W>| job.resume_trigger(trigger_name),
    );
    lemma_on_job_keeps_valid(scheduler, job_name, |job: JobView<W>| job.pause_triggers());
    lemma_on_job_keeps_valid(scheduler, job_name, |job: JobView<W>| job.resume_triggers());
    lemma_on_job_keeps_valid(scheduler, job_name, |job: JobView<W>| job.tick(now));
    if known(scheduler.jobs, job_name) {
        lemma_index_of_known(scheduler.jobs, job_name);
        lemma_changes_keep_valid(scheduler.job(job_name), trigger_name, interval_sec, now);
    }
}

/// A change to one job that keeps the job valid keeps the scheduler valid,
/// leaves the job names as they are, and leaves every other job as it is.
pub proof fn lemma_on_job_keeps_valid<W>(
    scheduler: SchedulerView<W>,
    job_name: Seq<char>,
    change: spec_fn(JobView<W>) -> JobView<W>,
)
    requires
        scheduler.wf(),
    ensures
        scheduler.on_job(job_name, change).job_names() == scheduler.job_names(),
        forall|other: Seq<char>|
            known(scheduler.on_job(job_name, change).jobs, other) <==> known(
                scheduler.jobs,
                other,
            ),
        forall|other: Seq<char>|
            other != job_name && known(scheduler.jobs, other) ==> #[trigger] scheduler.on_job(
                job_name,
                change,
            ).job(other) == scheduler.job(other),
        known(scheduler.jobs, job_name) ==> scheduler.on_job(job_name, change).job(job_name)
            == change(scheduler.job(job_name)),
        !known(scheduler.jobs, job_name) ==> scheduler.on_job(job_name, change) == scheduler,
        (known(scheduler.jobs, job_name) ==> change(scheduler.job(job_name)).wf())
            ==> scheduler.on_job(job_name, change).wf(),
{
    let after = scheduler.on_job(job_name, change);
    lemma_amended(scheduler.jobs, job_name, change);
    if known(scheduler.jobs, job_name) {
        lemma_index_of_known(scheduler.jobs, job_name);
    }
    assert forall|other: Seq<char>|
        other != job_name && known(scheduler.jobs, other) implies #[trigger] after.job(other)
        == scheduler.job(other) by {
        lemma_index_of_known(scheduler.jobs, other);
        assert(index_of(after.jobs, other) == index_of(scheduler.jobs, other));
    }
    assert forall|i: int| 0 <= i < after.jobs.len() && (known(scheduler.jobs, job_name)
        ==> change(scheduler.job(job_name)).wf()) implies (#[trigger] after.jobs[i]).item.wf() by {
        assert(scheduler.jobs[i].item.wf());
    }
}

/// First writer wins: after a job is added its name is listed exactly once,
/// and to add the name again changes nothing: the directory, the job's
/// triggers and the job's worker stay as they are. A name that was new gets
/// a job without triggers that runs the worker handed in.
pub proof fn lemma_add_job_first_wins<W>(
    scheduler: SchedulerView<W>,
    job_name: Seq<char>,
    worker: W,
    second: W,
)
    requires
        scheduler.wf(),
    ensures
        ({
            let added = scheduler.add_job(job_name, worker);
            &&& added.job_names().contains(job_name)
            &&& added.job_names().no_duplicates()
            &&& added.add_job(job_name, second) == added
            &&& known(scheduler.jobs, job_name) ==> added == scheduler
            &&& !known(scheduler.jobs, job_name) ==> added.job(job_name) == JobView::fresh(worker)
                && added.job_names() == scheduler.job_names().push(job_name)
        }),
{
    let added = scheduler.add_job(job_name, worker);
    lemma_inserted(scheduler.jobs, job_name, JobView::fresh(worker));
    lemma_known_is_listed(added.jobs, job_name);
    if !known(scheduler.jobs, job_name) {
        lemma_index_of_distinct(added.jobs, job_name, scheduler.jobs.len() as int);
        assert(added.job_names() =~= scheduler.job_names().push(job_name));
    }
}

/// A trigger that was added to a known job is listed under that job; one
/// that was removed is not listed, whether or not it or its job was there.
pub proof fn lemma_add_then_remove_trigger<W>(
    scheduler: SchedulerView<W>,
    job_name: Seq<char>,
    trigger_name: Seq<char>,
    interval_sec: u16,
)
    requires
        scheduler.wf(),
    ensures
        known(scheduler.jobs, job_name) ==> scheduler.add_trigger(
            job_name,
            trigger_name,
            interval_sec,
        ).trigger_names(job_name).contains(trigger_name),
        !scheduler.remove_trigger(job_name, trigger_name).trigger_names(job_name).contains(
            trigger_name,
        ),
        !scheduler.add_trigger(job_name, trigger_name, interval_sec).remove_trigger(
            job_name,
            trigger_name,
        ).trigger_names(job_name).contains(trigger_name),
{
    let add = |job: JobView<W>| job.add_trigger(trigger_name, interval_sec);
    let remove = |job: JobView<W>| job.remove_trigger(trigger_name);
    let added = scheduler.on_job(job_name, add);
    lemma_on_job_keeps_valid(scheduler, job_name, add);
    lemma_on_job_keeps_valid(scheduler, job_name, remove);
    if known(scheduler.jobs, job_name) {
        let job = scheduler.job(job_name);
        lemma_index_of_known(scheduler.jobs, job_name);
        crate::job::lemma_add_then_remove_trigger(job, trigger_name, interval_sec);
        crate::job::lemma_changes_keep_valid(job, trigger_name, interval_sec, 0);
        lemma_on_job_keeps_valid(added, job_name, remove);
    }
}

/// A trigger that has just been added to a running job fires at once:
/// whatever the clock reads, the job's loop may not sleep, and its next
/// iteration fires the trigger.
pub proof fn lemma_new_trigger_fires_at_once<W>(
    scheduler: SchedulerView<W>,
    job_name: Seq<char>,
    trigger_name: Seq<char>,
    interval_sec: u16,
    now: u64,
)
    requires
        scheduler.wf(),
        known(scheduler.jobs, job_name),
        !scheduler.job(job_name).closing,
        !known(scheduler.job(job_name).triggers, trigger_name),
    ensures
        ({
            let added = scheduler.add_trigger(job_name, trigger_name, interval_sec);
            let last = scheduler.job(job_name).triggers.len() as int;
            &&& added.job(job_name).triggers[last].name == trigger_name
            &&& added.job(job_name).closest_shot(now) == Some(0u64)
            &&& added.tick(job_name, now).job(job_name).triggers[last].item.last_shot == Some(
                now,
            )
        }),
{
    let add = |job: JobView<W>| job.add_trigger(trigger_name, interval_sec);
    let pass = |job: JobView<W>| job.tick(now);
    let job = scheduler.job(job_name);
    lemma_index_of_known(scheduler.jobs, job_name);
    lemma_changes_keep_valid(job, trigger_name, interval_sec, now);
    lemma_on_job_keeps_valid(scheduler, job_name, add);
    let added = scheduler.on_job(job_name, add);
    lemma_on_job_keeps_valid(added, job_name, pass);
    crate::job::lemma_new_trigger_fires_at_once(job, trigger_name, interval_sec, now);
}

/// A paused trigger is not active: an iteration of its job's loop leaves it
/// as it is, at every reading of the clock. Resumed, it is active again.
pub proof fn lemma_paused_never_fires<W>(
    scheduler: SchedulerView<W>,
    job_name: Seq<char>,
    trigger_name: Seq<char>,
    now: u64,
)
    requires
        scheduler.wf(),
        known(scheduler.jobs, job_name),
        known(scheduler.job(job_name).triggers, trigger_name),
    ensures
        ({
            let paused = scheduler.pause_trigger(job_name, trigger_name);
            let i = index_of(scheduler.job(job_name).triggers, trigger_name);
            &&& paused.job(job_name).triggers[i].name == trigger_name
            &&& !paused.job(job_name).active(i)
            &&& paused.tick(job_name, now).job(job_name).triggers[i] == paused.job(
                job_name,
            ).triggers[i]
            &&& paused.resume_trigger(job_name, trigger_name).job(job_name).active(i)
        }),
{
    let pause = |job: JobView<W>| job.pause_trigger(trigger_name);
    let resume = |job: JobView<W>| job.resume_trigger(trigger_name);
    let pass = |job: JobView<W>| job.tick(now);
    let job = scheduler.job(job_name);
    lemma_index_of_known(scheduler.jobs, job_name);
    lemma_changes_keep_valid(job, trigger_name, 0, now);
    lemma_on_job_keeps_valid(scheduler, job_name, pause);
    let paused = scheduler.on_job(job_name, pause);
    lemma_on_job_keeps_valid(paused, job_name, pass);
    lemma_on_job_keeps_valid(paused, job_name, resume);
    crate::job::lemma_paused_never_fires(job, trigger_name, now);
}

/// A name that the directory does not know makes every operation do
/// nothing: the scheduler stays as it is, no trigger is listed, and no loop
/// runs under that name.
pub proof fn lemma_unknown_job_changes_nothing<W>(
    scheduler: SchedulerView<W>,
    job_name: Seq<char>,
    change: spec_fn(JobView<W>) -> JobView<W>,
    now: u64,
)
    requires
        !known(scheduler.jobs, job_name),
    ensures
        scheduler.on_job(job_name, change) == scheduler,
        scheduler.remove_job(job_name) == scheduler,
        scheduler.trigger_names(job_name) == Seq::<Seq<char>>::empty(),
        scheduler.tick(job_name, now) == scheduler,
        scheduler.directive(job_name, now) == Directive::Terminate,
{
}

/// Once a job is removed its loop has ended: an iteration under its name
/// fires nothing. To remove it again changes nothing.
pub proof fn lemma_removed_job_is_gone<W>(
    scheduler: SchedulerView<W>,
    job_name: Seq<char>,
    now: u64,
)
    requires
        scheduler.wf(),
    ensures
        !scheduler.remove_job(job_name).job_names().contains(job_name),
        scheduler.remove_job(job_name).remove_job(job_name) == scheduler.remove_job(job_name),
        scheduler.remove_job(job_name).tick(job_name, now) == scheduler.remove_job(job_name),
        scheduler.remove_job(job_name).directive(job_name, now) == Directive::Terminate,
        forall|other: Seq<char>|
            other != job_name ==> (known(scheduler.remove_job(job_name).jobs, other) <==> known(
                scheduler.jobs,
                other,
            )),
{
    lemma_removed(scheduler.jobs, job_name);
    lemma_known_is_listed(scheduler.remove_job(job_name).jobs, job_name);
}

/// To release a scheduler twice is to release it once: no job is left, and
/// no loop runs under any name.
pub proof fn lemma_release_is_idempotent<W>(
    scheduler: SchedulerView<W>,
    job_name: Seq<char>,
    now: u64,
)
    ensures
        scheduler.release().release() == scheduler.release(),
        scheduler.release().job_names() == Seq::<Seq<char>>::empty(),
        scheduler.release().remove_job(job_name) == scheduler.release(),
        scheduler.release().directive(job_name, now) == Directive::Terminate,
{
}

/// The rows of the directory with each job as contracts see it.
spec fn lift<W: Worker>(rows: Seq<Named<Job<W>>>) -> Seq<Named<JobView<W>>> {
    Seq::new(rows.len(), |i: int| Named { name: rows[i].name, item: rows[i].item@ })
}

proof fn lemma_lift<W: Worker>(rows: Seq<Named<Job<W>>>)
    ensures
        names(lift(rows)) == names(rows),
        distinct(lift(rows)) <==> distinct(rows),
        forall|name: Seq<char>| known(rows, name) <==> known(lift(rows), name),
        forall|name: Seq<char>|
            known(rows, name) ==> #[trigger] index_of(rows, name) == index_of(lift(rows), name),
{
    assert(names(lift(rows)) =~= names(rows));
    lemma_same_names(rows, lift(rows));
}

/// A directory of jobs keyed by name.
pub struct Scheduler<W> {
    jobs: Registry<Job<W>>,
}

impl<W: Worker> Scheduler<W> {
    /// The scheduler as contracts see it.
    pub closed spec fn view(&self) -> SchedulerView<W> {
        SchedulerView { jobs: lift(self.jobs@) }
    }

    /// The invariant of a scheduler: no job name occurs twice, and no
    /// trigger name occurs twice in a job.
    pub open spec fn wf(&self) -> bool {
        self@.wf()
    }

    /// After a change to the job at `i`, the first under its name, the
    /// scheduler shows that change, and is valid if it was and the job is.
    proof fn lemma_changed(
        &self,
        before: Scheduler<W>,
        i: int,
        change: spec_fn(JobView<W>) -> JobView<W>,
    )
        requires
            first_at(before.jobs@, before.jobs@[i].name, i),
            self.jobs@ == before.jobs@.update(
                i,
                Named { name: before.jobs@[i].name, item: self.jobs@[i].item },
            ),
            self.jobs@[i].item@ == change(before.jobs@[i].item@),
            before.jobs@[i].item.wf() ==> self.jobs@[i].item.wf(),
        ensures
            self@ == before@.on_job(before.jobs@[i].name, change),
            before.wf() ==> self.wf(),
    {
        lemma_lift(before.jobs@);
        lemma_lift(self.jobs@);
        lemma_index_of(before.jobs@, before.jobs@[i].name, i);
        assert(self@.jobs =~= before@.on_job(before.jobs@[i].name, change).jobs);
        if before.wf() {
            let after = self@.jobs;
            assert forall|k: int| 0 <= k < after.len() implies (#[trigger] after[k]).item.wf() by {
                assert(before@.jobs[k].item.wf());
            }
        }
    }

    /// A scheduler without jobs.
    pub fn new() -> (scheduler: Scheduler<W>)
        ensures
            scheduler.wf(),
            scheduler@ == SchedulerView::<W>::empty(),
            scheduler@.job_names() == Seq::<Seq<char>>::empty(),
    {
        let scheduler = Scheduler { jobs: Registry::new() };
        assert(scheduler@.jobs =~= Seq::empty());
        assert(scheduler@.job_names() =~= Seq::<Seq<char>>::empty());
        scheduler
    }

    /// The names of the jobs, in the order in which they were added.
    pub fn get_job_names(&self) -> (listed: Vec<String>)
        ensures
            texts(listed@) == self@.job_names(),
    {
        proof {
            lemma_lift(self.jobs@);
        }
        self.jobs.names()
    }

    /// The names of the triggers of the job under `job_name`; none where the
    /// job is unknown.
    pub fn get_trigger_names(&mut self, job_name: &str) -> (listed: Vec<String>)
        ensures
            final(self)@ == old(self)@,
            texts(listed@) == old(self)@.trigger_names(job_name@),
    {
        proof {
            lemma_lift(self.jobs@);
        }
        if let Some(i) = self.jobs.position(job_name) {
            let job = self.jobs.slot_mut(i);
            let listed = job.get_trigger_names();
            assert(lift(self.jobs@) =~= lift(old(self).jobs@));
            return listed;
        }
        let listed: Vec<String> = Vec::new();
        assert(texts(listed@) =~= Seq::<Seq<char>>::empty());
        listed
    }

    /// Adds a job that runs `worker`. A name that is already there keeps its
    /// job, and `worker` is dropped.
    pub fn add_job(&mut self, job_name: &str, worker: W)
        ensures
            old(self).wf() ==> final(self).wf(),
            final(self)@ == old(self)@.add_job(job_name@, worker),
    {
        proof {
            lemma_lift(self.jobs@);
        }
        if let None = self.jobs.position(job_name) {
            let job: Job<W> = Job::new(worker);
            self.jobs.insert(job_name, job);
            proof {
                lemma_lift(self.jobs@);
                assert(self@.jobs =~= old(self)@.add_job(job_name@, worker).jobs);
                if old(self).wf() {
                    let after = self@.jobs;
                    assert forall|k: int|
                        0 <= k < after.len() implies (#[trigger] after[k]).item.wf() by {
                        if k < old(self)@.jobs.len() {
                            assert(old(self)@.jobs[k].item.wf());
                        }
                    }
                }
            }
        }
    }

    /// Removes the job under `job_name` and releases it; nothing changes
    /// where the name is unknown.
    pub fn remove_job(&mut self, job_name: &str)
        ensures
            old(self).wf() ==> final(self).wf(),
            final(self)@ == old(self)@.remove_job(job_name@),
    {
        proof {
            lemma_lift(self.jobs@);
        }
        if let Some(job) = self.jobs.remove(job_name) {
            let mut job = job;
            job.release();
            proof {
                let at = index_of(old(self).jobs@, job_name@);
                lemma_index_of_known(old(self).jobs@, job_name@);
                lemma_lift(self.jobs@);
                assert(self@.jobs =~= old(self)@.jobs.remove(at));
                if old(self).wf() {
                    let after = self@.jobs;
                    assert forall|k: int|
                        0 <= k < after.len() implies (#[trigger] after[k]).item.wf() by {
                        assert(old(self)@.jobs[if k < at { k } else { k + 1 }].item.wf());
                    }
                }
            }
        }
    }

    /// Adds a trigger to the job under `job_name`.
    pub fn add_trigger(&mut self, job_name: &str, trigger_name: &str, interval_sec: u16)
        ensures
            old(self).wf() ==> final(self).wf(),
            final(self)@ == old(self)@.add_trigger(job_name@, trigger_name@, interval_sec),
    {
        proof {
            lemma_lift(self.jobs@);
        }
        if let Some(i) = self.jobs.position(job_name) {
            let job = self.jobs.slot_mut(i);
            job.add_trigger(trigger_name, interval_sec);
            proof {
                self.lemma_changed(
                    *old(self),
                    i as int,
                    |job: JobView<W>| job.add_trigger(trigger_name@, interval_sec),
                );
            }
        }
    }

    /// Removes a trigger from the job under `job_name`.
    pub fn remove_trigger(&mut self, job_name: &str, trigger_name: &str)
        ensures
            old(self).wf() ==> final(self).wf(),
            final(self)@ == old(self)@.remove_trigger(job_name@, trigger_name@),
    {
        proof {
            lemma_lift(self.jobs@);
        }
        if let Some(i) = self.jobs.position(job_name) {
            let job = self.jobs.slot_mut(i);
            job.remove_trigger(trigger_name);
            proof {
                self.lemma_changed(
                    *old(self),
                    i as int,
                    |job: JobView<W>| job.remove_trigger(trigger_name@),
                );
            }
        }
    }

    /// Removes every trigger from the job under `job_name`.
    pub fn remove_triggers(&mut self, job_name: &str)
        ensures
            old(self).wf() ==> final(self).wf(),
            final(self)@ == old(self)@.remove_triggers(job_name@),
    {
        proof {
            lemma_lift(self.jobs@);
        }
        if let Some(i) = self.jobs.position(job_name) {
            let job = self.jobs.slot_mut(i);
            job.remove_triggers();
            proof {
                self.lemma_changed(
                    *old(self),
                    i as int,
                    |job: JobView<W>| job.remove_triggers(),
                );
            }
        }
    }

    /// Gives a trigger of the job under `job_name` a new interval; the trigger
    /// is due at once.
    pub fn change_trigger_interval(&mut self, job_name: &str, trigger_name: &str, interval_sec: u16)
        ensures
            old(self).wf() ==> final(self).wf(),
            final(self)@ == old(self)@.change_trigger_interval(
                job_name@,
                trigger_name@,
                interval_sec,
            ),
    {
        proof {
            lemma_lift(self.jobs@);
        }
        if let Some(i) = self.jobs.position(job_name) {
            let job = self.jobs.slot_mut(i);
            job.change_trigger_interval(trigger_name, interval_sec);
            proof {
                self.lemma_changed(
                    *old(self),
                    i as int,
                    |job: JobView<W>| job.change_trigger_interval(trigger_name@, interval_sec),
                );
            }
        }
    }

    /// Pauses a trigger of the job under `job_name`.
    pub fn pause_trigger(&mut self, job_name: &str, trigger_name: &str)
        ensures
            old(self).wf() ==> final(self).wf(),
            final(self)@ == old(self)@.pause_trigger(job_name@, trigger_name@),
    {
        proof {
            lemma_lift(self.jobs@);
        }
        if let Some(i) = self.jobs.position(job_name) {
            let job = self.jobs.slot_mut(i);
            job.pause_trigger(trigger_name);
            proof {
                self.lemma_changed(
                    *old(self),
                    i as int,
                    |job: JobView<W>| job.pause_trigger(trigger_name@),
                );
            }
        }
    }

    /// Resumes a trigger of the job under `job_name`.
    pub fn resume_trigger(&mut self, job_name: &str, trigger_name: &str)
        ensures
            old(self).wf() ==> final(self).wf(),
            final(self)@ == old(self)@.resume_trigger(job_name@, trigger_name@),
    {
        proof {
            lemma_lift(self.jobs@);
        }
        if let Some(i) = self.jobs.position(job_name) {
            let job = self.jobs.slot_mut(i);
            job.resume_trigger(trigger_name);
            proof {
                self.lemma_changed(
                    *old(self),
                    i as int,
                    |job: JobView<W>| job.resume_trigger(trigger_name@),
                );
            }
        }
    }

    /// Pauses every trigger of the job under `job_name`.
    pub fn pause_triggers(&mut self, job_name: &str)
        ensures
            old(self).wf() ==> final(self).wf(),
            final(self)@ == old(self)@.pause_triggers(job_name@),
    {
        proof {
            lemma_lift(self.jobs@);
        }
        if let Some(i) = self.jobs.position(job_name) {
            let job = self.jobs.slot_mut(i);
            job.pause_triggers();
            proof {
                self.lemma_changed(
                    *old(self),
                    i as int,
                    |job: JobView<W>| job.pause_triggers(),
                );
            }
        }
    }

    /// Resumes every trigger of the job under `job_name`.
    pub fn resume_triggers(&mut self, job_name: &str)
        ensures
            old(self).wf() ==> final(self).wf(),
            final(self)@ == old(self)@.resume_triggers(job_name@),
    {
        proof {
            lemma_lift(self.jobs@);
        }
        if let Some(i) = self.jobs.position(job_name) {
            let job = self.jobs.slot_mut(i);
            job.resume_triggers();
            proof {
                self.lemma_changed(
                    *old(self),
                    i as int,
                    |job: JobView<W>| job.resume_triggers(),
                );
            }
        }
    }

    /// Releases every job and empties the directory.
    pub fn release(&mut self)
        ensures
            final(self).wf(),
            final(self)@ == old(self)@.release(),
    {
        let n: usize = self.jobs.len();
        let mut i: usize = 0;
        while i < n
            invariant
                i <= n,
                n == self.jobs@.len(),
            decreases n - i,
        {
            let job = self.jobs.slot_mut(i);
            job.release();
            i = i + 1;
        }
        self.jobs.clear();
        assert(self@.jobs =~= Seq::empty());
    }

    /// One iteration of the loop of the job under `job_name` at `now`, with
    /// no change pending: every trigger of the job that is active and due
    /// fires, and the loop may sleep until the closest shot. A job that the
    /// directory does not know has no loop: nothing fires.
    pub fn tick(&mut self, job_name: &str, now: u64) -> (next: Directive)
        ensures
            old(self).wf() ==> final(self).wf(),
            final(self)@ == old(self)@.tick(job_name@, now),
            next == old(self)@.directive(job_name@, now),
    {
        proof {
            lemma_lift(self.jobs@);
        }
        match self.jobs.position(job_name) {
            Some(i) => {
                let job = self.jobs.slot_mut(i);
                let next = job.tick(now);
                proof {
                    self.lemma_changed(*old(self), i as int, |job: JobView<W>| job.tick(now));
                }
                next
            },
            None => Directive::Terminate,
        }
    }
}

} // verus!
