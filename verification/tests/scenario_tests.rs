use simple_scheduler::job::Directive;
use simple_scheduler::scheduler::Scheduler;
use simple_scheduler::trigger::NANOS_PER_SEC;
use simple_scheduler::worker::Worker;
use std::cell::RefCell;
use std::rc::Rc;

struct Tagged {
    tag: &'static str,
    shots: Rc<RefCell<Vec<(String, String)>>>,
}

impl Worker for Tagged {
    fn run(&self, trigger_name: &str) {
        self.shots.borrow_mut().push((self.tag.to_string(), trigger_name.to_string()));
    }
}

fn log() -> Rc<RefCell<Vec<(String, String)>>> {
    Rc::new(RefCell::new(Vec::new()))
}

fn worker(tag: &'static str, shots: &Rc<RefCell<Vec<(String, String)>>>) -> Tagged {
    Tagged { tag, shots: shots.clone() }
}

fn count(shots: &Rc<RefCell<Vec<(String, String)>>>, trigger_name: &str) -> usize {
    shots.borrow().iter().filter(|shot| shot.1 == trigger_name).count()
}

fn strings(names: &[&str]) -> Vec<String> {
    names.iter().map(|name| name.to_string()).collect()
}

/// Runs the loop of one job on a clock that jumps ahead by whatever the loop
/// says it may sleep, up to `until`. Returns the readings at which the named
/// trigger fired.
fn run_loop(
    scheduler: &mut Scheduler<Tagged>,
    shots: &Rc<RefCell<Vec<(String, String)>>>,
    job_name: &str,
    trigger_name: &str,
    from: u64,
    until: u64,
) -> Vec<u64> {
    let mut times = Vec::new();
    let mut now = from;
    while now <= until {
        let before = count(shots, trigger_name);
        let next = scheduler.tick(job_name, now);
        if count(shots, trigger_name) > before {
            times.push(now);
        }
        match next {
            Directive::Sleep(Some(wait)) => now += wait.max(1) * NANOS_PER_SEC,
            Directive::Sleep(None) | Directive::Terminate => break,
        }
    }
    times
}

#[test]
fn fresh_scheduler_lists_no_jobs() {
    let scheduler: Scheduler<Tagged> = Scheduler::new();
    assert_eq!(scheduler.get_job_names(), Vec::<String>::new());
}

#[test]
fn job_names_are_listed_once_in_the_order_of_arrival() {
    let shots = log();
    let mut scheduler = Scheduler::new();
    scheduler.add_job("thread2", worker("two", &shots));
    scheduler.add_job("thread1", worker("one", &shots));
    scheduler.add_job("thread2", worker("three", &shots));
    assert_eq!(scheduler.get_job_names(), strings(&["thread2", "thread1"]));
}

#[test]
fn adding_a_known_job_keeps_the_first_worker_and_its_triggers() {
    let shots = log();
    let mut scheduler = Scheduler::new();
    scheduler.add_job("J", worker("first", &shots));
    scheduler.add_trigger("J", "T", 1);
    scheduler.add_job("J", worker("second", &shots));
    assert_eq!(scheduler.get_job_names(), strings(&["J"]));
    assert_eq!(scheduler.get_trigger_names("J"), strings(&["T"]));
    assert_eq!(scheduler.tick("J", 0), Directive::Sleep(Some(1)));
    assert_eq!(*shots.borrow(), vec![("first".to_string(), "T".to_string())]);
}

#[test]
fn added_trigger_is_listed_and_removed_trigger_is_not() {
    let shots = log();
    let mut scheduler = Scheduler::new();
    scheduler.add_job("J", worker("w", &shots));
    scheduler.add_trigger("J", "T", 1);
    assert!(scheduler.get_trigger_names("J").contains(&"T".to_string()));
    scheduler.remove_trigger("J", "T");
    assert!(!scheduler.get_trigger_names("J").contains(&"T".to_string()));
}

#[test]
fn unknown_job_makes_every_operation_do_nothing() {
    let shots = log();
    let mut scheduler = Scheduler::new();
    scheduler.add_job("J", worker("w", &shots));
    scheduler.add_trigger("J", "T", 1);
    scheduler.add_trigger("K", "T", 1);
    scheduler.remove_trigger("K", "T");
    scheduler.remove_triggers("K");
    scheduler.change_trigger_interval("K", "T", 9);
    scheduler.pause_trigger("K", "T");
    scheduler.resume_trigger("K", "T");
    scheduler.pause_triggers("K");
    scheduler.resume_triggers("K");
    scheduler.remove_job("K");
    assert_eq!(scheduler.get_trigger_names("K"), Vec::<String>::new());
    assert_eq!(scheduler.tick("K", 0), Directive::Terminate);
    assert!(shots.borrow().is_empty());
    assert_eq!(scheduler.get_job_names(), strings(&["J"]));
    assert_eq!(scheduler.get_trigger_names("J"), strings(&["T"]));
    assert_eq!(scheduler.tick("J", 0), Directive::Sleep(Some(1)));
}

#[test]
fn new_trigger_fires_in_the_first_iteration() {
    let shots = log();
    let mut scheduler = Scheduler::new();
    scheduler.add_job("J", worker("w", &shots));
    assert_eq!(scheduler.tick("J", 777), Directive::Sleep(None));
    scheduler.add_trigger("J", "T", 1);
    assert_eq!(scheduler.tick("J", 778), Directive::Sleep(Some(1)));
    assert_eq!(count(&shots, "T"), 1);
}

#[test]
fn two_triggers_over_five_and_a_half_seconds() {
    let shots = log();
    let mut scheduler = Scheduler::new();
    scheduler.add_job("J", worker("w", &shots));
    scheduler.add_trigger("J", "A", 1);
    scheduler.add_trigger("J", "B", 5);
    let a_times = run_loop(&mut scheduler, &shots, "J", "A", 0, 5_500_000_000);
    assert!(a_times.len() >= 4);
    assert_eq!(
        a_times,
        vec![
            0,
            NANOS_PER_SEC,
            2 * NANOS_PER_SEC,
            3 * NANOS_PER_SEC,
            4 * NANOS_PER_SEC,
            5 * NANOS_PER_SEC
        ]
    );
    for pair in a_times.windows(2) {
        assert!(pair[1] - pair[0] >= NANOS_PER_SEC);
    }
    // "B" is due when it is created, and once more when its 5 s have passed.
    let b_shots: Vec<usize> = shots
        .borrow()
        .iter()
        .enumerate()
        .filter(|(_, shot)| shot.1 == "B")
        .map(|(at, _)| at)
        .collect();
    assert_eq!(b_shots, vec![1, 7]);
    assert_eq!(count(&shots, "B") - 1, 1);
}

#[test]
fn changed_interval_takes_effect_in_the_next_iteration() {
    let shots = log();
    let mut scheduler = Scheduler::new();
    scheduler.add_job("J", worker("w", &shots));
    scheduler.add_trigger("J", "A", 1);
    run_loop(&mut scheduler, &shots, "J", "A", 0, 2_500_000_000);
    assert_eq!(count(&shots, "A"), 3);
    scheduler.change_trigger_interval("J", "A", 3600);
    // The new interval counts from the next scan: the trigger fires there
    // once, and then not again for an hour.
    assert_eq!(scheduler.tick("J", 2_600_000_000), Directive::Sleep(Some(3600)));
    assert_eq!(count(&shots, "A"), 4);
    let mut now = 2_600_000_000;
    while now <= 4_600_000_000 {
        scheduler.tick("J", now);
        now += 100_000_000;
    }
    assert_eq!(count(&shots, "A"), 4);
    assert_eq!(
        scheduler.tick("J", 2_600_000_000 + 3600 * NANOS_PER_SEC),
        Directive::Sleep(Some(3600))
    );
    assert_eq!(count(&shots, "A"), 5);
}

#[test]
fn removed_job_fires_nothing_more() {
    let shots = log();
    let mut scheduler = Scheduler::new();
    scheduler.add_job("J", worker("w", &shots));
    scheduler.add_trigger("J", "A", 1);
    run_loop(&mut scheduler, &shots, "J", "A", 0, 3 * NANOS_PER_SEC);
    let fired = shots.borrow().len();
    assert_eq!(fired, 4);
    scheduler.remove_job("J");
    let mut now = 3 * NANOS_PER_SEC;
    while now <= 5 * NANOS_PER_SEC {
        assert_eq!(scheduler.tick("J", now), Directive::Terminate);
        now += 100_000_000;
    }
    assert_eq!(shots.borrow().len(), fired);
    assert_eq!(scheduler.get_job_names(), Vec::<String>::new());
}

#[test]
fn removed_job_can_be_added_again_with_a_new_worker() {
    let shots = log();
    let mut scheduler = Scheduler::new();
    scheduler.add_job("J", worker("first", &shots));
    scheduler.add_trigger("J", "T", 1);
    scheduler.remove_job("J");
    scheduler.add_job("J", worker("second", &shots));
    assert_eq!(scheduler.get_trigger_names("J"), Vec::<String>::new());
    scheduler.add_trigger("J", "T", 1);
    scheduler.tick("J", 0);
    assert_eq!(*shots.borrow(), vec![("second".to_string(), "T".to_string())]);
}

#[test]
fn removing_a_job_twice_is_removing_it_once() {
    let shots = log();
    let mut scheduler = Scheduler::new();
    scheduler.add_job("J", worker("w", &shots));
    scheduler.add_job("K", worker("w", &shots));
    scheduler.remove_job("J");
    scheduler.remove_job("J");
    assert_eq!(scheduler.get_job_names(), strings(&["K"]));
}

#[test]
fn releasing_a_scheduler_twice_is_releasing_it_once() {
    let shots = log();
    let mut scheduler = Scheduler::new();
    scheduler.release();
    scheduler.add_job("J", worker("w", &shots));
    scheduler.add_trigger("J", "T", 1);
    scheduler.add_job("K", worker("w", &shots));
    scheduler.release();
    assert_eq!(scheduler.get_job_names(), Vec::<String>::new());
    scheduler.release();
    assert_eq!(scheduler.get_job_names(), Vec::<String>::new());
    assert_eq!(scheduler.tick("J", 0), Directive::Terminate);
    assert!(shots.borrow().is_empty());
}

#[test]
fn released_scheduler_takes_new_jobs() {
    let shots = log();
    let mut scheduler = Scheduler::new();
    scheduler.add_job("thread2", worker("two", &shots));
    scheduler.release();
    scheduler.add_job("holidays", worker("three", &shots));
    scheduler.add_trigger("holidays", "hicking", 1);
    assert_eq!(scheduler.tick("holidays", 0), Directive::Sleep(Some(1)));
    assert_eq!(*shots.borrow(), vec![("three".to_string(), "hicking".to_string())]);
}

#[test]
fn jobs_do_not_touch_each_other() {
    let shots = log();
    let mut scheduler = Scheduler::new();
    scheduler.add_job("thread1", worker("one", &shots));
    scheduler.add_job("thread2", worker("two", &shots));
    scheduler.add_trigger("thread1", "eat", 1);
    scheduler.add_trigger("thread1", "sleep", 2);
    scheduler.add_trigger("thread2", "code", 3);
    scheduler.add_trigger("thread2", "code learning", 4);
    scheduler.pause_triggers("thread1");
    scheduler.pause_trigger("thread2", "code");
    assert_eq!(scheduler.tick("thread1", 0), Directive::Sleep(None));
    assert_eq!(scheduler.tick("thread2", 0), Directive::Sleep(Some(4)));
    assert_eq!(*shots.borrow(), vec![("two".to_string(), "code learning".to_string())]);
    scheduler.resume_triggers("thread1");
    scheduler.remove_triggers("thread2");
    assert_eq!(scheduler.tick("thread1", 0), Directive::Sleep(Some(1)));
    assert_eq!(scheduler.tick("thread2", 0), Directive::Sleep(None));
    assert_eq!(scheduler.get_trigger_names("thread1"), strings(&["eat", "sleep"]));
    assert_eq!(scheduler.get_trigger_names("thread2"), Vec::<String>::new());
    assert_eq!(shots.borrow().len(), 3);
}
