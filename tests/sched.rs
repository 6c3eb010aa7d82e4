use rt_core::sched::{LockOutcome, Scheduler, SpawnError, TaskState};

const LOW: usize = 0;
const MEDIUM: usize = 1;
const HIGH: usize = 2;

/// Runs a low task that holds a resource for `critical` units, a high task
/// spawned at unit 1 that needs the resource, and a medium task spawned at
/// unit 2 that works for `medium` units without it. Returns how many units
/// the high task waited before it held the resource.
fn high_task_wait(protected: bool, critical: u32, medium: u32) -> u32 {
    let mut s = Scheduler::new(vec![1, 2, 3]);
    let r = s.add_resource(3, protected);
    s.spawn(LOW, 0).unwrap();
    assert_eq!(s.acquire(r), LockOutcome::Acquired);
    let mut unit = 0u32;
    let mut low_done = 0u32;
    let mut medium_done = 0u32;
    let mut high_spawned = false;
    let mut medium_spawned = false;
    let mut high_asked = false;
    let mut wait = 0u32;
    while unit < 1000 {
        if unit == 1 && !high_spawned {
            high_spawned = true;
            s.spawn(HIGH, 0).unwrap();
        }
        if unit == 2 && !medium_spawned {
            medium_spawned = true;
            s.spawn(MEDIUM, 0).unwrap();
        }
        match s.running() {
            Some(HIGH) => {
                if high_asked {
                    return wait;
                }
                match s.acquire(r) {
                    LockOutcome::Acquired => return wait,
                    LockOutcome::Blocked => {
                        high_asked = true;
                        continue;
                    }
                }
            }
            Some(LOW) => {
                low_done += 1;
                if low_done == critical {
                    s.release(r);
                }
            }
            Some(MEDIUM) => {
                medium_done += 1;
                if medium_done == medium {
                    s.complete();
                }
            }
            _ => {}
        }
        if high_spawned {
            wait += 1;
        }
        unit += 1;
    }
    panic!("the high task never obtained the resource");
}

#[test]
fn ceiling_protocol_bounds_blocking() {
    let critical = 5;
    for medium in [1u32, 3, 10, 50] {
        let wait = high_task_wait(true, critical, medium);
        assert!(wait <= critical, "waited {} units", wait);
    }
}

#[test]
fn unprotected_resource_shows_unbounded_inversion() {
    let critical = 5;
    let wait = high_task_wait(false, critical, 10);
    assert!(wait > critical, "waited only {} units", wait);
    assert_eq!(wait, 14);
    assert!(high_task_wait(false, critical, 50) > high_task_wait(false, critical, 10));
}

#[test]
fn holder_keeps_running_under_ceiling() {
    let mut s = Scheduler::new(vec![1, 2, 3]);
    let r = s.add_resource(3, true);
    s.spawn(LOW, 0).unwrap();
    assert_eq!(s.acquire(r), LockOutcome::Acquired);
    s.spawn(HIGH, 0).unwrap();
    s.spawn(MEDIUM, 0).unwrap();
    assert_eq!(s.running(), Some(LOW));
    assert_eq!(s.state(HIGH), TaskState::Blocked);
    assert_eq!(s.state(MEDIUM), TaskState::Blocked);
    s.write_data(r, 7);
    assert_eq!(s.read_data(r), 7);
    s.release(r);
    assert_eq!(s.running(), Some(HIGH));
    assert_eq!(s.state(MEDIUM), TaskState::Ready);
    assert_eq!(s.state(LOW), TaskState::Ready);
    s.complete();
    assert_eq!(s.running(), Some(MEDIUM));
    s.complete();
    assert_eq!(s.running(), Some(LOW));
    s.complete();
    assert_eq!(s.running(), None);
    assert_eq!(s.state(LOW), TaskState::Dormant);
}

#[test]
fn higher_priority_spawn_preempts() {
    let mut s = Scheduler::new(vec![1, 2, 3]);
    s.spawn(LOW, 0).unwrap();
    assert_eq!(s.running(), Some(LOW));
    s.spawn(MEDIUM, 0).unwrap();
    assert_eq!(s.running(), Some(MEDIUM));
    assert_eq!(s.state(LOW), TaskState::Ready);
    s.spawn(HIGH, 0).unwrap();
    assert_eq!(s.running(), Some(HIGH));
    s.complete();
    assert_eq!(s.running(), Some(MEDIUM));
    s.complete();
    assert_eq!(s.running(), Some(LOW));
}

#[test]
fn lower_priority_spawn_waits() {
    let mut s = Scheduler::new(vec![1, 2, 3]);
    s.spawn(HIGH, 0).unwrap();
    s.spawn(LOW, 0).unwrap();
    s.spawn(MEDIUM, 0).unwrap();
    assert_eq!(s.running(), Some(HIGH));
    assert_eq!(s.state(LOW), TaskState::Ready);
    s.complete();
    assert_eq!(s.running(), Some(MEDIUM));
    s.complete();
    assert_eq!(s.running(), Some(LOW));
}

#[test]
fn equal_priorities_run_in_arrival_order() {
    let mut s = Scheduler::new(vec![5, 1, 1, 1]);
    s.spawn(0, 0).unwrap();
    s.spawn(3, 0).unwrap();
    s.spawn(1, 0).unwrap();
    s.spawn(2, 0).unwrap();
    s.complete();
    assert_eq!(s.running(), Some(3));
    s.complete();
    assert_eq!(s.running(), Some(1));
    s.complete();
    assert_eq!(s.running(), Some(2));
}

#[test]
fn preempted_task_resumes_before_its_peers() {
    let mut s = Scheduler::new(vec![1, 1, 3]);
    s.spawn(0, 0).unwrap();
    s.spawn(1, 0).unwrap();
    s.spawn(2, 0).unwrap();
    assert_eq!(s.running(), Some(2));
    s.complete();
    assert_eq!(s.running(), Some(0));
}

#[test]
fn spawning_a_pending_task_is_queue_full() {
    let mut s = Scheduler::new(vec![2, 1]);
    s.spawn(0, 0).unwrap();
    s.spawn(1, 0).unwrap();
    assert_eq!(s.spawn(1, 0), Err(SpawnError::QueueFull));
    assert_eq!(s.spawn(0, 0), Err(SpawnError::QueueFull));
    s.complete();
    assert_eq!(s.spawn(0, 0), Ok(()));
    assert_eq!(s.running(), Some(0));
}

#[test]
fn unprotected_release_hands_resource_to_waiter() {
    let mut s = Scheduler::new(vec![1, 3]);
    let r = s.add_resource(3, false);
    s.spawn(0, 0).unwrap();
    assert_eq!(s.acquire(r), LockOutcome::Acquired);
    s.spawn(1, 0).unwrap();
    assert_eq!(s.running(), Some(1));
    assert_eq!(s.acquire(r), LockOutcome::Blocked);
    assert_eq!(s.state(1), TaskState::Blocked);
    assert_eq!(s.running(), Some(0));
    s.release(r);
    assert_eq!(s.running(), Some(1));
    s.write_data(r, 3);
    s.release(r);
    s.complete();
    assert_eq!(s.running(), Some(0));
}

#[test]
fn spawn_records_the_argument() {
    let mut s = Scheduler::new(vec![1, 2]);
    assert_eq!(s.arg(0), 0);
    s.spawn(0, 17).unwrap();
    assert_eq!(s.arg(0), 17);
    assert_eq!(s.spawn(0, 99), Err(SpawnError::QueueFull));
    assert_eq!(s.arg(0), 17);
    s.spawn(1, 5).unwrap();
    assert_eq!(s.arg(1), 5);
}
