use rt_core::kernel::Kernel;
use rt_core::sched::{SpawnError, TaskState};

#[test]
fn spawn_after_runs_the_task_when_the_delay_elapses() {
    let mut k = Kernel::new(vec![1, 2]);
    assert_eq!(k.spawn_after(1, 0, 3), Ok(()));
    assert!(k.tick().is_empty());
    assert!(k.tick().is_empty());
    assert_eq!(k.sched.state(1), TaskState::Dormant);
    assert!(k.tick().is_empty());
    assert_eq!(k.sched.running(), Some(1));
    for _ in 0..10 {
        k.tick();
    }
    k.sched.complete();
    assert_eq!(k.sched.state(1), TaskState::Dormant);
}

#[test]
fn spawn_after_without_a_free_slot_is_queue_full() {
    let mut k = Kernel::new(vec![1]);
    for _ in 0..4 {
        assert_eq!(k.spawn_after(0, 0, 100), Ok(()));
    }
    assert_eq!(k.spawn_after(0, 0, 100), Err(SpawnError::QueueFull));
}

#[test]
fn second_fire_for_a_pending_task_is_reported_dropped() {
    let mut k = Kernel::new(vec![1, 1]);
    k.spawn_after(0, 0, 2).unwrap();
    k.spawn_after(0, 0, 2).unwrap();
    assert!(k.tick().is_empty());
    assert_eq!(k.tick(), vec![0]);
    assert_eq!(k.sched.running(), Some(0));
}

#[test]
fn cancelled_spawn_after_never_runs() {
    let mut k = Kernel::new(vec![1]);
    k.spawn_after(0, 0, 2).unwrap();
    k.cancel_timer(0);
    for _ in 0..10 {
        assert!(k.tick().is_empty());
    }
    assert_eq!(k.sched.running(), None);
}

#[test]
fn periodic_timer_spawns_its_task() {
    let mut k = Kernel::new(vec![1, 2, 3]);
    k.start_timer(2, 50, 1);
    for _ in 0..49 {
        k.tick();
    }
    assert_eq!(k.sched.running(), None);
    k.tick();
    assert_eq!(k.sched.running(), Some(1));
    k.sched.complete();
    for _ in 0..49 {
        k.tick();
    }
    assert_eq!(k.sched.running(), None);
    k.tick();
    assert_eq!(k.sched.running(), Some(1));
}

#[test]
fn delayed_task_is_pending_until_it_fires() {
    let mut k = Kernel::new(vec![1, 2]);
    assert_eq!(k.state(1), TaskState::Dormant);
    k.spawn_after(1, 0, 2).unwrap();
    assert_eq!(k.state(1), TaskState::Pending);
    assert_eq!(k.state(0), TaskState::Dormant);
    k.tick();
    assert_eq!(k.state(1), TaskState::Pending);
    k.tick();
    assert_eq!(k.state(1), TaskState::Running);
    k.sched.complete();
    assert_eq!(k.state(1), TaskState::Dormant);
}

#[test]
fn timer_spawns_carry_their_arguments() {
    let mut k = Kernel::new(vec![1, 2, 3]);
    k.start_timer(3, 4, 2);
    k.spawn_after(1, 77, 2).unwrap();
    k.tick();
    k.tick();
    assert_eq!(k.sched.running(), Some(1));
    assert_eq!(k.sched.arg(1), 77);
    k.tick();
    k.tick();
    assert_eq!(k.sched.running(), Some(2));
    assert_eq!(k.sched.arg(2), 3);
}
