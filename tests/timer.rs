use rt_core::timer::{TimerWheel, VirtualTimer};

fn count_fires(w: &mut TimerWheel, slot: usize, ticks: u32) -> u32 {
    let mut n = 0;
    for _ in 0..ticks {
        if w.tick().contains(&slot) {
            n += 1;
        }
    }
    n
}

#[test]
fn periodic_timer_fires_every_period() {
    let mut w = TimerWheel::new();
    w.start_timer(2, 50);
    assert_eq!(w.slot(2).deadline, 50);
    assert_eq!(count_fires(&mut w, 2, 49), 0);
    assert_eq!(w.tick(), vec![2]);
    assert_eq!(w.now(), 50);
    assert_eq!(count_fires(&mut w, 2, 49), 0);
    assert_eq!(w.tick(), vec![2]);
    assert_eq!(w.now(), 100);
    assert_eq!(w.slot(2).deadline, 150);
}

#[test]
fn deadline_wraps_past_counter_max() {
    let start = u32::MAX - 10;
    let mut w = TimerWheel::new_at(start);
    w.arm(0, 20, 0, 0);
    assert_eq!(w.slot(0).deadline, 9);
    assert_eq!(count_fires(&mut w, 0, 19), 0);
    assert_eq!(w.tick(), vec![0]);
    assert_eq!(w.now(), 9);
    assert!(!w.slot(0).active);
    assert_eq!(count_fires(&mut w, 0, 100), 0);
}

#[test]
fn periodic_timer_across_wrap() {
    let mut w = TimerWheel::new_at(u32::MAX - 2);
    w.start_timer(1, 5);
    assert_eq!(w.slot(1).deadline, 2);
    assert_eq!(count_fires(&mut w, 1, 4), 0);
    assert_eq!(w.tick(), vec![1]);
    assert_eq!(w.now(), 2);
    assert_eq!(count_fires(&mut w, 1, 4), 0);
    assert_eq!(w.tick(), vec![1]);
    assert_eq!(w.now(), 7);
}

#[test]
fn cancelled_timer_never_fires() {
    let mut w = TimerWheel::new();
    w.start_timer(3, 10);
    assert_eq!(count_fires(&mut w, 3, 5), 0);
    w.cancel_timer(3);
    assert_eq!(count_fires(&mut w, 3, 50), 0);
}

#[test]
fn restarting_a_timer_overwrites_its_deadline() {
    let mut w = TimerWheel::new();
    w.start_timer(0, 10);
    assert_eq!(count_fires(&mut w, 0, 5), 0);
    w.start_timer(0, 10);
    assert_eq!(count_fires(&mut w, 0, 9), 0);
    assert_eq!(w.tick(), vec![0]);
    assert_eq!(w.now(), 15);
}

#[test]
fn slots_fire_in_slot_order() {
    let mut w = TimerWheel::new();
    w.start_timer(3, 4);
    w.start_timer(1, 4);
    w.start_timer(2, 5);
    for _ in 0..3 {
        assert!(w.tick().is_empty());
    }
    assert_eq!(w.tick(), vec![1, 3]);
    assert_eq!(w.tick(), vec![2]);
}

#[test]
fn new_table_is_idle() {
    let w = TimerWheel::new();
    assert_eq!(w.now(), 0);
    for i in 0..4 {
        assert_eq!(w.slot(i), VirtualTimer { deadline: 0, period: 0, active: false, callback_id: i as u8 });
    }
    let mut w = w;
    assert!(w.free_slot() == Some(0));
    w.start_timer(0, 1);
    assert!(w.free_slot() == Some(1));
}
