use rt_core::queue::{process_sensor_data, CommandType, Message, MessageQueue, QueueFull, QUEUE_CAPACITY};

#[test]
fn queue_capacity_and_fifo() {
    let mut q = MessageQueue::new();
    assert_eq!(q.capacity(), QUEUE_CAPACITY);
    for i in 0..QUEUE_CAPACITY {
        assert_eq!(q.enqueue(Message::SensorData(i as u16)), Ok(()));
    }
    let extra = Message::Command(CommandType::Reset);
    assert_eq!(q.enqueue(extra), Err(QueueFull(extra)));
    for i in 0..QUEUE_CAPACITY {
        assert_eq!(q.dequeue(), Some(Message::SensorData(i as u16)));
    }
    assert_eq!(q.dequeue(), None);
}

#[test]
fn dequeue_on_empty_queue_is_none() {
    let mut q = MessageQueue::new();
    assert_eq!(q.dequeue(), None);
    assert_eq!(q.dequeue(), None);
}

#[test]
fn queue_interleaves_in_order() {
    let mut q = MessageQueue::new();
    assert!(q.enqueue(Message::SensorData(42)).is_ok());
    assert!(q.enqueue(Message::Command(CommandType::Start)).is_ok());
    assert_eq!(q.dequeue(), Some(Message::SensorData(42)));
    assert!(q.enqueue(Message::Command(CommandType::Stop)).is_ok());
    assert_eq!(q.dequeue(), Some(Message::Command(CommandType::Start)));
    assert_eq!(q.dequeue(), Some(Message::Command(CommandType::Stop)));
    assert_eq!(q.dequeue(), None);
}

#[test]
fn queue_accepts_again_after_a_dequeue_when_full() {
    let mut q = MessageQueue::new();
    for i in 0..QUEUE_CAPACITY {
        assert!(q.enqueue(Message::SensorData(i as u16)).is_ok());
    }
    assert!(q.enqueue(Message::SensorData(99)).is_err());
    assert_eq!(q.dequeue(), Some(Message::SensorData(0)));
    assert!(q.enqueue(Message::SensorData(99)).is_ok());
    for i in 1..QUEUE_CAPACITY {
        assert_eq!(q.dequeue(), Some(Message::SensorData(i as u16)));
    }
    assert_eq!(q.dequeue(), Some(Message::SensorData(99)));
}

#[test]
fn sensor_data_starts_the_operation() {
    assert_eq!(process_sensor_data(42), CommandType::Start);
    assert_eq!(process_sensor_data(0), CommandType::Start);
}

#[test]
fn queue_holds_sixteen_messages() {
    let mut q = MessageQueue::new();
    assert_eq!(q.capacity(), 16);
    for i in 0..16u16 {
        assert_eq!(q.enqueue(Message::SensorData(42 + i)), Ok(()));
    }
    assert_eq!(q.enqueue(Message::SensorData(7)), Err(QueueFull(Message::SensorData(7))));
    let all = q.drain();
    assert_eq!(all.len(), 16);
    for i in 0..16u16 {
        assert_eq!(all[i as usize], Message::SensorData(42 + i));
    }
    assert_eq!(q.dequeue(), None);
}

#[test]
fn drain_returns_messages_in_insertion_order() {
    let mut q = MessageQueue::new();
    assert!(q.drain().is_empty());
    q.enqueue(Message::SensorData(1)).unwrap();
    q.enqueue(Message::Command(CommandType::Reset)).unwrap();
    q.enqueue(Message::SensorData(3)).unwrap();
    assert_eq!(
        q.drain(),
        vec![Message::SensorData(1), Message::Command(CommandType::Reset), Message::SensorData(3)]
    );
    assert_eq!(q.dequeue(), None);
    assert!(q.enqueue(Message::SensorData(4)).is_ok());
}
