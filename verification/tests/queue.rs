use mmtk::queue::{Dequeue, SharedQueue, Spin, BUFFER_SIZE};

fn entry(d: Dequeue<usize>) -> usize {
    match d {
        Dequeue::Entry(x) => x,
        Dequeue::Done => panic!("no entry: done"),
        Dequeue::Wait => panic!("no entry: wait"),
    }
}

fn block(s: Spin<usize>) -> Option<Vec<usize>> {
    match s {
        Spin::Block(b) => Some(b),
        _ => None,
    }
}

#[test]
fn new_local_queues() {
    let mut shared = SharedQueue::<usize>::new();
    let local1 = shared.spawn_local();
    assert_eq!(local1.id(), 0);
    let local2 = shared.spawn_local();
    assert_eq!(local2.id(), 1);
}

#[test]
fn enqueue_dequeue_buffer() {
    let mut shared = SharedQueue::<usize>::new();
    let mut local = shared.spawn_local();

    // Fill local buffer
    for i in 0..BUFFER_SIZE {
        local.enqueue(&mut shared, i);
        assert_eq!(local.buffer_len(), i + 1)
    }
    assert!(shared.is_empty());

    // Pop local buffer
    for i in (0..BUFFER_SIZE).rev() {
        let res = entry(local.dequeue(&mut shared));
        assert_eq!(res, i);
    }
}

#[test]
fn enqueue_dequeue_shared() {
    let mut shared = SharedQueue::<usize>::new();
    let mut local = shared.spawn_local();

    // Fill local buffer
    for i in 0..BUFFER_SIZE {
        local.enqueue(&mut shared, i);
    }
    assert!(shared.is_empty());

    // Make local queue flush buffer to shared queue
    local.enqueue(&mut shared, 42);
    assert_eq!(local.buffer_len(), 1);
    assert!(!shared.is_empty());

    // Dequeue from local buffer
    let res = entry(local.dequeue(&mut shared));
    assert_eq!(res, 42);
    // Dequeue from shared queue
    for i in (0..BUFFER_SIZE).rev() {
        let res = entry(local.dequeue(&mut shared));
        assert!(shared.is_empty());
        assert_eq!(res, i);
    }
}

#[test]
fn pull_block() {
    let mut shared = SharedQueue::<usize>::new();
    let _local = shared.spawn_local();
    shared.push(vec![42]);
    let res = block(shared.spin(0));
    assert!(res.is_some());
    assert_eq!(res.as_ref().unwrap().len(), 1);
    assert_eq!(res.as_ref().unwrap()[0], 42);
}

#[test]
fn spin_empty() {
    let mut shared = SharedQueue::<usize>::new();
    let _local = shared.spawn_local();
    // This is the only queue. And it is starved. So it is done at once.
    let res = shared.spin(0);
    assert!(matches!(res, Spin::Done));
}

#[test]
fn spin_waits_for_other_queue() {
    let mut shared = SharedQueue::<usize>::new();
    let _local1 = shared.spawn_local();
    let _local2 = shared.spawn_local();
    // Queue 1 is not starved, so queue 0 must wait.
    assert!(matches!(shared.spin(0), Spin::Wait));
    assert!(matches!(shared.spin(0), Spin::Wait));
}

#[test]
fn spin_done() {
    let mut shared = SharedQueue::<usize>::new();
    let _local1 = shared.spawn_local();
    let _local2 = shared.spawn_local();
    assert!(matches!(shared.spin(0), Spin::Wait));
    assert!(matches!(shared.spin(1), Spin::Done));
    assert!(matches!(shared.spin(0), Spin::Done));
}

#[test]
fn spin_return() {
    let mut shared = SharedQueue::<usize>::new();
    let _local1 = shared.spawn_local();
    let _local2 = shared.spawn_local();
    assert!(matches!(shared.spin(0), Spin::Wait));
    // push some work
    shared.push(vec![42]);
    let res = block(shared.spin(0));
    assert!(res.is_some());
    assert_eq!(res.as_ref().unwrap().len(), 1);
    assert_eq!(res.as_ref().unwrap()[0], 42);
}

#[test]
fn dequeue_skips_empty_blocks() {
    let mut shared = SharedQueue::<usize>::new();
    let mut local = shared.spawn_local();
    shared.push(vec![7, 8]);
    shared.push(vec![]);
    assert_eq!(entry(local.dequeue(&mut shared)), 8);
    assert!(shared.is_empty());
    assert_eq!(entry(local.dequeue(&mut shared)), 7);
    assert!(matches!(local.dequeue(&mut shared), Dequeue::Done));
    local.reset();
    assert!(local.is_empty());
}
