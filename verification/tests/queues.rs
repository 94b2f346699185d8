use mpsc_priority_bench::{
    BitmapQueue, DualPrioQueue, DualSegQueue, Msg, MutexBinaryHeapQueue, Prio101Queue,
    SkiplistQueue, HIGH, LOW,
};

fn msg(producer: u8, slot: u16) -> Msg {
    Msg { producer, slot }
}

fn dual_priority_contract<Q: DualPrioQueue + Default>() {
    let mut q = Q::default();
    assert!(q.pop().is_none(), "empty queue must pop None");

    // Interleave classes; expect all HIGH first, FIFO within each class.
    q.push(LOW, msg(0, 1));
    q.push(HIGH, msg(0, 2));
    q.push(LOW, msg(0, 3));
    q.push(HIGH, msg(0, 4));

    let order: Vec<u16> = std::iter::from_fn(|| q.pop()).map(|m| m.slot).collect();
    assert_eq!(order, vec![2, 4, 1, 3]);
    assert!(q.pop().is_none());
}

#[test]
fn mutex_heap_priority_and_fifo() {
    dual_priority_contract::<MutexBinaryHeapQueue>();
}

#[test]
fn dual_seg_priority_and_fifo() {
    dual_priority_contract::<DualSegQueue>();
}

fn prio101_contract<Q: Prio101Queue + Default>() {
    let mut q = Q::default();
    assert!(q.pop().is_none(), "empty queue must pop None");

    // Push a spread of levels out of order, two per level to check FIFO.
    for (i, prio) in [0u8, 100, 37, 100, 0, 37].iter().enumerate() {
        q.push(*prio, msg(*prio, i as u16));
    }

    let order: Vec<(u8, u16)> = std::iter::from_fn(|| q.pop())
        .map(|m| (m.producer, m.slot))
        .collect();
    // Highest priority first; within a priority, insertion (FIFO) order.
    assert_eq!(
        order,
        vec![(100, 1), (100, 3), (37, 2), (37, 5), (0, 0), (0, 4)]
    );
    assert!(q.pop().is_none());
}

#[test]
fn skiplist_priority_and_fifo() {
    prio101_contract::<SkiplistQueue>();
}

#[test]
fn bitmap_priority_and_fifo() {
    prio101_contract::<BitmapQueue>();
}

fn concurrent_no_loss<Q: DualPrioQueue + Default>() {
    const PER_PRODUCER: u64 = 2_000;
    let mut q = Q::default();
    // Eight producers' pushes, interleaved one message at a time.
    for i in 0..PER_PRODUCER {
        for p in 0..8u8 {
            let prio = if i % 3 == 0 { HIGH } else { LOW };
            q.push(prio, msg(p, (i % u16::MAX as u64) as u16));
        }
    }
    let mut per_producer = [0u64; 8];
    while let Some(m) = q.pop() {
        per_producer[m.producer as usize] += 1;
    }
    assert_eq!(
        per_producer, [PER_PRODUCER; 8],
        "no message lost or duplicated"
    );
}

#[test]
fn mutex_heap_concurrent_no_loss() {
    concurrent_no_loss::<MutexBinaryHeapQueue>();
}

#[test]
fn dual_seg_concurrent_no_loss() {
    concurrent_no_loss::<DualSegQueue>();
}

#[test]
fn dual_classes_other_values_are_low() {
    // DualSegQueue sends every value but HIGH to the low class.
    let mut q = DualSegQueue::default();
    q.push(7, msg(1, 1));
    q.push(HIGH, msg(1, 2));
    q.push(LOW, msg(1, 3));
    let order: Vec<u16> = std::iter::from_fn(|| q.pop()).map(|m| m.slot).collect();
    assert_eq!(order, vec![2, 1, 3]);
}

#[test]
fn heap_orders_by_raw_priority() {
    // The heap orders by the priority value itself, not just two classes.
    let mut q = MutexBinaryHeapQueue::default();
    q.push(3, msg(0, 30));
    q.push(9, msg(0, 90));
    q.push(3, msg(0, 31));
    q.push(0, msg(0, 0));
    q.push(9, msg(0, 91));
    let order: Vec<u16> = std::iter::from_fn(|| q.pop()).map(|m| m.slot).collect();
    assert_eq!(order, vec![90, 91, 30, 31, 0]);
}

#[test]
fn heap_many_entries_in_order() {
    let mut q = MutexBinaryHeapQueue::default();
    for i in 0..200u16 {
        q.push((i % 5) as u8, msg((i % 5) as u8, i));
    }
    let order: Vec<(u8, u16)> = std::iter::from_fn(|| q.pop())
        .map(|m| (m.producer, m.slot))
        .collect();
    let mut expected = Vec::new();
    for p in (0..5u8).rev() {
        for i in 0..200u16 {
            if (i % 5) as u8 == p {
                expected.push((p, i));
            }
        }
    }
    assert_eq!(order, expected);
}

#[test]
fn bitmap_stale_bits_are_skipped() {
    // After a level runs empty its bit may stay set; a later pop must skip it.
    let mut q = BitmapQueue::default();
    q.push(80, msg(80, 1));
    q.push(63, msg(63, 2));
    q.push(64, msg(64, 3));
    assert_eq!(q.pop().map(|m| m.slot), Some(1));
    q.push(5, msg(5, 4));
    assert_eq!(q.pop().map(|m| m.slot), Some(3));
    assert_eq!(q.pop().map(|m| m.slot), Some(2));
    assert_eq!(q.pop().map(|m| m.slot), Some(4));
    assert_eq!(q.pop().map(|m| m.slot), None);
    q.push(100, msg(100, 5));
    assert_eq!(q.pop().map(|m| m.slot), Some(5));
    assert!(q.pop().is_none());
}

#[test]
fn skiplist_interleaved_push_pop() {
    let mut q = SkiplistQueue::default();
    q.push(10, msg(10, 1));
    q.push(20, msg(20, 2));
    assert_eq!(q.pop().map(|m| m.slot), Some(2));
    q.push(10, msg(10, 3));
    q.push(10, msg(10, 4));
    assert_eq!(q.pop().map(|m| m.slot), Some(1));
    assert_eq!(q.pop().map(|m| m.slot), Some(3));
    q.push(0, msg(0, 5));
    assert_eq!(q.pop().map(|m| m.slot), Some(4));
    assert_eq!(q.pop().map(|m| m.slot), Some(5));
    assert!(q.pop().is_none());
}

#[test]
fn one_message_round_trip() {
    let mut h = MutexBinaryHeapQueue::default();
    h.push(200, msg(3, 7));
    assert_eq!(h.pop(), Some(msg(3, 7)));
    assert_eq!(h.pop(), None);
    let mut b = BitmapQueue::default();
    b.push(0, msg(3, 8));
    assert_eq!(b.pop(), Some(msg(3, 8)));
    assert_eq!(b.pop(), None);
}
