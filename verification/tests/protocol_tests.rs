use sqew::queue::{
    ack_messages, count_queued_messages_by_queue, count_ready_messages, create_queue,
    enqueue_message, get_message_by_id, nack_messages, peek_queue, poll_messages, remove_message,
};
use sqew::store::Store;

#[test]
fn poll_follows_availability_order() {
    let mut s = Store::new();
    let q = create_queue(&mut s, "q", 5).unwrap();
    // first in, but delayed: available at 1_500
    let late = enqueue_message(&mut s, "q", "\"late\"", 500, 1_000).unwrap();
    // second in, available at 1_000
    let early = enqueue_message(&mut s, "q", "\"early\"", 0, 1_000).unwrap();
    assert!(late.id < early.id);

    // peek lists by (available_at, id): the early message first
    let peeked = peek_queue(&s, "q", 10);
    assert_eq!(peeked[0].id, early.id);
    assert_eq!(peeked[1].id, late.id);

    // one-by-one polling drains in availability order
    let first = poll_messages(&mut s, "q", 1, 60_000, 2_000);
    assert_eq!(first.len(), 1);
    assert_eq!(first[0].id, early.id);
    let second = poll_messages(&mut s, "q", 1, 60_000, 2_000);
    assert_eq!(second.len(), 1);
    assert_eq!(second[0].id, late.id);
    assert_eq!(count_ready_messages(&s, q.id, 2_000), 0);
}

#[test]
fn poll_batch_is_ordered_by_availability() {
    let mut s = Store::new();
    let _ = create_queue(&mut s, "q", 5).unwrap();
    // first in, but delayed: the smaller id carries the later availability
    let late = enqueue_message(&mut s, "q", "\"late\"", 500, 1_000).unwrap();
    let early = enqueue_message(&mut s, "q", "\"early\"", 0, 1_000).unwrap();
    assert!(late.id < early.id);

    // one batch of both: earliest available first, not id order
    let batch = poll_messages(&mut s, "q", 10, 60_000, 2_000);
    assert_eq!(batch.len(), 2);
    assert_eq!(batch[0].id, early.id);
    assert_eq!(batch[1].id, late.id);
}

#[test]
fn overlapping_polls_lease_disjoint_messages() {
    let mut s = Store::new();
    let _ = create_queue(&mut s, "q", 5).unwrap();
    for i in 0..6 {
        let payload = format!("{}", i);
        let _ = enqueue_message(&mut s, "q", &payload, 0, 1_000).unwrap();
    }
    // two polls inside the same visibility window see disjoint sets
    let a = poll_messages(&mut s, "q", 4, 10_000, 2_000);
    let b = poll_messages(&mut s, "q", 4, 10_000, 2_500);
    assert_eq!(a.len(), 4);
    assert_eq!(b.len(), 2);
    for ma in &a {
        for mb in &b {
            assert_ne!(ma.id, mb.id);
        }
    }
}

#[test]
fn expired_lease_redelivers() {
    let mut s = Store::new();
    let _ = create_queue(&mut s, "q", 5).unwrap();
    let m = enqueue_message(&mut s, "q", "\"job\"", 0, 1_000).unwrap();
    let first = poll_messages(&mut s, "q", 1, 100, 1_000);
    assert_eq!(first.len(), 1);
    // inside the window: hidden
    assert!(poll_messages(&mut s, "q", 1, 100, 1_050).is_empty());
    // after the window: delivered again (at-least-once)
    let again = poll_messages(&mut s, "q", 1, 100, 1_200);
    assert_eq!(again.len(), 1);
    assert_eq!(again[0].id, m.id);
}

#[test]
fn attempts_grow_until_drop() {
    let mut s = Store::new();
    let _ = create_queue(&mut s, "q", 3).unwrap();
    let m = enqueue_message(&mut s, "q", "\"j\"", 0, 0).unwrap();
    assert_eq!(m.attempts, 0);
    assert_eq!(nack_messages(&mut s, &vec![m.id], 0, 0), (1, 0));
    assert_eq!(get_message_by_id(&s, m.id).unwrap().attempts, 1);
    assert_eq!(nack_messages(&mut s, &vec![m.id], 0, 0), (1, 0));
    assert_eq!(get_message_by_id(&s, m.id).unwrap().attempts, 2);
    // third failure reaches max_attempts = 3: dropped
    assert_eq!(nack_messages(&mut s, &vec![m.id], 0, 0), (0, 1));
    assert!(get_message_by_id(&s, m.id).is_err());
}

#[test]
fn nack_delay_hides_message() {
    let mut s = Store::new();
    let _ = create_queue(&mut s, "q", 5).unwrap();
    let m = enqueue_message(&mut s, "q", "\"j\"", 0, 1_000).unwrap();
    let polled = poll_messages(&mut s, "q", 1, 50, 1_000);
    assert_eq!(polled.len(), 1);
    let _ = nack_messages(&mut s, &vec![m.id], 500, 1_010);
    // hidden until 1_510
    assert!(poll_messages(&mut s, "q", 1, 50, 1_400).is_empty());
    let back = poll_messages(&mut s, "q", 1, 50, 1_510);
    assert_eq!(back.len(), 1);
    assert_eq!(back[0].attempts, 1);
}

#[test]
fn remove_bypasses_attempt_machinery() {
    let mut s = Store::new();
    let q = create_queue(&mut s, "q", 5).unwrap();
    let m = enqueue_message(&mut s, "q", "\"j\"", 0, 0).unwrap();
    assert!(remove_message(&mut s, m.id));
    assert!(!remove_message(&mut s, m.id));
    assert_eq!(count_queued_messages_by_queue(&s, q.id), 0);
}

#[test]
fn sequential_enqueue_drain_no_loss() {
    let total: usize = 2_000;
    let batch: i64 = 64;
    let mut s = Store::new();
    let q = create_queue(&mut s, "stress", 5).unwrap();
    for i in 0..total {
        let payload = format!("{{\"seq\":{}}}", i);
        let _ = enqueue_message(&mut s, "stress", &payload, 0, 1_000).unwrap();
    }
    assert_eq!(count_ready_messages(&s, q.id, 1_000), total as u64);
    assert_eq!(count_queued_messages_by_queue(&s, q.id), total as u64);

    let mut seen: Vec<i64> = Vec::new();
    let mut consumed: usize = 0;
    loop {
        let msgs = poll_messages(&mut s, "stress", batch, 60_000, 2_000);
        if msgs.is_empty() {
            break;
        }
        let ids: Vec<i64> = msgs.iter().map(|m| m.id).collect();
        for id in &ids {
            assert!(!seen.contains(id), "duplicate delivery detected");
            seen.push(*id);
        }
        consumed += msgs.len();
        let acked = ack_messages(&mut s, &ids);
        assert_eq!(acked as usize, msgs.len());
    }
    assert_eq!(consumed, total);
    assert_eq!(count_queued_messages_by_queue(&s, q.id), 0);
}
