use sqew::errors::ErrorKind;
use sqew::queue::{
    ack_messages, compact, create_queue, delete_queue, enqueue_message, get_message_by_id,
    get_queue_by_name, list_queues, nack_messages, peek_queue, poll_messages, purge_queue,
    show_queue, stats,
};
use sqew::store::Store;

#[test]
fn queue_create_list_show_delete() {
    let mut s = Store::new();

    // Initially empty
    assert!(list_queues(&s).is_empty());

    // Create
    let q = create_queue(&mut s, "demo", 2).unwrap();
    assert_eq!(q.name, "demo");

    // List & show
    let all = list_queues(&s);
    assert_eq!(all.len(), 1);
    let got = show_queue(&s, "demo").unwrap();
    assert_eq!(got.id, q.id);

    // Delete
    assert!(delete_queue(&mut s, "demo"));
    assert!(list_queues(&s).is_empty());
}

#[test]
fn enqueue_peek_get_and_purge() {
    let mut s = Store::new();
    let _q = create_queue(&mut s, "q1", 5).unwrap();

    // Enqueue two messages
    let m1 = enqueue_message(&mut s, "q1", "{\"n\":1}", 0, 1_000).unwrap();
    let m2 = enqueue_message(&mut s, "q1", "{\"n\":2}", 0, 1_000).unwrap();
    assert!(m1.id > 0 && m2.id > m1.id);

    // Peek should see both, in insertion order (equal availability ties
    // break by ascending id)
    let msgs = peek_queue(&s, "q1", 10);
    assert_eq!(msgs.len(), 2);
    assert_eq!(msgs[0].id, m1.id);
    assert_eq!(msgs[1].id, m2.id);

    // Get by id
    let g = get_message_by_id(&s, m1.id).unwrap();
    assert_eq!(g.id, m1.id);

    // Purge
    let purged = purge_queue(&mut s, "q1");
    assert_eq!(purged, 2);
    assert!(peek_queue(&s, "q1", 10).is_empty());
}

#[test]
fn poll_and_ack() {
    let mut s = Store::new();
    let _q = create_queue(&mut s, "q2", 5).unwrap();

    let m = enqueue_message(&mut s, "q2", "{\"task\":\"t\"}", 0, 1_000).unwrap();

    // Poll with visibility 100 ms
    let msgs = poll_messages(&mut s, "q2", 1, 100, 1_000);
    assert_eq!(msgs.len(), 1);
    let leased = &msgs[0];
    assert_eq!(leased.id, m.id);
    assert!(leased.available_at > leased.created_at);

    // Ack deletes
    let n = ack_messages(&mut s, &vec![leased.id]);
    assert_eq!(n, 1);
    // Ensure not found
    assert!(get_message_by_id(&s, leased.id).is_err());
}

#[test]
fn nack_and_drop_on_max_attempts() {
    let mut s = Store::new();
    let _q = create_queue(&mut s, "q3", 2).unwrap(); // max_attempts = 2

    let m = enqueue_message(&mut s, "q3", "{\"x\":1}", 0, 1_000).unwrap();

    // First nack -> requeue with attempts=1
    let (requeued, dropped) = nack_messages(&mut s, &vec![m.id], 10, 1_000);
    assert_eq!((requeued, dropped), (1, 0));
    let after1 = get_message_by_id(&s, m.id).unwrap();
    assert_eq!(after1.attempts, 1);

    // Second nack -> attempts becomes 2, equals max_attempts => drop
    let (requeued2, dropped2) = nack_messages(&mut s, &vec![m.id], 10, 1_000);
    assert_eq!((requeued2, dropped2), (0, 1));
    assert!(get_message_by_id(&s, m.id).is_err());
}

#[test]
fn stats_and_compact() {
    let mut s = Store::new();
    let _q = create_queue(&mut s, "q4", 5).unwrap();
    let _ = enqueue_message(&mut s, "q4", "{\"n\":1}", 0, 1_000).unwrap();
    let _ = enqueue_message(&mut s, "q4", "{\"n\":2}", 1_000, 1_000).unwrap();

    // Ready should be >= 1 (first message available now)
    let st = stats(&s, "q4", 1_000).unwrap();
    assert!(st.ready >= 1);

    // Compact shouldn't error and changes nothing
    compact(&mut s);
    assert_eq!(stats(&s, "q4", 1_000).unwrap().ready, st.ready);
}

#[test]
fn create_queue_rejects_bad_input() {
    let mut s = Store::new();
    assert_eq!(create_queue(&mut s, "", 5).unwrap_err(), ErrorKind::Invalid);
    assert_eq!(create_queue(&mut s, "q", 0).unwrap_err(), ErrorKind::Invalid);
    assert_eq!(create_queue(&mut s, "q", -3).unwrap_err(), ErrorKind::Invalid);
    let _ = create_queue(&mut s, "q", 1).unwrap();
    assert_eq!(create_queue(&mut s, "q", 1).unwrap_err(), ErrorKind::AlreadyExists);
}

#[test]
fn enqueue_rejects_unknown_queue_and_bad_json() {
    let mut s = Store::new();
    assert_eq!(
        enqueue_message(&mut s, "nope", "{}", 0, 0).unwrap_err(),
        ErrorKind::NotFound
    );
    let _ = create_queue(&mut s, "q", 5).unwrap();
    assert_eq!(
        enqueue_message(&mut s, "q", "{not json", 0, 0).unwrap_err(),
        ErrorKind::Invalid
    );
    assert_eq!(
        enqueue_message(&mut s, "q", "", 0, 0).unwrap_err(),
        ErrorKind::Invalid
    );
}

#[test]
fn lookups_fail_not_found() {
    let s = Store::new();
    assert!(matches!(show_queue(&s, "ghost"), Err(ErrorKind::NotFound)));
    assert!(matches!(stats(&s, "ghost", 0), Err(ErrorKind::NotFound)));
    assert!(matches!(get_message_by_id(&s, 7), Err(ErrorKind::NotFound)));
    assert!(get_queue_by_name(&s, "ghost").is_none());
}

#[test]
fn payload_is_stored_in_compact_form() {
    let mut s = Store::new();
    let _ = create_queue(&mut s, "q", 5).unwrap();
    let m = enqueue_message(&mut s, "q", "{ \"n\" : 1 ,\n \"s\" : \"x\" }", 0, 0).unwrap();
    assert_eq!(m.payload, "{\"n\":1,\"s\":\"x\"}");
    let read_back = get_message_by_id(&s, m.id).unwrap();
    assert_eq!(read_back.payload, "{\"n\":1,\"s\":\"x\"}");
}

#[test]
fn empty_batches_are_no_ops() {
    let mut s = Store::new();
    let _ = create_queue(&mut s, "q", 5).unwrap();
    let _ = enqueue_message(&mut s, "q", "1", 0, 0).unwrap();
    assert_eq!(ack_messages(&mut s, &vec![]), 0);
    assert_eq!(nack_messages(&mut s, &vec![], 10, 0), (0, 0));
    assert_eq!(peek_queue(&s, "q", 0).len(), 0);
    assert_eq!(poll_messages(&mut s, "q", 0, 100, 0).len(), 0);
    assert_eq!(peek_queue(&s, "q", 10).len(), 1);
}

#[test]
fn delete_queue_cascades_to_messages() {
    let mut s = Store::new();
    let _ = create_queue(&mut s, "q", 5).unwrap();
    let m = enqueue_message(&mut s, "q", "1", 0, 0).unwrap();
    assert!(delete_queue(&mut s, "q"));
    assert!(get_message_by_id(&s, m.id).is_err());
    assert!(!delete_queue(&mut s, "q"));
    // a recreated queue gets a fresh id
    let q2 = create_queue(&mut s, "q", 5).unwrap();
    assert!(q2.id > 1);
}

#[test]
fn purge_unknown_queue_removes_nothing() {
    let mut s = Store::new();
    let _ = create_queue(&mut s, "q", 5).unwrap();
    let _ = enqueue_message(&mut s, "q", "1", 0, 0).unwrap();
    assert_eq!(purge_queue(&mut s, "ghost"), 0);
    assert_eq!(peek_queue(&s, "q", 10).len(), 1);
}

#[test]
fn far_future_delay_is_never_ready() {
    let mut s = Store::new();
    let q = create_queue(&mut s, "q", 5).unwrap();
    let m = enqueue_message(&mut s, "q", "1", i64::MAX - 1, 1).unwrap();
    assert_eq!(m.available_at, i64::MAX);
    assert_eq!(stats(&s, "q", 1).unwrap().ready, 0);
    // still stored, just hidden
    assert_eq!(peek_queue(&s, "q", 10).len(), 1);
    assert!(poll_messages(&mut s, "q", 1, 0, 1).is_empty());
    let _ = q;
}

#[test]
fn negative_limits_and_delays_are_clamped() {
    let mut s = Store::new();
    let _ = create_queue(&mut s, "q", 5).unwrap();
    let m1 = enqueue_message(&mut s, "q", "1", -50, 2_000).unwrap();
    // a negative delay counts as zero: available immediately
    assert_eq!(m1.available_at, 2_000);
    let _ = enqueue_message(&mut s, "q", "2", 0, 2_000).unwrap();
    // a negative limit means no limit
    assert_eq!(peek_queue(&s, "q", -1).len(), 2);
    // a negative visibility counts as zero: the lease expires immediately
    let polled = poll_messages(&mut s, "q", 1, -10, 2_000);
    assert_eq!(polled.len(), 1);
    assert_eq!(polled[0].available_at, 2_000);
}
