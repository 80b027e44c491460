//! The queue engine: every operation of the service, stated and proved over
//! the in-memory [`Store`] model. Each operation's behaviour is captured by a
//! `..._post` spec predicate relating the store before and after the call to
//! the returned value; [`crate::laws`] derives the protocol-wide guarantees
//! from these predicates.

use crate::errors::ErrorKind;
use crate::json::{json_canon, json_ok};
use crate::models::{Message, Queue, QueueStats};
use crate::store::{
    has_msg_id, has_queue_id, has_queue_named, ids_ascending, in_scope, keep_not_in,
    keep_other_id, keep_other_names, keep_other_queues, lemma_ascending_no_dup,
    lemma_filter_all, lemma_filter_len_lt, lemma_filter_ordered, lemma_filtered_messages_wf,
    lemma_filtered_queues_wf, lemma_insert_contains, lemma_insert_no_dup, lemma_insert_sorted,
    lemma_msg_ok_stable, lemma_msg_with_id_is, lemma_push_contains, lemma_queue_with_id_is,
    lemma_same_elems_same_len, msg_lt, msg_ok,
    msg_with_id, queue_named, queue_with_id, scope_pred, scoped, sorted_by_key, store_eqv, Store,
};
use vstd::prelude::*;

verus! {

/// `x` clamped to be non-negative, as the SQL `max(0, x)` the engine applies
/// to every caller-supplied delay or visibility window.
pub open spec fn clamp0(x: i64) -> int {
    if x >= 0 {
        x as int
    } else {
        0
    }
}

// ---------------------------------------------------------------------------
// Copies
// ---------------------------------------------------------------------------

/// An exact copy of a queue row, handed to callers by value.
fn copy_queue(q: &Queue) -> (r: Queue)
    ensures
        r == *q,
{
    Queue { id: q.id, name: q.name.clone(), max_attempts: q.max_attempts }
}

/// An exact copy of a message row, handed to callers by value.
fn copy_message(m: &Message) -> (r: Message)
    ensures
        r == *m,
{
    Message {
        id: m.id,
        queue_id: m.queue_id,
        payload: m.payload.clone(),
        attempts: m.attempts,
        available_at: m.available_at,
        created_at: m.created_at,
    }
}

// ---------------------------------------------------------------------------
// Lookups
// ---------------------------------------------------------------------------

/// Find a queue by its unique name.
pub fn get_queue_by_name(s: &Store, name: &str) -> (r: Option<Queue>)
    requires
        s.wf(),
    ensures
        match r {
            Some(q) => has_queue_named(s.queues@, name@) && q == queue_named(s.queues@, name@),
            None => !has_queue_named(s.queues@, name@),
        },
{
    let wanted: String = name.to_owned();
    let mut i: usize = 0;
    while i < s.queues.len()
        invariant
            s.wf(),
            wanted@ == name@,
            0 <= i <= s.queues@.len(),
            forall|k: int| 0 <= k < i ==> (#[trigger] s.queues@[k]).name@ != name@,
        decreases s.queues@.len() - i,
    {
        if s.queues[i].name == wanted {
            let q = copy_queue(&s.queues[i]);
            return Some(q);
        }
        i += 1;
    }
    None
}

/// All queues, ordered by id (their creation order).
pub fn list_queues(s: &Store) -> (r: Vec<Queue>)
    requires
        s.wf(),
    ensures
        r@ == s.queues@,
{
    let mut out: Vec<Queue> = Vec::new();
    let mut i: usize = 0;
    while i < s.queues.len()
        invariant
            0 <= i <= s.queues@.len(),
            out@ == s.queues@.subrange(0, i as int),
        decreases s.queues@.len() - i,
    {
        out.push(copy_queue(&s.queues[i]));
        assert(out@ =~= s.queues@.subrange(0, i + 1 as int));
        i += 1;
    }
    assert(out@ =~= s.queues@);
    out
}

/// Linear membership test over an id list.
fn ids_contain(ids: &Vec<i64>, id: i64) -> (r: bool)
    ensures
        r == ids@.contains(id),
{
    let mut i: usize = 0;
    while i < ids.len()
        invariant
            0 <= i <= ids@.len(),
            forall|k: int| 0 <= k < i ==> ids@[k] != id,
        decreases ids@.len() - i,
    {
        if ids[i] == id {
            return true;
        }
        i += 1;
    }
    false
}

/// Find a queue by name, or fail `NotFound`.
pub fn show_queue(s: &Store, name: &str) -> (r: Result<Queue, ErrorKind>)
    requires
        s.wf(),
    ensures
        match r {
            Ok(q) => has_queue_named(s.queues@, name@) && q == queue_named(s.queues@, name@),
            Err(e) => e == ErrorKind::NotFound && !has_queue_named(s.queues@, name@),
        },
{
    match get_queue_by_name(s, name) {
        Some(q) => Ok(q),
        None => Err(ErrorKind::NotFound),
    }
}

// ---------------------------------------------------------------------------
// Queue creation and deletion
// ---------------------------------------------------------------------------

/// How `create_queue` relates the store before and after the call to its
/// result: invalid input is rejected, a taken name is refused, and otherwise
/// exactly one row is appended and returned.
pub open spec fn create_queue_post(
    pre: Store,
    post: Store,
    name: Seq<char>,
    max_attempts: i32,
    r: Result<Queue, ErrorKind>,
) -> bool {
    if name.len() == 0 || max_attempts < 1 {
        &&& r == Err::<Queue, ErrorKind>(ErrorKind::Invalid)
        &&& store_eqv(post, pre)
    } else if has_queue_named(pre.queues@, name) {
        &&& r == Err::<Queue, ErrorKind>(ErrorKind::AlreadyExists)
        &&& store_eqv(post, pre)
    } else {
        &&& post.messages@ == pre.messages@
        &&& post.next_queue_id == pre.next_queue_id + 1
        &&& post.next_message_id == pre.next_message_id
        &&& (r matches Ok(q) && q.id == pre.next_queue_id && q.name@ == name && q.max_attempts
            == max_attempts && post.queues@ == pre.queues@.push(q))
    }
}

/// Create a queue with the given name and delivery limit.
pub fn create_queue(s: &mut Store, name: &str, max_attempts: i32) -> (r: Result<Queue, ErrorKind>)
    requires
        old(s).wf(),
        old(s).next_queue_id < i64::MAX,
    ensures
        final(s).wf(),
        create_queue_post(*old(s), *final(s), name@, max_attempts, r),
{
    let ghost pre = *s;
    if name.is_empty() || max_attempts < 1 {
        return Err(ErrorKind::Invalid);
    }
    if get_queue_by_name(s, name).is_some() {
        return Err(ErrorKind::AlreadyExists);
    }
    let q = Queue { id: s.next_queue_id, name: name.to_owned(), max_attempts: max_attempts };
    let row = copy_queue(&q);
    s.queues.push(row);
    s.next_queue_id = s.next_queue_id + 1;
    proof {
        let qs = pre.queues@;
        let new_qs = s.queues@;
        assert(new_qs == qs.push(q));
        assert forall|k: int| 0 <= k < s.messages@.len() implies msg_ok(
            new_qs,
            #[trigger] s.messages@[k],
            s.next_message_id,
        ) by {
            let m = s.messages@[k];
            assert(msg_ok(qs, m, pre.next_message_id));
            let owner = queue_with_id(qs, m.queue_id);
            let n = choose|n: int| 0 <= n < qs.len() && qs[n].id == m.queue_id;
            assert(new_qs[n] == owner);
            assert(new_qs.contains(owner));
            lemma_msg_ok_stable(qs, new_qs, m, s.next_message_id);
        }
    }
    Ok(q)
}

/// How `delete_queue` relates the store before and after the call to its
/// result: the named queue's row goes away and its messages cascade with it.
pub open spec fn delete_queue_post(pre: Store, post: Store, name: Seq<char>, r: bool) -> bool {
    if has_queue_named(pre.queues@, name) {
        &&& r == true
        &&& post.queues@ == pre.queues@.filter(keep_other_names(name))
        &&& post.messages@ == pre.messages@.filter(
            keep_other_queues(queue_named(pre.queues@, name).id),
        )
        &&& post.next_queue_id == pre.next_queue_id
        &&& post.next_message_id == pre.next_message_id
    } else {
        &&& r == false
        &&& store_eqv(post, pre)
    }
}

/// Delete a queue by name; its messages are removed with it. Returns whether
/// a queue row was removed.
pub fn delete_queue(s: &mut Store, name: &str) -> (r: bool)
    requires
        old(s).wf(),
    ensures
        final(s).wf(),
        delete_queue_post(*old(s), *final(s), name@, r),
{
    let ghost pre = *s;
    let target = match get_queue_by_name(s, name) {
        Some(q) => q,
        None => {
            return false;
        },
    };
    let qid = target.id;
    proof {
        lemma_queue_with_id_is(pre.queues@, target);
        assert(queue_named(pre.queues@, name@) == target);
    }
    // Cascade: drop the queue's messages.
    let mut keptm: Vec<Message> = Vec::new();
    let mut i: usize = 0;
    while i < s.messages.len()
        invariant
            store_eqv(*s, pre),
            s.wf(),
            0 <= i <= s.messages@.len(),
            keptm@ == s.messages@.subrange(0, i as int).filter(keep_other_queues(qid)),
        decreases s.messages@.len() - i,
    {
        if s.messages[i].queue_id != qid {
            let c = copy_message(&s.messages[i]);
            keptm.push(c);
        }
        proof {
            let ms = s.messages@;
            assert(ms.subrange(0, i + 1 as int) =~= ms.subrange(0, i as int).push(ms[i as int]));
            ms.subrange(0, i as int).lemma_filter_push(ms[i as int], keep_other_queues(qid));
        }
        i += 1;
    }
    // Drop the queue row itself.
    let wanted: String = name.to_owned();
    let mut keptq: Vec<Queue> = Vec::new();
    let mut j: usize = 0;
    while j < s.queues.len()
        invariant
            store_eqv(*s, pre),
            s.wf(),
            wanted@ == name@,
            0 <= j <= s.queues@.len(),
            keptq@ == s.queues@.subrange(0, j as int).filter(keep_other_names(name@)),
        decreases s.queues@.len() - j,
    {
        if !(s.queues[j].name == wanted) {
            let c = copy_queue(&s.queues[j]);
            keptq.push(c);
        }
        proof {
            let qs = s.queues@;
            assert(qs.subrange(0, j + 1 as int) =~= qs.subrange(0, j as int).push(qs[j as int]));
            qs.subrange(0, j as int).lemma_filter_push(qs[j as int], keep_other_names(name@));
        }
        j += 1;
    }
    proof {
        assert(s.messages@.subrange(0, s.messages@.len() as int) =~= s.messages@);
        assert(s.queues@.subrange(0, s.queues@.len() as int) =~= s.queues@);
    }
    s.messages = keptm;
    s.queues = keptq;
    proof {
        let qs = pre.queues@;
        let qf = qs.filter(keep_other_names(name@));
        let mf = pre.messages@.filter(keep_other_queues(qid));
        lemma_filtered_queues_wf(pre, keep_other_names(name@));
        lemma_filtered_messages_wf(pre, keep_other_queues(qid));
        assert forall|k: int| 0 <= k < mf.len() implies msg_ok(
            qf,
            #[trigger] mf[k],
            pre.next_message_id,
        ) by {
            let m = mf[k];
            pre.messages@.lemma_filter_pred(keep_other_queues(qid), k);
            assert(m.queue_id != qid);
            assert(msg_ok(qs, m, pre.next_message_id));
            let owner = queue_with_id(qs, m.queue_id);
            assert(owner.id == m.queue_id);
            let n = choose|n: int| 0 <= n < qs.len() && qs[n].id == m.queue_id;
            assert(qs[n] == owner);
            if owner.name@ == name@ {
                let w = choose|w: int| 0 <= w < qs.len() && qs[w].name@ == name@;
                assert(qs[w] == queue_named(qs, name@));
                assert(w == n);
                assert(owner.id == qid);
            }
            assert(keep_other_names(name@)(owner));
            qs.lemma_filter_contains(keep_other_names(name@), n);
            lemma_msg_ok_stable(qs, qf, m, pre.next_message_id);
        }
    }
    true
}

// ---------------------------------------------------------------------------
// Message deletion: ack, purge, remove
// ---------------------------------------------------------------------------

/// How `ack_messages` relates the store before and after the call to its
/// result: exactly the rows whose id is listed disappear, everything else is
/// untouched, and the count of removed rows is returned.
pub open spec fn ack_post(pre: Store, post: Store, ids: Seq<i64>, r: u64) -> bool {
    &&& post.queues@ == pre.queues@
    &&& post.next_queue_id == pre.next_queue_id
    &&& post.next_message_id == pre.next_message_id
    &&& post.messages@ == pre.messages@.filter(keep_not_in(ids))
    &&& r + post.messages@.len() == pre.messages@.len()
}

/// Acknowledge (delete) messages by id. Ids already gone are ignored; the
/// count of rows actually removed is returned. An empty list is a no-op.
pub fn ack_messages(s: &mut Store, ids: &Vec<i64>) -> (r: u64)
    requires
        old(s).wf(),
    ensures
        final(s).wf(),
        ack_post(*old(s), *final(s), ids@, r),
{
    let ghost pre = *s;
    let mut kept: Vec<Message> = Vec::new();
    let mut i: usize = 0;
    while i < s.messages.len()
        invariant
            store_eqv(*s, pre),
            s.wf(),
            0 <= i <= s.messages@.len(),
            kept@ == s.messages@.subrange(0, i as int).filter(keep_not_in(ids@)),
        decreases s.messages@.len() - i,
    {
        if !ids_contain(ids, s.messages[i].id) {
            let c = copy_message(&s.messages[i]);
            kept.push(c);
        }
        proof {
            let ms = s.messages@;
            assert(ms.subrange(0, i + 1 as int) =~= ms.subrange(0, i as int).push(ms[i as int]));
            ms.subrange(0, i as int).lemma_filter_push(ms[i as int], keep_not_in(ids@));
        }
        i += 1;
    }
    proof {
        assert(s.messages@.subrange(0, s.messages@.len() as int) =~= s.messages@);
        s.messages@.lemma_filter_len(keep_not_in(ids@));
        lemma_filtered_messages_wf(*s, keep_not_in(ids@));
    }
    let removed: usize = s.messages.len() - kept.len();
    s.messages = kept;
    removed as u64
}

/// How `purge_queue` relates the store before and after the call to its
/// result: every message of the named queue disappears and is counted; an
/// unknown name removes nothing.
pub open spec fn purge_post(pre: Store, post: Store, name: Seq<char>, r: u64) -> bool {
    if has_queue_named(pre.queues@, name) {
        &&& post.queues@ == pre.queues@
        &&& post.next_queue_id == pre.next_queue_id
        &&& post.next_message_id == pre.next_message_id
        &&& post.messages@ == pre.messages@.filter(
            keep_other_queues(queue_named(pre.queues@, name).id),
        )
        &&& r + post.messages@.len() == pre.messages@.len()
    } else {
        &&& r == 0
        &&& store_eqv(post, pre)
    }
}

/// Delete all messages of the named queue, returning how many there were.
pub fn purge_queue(s: &mut Store, name: &str) -> (r: u64)
    requires
        old(s).wf(),
    ensures
        final(s).wf(),
        purge_post(*old(s), *final(s), name@, r),
{
    let ghost pre = *s;
    let target = match get_queue_by_name(s, name) {
        Some(q) => q,
        None => {
            return 0;
        },
    };
    let qid = target.id;
    proof {
        lemma_queue_with_id_is(pre.queues@, target);
        assert(queue_named(pre.queues@, name@) == target);
    }
    let mut kept: Vec<Message> = Vec::new();
    let mut i: usize = 0;
    while i < s.messages.len()
        invariant
            store_eqv(*s, pre),
            s.wf(),
            0 <= i <= s.messages@.len(),
            kept@ == s.messages@.subrange(0, i as int).filter(keep_other_queues(qid)),
        decreases s.messages@.len() - i,
    {
        if s.messages[i].queue_id != qid {
            let c = copy_message(&s.messages[i]);
            kept.push(c);
        }
        proof {
            let ms = s.messages@;
            assert(ms.subrange(0, i + 1 as int) =~= ms.subrange(0, i as int).push(ms[i as int]));
            ms.subrange(0, i as int).lemma_filter_push(ms[i as int], keep_other_queues(qid));
        }
        i += 1;
    }
    proof {
        assert(s.messages@.subrange(0, s.messages@.len() as int) =~= s.messages@);
        s.messages@.lemma_filter_len(keep_other_queues(qid));
        lemma_filtered_messages_wf(*s, keep_other_queues(qid));
    }
    let removed: usize = s.messages.len() - kept.len();
    s.messages = kept;
    removed as u64
}

/// How `remove_message` relates the store before and after the call to its
/// result: the one row with that id (if any) disappears.
pub open spec fn remove_message_post(pre: Store, post: Store, id: i64, r: bool) -> bool {
    &&& post.queues@ == pre.queues@
    &&& post.next_queue_id == pre.next_queue_id
    &&& post.next_message_id == pre.next_message_id
    &&& post.messages@ == pre.messages@.filter(keep_other_id(id))
    &&& r == has_msg_id(pre.messages@, id)
}

/// Hard-delete one message by id, bypassing the attempt machinery. Returns
/// whether a row was removed.
pub fn remove_message(s: &mut Store, id: i64) -> (r: bool)
    requires
        old(s).wf(),
    ensures
        final(s).wf(),
        remove_message_post(*old(s), *final(s), id, r),
{
    let ghost pre = *s;
    let mut kept: Vec<Message> = Vec::new();
    let mut i: usize = 0;
    while i < s.messages.len()
        invariant
            store_eqv(*s, pre),
            s.wf(),
            0 <= i <= s.messages@.len(),
            kept@ == s.messages@.subrange(0, i as int).filter(keep_other_id(id)),
        decreases s.messages@.len() - i,
    {
        if s.messages[i].id != id {
            let c = copy_message(&s.messages[i]);
            kept.push(c);
        }
        proof {
            let ms = s.messages@;
            assert(ms.subrange(0, i + 1 as int) =~= ms.subrange(0, i as int).push(ms[i as int]));
            ms.subrange(0, i as int).lemma_filter_push(ms[i as int], keep_other_id(id));
        }
        i += 1;
    }
    proof {
        let ms = s.messages@;
        assert(ms.subrange(0, ms.len() as int) =~= ms);
        ms.lemma_filter_len(keep_other_id(id));
        lemma_filtered_messages_wf(*s, keep_other_id(id));
        if has_msg_id(ms, id) {
            let w = choose|w: int| 0 <= w < ms.len() && ms[w].id == id;
            lemma_filter_len_lt(ms, keep_other_id(id), w);
        } else {
            assert forall|k: int| 0 <= k < ms.len() implies keep_other_id(id)(#[trigger] ms[k]) by {
                assert(ms[k].id != id);
            }
            lemma_filter_all(ms, keep_other_id(id));
        }
    }
    let r = kept.len() < s.messages.len();
    s.messages = kept;
    r
}

// ---------------------------------------------------------------------------
// Point lookups and counts
// ---------------------------------------------------------------------------

/// Fetch one message by id, or fail `NotFound`.
pub fn get_message_by_id(s: &Store, id: i64) -> (r: Result<Message, ErrorKind>)
    requires
        s.wf(),
    ensures
        match r {
            Ok(m) => has_msg_id(s.messages@, id) && m == msg_with_id(s.messages@, id),
            Err(e) => e == ErrorKind::NotFound && !has_msg_id(s.messages@, id),
        },
{
    let mut i: usize = 0;
    while i < s.messages.len()
        invariant
            s.wf(),
            0 <= i <= s.messages@.len(),
            forall|k: int| 0 <= k < i ==> (#[trigger] s.messages@[k]).id != id,
        decreases s.messages@.len() - i,
    {
        if s.messages[i].id == id {
            let m = copy_message(&s.messages[i]);
            proof {
                assert(s.messages@.contains(s.messages@[i as int]));
                lemma_msg_with_id_is(s.messages@, s.messages@[i as int]);
            }
            return Ok(m);
        }
        i += 1;
    }
    Err(ErrorKind::NotFound)
}

/// Count the messages of queue `queue_id` available by `now`.
pub fn count_ready_messages(s: &Store, queue_id: i64, now: i64) -> (r: u64)
    ensures
        r == scoped(s.messages@, queue_id, now).len(),
{
    let mut cnt: u64 = 0;
    let mut i: usize = 0;
    while i < s.messages.len()
        invariant
            0 <= i <= s.messages@.len(),
            cnt <= i,
            cnt == scoped(s.messages@.subrange(0, i as int), queue_id, now).len(),
        decreases s.messages@.len() - i,
    {
        proof {
            let ms = s.messages@;
            assert(ms.subrange(0, i + 1 as int) =~= ms.subrange(0, i as int).push(ms[i as int]));
            ms.subrange(0, i as int).lemma_filter_push(ms[i as int], scope_pred(queue_id, now));
        }
        if s.messages[i].queue_id == queue_id && s.messages[i].available_at <= now {
            cnt = cnt + 1;
        }
        i += 1;
    }
    proof {
        assert(s.messages@.subrange(0, s.messages@.len() as int) =~= s.messages@);
    }
    cnt
}

/// Count all messages of queue `queue_id`, whether available or leased.
pub fn count_queued_messages_by_queue(s: &Store, queue_id: i64) -> (r: u64)
    ensures
        r == scoped(s.messages@, queue_id, i64::MAX).len(),
{
    count_ready_messages(s, queue_id, i64::MAX)
}

/// Per-queue statistics at time `now`: how many messages are ready.
pub fn stats(s: &Store, name: &str, now: i64) -> (r: Result<QueueStats, ErrorKind>)
    requires
        s.wf(),
    ensures
        match r {
            Ok(st) => has_queue_named(s.queues@, name@) && st.ready == scoped(
                s.messages@,
                queue_named(s.queues@, name@).id,
                now,
            ).len(),
            Err(e) => e == ErrorKind::NotFound && !has_queue_named(s.queues@, name@),
        },
{
    let q = match get_queue_by_name(s, name) {
        Some(q) => q,
        None => {
            return Err(ErrorKind::NotFound);
        },
    };
    let ready = count_ready_messages(s, q.id, now);
    Ok(QueueStats { ready: ready })
}

/// Storage compaction is purely advisory: it never changes the stored state.
pub fn compact(s: &mut Store)
    ensures
        store_eqv(*final(s), *old(s)),
{
}

// ---------------------------------------------------------------------------
// Enqueue
// ---------------------------------------------------------------------------

/// How `enqueue_message` relates the store before and after the call to its
/// result: an unknown queue or an unparsable payload is rejected, otherwise
/// exactly one fresh row is appended holding the payload's compact rendering,
/// available `max(0, delay_ms)` after `now`.
pub open spec fn enqueue_post(
    pre: Store,
    post: Store,
    queue_name: Seq<char>,
    payload: Seq<char>,
    delay_ms: i64,
    now: i64,
    r: Result<Message, ErrorKind>,
) -> bool {
    if !has_queue_named(pre.queues@, queue_name) {
        &&& r == Err::<Message, ErrorKind>(ErrorKind::NotFound)
        &&& store_eqv(post, pre)
    } else if !json_ok(payload) {
        &&& r == Err::<Message, ErrorKind>(ErrorKind::Invalid)
        &&& store_eqv(post, pre)
    } else {
        &&& post.queues@ == pre.queues@
        &&& post.next_queue_id == pre.next_queue_id
        &&& post.next_message_id == pre.next_message_id + 1
        &&& (r matches Ok(m) && m.id == pre.next_message_id && m.queue_id == queue_named(
            pre.queues@,
            queue_name,
        ).id && m.payload@ == json_canon(payload) && m.attempts == 0 && m.available_at == now
            + clamp0(delay_ms) && m.created_at == now && post.messages@ == pre.messages@.push(m))
    }
}

/// Enqueue one JSON payload into the named queue, visible `max(0, delay_ms)`
/// milliseconds after `now`.
pub fn enqueue_message(
    s: &mut Store,
    queue_name: &str,
    payload: &str,
    delay_ms: i64,
    now: i64,
) -> (r: Result<Message, ErrorKind>)
    requires
        old(s).wf(),
        old(s).next_message_id < i64::MAX,
        now >= 0,
        now + clamp0(delay_ms) <= i64::MAX,
    ensures
        final(s).wf(),
        enqueue_post(*old(s), *final(s), queue_name@, payload@, delay_ms, now, r),
{
    let ghost pre = *s;
    let q = match get_queue_by_name(s, queue_name) {
        Some(q) => q,
        None => {
            return Err(ErrorKind::NotFound);
        },
    };
    let canon = match crate::json::canonical_json(payload) {
        Some(t) => t,
        None => {
            return Err(ErrorKind::Invalid);
        },
    };
    let eff_delay: i64 = if delay_ms > 0 {
        delay_ms
    } else {
        0
    };
    let m = Message {
        id: s.next_message_id,
        queue_id: q.id,
        payload: canon,
        attempts: 0,
        available_at: now + eff_delay,
        created_at: now,
    };
    let row = copy_message(&m);
    s.messages.push(row);
    s.next_message_id = s.next_message_id + 1;
    proof {
        let qs = s.queues@;
        let ms = s.messages@;
        lemma_queue_with_id_is(qs, q);
        assert(queue_named(qs, queue_name@) == q);
        assert(ms == pre.messages@.push(m));
        assert forall|k: int| 0 <= k < ms.len() implies msg_ok(
            qs,
            #[trigger] ms[k],
            s.next_message_id,
        ) by {
            if k < ms.len() - 1 {
                assert(msg_ok(qs, pre.messages@[k], pre.next_message_id));
            } else {
                assert(ms[k] == m);
                assert(queue_with_id(qs, m.queue_id) == q);
            }
        }
    }
    Ok(m)
}

// ---------------------------------------------------------------------------
// FIFO selection: the shared core of peek and poll
// ---------------------------------------------------------------------------

/// How a `limit` taken from the wire becomes a row cap over `n` stored rows:
/// a negative limit means no limit at all.
pub open spec fn eff_cap(limit: i64, n: nat) -> nat {
    if limit < 0 {
        n
    } else if limit as nat >= n {
        n
    } else {
        limit as nat
    }
}

/// `r` holds the first `cap` messages of queue `qid` available by `bound`,
/// in delivery order: it is sorted by `(available_at, id)`, drawn from `ms`,
/// of the right length, and every candidate left behind orders strictly
/// after everything taken. These clauses pin `r` down uniquely.
pub open spec fn fifo_selection(
    r: Seq<Message>,
    ms: Seq<Message>,
    qid: i64,
    bound: i64,
    cap: nat,
) -> bool {
    &&& r.len() == (if cap < scoped(ms, qid, bound).len() {
        cap as int
    } else {
        scoped(ms, qid, bound).len() as int
    })
    &&& sorted_by_key(r)
    &&& forall|k: int|
        0 <= k < r.len() ==> ms.contains(#[trigger] r[k]) && in_scope(r[k], qid, bound)
    &&& forall|n: int, k: int|
        #![trigger ms[n], r[k]]
        0 <= n < ms.len() && in_scope(ms[n], qid, bound) && !r.contains(ms[n]) && 0 <= k < r.len()
            ==> msg_lt(r[k], ms[n])
}

/// Collect, in delivery order, up to `cap` messages of queue `qid` available
/// by `bound`.
fn select_fifo(msgs: &Vec<Message>, qid: i64, bound: i64, cap: usize) -> (r: Vec<Message>)
    requires
        ids_ascending(msgs@),
    ensures
        fifo_selection(r@, msgs@, qid, bound, cap as nat),
{
    let mut sorted_rows: Vec<Message> = Vec::new();
    let mut i: usize = 0;
    while i < msgs.len()
        invariant
            ids_ascending(msgs@),
            0 <= i <= msgs@.len(),
            sorted_by_key(sorted_rows@),
            sorted_rows@.no_duplicates(),
            forall|x: Message|
                sorted_rows@.contains(x) <==> scoped(
                    msgs@.subrange(0, i as int),
                    qid,
                    bound,
                ).contains(x),
            forall|k: int|
                0 <= k < sorted_rows@.len() ==> exists|n: int|
                    0 <= n < i && msgs@[n] == #[trigger] sorted_rows@[k],
        decreases msgs@.len() - i,
    {
        let ghost prefix = msgs@.subrange(0, i as int);
        let ghost cur = msgs@[i as int];
        proof {
            assert(msgs@.subrange(0, i + 1 as int) =~= prefix.push(cur));
            prefix.lemma_filter_push(cur, scope_pred(qid, bound));
        }
        if msgs[i].queue_id == qid && msgs[i].available_at <= bound {
            let m = copy_message(&msgs[i]);
            proof {
                assert forall|k: int| 0 <= k < sorted_rows@.len() implies (
                #[trigger] sorted_rows@[k]).id < m.id by {
                    let n = choose|n: int| 0 <= n < i && msgs@[n] == sorted_rows@[k];
                    assert(msgs@[n].id < msgs@[i as int].id);
                }
                assert(!sorted_rows@.contains(m)) by {
                    if sorted_rows@.contains(m) {
                        let k = choose|k: int|
                            0 <= k < sorted_rows@.len() && sorted_rows@[k] == m;
                        assert(sorted_rows@[k].id < m.id);
                    }
                }
            }
            let mut p: usize = sorted_rows.len();
            while p > 0 && (sorted_rows[p - 1].available_at > m.available_at || (sorted_rows[p
                - 1].available_at == m.available_at && sorted_rows[p - 1].id > m.id))
                invariant
                    0 <= p <= sorted_rows@.len(),
                    sorted_by_key(sorted_rows@),
                    forall|k: int|
                        p <= k < sorted_rows@.len() ==> msg_lt(m, #[trigger] sorted_rows@[k]),
                decreases p,
            {
                p -= 1;
            }
            proof {
                assert forall|k: int| 0 <= k < p implies msg_lt(
                    #[trigger] sorted_rows@[k],
                    m,
                ) by {
                    assert(sorted_rows@[p - 1].id != m.id);
                    assert(msg_lt(sorted_rows@[p - 1], m));
                    if k < p - 1 {
                        assert(msg_lt(sorted_rows@[k], sorted_rows@[p - 1]));
                    }
                }
                lemma_insert_sorted(sorted_rows@, p as int, m);
                lemma_insert_no_dup(sorted_rows@, p as int, m);
                lemma_insert_contains(sorted_rows@, p as int, m);
                lemma_push_contains(scoped(prefix, qid, bound), m);
            }
            let ghost before = sorted_rows@;
            sorted_rows.insert(p, m);
            proof {
                assert(m == cur);
                assert(in_scope(cur, qid, bound));
                assert(scope_pred(qid, bound)(cur));
                assert(scoped(msgs@.subrange(0, i + 1 as int), qid, bound) == scoped(
                    prefix,
                    qid,
                    bound,
                ).push(m));
                assert(sorted_rows@ == before.insert(p as int, m));
                assert forall|x: Message|
                    sorted_rows@.contains(x) <==> scoped(
                        msgs@.subrange(0, i + 1 as int),
                        qid,
                        bound,
                    ).contains(x) by {
                    assert(sorted_rows@.contains(x) <==> (before.contains(x) || x == m));
                    assert(scoped(prefix, qid, bound).push(m).contains(x) <==> (scoped(
                        prefix,
                        qid,
                        bound,
                    ).contains(x) || x == m));
                }
                assert forall|k: int| 0 <= k < sorted_rows@.len() implies exists|n: int|
                    0 <= n < i + 1 && msgs@[n] == #[trigger] sorted_rows@[k] by {
                    assert(sorted_rows@.contains(sorted_rows@[k]));
                    if sorted_rows@[k] == m {
                        assert(msgs@[i as int] == sorted_rows@[k]);
                    } else {
                        assert(before.contains(sorted_rows@[k]));
                        let n = choose|n: int| 0 <= n < before.len() && before[n]
                            == sorted_rows@[k];
                        let w = choose|w: int| 0 <= w < i && msgs@[w] == before[n];
                        assert(msgs@[w] == sorted_rows@[k]);
                    }
                }
            }
        }
        i += 1;
    }
    proof {
        assert(msgs@.subrange(0, msgs@.len() as int) =~= msgs@);
        lemma_filter_ordered(msgs@, scope_pred(qid, bound), |mm: Message| mm.id);
        assert(ids_ascending(scoped(msgs@, qid, bound)));
        lemma_ascending_no_dup(scoped(msgs@, qid, bound));
        lemma_same_elems_same_len(sorted_rows@, scoped(msgs@, qid, bound));
    }
    let mut out: Vec<Message> = Vec::new();
    let mut t: usize = 0;
    while t < cap && t < sorted_rows.len()
        invariant
            0 <= t <= sorted_rows@.len(),
            t <= cap,
            out@ == sorted_rows@.subrange(0, t as int),
        decreases sorted_rows@.len() - t,
    {
        let c = copy_message(&sorted_rows[t]);
        out.push(c);
        proof {
            assert(out@ =~= sorted_rows@.subrange(0, t + 1 as int));
        }
        t += 1;
    }
    proof {
        let sc = scoped(msgs@, qid, bound);
        assert(out@.len() == (if (cap as nat) < sc.len() {
            cap as int
        } else {
            sc.len() as int
        }));
        assert forall|k: int| 0 <= k < out@.len() implies msgs@.contains(#[trigger] out@[k])
            && in_scope(out@[k], qid, bound) by {
            assert(out@[k] == sorted_rows@[k]);
            assert(sorted_rows@.contains(sorted_rows@[k]));
            assert(sc.contains(sorted_rows@[k]));
            let idx = choose|idx: int| 0 <= idx < sc.len() && sc[idx] == sorted_rows@[k];
            msgs@.lemma_filter_pred(scope_pred(qid, bound), idx);
            lemma_filter_subset_msgs(msgs@, qid, bound, idx);
        }
        assert forall|n: int, k: int|
            #![trigger msgs@[n], out@[k]]
            0 <= n < msgs@.len() && in_scope(msgs@[n], qid, bound) && !out@.contains(msgs@[n])
                && 0 <= k < out@.len() implies msg_lt(out@[k], msgs@[n]) by {
            msgs@.lemma_filter_contains(scope_pred(qid, bound), n);
            assert(sc.contains(msgs@[n]));
            assert(sorted_rows@.contains(msgs@[n]));
            let idx = choose|idx: int|
                0 <= idx < sorted_rows@.len() && sorted_rows@[idx] == msgs@[n];
            if idx < out@.len() {
                assert(out@[idx] == sorted_rows@[idx]);
                assert(out@.contains(msgs@[n]));
            }
            assert(out@[k] == sorted_rows@[k]);
            assert(msg_lt(sorted_rows@[k], sorted_rows@[idx]));
        }
    }
    out
}

/// A filtered message is always drawn from the original relation.
proof fn lemma_filter_subset_msgs(ms: Seq<Message>, qid: i64, bound: i64, idx: int)
    requires
        0 <= idx < scoped(ms, qid, bound).len(),
    ensures
        ms.contains(scoped(ms, qid, bound)[idx]),
{
    crate::store::lemma_filter_subset(ms, scope_pred(qid, bound));
}

// ---------------------------------------------------------------------------
// Peek
// ---------------------------------------------------------------------------

/// How `peek_queue` relates the (unchanged) store to its result: the first
/// `limit` messages of the queue in delivery order, leased or not; an
/// unknown queue yields nothing.
pub open spec fn peek_post(pre: Store, name: Seq<char>, limit: i64, r: Seq<Message>) -> bool {
    if has_queue_named(pre.queues@, name) {
        fifo_selection(
            r,
            pre.messages@,
            queue_named(pre.queues@, name).id,
            i64::MAX,
            eff_cap(limit, pre.messages@.len()),
        )
    } else {
        r.len() == 0
    }
}

/// List up to `limit` messages of the named queue in delivery order, without
/// mutating anything. A negative limit lists them all.
pub fn peek_queue(s: &Store, name: &str, limit: i64) -> (r: Vec<Message>)
    requires
        s.wf(),
    ensures
        peek_post(*s, name@, limit, r@),
{
    let q = match get_queue_by_name(s, name) {
        Some(q) => q,
        None => {
            return Vec::new();
        },
    };
    let n = s.messages.len();
    let cap: usize = if limit < 0 {
        n
    } else if (limit as u64) >= (n as u64) {
        n
    } else {
        limit as usize
    };
    assert(cap as nat == eff_cap(limit, s.messages@.len()));
    select_fifo(&s.messages, q.id, i64::MAX, cap)
}

// ---------------------------------------------------------------------------
// Poll (lease)
// ---------------------------------------------------------------------------

/// `m` with its availability advanced to the lease deadline `navail`; nothing
/// else changes, so the id keeps ordering the row and the payload rides along.
pub open spec fn lease_bump(m: Message, navail: i64) -> Message {
    Message {
        id: m.id,
        queue_id: m.queue_id,
        payload: m.payload,
        attempts: m.attempts,
        available_at: navail,
        created_at: m.created_at,
    }
}

/// How `poll_messages` relates the store before and after the call to its
/// result: up to `limit` ready messages of the queue are chosen earliest
/// first, each chosen row's `available_at` is advanced to `now + max(0,
/// visibility_ms)`, and the advanced rows come back in the order they were
/// chosen — ascending pre-call `(available_at, id)`. Nothing else moves. An
/// unknown queue yields nothing and changes nothing.
///
/// The batch order is deliberate: FIFO by availability is stated over the
/// availabilities as they were when the poll began. A final re-read of the
/// leased rows sorted by their stored key would order them by id instead
/// (the lease makes their deadlines equal), which inverts the delivery
/// order whenever an earlier-available message carries a larger id.
pub open spec fn poll_post(
    pre: Store,
    post: Store,
    name: Seq<char>,
    limit: i64,
    visibility_ms: i64,
    now: i64,
    r: Seq<Message>,
) -> bool {
    if !has_queue_named(pre.queues@, name) {
        &&& store_eqv(post, pre)
        &&& r.len() == 0
    } else {
        let qid = queue_named(pre.queues@, name).id;
        let navail = (now + clamp0(visibility_ms)) as i64;
        let ready = scoped(pre.messages@, qid, now);
        &&& post.queues@ == pre.queues@
        &&& post.next_queue_id == pre.next_queue_id
        &&& post.next_message_id == pre.next_message_id
        &&& post.messages@.len() == pre.messages@.len()
        &&& forall|n: int|
            0 <= n < pre.messages@.len() ==> post.messages@[n] == (if has_msg_id(
                r,
                (#[trigger] pre.messages@[n]).id,
            ) {
                lease_bump(pre.messages@[n], navail)
            } else {
                pre.messages@[n]
            })
        &&& forall|k1: int, k2: int|
            #![trigger r[k1], r[k2]]
            0 <= k1 < k2 < r.len() ==> msg_lt(
                msg_with_id(pre.messages@, r[k1].id),
                msg_with_id(pre.messages@, r[k2].id),
            )
        &&& r.len() == (if eff_cap(limit, pre.messages@.len()) < ready.len() {
            eff_cap(limit, pre.messages@.len()) as int
        } else {
            ready.len() as int
        })
        &&& forall|k: int|
            0 <= k < r.len() ==> has_msg_id(pre.messages@, (#[trigger] r[k]).id) && in_scope(
                msg_with_id(pre.messages@, r[k].id),
                qid,
                now,
            ) && r[k] == lease_bump(msg_with_id(pre.messages@, r[k].id), navail)
        &&& forall|n: int, k: int|
            #![trigger pre.messages@[n], r[k]]
            0 <= n < pre.messages@.len() && in_scope(pre.messages@[n], qid, now) && !has_msg_id(
                r,
                pre.messages@[n].id,
            ) && 0 <= k < r.len() ==> msg_lt(
                msg_with_id(pre.messages@, r[k].id),
                pre.messages@[n],
            )
    }
}

/// Linear membership test by message id.
fn msg_ids_contain(v: &Vec<Message>, id: i64) -> (r: bool)
    ensures
        r == has_msg_id(v@, id),
{
    let mut i: usize = 0;
    while i < v.len()
        invariant
            0 <= i <= v@.len(),
            forall|k: int| 0 <= k < i ==> (#[trigger] v@[k]).id != id,
        decreases v@.len() - i,
    {
        if v[i].id == id {
            return true;
        }
        i += 1;
    }
    false
}

/// Lease up to `limit` ready messages from the named queue: the earliest
/// available (ties by id) are chosen inside one atomic step, their
/// `available_at` advances to `now + max(0, visibility_ms)` so no other
/// poller sees them before that deadline, and the advanced rows are returned
/// in the order they were chosen — FIFO by pre-call availability.
pub fn poll_messages(
    s: &mut Store,
    queue_name: &str,
    limit: i64,
    visibility_ms: i64,
    now: i64,
) -> (r: Vec<Message>)
    requires
        old(s).wf(),
        now >= 0,
        now + clamp0(visibility_ms) <= i64::MAX,
    ensures
        final(s).wf(),
        poll_post(*old(s), *final(s), queue_name@, limit, visibility_ms, now, r@),
{
    let ghost pre = *s;
    let q = match get_queue_by_name(s, queue_name) {
        Some(q) => q,
        None => {
            return Vec::new();
        },
    };
    let qid = q.id;
    let n = s.messages.len();
    let cap: usize = if limit < 0 {
        n
    } else if (limit as u64) >= (n as u64) {
        n
    } else {
        limit as usize
    };
    assert(cap as nat == eff_cap(limit, s.messages@.len()));
    let sel = select_fifo(&s.messages, qid, now, cap);
    let eff_vis: i64 = if visibility_ms > 0 {
        visibility_ms
    } else {
        0
    };
    let navail: i64 = now + eff_vis;
    // Advance the lease deadline of every selected row, in place.
    let mut newm: Vec<Message> = Vec::new();
    let mut i: usize = 0;
    while i < s.messages.len()
        invariant
            store_eqv(*s, pre),
            s.wf(),
            0 <= i <= s.messages@.len(),
            newm@.len() == i,
            forall|k: int|
                0 <= k < i ==> newm@[k] == (if has_msg_id(
                    sel@,
                    (#[trigger] s.messages@[k]).id,
                ) {
                    lease_bump(s.messages@[k], navail)
                } else {
                    s.messages@[k]
                }),
        decreases s.messages@.len() - i,
    {
        if msg_ids_contain(&sel, s.messages[i].id) {
            let b = Message {
                id: s.messages[i].id,
                queue_id: s.messages[i].queue_id,
                payload: s.messages[i].payload.clone(),
                attempts: s.messages[i].attempts,
                available_at: navail,
                created_at: s.messages[i].created_at,
            };
            proof {
                assert(b == lease_bump(s.messages@[i as int], navail));
            }
            newm.push(b);
        } else {
            let c = copy_message(&s.messages[i]);
            newm.push(c);
        }
        i += 1;
    }
    s.messages = newm;
    // Hand the leased rows back in selection order: ascending pre-call
    // (available_at, id).
    let mut out: Vec<Message> = Vec::new();
    let mut t: usize = 0;
    while t < sel.len()
        invariant
            0 <= t <= sel@.len(),
            out@.len() == t,
            forall|k: int| 0 <= k < t ==> out@[k] == lease_bump(#[trigger] sel@[k], navail),
        decreases sel@.len() - t,
    {
        let b = Message {
            id: sel[t].id,
            queue_id: sel[t].queue_id,
            payload: sel[t].payload.clone(),
            attempts: sel[t].attempts,
            available_at: navail,
            created_at: sel[t].created_at,
        };
        proof {
            assert(b == lease_bump(sel@[t as int], navail));
        }
        out.push(b);
        t += 1;
    }
    proof {
        // The result carries exactly the selected ids.
        assert forall|id: i64| has_msg_id(out@, id) <==> has_msg_id(sel@, id) by {
            if has_msg_id(out@, id) {
                let k = choose|k: int| 0 <= k < out@.len() && out@[k].id == id;
                assert(sel@[k].id == id);
            }
            if has_msg_id(sel@, id) {
                let k = choose|k: int| 0 <= k < sel@.len() && sel@[k].id == id;
                assert(out@[k].id == id);
            }
        }
        // Each returned row is the bump of the unique stored row with its
        // id, and the batch keeps the selection's delivery order.
        assert forall|k: int| 0 <= k < out@.len() implies has_msg_id(
            pre.messages@,
            (#[trigger] out@[k]).id,
        ) && in_scope(msg_with_id(pre.messages@, out@[k].id), qid, now) && out@[k] == lease_bump(
            msg_with_id(pre.messages@, out@[k].id),
            navail,
        ) && msg_with_id(pre.messages@, out@[k].id) == sel@[k] by {
            assert(out@[k] == lease_bump(sel@[k], navail));
            assert(pre.messages@.contains(sel@[k]));
            assert(in_scope(sel@[k], qid, now));
            lemma_msg_with_id_is(pre.messages@, sel@[k]);
        }
        // FIFO dominance carries over from the selection.
        assert forall|n: int, k: int|
            #![trigger pre.messages@[n], out@[k]]
            0 <= n < pre.messages@.len() && in_scope(pre.messages@[n], qid, now) && !has_msg_id(
                out@,
                pre.messages@[n].id,
            ) && 0 <= k < out@.len() implies msg_lt(
            msg_with_id(pre.messages@, out@[k].id),
            pre.messages@[n],
        ) by {
            assert(!has_msg_id(sel@, pre.messages@[n].id));
            assert(!sel@.contains(pre.messages@[n])) by {
                if sel@.contains(pre.messages@[n]) {
                    let w = choose|w: int|
                        0 <= w < sel@.len() && sel@[w] == pre.messages@[n];
                    assert(sel@[w].id == pre.messages@[n].id);
                }
            }
            assert(msg_lt(sel@[k], pre.messages@[n]));
            assert(out@[k] == lease_bump(sel@[k], navail));
            assert(pre.messages@.contains(sel@[k]));
            lemma_msg_with_id_is(pre.messages@, sel@[k]);
        }
    }
    proof {
        // Well-formedness: ids are untouched, attempts are untouched, the
        // advanced availability is non-negative.
        assert forall|a: int, b: int| 0 <= a < b < s.messages@.len() implies s.messages@[a].id
            < s.messages@[b].id by {
            assert(s.messages@[a].id == pre.messages@[a].id);
            assert(s.messages@[b].id == pre.messages@[b].id);
        }
        assert forall|k: int| 0 <= k < s.messages@.len() implies msg_ok(
            s.queues@,
            #[trigger] s.messages@[k],
            s.next_message_id,
        ) by {
            assert(msg_ok(pre.queues@, pre.messages@[k], pre.next_message_id));
        }
    }
    out
}

// ---------------------------------------------------------------------------
// Nack (requeue with attempt counting, drop on limit)
// ---------------------------------------------------------------------------

/// One failed delivery recorded on `m`: attempts up one, availability pushed
/// out to `navail`.
pub open spec fn nack_bump(m: Message, navail: i64) -> Message {
    Message {
        id: m.id,
        queue_id: m.queue_id,
        payload: m.payload,
        attempts: (m.attempts + 1) as i32,
        available_at: navail,
        created_at: m.created_at,
    }
}

/// The messages that survive a nack of `ids`: either not listed, or still
/// below the owner queue's limit after one more attempt.
pub open spec fn nack_keep(qs: Seq<Queue>, ids: Seq<i64>) -> spec_fn(Message) -> bool {
    |m: Message| !(ids.contains(m.id) && m.attempts + 1 >= queue_with_id(
        qs,
        m.queue_id,
    ).max_attempts)
}

/// The messages a nack of `ids` touches at all.
pub open spec fn hit_by(ids: Seq<i64>) -> spec_fn(Message) -> bool {
    |m: Message| ids.contains(m.id)
}

/// What a nack of `ids` does to a surviving row.
pub open spec fn nack_map(ids: Seq<i64>, navail: i64) -> spec_fn(Message) -> Message {
    |m: Message|
        if ids.contains(m.id) {
            nack_bump(m, navail)
        } else {
            m
        }
}

/// How `nack_messages` relates the store before and after the call to its
/// result `(requeued, dropped)`: every listed row present gets one more
/// attempt and becomes available at `now + max(0, delay_ms)`; a row whose
/// new attempt count reaches its queue's limit is deleted instead. The
/// result splits the rows touched into survivors and drops.
pub open spec fn nack_post(
    pre: Store,
    post: Store,
    ids: Seq<i64>,
    delay_ms: i64,
    now: i64,
    r: (u64, u64),
) -> bool {
    let navail = (now + clamp0(delay_ms)) as i64;
    &&& post.queues@ == pre.queues@
    &&& post.next_queue_id == pre.next_queue_id
    &&& post.next_message_id == pre.next_message_id
    &&& post.messages@ == pre.messages@.filter(nack_keep(pre.queues@, ids)).map_values(
        nack_map(ids, navail),
    )
    &&& r.1 + post.messages@.len() == pre.messages@.len()
    &&& r.0 + r.1 == pre.messages@.filter(hit_by(ids)).len()
}

/// The delivery limit of the queue with id `qid`.
fn queue_max_attempts(s: &Store, qid: i64) -> (r: i32)
    requires
        s.wf(),
        has_queue_id(s.queues@, qid),
    ensures
        r == queue_with_id(s.queues@, qid).max_attempts,
{
    let mut i: usize = 0;
    while i < s.queues.len()
        invariant
            s.wf(),
            has_queue_id(s.queues@, qid),
            0 <= i <= s.queues@.len(),
            forall|k: int| 0 <= k < i ==> (#[trigger] s.queues@[k]).id != qid,
        decreases s.queues@.len() - i,
    {
        if s.queues[i].id == qid {
            proof {
                assert(s.queues@.contains(s.queues@[i as int]));
                lemma_queue_with_id_is(s.queues@, s.queues@[i as int]);
            }
            return s.queues[i].max_attempts;
        }
        i += 1;
    }
    proof {
        let w = choose|w: int| 0 <= w < s.queues@.len() && s.queues@[w].id == qid;
        assert(false);
    }
    1
}

/// Negatively acknowledge messages by id: record one failed delivery on each
/// listed row and hide it for `max(0, delay_ms)`; a row whose attempt count
/// reaches its queue's `max_attempts` is dropped instead. Returns how many
/// rows were requeued and how many were dropped.
pub fn nack_messages(s: &mut Store, ids: &Vec<i64>, delay_ms: i64, now: i64) -> (r: (u64, u64))
    requires
        old(s).wf(),
        now >= 0,
        now + clamp0(delay_ms) <= i64::MAX,
    ensures
        final(s).wf(),
        nack_post(*old(s), *final(s), ids@, delay_ms, now, r),
{
    let ghost pre = *s;
    let eff_delay: i64 = if delay_ms > 0 {
        delay_ms
    } else {
        0
    };
    let navail: i64 = now + eff_delay;
    let mut kept: Vec<Message> = Vec::new();
    let mut hits: u64 = 0;
    let mut drops: u64 = 0;
    let mut i: usize = 0;
    while i < s.messages.len()
        invariant
            store_eqv(*s, pre),
            s.wf(),
            0 <= i <= s.messages@.len(),
            hits <= i,
            drops <= hits,
            kept@ == s.messages@.subrange(0, i as int).filter(
                nack_keep(s.queues@, ids@),
            ).map_values(nack_map(ids@, navail)),
            hits == s.messages@.subrange(0, i as int).filter(hit_by(ids@)).len(),
            drops + s.messages@.subrange(0, i as int).filter(nack_keep(s.queues@, ids@)).len()
                == i,
        decreases s.messages@.len() - i,
    {
        let ghost prefix = s.messages@.subrange(0, i as int);
        let ghost cur = s.messages@[i as int];
        proof {
            assert(s.messages@.subrange(0, i + 1 as int) =~= prefix.push(cur));
            prefix.lemma_filter_push(cur, nack_keep(s.queues@, ids@));
            prefix.lemma_filter_push(cur, hit_by(ids@));
            assert(msg_ok(s.queues@, cur, s.next_message_id));
        }
        if ids_contain(ids, s.messages[i].id) {
            hits = hits + 1;
            let maxa = queue_max_attempts(s, s.messages[i].queue_id);
            let na = s.messages[i].attempts + 1;
            if na >= maxa {
                drops = drops + 1;
                proof {
                    assert(!nack_keep(s.queues@, ids@)(cur));
                }
            } else {
                let b = Message {
                    id: s.messages[i].id,
                    queue_id: s.messages[i].queue_id,
                    payload: s.messages[i].payload.clone(),
                    attempts: na,
                    available_at: navail,
                    created_at: s.messages[i].created_at,
                };
                proof {
                    assert(nack_keep(s.queues@, ids@)(cur));
                    assert(b == nack_bump(cur, navail));
                    assert(nack_map(ids@, navail)(cur) == nack_bump(cur, navail));
                    assert(prefix.push(cur).filter(nack_keep(s.queues@, ids@)).map_values(
                        nack_map(ids@, navail),
                    ) =~= prefix.filter(nack_keep(s.queues@, ids@)).map_values(
                        nack_map(ids@, navail),
                    ).push(nack_bump(cur, navail)));
                }
                kept.push(b);
            }
        } else {
            let c = copy_message(&s.messages[i]);
            proof {
                assert(nack_keep(s.queues@, ids@)(cur));
                assert(nack_map(ids@, navail)(cur) == cur);
                assert(prefix.push(cur).filter(nack_keep(s.queues@, ids@)).map_values(
                    nack_map(ids@, navail),
                ) =~= prefix.filter(nack_keep(s.queues@, ids@)).map_values(
                    nack_map(ids@, navail),
                ).push(cur));
            }
            kept.push(c);
        }
        i += 1;
    }
    proof {
        assert(s.messages@.subrange(0, s.messages@.len() as int) =~= s.messages@);
    }
    s.messages = kept;
    proof {
        let qs = pre.queues@;
        let fk = pre.messages@.filter(nack_keep(qs, ids@));
        lemma_filter_ordered(pre.messages@, nack_keep(qs, ids@), |mm: Message| mm.id);
        assert forall|a: int, b: int| 0 <= a < b < s.messages@.len() implies s.messages@[a].id
            < s.messages@[b].id by {
            assert(s.messages@[a] == nack_map(ids@, navail)(fk[a]));
            assert(s.messages@[b] == nack_map(ids@, navail)(fk[b]));
            assert(s.messages@[a].id == fk[a].id);
            assert(s.messages@[b].id == fk[b].id);
        }
        assert forall|k: int| 0 <= k < s.messages@.len() implies msg_ok(
            s.queues@,
            #[trigger] s.messages@[k],
            s.next_message_id,
        ) by {
            pre.messages@.lemma_filter_pred(nack_keep(qs, ids@), k);
            let n = choose|n: int| 0 <= n < pre.messages@.len() && pre.messages@[n] == fk[k];
            assert(msg_ok(qs, fk[k], pre.next_message_id));
            assert(s.messages@[k] == nack_map(ids@, navail)(fk[k]));
            if ids@.contains(fk[k].id) {
                assert(fk[k].attempts + 1 < queue_with_id(qs, fk[k].queue_id).max_attempts);
                assert(s.messages@[k] == nack_bump(fk[k], navail));
            }
        }
    }
    (hits - drops, drops)
}

} // verus!
