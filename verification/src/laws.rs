//! The protocol-wide guarantees of the engine, each proved from the
//! operations' transition predicates alone: conservation of messages, lease
//! exclusivity between overlapping polls, attempt monotonicity, drop on
//! reaching the attempt limit, FIFO selection, and the peek/purge round
//! trip.

use crate::errors::ErrorKind;
use crate::json::json_ok;
use crate::models::{Message, Queue};
use crate::queue::{
    ack_post, clamp0, create_queue_post, delete_queue_post, enqueue_post, lease_bump, nack_bump,
    nack_keep, nack_map, nack_post, peek_post, poll_post, purge_post, remove_message_post,
};
use crate::store::{
    has_msg_id, has_queue_named, hidden_pred, ids_ascending, in_scope, keep_not_in,
    keep_other_id, keep_other_queues, lemma_filter_subset, lemma_msg_with_id_is,
    lemma_same_id_same_msg, lemma_sorted_no_dup, msg_lt, msg_with_id, queue_named, queue_with_id,
    scope_pred, scoped, store_eqv, Store,
};
use vstd::prelude::*;

verus! {

// ---------------------------------------------------------------------------
// Helper lemmas
// ---------------------------------------------------------------------------

/// Two equally long sequences whose elements agree pointwise on a predicate
/// keep equally many elements under it.
proof fn lemma_filter_len_congruent<A>(
    s1: Seq<A>,
    s2: Seq<A>,
    p1: spec_fn(A) -> bool,
    p2: spec_fn(A) -> bool,
)
    requires
        s1.len() == s2.len(),
        forall|n: int| #![trigger s1[n], s2[n]] 0 <= n < s1.len() ==> p1(s1[n]) == p2(s2[n]),
    ensures
        s1.filter(p1).len() == s2.filter(p2).len(),
    decreases s1.len(),
{
    reveal(Seq::filter);
    if s1.len() > 0 {
        lemma_filter_len_congruent(s1.drop_last(), s2.drop_last(), p1, p2);
    }
}

/// Looking up a surviving id after a deletion pass finds the very row the
/// store held before.
proof fn lemma_filter_keeps_row(ms: Seq<Message>, pred: spec_fn(Message) -> bool, id: i64)
    requires
        ids_ascending(ms),
        has_msg_id(ms.filter(pred), id),
    ensures
        has_msg_id(ms, id),
        msg_with_id(ms.filter(pred), id) == msg_with_id(ms, id),
{
    let f = ms.filter(pred);
    let row = msg_with_id(f, id);
    let k = choose|k: int| 0 <= k < f.len() && f[k].id == id;
    lemma_filter_subset(ms, pred);
    assert(ms.contains(f[k]));
    assert(f.contains(f[k]));
    lemma_msg_with_id_is(ms, f[k]);
    let w = choose|w: int| 0 <= w < f.len() && f[w].id == id;
    assert(f.contains(f[w]));
    assert(ms.contains(f[w]));
    lemma_same_id_same_msg(ms, f[k], f[w]);
}

// ---------------------------------------------------------------------------
// No loss
// ---------------------------------------------------------------------------

/// Every message of a queue is either ready or still hidden: ready plus
/// hidden (delayed or leased) always equals the queue's total. With the
/// conservation clauses of the operations below, a run of enqueues with no
/// acks and no drops keeps `ready + leased == enqueued`.
pub proof fn lemma_ready_hidden_partition(ms: Seq<Message>, qid: i64, now: i64)
    ensures
        scoped(ms, qid, now).len() + ms.filter(hidden_pred(qid, now)).len() == scoped(
            ms,
            qid,
            i64::MAX,
        ).len(),
    decreases ms.len(),
{
    reveal(Seq::filter);
    if ms.len() > 0 {
        lemma_ready_hidden_partition(ms.drop_last(), qid, now);
    }
}

/// A successful enqueue grows its queue by exactly one message and leaves
/// every other queue's total alone.
pub proof fn lemma_enqueue_adds_one(
    pre: Store,
    post: Store,
    name: Seq<char>,
    payload: Seq<char>,
    delay_ms: i64,
    now: i64,
    r: Result<Message, ErrorKind>,
)
    requires
        enqueue_post(pre, post, name, payload, delay_ms, now, r),
        r is Ok,
    ensures
        scoped(post.messages@, queue_named(pre.queues@, name).id, i64::MAX).len() == scoped(
            pre.messages@,
            queue_named(pre.queues@, name).id,
            i64::MAX,
        ).len() + 1,
        forall|other: i64|
            other != queue_named(pre.queues@, name).id ==> scoped(
                post.messages@,
                other,
                i64::MAX,
            ).len() == scoped(pre.messages@, other, i64::MAX).len(),
{
    let qid = queue_named(pre.queues@, name).id;
    let m = r->Ok_0;
    assert(post.messages@ == pre.messages@.push(m));
    pre.messages@.lemma_filter_push(m, scope_pred(qid, i64::MAX));
    assert forall|other: i64| other != qid implies scoped(post.messages@, other, i64::MAX).len()
        == scoped(pre.messages@, other, i64::MAX).len() by {
        pre.messages@.lemma_filter_push(m, scope_pred(other, i64::MAX));
    }
}

/// One successful enqueue into `name` took `pre` to `post`.
pub open spec fn enqueue_step(pre: Store, post: Store, name: Seq<char>) -> bool {
    exists|payload: Seq<char>, delay_ms: i64, now: i64, r: Result<Message, ErrorKind>|
        #![trigger enqueue_post(pre, post, name, payload, delay_ms, now, r)]
        enqueue_post(pre, post, name, payload, delay_ms, now, r) && r is Ok
}

/// Each adjacent pair of `tr` is one successful enqueue into `name`.
pub open spec fn enqueue_run(tr: Seq<Store>, name: Seq<char>) -> bool {
    forall|i: int| 0 <= i < tr.len() - 1 ==> enqueue_step(#[trigger] tr[i], tr[i + 1], name)
}

/// No loss: a run of successful enqueues into a queue — with no acks, no
/// drops and no deletes in between — leaves the queue holding exactly one
/// more message per enqueue. Together with `lemma_ready_hidden_partition`
/// this gives `ready + leased == enqueued` after any such run.
pub proof fn lemma_no_loss_enqueue_run(tr: Seq<Store>, name: Seq<char>)
    requires
        tr.len() >= 1,
        enqueue_run(tr, name),
    ensures
        tr.last().queues@ == tr[0].queues@,
        scoped(tr.last().messages@, queue_named(tr[0].queues@, name).id, i64::MAX).len() == scoped(
            tr[0].messages@,
            queue_named(tr[0].queues@, name).id,
            i64::MAX,
        ).len() + tr.len() - 1,
    decreases tr.len(),
{
    if tr.len() > 1 {
        let prefix = tr.drop_last();
        assert forall|i: int| 0 <= i < prefix.len() - 1 implies enqueue_step(
            #[trigger] prefix[i],
            prefix[i + 1],
            name,
        ) by {
            assert(prefix[i] == tr[i] && prefix[i + 1] == tr[i + 1]);
            assert(enqueue_step(tr[i], tr[i + 1], name));
        }
        lemma_no_loss_enqueue_run(prefix, name);
        let pre = tr[tr.len() - 2];
        let post = tr[tr.len() - 1];
        assert(prefix.last() == pre);
        assert(enqueue_step(tr[tr.len() - 2], tr[tr.len() - 1], name));
        let (payload, delay_ms, now, r) = choose|
            payload: Seq<char>,
            delay_ms: i64,
            now: i64,
            r: Result<Message, ErrorKind>,
        |
            #![trigger enqueue_post(pre, post, name, payload, delay_ms, now, r)]
            enqueue_post(pre, post, name, payload, delay_ms, now, r) && r is Ok;
        assert(has_queue_named(pre.queues@, name)) by {
            if !has_queue_named(pre.queues@, name) {
                assert(r is Err);
            }
        }
        assert(json_ok(payload)) by {
            if !json_ok(payload) {
                assert(r is Err);
            }
        }
        lemma_enqueue_adds_one(pre, post, name, payload, delay_ms, now, r);
        assert(queue_named(pre.queues@, name) == queue_named(tr[0].queues@, name));
    }
}

/// A poll moves messages from ready to hidden but never changes any queue's
/// total: nothing is lost or created by leasing.
pub proof fn lemma_poll_preserves_totals(
    pre: Store,
    post: Store,
    name: Seq<char>,
    limit: i64,
    visibility_ms: i64,
    now: i64,
    r: Seq<Message>,
)
    requires
        pre.wf(),
        poll_post(pre, post, name, limit, visibility_ms, now, r),
    ensures
        post.messages@.len() == pre.messages@.len(),
        forall|qid: i64|
            scoped(post.messages@, qid, i64::MAX).len() == scoped(
                pre.messages@,
                qid,
                i64::MAX,
            ).len(),
{
    if !has_queue_named(pre.queues@, name) {
        assert forall|qid: i64| scoped(post.messages@, qid, i64::MAX).len() == scoped(
            pre.messages@,
            qid,
            i64::MAX,
        ).len() by {
            lemma_filter_len_congruent(
                post.messages@,
                pre.messages@,
                scope_pred(qid, i64::MAX),
                scope_pred(qid, i64::MAX),
            );
        }
    } else {
        assert forall|qid: i64| scoped(post.messages@, qid, i64::MAX).len() == scoped(
            pre.messages@,
            qid,
            i64::MAX,
        ).len() by {
            assert forall|n: int|
                #![trigger post.messages@[n], pre.messages@[n]]
                0 <= n < post.messages@.len() implies scope_pred(qid, i64::MAX)(
                post.messages@[n],
            ) == scope_pred(qid, i64::MAX)(pre.messages@[n]) by {
                assert(post.messages@[n].queue_id == pre.messages@[n].queue_id);
            }
            lemma_filter_len_congruent(
                post.messages@,
                pre.messages@,
                scope_pred(qid, i64::MAX),
                scope_pred(qid, i64::MAX),
            );
        }
    }
}

// ---------------------------------------------------------------------------
// Drop on limit
// ---------------------------------------------------------------------------

/// After a nack that pushes a message's attempt count to its queue's limit,
/// the message no longer exists.
pub proof fn lemma_drop_on_limit(
    pre: Store,
    post: Store,
    ids: Seq<i64>,
    delay_ms: i64,
    now: i64,
    r: (u64, u64),
    id: i64,
)
    requires
        pre.wf(),
        nack_post(pre, post, ids, delay_ms, now, r),
        ids.contains(id),
        has_msg_id(pre.messages@, id),
        msg_with_id(pre.messages@, id).attempts + 1 >= queue_with_id(
            pre.queues@,
            msg_with_id(pre.messages@, id).queue_id,
        ).max_attempts,
    ensures
        !has_msg_id(post.messages@, id),
{
    let navail = (now + clamp0(delay_ms)) as i64;
    let fk = pre.messages@.filter(nack_keep(pre.queues@, ids));
    if has_msg_id(post.messages@, id) {
        let k = choose|k: int| 0 <= k < post.messages@.len() && post.messages@[k].id == id;
        assert(post.messages@[k] == nack_map(ids, navail)(fk[k]));
        assert(fk[k].id == id);
        pre.messages@.lemma_filter_pred(nack_keep(pre.queues@, ids), k);
        lemma_filter_subset(pre.messages@, nack_keep(pre.queues@, ids));
        assert(pre.messages@.contains(fk[k]));
        lemma_msg_with_id_is(pre.messages@, fk[k]);
        assert(fk[k] == msg_with_id(pre.messages@, id));
        assert(!(ids.contains(fk[k].id) && fk[k].attempts + 1 >= queue_with_id(
            pre.queues@,
            fk[k].queue_id,
        ).max_attempts));
    }
}

/// A nack below the limit keeps the message, with one more recorded attempt
/// and its availability pushed out.
pub proof fn lemma_nack_requeues(
    pre: Store,
    post: Store,
    ids: Seq<i64>,
    delay_ms: i64,
    now: i64,
    r: (u64, u64),
    id: i64,
)
    requires
        pre.wf(),
        nack_post(pre, post, ids, delay_ms, now, r),
        ids.contains(id),
        has_msg_id(pre.messages@, id),
        msg_with_id(pre.messages@, id).attempts + 1 < queue_with_id(
            pre.queues@,
            msg_with_id(pre.messages@, id).queue_id,
        ).max_attempts,
    ensures
        has_msg_id(post.messages@, id),
        msg_with_id(post.messages@, id) == nack_bump(
            msg_with_id(pre.messages@, id),
            (now + clamp0(delay_ms)) as i64,
        ),
{
    let navail = (now + clamp0(delay_ms)) as i64;
    let keep = nack_keep(pre.queues@, ids);
    let fk = pre.messages@.filter(keep);
    let row = msg_with_id(pre.messages@, id);
    let n = choose|n: int| 0 <= n < pre.messages@.len() && pre.messages@[n].id == id;
    assert(pre.messages@.contains(pre.messages@[n]));
    lemma_msg_with_id_is(pre.messages@, pre.messages@[n]);
    assert(row == pre.messages@[n]);
    assert(keep(row));
    pre.messages@.lemma_filter_contains(keep, n);
    assert(fk.contains(row));
    let k = choose|k: int| 0 <= k < fk.len() && fk[k] == row;
    assert(post.messages@[k] == nack_map(ids, navail)(fk[k]));
    assert(post.messages@[k] == nack_bump(row, navail));
    assert(has_msg_id(post.messages@, id));
    // post ids are ascending, so the row found by id is this one
    crate::store::lemma_filter_ordered(pre.messages@, keep, |mm: Message| mm.id);
    assert forall|a: int, b: int| 0 <= a < b < post.messages@.len() implies post.messages@[a].id
        < post.messages@[b].id by {
        assert(post.messages@[a] == nack_map(ids, navail)(fk[a]));
        assert(post.messages@[b] == nack_map(ids, navail)(fk[b]));
        assert(post.messages@[a].id == fk[a].id);
        assert(post.messages@[b].id == fk[b].id);
    }
    assert(post.messages@.contains(post.messages@[k]));
    lemma_msg_with_id_is(post.messages@, post.messages@[k]);
}

// ---------------------------------------------------------------------------
// At most once per lease
// ---------------------------------------------------------------------------

/// Two polls of the same queue whose windows overlap lease disjoint sets of
/// messages: the first poll, with a positive visibility window, pushes every
/// leased row's availability past the moment the second poll reads its
/// candidates, so the second poll cannot see them. This is the
/// at-most-one-concurrent-delivery guarantee; under the store's writer
/// serialization, two overlapping transactions commit in some order and
/// behave exactly like these two consecutive steps.
pub proof fn lemma_lease_exclusion(
    s0: Store,
    s1: Store,
    s2: Store,
    name: Seq<char>,
    limit1: i64,
    visibility_ms1: i64,
    now1: i64,
    r1: Seq<Message>,
    limit2: i64,
    visibility_ms2: i64,
    now2: i64,
    r2: Seq<Message>,
)
    requires
        s0.wf(),
        now1 >= 0,
        now1 + clamp0(visibility_ms1) <= i64::MAX,
        visibility_ms1 > 0,
        now1 <= now2,
        now2 < now1 + clamp0(visibility_ms1),
        poll_post(s0, s1, name, limit1, visibility_ms1, now1, r1),
        poll_post(s1, s2, name, limit2, visibility_ms2, now2, r2),
    ensures
        forall|k1: int, k2: int|
            #![trigger r1[k1], r2[k2]]
            0 <= k1 < r1.len() && 0 <= k2 < r2.len() ==> r1[k1].id != r2[k2].id,
{
    if has_queue_named(s0.queues@, name) {
        let qid = queue_named(s0.queues@, name).id;
        let navail1 = (now1 + clamp0(visibility_ms1)) as i64;
        assert(navail1 > now2);
        assert(s1.queues@ == s0.queues@);
        assert forall|k1: int, k2: int|
            #![trigger r1[k1], r2[k2]]
            0 <= k1 < r1.len() && 0 <= k2 < r2.len() implies r1[k1].id != r2[k2].id by {
            let id = r1[k1].id;
            if r2[k2].id == id {
                assert(has_msg_id(s0.messages@, id));
                let n = choose|n: int| 0 <= n < s0.messages@.len() && s0.messages@[n].id == id;
                assert(has_msg_id(r1, s0.messages@[n].id));
                assert(s1.messages@[n] == lease_bump(s0.messages@[n], navail1));
                assert(s1.messages@[n].available_at == navail1);
                assert forall|a: int, b: int| 0 <= a < b < s1.messages@.len() implies
                    s1.messages@[a].id < s1.messages@[b].id by {
                    assert(s1.messages@[a].id == s0.messages@[a].id);
                    assert(s1.messages@[b].id == s0.messages@[b].id);
                }
                assert(s1.messages@.contains(s1.messages@[n]));
                lemma_msg_with_id_is(s1.messages@, s1.messages@[n]);
                assert(in_scope(msg_with_id(s1.messages@, id), qid, now2));
                assert(msg_with_id(s1.messages@, id).available_at <= now2);
                assert(false);
            }
        }
    }
}

// ---------------------------------------------------------------------------
// Attempt monotonicity
// ---------------------------------------------------------------------------

/// Some engine operation took the store from `pre` to `post`.
pub open spec fn engine_step(pre: Store, post: Store) -> bool {
    ||| store_eqv(post, pre)
    ||| exists|name: Seq<char>, max_attempts: i32, r: Result<Queue, ErrorKind>|
        create_queue_post(pre, post, name, max_attempts, r)
    ||| exists|name: Seq<char>, r: bool| delete_queue_post(pre, post, name, r)
    ||| exists|ids: Seq<i64>, r: u64| ack_post(pre, post, ids, r)
    ||| exists|name: Seq<char>, r: u64| purge_post(pre, post, name, r)
    ||| exists|id: i64, r: bool| remove_message_post(pre, post, id, r)
    ||| exists|
        name: Seq<char>,
        payload: Seq<char>,
        delay_ms: i64,
        now: i64,
        r: Result<Message, ErrorKind>,
    | enqueue_post(pre, post, name, payload, delay_ms, now, r)
    ||| exists|name: Seq<char>, limit: i64, visibility_ms: i64, now: i64, r: Seq<Message>|
        poll_post(pre, post, name, limit, visibility_ms, now, r)
    ||| exists|ids: Seq<i64>, delay_ms: i64, now: i64, r: (u64, u64)|
        nack_post(pre, post, ids, delay_ms, now, r)
}

/// A surviving row keeps its place under any deletion pass: same row, same
/// attempts.
proof fn lemma_filter_row_attempts(ms: Seq<Message>, pred: spec_fn(Message) -> bool, id: i64)
    requires
        ids_ascending(ms),
        has_msg_id(ms.filter(pred), id),
    ensures
        has_msg_id(ms, id),
        msg_with_id(ms.filter(pred), id).attempts == msg_with_id(ms, id).attempts,
{
    lemma_filter_keeps_row(ms, pred, id);
}

/// Whatever single operation the engine performs, a message that exists
/// before and after it never loses recorded attempts: `attempts` is
/// non-decreasing until the message is deleted.
pub proof fn lemma_attempts_monotone(pre: Store, post: Store)
    requires
        pre.wf(),
        engine_step(pre, post),
    ensures
        forall|id: i64|
            has_msg_id(pre.messages@, id) && has_msg_id(post.messages@, id)
                ==> msg_with_id(post.messages@, id).attempts >= msg_with_id(
                pre.messages@,
                id,
            ).attempts,
{
    assert forall|id: i64|
        has_msg_id(pre.messages@, id) && has_msg_id(post.messages@, id) implies msg_with_id(
        post.messages@,
        id,
    ).attempts >= msg_with_id(pre.messages@, id).attempts by {
        if store_eqv(post, pre) {
        } else if exists|name: Seq<char>, max_attempts: i32, r: Result<Queue, ErrorKind>|
            create_queue_post(pre, post, name, max_attempts, r) {
            let (name, max_attempts, r) = choose|
                name: Seq<char>,
                max_attempts: i32,
                r: Result<Queue, ErrorKind>,
            | create_queue_post(pre, post, name, max_attempts, r);
            assert(post.messages@ == pre.messages@);
        } else if exists|name: Seq<char>, r: bool| delete_queue_post(pre, post, name, r) {
            let (name, r) = choose|name: Seq<char>, r: bool|
                delete_queue_post(pre, post, name, r);
            if has_queue_named(pre.queues@, name) {
                lemma_filter_row_attempts(
                    pre.messages@,
                    keep_other_queues(queue_named(pre.queues@, name).id),
                    id,
                );
            }
        } else if exists|ids: Seq<i64>, r: u64| ack_post(pre, post, ids, r) {
            let (ids, r) = choose|ids: Seq<i64>, r: u64| ack_post(pre, post, ids, r);
            lemma_filter_row_attempts(pre.messages@, keep_not_in(ids), id);
        } else if exists|name: Seq<char>, r: u64| purge_post(pre, post, name, r) {
            let (name, r) = choose|name: Seq<char>, r: u64| purge_post(pre, post, name, r);
            if has_queue_named(pre.queues@, name) {
                lemma_filter_row_attempts(
                    pre.messages@,
                    keep_other_queues(queue_named(pre.queues@, name).id),
                    id,
                );
            }
        } else if exists|mid: i64, r: bool| remove_message_post(pre, post, mid, r) {
            let (mid, r) = choose|mid: i64, r: bool| remove_message_post(pre, post, mid, r);
            lemma_filter_row_attempts(pre.messages@, keep_other_id(mid), id);
        } else if exists|
            name: Seq<char>,
            payload: Seq<char>,
            delay_ms: i64,
            now: i64,
            r: Result<Message, ErrorKind>,
        | enqueue_post(pre, post, name, payload, delay_ms, now, r) {
            let (name, payload, delay_ms, now, r) = choose|
                name: Seq<char>,
                payload: Seq<char>,
                delay_ms: i64,
                now: i64,
                r: Result<Message, ErrorKind>,
            | enqueue_post(pre, post, name, payload, delay_ms, now, r);
            if has_queue_named(pre.queues@, name) && json_ok(payload) {
                let m = r->Ok_0;
                assert(post.messages@ == pre.messages@.push(m));
                let n = choose|n: int|
                    0 <= n < pre.messages@.len() && pre.messages@[n].id == id;
                assert(pre.messages@.contains(pre.messages@[n]));
                lemma_msg_with_id_is(pre.messages@, pre.messages@[n]);
                assert(msg_with_id(pre.messages@, id).id < pre.next_message_id);
                assert(id != m.id);
                assert forall|a: int, b: int| 0 <= a < b < post.messages@.len() implies
                    post.messages@[a].id < post.messages@[b].id by {
                    if b < post.messages@.len() - 1 {
                    } else {
                        assert(post.messages@[a].id < pre.next_message_id);
                    }
                }
                assert(post.messages@[n] == pre.messages@[n]);
                assert(post.messages@.contains(post.messages@[n]));
                lemma_msg_with_id_is(post.messages@, post.messages@[n]);
            }
        } else if exists|name: Seq<char>, limit: i64, visibility_ms: i64, now: i64, r: Seq<
            Message,
        >| poll_post(pre, post, name, limit, visibility_ms, now, r) {
            let (name, limit, visibility_ms, now, r) = choose|
                name: Seq<char>,
                limit: i64,
                visibility_ms: i64,
                now: i64,
                r: Seq<Message>,
            | poll_post(pre, post, name, limit, visibility_ms, now, r);
            if has_queue_named(pre.queues@, name) {
                let n = choose|n: int|
                    0 <= n < pre.messages@.len() && pre.messages@[n].id == id;
                assert(pre.messages@.contains(pre.messages@[n]));
                lemma_msg_with_id_is(pre.messages@, pre.messages@[n]);
                assert(post.messages@[n].attempts == pre.messages@[n].attempts);
                assert(post.messages@[n].id == id);
                assert forall|a: int, b: int| 0 <= a < b < post.messages@.len() implies
                    post.messages@[a].id < post.messages@[b].id by {
                    assert(post.messages@[a].id == pre.messages@[a].id);
                    assert(post.messages@[b].id == pre.messages@[b].id);
                }
                assert(post.messages@.contains(post.messages@[n]));
                lemma_msg_with_id_is(post.messages@, post.messages@[n]);
            }
        } else {
            let (ids, delay_ms, now, r) = choose|
                ids: Seq<i64>,
                delay_ms: i64,
                now: i64,
                r: (u64, u64),
            | nack_post(pre, post, ids, delay_ms, now, r);
            let navail = (now + clamp0(delay_ms)) as i64;
            let keep = nack_keep(pre.queues@, ids);
            let fk = pre.messages@.filter(keep);
            let k = choose|k: int| 0 <= k < post.messages@.len() && post.messages@[k].id == id;
            assert(post.messages@[k] == nack_map(ids, navail)(fk[k]));
            assert(fk[k].id == id);
            lemma_filter_subset(pre.messages@, keep);
            assert(pre.messages@.contains(fk[k]));
            lemma_msg_with_id_is(pre.messages@, fk[k]);
            crate::store::lemma_filter_ordered(pre.messages@, keep, |mm: Message| mm.id);
            assert forall|a: int, b: int| 0 <= a < b < post.messages@.len() implies
                post.messages@[a].id < post.messages@[b].id by {
                assert(post.messages@[a] == nack_map(ids, navail)(fk[a]));
                assert(post.messages@[b] == nack_map(ids, navail)(fk[b]));
                assert(post.messages@[a].id == fk[a].id);
                assert(post.messages@[b].id == fk[b].id);
            }
            assert(post.messages@.contains(post.messages@[k]));
            lemma_msg_with_id_is(post.messages@, post.messages@[k]);
            assert(post.messages@[k].attempts >= fk[k].attempts);
        }
    }
}

// ---------------------------------------------------------------------------
// FIFO by availability
// ---------------------------------------------------------------------------

/// FIFO by availability. Across the chosen set, the selection clauses of
/// `poll_post` already force it: every ready message left behind orders
/// strictly after every message taken. Within the batch, the rows come back
/// sorted by their pre-call key: ascending `available_at` as it was when the
/// poll began — so messages with distinct availabilities arrive earliest
/// first — with ties broken by ascending id.
pub proof fn lemma_poll_fifo_order(
    pre: Store,
    post: Store,
    name: Seq<char>,
    limit: i64,
    visibility_ms: i64,
    now: i64,
    r: Seq<Message>,
)
    requires
        pre.wf(),
        poll_post(pre, post, name, limit, visibility_ms, now, r),
        has_queue_named(pre.queues@, name),
    ensures
        forall|a: int, b: int|
            #![trigger r[a], r[b]]
            0 <= a < b < r.len() ==> msg_lt(
                msg_with_id(pre.messages@, r[a].id),
                msg_with_id(pre.messages@, r[b].id),
            ),
        forall|a: int, b: int|
            #![trigger r[a], r[b]]
            0 <= a < b < r.len() ==> msg_with_id(pre.messages@, r[a].id).available_at
                <= msg_with_id(pre.messages@, r[b].id).available_at,
{
    assert forall|a: int, b: int| #![trigger r[a], r[b]] 0 <= a < b < r.len() implies msg_with_id(
        pre.messages@,
        r[a].id,
    ).available_at <= msg_with_id(pre.messages@, r[b].id).available_at by {
        assert(msg_lt(msg_with_id(pre.messages@, r[a].id), msg_with_id(pre.messages@, r[b].id)));
    }
}

// ---------------------------------------------------------------------------
// Round trip: peek sees everything, purge leaves nothing
// ---------------------------------------------------------------------------

/// A peek whose limit covers the queue's own count returns every message of
/// the queue: exactly the queue's total, and each of the queue's rows
/// appears.
pub proof fn lemma_peek_returns_all(s: Store, name: Seq<char>, limit: i64, r: Seq<Message>)
    requires
        s.wf(),
        peek_post(s, name, limit, r),
        has_queue_named(s.queues@, name),
        limit < 0 || limit >= scoped(
            s.messages@,
            queue_named(s.queues@, name).id,
            i64::MAX,
        ).len(),
    ensures
        r.len() == scoped(s.messages@, queue_named(s.queues@, name).id, i64::MAX).len(),
        forall|n: int|
            0 <= n < s.messages@.len() && (#[trigger] s.messages@[n]).queue_id == queue_named(
                s.queues@,
                name,
            ).id ==> r.contains(s.messages@[n]),
{
    broadcast use vstd::seq_lib::seq_to_set_is_finite;
    broadcast use vstd::set::group_set_axioms;

    let qid = queue_named(s.queues@, name).id;
    let sc = scoped(s.messages@, qid, i64::MAX);
    s.messages@.lemma_filter_len(scope_pred(qid, i64::MAX));
    assert(r.len() == sc.len());
    lemma_sorted_no_dup(r);
    r.unique_seq_to_set();
    crate::store::lemma_filter_ordered(s.messages@, scope_pred(qid, i64::MAX), |mm: Message| mm.id);
    crate::store::lemma_ascending_no_dup(sc);
    sc.unique_seq_to_set();
    assert forall|x: Message| r.to_set().contains(x) implies sc.to_set().contains(x) by {
        let k = choose|k: int| 0 <= k < r.len() && r[k] == x;
        assert(s.messages@.contains(x) && in_scope(x, qid, i64::MAX));
        let w = choose|w: int| 0 <= w < s.messages@.len() && s.messages@[w] == x;
        s.messages@.lemma_filter_contains(scope_pred(qid, i64::MAX), w);
        assert(sc.contains(x));
    }
    vstd::set_lib::lemma_len_subset(r.to_set(), sc.to_set());
    assert forall|n: int|
        0 <= n < s.messages@.len() && (#[trigger] s.messages@[n]).queue_id == qid implies
        r.contains(s.messages@[n]) by {
        let m = s.messages@[n];
        s.messages@.lemma_filter_contains(scope_pred(qid, i64::MAX), n);
        assert(sc.contains(m));
        if !r.contains(m) {
            assert(!r.to_set().contains(m));
            assert(r.to_set().insert(m).subset_of(sc.to_set()));
            vstd::set_lib::lemma_len_subset(r.to_set().insert(m), sc.to_set());
            assert(r.to_set().insert(m).len() == r.to_set().len() + 1);
            assert(false);
        }
    }
}

/// After a purge, a peek of the same queue comes back empty.
pub proof fn lemma_purge_then_peek_empty(
    s0: Store,
    s1: Store,
    name: Seq<char>,
    purged: u64,
    limit: i64,
    r: Seq<Message>,
)
    requires
        s0.wf(),
        purge_post(s0, s1, name, purged),
        peek_post(s1, name, limit, r),
    ensures
        r.len() == 0,
{
    if has_queue_named(s0.queues@, name) {
        let qid = queue_named(s0.queues@, name).id;
        assert(s1.queues@ == s0.queues@);
        let sc = scoped(s1.messages@, qid, i64::MAX);
        if sc.len() > 0 {
            s1.messages@.lemma_filter_pred(scope_pred(qid, i64::MAX), 0);
            crate::store::lemma_filter_subset(s1.messages@, scope_pred(qid, i64::MAX));
            assert(s1.messages@.contains(sc[0]));
            let w = choose|w: int| 0 <= w < s1.messages@.len() && s1.messages@[w] == sc[0];
            s0.messages@.lemma_filter_pred(keep_other_queues(qid), w);
            assert(sc[0].queue_id != qid);
            assert(in_scope(sc[0], qid, i64::MAX));
        }
        assert(sc.len() == 0);
    }
}

/// Enqueue then peek: with a covering limit, the freshly enqueued message is
/// among what peek returns, and the queue's total went up by one.
pub proof fn lemma_enqueue_then_peek(
    s0: Store,
    s1: Store,
    name: Seq<char>,
    payload: Seq<char>,
    delay_ms: i64,
    now: i64,
    re: Result<Message, ErrorKind>,
    limit: i64,
    r: Seq<Message>,
)
    requires
        s0.wf(),
        s1.wf(),
        enqueue_post(s0, s1, name, payload, delay_ms, now, re),
        re is Ok,
        peek_post(s1, name, limit, r),
        limit < 0 || limit >= scoped(
            s1.messages@,
            queue_named(s0.queues@, name).id,
            i64::MAX,
        ).len(),
    ensures
        r.contains(re->Ok_0),
        r.len() == scoped(s0.messages@, queue_named(s0.queues@, name).id, i64::MAX).len() + 1,
{
    let qid = queue_named(s0.queues@, name).id;
    let m = re->Ok_0;
    assert(has_queue_named(s0.queues@, name)) by {
        if !has_queue_named(s0.queues@, name) {
            assert(re is Err);
        }
    }
    assert(s1.queues@ == s0.queues@);
    assert(s1.messages@ == s0.messages@.push(m));
    lemma_peek_returns_all(s1, name, limit, r);
    assert(s1.messages@[s1.messages@.len() - 1] == m);
    assert(r.contains(m));
    lemma_enqueue_adds_one(s0, s1, name, payload, delay_ms, now, re);
}

} // verus!
