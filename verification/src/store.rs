//! The in-memory model of the persisted state: the `queue` and `message`
//! relations, kept in insertion (= id) order, together with the invariants
//! that every engine operation preserves.

use crate::models::{Message, Queue};
use vstd::prelude::*;

verus! {

// ---------------------------------------------------------------------------
// Spec helpers over the queue relation
// ---------------------------------------------------------------------------

/// Some queue in `qs` carries the name `name`.
pub open spec fn has_queue_named(qs: Seq<Queue>, name: Seq<char>) -> bool {
    exists|i: int| 0 <= i < qs.len() && qs[i].name@ == name
}

/// The queue in `qs` named `name` (meaningful when `has_queue_named` holds;
/// unique once names are unique).
pub open spec fn queue_named(qs: Seq<Queue>, name: Seq<char>) -> Queue {
    qs[choose|i: int| 0 <= i < qs.len() && qs[i].name@ == name]
}

/// Some queue in `qs` carries the id `id`.
pub open spec fn has_queue_id(qs: Seq<Queue>, id: i64) -> bool {
    exists|i: int| 0 <= i < qs.len() && qs[i].id == id
}

/// The queue in `qs` with id `id` (meaningful when `has_queue_id` holds;
/// unique once ids are unique).
pub open spec fn queue_with_id(qs: Seq<Queue>, id: i64) -> Queue {
    qs[choose|i: int| 0 <= i < qs.len() && qs[i].id == id]
}

/// Queue ids in `qs` are strictly increasing (hence unique), which is the
/// creation order the store keeps.
pub open spec fn qids_ascending(qs: Seq<Queue>) -> bool {
    forall|i: int, j: int| 0 <= i < j < qs.len() ==> qs[i].id < qs[j].id
}

// ---------------------------------------------------------------------------
// Spec helpers over the message relation
// ---------------------------------------------------------------------------

/// Strict delivery order: by `available_at`, ties broken by id. This is the
/// FIFO-by-availability key that peek and poll follow.
pub open spec fn msg_lt(a: Message, b: Message) -> bool {
    a.available_at < b.available_at || (a.available_at == b.available_at && a.id < b.id)
}

/// `m` belongs to queue `qid` and became available no later than `bound`.
/// With `bound == i64::MAX` this is plain queue membership.
pub open spec fn in_scope(m: Message, qid: i64, bound: i64) -> bool {
    m.queue_id == qid && m.available_at <= bound
}

/// The predicate behind [`scoped`], named so that every use is one term.
pub open spec fn scope_pred(qid: i64, bound: i64) -> spec_fn(Message) -> bool {
    |m: Message| in_scope(m, qid, bound)
}

/// The messages of `ms` in queue `qid` available by `bound`, in store order.
pub open spec fn scoped(ms: Seq<Message>, qid: i64, bound: i64) -> Seq<Message> {
    ms.filter(scope_pred(qid, bound))
}

/// The messages of queue `qid` still hidden at `now`: delayed or leased.
/// In this model the two are deliberately indistinguishable — `available_at`
/// is both the FIFO key and the lease deadline.
pub open spec fn hidden_pred(qid: i64, now: i64) -> spec_fn(Message) -> bool {
    |m: Message| m.queue_id == qid && m.available_at > now
}

/// Keep the messages whose id is not in `ids` (what ack deletes).
pub open spec fn keep_not_in(ids: Seq<i64>) -> spec_fn(Message) -> bool {
    |m: Message| !ids.contains(m.id)
}

/// Keep the messages of every queue but `qid` (what purge and a queue
/// deletion cascade remove).
pub open spec fn keep_other_queues(qid: i64) -> spec_fn(Message) -> bool {
    |m: Message| m.queue_id != qid
}

/// Keep every message but the one with id `id`.
pub open spec fn keep_other_id(id: i64) -> spec_fn(Message) -> bool {
    |m: Message| m.id != id
}

/// Keep every queue not named `name`.
pub open spec fn keep_other_names(name: Seq<char>) -> spec_fn(Queue) -> bool {
    |q: Queue| q.name@ != name
}

/// `r` is strictly ascending in the delivery order [`msg_lt`].
pub open spec fn sorted_by_key(r: Seq<Message>) -> bool {
    forall|i: int, j: int| 0 <= i < j < r.len() ==> msg_lt(r[i], r[j])
}

/// Some message in `ms` carries the id `id`.
pub open spec fn has_msg_id(ms: Seq<Message>, id: i64) -> bool {
    exists|i: int| 0 <= i < ms.len() && ms[i].id == id
}

/// The message in `ms` with id `id` (meaningful when `has_msg_id` holds;
/// unique once ids are unique).
pub open spec fn msg_with_id(ms: Seq<Message>, id: i64) -> Message {
    ms[choose|i: int| 0 <= i < ms.len() && ms[i].id == id]
}

/// Message ids in `ms` are strictly increasing (hence unique), which is the
/// insertion order the store keeps.
pub open spec fn ids_ascending(ms: Seq<Message>) -> bool {
    forall|i: int, j: int| 0 <= i < j < ms.len() ==> ms[i].id < ms[j].id
}

// ---------------------------------------------------------------------------
// The store
// ---------------------------------------------------------------------------

/// The durable state: both relations plus the next id each table will assign.
/// Rows are kept ordered by id, which is also insertion order.
pub struct Store {
    pub queues: Vec<Queue>,
    pub messages: Vec<Message>,
    pub next_queue_id: i64,
    pub next_message_id: i64,
}

/// What every queue row satisfies: an id already assigned (below `next`), a
/// non-empty name and a positive delivery limit.
pub open spec fn queue_ok(q: Queue, next: i64) -> bool {
    &&& 1 <= q.id < next
    &&& q.name@.len() > 0
    &&& q.max_attempts >= 1
}

/// What every message row satisfies against the queue relation `qs`: an id
/// already assigned, an existing owner queue, attempts strictly below the
/// owner's limit (a nack that would reach the limit deletes the row instead),
/// and non-negative timestamps.
pub open spec fn msg_ok(qs: Seq<Queue>, m: Message, next: i64) -> bool {
    &&& 1 <= m.id < next
    &&& has_queue_id(qs, m.queue_id)
    &&& 0 <= m.attempts < queue_with_id(qs, m.queue_id).max_attempts
    &&& m.available_at >= 0
    &&& m.created_at >= 0
}

impl Store {
    /// Invariants of the queue relation: ids ascending (so unique), names
    /// unique, every row well formed.
    pub open spec fn queues_wf(self) -> bool {
        &&& qids_ascending(self.queues@)
        &&& forall|i: int, j: int|
            0 <= i < self.queues@.len() && 0 <= j < self.queues@.len() && i != j
                ==> self.queues@[i].name@ != self.queues@[j].name@
        &&& forall|i: int|
            0 <= i < self.queues@.len() ==> queue_ok(#[trigger] self.queues@[i], self.next_queue_id)
    }

    /// Invariants of the message relation: ids ascending (so unique), every
    /// row well formed against the queue relation.
    pub open spec fn messages_wf(self) -> bool {
        &&& ids_ascending(self.messages@)
        &&& forall|i: int|
            0 <= i < self.messages@.len()
                ==> msg_ok(self.queues@, #[trigger] self.messages@[i], self.next_message_id)
    }

    /// The full store invariant.
    pub open spec fn wf(self) -> bool {
        &&& self.queues_wf()
        &&& self.messages_wf()
        &&& self.next_queue_id >= 1
        &&& self.next_message_id >= 1
    }

    /// An empty store, as bootstrap creates it.
    pub fn new() -> (s: Store)
        ensures
            s.wf(),
            s.queues@.len() == 0,
            s.messages@.len() == 0,
            s.next_queue_id == 1,
            s.next_message_id == 1,
    {
        Store { queues: Vec::new(), messages: Vec::new(), next_queue_id: 1, next_message_id: 1 }
    }
}

/// What bootstrap must do to the database file before the store can open:
/// which of the three steps (delete, create, apply the schema) to take.
pub struct BootstrapPlan {
    pub delete_existing: bool,
    pub create_file: bool,
    pub apply_schema: bool,
}

/// Decide the bootstrap steps from whether the file exists and whether
/// recreation was forced: a forced recreation deletes any existing file; a
/// file is created whenever none will be left; the schema is applied exactly
/// to a freshly created file.
pub fn bootstrap_plan(file_exists: bool, force_recreate: bool) -> (r: BootstrapPlan)
    ensures
        r.delete_existing == (force_recreate && file_exists),
        r.create_file == (force_recreate || !file_exists),
        r.apply_schema == (force_recreate || !file_exists),
{
    BootstrapPlan {
        delete_existing: force_recreate && file_exists,
        create_file: force_recreate || !file_exists,
        apply_schema: force_recreate || !file_exists,
    }
}

/// Two stores hold the same state.
pub open spec fn store_eqv(a: Store, b: Store) -> bool {
    &&& a.queues@ == b.queues@
    &&& a.messages@ == b.messages@
    &&& a.next_queue_id == b.next_queue_id
    &&& a.next_message_id == b.next_message_id
}

// ---------------------------------------------------------------------------
// Lemmas about the helpers
// ---------------------------------------------------------------------------

/// With unique queue ids, looking a contained queue up by its id gives back
/// exactly that queue.
pub proof fn lemma_queue_with_id_is(qs: Seq<Queue>, q: Queue)
    requires
        forall|i: int, j: int| 0 <= i < j < qs.len() ==> qs[i].id != qs[j].id,
        qs.contains(q),
    ensures
        has_queue_id(qs, q.id),
        queue_with_id(qs, q.id) == q,
{
    let j = choose|j: int| 0 <= j < qs.len() && qs[j] == q;
    assert(qs[j].id == q.id);
    let i = choose|i: int| 0 <= i < qs.len() && qs[i].id == q.id;
    assert(qs[i].id == qs[j].id);
    assert(i == j);
}

/// With unique message ids, looking a contained message up by its id gives
/// back exactly that message.
pub proof fn lemma_msg_with_id_is(ms: Seq<Message>, m: Message)
    requires
        forall|i: int, j: int| 0 <= i < j < ms.len() ==> ms[i].id != ms[j].id,
        ms.contains(m),
    ensures
        has_msg_id(ms, m.id),
        msg_with_id(ms, m.id) == m,
{
    let j = choose|j: int| 0 <= j < ms.len() && ms[j] == m;
    assert(ms[j].id == m.id);
    let i = choose|i: int| 0 <= i < ms.len() && ms[i].id == m.id;
    assert(ms[i].id == ms[j].id);
    assert(i == j);
}

/// Filtering keeps only elements of the original sequence, and keeps any
/// strictly increasing key strictly increasing.
pub proof fn lemma_filter_ordered<A>(s: Seq<A>, pred: spec_fn(A) -> bool, key: spec_fn(A) -> i64)
    requires
        forall|i: int, j: int| #![trigger s[i], s[j]] 0 <= i < j < s.len() ==> key(s[i]) < key(s[j]),
    ensures
        forall|k: int| 0 <= k < s.filter(pred).len() ==> s.contains(#[trigger] s.filter(pred)[k]),
        forall|i: int, j: int|
            #![trigger s.filter(pred)[i], s.filter(pred)[j]]
            0 <= i < j < s.filter(pred).len() ==> key(s.filter(pred)[i]) < key(s.filter(pred)[j]),
    decreases s.len(),
{
    reveal(Seq::filter);
    if s.len() > 0 {
        let d = s.drop_last();
        let df = d.filter(pred);
        lemma_filter_ordered(d, pred, key);
        assert forall|k: int| 0 <= k < df.len() implies s.contains(df[k]) by {
            let i = choose|i: int| 0 <= i < d.len() && d[i] == df[k];
            assert(s[i] == df[k]);
        }
        if pred(s.last()) {
            let sf = s.filter(pred);
            assert(sf == df.push(s.last()));
            assert forall|i: int, j: int|
                #![trigger sf[i], sf[j]]
                0 <= i < j < sf.len() implies key(sf[i]) < key(sf[j]) by {
                if j < sf.len() - 1 {
                    assert(sf[i] == df[i] && sf[j] == df[j]);
                } else {
                    assert(sf[j] == s.last());
                    assert(sf[i] == df[i]);
                    let n = choose|n: int| 0 <= n < d.len() && d[n] == df[i];
                    assert(s[n] == df[i]);
                    assert(key(s[n]) < key(s[s.len() - 1]));
                }
            }
        }
    }
}

/// Every element a filter keeps comes from the original sequence.
pub proof fn lemma_filter_subset<A>(s: Seq<A>, pred: spec_fn(A) -> bool)
    ensures
        forall|k: int| 0 <= k < s.filter(pred).len() ==> s.contains(#[trigger] s.filter(pred)[k]),
    decreases s.len(),
{
    reveal(Seq::filter);
    if s.len() > 0 {
        let d = s.drop_last();
        let df = d.filter(pred);
        lemma_filter_subset(d, pred);
        assert forall|k: int| 0 <= k < df.len() implies s.contains(df[k]) by {
            let i = choose|i: int| 0 <= i < d.len() && d[i] == df[k];
            assert(s[i] == df[k]);
        }
    }
}

/// If some element fails the predicate, the filter result is strictly
/// shorter.
pub proof fn lemma_filter_len_lt<A>(s: Seq<A>, pred: spec_fn(A) -> bool, i: int)
    requires
        0 <= i < s.len(),
        !pred(s[i]),
    ensures
        s.filter(pred).len() < s.len(),
    decreases s.len(),
{
    reveal(Seq::filter);
    s.lemma_filter_len(pred);
    if s.len() > 0 {
        let d = s.drop_last();
        if i < s.len() - 1 {
            lemma_filter_len_lt(d, pred, i);
        } else {
            d.lemma_filter_len(pred);
        }
    }
}

/// If every element passes the predicate, the filter keeps the sequence.
pub proof fn lemma_filter_all<A>(s: Seq<A>, pred: spec_fn(A) -> bool)
    requires
        forall|i: int| 0 <= i < s.len() ==> pred(#[trigger] s[i]),
    ensures
        s.filter(pred) == s,
    decreases s.len(),
{
    reveal(Seq::filter);
    if s.len() > 0 {
        let d = s.drop_last();
        lemma_filter_all(d, pred);
        assert(s.filter(pred) =~= s);
    }
}

/// Filtering the message relation of a well-formed store leaves every kept
/// row well formed and the ids still ascending.
pub proof fn lemma_filtered_messages_wf(s0: Store, pred: spec_fn(Message) -> bool)
    requires
        s0.wf(),
    ensures
        ids_ascending(s0.messages@.filter(pred)),
        forall|k: int|
            0 <= k < s0.messages@.filter(pred).len()
                ==> msg_ok(s0.queues@, #[trigger] s0.messages@.filter(pred)[k], s0.next_message_id),
{
    let ms = s0.messages@;
    let mf = ms.filter(pred);
    lemma_filter_ordered(ms, pred, |m: Message| m.id);
    assert forall|k: int| 0 <= k < mf.len() implies msg_ok(
        s0.queues@,
        #[trigger] mf[k],
        s0.next_message_id,
    ) by {
        let n = choose|n: int| 0 <= n < ms.len() && ms[n] == mf[k];
        assert(msg_ok(s0.queues@, ms[n], s0.next_message_id));
    }
}

/// Filtering the queue relation of a well-formed store leaves the ids
/// ascending, the names unique, and every kept row well formed.
pub proof fn lemma_filtered_queues_wf(s0: Store, pred: spec_fn(Queue) -> bool)
    requires
        s0.wf(),
    ensures
        qids_ascending(s0.queues@.filter(pred)),
        forall|i: int, j: int|
            #![trigger s0.queues@.filter(pred)[i], s0.queues@.filter(pred)[j]]
            0 <= i < s0.queues@.filter(pred).len() && 0 <= j < s0.queues@.filter(pred).len() && i
                != j ==> s0.queues@.filter(pred)[i].name@ != s0.queues@.filter(pred)[j].name@,
        forall|k: int|
            0 <= k < s0.queues@.filter(pred).len()
                ==> queue_ok(#[trigger] s0.queues@.filter(pred)[k], s0.next_queue_id),
{
    let qs = s0.queues@;
    let qf = qs.filter(pred);
    lemma_filter_ordered(qs, pred, |q: Queue| q.id);
    assert forall|k: int| 0 <= k < qf.len() implies queue_ok(
        #[trigger] qf[k],
        s0.next_queue_id,
    ) by {
        let n = choose|n: int| 0 <= n < qs.len() && qs[n] == qf[k];
        assert(queue_ok(qs[n], s0.next_queue_id));
    }
    assert forall|i: int, j: int|
        #![trigger qf[i], qf[j]]
        0 <= i < qf.len() && 0 <= j < qf.len() && i != j implies qf[i].name@ != qf[j].name@ by {
        let n = choose|n: int| 0 <= n < qs.len() && qs[n] == qf[i];
        let m = choose|m: int| 0 <= m < qs.len() && qs[m] == qf[j];
        if i < j {
            assert(qf[i].id < qf[j].id);
        } else {
            assert(qf[j].id < qf[i].id);
        }
        assert(n != m);
    }
}

/// Message rows stay well formed when the queue relation only gains rows or
/// keeps every owner: any queue contained before and still contained after,
/// with unique ids after, supports the same messages.
pub proof fn lemma_msg_ok_stable(
    pre_qs: Seq<Queue>,
    post_qs: Seq<Queue>,
    m: Message,
    next: i64,
)
    requires
        msg_ok(pre_qs, m, next),
        forall|i: int, j: int| 0 <= i < j < pre_qs.len() ==> pre_qs[i].id != pre_qs[j].id,
        forall|i: int, j: int| 0 <= i < j < post_qs.len() ==> post_qs[i].id != post_qs[j].id,
        post_qs.contains(queue_with_id(pre_qs, m.queue_id)),
    ensures
        msg_ok(post_qs, m, next),
{
    let owner = queue_with_id(pre_qs, m.queue_id);
    assert(owner.id == m.queue_id);
    lemma_queue_with_id_is(post_qs, owner);
}

/// Inserting into a sequence adds exactly one membership.
pub proof fn lemma_insert_contains<A>(s: Seq<A>, pos: int, x: A)
    requires
        0 <= pos <= s.len(),
    ensures
        forall|y: A| s.insert(pos, x).contains(y) <==> (s.contains(y) || y == x),
{
    s.insert_ensures(pos, x);
    let t = s.insert(pos, x);
    assert forall|y: A| t.contains(y) implies (s.contains(y) || y == x) by {
        let i = choose|i: int| 0 <= i < t.len() && t[i] == y;
        if i < pos {
            assert(s[i] == y);
        } else if i == pos {
        } else {
            assert(t[(i - 1) + 1] == s[i - 1]);
            assert(s[i - 1] == y);
        }
    }
    assert forall|y: A| (s.contains(y) || y == x) implies t.contains(y) by {
        if s.contains(y) {
            let i = choose|i: int| 0 <= i < s.len() && s[i] == y;
            if i < pos {
                assert(t[i] == y);
            } else {
                assert(t[i + 1] == y);
            }
        } else {
            assert(t[pos] == y);
        }
    }
}

/// Inserting a fresh element keeps a sequence duplicate-free.
pub proof fn lemma_insert_no_dup<A>(s: Seq<A>, pos: int, x: A)
    requires
        0 <= pos <= s.len(),
        s.no_duplicates(),
        !s.contains(x),
    ensures
        s.insert(pos, x).no_duplicates(),
{
    s.insert_ensures(pos, x);
    let t = s.insert(pos, x);
    assert forall|i: int, j: int| 0 <= i < t.len() && 0 <= j < t.len() && i != j implies t[i]
        != t[j] by {
        if i == pos {
            if j < pos {
                assert(t[j] == s[j]);
            } else {
                assert(t[(j - 1) + 1] == s[j - 1]);
            }
        } else if j == pos {
            if i < pos {
                assert(t[i] == s[i]);
            } else {
                assert(t[(i - 1) + 1] == s[i - 1]);
            }
        } else {
            let si = if i < pos { i } else { i - 1 };
            let sj = if j < pos { j } else { j - 1 };
            if i >= pos {
                assert(t[(i - 1) + 1] == s[i - 1]);
            }
            if j >= pos {
                assert(t[(j - 1) + 1] == s[j - 1]);
            }
            assert(t[i] == s[si] && t[j] == s[sj]);
            assert(si != sj);
        }
    }
}

/// Inserting between its neighbours keeps the delivery order strict.
pub proof fn lemma_insert_sorted(s: Seq<Message>, pos: int, x: Message)
    requires
        0 <= pos <= s.len(),
        sorted_by_key(s),
        forall|k: int| 0 <= k < pos ==> msg_lt(#[trigger] s[k], x),
        forall|k: int| pos <= k < s.len() ==> msg_lt(x, #[trigger] s[k]),
    ensures
        sorted_by_key(s.insert(pos, x)),
{
    s.insert_ensures(pos, x);
    let t = s.insert(pos, x);
    assert forall|i: int, j: int| 0 <= i < j < t.len() implies msg_lt(t[i], t[j]) by {
        if i >= pos && i != pos {
            assert(t[(i - 1) + 1] == s[i - 1]);
        }
        if j >= pos && j != pos {
            assert(t[(j - 1) + 1] == s[j - 1]);
        }
        if i == pos {
            assert(t[j] == s[j - 1]);
        } else if j == pos {
            assert(t[i] == s[i]);
        }
    }
}

/// Pushing onto a sequence adds exactly one membership.
pub proof fn lemma_push_contains<A>(s: Seq<A>, x: A)
    ensures
        forall|y: A| s.push(x).contains(y) <==> (s.contains(y) || y == x),
{
    let t = s.push(x);
    assert forall|y: A| t.contains(y) implies (s.contains(y) || y == x) by {
        let i = choose|i: int| 0 <= i < t.len() && t[i] == y;
        if i < s.len() {
            assert(s[i] == y);
        }
    }
    assert forall|y: A| (s.contains(y) || y == x) implies t.contains(y) by {
        if s.contains(y) {
            let i = choose|i: int| 0 <= i < s.len() && s[i] == y;
            assert(t[i] == y);
        } else {
            assert(t[s.len() as int] == y);
        }
    }
}

/// Two duplicate-free sequences with the same members have the same length.
pub proof fn lemma_same_elems_same_len<A>(a: Seq<A>, b: Seq<A>)
    requires
        a.no_duplicates(),
        b.no_duplicates(),
        forall|x: A| a.contains(x) <==> b.contains(x),
    ensures
        a.len() == b.len(),
{
    a.unique_seq_to_set();
    b.unique_seq_to_set();
    assert(a.to_set() =~= b.to_set());
}

/// A sequence strictly sorted in delivery order has no duplicate elements.
pub proof fn lemma_sorted_no_dup(s: Seq<Message>)
    requires
        sorted_by_key(s),
    ensures
        s.no_duplicates(),
{
    assert forall|i: int, j: int| 0 <= i < s.len() && 0 <= j < s.len() && i != j implies s[i]
        != s[j] by {
        if i < j {
            assert(msg_lt(s[i], s[j]));
        } else {
            assert(msg_lt(s[j], s[i]));
        }
    }
}

/// With strictly ascending ids, two contained messages with the same id are
/// the same message.
pub proof fn lemma_same_id_same_msg(ms: Seq<Message>, a: Message, b: Message)
    requires
        ids_ascending(ms),
        ms.contains(a),
        ms.contains(b),
        a.id == b.id,
    ensures
        a == b,
{
    let i = choose|i: int| 0 <= i < ms.len() && ms[i] == a;
    let j = choose|j: int| 0 <= j < ms.len() && ms[j] == b;
    if i < j {
        assert(ms[i].id < ms[j].id);
    } else if j < i {
        assert(ms[j].id < ms[i].id);
    }
}

/// A sequence with strictly ascending ids has no duplicate elements.
pub proof fn lemma_ascending_no_dup(ms: Seq<Message>)
    requires
        ids_ascending(ms),
    ensures
        ms.no_duplicates(),
{
    assert forall|i: int, j: int| 0 <= i < ms.len() && 0 <= j < ms.len() && i != j implies ms[i]
        != ms[j] by {
        if i < j {
            assert(ms[i].id < ms[j].id);
        } else {
            assert(ms[j].id < ms[i].id);
        }
    }
}

} // verus!
