//! The message queues: stored records, the per-queue model, and the
//! operations `send_message`, `receive_messages`, `peek_messages`,
//! `query_messages` and `delete_message`.

use vstd::prelude::*;

use crate::db::{byte_len, Database, DbError, DbResult, MAX_MESSAGE_LIMIT, MAX_MESSAGE_SIZE};
use crate::strings::{blank, digits_val, is_blank, parse_message_id, str_eq, valid_id_string};

verus! {

/// One stored message, with its queue coordinates.
pub struct StoredMessage {
    /// Unique id, assigned from the engine's counter at creation.
    pub id: u64,
    /// The queue namespace.
    pub project_id: String,
    /// The queue key within the project.
    pub to_agent: String,
    /// The sender.
    pub from_agent: String,
    /// Optional id of a prior message, for request/response correlation;
    /// not checked against existence.
    pub reference_id: Option<String>,
    /// The content, at most `MAX_MESSAGE_SIZE` bytes.
    pub content: String,
    /// Milliseconds since the Unix epoch, assigned at insertion.
    pub created_at: i64,
}

/// A message as queries return it: the stored record without its queue
/// coordinates.
pub struct Message {
    /// Unique message identifier.
    pub id: u64,
    /// Agent that sent this message.
    pub from_agent: String,
    /// Optional reference to a previous message.
    pub reference_id: Option<String>,
    /// Message content.
    pub content: String,
    /// Milliseconds since the Unix epoch, assigned when the message was sent.
    pub created_at: i64,
}

/// A well-formed stored message: non-blank coordinates and sender, content
/// within bounds.
pub open spec fn valid_stored(m: StoredMessage) -> bool {
    &&& !blank(m.project_id@)
    &&& !blank(m.to_agent@)
    &&& !blank(m.from_agent@)
    &&& byte_len(m.content@) <= MAX_MESSAGE_SIZE
}

/// Whether `m` belongs to the queue of `agent` under `pid`.
pub open spec fn in_queue(m: StoredMessage, pid: Seq<char>, agent: Seq<char>) -> bool {
    m.project_id@ == pid && m.to_agent@ == agent
}

/// The queue of `agent` under `pid`: the stored messages with those
/// coordinates, in stored (creation) order.
pub open spec fn queue_of(ms: Seq<StoredMessage>, pid: Seq<char>, agent: Seq<char>) -> Seq<
    StoredMessage,
>
    decreases ms.len(),
{
    if ms.len() == 0 {
        Seq::empty()
    } else if in_queue(ms.first(), pid, agent) {
        seq![ms.first()] + queue_of(ms.drop_first(), pid, agent)
    } else {
        queue_of(ms.drop_first(), pid, agent)
    }
}

/// Queues distribute over concatenation.
pub proof fn lemma_queue_concat(a: Seq<StoredMessage>, b: Seq<StoredMessage>, pid: Seq<char>, agent: Seq<char>)
    ensures
        queue_of(a + b, pid, agent) == queue_of(a, pid, agent) + queue_of(b, pid, agent),
    decreases a.len(),
{
    if a.len() == 0 {
        assert(a + b =~= b);
        assert(queue_of(a, pid, agent) + queue_of(b, pid, agent) =~= queue_of(b, pid, agent));
    } else {
        assert((a + b).first() == a.first());
        assert((a + b).drop_first() =~= a.drop_first() + b);
        lemma_queue_concat(a.drop_first(), b, pid, agent);
        if in_queue(a.first(), pid, agent) {
            assert(seq![a.first()] + (queue_of(a.drop_first(), pid, agent) + queue_of(
                b,
                pid,
                agent,
            )) =~= (seq![a.first()] + queue_of(a.drop_first(), pid, agent)) + queue_of(
                b,
                pid,
                agent,
            ));
        }
    }
}

/// Appending a message appends it to its own queue and leaves every other
/// queue unchanged.
pub proof fn lemma_queue_push(ms: Seq<StoredMessage>, m: StoredMessage, pid: Seq<char>, agent: Seq<char>)
    ensures
        queue_of(ms.push(m), pid, agent) == if in_queue(m, pid, agent) {
            queue_of(ms, pid, agent).push(m)
        } else {
            queue_of(ms, pid, agent)
        },
{
    let single = seq![m];
    assert(ms.push(m) =~= ms + single);
    lemma_queue_concat(ms, single, pid, agent);
    assert(single.len() == 1);
    assert(single.first() == m);
    assert(single.drop_first() =~= Seq::<StoredMessage>::empty());
    assert(queue_of(Seq::<StoredMessage>::empty(), pid, agent) == Seq::<StoredMessage>::empty());
    if in_queue(m, pid, agent) {
        assert(queue_of(single, pid, agent) == seq![single.first()] + queue_of(
            single.drop_first(),
            pid,
            agent,
        ));
        assert(seq![m] + Seq::<StoredMessage>::empty() =~= seq![m]);
        assert(queue_of(ms, pid, agent) + seq![m] =~= queue_of(ms, pid, agent).push(m));
    } else {
        assert(queue_of(single, pid, agent) == queue_of(single.drop_first(), pid, agent));
        assert(queue_of(ms, pid, agent) + Seq::<StoredMessage>::empty() =~= queue_of(
            ms,
            pid,
            agent,
        ));
    }
}

/// Every queue member is a stored message.
pub proof fn lemma_queue_members(ms: Seq<StoredMessage>, pid: Seq<char>, agent: Seq<char>)
    ensures
        forall|i: int|
            0 <= i < queue_of(ms, pid, agent).len() ==> ms.contains(
                #[trigger] queue_of(ms, pid, agent)[i],
            ) && in_queue(queue_of(ms, pid, agent)[i], pid, agent),
    decreases ms.len(),
{
    if ms.len() > 0 {
        lemma_queue_members(ms.drop_first(), pid, agent);
        let q = queue_of(ms, pid, agent);
        let qrest = queue_of(ms.drop_first(), pid, agent);
        assert forall|i: int| 0 <= i < q.len() implies ms.contains(#[trigger] q[i]) && in_queue(
            q[i],
            pid,
            agent,
        ) by {
            if in_queue(ms.first(), pid, agent) {
                if i == 0 {
                    assert(q[i] == ms.first());
                    assert(ms[0] == ms.first());
                } else {
                    assert(q[i] == qrest[i - 1]);
                    let j = choose|j: int| 0 <= j < ms.drop_first().len() && ms.drop_first()[j] == qrest[i - 1];
                    assert(ms[j + 1] == qrest[i - 1]);
                }
            } else {
                assert(q[i] == qrest[i]);
                let j = choose|j: int| 0 <= j < ms.drop_first().len() && ms.drop_first()[j] == qrest[i];
                assert(ms[j + 1] == qrest[i]);
            }
        }
    }
}

/// A queue drawn from messages with strictly increasing ids has strictly
/// increasing ids itself.
pub proof fn lemma_queue_sorted(ms: Seq<StoredMessage>, pid: Seq<char>, agent: Seq<char>)
    requires
        forall|i: int, j: int| 0 <= i < j < ms.len() ==> ms[i].id < ms[j].id,
    ensures
        forall|i: int, j: int|
            0 <= i < j < queue_of(ms, pid, agent).len() ==> queue_of(ms, pid, agent)[i].id
                < queue_of(ms, pid, agent)[j].id,
    decreases ms.len(),
{
    if ms.len() > 0 {
        let rest = ms.drop_first();
        assert(forall|i: int, j: int| 0 <= i < j < rest.len() ==> rest[i].id < rest[j].id) by {
            assert(forall|i: int| 0 <= i < rest.len() ==> rest[i] == ms[i + 1]);
        }
        lemma_queue_sorted(rest, pid, agent);
        lemma_queue_members(rest, pid, agent);
        let q = queue_of(ms, pid, agent);
        let qrest = queue_of(rest, pid, agent);
        assert forall|i: int, j: int| 0 <= i < j < q.len() implies q[i].id < q[j].id by {
            if in_queue(ms.first(), pid, agent) {
                assert(q == seq![ms.first()] + qrest);
                if i == 0 {
                    assert(q[j] == qrest[j - 1]);
                    assert(rest.contains(qrest[j - 1]));
                    let w = choose|w: int| 0 <= w < rest.len() && rest[w] == qrest[j - 1];
                    assert(rest[w] == ms[w + 1]);
                    assert(ms[0].id < ms[w + 1].id);
                    assert(q[i] == ms.first());
                    assert(ms.first() == ms[0]);
                } else {
                    assert(q[i] == qrest[i - 1]);
                    assert(q[j] == qrest[j - 1]);
                }
            } else {
                assert(q[i] == qrest[i]);
                assert(q[j] == qrest[j]);
            }
        }
    }
}

/// Whether `p` is the stored message `m` without its queue coordinates.
pub open spec fn is_payload_of(p: Message, m: StoredMessage) -> bool {
    &&& p.id == m.id
    &&& p.from_agent@ == m.from_agent@
    &&& match (p.reference_id, m.reference_id) {
        (Some(a), Some(b)) => a@ == b@,
        (None, None) => true,
        _ => false,
    }
    &&& p.content@ == m.content@
    &&& p.created_at == m.created_at
}

/// The limit a query works with: 100 when the caller gave none, and never
/// more than `MAX_MESSAGE_LIMIT`.
pub open spec fn effective_limit(limit: Option<u32>) -> u32 {
    match limit {
        None => 100,
        Some(l) => if l > MAX_MESSAGE_LIMIT {
            MAX_MESSAGE_LIMIT
        } else {
            l
        },
    }
}

/// Executable form of [`effective_limit`].
pub fn capped_limit(limit: Option<u32>) -> (r: u32)
    ensures
        r == effective_limit(limit),
{
    match limit {
        None => 100,
        Some(l) => if l > MAX_MESSAGE_LIMIT {
            MAX_MESSAGE_LIMIT
        } else {
            l
        },
    }
}

/// How many messages a query on queue `q` returns under `limit`.
pub open spec fn delivered_count(q: Seq<StoredMessage>, limit: Option<u32>) -> int {
    if q.len() < effective_limit(limit) as int {
        q.len() as int
    } else {
        effective_limit(limit) as int
    }
}

/// Exactly-once delivery: in a well-formed store the first `n` messages of a
/// queue share no id with the rest of the queue, so a message returned by
/// `receive_messages` — which hands out the first `n` and leaves the rest —
/// is never returned by any later `receive_messages` or `peek_messages`.
pub proof fn lemma_receive_exactly_once(db: Database, pid: Seq<char>, agent: Seq<char>, n: int)
    requires
        db.wf(),
        0 <= n,
    ensures
        forall|i: int, j: int|
            0 <= i < n && n <= j < queue_of(db.messages@, pid, agent).len() ==> queue_of(
                db.messages@,
                pid,
                agent,
            )[i].id != queue_of(db.messages@, pid, agent)[j].id,
{
    lemma_queue_sorted(db.messages@, pid, agent);
}

/// Removing one stored message leaves every queue it does not belong to
/// unchanged: a `delete_message` disturbs only the deleted message's queue.
pub proof fn lemma_remove_one_message(ms: Seq<StoredMessage>, i: int, p: Seq<char>, a: Seq<char>)
    requires
        0 <= i < ms.len(),
        !in_queue(ms[i], p, a),
    ensures
        queue_of(ms.remove(i), p, a) == queue_of(ms, p, a),
{
    let head = ms.take(i);
    let tail = ms.skip(i + 1);
    assert(ms =~= head + (seq![ms[i]] + tail));
    assert(ms.remove(i) =~= head + tail);
    lemma_queue_concat(head, seq![ms[i]] + tail, p, a);
    lemma_queue_concat(seq![ms[i]], tail, p, a);
    lemma_queue_concat(head, tail, p, a);
    let single = seq![ms[i]];
    assert(single.first() == ms[i]);
    assert(single.drop_first() =~= Seq::<StoredMessage>::empty());
    assert(queue_of(Seq::<StoredMessage>::empty(), p, a) == Seq::<StoredMessage>::empty());
    assert(queue_of(single, p, a) == queue_of(single.drop_first(), p, a));
    assert(queue_of(head, p, a) + (Seq::<StoredMessage>::empty() + queue_of(tail, p, a))
        =~= queue_of(head, p, a) + queue_of(tail, p, a));
}

impl Database {
    /// Sends a message: validates the queue coordinates, the sender and the
    /// content size, then appends the message to the tail of its queue with
    /// a fresh id and the current timestamp. Returns the assigned id.
    ///
    /// Fails with `EmptyField` naming the first blank input, with
    /// `ContentTooLarge` when the content exceeds `MAX_MESSAGE_SIZE` bytes,
    /// and with `StorageUnavailable` when the id space is exhausted; nothing
    /// is written in any of these cases.
    pub fn send_message(
        &mut self,
        project_id: &str,
        to_agent: &str,
        from_agent: &str,
        content: &str,
        reference_id: Option<&str>,
    ) -> (r: DbResult<u64>)
        requires
            old(self).wf(),
        ensures
            final(self).wf(),
            final(self).contexts@ == old(self).contexts@,
            final(self).clock >= old(self).clock,
            r is Ok <==> {
                &&& !blank(project_id@)
                &&& !blank(to_agent@)
                &&& !blank(from_agent@)
                &&& byte_len(content@) <= MAX_MESSAGE_SIZE
                &&& old(self).next_id < u64::MAX
            },
            match r {
                Ok(id) => {
                    &&& id == old(self).next_id
                    &&& final(self).next_id == old(self).next_id + 1
                    &&& final(self).messages@.len() == old(self).messages@.len() + 1
                    &&& final(self).messages@.drop_last() == old(self).messages@
                    &&& ({
                        let m = final(self).messages@.last();
                        &&& m.id == id
                        &&& m.project_id@ == project_id@
                        &&& m.to_agent@ == to_agent@
                        &&& m.from_agent@ == from_agent@
                        &&& match (reference_id, m.reference_id) {
                            (Some(a), Some(b)) => b@ == a@,
                            (None, None) => true,
                            _ => false,
                        }
                        &&& m.content@ == content@
                        &&& m.created_at == final(self).clock
                    })
                    &&& queue_of(final(self).messages@, project_id@, to_agent@) == queue_of(
                        old(self).messages@,
                        project_id@,
                        to_agent@,
                    ).push(final(self).messages@.last())
                    &&& forall|p: Seq<char>, a: Seq<char>|
                        !(p == project_id@ && a == to_agent@) ==> #[trigger] queue_of(
                            final(self).messages@,
                            p,
                            a,
                        ) == queue_of(old(self).messages@, p, a)
                },
                Err(e) => {
                    &&& final(self).messages@ == old(self).messages@
                    &&& final(self).next_id == old(self).next_id
                    &&& final(self).clock == old(self).clock
                    &&& match e {
                        DbError::EmptyField { field } => {
                            ||| field@ == "project_id"@ && blank(project_id@)
                            ||| field@ == "to_agent"@ && !blank(project_id@) && blank(to_agent@)
                            ||| field@ == "from_agent"@ && !blank(project_id@) && !blank(to_agent@)
                                && blank(from_agent@)
                        },
                        DbError::ContentTooLarge { size, limit } => {
                            &&& !blank(project_id@)
                            &&& !blank(to_agent@)
                            &&& !blank(from_agent@)
                            &&& size == byte_len(content@)
                            &&& limit == MAX_MESSAGE_SIZE
                            &&& size > limit
                        },
                        DbError::StorageUnavailable => {
                            &&& !blank(project_id@)
                            &&& !blank(to_agent@)
                            &&& !blank(from_agent@)
                            &&& byte_len(content@) <= MAX_MESSAGE_SIZE
                            &&& old(self).next_id == u64::MAX
                        },
                        _ => false,
                    }
                },
            },
    {
        if is_blank(project_id) {
            return Err(DbError::EmptyField { field: "project_id" });
        }
        if is_blank(to_agent) {
            return Err(DbError::EmptyField { field: "to_agent" });
        }
        if is_blank(from_agent) {
            return Err(DbError::EmptyField { field: "from_agent" });
        }
        if content.len() > MAX_MESSAGE_SIZE {
            return Err(DbError::ContentTooLarge { size: content.len(), limit: MAX_MESSAGE_SIZE });
        }
        if self.next_id == u64::MAX {
            return Err(DbError::StorageUnavailable);
        }
        let t = self.touch_clock();
        let id = self.next_id;
        self.next_id = id + 1;
        let m = StoredMessage {
            id,
            project_id: project_id.to_owned(),
            to_agent: to_agent.to_owned(),
            from_agent: from_agent.to_owned(),
            reference_id: match reference_id {
                Some(s) => Some(s.to_owned()),
                None => None,
            },
            content: content.to_owned(),
            created_at: t,
        };
        let ghost before = self.messages@;
        self.messages.push(m);
        proof {
            assert(self.messages@.drop_last() =~= before);
            let last = self.messages@.last();
            lemma_queue_push(before, last, project_id@, to_agent@);
            assert forall|p: Seq<char>, a: Seq<char>| !(p == project_id@ && a == to_agent@) implies
                #[trigger] queue_of(self.messages@, p, a) == queue_of(before, p, a) by {
                lemma_queue_push(before, last, p, a);
                assert(!in_queue(last, p, a));
            }
        }
        Ok(id)
    }

    /// The first `limit` messages of the queue of `agent_id` under
    /// `project_id`, oldest first, without removing them.
    #[verifier::loop_isolation(false)]
    fn query_messages(&self, project_id: &str, agent_id: &str, limit: u32) -> (r: Vec<Message>)
        requires
            self.wf(),
        ensures
            ({
                let q = queue_of(self.messages@, project_id@, agent_id@);
                let n = if q.len() < limit as int {
                    q.len() as int
                } else {
                    limit as int
                };
                &&& r@.len() == n
                &&& forall|i: int| 0 <= i < n ==> is_payload_of(#[trigger] r@[i], q[i])
            }),
    {
        let ghost pid = project_id@;
        let ghost ag = agent_id@;
        let nlim = limit as usize;
        let mut out: Vec<Message> = Vec::new();
        let mut i: usize = 0;
        while i < self.messages.len() && out.len() < nlim
            invariant
                i <= self.messages@.len(),
                out@.len() <= nlim,
                nlim == limit as usize,
                ({
                    let qi = queue_of(self.messages@.take(i as int), pid, ag);
                    &&& out@.len() == qi.len()
                    &&& forall|j: int| 0 <= j < qi.len() ==> is_payload_of(#[trigger] out@[j], qi[j])
                }),
            decreases self.messages@.len() - i,
        {
            proof {
                assert(self.messages@.take(i as int + 1) =~= self.messages@.take(i as int).push(
                    self.messages@[i as int],
                ));
                lemma_queue_push(self.messages@.take(i as int), self.messages@[i as int], pid, ag);
            }
            let m = &self.messages[i];
            if str_eq(m.project_id.as_str(), project_id) && str_eq(m.to_agent.as_str(), agent_id) {
                let msg = Message {
                    id: m.id,
                    from_agent: m.from_agent.clone(),
                    reference_id: match &m.reference_id {
                        Some(s) => Some(s.clone()),
                        None => None,
                    },
                    content: m.content.clone(),
                    created_at: m.created_at,
                };
                out.push(msg);
            }
            i = i + 1;
        }
        proof {
            let q = queue_of(self.messages@, pid, ag);
            let qi = queue_of(self.messages@.take(i as int), pid, ag);
            if i == self.messages@.len() {
                assert(self.messages@.take(i as int) =~= self.messages@);
            } else {
                assert(self.messages@ =~= self.messages@.take(i as int) + self.messages@.skip(
                    i as int,
                ));
                lemma_queue_concat(
                    self.messages@.take(i as int),
                    self.messages@.skip(i as int),
                    pid,
                    ag,
                );
                assert(out@.len() == nlim);
                assert forall|j: int| 0 <= j < nlim implies q[j] == qi[j] by {
                    assert(q == qi + queue_of(self.messages@.skip(i as int), pid, ag));
                }
            }
        }
        out
    }

    /// Peeks at the queue of `agent_id` under `project_id`: the oldest
    /// pending messages, up to the capped limit, in creation order. The
    /// store is not changed, so repeated peeks return the same messages
    /// until a send, receive or delete changes the queue.
    pub fn peek_messages(&self, project_id: &str, agent_id: &str, limit: Option<u32>) -> (r:
        DbResult<Vec<Message>>)
        requires
            self.wf(),
        ensures
            match r {
                Ok(v) => ({
                    let q = queue_of(self.messages@, project_id@, agent_id@);
                    &&& v@.len() == delivered_count(q, limit)
                    &&& forall|i: int|
                        0 <= i < v@.len() ==> is_payload_of(#[trigger] v@[i], q[i])
                }),
                Err(_) => false,
            },
    {
        let lim = capped_limit(limit);
        Ok(self.query_messages(project_id, agent_id, lim))
    }

    /// Receives from the queue of `agent_id` under `project_id`: atomically
    /// selects the oldest pending messages, up to the capped limit, removes
    /// exactly those from the store, and returns them in creation order.
    /// Every other queue, and the context store, is untouched. An empty
    /// queue yields an empty list, not an error.
    #[verifier::loop_isolation(false)]
    pub fn receive_messages(&mut self, project_id: &str, agent_id: &str, limit: Option<u32>) -> (r:
        DbResult<Vec<Message>>)
        requires
            old(self).wf(),
        ensures
            final(self).wf(),
            final(self).contexts@ == old(self).contexts@,
            final(self).next_id == old(self).next_id,
            final(self).clock == old(self).clock,
            match r {
                Ok(v) => ({
                    let q = queue_of(old(self).messages@, project_id@, agent_id@);
                    let n = delivered_count(q, limit);
                    &&& v@.len() == n
                    &&& forall|i: int| 0 <= i < n ==> is_payload_of(#[trigger] v@[i], q[i])
                    &&& queue_of(final(self).messages@, project_id@, agent_id@) == q.skip(n)
                    &&& forall|p: Seq<char>, a: Seq<char>|
                        !(p == project_id@ && a == agent_id@) ==> #[trigger] queue_of(
                            final(self).messages@,
                            p,
                            a,
                        ) == queue_of(old(self).messages@, p, a)
                }),
                Err(_) => false,
            },
    {
        let ghost pid = project_id@;
        let ghost ag = agent_id@;
        let ghost q = queue_of(self.messages@, pid, ag);
        let lim = capped_limit(limit);
        let out = self.query_messages(project_id, agent_id, lim);
        let k = out.len();
        let ghost n: int = delivered_count(q, limit);
        proof {
            assert(k as int == n);
        }
        let mut kept: Vec<StoredMessage> = Vec::new();
        let mut skipped: usize = 0;
        let mut i: usize = 0;
        while i < self.messages.len()
            invariant
                self.wf(),
                i <= self.messages@.len(),
                skipped <= k,
                k as int <= queue_of(self.messages@, pid, ag).len(),
                ({
                    let qi = queue_of(self.messages@.take(i as int), pid, ag);
                    &&& skipped as int == (if qi.len() < k as int {
                        qi.len() as int
                    } else {
                        k as int
                    })
                    &&& queue_of(kept@, pid, ag) == qi.skip(skipped as int)
                }),
                forall|p: Seq<char>, a: Seq<char>|
                    !(p == pid && a == ag) ==> #[trigger] queue_of(kept@, p, a) == queue_of(
                        self.messages@.take(i as int),
                        p,
                        a,
                    ),
                forall|x: int|
                    0 <= x < kept@.len() ==> #[trigger] valid_stored(kept@[x]) && kept@[x].id
                        < self.next_id && kept@[x].created_at <= self.clock,
                forall|x: int, y: int|
                    0 <= x < y < kept@.len() ==> kept@[x].id < kept@[y].id && kept@[x].created_at
                        <= kept@[y].created_at,
                kept@.len() > 0 && i < self.messages@.len() ==> kept@.last().id
                    < self.messages@[i as int].id && kept@.last().created_at
                    <= self.messages@[i as int].created_at,
            decreases self.messages@.len() - i,
        {
            let ghost qi = queue_of(self.messages@.take(i as int), pid, ag);
            let ghost cur = self.messages@[i as int];
            proof {
                assert(self.messages@.take(i as int + 1) =~= self.messages@.take(i as int).push(
                    cur,
                ));
                lemma_queue_push(self.messages@.take(i as int), cur, pid, ag);
            }
            let m = &self.messages[i];
            let matches_queue = str_eq(m.project_id.as_str(), project_id) && str_eq(
                m.to_agent.as_str(),
                agent_id,
            );
            proof {
                assert(*m == cur);
                assert(matches_queue == in_queue(cur, pid, ag));
            }
            if skipped < k && matches_queue {
                proof {
                    assert(skipped as int == qi.len());
                    assert(queue_of(kept@, pid, ag) =~= qi.push(cur).skip(skipped as int + 1));
                    assert forall|p: Seq<char>, a: Seq<char>| !(p == pid && a == ag) implies
                        #[trigger] queue_of(kept@, p, a) == queue_of(
                        self.messages@.take(i as int + 1),
                        p,
                        a,
                    ) by {
                        lemma_queue_push(self.messages@.take(i as int), cur, p, a);
                        assert(!in_queue(cur, p, a));
                    }
                }
                skipped = skipped + 1;
            } else {
                let copy = StoredMessage {
                    id: m.id,
                    project_id: m.project_id.clone(),
                    to_agent: m.to_agent.clone(),
                    from_agent: m.from_agent.clone(),
                    reference_id: match &m.reference_id {
                        Some(s) => Some(s.clone()),
                        None => None,
                    },
                    content: m.content.clone(),
                    created_at: m.created_at,
                };
                proof {
                    assert(copy == cur);
                }
                let ghost kept_before = kept@;
                kept.push(copy);
                proof {
                    lemma_queue_push(kept_before, cur, pid, ag);
                    if in_queue(cur, pid, ag) {
                        assert(skipped == k);
                        assert(qi.push(cur).skip(skipped as int) =~= qi.skip(skipped as int).push(
                            cur,
                        ));
                    }
                    assert forall|p: Seq<char>, a: Seq<char>| !(p == pid && a == ag) implies
                        #[trigger] queue_of(kept@, p, a) == queue_of(
                        self.messages@.take(i as int + 1),
                        p,
                        a,
                    ) by {
                        lemma_queue_push(kept_before, cur, p, a);
                        lemma_queue_push(self.messages@.take(i as int), cur, p, a);
                    }
                }
            }
            i = i + 1;
        }
        proof {
            assert(self.messages@.take(i as int) =~= self.messages@);
            assert(skipped as int == k as int);
            assert(queue_of(kept@, pid, ag) == q.skip(n));
        }
        let ghost before = self.messages@;
        self.messages = kept;
        proof {
            assert forall|p: Seq<char>, a: Seq<char>| !(p == pid && a == ag) implies #[trigger]
                queue_of(self.messages@, p, a) == queue_of(before, p, a) by {
                assert(before.take(before.len() as int) =~= before);
            }
            assert forall|x: int| 0 <= x < self.messages@.len() implies valid_stored(
                #[trigger] self.messages@[x],
            ) && self.messages@[x].id < self.next_id && self.messages@[x].created_at
                <= self.clock by {
                assert(valid_stored(kept@[x]) && kept@[x].id < self.next_id && kept@[x].created_at
                    <= self.clock);
            }
        }
        Ok(out)
    }

    /// Index of the message with id `id`, if any.
    fn find_msg_index(&self, id: u64) -> (r: Option<usize>)
        ensures
            match r {
                Some(i) => i < self.messages@.len() && self.messages@[i as int].id == id,
                None => forall|j: int|
                    0 <= j < self.messages@.len() ==> (#[trigger] self.messages@[j]).id != id,
            },
    {
        let mut i: usize = 0;
        while i < self.messages.len()
            invariant
                i <= self.messages@.len(),
                forall|j: int| 0 <= j < i ==> (#[trigger] self.messages@[j]).id != id,
            decreases self.messages@.len() - i,
        {
            if self.messages[i].id == id {
                return Some(i);
            }
            i = i + 1;
        }
        None
    }

    /// Deletes a single message by its id, regardless of queue. Returns
    /// whether a message was removed: deleting an absent id is not an
    /// error, but an id that is not a decimal number fails with
    /// `InvalidMessageId` before anything is looked up.
    pub fn delete_message(&mut self, message_id: &str) -> (r: DbResult<bool>)
        requires
            old(self).wf(),
        ensures
            final(self).wf(),
            final(self).contexts@ == old(self).contexts@,
            final(self).next_id == old(self).next_id,
            final(self).clock == old(self).clock,
            r is Ok <==> valid_id_string(message_id@),
            match r {
                Ok(b) => {
                    let id = digits_val(message_id@);
                    if b {
                        exists|i: int|
                            0 <= i < old(self).messages@.len() && (#[trigger] old(
                                self,
                            ).messages@[i]).id == id && final(self).messages@ == old(
                                self,
                            ).messages@.remove(i)
                    } else {
                        &&& forall|i: int|
                            0 <= i < old(self).messages@.len() ==> (#[trigger] old(
                                self,
                            ).messages@[i]).id != id
                        &&& final(self).messages@ == old(self).messages@
                    }
                },
                Err(e) => {
                    &&& final(self).messages@ == old(self).messages@
                    &&& match e {
                        DbError::InvalidMessageId { id } => id@ == message_id@,
                        _ => false,
                    }
                },
            },
    {
        let id = match parse_message_id(message_id) {
            Some(v) => v,
            None => {
                return Err(DbError::InvalidMessageId { id: message_id.to_owned() });
            },
        };
        match self.find_msg_index(id) {
            Some(i) => {
                let ghost before = self.messages@;
                self.messages.remove(i);
                proof {
                    let after = self.messages@;
                    assert(forall|j: int| 0 <= j < i ==> #[trigger] after[j] == before[j]);
                    assert(forall|j: int|
                        i <= j < after.len() ==> #[trigger] after[j] == before[j + 1]);
                    assert forall|x: int, y: int| 0 <= x < y < after.len() implies after[x].id
                        < after[y].id && after[x].created_at <= after[y].created_at by {
                        let x0 = if x < i { x } else { x + 1 };
                        let y0 = if y < i { y } else { y + 1 };
                        assert(after[x] == before[x0]);
                        assert(after[y] == before[y0]);
                    }
                }
                Ok(true)
            },
            None => Ok(false),
        }
    }
}

} // verus!
