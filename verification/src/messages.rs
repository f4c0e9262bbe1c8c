//! Inter-agent message bus: a persistent-queue model with injection
//! screening and fair priority dispatch.
//!
//! Messages are ordered per recipient by priority (higher first) and then
//! by send order (older first). Send order is tracked by a monotone
//! sequence number, which refines the creation timestamp: a message sent
//! later never carries a smaller number. Popping selects the single best
//! pending message and marks it processed in the same step, so a message
//! is delivered at most once however many consumers share the bus.

use crate::host;
use crate::scan;
use vstd::prelude::*;

verus! {

/// Errors of the message bus. The store and the payload encoder report
/// their failures as text.
#[derive(Debug)]
pub enum MessageBusError {
    DatabaseError(String),
    JsonError(String),
}

impl MessageBusError {
    /// A human-readable rendering of the error.
    pub fn message(&self) -> (r: String)
        ensures
            (self is DatabaseError ==> r@ == "Database error: "@ + self->DatabaseError_0@),
            (self is JsonError ==> r@ == "JSON error: "@ + self->JsonError_0@),
    {
        match self {
            MessageBusError::DatabaseError(what) => String::from_str("Database error: ").concat(
                what.as_str(),
            ),
            MessageBusError::JsonError(what) => String::from_str("JSON error: ").concat(
                what.as_str(),
            ),
        }
    }
}

/// One message between agents.
pub struct AgentMessage {
    pub id: String,
    pub msg_type: String,
    pub sender: String,
    pub recipient: String,
    pub mission_id: String,
    pub priority: i32,
    pub content: String,
    pub payload: String,
    pub created_seq: u64,
    pub created_at: String,
    pub processed_at: Option<String>,
}

/// The bus: all messages ever sent, plus the next send-order number.
pub struct MessageBus {
    pub messages: Vec<AgentMessage>,
    pub next_seq: u64,
}

/// Well-formedness: send-order numbers are strictly increasing along the
/// log and below the next number to hand out.
pub open spec fn bus_wf(b: MessageBus) -> bool {
    &&& forall|i: int, j: int|
        0 <= i < j < b.messages@.len() ==> #[trigger] b.messages@[i].created_seq
            < #[trigger] b.messages@[j].created_seq
    &&& forall|i: int|
        0 <= i < b.messages@.len() ==> #[trigger] b.messages@[i].created_seq < b.next_seq
}

/// Message `m` waits for `recipient`.
pub open spec fn pending_for(m: AgentMessage, recipient: Seq<char>) -> bool {
    m.recipient@ == recipient && m.processed_at is None
}

/// `a` is dispatched before `b`: higher priority first, then older first.
pub open spec fn dispatched_before(a: AgentMessage, b: AgentMessage) -> bool {
    a.priority > b.priority || (a.priority == b.priority && a.created_seq < b.created_seq)
}

/// The payload stored with a message: an injection marker when the screen
/// fires on the content, else the empty object.
pub open spec fn payload_for(content: Seq<char>) -> Seq<char> {
    if scan::injection_hit(vstd::utf8::encode_utf8(content)) {
        "{\"_injection_warning\": true}"@
    } else {
        "{}"@
    }
}

/// What popping for `recipient` does: nothing when no message waits;
/// otherwise exactly the best-placed waiting message is marked processed
/// and handed back.
pub open spec fn pop_post(
    b0: MessageBus,
    b1: MessageBus,
    recipient: Seq<char>,
    r: Option<AgentMessage>,
) -> bool {
    &&& b1.next_seq == b0.next_seq
    &&& b1.messages@.len() == b0.messages@.len()
    &&& (r is None ==> (b1.messages@ == b0.messages@ && (forall|i: int|
        0 <= i < b0.messages@.len() ==> !pending_for(#[trigger] b0.messages@[i], recipient))))
    &&& (r is Some ==> (exists|i: int|
        {
            &&& 0 <= i < b0.messages@.len()
            &&& pending_for(#[trigger] b0.messages@[i], recipient)
            &&& r->Some_0 == b1.messages@[i]
            &&& b1.messages@[i].processed_at is Some
            &&& b1.messages@[i].id == b0.messages@[i].id
            &&& b1.messages@[i].msg_type == b0.messages@[i].msg_type
            &&& b1.messages@[i].sender == b0.messages@[i].sender
            &&& b1.messages@[i].recipient == b0.messages@[i].recipient
            &&& b1.messages@[i].mission_id == b0.messages@[i].mission_id
            &&& b1.messages@[i].priority == b0.messages@[i].priority
            &&& b1.messages@[i].content == b0.messages@[i].content
            &&& b1.messages@[i].payload == b0.messages@[i].payload
            &&& b1.messages@[i].created_seq == b0.messages@[i].created_seq
            &&& (forall|k: int|
                0 <= k < b0.messages@.len() && k != i ==> #[trigger] b1.messages@[k]
                    == b0.messages@[k])
            &&& (forall|k: int|
                (0 <= k < b0.messages@.len() && k != i && pending_for(
                    #[trigger] b0.messages@[k],
                    recipient,
                )) ==> dispatched_before(b0.messages@[i], b0.messages@[k]))
        }))
}

/// At-most-once delivery: two successive pops for the same recipient never
/// hand out the same message (witnessed by its send-order number).
pub proof fn lemma_pop_at_most_once(
    b0: MessageBus,
    b1: MessageBus,
    b2: MessageBus,
    recipient: Seq<char>,
    r1: Option<AgentMessage>,
    r2: Option<AgentMessage>,
)
    requires
        bus_wf(b0),
        pop_post(b0, b1, recipient, r1),
        pop_post(b1, b2, recipient, r2),
        r1 is Some,
        r2 is Some,
    ensures
        r1->Some_0.created_seq != r2->Some_0.created_seq,
{
    let i1 = choose|i: int|
        {
            &&& 0 <= i < b0.messages@.len()
            &&& pending_for(#[trigger] b0.messages@[i], recipient)
            &&& r1->Some_0 == b1.messages@[i]
            &&& b1.messages@[i].processed_at is Some
            &&& b1.messages@[i].created_seq == b0.messages@[i].created_seq
            &&& (forall|k: int|
                0 <= k < b0.messages@.len() && k != i ==> #[trigger] b1.messages@[k]
                    == b0.messages@[k])
        };
    let i2 = choose|i: int|
        {
            &&& 0 <= i < b1.messages@.len()
            &&& pending_for(#[trigger] b1.messages@[i], recipient)
            &&& r2->Some_0 == b2.messages@[i]
            &&& b2.messages@[i].created_seq == b1.messages@[i].created_seq
        };
    assert(b1.messages@[i1].processed_at is Some);
    assert(b1.messages@[i2].processed_at is None);
    assert(i1 != i2);
    if i1 < i2 {
        assert(b0.messages@[i1].created_seq < b0.messages@[i2].created_seq);
    } else {
        assert(b0.messages@[i2].created_seq < b0.messages@[i1].created_seq);
    }
    assert(b1.messages@[i2] == b0.messages@[i2]);
}

/// Some message of `ms` waits for `recip`.
pub open spec fn some_pending_for(ms: Seq<AgentMessage>, recip: Seq<char>) -> bool {
    exists|i: int| 0 <= i < ms.len() && pending_for(#[trigger] ms[i], recip)
}

/// `recip` stands somewhere in the recipient list `rs`.
pub open spec fn recipient_listed(rs: Seq<String>, recip: Seq<char>) -> bool {
    exists|k: int| 0 <= k < rs.len() && #[trigger] rs[k]@ == recip
}

impl MessageBus {
    /// An empty bus.
    pub fn new() -> (b: MessageBus)
        ensures
            bus_wf(b),
            b.messages@.len() == 0,
            b.next_seq == 0,
    {
        MessageBus { messages: Vec::new(), next_seq: 0 }
    }

    /// Append a message for `recipient`. The content is screened for
    /// prompt injection: a hit is recorded in the stored payload but does
    /// not block delivery. Returns the fresh message id.
    pub fn send(
        &mut self,
        msg_type: String,
        sender: String,
        recipient: String,
        mission_id: String,
        content: String,
        priority: Option<i32>,
    ) -> (r: String)
        requires
            bus_wf(*old(self)),
            old(self).next_seq < u64::MAX,
        ensures
            bus_wf(*final(self)),
            final(self).next_seq == old(self).next_seq + 1,
            final(self).messages@.len() == old(self).messages@.len() + 1,
            (forall|i: int|
                0 <= i < old(self).messages@.len() ==> #[trigger] final(self).messages@[i] == old(
                    self,
                ).messages@[i]),
            ({
                let m = final(self).messages@.last();
                &&& m.id == r
                &&& r@.len() == 12
                &&& m.msg_type == msg_type
                &&& m.sender == sender
                &&& m.recipient == recipient
                &&& m.mission_id == mission_id
                &&& m.content == content
                &&& m.priority == (match priority {
                    Some(p) => p,
                    None => 1,
                })
                &&& m.payload@ == payload_for(content@)
                &&& m.created_seq == old(self).next_seq
                &&& m.processed_at is None
            }),
    {
        let id = host::fresh_short_id(12);
        let now = host::now_rfc3339();
        let pr = match priority {
            Some(p) => p,
            None => 1,
        };
        let cs = content.as_str();
        let flagged = scan::detect_injection(cs.as_bytes());
        let payload = if flagged {
            String::from_str("{\"_injection_warning\": true}")
        } else {
            String::from_str("{}")
        };
        let m = AgentMessage {
            id: id.clone(),
            msg_type,
            sender,
            recipient,
            mission_id,
            priority: pr,
            content,
            payload,
            created_seq: self.next_seq,
            created_at: now,
            processed_at: None,
        };
        let ghost ms0 = self.messages@;
        self.messages.push(m);
        self.next_seq = self.next_seq + 1;
        proof {
            assert forall|i: int, j: int|
                0 <= i < j < self.messages@.len() implies #[trigger] self.messages@[i].created_seq
                < #[trigger] self.messages@[j].created_seq by {
                if j < ms0.len() {
                    assert(ms0[i].created_seq < ms0[j].created_seq);
                }
            }
        }
        id
    }

    /// Select and mark the single best pending message for `agent_id`:
    /// highest priority first, oldest first within a priority. Selection
    /// and marking happen in one step, so each message is handed out at
    /// most once.
    pub fn pop_next(&mut self, agent_id: &String) -> (r: Option<AgentMessage>)
        requires
            bus_wf(*old(self)),
        ensures
            bus_wf(*final(self)),
            pop_post(*old(self), *final(self), agent_id@, r),
    {
        let ghost b0 = *self;
        let mut best: Option<usize> = None;
        let mut i: usize = 0;
        while i < self.messages.len()
            invariant
                0 <= i <= self.messages@.len(),
                *self == b0,
                match best {
                    Some(bi) => {
                        &&& 0 <= bi < i
                        &&& pending_for(self.messages@[bi as int], agent_id@)
                        &&& (forall|k: int|
                            (0 <= k < i && k != bi && pending_for(
                                #[trigger] self.messages@[k],
                                agent_id@,
                            )) ==> dispatched_before(
                                self.messages@[bi as int],
                                self.messages@[k],
                            ))
                    },
                    None => (forall|k: int|
                        0 <= k < i ==> !pending_for(#[trigger] self.messages@[k], agent_id@)),
                },
            decreases self.messages@.len() - i,
        {
            let pending = self.messages[i].processed_at.is_none() && self.messages[i].recipient
                == *agent_id;
            if pending {
                match best {
                    None => {
                        best = Some(i);
                    },
                    Some(bi) => {
                        let mb_pr = self.messages[bi].priority;
                        let mi_pr = self.messages[i].priority;
                        if mi_pr > mb_pr {
                            best = Some(i);
                        }
                        // an equal priority keeps the older message, which
                        // came first in the log
                    },
                }
            }
            i = i + 1;
        }
        match best {
            None => None,
            Some(bi) => {
                let now = host::now_rfc3339();
                let old_m = &self.messages[bi];
                let marked = AgentMessage {
                    id: old_m.id.clone(),
                    msg_type: old_m.msg_type.clone(),
                    sender: old_m.sender.clone(),
                    recipient: old_m.recipient.clone(),
                    mission_id: old_m.mission_id.clone(),
                    priority: old_m.priority,
                    content: old_m.content.clone(),
                    payload: old_m.payload.clone(),
                    created_seq: old_m.created_seq,
                    created_at: old_m.created_at.clone(),
                    processed_at: Some(now),
                };
                let out = AgentMessage {
                    id: marked.id.clone(),
                    msg_type: marked.msg_type.clone(),
                    sender: marked.sender.clone(),
                    recipient: marked.recipient.clone(),
                    mission_id: marked.mission_id.clone(),
                    priority: marked.priority,
                    content: marked.content.clone(),
                    payload: marked.payload.clone(),
                    created_seq: marked.created_seq,
                    created_at: marked.created_at.clone(),
                    processed_at: match &marked.processed_at {
                        Some(t) => Some(t.clone()),
                        None => None,
                    },
                };
                self.messages.set(bi, marked);
                proof {
                    assert(self.messages@[bi as int] == out);
                    assert forall|i2: int, j2: int|
                        0 <= i2 < j2 < self.messages@.len() implies #[trigger] self.messages@[i2].created_seq < #[trigger] self.messages@[j2].created_seq by {
                        assert(self.messages@[i2].created_seq == b0.messages@[i2].created_seq);
                        assert(self.messages@[j2].created_seq == b0.messages@[j2].created_seq);
                        assert(b0.messages@[i2].created_seq < b0.messages@[j2].created_seq);
                    }
                }
                Some(out)
            },
        }
    }

    /// Does any message wait for `agent_id`?
    pub fn has_pending(&self, agent_id: &String) -> (r: bool)
        ensures
            r == exists|i: int|
                0 <= i < self.messages@.len() && pending_for(
                    #[trigger] self.messages@[i],
                    agent_id@,
                ),
    {
        let mut i: usize = 0;
        while i < self.messages.len()
            invariant
                0 <= i <= self.messages@.len(),
                forall|k: int| 0 <= k < i ==> !pending_for(#[trigger] self.messages@[k], agent_id@),
            decreases self.messages@.len() - i,
        {
            if self.messages[i].processed_at.is_none() && self.messages[i].recipient == *agent_id {
                return true;
            }
            i = i + 1;
        }
        false
    }

    /// The distinct recipients with pending messages, in order of first
    /// pending message.
    pub fn agents_with_pending_messages(&self) -> (r: Vec<String>)
        ensures
            forall|k: int|
                0 <= k < r@.len() ==> some_pending_for(self.messages@, #[trigger] r@[k]@),
            forall|i: int|
                (0 <= i < self.messages@.len() && pending_for(
                    #[trigger] self.messages@[i],
                    self.messages@[i].recipient@,
                )) ==> recipient_listed(r@, self.messages@[i].recipient@),
            forall|k1: int, k2: int| 0 <= k1 < k2 < r@.len() ==> #[trigger] r@[k1]@ != #[trigger] r@[k2]@,
    {
        let mut r: Vec<String> = Vec::new();
        let mut i: usize = 0;
        while i < self.messages.len()
            invariant
                0 <= i <= self.messages@.len(),
                forall|k: int|
                    0 <= k < r@.len() ==> some_pending_for(self.messages@, #[trigger] r@[k]@),
                forall|i2: int|
                    (0 <= i2 < i && pending_for(
                        #[trigger] self.messages@[i2],
                        self.messages@[i2].recipient@,
                    )) ==> recipient_listed(r@, self.messages@[i2].recipient@),
                forall|k1: int, k2: int|
                    0 <= k1 < k2 < r@.len() ==> #[trigger] r@[k1]@ != #[trigger] r@[k2]@,
            decreases self.messages@.len() - i,
        {
            if self.messages[i].processed_at.is_none() {
                let recip = &self.messages[i].recipient;
                let mut seen = false;
                let mut k: usize = 0;
                while k < r.len()
                    invariant
                        0 <= k <= r@.len(),
                        seen == exists|k2: int| 0 <= k2 < k && #[trigger] r@[k2]@ == recip@,
                    decreases r@.len() - k,
                {
                    if r[k] == *recip {
                        seen = true;
                    }
                    k = k + 1;
                }
                if !seen {
                    let ghost r0 = r@;
                    r.push(recip.clone());
                    proof {
                        assert(pending_for(self.messages@[i as int], r@.last()@));
                        assert forall|k3: int|
                            0 <= k3 < r@.len() implies some_pending_for(
                            self.messages@,
                            #[trigger] r@[k3]@,
                        ) by {
                            if k3 < r0.len() {
                                assert(r@[k3] == r0[k3]);
                                assert(some_pending_for(self.messages@, r0[k3]@));
                            } else {
                                assert(pending_for(self.messages@[i as int], r@[k3]@));
                            }
                        }
                        assert forall|i2: int|
                            (0 <= i2 < i + 1 && pending_for(
                                #[trigger] self.messages@[i2],
                                self.messages@[i2].recipient@,
                            )) implies recipient_listed(r@, self.messages@[i2].recipient@) by {
                            if i2 < i {
                                assert(recipient_listed(r0, self.messages@[i2].recipient@));
                                let kw = choose|k3: int|
                                    0 <= k3 < r0.len() && #[trigger] r0[k3]@ == self.messages@[
                                        i2].recipient@;
                                assert(r@[kw]@ == self.messages@[i2].recipient@);
                            } else {
                                assert(r@[r0.len() as int]@ == self.messages@[i2].recipient@);
                            }
                        }
                        assert forall|k1: int, k2: int|
                            0 <= k1 < k2 < r@.len() implies #[trigger] r@[k1]@ != #[trigger] r@[
                            k2]@ by {
                            if k2 < r0.len() {
                                assert(r@[k1] == r0[k1]);
                                assert(r@[k2] == r0[k2]);
                                assert(r0[k1]@ != r0[k2]@);
                            } else {
                                assert(r@[k1] == r0[k1]);
                                assert(r@[k2]@ == recip@);
                            }
                        }
                    }
                } else {
                    proof {
                        let kw = choose|k2: int| 0 <= k2 < r@.len() && #[trigger] r@[k2]@ == recip@;
                        assert forall|i2: int|
                            (0 <= i2 < i + 1 && pending_for(
                                #[trigger] self.messages@[i2],
                                self.messages@[i2].recipient@,
                            )) implies recipient_listed(r@, self.messages@[i2].recipient@) by {
                            if i2 == i as int {
                                assert(r@[kw]@ == self.messages@[i2].recipient@);
                            }
                        }
                    }
                }
            }
            i = i + 1;
        }
        r
    }

    /// How many messages the bus holds, processed or not.
    pub fn count(&self) -> (r: usize)
        ensures
            r == self.messages@.len(),
    {
        self.messages.len()
    }

    /// Drop every message.
    pub fn clear(&mut self)
        ensures
            bus_wf(*final(self)),
            final(self).messages@.len() == 0,
            final(self).next_seq == old(self).next_seq,
    {
        self.messages.clear();
    }
}

} // verus!
