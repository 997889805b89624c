use vstd::prelude::*;
use crate::envelope::{Body, InitPayload, Message};

verus! {

/// Why a node could not be initialized.
#[derive(Debug, Clone, PartialEq, Eq)]
pub enum InitError {
    /// The first message was not an `init` payload.
    NotInit,
}

/// The identity of a node, its message-id generator, its table of outstanding
/// requests and the messages it has produced and not yet handed to the transport.
///
/// `K` tags what to do when the reply to a request arrives.
pub struct Node<K, P> {
    id: String,
    node_ids: Vec<String>,
    message_id: u64,
    pending: Vec<(u64, K)>,
    outbox: Vec<Message<P>>,
}

/// `m` with its `msg_id` set to `id`.
pub open spec fn with_msg_id<P>(m: Message<P>, id: u64) -> Message<P> {
    Message { src: m.src, dest: m.dest, body: Body { msg_id: Some(id), ..m.body } }
}

/// What `send` puts on the wire for `m` when the counter stands at `id`.
pub open spec fn stamped<P>(m: Message<P>, id: u64) -> Message<P> {
    if m.body.msg_id is Some { with_msg_id(m, id) } else { m }
}

/// How correlating a message whose `in_reply_to` is `reply_to` takes the table
/// from `t0` to `t1` and yields `r`: a matching entry is removed and handed out,
/// anything else leaves the table as it was.
pub open spec fn correlated<K>(t0: Map<u64, K>, t1: Map<u64, K>, reply_to: Option<u64>, r: Option<K>) -> bool {
    match reply_to {
        Some(k) if t0.contains_key(k) => r == Some(t0[k]) && t1 == t0.remove(k),
        _ => r is None && t1 == t0,
    }
}

impl<K, P> Node<K, P> {
    /// Every outstanding request was issued by this node, and no id is registered twice.
    pub closed spec fn wf(self) -> bool {
        &&& forall|i: int| 0 <= i < self.pending@.len() ==> #[trigger] self.pending@[i].0 < self.message_id
        &&& forall|i: int, j: int|
            0 <= i < self.pending@.len() && 0 <= j < self.pending@.len() && i != j
                ==> #[trigger] self.pending@[i].0 != #[trigger] self.pending@[j].0
    }

    /// This node's id.
    pub closed spec fn spec_id(self) -> String {
        self.id
    }

    /// The ids of all cluster members, as given at initialization.
    pub closed spec fn spec_node_ids(self) -> Seq<String> {
        self.node_ids@
    }

    /// The `msg_id` that the next outbound message receives.
    pub closed spec fn spec_message_id(self) -> u64 {
        self.message_id
    }

    /// The outstanding-request table: request id to registered continuation.
    pub closed spec fn pending_view(self) -> Map<u64, K> {
        Map::new(
            |k: u64| exists|i: int| 0 <= i < self.pending@.len() && self.pending@[i].0 == k,
            |k: u64|
                self.pending@[choose|i: int| 0 <= i < self.pending@.len() && self.pending@[i].0 == k].1,
        )
    }

    /// The messages produced and not yet taken by the transport, oldest first.
    pub closed spec fn outbox_view(self) -> Seq<Message<P>> {
        self.outbox@
    }

    proof fn lemma_entry(self, i: int)
        requires
            self.wf(),
            0 <= i < self.pending@.len(),
        ensures
            self.pending_view().contains_key(self.pending@[i].0),
            self.pending_view()[self.pending@[i].0] == self.pending@[i].1,
    {
        let k = self.pending@[i].0;
        assert(self.pending@[i].0 == k);
        let j = choose|j: int| 0 <= j < self.pending@.len() && self.pending@[j].0 == k;
        assert(self.pending@[j].0 == self.pending@[i].0);
    }

    pub fn id(&self) -> (r: &String)
        ensures
            *r == self.spec_id(),
    {
        &self.id
    }

    pub fn node_ids(&self) -> (r: &Vec<String>)
        ensures
            r@ == self.spec_node_ids(),
    {
        &self.node_ids
    }

    pub fn message_id(&self) -> (r: u64)
        ensures
            r == self.spec_message_id(),
    {
        self.message_id
    }

    /// Performs the handshake on the first inbound message: a node named by the
    /// `init` payload, together with the `init_ok` reply, which carries `msg_id` 0.
    pub fn from_init(init: Message<InitPayload>) -> (r: Result<(Self, Message<InitPayload>), InitError>)
        ensures
            match init.body.payload {
                InitPayload::Init { node_id, node_ids } => r matches Ok((n, reply)) && {
                    &&& n.wf()
                    &&& n.spec_id() == node_id
                    &&& n.spec_node_ids() == node_ids@
                    &&& n.spec_message_id() == 1
                    &&& n.pending_view() == Map::<u64, K>::empty()
                    &&& n.outbox_view() == Seq::<Message<P>>::empty()
                    &&& reply.src == node_id
                    &&& reply.dest == init.src
                    &&& reply.body.msg_id == Some(0u64)
                    &&& reply.body.in_reply_to == init.body.msg_id
                    &&& reply.body.payload is InitOk
                },
                InitPayload::InitOk => r matches Err(InitError::NotInit),
            },
    {
        match init.body.payload {
            InitPayload::Init { node_id, node_ids } => {
                let reply = Message {
                    src: node_id.clone(),
                    dest: init.src,
                    body: Body { msg_id: Some(0), in_reply_to: init.body.msg_id, payload: InitPayload::InitOk },
                };
                let n = Node { id: node_id, node_ids, message_id: 1, pending: Vec::new(), outbox: Vec::new() };
                assert(n.pending_view() =~= Map::<u64, K>::empty());
                Ok((n, reply))
            },
            InitPayload::InitOk => Err(InitError::NotInit),
        }
    }

    /// Queues `to_send` for the transport. A message that asks for a `msg_id`
    /// gets the next one; the counter advances on every message.
    pub fn send(&mut self, to_send: Message<P>)
        requires
            old(self).wf(),
            old(self).spec_message_id() < u64::MAX,
        ensures
            final(self).wf(),
            final(self).spec_id() == old(self).spec_id(),
            final(self).spec_node_ids() == old(self).spec_node_ids(),
            final(self).spec_message_id() == old(self).spec_message_id() + 1,
            final(self).pending_view() == old(self).pending_view(),
            final(self).outbox_view() == old(self).outbox_view().push(stamped(to_send, old(self).spec_message_id())),
    {
        let m = if to_send.body.msg_id.is_some() {
            Message {
                src: to_send.src,
                dest: to_send.dest,
                body: Body { msg_id: Some(self.message_id), in_reply_to: to_send.body.in_reply_to, payload: to_send.body.payload },
            }
        } else {
            to_send
        };
        self.outbox.push(m);
        self.message_id = self.message_id + 1;
        assert(self.pending_view() =~= old(self).pending_view());
    }

    /// Sends `to_send` as a request: it gets the next `msg_id`, and `continuation`
    /// is registered under that id until the correlated reply arrives.
    pub fn rpc(&mut self, to_send: Message<P>, continuation: K)
        requires
            old(self).wf(),
            old(self).spec_message_id() < u64::MAX,
        ensures
            final(self).wf(),
            final(self).spec_id() == old(self).spec_id(),
            final(self).spec_node_ids() == old(self).spec_node_ids(),
            final(self).spec_message_id() == old(self).spec_message_id() + 1,
            !old(self).pending_view().contains_key(old(self).spec_message_id()),
            final(self).pending_view() == old(self).pending_view().insert(old(self).spec_message_id(), continuation),
            final(self).outbox_view() == old(self).outbox_view().push(with_msg_id(to_send, old(self).spec_message_id())),
    {
        let id = self.message_id;
        let m = Message {
            src: to_send.src,
            dest: to_send.dest,
            body: Body { msg_id: Some(id), in_reply_to: to_send.body.in_reply_to, payload: to_send.body.payload },
        };
        proof {
            if old(self).pending_view().contains_key(id) {
                let i = choose|i: int| 0 <= i < old(self).pending@.len() && old(self).pending@[i].0 == id;
                assert(old(self).pending@[i].0 < old(self).message_id);
            }
        }
        self.pending.push((id, continuation));
        self.message_id = id + 1;
        proof {
            let n = old(self).pending@.len() as int;
            assert forall|i: int| 0 <= i < n implies #[trigger] self.pending@[i] == old(self).pending@[i] by {}
            assert(self.pending@[n] == (id, continuation));
            assert(self.wf());
            assert forall|k: u64| #[trigger] self.pending_view().contains_key(k)
                == old(self).pending_view().insert(id, continuation).contains_key(k) by {
                if self.pending_view().contains_key(k) {
                    let i = choose|i: int| 0 <= i < self.pending@.len() && self.pending@[i].0 == k;
                    if i < n {
                        assert(old(self).pending@[i].0 == k);
                    }
                }
                if old(self).pending_view().contains_key(k) {
                    let i = choose|i: int| 0 <= i < n && old(self).pending@[i].0 == k;
                    assert(self.pending@[i].0 == k);
                }
                if k == id {
                    assert(self.pending@[n].0 == k);
                }
            }
            assert forall|k: u64| #[trigger] self.pending_view().contains_key(k)
                implies self.pending_view()[k] == old(self).pending_view().insert(id, continuation)[k] by {
                let i = choose|i: int| 0 <= i < self.pending@.len() && self.pending@[i].0 == k;
                self.lemma_entry(i);
                if i < n {
                    old(self).lemma_entry(i);
                }
            }
            assert(self.pending_view() =~= old(self).pending_view().insert(id, continuation));
        }
        self.outbox.push(m);
    }

    /// Correlates an inbound message with an outstanding request: where its
    /// `in_reply_to` names one, the entry is removed and its continuation returned.
    /// Otherwise the message is unsolicited, and nothing changes.
    pub fn handle(&mut self, msg: &Message<P>) -> (r: Option<K>)
        requires
            old(self).wf(),
        ensures
            final(self).wf(),
            final(self).spec_id() == old(self).spec_id(),
            final(self).spec_node_ids() == old(self).spec_node_ids(),
            final(self).spec_message_id() == old(self).spec_message_id(),
            final(self).outbox_view() == old(self).outbox_view(),
            correlated(old(self).pending_view(), final(self).pending_view(), msg.body.in_reply_to, r),
            r is None ==> *final(self) == *old(self),
    {
        let k = match msg.body.in_reply_to {
            Some(k) => k,
            None => {
                return None;
            },
        };
        let mut i: usize = 0;
        while i < self.pending.len()
            invariant
                self.wf(),
                *self == *old(self),
                msg.body.in_reply_to == Some(k),
                i <= self.pending@.len(),
                forall|j: int| 0 <= j < i ==> #[trigger] self.pending@[j].0 != k,
            decreases self.pending@.len() - i,
        {
            if self.pending[i].0 == k {
                proof {
                    self.lemma_entry(i as int);
                }
                let ghost before = *self;
                let (_, c) = self.pending.remove(i);
                proof {
                    let n = before.pending@.len() as int;
                    assert forall|a: int, b: int|
                        0 <= a < self.pending@.len() && 0 <= b < self.pending@.len() && a != b
                            implies #[trigger] self.pending@[a].0 != #[trigger] self.pending@[b].0 by {
                        let a2 = if a < i { a } else { a + 1 };
                        let b2 = if b < i { b } else { b + 1 };
                        assert(self.pending@[a] == before.pending@[a2]);
                        assert(self.pending@[b] == before.pending@[b2]);
                    }
                    assert forall|a: int| 0 <= a < self.pending@.len()
                        implies #[trigger] self.pending@[a].0 < self.message_id by {
                        let a2 = if a < i { a } else { a + 1 };
                        assert(self.pending@[a] == before.pending@[a2]);
                    }
                    assert(self.wf());
                    assert forall|key: u64| #[trigger] self.pending_view().contains_key(key)
                        == before.pending_view().remove(k).contains_key(key) by {
                        if self.pending_view().contains_key(key) {
                            let a = choose|a: int| 0 <= a < self.pending@.len() && self.pending@[a].0 == key;
                            let a2 = if a < i { a } else { a + 1 };
                            assert(self.pending@[a] == before.pending@[a2]);
                            before.lemma_entry(a2);
                        }
                        if before.pending_view().remove(k).contains_key(key) {
                            let a2 = choose|a: int| 0 <= a < n && before.pending@[a].0 == key;
                            assert(a2 != i);
                            let a = if a2 < i { a2 } else { a2 - 1 };
                            assert(self.pending@[a] == before.pending@[a2]);
                            assert(self.pending@[a].0 == key);
                        }
                    }
                    assert forall|key: u64| #[trigger] self.pending_view().contains_key(key)
                        implies self.pending_view()[key] == before.pending_view().remove(k)[key] by {
                        let a = choose|a: int| 0 <= a < self.pending@.len() && self.pending@[a].0 == key;
                        let a2 = if a < i { a } else { a + 1 };
                        assert(self.pending@[a] == before.pending@[a2]);
                        self.lemma_entry(a);
                        before.lemma_entry(a2);
                    }
                    assert(self.pending_view() =~= before.pending_view().remove(k));
                }
                return Some(c);
            }
            i = i + 1;
        }
        proof {
            if self.pending_view().contains_key(k) {
                let a = choose|a: int| 0 <= a < self.pending@.len() && self.pending@[a].0 == k;
                assert(self.pending@[a].0 != k);
            }
        }
        None
    }

    /// Hands the queued messages to the transport, oldest first, and empties the queue.
    pub fn take_outbox(&mut self) -> (r: Vec<Message<P>>)
        requires
            old(self).wf(),
        ensures
            final(self).wf(),
            r@ == old(self).outbox_view(),
            final(self).outbox_view() == Seq::<Message<P>>::empty(),
            final(self).spec_id() == old(self).spec_id(),
            final(self).spec_node_ids() == old(self).spec_node_ids(),
            final(self).spec_message_id() == old(self).spec_message_id(),
            final(self).pending_view() == old(self).pending_view(),
    {
        let mut out: Vec<Message<P>> = Vec::new();
        std::mem::swap(&mut out, &mut self.outbox);
        assert(self.pending_view() =~= old(self).pending_view());
        out
    }
}

} // verus!
