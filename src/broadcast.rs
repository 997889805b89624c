use vstd::prelude::*;
use crate::envelope::{Body, BroadcastPayload, Message};
use crate::gossip::{get_neighbors, gossip_targets, gossip_tick, ticked};
use crate::node::Node;
use crate::store::BroadcastState;

verus! {

/// Why a broadcast node stops.
#[derive(Debug, Clone, PartialEq, Eq)]
pub enum BroadcastError {
    /// A well-formed message whose payload this node does not accept.
    UnexpectedPayload,
    /// No message id is left for an outbound message.
    IdsExhausted,
}

/// What the event loop hands to the node: an inbound message, or a gossip timer tick.
pub enum Event {
    Message(Message<BroadcastPayload>),
    Gossip,
}

/// `m` answers a message from `req_src` that carried `req_id`: it goes from `src`
/// back to the sender, correlated by `in_reply_to`, and carries `msg_id` `id`.
pub open spec fn is_reply<P>(m: Message<P>, src: Seq<char>, req_src: String, req_id: Option<u64>, id: u64) -> bool {
    &&& m.src@ == src
    &&& m.dest == req_src
    &&& m.body.msg_id == Some(id)
    &&& m.body.in_reply_to == req_id
}

/// Whether `msg` answers a request that `node` still has outstanding.
pub open spec fn answers_pending<K, P>(node: Node<K, P>, msg: Message<P>) -> bool {
    msg.body.in_reply_to matches Some(k) && node.pending_view().contains_key(k)
}

/// Whether handling `payload` sends a reply.
pub open spec fn needs_reply(payload: BroadcastPayload) -> bool {
    payload is Broadcast || payload is Read || payload is Topology
}

/// The outcome of handling `msg`, from node `n0` and store `s0` to `n1` and `s1`, with result `r`.
pub open spec fn handled<K>(
    n0: Node<K, BroadcastPayload>,
    n1: Node<K, BroadcastPayload>,
    s0: BroadcastState,
    s1: BroadcastState,
    msg: Message<BroadcastPayload>,
    r: Result<Option<K>, BroadcastError>,
) -> bool {
    &&& n1.spec_id() == n0.spec_id()
    &&& n1.spec_node_ids() == n0.spec_node_ids()
    &&& answers_pending(n0, msg) ==> {
        &&& r == Ok::<Option<K>, BroadcastError>(Some(n0.pending_view()[msg.body.in_reply_to->Some_0]))
        &&& n1.pending_view() == n0.pending_view().remove(msg.body.in_reply_to->Some_0)
        &&& n1.spec_message_id() == n0.spec_message_id()
        &&& n1.outbox_view() == n0.outbox_view()
        &&& s1 == s0
    }
    &&& !answers_pending(n0, msg) ==> n1.pending_view() == n0.pending_view()
    &&& !answers_pending(n0, msg) && !(msg.body.payload is Broadcast || msg.body.payload is Read
        || msg.body.payload is Topology || msg.body.payload is Gossip) ==> {
        &&& r is Err && r->Err_0 is UnexpectedPayload
        &&& n1 == n0
        &&& s1 == s0
    }
    &&& !answers_pending(n0, msg) && needs_reply(msg.body.payload) && n0.spec_message_id() == u64::MAX ==> {
        &&& r is Err && r->Err_0 is IdsExhausted
        &&& n1 == n0
        &&& s1 == s0
    }
    &&& !answers_pending(n0, msg) && needs_reply(msg.body.payload) && n0.spec_message_id() < u64::MAX ==> {
        &&& r is Ok && r->Ok_0 is None
        &&& n1.spec_message_id() == n0.spec_message_id() + 1
        &&& n1.outbox_view().len() == n0.outbox_view().len() + 1
        &&& n1.outbox_view().drop_last() == n0.outbox_view()
        &&& is_reply(n1.outbox_view().last(), n0.spec_id()@, msg.src, msg.body.msg_id, n0.spec_message_id())
    }
    &&& !answers_pending(n0, msg) && n0.spec_message_id() < u64::MAX ==> match msg.body.payload {
        BroadcastPayload::Broadcast { message } => {
            &&& n1.outbox_view().last().body.payload is BroadcastOk
            &&& s1.values() == s0.values().insert(message)
            &&& s1.topology() == s0.topology()
            &&& forall|n: Seq<char>| #[trigger] s1.known_to(n) == s0.known_to(n)
        },
        BroadcastPayload::Read => {
            &&& n1.outbox_view().last().body.payload matches BroadcastPayload::ReadOk { messages }
                && messages@.to_set() == s0.values() && messages@.no_duplicates()
            &&& s1 == s0
        },
        BroadcastPayload::Topology { topology } => {
            &&& n1.outbox_view().last().body.payload is TopologyOk
            &&& s1.topology() == topology@
            &&& s1.values() == s0.values()
            &&& forall|n: Seq<char>| #[trigger] s1.known_to(n) == s0.known_to(n)
        },
        _ => true,
    }
    &&& !answers_pending(n0, msg) ==> match msg.body.payload {
        BroadcastPayload::Gossip { messages } => {
            &&& r is Ok && r->Ok_0 is None
            &&& n1.spec_message_id() == n0.spec_message_id()
            &&& n1.outbox_view() == n0.outbox_view()
            &&& s1.values() == s0.values().union(messages@.to_set())
            &&& s1.topology() == s0.topology()
            &&& s1.known_to(msg.src@) == s0.known_to(msg.src@).union(messages@.to_set())
            &&& forall|n: Seq<char>| n != msg.src@ ==> #[trigger] s1.known_to(n) == s0.known_to(n)
        },
        _ => true,
    }
}

/// Handles one inbound message. A reply to an outstanding request is correlated and
/// its continuation returned. Otherwise the payload is dispatched: `broadcast` records
/// the value and is answered `broadcast_ok`; `read` is answered with the value set;
/// `topology` replaces the topology and is answered `topology_ok`; `gossip` merges the
/// values and records them as known to the sender. Any other payload is refused.
pub fn handle_message<K>(
    node: &mut Node<K, BroadcastPayload>,
    state: &mut BroadcastState,
    msg: Message<BroadcastPayload>,
) -> (r: Result<Option<K>, BroadcastError>)
    requires
        old(node).wf(),
        old(state).wf(),
    ensures
        final(node).wf(),
        final(state).wf(),
        handled(*old(node), *final(node), *old(state), *final(state), msg, r),
{
    if let Some(k) = node.handle(&msg) {
        return Ok(Some(k));
    }
    let Message { src, dest: _, body } = msg;
    let Body { msg_id: req_id, in_reply_to: _, payload } = body;
    match payload {
        BroadcastPayload::Gossip { messages } => {
            state.merge_values(&messages);
            state.mark_known(&src, &messages);
            Ok(None)
        },
        BroadcastPayload::Broadcast { message } => {
            if node.message_id() == u64::MAX {
                return Err(BroadcastError::IdsExhausted);
            }
            state.record_value(message);
            let reply = Message {
                src: node.id().clone(),
                dest: src,
                body: Body { msg_id: Some(0), in_reply_to: req_id, payload: BroadcastPayload::BroadcastOk },
            };
            node.send(reply);
            assert(node.outbox_view().drop_last() =~= old(node).outbox_view());
            Ok(None)
        },
        BroadcastPayload::Read => {
            if node.message_id() == u64::MAX {
                return Err(BroadcastError::IdsExhausted);
            }
            let reply = Message {
                src: node.id().clone(),
                dest: src,
                body: Body {
                    msg_id: Some(0),
                    in_reply_to: req_id,
                    payload: BroadcastPayload::ReadOk { messages: state.snapshot_values() },
                },
            };
            node.send(reply);
            assert(node.outbox_view().drop_last() =~= old(node).outbox_view());
            Ok(None)
        },
        BroadcastPayload::Topology { topology } => {
            if node.message_id() == u64::MAX {
                return Err(BroadcastError::IdsExhausted);
            }
            state.record_topology(topology);
            let reply = Message {
                src: node.id().clone(),
                dest: src,
                body: Body { msg_id: Some(0), in_reply_to: req_id, payload: BroadcastPayload::TopologyOk },
            };
            node.send(reply);
            assert(node.outbox_view().drop_last() =~= old(node).outbox_view());
            Ok(None)
        },
        _ => Err(BroadcastError::UnexpectedPayload),
    }
}

/// The outcome of processing `event`, from node `n0` and store `s0` to `n1` and `s1`, with result `r`.
pub open spec fn stepped<K>(
    n0: Node<K, BroadcastPayload>,
    n1: Node<K, BroadcastPayload>,
    s0: BroadcastState,
    s1: BroadcastState,
    event: Event,
    r: Result<Option<K>, BroadcastError>,
) -> bool {
    match event {
        Event::Message(m) => handled(n0, n1, s0, s1, m, r),
        Event::Gossip => if n0.spec_message_id() + gossip_targets(n0, s0).len() <= u64::MAX {
            &&& r is Ok && r->Ok_0 is None
            &&& ticked(n0, n1, s0, s1)
        } else {
            &&& r is Err && r->Err_0 is IdsExhausted
            &&& n1 == n0
            &&& s1 == s0
        },
    }
}

/// Processes one event of the node's single event loop: an inbound message is
/// handled as `handle_message` does; a timer tick runs a gossip round, provided
/// that enough message ids are left for one push to each neighbor.
pub fn step<K>(
    node: &mut Node<K, BroadcastPayload>,
    state: &mut BroadcastState,
    event: Event,
) -> (r: Result<Option<K>, BroadcastError>)
    requires
        old(node).wf(),
        old(state).wf(),
    ensures
        final(node).wf(),
        final(state).wf(),
        stepped(*old(node), *final(node), *old(state), *final(state), event, r),
{
    match event {
        Event::Message(m) => handle_message(node, state, m),
        Event::Gossip => {
            let ns = get_neighbors(node, state);
            if node.message_id() > u64::MAX - ns.len() as u64 {
                Err(BroadcastError::IdsExhausted)
            } else {
                gossip_tick(node, state);
                Ok(None)
            }
        },
    }
}

} // verus!
