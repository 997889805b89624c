use vstd::prelude::*;

verus! {

/// The body of an envelope: optional correlation ids and a typed payload.
#[derive(Debug, Clone, PartialEq, Eq)]
pub struct Body<P> {
    /// A unique id chosen by the sender, present on messages that expect correlation.
    pub msg_id: Option<u64>,
    /// On a reply, the `msg_id` of the message being answered.
    pub in_reply_to: Option<u64>,
    pub payload: P,
}

/// One message unit exchanged between nodes.
#[derive(Debug, Clone, PartialEq, Eq)]
pub struct Message<P> {
    /// The node this message came from.
    pub src: String,
    /// The node this message is addressed to.
    pub dest: String,
    pub body: Body<P>,
}

/// The payloads of the one-time handshake.
#[derive(Debug, Clone, PartialEq, Eq)]
pub enum InitPayload {
    Init { node_id: String, node_ids: Vec<String> },
    InitOk,
}

/// The closed catalogue of payloads of the broadcast service.
#[derive(Debug, Clone, PartialEq, Eq)]
pub enum BroadcastPayload {
    Broadcast { message: i32 },
    BroadcastOk,
    Read,
    ReadOk { messages: Vec<i32> },
    Topology { topology: Vec<(String, Vec<String>)> },
    TopologyOk,
    Gossip { messages: Vec<i32> },
}

} // verus!
