use flyio::{
    get_neighbors, handle_message, next_gossip_delay_ms, step, Body, BroadcastError, BroadcastPayload,
    BroadcastState, Event, InitError, InitPayload, Message, Node, GOSSIP_BASE_MS, GOSSIP_JITTER_MS,
};

fn msg(src: &str, dest: &str, msg_id: Option<u64>, payload: BroadcastPayload) -> Message<BroadcastPayload> {
    Message {
        src: src.to_string(),
        dest: dest.to_string(),
        body: Body { msg_id, in_reply_to: None, payload },
    }
}

fn init_node(id: &str, members: &[&str]) -> Node<u32, BroadcastPayload> {
    let init = Message {
        src: "c0".to_string(),
        dest: id.to_string(),
        body: Body {
            msg_id: Some(1),
            in_reply_to: None,
            payload: InitPayload::Init {
                node_id: id.to_string(),
                node_ids: members.iter().map(|s| s.to_string()).collect(),
            },
        },
    };
    let (node, _reply) = Node::from_init(init).unwrap();
    node
}

fn sorted(mut v: Vec<i32>) -> Vec<i32> {
    v.sort();
    v
}

fn read_values(node: &mut Node<u32, BroadcastPayload>, state: &mut BroadcastState) -> Vec<i32> {
    node.take_outbox();
    let r = handle_message(node, state, msg("c9", "n1", Some(99), BroadcastPayload::Read));
    assert_eq!(r, Ok(None));
    let out = node.take_outbox();
    assert_eq!(out.len(), 1);
    match &out[0].body.payload {
        BroadcastPayload::ReadOk { messages } => messages.clone(),
        other => panic!("unexpected reply {:?}", other),
    }
}

fn topology_n1(neighbors: &[&str]) -> BroadcastPayload {
    BroadcastPayload::Topology {
        topology: vec![("n1".to_string(), neighbors.iter().map(|s| s.to_string()).collect())],
    }
}

#[test]
fn init_replies_init_ok() {
    let init = Message {
        src: "c0".to_string(),
        dest: "n1".to_string(),
        body: Body {
            msg_id: Some(7),
            in_reply_to: None,
            payload: InitPayload::Init { node_id: "n1".to_string(), node_ids: vec!["n1".to_string(), "n2".to_string()] },
        },
    };
    let (node, reply): (Node<u32, BroadcastPayload>, _) = Node::from_init(init).unwrap();
    assert_eq!(node.id(), "n1");
    assert_eq!(node.node_ids(), &vec!["n1".to_string(), "n2".to_string()]);
    assert_eq!(node.message_id(), 1);
    assert_eq!(reply.src, "n1");
    assert_eq!(reply.dest, "c0");
    assert_eq!(reply.body.msg_id, Some(0));
    assert_eq!(reply.body.in_reply_to, Some(7));
    assert_eq!(reply.body.payload, InitPayload::InitOk);
}

#[test]
fn init_refuses_other_payload() {
    let m = Message {
        src: "c0".to_string(),
        dest: "n1".to_string(),
        body: Body { msg_id: Some(1), in_reply_to: None, payload: InitPayload::InitOk },
    };
    let r: Result<(Node<u32, BroadcastPayload>, _), _> = Node::from_init(m);
    assert_eq!(r.err(), Some(InitError::NotInit));
}

#[test]
fn broadcast_is_acknowledged_and_read_back() {
    let mut node = init_node("n1", &["n1"]);
    let mut state = BroadcastState::new();
    let r = handle_message(&mut node, &mut state, msg("c1", "n1", Some(1), BroadcastPayload::Broadcast { message: 42 }));
    assert_eq!(r, Ok(None));
    let out = node.take_outbox();
    assert_eq!(out.len(), 1);
    assert_eq!(out[0].src, "n1");
    assert_eq!(out[0].dest, "c1");
    assert_eq!(out[0].body.in_reply_to, Some(1));
    assert_eq!(out[0].body.payload, BroadcastPayload::BroadcastOk);
    assert!(read_values(&mut node, &mut state).contains(&42));
}

#[test]
fn tick_pushes_to_each_declared_neighbor() {
    let mut node = init_node("n1", &["n1", "n2", "n3"]);
    let mut state = BroadcastState::new();
    let r = handle_message(&mut node, &mut state, msg("c1", "n1", Some(1), topology_n1(&["n2", "n3"])));
    assert_eq!(r, Ok(None));
    let out = node.take_outbox();
    assert_eq!(out[0].body.payload, BroadcastPayload::TopologyOk);
    handle_message(&mut node, &mut state, msg("c1", "n1", Some(2), BroadcastPayload::Broadcast { message: 7 })).unwrap();
    node.take_outbox();
    assert_eq!(step(&mut node, &mut state, Event::Gossip), Ok(None));
    let out = node.take_outbox();
    assert_eq!(out.len(), 2);
    let mut dests: Vec<String> = out.iter().map(|m| m.dest.clone()).collect();
    dests.sort();
    assert_eq!(dests, vec!["n2".to_string(), "n3".to_string()]);
    for m in &out {
        assert_eq!(m.src, "n1");
        assert_eq!(m.body.in_reply_to, None);
        assert!(m.body.msg_id.is_some());
        assert_eq!(m.body.payload, BroadcastPayload::Gossip { messages: vec![7] });
    }
}

#[test]
fn gossip_push_is_visible_to_read() {
    let mut node = init_node("n1", &["n1", "n2"]);
    let mut state = BroadcastState::new();
    let r = handle_message(&mut node, &mut state, msg("n2", "n1", None, BroadcastPayload::Gossip { messages: vec![5, 6] }));
    assert_eq!(r, Ok(None));
    assert!(node.take_outbox().is_empty());
    assert_eq!(sorted(read_values(&mut node, &mut state)), vec![5, 6]);
}

#[test]
fn duplicate_broadcasts_are_each_acknowledged_and_stored_once() {
    let mut node = init_node("n1", &["n1"]);
    let mut state = BroadcastState::new();
    for id in [1u64, 2] {
        let r = handle_message(&mut node, &mut state, msg("c1", "n1", Some(id), BroadcastPayload::Broadcast { message: 9 }));
        assert_eq!(r, Ok(None));
        let out = node.take_outbox();
        assert_eq!(out.len(), 1);
        assert_eq!(out[0].body.in_reply_to, Some(id));
        assert_eq!(out[0].body.payload, BroadcastPayload::BroadcastOk);
    }
    assert_eq!(read_values(&mut node, &mut state), vec![9]);
}

#[test]
fn merging_a_value_twice_is_merging_once() {
    let mut once = BroadcastState::new();
    once.merge_values(&vec![3]);
    let mut twice = BroadcastState::new();
    twice.merge_values(&vec![3]);
    twice.merge_values(&vec![3]);
    assert_eq!(once.snapshot_values(), twice.snapshot_values());
    assert_eq!(twice.snapshot_values(), vec![3]);
}

#[test]
fn merge_order_does_not_matter() {
    let batches = [vec![1, 2], vec![2, 3], vec![5, 1]];
    let mut a = BroadcastState::new();
    for b in batches.iter() {
        a.merge_values(b);
    }
    let mut b = BroadcastState::new();
    for v in batches.iter().rev() {
        b.merge_values(v);
    }
    assert_eq!(sorted(a.snapshot_values()), vec![1, 2, 3, 5]);
    assert_eq!(sorted(b.snapshot_values()), vec![1, 2, 3, 5]);
}

#[test]
fn record_value_reports_novelty() {
    let mut s = BroadcastState::new();
    assert!(s.record_value(4));
    assert!(!s.record_value(4));
    assert_eq!(s.snapshot_values(), vec![4]);
}

#[test]
fn broadcast_value_survives_later_events() {
    let mut node = init_node("n1", &["n1", "n2"]);
    let mut state = BroadcastState::new();
    handle_message(&mut node, &mut state, msg("c1", "n1", Some(1), BroadcastPayload::Broadcast { message: 11 })).unwrap();
    handle_message(&mut node, &mut state, msg("c1", "n1", Some(2), topology_n1(&["n2"]))).unwrap();
    step(&mut node, &mut state, Event::Gossip).unwrap();
    handle_message(&mut node, &mut state, msg("n2", "n1", None, BroadcastPayload::Gossip { messages: vec![12] })).unwrap();
    handle_message(&mut node, &mut state, msg("c1", "n1", Some(3), topology_n1(&[]))).unwrap();
    assert_eq!(sorted(read_values(&mut node, &mut state)), vec![11, 12]);
}

#[test]
fn gossip_sends_only_the_delta() {
    let mut node = init_node("n1", &["n1", "n2", "n3"]);
    let mut state = BroadcastState::new();
    handle_message(&mut node, &mut state, msg("c1", "n1", Some(1), topology_n1(&["n2", "n3"]))).unwrap();
    handle_message(&mut node, &mut state, msg("c1", "n1", Some(2), BroadcastPayload::Broadcast { message: 1 })).unwrap();
    handle_message(&mut node, &mut state, msg("n2", "n1", None, BroadcastPayload::Gossip { messages: vec![2] })).unwrap();
    node.take_outbox();
    step(&mut node, &mut state, Event::Gossip).unwrap();
    let out = node.take_outbox();
    assert_eq!(out.len(), 2);
    for m in &out {
        let BroadcastPayload::Gossip { messages } = &m.body.payload else { panic!("not a gossip push") };
        if m.dest == "n2" {
            assert_eq!(messages, &vec![1]);
        } else {
            assert_eq!(m.dest, "n3");
            assert_eq!(sorted(messages.clone()), vec![1, 2]);
        }
    }
    step(&mut node, &mut state, Event::Gossip).unwrap();
    assert!(node.take_outbox().is_empty());
    handle_message(&mut node, &mut state, msg("c1", "n1", Some(3), BroadcastPayload::Broadcast { message: 3 })).unwrap();
    node.take_outbox();
    step(&mut node, &mut state, Event::Gossip).unwrap();
    let out = node.take_outbox();
    assert_eq!(out.len(), 2);
    for m in &out {
        assert_eq!(m.body.payload, BroadcastPayload::Gossip { messages: vec![3] });
    }
}

#[test]
fn tick_without_topology_sends_nothing() {
    let mut node = init_node("n1", &["n1", "n2"]);
    let mut state = BroadcastState::new();
    handle_message(&mut node, &mut state, msg("c1", "n1", Some(1), BroadcastPayload::Broadcast { message: 5 })).unwrap();
    node.take_outbox();
    assert_eq!(step(&mut node, &mut state, Event::Gossip), Ok(None));
    assert!(node.take_outbox().is_empty());
}

#[test]
fn neighbors_come_from_own_topology_entry_once_each() {
    let node = init_node("n1", &["n1", "n2", "n3", "n4"]);
    let mut state = BroadcastState::new();
    assert!(get_neighbors(&node, &state).is_empty());
    state.record_topology(vec![
        ("n1".to_string(), vec!["n2".to_string(), "n3".to_string(), "n2".to_string()]),
        ("n4".to_string(), vec!["n1".to_string()]),
    ]);
    let mut ns = get_neighbors(&node, &state);
    ns.sort();
    assert_eq!(ns, vec!["n2".to_string(), "n3".to_string()]);
}

#[test]
fn unexpected_payload_is_refused() {
    let mut node = init_node("n1", &["n1"]);
    let mut state = BroadcastState::new();
    let r = handle_message(&mut node, &mut state, msg("c1", "n1", Some(1), BroadcastPayload::ReadOk { messages: vec![] }));
    assert_eq!(r, Err(BroadcastError::UnexpectedPayload));
    assert!(node.take_outbox().is_empty());
}

#[test]
fn send_stamps_requested_ids_and_counts_every_message() {
    let mut node = init_node("n1", &["n1"]);
    node.send(msg("n1", "c1", Some(0), BroadcastPayload::BroadcastOk));
    node.send(msg("n1", "c1", None, BroadcastPayload::TopologyOk));
    assert_eq!(node.message_id(), 3);
    let out = node.take_outbox();
    assert_eq!(out[0].body.msg_id, Some(1));
    assert_eq!(out[1].body.msg_id, None);
}

#[test]
fn reply_runs_continuation_once() {
    let mut node = init_node("n1", &["n1", "n2"]);
    let mut state = BroadcastState::new();
    node.rpc(msg("n1", "n2", None, BroadcastPayload::Read), 77);
    let out = node.take_outbox();
    assert_eq!(out[0].body.msg_id, Some(1));
    let mut reply = msg("n2", "n1", Some(5), BroadcastPayload::ReadOk { messages: vec![1] });
    reply.body.in_reply_to = Some(1);
    assert_eq!(node.handle(&reply), Some(77));
    assert_eq!(node.handle(&reply), None);
    let r = handle_message(&mut node, &mut state, reply);
    assert_eq!(r, Err(BroadcastError::UnexpectedPayload));
}

#[test]
fn correlated_reply_is_returned_by_dispatch() {
    let mut node = init_node("n1", &["n1", "n2"]);
    let mut state = BroadcastState::new();
    node.rpc(msg("n1", "n2", None, BroadcastPayload::Broadcast { message: 4 }), 3);
    let mut reply = msg("n2", "n1", Some(8), BroadcastPayload::BroadcastOk);
    reply.body.in_reply_to = Some(1);
    assert_eq!(handle_message(&mut node, &mut state, reply), Ok(Some(3)));
    assert!(state.snapshot_values().is_empty());
}

#[test]
fn unmatched_reply_is_handled_as_unsolicited() {
    let mut node = init_node("n1", &["n1", "n2"]);
    let mut state = BroadcastState::new();
    let mut m = msg("n2", "n1", None, BroadcastPayload::Gossip { messages: vec![8] });
    m.body.in_reply_to = Some(40);
    assert_eq!(handle_message(&mut node, &mut state, m), Ok(None));
    assert_eq!(state.snapshot_values(), vec![8]);
}

#[test]
fn gossip_delay_is_jittered_within_bounds() {
    for _ in 0..200 {
        let d = next_gossip_delay_ms();
        assert!(d >= GOSSIP_BASE_MS && d < GOSSIP_BASE_MS + GOSSIP_JITTER_MS);
        assert!(d >= 100 && d < 300);
    }
}
