use vstd::prelude::*;
use crate::envelope::{Body, BroadcastPayload, Message};
use crate::node::{stamped, Node};
use crate::store::{declared_neighbors, BroadcastState};

verus! {

/// Whether some id in `names` reads `m`.
pub open spec fn names_contain(names: Seq<String>, m: Seq<char>) -> bool {
    exists|j: int| 0 <= j < names.len() && #[trigger] names[j]@ == m
}

/// No id occurs twice in `names`.
pub open spec fn names_unique(names: Seq<String>) -> bool {
    forall|a: int, b: int| 0 <= a < names.len() && 0 <= b < names.len() && a != b
        ==> #[trigger] names[a]@ != #[trigger] names[b]@
}

/// The ids in `names`, as a set.
pub open spec fn name_set(names: Seq<String>) -> Set<Seq<char>> {
    Set::new(|m: Seq<char>| names_contain(names, m))
}

/// The neighbors that a gossip tick of `node` addresses.
pub open spec fn gossip_targets<K>(node: Node<K, BroadcastPayload>, state: BroadcastState) -> Set<Seq<char>> {
    declared_neighbors(state.topology(), node.spec_id()@)
}

proof fn lemma_unique_names_len(names: Seq<String>)
    requires
        names_unique(names),
    ensures
        name_set(names).finite(),
        name_set(names).len() == names.len(),
{
    let vs = names.map_values(|s: String| s@);
    assert forall|a: int, b: int| 0 <= a < vs.len() && 0 <= b < vs.len() && a != b
        implies vs[a] != vs[b] by {
        assert(names[a]@ != names[b]@);
    }
    vs.unique_seq_to_set();
    assert forall|m: Seq<char>| #[trigger] vs.to_set().contains(m) == name_set(names).contains(m) by {
        if vs.to_set().contains(m) {
            let j = choose|j: int| 0 <= j < vs.len() && vs[j] == m;
            assert(names[j]@ == m);
        }
        if name_set(names).contains(m) {
            let j = choose|j: int| 0 <= j < names.len() && #[trigger] names[j]@ == m;
            assert(vs[j] == m);
        }
    }
    assert(vs.to_set() =~= name_set(names));
}

/// Whether some id in `v` reads as `s`.
fn names_contains(v: &Vec<String>, s: &String) -> (r: bool)
    ensures
        r == names_contain(v@, s@),
{
    let mut i: usize = 0;
    while i < v.len()
        invariant
            i <= v@.len(),
            forall|j: int| 0 <= j < i ==> #[trigger] v@[j]@ != s@,
        decreases v@.len() - i,
    {
        if v[i] == *s {
            return true;
        }
        i = i + 1;
    }
    false
}

/// Adds to `into` each id of `names` that it does not hold yet.
fn add_names(into: &mut Vec<String>, names: &Vec<String>)
    requires
        names_unique(old(into)@),
    ensures
        names_unique(final(into)@),
        forall|m: Seq<char>| #[trigger] names_contain(final(into)@, m)
            <==> (names_contain(old(into)@, m) || names_contain(names@, m)),
{
    let mut i: usize = 0;
    while i < names.len()
        invariant
            i <= names@.len(),
            names_unique(into@),
            forall|m: Seq<char>| #[trigger] names_contain(into@, m)
                <==> (names_contain(old(into)@, m) || exists|j: int| 0 <= j < i && names@[j]@ == m),
        decreases names@.len() - i,
    {
        let ghost prev = into@;
        if !names_contains(into, &names[i]) {
            let s = names[i].clone();
            into.push(s);
            proof {
                assert(into@.last()@ == names@[i as int]@);
                assert forall|a: int, b: int| 0 <= a < into@.len() && 0 <= b < into@.len() && a != b
                    implies #[trigger] into@[a]@ != #[trigger] into@[b]@ by {
                    if a < prev.len() && b < prev.len() {
                        assert(prev[a]@ != prev[b]@);
                    } else if a < prev.len() {
                        assert(prev[a]@ == into@[a]@);
                    } else {
                        assert(prev[b]@ == into@[b]@);
                    }
                }
            }
        }
        proof {
            let x = names@[i as int]@;
            assert forall|m: Seq<char>| #[trigger] names_contain(into@, m) <==> (names_contain(prev, m) || m == x) by {
                if names_contain(into@, m) && m != x {
                    let j = choose|j: int| 0 <= j < into@.len() && #[trigger] into@[j]@ == m;
                    assert(prev[j]@ == m);
                }
                if names_contain(prev, m) {
                    let j = choose|j: int| 0 <= j < prev.len() && #[trigger] prev[j]@ == m;
                    assert(into@[j]@ == m);
                }
            }
            assert forall|m: Seq<char>| #[trigger] names_contain(into@, m)
                <==> (names_contain(old(into)@, m) || exists|j: int| 0 <= j < i + 1 && names@[j]@ == m) by {
                if exists|j: int| 0 <= j < i + 1 && names@[j]@ == m {
                    let j = choose|j: int| 0 <= j < i + 1 && names@[j]@ == m;
                    if j < i {
                        assert(names_contain(prev, m));
                    }
                }
            }
        }
        i = i + 1;
    }
    assert forall|m: Seq<char>| #[trigger] names_contain(into@, m)
        <==> (names_contain(old(into)@, m) || names_contain(names@, m)) by {
        if names_contain(names@, m) {
            let j = choose|j: int| 0 <= j < names@.len() && #[trigger] names@[j]@ == m;
            assert(names@[j]@ == m);
        }
    }
}

/// The neighbors that the topology declares for this node, each once.
/// Until a topology is recorded there are none.
pub fn get_neighbors<K>(node: &Node<K, BroadcastPayload>, state: &BroadcastState) -> (r: Vec<String>)
    ensures
        names_unique(r@),
        name_set(r@) == gossip_targets(*node, *state),
        gossip_targets(*node, *state).finite(),
        r@.len() == gossip_targets(*node, *state).len(),
{
    let topology = state.topology_entries();
    let id = node.id();
    let mut r: Vec<String> = Vec::new();
    let mut i: usize = 0;
    while i < topology.len()
        invariant
            i <= topology@.len(),
            topology@ == state.topology(),
            *id == node.spec_id(),
            names_unique(r@),
            forall|m: Seq<char>| #[trigger] names_contain(r@, m)
                <==> exists|a: int, b: int| 0 <= a < i && topology@[a].0@ == id@ && 0 <= b < topology@[a].1@.len()
                    && #[trigger] topology@[a].1@[b]@ == m,
        decreases topology@.len() - i,
    {
        let ghost prev = r@;
        if topology[i].0 == *id {
            add_names(&mut r, &topology[i].1);
        }
        proof {
            let t = topology@;
            assert forall|m: Seq<char>| #[trigger] names_contain(r@, m)
                <==> exists|a: int, b: int| 0 <= a < i + 1 && t[a].0@ == id@ && 0 <= b < t[a].1@.len()
                    && #[trigger] t[a].1@[b]@ == m by {
                if names_contain(r@, m) && !names_contain(prev, m) {
                    let b = choose|b: int| 0 <= b < t[i as int].1@.len() && #[trigger] t[i as int].1@[b]@ == m;
                    assert(t[i as int].1@[b]@ == m);
                }
                if exists|a: int, b: int| 0 <= a < i + 1 && t[a].0@ == id@ && 0 <= b < t[a].1@.len()
                    && #[trigger] t[a].1@[b]@ == m {
                    let (a, b) = choose|a: int, b: int| 0 <= a < i + 1 && t[a].0@ == id@ && 0 <= b < t[a].1@.len()
                        && #[trigger] t[a].1@[b]@ == m;
                    if a == i {
                        assert(names_contain(t[a].1@, m));
                    } else {
                        assert(names_contain(prev, m));
                    }
                }
            }
        }
        i = i + 1;
    }
    proof {
        assert(name_set(r@) =~= gossip_targets(*node, *state));
        lemma_unique_names_len(r@);
    }
    r
}

/// The values that a gossip push to `n` owes it: those held and not recorded for `n`.
pub open spec fn gossip_delta(state: BroadcastState, n: Seq<char>) -> Set<i32> {
    state.values().difference(state.known_to(n))
}

/// `m` is an unsolicited gossip push from `src` to `dest` carrying exactly `delta`, each value once.
pub open spec fn is_gossip(m: Message<BroadcastPayload>, src: Seq<char>, dest: Seq<char>, delta: Set<i32>) -> bool {
    &&& m.src@ == src
    &&& m.dest@ == dest
    &&& m.body.msg_id is Some
    &&& m.body.in_reply_to is None
    &&& match m.body.payload {
        BroadcastPayload::Gossip { messages } => messages@.to_set() == delta && messages@.no_duplicates(),
        _ => false,
    }
}

/// `sent` is what one gossip tick from `src` over `targets` emits, given the store
/// `state` before the tick: one push to each target with a non-empty delta, and nothing else.
pub open spec fn tick_output(
    sent: Seq<Message<BroadcastPayload>>,
    src: Seq<char>,
    targets: Set<Seq<char>>,
    state: BroadcastState,
) -> bool {
    &&& forall|k: int| 0 <= k < sent.len() ==> {
        &&& targets.contains(#[trigger] sent[k].dest@)
        &&& gossip_delta(state, sent[k].dest@) != Set::<i32>::empty()
        &&& is_gossip(sent[k], src, sent[k].dest@, gossip_delta(state, sent[k].dest@))
    }
    &&& forall|a: int, b: int| 0 <= a < sent.len() && 0 <= b < sent.len() && a != b
        ==> #[trigger] sent[a].dest@ != #[trigger] sent[b].dest@
    &&& forall|n: Seq<char>| targets.contains(n) && #[trigger] gossip_delta(state, n) != Set::<i32>::empty()
        ==> exists|k: int| 0 <= k < sent.len() && #[trigger] sent[k].dest@ == n
}

/// The outcome of one gossip tick, from node `n0` and store `s0` to `n1` and `s1`.
pub open spec fn ticked<K>(
    n0: Node<K, BroadcastPayload>,
    n1: Node<K, BroadcastPayload>,
    s0: BroadcastState,
    s1: BroadcastState,
) -> bool {
    &&& n1.spec_id() == n0.spec_id()
    &&& n1.spec_node_ids() == n0.spec_node_ids()
    &&& n1.pending_view() == n0.pending_view()
    &&& n0.spec_message_id() <= n1.spec_message_id()
    &&& n1.spec_message_id() <= n0.spec_message_id() + gossip_targets(n0, s0).len()
    &&& s1.values() == s0.values()
    &&& s1.topology() == s0.topology()
    &&& forall|m: Seq<char>| #[trigger] s1.known_to(m) == if gossip_targets(n0, s0).contains(m) {
        s0.known_to(m).union(s0.values())
    } else {
        s0.known_to(m)
    }
    &&& n0.outbox_view().len() <= n1.outbox_view().len()
    &&& n1.outbox_view().subrange(0, n0.outbox_view().len() as int) == n0.outbox_view()
    &&& tick_output(
        n1.outbox_view().subrange(n0.outbox_view().len() as int, n1.outbox_view().len() as int),
        n0.spec_id()@,
        gossip_targets(n0, s0),
        s0,
    )
}

/// One gossip tick: to each declared neighbor, push the values not yet recorded as
/// delivered to it, and record them as delivered. A neighbor with nothing new gets nothing.
pub fn gossip_tick<K>(node: &mut Node<K, BroadcastPayload>, state: &mut BroadcastState)
    requires
        old(node).wf(),
        old(state).wf(),
        old(node).spec_message_id() + gossip_targets(*old(node), *old(state)).len() <= u64::MAX,
    ensures
        final(node).wf(),
        final(state).wf(),
        ticked(*old(node), *final(node), *old(state), *final(state)),
{
    let ns = get_neighbors(node, state);
    let ghost targets = gossip_targets(*old(node), *old(state));
    let ghost st0 = *old(state);
    let ghost start = old(node).outbox_view().len() as int;
    let mut k: usize = 0;
    while k < ns.len()
        invariant
            k <= ns@.len(),
            names_unique(ns@),
            name_set(ns@) == targets,
            ns@.len() == targets.len(),
            old(node).spec_message_id() + targets.len() <= u64::MAX,
            node.wf(),
            state.wf(),
            node.spec_id() == old(node).spec_id(),
            node.spec_node_ids() == old(node).spec_node_ids(),
            node.pending_view() == old(node).pending_view(),
            old(node).spec_message_id() <= node.spec_message_id() <= old(node).spec_message_id() + k,
            state.values() == st0.values(),
            state.topology() == st0.topology(),
            forall|m: Seq<char>| #[trigger] state.known_to(m) == if names_contain(ns@.subrange(0, k as int), m) {
                st0.known_to(m).union(st0.values())
            } else {
                st0.known_to(m)
            },
            start == old(node).outbox_view().len(),
            start <= node.outbox_view().len(),
            node.outbox_view().subrange(0, start) == old(node).outbox_view(),
            tick_output(
                node.outbox_view().subrange(start, node.outbox_view().len() as int),
                old(node).spec_id()@,
                name_set(ns@.subrange(0, k as int)),
                st0,
            ),
        decreases ns@.len() - k,
    {
        let n = &ns[k];
        let ghost before = *node;
        let ghost sbefore = *state;
        proof {
            if names_contain(ns@.subrange(0, k as int), n@) {
                let j = choose|j: int| 0 <= j < k && #[trigger] ns@.subrange(0, k as int)[j]@ == n@;
                assert(ns@[j]@ == ns@[k as int]@);
            }
            assert(state.known_to(n@) == st0.known_to(n@));
        }
        let delta = state.delta_for(n);
        if delta.len() > 0 {
            proof {
                assert(delta@.to_set().contains(delta@[0]));
                assert(gossip_delta(st0, n@).contains(delta@[0]));
            }
            state.mark_known(n, &delta);
            let src = node.id().clone();
            let m = Message {
                src,
                dest: n.clone(),
                body: Body { msg_id: Some(0), in_reply_to: None, payload: BroadcastPayload::Gossip { messages: delta } },
            };
            let ghost gm = m;
            node.send(m);
            proof {
                assert(node.outbox_view() == before.outbox_view().push(stamped(gm, before.spec_message_id())));
                assert(node.outbox_view().len() == before.outbox_view().len() + 1);
                assert forall|j: int| 0 <= j < before.outbox_view().len()
                    implies node.outbox_view()[j] == before.outbox_view()[j] by {}
            }
        } else {
            proof {
                assert(delta@.to_set() =~= Set::<i32>::empty());
                assert forall|v: i32| st0.values().contains(v) implies #[trigger] st0.known_to(n@).contains(v) by {
                    if !st0.known_to(n@).contains(v) {
                        assert(delta@.to_set().contains(v));
                    }
                }
                assert(st0.known_to(n@).union(st0.values()) =~= st0.known_to(n@));
            }
        }
        proof {
            let pre = ns@.subrange(0, k as int);
            let post = ns@.subrange(0, k + 1);
            assert forall|m: Seq<char>| #[trigger] names_contain(post, m) <==> (names_contain(pre, m) || m == n@) by {
                if names_contain(post, m) {
                    let j = choose|j: int| 0 <= j < post.len() && #[trigger] post[j]@ == m;
                    if j < k {
                        assert(pre[j]@ == m);
                    }
                }
                if names_contain(pre, m) {
                    let j = choose|j: int| 0 <= j < pre.len() && #[trigger] pre[j]@ == m;
                    assert(post[j]@ == m);
                }
                if m == n@ {
                    assert(post[k as int]@ == m);
                }
            }
            assert forall|m: Seq<char>| #[trigger] state.known_to(m) == if names_contain(post, m) {
                st0.known_to(m).union(st0.values())
            } else {
                st0.known_to(m)
            } by {
                if m == n@ && delta@.len() > 0 {
                    assert(state.known_to(m) =~= st0.known_to(m).union(st0.values()));
                }
            }
            let sent = node.outbox_view().subrange(start, node.outbox_view().len() as int);
            let sent0 = before.outbox_view().subrange(start, before.outbox_view().len() as int);
            assert forall|j: int| 0 <= j < start implies node.outbox_view()[j] == before.outbox_view()[j] by {
                assert(before.outbox_view().subrange(0, start)[j] == before.outbox_view()[j]);
            }
            assert(node.outbox_view().subrange(0, start) =~= before.outbox_view().subrange(0, start));
            assert(name_set(post).contains(n@));
            if delta@.len() > 0 {
                assert(sent.len() == sent0.len() + 1);
                assert forall|j: int| 0 <= j < sent0.len() implies sent[j] == sent0[j] by {
                    assert(sent[j] == node.outbox_view()[start + j]);
                    assert(sent0[j] == before.outbox_view()[start + j]);
                }
                assert(sent[sent.len() - 1] == node.outbox_view().last());
                assert(sent.last().dest@ == n@);
                assert forall|a: int, b: int| 0 <= a < sent.len() && 0 <= b < sent.len() && a != b
                    implies #[trigger] sent[a].dest@ != #[trigger] sent[b].dest@ by {
                    if a < sent0.len() && b < sent0.len() {
                        assert(sent0[a].dest@ != sent0[b].dest@);
                    } else if a < sent0.len() {
                        assert(name_set(pre).contains(sent0[a].dest@));
                    } else {
                        assert(name_set(pre).contains(sent0[b].dest@));
                    }
                }
                assert forall|m: Seq<char>| name_set(post).contains(m) && #[trigger] gossip_delta(st0, m) != Set::<i32>::empty()
                    implies exists|j: int| 0 <= j < sent.len() && #[trigger] sent[j].dest@ == m by {
                    if m == n@ {
                        assert(sent[sent.len() - 1].dest@ == m);
                    } else {
                        assert(name_set(pre).contains(m));
                        let j = choose|j: int| 0 <= j < sent0.len() && #[trigger] sent0[j].dest@ == m;
                        assert(sent[j] == sent0[j]);
                    }
                }
                assert forall|j: int| 0 <= j < sent.len() implies {
                    &&& name_set(post).contains(#[trigger] sent[j].dest@)
                    &&& gossip_delta(st0, sent[j].dest@) != Set::<i32>::empty()
                    &&& is_gossip(sent[j], old(node).spec_id()@, sent[j].dest@, gossip_delta(st0, sent[j].dest@))
                } by {
                    if j < sent0.len() {
                        assert(sent[j] == sent0[j]);
                        assert(name_set(pre).contains(sent0[j].dest@));
                    }
                }
            } else {
                assert(sent =~= sent0);
                assert(gossip_delta(st0, n@) =~= Set::<i32>::empty());
                assert forall|m: Seq<char>| name_set(post).contains(m) && #[trigger] gossip_delta(st0, m) != Set::<i32>::empty()
                    implies exists|j: int| 0 <= j < sent.len() && #[trigger] sent[j].dest@ == m by {
                    assert(name_set(pre).contains(m));
                }
                assert forall|j: int| 0 <= j < sent.len() implies name_set(post).contains(#[trigger] sent[j].dest@) by {
                    assert(name_set(pre).contains(sent0[j].dest@));
                }
            }
        }
        k = k + 1;
    }
    proof {
        assert(ns@.subrange(0, k as int) =~= ns@);
    }
}

/// The fixed part of the pause between two gossip ticks, in milliseconds.
pub const GOSSIP_BASE_MS: u64 = 100;

/// The bound of the random part of the pause between two gossip ticks, in milliseconds.
pub const GOSSIP_JITTER_MS: u64 = 200;

/// Relies on rand's `thread_rng` and `Rng::gen_range`: a value drawn from `0..bound`,
/// which `gen_range` promises for a non-empty range.
#[verifier::external_body]
fn random_below(bound: u64) -> (r: u64)
    requires
        bound > 0,
    ensures
        r < bound,
{
    rand::Rng::gen_range(&mut rand::thread_rng(), 0..bound)
}

/// The pause before the next gossip tick: the base interval plus a jitter drawn
/// afresh on every call, so that nodes do not gossip in lockstep.
pub fn next_gossip_delay_ms() -> (r: u64)
    ensures
        GOSSIP_BASE_MS <= r < GOSSIP_BASE_MS + GOSSIP_JITTER_MS,
{
    GOSSIP_BASE_MS + random_below(GOSSIP_JITTER_MS)
}

} // verus!
