use vstd::prelude::*;
use crate::envelope::{BroadcastPayload, Message};
use crate::broadcast::{answers_pending, handled, stepped, BroadcastError, Event};
use crate::gossip::{gossip_targets, is_gossip, ticked};
use crate::node::{correlated, Node};
use crate::store::BroadcastState;
use crate::store::merged;

verus! {

/// The value set after merging `batches` one after another into `values`.
pub open spec fn merge_all(values: Set<i32>, batches: Seq<Seq<i32>>) -> Set<i32>
    decreases batches.len(),
{
    if batches.len() == 0 {
        values
    } else {
        merged(merge_all(values, batches.drop_last()), batches.last())
    }
}

/// Every value that occurs in some batch of `batches`.
pub open spec fn union_of(batches: Seq<Seq<i32>>) -> Set<i32> {
    Set::new(|x: i32| exists|i: int| 0 <= i < batches.len() && #[trigger] batches[i].contains(x))
}

/// Merging a value a second time changes nothing: the set is the one that a
/// single merge of it gave.
pub proof fn lemma_merge_idempotent(values: Set<i32>, v: i32)
    ensures
        merged(merged(values, seq![v]), seq![v]) == merged(values, seq![v]),
{
    assert(seq![v][0] == v);
    assert(merged(merged(values, seq![v]), seq![v]) =~= merged(values, seq![v]));
}

/// Merging any sequence of batches yields the starting set joined with the union
/// of all the batches, whatever their order.
pub proof fn lemma_merge_all_is_union(values: Set<i32>, batches: Seq<Seq<i32>>)
    ensures
        merge_all(values, batches) == values.union(union_of(batches)),
    decreases batches.len(),
{
    if batches.len() > 0 {
        let init = batches.drop_last();
        lemma_merge_all_is_union(values, init);
        assert forall|x: i32| #[trigger] merge_all(values, batches).contains(x)
            <==> values.union(union_of(batches)).contains(x) by {
            if union_of(init).contains(x) {
                let i = choose|i: int| 0 <= i < init.len() && #[trigger] init[i].contains(x);
                assert(batches[i] == init[i]);
            }
            if union_of(batches).contains(x) {
                let i = choose|i: int| 0 <= i < batches.len() && #[trigger] batches[i].contains(x);
                if i < init.len() {
                    assert(init[i] == batches[i]);
                    assert(union_of(init).contains(x));
                } else {
                    assert(batches.last().to_set().contains(x));
                }
            }
            if batches.last().to_set().contains(x) {
                assert(batches[batches.len() - 1].contains(x));
            }
        }
        assert(merge_all(values, batches) =~= values.union(union_of(batches)));
    }
}

/// Merging the same batches in two different orders gives the same value set.
pub proof fn lemma_merge_order_irrelevant(values: Set<i32>, batches: Seq<Seq<i32>>, reordered: Seq<Seq<i32>>)
    requires
        reordered.to_multiset() == batches.to_multiset(),
    ensures
        merge_all(values, batches) == merge_all(values, reordered),
{
    lemma_merge_all_is_union(values, batches);
    lemma_merge_all_is_union(values, reordered);
    batches.to_multiset_ensures();
    reordered.to_multiset_ensures();
    assert forall|x: i32| #[trigger] union_of(batches).contains(x) <==> union_of(reordered).contains(x) by {
        if union_of(batches).contains(x) {
            let i = choose|i: int| 0 <= i < batches.len() && #[trigger] batches[i].contains(x);
            assert(batches.contains(batches[i]));
            assert(batches.to_multiset().count(batches[i]) > 0);
            assert(reordered.to_multiset().count(batches[i]) > 0);
            assert(reordered.contains(batches[i]));
            let j = choose|j: int| 0 <= j < reordered.len() && reordered[j] == batches[i];
            assert(reordered[j].contains(x));
        }
        if union_of(reordered).contains(x) {
            let i = choose|i: int| 0 <= i < reordered.len() && #[trigger] reordered[i].contains(x);
            assert(reordered.contains(reordered[i]));
            assert(reordered.to_multiset().count(reordered[i]) > 0);
            assert(batches.to_multiset().count(reordered[i]) > 0);
            assert(batches.contains(reordered[i]));
            let j = choose|j: int| 0 <= j < batches.len() && batches[j] == reordered[i];
            assert(batches[j].contains(x));
        }
    }
    assert(union_of(batches) =~= union_of(reordered));
}

/// A continuation registered under `k` is handed out only to a message with
/// `in_reply_to == k`; once handed out, `k` is gone from the table, so a second
/// message correlated after it, whatever it carries, receives nothing for `k`.
pub proof fn lemma_correlation_lifecycle<K, P>(
    t0: Map<u64, K>,
    t1: Map<u64, K>,
    t2: Map<u64, K>,
    first: Message<P>,
    second: Message<P>,
    r1: Option<K>,
    r2: Option<K>,
    k: u64,
)
    requires
        t0.contains_key(k),
        correlated(t0, t1, first.body.in_reply_to, r1),
        correlated(t1, t2, second.body.in_reply_to, r2),
    ensures
        (r1 is Some && t0.remove(k) == t1) <==> first.body.in_reply_to == Some(k),
        first.body.in_reply_to == Some(k) ==> r1 == Some(t0[k]) && !t1.contains_key(k)
            && !(second.body.in_reply_to == Some(k) && r2 is Some),
        first.body.in_reply_to != Some(k) ==> t1.contains_key(k) && t1[k] == t0[k],
{
    match first.body.in_reply_to {
        Some(j) => {
            if j != k && t0.contains_key(j) {
                assert(t1.contains_key(k));
                assert(t0.remove(k).contains_key(j) != t1.contains_key(j));
            }
        },
        None => {},
    }
}

/// A run of the event loop: `events[t]` took `nodes[t]` and `states[t]` to
/// `nodes[t + 1]` and `states[t + 1]`, with result `results[t]`.
pub open spec fn is_run<K>(
    nodes: Seq<Node<K, BroadcastPayload>>,
    states: Seq<BroadcastState>,
    events: Seq<Event>,
    results: Seq<Result<Option<K>, BroadcastError>>,
) -> bool {
    &&& nodes.len() == events.len() + 1
    &&& states.len() == events.len() + 1
    &&& results.len() == events.len()
    &&& forall|t: int| 0 <= t < events.len()
        ==> #[trigger] stepped(nodes[t], nodes[t + 1], states[t], states[t + 1], events[t], results[t])
}

/// No event removes a value from the store.
pub proof fn lemma_step_keeps_values<K>(
    n0: Node<K, BroadcastPayload>,
    n1: Node<K, BroadcastPayload>,
    s0: BroadcastState,
    s1: BroadcastState,
    event: Event,
    r: Result<Option<K>, BroadcastError>,
)
    requires
        stepped(n0, n1, s0, s1, event, r),
    ensures
        s0.values().subset_of(s1.values()),
{
    match event {
        Event::Message(m) => {
            if !answers_pending(n0, m) && n0.spec_message_id() < u64::MAX {
                if let BroadcastPayload::Broadcast { message } = m.body.payload {
                    assert(s1.values() == s0.values().insert(message));
                }
            }
        },
        Event::Gossip => {},
    }
}

/// A value held at step `a` of a run is still held at every later step `b`.
pub proof fn lemma_run_keeps_value<K>(
    nodes: Seq<Node<K, BroadcastPayload>>,
    states: Seq<BroadcastState>,
    events: Seq<Event>,
    results: Seq<Result<Option<K>, BroadcastError>>,
    a: int,
    b: int,
    v: i32,
)
    requires
        is_run(nodes, states, events, results),
        0 <= a <= b <= events.len(),
        states[a].values().contains(v),
    ensures
        states[b].values().contains(v),
    decreases b - a,
{
    if a < b {
        assert(stepped(nodes[a], nodes[a + 1], states[a], states[a + 1], events[a], results[a]));
        lemma_step_keeps_values(nodes[a], nodes[a + 1], states[a], states[a + 1], events[a], results[a]);
        lemma_run_keeps_value(nodes, states, events, results, a + 1, b, v);
    }
}

/// A value whose broadcast was handled in a run is in the answer to every later read.
pub proof fn lemma_no_loss<K>(
    nodes: Seq<Node<K, BroadcastPayload>>,
    states: Seq<BroadcastState>,
    events: Seq<Event>,
    results: Seq<Result<Option<K>, BroadcastError>>,
    i: int,
    j: int,
    v: i32,
)
    requires
        is_run(nodes, states, events, results),
        0 <= i < j < events.len(),
        events[i] matches Event::Message(b) && b.body.payload == (BroadcastPayload::Broadcast { message: v }),
        results[i] == Ok::<Option<K>, BroadcastError>(None),
        events[j] matches Event::Message(q) && q.body.payload is Read,
        results[j] == Ok::<Option<K>, BroadcastError>(None),
    ensures
        nodes[j + 1].outbox_view().last().body.payload matches BroadcastPayload::ReadOk { messages }
            && messages@.contains(v),
{
    assert(stepped(nodes[i], nodes[i + 1], states[i], states[i + 1], events[i], results[i]));
    assert(states[i + 1].values().contains(v));
    lemma_run_keeps_value(nodes, states, events, results, i + 1, j, v);
    assert(stepped(nodes[j], nodes[j + 1], states[j], states[j + 1], events[j], results[j]));
    if let BroadcastPayload::ReadOk { messages } = nodes[j + 1].outbox_view().last().body.payload {
        assert(messages@.to_set().contains(v));
    }
}

/// In a gossip tick, the push to a neighbor carries no value already recorded as
/// delivered to it, and every held value not recorded for it; a neighbor for which
/// some held value is unrecorded gets such a push.
pub proof fn lemma_gossip_delta<K>(
    n0: Node<K, BroadcastPayload>,
    n1: Node<K, BroadcastPayload>,
    s0: BroadcastState,
    s1: BroadcastState,
)
    requires
        ticked(n0, n1, s0, s1),
    ensures
        forall|k: int| n0.outbox_view().len() <= k < n1.outbox_view().len() ==> {
            let m = #[trigger] n1.outbox_view()[k];
            &&& m.body.payload matches BroadcastPayload::Gossip { messages }
                && (forall|x: i32| messages@.contains(x) ==> !s0.known_to(m.dest@).contains(x))
                && (forall|x: i32| s0.values().contains(x) && !s0.known_to(m.dest@).contains(x) ==> messages@.contains(x))
        },
        forall|n: Seq<char>, x: i32| gossip_targets(n0, s0).contains(n) && s0.values().contains(x)
            && !#[trigger] s0.known_to(n).contains(x)
            ==> exists|k: int| n0.outbox_view().len() <= k < n1.outbox_view().len()
                && (#[trigger] n1.outbox_view()[k]).dest@ == n,
{
    let start = n0.outbox_view().len() as int;
    let sent = n1.outbox_view().subrange(start, n1.outbox_view().len() as int);
    assert forall|k: int| start <= k < n1.outbox_view().len() implies {
        let m = #[trigger] n1.outbox_view()[k];
        &&& m.body.payload matches BroadcastPayload::Gossip { messages }
            && (forall|x: i32| messages@.contains(x) ==> !s0.known_to(m.dest@).contains(x))
            && (forall|x: i32| s0.values().contains(x) && !s0.known_to(m.dest@).contains(x) ==> messages@.contains(x))
    } by {
        assert(sent[k - start] == n1.outbox_view()[k]);
        let m = n1.outbox_view()[k];
        assert(is_gossip(m, n0.spec_id()@, m.dest@, s0.values().difference(s0.known_to(m.dest@))));
        if let BroadcastPayload::Gossip { messages } = m.body.payload {
            assert forall|x: i32| messages@.contains(x) implies !s0.known_to(m.dest@).contains(x) by {
                assert(messages@.to_set().contains(x));
            }
            assert forall|x: i32| s0.values().contains(x) && !s0.known_to(m.dest@).contains(x)
                implies messages@.contains(x) by {
                assert(messages@.to_set().contains(x));
            }
        }
    }
    assert forall|n: Seq<char>, x: i32| gossip_targets(n0, s0).contains(n) && s0.values().contains(x)
        && !#[trigger] s0.known_to(n).contains(x)
        implies exists|k: int| n0.outbox_view().len() <= k < n1.outbox_view().len()
            && (#[trigger] n1.outbox_view()[k]).dest@ == n by {
        assert(crate::gossip::gossip_delta(s0, n).contains(x));
        assert(crate::gossip::gossip_delta(s0, n) != Set::<i32>::empty());
        let k = choose|k: int| 0 <= k < sent.len() && #[trigger] sent[k].dest@ == n;
        assert(n1.outbox_view()[start + k] == sent[k]);
    }
}

/// One hop of convergence. Node `a` ticks, and `b` is one of its neighbors whose
/// store holds every value that `a` records as delivered to it. If the tick pushes
/// to `b`, then once `b` handles that push, `b` holds every value that `a` held.
pub proof fn lemma_gossip_hop<K>(
    a0: Node<K, BroadcastPayload>,
    a1: Node<K, BroadcastPayload>,
    sa0: BroadcastState,
    sa1: BroadcastState,
    k: int,
    b0: Node<K, BroadcastPayload>,
    b1: Node<K, BroadcastPayload>,
    sb0: BroadcastState,
    sb1: BroadcastState,
    r: Result<Option<K>, BroadcastError>,
)
    requires
        ticked(a0, a1, sa0, sa1),
        a0.outbox_view().len() <= k < a1.outbox_view().len(),
        sa0.known_to(a1.outbox_view()[k].dest@).subset_of(sb0.values()),
        handled(b0, b1, sb0, sb1, a1.outbox_view()[k], r),
        !answers_pending(b0, a1.outbox_view()[k]),
    ensures
        sa0.values().subset_of(sb1.values()),
{
    lemma_gossip_delta(a0, a1, sa0, sa1);
    let m = a1.outbox_view()[k];
    if let BroadcastPayload::Gossip { messages } = m.body.payload {
        assert forall|x: i32| sa0.values().contains(x) implies sb1.values().contains(x) by {
            if !sa0.known_to(m.dest@).contains(x) {
                assert(messages@.contains(x));
                assert(messages@.to_set().contains(x));
            }
        }
    }
}

/// The other half of a hop: a neighbor to which a tick pushes nothing is already
/// recorded as holding every value of the ticking node.
pub proof fn lemma_no_push_means_known<K>(
    a0: Node<K, BroadcastPayload>,
    a1: Node<K, BroadcastPayload>,
    sa0: BroadcastState,
    sa1: BroadcastState,
    n: Seq<char>,
)
    requires
        ticked(a0, a1, sa0, sa1),
        gossip_targets(a0, sa0).contains(n),
        forall|k: int| a0.outbox_view().len() <= k < a1.outbox_view().len() ==> (#[trigger] a1.outbox_view()[k]).dest@ != n,
    ensures
        sa0.values().subset_of(sa0.known_to(n)),
{
    lemma_gossip_delta(a0, a1, sa0, sa1);
}

/// Whether `b` can be reached from `a` in at most `k` gossip hops along `nbrs`.
pub open spec fn reaches(nbrs: spec_fn(Seq<char>) -> Set<Seq<char>>, a: Seq<char>, b: Seq<char>, k: nat) -> bool
    decreases k,
{
    a == b || (k > 0 && exists|c: Seq<char>| #[trigger] nbrs(c).contains(b) && reaches(nbrs, a, c, (k - 1) as nat))
}

/// One loss-free gossip round of a cluster, as node value sets before and after it:
/// no node loses a value, and each node ends up with every value that a node
/// gossiping to it held before the round (what `lemma_gossip_hop` and
/// `lemma_no_push_means_known` give for each link when knowledge is accurate).
pub open spec fn gossip_round(
    nbrs: spec_fn(Seq<char>) -> Set<Seq<char>>,
    before: spec_fn(Seq<char>) -> Set<i32>,
    after: spec_fn(Seq<char>) -> Set<i32>,
) -> bool {
    &&& forall|n: Seq<char>| #[trigger] before(n).subset_of(after(n))
    &&& forall|a: Seq<char>, b: Seq<char>| #[trigger] nbrs(a).contains(b) ==> before(a).subset_of(#[trigger] after(b))
}

/// Convergence: after `k` loss-free gossip rounds, every node holds every value that
/// any node within `k` hops of it held at the start; in a cluster connected within
/// `k` hops, every node then holds the union of all values.
pub proof fn lemma_convergence(
    nbrs: spec_fn(Seq<char>) -> Set<Seq<char>>,
    rounds: Seq<spec_fn(Seq<char>) -> Set<i32>>,
    a: Seq<char>,
    b: Seq<char>,
    k: nat,
)
    requires
        k < rounds.len(),
        forall|r: int| 0 <= r < rounds.len() - 1 ==> gossip_round(nbrs, #[trigger] rounds[r], rounds[r + 1]),
        reaches(nbrs, a, b, k),
    ensures
        rounds[0](a).subset_of(rounds[k as int](b)),
    decreases k,
{
    if a == b {
        lemma_round_keeps(nbrs, rounds, b, k);
    } else {
        let c = choose|c: Seq<char>| #[trigger] nbrs(c).contains(b) && reaches(nbrs, a, c, (k - 1) as nat);
        lemma_convergence(nbrs, rounds, a, c, (k - 1) as nat);
        assert(gossip_round(nbrs, rounds[k - 1], rounds[k as int]));
        assert(rounds[k - 1](c).subset_of(rounds[k as int](b)));
    }
}

/// Across rounds, a node keeps every value it held at the start.
pub proof fn lemma_round_keeps(
    nbrs: spec_fn(Seq<char>) -> Set<Seq<char>>,
    rounds: Seq<spec_fn(Seq<char>) -> Set<i32>>,
    n: Seq<char>,
    k: nat,
)
    requires
        k < rounds.len(),
        forall|r: int| 0 <= r < rounds.len() - 1 ==> gossip_round(nbrs, #[trigger] rounds[r], rounds[r + 1]),
    ensures
        rounds[0](n).subset_of(rounds[k as int](n)),
    decreases k,
{
    if k > 0 {
        lemma_round_keeps(nbrs, rounds, n, (k - 1) as nat);
        assert(gossip_round(nbrs, rounds[k - 1], rounds[k as int]));
        assert(rounds[k - 1](n).subset_of(rounds[k as int](n)));
    }
}

} // verus!
