use vstd::prelude::*;

verus! {

/// The ids in `names`, as character sequences.
pub open spec fn views(names: Seq<String>) -> Seq<Seq<char>> {
    names.map_values(|s: String| s@)
}

/// The neighbors that `topology` declares for `id`: every id listed under an entry for `id`.
pub open spec fn declared_neighbors(topology: Seq<(String, Vec<String>)>, id: Seq<char>) -> Set<Seq<char>> {
    Set::new(
        |m: Seq<char>|
            exists|i: int, j: int|
                0 <= i < topology.len() && topology[i].0@ == id && 0 <= j < topology[i].1@.len()
                    && #[trigger] topology[i].1@[j]@ == m,
    )
}

/// The values that `knowledge` records as delivered to `n`.
pub open spec fn recorded_for(knowledge: Seq<(String, Vec<i32>)>, n: Seq<char>) -> Set<i32> {
    Set::new(
        |v: i32|
            exists|i: int| 0 <= i < knowledge.len() && #[trigger] knowledge[i].0@ == n && knowledge[i].1@.contains(v),
    )
}

/// The value set `values` after merging in `vals`.
pub open spec fn merged(values: Set<i32>, vals: Seq<i32>) -> Set<i32> {
    values.union(vals.to_set())
}

/// Whether `x` occurs in `v`.
pub fn vec_contains(v: &Vec<i32>, x: i32) -> (r: bool)
    ensures
        r == v@.contains(x),
{
    let mut i: usize = 0;
    while i < v.len()
        invariant
            i <= v@.len(),
            forall|j: int| 0 <= j < i ==> v@[j] != x,
        decreases v@.len() - i,
    {
        if v[i] == x {
            return true;
        }
        i = i + 1;
    }
    false
}

/// Adds to `into` each value of `vals` that it does not hold yet.
fn union_into(into: &mut Vec<i32>, vals: &Vec<i32>)
    requires
        old(into)@.no_duplicates(),
    ensures
        final(into)@.no_duplicates(),
        final(into)@.to_set() == old(into)@.to_set().union(vals@.to_set()),
{
    let mut i: usize = 0;
    while i < vals.len()
        invariant
            i <= vals@.len(),
            into@.no_duplicates(),
            forall|x: i32| #[trigger] into@.contains(x)
                <==> (old(into)@.contains(x) || exists|j: int| 0 <= j < i && vals@[j] == x),
        decreases vals@.len() - i,
    {
        let x = vals[i];
        let ghost prev = into@;
        if !vec_contains(into, x) {
            into.push(x);
            assert(into@.last() == x);
        }
        proof {
            assert forall|y: i32| #[trigger] into@.contains(y) <==> (prev.contains(y) || y == x) by {
                if into@.contains(y) && y != x {
                    let j = choose|j: int| 0 <= j < into@.len() && into@[j] == y;
                    assert(prev[j] == y);
                }
                if prev.contains(y) {
                    let j = choose|j: int| 0 <= j < prev.len() && prev[j] == y;
                    assert(into@[j] == y);
                }
            }
            assert forall|y: i32| #[trigger] into@.contains(y)
                <==> (old(into)@.contains(y) || exists|j: int| 0 <= j < i + 1 && vals@[j] == y) by {
                if y == x {
                    assert(vals@[i as int] == y);
                }
                if exists|j: int| 0 <= j < i + 1 && vals@[j] == y {
                    let j = choose|j: int| 0 <= j < i + 1 && vals@[j] == y;
                    if j < i {
                        assert(prev.contains(y));
                    }
                }
            }
        }
        i = i + 1;
    }
    assert(into@.to_set() =~= old(into)@.to_set().union(vals@.to_set()));
}

/// The replicated state of a broadcast node: the declared topology, the grow-only
/// set of values, and per neighbor the values believed already delivered to it.
pub struct BroadcastState {
    topology: Vec<(String, Vec<String>)>,
    messages: Vec<i32>,
    known_to_neighbors: Vec<(String, Vec<i32>)>,
}

impl BroadcastState {
    /// Each value is held once, and each neighbor has at most one knowledge entry.
    pub closed spec fn wf(self) -> bool {
        &&& self.messages@.no_duplicates()
        &&& forall|i: int, j: int|
            0 <= i < self.known_to_neighbors@.len() && 0 <= j < self.known_to_neighbors@.len() && i != j
                ==> #[trigger] self.known_to_neighbors@[i].0@ != #[trigger] self.known_to_neighbors@[j].0@
        &&& forall|i: int| 0 <= i < self.known_to_neighbors@.len()
                ==> (#[trigger] self.known_to_neighbors@[i]).1@.no_duplicates()
    }

    /// The replicated value set.
    pub closed spec fn values(self) -> Set<i32> {
        self.messages@.to_set()
    }

    /// The topology as last recorded.
    pub closed spec fn topology(self) -> Seq<(String, Vec<String>)> {
        self.topology@
    }

    /// The values recorded as already delivered to neighbor `n`.
    pub closed spec fn known_to(self, n: Seq<char>) -> Set<i32> {
        recorded_for(self.known_to_neighbors@, n)
    }

    /// The recorded topology entries: each node id with its declared neighbors.
    pub fn topology_entries(&self) -> (r: &Vec<(String, Vec<String>)>)
        ensures
            r@ == self.topology(),
    {
        &self.topology
    }

    /// An empty store: no topology, no values, no knowledge.
    pub fn new() -> (r: Self)
        ensures
            r.wf(),
            r.values() == Set::<i32>::empty(),
            r.topology() == Seq::<(String, Vec<String>)>::empty(),
            forall|n: Seq<char>| #[trigger] r.known_to(n) == Set::<i32>::empty(),
    {
        let r = BroadcastState { topology: Vec::new(), messages: Vec::new(), known_to_neighbors: Vec::new() };
        assert(r.values() =~= Set::<i32>::empty());
        assert forall|n: Seq<char>| #[trigger] r.known_to(n) == Set::<i32>::empty() by {
            assert(r.known_to(n) =~= Set::<i32>::empty());
        }
        r
    }

    /// Replaces the topology wholesale.
    pub fn record_topology(&mut self, topology: Vec<(String, Vec<String>)>)
        requires
            old(self).wf(),
        ensures
            final(self).wf(),
            final(self).topology() == topology@,
            final(self).values() == old(self).values(),
            forall|n: Seq<char>| #[trigger] final(self).known_to(n) == old(self).known_to(n),
    {
        self.topology = topology;
    }

    /// Inserts `v`; tells whether it was new.
    pub fn record_value(&mut self, v: i32) -> (r: bool)
        requires
            old(self).wf(),
        ensures
            final(self).wf(),
            r == !old(self).values().contains(v),
            final(self).values() == old(self).values().insert(v),
            final(self).topology() == old(self).topology(),
            forall|n: Seq<char>| #[trigger] final(self).known_to(n) == old(self).known_to(n),
    {
        if vec_contains(&self.messages, v) {
            assert(self.values() =~= old(self).values().insert(v));
            false
        } else {
            self.messages.push(v);
            proof {
                assert(self.messages@.last() == v);
                assert forall|x: i32| #[trigger] self.messages@.contains(x) <==> (old(self).messages@.contains(x) || x == v) by {
                    if self.messages@.contains(x) && x != v {
                        let j = choose|j: int| 0 <= j < self.messages@.len() && self.messages@[j] == x;
                        assert(old(self).messages@[j] == x);
                    }
                    if old(self).messages@.contains(x) {
                        let j = choose|j: int| 0 <= j < old(self).messages@.len() && old(self).messages@[j] == x;
                        assert(self.messages@[j] == x);
                    }
                }
                assert(self.values() =~= old(self).values().insert(v));
            }
            true
        }
    }

    /// Inserts every value of `vals`: the union of the value set with `vals`.
    pub fn merge_values(&mut self, vals: &Vec<i32>)
        requires
            old(self).wf(),
        ensures
            final(self).wf(),
            final(self).values() == merged(old(self).values(), vals@),
            final(self).topology() == old(self).topology(),
            forall|n: Seq<char>| #[trigger] final(self).known_to(n) == old(self).known_to(n),
    {
        union_into(&mut self.messages, vals);
    }

    /// A copy of the value set, each value once.
    pub fn snapshot_values(&self) -> (r: Vec<i32>)
        requires
            self.wf(),
        ensures
            r@.to_set() == self.values(),
            r@.no_duplicates(),
    {
        self.messages.clone()
    }

    /// The position of the knowledge entry for `n`, if there is one.
    fn find_known(&self, n: &String) -> (r: Option<usize>)
        requires
            self.wf(),
        ensures
            match r {
                Some(i) => i < self.known_to_neighbors@.len() && self.known_to_neighbors@[i as int].0@ == n@
                    && self.known_to(n@) == self.known_to_neighbors@[i as int].1@.to_set(),
                None => forall|i: int| 0 <= i < self.known_to_neighbors@.len()
                    ==> #[trigger] self.known_to_neighbors@[i].0@ != n@,
            },
            r is None ==> self.known_to(n@) == Set::<i32>::empty(),
    {
        let mut i: usize = 0;
        while i < self.known_to_neighbors.len()
            invariant
                self.wf(),
                i <= self.known_to_neighbors@.len(),
                forall|j: int| 0 <= j < i ==> #[trigger] self.known_to_neighbors@[j].0@ != n@,
            decreases self.known_to_neighbors@.len() - i,
        {
            if self.known_to_neighbors[i].0 == *n {
                proof {
                    let e = self.known_to_neighbors@[i as int];
                    assert forall|v: i32| #[trigger] self.known_to(n@).contains(v) <==> e.1@.contains(v) by {
                        if self.known_to(n@).contains(v) {
                            let j = choose|j: int| 0 <= j < self.known_to_neighbors@.len()
                                && #[trigger] self.known_to_neighbors@[j].0@ == n@ && self.known_to_neighbors@[j].1@.contains(v);
                            assert(j == i);
                        }
                    }
                    assert(self.known_to(n@) =~= e.1@.to_set());
                }
                return Some(i);
            }
            i = i + 1;
        }
        assert(self.known_to(n@) =~= Set::<i32>::empty());
        None
    }

    /// The values that gossip to `n` should carry: those held here and not
    /// recorded as delivered to `n`, each once.
    pub fn delta_for(&self, n: &String) -> (r: Vec<i32>)
        requires
            self.wf(),
        ensures
            r@.to_set() == self.values().difference(self.known_to(n@)),
            r@.no_duplicates(),
    {
        let empty: Vec<i32> = Vec::new();
        let found = self.find_known(n);
        let known: &Vec<i32> = match found {
            Some(i) => &self.known_to_neighbors[i].1,
            None => &empty,
        };
        assert(known@.to_set() == self.known_to(n@));
        let mut r: Vec<i32> = Vec::new();
        let mut i: usize = 0;
        while i < self.messages.len()
            invariant
                i <= self.messages@.len(),
                self.wf(),
                known@.to_set() == self.known_to(n@),
                r@.no_duplicates(),
                forall|x: i32| #[trigger] r@.contains(x)
                    <==> (!known@.contains(x) && exists|j: int| 0 <= j < i && self.messages@[j] == x),
            decreases self.messages@.len() - i,
        {
            let x = self.messages[i];
            let ghost prev = r@;
            if !vec_contains(known, x) {
                proof {
                    if prev.contains(x) {
                        let j = choose|j: int| 0 <= j < i && self.messages@[j] == x;
                        assert(self.messages@[i as int] == x);
                    }
                }
                r.push(x);
                assert(r@.last() == x);
            }
            proof {
                assert forall|y: i32| #[trigger] r@.contains(y) <==> (prev.contains(y) || (y == x && !known@.contains(x))) by {
                    if r@.contains(y) && !(y == x && !known@.contains(x)) {
                        let j = choose|j: int| 0 <= j < r@.len() && r@[j] == y;
                        assert(prev[j] == y);
                    }
                    if prev.contains(y) {
                        let j = choose|j: int| 0 <= j < prev.len() && prev[j] == y;
                        assert(r@[j] == y);
                    }
                }
                assert forall|y: i32| #[trigger] r@.contains(y)
                    <==> (!known@.contains(y) && exists|j: int| 0 <= j < i + 1 && self.messages@[j] == y) by {
                    if y == x {
                        assert(self.messages@[i as int] == y);
                    }
                    if exists|j: int| 0 <= j < i + 1 && self.messages@[j] == y {
                        let j = choose|j: int| 0 <= j < i + 1 && self.messages@[j] == y;
                        if j < i {
                            assert(prev.contains(y) || known@.contains(y));
                        }
                    }
                }
            }
            i = i + 1;
        }
        assert(r@.to_set() =~= self.values().difference(self.known_to(n@)));
        r
    }

    /// Records that neighbor `n` holds every value of `vals`.
    pub fn mark_known(&mut self, n: &String, vals: &Vec<i32>)
        requires
            old(self).wf(),
        ensures
            final(self).wf(),
            final(self).known_to(n@) == old(self).known_to(n@).union(vals@.to_set()),
            forall|m: Seq<char>| m != n@ ==> #[trigger] final(self).known_to(m) == old(self).known_to(m),
            final(self).values() == old(self).values(),
            final(self).topology() == old(self).topology(),
    {
        match self.find_known(n) {
            Some(i) => {
                let name = self.known_to_neighbors[i].0.clone();
                let mut list = self.known_to_neighbors[i].1.clone();
                assert(list@ == old(self).known_to_neighbors@[i as int].1@);
                union_into(&mut list, vals);
                let ghost e = (name, list);
                self.known_to_neighbors.set(i, (name, list));
                proof {
                    let ks = self.known_to_neighbors@;
                    let olds = old(self).known_to_neighbors@;
                    assert(ks == olds.update(i as int, e));
                    assert forall|a: int, b: int| 0 <= a < ks.len() && 0 <= b < ks.len() && a != b
                        implies #[trigger] ks[a].0@ != #[trigger] ks[b].0@ by {
                        assert(olds[a].0@ != olds[b].0@);
                    }
                    assert forall|a: int| 0 <= a < ks.len() implies (#[trigger] ks[a]).1@.no_duplicates() by {
                        if a != i {
                            assert(olds[a] == ks[a]);
                        }
                    }
                    assert forall|m: Seq<char>| #[trigger] self.known_to(m)
                        == (if m == n@ { old(self).known_to(m).union(vals@.to_set()) } else { old(self).known_to(m) }) by {
                        assert forall|v: i32| #[trigger] self.known_to(m).contains(v) <==>
                            (old(self).known_to(m).contains(v) || (m == n@ && vals@.to_set().contains(v))) by {
                            if self.known_to(m).contains(v) {
                                let j = choose|j: int| 0 <= j < ks.len() && #[trigger] ks[j].0@ == m && ks[j].1@.contains(v);
                                if j != i {
                                    assert(olds[j] == ks[j]);
                                    assert(olds[j].0@ == m);
                                } else {
                                    assert(ks[j] == e);
                                    assert(e.1@.to_set().contains(v));
                                    assert(olds[j].0@ == m);
                                    if olds[j].1@.to_set().contains(v) {
                                        assert(olds[j].1@.contains(v));
                                    }
                                }
                            }
                            if old(self).known_to(m).contains(v) {
                                let j = choose|j: int| 0 <= j < olds.len() && #[trigger] olds[j].0@ == m && olds[j].1@.contains(v);
                                if j != i {
                                    assert(olds[j] == ks[j]);
                                    assert(ks[j].0@ == m);
                                } else {
                                    assert(olds[j].1@.to_set().contains(v));
                                    assert(e.1@.to_set().contains(v));
                                    assert(ks[j].1@.contains(v));
                                    assert(ks[j].0@ == m);
                                }
                            }
                            if m == n@ && vals@.to_set().contains(v) {
                                assert(e.1@.to_set().contains(v));
                                assert(ks[i as int].1@.contains(v));
                                assert(ks[i as int].0@ == m);
                            }
                        }
                        if m == n@ {
                            assert(self.known_to(m) =~= old(self).known_to(m).union(vals@.to_set()));
                        } else {
                            assert(self.known_to(m) =~= old(self).known_to(m));
                        }
                    }
                }
            },
            None => {
                let mut list: Vec<i32> = Vec::new();
                union_into(&mut list, vals);
                let name = n.clone();
                let ghost e = (name, list);
                self.known_to_neighbors.push((name, list));
                proof {
                    let ks = self.known_to_neighbors@;
                    let olds = old(self).known_to_neighbors@;
                    assert(ks == olds.push(e));
                    assert(list@.to_set() =~= vals@.to_set());
                    assert forall|a: int, b: int| 0 <= a < ks.len() && 0 <= b < ks.len() && a != b
                        implies #[trigger] ks[a].0@ != #[trigger] ks[b].0@ by {
                        if a < olds.len() && b < olds.len() {
                            assert(olds[a].0@ != olds[b].0@);
                        } else if a < olds.len() {
                            assert(olds[a].0@ != n@);
                        } else {
                            assert(olds[b].0@ != n@);
                        }
                    }
                    assert forall|a: int| 0 <= a < ks.len() implies (#[trigger] ks[a]).1@.no_duplicates() by {
                        if a < olds.len() {
                            assert(olds[a] == ks[a]);
                        }
                    }
                    assert forall|m: Seq<char>| #[trigger] self.known_to(m)
                        == (if m == n@ { old(self).known_to(m).union(vals@.to_set()) } else { old(self).known_to(m) }) by {
                        assert forall|v: i32| #[trigger] self.known_to(m).contains(v) <==>
                            (old(self).known_to(m).contains(v) || (m == n@ && vals@.to_set().contains(v))) by {
                            if self.known_to(m).contains(v) {
                                let j = choose|j: int| 0 <= j < ks.len() && #[trigger] ks[j].0@ == m && ks[j].1@.contains(v);
                                if j < olds.len() {
                                    assert(olds[j] == ks[j]);
                                } else {
                                    assert(ks[j] == e);
                                    assert(e.0@ == n@);
                                    assert(e.1@.to_set().contains(v));
                                }
                            }
                            if old(self).known_to(m).contains(v) {
                                let j = choose|j: int| 0 <= j < olds.len() && #[trigger] olds[j].0@ == m && olds[j].1@.contains(v);
                                assert(olds[j] == ks[j]);
                                assert(ks[j].0@ == m);
                            }
                            if m == n@ && vals@.to_set().contains(v) {
                                let last = olds.len() as int;
                                assert(e.1@.to_set().contains(v));
                                assert(ks[last].1@.contains(v));
                                assert(ks[last].0@ == m);
                            }
                        }
                        if m == n@ {
                            assert(self.known_to(m) =~= old(self).known_to(m).union(vals@.to_set()));
                        } else {
                            assert(self.known_to(m) =~= old(self).known_to(m));
                        }
                    }
                }
            },
        }
    }
}

} // verus!
