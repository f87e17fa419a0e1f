use vstd::prelude::*;

verus! {

/// A vector's id and its neighbour ids, one list per layer it takes part in.
pub struct GraphNode {
    pub id: u32,
    pub neighbors: Vec<Vec<u32>>,
}

impl PartialEq for GraphNode {
    /// Two nodes are the same node when their ids match.
    fn eq(&self, other: &Self) -> (r: bool) {
        self.id == other.id
    }
}

impl vstd::std_specs::cmp::PartialEqSpecImpl for GraphNode {
    open spec fn obeys_eq_spec() -> bool {
        true
    }

    open spec fn eq_spec(&self, other: &GraphNode) -> bool {
        self.id == other.id
    }
}

impl GraphNode {
    /// A node present at layer 0 only, with the given neighbours there.
    pub fn new(id: u32, neighbors: Vec<u32>) -> (r: Self)
        ensures
            r.id == id,
            r.neighbors@.len() == 1,
            r.neighbors@[0]@ == neighbors@,
    {
        let mut layers: Vec<Vec<u32>> = Vec::new();
        layers.push(neighbors);
        GraphNode { id, neighbors: layers }
    }
}

/// A node id paired with its distance key to some query.
#[derive(Clone, Copy, Debug, PartialEq, Eq, Structural)]
pub struct NodeWithDist {
    pub id: u32,
    pub distance: u32,
}

impl NodeWithDist {
    pub fn new(id: u32, distance: u32) -> (r: Self)
        ensures
            r.id == id,
            r.distance == distance,
    {
        NodeWithDist { id, distance }
    }
}

/// Ascending by distance.
pub open spec fn sorted_by_distance(s: Seq<NodeWithDist>) -> bool {
    forall|i: int, j: int| 0 <= i < j < s.len() ==> s[i].distance <= s[j].distance
}

/// No id occurs twice.
pub open spec fn distinct_ids(s: Seq<NodeWithDist>) -> bool {
    forall|i: int, j: int| 0 <= i < j < s.len() ==> s[i].id != s[j].id
}

/// No value occurs twice.
pub open spec fn no_repeats(s: Seq<u32>) -> bool {
    forall|i: int, j: int| 0 <= i < j < s.len() ==> s[i] != s[j]
}

/// Some entry of `s` has id `v`.
pub open spec fn has_id(s: Seq<NodeWithDist>, v: u32) -> bool {
    exists|k: int| 0 <= k < s.len() && s[k].id == v
}

/// `dist` gives one key per id.
pub open spec fn deterministic<F: Fn(u32) -> u32>(dist: &F) -> bool {
    forall|i: u32, a: u32, b: u32| dist.ensures((i,), a) && dist.ensures((i,), b) ==> a == b
}

/// Node `v` is in `r`, or `r` holds `ef` entries and `v` is no nearer than the last.
pub open spec fn settled<F: Fn(u32) -> u32>(dist: &F, r: Seq<NodeWithDist>, v: u32, ef: usize) -> bool {
    has_id(r, v) || (r.len() == ef && r.len() > 0 && no_nearer(dist, v, r.last().distance))
}

/// Every id in `s` is marked in `vis`.
pub open spec fn all_visited(s: Seq<u32>, vis: Seq<bool>) -> bool {
    forall|k: int| 0 <= k < s.len() ==> vis[#[trigger] s[k] as int]
}

proof fn lemma_swap_remove_keeps(s: Seq<NodeWithDist>, i: int, v: u32)
    requires
        0 <= i < s.len(),
        has_id(s, v),
        s[i].id != v,
    ensures
        has_id(s.update(i, s.last()).drop_last(), v),
{
    let t = s.update(i, s.last()).drop_last();
    let k = choose|k: int| 0 <= k < s.len() && s[k].id == v;
    if k == s.len() - 1 {
        assert(t[i].id == v);
    } else {
        assert(t[k].id == v);
    }
}

/// `dist` gives one key per pair of ids.
pub open spec fn deterministic_pair<F: Fn(u32, u32) -> u32>(dist: &F) -> bool {
    forall|i: u32, j: u32, a: u32, b: u32| dist.ensures((i, j), a) && dist.ensures((i, j), b) ==> a == b
}

/// `v` is no nearer than key `b`.
pub open spec fn no_nearer<F: Fn(u32) -> u32>(dist: &F, v: u32, b: u32) -> bool {
    forall|d: u32| dist.ensures((v,), d) ==> b <= d
}

/// Inserting a node keeps every settled node in the list or no nearer than the
/// old last entry, which stays last when the list was full.
proof fn lemma_insert_keeps<F: Fn(u32) -> u32>(before: Seq<NodeWithDist>, p: int, x: NodeWithDist, dist: &F, ef: usize)
    requires
        0 <= p <= before.len(),
        before.len() >= 1,
        before.len() <= ef,
        sorted_by_distance(before),
        sorted_by_distance(before.insert(p, x)),
        before.len() < ef || x.distance < before.last().distance,
    ensures
        forall|v: u32| settled(dist, before, v, ef) ==> #[trigger] has_id(before.insert(p, x), v)
            || (before.len() == ef && no_nearer(dist, v, before.last().distance)),
        has_id(before.insert(p, x), x.id),
        before.len() == ef ==> before.insert(p, x).last() == before.last(),
{
    let a = before.insert(p, x);
    assert(a[p] == x);
    if before.len() == ef {
        if p == before.len() {
            assert(a[p - 1] == before[p - 1]);
            assert(a[p - 1].distance <= a[p].distance);
        }
        assert(a.last() == before.last());
    }
    assert forall|v: u32| settled(dist, before, v, ef) implies #[trigger] has_id(a, v)
        || (before.len() == ef && no_nearer(dist, v, before.last().distance)) by {
        if has_id(before, v) {
            let k = choose|k: int| 0 <= k < before.len() && before[k].id == v;
            if k < p {
                assert(a[k] == before[k]);
            } else {
                assert(a[k + 1] == before[k]);
            }
        }
    }
}

/// Dropping the last of `ef + 1` entries settles every node that was in the list
/// or no nearer than its last entry.
proof fn lemma_pop_keeps<F: Fn(u32) -> u32>(full: Seq<NodeWithDist>, dist: &F, ef: usize)
    requires
        full.len() == ef + 1,
        ef >= 1,
        sorted_by_distance(full),
        deterministic(dist),
        dist.ensures((full.last().id,), full.last().distance),
    ensures
        forall|v: u32| #[trigger] has_id(full, v) || no_nearer(dist, v, full.last().distance)
            ==> settled(dist, full.drop_last(), v, ef),
{
    let r = full.drop_last();
    assert(r.last() == full[ef - 1]);
    assert(r.last().distance <= full.last().distance);
    assert forall|v: u32| #[trigger] has_id(full, v) || no_nearer(dist, v, full.last().distance)
        implies settled(dist, r, v, ef) by {
        if has_id(full, v) {
            let k = choose|k: int| 0 <= k < full.len() && full[k].id == v;
            if k < ef {
                assert(r[k].id == v);
            } else {
                assert(no_nearer(dist, v, full.last().distance));
            }
        }
    }
}

/// A node settled in a sorted list of width `ef` stays settled in its first `k`
/// entries, `1 <= k <= ef`.
proof fn lemma_truncate_settled<F: Fn(u32) -> u32>(full: Seq<NodeWithDist>, k: usize, ef: usize, dist: &F, y: u32)
    requires
        1 <= k <= ef,
        1 <= full.len() <= ef,
        sorted_by_distance(full),
        deterministic(dist),
        forall|q: int| 0 <= q < full.len() ==> dist.ensures((full[q].id,), full[q].distance),
        settled(dist, full, y, ef),
    ensures
        settled(dist, if k <= full.len() { full.subrange(0, k as int) } else { full }, y, k),
{
    if k < full.len() {
        let t = full.subrange(0, k as int);
        assert(t.last() == full[k - 1]);
        if has_id(full, y) {
            let w = choose|w: int| 0 <= w < full.len() && full[w].id == y;
            if w < k {
                assert(t[w].id == y);
            } else {
                assert(full[k - 1].distance <= full[w].distance);
                assert(dist.ensures((full[w].id,), full[w].distance));
            }
        } else {
            assert(full[k - 1].distance <= full.last().distance);
        }
    } else if k == full.len() {
        assert(full.subrange(0, k as int) =~= full);
    }
}

/// Number of `true` entries.
pub open spec fn count_true(s: Seq<bool>) -> nat
    decreases s.len(),
{
    if s.len() == 0 {
        0
    } else {
        count_true(s.drop_last()) + if s.last() {
            1nat
        } else {
            0nat
        }
    }
}

proof fn lemma_count_true_bound(s: Seq<bool>)
    ensures
        count_true(s) <= s.len(),
    decreases s.len(),
{
    if s.len() > 0 {
        lemma_count_true_bound(s.drop_last());
    }
}

proof fn lemma_count_true_mark(s: Seq<bool>, i: int)
    requires
        0 <= i < s.len(),
        !s[i],
    ensures
        count_true(s.update(i, true)) == count_true(s) + 1,
    decreases s.len(),
{
    let t = s.update(i, true);
    if i == s.len() - 1 {
        assert(t.drop_last() =~= s.drop_last());
    } else {
        assert(t.drop_last() =~= s.drop_last().update(i, true));
        lemma_count_true_mark(s.drop_last(), i);
    }
}

/// Inserts `x` after every element whose distance is not larger, keeping the order.
fn insert_sorted(v: &mut Vec<NodeWithDist>, x: NodeWithDist)
    requires
        sorted_by_distance(old(v)@),
    ensures
        sorted_by_distance(final(v)@),
        exists|p: int| 0 <= p <= old(v)@.len() && final(v)@ == old(v)@.insert(p, x),
{
    let mut p: usize = 0;
    while p < v.len() && v[p].distance <= x.distance
        invariant
            p <= v@.len(),
            forall|k: int| 0 <= k < p ==> v@[k].distance <= x.distance,
        decreases v@.len() - p,
    {
        p = p + 1;
    }
    v.insert(p, x);
}

/// A layered proximity graph: the queryable index.
pub struct HNSW {
    pub nodes: Vec<GraphNode>,
    /// Where every search starts; present at the top layer.
    pub entry_point: u32,
    /// Index of the top layer.
    pub max_layer: u16,
    /// Largest number of neighbours kept per node and layer.
    pub m_max: usize,
}

impl HNSW {
    pub open spec fn num_nodes(&self) -> nat {
        self.nodes@.len()
    }

    /// Number of layers node `i` takes part in.
    pub open spec fn levels(&self, i: int) -> int {
        self.nodes@[i].neighbors@.len() as int
    }

    /// Neighbours of node `i` at layer `l`.
    pub open spec fn adj(&self, i: int, l: int) -> Seq<u32> {
        self.nodes@[i].neighbors@[l]@
    }

    /// Node `s` lists `t` at layer `l`, or has a full list there.
    pub open spec fn linked_back(&self, s: int, l: int, t: u32) -> bool {
        self.adj(s, l).contains(t) || self.adj(s, l).len() == self.m_max
    }

    /// Every edge leads to a node present at that layer, never back to its source,
    /// and no list exceeds `m_max`.
    pub open spec fn edges_wf(&self) -> bool {
        forall|i: int, l: int|
            0 <= i < self.num_nodes() && 0 <= l < self.levels(i) ==> {
                &&& #[trigger] self.adj(i, l).len() <= self.m_max
                &&& forall|k: int|
                    0 <= k < self.adj(i, l).len() ==> {
                        let j = #[trigger] self.adj(i, l)[k];
                        &&& (j as int) < self.num_nodes()
                        &&& j as int != i
                        &&& l < self.levels(j as int)
                    }
            }
    }

    /// The graph's invariant.
    pub open spec fn wf(&self) -> bool {
        &&& self.num_nodes() <= u32::MAX
        &&& forall|i: int| 0 <= i < self.num_nodes() ==> (#[trigger] self.nodes@[i]).id == i
        &&& forall|i: int|
            0 <= i < self.num_nodes() ==> 1 <= #[trigger] self.levels(i) <= self.max_layer + 1
        &&& self.edges_wf()
        &&& self.num_nodes() > 0 ==> {
            &&& (self.entry_point as int) < self.num_nodes()
            &&& self.levels(self.entry_point as int) == self.max_layer + 1
        }
        &&& self.num_nodes() == 0 ==> self.max_layer == 0
    }

    /// A graph with no nodes.
    pub fn new(m_max: usize) -> (r: Self)
        ensures
            r.wf(),
            r.num_nodes() == 0,
            r.m_max == m_max,
    {
        HNSW { nodes: Vec::new(), entry_point: 0, max_layer: 0, m_max }
    }

    /// Greedy best-first search of one layer from `ep`: up to `ef` of the nodes
    /// met there, nearest first, each with the key that `dist` gave for it.
    /// Every neighbour of a returned node was examined; each node examined is
    /// returned, or the result is full and the node no nearer than its last entry.
    #[verifier::rlimit(100)]
    pub fn search_layer<F: Fn(u32) -> u32>(
        &self,
        dist: &F,
        ep: u32,
        ef: usize,
        layer: u16,
    ) -> (r: Vec<NodeWithDist>)
        requires
            self.wf(),
            (ep as int) < self.num_nodes(),
            (layer as int) < self.levels(ep as int),
            ef >= 1,
            forall|i: u32| (i as int) < self.num_nodes() ==> dist.requires((i,)),
            deterministic(dist),
        ensures
            1 <= r@.len() <= ef,
            sorted_by_distance(r@),
            distinct_ids(r@),
            forall|k: int|
                0 <= k < r@.len() ==> {
                    &&& (r@[k].id as int) < self.num_nodes()
                    &&& (layer as int) < self.levels(r@[k].id as int)
                    &&& dist.ensures((r@[k].id,), r@[k].distance)
                },
            self.adj(ep as int, layer as int).len() == 0 ==> r@.len() == 1 && r@[0].id == ep,
            settled(dist, r@, ep, ef),
            forall|j: int, k: int|
                0 <= j < r@.len() && 0 <= k < self.adj(r@[j].id as int, layer as int).len()
                    ==> settled(dist, r@, #[trigger] self.adj(r@[j].id as int, layer as int)[k], ef),
    {
        let n = self.nodes.len();
        let mut visited: Vec<bool> = vec![false; n];
        visited.set(ep as usize, true);
        let d = dist(ep);
        let start = NodeWithDist::new(ep, d);
        let mut candidates: Vec<NodeWithDist> = vec![start];
        let mut results: Vec<NodeWithDist> = vec![start];
        let ghost lonely = self.adj(ep as int, layer as int).len() == 0;
        proof {
            assert(count_true(visited@) >= 1) by {
                let s = Seq::new(n as nat, |i: int| false);
                assert(s =~= visited@.update(ep as int, false));
                assert(count_true(s) == 0) by {
                    assert(forall|m: nat| m <= n ==> count_true(#[trigger] s.take(m as int)) == 0) by {
                        assert forall|m: nat| m <= n implies count_true(#[trigger] s.take(m as int)) == 0 by {
                            lemma_count_prefix_false(s, m);
                        }
                    }
                    assert(s.take(n as int) =~= s);
                }
                lemma_count_true_mark(s, ep as int);
                assert(s.update(ep as int, true) =~= visited@);
            }
            assert(has_id(results@, ep));
            assert(has_id(candidates@, ep));
        }
        while candidates.len() > 0
            invariant
                self.wf(),
                n == self.num_nodes(),
                (ep as int) < n,
                (layer as int) < self.levels(ep as int),
                ef >= 1,
                forall|i: u32| (i as int) < self.num_nodes() ==> dist.requires((i,)),
                deterministic(dist),
                visited@.len() == n,
                visited@[ep as int],
                1 <= results@.len() <= ef,
                sorted_by_distance(results@),
                distinct_ids(results@),
                forall|k: int|
                    0 <= k < results@.len() ==> {
                        &&& (results@[k].id as int) < n
                        &&& visited@[results@[k].id as int]
                        &&& (layer as int) < self.levels(results@[k].id as int)
                        &&& dist.ensures((results@[k].id,), results@[k].distance)
                    },
                forall|k: int|
                    0 <= k < candidates@.len() ==> {
                        &&& (candidates@[k].id as int) < n
                        &&& visited@[candidates@[k].id as int]
                        &&& (layer as int) < self.levels(candidates@[k].id as int)
                    },
                forall|k: int, j: int|
                    0 <= k < candidates@.len() && 0 <= j < results@.len() && candidates@[k].id
                        == results@[j].id ==> candidates@[k].distance == results@[j].distance,
                forall|v: u32|
                    (v as int) < n && #[trigger] visited@[v as int] ==> settled(dist, results@, v, ef),
                forall|j: int|
                    0 <= j < results@.len() ==> has_id(candidates@, #[trigger] results@[j].id)
                        || all_visited(self.adj(results@[j].id as int, layer as int), visited@),
                lonely == (self.adj(ep as int, layer as int).len() == 0),
                lonely ==> results@.len() == 1 && results@[0].id == ep,
                lonely ==> forall|k: int| 0 <= k < candidates@.len() ==> candidates@[k].id == ep,
            decreases 2 * (n - count_true(visited@)) + candidates@.len(),
        {
            proof {
                lemma_count_true_bound(visited@);
            }
            let mut best: usize = 0;
            let mut i: usize = 1;
            while i < candidates.len()
                invariant
                    1 <= candidates@.len(),
                    best < candidates@.len(),
                    1 <= i <= candidates@.len(),
                    forall|q: int| 0 <= q < i ==> candidates@[best as int].distance <= candidates@[q].distance,
                decreases candidates@.len() - i,
            {
                if candidates[i].distance < candidates[best].distance {
                    best = i;
                }
                i = i + 1;
            }
            let ghost cands0 = candidates@;
            let c = candidates.swap_remove(best);
            proof {
                assert forall|j: int| 0 <= j < results@.len() && results@[j].id != c.id && has_id(cands0, results@[j].id)
                    implies has_id(candidates@, results@[j].id) by {
                    lemma_swap_remove_keeps(cands0, best as int, results@[j].id);
                }
            }
            let furthest = results[results.len() - 1].distance;
            if c.distance > furthest {
                proof {
                    assert forall|j: int| 0 <= j < results@.len() implies
                        all_visited(self.adj(results@[j].id as int, layer as int), visited@) by {
                        if has_id(cands0, results@[j].id) {
                            let k = choose|k: int| 0 <= k < cands0.len() && cands0[k].id == results@[j].id;
                            assert(cands0[k].distance == results@[j].distance);
                            assert(results@[j].distance <= furthest);
                        }
                    }
                }
                candidates.clear();
            } else {
                let nbrs: &Vec<u32> = &self.nodes[c.id as usize].neighbors[layer as usize];
                assert(nbrs@ == self.adj(c.id as int, layer as int));
                let ghost visited_before = count_true(visited@);
                let ghost cand_before = candidates@.len();
                let mut k: usize = 0;
                while k < nbrs.len()
                    invariant
                        self.wf(),
                        n == self.num_nodes(),
                        (ep as int) < n,
                        (c.id as int) < n,
                        (layer as int) < self.levels(c.id as int),
                        nbrs@ == self.adj(c.id as int, layer as int),
                        k <= nbrs@.len(),
                        ef >= 1,
                        forall|i: u32| (i as int) < self.num_nodes() ==> dist.requires((i,)),
                        deterministic(dist),
                        visited@.len() == n,
                        visited@[ep as int],
                        1 <= results@.len() <= ef,
                        sorted_by_distance(results@),
                        distinct_ids(results@),
                        forall|q: int|
                            0 <= q < results@.len() ==> {
                                &&& (results@[q].id as int) < n
                                &&& visited@[results@[q].id as int]
                                &&& (layer as int) < self.levels(results@[q].id as int)
                                &&& dist.ensures((results@[q].id,), results@[q].distance)
                            },
                        forall|q: int|
                            0 <= q < candidates@.len() ==> {
                                &&& (candidates@[q].id as int) < n
                                &&& visited@[candidates@[q].id as int]
                                &&& (layer as int) < self.levels(candidates@[q].id as int)
                            },
                        forall|q: int, j: int|
                            0 <= q < candidates@.len() && 0 <= j < results@.len() && candidates@[q].id
                                == results@[j].id ==> candidates@[q].distance == results@[j].distance,
                        forall|v: u32|
                            (v as int) < n && #[trigger] visited@[v as int] ==> settled(dist, results@, v, ef),
                        forall|j: int|
                            0 <= j < results@.len() ==> results@[j].id == c.id || has_id(candidates@, #[trigger] results@[j].id)
                                || all_visited(self.adj(results@[j].id as int, layer as int), visited@),
                        forall|q: int| 0 <= q < k ==> visited@[#[trigger] nbrs@[q] as int],
                        candidates@.len() + visited_before <= cand_before + count_true(visited@),
                        visited_before <= count_true(visited@),
                        count_true(visited@) <= n,
                        lonely ==> k == 0,
                        lonely == (self.adj(ep as int, layer as int).len() == 0),
                        lonely ==> results@.len() == 1 && results@[0].id == ep,
                        lonely ==> c.id == ep,
                        lonely ==> forall|q: int| 0 <= q < candidates@.len() ==> candidates@[q].id == ep,
                    decreases nbrs@.len() - k,
                {
                    let m = nbrs[k];
                    assert(self.adj(c.id as int, layer as int)[k as int] == m);
                    if !visited[m as usize] {
                        proof {
                            lemma_count_true_mark(visited@, m as int);
                            lemma_count_true_bound(visited@.update(m as int, true));
                            assert(!has_id(results@, m));
                        }
                        let ghost vis0 = visited@;
                        visited.set(m as usize, true);
                        let dm = dist(m);
                        let worst = results[results.len() - 1].distance;
                        if results.len() < ef || dm < worst {
                            let x = NodeWithDist::new(m, dm);
                            let ghost before = results@;
                            let ghost cands1 = candidates@;
                            insert_sorted(&mut results, x);
                            let ghost p = choose|p: int|
                                0 <= p <= before.len() && results@ == before.insert(p, x);
                            proof {
                                assert forall|q: int| 0 <= q < results@.len() implies {
                                    &&& (results@[q].id as int) < n
                                    &&& visited@[results@[q].id as int]
                                    &&& (layer as int) < self.levels(results@[q].id as int)
                                    &&& dist.ensures((results@[q].id,), results@[q].distance)
                                } by {
                                    if q > p {
                                        assert(results@[q] == before[q - 1]);
                                    } else if q < p {
                                        assert(results@[q] == before[q]);
                                    }
                                }
                                assert forall|a: int, b: int| 0 <= a < b < results@.len() implies
                                    results@[a].id != results@[b].id by {
                                    if a == p {
                                        assert(results@[b] == before[b - 1]);
                                    } else if b == p {
                                        assert(results@[a] == before[a]);
                                    } else {
                                        let a2 = if a < p { a } else { a - 1 };
                                        let b2 = if b < p { b } else { b - 1 };
                                        assert(results@[a] == before[a2]);
                                        assert(results@[b] == before[b2]);
                                    }
                                }
                            }
                            candidates.push(x);
                            proof {
                                assert(has_id(candidates@, m)) by {
                                    assert(candidates@[candidates@.len() - 1].id == m);
                                }
                                lemma_insert_keeps(before, p, x, dist, ef);
                            }
                            let ghost full = results@;
                            if results.len() > ef {
                                results.pop();
                                proof {
                                    assert(dist.ensures((full.last().id,), full.last().distance));
                                    lemma_pop_keeps(full, dist, ef);
                                    assert(results@ =~= full.drop_last());
                                }
                            }
                            proof {
                                assert forall|v: u32| (v as int) < n && #[trigger] visited@[v as int]
                                    implies settled(dist, results@, v, ef) by {
                                    if v != m {
                                        assert(vis0[v as int]);
                                        assert(settled(dist, before, v, ef));
                                        assert(has_id(full, v) || (before.len() == ef && no_nearer(dist, v, before.last().distance)));
                                    }
                                }
                            }
                            proof {
                                // Results hold `x` and entries of `before`.
                                assert forall|j: int| 0 <= j < results@.len() implies
                                    (results@[j] == x || exists|q: int| 0 <= q < before.len() && before[q] == #[trigger] results@[j])
                                    by {
                                    if j < p {
                                        assert(before[j] == results@[j]);
                                    } else if j > p {
                                        assert(before[j - 1] == results@[j]);
                                    }
                                }
                                assert forall|j: int| 0 <= j < results@.len() implies results@[j].id == c.id
                                    || has_id(candidates@, #[trigger] results@[j].id)
                                    || all_visited(self.adj(results@[j].id as int, layer as int), visited@) by {
                                    if results@[j] == x {
                                        assert(candidates@[candidates@.len() - 1].id == results@[j].id);
                                    } else {
                                        let q = choose|q: int| 0 <= q < before.len() && before[q] == results@[j];
                                        assert(before[q].id == c.id || has_id(cands1, before[q].id)
                                            || all_visited(self.adj(before[q].id as int, layer as int), vis0));
                                        if has_id(cands1, before[q].id) {
                                            let w = choose|w: int| 0 <= w < cands1.len() && cands1[w].id == before[q].id;
                                            assert(candidates@[w] == cands1[w]);
                                        }
                                    }
                                }
                                assert forall|a: int, j: int|
                                    0 <= a < candidates@.len() && 0 <= j < results@.len() && candidates@[a].id
                                        == results@[j].id implies candidates@[a].distance == results@[j].distance by {
                                    if a == candidates@.len() - 1 {
                                        if results@[j] != x {
                                            let q = choose|q: int| 0 <= q < before.len() && before[q] == results@[j];
                                            assert(vis0[before[q].id as int]);
                                        }
                                    } else {
                                        assert(candidates@[a] == cands1[a]);
                                        assert(vis0[cands1[a].id as int]);
                                        if results@[j] != x {
                                            let q = choose|q: int| 0 <= q < before.len() && before[q] == results@[j];
                                        }
                                    }
                                }
                            }
                        } else {
                            proof {
                                assert(settled(dist, results@, m, ef));
                            }
                        }
                    }
                    k = k + 1;
                }
            }
        }
        proof {
            assert forall|j: int, k: int|
                0 <= j < results@.len() && 0 <= k < self.adj(results@[j].id as int, layer as int).len()
                    implies settled(dist, results@, #[trigger] self.adj(results@[j].id as int, layer as int)[k], ef) by {
                assert(!has_id(candidates@, results@[j].id));
                let y = self.adj(results@[j].id as int, layer as int)[k];
                assert(visited@[y as int]);
            }
        }
        results
    }

    /// The `k` nearest nodes found for a query, nearest first: descends from the
    /// entry point with a width of one down to layer 1, then searches layer 0
    /// with width `ef_search`. An empty graph gives an empty result.
    pub fn search<F: Fn(u32) -> u32>(&self, dist: &F, k: usize, ef_search: usize) -> (r: Result<
        Vec<NodeWithDist>,
        SearchError,
    >)
        requires
            self.wf(),
            forall|i: u32| (i as int) < self.num_nodes() ==> dist.requires((i,)),
            deterministic(dist),
        ensures
            r is Err <==> ef_search < k,
            r is Err ==> r == Err::<Vec<NodeWithDist>, SearchError>(SearchError::EfBelowK),
            r is Ok ==> {
                let v = r->Ok_0@;
                &&& v.len() <= k
                &&& (self.num_nodes() == 0 || k == 0) ==> v.len() == 0
                &&& (self.num_nodes() > 0 && k > 0) ==> v.len() >= 1
                &&& sorted_by_distance(v)
                &&& distinct_ids(v)
                &&& forall|q: int|
                    0 <= q < v.len() ==> {
                        &&& (v[q].id as int) < self.num_nodes()
                        &&& dist.ensures((v[q].id,), v[q].distance)
                    }
                &&& forall|j: int, q: int|
                    0 <= j < v.len() && 0 <= q < self.adj(v[j].id as int, 0).len() ==> settled(
                        dist,
                        v,
                        #[trigger] self.adj(v[j].id as int, 0)[q],
                        k,
                    )
            },
    {
        if ef_search < k {
            return Err(SearchError::EfBelowK);
        }
        if self.nodes.len() == 0 || k == 0 {
            return Ok(Vec::new());
        }
        let ep = self.descend(dist, self.entry_point, self.max_layer, 0);
        let mut r = self.search_layer(dist, ep, ef_search, 0);
        let ghost full = r@;
        r.truncate(k);
        proof {
            assert forall|j: int, q: int|
                0 <= j < r@.len() && 0 <= q < self.adj(r@[j].id as int, 0).len() implies settled(
                    dist,
                    r@,
                    #[trigger] self.adj(r@[j].id as int, 0)[q],
                    k,
                ) by {
                assert(r@[j] == full[j]);
                lemma_truncate_settled(full, k, ef_search, dist, self.adj(r@[j].id as int, 0)[q]);
            }
        }
        Ok(r)
    }

    /// Greedy descent with width one from layer `top` down to layer `bottom`:
    /// the node nearest to the query found at layer `bottom + 1`, or `ep` when
    /// there is nothing to descend.
    fn descend<F: Fn(u32) -> u32>(&self, dist: &F, ep: u32, top: u16, bottom: u16) -> (r: u32)
        requires
            self.wf(),
            (ep as int) < self.num_nodes(),
            (top as int) < self.levels(ep as int),
            bottom <= top,
            forall|i: u32| (i as int) < self.num_nodes() ==> dist.requires((i,)),
            deterministic(dist),
        ensures
            (r as int) < self.num_nodes(),
            (bottom as int) < self.levels(r as int),
    {
        let mut cur = top;
        let mut p = ep;
        while cur > bottom
            invariant
                self.wf(),
                (p as int) < self.num_nodes(),
                bottom <= cur,
                (cur as int) < self.levels(p as int),
                forall|i: u32| (i as int) < self.num_nodes() ==> dist.requires((i,)),
                deterministic(dist),
            decreases cur,
        {
            let found = self.search_layer(dist, p, 1, cur);
            p = found[0].id;
            cur = cur - 1;
        }
        p
    }

    /// For a node to be inserted at `level`, its neighbour lists for the layers
    /// `0..=min(level, max_layer)`: at each, the `m_max` nearest of an
    /// `ef`-wide search.
    fn plan_links<F: Fn(u32) -> u32>(&self, dist: &F, level: u16, ef: usize) -> (r: Vec<Vec<u32>>)
        requires
            self.wf(),
            self.num_nodes() > 0,
            ef >= 1,
            forall|i: u32| (i as int) < self.num_nodes() ==> dist.requires((i,)),
            deterministic(dist),
        ensures
            r@.len() == (if level <= self.max_layer { level } else { self.max_layer }) + 1,
            forall|l: int|
                0 <= l < r@.len() ==> {
                    &&& (#[trigger] r@[l])@.len() <= self.m_max
                    &&& self.m_max >= 1 ==> r@[l]@.len() >= 1
                    &&& no_repeats(r@[l]@)
                    &&& forall|q: int|
                        0 <= q < r@[l]@.len() ==> {
                            let j = #[trigger] r@[l]@[q];
                            &&& (j as int) < self.num_nodes()
                            &&& l < self.levels(j as int)
                        }
                },
    {
        let top = if level <= self.max_layer {
            level
        } else {
            self.max_layer
        };
        let mut ep = self.descend(dist, self.entry_point, self.max_layer, top);
        let mut lists: Vec<Vec<u32>> = Vec::new();
        while lists.len() <= top as usize
            invariant
                lists@.len() <= top + 1,
                forall|l: int| 0 <= l < lists@.len() ==> (#[trigger] lists@[l])@.len() == 0,
            decreases top + 1 - lists@.len(),
        {
            lists.push(Vec::new());
        }
        let mut steps: u32 = top as u32 + 1;
        while steps > 0
            invariant
                self.wf(),
                ef >= 1,
                forall|i: u32| (i as int) < self.num_nodes() ==> dist.requires((i,)),
                deterministic(dist),
                steps <= top + 1,
                lists@.len() == top + 1,
                (ep as int) < self.num_nodes(),
                steps > 0 ==> steps - 1 < self.levels(ep as int),
                forall|l: int|
                    0 <= l < lists@.len() ==> {
                        &&& (#[trigger] lists@[l])@.len() <= self.m_max
                        &&& (self.m_max >= 1 && l >= steps) ==> lists@[l]@.len() >= 1
                        &&& no_repeats(lists@[l]@)
                        &&& forall|q: int|
                            0 <= q < lists@[l]@.len() ==> {
                                let j = #[trigger] lists@[l]@[q];
                                &&& (j as int) < self.num_nodes()
                                &&& l < self.levels(j as int)
                            }
                    },
            decreases steps,
        {
            let layer: u16 = (steps - 1) as u16;
            let found = self.search_layer(dist, ep, ef, layer);
            let ids = nearest_ids(&found, self.m_max);
            lists.set(layer as usize, ids);
            ep = found[0].id;
            steps = steps - 1;
        }
        lists
    }

    /// Adds an edge from `s` to `t` at `layer`. Where that takes the list past
    /// `m_max`, it is cut back to the `m_max` entries nearest to `s`, the new
    /// one standing among them on equal terms.
    fn link<F: Fn(u32, u32) -> u32>(&mut self, s: u32, layer: u16, t: u32, dist: &F)
        requires
            old(self).wf(),
            (s as int) < old(self).num_nodes(),
            (t as int) < old(self).num_nodes(),
            s != t,
            (layer as int) < old(self).levels(s as int),
            (layer as int) < old(self).levels(t as int),
            forall|a: u32, b: u32|
                (a as int) < old(self).num_nodes() && (b as int) < old(self).num_nodes()
                    ==> dist.requires((a, b)),
        ensures
            final(self).wf(),
            final(self).linked_back(s as int, layer as int, t),
            final(self).num_nodes() == old(self).num_nodes(),
            final(self).entry_point == old(self).entry_point,
            final(self).max_layer == old(self).max_layer,
            final(self).m_max == old(self).m_max,
            forall|i: int|
                0 <= i < old(self).num_nodes() ==> #[trigger] final(self).levels(i) == old(
                    self,
                ).levels(i),
            forall|i: int, l: int|
                0 <= i < old(self).num_nodes() && 0 <= l < old(self).levels(i) && (i != s || l
                    != layer) ==> #[trigger] final(self).adj(i, l) == old(self).adj(i, l),
    {
        let ghost g = *self;
        let ghost n = self.num_nodes();
        let mut list = copy_ids(&self.nodes[s as usize].neighbors[layer as usize]);
        assert(list@ == g.adj(s as int, layer as int));
        list.push(t);
        let ghost pool = g.adj(s as int, layer as int).push(t);
        assert(list@ == pool);
        if list.len() > self.m_max {
            let scored = rank_by_distance(s, &list, dist);
            list = nearest_ids(&scored, self.m_max);
            assert forall|q: int| 0 <= q < list@.len() implies pool.contains(#[trigger] list@[q]) by {
                assert(list@[q] == scored@[q].id);
            }
        } else {
            assert forall|q: int| 0 <= q < list@.len() implies pool.contains(#[trigger] list@[q]) by {
                assert(list@[q] == pool[q]);
            }
            assert(list@[list@.len() - 1] == t);
        }
        let ghost new_list = list@;
        self.nodes[s as usize].neighbors.set(layer as usize, list);
        proof {
            assert(self.nodes@.len() == n);
            assert forall|i: int| 0 <= i < n implies (#[trigger] self.nodes@[i]).id == i by {
                assert(g.nodes@[i].id == i);
            }
            assert forall|i: int| 0 <= i < n implies #[trigger] self.levels(i) == g.levels(i) by {}
            assert forall|i: int, l: int|
                0 <= i < n && 0 <= l < g.levels(i) && (i != s || l != layer) implies
                #[trigger] self.adj(i, l) == g.adj(i, l) by {}
            assert(self.adj(s as int, layer as int) == new_list);
            assert forall|i: int, l: int| 0 <= i < n && 0 <= l < self.levels(i) implies {
                &&& #[trigger] self.adj(i, l).len() <= self.m_max
                &&& forall|k: int|
                    0 <= k < self.adj(i, l).len() ==> {
                        let j = #[trigger] self.adj(i, l)[k];
                        &&& (j as int) < self.num_nodes()
                        &&& j as int != i
                        &&& l < self.levels(j as int)
                    }
            } by {
                if i == s && l == layer {
                    assert forall|k: int| 0 <= k < self.adj(i, l).len() implies {
                        let j = #[trigger] self.adj(i, l)[k];
                        &&& (j as int) < self.num_nodes()
                        &&& j as int != i
                        &&& l < self.levels(j as int)
                    } by {
                        assert(pool.contains(new_list[k]));
                        let w = choose|w: int| 0 <= w < pool.len() && pool[w] == new_list[k];
                        if w < g.adj(s as int, layer as int).len() {
                            assert(new_list[k] == g.adj(s as int, layer as int)[w]);
                        }
                    }
                } else {
                    assert(self.adj(i, l) == g.adj(i, l));
                }
            }
        }
    }

    /// Adds a node for the next id, present at layers `0..=level`, linked to its
    /// nearest neighbours at every layer the graph already has; each of those links
    /// back unless its list, cut to its `m_max` nearest, leaves the new node out.
    /// The new node becomes the entry point when it reaches above the top layer.
    pub fn insert<F: Fn(u32, u32) -> u32>(&mut self, level: u16, ef_construction: usize, dist: &F) -> (id: u32)
        requires
            old(self).wf(),
            old(self).num_nodes() < u32::MAX,
            ef_construction >= 1,
            forall|a: u32, b: u32|
                (a as int) <= old(self).num_nodes() && (b as int) <= old(self).num_nodes()
                    ==> dist.requires((a, b)),
            deterministic_pair(dist),
        ensures
            final(self).wf(),
            id as int == old(self).num_nodes(),
            final(self).num_nodes() == old(self).num_nodes() + 1,
            final(self).m_max == old(self).m_max,
            final(self).levels(id as int) == level + 1,
            old(self).num_nodes() > 0 && old(self).m_max >= 1 ==> forall|l: int|
                0 <= l <= level && l <= old(self).max_layer ==> #[trigger] final(self).adj(
                    id as int,
                    l,
                ).len() >= 1,
            forall|l: int, k: int|
                0 <= l <= level && 0 <= k < final(self).adj(id as int, l).len() ==> {
                    let s = #[trigger] final(self).adj(id as int, l)[k];
                    final(self).linked_back(s as int, l, id)
                },
            forall|i: int|
                0 <= i < old(self).num_nodes() ==> #[trigger] final(self).levels(i) == old(
                    self,
                ).levels(i),
            (old(self).num_nodes() == 0 || level > old(self).max_layer) ==> (final(self).max_layer
                == level && final(self).entry_point == id),
            (old(self).num_nodes() > 0 && level <= old(self).max_layer) ==> (final(self).max_layer
                == old(self).max_layer && final(self).entry_point == old(self).entry_point),
    {
        let id = self.nodes.len() as u32;
        let ghost n0 = self.num_nodes();
        let mut lists: Vec<Vec<u32>> = Vec::new();
        if id > 0 {
            let query = |j: u32| -> (r: u32)
                requires
                    dist.requires((id, j)),
                ensures
                    dist.ensures((id, j), r),
                { dist(id, j) };
            assert(deterministic(&query)) by {
                assert forall|j: u32, x: u32, y: u32| query.ensures((j,), x) && query.ensures((j,), y) implies x == y by {
                    assert(dist.ensures((id, j), x));
                    assert(dist.ensures((id, j), y));
                }
            }
            lists = self.plan_links(&query, level, ef_construction);
        }
        let linked = lists.len();
        let ghost planned = lists@;
        let ghost top = if level <= self.max_layer { level } else { self.max_layer };
        assert(n0 > 0 ==> linked == top + 1);
        assert(n0 > 0 && self.m_max >= 1 ==> forall|q: int| 0 <= q < linked ==> (#[trigger] planned[q])@.len() >= 1);
        assert(forall|q: int| 0 <= q < linked ==> no_repeats(#[trigger] planned[q]@));
        assert forall|l: int, q: int| 0 <= l < linked && 0 <= q < lists@[l]@.len() implies {
            &&& (#[trigger] lists@[l]@[q] as int) < n0
            &&& l < self.levels(lists@[l]@[q] as int)
        } by {}
        while lists.len() <= level as usize
            invariant
                lists@.len() <= level + 1,
                linked <= lists@.len(),
                forall|l: int| 0 <= l < linked ==> #[trigger] lists@[l] == planned[l],
                forall|l: int| linked <= l < lists@.len() ==> (#[trigger] lists@[l])@.len() == 0,
            decreases level + 1 - lists@.len(),
        {
            lists.push(Vec::new());
        }
        let ghost g = *self;
        self.nodes.push(GraphNode { id, neighbors: lists });
        if id == 0 || level > self.max_layer {
            self.max_layer = level;
            self.entry_point = id;
        }
        proof {
            assert forall|i: int| 0 <= i < n0 implies #[trigger] self.levels(i) == g.levels(i)
                && self.nodes@[i] == g.nodes@[i] by {}
            assert forall|i: int, l: int| 0 <= i < n0 && 0 <= l < g.levels(i) implies
                #[trigger] self.adj(i, l) == g.adj(i, l) by {}
            assert forall|i: int| 0 <= i < self.num_nodes() implies (#[trigger] self.nodes@[i]).id == i by {
                if i < n0 { assert(g.nodes@[i].id == i); }
            }
            assert forall|i: int| 0 <= i < self.num_nodes() implies 1 <= #[trigger] self.levels(i) <= self.max_layer + 1 by {
                if i < n0 { assert(1 <= g.levels(i) <= g.max_layer + 1); }
            }
            assert forall|i: int, l: int| 0 <= i < self.num_nodes() && 0 <= l < self.levels(i) implies {
                &&& #[trigger] self.adj(i, l).len() <= self.m_max
                &&& forall|k: int|
                    0 <= k < self.adj(i, l).len() ==> {
                        let j = #[trigger] self.adj(i, l)[k];
                        &&& (j as int) < self.num_nodes()
                        &&& j as int != i
                        &&& l < self.levels(j as int)
                    }
            } by {
                if i < n0 {
                    assert(self.adj(i, l) == g.adj(i, l));
                    assert forall|k: int| 0 <= k < self.adj(i, l).len() implies {
                        let j = #[trigger] self.adj(i, l)[k];
                        &&& (j as int) < self.num_nodes()
                        &&& j as int != i
                        &&& l < self.levels(j as int)
                    } by {
                        let j = g.adj(i, l)[k];
                        assert((j as int) < n0 && l < g.levels(j as int));
                    }
                } else if l < linked {
                    assert(self.adj(i, l) == planned[l]@);
                } else {
                    assert(self.adj(i, l).len() == 0);
                }
            }
        }
        let mut l: usize = 0;
        while l < linked
            invariant
                self.wf(),
                self.num_nodes() == n0 + 1,
                id as int == n0,
                linked <= level + 1,
                planned.len() == linked,
                self.levels(id as int) == level + 1,
                forall|i: int| 0 <= i < n0 ==> #[trigger] self.levels(i) == g.levels(i),
                forall|q: int| 0 <= q < linked ==> #[trigger] self.adj(id as int, q) == planned[q]@,
                forall|a: u32, b: u32|
                    (a as int) <= n0 && (b as int) <= n0 ==> dist.requires((a, b)),
                self.m_max == g.m_max,
                self.max_layer == (if n0 == 0 || level > g.max_layer { level } else { g.max_layer }),
                self.entry_point == (if n0 == 0 || level > g.max_layer { id } else { g.entry_point }),
                forall|q: int, w: int| 0 <= q < linked && 0 <= w < planned[q]@.len() ==> {
                    &&& (#[trigger] planned[q]@[w] as int) < n0
                    &&& q < g.levels(planned[q]@[w] as int)
                },
                n0 > 0 ==> linked == top + 1,
                n0 == 0 ==> linked == 0,
                n0 > 0 && g.m_max >= 1 ==> forall|q: int| 0 <= q < linked ==> (#[trigger] planned[q])@.len() >= 1,
                forall|q: int| 0 <= q < linked ==> no_repeats(#[trigger] planned[q]@),
                forall|q: int| linked <= q <= level ==> #[trigger] self.adj(id as int, q).len() == 0,
                forall|q: int, w: int| 0 <= q < l && 0 <= w < planned[q]@.len() ==>
                    self.linked_back(#[trigger] planned[q]@[w] as int, q, id),
            decreases linked - l,
        {
            let mut k: usize = 0;
            assert(self.adj(id as int, l as int) == planned[l as int]@);
            let count = self.nodes[id as usize].neighbors[l].len();
            while k < count
                invariant
                    self.wf(),
                    self.num_nodes() == n0 + 1,
                    id as int == n0,
                    l < linked,
                    linked <= level + 1,
                    planned.len() == linked,
                    self.levels(id as int) == level + 1,
                    forall|i: int| 0 <= i < n0 ==> #[trigger] self.levels(i) == g.levels(i),
                    forall|q: int| 0 <= q < linked ==> #[trigger] self.adj(id as int, q) == planned[q]@,
                    count == planned[l as int]@.len(),
                    forall|a: u32, b: u32|
                        (a as int) <= n0 && (b as int) <= n0 ==> dist.requires((a, b)),
                    self.m_max == g.m_max,
                    self.max_layer == (if n0 == 0 || level > g.max_layer { level } else { g.max_layer }),
                    self.entry_point == (if n0 == 0 || level > g.max_layer { id } else { g.entry_point }),
                    forall|q: int, w: int| 0 <= q < linked && 0 <= w < planned[q]@.len() ==> {
                        &&& (#[trigger] planned[q]@[w] as int) < n0
                        &&& q < g.levels(planned[q]@[w] as int)
                    },
                    forall|q: int| 0 <= q < linked ==> no_repeats(#[trigger] planned[q]@),
                    forall|q: int| linked <= q <= level ==> #[trigger] self.adj(id as int, q).len() == 0,
                    forall|q: int, w: int| 0 <= q < l && 0 <= w < planned[q]@.len() ==>
                        self.linked_back(#[trigger] planned[q]@[w] as int, q, id),
                    forall|w: int| 0 <= w < k ==>
                        self.linked_back(#[trigger] planned[l as int]@[w] as int, l as int, id),
                    k <= count,
                decreases count - k,
            {
                assert(self.adj(id as int, l as int) == planned[l as int]@);
                let s = self.nodes[id as usize].neighbors[l][k];
                assert(s == planned[l as int]@[k as int]);
                let ghost before = *self;
                self.link(s, l as u16, id, dist);
                proof {
                    assert forall|q: int, w: int| 0 <= q < l && 0 <= w < planned[q]@.len() implies
                        self.linked_back(#[trigger] planned[q]@[w] as int, q, id) by {
                        let j = planned[q]@[w] as int;
                        assert(before.linked_back(j, q, id));
                        assert(self.adj(j, q) == before.adj(j, q));
                    }
                    assert forall|w: int| 0 <= w < k + 1 implies
                        self.linked_back(#[trigger] planned[l as int]@[w] as int, l as int, id) by {
                        if w < k {
                            let j = planned[l as int]@[w] as int;
                            assert(planned[l as int]@[w] != planned[l as int]@[k as int]);
                            assert(before.linked_back(j, l as int, id));
                            assert(self.adj(j, l as int) == before.adj(j, l as int));
                        }
                    }
                    assert forall|q: int| linked <= q <= level implies #[trigger] self.adj(id as int, q).len() == 0 by {
                        assert(before.adj(id as int, q).len() == 0);
                    }
                }
                k = k + 1;
            }
            l = l + 1;
        }
        id
    }
}

/// In a well-formed graph no neighbour list is longer than `m_max`.
pub proof fn lemma_degree_bound(g: HNSW)
    requires
        g.wf(),
    ensures
        forall|i: int, l: int|
            0 <= i < g.num_nodes() && 0 <= l < g.levels(i) ==> #[trigger] g.adj(i, l).len()
                <= g.m_max,
{
}

/// In a well-formed graph no node lists itself as a neighbour.
pub proof fn lemma_no_self_loops(g: HNSW)
    requires
        g.wf(),
    ensures
        forall|i: int, l: int, k: int|
            0 <= i < g.num_nodes() && 0 <= l < g.levels(i) && 0 <= k < g.adj(i, l).len()
                ==> #[trigger] g.adj(i, l)[k] as int != i,
{
    assert forall|i: int, l: int, k: int|
        0 <= i < g.num_nodes() && 0 <= l < g.levels(i) && 0 <= k < g.adj(i, l).len() implies
        #[trigger] g.adj(i, l)[k] as int != i by {
        assert(g.adj(i, l).len() <= g.m_max);
    }
}

/// In a non-empty well-formed graph the entry point sits on the top layer, and
/// no node reaches higher.
pub proof fn lemma_entry_point_on_top(g: HNSW)
    requires
        g.wf(),
        g.num_nodes() > 0,
    ensures
        g.levels(g.entry_point as int) == g.max_layer + 1,
        forall|i: int|
            0 <= i < g.num_nodes() ==> #[trigger] g.levels(i) <= g.levels(g.entry_point as int),
{
}

/// Why a query was refused.
#[derive(Clone, Copy, Debug, PartialEq, Eq, Structural)]
pub enum SearchError {
    /// The search width was smaller than the number of results asked for.
    EfBelowK,
}

/// The ids of the first `m` entries of `v`.
fn nearest_ids(v: &Vec<NodeWithDist>, m: usize) -> (r: Vec<u32>)
    ensures
        r@.len() == if m <= v@.len() { m as int } else { v@.len() as int },
        forall|k: int| 0 <= k < r@.len() ==> r@[k] == v@[k].id,
{
    let mut r: Vec<u32> = Vec::new();
    let mut i: usize = 0;
    while i < v.len() && i < m
        invariant
            i <= v@.len(),
            i <= m,
            r@.len() == i,
            forall|k: int| 0 <= k < i ==> r@[k] == v@[k].id,
        decreases v@.len() - i,
    {
        r.push(v[i].id);
        i = i + 1;
    }
    r
}

/// An exact copy of a list of ids.
fn copy_ids(v: &Vec<u32>) -> (r: Vec<u32>)
    ensures
        r@ == v@,
{
    let mut r: Vec<u32> = Vec::new();
    let mut i: usize = 0;
    while i < v.len()
        invariant
            i <= v@.len(),
            r@ == v@.take(i as int),
        decreases v@.len() - i,
    {
        r.push(v[i]);
        i = i + 1;
        assert(r@ =~= v@.take(i as int));
    }
    assert(v@.take(i as int) =~= v@);
    r
}

/// The ids of `list` with their keys to `s`, nearest first.
fn rank_by_distance<F: Fn(u32, u32) -> u32>(s: u32, list: &Vec<u32>, dist: &F) -> (r: Vec<NodeWithDist>)
    requires
        forall|k: int| 0 <= k < list@.len() ==> dist.requires((s, #[trigger] list@[k])),
    ensures
        r@.len() == list@.len(),
        sorted_by_distance(r@),
        forall|q: int|
            0 <= q < r@.len() ==> list@.contains(#[trigger] r@[q].id),
        forall|q: int| 0 <= q < r@.len() ==> dist.ensures((s, r@[q].id), r@[q].distance),
{
    let mut r: Vec<NodeWithDist> = Vec::new();
    let mut i: usize = 0;
    while i < list.len()
        invariant
            i <= list@.len(),
            r@.len() == i,
            sorted_by_distance(r@),
            forall|k: int| 0 <= k < list@.len() ==> dist.requires((s, #[trigger] list@[k])),
            forall|q: int|
                0 <= q < r@.len() ==> list@.contains(#[trigger] r@[q].id),
            forall|q: int| 0 <= q < r@.len() ==> dist.ensures((s, r@[q].id), r@[q].distance),
        decreases list@.len() - i,
    {
        let x = list[i];
        let d = dist(s, x);
        let e = NodeWithDist::new(x, d);
        let ghost before = r@;
        insert_sorted(&mut r, e);
        proof {
            let p = choose|p: int| 0 <= p <= before.len() && r@ == before.insert(p, e);
            assert forall|q: int| 0 <= q < r@.len() implies (list@.contains(#[trigger] r@[q].id))
                && dist.ensures((s, r@[q].id), r@[q].distance) by {
                if q < p {
                    assert(r@[q] == before[q]);
                } else if q > p {
                    assert(r@[q] == before[q - 1]);
                } else {
                    assert(r@[q].id == list@[i as int]);
                    assert(list@.contains(list@[i as int]));
                }
            }
        }
        i = i + 1;
    }
    r
}

proof fn lemma_count_prefix_false(s: Seq<bool>, m: nat)
    requires
        m <= s.len(),
        forall|i: int| 0 <= i < s.len() ==> !s[i],
    ensures
        count_true(s.take(m as int)) == 0,
    decreases m,
{
    if m > 0 {
        assert(s.take(m as int).drop_last() =~= s.take(m - 1));
        lemma_count_prefix_false(s, (m - 1) as nat);
    }
}

} // verus!
