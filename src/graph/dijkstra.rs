use vstd::prelude::*;

verus! {

/// The sum of a sequence of distances.
pub open spec fn total(s: Seq<usize>) -> int
    decreases s.len(),
{
    if s.len() == 0 {
        0
    } else {
        total(s.drop_last()) + s.last() as int
    }
}

proof fn lemma_total_update(s: Seq<usize>, i: int, x: usize)
    requires
        0 <= i < s.len(),
    ensures
        total(s.update(i, x)) == total(s) - s[i] + x,
    decreases s.len(),
{
    if i < s.len() - 1 {
        assert(s.update(i, x).drop_last() =~= s.drop_last().update(i, x));
        lemma_total_update(s.drop_last(), i, x);
    } else {
        assert(s.update(i, x).drop_last() =~= s.drop_last());
    }
}

proof fn lemma_total_nonnegative(s: Seq<usize>)
    ensures
        total(s) >= 0,
    decreases s.len(),
{
    if s.len() > 0 {
        lemma_total_nonnegative(s.drop_last());
    }
}

/// The total cost of a walk given as `(node, edge index)` steps.
pub open spec fn walk_cost(adj: Seq<Seq<(usize, usize)>>, path: Seq<(int, int)>) -> int
    decreases path.len(),
{
    if path.len() == 0 {
        0
    } else {
        walk_cost(adj, path.drop_last()) + adj[path.last().0][path.last().1].1
    }
}

/// Where a walk from `start` ends.
pub open spec fn walk_end(adj: Seq<Seq<(usize, usize)>>, start: int, path: Seq<(int, int)>) -> int {
    if path.len() == 0 {
        start
    } else {
        adj[path.last().0][path.last().1].0 as int
    }
}

/// `path` is a walk from `start`: each step takes an existing edge out of
/// the node that the previous step reached.
pub open spec fn is_walk(adj: Seq<Seq<(usize, usize)>>, start: int, path: Seq<(int, int)>) -> bool {
    forall|i: int|
        0 <= i < path.len() ==> 0 <= #[trigger] path[i].0 < adj.len() && 0 <= path[i].1
            < adj[path[i].0].len() && path[i].0 == walk_end(adj, start, path.subrange(0, i))
}

/// Some walk from `start` reaches `v` at cost `c`.
pub open spec fn reachable_at(adj: Seq<Seq<(usize, usize)>>, start: int, v: int, c: int) -> bool {
    exists|path: Seq<(int, int)>|
        is_walk(adj, start, path) && walk_end(adj, start, path) == v && #[trigger] walk_cost(
            adj,
            path,
        ) == c
}

/// A walk to `u` followed by an edge out of `u` is a walk.
pub proof fn lemma_walk_extend(
    adj: Seq<Seq<(usize, usize)>>,
    start: int,
    u: int,
    k: int,
    c: int,
)
    requires
        reachable_at(adj, start, u, c),
        0 <= u < adj.len(),
        0 <= k < adj[u].len(),
    ensures
        reachable_at(adj, start, adj[u][k].0 as int, c + adj[u][k].1),
{
    let path = choose|path: Seq<(int, int)>|
        is_walk(adj, start, path) && walk_end(adj, start, path) == u && #[trigger] walk_cost(
            adj,
            path,
        ) == c;
    let p2 = path.push((u, k));
    assert(p2.drop_last() =~= path);
    assert forall|i: int| 0 <= i < p2.len() implies 0 <= #[trigger] p2[i].0 < adj.len() && 0
        <= p2[i].1 < adj[p2[i].0].len() && p2[i].0 == walk_end(adj, start, p2.subrange(0, i)) by {
        if i < path.len() {
            assert(p2.subrange(0, i) =~= path.subrange(0, i));
        } else {
            assert(p2.subrange(0, i) =~= path);
        }
    }
    assert(walk_cost(adj, p2) == c + adj[u][k].1);
}

/// The `k`-th edge out of `u` does not offer a shorter distance to its target:
/// either going through it reaches `usize::MAX`, or its target is already at
/// most that far.
pub open spec fn edge_relaxed(
    adj: Seq<Seq<(usize, usize)>>,
    dist: Seq<usize>,
    u: int,
    k: int,
) -> bool {
    dist[u] + adj[u][k].1 >= usize::MAX || dist[adj[u][k].0 as int] <= dist[u] + adj[u][k].1
}

/// Every edge out of `u` is relaxed.
pub open spec fn node_relaxed(adj: Seq<Seq<(usize, usize)>>, dist: Seq<usize>, u: int) -> bool {
    forall|k: int| 0 <= k < adj[u].len() ==> #[trigger] edge_relaxed(adj, dist, u, k)
}

/// Removes from a nonempty queue of `(cost, node)` entries one that is least
/// in the order of `cost`, then `node`, and returns it.
fn pop_min(queue: &mut Vec<(usize, usize)>) -> (r: (usize, usize))
    requires
        old(queue)@.len() > 0,
    ensures
        old(queue)@.contains(r),
        final(queue)@.len() == old(queue)@.len() - 1,
        forall|e: (usize, usize)| #[trigger] final(queue)@.contains(e) ==> old(queue)@.contains(e),
        forall|e: (usize, usize)|
            #[trigger] old(queue)@.contains(e) && e != r ==> final(queue)@.contains(e),
        forall|i: int|
            0 <= i < old(queue)@.len() ==> r.0 < #[trigger] old(queue)@[i].0 || (r.0 == old(
                queue,
            )@[i].0 && r.1 <= old(queue)@[i].1),
{
    let mut best: usize = 0;
    let mut i: usize = 1;
    while i < queue.len()
        invariant
            queue@ == old(queue)@,
            best < i <= queue@.len(),
            forall|j: int|
                0 <= j < i ==> queue@[best as int].0 < #[trigger] queue@[j].0 || (queue@[
                    best as int
                ].0 == queue@[j].0 && queue@[best as int].1 <= queue@[j].1),
        decreases queue@.len() - i,
    {
        let (c, v) = queue[i];
        let (bc, bv) = queue[best];
        if c < bc || (c == bc && v < bv) {
            best = i;
        }
        i = i + 1;
    }
    let ghost q = queue@;
    let r = queue.swap_remove(best);
    assert forall|e: (usize, usize)| #[trigger] queue@.contains(e) implies q.contains(e) by {
        let j = choose|j: int| 0 <= j < queue@.len() && queue@[j] == e;
        if j == best {
            assert(q[q.len() - 1] == e);
        } else {
            assert(q[j] == e);
        }
    }
    assert forall|e: (usize, usize)| #[trigger] q.contains(e) && e != r implies queue@.contains(e) by {
        let j = choose|j: int| 0 <= j < q.len() && q[j] == e;
        if j == q.len() - 1 {
            assert(queue@[best as int] == e);
        } else {
            assert(queue@[j] == e);
        }
    }
    r
}

/// An edge to `to` of cost `cost`.
#[derive(Clone, Copy, Debug)]
pub struct Edge {
    to: usize,
    cost: usize,
}

/// Single-source shortest paths on a directed graph with nonnegative edge
/// costs; `usize::MAX` stands for "not reached".
pub struct Dijkstra {
    graph: Vec<Vec<Edge>>,
    distance: Vec<usize>,
}

impl Dijkstra {
    /// The edges out of each node, as `(to, cost)` pairs.
    pub closed spec fn adjacency(&self) -> Seq<Seq<(usize, usize)>> {
        Seq::new(
            self.graph@.len(),
            |u: int| Seq::new(self.graph@[u]@.len(), |k: int| (self.graph@[u]@[k].to, self.graph@[u]@[k].cost)),
        )
    }

    /// The current distance of each node.
    pub closed spec fn distances(&self) -> Seq<usize> {
        self.distance@
    }

    /// Number of nodes.
    pub open spec fn len(&self) -> nat {
        self.adjacency().len()
    }

    pub open spec fn wf(&self) -> bool {
        &&& self.len() <= usize::MAX
        &&& self.distances().len() == self.len()
        &&& forall|u: int, k: int|
            0 <= u < self.len() && 0 <= k < self.adjacency()[u].len() ==> #[trigger] self.adjacency()[u][k].0
                < self.len()
    }

    /// No node is reached yet.
    pub open spec fn none_reached(&self) -> bool {
        forall|v: int| 0 <= v < self.len() ==> #[trigger] self.distances()[v] == usize::MAX
    }

    /// Every edge is relaxed.
    pub open spec fn settled(&self) -> bool {
        forall|u: int| 0 <= u < self.len() ==> #[trigger] node_relaxed(self.adjacency(), self.distances(), u)
    }

    /// A graph of `size` nodes and no edges.
    pub fn new(size: usize) -> (r: Self)
        ensures
            r.wf(),
            r.len() == size,
            r.none_reached(),
            forall|u: int| 0 <= u < size ==> #[trigger] r.adjacency()[u].len() == 0,
    {
        let mut graph: Vec<Vec<Edge>> = Vec::new();
        let mut distance: Vec<usize> = Vec::new();
        let mut i: usize = 0;
        while i < size
            invariant
                i <= size,
                graph@.len() == i,
                distance@.len() == i,
                forall|u: int| 0 <= u < i ==> #[trigger] graph@[u]@.len() == 0,
                forall|u: int| 0 <= u < i ==> #[trigger] distance@[u] == usize::MAX,
            decreases size - i,
        {
            graph.push(Vec::new());
            distance.push(usize::MAX);
            i = i + 1;
        }
        Self { graph, distance }
    }

    /// Adds an edge from `from` to `to` of cost `cost`.
    pub fn add_edge(&mut self, from: usize, to: usize, cost: usize)
        requires
            old(self).wf(),
            from < old(self).len(),
            to < old(self).len(),
        ensures
            final(self).wf(),
            final(self).adjacency() == old(self).adjacency().update(
                from as int,
                old(self).adjacency()[from as int].push((to, cost)),
            ),
            final(self).distances() == old(self).distances(),
    {
        self.graph.push(Vec::new());
        let mut edges = self.graph.swap_remove(from);
        edges.push(Edge { to, cost });
        self.graph.set(from, edges);
        assert(self.graph@[from as int]@ == old(self).graph@[from as int]@.push(Edge { to, cost }));
        assert(self.adjacency() =~~= old(self).adjacency().update(
            from as int,
            old(self).adjacency()[from as int].push((to, cost)),
        ));
    }

    /// Shortest distances from `start`: sets the distance of `start` to 0
    /// and lowers distances along edges until every edge is relaxed, taking
    /// nodes in the order of their distance.
    pub fn solve(&mut self, start: usize)
        requires
            old(self).wf(),
            start < old(self).len(),
        ensures
            final(self).wf(),
            final(self).adjacency() == old(self).adjacency(),
            final(self).distances()[start as int] == 0,
            forall|v: int|
                0 <= v < old(self).len() ==> #[trigger] final(self).distances()[v] <= old(
                    self,
                ).distances()[v],
            old(self).settled() || old(self).none_reached() ==> final(self).settled(),
            old(self).none_reached() ==> forall|v: int|
                0 <= v < old(self).len() && #[trigger] final(self).distances()[v] < usize::MAX
                    ==> reachable_at(
                    old(self).adjacency(),
                    start as int,
                    v,
                    final(self).distances()[v] as int,
                ),
    {
        let ghost adj = self.adjacency();
        let ghost n = self.len();
        let ghost d0 = self.distance@;
        let ghost fresh = old(self).none_reached();
        let ghost was_settled = old(self).settled() || fresh;
        let mut queue: Vec<(usize, usize)> = Vec::new();
        self.distance.set(start, 0);
        queue.push((0, start));
        proof {
            assert(is_walk(adj, start as int, Seq::<(int, int)>::empty()));
            assert(walk_cost(adj, Seq::<(int, int)>::empty()) == 0);
            assert(reachable_at(adj, start as int, start as int, 0));
            assert(queue@[0] == (0usize, start));
            if was_settled {
                assert forall|u: int|
                    0 <= u < n && #[trigger] self.distance@[u] < usize::MAX implies node_relaxed(
                    adj,
                    self.distance@,
                    u,
                ) || queue@.contains((self.distance@[u], u as usize)) by {
                    if u != start {
                        if !fresh {
                            assert(node_relaxed(adj, d0, u));
                            assert forall|k: int| 0 <= k < adj[u].len() implies #[trigger] edge_relaxed(
                                adj,
                                self.distance@,
                                u,
                                k,
                            ) by {
                                assert(edge_relaxed(adj, d0, u, k));
                            }
                        }
                    }
                }
            }
        }
        while queue.len() > 0
            invariant
                self.wf(),
                self.adjacency() == adj,
                self.len() == n,
                d0.len() == n,
                start < n,
                self.distance@[start as int] == 0,
                forall|v: int| 0 <= v < n ==> #[trigger] self.distance@[v] <= d0[v],
                forall|i: int|
                    0 <= i < queue@.len() ==> #[trigger] queue@[i].1 < n && queue@[i].0
                        >= self.distance@[queue@[i].1 as int],
                was_settled ==> forall|u: int|
                    0 <= u < n && #[trigger] self.distance@[u] < usize::MAX ==> node_relaxed(
                        adj,
                        self.distance@,
                        u,
                    ) || queue@.contains((self.distance@[u], u as usize)),
                fresh ==> forall|v: int|
                    0 <= v < n && #[trigger] self.distance@[v] < usize::MAX ==> reachable_at(
                        adj,
                        start as int,
                        v,
                        self.distance@[v] as int,
                    ),
            decreases total(self.distance@), queue@.len(),
        {
            let ghost q_full = queue@;
            let ghost dist_now = self.distance@;
            let (cost, u) = pop_min(&mut queue);
            proof {
                lemma_total_nonnegative(self.distance@);
                if was_settled {
                    assert forall|w: int|
                        0 <= w < n && (w != u as int || dist_now[w] != cost) && #[trigger] dist_now[w] < usize::MAX
                            && q_full.contains((dist_now[w], w as usize)) implies queue@.contains(
                        (dist_now[w], w as usize),
                    ) by {
                        assert(q_full.contains((dist_now[w], w as usize)));
                    }
                }
                let j = choose|j: int| 0 <= j < q_full.len() && q_full[j] == (cost, u);
                assert(q_full[j] == (cost, u));
                assert forall|i: int| 0 <= i < queue@.len() implies #[trigger] queue@[i].1 < n
                    && queue@[i].0 >= self.distance@[queue@[i].1 as int] by {
                    assert(queue@.contains(queue@[i]));
                    assert(q_full.contains(queue@[i]));
                }
            }
            if self.distance[u] < cost {
                continue;
            }
            let du = self.distance[u];
            let ghost t0 = total(self.distance@);
            let ghost l0 = queue@.len();
            let mut k: usize = 0;
            while k < self.graph[u].len()
                invariant
                    self.wf(),
                    self.adjacency() == adj,
                    self.len() == n,
                    d0.len() == n,
                    start < n,
                    u < n,
                    k <= adj[u as int].len(),
                    self.distance@[start as int] == 0,
                    self.distance@[u as int] == du,
                    forall|v: int| 0 <= v < n ==> #[trigger] self.distance@[v] <= d0[v],
                    forall|i: int|
                        0 <= i < queue@.len() ==> #[trigger] queue@[i].1 < n && queue@[i].0
                            >= self.distance@[queue@[i].1 as int],
                    forall|j: int| 0 <= j < k ==> #[trigger] edge_relaxed(adj, self.distance@, u as int, j),
                    was_settled ==> forall|w: int|
                        0 <= w < n && w != u && #[trigger] self.distance@[w] < usize::MAX
                            ==> node_relaxed(adj, self.distance@, w) || queue@.contains(
                            (self.distance@[w], w as usize),
                        ),
                    fresh ==> forall|v: int|
                        0 <= v < n && #[trigger] self.distance@[v] < usize::MAX ==> reachable_at(
                            adj,
                            start as int,
                            v,
                            self.distance@[v] as int,
                        ),
                    total(self.distance@) < t0 || (total(self.distance@) == t0 && queue@.len()
                        == l0),
                decreases adj[u as int].len() - k,
            {
                let e = self.graph[u][k];
                assert(adj[u as int][k as int] == (e.to, e.cost));
                assert(adj[u as int][k as int].0 < n);
                let candidate = if du <= usize::MAX - e.cost {
                    du + e.cost
                } else {
                    usize::MAX
                };
                if self.distance[e.to] > candidate {
                    let ghost before = self.distance@;
                    let ghost qb = queue@;
                    proof {
                        lemma_total_update(before, e.to as int, candidate);
                    }
                    self.distance.set(e.to, candidate);
                    queue.push((candidate, e.to));
                    proof {
                        assert(queue@[queue@.len() - 1] == (candidate, e.to));
                        assert forall|e2: (usize, usize)| qb.contains(e2) implies #[trigger] queue@.contains(
                            e2,
                        ) by {
                            let j = choose|j: int| 0 <= j < qb.len() && qb[j] == e2;
                            assert(queue@[j] == e2);
                        }
                        assert forall|j: int| 0 <= j <= k implies #[trigger] edge_relaxed(
                            adj,
                            self.distance@,
                            u as int,
                            j,
                        ) by {
                            if j < k {
                                assert(edge_relaxed(adj, before, u as int, j));
                            }
                        }
                        if was_settled {
                            assert forall|w: int|
                                0 <= w < n && w != u && #[trigger] self.distance@[w] < usize::MAX
                                    implies node_relaxed(adj, self.distance@, w) || queue@.contains(
                                (self.distance@[w], w as usize),
                            ) by {
                                if w != e.to as int {
                                    assert(self.distance@[w] == before[w]);
                                    if node_relaxed(adj, before, w) {
                                        assert forall|j: int| 0 <= j < adj[w].len() implies #[trigger] edge_relaxed(
                                            adj,
                                            self.distance@,
                                            w,
                                            j,
                                        ) by {
                                            assert(edge_relaxed(adj, before, w, j));
                                        }
                                    } else {
                                        assert(qb.contains((before[w], w as usize)));
                                    }
                                } else {
                                    assert(queue@[queue@.len() - 1] == (
                                        self.distance@[w],
                                        w as usize,
                                    ));
                                }
                            }
                        }
                        if fresh {
                            assert forall|v: int|
                                0 <= v < n && #[trigger] self.distance@[v] < usize::MAX implies reachable_at(
                                adj,
                                start as int,
                                v,
                                self.distance@[v] as int,
                            ) by {
                                if v == e.to as int {
                                    assert(before[u as int] < usize::MAX);
                                    lemma_walk_extend(
                                        adj,
                                        start as int,
                                        u as int,
                                        k as int,
                                        before[u as int] as int,
                                    );
                                } else {
                                    assert(self.distance@[v] == before[v]);
                                }
                            }
                        }
                    }
                } else {
                    proof {
                        assert forall|j: int| 0 <= j <= k implies #[trigger] edge_relaxed(
                            adj,
                            self.distance@,
                            u as int,
                            j,
                        ) by {}
                    }
                }
                k = k + 1;
            }
            proof {
                lemma_total_nonnegative(self.distance@);
            }
        }
        proof {
            if was_settled {
                assert forall|u: int| 0 <= u < n implies #[trigger] node_relaxed(
                    adj,
                    self.distance@,
                    u,
                ) by {
                    if self.distance@[u] < usize::MAX {
                        assert(!queue@.contains((self.distance@[u], u as usize)));
                    }
                }
            }
        }
    }

    /// Once every edge is relaxed and `start` is at distance 0, the distance
    /// of where a walk from `start` ends is at most the walk's cost, when that
    /// cost is below `usize::MAX`.
    pub proof fn lemma_settled_distance_is_at_most_walk_cost(&self, start: int, path: Seq<(int, int)>)
        requires
            self.wf(),
            self.settled(),
            0 <= start < self.len(),
            self.distances()[start] == 0,
            is_walk(self.adjacency(), start, path),
            walk_cost(self.adjacency(), path) < usize::MAX,
        ensures
            0 <= walk_end(self.adjacency(), start, path) < self.len(),
            self.distances()[walk_end(self.adjacency(), start, path)] <= walk_cost(
                self.adjacency(),
                path,
            ),
        decreases path.len(),
    {
        let adj = self.adjacency();
        if path.len() > 0 {
            let prev = path.drop_last();
            assert forall|i: int| 0 <= i < prev.len() implies 0 <= #[trigger] prev[i].0 < adj.len()
                && 0 <= prev[i].1 < adj[prev[i].0].len() && prev[i].0 == walk_end(
                adj,
                start,
                prev.subrange(0, i),
            ) by {
                assert(prev.subrange(0, i) =~= path.subrange(0, i));
                assert(path[i] == prev[i]);
            }
            let (u, k) = path.last();
            assert(path[path.len() - 1] == path.last());
            assert(path.subrange(0, path.len() - 1) =~= prev);
            assert(u == walk_end(adj, start, prev));
            self.lemma_settled_distance_is_at_most_walk_cost(start, prev);
            assert(node_relaxed(adj, self.distances(), u));
            assert(edge_relaxed(adj, self.distances(), u, k));
            assert(adj[u][k].0 < self.len());
        }
    }

    /// The distance of `to`.
    pub fn distance(&self, to: usize) -> (r: usize)
        requires
            self.wf(),
            to < self.len(),
        ensures
            r == self.distances()[to as int],
    {
        self.distance[to]
    }
}

} // verus!
