use vstd::prelude::*;
use vstd::set_lib::{lemma_int_range, lemma_len_subset, set_int_range};

use crate::graph::{first_bad_target, targets_in_range, Graph, GraphError, Weighted};

verus! {

/// There is an edge from `u` to `v` of weight `w`.
pub open spec fn has_wedge(adj: Seq<Seq<(u32, Weighted)>>, u: u32, v: u32, w: u32) -> bool {
    &&& u < adj.len()
    &&& exists|k: int| 0 <= k < adj[u as int].len() && #[trigger] adj[u as int][k] == (v, Weighted(w))
}

/// `r` is a route from `s` to `v`: a chain of edges `(from, to, weight)`,
/// empty when `s == v`.
pub open spec fn is_route(adj: Seq<Seq<(u32, Weighted)>>, s: u32, v: u32, r: Seq<(u32, u32, u32)>) -> bool {
    &&& r.len() == 0 ==> s == v
    &&& r.len() > 0 ==> r[0].0 == s && r.last().1 == v
    &&& forall|i: int| 0 <= i < r.len() ==> has_wedge(adj, #[trigger] r[i].0, r[i].1, r[i].2)
    &&& forall|i: int| 0 <= i < r.len() - 1 ==> #[trigger] r[i].1 == r[i + 1].0
}

/// The total weight of a route.
pub open spec fn route_weight(r: Seq<(u32, u32, u32)>) -> int
    decreases r.len(),
{
    if r.len() == 0 {
        0
    } else {
        route_weight(r.drop_last()) + r.last().2
    }
}

/// Some route leads from `s` to `v`.
pub open spec fn routable(adj: Seq<Seq<(u32, Weighted)>>, s: u32, v: u32) -> bool {
    exists|r: Seq<(u32, u32, u32)>| #[trigger] is_route(adj, s, v, r)
}

/// `d` is the least weight of a route from `s` to `v`.
pub open spec fn is_shortest(adj: Seq<Seq<(u32, Weighted)>>, s: u32, v: u32, d: int) -> bool {
    &&& exists|r: Seq<(u32, u32, u32)>| #[trigger] is_route(adj, s, v, r) && route_weight(r) == d
    &&& forall|r: Seq<(u32, u32, u32)>| #[trigger] is_route(adj, s, v, r) ==> route_weight(r) >= d
}

/// Some node at shortest distance `d` from `s` has an edge of weight `w`
/// with `d + w` beyond `u32`.
pub open spec fn distance_overflows(adj: Seq<Seq<(u32, Weighted)>>, s: u32) -> bool {
    exists|u: u32, d: int, v: u32, w: u32|
        #[trigger] is_shortest(adj, s, u, d) && #[trigger] has_wedge(adj, u, v, w) && d + w
            > u32::MAX
}

/// What shortest paths from `start` return: an out-of-range start or edge
/// target is reported, then an overflowing distance, else for each node its
/// shortest distance, or `None` where no route reaches it.
pub open spec fn shortest_outcome(
    adj: Seq<Seq<(u32, Weighted)>>,
    start: u32,
    r: Result<Vec<Option<u32>>, GraphError>,
) -> bool {
    if start >= adj.len() {
        r == Err::<Vec<Option<u32>>, GraphError>(GraphError::OutOfBoundsNode { node: start })
    } else if !targets_in_range(adj) {
        r matches Err(GraphError::OutOfBoundsNode { node }) && first_bad_target(adj, node)
    } else if distance_overflows(adj, start) {
        r matches Err(
            GraphError::DistanceOverflow { node_from, node_to, current_distance, edge_weight },
        ) && is_shortest(adj, start, node_from, current_distance as int) && has_wedge(
            adj,
            node_from,
            node_to,
            edge_weight,
        ) && current_distance + edge_weight > u32::MAX
    } else {
        r matches Ok(dist) && dist@.len() == adj.len() && forall|v: u32|
            v < adj.len() ==> (#[trigger] dist@[v as int] is None <==> !routable(adj, start, v))
                && (dist@[v as int] matches Some(d) ==> is_shortest(adj, start, v, d as int))
    }
}

/// A route followed by one more edge is a route, heavier by that edge.
pub proof fn lemma_route_extend(
    adj: Seq<Seq<(u32, Weighted)>>,
    s: u32,
    u: u32,
    r: Seq<(u32, u32, u32)>,
    v: u32,
    w: u32,
)
    requires
        is_route(adj, s, u, r),
        has_wedge(adj, u, v, w),
    ensures
        is_route(adj, s, v, r.push((u, v, w))),
        route_weight(r.push((u, v, w))) == route_weight(r) + w,
{
    let q = r.push((u, v, w));
    assert(q.drop_last() =~= r);
    assert forall|i: int| 0 <= i < q.len() implies has_wedge(adj, #[trigger] q[i].0, q[i].1, q[i].2) by {
        if i < r.len() {
            assert(q[i] == r[i]);
        }
    }
    assert forall|i: int| 0 <= i < q.len() - 1 implies #[trigger] q[i].1 == q[i + 1].0 by {
        if i < r.len() - 1 {
            assert(q[i] == r[i]);
            assert(q[i + 1] == r[i + 1]);
        }
    }
}

/// Every weight is non-negative, so a route weighs no less than any of its prefixes.
pub proof fn lemma_route_weight_nonneg(r: Seq<(u32, u32, u32)>)
    ensures
        route_weight(r) >= 0,
    decreases r.len(),
{
    if r.len() > 0 {
        lemma_route_weight_nonneg(r.drop_last());
    }
}

/// Shortest distances are unique.
pub proof fn lemma_shortest_unique(adj: Seq<Seq<(u32, Weighted)>>, s: u32, v: u32, d1: int, d2: int)
    requires
        is_shortest(adj, s, v, d1),
        is_shortest(adj, s, v, d2),
    ensures
        d1 == d2,
{
    let r1 = choose|r: Seq<(u32, u32, u32)>| #[trigger] is_route(adj, s, v, r) && route_weight(r) == d1;
    let r2 = choose|r: Seq<(u32, u32, u32)>| #[trigger] is_route(adj, s, v, r) && route_weight(r) == d2;
}

/// Settled nodes hold their shortest distance.
spec fn settled_exact(adj: Seq<Seq<(u32, Weighted)>>, s: u32, dist: Seq<Option<u32>>, done: Seq<bool>) -> bool {
    forall|x: u32|
        x < adj.len() && #[trigger] done[x as int] ==> dist[x as int] is Some && is_shortest(
            adj,
            s,
            x,
            dist[x as int]->Some_0 as int,
        )
}

/// Each tentative distance is the weight of some route.
spec fn all_achieved(adj: Seq<Seq<(u32, Weighted)>>, s: u32, dist: Seq<Option<u32>>) -> bool {
    forall|x: u32|
        x < adj.len() && #[trigger] dist[x as int] is Some ==> exists|r: Seq<(u32, u32, u32)>|
            #[trigger] is_route(adj, s, x, r) && route_weight(r) == dist[x as int]->Some_0
}

/// Every edge leaving a settled node has been relaxed without overflow.
spec fn relaxed(adj: Seq<Seq<(u32, Weighted)>>, dist: Seq<Option<u32>>, done: Seq<bool>) -> bool {
    forall|u: u32, k: int|
        u < adj.len() && done[u as int] && 0 <= k < adj[u as int].len() ==> {
            let v = (#[trigger] adj[u as int][k]).0;
            let w = adj[u as int][k].1.0;
            &&& dist[v as int] is Some
            &&& dist[v as int]->Some_0 <= dist[u as int]->Some_0 + w
            &&& dist[u as int]->Some_0 + w <= u32::MAX
        }
}

/// Under the invariants of the search, a route that ends at an unsettled
/// node weighs at least `dmin`, the least tentative distance of an unsettled node.
proof fn lemma_route_lower_bound(
    adj: Seq<Seq<(u32, Weighted)>>,
    s: u32,
    dist: Seq<Option<u32>>,
    done: Seq<bool>,
    dmin: int,
    x: u32,
    r: Seq<(u32, u32, u32)>,
)
    requires
        targets_in_range(adj),
        s < adj.len(),
        dist.len() == adj.len(),
        done.len() == adj.len(),
        dist[s as int] == Some(0u32),
        settled_exact(adj, s, dist, done),
        relaxed(adj, dist, done),
        forall|y: u32|
            y < adj.len() && !done[y as int] && #[trigger] dist[y as int] is Some ==> dmin
                <= dist[y as int]->Some_0,
        is_route(adj, s, x, r),
        x < adj.len(),
        !done[x as int],
    ensures
        route_weight(r) >= dmin,
    decreases r.len(),
{
    if r.len() == 0 {
        assert(dist[s as int] is Some);
    } else {
        let p = r.drop_last();
        let e = r.last();
        let y = e.0;
        assert(has_wedge(adj, r[r.len() - 1].0, r[r.len() - 1].1, r[r.len() - 1].2));
        assert(is_route(adj, s, y, p)) by {
            if p.len() > 0 {
                assert(r[p.len() - 1].1 == r[p.len() as int].0);
            }
            assert forall|i: int| 0 <= i < p.len() implies has_wedge(adj, #[trigger] p[i].0, p[i].1, p[i].2) by {
                assert(p[i] == r[i]);
            }
            assert forall|i: int| 0 <= i < p.len() - 1 implies #[trigger] p[i].1 == p[i + 1].0 by {
                assert(p[i] == r[i]);
                assert(p[i + 1] == r[i + 1]);
            }
        }
        if done[y as int] {
            let k = choose|k: int| 0 <= k < adj[y as int].len() && #[trigger] adj[y as int][k] == (x, Weighted(e.2));
            assert(adj[y as int][k].0 == x);
            assert(dist[x as int] is Some);
        } else {
            lemma_route_lower_bound(adj, s, dist, done, dmin, y, p);
        }
    }
}

/// When no unsettled node has a tentative distance, every node that a
/// route reaches is settled.
proof fn lemma_routable_settled(
    adj: Seq<Seq<(u32, Weighted)>>,
    s: u32,
    dist: Seq<Option<u32>>,
    done: Seq<bool>,
    x: u32,
    r: Seq<(u32, u32, u32)>,
)
    requires
        targets_in_range(adj),
        s < adj.len(),
        dist.len() == adj.len(),
        done.len() == adj.len(),
        dist[s as int] is Some,
        relaxed(adj, dist, done),
        forall|y: u32| y < adj.len() && #[trigger] dist[y as int] is Some ==> done[y as int],
        is_route(adj, s, x, r),
    ensures
        x < adj.len() && done[x as int],
    decreases r.len(),
{
    if r.len() == 0 {
        assert(dist[s as int] is Some);
    } else {
        let p = r.drop_last();
        let e = r.last();
        let y = e.0;
        assert(has_wedge(adj, r[r.len() - 1].0, r[r.len() - 1].1, r[r.len() - 1].2));
        assert(is_route(adj, s, y, p)) by {
            if p.len() > 0 {
                assert(r[p.len() - 1].1 == r[p.len() as int].0);
            }
            assert forall|i: int| 0 <= i < p.len() implies has_wedge(adj, #[trigger] p[i].0, p[i].1, p[i].2) by {
                assert(p[i] == r[i]);
            }
            assert forall|i: int| 0 <= i < p.len() - 1 implies #[trigger] p[i].1 == p[i + 1].0 by {
                assert(p[i] == r[i]);
                assert(p[i + 1] == r[i + 1]);
            }
        }
        lemma_routable_settled(adj, s, dist, done, y, p);
        let k = choose|k: int| 0 <= k < adj[y as int].len() && #[trigger] adj[y as int][k] == (x, Weighted(e.2));
        assert(adj[y as int][k].0 == x);
        assert(x < adj.len());
        assert(dist[x as int] is Some);
    }
}

impl Graph<Weighted> {
    /// Shortest distances from `starting_node` to every node, `None` for a
    /// node that no route reaches. Settles, one at a time, the unsettled node
    /// of least tentative distance (the lowest index among equals) and
    /// relaxes its edges.
    pub fn dijkstra(&self, starting_node: u32) -> (r: Result<Vec<Option<u32>>, GraphError>)
        ensures
            shortest_outcome(self@, starting_node, r),
    {
        let n: usize = self.node_count();
        if starting_node as usize >= n {
            return Err(GraphError::OutOfBoundsNode { node: starting_node });
        }
        if let Some(node) = self.first_bad_target() {
            return Err(GraphError::OutOfBoundsNode { node });
        }
        let ghost adj = self@;
        let ghost s = starting_node;
        let mut dist: Vec<Option<u32>> = vec![None; n];
        let mut done: Vec<bool> = vec![false; n];
        dist.set(starting_node as usize, Some(0));
        let ghost mut done_set: Set<int> = Set::empty();
        proof {
            let r0 = Seq::<(u32, u32, u32)>::empty();
            assert(is_route(adj, s, s, r0));
            lemma_int_range(0, n as int);
        }
        let mut more: bool = true;
        while more
            invariant
                adj == self@,
                s == starting_node,
                n == adj.len() <= u32::MAX,
                targets_in_range(adj),
                starting_node < n,
                dist@.len() == n,
                done@.len() == n,
                dist@[s as int] == Some(0u32),
                settled_exact(adj, s, dist@, done@),
                all_achieved(adj, s, dist@),
                relaxed(adj, dist@, done@),
                done_set.finite(),
                done_set.subset_of(set_int_range(0, n as int)),
                set_int_range(0, n as int).finite(),
                set_int_range(0, n as int).len() == n,
                forall|x: int| 0 <= x < n ==> (done_set.contains(x) <==> #[trigger] done@[x]),
                !more ==> forall|y: u32|
                    y < n && #[trigger] dist@[y as int] is Some ==> done@[y as int],
            decreases n - done_set.len() + if more { 1int } else { 0int },
        {
            proof {
                lemma_len_subset(done_set, set_int_range(0, n as int));
            }
            // The unsettled node of least tentative distance.
            let mut found: bool = false;
            let mut best: usize = 0;
            let mut best_dist: u32 = 0;
            let mut i: usize = 0;
            while i < n
                invariant
                    n == dist@.len() == done@.len(),
                    i <= n,
                    found ==> best < i && !done@[best as int] && dist@[best as int] == Some(best_dist),
                    forall|j: int|
                        0 <= j < i && !done@[j] && #[trigger] dist@[j] is Some ==> found && best_dist
                            <= dist@[j]->Some_0,
                decreases n - i,
            {
                if !done[i] {
                    if let Some(d) = dist[i] {
                        if !found || d < best_dist {
                            found = true;
                            best = i;
                            best_dist = d;
                        }
                    }
                }
                i = i + 1;
            }
            if !found {
                more = false;
                proof {
                    assert forall|y: u32| y < n && #[trigger] dist@[y as int] is Some implies done@[y as int] by {
                        if !done@[y as int] {
                            assert(dist@[y as int] is Some);
                        }
                    }
                }
            } else {
                let u: usize = best;
                let du: u32 = best_dist;
                proof {
                    assert(!done@[u as int]);
                    assert(dist@[u as int] is Some);
                    let r = choose|r: Seq<(u32, u32, u32)>| #[trigger] is_route(adj, s, u as u32, r) && route_weight(r) == dist@[u as int]->Some_0;
                    assert forall|q: Seq<(u32, u32, u32)>| #[trigger] is_route(adj, s, u as u32, q) implies route_weight(q) >= du by {
                        assert forall|y: u32|
                            y < adj.len() && !done@[y as int] && #[trigger] dist@[y as int] is Some implies du
                                <= dist@[y as int]->Some_0 by {
                            assert(0 <= y < i);
                        }
                        lemma_route_lower_bound(adj, s, dist@, done@, du as int, u as u32, q);
                    }
                    assert(is_shortest(adj, s, u as u32, du as int));
                }
                let list = self.neighbours(u as u32);
                let mut k: usize = 0;
                while k < list.len()
                    invariant
                        adj == self@,
                        s == starting_node,
                        n == adj.len() <= u32::MAX,
                        targets_in_range(adj),
                        starting_node < n,
                        dist@.len() == n,
                        done@.len() == n,
                        u < n,
                        !done@[u as int],
                        list@ == adj[u as int],
                        k <= list@.len(),
                        dist@[u as int] == Some(du),
                        is_shortest(adj, s, u as u32, du as int),
                        dist@[s as int] == Some(0u32),
                        settled_exact(adj, s, dist@, done@),
                        all_achieved(adj, s, dist@),
                        relaxed(adj, dist@, done@),
                        forall|k2: int| 0 <= k2 < k ==> {
                            let v = (#[trigger] list@[k2]).0;
                            let w = list@[k2].1.0;
                            &&& dist@[v as int] is Some
                            &&& dist@[v as int]->Some_0 <= du + w
                            &&& du + w <= u32::MAX
                        },
                    decreases list@.len() - k,
                {
                    let v: u32 = list[k].0;
                    let w: u32 = list[k].1.0;
                    assert(adj[u as int][k as int] == (v, Weighted(w)));
                    assert(has_wedge(adj, u as u32, v, w));
                    assert(v < n);
                    match du.checked_add(w) {
                        None => {
                            proof {
                                assert(distance_overflows(adj, s));
                            }
                            return Err(
                                GraphError::DistanceOverflow {
                                    node_from: u as u32,
                                    node_to: v,
                                    current_distance: du,
                                    edge_weight: w,
                                },
                            );
                        },
                        Some(nd) => {
                            let ghost old_dist = dist@;
                            let better: bool = match dist[v as usize] {
                                Some(dv) => nd < dv,
                                None => true,
                            };
                            if better {
                                proof {
                                    let ru = choose|r: Seq<(u32, u32, u32)>| #[trigger] is_route(adj, s, u as u32, r) && route_weight(r) == du;
                                    lemma_route_extend(adj, s, u as u32, ru, v, w);
                                    if done@[v as int] {
                                        let rv = ru.push((u as u32, v, w));
                                        assert(is_route(adj, s, v, rv));
                                    }
                                }
                                dist.set(v as usize, Some(nd));
                                proof {
                                    assert(!done@[v as int]);
                                    assert(v != s) by {
                                        if v == s {
                                            assert(old_dist[s as int] == Some(0u32));
                                        }
                                    }
                                    assert forall|x: u32| x < adj.len() && #[trigger] done@[x as int] implies dist@[x as int] is Some && is_shortest(adj, s, x, dist@[x as int]->Some_0 as int) by {
                                        assert(old_dist[x as int] == dist@[x as int]);
                                    }
                                    assert forall|x: u32| x < adj.len() && #[trigger] dist@[x as int] is Some implies exists|r: Seq<(u32, u32, u32)>|
                                        #[trigger] is_route(adj, s, x, r) && route_weight(r) == dist@[x as int]->Some_0 by {
                                        if x != v {
                                            assert(old_dist[x as int] == dist@[x as int]);
                                        } else {
                                            let ru = choose|r: Seq<(u32, u32, u32)>| #[trigger] is_route(adj, s, u as u32, r) && route_weight(r) == du;
                                            lemma_route_extend(adj, s, u as u32, ru, v, w);
                                            assert(is_route(adj, s, x, ru.push((u as u32, v, w))));
                                        }
                                    }
                                    assert forall|u2: u32, k2: int|
                                        u2 < adj.len() && done@[u2 as int] && 0 <= k2 < adj[u2 as int].len() implies {
                                            let v2 = (#[trigger] adj[u2 as int][k2]).0;
                                            let w2 = adj[u2 as int][k2].1.0;
                                            &&& dist@[v2 as int] is Some
                                            &&& dist@[v2 as int]->Some_0 <= dist@[u2 as int]->Some_0 + w2
                                            &&& dist@[u2 as int]->Some_0 + w2 <= u32::MAX
                                        } by {
                                        let v2 = adj[u2 as int][k2].0;
                                        assert(old_dist[u2 as int] == dist@[u2 as int]);
                                        if v2 == v {
                                            assert(old_dist[v2 as int] is Some);
                                        } else {
                                            assert(old_dist[v2 as int] == dist@[v2 as int]);
                                        }
                                    }
                                    assert forall|k2: int| 0 <= k2 < k + 1 implies {
                                        let v2 = (#[trigger] list@[k2]).0;
                                        let w2 = list@[k2].1.0;
                                        &&& dist@[v2 as int] is Some
                                        &&& dist@[v2 as int]->Some_0 <= du + w2
                                        &&& du + w2 <= u32::MAX
                                    } by {
                                        let v2 = list@[k2].0;
                                        if v2 != v {
                                            assert(old_dist[v2 as int] == dist@[v2 as int]);
                                        }
                                    }
                                }
                            }
                        },
                    }
                    k = k + 1;
                }
                let ghost old_done = done@;
                done.set(u, true);
                proof {
                    done_set = done_set.insert(u as int);
                    assert(!old_done[u as int]);
                    assert forall|x: u32| x < adj.len() && #[trigger] done@[x as int] implies dist@[x as int] is Some && is_shortest(adj, s, x, dist@[x as int]->Some_0 as int) by {
                        if x != u as u32 {
                            assert(old_done[x as int]);
                        }
                    }
                    assert forall|u2: u32, k2: int|
                        u2 < adj.len() && done@[u2 as int] && 0 <= k2 < adj[u2 as int].len() implies {
                            let v2 = (#[trigger] adj[u2 as int][k2]).0;
                            let w2 = adj[u2 as int][k2].1.0;
                            &&& dist@[v2 as int] is Some
                            &&& dist@[v2 as int]->Some_0 <= dist@[u2 as int]->Some_0 + w2
                            &&& dist@[u2 as int]->Some_0 + w2 <= u32::MAX
                        } by {
                        if u2 != u as u32 {
                            assert(old_done[u2 as int]);
                        } else {
                            assert(list@[k2] == adj[u2 as int][k2]);
                        }
                    }
                    assert(done_set.subset_of(set_int_range(0, n as int)));
                }
            }
        }
        proof {
            assert forall|v: u32| v < adj.len() implies (#[trigger] dist@[v as int] is None <==> !routable(adj, s, v))
                && (dist@[v as int] matches Some(d) ==> is_shortest(adj, s, v, d as int)) by {
                if routable(adj, s, v) {
                    let r = choose|r: Seq<(u32, u32, u32)>| #[trigger] is_route(adj, s, v, r);
                    lemma_routable_settled(adj, s, dist@, done@, v, r);
                }
                if dist@[v as int] is Some {
                    assert(done@[v as int]);
                    let r = choose|r: Seq<(u32, u32, u32)>| #[trigger] is_route(adj, s, v, r) && route_weight(r) == dist@[v as int]->Some_0;
                }
            }
            assert(!distance_overflows(adj, s)) by {
                if distance_overflows(adj, s) {
                    let (u, d, v, w) = choose|u: u32, d: int, v: u32, w: u32|
                        #[trigger] is_shortest(adj, s, u, d) && #[trigger] has_wedge(adj, u, v, w) && d + w > u32::MAX;
                    let r = choose|r: Seq<(u32, u32, u32)>| #[trigger] is_route(adj, s, u, r) && route_weight(r) == d;
                    lemma_routable_settled(adj, s, dist@, done@, u, r);
                    lemma_shortest_unique(adj, s, u, d, dist@[u as int]->Some_0 as int);
                    let k = choose|k: int| 0 <= k < adj[u as int].len() && #[trigger] adj[u as int][k] == (v, Weighted(w));
                    assert(adj[u as int][k].1.0 == w);
                }
            }
        }
        Ok(dist)
    }
}

} // verus!
