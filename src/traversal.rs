use vstd::prelude::*;
use vstd::set_lib::{lemma_int_range, lemma_len_subset, set_int_range};

use crate::graph::{
    first_bad_target, has_edge, is_walk, reachable, targets_in_range, Graph, GraphError,
};

verus! {

/// `v` lists, each once and starting with `s`, exactly the nodes reachable from `s`.
pub open spec fn lists_reachable<W>(adj: Seq<Seq<(u32, W)>>, s: u32, v: Seq<u32>) -> bool {
    &&& v.len() >= 1
    &&& v[0] == s
    &&& v.no_duplicates()
    &&& forall|x: u32| v.contains(x) <==> reachable(adj, s, x)
}

/// A walk of at most `k` edges leads from `s` to `v`.
pub open spec fn within<W>(adj: Seq<Seq<(u32, W)>>, s: u32, v: u32, k: nat) -> bool {
    exists|p: Seq<u32>| #[trigger] is_walk(adj, p) && p[0] == s && p.last() == v && p.len() <= k + 1
}

/// `v` lists nodes in breadth-first layers: no node is listed after one
/// that is strictly fewer edges away from `s`.
pub open spec fn in_layers<W>(adj: Seq<Seq<(u32, W)>>, s: u32, v: Seq<u32>) -> bool {
    forall|i: int, j: int, k: nat|
        #![trigger v[i], within(adj, s, v[j], k)]
        0 <= i < j < v.len() && within(adj, s, v[j], k) ==> within(adj, s, v[i], k)
}

/// Every edge out of `v[m]` leads to one of `v[0..j]`.
pub open spec fn explored_by<W>(adj: Seq<Seq<(u32, W)>>, v: Seq<u32>, m: int, j: int) -> bool {
    forall|k: int| 0 <= k < adj[v[m] as int].len() ==> v.take(j).contains(#[trigger] adj[v[m] as int][k].0)
}

/// `v[j]` is reached by the edge at position `k` of the list of `v[i]`,
/// the first edge there that leads outside `v[0..j]`.
pub open spec fn reached_by<W>(adj: Seq<Seq<(u32, W)>>, v: Seq<u32>, j: int, i: int, k: int) -> bool {
    &&& 0 <= i < j
    &&& 0 <= k < adj[v[i] as int].len()
    &&& adj[v[i] as int][k].0 == v[j]
    &&& forall|k2: int| 0 <= k2 < k ==> v.take(j).contains(#[trigger] adj[v[i] as int][k2].0)
}

/// `v[j]` is reached from the earliest listed node that still had an edge
/// leading outside `v[0..j]`.
pub open spec fn breadth_first_step<W>(adj: Seq<Seq<(u32, W)>>, v: Seq<u32>, j: int) -> bool {
    exists|i: int, k: int|
        #[trigger] reached_by(adj, v, j, i, k) && forall|m: int|
            0 <= m < i ==> #[trigger] explored_by(adj, v, m, j)
}

/// `v[j]` is reached from the latest listed node that still had an edge
/// leading outside `v[0..j]`.
pub open spec fn depth_first_step<W>(adj: Seq<Seq<(u32, W)>>, v: Seq<u32>, j: int) -> bool {
    exists|i: int, k: int|
        #[trigger] reached_by(adj, v, j, i, k) && forall|m: int|
            i < m < j ==> #[trigger] explored_by(adj, v, m, j)
}

/// `v` is in breadth-first order: each node after the first is a
/// breadth-first step.
pub open spec fn breadth_first_order<W>(adj: Seq<Seq<(u32, W)>>, v: Seq<u32>) -> bool {
    forall|j: int| 1 <= j < v.len() ==> #[trigger] breadth_first_step(adj, v, j)
}

/// `v` is in depth-first order: each node after the first is a
/// depth-first step.
pub open spec fn depth_first_order<W>(adj: Seq<Seq<(u32, W)>>, v: Seq<u32>) -> bool {
    forall|j: int| 1 <= j < v.len() ==> #[trigger] depth_first_step(adj, v, j)
}

/// What a traversal from `start` returns: an out-of-range start or edge
/// target is reported, else the nodes reachable from `start`.
pub open spec fn traversal_outcome<W>(
    adj: Seq<Seq<(u32, W)>>,
    start: u32,
    r: Result<Vec<u32>, GraphError>,
) -> bool {
    if start >= adj.len() {
        r == Err::<Vec<u32>, GraphError>(GraphError::OutOfBoundsNode { node: start })
    } else if !targets_in_range(adj) {
        r matches Err(GraphError::OutOfBoundsNode { node }) && first_bad_target(adj, node)
    } else {
        r matches Ok(v) && lists_reachable(adj, start, v@)
    }
}

/// A sequence of distinct nodes below `n` has at most `n` elements.
pub proof fn lemma_distinct_nodes_bounded(s: Seq<u32>, n: int)
    requires
        0 <= n,
        s.no_duplicates(),
        forall|i: int| 0 <= i < s.len() ==> s[i] < n,
    ensures
        s.len() <= n,
{
    let t = s.map_values(|x: u32| x as int);
    assert(t.no_duplicates()) by {
        assert forall|i: int, j: int| 0 <= i < t.len() && 0 <= j < t.len() && i != j implies t[i]
            != t[j] by {
            assert(s[i] != s[j]);
        }
    }
    t.unique_seq_to_set();
    lemma_int_range(0, n);
    assert(t.to_set().subset_of(set_int_range(0, n))) by {
        assert forall|x: int| t.to_set().contains(x) implies set_int_range(0, n).contains(x) by {
            let i = choose|i: int| 0 <= i < t.len() && t[i] == x;
            assert(s[i] < n);
        }
    }
    lemma_len_subset(t.to_set(), set_int_range(0, n));
}

/// A bound on walk length may be raised.
proof fn lemma_within_mono<W>(adj: Seq<Seq<(u32, W)>>, s: u32, x: u32, k1: nat, k2: nat)
    requires
        within(adj, s, x, k1),
        k1 <= k2,
    ensures
        within(adj, s, x, k2),
{
    let p = choose|p: Seq<u32>| #[trigger] is_walk(adj, p) && p[0] == s && p.last() == x && p.len() <= k1 + 1;
    assert(is_walk(adj, p) && p[0] == s && p.last() == x && p.len() <= k2 + 1);
}

/// Only `s` is within no edges of `s`.
proof fn lemma_within_zero<W>(adj: Seq<Seq<(u32, W)>>, s: u32, x: u32)
    ensures
        within(adj, s, x, 0) <==> x == s,
{
    let p = seq![s];
    assert(is_walk(adj, p));
    if within(adj, s, x, 0) {
        let q = choose|q: Seq<u32>| #[trigger] is_walk(adj, q) && q[0] == s && q.last() == x && q.len() <= 1;
    }
}

/// One more edge after a walk of at most `k` edges.
proof fn lemma_within_step<W>(adj: Seq<Seq<(u32, W)>>, s: u32, u: u32, v: u32, k: nat)
    requires
        within(adj, s, u, k),
        has_edge(adj, u, v),
    ensures
        within(adj, s, v, k + 1),
{
    let p = choose|p: Seq<u32>| #[trigger] is_walk(adj, p) && p[0] == s && p.last() == u && p.len() <= k + 1;
    let q = p.push(v);
    assert forall|i: int| 0 <= i < q.len() - 1 implies #[trigger] has_edge(adj, q[i], q[i + 1]) by {
        if i < p.len() - 1 {
            assert(has_edge(adj, p[i], p[i + 1]));
        }
    }
    assert(is_walk(adj, q));
}

/// A node within `k + 1` edges but not within `k` is one edge past a node within `k`.
proof fn lemma_within_last_step<W>(adj: Seq<Seq<(u32, W)>>, s: u32, x: u32, k: nat) -> (y: u32)
    requires
        within(adj, s, x, k + 1),
        !within(adj, s, x, k),
    ensures
        within(adj, s, y, k),
        has_edge(adj, y, x),
{
    let p = choose|p: Seq<u32>| #[trigger] is_walk(adj, p) && p[0] == s && p.last() == x && p.len() <= k + 2;
    if p.len() <= k + 1 {
        assert(within(adj, s, x, k));
    }
    let q = p.drop_last();
    let j = p.len() - 2;
    assert(has_edge(adj, p[j], p[j + 1]));
    assert forall|i: int| 0 <= i < q.len() - 1 implies #[trigger] has_edge(adj, q[i], q[i + 1]) by {
        assert(has_edge(adj, p[i], p[i + 1]));
    }
    assert(is_walk(adj, q));
    p[j]
}

/// Appending a node keeps what `reached_by` and `explored_by` say of the
/// positions already listed.
proof fn lemma_order_push<W>(adj: Seq<Seq<(u32, W)>>, v: Seq<u32>, t: u32)
    ensures
        forall|j: int, i: int, k: int|
            0 <= j < v.len() ==> (#[trigger] reached_by(adj, v.push(t), j, i, k) <==> reached_by(adj, v, j, i, k)),
        forall|m: int, j: int|
            0 <= m < j < v.len() ==> (#[trigger] explored_by(adj, v.push(t), m, j) <==> explored_by(adj, v, m, j)),
{
    let w = v.push(t);
    assert forall|j: int| 0 <= j <= v.len() implies #[trigger] w.take(j) == v.take(j) by {
        assert(w.take(j) =~= v.take(j));
    }
    assert forall|j: int, i: int, k: int| 0 <= j < v.len() implies (#[trigger] reached_by(adj, w, j, i, k) <==> reached_by(adj, v, j, i, k)) by {
        assert(w.take(j) == v.take(j));
        if 0 <= i < j {
            assert(w[i] == v[i]);
            assert(w[j] == v[j]);
        }
    }
    assert forall|m: int, j: int| 0 <= m < j < v.len() implies (#[trigger] explored_by(adj, w, m, j) <==> explored_by(adj, v, m, j)) by {
        assert(w.take(j) == v.take(j));
        assert(w[m] == v[m]);
    }
}

/// A node reaches itself.
pub proof fn lemma_reachable_self<W>(adj: Seq<Seq<(u32, W)>>, s: u32)
    ensures
        reachable(adj, s, s),
{
    let p = seq![s];
    assert(is_walk(adj, p));
}

/// An edge out of a reachable node leads to a reachable node.
pub proof fn lemma_reachable_step<W>(adj: Seq<Seq<(u32, W)>>, s: u32, u: u32, v: u32)
    requires
        reachable(adj, s, u),
        has_edge(adj, u, v),
    ensures
        reachable(adj, s, v),
{
    let p = choose|p: Seq<u32>| #[trigger] is_walk(adj, p) && p[0] == s && p.last() == u;
    let q = p.push(v);
    assert forall|i: int| 0 <= i < q.len() - 1 implies #[trigger] has_edge(adj, q[i], q[i + 1]) by {
        if i < p.len() - 1 {
            assert(has_edge(adj, p[i], p[i + 1]));
        }
    }
    assert(is_walk(adj, q));
}

/// A node set that holds `s` and every target of an edge leaving one of
/// its nodes holds every node reachable from `s`.
pub proof fn lemma_closed_holds_reachable<W>(adj: Seq<Seq<(u32, W)>>, s: u32, vis: Seq<u32>, x: u32)
    requires
        vis.contains(s),
        forall|u: u32, k: int|
            vis.contains(u) && u < adj.len() && 0 <= k < adj[u as int].len() ==> vis.contains(
                #[trigger] adj[u as int][k].0,
            ),
        reachable(adj, s, x),
    ensures
        vis.contains(x),
{
    let p = choose|p: Seq<u32>| #[trigger] is_walk(adj, p) && p[0] == s && p.last() == x;
    lemma_closed_holds_walk(adj, vis, p, p.len() - 1);
}

/// Under the closure of `lemma_closed_holds_reachable`, a walk that starts
/// in the set stays in it.
proof fn lemma_closed_holds_walk<W>(adj: Seq<Seq<(u32, W)>>, vis: Seq<u32>, p: Seq<u32>, i: int)
    requires
        is_walk(adj, p),
        vis.contains(p[0]),
        forall|u: u32, k: int|
            vis.contains(u) && u < adj.len() && 0 <= k < adj[u as int].len() ==> vis.contains(
                #[trigger] adj[u as int][k].0,
            ),
        0 <= i < p.len(),
    ensures
        vis.contains(p[i]),
    decreases i,
{
    if i > 0 {
        lemma_closed_holds_walk(adj, vis, p, i - 1);
        let j = i - 1;
        assert(has_edge(adj, p[j], p[j + 1]));
        let k = choose|k: int|
            0 <= k < adj[p[i - 1] as int].len() && #[trigger] adj[p[i - 1] as int][k].0 == p[i];
    }
}

/// Only one node is the first out-of-range edge target.
pub proof fn lemma_first_bad_target_unique<W>(adj: Seq<Seq<(u32, W)>>, a: u32, b: u32)
    requires
        first_bad_target(adj, a),
        first_bad_target(adj, b),
    ensures
        a == b,
{
    let (ua, ka) = choose|u: int, k: int|
        #![trigger adj[u][k]]
        0 <= u < adj.len() && 0 <= k < adj[u].len() && adj[u][k].0 == a && (forall|u2: int, k2: int|
            0 <= u2 < u && 0 <= k2 < adj[u2].len() ==> #[trigger] adj[u2][k2].0 < adj.len()) && (
        forall|k2: int| 0 <= k2 < k ==> #[trigger] adj[u][k2].0 < adj.len());
    let (ub, kb) = choose|u: int, k: int|
        #![trigger adj[u][k]]
        0 <= u < adj.len() && 0 <= k < adj[u].len() && adj[u][k].0 == b && (forall|u2: int, k2: int|
            0 <= u2 < u && 0 <= k2 < adj[u2].len() ==> #[trigger] adj[u2][k2].0 < adj.len()) && (
        forall|k2: int| 0 <= k2 < k ==> #[trigger] adj[u][k2].0 < adj.len());
    if ua < ub {
        assert(adj[ua][ka].0 < adj.len());
    } else if ub < ua {
        assert(adj[ub][kb].0 < adj.len());
    } else if ka < kb {
        assert(adj[ub][ka].0 < adj.len());
    } else if kb < ka {
        assert(adj[ua][kb].0 < adj.len());
    }
}

/// Breadth-first and depth-first traversal from one start find the same
/// nodes, in whatever order: both fail with one error, or both succeed and
/// list the same set.
pub proof fn lemma_bfs_dfs_same_nodes<W>(
    adj: Seq<Seq<(u32, W)>>,
    start: u32,
    by_breadth: Result<Vec<u32>, GraphError>,
    by_depth: Result<Vec<u32>, GraphError>,
)
    requires
        traversal_outcome(adj, start, by_breadth),
        traversal_outcome(adj, start, by_depth),
    ensures
        by_breadth is Ok <==> by_depth is Ok,
        by_breadth is Err ==> by_breadth == by_depth,
        by_breadth matches Ok(b) ==> by_depth matches Ok(d) && b@.to_set() == d@.to_set(),
{
    if start < adj.len() && !targets_in_range(adj) {
        let a = by_breadth->Err_0->node;
        let b = by_depth->Err_0->node;
        lemma_first_bad_target_unique(adj, a, b);
    }
    if by_breadth is Ok && by_depth is Ok {
        let b = by_breadth->Ok_0@;
        let d = by_depth->Ok_0@;
        assert(b.to_set() =~= d.to_set());
    }
}

impl<W> Graph<W> {
    /// The nodes reachable from `starting_node`, in breadth-first order of
    /// discovery, edges explored in stored order.
    pub fn bfs(&self, starting_node: u32) -> (r: Result<Vec<u32>, GraphError>)
        ensures
            traversal_outcome(self@, starting_node, r),
            r matches Ok(v) ==> in_layers(self@, starting_node, v@),
            r matches Ok(v) ==> breadth_first_order(self@, v@),
    {
        let n: usize = self.node_count();
        if starting_node as usize >= n {
            return Err(GraphError::OutOfBoundsNode { node: starting_node });
        }
        if let Some(node) = self.first_bad_target() {
            return Err(GraphError::OutOfBoundsNode { node });
        }
        let ghost adj = self@;
        let mut lookup: Vec<bool> = vec![false; n];
        let mut visited: Vec<u32> = Vec::new();
        lookup.set(starting_node as usize, true);
        visited.push(starting_node);
        let ghost mut lvl: Seq<nat> = seq![0nat];
        let ghost mut par: Seq<int> = seq![0int];
        let ghost mut pos: Seq<int> = seq![0int];
        proof {
            lemma_reachable_self(adj, starting_node);
            assert(visited@[0] == starting_node);
            lemma_within_zero(adj, starting_node, starting_node);
            assert forall|x: u32| within(adj, starting_node, x, lvl[0]) implies visited@.contains(x) by {
                lemma_within_zero(adj, starting_node, x);
                assert(visited@[0] == x);
            }
        }
        let mut head: usize = 0;
        while head < visited.len()
            invariant
                adj == self@,
                n == adj.len() <= u32::MAX,
                targets_in_range(adj),
                starting_node < n,
                lookup@.len() == n,
                head <= visited@.len() <= n,
                visited@.len() >= 1,
                visited@[0] == starting_node,
                visited@.no_duplicates(),
                forall|i: int| 0 <= i < visited@.len() ==> #[trigger] visited@[i] < n,
                forall|x: u32| x < n ==> (lookup@[x as int] <==> visited@.contains(x)),
                forall|i: int|
                    0 <= i < visited@.len() ==> reachable(adj, starting_node, #[trigger] visited@[i]),
                forall|i: int, k: int|
                    0 <= i < head && 0 <= k < adj[visited@[i] as int].len() ==> visited@.contains(
                        #[trigger] adj[visited@[i] as int][k].0,
                    ),
                lvl.len() == visited@.len(),
                lvl[0] == 0,
                forall|i: int| 0 <= i < visited@.len() ==> within(adj, starting_node, #[trigger] visited@[i], lvl[i]),
                forall|i: int, k: nat|
                    0 <= i < visited@.len() && k < lvl[i] ==> !#[trigger] within(adj, starting_node, visited@[i], k),
                forall|i: int, j: int| 0 <= i <= j < visited@.len() ==> #[trigger] lvl[i] <= #[trigger] lvl[j],
                head < visited@.len() ==> forall|i: int| head <= i < visited@.len() ==> #[trigger] lvl[i] <= lvl[head as int] + 1,
                head < visited@.len() ==> forall|x: u32| #[trigger] within(adj, starting_node, x, lvl[head as int]) ==> visited@.contains(x),
                par.len() == visited@.len(),
                pos.len() == visited@.len(),
                forall|j: int| 1 <= j < visited@.len() ==> par[j] < head,
                forall|j: int|
                    1 <= j < visited@.len() ==> #[trigger] reached_by(adj, visited@, j, par[j], pos[j]),
                forall|j: int, m: int|
                    1 <= j < visited@.len() && 0 <= m < par[j] ==> #[trigger] explored_by(adj, visited@, m, j),
            decreases n - head,
        {
            let u: u32 = visited[head];
            let ghost lvl_u: nat = lvl[head as int];
            let list = self.neighbours(u);
            let mut k: usize = 0;
            let ghost old_len: int = visited@.len() as int;
            while k < list.len()
                invariant
                    adj == self@,
                    n == adj.len() <= u32::MAX,
                    targets_in_range(adj),
                    starting_node < n,
                    lookup@.len() == n,
                    head < visited@.len() <= n,
                    visited@.len() >= 1,
                    visited@[0] == starting_node,
                    visited@[head as int] == u,
                    u < n,
                    list@ == adj[u as int],
                    k <= list@.len(),
                    visited@.no_duplicates(),
                    forall|i: int| 0 <= i < visited@.len() ==> #[trigger] visited@[i] < n,
                    forall|x: u32| x < n ==> (lookup@[x as int] <==> visited@.contains(x)),
                    forall|i: int|
                        0 <= i < visited@.len() ==> reachable(
                            adj,
                            starting_node,
                            #[trigger] visited@[i],
                        ),
                    forall|i: int, k2: int|
                        0 <= i < head && 0 <= k2 < adj[visited@[i] as int].len()
                            ==> visited@.contains(#[trigger] adj[visited@[i] as int][k2].0),
                    forall|k2: int| 0 <= k2 < k ==> visited@.contains(#[trigger] list@[k2].0),
                    lvl.len() == visited@.len(),
                    lvl[0] == 0,
                    lvl[head as int] == lvl_u,
                    forall|i: int| 0 <= i < visited@.len() ==> within(adj, starting_node, #[trigger] visited@[i], lvl[i]),
                    forall|i: int, k: nat|
                        0 <= i < visited@.len() && k < lvl[i] ==> !#[trigger] within(adj, starting_node, visited@[i], k),
                    forall|i: int, j: int| 0 <= i <= j < visited@.len() ==> #[trigger] lvl[i] <= #[trigger] lvl[j],
                    forall|i: int| head <= i < visited@.len() ==> #[trigger] lvl[i] <= lvl_u + 1,
                    forall|i: int| head < i < old_len ==> #[trigger] lvl[i] >= lvl_u,
                    forall|i: int| old_len <= i < visited@.len() ==> #[trigger] lvl[i] == lvl_u + 1,
                    old_len <= visited@.len(),
                    forall|x: u32| #[trigger] within(adj, starting_node, x, lvl_u) ==> visited@.contains(x),
                    par.len() == visited@.len(),
                    pos.len() == visited@.len(),
                    forall|j: int| 1 <= j < visited@.len() ==> par[j] <= head,
                    forall|j: int|
                        1 <= j < visited@.len() ==> #[trigger] reached_by(adj, visited@, j, par[j], pos[j]),
                    forall|j: int, m: int|
                        1 <= j < visited@.len() && 0 <= m < par[j] ==> #[trigger] explored_by(adj, visited@, m, j),
                decreases list@.len() - k,
            {
                let t: u32 = list[k].0;
                assert(adj[u as int][k as int].0 == t);
                if !lookup[t as usize] {
                    lookup.set(t as usize, true);
                    proof {
                        assert(has_edge(adj, u, t));
                        lemma_reachable_step(adj, starting_node, u, t);
                        assert(within(adj, starting_node, visited@[head as int], lvl[head as int]));
                        lemma_within_step(adj, starting_node, u, t, lvl_u);
                        assert forall|k: nat| k < lvl_u + 1 implies !#[trigger] within(adj, starting_node, t, k) by {
                            if within(adj, starting_node, t, k) {
                                lemma_within_mono(adj, starting_node, t, k, lvl_u);
                            }
                        }
                        lvl = lvl.push(lvl_u + 1);
                        par = par.push(head as int);
                        pos = pos.push(k as int);
                    }
                    let ghost before = visited@;
                    visited.push(t);
                    proof {
                        assert(visited@ == before.push(t));
                        assert(forall|i: int| 0 <= i < before.len() ==> visited@[i] == before[i]);
                        assert(forall|x: u32| before.contains(x) ==> visited@.contains(x));
                        assert(visited@[before.len() as int] == t);
                        assert forall|x: u32| x < n implies (lookup@[x as int] <==> visited@.contains(
                            x,
                        )) by {
                            if visited@.contains(x) && x != t {
                                let i = choose|i: int| 0 <= i < visited@.len() && visited@[i] == x;
                                assert(before[i] == x);
                            }
                        }
                        lemma_distinct_nodes_bounded(visited@, n as int);
                        lemma_order_push(adj, before, t);
                        let j = before.len() as int;
                        assert(visited@.take(j) =~= before);
                        assert(reached_by(adj, visited@, j, head as int, k as int));
                        assert forall|m: int| 0 <= m < head implies #[trigger] explored_by(adj, visited@, m, j) by {
                            assert forall|k2: int| 0 <= k2 < adj[visited@[m] as int].len() implies visited@.take(j).contains(#[trigger] adj[visited@[m] as int][k2].0) by {
                                assert(before.contains(adj[before[m] as int][k2].0));
                            }
                        }
                        assert forall|j2: int, m: int|
                            1 <= j2 < visited@.len() && 0 <= m < par[j2] implies #[trigger] explored_by(adj, visited@, m, j2) by {
                            if j2 < j {
                                assert(explored_by(adj, before, m, j2));
                            }
                        }
                    }
                }
                assert(visited@.contains(list@[k as int].0));
                k = k + 1;
            }
            proof {
                let h = head + 1;
                if h < visited@.len() {
                    if lvl[h as int] != lvl_u {
                        assert(lvl[h as int] == lvl_u + 1);
                        assert forall|x: u32| #[trigger] within(adj, starting_node, x, lvl[h as int]) implies visited@.contains(x) by {
                            if !within(adj, starting_node, x, lvl_u) {
                                let y = lemma_within_last_step(adj, starting_node, x, lvl_u);
                                assert(visited@.contains(y));
                                let iy = choose|iy: int| 0 <= iy < visited@.len() && visited@[iy] == y;
                                assert(within(adj, starting_node, visited@[iy], lvl_u));
                                assert(lvl[iy] <= lvl_u);
                                if iy > head {
                                    assert(lvl[h as int] <= lvl[iy]);
                                }
                                assert(iy <= head);
                                let ky = choose|ky: int| 0 <= ky < adj[y as int].len() && #[trigger] adj[y as int][ky].0 == x;
                                assert(visited@.contains(adj[visited@[iy] as int][ky].0));
                            }
                        }
                    }
                }
            }
            head = head + 1;
        }
        proof {
            assert forall|x: u32| reachable(adj, starting_node, x) implies visited@.contains(x) by {
                assert forall|v: u32, k: int|
                    visited@.contains(v) && v < adj.len() && 0 <= k < adj[v as int].len()
                        implies visited@.contains(#[trigger] adj[v as int][k].0) by {
                    let i = choose|i: int| 0 <= i < visited@.len() && visited@[i] == v;
                    assert(visited@.contains(adj[visited@[i] as int][k].0));
                }
                assert(visited@.contains(visited@[0]));
                lemma_closed_holds_reachable(adj, starting_node, visited@, x);
            }
            assert forall|i: int, j: int, k: nat|
                #![trigger visited@[i], within(adj, starting_node, visited@[j], k)]
                0 <= i < j < visited@.len() && within(adj, starting_node, visited@[j], k)
                    implies within(adj, starting_node, visited@[i], k) by {
                assert(lvl[i] <= lvl[j]);
                assert(lvl[j] <= k);
                assert(within(adj, starting_node, visited@[i], lvl[i]));
                lemma_within_mono(adj, starting_node, visited@[i], lvl[i], k);
            }
            assert forall|j: int| 1 <= j < visited@.len() implies #[trigger] breadth_first_step(adj, visited@, j) by {
                assert(reached_by(adj, visited@, j, par[j], pos[j]));
            }
        }
        Ok(visited)
    }

    /// The nodes reachable from `starting_node`, in depth-first order of
    /// discovery: from the node on top of the stack, the first unvisited
    /// neighbour in stored order is visited next.
    pub fn dfs(&self, starting_node: u32) -> (r: Result<Vec<u32>, GraphError>)
        ensures
            traversal_outcome(self@, starting_node, r),
            r matches Ok(v) ==> depth_first_order(self@, v@),
    {
        let n: usize = self.node_count();
        if starting_node as usize >= n {
            return Err(GraphError::OutOfBoundsNode { node: starting_node });
        }
        if let Some(node) = self.first_bad_target() {
            return Err(GraphError::OutOfBoundsNode { node });
        }
        let ghost adj = self@;
        let mut lookup: Vec<bool> = vec![false; n];
        let mut visited: Vec<u32> = Vec::new();
        let mut stack: Vec<u32> = Vec::new();
        lookup.set(starting_node as usize, true);
        visited.push(starting_node);
        stack.push(starting_node);
        proof {
            lemma_reachable_self(adj, starting_node);
            assert(visited@[0] == starting_node);
            assert(stack@[0] == starting_node);
        }
        let ghost mut sidx: Seq<int> = seq![0int];
        let ghost mut par: Seq<int> = seq![0int];
        let ghost mut pos: Seq<int> = seq![0int];
        while stack.len() > 0
            invariant
                adj == self@,
                n == adj.len() <= u32::MAX,
                targets_in_range(adj),
                starting_node < n,
                lookup@.len() == n,
                1 <= visited@.len() <= n,
                visited@[0] == starting_node,
                visited@.no_duplicates(),
                stack@.no_duplicates(),
                forall|i: int| 0 <= i < visited@.len() ==> #[trigger] visited@[i] < n,
                forall|i: int| 0 <= i < stack@.len() ==> visited@.contains(#[trigger] stack@[i]),
                forall|x: u32| x < n ==> (lookup@[x as int] <==> visited@.contains(x)),
                forall|i: int|
                    0 <= i < visited@.len() ==> reachable(adj, starting_node, #[trigger] visited@[i]),
                forall|v: u32, k: int|
                    visited@.contains(v) && !stack@.contains(v) && 0 <= k < adj[v as int].len()
                        ==> visited@.contains(#[trigger] adj[v as int][k].0),
                sidx.len() == stack@.len(),
                forall|a: int| 0 <= a < sidx.len() ==> 0 <= #[trigger] sidx[a] < visited@.len() && visited@[sidx[a]] == stack@[a],
                forall|a: int, b: int| 0 <= a < b < sidx.len() ==> #[trigger] sidx[a] < #[trigger] sidx[b],
                par.len() == visited@.len(),
                pos.len() == visited@.len(),
                forall|j: int|
                    1 <= j < visited@.len() ==> #[trigger] reached_by(adj, visited@, j, par[j], pos[j]),
                forall|j: int, m: int|
                    1 <= j < visited@.len() && par[j] < m < j ==> #[trigger] explored_by(adj, visited@, m, j),
            decreases 2 * (n - visited@.len()) + stack@.len(),
        {
            let u: u32 = stack[stack.len() - 1];
            assert(visited@.contains(stack@[stack@.len() - 1]));
            let list = self.neighbours(u);
            let mut found: bool = false;
            let mut k: usize = 0;
            let ghost stack0 = stack@;
            let ghost visited0 = visited@;
            let ghost sidx0 = sidx;
            let ghost top: int = sidx.last();
            while !found && k < list.len()
                invariant
                    adj == self@,
                    n == adj.len() <= u32::MAX,
                    targets_in_range(adj),
                    starting_node < n,
                    lookup@.len() == n,
                    u < n,
                    list@ == adj[u as int],
                    k <= list@.len(),
                    stack0.len() >= 1,
                    stack0.last() == u,
                    visited0.contains(u),
                    !found ==> stack@ == stack0 && visited@ == visited0 && sidx == sidx0,
                        sidx0.len() == stack0.len(),
                    top == sidx0.last(),
                    0 <= top < visited0.len(),
                    visited0[top] == u,
                    forall|a: int| 0 <= a < sidx0.len() ==> 0 <= #[trigger] sidx0[a] < visited0.len() && visited0[sidx0[a]] == stack0[a],
                    forall|a: int, b: int| 0 <= a < b < sidx0.len() ==> #[trigger] sidx0[a] < #[trigger] sidx0[b],

                    found ==> visited@.len() == visited0.len() + 1 && stack@.len() == stack0.len() + 1
                        && visited@ == visited0.push(stack@.last()) && stack@ == stack0.push(
                        stack@.last(),
                    ),
                    1 <= visited@.len() <= n,
                    visited@[0] == starting_node,
                    visited@.no_duplicates(),
                    stack@.no_duplicates(),
                    forall|i: int| 0 <= i < visited@.len() ==> #[trigger] visited@[i] < n,
                    forall|i: int| 0 <= i < stack@.len() ==> visited@.contains(#[trigger] stack@[i]),
                    forall|x: u32| x < n ==> (lookup@[x as int] <==> visited@.contains(x)),
                    forall|i: int|
                        0 <= i < visited@.len() ==> reachable(
                            adj,
                            starting_node,
                            #[trigger] visited@[i],
                        ),
                    forall|v: u32, k2: int|
                        visited0.contains(v) && !stack0.contains(v) && 0 <= k2 < adj[v as int].len()
                            ==> visited0.contains(#[trigger] adj[v as int][k2].0),
                    !found ==> forall|k2: int|
                        0 <= k2 < k ==> visited@.contains(#[trigger] list@[k2].0),
                    sidx.len() == stack@.len(),
                    forall|a: int| 0 <= a < sidx.len() ==> 0 <= #[trigger] sidx[a] < visited@.len() && visited@[sidx[a]] == stack@[a],
                    forall|a: int, b: int| 0 <= a < b < sidx.len() ==> #[trigger] sidx[a] < #[trigger] sidx[b],
                    par.len() == visited@.len(),
                    pos.len() == visited@.len(),
                    forall|j: int|
                        1 <= j < visited@.len() ==> #[trigger] reached_by(adj, visited@, j, par[j], pos[j]),
                    forall|j: int, m: int|
                        1 <= j < visited@.len() && par[j] < m < j ==> #[trigger] explored_by(adj, visited@, m, j),
                decreases list@.len() - k,
            {
                let t: u32 = list[k].0;
                assert(adj[u as int][k as int].0 == t);
                if !lookup[t as usize] {
                    lookup.set(t as usize, true);
                    proof {
                        assert(has_edge(adj, u, t));
                        lemma_reachable_step(adj, starting_node, u, t);
                        assert(!visited@.contains(t));
                    }
                    let ghost before = visited@;
                    let ghost par_before = par;
                    let ghost pos_before = pos;
                    proof {
                        par = par.push(top);
                        pos = pos.push(k as int);
                        sidx = sidx.push(before.len() as int);
                    }
                    visited.push(t);
                    stack.push(t);
                    proof {
                        assert(visited@ == before.push(t));
                        assert(forall|i: int| 0 <= i < before.len() ==> visited@[i] == before[i]);
                        assert(visited@[before.len() as int] == t);
                        assert forall|x: u32| x < n implies (lookup@[x as int] <==> visited@.contains(
                            x,
                        )) by {
                            if visited@.contains(x) && x != t {
                                let i = choose|i: int| 0 <= i < visited@.len() && visited@[i] == x;
                                assert(before[i] == x);
                            }
                        }
                        assert forall|i: int| 0 <= i < stack@.len() implies visited@.contains(
                            #[trigger] stack@[i],
                        ) by {
                            if i < stack0.len() {
                                assert(before.contains(stack0[i]));
                                let j = choose|j: int| 0 <= j < before.len() && before[j] == stack0[i];
                                assert(visited@[j] == stack0[i]);
                            }
                        }
                        lemma_distinct_nodes_bounded(visited@, n as int);
                        lemma_order_push(adj, before, t);
                        let j = before.len() as int;
                        assert(visited@.take(j) =~= before);
                        assert(reached_by(adj, visited@, j, top, k as int));
                        assert forall|m: int| top < m < j implies #[trigger] explored_by(adj, visited@, m, j) by {
                            let x = before[m];
                            assert(before.contains(x));
                            assert(!stack0.contains(x)) by {
                                if stack0.contains(x) {
                                    let a = choose|a: int| 0 <= a < stack0.len() && stack0[a] == x;
                                    assert(visited0[sidx0[a]] == x);
                                    if a < sidx0.len() - 1 {
                                        assert(sidx0[a] < sidx0[sidx0.len() - 1]);
                                    }
                                    assert(sidx0[a] <= top);
                                }
                            }
                            assert forall|k2: int| 0 <= k2 < adj[visited@[m] as int].len() implies visited@.take(j).contains(#[trigger] adj[visited@[m] as int][k2].0) by {
                                assert(visited0.contains(adj[x as int][k2].0));
                            }
                        }
                        assert forall|j2: int, m: int|
                            1 <= j2 < visited@.len() && par[j2] < m < j2 implies #[trigger] explored_by(adj, visited@, m, j2) by {
                            if j2 < j {
                                assert(par[j2] == par_before[j2]);
                                assert(reached_by(adj, before, j2, par_before[j2], pos_before[j2]));
                                assert(explored_by(adj, before, m, j2));
                            } else {
                                assert(par[j2] == top);
                            }
                        }
                        assert forall|a: int| 0 <= a < sidx.len() implies 0 <= #[trigger] sidx[a] < visited@.len() && visited@[sidx[a]] == stack@[a] by {
                            if a < sidx0.len() {
                                assert(sidx[a] == sidx0[a]);
                                assert(stack@[a] == stack0[a]);
                            }
                        }
                    }
                    found = true;
                } else {
                    assert(visited@.contains(list@[k as int].0));
                }
                k = k + 1;
            }
            if !found {
                stack.pop();
                proof {
                    sidx = sidx.drop_last();
                    assert(stack@ == stack0.drop_last());
                    assert forall|v: u32, k2: int|
                        visited@.contains(v) && !stack@.contains(v) && 0 <= k2 < adj[v as int].len()
                            implies visited@.contains(#[trigger] adj[v as int][k2].0) by {
                        if v == u {
                            assert(list@[k2].0 == adj[v as int][k2].0);
                        } else {
                            assert(!stack0.contains(v)) by {
                                if stack0.contains(v) {
                                    let j = choose|j: int| 0 <= j < stack0.len() && stack0[j] == v;
                                    assert(stack@[j] == v);
                                }
                            }
                        }
                    }
                }
            } else {
                proof {
                    assert forall|v: u32, k2: int|
                        visited@.contains(v) && !stack@.contains(v) && 0 <= k2 < adj[v as int].len()
                            implies visited@.contains(#[trigger] adj[v as int][k2].0) by {
                        let t = stack@.last();
                        assert(stack@[stack@.len() - 1] == t);
                        assert(v != t);
                        let i = choose|i: int| 0 <= i < visited@.len() && visited@[i] == v;
                        assert(visited0[i] == v);
                        assert(!stack0.contains(v)) by {
                            if stack0.contains(v) {
                                let j = choose|j: int| 0 <= j < stack0.len() && stack0[j] == v;
                                assert(stack@[j] == v);
                            }
                        }
                        let w = adj[v as int][k2].0;
                        assert(visited0.contains(w));
                        let j = choose|j: int| 0 <= j < visited0.len() && visited0[j] == w;
                        assert(visited@[j] == w);
                    }
                }
            }
        }
        proof {
            assert forall|x: u32| reachable(adj, starting_node, x) implies visited@.contains(x) by {
                assert(visited@.contains(visited@[0]));
                lemma_closed_holds_reachable(adj, starting_node, visited@, x);
            }
            assert forall|j: int| 1 <= j < visited@.len() implies #[trigger] depth_first_step(adj, visited@, j) by {
                assert(reached_by(adj, visited@, j, par[j], pos[j]));
            }
        }
        Ok(visited)
    }
}

} // verus!
