use vstd::prelude::*;

verus! {

/// Weight of an edge in a weighted graph: a non-negative cost.
#[derive(Debug, Clone, Copy, PartialEq, Eq, PartialOrd, Ord)]
pub struct Weighted(pub u32);

/// Weight of an edge in an unweighted graph: it carries no value.
#[derive(Debug, Clone, Copy, PartialEq, Eq, PartialOrd, Ord)]
pub struct Unweighted(pub ());

/// The errors that the graph algorithms report.
#[derive(Debug, PartialEq, Eq)]
pub enum GraphError {
    /// A node index that is not a node of the graph.
    OutOfBoundsNode { node: u32 },
    /// Relaxing the edge `node_from -> node_to` would exceed the range of distances.
    DistanceOverflow { node_from: u32, node_to: u32, current_distance: u32, edge_weight: u32 },
}

/// A graph stored as adjacency lists: entry `u` holds the edges leaving
/// node `u`, each as `(target, weight)`. Nodes are `0..n`.
#[derive(Debug, PartialEq, Eq)]
pub struct Graph<W> {
    graph: Vec<Vec<(u32, W)>>,
}

impl<W> View for Graph<W> {
    type V = Seq<Seq<(u32, W)>>;

    closed spec fn view(&self) -> Seq<Seq<(u32, W)>> {
        self.graph@.map_values(|l: Vec<(u32, W)>| l@)
    }
}

/// The edges leaving node `u`, as `(u, target, weight)` triples in stored order.
pub open spec fn edges_of<W>(adj: Seq<Seq<(u32, W)>>, u: int) -> Seq<(u32, u32, W)> {
    adj[u].map_values(|e: (u32, W)| (u as u32, e.0, e.1))
}

/// The edges leaving nodes `0..m`, node by node, each in stored order.
pub open spec fn edges_upto<W>(adj: Seq<Seq<(u32, W)>>, m: int) -> Seq<(u32, u32, W)>
    decreases m,
{
    if m <= 0 {
        Seq::empty()
    } else {
        edges_upto(adj, m - 1) + edges_of(adj, m - 1)
    }
}

/// Every edge of the graph, in adjacency-list order.
pub open spec fn edge_seq<W>(adj: Seq<Seq<(u32, W)>>) -> Seq<(u32, u32, W)> {
    edges_upto(adj, adj.len() as int)
}

/// Edge triples with the weight read through its reference.
pub open spec fn deref_edges<W>(r: Seq<(u32, u32, &W)>) -> Seq<(u32, u32, W)> {
    r.map_values(|e: (u32, u32, &W)| (e.0, e.1, *e.2))
}

/// There is an edge from `u` to `v`.
pub open spec fn has_edge<W>(adj: Seq<Seq<(u32, W)>>, u: u32, v: u32) -> bool {
    &&& u < adj.len()
    &&& exists|k: int| 0 <= k < adj[u as int].len() && #[trigger] adj[u as int][k].0 == v
}

/// `p` is a walk: a non-empty node sequence whose consecutive nodes are joined by edges.
pub open spec fn is_walk<W>(adj: Seq<Seq<(u32, W)>>, p: Seq<u32>) -> bool {
    &&& p.len() >= 1
    &&& forall|i: int| 0 <= i < p.len() - 1 ==> #[trigger] has_edge(adj, p[i], p[i + 1])
}

/// Some walk leads from `s` to `v`.
pub open spec fn reachable<W>(adj: Seq<Seq<(u32, W)>>, s: u32, v: u32) -> bool {
    exists|p: Seq<u32>| #[trigger] is_walk(adj, p) && p[0] == s && p.last() == v
}

/// Every edge leads to a node of the graph.
pub open spec fn targets_in_range<W>(adj: Seq<Seq<(u32, W)>>) -> bool {
    forall|u: int, k: int|
        0 <= u < adj.len() && 0 <= k < adj[u].len() ==> #[trigger] adj[u][k].0 < adj.len()
}

/// `node` is the first edge target, in adjacency-list order, that is not a node of the graph.
pub open spec fn first_bad_target<W>(adj: Seq<Seq<(u32, W)>>, node: u32) -> bool {
    &&& node >= adj.len()
    &&& exists|u: int, k: int|
        #![trigger adj[u][k]]
        0 <= u < adj.len() && 0 <= k < adj[u].len() && adj[u][k].0 == node && (forall|u2: int, k2: int|
            0 <= u2 < u && 0 <= k2 < adj[u2].len() ==> #[trigger] adj[u2][k2].0 < adj.len()) && (
        forall|k2: int| 0 <= k2 < k ==> #[trigger] adj[u][k2].0 < adj.len())
}

/// The list of node `e.0` holds the edge `(e.1, e.2)`.
pub open spec fn listed<W>(adj: Seq<Seq<(u32, W)>>, e: (u32, u32, W)) -> bool {
    &&& e.0 < adj.len()
    &&& exists|k: int| 0 <= k < adj[e.0 as int].len() && #[trigger] adj[e.0 as int][k] == (e.1, e.2)
}

/// The edge sequence holds `(u, v, w)` exactly where the list of `u`
/// holds `(v, w)`.
pub proof fn lemma_edge_seq_entries<W>(adj: Seq<Seq<(u32, W)>>)
    requires
        adj.len() <= u32::MAX,
    ensures
        forall|i: int| 0 <= i < edge_seq(adj).len() ==> listed(adj, #[trigger] edge_seq(adj)[i]),
        forall|u: int, k: int|
            0 <= u < adj.len() && 0 <= k < adj[u].len() ==> edge_seq(adj).contains(
                (u as u32, #[trigger] adj[u][k].0, adj[u][k].1),
            ),
{
    lemma_edges_upto_entries(adj, adj.len() as int);
}

proof fn lemma_edges_upto_entries<W>(adj: Seq<Seq<(u32, W)>>, m: int)
    requires
        adj.len() <= u32::MAX,
        0 <= m <= adj.len(),
    ensures
        forall|i: int|
            0 <= i < edges_upto(adj, m).len() ==> listed(adj, #[trigger] edges_upto(adj, m)[i]),
        forall|i: int| 0 <= i < edges_upto(adj, m).len() ==> (#[trigger] edges_upto(adj, m)[i]).0 < m,
        forall|u: int, k: int|
            0 <= u < m && 0 <= k < adj[u].len() ==> edges_upto(adj, m).contains(
                (u as u32, #[trigger] adj[u][k].0, adj[u][k].1),
            ),
    decreases m,
{
    if m > 0 {
        lemma_edges_upto_entries(adj, m - 1);
        let a = edges_upto(adj, m - 1);
        let b = edges_of(adj, m - 1);
        assert(edges_upto(adj, m) == a + b);
        assert forall|i: int| 0 <= i < (a + b).len() implies listed(adj, #[trigger] (a + b)[i]) && (a + b)[i].0 < m by {
            if i < a.len() {
                assert((a + b)[i] == a[i]);
                assert(listed(adj, a[i]));
            } else {
                let k = i - a.len();
                assert((a + b)[i] == b[k]);
                assert(adj[m - 1][k] == (adj[m - 1][k].0, adj[m - 1][k].1));
            }
        }
        assert forall|u: int, k: int|
            0 <= u < m && 0 <= k < adj[u].len() implies (a + b).contains(
                (u as u32, #[trigger] adj[u][k].0, adj[u][k].1),
            ) by {
            if u < m - 1 {
                assert(a.contains((u as u32, adj[u][k].0, adj[u][k].1)));
                let i = choose|i: int| 0 <= i < a.len() && a[i] == (u as u32, adj[u][k].0, adj[u][k].1);
                assert((a + b)[i] == a[i]);
            } else {
                assert((a + b)[a.len() + k] == b[k]);
            }
        }
    }
}

/// `edges` is repeatable: two enumerations of one graph give the same
/// sequence, since each is the graph's edge sequence.
pub proof fn lemma_edges_repeatable<W>(g: &Graph<W>, first: Seq<(u32, u32, &W)>, second: Seq<(u32, u32, &W)>)
    requires
        deref_edges(first) == edge_seq(g@),
        deref_edges(second) == edge_seq(g@),
    ensures
        deref_edges(first) == deref_edges(second),
        first.len() == second.len(),
{
    assert(first.len() == deref_edges(first).len());
    assert(second.len() == deref_edges(second).len());
}

impl<W> Graph<W> {
    #[verifier::type_invariant]
    spec fn inv(self) -> bool {
        self.graph@.len() <= u32::MAX
    }

    /// The number of nodes.
    pub open spec fn num_nodes(&self) -> nat {
        self@.len()
    }

    /// Builds a graph from its adjacency lists; the number of nodes is
    /// the number of lists, which must fit in `u32`.
    pub fn new(g: Vec<Vec<(u32, W)>>) -> (r: Self)
        requires
            g@.len() <= u32::MAX,
        ensures
            r@ == g@.map_values(|l: Vec<(u32, W)>| l@),
    {
        Graph { graph: g }
    }

    /// The number of nodes.
    pub(crate) fn node_count(&self) -> (r: usize)
        ensures
            r == self@.len(),
            r <= u32::MAX,
    {
        proof {
            use_type_invariant(self);
        }
        self.graph.len()
    }

    /// Appends the edge `(j, w)` to the list of node `i`.
    pub(crate) fn push_edge(&mut self, i: u32, j: u32, w: W)
        requires
            i < old(self)@.len(),
        ensures
            final(self)@ == old(self)@.update(i as int, old(self)@[i as int].push((j, w))),
    {
        proof {
            use_type_invariant(&*self);
        }
        let mut lists: Vec<Vec<(u32, W)>> = Vec::new();
        std::mem::swap(&mut lists, &mut self.graph);
        lists[i as usize].push((j, w));
        self.graph = lists;
        assert(self@ =~= old(self)@.update(i as int, old(self)@[i as int].push((j, w))));
    }

    /// The edges leaving node `u`, in stored order.
    pub(crate) fn neighbours(&self, u: u32) -> (r: &Vec<(u32, W)>)
        requires
            u < self@.len(),
        ensures
            r@ == self@[u as int],
    {
        &self.graph[u as usize]
    }

    /// Every edge as `(source, target, weight)`: nodes in increasing
    /// order, each node's edges in stored order.
    pub fn edges(&self) -> (r: Vec<(u32, u32, &W)>)
        ensures
            deref_edges(r@) == edge_seq(self@),
    {
        proof {
            use_type_invariant(self);
        }
        let mut r: Vec<(u32, u32, &W)> = Vec::new();
        let mut u: usize = 0;
        while u < self.graph.len()
            invariant
                u <= self.graph@.len() <= u32::MAX,
                deref_edges(r@) == edges_upto(self@, u as int),
            decreases self.graph@.len() - u,
        {
            let list = &self.graph[u];
            let mut k: usize = 0;
            while k < list.len()
                invariant
                    u < self.graph@.len() <= u32::MAX,
                    list@ == self@[u as int],
                    k <= list@.len(),
                    deref_edges(r@) == edges_upto(self@, u as int) + edges_of(self@, u as int).take(k as int),
                decreases list@.len() - k,
            {
                let ghost old_r = r;
                r.push((u as u32, list[k].0, &list[k].1));
                proof {
                    assert(deref_edges(r@) =~= deref_edges(old_r@).push(
                        edges_of(self@, u as int)[k as int],
                    ));
                    assert(edges_of(self@, u as int).take(k + 1) =~= edges_of(self@, u as int).take(
                        k as int,
                    ).push(edges_of(self@, u as int)[k as int]));
                }
                k = k + 1;
            }
            proof {
                assert(edges_of(self@, u as int).take(k as int) =~= edges_of(self@, u as int));
            }
            u = u + 1;
        }
        r
    }

    /// The first edge target, in adjacency-list order, that is not a node
    /// of the graph, if there is one.
    pub(crate) fn first_bad_target(&self) -> (r: Option<u32>)
        ensures
            r is None <==> targets_in_range(self@),
            r matches Some(node) ==> first_bad_target(self@, node),
    {
        let n: usize = self.graph.len();
        let mut u: usize = 0;
        while u < n
            invariant
                n == self@.len(),
                u <= n,
                forall|u2: int, k2: int|
                    0 <= u2 < u && 0 <= k2 < self@[u2].len() ==> #[trigger] self@[u2][k2].0 < n,
            decreases n - u,
        {
            let list = &self.graph[u];
            let mut k: usize = 0;
            while k < list.len()
                invariant
                    n == self@.len(),
                    u < n,
                    list@ == self@[u as int],
                    k <= list@.len(),
                    forall|u2: int, k2: int|
                        0 <= u2 < u && 0 <= k2 < self@[u2].len() ==> #[trigger] self@[u2][k2].0 < n,
                    forall|k2: int| 0 <= k2 < k ==> #[trigger] self@[u as int][k2].0 < n,
                decreases list@.len() - k,
            {
                let t: u32 = list[k].0;
                if t as usize >= n {
                    assert(self@[u as int][k as int].0 == t);
                    return Some(t);
                }
                k = k + 1;
            }
            u = u + 1;
        }
        None
    }
}

} // verus!
