use vstd::prelude::*;

use rand::rngs::ThreadRng;
use rand::Rng;

use crate::graph::{
    edge_seq, has_edge, lemma_edge_seq_entries, listed, targets_in_range, Graph, Unweighted, Weighted,
};

verus! {

/// The least weight that the generator gives an edge.
pub const MIN_WEIGHT: u32 = 1;

/// The greatest weight that the generator gives an edge.
pub const MAX_WEIGHT: u32 = 10;

/// rand's thread-local generator, carried through as an opaque handle.
#[verifier::external_type_specification]
#[verifier::external_body]
pub struct ExThreadRng(ThreadRng);

/// Relies on rand's `Rng::random_range` on an inclusive range: the value
/// lies in `lo..=hi` (it panics only on an empty range).
#[verifier::external_body]
fn random_in(rng: &mut ThreadRng, lo: u32, hi: u32) -> (r: u32)
    requires
        lo <= hi,
    ensures
        lo <= r <= hi,
{
    rng.random_range(lo..=hi)
}

/// `adj` after inserting the edge `i -> j` of weight `w`, and also
/// `j -> i` unless the graph is directed.
pub open spec fn inserted<W>(
    adj: Seq<Seq<(u32, W)>>,
    i: u32,
    j: u32,
    w: W,
    is_directed: bool,
) -> Seq<Seq<(u32, W)>> {
    let a = adj.update(i as int, adj[i as int].push((j, w)));
    if is_directed {
        a
    } else {
        a.update(j as int, a[j as int].push((i, w)))
    }
}

/// How an edge is inserted into a graph of a given weight kind.
pub trait InsertEdge: Sized {
    /// A weight that the generator may give an edge.
    spec fn drawable(w: Self) -> bool;

    /// Inserts the edge `i -> j`, and `j -> i` unless the graph is directed,
    /// both with one weight, which is returned.
    fn insert_edge(g: &mut Graph<Self>, rng: &mut ThreadRng, i: u32, j: u32, is_directed: bool) -> (w: Self)
        requires
            i < old(g)@.len(),
            j < old(g)@.len(),
        ensures
            Self::drawable(w),
            final(g)@ == inserted(old(g)@, i, j, w, is_directed),
    ;
}

impl InsertEdge for Unweighted {
    open spec fn drawable(w: Unweighted) -> bool {
        true
    }

    fn insert_edge(g: &mut Graph<Unweighted>, _rng: &mut ThreadRng, i: u32, j: u32, is_directed: bool) -> (w: Unweighted) {
        g.push_edge(i, j, Unweighted(()));
        if !is_directed {
            g.push_edge(j, i, Unweighted(()));
        }
        Unweighted(())
    }
}

impl InsertEdge for Weighted {
    open spec fn drawable(w: Weighted) -> bool {
        MIN_WEIGHT <= w.0 <= MAX_WEIGHT
    }

    fn insert_edge(g: &mut Graph<Weighted>, rng: &mut ThreadRng, i: u32, j: u32, is_directed: bool) -> (w: Weighted) {
        let w: u32 = random_in(rng, MIN_WEIGHT, MAX_WEIGHT);
        g.push_edge(i, j, Weighted(w));
        if !is_directed {
            g.push_edge(j, i, Weighted(w));
        }
        Weighted(w)
    }
}

/// Whether the generator puts an edge from `u` to `v`, given the draws:
/// `draws[i][j]` decides the pair `(i, j)`; in an undirected graph only the
/// pairs with `i < j` are drawn, each giving edges both ways.
pub open spec fn chosen(draws: Seq<Seq<bool>>, is_directed: bool, u: u32, v: u32) -> bool {
    if is_directed {
        draws[u as int][v as int]
    } else if u < v {
        draws[u as int][v as int]
    } else if v < u {
        draws[v as int][u as int]
    } else {
        false
    }
}

/// The edge at position `k` of the list of `u` has a mirror: an edge back
/// to `u` of the same weight.
pub open spec fn mirrored<W>(adj: Seq<Seq<(u32, W)>>, u: int, k: int) -> bool {
    exists|k2: int|
        0 <= k2 < adj[adj[u][k].0 as int].len() && #[trigger] adj[adj[u][k].0 as int][k2] == (
        u as u32,
        adj[u][k].1,
    )
}

/// Every edge `u -> v` of weight `w` has a mirror `v -> u` of the same weight.
pub open spec fn symmetric<W>(adj: Seq<Seq<(u32, W)>>) -> bool {
    forall|u: int, k: int| 0 <= u < adj.len() && 0 <= k < adj[u].len() ==> #[trigger] mirrored(adj, u, k)
}

/// Each list holds its targets in strictly increasing order, so no two
/// edges of a list lead to one node.
pub open spec fn increasing_targets<W>(adj: Seq<Seq<(u32, W)>>) -> bool {
    forall|u: int, k1: int, k2: int|
        0 <= u < adj.len() && 0 <= k1 < k2 < adj[u].len() ==> #[trigger] adj[u][k1].0
            < #[trigger] adj[u][k2].0
}

/// Every weight is one the generator may draw.
pub open spec fn all_drawable<W: InsertEdge>(adj: Seq<Seq<(u32, W)>>) -> bool {
    forall|u: int, k: int|
        0 <= u < adj.len() && 0 <= k < adj[u].len() ==> W::drawable(#[trigger] adj[u][k].1)
}

/// `adj` is a graph of `n` nodes that the generator may build from `draws`.
pub open spec fn generated_from<W: InsertEdge>(
    adj: Seq<Seq<(u32, W)>>,
    n: u32,
    draws: Seq<Seq<bool>>,
    is_directed: bool,
) -> bool {
    &&& adj.len() == n
    &&& targets_in_range(adj)
    &&& forall|u: u32, v: u32|
        u < n && v < n ==> (#[trigger] has_edge(adj, u, v) <==> chosen(draws, is_directed, u, v))
    &&& increasing_targets(adj)
    &&& all_drawable(adj)
    &&& !is_directed ==> symmetric(adj)
}

/// The pair `(u, v)` has been handled once the generator has reached the pair `(i, j)`.
spec fn handled(is_directed: bool, i: int, j: int, u: u32, v: u32) -> bool {
    if is_directed {
        u < i || (u == i && v < j)
    } else if u < v {
        u < i || (u == i && v < j)
    } else if v < u {
        v < i || (v == i && u < j)
    } else {
        false
    }
}

/// Appending `(j, w)` to the list of `i` adds exactly the edge `i -> j`.
proof fn lemma_push_has_edge<W>(adj: Seq<Seq<(u32, W)>>, i: u32, j: u32, w: W)
    requires
        i < adj.len(),
    ensures
        forall|u: u32, v: u32|
            #[trigger] has_edge(adj.update(i as int, adj[i as int].push((j, w))), u, v) <==> (
            has_edge(adj, u, v) || (u == i && v == j)),
{
    let b = adj.update(i as int, adj[i as int].push((j, w)));
    assert forall|u: u32, v: u32| #[trigger] has_edge(b, u, v) <==> (has_edge(adj, u, v) || (u == i && v == j)) by {
        if u == i {
            if has_edge(b, u, v) && v != j {
                let k = choose|k: int| 0 <= k < b[u as int].len() && #[trigger] b[u as int][k].0 == v;
                assert(adj[u as int][k].0 == v);
            }
            if has_edge(adj, u, v) {
                let k = choose|k: int| 0 <= k < adj[u as int].len() && #[trigger] adj[u as int][k].0 == v;
                assert(b[u as int][k].0 == v);
            }
            if v == j {
                assert(b[u as int][adj[i as int].len() as int].0 == v);
            }
        } else if u < adj.len() {
            assert(b[u as int] == adj[u as int]);
        }
    }
}

impl<W: InsertEdge> Graph<W> {
    /// A graph of `num_nodes` nodes whose edges follow `draws`: for each
    /// pair `(i, j)`, `j` over all nodes when directed and over `i + 1..`
    /// when undirected, the edge `i -> j` is inserted where `draws[i][j]`
    /// holds (with `j -> i` of the same weight when undirected). Weights
    /// come from `rng`.
    pub fn random_graph_from_draws(
        num_nodes: u32,
        is_directed: bool,
        draws: &Vec<Vec<bool>>,
        rng: &mut ThreadRng,
    ) -> (r: Self)
        requires
            draws@.len() == num_nodes,
            forall|i: int| 0 <= i < num_nodes ==> #[trigger] draws@[i]@.len() == num_nodes,
        ensures
            generated_from(r@, num_nodes, draws@.map_values(|row: Vec<bool>| row@), is_directed),
    {
        let ghost dr = draws@.map_values(|row: Vec<bool>| row@);
        let mut v: Vec<Vec<(u32, W)>> = Vec::new();
        let mut c: u32 = 0;
        while c < num_nodes
            invariant
                c <= num_nodes,
                v@.len() == c,
                forall|x: int| 0 <= x < c ==> (#[trigger] v@[x])@.len() == 0,
            decreases num_nodes - c,
        {
            v.push(Vec::new());
            c = c + 1;
        }
        let mut graph: Graph<W> = Graph::new(v);
        assert forall|u: u32, x: u32| u < num_nodes implies !#[trigger] has_edge(graph@, u, x) by {
            assert(graph@[u as int].len() == 0);
        }
        let mut i: u32 = 0;
        while i < num_nodes
            invariant
                dr == draws@.map_values(|row: Vec<bool>| row@),
                draws@.len() == num_nodes,
                forall|i: int| 0 <= i < num_nodes ==> #[trigger] draws@[i]@.len() == num_nodes,
                i <= num_nodes,
                graph@.len() == num_nodes,
                targets_in_range(graph@),
                forall|u: u32, x: u32|
                    u < num_nodes && x < num_nodes ==> (#[trigger] has_edge(graph@, u, x) <==> (
                    chosen(dr, is_directed, u, x) && handled(
                        is_directed,
                        i as int,
                        if is_directed { 0 } else { i + 1 },
                        u,
                        x,
                    ))),
                forall|u: u32, x: u32| u < num_nodes && x >= num_nodes ==> !#[trigger] has_edge(graph@, u, x),
                increasing_targets(graph@),
                all_drawable(graph@),
                !is_directed ==> symmetric(graph@),
            decreases num_nodes - i,
        {
            let z: u32 = if is_directed { 0 } else { i + 1 };
            let row = &draws[i as usize];
            let mut j: u32 = z;
            while j < num_nodes
                invariant
                    dr == draws@.map_values(|row: Vec<bool>| row@),
                    draws@.len() == num_nodes,
                    i < num_nodes,
                    row@ == dr[i as int],
                    row@.len() == num_nodes,
                    z <= j <= num_nodes,
                    z == if is_directed { 0 } else { i + 1 },
                    graph@.len() == num_nodes,
                    targets_in_range(graph@),
                    forall|u: u32, x: u32|
                        u < num_nodes && x < num_nodes ==> (#[trigger] has_edge(graph@, u, x) <==> (
                        chosen(dr, is_directed, u, x) && handled(is_directed, i as int, j as int, u, x))),
                    forall|u: u32, x: u32| u < num_nodes && x >= num_nodes ==> !#[trigger] has_edge(graph@, u, x),
                    increasing_targets(graph@),
                    all_drawable(graph@),
                    !is_directed ==> symmetric(graph@),
                decreases num_nodes - j,
            {
                if row[j as usize] {
                    let ghost before = graph@;
                    assert forall|k: int| 0 <= k < before[i as int].len() implies #[trigger] before[i as int][k].0 < j by {
                        let x = before[i as int][k].0;
                        assert(has_edge(before, i, x));
                    }
                    if !is_directed {
                        assert forall|k: int| 0 <= k < before[j as int].len() implies #[trigger] before[j as int][k].0 < i by {
                            let x = before[j as int][k].0;
                            assert(has_edge(before, j, x));
                        }
                    }
                    let w = W::insert_edge(&mut graph, rng, i, j, is_directed);
                    proof {
                        let a = before.update(i as int, before[i as int].push((j, w)));
                        lemma_push_has_edge(before, i, j, w);
                        if !is_directed {
                            lemma_push_has_edge(a, j, i, w);
                        }
                        lemma_insert_keeps(before, i, j, w, is_directed);
                    }
                }
                j = j + 1;
            }
            i = i + 1;
        }
        graph
    }
}

/// Inserting an edge pair that is not yet there keeps the lists free of
/// parallel edges, the targets in range, the weights drawable and, for an
/// undirected graph, the mirror property.
proof fn lemma_insert_keeps<W: InsertEdge>(adj: Seq<Seq<(u32, W)>>, i: u32, j: u32, w: W, is_directed: bool)
    requires
        adj.len() <= u32::MAX,
        i < adj.len(),
        j < adj.len(),
        forall|k: int| 0 <= k < adj[i as int].len() ==> #[trigger] adj[i as int][k].0 < j,
        !is_directed ==> i < j && forall|k: int| 0 <= k < adj[j as int].len() ==> #[trigger] adj[j as int][k].0 < i,
        targets_in_range(adj),
        increasing_targets(adj),
        all_drawable(adj),
        W::drawable(w),
        !is_directed ==> symmetric(adj),
    ensures
        targets_in_range(inserted(adj, i, j, w, is_directed)),
        increasing_targets(inserted(adj, i, j, w, is_directed)),
        all_drawable(inserted(adj, i, j, w, is_directed)),
        !is_directed ==> symmetric(inserted(adj, i, j, w, is_directed)),
{
    let a = adj.update(i as int, adj[i as int].push((j, w)));
    let b = inserted(adj, i, j, w, is_directed);
    assert forall|u: int, k: int| 0 <= u < b.len() && 0 <= k < b[u].len() implies {
        &&& #[trigger] b[u][k].0 < b.len()
        &&& W::drawable(b[u][k].1)
        &&& (k < adj[u].len() ==> b[u][k] == adj[u][k])
        &&& (k >= adj[u].len() ==> (u == i && b[u][k] == (j, w)) || (!is_directed && u == j && b[u][k] == (i, w)))
    } by {
        if u == i && k == adj[u].len() {
        } else if !is_directed && u == j && k >= adj[u].len() {
        } else {
        }
    }
    assert forall|u: int, k1: int, k2: int|
        0 <= u < b.len() && 0 <= k1 < k2 < b[u].len() implies #[trigger] b[u][k1].0 < #[trigger] b[u][k2].0 by {
        assert(b[u].len() <= adj[u].len() + 1);
        assert(b[u][k1] == adj[u][k1]);
        if k2 < adj[u].len() {
            assert(b[u][k2] == adj[u][k2]);
        }
    }
    if !is_directed {
        assert forall|u: int, k: int| 0 <= u < b.len() && 0 <= k < b[u].len() implies #[trigger] mirrored(b, u, k) by {
            if k < adj[u].len() {
                assert(mirrored(adj, u, k));
                assert(b[u][k] == adj[u][k]);
                let x = adj[u][k].0 as int;
                assert(x < adj.len());
                let k2 = choose|k2: int| 0 <= k2 < adj[x].len() && #[trigger] adj[x][k2] == (u as u32, adj[u][k].1);
                assert(b[x][k2] == adj[x][k2]);
                assert(0 <= k2 < b[b[u][k].0 as int].len() && b[b[u][k].0 as int][k2] == (u as u32, b[u][k].1));
            } else if u == i {
                assert(b[u][k] == (j, w));
                assert(b[j as int][adj[j as int].len() as int] == (i, w));
                let k2 = adj[j as int].len() as int;
                assert(0 <= k2 < b[b[u][k].0 as int].len() && b[b[u][k].0 as int][k2] == (u as u32, b[u][k].1));
            } else {
                assert(u == j);
                assert(b[u][k] == (i, w));
                assert(b[i as int][adj[i as int].len() as int] == (j, w));
                let k2 = adj[i as int].len() as int;
                assert(0 <= k2 < b[b[u][k].0 as int].len() && b[b[u][k].0 as int][k2] == (u as u32, b[u][k].1));
            }
        }
    }
}

/// In an undirected graph built by the generator, every edge `(u, v, w)`
/// that `edges` lists comes with its mirror `(v, u, w)`.
pub proof fn lemma_undirected_edges_mirrored<W: InsertEdge>(
    adj: Seq<Seq<(u32, W)>>,
    num_nodes: u32,
    draws: Seq<Seq<bool>>,
)
    requires
        generated_from(adj, num_nodes, draws, false),
    ensures
        forall|i: int|
            0 <= i < edge_seq(adj).len() ==> edge_seq(adj).contains(
                (
                    (#[trigger] edge_seq(adj)[i]).1,
                    edge_seq(adj)[i].0,
                    edge_seq(adj)[i].2,
                ),
            ),
{
    lemma_edge_seq_entries(adj);
    let es = edge_seq(adj);
    assert forall|i: int| 0 <= i < es.len() implies es.contains((
        (#[trigger] es[i]).1,
        es[i].0,
        es[i].2,
    )) by {
        let e = es[i];
        assert(listed(adj, e));
        let k = choose|k: int| 0 <= k < adj[e.0 as int].len() && #[trigger] adj[e.0 as int][k] == (e.1, e.2);
        assert(mirrored(adj, e.0 as int, k));
        let k2 = choose|k2: int|
            0 <= k2 < adj[adj[e.0 as int][k].0 as int].len() && #[trigger] adj[adj[e.0 as int][k].0 as int][k2] == (
            e.0,
            adj[e.0 as int][k].1,
        );
        assert(adj[e.0 as int][k].0 < adj.len());
        assert(es.contains((e.1, adj[e.1 as int][k2].0, adj[e.1 as int][k2].1)));
    }
}

/// Every weight that `edges` lists for a weighted graph built by the
/// generator lies in `MIN_WEIGHT..=MAX_WEIGHT`.
pub proof fn lemma_generated_weights_in_range(
    adj: Seq<Seq<(u32, Weighted)>>,
    num_nodes: u32,
    draws: Seq<Seq<bool>>,
    is_directed: bool,
)
    requires
        generated_from(adj, num_nodes, draws, is_directed),
    ensures
        forall|i: int|
            0 <= i < edge_seq(adj).len() ==> MIN_WEIGHT <= (#[trigger] edge_seq(adj)[i]).2.0
                <= MAX_WEIGHT,
{
    lemma_edge_seq_entries(adj);
    let es = edge_seq(adj);
    assert forall|i: int| 0 <= i < es.len() implies MIN_WEIGHT <= (#[trigger] es[i]).2.0 <= MAX_WEIGHT by {
        let e = es[i];
        assert(listed(adj, e));
        let k = choose|k: int| 0 <= k < adj[e.0 as int].len() && #[trigger] adj[e.0 as int][k] == (e.1, e.2);
        assert(Weighted::drawable(adj[e.0 as int][k].1));
    }
}

} // verus!
