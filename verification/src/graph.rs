//! Undirected graphs as adjacency sets, and the graph that a list of
//! edges describes.

use std::collections::{HashMap, HashSet};
use vstd::prelude::*;
use vstd::std_specs::hash::*;

verus! {

/// A graph in adjacency form: each node is mapped to the set of its
/// neighbours. An undirected edge between `a` and `b` is recorded twice,
/// as `b` among the neighbours of `a` and as `a` among those of `b`.
pub type Graph = HashMap<u64, HashSet<u64>>;

/// The mathematical value of a graph: a map from nodes to sets of nodes.
pub open spec fn adjacency_of(g: Graph) -> Map<u64, Set<u64>> {
    Map::new(|a: u64| g@.contains_key(a), |a: u64| g@[a]@)
}

/// Whether `a` is one of the two ends of `edge`.
pub open spec fn touches(edge: (u64, u64), a: u64) -> bool {
    edge.0 == a || edge.1 == a
}

/// Whether `edge` runs between `a` and `b`, in either direction.
pub open spec fn joins(edge: (u64, u64), a: u64, b: u64) -> bool {
    (edge.0 == a && edge.1 == b) || (edge.0 == b && edge.1 == a)
}

/// Whether `a` is an end of one of the edges.
pub open spec fn is_node(edges: Seq<(u64, u64)>, a: u64) -> bool {
    exists|i: int| 0 <= i < edges.len() && touches(#[trigger] edges[i], a)
}

/// Whether one of the edges runs between `a` and `b`.
pub open spec fn adjacent(edges: Seq<(u64, u64)>, a: u64, b: u64) -> bool {
    exists|i: int| 0 <= i < edges.len() && joins(#[trigger] edges[i], a, b)
}

/// The graph that a list of edges describes. Its nodes are the ends of the
/// edges; the neighbours of a node are the nodes that an edge joins it to.
/// How often and in which order the edges are listed makes no difference.
pub open spec fn adjacency(edges: Seq<(u64, u64)>) -> Map<u64, Set<u64>> {
    Map::new(|a: u64| is_node(edges, a), |a: u64| Set::new(|b: u64| adjacent(edges, a, b)))
}

/// Whether every recorded neighbourhood is mutual.
pub open spec fn symmetric(m: Map<u64, Set<u64>>) -> bool {
    forall|a: u64, b: u64|
        #![trigger m[a].contains(b)]
        m.contains_key(a) && m[a].contains(b) ==> m.contains_key(b) && m[b].contains(a)
}

/// The neighbours that `m` records for `a`; none if `a` is not a node of it.
pub open spec fn neighbours(m: Map<u64, Set<u64>>, a: u64) -> Set<u64> {
    if m.contains_key(a) {
        m[a]
    } else {
        Set::empty()
    }
}

/// `m` with `b` added to the neighbours of `a`.
pub open spec fn link(m: Map<u64, Set<u64>>, a: u64, b: u64) -> Map<u64, Set<u64>> {
    m.insert(a, neighbours(m, a).insert(b))
}

/// `m` with one more edge, recorded in both directions.
pub open spec fn with_edge(m: Map<u64, Set<u64>>, edge: (u64, u64)) -> Map<u64, Set<u64>> {
    link(link(m, edge.0, edge.1), edge.1, edge.0)
}

/// Adds `b` to the neighbours of `a`.
fn add_neighbour(g: &mut Graph, a: u64, b: u64)
    ensures
        adjacency_of(*final(g)) == link(adjacency_of(*old(g)), a, b),
{
    broadcast use group_hash_axioms;

    let ns = g.entry(a).or_insert(HashSet::new());
    ns.insert(b);
}

/// Records an undirected edge between `n1` and `n2`.
pub fn add_edge(g: &mut Graph, n1: u64, n2: u64)
    ensures
        adjacency_of(*final(g)) == with_edge(adjacency_of(*old(g)), (n1, n2)),
{
    add_neighbour(g, n1, n2);
    add_neighbour(g, n2, n1);
}

/// The graph of an empty list of edges has no nodes.
pub proof fn lemma_adjacency_empty()
    ensures
        adjacency(Seq::empty()) == Map::<u64, Set<u64>>::empty(),
{
}

/// Listing one more edge records it in both directions and changes
/// nothing else.
pub proof fn lemma_adjacency_push(edges: Seq<(u64, u64)>, edge: (u64, u64))
    ensures
        adjacency(edges.push(edge)) == with_edge(adjacency(edges), edge),
{
    let more = edges.push(edge);
    let last: int = edges.len() as int;
    let expected = with_edge(adjacency(edges), edge);
    assert(more[last] == edge);
    assert forall|a: u64| is_node(more, a) <==> (is_node(edges, a) || touches(edge, a)) by {
        if is_node(more, a) {
            let i = choose|i: int| 0 <= i < more.len() && touches(#[trigger] more[i], a);
            if i < last {
                assert(edges[i] == more[i]);
            }
        }
        if is_node(edges, a) {
            let i = choose|i: int| 0 <= i < edges.len() && touches(#[trigger] edges[i], a);
            assert(more[i] == edges[i]);
        }
    }
    assert forall|a: u64, b: u64| adjacent(more, a, b) <==> (adjacent(edges, a, b) || joins(
        edge,
        a,
        b,
    )) by {
        if adjacent(more, a, b) {
            let i = choose|i: int| 0 <= i < more.len() && joins(#[trigger] more[i], a, b);
            if i < last {
                assert(edges[i] == more[i]);
            }
        }
        if adjacent(edges, a, b) {
            let i = choose|i: int| 0 <= i < edges.len() && joins(#[trigger] edges[i], a, b);
            assert(more[i] == edges[i]);
        }
    }
    assert forall|a: u64| #[trigger] adjacency(more).contains_key(a) implies adjacency(more)[a]
        =~= expected[a] by {
        assert forall|b: u64| adjacency(more)[a].contains(b) <==> expected[a].contains(b) by {
            if adjacent(edges, a, b) {
                let i = choose|i: int| 0 <= i < edges.len() && joins(#[trigger] edges[i], a, b);
                assert(touches(edges[i], a));
            }
        }
    }
}

/// In the graph of a list of edges every neighbourhood is mutual.
pub proof fn lemma_adjacency_symmetric(edges: Seq<(u64, u64)>)
    ensures
        symmetric(adjacency(edges)),
{
    let m = adjacency(edges);
    assert forall|a: u64, b: u64| m.contains_key(a) && #[trigger] m[a].contains(b) implies
        m.contains_key(b) && m[b].contains(a) by {
        let i = choose|i: int| 0 <= i < edges.len() && joins(#[trigger] edges[i], a, b);
        assert(touches(edges[i], b));
        assert(joins(edges[i], b, a));
    }
}

/// The graph of a list of edges has finitely many nodes, at most two for
/// each edge.
pub proof fn lemma_adjacency_nodes(edges: Seq<(u64, u64)>)
    ensures
        adjacency(edges).dom().finite(),
        adjacency(edges).dom().len() <= 2 * edges.len(),
    decreases edges.len(),
{
    if edges.len() == 0 {
        assert(edges =~= Seq::empty());
        lemma_adjacency_empty();
    } else {
        let init = edges.drop_last();
        let edge = edges.last();
        assert(init.push(edge) =~= edges);
        lemma_adjacency_nodes(init);
        lemma_adjacency_push(init, edge);
    }
}

/// Two lists that hold the same edges describe the same graph, however
/// often and in whatever order each of them lists an edge.
pub proof fn lemma_same_edges(xs: Seq<(u64, u64)>, ys: Seq<(u64, u64)>)
    requires
        forall|e: (u64, u64)| xs.contains(e) <==> ys.contains(e),
    ensures
        adjacency(xs) == adjacency(ys),
{
    assert forall|a: u64| is_node(xs, a) <==> is_node(ys, a) by {
        if is_node(xs, a) {
            let i = choose|i: int| 0 <= i < xs.len() && touches(#[trigger] xs[i], a);
            assert(xs.contains(xs[i]));
            let j = choose|j: int| 0 <= j < ys.len() && ys[j] == xs[i];
            assert(touches(ys[j], a));
        }
        if is_node(ys, a) {
            let i = choose|i: int| 0 <= i < ys.len() && touches(#[trigger] ys[i], a);
            assert(ys.contains(ys[i]));
            let j = choose|j: int| 0 <= j < xs.len() && xs[j] == ys[i];
            assert(touches(xs[j], a));
        }
    }
    assert forall|a: u64, b: u64| adjacent(xs, a, b) <==> adjacent(ys, a, b) by {
        if adjacent(xs, a, b) {
            let i = choose|i: int| 0 <= i < xs.len() && joins(#[trigger] xs[i], a, b);
            assert(xs.contains(xs[i]));
            let j = choose|j: int| 0 <= j < ys.len() && ys[j] == xs[i];
            assert(joins(ys[j], a, b));
        }
        if adjacent(ys, a, b) {
            let i = choose|i: int| 0 <= i < ys.len() && joins(#[trigger] ys[i], a, b);
            assert(ys.contains(ys[i]));
            let j = choose|j: int| 0 <= j < xs.len() && xs[j] == ys[i];
            assert(joins(xs[j], a, b));
        }
    }
    assert forall|a: u64| #[trigger] adjacency(xs).contains_key(a) implies adjacency(xs)[a]
        =~= adjacency(ys)[a] by {
    }
}

} // verus!
