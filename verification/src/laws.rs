//! What holds of every graph that is built by adding edges.

use vstd::prelude::*;
use crate::model::{Node, Adjacency, adjacent, symmetric, arc_set, with_arc, with_edge};

verus! {

/// The graph that results from adding `edges`, in their order, to the empty
/// graph.
pub open spec fn built(edges: Seq<(Node, Node)>) -> Adjacency
    decreases edges.len(),
{
    if edges.len() == 0 {
        Map::empty()
    } else {
        with_edge(built(edges.drop_last()), edges.last().0, edges.last().1)
    }
}

/// The unordered pair of `u` and `v`.
pub open spec fn pair_of(u: Node, v: Node) -> Set<Node> {
    Set::empty().insert(u).insert(v)
}

/// The distinct unordered pairs among `edges`.
pub open spec fn inserted_pairs(edges: Seq<(Node, Node)>) -> Set<Set<Node>>
    decreases edges.len(),
{
    if edges.len() == 0 {
        Set::empty()
    } else {
        inserted_pairs(edges.drop_last()).insert(pair_of(edges.last().0, edges.last().1))
    }
}

/// After an edge is added, two nodes are neighbours exactly if they were
/// before or are the two ends of that edge.
pub proof fn lemma_with_edge_adjacent(m: Adjacency, u: Node, v: Node, a: Node, b: Node)
    ensures
        adjacent(with_edge(m, u, v), a, b) <==> adjacent(m, a, b) || (a == u && b == v) || (a == v
            && b == u),
{
}

/// Adding an edge keeps the neighbour relation mutual.
pub proof fn lemma_with_edge_symmetric(m: Adjacency, u: Node, v: Node)
    requires
        symmetric(m),
    ensures
        symmetric(with_edge(m, u, v)),
{
    let after = with_edge(m, u, v);
    assert forall|a: Node, b: Node| #[trigger] adjacent(after, a, b) implies adjacent(
        after,
        b,
        a,
    ) by {
        lemma_with_edge_adjacent(m, u, v, a, b);
        lemma_with_edge_adjacent(m, u, v, b, a);
        if adjacent(m, a, b) {
            assert(adjacent(m, b, a));
        }
    }
}

/// Whatever edges are added, in whatever order, `v` is a neighbour of `u`
/// exactly if `u` is a neighbour of `v`.
pub proof fn lemma_built_symmetric(edges: Seq<(Node, Node)>)
    ensures
        symmetric(built(edges)),
    decreases edges.len(),
{
    if edges.len() > 0 {
        lemma_built_symmetric(edges.drop_last());
        lemma_with_edge_symmetric(built(edges.drop_last()), edges.last().0, edges.last().1);
    }
}

/// Adding an edge a second time, in either direction, changes nothing: the
/// nodes, every neighbour set and with them every count stay as they are.
pub proof fn lemma_with_edge_idempotent(m: Adjacency, u: Node, v: Node)
    ensures
        with_edge(with_edge(m, u, v), u, v) == with_edge(m, u, v),
        with_edge(with_edge(m, u, v), v, u) == with_edge(m, u, v),
{
    let once = with_edge(m, u, v);
    assert(with_arc(once, u, v) =~~= once);
    assert(with_arc(once, v, u) =~~= once);
    assert(with_edge(once, u, v) =~~= once);
    assert(with_edge(once, v, u) =~~= once);
}

/// Two unordered pairs are equal exactly if they have the same ends.
pub proof fn lemma_pair_of_equal(a: Node, b: Node, u: Node, v: Node)
    ensures
        pair_of(a, b) == pair_of(u, v) <==> (a == u && b == v) || (a == v && b == u),
{
    if (a == u && b == v) || (a == v && b == u) {
        assert(pair_of(a, b) =~= pair_of(u, v));
    }
    if pair_of(a, b) == pair_of(u, v) {
        assert(pair_of(a, b).contains(a));
        assert(pair_of(a, b).contains(b));
        assert(pair_of(u, v).contains(u));
        assert(pair_of(u, v).contains(v));
    }
}

/// In a graph built from edges between distinct nodes, two nodes are
/// neighbours exactly if their pair is among the edges, and the neighbour
/// relations are twice as many as the distinct pairs.
pub proof fn lemma_built_arcs(edges: Seq<(Node, Node)>)
    requires
        forall|i: int| 0 <= i < edges.len() ==> (#[trigger] edges[i]).0 != edges[i].1,
    ensures
        forall|a: Node, b: Node| #[trigger]
            adjacent(built(edges), a, b) <==> inserted_pairs(edges).contains(pair_of(a, b)),
        inserted_pairs(edges).finite(),
        arc_set(built(edges)).finite(),
        arc_set(built(edges)).len() == 2 * inserted_pairs(edges).len(),
    decreases edges.len(),
{
    if edges.len() == 0 {
        assert(arc_set(built(edges)) =~= Set::<(Node, Node)>::empty());
    } else {
        let rest = edges.drop_last();
        let u = edges.last().0;
        let v = edges.last().1;
        assert(forall|i: int| 0 <= i < rest.len() ==> #[trigger] rest[i] == edges[i]);
        lemma_built_arcs(rest);
        let m = built(rest);
        let after = built(edges);
        let pairs = inserted_pairs(rest);
        assert forall|a: Node, b: Node| #[trigger]
            adjacent(after, a, b) <==> inserted_pairs(edges).contains(pair_of(a, b)) by {
            lemma_with_edge_adjacent(m, u, v, a, b);
            lemma_pair_of_equal(a, b, u, v);
            assert(adjacent(m, a, b) <==> pairs.contains(pair_of(a, b)));
        }
        assert(arc_set(after) =~= arc_set(m).insert((u, v)).insert((v, u))) by {
            assert forall|p: (Node, Node)|
                arc_set(after).contains(p) == arc_set(m).insert((u, v)).insert((v, u)).contains(
                    p,
                ) by {
                lemma_with_edge_adjacent(m, u, v, p.0, p.1);
            }
        }
        assert(adjacent(m, u, v) <==> pairs.contains(pair_of(u, v)));
        assert(adjacent(m, v, u) <==> pairs.contains(pair_of(v, u)));
        lemma_pair_of_equal(v, u, u, v);
        assert(arc_set(m).contains((u, v)) == adjacent(m, u, v));
        assert(arc_set(m).contains((v, u)) == adjacent(m, v, u));
        assert((u, v) != (v, u));
    }
}

/// However often and in whatever order the edges were added, half the
/// number of neighbour relations is the number of distinct unordered pairs
/// among them, provided that no edge joins a node to itself.
pub proof fn lemma_edge_count(edges: Seq<(Node, Node)>)
    requires
        forall|i: int| 0 <= i < edges.len() ==> (#[trigger] edges[i]).0 != edges[i].1,
    ensures
        arc_set(built(edges)).len() / 2 == inserted_pairs(edges).len(),
{
    lemma_built_arcs(edges);
}

} // verus!
