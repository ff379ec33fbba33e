//! The mathematical model of an undirected graph: a map from each node to
//! the set of its neighbours.

use vstd::prelude::*;
use crate::ratio::Ratio;

verus! {

/// A node label as the contracts see it.
pub type Node = Seq<char>;

/// The adjacency structure: every node of the graph is a key, and its value
/// is the set of its neighbours.
pub type Adjacency = Map<Node, Set<Node>>;

/// `v` is a neighbour of `u`.
pub open spec fn adjacent(m: Adjacency, u: Node, v: Node) -> bool {
    m.contains_key(u) && m[u].contains(v)
}

/// The neighbours of `u`; empty for a node that the graph does not hold.
pub open spec fn neighbors(m: Adjacency, u: Node) -> Set<Node> {
    if m.contains_key(u) {
        m[u]
    } else {
        Set::empty()
    }
}

/// Every neighbour relation holds in both directions.
pub open spec fn symmetric(m: Adjacency) -> bool {
    forall|u: Node, v: Node| #[trigger] adjacent(m, u, v) ==> adjacent(m, v, u)
}

/// The ordered pairs `(u, v)` with `v` a neighbour of `u`. An edge between
/// two distinct nodes gives two of them, a self-loop gives one.
pub open spec fn arc_set(m: Adjacency) -> Set<(Node, Node)> {
    Set::new(|p: (Node, Node)| adjacent(m, p.0, p.1))
}

/// The map after `v` has been put among the neighbours of `u`.
pub open spec fn with_arc(m: Adjacency, u: Node, v: Node) -> Adjacency {
    m.insert(u, neighbors(m, u).insert(v))
}

/// The map after the undirected edge between `u` and `v` has been added.
pub open spec fn with_edge(m: Adjacency, u: Node, v: Node) -> Adjacency {
    with_arc(with_arc(m, u, v), v, u)
}

/// The map after `u` has been made a node, with no neighbours if it is new.
pub open spec fn with_node(m: Adjacency, u: Node) -> Adjacency {
    if m.contains_key(u) {
        m
    } else {
        m.insert(u, Set::empty())
    }
}

/// How many members of `among` have `v` as a neighbour.
pub open spec fn links_to(m: Adjacency, among: Seq<Node>, v: Node) -> nat
    decreases among.len(),
{
    if among.len() == 0 {
        0
    } else {
        links_to(m, among.drop_last(), v) + if adjacent(m, among.last(), v) {
            1nat
        } else {
            0nat
        }
    }
}

/// How many pairs of positions `i < j` in `order` hold nodes of which the
/// second is a neighbour of the first.
pub open spec fn linked_pairs(m: Adjacency, order: Seq<Node>) -> nat
    decreases order.len(),
{
    if order.len() == 0 {
        0
    } else {
        linked_pairs(m, order.drop_last()) + links_to(m, order.drop_last(), order.last())
    }
}

/// The ordered pairs of distinct members of `s` of which the second is a
/// neighbour of the first. In a symmetric graph an edge between two members
/// of `s` gives two of them.
pub open spec fn links_within(m: Adjacency, s: Set<Node>) -> Set<(Node, Node)> {
    Set::new(
        |p: (Node, Node)| s.contains(p.0) && s.contains(p.1) && p.0 != p.1 && adjacent(m, p.0, p.1),
    )
}

/// The pairs of `v` with each member of `among` that has `v` as a
/// neighbour: with `v` second if `forward`, else first.
pub open spec fn fan(m: Adjacency, among: Seq<Node>, v: Node, forward: bool) -> Set<(Node, Node)> {
    Set::new(
        |p: (Node, Node)|
            if forward {
                among.contains(p.0) && p.1 == v && adjacent(m, p.0, v)
            } else {
                among.contains(p.1) && p.0 == v && adjacent(m, p.1, v)
            },
    )
}

/// A fan has as many pairs as `among` has members with `v` as a neighbour.
pub proof fn lemma_fan_len(m: Adjacency, among: Seq<Node>, v: Node, forward: bool)
    requires
        among.no_duplicates(),
    ensures
        fan(m, among, v, forward).finite(),
        fan(m, among, v, forward).len() == links_to(m, among, v),
    decreases among.len(),
{
    if among.len() == 0 {
        assert(fan(m, among, v, forward) =~= Set::<(Node, Node)>::empty());
    } else {
        let head = among.drop_last();
        let a = among.last();
        lemma_fan_len(m, head, v, forward);
        let p = if forward {
            (a, v)
        } else {
            (v, a)
        };
        assert(!head.contains(a)) by {
            if head.contains(a) {
                let i = choose|i: int| 0 <= i < head.len() && head[i] == a;
                assert(among[i] == a && among[among.len() - 1] == a);
            }
        }
        assert forall|x: Node| among.contains(x) == (head.contains(x) || x == a) by {
            if among.contains(x) {
                let i = choose|i: int| 0 <= i < among.len() && among[i] == x;
                if i < head.len() {
                    assert(head[i] == x);
                }
            }
            if head.contains(x) {
                let i = choose|i: int| 0 <= i < head.len() && head[i] == x;
                assert(among[i] == x);
            }
            if x == a {
                assert(among[among.len() - 1] == a);
            }
        }
        if adjacent(m, a, v) {
            assert(fan(m, among, v, forward) =~= fan(m, head, v, forward).insert(p));
            assert(!fan(m, head, v, forward).contains(p));
        } else {
            assert(fan(m, among, v, forward) =~= fan(m, head, v, forward));
        }
    }
}

/// In a symmetric graph, the ordered linked pairs among the nodes of a list
/// without repeats are twice the linked pairs of positions, whatever the
/// order of the list.
pub proof fn lemma_links_within_len(m: Adjacency, order: Seq<Node>)
    requires
        symmetric(m),
        order.no_duplicates(),
    ensures
        links_within(m, order.to_set()).finite(),
        links_within(m, order.to_set()).len() == 2 * linked_pairs(m, order),
    decreases order.len(),
{
    if order.len() == 0 {
        assert(links_within(m, order.to_set()) =~= Set::<(Node, Node)>::empty());
    } else {
        let head = order.drop_last();
        let v = order.last();
        lemma_links_within_len(m, head);
        lemma_fan_len(m, head, v, true);
        lemma_fan_len(m, head, v, false);
        assert(!head.contains(v)) by {
            if head.contains(v) {
                let i = choose|i: int| 0 <= i < head.len() && head[i] == v;
                assert(order[i] == v && order[order.len() - 1] == v);
            }
        }
        assert forall|x: Node| order.contains(x) == (head.contains(x) || x == v) by {
            if order.contains(x) {
                let i = choose|i: int| 0 <= i < order.len() && order[i] == x;
                if i < head.len() {
                    assert(head[i] == x);
                }
            }
            if head.contains(x) {
                let i = choose|i: int| 0 <= i < head.len() && head[i] == x;
                assert(order[i] == x);
            }
            if x == v {
                assert(order[order.len() - 1] == v);
            }
        }
        let inner = links_within(m, head.to_set());
        let to = fan(m, head, v, true);
        let from = fan(m, head, v, false);
        assert(links_within(m, order.to_set()) =~= inner + to + from) by {
            assert forall|p: (Node, Node)|
                links_within(m, order.to_set()).contains(p) == (inner + to + from).contains(p) by {
                assert(order.to_set().contains(p.0) == order.contains(p.0));
                assert(order.to_set().contains(p.1) == order.contains(p.1));
                assert(head.to_set().contains(p.0) == head.contains(p.0));
                assert(head.to_set().contains(p.1) == head.contains(p.1));
                if adjacent(m, p.0, p.1) {
                    assert(adjacent(m, p.1, p.0));
                }
                if adjacent(m, p.1, p.0) {
                    assert(adjacent(m, p.0, p.1));
                }
            }
        }
        assert(inner.disjoint(to)) by {
            assert forall|p: (Node, Node)| !(inner.contains(p) && to.contains(p)) by {
                assert(head.to_set().contains(p.1) == head.contains(p.1));
            }
        }
        assert((inner + to).disjoint(from)) by {
            assert forall|p: (Node, Node)| !((inner + to).contains(p) && from.contains(p)) by {
                assert(head.to_set().contains(p.0) == head.contains(p.0));
            }
        }
        vstd::set_lib::lemma_set_disjoint_lens(inner, to);
        vstd::set_lib::lemma_set_disjoint_lens(inner + to, from);
    }
}

/// `order` lists the members of `s`, each once.
pub open spec fn lists(order: Seq<Node>, s: Set<Node>) -> bool {
    order.no_duplicates() && order.to_set() == s
}

/// Every two distinct members of `s` are neighbours of each other.
pub open spec fn complete(m: Adjacency, s: Set<Node>) -> bool {
    forall|a: Node, b: Node| s.contains(a) && s.contains(b) && a != b ==> #[trigger] adjacent(m, a, b)
}

/// The number of pairs that can be formed from `k` things.
pub open spec fn pair_count(k: nat) -> nat {
    (k * (k - 1) / 2) as nat
}

/// The local clustering coefficient of `u`: the edges among its neighbours
/// over the pairs that can be formed from them, and zero where it has fewer
/// than two neighbours.
pub open spec fn clustering(m: Adjacency, u: Node) -> Ratio {
    let around = neighbors(m, u);
    if around.len() < 2 {
        Ratio::zero()
    } else {
        Ratio {
            numerator: (links_within(m, around).len() / 2) as u128,
            denominator: pair_count(around.len()) as u128,
        }
    }
}

/// Where `v` is a neighbour of every member of `among`, it links to all of
/// them.
pub proof fn lemma_links_to_all(m: Adjacency, among: Seq<Node>, v: Node)
    requires
        forall|i: int| 0 <= i < among.len() ==> adjacent(m, #[trigger] among[i], v),
    ensures
        links_to(m, among, v) == among.len(),
    decreases among.len(),
{
    if among.len() > 0 {
        lemma_links_to_all(m, among.drop_last(), v);
    }
}

/// Where every two nodes of a list without repeats are neighbours, every
/// pair of positions counts.
pub proof fn lemma_complete_pairs(m: Adjacency, order: Seq<Node>)
    requires
        order.no_duplicates(),
        complete(m, order.to_set()),
    ensures
        linked_pairs(m, order) == pair_count(order.len()),
    decreases order.len(),
{
    if order.len() > 0 {
        let head = order.drop_last();
        let v = order.last();
        assert forall|i: int| 0 <= i < head.len() implies head.to_set().contains(#[trigger] head[i])
            && order.to_set().contains(head[i]) by {
            assert(order[i] == head[i]);
        }
        assert(order.to_set().contains(v));
        assert(complete(m, head.to_set())) by {
            assert forall|a: Node, b: Node|
                head.to_set().contains(a) && head.to_set().contains(b) && a != b implies #[trigger] adjacent(
                m,
                a,
                b,
            ) by {
                let i = choose|i: int| 0 <= i < head.len() && head[i] == a;
                let j = choose|j: int| 0 <= j < head.len() && head[j] == b;
                assert(order[i] == a && order[j] == b);
            }
        }
        lemma_complete_pairs(m, head);
        assert forall|i: int| 0 <= i < head.len() implies adjacent(m, #[trigger] head[i], v) by {
            assert(order[i] == head[i]);
            assert(order[order.len() - 1] == v);
        }
        lemma_links_to_all(m, head, v);
        let k = order.len() as int;
        assert((k - 1) * (k - 2) / 2 + (k - 1) == k * (k - 1) / 2) by (nonlinear_arith);
    }
}

/// There is a walk of exactly `k` edges from `start` to `v`.
pub open spec fn reaches(m: Adjacency, start: Node, v: Node, k: nat) -> bool
    decreases k,
{
    if k == 0 {
        v == start
    } else {
        exists|u: Node| #[trigger] adjacent(m, u, v) && reaches(m, start, u, (k - 1) as nat)
    }
}

/// `d` gives `start` the distance 0, gives every neighbour of a node it
/// holds a distance at most one greater, and gives every other node it holds
/// a neighbour exactly one step nearer.
pub open spec fn hop_labelling(m: Adjacency, start: Node, d: Map<Node, usize>) -> bool {
    &&& d.contains_key(start)
    &&& d[start] == 0
    &&& forall|u: Node, v: Node|
        d.contains_key(u) && #[trigger] adjacent(m, u, v) ==> d.contains_key(v) && d[v] <= d[u] + 1
    &&& forall|v: Node|
        #[trigger] d.contains_key(v) && v != start ==> exists|u: Node| #[trigger]
            adjacent(m, u, v) && d.contains_key(u) && d[u] + 1 == d[v]
}

/// `d` holds exactly the nodes that a walk from `start` reaches, each with
/// the length of a shortest such walk.
pub open spec fn shortest_hops(m: Adjacency, start: Node, d: Map<Node, usize>) -> bool {
    &&& forall|v: Node| #[trigger] d.contains_key(v) ==> reaches(m, start, v, d[v] as nat)
    &&& forall|v: Node, k: nat| #[trigger]
        reaches(m, start, v, k) ==> d.contains_key(v) && d[v] <= k
}

/// In a labelling, every node has a walk from the start of the length that
/// the labelling gives it.
pub proof fn lemma_labelling_reached(m: Adjacency, start: Node, d: Map<Node, usize>, v: Node)
    requires
        hop_labelling(m, start, d),
        d.contains_key(v),
    ensures
        reaches(m, start, v, d[v] as nat),
    decreases d[v],
{
    if v == start {
    } else {
        let u = choose|u: Node| #[trigger] adjacent(m, u, v) && d.contains_key(u) && d[u] + 1 == d[v];
        lemma_labelling_reached(m, start, d, u);
        assert(adjacent(m, u, v) && reaches(m, start, u, (d[v] as nat - 1) as nat));
    }
}

/// In a labelling, no walk from the start is shorter than the distance of
/// the node where it ends.
pub proof fn lemma_labelling_least(m: Adjacency, start: Node, d: Map<Node, usize>, v: Node, k: nat)
    requires
        hop_labelling(m, start, d),
        reaches(m, start, v, k),
    ensures
        d.contains_key(v),
        d[v] <= k,
    decreases k,
{
    if k > 0 {
        let u = choose|u: Node| #[trigger] adjacent(m, u, v) && reaches(m, start, u, (k - 1) as nat);
        lemma_labelling_least(m, start, d, u, (k - 1) as nat);
    }
}

/// A labelling gives shortest distances.
pub proof fn lemma_labelling_shortest(m: Adjacency, start: Node, d: Map<Node, usize>)
    requires
        hop_labelling(m, start, d),
    ensures
        shortest_hops(m, start, d),
{
    assert forall|v: Node| #[trigger] d.contains_key(v) implies reaches(
        m,
        start,
        v,
        d[v] as nat,
    ) by {
        lemma_labelling_reached(m, start, d, v);
    }
    assert forall|v: Node, k: nat| #[trigger] reaches(m, start, v, k) implies d.contains_key(v)
        && d[v] <= k by {
        lemma_labelling_least(m, start, d, v, k);
    }
}

} // verus!
