//! The graph itself: construction and structural counts.

use vstd::prelude::*;
use vstd::hash_map::StringHashMap;
use crate::model::{
    adjacent, arc_set, clustering, complete, hop_labelling, lemma_complete_pairs, lemma_labelling_shortest,
    lemma_links_within_len, linked_pairs, links_to, lists, neighbors, pair_count,
    shortest_hops, symmetric, with_edge, with_node, Adjacency, Node,
};
use crate::ratio::Ratio;
use crate::traversal::{hop_distances, row_settled, steps_to};

verus! {

/// An undirected graph over string labels.
///
/// Nodes are numbered in the order in which they first appear; `index` maps
/// a label to its number and each row of `adj` lists the numbers of a node's
/// neighbours, each once.
pub struct Graph {
    labels: Vec<String>,
    index: StringHashMap<usize>,
    adj: Vec<Vec<usize>>,
}

impl View for Graph {
    type V = Adjacency;

    closed spec fn view(&self) -> Adjacency {
        Map::new(
            |u: Node| self.index@.contains_key(u),
            |u: Node| Set::new(|v: Node| self.joined(u, v)),
        )
    }
}

impl Graph {
    /// The number of nodes.
    spec fn size(&self) -> int {
        self.labels@.len() as int
    }

    /// The label of node number `i`.
    spec fn label(&self, i: int) -> Node {
        self.labels@[i]@
    }

    /// Row `i` of the adjacency table lists `j`.
    spec fn linked(&self, i: int, j: int) -> bool {
        0 <= i < self.adj@.len() && 0 <= j <= usize::MAX && self.adj@[i]@.contains(j as usize)
    }

    /// Both labels are nodes and the row of `u` lists the number of `v`.
    spec fn joined(&self, u: Node, v: Node) -> bool {
        self.index@.contains_key(u) && self.index@.contains_key(v) && self.linked(
            self.index@[u] as int,
            self.index@[v] as int,
        )
    }

    /// The labels and their numbers agree.
    spec fn wf_index(&self) -> bool {
        &&& self.adj@.len() == self.labels@.len()
        &&& self.index@.dom().finite()
        &&& self.index@.dom().len() == self.labels@.len()
        &&& forall|u: Node| #[trigger]
            self.index@.contains_key(u) ==> self.index@[u] < self.labels@.len() && self.label(
                self.index@[u] as int,
            ) == u
        &&& forall|i: int|
            0 <= i < self.labels@.len() ==> self.index@.contains_key(#[trigger] self.label(i))
                && self.index@[self.label(i)] == i
    }

    /// The rows hold valid numbers, each once, and mirror each other.
    spec fn wf_rows(&self) -> bool {
        &&& forall|i: int, p: int|
            0 <= i < self.adj@.len() && 0 <= p < self.adj@[i]@.len() ==> #[trigger] self.adj@[i]@[p]
                < self.adj@.len()
        &&& forall|i: int| 0 <= i < self.adj@.len() ==> #[trigger] self.adj@[i]@.no_duplicates()
        &&& forall|i: int, j: int| #[trigger] self.linked(i, j) ==> self.linked(j, i)
    }

    /// The lengths of the rows agree with the sizes of the sets in the model.
    spec fn wf_counts(&self) -> bool {
        &&& forall|i: int|
            0 <= i < self.labels@.len() ==> (#[trigger] self@[self.label(i)]).finite()
                && self@[self.label(i)].len() == self.adj@[i]@.len()
        &&& arc_set(self@).finite()
        &&& arc_set(self@).len() == row_total(self.adj@, self.adj@.len() as int)
    }

    /// The representation invariant: it holds of every graph that `new` and
    /// `add_edge` produce.
    pub closed spec fn wf(&self) -> bool {
        &&& self.wf_index()
        &&& self.wf_rows()
        &&& self.wf_counts()
    }

    /// Creates a graph with no nodes.
    pub fn new() -> (g: Graph)
        ensures
            g.wf(),
            g@ == Map::<Node, Set<Node>>::empty(),
    {
        let g = Graph { labels: Vec::new(), index: StringHashMap::new(), adj: Vec::new() };
        proof {
            assert(g@ =~= Map::<Node, Set<Node>>::empty());
            assert(arc_set(g@) =~= Set::<(Node, Node)>::empty());
        }
        g
    }

    /// Returns the number of `label`, making it a node first if it is new.
    fn intern(&mut self, label: &String) -> (i: usize)
        requires
            old(self).wf(),
        ensures
            final(self).wf(),
            final(self)@ == with_node(old(self)@, label@),
            i < final(self).size(),
            final(self).label(i as int) == label@,
            final(self).index@.contains_key(label@),
            final(self).index@[label@] == i,
            old(self).size() <= final(self).size(),
            forall|k: int|
                0 <= k < old(self).size() ==> #[trigger] final(self).label(k) == old(self).label(k),
            forall|u: Node|
                old(self).index@.contains_key(u) ==> #[trigger] final(self).index@.contains_key(u)
                    && final(self).index@[u] == old(self).index@[u],
    {
        let found = self.index.get(label.as_str());
        match found {
            Some(i) => {
                let i: usize = *i;
                proof {
                    assert(self@ =~= with_node(self@, label@));
                }
                i
            },
            None => {
                let i: usize = self.labels.len();
                let ghost before = *self;
                self.labels.push(label.clone());
                self.index.insert(label.clone(), i);
                self.adj.push(Vec::new());
                proof {
                    let l = label@;
                    assert(self.index@.dom() =~= before.index@.dom().insert(l));
                    assert forall|a: int, b: int| #[trigger] self.linked(a, b) implies self.linked(
                        b,
                        a,
                    ) by {
                        if a < before.adj@.len() {
                            assert(before.linked(a, b));
                            assert(before.linked(b, a));
                        }
                    }
                    assert forall|u: Node, v: Node| self.joined(u, v) == before.joined(u, v) by {
                        if self.joined(u, v) {
                            let a = self.index@[u] as int;
                            let b = self.index@[v] as int;
                            if u == l {
                                assert(self.adj@[a]@ =~= Seq::<usize>::empty());
                            } else if v == l {
                                assert(self.linked(b, a));
                            } else {
                                assert(before.linked(a, b));
                            }
                        }
                        if before.joined(u, v) {
                            assert(before.linked(before.index@[u] as int, before.index@[v] as int));
                            assert(self.linked(self.index@[u] as int, self.index@[v] as int));
                        }
                    }
                    assert forall|u: Node| #[trigger] self@.contains_key(u) implies self@[u]
                        =~= with_node(before@, l)[u] by {
                        assert forall|v: Node| self@[u].contains(v) == with_node(
                            before@,
                            l,
                        )[u].contains(v) by {
                            assert(self.joined(u, v) == before.joined(u, v));
                        }
                    }
                    assert(self@ =~= with_node(before@, l));
                    lemma_row_total_same(before.adj@, self.adj@, before.adj@.len() as int);
                    assert(arc_set(self@) =~= arc_set(before@)) by {
                        assert forall|p: (Node, Node)|
                            arc_set(self@).contains(p) == arc_set(before@).contains(p) by {
                            assert(self.joined(p.0, p.1) == before.joined(p.0, p.1));
                        }
                    }
                    assert forall|k: int| 0 <= k < self.labels@.len() implies (
                    #[trigger] self@[self.label(k)]).finite() && self@[self.label(k)].len()
                        == self.adj@[k]@.len() by {
                        if k < before.labels@.len() {
                            assert(before.label(k) == self.label(k));
                            assert(before@[before.label(k)].finite());
                        } else {
                            assert(self@[l] =~= Set::<Node>::empty());
                        }
                    }
                    assert forall|k: int| 0 <= k < self.labels@.len() implies self.index@.contains_key(
                        #[trigger] self.label(k),
                    ) && self.index@[self.label(k)] == k by {
                        if k < before.labels@.len() {
                            assert(before.label(k) == self.label(k));
                        }
                    }
                }
                i
            },
        }
    }

    /// Lists `j` in row `i` and `i` in row `j`, where neither was listed.
    fn link(&mut self, i: usize, j: usize)
        requires
            old(self).wf(),
            i < old(self).size(),
            j < old(self).size(),
            !old(self).linked(i as int, j as int),
        ensures
            final(self).wf(),
            final(self)@ == with_edge(old(self)@, old(self).label(i as int), old(self).label(j as int)),
    {
        let ghost before = *self;
        let ghost s = self.label(i as int);
        let ghost t = self.label(j as int);
        self.adj[i].push(j);
        let ghost mid = self.adj@;
        if i != j {
            self.adj[j].push(i);
        }
        proof {
            let n = self.adj@.len() as int;
            lemma_row_total_grows(before.adj@, mid, n, i as int);
            if i != j {
                lemma_row_total_grows(mid, self.adj@, n, j as int);
            }
            assert(before.linked(j as int, i as int) ==> before.linked(i as int, j as int));
            assert(before.index@[s] == i && before.index@[t] == j);
            assert(forall|k: int|
                0 <= k < self.size() ==> #[trigger] self.label(k) == before.label(k));
            assert forall|a: int| 0 <= a < self.adj@.len() implies #[trigger] self.adj@[a]@
                == if a == i && a == j {
                before.adj@[a]@.push(j)
            } else if a == i {
                before.adj@[a]@.push(j)
            } else if a == j {
                before.adj@[a]@.push(i)
            } else {
                before.adj@[a]@
            } by {}
            assert forall|a: int, b: int|
                self.linked(a, b) == (before.linked(a, b) || (a == i && b == j) || (a == j && b
                    == i)) by {
                if 0 <= a < self.adj@.len() && 0 <= b <= usize::MAX {
                    vstd::seq_lib::lemma_seq_contains_after_push(before.adj@[a]@, j, b as usize);
                    vstd::seq_lib::lemma_seq_contains_after_push(before.adj@[a]@, i, b as usize);
                }
            }
            assert forall|u: Node, v: Node|
                self.joined(u, v) == (before.joined(u, v) || (u == s && v == t) || (u == t && v
                    == s)) by {
                if before.index@.contains_key(u) && before.index@.contains_key(v) {
                    let a = before.index@[u] as int;
                    let b = before.index@[v] as int;
                    assert(self.linked(a, b) == (before.linked(a, b) || (a == i && b == j) || (a
                        == j && b == i)));
                }
            }
            let goal = with_edge(before@, s, t);
            assert forall|u: Node| #[trigger] self@.contains_key(u) implies self@[u] =~= goal[u] by {
                assert forall|v: Node| self@[u].contains(v) == goal[u].contains(v) by {
                    assert(self.joined(u, v) == (before.joined(u, v) || (u == s && v == t) || (u
                        == t && v == s)));
                }
            }
            assert(self@ =~= goal);
            assert(arc_set(self@) =~= arc_set(before@).insert((s, t)).insert((t, s))) by {
                assert forall|p: (Node, Node)|
                    arc_set(self@).contains(p) == arc_set(before@).insert((s, t)).insert(
                        (t, s),
                    ).contains(p) by {
                    assert(self.joined(p.0, p.1) == (before.joined(p.0, p.1) || (p.0 == s && p.1
                        == t) || (p.0 == t && p.1 == s)));
                }
            }
            assert(!arc_set(before@).contains((s, t)));
            assert(!arc_set(before@).contains((t, s)));
            assert forall|k: int| 0 <= k < self.labels@.len() implies (
            #[trigger] self@[self.label(k)]).finite() && self@[self.label(k)].len()
                == self.adj@[k]@.len() by {
                let u = before.label(k);
                assert(before@[u].finite());
                if k == i && k == j {
                    assert(self@[u] =~= before@[u].insert(t));
                } else if k == i {
                    assert(self@[u] =~= before@[u].insert(t));
                } else if k == j {
                    assert(self@[u] =~= before@[u].insert(s));
                } else {
                    assert(self@[u] =~= before@[u]);
                }
            }
            assert forall|a: int| 0 <= a < self.adj@.len() implies #[trigger] self.adj@[a]@.no_duplicates() by {
                assert(before.adj@[a]@.no_duplicates());
                assert(!before.adj@[i as int]@.contains(j));
                assert(!before.adj@[j as int]@.contains(i));
            }
            assert forall|a: int, p: int|
                0 <= a < self.adj@.len() && 0 <= p < self.adj@[a]@.len() implies #[trigger] self.adj@[a]@[p]
                < self.adj@.len() by {
                if p < before.adj@[a]@.len() {
                    assert(before.adj@[a]@[p] < before.adj@.len());
                }
            }
            assert forall|a: int, b: int| #[trigger] self.linked(a, b) implies self.linked(b, a) by {
                assert(self.linked(a, b) == (before.linked(a, b) || (a == i && b == j) || (a == j
                    && b == i)));
                assert(self.linked(b, a) == (before.linked(b, a) || (b == i && a == j) || (b == j
                    && a == i)));
                if before.linked(a, b) {
                    assert(before.linked(b, a));
                }
            }
        }
    }

    /// Adds the undirected edge between `source` and `target`, making each a
    /// node if it is new. An edge that is already there changes nothing.
    pub fn add_edge(&mut self, source: String, target: String)
        requires
            old(self).wf(),
        ensures
            final(self).wf(),
            final(self)@ == with_edge(old(self)@, source@, target@),
    {
        let i = self.intern(&source);
        let j = self.intern(&target);
        proof {
            old(self).lemma_symmetric();
            self.lemma_symmetric();
            assert(self.index@.contains_key(source@) && self.index@[source@] == i);
            assert(self.index@.contains_key(target@) && self.index@[target@] == j);
        }
        if !row_has(&self.adj[i], j) {
            proof {
                assert(self.label(i as int) == source@);
                assert(self.label(j as int) == target@);
            }
            self.link(i, j);
            proof {
                assert(self@ =~~= with_edge(old(self)@, source@, target@));
            }
        } else {
            proof {
                assert(self.linked(i as int, j as int));
                assert(self.joined(source@, target@));
                assert(adjacent(self@, source@, target@));
                assert(adjacent(self@, target@, source@));
                assert(self@ =~~= with_edge(old(self)@, source@, target@));
            }
        }
    }

    /// The distance in edges from `start` to every node that can be reached
    /// from it. A `start` that is no node of the graph reaches itself alone.
    pub fn bfs(&self, start: &String) -> (found: StringHashMap<usize>)
        requires
            self.wf(),
        ensures
            hop_labelling(self@, start@, found@),
            shortest_hops(self@, start@, found@),
    {
        let mut out: StringHashMap<usize> = StringHashMap::new();
        let at = self.index.get(start.as_str());
        match at {
            None => {
                out.insert(start.clone(), 0);
                proof {
                    assert(!self@.contains_key(start@));
                    assert(hop_labelling(self@, start@, out@));
                    lemma_labelling_shortest(self@, start@, out@);
                }
                out
            },
            Some(s) => {
                let s: usize = *s;
                let (order, dist) = hop_distances(&self.adj, s);
                let mut q: usize = 0;
                while q < order.len()
                    invariant
                        self.wf(),
                        q <= order@.len(),
                        dist@.len() == self.adj@.len(),
                        forall|p: int| 0 <= p < order@.len() ==> #[trigger] order@[p] < self.adj@.len(),
                        forall|v: int|
                            0 <= v < self.adj@.len() ==> ((#[trigger] dist@[v]).is_some()
                                <==> order@.contains(v as usize)),
                        forall|u: Node| #[trigger]
                            out@.contains_key(u) ==> self.index@.contains_key(u) && dist@[self.index@[u] as int]
                                == Some(out@[u]),
                        forall|p: int|
                            0 <= p < q ==> out@.contains_key(self.label(#[trigger] order@[p] as int)),
                    decreases order@.len() - q,
                {
                    let v: usize = order[q];
                    proof {
                        assert(order@.contains(v));
                        assert(dist@[v as int].is_some());
                        assert(self.index@.contains_key(self.label(v as int)));
                    }
                    let d: usize = dist[v].unwrap();
                    out.insert(self.labels[v].clone(), d);
                    q = q + 1;
                }
                proof {
                    let m = self@;
                    let d = out@;
                    assert forall|u: Node|
                        self.index@.contains_key(u) && dist@[self.index@[u] as int].is_some() implies #[trigger] d.contains_key(
                        u,
                    ) by {
                        let i = self.index@[u];
                        assert(order@.contains(i));
                        let p = choose|p: int| 0 <= p < order@.len() && order@[p] == i;
                        assert(self.label(order@[p] as int) == u);
                    }
                    assert(self.label(s as int) == start@);
                    assert forall|u: Node, v: Node|
                        d.contains_key(u) && #[trigger] adjacent(m, u, v) implies d.contains_key(v)
                        && d[v] <= d[u] + 1 by {
                        let i = self.index@[u] as int;
                        let j = self.index@[v] as int;
                        assert(self.joined(u, v));
                        assert(self.linked(i, j));
                        let e = choose|e: int|
                            0 <= e < self.adj@[i]@.len() && self.adj@[i]@[e] == j as usize;
                        assert(dist@[i].is_some());
                        assert(row_settled(self.adj@, dist@, i, self.adj@[i]@.len() as int));
                        assert(dist@[self.adj@[i]@[e] as int].is_some());
                    }
                    assert forall|v: Node| #[trigger] d.contains_key(v) && v != start@ implies exists|
                        u: Node,
                    | #[trigger] adjacent(m, u, v) && d.contains_key(u) && d[u] + 1 == d[v] by {
                        let j = self.index@[v] as int;
                        assert(self.label(j) == v);
                        assert(j != s);
                        assert(dist@[j].is_some());
                        let (i, e) = choose|i: int, e: int| #[trigger]
                            steps_to(self.adj@, dist@, i, e, j, dist@[j].unwrap() as int);
                        let u = self.label(i);
                        assert(self.index@.contains_key(u) && self.index@[u] == i);
                        assert(self.adj@[i]@[e] == j as usize);
                        assert(self.linked(i, j));
                        assert(self.joined(u, v));
                        assert(adjacent(m, u, v));
                        assert(d.contains_key(u));
                    }
                    assert(hop_labelling(m, start@, d));
                    lemma_labelling_shortest(m, start@, d);
                }
                out
            },
        }
    }

    /// The degree of every node: the number of its neighbours.
    pub fn degree_distribution(&self) -> (degrees: StringHashMap<usize>)
        requires
            self.wf(),
        ensures
            degrees@.dom() == self@.dom(),
            forall|u: Node| #[trigger] self@.contains_key(u) ==> degrees@[u] == self@[u].len(),
    {
        let mut out: StringHashMap<usize> = StringHashMap::new();
        let mut i: usize = 0;
        while i < self.labels.len()
            invariant
                self.wf(),
                i <= self.labels@.len(),
                forall|u: Node| #[trigger]
                    out@.contains_key(u) <==> self.index@.contains_key(u) && self.index@[u] < i,
                forall|u: Node| #[trigger] out@.contains_key(u) ==> out@[u] == self@[u].len(),
            decreases self.labels@.len() - i,
        {
            proof {
                assert(self.index@.contains_key(self.label(i as int)));
                assert(self@[self.label(i as int)].len() == self.adj@[i as int]@.len());
            }
            out.insert(self.labels[i].clone(), self.adj[i].len());
            i = i + 1;
        }
        proof {
            assert(out@.dom() =~= self@.dom());
        }
        out
    }

    /// The smallest degree, the greatest degree, and the average degree as
    /// the sum of all degrees over the number of nodes. Of a graph without
    /// nodes the three are 0, 0 and zero.
    pub fn degree_statistics(&self) -> (stats: (usize, usize, Ratio))
        requires
            self.wf(),
        ensures
            self@.dom().len() == 0 ==> stats == (0usize, 0usize, Ratio::zero()),
            self@.dom().len() > 0 ==> {
                &&& exists|u: Node| #[trigger] self@.contains_key(u) && self@[u].len() == stats.0
                &&& forall|u: Node| #[trigger] self@.contains_key(u) ==> stats.0 <= self@[u].len()
                &&& exists|u: Node| #[trigger] self@.contains_key(u) && self@[u].len() == stats.1
                &&& forall|u: Node| #[trigger] self@.contains_key(u) ==> self@[u].len() <= stats.1
                &&& stats.2.numerator == arc_set(self@).len()
                &&& stats.2.denominator == self@.dom().len()
            },
    {
        let n: usize = self.labels.len();
        proof {
            assert(self@.dom() =~= self.index@.dom());
        }
        if n == 0 {
            return (0, 0, Ratio::zero());
        }
        let mut low: usize = self.adj[0].len();
        let mut high: usize = low;
        let ghost mut low_at: int = 0;
        let ghost mut high_at: int = 0;
        let mut i: usize = 1;
        while i < n
            invariant
                self.wf(),
                n == self.labels@.len(),
                1 <= i <= n,
                0 <= low_at < i,
                0 <= high_at < i,
                self.adj@[low_at]@.len() == low,
                self.adj@[high_at]@.len() == high,
                forall|k: int| 0 <= k < i ==> low <= (#[trigger] self.adj@[k])@.len() <= high,
            decreases n - i,
        {
            let k: usize = self.adj[i].len();
            if k < low {
                low = k;
                proof {
                    low_at = i as int;
                }
            }
            if k > high {
                high = k;
                proof {
                    high_at = i as int;
                }
            }
            i = i + 1;
        }
        proof {
            let a = self.label(low_at);
            let b = self.label(high_at);
            assert(self@.contains_key(a) && self@[a].len() == low);
            assert(self@.contains_key(b) && self@[b].len() == high);
            assert forall|u: Node| #[trigger] self@.contains_key(u) implies low <= self@[u].len()
                <= high by {
                let k = self.index@[u] as int;
                assert(self.label(k) == u);
                assert(self@[self.label(k)].len() == self.adj@[k]@.len());
            }
        }
        let total: u128 = self.degree_total();
        (low, high, Ratio { numerator: total, denominator: n as u128 })
    }

    /// The local clustering coefficient of `node`: of the pairs that can be
    /// formed from its neighbours, the share that are neighbours of each
    /// other. It is zero for a node with fewer than two neighbours and for
    /// a label that is no node.
    pub fn clustering_coefficient(&self, node: &String) -> (share: Ratio)
        requires
            self.wf(),
        ensures
            share == clustering(self@, node@),
            neighbors(self@, node@).len() < 2 ==> share == Ratio::zero(),
            share.numerator <= share.denominator,
            neighbors(self@, node@).len() >= 2 && complete(self@, neighbors(self@, node@))
                ==> share.numerator == share.denominator,
    {
        let at = self.index.get(node.as_str());
        match at {
            None => {
                proof {
                    assert(neighbors(self@, node@).len() == 0);
                }
                Ratio::zero()
            },
            Some(u) => {
                let u: usize = *u;
                let row = &self.adj[u];
                let k: usize = row.len();
                proof {
                    assert(self.label(u as int) == node@);
                    assert(self@[self.label(u as int)].len() == k);
                }
                if k < 2 {
                    return Ratio::zero();
                }
                let ghost order = Seq::new(k as nat, |p: int| self.label(row@[p] as int));
                proof {
                    self.lemma_row_lists(u as int);
                }
                let mut count: u128 = 0;
                let mut j: usize = 0;
                while j < k
                    invariant
                        self.wf(),
                        u < self.adj@.len(),
                        row@ == self.adj@[u as int]@,
                        k == row@.len(),
                        j <= k,
                        order == Seq::new(k as nat, |p: int| self.label(row@[p] as int)),
                        count == linked_pairs(self@, order.take(j as int)),
                        count <= pair_count(j as nat),
                    decreases k - j,
                {
                    let ghost base = count;
                    let mut i: usize = 0;
                    proof {
                        assert(order.take(j as int).take(0) =~= Seq::<Node>::empty());
                    }
                    while i < j
                        invariant
                            self.wf(),
                            u < self.adj@.len(),
                            row@ == self.adj@[u as int]@,
                            k == row@.len(),
                            j < k,
                            i <= j,
                            order == Seq::new(k as nat, |p: int| self.label(row@[p] as int)),
                            base <= pair_count(j as nat),
                            count == base + links_to(
                                self@,
                                order.take(j as int).take(i as int),
                                order[j as int],
                            ),
                            count <= base + i,
                        decreases j - i,
                    {
                        let a: usize = row[i];
                        let b: usize = row[j];
                        proof {
                            assert(self.adj@[u as int]@[i as int] < self.adj@.len());
                            assert(self.adj@[u as int]@[j as int] < self.adj@.len());
                            let upto = order.take(j as int).take(i as int + 1);
                            assert(upto.drop_last() =~= order.take(j as int).take(i as int));
                            assert(upto.last() == self.label(a as int));
                            assert(order[j as int] == self.label(b as int));
                            assert(self.index@[self.label(a as int)] == a);
                            assert(self.index@[self.label(b as int)] == b);
                            assert(adjacent(self@, self.label(a as int), self.label(b as int))
                                == self.adj@[a as int]@.contains(b)) by {
                                assert(self.joined(self.label(a as int), self.label(b as int))
                                    == self.linked(a as int, b as int));
                            }
                            assert(pair_count(j as nat) <= pair_count(usize::MAX as nat)) by (nonlinear_arith)
                                requires
                                    0 <= j <= usize::MAX,
                            ;
                            assert(pair_count(usize::MAX as nat) + usize::MAX < u128::MAX) by (nonlinear_arith);
                        }
                        if row_has(&self.adj[a], b) {
                            count = count + 1;
                        }
                        i = i + 1;
                    }
                    proof {
                        let upto = order.take(j as int + 1);
                        assert(order.take(j as int).take(j as int) =~= order.take(j as int));
                        assert(upto.drop_last() =~= order.take(j as int));
                        assert(upto.last() == order[j as int]);
                        assert(pair_count(j as nat) + j == pair_count((j + 1) as nat)) by (nonlinear_arith)
                            requires
                                0 <= j,
                        ;
                    }
                    j = j + 1;
                }
                proof {
                    assert(order.take(k as int) =~= order);
                    assert(lists(order, neighbors(self@, node@)));
                    self.lemma_symmetric();
                    lemma_links_within_len(self@, order);
                    if complete(self@, neighbors(self@, node@)) {
                        lemma_complete_pairs(self@, order);
                    }
                    assert((k as int) * (k - 1) <= usize::MAX * usize::MAX) by (nonlinear_arith)
                        requires
                            2 <= k <= usize::MAX,
                    ;
                }
                let denominator: u128 = (k as u128) * ((k - 1) as u128) / 2;
                Ratio { numerator: count, denominator }
            },
        }
    }

    /// Every node with its local clustering coefficient. The average
    /// clustering coefficient of the graph is the mean of these, and zero
    /// where there are none.
    pub fn clustering_coefficients(&self) -> (shares: Vec<(String, Ratio)>)
        requires
            self.wf(),
        ensures
            lists(Seq::new(shares@.len(), |i: int| shares@[i].0@), self@.dom()),
            forall|i: int|
                0 <= i < shares@.len() ==> (#[trigger] shares@[i]).1 == clustering(
                    self@,
                    shares@[i].0@,
                ),
    {
        let names = self.nodes();
        let mut shares: Vec<(String, Ratio)> = Vec::new();
        let mut i: usize = 0;
        while i < names.len()
            invariant
                self.wf(),
                i <= names@.len(),
                shares@.len() == i,
                forall|k: int| 0 <= k < i ==> (#[trigger] shares@[k]).0@ == names@[k]@,
                forall|k: int|
                    0 <= k < i ==> (#[trigger] shares@[k]).1 == clustering(self@, shares@[k].0@),
            decreases names@.len() - i,
        {
            let share = self.clustering_coefficient(&names[i]);
            shares.push((names[i].clone(), share));
            i = i + 1;
        }
        proof {
            assert(Seq::new(shares@.len(), |i: int| shares@[i].0@) =~= Seq::new(
                names@.len(),
                |i: int| names@[i]@,
            ));
        }
        shares
    }

    /// Row `i`, read as labels, lists the neighbours of node `i`.
    proof fn lemma_row_lists(&self, i: int)
        requires
            self.wf(),
            0 <= i < self.size(),
        ensures
            lists(
                Seq::new(self.adj@[i]@.len(), |p: int| self.label(self.adj@[i]@[p] as int)),
                self@[self.label(i)],
            ),
    {
        let row = self.adj@[i]@;
        let order = Seq::new(row.len(), |p: int| self.label(row[p] as int));
        let u = self.label(i);
        assert(self.index@[u] == i);
        assert forall|p: int, q: int| 0 <= p < order.len() && 0 <= q < order.len() && p != q implies order[p]
            != order[q] by {
            assert(self.adj@[i]@[p] < self.adj@.len());
            assert(self.adj@[i]@[q] < self.adj@.len());
            assert(self.adj@[i]@.no_duplicates());
            assert(self.index@[self.label(row[p] as int)] == row[p]);
            assert(self.index@[self.label(row[q] as int)] == row[q]);
        }
        assert forall|v: Node| order.to_set().contains(v) == self@[u].contains(v) by {
            if order.to_set().contains(v) {
                let p = choose|p: int| 0 <= p < order.len() && order[p] == v;
                assert(self.adj@[i]@[p] < self.adj@.len());
                assert(self.index@[self.label(row[p] as int)] == row[p]);
                assert(self.linked(i, row[p] as int));
                assert(self.joined(u, v));
            }
            if self@[u].contains(v) {
                assert(self.joined(u, v));
                let j = self.index@[v];
                assert(self.linked(i, j as int));
                let p = choose|p: int| 0 <= p < row.len() && row[p] == j;
                assert(order[p] == v);
            }
        }
        assert(order.to_set() =~= self@[u]);
    }

    /// The labels of the nodes, each once.
    pub fn nodes(&self) -> (names: Vec<String>)
        requires
            self.wf(),
        ensures
            lists(Seq::new(names@.len(), |i: int| names@[i]@), self@.dom()),
    {
        let mut names: Vec<String> = Vec::new();
        let mut i: usize = 0;
        while i < self.labels.len()
            invariant
                self.wf(),
                i <= self.labels@.len(),
                names@.len() == i,
                forall|k: int| 0 <= k < i ==> (#[trigger] names@[k])@ == self.label(k),
            decreases self.labels@.len() - i,
        {
            names.push(self.labels[i].clone());
            i = i + 1;
        }
        proof {
            let order = Seq::new(names@.len(), |i: int| names@[i]@);
            assert forall|p: int, q: int|
                0 <= p < order.len() && 0 <= q < order.len() && p != q implies order[p]
                != order[q] by {
                assert(self.index@[self.label(p)] == p);
                assert(self.index@[self.label(q)] == q);
            }
            assert forall|u: Node| order.to_set().contains(u) == self@.dom().contains(u) by {
                if order.to_set().contains(u) {
                    let p = choose|p: int| 0 <= p < order.len() && order[p] == u;
                    assert(self.index@.contains_key(self.label(p)));
                }
                if self@.dom().contains(u) {
                    let k = self.index@[u] as int;
                    assert(order[k] == u);
                }
            }
            assert(order.to_set() =~= self@.dom());
        }
        names
    }

    /// Whether `target` is a neighbour of `source`.
    pub fn has_edge(&self, source: &String, target: &String) -> (found: bool)
        requires
            self.wf(),
        ensures
            found == adjacent(self@, source@, target@),
    {
        let from = self.index.get(source.as_str());
        let to = self.index.get(target.as_str());
        match (from, to) {
            (Some(i), Some(j)) => {
                proof {
                    assert(self.joined(source@, target@) == self.linked(*i as int, *j as int));
                }
                row_has(&self.adj[*i], *j)
            },
            _ => {
                proof {
                    assert(!self.joined(source@, target@));
                }
                false
            },
        }
    }

    /// In a well-formed graph the nodes, the neighbours of each node and
    /// the neighbour relations are finitely many.
    pub proof fn lemma_finite(&self)
        requires
            self.wf(),
        ensures
            self@.dom().finite(),
            arc_set(self@).finite(),
            forall|u: Node| #[trigger] self@.contains_key(u) ==> self@[u].finite(),
    {
        assert(self@.dom() =~= self.index@.dom());
        assert forall|u: Node| #[trigger] self@.contains_key(u) implies self@[u].finite() by {
            let k = self.index@[u] as int;
            assert(self.label(k) == u);
            assert(self@[self.label(k)].finite());
        }
    }

    /// In a well-formed graph every neighbour relation holds both ways, and
    /// every neighbour is itself a node.
    pub proof fn lemma_symmetric(&self)
        requires
            self.wf(),
        ensures
            symmetric(self@),
            forall|u: Node, v: Node| #[trigger] adjacent(self@, u, v) ==> self@.contains_key(v),
    {
        assert forall|u: Node, v: Node| #[trigger] adjacent(self@, u, v) implies adjacent(
            self@,
            v,
            u,
        ) by {
            assert(self.joined(u, v));
            assert(self.linked(self.index@[u] as int, self.index@[v] as int));
            assert(self.linked(self.index@[v] as int, self.index@[u] as int));
            assert(self.joined(v, u));
        }
    }

    /// The number of nodes.
    pub fn node_count(&self) -> (n: usize)
        requires
            self.wf(),
        ensures
            n == self@.dom().len(),
    {
        proof {
            assert(self@.dom() =~= self.index@.dom());
        }
        self.labels.len()
    }

    /// The number of edges: half the number of neighbour relations, rounded
    /// down.
    pub fn edge_count(&self) -> (n: usize)
        requires
            self.wf(),
            arc_set(self@).len() / 2 <= usize::MAX,
        ensures
            n == arc_set(self@).len() / 2,
    {
        let total: u128 = self.degree_total();
        (total / 2) as usize
    }

    /// The sum of the degrees of all nodes, which is the number of
    /// neighbour relations.
    fn degree_total(&self) -> (total: u128)
        requires
            self.wf(),
        ensures
            total == arc_set(self@).len(),
    {
        let mut total: u128 = 0;
        let mut i: usize = 0;
        while i < self.adj.len()
            invariant
                i <= self.adj@.len(),
                total == row_total(self.adj@, i as int),
                total <= i * usize::MAX,
            decreases self.adj@.len() - i,
        {
            let k: usize = self.adj[i].len();
            proof {
                assert((i + 1) * usize::MAX == i * usize::MAX + usize::MAX) by (nonlinear_arith);
                assert(i * usize::MAX <= usize::MAX * usize::MAX) by (nonlinear_arith)
                    requires
                        0 <= i <= usize::MAX,
                ;
            }
            total = total + k as u128;
            i = i + 1;
        }
        total
    }
}

/// The sum of the lengths of the first `upto` rows.
spec fn row_total(rows: Seq<Vec<usize>>, upto: int) -> nat
    decreases upto,
{
    if upto <= 0 {
        0
    } else {
        row_total(rows, upto - 1) + rows[upto - 1]@.len()
    }
}

/// Tables whose first `upto` rows are equally long have the same total.
proof fn lemma_row_total_same(a: Seq<Vec<usize>>, b: Seq<Vec<usize>>, upto: int)
    requires
        upto <= a.len(),
        upto <= b.len(),
        forall|k: int| 0 <= k < upto ==> (#[trigger] a[k])@.len() == b[k]@.len(),
    ensures
        row_total(a, upto) == row_total(b, upto),
    decreases upto,
{
    if upto > 0 {
        lemma_row_total_same(a, b, upto - 1);
    }
}

/// Where one of the first `upto` rows grows by an entry and the others keep
/// their lengths, the total grows by one.
proof fn lemma_row_total_grows(a: Seq<Vec<usize>>, b: Seq<Vec<usize>>, upto: int, at: int)
    requires
        upto <= a.len(),
        upto <= b.len(),
        0 <= at < upto,
        b[at]@.len() == a[at]@.len() + 1,
        forall|k: int| 0 <= k < upto && k != at ==> (#[trigger] a[k])@.len() == b[k]@.len(),
    ensures
        row_total(b, upto) == row_total(a, upto) + 1,
    decreases upto,
{
    if at == upto - 1 {
        lemma_row_total_same(a, b, upto - 1);
    } else {
        lemma_row_total_grows(a, b, upto - 1, at);
    }
}

/// Whether `row` lists `x`.
fn row_has(row: &Vec<usize>, x: usize) -> (found: bool)
    ensures
        found == row@.contains(x),
{
    let mut k: usize = 0;
    while k < row.len()
        invariant
            k <= row@.len(),
            forall|p: int| 0 <= p < k ==> row@[p] != x,
        decreases row@.len() - k,
    {
        if row[k] == x {
            return true;
        }
        k = k + 1;
    }
    false
}

} // verus!
