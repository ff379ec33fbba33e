//! Breadth-first search over numbered nodes.

use vstd::prelude::*;

verus! {

/// Every entry of every row is the number of a row.
pub open spec fn rows_in_range(adj: Seq<Vec<usize>>) -> bool {
    forall|u: int, e: int|
        0 <= u < adj.len() && 0 <= e < adj[u]@.len() ==> #[trigger] adj[u]@[e] < adj.len()
}

/// Entry `e` of row `u` is `v`, and `u` has been given a distance one less
/// than `d`.
pub open spec fn steps_to(
    adj: Seq<Vec<usize>>,
    dist: Seq<Option<usize>>,
    u: int,
    e: int,
    v: int,
    d: int,
) -> bool {
    &&& 0 <= u < adj.len()
    &&& u < dist.len()
    &&& 0 <= e < adj[u]@.len()
    &&& adj[u]@[e] == v
    &&& dist[u] == Some((d - 1) as usize)
    &&& d >= 1
}

/// Every node with a distance other than `start` has a neighbour one step
/// nearer to `start`.
pub open spec fn has_parents(adj: Seq<Vec<usize>>, dist: Seq<Option<usize>>, start: int) -> bool {
    forall|v: int|
        0 <= v < dist.len() && v != start && (#[trigger] dist[v]).is_some() ==> exists|
            u: int,
            e: int,
        | #[trigger] steps_to(adj, dist, u, e, v, dist[v].unwrap() as int)
}

/// The neighbours of row `u` up to entry `upto` have distances, none more
/// than one beyond that of `u`.
pub open spec fn row_settled(
    adj: Seq<Vec<usize>>,
    dist: Seq<Option<usize>>,
    u: int,
    upto: int,
) -> bool {
    forall|e: int|
        0 <= e < upto ==> (#[trigger] dist[adj[u]@[e] as int]).is_some() && dist[adj[u]@[e] as int].unwrap()
            <= dist[u].unwrap() + 1
}

/// `dist` gives `start` the distance 0, is closed under taking neighbours,
/// lets no edge span more than one step, and gives every other node a parent.
pub open spec fn settled(adj: Seq<Vec<usize>>, dist: Seq<Option<usize>>, start: int) -> bool {
    &&& dist.len() == adj.len()
    &&& 0 <= start < dist.len()
    &&& dist[start] == Some(0usize)
    &&& forall|u: int|
        0 <= u < dist.len() && (#[trigger] dist[u]).is_some() ==> row_settled(
            adj,
            dist,
            u,
            adj[u]@.len() as int,
        )
    &&& has_parents(adj, dist, start)
}

/// The number of entries that are `None`.
spec fn unseen(dist: Seq<Option<usize>>) -> nat
    decreases dist.len(),
{
    if dist.len() == 0 {
        0
    } else {
        unseen(dist.drop_last()) + if dist.last().is_none() {
            1nat
        } else {
            0nat
        }
    }
}

/// Giving a distance to a node that had none leaves one node fewer without.
proof fn lemma_unseen_update(dist: Seq<Option<usize>>, v: int, d: usize)
    requires
        0 <= v < dist.len(),
        dist[v].is_none(),
    ensures
        unseen(dist.update(v, Some(d))) + 1 == unseen(dist),
    decreases dist.len(),
{
    let after = dist.update(v, Some(d));
    if v == dist.len() - 1 {
        assert(after.drop_last() =~= dist.drop_last());
    } else {
        assert(after.drop_last() =~= dist.drop_last().update(v, Some(d)));
        lemma_unseen_update(dist.drop_last(), v, d);
    }
}

/// Breadth-first search from `start`. Returns the nodes in the order in
/// which they were reached, and for each node its distance, if it was
/// reached.
pub fn hop_distances(adj: &Vec<Vec<usize>>, start: usize) -> (res: (Vec<usize>, Vec<Option<usize>>))
    requires
        start < adj@.len(),
        rows_in_range(adj@),
    ensures
        settled(adj@, res.1@, start as int),
        forall|q: int| 0 <= q < res.0@.len() ==> #[trigger] res.0@[q] < adj@.len(),
        forall|v: int|
            0 <= v < adj@.len() ==> ((#[trigger] res.1@[v]).is_some() <==> res.0@.contains(
                v as usize,
            )),
{
    let n: usize = adj.len();
    let mut dist: Vec<Option<usize>> = Vec::new();
    while dist.len() < n
        invariant
            dist@.len() <= n,
            unseen(dist@) == dist@.len(),
            forall|v: int| 0 <= v < dist@.len() ==> (#[trigger] dist@[v]).is_none(),
        decreases n - dist@.len(),
    {
        let ghost before = dist@;
        dist.push(None);
        proof {
            assert(dist@.drop_last() =~= before);
        }
    }
    let mut queue: Vec<usize> = Vec::new();
    proof {
        lemma_unseen_update(dist@, start as int, 0);
    }
    dist.set(start, Some(0));
    queue.push(start);
    let mut head: usize = 0;
    proof {
        assert(queue@[0] == start);
        assert forall|v: int| 0 <= v < n && (#[trigger] dist@[v]).is_some() implies queue@.contains(
            v as usize,
        ) by {
            assert(v == start);
        }
    }
    while head < queue.len()
        invariant
            n == adj@.len(),
            start < n,
            rows_in_range(adj@),
            dist@.len() == n,
            head <= queue@.len(),
            queue@.len() + unseen(dist@) == n,
            dist@[start as int] == Some(0usize),
            forall|q: int|
                0 <= q < queue@.len() ==> #[trigger] queue@[q] < n && dist@[queue@[q] as int].is_some()
                    && dist@[queue@[q] as int].unwrap() <= q,
            forall|v: int|
                0 <= v < n && (#[trigger] dist@[v]).is_some() ==> queue@.contains(v as usize),
            forall|p: int, q: int|
                0 <= p <= q < queue@.len() ==> dist@[#[trigger] queue@[p] as int].unwrap()
                    <= dist@[#[trigger] queue@[q] as int].unwrap(),
            forall|q: int|
                head < queue@.len() && 0 <= q < queue@.len() ==> dist@[#[trigger] queue@[q] as int].unwrap()
                    <= dist@[queue@[head as int] as int].unwrap() + 1,
            forall|p: int|
                0 <= p < head ==> row_settled(
                    adj@,
                    dist@,
                    #[trigger] queue@[p] as int,
                    adj@[queue@[p] as int]@.len() as int,
                ),
            has_parents(adj@, dist@, start as int),
        decreases n - head,
    {
        let cur: usize = queue[head];
        let d: usize = dist[cur].unwrap();
        let row = &adj[cur];
        let mut e: usize = 0;
        while e < row.len()
            invariant
                n == adj@.len(),
                start < n,
                cur < n,
                rows_in_range(adj@),
                row@ == adj@[cur as int]@,
                e <= row@.len(),
                dist@.len() == n,
                head < queue@.len(),
                cur == queue@[head as int],
                dist@[cur as int] == Some(d),
                queue@.len() + unseen(dist@) == n,
                dist@[start as int] == Some(0usize),
                forall|q: int|
                    0 <= q < queue@.len() ==> #[trigger] queue@[q] < n && dist@[queue@[q] as int].is_some()
                        && dist@[queue@[q] as int].unwrap() <= q,
                forall|v: int|
                    0 <= v < n && (#[trigger] dist@[v]).is_some() ==> queue@.contains(v as usize),
                forall|p: int, q: int|
                    0 <= p <= q < queue@.len() ==> dist@[#[trigger] queue@[p] as int].unwrap()
                        <= dist@[#[trigger] queue@[q] as int].unwrap(),
                forall|q: int|
                    0 <= q < queue@.len() ==> dist@[#[trigger] queue@[q] as int].unwrap() <= d + 1,
                forall|p: int|
                    0 <= p < head ==> row_settled(
                        adj@,
                        dist@,
                        #[trigger] queue@[p] as int,
                        adj@[queue@[p] as int]@.len() as int,
                    ),
                row_settled(adj@, dist@, cur as int, e as int),
                has_parents(adj@, dist@, start as int),
            decreases row@.len() - e,
        {
            let nb: usize = row[e];
            proof {
                assert(adj@[cur as int]@[e as int] < n);
            }
            if dist[nb].is_none() {
                let ghost before = dist@;
                let ghost line = queue@;
                proof {
                    lemma_unseen_update(dist@, nb as int, (d + 1) as usize);
                    assert(dist@[queue@[head as int] as int].unwrap() <= head);
                }
                dist.set(nb, Some(d + 1));
                queue.push(nb);
                proof {
                    assert forall|v: int| 0 <= v < n && (#[trigger] dist@[v]).is_some() implies queue@.contains(
                        v as usize,
                    ) by {
                        if v == nb {
                            assert(queue@[line.len() as int] == nb);
                        } else {
                            assert(before[v].is_some());
                            let q = choose|q: int| 0 <= q < line.len() && line[q] == v as usize;
                            assert(queue@[q] == v as usize);
                        }
                    }
                    assert forall|q: int| 0 <= q < queue@.len() implies #[trigger] queue@[q] < n
                        && dist@[queue@[q] as int].is_some() && dist@[queue@[q] as int].unwrap()
                        <= q && dist@[queue@[q] as int].unwrap() <= d + 1 by {
                        if q < line.len() {
                            assert(line[q] == queue@[q]);
                            assert(before[line[q] as int].is_some());
                        }
                    }
                    assert forall|p: int, q: int| 0 <= p <= q < queue@.len() implies dist@[
                    #[trigger] queue@[p] as int].unwrap() <= dist@[
                    #[trigger] queue@[q] as int].unwrap() by {
                        if q < line.len() {
                            assert(line[q] == queue@[q]);
                            assert(line[p] == queue@[p]);
                        } else if p < line.len() {
                            assert(line[p] == queue@[p]);
                        }
                    }
                    assert forall|p: int| 0 <= p < head implies row_settled(
                        adj@,
                        dist@,
                        #[trigger] queue@[p] as int,
                        adj@[queue@[p] as int]@.len() as int,
                    ) by {
                        assert(line[p] == queue@[p]);
                        assert(row_settled(
                            adj@,
                            before,
                            line[p] as int,
                            adj@[line[p] as int]@.len() as int,
                        ));
                    }
                    assert(row_settled(adj@, dist@, cur as int, e as int + 1)) by {
                        assert(row_settled(adj@, before, cur as int, e as int));
                    }
                    assert forall|v: int|
                        0 <= v < dist@.len() && v != start && (#[trigger] dist@[v]).is_some() implies exists|
                        u: int,
                        x: int,
                    | #[trigger] steps_to(adj@, dist@, u, x, v, dist@[v].unwrap() as int) by {
                        if v == nb {
                            assert(steps_to(adj@, dist@, cur as int, e as int, v, d + 1));
                        } else {
                            assert(before[v].is_some());
                            let (u, x) = choose|u: int, x: int| #[trigger]
                                steps_to(adj@, before, u, x, v, before[v].unwrap() as int);
                            assert(steps_to(adj@, dist@, u, x, v, dist@[v].unwrap() as int));
                        }
                    }
                }
            } else {
                proof {
                    let q = choose|q: int| 0 <= q < queue@.len() && queue@[q] == nb;
                    assert(dist@[queue@[q] as int].unwrap() <= d + 1);
                }
            }
            e = e + 1;
        }
        head = head + 1;
    }
    proof {
        assert forall|u: int| 0 <= u < dist@.len() && (#[trigger] dist@[u]).is_some() implies row_settled(
            adj@,
            dist@,
            u,
            adj@[u]@.len() as int,
        ) by {
            let q = choose|q: int| 0 <= q < queue@.len() && queue@[q] == u as usize;
            assert(row_settled(adj@, dist@, queue@[q] as int, adj@[queue@[q] as int]@.len() as int));
        }
        assert forall|v: int| 0 <= v < adj@.len() implies ((#[trigger] dist@[v]).is_some()
            <==> queue@.contains(v as usize)) by {
            if queue@.contains(v as usize) {
                let q = choose|q: int| 0 <= q < queue@.len() && queue@[q] == v as usize;
                assert(dist@[queue@[q] as int].is_some());
            }
        }
    }
    (queue, dist)
}

} // verus!
