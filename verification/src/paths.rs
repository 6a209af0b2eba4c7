//! Average shortest-path estimation: single-source breadth-first search
//! and aggregation of observed hop distances over a random sample of
//! source nodes.  The BFS contract characterizes the returned labels
//! exactly: distance zero only at the source, every positive label has a
//! predecessor one hop closer, and neighbors of a labeled node are labeled
//! within one extra hop — together these pin each label to the length of a
//! shortest path from the source.

use crate::graph::Graph;
use rand::seq::SliceRandom;
use vstd::prelude::*;

verus! {

/// Number of labeled (`Some`) entries among the first `i` of `dist`.
pub open spec fn count_labeled(dist: Seq<Option<u32>>, i: int) -> int
    decreases i,
{
    if i <= 0 {
        0
    } else {
        count_labeled(dist, i - 1) + if dist[i - 1] is Some {
            1int
        } else {
            0int
        }
    }
}

/// Sum of the labeled distances among the first `i` of `dist`.
pub open spec fn sum_labeled(dist: Seq<Option<u32>>, i: int) -> int
    decreases i,
{
    if i <= 0 {
        0
    } else {
        sum_labeled(dist, i - 1) + if dist[i - 1] is Some {
            dist[i - 1]->0 as int
        } else {
            0int
        }
    }
}

proof fn lemma_clt_bounds(dist: Seq<Option<u32>>, i: int)
    requires
        0 <= i <= dist.len(),
    ensures
        0 <= count_labeled(dist, i) <= i,
    decreases i,
{
    if i > 0 {
        lemma_clt_bounds(dist, i - 1);
    }
}

/// Labeling one unlabeled entry raises the labeled count by one.
proof fn lemma_clt_update(dist: Seq<Option<u32>>, j: int, d: u32, i: int)
    requires
        0 <= j < dist.len(),
        0 <= i <= dist.len(),
        dist[j] is None,
    ensures
        count_labeled(dist.update(j, Some(d)), i) == count_labeled(dist, i) + if j < i {
            1int
        } else {
            0int
        },
    decreases i,
{
    if i > 0 {
        lemma_clt_update(dist, j, d, i - 1);
    }
}

/// An unlabeled entry keeps the labeled count strictly below `i`.
proof fn lemma_clt_none_lt(dist: Seq<Option<u32>>, j: int, i: int)
    requires
        0 <= j < i <= dist.len(),
        dist[j] is None,
    ensures
        count_labeled(dist, i) < i,
    decreases i,
{
    lemma_clt_bounds(dist, i - 1);
    if j < i - 1 {
        lemma_clt_none_lt(dist, j, i - 1);
    }
}

/// A fully unlabeled prefix has labeled count zero.
proof fn lemma_clt_zero(dist: Seq<Option<u32>>, i: int)
    requires
        0 <= i <= dist.len(),
        forall|j: int| 0 <= j < i ==> (#[trigger] dist[j]) is None,
    ensures
        count_labeled(dist, i) == 0,
    decreases i,
{
    if i > 0 {
        lemma_clt_zero(dist, i - 1);
    }
}

/// A labeled entry makes the labeled count positive.
proof fn lemma_clt_pos(dist: Seq<Option<u32>>, j: int, i: int)
    requires
        0 <= j < i <= dist.len(),
        dist[j] is Some,
    ensures
        count_labeled(dist, i) >= 1,
    decreases i,
{
    lemma_clt_bounds(dist, i - 1);
    if j < i - 1 {
        lemma_clt_pos(dist, j, i - 1);
    }
}

/// A uniform bound on the labels bounds the label sum.
proof fn lemma_sum_le_count(dist: Seq<Option<u32>>, i: int, b: int)
    requires
        0 <= i <= dist.len(),
        b >= 0,
        forall|j: int| 0 <= j < dist.len() && (#[trigger] dist[j]) is Some ==> dist[j]->0 <= b,
    ensures
        0 <= sum_labeled(dist, i) <= count_labeled(dist, i) * b,
    decreases i,
{
    lemma_clt_bounds(dist, i);
    if i > 0 {
        lemma_sum_le_count(dist, i - 1, b);
        lemma_clt_bounds(dist, i - 1);
        if dist[i - 1] is Some {
            assert((count_labeled(dist, i - 1) + 1) * b == count_labeled(dist, i - 1) * b + b)
                by (nonlinear_arith);
        }
    }
}

/// The node at position `i` has a neighbor labeled exactly one hop closer.
#[verifier::opaque]
spec fn has_pred(g: Graph, dist: Seq<Option<u32>>, i: int) -> bool {
    exists|y: u32|
        #[trigger] g.nbrs(g.node_seq()[i]).contains(y) && g.has_node(y) && 0 <= g.idx_of(y)
            < dist.len() && dist[g.idx_of(y)] is Some && dist[g.idx_of(y)]->0 == dist[i]->0 - 1
}

/// Every neighbor of the node at position `i` is labeled within one hop more.
#[verifier::opaque]
spec fn processed(g: Graph, dist: Seq<Option<u32>>, i: int) -> bool {
    forall|y: u32|
        #[trigger] g.nbrs(g.node_seq()[i]).contains(y) ==> (g.has_node(y) && 0 <= g.idx_of(y)
            < dist.len() && dist[g.idx_of(y)] is Some && dist[g.idx_of(y)]->0 <= dist[i]->0 + 1)
}

/// A finished BFS labeling from `source`.  The quantified clauses pin each
/// label exactly: zero only at the source, every positive label reached
/// from a predecessor one hop closer, and every neighbor of a labeled node
/// labeled within one extra hop (so the unlabeled nodes are exactly the
/// unreachable ones).
pub open spec fn bfs_labeling(g: Graph, source: u32, dist: Seq<Option<u32>>) -> bool {
    &&& dist.len() == g.node_seq().len()
    &&& (g.has_node(source) ==> dist[g.idx_of(source)] == Some(0u32))
    &&& (!g.has_node(source) ==> forall|i: int|
        0 <= i < dist.len() ==> (#[trigger] dist[i]) is None)
    &&& (forall|i: int|
        0 <= i < dist.len() && (#[trigger] dist[i]) is Some ==> dist[i]->0 < g.node_seq().len())
    &&& (forall|i: int|
        0 <= i < dist.len() && (#[trigger] dist[i]) is Some && dist[i]->0 == 0
            ==> g.node_seq()[i] == source)
    &&& (forall|i: int|
        0 <= i < dist.len() && (#[trigger] dist[i]) is Some && dist[i]->0 > 0 ==> exists|y: u32|
            #[trigger] g.nbrs(g.node_seq()[i]).contains(y) && g.has_node(y) && 0 <= g.idx_of(y)
                < dist.len() && dist[g.idx_of(y)] is Some && dist[g.idx_of(y)]->0 == dist[i]->0
                - 1)
    &&& (forall|i: int, y: u32|
        #![trigger dist[i], g.nbrs(g.node_seq()[i]).contains(y)]
        0 <= i < dist.len() && dist[i] is Some && g.nbrs(g.node_seq()[i]).contains(y) ==> (
        g.has_node(y) && dist[g.idx_of(y)] is Some && dist[g.idx_of(y)]->0 <= dist[i]->0 + 1))
}

/// One BFS expansion step: label and enqueue every unlabeled neighbor of
/// the node at position `c` with distance `dc + 1`.
#[verifier::loop_isolation(false)]
#[verifier::rlimit(100)]
fn expand_node(
    g: &Graph,
    dist: &mut Vec<Option<u32>>,
    queue: &mut Vec<usize>,
    head: usize,
    c: usize,
    dc: u32,
    si: usize,
)
    requires
        g.wf(),
        old(dist)@.len() == g.node_seq().len(),
        c < g.node_seq().len(),
        si < g.node_seq().len(),
        old(dist)@[si as int] == Some(0u32),
        old(dist)@[c as int] == Some(dc),
        head <= old(queue)@.len(),
        forall|p: int|
            head <= p < old(queue)@.len() ==> (#[trigger] old(queue)@[p]) < g.node_seq().len()
                && old(dist)@[old(queue)@[p] as int] is Some,
        forall|p: int|
            head <= p < old(queue)@.len() ==> dc <= old(dist)@[(#[trigger] old(queue)@[p]) as int]->0 <= dc + 1,
        forall|i: int|
            0 <= i < old(dist)@.len() && (#[trigger] old(dist)@[i]) is Some ==> old(dist)@[i]->0
                < count_labeled(old(dist)@, old(dist)@.len() as int),
        count_labeled(old(dist)@, old(dist)@.len() as int) <= old(dist)@.len(),
        forall|i: int|
            0 <= i < old(dist)@.len() && (#[trigger] old(dist)@[i]) is Some && old(dist)@[i]->0
                == 0 ==> i == si as int,
        forall|i: int|
            0 <= i < old(dist)@.len() && (#[trigger] old(dist)@[i]) is Some && old(dist)@[i]->0 > 0
                ==> has_pred(*g, old(dist)@, i),
        forall|i: int|
            0 <= i < old(dist)@.len() && (#[trigger] old(dist)@[i]) is Some ==> old(dist)@[i]->0
                <= dc + 1,
    ensures
        final(dist)@.len() == old(dist)@.len(),
        final(queue)@.len() >= old(queue)@.len(),
        forall|p: int| 0 <= p < old(queue)@.len() ==> final(queue)@[p] == old(queue)@[p],
        forall|i: int|
            0 <= i < old(dist)@.len() && (#[trigger] old(dist)@[i]) is Some ==> final(dist)@[i]
                == old(dist)@[i],
        final(dist)@[si as int] == Some(0u32),
        final(dist)@[c as int] == Some(dc),
        count_labeled(old(dist)@, old(dist)@.len() as int) <= count_labeled(
            final(dist)@,
            final(dist)@.len() as int,
        ),
        forall|p: int|
            head <= p < final(queue)@.len() ==> (#[trigger] final(queue)@[p]) < g.node_seq().len()
                && final(dist)@[final(queue)@[p] as int] is Some,
        forall|p: int|
            head <= p < final(queue)@.len() ==> dc <= final(dist)@[(#[trigger] final(queue)@[p]) as int]->0 <= dc + 1,
        forall|i: int|
            0 <= i < final(dist)@.len() && (#[trigger] final(dist)@[i]) is Some ==> final(dist)@[i]->0 < count_labeled(final(dist)@, final(dist)@.len() as int),
        count_labeled(final(dist)@, final(dist)@.len() as int) <= final(dist)@.len(),
        forall|i: int|
            0 <= i < final(dist)@.len() && (#[trigger] final(dist)@[i]) is Some && final(dist)@[i]->0 == 0 ==> i == si as int,
        forall|i: int|
            0 <= i < final(dist)@.len() && (#[trigger] final(dist)@[i]) is Some && final(dist)@[i]->0 > 0 ==> has_pred(*g, final(dist)@, i),
        forall|i: int|
            0 <= i < final(dist)@.len() && (#[trigger] final(dist)@[i]) is Some ==> final(dist)@[i]->0 <= dc + 1,
        forall|i: int|
            0 <= i < final(dist)@.len() && (#[trigger] final(dist)@[i]) is Some && old(dist)@[i] is None ==> exists|p: int|
                old(queue)@.len() <= p < final(queue)@.len() && final(queue)@[p] == i,
        forall|p: int|
            old(queue)@.len() <= p < final(queue)@.len() ==> final(dist)@[(#[trigger] final(queue)@[p]) as int]->0 == dc + 1,
        processed(*g, final(dist)@, c as int),
        count_labeled(final(dist)@, final(dist)@.len() as int) > count_labeled(
            old(dist)@,
            old(dist)@.len() as int,
        ) || final(queue)@.len() == old(queue)@.len(),
{
    let ghost n = g.node_seq().len() as int;
    proof {
        g.lemma_wf_facts();
    }
    let node_c = g.node_list()[c];
    proof {
        assert(g.node_seq().contains(node_c));
        g.lemma_idx_of(node_c);
        assert(g.idx_of(node_c) == c as int);
    }
    let nb = g.neighbors_at(c);
    let m = nb.len();
    let mut q: usize = 0;
    while q < m
        invariant
            dist@.len() == n,
            queue@.len() >= old(queue)@.len(),
            forall|p: int| 0 <= p < old(queue)@.len() ==> queue@[p] == old(queue)@[p],
            forall|i: int|
                0 <= i < n && (#[trigger] old(dist)@[i]) is Some ==> dist@[i] == old(dist)@[i],
            dist@[si as int] == Some(0u32),
            dist@[c as int] == Some(dc),
            count_labeled(old(dist)@, n) <= count_labeled(dist@, n),
            q <= m,
            forall|p: int|
                head <= p < queue@.len() ==> (#[trigger] queue@[p]) < n && dist@[queue@[p] as int]
                    is Some,
            forall|p: int|
                head <= p < queue@.len() ==> dc <= dist@[(#[trigger] queue@[p]) as int]->0 <= dc
                    + 1,
            forall|i: int|
                0 <= i < n && (#[trigger] dist@[i]) is Some ==> dist@[i]->0 < count_labeled(
                    dist@,
                    n,
                ),
            count_labeled(dist@, n) <= n,
            forall|i: int|
                0 <= i < n && (#[trigger] dist@[i]) is Some && dist@[i]->0 == 0 ==> i == si as int,
            forall|i: int|
                0 <= i < n && (#[trigger] dist@[i]) is Some && dist@[i]->0 > 0 ==> has_pred(
                    *g,
                    dist@,
                    i,
                ),
            forall|i: int|
                0 <= i < n && (#[trigger] dist@[i]) is Some ==> dist@[i]->0 <= dc + 1,
            forall|i: int|
                0 <= i < n && (#[trigger] dist@[i]) is Some && old(dist)@[i] is None ==> exists|
                p: int,
            |
                old(queue)@.len() <= p < queue@.len() && queue@[p] == i,
            count_labeled(dist@, n) > count_labeled(old(dist)@, n) || queue@.len() == old(queue)@.len(),
            forall|p: int|
                old(queue)@.len() <= p < queue@.len() ==> dist@[(#[trigger] queue@[p]) as int]->0
                    == dc + 1,
            // the first `q` neighbors of `c` are labeled
            forall|u: int|
                0 <= u < q ==> (g.has_node(#[trigger] nb@[u]) && 0 <= g.idx_of(nb@[u]) < n
                    && dist@[g.idx_of(nb@[u])] is Some),
        decreases m - q,
    {
        let y = nb[q];
        proof {
            assert(g.adj_list(g.node_seq()[c as int])[q as int] == y);
            assert(g.has_node(y));
        }
        let yopt = g.index_of_node(y);
        let yidx: usize;
        match yopt {
            Some(j) => {
                yidx = j;
            },
            None => {
                proof {
                    assert(false);
                }
                yidx = 0;
            },
        }
        proof {
            g.lemma_idx_of(y);
            assert(g.idx_of(y) == yidx as int);
        }
        let dyo = dist[yidx];
        let mut unlabeled = false;
        match dyo {
            Some(_) => {},
            None => {
                unlabeled = true;
            },
        }
        if unlabeled {
            let ghost distq = dist@;
            let ghost queueq = queue@;
            proof {
                lemma_clt_none_lt(distq, yidx as int, n);
                assert(dc < count_labeled(distq, n));
                lemma_clt_update(distq, yidx as int, (dc + 1) as u32, n);
            }
            dist[yidx] = Some(dc + 1);
            queue.push(yidx);
            proof {
                assert(dist@ =~= distq.update(yidx as int, Some((dc + 1) as u32)));
                assert(queue@ =~= queueq.push(yidx));
                assert(count_labeled(dist@, n) == count_labeled(distq, n) + 1);
                assert forall|i: int|
                    0 <= i < n && (#[trigger] dist@[i]) is Some && dist@[i]->0 > 0 implies
                has_pred(*g, dist@, i) by {
                    reveal(has_pred);
                    if i == yidx as int {
                        assert(g.nbrs(g.node_seq()[c as int]).contains(y));
                        assert(g.nbrs(y).contains(node_c));
                        assert(g.nbrs(g.node_seq()[i]).contains(node_c));
                        assert(dist@[g.idx_of(node_c)] is Some);
                    } else {
                        assert(distq[i] is Some);
                        assert(has_pred(*g, distq, i));
                        let yy = choose|yy: u32|
                            #[trigger] g.nbrs(g.node_seq()[i]).contains(yy) && g.has_node(yy) && 0
                                <= g.idx_of(yy) < distq.len() && distq[g.idx_of(yy)] is Some
                                && distq[g.idx_of(yy)]->0 == distq[i]->0 - 1;
                        assert(g.nbrs(g.node_seq()[i]).contains(yy));
                        assert(dist@[g.idx_of(yy)] == distq[g.idx_of(yy)]);
                    }
                }
                assert forall|i: int|
                    0 <= i < n && (#[trigger] dist@[i]) is Some && old(dist)@[i] is None implies
                exists|p: int|
                    old(queue)@.len() <= p < queue@.len() && queue@[p] == i by {
                    if i == yidx as int {
                        assert(queue@[queue@.len() - 1] == yidx);
                    } else {
                        assert(distq[i] is Some);
                        let p = choose|p: int|
                            old(queue)@.len() <= p < queueq.len() && queueq[p] == i;
                        assert(queue@[p] == i);
                    }
                }
            }
        } else {
            proof {
                assert(dist@[yidx as int] is Some);
            }
        }
        q += 1;
    }
    proof {
        assert(processed(*g, dist@, c as int)) by {
            reveal(processed);
            assert forall|y: u32|
                #[trigger] g.nbrs(g.node_seq()[c as int]).contains(y) implies (g.has_node(y) && 0
                <= g.idx_of(y) < dist@.len() && dist@[g.idx_of(y)] is Some && dist@[g.idx_of(
                y,
            )]->0 <= dist@[c as int]->0 + 1) by {
                let u = choose|u: int| 0 <= u < nb@.len() && nb@[u] == y;
                assert(0 <= u < m);
                assert(g.has_node(nb@[u]));
            }
        }
    }
}

/// Single-source BFS: hop distances from `source` to every reachable node,
/// indexed like the ascending node order; `None` for unreachable nodes and
/// for every node when `source` is unknown.
#[verifier::loop_isolation(false)]
#[verifier::rlimit(100)]
pub fn bfs_distances(g: &Graph, source: u32) -> (dist: Vec<Option<u32>>)
    requires
        g.wf(),
    ensures
        bfs_labeling(*g, source, dist@),
{
    let n = g.node_count();
    proof {
        g.lemma_wf_facts();
    }
    let mut dist: Vec<Option<u32>> = Vec::new();
    let mut f: usize = 0;
    while f < n
        invariant
            f <= n,
            dist@.len() == f,
            forall|j: int| 0 <= j < f ==> (#[trigger] dist@[j]) is None,
        decreases n - f,
    {
        dist.push(None);
        f += 1;
    }
    let sopt = g.index_of_node(source);
    let si: usize;
    match sopt {
        Some(s) => {
            si = s;
        },
        None => {
            return dist;
        },
    }
    proof {
        g.lemma_idx_of(source);
        assert(g.idx_of(source) == si as int);
        lemma_clt_zero(dist@, n as int);
        lemma_clt_update(dist@, si as int, 0, n as int);
        lemma_clt_bounds(dist@, n as int);
    }
    dist[si] = Some(0);
    let mut queue: Vec<usize> = Vec::new();
    queue.push(si);
    let mut head: usize = 0;
    proof {
        assert(queue@[0] == si);
        assert(count_labeled(dist@, n as int) == 1);
    }
    while head < queue.len()
        invariant
            dist@.len() == n,
            head <= queue@.len(),
            dist@[si as int] == Some(0u32),
            forall|p: int|
                head <= p < queue@.len() ==> (#[trigger] queue@[p]) < n && dist@[queue@[p] as int]
                    is Some,
            // labels along the active queue do not decrease
            forall|p1: int, p2: int|
                head <= p1 <= p2 < queue@.len() ==> dist@[(#[trigger] queue@[p1]) as int]->0
                    <= dist@[(#[trigger] queue@[p2]) as int]->0,
            // while the queue is active, no label exceeds the front label + 1
            head < queue@.len() ==> forall|i: int|
                0 <= i < n && (#[trigger] dist@[i]) is Some ==> dist@[i]->0 <= dist@[queue@[
                    head as int
                ] as int]->0 + 1,
            forall|i: int|
                0 <= i < n && (#[trigger] dist@[i]) is Some ==> dist@[i]->0 < count_labeled(
                    dist@,
                    n as int,
                ),
            count_labeled(dist@, n as int) <= n,
            forall|i: int|
                0 <= i < n && (#[trigger] dist@[i]) is Some && dist@[i]->0 == 0 ==> i == si as int,
            forall|i: int|
                0 <= i < n && (#[trigger] dist@[i]) is Some && dist@[i]->0 > 0 ==> has_pred(
                    *g,
                    dist@,
                    i,
                ),
            // every labeled node is still queued or fully processed
            forall|i: int|
                0 <= i < n && (#[trigger] dist@[i]) is Some ==> (exists|p: int|
                    head <= p < queue@.len() && queue@[p] == i) || processed(*g, dist@, i),
        decreases n - count_labeled(dist@, n as int), queue@.len() - head,
    {
        let ghost dist0 = dist@;
        let ghost queue0 = queue@;
        let ghost head0 = head as int;
        let c = queue[head];
        head += 1;
        let dco = dist[c];
        let dc: u32;
        match dco {
            Some(d) => {
                dc = d;
            },
            None => {
                proof {
                    assert(false);
                }
                dc = 0;
            },
        }
        proof {
            // the popped front realizes the global label bound
            assert(queue0[head0] == c);
            assert forall|p: int|
                head <= p < queue0.len() implies dc <= dist0[(#[trigger] queue0[p]) as int]->0
                <= dc + 1 by {
                assert(dist0[queue0[head0] as int]->0 <= dist0[queue0[p] as int]->0);
                assert(dist0[queue0[p] as int]->0 <= dist0[queue0[head0] as int]->0 + 1);
            }
        }
        expand_node(g, &mut dist, &mut queue, head, c, dc, si);
        proof {
            // restore the sorted-queue invariant: everything active now
            // carries a label in the window [dc, dc + 1], and entries kept
            // from the old queue keep their relative order
            assert forall|p1: int, p2: int|
                head <= p1 <= p2 < queue@.len() implies dist@[(#[trigger] queue@[p1]) as int]->0
                <= dist@[(#[trigger] queue@[p2]) as int]->0 by {
                assert(dc <= dist@[queue@[p1] as int]->0 <= dc + 1);
                assert(dc <= dist@[queue@[p2] as int]->0 <= dc + 1);
                if p2 >= queue0.len() {
                    // a fresh entry carries exactly dc + 1, at least any
                    // label in the window
                    assert(dist@[queue@[p2] as int]->0 == dc + 1);
                } else {
                    assert(queue@[p1] == queue0[p1] && queue@[p2] == queue0[p2]);
                    assert(dist@[queue@[p1] as int] == dist0[queue0[p1] as int]);
                    assert(dist@[queue@[p2] as int] == dist0[queue0[p2] as int]);
                }
            }
            // every labeled node is queued or processed
            assert forall|i: int|
                0 <= i < n && (#[trigger] dist@[i]) is Some implies (exists|p: int|
                head <= p < queue@.len() && queue@[p] == i) || processed(*g, dist@, i) by {
                if dist0[i] is Some {
                    assert(dist@[i] == dist0[i]);
                    if i == c as int {
                        assert(processed(*g, dist@, c as int));
                    } else if exists|p: int| head0 <= p < queue0.len() && queue0[p] == i {
                        let p = choose|p: int| head0 <= p < queue0.len() && queue0[p] == i;
                        if p == head0 {
                            assert(i == c as int);
                        } else {
                            assert(queue@[p] == i);
                        }
                    } else {
                        assert(processed(*g, dist0, i));
                        assert(processed(*g, dist@, i)) by {
                            reveal(processed);
                            assert forall|y: u32|
                                #[trigger] g.nbrs(g.node_seq()[i]).contains(y) implies (
                            g.has_node(y) && 0 <= g.idx_of(y) < dist@.len() && dist@[g.idx_of(
                                y,
                            )] is Some && dist@[g.idx_of(y)]->0 <= dist@[i]->0 + 1) by {
                                assert(dist0[g.idx_of(y)] is Some);
                                assert(dist@[g.idx_of(y)] == dist0[g.idx_of(y)]);
                            }
                        }
                    }
                } else {
                    // a fresh label came with a queue entry past the old end
                    let p = choose|p: int| queue0.len() <= p < queue@.len() && queue@[p] == i;
                    assert(head <= p < queue@.len() && queue@[p] == i);
                }
            }
            // the global window for the next iteration
            if head < queue@.len() {
                assert forall|i: int|
                    0 <= i < n && (#[trigger] dist@[i]) is Some implies dist@[i]->0 <= dist@[
                queue@[head as int] as int]->0 + 1 by {
                    assert(dc <= dist@[queue@[head as int] as int]->0);
                    assert(dist@[i]->0 <= dc + 1);
                }
            }
            lemma_clt_bounds(dist@, n as int);
        }
    }
    proof {
        assert(bfs_labeling(*g, source, dist@)) by {
            assert forall|i: int, y: u32|
                #![trigger dist@[i], g.nbrs(g.node_seq()[i]).contains(y)]
                0 <= i < dist@.len() && dist@[i] is Some && g.nbrs(g.node_seq()[i]).contains(
                    y,
                ) implies (g.has_node(y) && dist@[g.idx_of(y)] is Some && dist@[g.idx_of(y)]->0
                <= dist@[i]->0 + 1) by {
                assert(processed(*g, dist@, i));
                reveal(processed);
            }
            assert forall|i: int|
                0 <= i < dist@.len() && (#[trigger] dist@[i]) is Some && dist@[i]->0 > 0 implies
            exists|y: u32|
                #[trigger] g.nbrs(g.node_seq()[i]).contains(y) && g.has_node(y) && 0 <= g.idx_of(y)
                    < dist@.len() && dist@[g.idx_of(y)] is Some && dist@[g.idx_of(y)]->0 == dist@[
                i]->0 - 1 by {
                assert(has_pred(*g, dist@, i));
                reveal(has_pred);
            }
        }
    }
    dist
}

/// The (node, distance) pairs that the first `i` entries of a BFS result
/// yield, in ascending node order, skipping unreachable nodes.
pub open spec fn spec_pairs(ns: Seq<u32>, dist: Seq<Option<u32>>, i: int) -> Seq<(u32, u32)>
    decreases i,
{
    if i <= 0 {
        Seq::empty()
    } else {
        let rest = spec_pairs(ns, dist, i - 1);
        if dist[i - 1] is Some {
            rest.push((ns[i - 1], dist[i - 1]->0))
        } else {
            rest
        }
    }
}

/// Pair each reachable node with its BFS distance, in ascending node order.
pub fn distance_pairs(g: &Graph, dist: &Vec<Option<u32>>) -> (r: Vec<(u32, u32)>)
    requires
        g.wf(),
        dist@.len() == g.node_seq().len(),
    ensures
        r@ == spec_pairs(g.node_seq(), dist@, dist@.len() as int),
{
    let n = dist.len();
    let mut out: Vec<(u32, u32)> = Vec::new();
    let mut i: usize = 0;
    while i < n
        invariant
            g.wf(),
            n == dist@.len(),
            dist@.len() == g.node_seq().len(),
            i <= n,
            out@ == spec_pairs(g.node_seq(), dist@, i as int),
        decreases n - i,
    {
        let dv = dist[i];
        match dv {
            Some(d) => {
                let node = g.node_list()[i];
                out.push((node, d));
            },
            None => {},
        }
        i += 1;
    }
    out
}

/// Add up one BFS result: sum of the labeled distances and their number.
fn accumulate(dist: &Vec<Option<u32>>) -> (r: (u128, u128))
    ensures
        r.0 == sum_labeled(dist@, dist@.len() as int),
        r.1 == count_labeled(dist@, dist@.len() as int),
{
    let n = dist.len();
    let mut sum: u128 = 0;
    let mut cnt: u128 = 0;
    let mut i: usize = 0;
    while i < n
        invariant
            n == dist@.len(),
            i <= n,
            sum == sum_labeled(dist@, i as int),
            cnt == count_labeled(dist@, i as int),
            sum <= (i as int) * 0xFFFF_FFFF,
            cnt <= i as int,
        decreases n - i,
    {
        let dv = dist[i];
        match dv {
            Some(d) => {
                proof {
                    assert((i as int) * 0xFFFF_FFFF + 0xFFFF_FFFF == ((i as int) + 1)
                        * 0xFFFF_FFFF) by (nonlinear_arith);
                    assert(((i as int) + 1) * 0xFFFF_FFFF <= 0x1_0000_0000_0000_0000
                        * 0xFFFF_FFFF) by (nonlinear_arith)
                        requires
                            (i as int) + 1 <= 0x1_0000_0000_0000_0000,
                    ;
                }
                sum = sum + d as u128;
                cnt = cnt + 1;
            },
            None => {},
        }
        proof {
            assert((i as int) * 0xFFFF_FFFF <= ((i as int) + 1) * 0xFFFF_FFFF)
                by (nonlinear_arith);
        }
        i += 1;
    }
    (sum, cnt)
}

/// Total of the labeled counts over a sequence of BFS results.
pub open spec fn total_count(ds: Seq<Seq<Option<u32>>>) -> int
    decreases ds.len(),
{
    if ds.len() == 0 {
        0
    } else {
        total_count(ds.drop_last()) + count_labeled(ds.last(), ds.last().len() as int)
    }
}

/// Total of the labeled distance sums over a sequence of BFS results.
pub open spec fn total_sum(ds: Seq<Seq<Option<u32>>>) -> int
    decreases ds.len(),
{
    if ds.len() == 0 {
        0
    } else {
        total_sum(ds.drop_last()) + sum_labeled(ds.last(), ds.last().len() as int)
    }
}

/// Sum and count of all observed hop distances: one BFS from each entry of
/// `sources`, every labeled distance accumulated (each source contributes
/// at least its own zero distance to itself).  The result is exactly the
/// aggregate of one BFS labeling per source.
#[verifier::loop_isolation(false)]
pub fn path_length_stats(g: &Graph, sources: &Vec<u32>) -> (r: (u128, u128))
    requires
        g.wf(),
    ensures
        exists|ds: Seq<Seq<Option<u32>>>|
            {
                &&& #[trigger] ds.len() == sources@.len()
                &&& (forall|k: int|
                    0 <= k < ds.len() ==> bfs_labeling(*g, sources@[k], #[trigger] ds[k]))
                &&& r.0 == total_sum(ds)
                &&& r.1 == total_count(ds)
            },
        (forall|i: int| 0 <= i < sources@.len() ==> g.has_node(#[trigger] sources@[i])) ==> r.1
            >= sources@.len(),
        r.1 <= sources@.len() * g.node_seq().len(),
        r.0 <= r.1 * g.node_seq().len(),
        r.1 == 0 ==> r.0 == 0,
{
    proof {
        g.lemma_wf_facts();
        assert(usize::MAX <= 0xFFFF_FFFF_FFFF_FFFF);
    }
    let ghost n = g.node_seq().len() as int;
    let k = sources.len();
    let mut sum: u128 = 0;
    let mut cnt: u128 = 0;
    let mut i: usize = 0;
    let ghost mut dss: Seq<Seq<Option<u32>>> = Seq::empty();
    while i < k
        invariant
            k == sources@.len(),
            i <= k,
            dss.len() == i,
            forall|j: int| 0 <= j < i ==> bfs_labeling(*g, sources@[j], #[trigger] dss[j]),
            sum == total_sum(dss),
            cnt == total_count(dss),
            cnt <= (i as int) * n,
            sum <= cnt * n,
            cnt <= (i as int) * 0x1_0000_0000,
            sum <= (i as int) * 0x1_0000_0000_0000_0000,
            (forall|j: int| 0 <= j < k ==> g.has_node(#[trigger] sources@[j])) ==> cnt >= i as int,
            cnt == 0 ==> sum == 0,
        decreases k - i,
    {
        let src = sources[i];
        let dist = bfs_distances(g, src);
        let (s1, c1) = accumulate(&dist);
        proof {
            lemma_clt_bounds(dist@, n);
            assert(c1 <= n);
            assert(n >= 1 ==> n - 1 >= 0);
            if n > 0 {
                lemma_sum_le_count(dist@, n, n - 1);
                assert(s1 <= c1 * (n - 1));
                assert(c1 * (n - 1) <= c1 * n) by (nonlinear_arith)
                    requires
                        c1 >= 0,
                ;
            } else {
                assert(s1 == 0 && c1 == 0);
            }
            if g.has_node(src) {
                g.lemma_idx_of(src);
                lemma_clt_pos(dist@, g.idx_of(src), n);
                assert(c1 >= 1);
            }
            // bounds for the additions
            assert(cnt + c1 <= ((i as int) + 1) * n) by (nonlinear_arith)
                requires
                    cnt <= (i as int) * n,
                    c1 <= n,
                    i >= 0,
                    n >= 0,
            ;
            assert(cnt + c1 <= ((i as int) + 1) * 0x1_0000_0000) by (nonlinear_arith)
                requires
                    cnt <= (i as int) * 0x1_0000_0000,
                    c1 <= n,
                    n <= 0x1_0000_0000,
                    i >= 0,
            ;
            assert(((i as int) + 1) * 0x1_0000_0000 <= 0x1_0000_0000_0000_0000 * 0x1_0000_0000)
                by (nonlinear_arith)
                requires
                    (i as int) + 1 <= 0x1_0000_0000_0000_0000,
            ;
            assert(sum + s1 <= (cnt + c1) * n) by (nonlinear_arith)
                requires
                    sum <= cnt * n,
                    s1 <= c1 * n,
            ;
            assert(sum + s1 <= ((i as int) + 1) * 0x1_0000_0000_0000_0000) by (nonlinear_arith)
                requires
                    sum <= (i as int) * 0x1_0000_0000_0000_0000,
                    s1 <= c1 * n,
                    c1 <= 0x1_0000_0000,
                    0 <= n <= 0x1_0000_0000,
                    c1 >= 0,
                    i >= 0,
            ;
            assert(((i as int) + 1) * 0x1_0000_0000_0000_0000 <= 0x1_0000_0000_0000_0000
                * 0x1_0000_0000_0000_0000) by (nonlinear_arith)
                requires
                    (i as int) + 1 <= 0x1_0000_0000_0000_0000,
            ;
        }
        sum = sum + s1;
        cnt = cnt + c1;
        proof {
            let dss2 = dss.push(dist@);
            assert(dss2.drop_last() =~= dss);
            assert(dss2.last() == dist@);
            dss = dss2;
        }
        i += 1;
    }
    proof {
        assert(cnt <= (k as int) * n) by (nonlinear_arith)
            requires
                cnt <= (i as int) * n,
                i == k,
        ;
    }
    (sum, cnt)
}

/// Trusted wrapper around the random sampler.
/// Relies on rand's `SliceRandom::choose_multiple`: it draws
/// `min(k, len)` elements from the slice uniformly at random without
/// repetition of positions, so every returned value occurs in the input.
#[verifier::external_body]
fn sample_nodes(nodes: &Vec<u32>, k: usize) -> (r: Vec<u32>)
    ensures
        r@.len() == (if k <= nodes@.len() {
            k as int
        } else {
            nodes@.len() as int
        }),
        forall|i: int| 0 <= i < r@.len() ==> nodes@.contains(#[trigger] r@[i]),
{
    let mut rng = rand::thread_rng();
    nodes.as_slice().choose_multiple(&mut rng, k).cloned().collect()
}

/// Estimate the average shortest-path length: draw up to `sample_size`
/// distinct source nodes at random, run BFS from each, and report the sum
/// and count of all observed distances (`None` when the graph is empty or
/// the sample size is zero, the degenerate case with nothing to average).
pub fn analyze_connectivity_bfs(g: &Graph, sample_size: usize) -> (r: Option<(u128, u128)>)
    requires
        g.wf(),
    ensures
        r is Some <==> (g.node_seq().len() > 0 && sample_size > 0),
        r is Some ==> (r->0).1 >= (if sample_size as int <= g.node_seq().len() as int {
            sample_size as int
        } else {
            g.node_seq().len() as int
        }),
        r is Some ==> (r->0).1 > 0,
        r is Some ==> (r->0).0 <= (r->0).1 * g.node_seq().len(),
        // whatever the random draw, the result aggregates one BFS labeling
        // per sampled node of the graph
        r is Some ==> exists|srcs: Seq<u32>, ds: Seq<Seq<Option<u32>>>|
            #![trigger srcs.len(), total_sum(ds)]
            {
                &&& srcs.len() == ds.len()
                &&& (forall|i: int| 0 <= i < srcs.len() ==> g.has_node(#[trigger] srcs[i]))
                &&& (forall|k: int|
                    0 <= k < ds.len() ==> bfs_labeling(*g, srcs[k], #[trigger] ds[k]))
                &&& (r->0).0 == total_sum(ds)
                &&& (r->0).1 == total_count(ds)
            },
{
    let nodes = g.node_list();
    let sample = sample_nodes(nodes, sample_size);
    proof {
        assert forall|i: int| 0 <= i < sample@.len() implies g.has_node(
            #[trigger] sample@[i],
        ) by {
            assert(nodes@.contains(sample@[i]));
        }
    }
    let (sum, cnt) = path_length_stats(g, &sample);
    if cnt == 0 {
        proof {
            if g.node_seq().len() > 0 && sample_size > 0 {
                assert(sample@.len() >= 1);
                assert(false);
            }
        }
        None
    } else {
        proof {
            if g.node_seq().len() == 0 || sample_size == 0 {
                assert(sample@.len() == 0 || g.node_seq().len() == 0);
                assert(sample@.len() * g.node_seq().len() == 0) by (nonlinear_arith)
                    requires
                        sample@.len() == 0 || g.node_seq().len() == 0,
                ;
                assert(cnt <= 0);
            }
            let ds = choose|ds: Seq<Seq<Option<u32>>>|
                {
                    &&& #[trigger] ds.len() == sample@.len()
                    &&& (forall|k: int|
                        0 <= k < ds.len() ==> bfs_labeling(*g, sample@[k], #[trigger] ds[k]))
                    &&& sum == total_sum(ds)
                    &&& cnt == total_count(ds)
                };
            assert(sample@.len() == ds.len() && (forall|i: int|
                0 <= i < sample@.len() ==> g.has_node(#[trigger] sample@[i])) && (forall|k: int|
                0 <= k < ds.len() ==> bfs_labeling(*g, sample@[k], #[trigger] ds[k])) && sum
                == total_sum(ds) && cnt == total_count(ds));
        }
        Some((sum, cnt))
    }
}

} // verus!
