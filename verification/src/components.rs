//! Connected components: partition all known nodes into maximal connected
//! subsets by exhaustive traversal from every not-yet-visited node, in
//! ascending node order.  The contract states the partition property (every
//! node in exactly one component) and closure (a component contains every
//! neighbor of each of its members).

use crate::graph::{connected_in, is_path, Graph};
use vstd::prelude::*;

verus! {

/// `x` occurs in one of the component vectors.
pub open spec fn in_some_component(r: Seq<Vec<u32>>, x: u32) -> bool {
    exists|k: int| 0 <= k < r.len() && (#[trigger] r[k])@.contains(x)
}

/// No node occurs in two distinct component vectors.
pub open spec fn components_disjoint(r: Seq<Vec<u32>>) -> bool {
    forall|k1: int, k2: int, x: u32|
        #![trigger r[k1]@.contains(x), r[k2]@.contains(x)]
        0 <= k1 < k2 < r.len() && r[k1]@.contains(x) ==> !r[k2]@.contains(x)
}

/// Every neighbor of a member of a component is in that component.
pub open spec fn components_closed(g: Graph, r: Seq<Vec<u32>>) -> bool {
    forall|k: int, x: u32, y: u32|
        #![trigger r[k]@.contains(x), g.nbrs(x).contains(y)]
        0 <= k < r.len() && r[k]@.contains(x) && g.nbrs(x).contains(y) ==> r[k]@.contains(y)
}

/// The visited set is closed under adjacency.
pub open spec fn vis_closed(g: Graph, vis: Seq<bool>) -> bool {
    forall|j: int, y: u32|
        #![trigger vis[j], g.nbrs(g.node_seq()[j]).contains(y)]
        0 <= j < g.node_seq().len() && j < vis.len() && vis[j] && g.nbrs(
            g.node_seq()[j],
        ).contains(y) ==> vis[g.idx_of(y)]
}

/// Number of `false` entries among the first `i` of `s`.
pub open spec fn count_unvisited(s: Seq<bool>, i: int) -> int
    decreases i,
{
    if i <= 0 {
        0
    } else {
        count_unvisited(s, i - 1) + if s[i - 1] {
            0int
        } else {
            1int
        }
    }
}

proof fn lemma_count_bounds(s: Seq<bool>, i: int)
    requires
        0 <= i <= s.len(),
    ensures
        0 <= count_unvisited(s, i) <= i,
    decreases i,
{
    if i > 0 {
        lemma_count_bounds(s, i - 1);
    }
}

/// Flipping one `false` entry to `true` lowers the count by one.
proof fn lemma_count_update_true(s: Seq<bool>, j: int, i: int)
    requires
        0 <= j < s.len(),
        0 <= i <= s.len(),
        !s[j],
    ensures
        count_unvisited(s.update(j, true), i) == count_unvisited(s, i) - if j < i {
            1int
        } else {
            0int
        },
    decreases i,
{
    if i > 0 {
        lemma_count_update_true(s, j, i - 1);
    }
}

/// Membership in a sequence extended by one element.
proof fn lemma_push_contains(s: Seq<u32>, v: u32, x: u32)
    ensures
        s.push(v).contains(x) <==> (s.contains(x) || x == v),
{
    if s.push(v).contains(x) {
        let w = choose|w: int| 0 <= w < s.push(v).len() && s.push(v)[w] == x;
        if w < s.len() {
            assert(s[w] == x);
        }
    }
    if s.contains(x) {
        let w = choose|w: int| 0 <= w < s.len() && s[w] == x;
        assert(s.push(v)[w] == x);
    }
    assert(s.push(v)[s.len() as int] == v);
}

/// Collect the whole not-yet-visited region reachable from `start`,
/// marking it visited; the result is closed under adjacency.
#[verifier::loop_isolation(false)]
fn explore(g: &Graph, visited: &mut Vec<bool>, start: usize) -> (comp: Vec<u32>)
    requires
        g.wf(),
        old(visited)@.len() == g.node_seq().len(),
        start < g.node_seq().len(),
        !old(visited)@[start as int],
        vis_closed(*g, old(visited)@),
    ensures
        final(visited)@.len() == g.node_seq().len(),
        forall|j: int|
            0 <= j < g.node_seq().len() ==> final(visited)@[j] == (old(visited)@[j]
                || comp@.contains(g.node_seq()[j])),
        comp@.no_duplicates(),
        comp@.len() > 0,
        comp@.contains(g.node_seq()[start as int]),
        comp@[0] == g.node_seq()[start as int],
        forall|x: u32|
            #[trigger] comp@.contains(x) ==> connected_in(*g, g.node_seq()[start as int], x),
        forall|x: u32|
            #[trigger] comp@.contains(x) ==> g.has_node(x) && !old(visited)@[g.idx_of(x)],
        forall|x: u32, y: u32|
            #![trigger comp@.contains(x), g.nbrs(x).contains(y)]
            comp@.contains(x) && g.nbrs(x).contains(y) ==> comp@.contains(y),
        vis_closed(*g, final(visited)@),
{
    let n = g.node_count();
    proof {
        g.lemma_wf_facts();
    }
    let mut comp: Vec<u32> = Vec::new();
    let mut stack: Vec<usize> = Vec::new();
    stack.push(start);
    let ghost root = g.node_seq()[start as int];
    proof {
        assert(stack@[0] == start);
        lemma_count_bounds(visited@, n as int);
        let p0 = seq![root];
        assert(is_path(*g, p0) && p0[0] == root && p0.last() == root);
        assert(connected_in(*g, root, root));
    }
    while stack.len() > 0
        invariant
            g.wf(),
            n == g.node_seq().len(),
            visited@.len() == n,
            vis_closed(*g, old(visited)@),
            forall|t: int|
                0 <= t < stack@.len() ==> (#[trigger] stack@[t]) < n && !old(visited)@[stack@[t] as int],
            forall|j: int|
                0 <= j < n ==> visited@[j] == (old(visited)@[j] || comp@.contains(
                    g.node_seq()[j],
                )),
            comp@.no_duplicates(),
            forall|x: u32|
                #[trigger] comp@.contains(x) ==> g.has_node(x) && !old(visited)@[g.idx_of(x)]
                    && visited@[g.idx_of(x)],
            forall|x: u32, y: u32|
                #![trigger comp@.contains(x), g.nbrs(x).contains(y)]
                comp@.contains(x) && g.nbrs(x).contains(y) ==> comp@.contains(y) || exists|t: int|
                    0 <= t < stack@.len() && g.node_seq()[#[trigger] stack@[t] as int] == y,
            comp@.contains(g.node_seq()[start as int]) || exists|t: int|
                0 <= t < stack@.len() && stack@[t] == start,
            0 <= count_unvisited(visited@, n as int),
            root == g.node_seq()[start as int],
            forall|t: int|
                0 <= t < stack@.len() ==> connected_in(
                    *g,
                    root,
                    g.node_seq()[(#[trigger] stack@[t]) as int],
                ),
            forall|x: u32| #[trigger] comp@.contains(x) ==> connected_in(*g, root, x),
            comp@.len() == 0 ==> forall|t: int| 0 <= t < stack@.len() ==> stack@[t] == start,
            comp@.len() > 0 ==> comp@[0] == root,
        decreases count_unvisited(visited@, n as int), stack@.len(),
    {
        let ghost stack0 = stack@;
        let ghost vis0 = visited@;
        let ghost comp0 = comp@;
        let copt = stack.pop();
        let c: usize;
        match copt {
            Some(cc) => {
                c = cc;
            },
            None => {
                proof {
                    assert(false);
                }
                c = 0;
            },
        }
        proof {
            assert(c == stack0[stack0.len() - 1]);
            assert(stack@ =~= stack0.drop_last());
            assert(c < n && !old(visited)@[c as int]) by {
                assert(stack0[stack0.len() - 1] < n && !old(visited)@[stack0[stack0.len() - 1] as int]);
            }
        }
        if !visited[c] {
            let node_c = g.node_list()[c];
            proof {
                assert(g.node_seq().contains(node_c));
                g.lemma_idx_of(node_c);
                assert(g.idx_of(node_c) == c as int);
                assert(!comp0.contains(node_c));
                lemma_count_update_true(vis0, c as int, n as int);
                lemma_count_bounds(vis0, n as int);
            }
            proof {
                assert(connected_in(
                    *g,
                    root,
                    g.node_seq()[(stack0[stack0.len() - 1]) as int],
                ));
                assert(connected_in(*g, root, node_c));
                if comp0.len() == 0 {
                    assert(stack0[stack0.len() - 1] == start);
                    assert(node_c == root);
                }
            }
            visited[c] = true;
            comp.push(node_c);
            proof {
                lemma_count_bounds(visited@, n as int);
                assert forall|x: u32| #[trigger] comp@.contains(x) implies connected_in(
                    *g,
                    root,
                    x,
                ) by {
                    lemma_push_contains(comp0, node_c, x);
                }
                if comp0.len() == 0 {
                    assert(comp@[0] == node_c);
                } else {
                    assert(comp@[0] == comp0[0]);
                }
            }
            proof {
                assert(comp@ =~= comp0.push(node_c));
                assert(visited@ =~= vis0.update(c as int, true));
                assert forall|x: u32| #[trigger] comp@.contains(x) implies g.has_node(x)
                    && !old(visited)@[g.idx_of(x)] && visited@[g.idx_of(x)] by {
                    if comp0.contains(x) {
                        assert(g.has_node(x));
                        g.lemma_idx_of(x);
                        assert(visited@[g.idx_of(x)] == vis0.update(c as int, true)[g.idx_of(x)]);
                    } else {
                        assert(x == node_c);
                        assert(g.idx_of(x) == c as int);
                    }
                }
            }
            let nb = g.neighbors_at(c);
            let m = nb.len();
            proof {
                // re-establish the pending-closure bookkeeping after the pop:
                // pairs previously covered by the popped index now point at the
                // fresh member, whose neighbors are covered by the list `nb`
                assert forall|x: u32, y: u32|
                    comp@.contains(x) && g.nbrs(x).contains(y) implies comp@.contains(y) || (
                exists|t: int|
                    0 <= t < stack@.len() && g.node_seq()[#[trigger] stack@[t] as int] == y) || (x
                    == node_c && exists|u: int| 0 <= u < m && nb@[u] == y) by {
                    if x == node_c {
                        if !comp@.contains(y) {
                            assert(g.nbrs(node_c).contains(y));
                            let u = choose|u: int| 0 <= u < nb@.len() && nb@[u] == y;
                            assert(0 <= u < m && nb@[u] == y);
                        }
                    } else {
                        assert(comp0.contains(x));
                        if !comp@.contains(y) {
                            assert(!comp0.contains(y)) by {
                                if comp0.contains(y) {
                                    let w = choose|w: int|
                                        0 <= w < comp0.len() && comp0[w] == y;
                                    assert(comp@[w] == y);
                                }
                            }
                            assert(exists|t: int|
                                0 <= t < stack0.len() && g.node_seq()[#[trigger] stack0[t] as int]
                                    == y);
                            let t = choose|t: int|
                                0 <= t < stack0.len() && g.node_seq()[#[trigger] stack0[t] as int]
                                    == y;
                            if t < stack0.len() - 1 {
                                assert(stack@[t] == stack0[t]);
                            } else {
                                assert(y == node_c);
                                assert(comp@[comp0.len() as int] == node_c);
                                assert(comp@.contains(y));
                            }
                        }
                    }
                }
                assert(comp@[comp0.len() as int] == node_c);
                assert(comp@.contains(g.node_seq()[c as int]));
                assert forall|j: int|
                    0 <= j < n implies visited@[j] == (old(visited)@[j] || comp@.contains(
                    g.node_seq()[j],
                )) by {
                    lemma_push_contains(comp0, node_c, g.node_seq()[j]);
                    if j == c as int {
                        assert(visited@[j]);
                    } else {
                        assert(visited@[j] == vis0[j]);
                        if g.node_seq()[j] == node_c {
                            g.lemma_idx_of(node_c);
                            assert(false);
                        }
                    }
                }
                if !comp@.contains(g.node_seq()[start as int]) {
                    assert(!comp0.contains(g.node_seq()[start as int])) by {
                        if comp0.contains(g.node_seq()[start as int]) {
                            let w = choose|w: int|
                                0 <= w < comp0.len() && comp0[w] == g.node_seq()[start as int];
                            assert(comp@[w] == g.node_seq()[start as int]);
                        }
                    }
                    assert(exists|t: int| 0 <= t < stack0.len() && stack0[t] == start);
                    let t = choose|t: int| 0 <= t < stack0.len() && stack0[t] == start;
                    if t == stack0.len() - 1 {
                        assert(c == start);
                        assert(comp@[comp0.len() as int] == node_c);
                        assert(comp@.contains(node_c));
                    } else {
                        assert(stack@[t] == start);
                    }
                }
            }
            let mut q: usize = 0;
            while q < m
                invariant
                    g.wf(),
                    n == g.node_seq().len(),
                    visited@.len() == n,
                    vis_closed(*g, old(visited)@),
                    nb@ == g.adj_list(g.node_seq()[c as int]),
                    m == nb@.len(),
                    q <= m,
                    c < n,
                    comp@.contains(g.node_seq()[c as int]),
                    forall|t: int|
                        0 <= t < stack@.len() ==> (#[trigger] stack@[t]) < n && !old(
                            visited,
                        )@[stack@[t] as int],
                    forall|j: int|
                        0 <= j < n ==> visited@[j] == (old(visited)@[j] || comp@.contains(
                            g.node_seq()[j],
                        )),
                    comp@.no_duplicates(),
                    forall|x: u32|
                        #[trigger] comp@.contains(x) ==> g.has_node(x) && !old(visited)@[g.idx_of(
                            x,
                        )] && visited@[g.idx_of(x)],
                    forall|x: u32, y: u32|
                        #![trigger comp@.contains(x), g.nbrs(x).contains(y)]
                        comp@.contains(x) && g.nbrs(x).contains(y) ==> comp@.contains(y) || (
                        exists|t: int|
                            0 <= t < stack@.len() && g.node_seq()[#[trigger] stack@[t] as int]
                                == y) || (x == g.node_seq()[c as int] && exists|u: int|
                            q <= u < m && nb@[u] == y),
                    comp@.contains(g.node_seq()[start as int]) || exists|t: int|
                        0 <= t < stack@.len() && stack@[t] == start,
                    count_unvisited(visited@, n as int) < count_unvisited(vis0, n as int),
                    0 <= count_unvisited(visited@, n as int),
                    root == g.node_seq()[start as int],
                    forall|t: int|
                        0 <= t < stack@.len() ==> connected_in(
                            *g,
                            root,
                            g.node_seq()[(#[trigger] stack@[t]) as int],
                        ),
                    forall|x: u32| #[trigger] comp@.contains(x) ==> connected_in(*g, root, x),
                    comp@[0] == root,
                decreases m - q,
            {
                let y = nb[q];
                proof {
                    assert(g.adj_list(g.node_seq()[c as int]).contains(y));
                    assert(g.nbrs(g.node_seq()[c as int]).contains(y));
                    assert(g.has_node(y));
                }
                let yopt = g.index_of_node(y);
                let yidx: usize;
                match yopt {
                    Some(j) => {
                        yidx = j;
                    },
                    None => {
                        proof {
                            assert(false);
                        }
                        yidx = 0;
                    },
                }
                proof {
                    g.lemma_idx_of(y);
                    assert(g.idx_of(y) == yidx as int);
                    // y cannot have been visited before this call: otherwise the
                    // closure of the old visited set would make `node_c` visited too
                    if old(visited)@[yidx as int] {
                        assert(g.nbrs(g.node_seq()[yidx as int]).contains(g.node_seq()[c as int]))
                            by {
                            assert(g.nbrs(g.node_seq()[c as int]).contains(y));
                        }
                        assert(old(visited)@[g.idx_of(g.node_seq()[c as int])]);
                        assert(false);
                    }
                }
                let ghost stack1 = stack@;
                stack.push(yidx);
                proof {
                    assert(stack@ =~= stack1.push(yidx));
                    assert(g.node_seq()[yidx as int] == y);
                    // extend a walk that reaches `node_c` by the edge to `y`
                    assert(connected_in(*g, root, y)) by {
                        assert(connected_in(*g, root, node_c));
                        let pp = choose|p: Seq<u32>|
                            #[trigger] is_path(*g, p) && p[0] == root && p.last() == node_c;
                        let p2 = pp.push(y);
                        assert(is_path(*g, p2)) by {
                            assert forall|ii: int|
                                0 <= ii < p2.len() - 1 implies (#[trigger] g.nbrs(
                                p2[ii],
                            )).contains(p2[ii + 1]) by {
                                if ii < pp.len() - 1 {
                                    assert(p2[ii] == pp[ii] && p2[ii + 1] == pp[ii + 1]);
                                } else {
                                    assert(p2[ii] == pp.last() && p2[ii + 1] == y);
                                    assert(g.nbrs(node_c).contains(y));
                                }
                            }
                        }
                        assert(p2[0] == root && p2.last() == y);
                    }
                    assert forall|t: int|
                        0 <= t < stack@.len() implies connected_in(
                        *g,
                        root,
                        g.node_seq()[(#[trigger] stack@[t]) as int],
                    ) by {
                        if t < stack1.len() {
                            assert(stack@[t] == stack1[t]);
                        } else {
                            assert(stack@[t] == yidx);
                        }
                    }
                    if !comp@.contains(g.node_seq()[start as int]) {
                        let t = choose|t: int| 0 <= t < stack1.len() && stack1[t] == start;
                        assert(stack@[t] == start);
                    }
                    assert forall|x: u32, yy: u32|
                        comp@.contains(x) && g.nbrs(x).contains(yy) implies comp@.contains(yy) || (
                        exists|t: int|
                            0 <= t < stack@.len() && g.node_seq()[#[trigger] stack@[t] as int]
                                == yy) || (x == g.node_seq()[c as int] && exists|u: int|
                            q + 1 <= u < m && nb@[u] == yy) by {
                        if comp@.contains(yy) {
                        } else if exists|t: int|
                            0 <= t < stack1.len() && g.node_seq()[#[trigger] stack1[t] as int]
                                == yy {
                            let t = choose|t: int|
                                0 <= t < stack1.len() && g.node_seq()[#[trigger] stack1[t] as int]
                                    == yy;
                            assert(stack@[t] == stack1[t]);
                            assert(g.node_seq()[stack@[t] as int] == yy);
                        } else {
                            assert(x == g.node_seq()[c as int]);
                            let u = choose|u: int| q <= u < m && nb@[u] == yy;
                            if u == q {
                                assert(yy == y);
                                assert(stack@[stack1.len() as int] == yidx);
                                assert(g.node_seq()[stack@[stack1.len() as int] as int] == yy);
                            }
                        }
                    }
                }
                q += 1;
            }
            proof {
                assert forall|x: u32, y: u32|
                    comp@.contains(x) && g.nbrs(x).contains(y) implies comp@.contains(y) || exists|
                    t: int,
                |
                    0 <= t < stack@.len() && g.node_seq()[#[trigger] stack@[t] as int] == y by {
                    if !comp@.contains(y) && x == g.node_seq()[c as int] {
                        if exists|u: int| q <= u < m && nb@[u] == y {
                            assert(false);
                        }
                    }
                }
            }
        } else {
            proof {
                // the popped index was already collected into the component
                let node_c = g.node_seq()[c as int];
                assert(g.node_seq().contains(node_c));
                g.lemma_idx_of(node_c);
                assert(g.idx_of(node_c) == c as int);
                assert(comp@.contains(node_c));
                assert forall|x: u32, y: u32|
                    comp@.contains(x) && g.nbrs(x).contains(y) implies comp@.contains(y) || exists|
                    t: int,
                |
                    0 <= t < stack@.len() && g.node_seq()[#[trigger] stack@[t] as int] == y by {
                    if !comp@.contains(y) {
                        let t = choose|t: int|
                            0 <= t < stack0.len() && g.node_seq()[#[trigger] stack0[t] as int]
                                == y;
                        if t < stack0.len() - 1 {
                            assert(stack@[t] == stack0[t]);
                        } else {
                            assert(y == node_c);
                            assert(false);
                        }
                    }
                }
                if !comp@.contains(g.node_seq()[start as int]) {
                    let t = choose|t: int| 0 <= t < stack0.len() && stack0[t] == start;
                    if t < stack0.len() - 1 {
                        assert(stack@[t] == start);
                    } else {
                        assert(c == start);
                        assert(false);
                    }
                }
            }
        }
    }
    proof {
        // the visited set stays closed: old entries by assumption, new
        // entries because the component itself is closed
        assert forall|j: int, y: u32|
            0 <= j < g.node_seq().len() && j < visited@.len() && visited@[j] && g.nbrs(
                g.node_seq()[j],
            ).contains(y) implies visited@[g.idx_of(y)] by {
            assert(g.has_node(y));
            g.lemma_idx_of(y);
            if old(visited)@[j] {
                assert(old(visited)@[g.idx_of(y)]);
            } else {
                assert(comp@.contains(g.node_seq()[j]));
                assert(comp@.contains(y));
            }
        }
    }
    comp
}

/// Partition all known nodes into connected components, discovering them
/// in ascending node order.  Every node lands in exactly one component and
/// each component is closed under adjacency.
#[verifier::loop_isolation(false)]
pub fn find_connected_components(g: &Graph) -> (r: Vec<Vec<u32>>)
    requires
        g.wf(),
    ensures
        forall|k: int| 0 <= k < r@.len() ==> (#[trigger] r@[k])@.len() > 0,
        forall|k: int| 0 <= k < r@.len() ==> (#[trigger] r@[k])@.no_duplicates(),
        forall|k: int, x: u32|
            0 <= k < r@.len() && #[trigger] r@[k]@.contains(x) ==> g.has_node(x),
        forall|x: u32| #[trigger] g.has_node(x) ==> in_some_component(r@, x),
        components_disjoint(r@),
        components_closed(*g, r@),
        // every member of a component is connected to its first member
        forall|k: int, x: u32|
            0 <= k < r@.len() && #[trigger] r@[k]@.contains(x) ==> connected_in(
                *g,
                r@[k]@[0],
                x,
            ),
{
    let n = g.node_count();
    proof {
        g.lemma_wf_facts();
    }
    let mut visited: Vec<bool> = Vec::new();
    let mut f: usize = 0;
    while f < n
        invariant
            f <= n,
            visited@.len() == f,
            forall|j: int| 0 <= j < f ==> !visited@[j],
        decreases n - f,
    {
        visited.push(false);
        f += 1;
    }
    let mut comps: Vec<Vec<u32>> = Vec::new();
    let mut i: usize = 0;
    while i < n
        invariant
            g.wf(),
            n == g.node_seq().len(),
            visited@.len() == n,
            i <= n,
            vis_closed(*g, visited@),
            forall|j: int| 0 <= j < i ==> visited@[j],
            forall|j: int|
                0 <= j < n ==> visited@[j] == in_some_component(comps@, g.node_seq()[j]),
            forall|k: int| 0 <= k < comps@.len() ==> (#[trigger] comps@[k])@.len() > 0,
            forall|k: int| 0 <= k < comps@.len() ==> (#[trigger] comps@[k])@.no_duplicates(),
            forall|k: int, x: u32|
                0 <= k < comps@.len() && #[trigger] comps@[k]@.contains(x) ==> g.has_node(x),
            components_disjoint(comps@),
            components_closed(*g, comps@),
            forall|k: int, x: u32|
                0 <= k < comps@.len() && #[trigger] comps@[k]@.contains(x) ==> connected_in(
                    *g,
                    comps@[k]@[0],
                    x,
                ),
        decreases n - i,
    {
        if !visited[i] {
            let ghost vis0 = visited@;
            let ghost comps0 = comps@;
            let comp = explore(g, &mut visited, i);
            comps.push(comp);
            proof {
                assert(comps@ =~= comps0.push(comp));
                let r = comps@;
                let last = comps0.len() as int;
                // membership in the new list is membership in an old component
                // or in the fresh one
                assert forall|j: int|
                    0 <= j < n implies visited@[j] == in_some_component(r, g.node_seq()[j]) by {
                    let x = g.node_seq()[j];
                    if visited@[j] {
                        if vis0[j] {
                            let k = choose|k: int|
                                0 <= k < comps0.len() && (#[trigger] comps0[k])@.contains(x);
                            assert(r[k]@.contains(x));
                        } else {
                            assert(comp@.contains(x));
                            assert(r[last]@.contains(x));
                        }
                    } else {
                        if in_some_component(r, x) {
                            let k = choose|k: int|
                                0 <= k < r.len() && (#[trigger] r[k])@.contains(x);
                            if k < last {
                                assert(comps0[k]@.contains(x));
                                assert(vis0[j]);
                                assert(visited@[j]);
                            } else {
                                assert(comp@.contains(x));
                                assert(g.has_node(x));
                                g.lemma_idx_of(x);
                                assert(visited@[g.idx_of(x)]);
                            }
                            assert(false);
                        }
                    }
                }
                // disjointness: the fresh component holds only nodes that no
                // old component had marked visited
                assert forall|k1: int, k2: int, x: u32|
                    0 <= k1 < k2 < r.len() && (#[trigger] r[k1]@.contains(x)) implies !(
                #[trigger] r[k2]@.contains(x)) by {
                    if k2 == last {
                        if r[k1]@.contains(x) && r[k2]@.contains(x) {
                            assert(comps0[k1]@.contains(x));
                            assert(comp@.contains(x));
                            assert(g.has_node(x));
                            g.lemma_idx_of(x);
                            assert(in_some_component(comps0, x)) by {
                                assert(comps0[k1]@.contains(x));
                            }
                            assert(vis0[g.idx_of(x)]);
                            assert(!vis0[g.idx_of(x)]);
                        }
                    } else {
                        if r[k1]@.contains(x) {
                            assert(comps0[k1]@.contains(x));
                        }
                    }
                }
                assert forall|k: int, x: u32|
                    0 <= k < r.len() && #[trigger] r[k]@.contains(x) implies connected_in(
                    *g,
                    r[k]@[0],
                    x,
                ) by {
                    if k < last {
                        assert(comps0[k]@.contains(x));
                    } else {
                        assert(comp@.contains(x));
                        assert(comp@[0] == g.node_seq()[i as int]);
                    }
                }
                assert forall|k: int, x: u32, y: u32|
                    0 <= k < r.len() && (#[trigger] r[k]@.contains(x)) && (
                #[trigger] g.nbrs(x).contains(y)) implies r[k]@.contains(y) by {
                    if k < last {
                        assert(comps0[k]@.contains(x));
                        assert(comps0[k]@.contains(y));
                    } else {
                        assert(comp@.contains(x));
                        assert(comp@.contains(y));
                    }
                }
            }
        }
        i += 1;
    }
    proof {
        assert forall|x: u32| #[trigger] g.has_node(x) implies in_some_component(comps@, x) by {
            g.lemma_idx_of(x);
            assert(visited@[g.idx_of(x)]);
        }
    }
    comps
}

/// Size of the largest component in the list (zero when there are none).
pub fn largest_component_size(comps: &Vec<Vec<u32>>) -> (r: usize)
    ensures
        comps@.len() == 0 ==> r == 0,
        forall|k: int| 0 <= k < comps@.len() ==> (#[trigger] comps@[k])@.len() <= r,
        comps@.len() > 0 ==> exists|k: int|
            0 <= k < comps@.len() && (#[trigger] comps@[k])@.len() == r,
{
    let mut best: usize = 0;
    let n = comps.len();
    let mut i: usize = 0;
    while i < n
        invariant
            n == comps@.len(),
            i <= n,
            i == 0 ==> best == 0,
            forall|k: int| 0 <= k < i ==> (#[trigger] comps@[k])@.len() <= best,
            i > 0 ==> exists|k: int| 0 <= k < i && (#[trigger] comps@[k])@.len() == best,
        decreases n - i,
    {
        let len = comps[i].len();
        if len > best {
            best = len;
        } else {
            proof {
                if i == 0 {
                    assert(comps@[0]@.len() == best);
                }
            }
        }
        i += 1;
    }
    best
}

} // verus!
