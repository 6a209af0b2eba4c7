//! Degree centrality: the (node, degree) pairs of a graph, ranked by
//! degree in descending order.  Ties are broken by ascending node
//! identifier, a documented deterministic choice.

use crate::graph::Graph;
use vstd::prelude::*;

verus! {

broadcast use vstd::seq_lib::group_to_multiset_ensures;

/// Ranking order: strictly higher degree first; equal degrees by
/// ascending node identifier.
pub open spec fn rank_le(a: (u32, usize), b: (u32, usize)) -> bool {
    a.1 > b.1 || (a.1 == b.1 && a.0 <= b.0)
}

pub open spec fn sorted_ranking(s: Seq<(u32, usize)>) -> bool {
    forall|i: int, j: int| 0 <= i < j < s.len() ==> rank_le(s[i], s[j])
}

/// The (node, degree) pairs in ascending node order, before ranking.
pub open spec fn degree_pairs(g: Graph) -> Seq<(u32, usize)> {
    Seq::new(g.node_seq().len(), |i: int| (g.node_seq()[i], g.degree(g.node_seq()[i]) as usize))
}

fn rank_le_exec(a: (u32, usize), b: (u32, usize)) -> (r: bool)
    ensures
        r == rank_le(a, b),
{
    a.1 > b.1 || (a.1 == b.1 && a.0 <= b.0)
}

/// Insert `p` into a ranked vector, keeping the ranking order.
fn insert_ranked(out: &mut Vec<(u32, usize)>, p: (u32, usize))
    requires
        sorted_ranking(old(out)@),
    ensures
        sorted_ranking(final(out)@),
        final(out)@.to_multiset() == old(out)@.to_multiset().insert(p),
        final(out)@.len() == old(out)@.len() + 1,
{
    let n = out.len();
    let mut k: usize = 0;
    while k < n && rank_le_exec(out[k], p)
        invariant
            n == out@.len(),
            k <= n,
            sorted_ranking(out@),
            forall|j: int| 0 <= j < k ==> rank_le(out@[j], p),
        decreases n - k,
    {
        k += 1;
    }
    proof {
        let s = out@;
        let t = s.insert(k as int, p);
        assert forall|i: int, j: int| 0 <= i < j < t.len() implies rank_le(t[i], t[j]) by {
            if j < k {
                assert(t[i] == s[i] && t[j] == s[j]);
            } else if j == k {
                assert(t[i] == s[i] && t[j] == p);
            } else if i < k {
                assert(t[i] == s[i] && t[j] == s[j - 1]);
                if j - 1 > k {
                    assert(rank_le(s[k as int], s[j - 1]));
                }
            } else if i == k {
                assert(t[i] == p && t[j] == s[j - 1]);
                if j - 1 > k {
                    assert(rank_le(s[k as int], s[j - 1]));
                }
            } else {
                assert(t[i] == s[i - 1] && t[j] == s[j - 1]);
            }
        }
        vstd::seq_lib::to_multiset_insert(s, k as int, p);
    }
    out.insert(k, p);
}

/// The degree centrality ranking of the whole graph: every known node
/// paired with its degree, ranked by descending degree and, among equal
/// degrees, ascending node identifier.
pub fn calculate_degree_centrality(g: &Graph) -> (r: Vec<(u32, usize)>)
    requires
        g.wf(),
    ensures
        r@.len() == g.node_seq().len(),
        sorted_ranking(r@),
        r@.to_multiset() == degree_pairs(*g).to_multiset(),
        forall|i: int|
            0 <= i < r@.len() ==> g.has_node((#[trigger] r@[i]).0) && r@[i].1 == g.degree(
                r@[i].0,
            ),
{
    let n = g.node_count();
    let mut out: Vec<(u32, usize)> = Vec::new();
    let mut i: usize = 0;
    while i < n
        invariant
            g.wf(),
            n == g.node_seq().len(),
            i <= n,
            sorted_ranking(out@),
            out@.to_multiset() == degree_pairs(*g).take(i as int).to_multiset(),
            out@.len() == i,
            forall|t: int|
                0 <= t < out@.len() ==> g.has_node((#[trigger] out@[t]).0) && out@[t].1
                    == g.degree(out@[t].0),
        decreases n - i,
    {
        let node = g.node_list()[i];
        let deg = g.neighbors_at(i).len();
        let ghost before = out@;
        insert_ranked(&mut out, (node, deg));
        proof {
            assert(g.node_seq().contains(node));
            let dp = degree_pairs(*g);
            assert(dp.take(i as int + 1).drop_last() =~= dp.take(i as int));
            assert(dp.take(i as int + 1) =~= dp.take(i as int).push(dp[i as int]));
            vstd::seq_lib::to_multiset_build(dp.take(i as int), dp[i as int]);
            assert(dp[i as int] == (node, deg));
            assert forall|t: int|
                0 <= t < out@.len() implies g.has_node((#[trigger] out@[t]).0) && out@[t].1
                == g.degree(out@[t].0) by {
                let w = out@[t];
                assert(out@.contains(w));
                vstd::seq_lib::to_multiset_contains(out@, w);
                if w != (node, deg) {
                    assert(before.to_multiset().count(w) > 0);
                    vstd::seq_lib::to_multiset_contains(before, w);
                    let u = choose|u: int| 0 <= u < before.len() && before[u] == w;
                    assert(g.has_node(before[u].0));
                }
            }
        }
        i += 1;
    }
    proof {
        assert(degree_pairs(*g).take(n as int) =~= degree_pairs(*g));
    }
    out
}

} // verus!
