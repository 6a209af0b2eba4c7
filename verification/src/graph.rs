//! Undirected, unweighted simple graph over `u32` node identifiers.
//!
//! The graph is a mapping from each known node to its set of neighbors,
//! kept symmetric: whenever `b` is a neighbor of `a`, `a` is a neighbor
//! of `b`.  Nodes and each adjacency list are stored in strictly
//! increasing order, which makes every traversal order deterministic
//! (ascending node identifier) and bounds the number of distinct nodes.

use vstd::prelude::*;

verus! {

/// A sequence sorted in strictly increasing order (no duplicates).
pub open spec fn strictly_increasing(s: Seq<u32>) -> bool {
    forall|i: int, j: int| 0 <= i < j < s.len() ==> s[i] < s[j]
}

/// Sum of the lengths of a sequence of sequences.
pub open spec fn seq_len_sum(s: Seq<Seq<u32>>) -> int
    decreases s.len(),
{
    if s.len() == 0 {
        0
    } else {
        seq_len_sum(s.drop_last()) + s.last().len()
    }
}

/// The neighbor set of `n` in the adjacency map `m`; empty when `n` is absent.
pub open spec fn nbrs_of(m: Map<u32, Set<u32>>, n: u32) -> Set<u32> {
    if m.dom().contains(n) {
        m[n]
    } else {
        Set::empty()
    }
}

/// Abstract effect of `Graph::add_edge` on the adjacency map: insert each
/// endpoint into the other's neighbor set, creating absent entries.
pub open spec fn spec_add_edge(m: Map<u32, Set<u32>>, a: u32, b: u32) -> Map<u32, Set<u32>> {
    let m1 = m.insert(a, nbrs_of(m, a).insert(b));
    m1.insert(b, nbrs_of(m1, b).insert(a))
}

/// In a strictly increasing sequence each entry is at least its index.
proof fn lemma_strict_inc_ge_at(s: Seq<u32>, i: int)
    requires
        strictly_increasing(s),
        0 <= i < s.len(),
    ensures
        s[i] as int >= i,
    decreases i,
{
    if i > 0 {
        lemma_strict_inc_ge_at(s, i - 1);
        assert(s[i - 1] < s[i]);
    }
}

/// A strictly increasing sequence of `u32` has at most `2^32` entries.
proof fn lemma_strict_inc_bound(s: Seq<u32>)
    requires
        strictly_increasing(s),
    ensures
        s.len() <= 0x1_0000_0000,
{
    if s.len() > 0x1_0000_0000 {
        lemma_strict_inc_ge_at(s, 0x1_0000_0000);
        assert(s[0x1_0000_0000] <= u32::MAX);
        assert(false);
    }
}

proof fn lemma_sum_nonneg(s: Seq<Seq<u32>>)
    ensures
        seq_len_sum(s) >= 0,
    decreases s.len(),
{
    if s.len() > 0 {
        lemma_sum_nonneg(s.drop_last());
    }
}

/// Inserting a sequence raises the length sum by its length.
proof fn lemma_sum_insert(s: Seq<Seq<u32>>, p: int, v: Seq<u32>)
    requires
        0 <= p <= s.len(),
    ensures
        seq_len_sum(s.insert(p, v)) == seq_len_sum(s) + v.len(),
    decreases s.len(),
{
    let t = s.insert(p, v);
    if p == s.len() {
        assert(t.drop_last() =~= s);
        assert(t.last() == v);
    } else {
        assert(t.drop_last() =~= s.drop_last().insert(p, v));
        assert(t.last() == s.last());
        lemma_sum_insert(s.drop_last(), p, v);
    }
}

/// Replacing one sequence changes the length sum by the difference.
proof fn lemma_sum_update(s: Seq<Seq<u32>>, i: int, v: Seq<u32>)
    requires
        0 <= i < s.len(),
    ensures
        seq_len_sum(s.update(i, v)) == seq_len_sum(s) - s[i].len() + v.len(),
    decreases s.len(),
{
    let t = s.update(i, v);
    if i == s.len() - 1 {
        assert(t.drop_last() =~= s.drop_last());
        assert(t.last() == v);
    } else {
        assert(t.drop_last() =~= s.drop_last().update(i, v));
        assert(t.last() == s.last());
        lemma_sum_update(s.drop_last(), i, v);
    }
}

/// A uniform bound on the list lengths bounds the length sum.
proof fn lemma_sum_le(s: Seq<Seq<u32>>, b: int)
    requires
        b >= 0,
        forall|k: int| 0 <= k < s.len() ==> (#[trigger] s[k]).len() <= b,
    ensures
        seq_len_sum(s) <= s.len() * b,
    decreases s.len(),
{
    if s.len() > 0 {
        lemma_sum_le(s.drop_last(), b);
        assert(s.last().len() <= b);
        assert((s.len() - 1) * b + b == s.len() * b) by (nonlinear_arith);
    }
}

/// Inserting `x` at its sorted position keeps a sequence strictly
/// increasing and adds exactly `x` to the set of members.
proof fn lemma_sorted_insert(s: Seq<u32>, p: int, x: u32)
    requires
        strictly_increasing(s),
        0 <= p <= s.len(),
        forall|j: int| 0 <= j < p ==> s[j] < x,
        forall|j: int| p <= j < s.len() ==> s[j] > x,
    ensures
        strictly_increasing(s.insert(p, x)),
        forall|y: u32| s.insert(p, x).contains(y) <==> s.contains(y) || y == x,
        s.insert(p, x).to_set() == s.to_set().insert(x),
        !s.contains(x),
        s.insert(p, x).contains(x),
{
    let t = s.insert(p, x);
    assert forall|i: int, j: int| 0 <= i < j < t.len() implies t[i] < t[j] by {
        if j < p {
            assert(t[i] == s[i] && t[j] == s[j]);
        } else if j == p {
            assert(t[i] == s[i] && t[j] == x);
        } else if i < p {
            assert(t[i] == s[i] && t[j] == s[j - 1]);
        } else if i == p {
            assert(t[i] == x && t[j] == s[j - 1]);
        } else {
            assert(t[i] == s[i - 1] && t[j] == s[j - 1]);
        }
    }
    assert forall|y: u32| t.contains(y) implies s.contains(y) || y == x by {
        let i = choose|i: int| 0 <= i < t.len() && t[i] == y;
        if i < p {
            assert(s[i] == y);
        } else if i > p {
            assert(s[i - 1] == y);
        }
    }
    assert forall|y: u32| s.contains(y) || y == x implies t.contains(y) by {
        if y == x {
            assert(t[p] == x);
        } else {
            let i = choose|i: int| 0 <= i < s.len() && s[i] == y;
            if i < p {
                assert(t[i] == y);
            } else {
                assert(t[i + 1] == y);
            }
        }
    }
    assert(t.to_set() =~= s.to_set().insert(x));
    assert(t[p] == x);
}

/// Insert `x` into the strictly increasing vector `v`, keeping the order;
/// does nothing when `x` is already present.  Returns whether `x` was new.
fn insert_sorted(v: &mut Vec<u32>, x: u32) -> (inserted: bool)
    requires
        strictly_increasing(old(v)@),
    ensures
        strictly_increasing(final(v)@),
        inserted == !old(v)@.contains(x),
        !inserted ==> final(v)@ == old(v)@,
        inserted ==> final(v)@.len() == old(v)@.len() + 1,
        forall|y: u32| final(v)@.contains(y) <==> old(v)@.contains(y) || y == x,
        final(v)@.to_set() == old(v)@.to_set().insert(x),
        final(v)@.contains(x),
{
    let n = v.len();
    let mut p: usize = 0;
    while p < n && v[p] < x
        invariant
            n == v@.len(),
            p <= n,
            strictly_increasing(v@),
            forall|j: int| 0 <= j < p ==> v@[j] < x,
        decreases n - p,
    {
        p += 1;
    }
    if p < n && v[p] == x {
        proof {
            assert(v@.contains(x));
            assert(v@.to_set() =~= v@.to_set().insert(x));
        }
        return false;
    }
    proof {
        assert forall|j: int| p <= j < v@.len() implies v@[j] > x by {
            if j > p {
                assert(v@[p as int] < v@[j]);
            }
        }
        lemma_sorted_insert(v@, p as int, x);
    }
    v.insert(p, x);
    true
}

/// A walk through the graph: consecutive entries are neighbors.
pub open spec fn is_path(g: Graph, p: Seq<u32>) -> bool {
    &&& p.len() > 0
    &&& forall|i: int| 0 <= i < p.len() - 1 ==> (#[trigger] g.nbrs(p[i])).contains(p[i + 1])
}

/// `b` can be reached from `a` along edges of `g`.
pub open spec fn connected_in(g: Graph, a: u32, b: u32) -> bool {
    exists|p: Seq<u32>| #[trigger] is_path(g, p) && p[0] == a && p.last() == b
}

/// Undirected, unweighted simple graph stored as sorted adjacency lists.
///
/// `nodes` holds the distinct node identifiers in ascending order and
/// `adj[i]` holds the neighbors of `nodes[i]`, also ascending.  `edge_sum`
/// caches the sum of all adjacency-list lengths, so that `edge_count` is a
/// constant-time read.
pub struct Graph {
    nodes: Vec<u32>,
    adj: Vec<Vec<u32>>,
    edge_sum: u128,
}

impl View for Graph {
    type V = Map<u32, Set<u32>>;

    open spec fn view(&self) -> Map<u32, Set<u32>> {
        Map::new(|n: u32| self.has_node(n), |n: u32| self.nbrs(n))
    }
}

impl Graph {
    /// The known nodes, in ascending order.
    pub closed spec fn node_seq(self) -> Seq<u32> {
        self.nodes@
    }

    pub open spec fn has_node(self, n: u32) -> bool {
        self.node_seq().contains(n)
    }

    pub open spec fn node_set(self) -> Set<u32> {
        self.node_seq().to_set()
    }

    /// Index of `n` in `node_seq()`; meaningful only when `has_node(n)`.
    pub closed spec fn idx_of(self, n: u32) -> int {
        choose|i: int| 0 <= i < self.nodes@.len() && self.nodes@[i] == n
    }

    /// The adjacency list of `n`, ascending; empty when `n` is unknown.
    pub closed spec fn adj_list(self, n: u32) -> Seq<u32> {
        if self.has_node(n) {
            self.adj@[self.idx_of(n)]@
        } else {
            Seq::empty()
        }
    }

    /// The neighbor set of `n`; empty when `n` is unknown.
    pub open spec fn nbrs(self, n: u32) -> Set<u32> {
        self.adj_list(n).to_set()
    }

    /// Number of neighbors of `n`.
    pub open spec fn degree(self, n: u32) -> nat {
        self.adj_list(n).len()
    }

    /// Sum of the degrees of the first `i` nodes (in ascending node order).
    pub open spec fn degree_sum_prefix(self, i: int) -> int
        decreases i,
    {
        if i <= 0 {
            0
        } else {
            self.degree_sum_prefix(i - 1) + self.degree(self.node_seq()[i - 1])
        }
    }

    /// Sum of the degrees of all nodes.
    pub open spec fn degree_total(self) -> int {
        self.degree_sum_prefix(self.node_seq().len() as int)
    }

    /// No node has itself as a neighbor.
    pub open spec fn loopless(self) -> bool {
        forall|n: u32| !(#[trigger] self.nbrs(n)).contains(n)
    }

    /// Every neighbor relation holds in both directions.
    pub open spec fn symmetric(self) -> bool {
        forall|a: u32, b: u32| #[trigger] self.nbrs(a).contains(b) ==> self.nbrs(b).contains(a)
    }

    /// Structural part of the invariant: parallel sorted vectors, every
    /// neighbor is a known node, and `edge_sum` equals the sum of all
    /// adjacency-list lengths.
    closed spec fn raw_inv(self) -> bool {
        &&& self.adj@.len() == self.nodes@.len()
        &&& strictly_increasing(self.nodes@)
        &&& (forall|i: int|
            0 <= i < self.adj@.len() ==> strictly_increasing(#[trigger] self.adj@[i]@))
        &&& (forall|i: int, k: int|
            0 <= i < self.adj@.len() && 0 <= k < self.adj@[i]@.len() ==> self.nodes@.contains(
                #[trigger] self.adj@[i]@[k],
            ))
        &&& self.edge_sum == seq_len_sum(self.adj@.map_values(|v: Vec<u32>| v@))
    }

    /// Well-formedness: structure, symmetry, and the handshake parity
    /// (without self-loops the degree sum is even).
    pub closed spec fn wf(self) -> bool {
        &&& self.raw_inv()
        &&& self.symmetric()
        &&& (self.loopless() ==> self.edge_sum % 2 == 0)
    }

    /// Creates a new empty graph.
    pub fn new() -> (g: Graph)
        ensures
            g.wf(),
            g@ == Map::<u32, Set<u32>>::empty(),
            g.node_seq() == Seq::<u32>::empty(),
            forall|n: u32| #[trigger] g.adj_list(n) == Seq::<u32>::empty(),
    {
        let g = Graph { nodes: Vec::new(), adj: Vec::new(), edge_sum: 0 };
        proof {
            assert(g.adj@.map_values(|v: Vec<u32>| v@) =~= Seq::<Seq<u32>>::empty());
            assert(g@ =~= Map::<u32, Set<u32>>::empty());
        }
        g
    }

    /// Total number of known nodes.
    pub fn node_count(&self) -> (r: usize)
        ensures
            r == self.node_seq().len(),
    {
        self.nodes.len()
    }

    /// The known nodes in ascending order.
    pub fn node_list(&self) -> (r: &Vec<u32>)
        ensures
            r@ == self.node_seq(),
    {
        &self.nodes
    }

    /// Index of `node` in the ascending node order, if it is known.
    pub fn index_of_node(&self, node: u32) -> (r: Option<usize>)
        ensures
            match r {
                Some(i) => i < self.node_seq().len() && self.node_seq()[i as int] == node,
                None => !self.has_node(node),
            },
    {
        let n = self.nodes.len();
        let mut i: usize = 0;
        while i < n
            invariant
                n == self.nodes@.len(),
                i <= n,
                forall|j: int| 0 <= j < i ==> self.nodes@[j] != node,
            decreases n - i,
        {
            if self.nodes[i] == node {
                return Some(i);
            }
            i += 1;
        }
        None
    }

    /// `idx_of` picks the unique position of a known node.
    proof fn lemma_idx_of_raw(self, n: u32)
        requires
            strictly_increasing(self.nodes@),
            self.nodes@.contains(n),
        ensures
            0 <= self.idx_of(n) < self.nodes@.len(),
            self.nodes@[self.idx_of(n)] == n,
            forall|i: int|
                0 <= i < self.nodes@.len() && self.nodes@[i] == n ==> i == self.idx_of(n),
    {
        assert(0 <= self.idx_of(n) < self.nodes@.len() && self.nodes@[self.idx_of(n)] == n);
        assert forall|i: int|
            0 <= i < self.nodes@.len() && self.nodes@[i] == n implies i == self.idx_of(n) by {
            let j = self.idx_of(n);
            if i < j {
                assert(self.nodes@[i] < self.nodes@[j]);
            } else if j < i {
                assert(self.nodes@[j] < self.nodes@[i]);
            }
        }
    }

    /// Position of a known node in the ascending node order, and its uniqueness.
    pub proof fn lemma_idx_of(self, n: u32)
        requires
            self.wf(),
            self.has_node(n),
        ensures
            0 <= self.idx_of(n) < self.node_seq().len(),
            self.node_seq()[self.idx_of(n)] == n,
            forall|i: int|
                0 <= i < self.node_seq().len() && self.node_seq()[i] == n ==> i == self.idx_of(n),
    {
        self.lemma_idx_of_raw(n);
    }

    /// The degree prefix sum agrees with the stored adjacency lengths.
    proof fn lemma_prefix_sum(self, i: int)
        requires
            self.raw_inv(),
            0 <= i <= self.nodes@.len(),
        ensures
            self.degree_sum_prefix(i) == seq_len_sum(
                self.adj@.map_values(|v: Vec<u32>| v@).take(i),
            ),
        decreases i,
    {
        let m = self.adj@.map_values(|v: Vec<u32>| v@);
        if i > 0 {
            self.lemma_prefix_sum(i - 1);
            assert(self.nodes@.contains(self.nodes@[i - 1]));
            self.lemma_idx_of_raw(self.nodes@[i - 1]);
            assert(self.idx_of(self.nodes@[i - 1]) == i - 1);
            assert(m.take(i).drop_last() =~= m.take(i - 1));
            assert(m.take(i).last() == m[i - 1]);
            assert(self.degree(self.node_seq()[i - 1]) == m[i - 1].len());
        } else {
            assert(m.take(0) =~= Seq::<Seq<u32>>::empty());
        }
    }

    /// The cached `edge_sum` equals the total degree sum.
    proof fn lemma_edge_sum_is_degree_total(self)
        requires
            self.raw_inv(),
        ensures
            self.edge_sum == self.degree_total(),
    {
        let m = self.adj@.map_values(|v: Vec<u32>| v@);
        self.lemma_prefix_sum(self.nodes@.len() as int);
        assert(m.take(self.nodes@.len() as int) =~= m);
    }

    /// The degree sum never exceeds `2^64`.
    proof fn lemma_edge_sum_bound(self)
        requires
            self.raw_inv(),
        ensures
            0 <= self.edge_sum <= 0x1_0000_0000_0000_0000,
    {
        let m = self.adj@.map_values(|v: Vec<u32>| v@);
        lemma_strict_inc_bound(self.nodes@);
        assert forall|k: int| 0 <= k < m.len() implies (#[trigger] m[k]).len() <= 0x1_0000_0000 by {
            lemma_strict_inc_bound(self.adj@[k]@);
        }
        lemma_sum_le(m, 0x1_0000_0000);
        lemma_sum_nonneg(m);
        assert(m.len() * 0x1_0000_0000 <= 0x1_0000_0000 * 0x1_0000_0000) by (nonlinear_arith)
            requires m.len() <= 0x1_0000_0000;
    }

    /// Consequences of well-formedness that the analyzers rely on.
    pub proof fn lemma_wf_facts(self)
        requires
            self.wf(),
        ensures
            strictly_increasing(self.node_seq()),
            self.node_seq().no_duplicates(),
            self.node_seq().len() <= 0x1_0000_0000,
            forall|n: u32| strictly_increasing(#[trigger] self.adj_list(n)),
            forall|n: u32| (#[trigger] self.adj_list(n)).no_duplicates(),
            forall|n: u32| (#[trigger] self.adj_list(n)).len() <= 0x1_0000_0000,
            forall|n: u32, k: int|
                0 <= k < self.adj_list(n).len() ==> self.has_node(#[trigger] self.adj_list(n)[k]),
            forall|a: u32, b: u32|
                #[trigger] self.nbrs(a).contains(b) ==> self.nbrs(b).contains(a),
            forall|n: u32| (#[trigger] self.nbrs(n)).len() == self.degree(n),
            self.node_set().len() == self.node_seq().len(),
            forall|n: u32|
                !self.has_node(n) ==> #[trigger] self.adj_list(n) == Seq::<u32>::empty(),
    {
        lemma_strict_inc_bound(self.nodes@);
        assert forall|n: u32| strictly_increasing(#[trigger] self.adj_list(n)) by {
            if self.has_node(n) {
                self.lemma_idx_of_raw(n);
            }
        }
        assert forall|n: u32| (#[trigger] self.adj_list(n)).no_duplicates() by {
            let l = self.adj_list(n);
            assert(strictly_increasing(l));
            assert forall|i: int, j: int|
                0 <= i < l.len() && 0 <= j < l.len() && i != j implies l[i] != l[j] by {
                if i < j {
                    assert(l[i] < l[j]);
                } else {
                    assert(l[j] < l[i]);
                }
            }
        }
        assert forall|n: u32| (#[trigger] self.adj_list(n)).len() <= 0x1_0000_0000 by {
            lemma_strict_inc_bound(self.adj_list(n));
        }
        assert forall|n: u32, k: int|
            0 <= k < self.adj_list(n).len() implies self.has_node(
            #[trigger] self.adj_list(n)[k],
        ) by {
            if self.has_node(n) {
                self.lemma_idx_of_raw(n);
            }
        }
        assert(strictly_increasing(self.node_seq()));
        assert forall|i: int, j: int|
            0 <= i < self.node_seq().len() && 0 <= j < self.node_seq().len() && i != j implies
            self.node_seq()[i] != self.node_seq()[j] by {
            if i < j {
                assert(self.node_seq()[i] < self.node_seq()[j]);
            } else {
                assert(self.node_seq()[j] < self.node_seq()[i]);
            }
        }
        assert forall|n: u32| (#[trigger] self.nbrs(n)).len() == self.degree(n) by {
            self.adj_list(n).unique_seq_to_set();
        }
        self.node_seq().unique_seq_to_set();
    }

    /// Total number of undirected edges: half the sum of all neighbor-set
    /// sizes (a self-loop contributes one to the sum, so it is not counted
    /// as a full edge).
    pub fn edge_count(&self) -> (r: usize)
        requires
            self.wf(),
            // machine limit: the count must be representable in usize
            self.degree_total() / 2 <= usize::MAX,
        ensures
            r == self.degree_total() / 2,
    {
        proof {
            self.lemma_edge_sum_is_degree_total();
            self.lemma_edge_sum_bound();
        }
        (self.edge_sum / 2) as usize
    }

    /// The adjacency list of the node at position `i` of the ascending order.
    pub fn neighbors_at(&self, i: usize) -> (r: &Vec<u32>)
        requires
            self.wf(),
            i < self.node_seq().len(),
        ensures
            r@ == self.adj_list(self.node_seq()[i as int]),
    {
        proof {
            assert(self.nodes@.contains(self.nodes@[i as int]));
            self.lemma_idx_of_raw(self.nodes@[i as int]);
        }
        &self.adj[i]
    }

    /// The neighbors of `node` in ascending order; empty for an unknown node.
    pub fn neighbors(&self, node: u32) -> (r: Vec<u32>)
        requires
            self.wf(),
        ensures
            r@ == self.adj_list(node),
    {
        match self.index_of_node(node) {
            Some(i) => {
                proof {
                    self.lemma_idx_of_raw(node);
                }
                let mut out: Vec<u32> = Vec::new();
                let list = &self.adj[i];
                let n = list.len();
                let mut k: usize = 0;
                while k < n
                    invariant
                        n == list@.len(),
                        k <= n,
                        out@ == list@.take(k as int),
                    decreases n - k,
                {
                    out.push(list[k]);
                    proof {
                        assert(out@ =~= list@.take(k as int + 1));
                    }
                    k += 1;
                }
                proof {
                    assert(list@.take(n as int) =~= list@);
                }
                out
            },
            None => {
                proof {
                    assert(self.adj_list(node) =~= Seq::<u32>::empty());
                }
                Vec::new()
            },
        }
    }

    /// Make `n` a known node, with an empty neighbor list when it is new.
    /// The adjacency of every node (including `n`) is unchanged.
    fn ensure_node(&mut self, n: u32)
        requires
            old(self).wf(),
        ensures
            final(self).wf(),
            final(self).edge_sum == old(self).edge_sum,
            forall|m: u32| final(self).adj_list(m) == old(self).adj_list(m),
            forall|m: u32|
                final(self).has_node(m) == (old(self).has_node(m) || m == n),
            final(self).has_node(n),
    {
        let len = self.nodes.len();
        let mut p: usize = 0;
        while p < len && self.nodes[p] < n
            invariant
                len == self.nodes@.len(),
                p <= len,
                strictly_increasing(self.nodes@),
                forall|j: int| 0 <= j < p ==> self.nodes@[j] < n,
            decreases len - p,
        {
            p += 1;
        }
        if p < len && self.nodes[p] == n {
            proof {
                assert(self.nodes@.contains(n));
            }
            return;
        }
        proof {
            assert forall|j: int| p <= j < self.nodes@.len() implies self.nodes@[j] > n by {
                if j > p {
                    assert(self.nodes@[p as int] < self.nodes@[j]);
                }
            }
            lemma_sorted_insert(self.nodes@, p as int, n);
        }
        let ghost g0 = *self;
        self.nodes.insert(p, n);
        let fresh: Vec<u32> = Vec::new();
        self.adj.insert(p, fresh);
        proof {
            let g1 = *self;
            let m0 = g0.adj@.map_values(|v: Vec<u32>| v@);
            let m1 = g1.adj@.map_values(|v: Vec<u32>| v@);
            assert(m1 =~= m0.insert(p as int, Seq::<u32>::empty()));
            lemma_sum_insert(m0, p as int, Seq::<u32>::empty());
            // every adjacency list is untouched (indices shift around p)
            assert forall|i: int, k: int|
                0 <= i < g1.adj@.len() && 0 <= k < g1.adj@[i]@.len() implies g1.nodes@.contains(
                #[trigger] g1.adj@[i]@[k],
            ) by {
                if i < p {
                    assert(g1.adj@[i]@ == g0.adj@[i]@);
                } else if i > p {
                    assert(g1.adj@[i]@ == g0.adj@[i - 1]@);
                }
            }
            assert forall|i: int|
                0 <= i < g1.adj@.len() implies strictly_increasing(#[trigger] g1.adj@[i]@) by {
                if i < p {
                    assert(g1.adj@[i]@ == g0.adj@[i]@);
                } else if i > p {
                    assert(g1.adj@[i]@ == g0.adj@[i - 1]@);
                }
            }
            assert(g1.raw_inv());
            assert forall|m: u32| g1.adj_list(m) == g0.adj_list(m) by {
                if g0.has_node(m) {
                    g0.lemma_idx_of_raw(m);
                    let i = g0.idx_of(m);
                    let j: int = if i >= p { i + 1 } else { i };
                    assert(g1.nodes@[j] == m);
                    assert(g1.nodes@.contains(m));
                    g1.lemma_idx_of_raw(m);
                    assert(g1.idx_of(m) == j);
                    assert(g1.adj@[j]@ == g0.adj@[i]@);
                } else if m == n {
                    assert(g1.nodes@[p as int] == n);
                    assert(g1.nodes@.contains(n));
                    g1.lemma_idx_of_raw(n);
                    assert(g1.idx_of(n) == p as int);
                    assert(g1.adj@[p as int]@ =~= Seq::<u32>::empty());
                    assert(g0.adj_list(m) =~= Seq::<u32>::empty());
                } else {
                    assert(!g1.nodes@.contains(m));
                }
            }
            assert forall|a: u32, b: u32|
                #[trigger] g1.nbrs(a).contains(b) implies g1.nbrs(b).contains(a) by {
                assert(g0.nbrs(a).contains(b));
            }
            assert(g1.loopless() ==> g0.loopless()) by {
                if g1.loopless() {
                    assert forall|m: u32| !(#[trigger] g0.nbrs(m)).contains(m) by {
                        assert(g1.nbrs(m) == g0.nbrs(m));
                    }
                }
            }
            assert(g1.wf());
        }
    }

    /// Insert `b` into the adjacency list of the known node `a`,
    /// keeping the list sorted; a no-op when `b` is already a neighbor.
    fn insert_neighbor(&mut self, a: u32, b: u32)
        requires
            old(self).raw_inv(),
            old(self).has_node(a),
            old(self).has_node(b),
        ensures
            final(self).raw_inv(),
            final(self).node_seq() == old(self).node_seq(),
            forall|m: u32| m != a ==> final(self).adj_list(m) == old(self).adj_list(m),
            final(self).adj_list(a).to_set() == old(self).adj_list(a).to_set().insert(b),
            final(self).adj_list(a).contains(b),
            old(self).adj_list(a).contains(b) ==> final(self).edge_sum == old(self).edge_sum
                && final(self).adj_list(a) == old(self).adj_list(a),
            !old(self).adj_list(a).contains(b) ==> final(self).edge_sum == old(self).edge_sum
                + 1,
    {
        proof {
            self.lemma_idx_of_raw(a);
        }
        let iopt = self.index_of_node(a);
        let i: usize;
        match iopt {
            Some(j) => {
                i = j;
            },
            None => {
                proof {
                    assert(false);
                }
                i = 0;
            },
        }
        proof {
            assert(self.idx_of(a) == i as int);
            assert(self.adj_list(a) == self.adj@[i as int]@);
        }
        let ghost g0 = *self;
        let ins = insert_sorted(&mut self.adj[i], b);
        if ins {
            proof {
                g0.lemma_edge_sum_bound();
            }
            self.edge_sum = self.edge_sum + 1;
        }
        proof {
            let g1 = *self;
            let newl = g1.adj@[i as int]@;
            assert(g1.adj@ == g0.adj@.update(i as int, g1.adj@[i as int]));
            let m0 = g0.adj@.map_values(|v: Vec<u32>| v@);
            let m1 = g1.adj@.map_values(|v: Vec<u32>| v@);
            assert(m1 =~= m0.update(i as int, newl));
            lemma_sum_update(m0, i as int, newl);
            assert forall|ii: int, k: int|
                0 <= ii < g1.adj@.len() && 0 <= k < g1.adj@[ii]@.len() implies g1.nodes@.contains(
                #[trigger] g1.adj@[ii]@[k],
            ) by {
                if ii == i as int {
                    assert(newl.contains(newl[k]));
                    assert(g0.adj@[ii]@.contains(newl[k]) || newl[k] == b);
                } else {
                    assert(g1.adj@[ii]@ == g0.adj@[ii]@);
                }
            }
            assert forall|ii: int|
                0 <= ii < g1.adj@.len() implies strictly_increasing(#[trigger] g1.adj@[ii]@) by {
                if ii != i as int {
                    assert(g1.adj@[ii]@ == g0.adj@[ii]@);
                }
            }
            assert(g1.raw_inv());
            assert forall|m: u32| m != a implies g1.adj_list(m) == g0.adj_list(m) by {
                if g0.has_node(m) {
                    g0.lemma_idx_of_raw(m);
                    g1.lemma_idx_of_raw(m);
                    assert(g1.idx_of(m) == g0.idx_of(m));
                    assert(g0.idx_of(m) != i as int);
                }
            }
            g1.lemma_idx_of_raw(a);
            assert(g1.idx_of(a) == i as int);
            assert(g1.adj_list(a) == newl);
        }
    }

    /// Add an undirected edge between `node1` and `node2`, creating either
    /// node's entry if absent.  Idempotent under repeated identical calls;
    /// `node1 == node2` records the node as its own neighbor (a self-loop).
    pub fn add_edge(&mut self, node1: u32, node2: u32)
        requires
            old(self).wf(),
        ensures
            final(self).wf(),
            final(self)@ == spec_add_edge(old(self)@, node1, node2),
            forall|m: u32|
                m != node1 && m != node2 ==> final(self).nbrs(m) == old(self).nbrs(m),
            node1 != node2 ==> final(self).nbrs(node1) == old(self).nbrs(node1).insert(node2),
            node1 != node2 ==> final(self).nbrs(node2) == old(self).nbrs(node2).insert(node1),
            node1 == node2 ==> final(self).nbrs(node1) == old(self).nbrs(node1).insert(node1),
            forall|m: u32|
                final(self).has_node(m) == (old(self).has_node(m) || m == node1 || m
                    == node2),
    {
        let ghost g0 = *self;
        self.ensure_node(node1);
        self.ensure_node(node2);
        let ghost g2 = *self;
        self.insert_neighbor(node1, node2);
        let ghost g3 = *self;
        self.insert_neighbor(node2, node1);
        proof {
            let g4 = *self;
            // neighbor sets pointwise
            assert forall|m: u32|
                m != node1 && m != node2 implies g4.nbrs(m) == g0.nbrs(m) by {
                assert(g4.adj_list(m) == g0.adj_list(m));
            }
            if node1 == node2 {
                assert(g4.adj_list(node1).to_set() == g0.nbrs(node1).insert(node2).insert(
                    node1,
                ));
                assert(g0.nbrs(node1).insert(node1).insert(node1) =~= g0.nbrs(node1).insert(
                    node1,
                ));
                assert(g4.nbrs(node1) == g0.nbrs(node1).insert(node1));
            } else {
                assert(g3.adj_list(node1) == g4.adj_list(node1));
                assert(g4.nbrs(node1) == g0.nbrs(node1).insert(node2));
                assert(g3.adj_list(node2) == g2.adj_list(node2));
                assert(g4.nbrs(node2) == g0.nbrs(node2).insert(node1));
            }
            // symmetry
            assert forall|x: u32, y: u32|
                #[trigger] g4.nbrs(x).contains(y) implies g4.nbrs(y).contains(x) by {
                if x == node1 && y == node2 {
                    assert(g4.nbrs(node2).contains(node1));
                } else if x == node2 && y == node1 {
                    assert(g4.nbrs(node1).contains(node2));
                } else if x == node1 || x == node2 {
                    // y is an old neighbor of x
                    assert(g0.nbrs(x).contains(y));
                    assert(g0.nbrs(y).contains(x));
                    assert(g4.nbrs(y).contains(x));
                } else {
                    assert(g0.nbrs(x).contains(y));
                    assert(g0.nbrs(y).contains(x));
                    assert(g4.nbrs(y).contains(x));
                }
            }
            // handshake parity
            if node1 == node2 {
                assert(g4.nbrs(node1).contains(node1));
                assert(!g4.loopless());
            } else if g0.adj_list(node1).contains(node2) {
                assert(g0.nbrs(node1).contains(node2));
                assert(g0.nbrs(node2).contains(node1));
                assert(g2.adj_list(node2).contains(node1));
                assert(g4.edge_sum == g0.edge_sum);
                assert forall|m: u32| g4.nbrs(m) == g0.nbrs(m) by {
                    if m == node1 {
                        assert(g4.nbrs(node1) =~= g0.nbrs(node1));
                    } else if m == node2 {
                        assert(g4.nbrs(node2) =~= g0.nbrs(node2));
                    }
                }
                if g4.loopless() {
                    assert forall|m: u32| !(#[trigger] g0.nbrs(m)).contains(m) by {
                        assert(g4.nbrs(m) == g0.nbrs(m));
                    }
                    assert(g0.loopless());
                }
            } else {
                // a genuinely new edge between distinct nodes: sum rises by 2
                assert(!g0.nbrs(node1).contains(node2));
                assert(!g2.adj_list(node2).contains(node1)) by {
                    if g0.nbrs(node2).contains(node1) {
                        assert(g0.nbrs(node1).contains(node2));
                    }
                }
                assert(g4.edge_sum == g0.edge_sum + 2);
                if g4.loopless() {
                    assert forall|m: u32| !(#[trigger] g0.nbrs(m)).contains(m) by {
                        assert(!g4.nbrs(m).contains(m));
                        assert(g0.nbrs(m).subset_of(g4.nbrs(m))) by {
                            assert forall|y: u32|
                                g0.nbrs(m).contains(y) implies g4.nbrs(m).contains(y) by {
                                if m == node1 || m == node2 {
                                } else {
                                    assert(g4.nbrs(m) == g0.nbrs(m));
                                }
                            }
                        }
                    }
                    assert(g0.loopless());
                }
            }
            assert(g4.wf());
            // the abstract map evolves exactly as `spec_add_edge` says
            let mm = spec_add_edge(g0@, node1, node2);
            assert forall|n: u32| g0.nbrs(n) == nbrs_of(g0@, n) by {
                if g0.has_node(n) {
                    assert(g0@.dom().contains(n));
                    assert(g0@[n] == g0.nbrs(n));
                } else {
                    assert(!g0@.dom().contains(n));
                    assert(g0.adj_list(n) =~= Seq::<u32>::empty());
                    assert(g0.nbrs(n) =~= Set::<u32>::empty());
                }
            }
            assert(g4@ =~~= mm) by {
                assert forall|n: u32| g4@.dom().contains(n) <==> mm.dom().contains(n) by {
                    assert(mm.dom() =~= g0@.dom().insert(node1).insert(node2));
                }
                assert forall|n: u32| g4@.dom().contains(n) implies g4@[n] =~= mm[n] by {
                    let m1 = g0@.insert(node1, nbrs_of(g0@, node1).insert(node2));
                    if n == node2 {
                        assert(mm[n] == nbrs_of(m1, node2).insert(node1));
                        if node1 == node2 {
                            assert(nbrs_of(m1, node2) == g0.nbrs(node1).insert(node2));
                            assert(g4.nbrs(n) =~= mm[n]);
                        } else {
                            assert(nbrs_of(m1, node2) == nbrs_of(g0@, node2));
                            assert(g4.nbrs(n) =~= mm[n]);
                        }
                    } else if n == node1 {
                        assert(mm[n] == m1[node1]);
                        assert(g4.nbrs(n) =~= mm[n]);
                    } else {
                        assert(mm[n] == nbrs_of(g0@, n));
                        assert(g4.nbrs(n) == g0.nbrs(n));
                    }
                }
            }
            assert(g4@ == mm);
        }
    }
}

/// Law: in a graph without self-loops every edge contributes to the degree
/// of both endpoints, so the degree sum is even and `edge_count` reports
/// exactly half of it.
pub proof fn lemma_degree_sum_even(g: Graph)
    requires
        g.wf(),
        g.loopless(),
    ensures
        g.degree_total() % 2 == 0,
        2 * (g.degree_total() / 2) == g.degree_total(),
{
    g.lemma_edge_sum_is_degree_total();
}

/// Law: adding the same edge twice leaves the adjacency map exactly as
/// after adding it once.
pub proof fn lemma_add_edge_idempotent(m: Map<u32, Set<u32>>, a: u32, b: u32)
    ensures
        spec_add_edge(spec_add_edge(m, a, b), a, b) == spec_add_edge(m, a, b),
{
    let m2 = spec_add_edge(m, a, b);
    let mm = spec_add_edge(m2, a, b);
    assert(mm =~~= m2) by {
        let m1 = m.insert(a, nbrs_of(m, a).insert(b));
        let n1 = m2.insert(a, nbrs_of(m2, a).insert(b));
        if a == b {
            assert(nbrs_of(m2, a) == nbrs_of(m, a).insert(b).insert(a));
            assert(nbrs_of(m2, a).insert(b) =~= nbrs_of(m2, a));
            assert(nbrs_of(n1, b).insert(a) =~= nbrs_of(m2, a));
        } else {
            assert(nbrs_of(m2, a) == nbrs_of(m, a).insert(b));
            assert(nbrs_of(m2, a).insert(b) =~= nbrs_of(m2, a));
            assert(nbrs_of(n1, b) == nbrs_of(m2, b));
            assert(nbrs_of(m2, b) == nbrs_of(m1, b).insert(a));
            assert(nbrs_of(m2, b).insert(a) =~= nbrs_of(m2, b));
        }
    }
}

} // verus!
