//! Dependency graphs keyed by ID: cycle detection and reachability.

use vstd::prelude::*;
use crate::text::{seq_less, str_eq, str_less};

verus! {

/// Some element of `v` has the text `b`.
pub open spec fn names_contain(v: Seq<String>, b: Seq<char>) -> bool {
    exists|y: int| 0 <= y < v.len() && (#[trigger] v[y])@ == b
}

/// A directed graph over IDs: `nodes[i]` has the ordered out-edges `edges[i]`.
/// Nodes are distinct and kept in ascending string order.
pub struct Graph {
    pub nodes: Vec<String>,
    pub edges: Vec<Vec<String>>,
}

impl Graph {
    pub open spec fn wf(&self) -> bool {
        &&& self.nodes@.len() == self.edges@.len()
        &&& forall|i: int, j: int| 0 <= i < j < self.nodes@.len() ==> self.nodes@[i]@ != self.nodes@[j]@
        &&& forall|i: int, j: int| 0 <= i < j < self.nodes@.len() ==> seq_less(#[trigger] self.nodes@[i]@, #[trigger] self.nodes@[j]@)
    }

    /// `a` is a node of the graph.
    pub open spec fn has_node(&self, a: Seq<char>) -> bool {
        exists|i: int| 0 <= i < self.nodes@.len() && (#[trigger] self.nodes@[i])@ == a
    }

    /// The graph has an edge from `a` to `b`.
    pub open spec fn has_edge(&self, a: Seq<char>, b: Seq<char>) -> bool {
        exists|i: int, j: int| 0 <= i < self.nodes@.len() && 0 <= j < self.edges@[i]@.len()
            && (#[trigger] self.nodes@[i])@ == a && (#[trigger] self.edges@[i]@[j])@ == b
    }

    /// `w` follows edges of the graph from its first to its last element.
    pub open spec fn is_walk(&self, w: Seq<Seq<char>>) -> bool {
        &&& w.len() >= 1
        &&& forall|k: int| 0 <= k < w.len() - 1 ==> self.has_edge(#[trigger] w[k], w[k + 1])
    }

    /// A closed walk that starts and ends at its least node, visiting every other node once:
    /// the shape in which cycles are reported.
    pub open spec fn is_reported_cycle(&self, c: Seq<Seq<char>>) -> bool {
        &&& c.len() >= 2
        &&& self.is_walk(c)
        &&& c[0] == c[c.len() - 1]
        &&& forall|k: int| 0 <= k < c.len() - 1 ==> !seq_less(#[trigger] c[k], c[0])
        &&& forall|i: int, j: int| 0 <= i < j < c.len() - 1 ==> #[trigger] c[i] != #[trigger] c[j]
    }

    /// Some walk of at least one edge comes back to where it started.
    pub open spec fn has_cycle(&self) -> bool {
        exists|w: Seq<Seq<char>>| #[trigger] self.is_walk(w) && w.len() >= 2 && w[0] == w[w.len() - 1]
    }

    /// An empty graph.
    pub fn new() -> (g: Graph)
        ensures
            g.wf(),
            g.nodes@.len() == 0,
    {
        Graph { nodes: Vec::new(), edges: Vec::new() }
    }

    /// The index of node `a`.
    pub fn index_of(&self, a: &String) -> (r: Option<usize>)
        requires
            self.wf(),
        ensures
            match r {
                Some(i) => i < self.nodes@.len() && self.nodes@[i as int]@ == a@,
                None => !self.has_node(a@),
            },
    {
        let mut i: usize = 0;
        while i < self.nodes.len()
            invariant
                0 <= i <= self.nodes@.len(),
                forall|k: int| 0 <= k < i ==> (#[trigger] self.nodes@[k])@ != a@,
            decreases self.nodes@.len() - i,
        {
            if self.nodes[i] == *a {
                return Some(i);
            }
            i += 1;
        }
        None
    }

    /// Sets the out-edges of `key`, adding it in string order when new (`BTreeMap` insert:
    /// a later entry for the same key replaces the earlier one).
    pub fn insert(&mut self, key: String, deps: Vec<String>)
        requires
            old(self).wf(),
        ensures
            final(self).wf(),
            final(self).has_node(key@),
            forall|a: Seq<char>| old(self).has_node(a) ==> final(self).has_node(a),
            forall|a: Seq<char>| #[trigger] final(self).has_node(a) ==> old(self).has_node(a) || a == key@,
            forall|b: Seq<char>| final(self).has_edge(key@, b) <==> names_contain(deps@, b),
            forall|a: Seq<char>, b: Seq<char>| a != key@ ==> (final(self).has_edge(a, b) <==> old(self).has_edge(a, b)),
    {
        match self.index_of(&key) {
            Some(i) => {
                let ghost before = *self;
                self.edges.set(i, deps);
                proof {
                    assert forall|b: Seq<char>| self.has_edge(key@, b) <==> names_contain(deps@, b) by {
                        if self.has_edge(key@, b) {
                            let (x, y) = choose|x: int, y: int| 0 <= x < self.nodes@.len() && 0 <= y < self.edges@[x]@.len()
                                && (#[trigger] self.nodes@[x])@ == key@ && (#[trigger] self.edges@[x]@[y])@ == b;
                            assert(x == i);
                            assert(deps@[y]@ == b);
                        }
                        if names_contain(deps@, b) {
                            let y = choose|y: int| 0 <= y < deps@.len() && (#[trigger] deps@[y])@ == b;
                            assert(self.nodes@[i as int]@ == key@ && self.edges@[i as int]@[y]@ == b);
                        }
                    }
                    assert forall|a: Seq<char>, b: Seq<char>| a != key@ implies (self.has_edge(a, b) <==> before.has_edge(a, b)) by {
                        if self.has_edge(a, b) {
                            let (x, y) = choose|x: int, y: int| 0 <= x < self.nodes@.len() && 0 <= y < self.edges@[x]@.len()
                                && (#[trigger] self.nodes@[x])@ == a && (#[trigger] self.edges@[x]@[y])@ == b;
                            assert(x != i);
                            assert(before.nodes@[x]@ == a && before.edges@[x]@[y]@ == b);
                        }
                        if before.has_edge(a, b) {
                            let (x, y) = choose|x: int, y: int| 0 <= x < before.nodes@.len() && 0 <= y < before.edges@[x]@.len()
                                && (#[trigger] before.nodes@[x])@ == a && (#[trigger] before.edges@[x]@[y])@ == b;
                            assert(x != i);
                            assert(self.nodes@[x]@ == a && self.edges@[x]@[y]@ == b);
                        }
                    }
                    assert(self.nodes@[i as int]@ == key@);
                    assert forall|a: Seq<char>| before.has_node(a) implies self.has_node(a) by {
                        let x = choose|x: int| 0 <= x < before.nodes@.len() && (#[trigger] before.nodes@[x])@ == a;
                        assert(self.nodes@[x]@ == a);
                    }
                }
            },
            None => {
                let mut pos: usize = 0;
                while pos < self.nodes.len() && str_less(self.nodes[pos].as_str(), key.as_str())
                    invariant
                        0 <= pos <= self.nodes@.len(),
                        forall|q: int| 0 <= q < pos ==> seq_less(#[trigger] self.nodes@[q]@, key@),
                    decreases self.nodes@.len() - pos,
                {
                    pos += 1;
                }
                proof {
                    if pos < self.nodes@.len() {
                        assert(!seq_less(self.nodes@[pos as int]@, key@));
                        assert(self.nodes@[pos as int]@ != key@);
                        crate::text::lemma_seq_less_total(self.nodes@[pos as int]@, key@);
                        assert forall|q: int| pos <= q < self.nodes@.len() implies seq_less(key@, #[trigger] self.nodes@[q]@) by {
                            if q > pos {
                                crate::text::lemma_seq_less_transitive(key@, self.nodes@[pos as int]@, self.nodes@[q]@);
                            }
                        }
                    }
                }
                let ghost before = *self;
                self.nodes.insert(pos, key);
                self.edges.insert(pos, deps);
                proof {
                    let key_v = self.nodes@[pos as int]@;
                    assert forall|x: int, y: int| 0 <= x < y < self.nodes@.len() implies seq_less(#[trigger] self.nodes@[x]@, #[trigger] self.nodes@[y]@) by {
                        if x < pos && y < pos {
                            assert(self.nodes@[x] == before.nodes@[x] && self.nodes@[y] == before.nodes@[y]);
                        } else if x < pos && y == pos {
                            assert(self.nodes@[x] == before.nodes@[x]);
                        } else if x < pos && y > pos {
                            assert(self.nodes@[x] == before.nodes@[x] && self.nodes@[y] == before.nodes@[y - 1]);
                        } else if x == pos {
                            assert(self.nodes@[y] == before.nodes@[y - 1]);
                        } else {
                            assert(self.nodes@[x] == before.nodes@[x - 1] && self.nodes@[y] == before.nodes@[y - 1]);
                        }
                    }
                    assert forall|x: int, y: int| 0 <= x < y < self.nodes@.len() implies self.nodes@[x]@ != self.nodes@[y]@ by {
                        if x < pos && y < pos {
                            assert(self.nodes@[x] == before.nodes@[x] && self.nodes@[y] == before.nodes@[y]);
                        } else if x < pos && y == pos {
                            assert(self.nodes@[x] == before.nodes@[x]);
                        } else if x < pos && y > pos {
                            assert(self.nodes@[x] == before.nodes@[x] && self.nodes@[y] == before.nodes@[y - 1]);
                        } else if x == pos {
                            assert(self.nodes@[y] == before.nodes@[y - 1]);
                        } else {
                            assert(self.nodes@[x] == before.nodes@[x - 1] && self.nodes@[y] == before.nodes@[y - 1]);
                        }
                    }
                    assert forall|b: Seq<char>| self.has_edge(key_v, b) <==> names_contain(deps@, b) by {
                        if self.has_edge(key_v, b) {
                            let (x, y) = choose|x: int, y: int| 0 <= x < self.nodes@.len() && 0 <= y < self.edges@[x]@.len()
                                && (#[trigger] self.nodes@[x])@ == key_v && (#[trigger] self.edges@[x]@[y])@ == b;
                            if x < pos {
                                assert(self.nodes@[x] == before.nodes@[x]);
                            } else if x > pos {
                                assert(self.nodes@[x] == before.nodes@[x - 1]);
                            }
                            assert(x == pos);
                            assert(deps@[y]@ == b);
                        }
                        if names_contain(deps@, b) {
                            let y = choose|y: int| 0 <= y < deps@.len() && (#[trigger] deps@[y])@ == b;
                            assert(self.nodes@[pos as int]@ == key_v && self.edges@[pos as int]@[y]@ == b);
                        }
                    }
                    assert forall|a: Seq<char>, b: Seq<char>| a != key_v implies (self.has_edge(a, b) <==> before.has_edge(a, b)) by {
                        if self.has_edge(a, b) {
                            let (x, y) = choose|x: int, y: int| 0 <= x < self.nodes@.len() && 0 <= y < self.edges@[x]@.len()
                                && (#[trigger] self.nodes@[x])@ == a && (#[trigger] self.edges@[x]@[y])@ == b;
                            if x < pos {
                                assert(before.nodes@[x]@ == a && before.edges@[x]@[y]@ == b);
                            } else {
                                assert(x != pos);
                                assert(before.nodes@[x - 1]@ == a && before.edges@[x - 1]@[y]@ == b);
                            }
                        }
                        if before.has_edge(a, b) {
                            let (x, y) = choose|x: int, y: int| 0 <= x < before.nodes@.len() && 0 <= y < before.edges@[x]@.len()
                                && (#[trigger] before.nodes@[x])@ == a && (#[trigger] before.edges@[x]@[y])@ == b;
                            if x < pos {
                                assert(self.nodes@[x]@ == a && self.edges@[x]@[y]@ == b);
                            } else {
                                assert(self.nodes@[x + 1]@ == a && self.edges@[x + 1]@[y]@ == b);
                            }
                        }
                    }
                    assert forall|a: Seq<char>| before.has_node(a) implies self.has_node(a) by {
                        let x = choose|x: int| 0 <= x < before.nodes@.len() && (#[trigger] before.nodes@[x])@ == a;
                        if x < pos {
                            assert(self.nodes@[x]@ == a);
                        } else {
                            assert(self.nodes@[x + 1]@ == a);
                        }
                    }
                    assert forall|a: Seq<char>| #[trigger] self.has_node(a) implies before.has_node(a) || a == key_v by {
                        let x = choose|x: int| 0 <= x < self.nodes@.len() && (#[trigger] self.nodes@[x])@ == a;
                        if x < pos {
                            assert(before.nodes@[x]@ == a);
                        } else if x > pos {
                            assert(before.nodes@[x - 1]@ == a);
                        }
                    }
                    assert(self.nodes@[pos as int]@ == key_v);
                }
            },
        }
    }
}

} // verus!

verus! {

/// `adj` lists, for every node index, the indices of its out-neighbours that are nodes.
pub open spec fn adj_ok(g: Graph, adj: Seq<Vec<usize>>) -> bool {
    &&& adj.len() == g.nodes@.len()
    &&& forall|i: int, t: int| 0 <= i < adj.len() && 0 <= t < adj[i]@.len() ==> {
        &&& (#[trigger] adj[i]@[t]) < adj.len()
        &&& g.has_edge(g.nodes@[i]@, g.nodes@[adj[i]@[t] as int]@)
    }
}

pub open spec fn idx_edge(adj: Seq<Vec<usize>>, a: usize, b: usize) -> bool {
    exists|t: int| 0 <= t < adj[a as int]@.len() && adj[a as int]@[t] == b
}

pub open spec fn idx_path(adj: Seq<Vec<usize>>, p: Seq<usize>) -> bool {
    forall|k: int| 0 <= k < p.len() - 1 ==> idx_edge(adj, #[trigger] p[k], p[k + 1])
}

pub open spec fn idx_cycle(adj: Seq<Vec<usize>>, c: Seq<usize>) -> bool {
    &&& c.len() >= 1
    &&& forall|k: int| 0 <= k < c.len() ==> (#[trigger] c[k]) < adj.len()
    &&& idx_path(adj, c)
    &&& idx_edge(adj, c[c.len() - 1], c[0])
}

/// A recorded cycle: a cycle of node indices whose first node has the least name.
pub open spec fn recorded_cycle(g: Graph, adj: Seq<Vec<usize>>, c: Seq<usize>) -> bool {
    &&& idx_cycle(adj, c)
    &&& distinct_idx(c)
    &&& forall|k: int| 0 <= k < c.len() ==> !seq_less(#[trigger] g.nodes@[c[k] as int]@, g.nodes@[c[0] as int]@)
}

/// No index occurs twice in `s`.
pub open spec fn distinct_idx(s: Seq<usize>) -> bool {
    forall|i: int, j: int| 0 <= i < j < s.len() ==> #[trigger] s[i] != #[trigger] s[j]
}

/// Number of unvisited entries.
pub open spec fn zeros(s: Seq<u8>) -> nat
    decreases s.len(),
{
    if s.len() == 0 { 0 } else { zeros(s.drop_last()) + if s.last() == 0 { 1nat } else { 0nat } }
}

proof fn lemma_zeros_update(s: Seq<u8>, i: int, v: u8)
    requires
        0 <= i < s.len(),
    ensures
        zeros(s.update(i, v)) + (if s[i] == 0 { 1nat } else { 0nat }) == zeros(s) + (if v == 0 { 1nat } else { 0nat }),
    decreases s.len(),
{
    if i < s.len() - 1 {
        lemma_zeros_update(s.drop_last(), i, v);
        assert(s.update(i, v).drop_last() =~= s.drop_last().update(i, v));
    } else {
        assert(s.update(i, v).drop_last() =~= s.drop_last());
    }
}

proof fn lemma_rotate_cycle(adj: Seq<Vec<usize>>, c: Seq<usize>, m: int)
    requires
        idx_cycle(adj, c),
        0 <= m < c.len(),
    ensures
        idx_cycle(adj, c.subrange(m, c.len() as int) + c.subrange(0, m)),
{
    let r = c.subrange(m, c.len() as int) + c.subrange(0, m);
    let n = c.len();
    assert(r.len() == n);
    assert forall|k: int| 0 <= k < n implies r[k] == c[if k < n - m { k + m } else { k + m - n }] by {
        if k < n - m {
        } else {
        }
    }
    assert forall|k: int| 0 <= k < r.len() - 1 implies idx_edge(adj, #[trigger] r[k], r[k + 1]) by {
        if k + m < n - 1 {
            assert(r[k] == c[k + m] && r[k + 1] == c[k + m + 1]);
        } else if k + m == n - 1 {
            assert(r[k] == c[n - 1] && r[k + 1] == c[0]);
        } else {
            assert(r[k] == c[k + m - n] && r[k + 1] == c[k + m - n + 1]);
        }
    }
    if m == 0 {
        assert(r[n - 1] == c[n - 1] && r[0] == c[0]);
    } else {
        assert(r[n - 1] == c[m - 1] && r[0] == c[m]);
    }
    assert forall|k: int| 0 <= k < r.len() implies (#[trigger] r[k]) < adj.len() by {
        if k < n - m {
            assert(r[k] == c[k + m]);
        } else {
            assert(r[k] == c[k + m - n]);
        }
    }
}

/// Node `x` has been left by the search (neither unvisited nor on the current path).
pub open spec fn done(s: Seq<u8>, x: int) -> bool {
    s[x] != 0 && s[x] != 1
}

/// A closed walk of node indices: at least one step, back to where it started.
pub open spec fn closed_idx_walk(adj: Seq<Vec<usize>>, p: Seq<usize>) -> bool {
    &&& p.len() >= 2
    &&& forall|k: int| 0 <= k < p.len() ==> (#[trigger] p[k]) < adj.len()
    &&& idx_path(adj, p)
    &&& p[0] == p[p.len() - 1]
}

/// Every entry of `adj` is a node index.
pub open spec fn adj_bounded(adj: Seq<Vec<usize>>) -> bool {
    forall|a: int, t: int| 0 <= a < adj.len() && 0 <= t < adj[a]@.len() ==> (#[trigger] adj[a]@[t]) < adj.len()
}

/// Every out-edge of a finished node leads to a finished node.
pub open spec fn closed_done(adj: Seq<Vec<usize>>, s: Seq<u8>) -> bool {
    forall|a: int, t: int| 0 <= a < adj.len() && 0 <= t < adj[a]@.len() && done(s, a)
        ==> done(s, #[trigger] adj[a]@[t] as int)
}

/// What the search knows while it has found no cycle: the finished nodes are closed
/// under edges and no closed walk runs through finished nodes only.
pub open spec fn dfs_inv(adj: Seq<Vec<usize>>, s: Seq<u8>) -> bool {
    &&& s.len() == adj.len()
    &&& closed_done(adj, s)
    &&& forall|p: Seq<usize>| #[trigger] closed_idx_walk(adj, p) ==> exists|k: int| 0 <= k < p.len() && !done(s, #[trigger] p[k] as int)
}

/// The marks on the current path are exactly the nodes on `stack`.
pub open spec fn gray_is_stack(s: Seq<u8>, stack: Seq<usize>) -> bool {
    forall|x: int| 0 <= x < s.len() ==> (s[x] == 1 <==> #[trigger] on_stack(stack, x))
}

/// `x` occurs on `stack`.
pub open spec fn on_stack(stack: Seq<usize>, x: int) -> bool {
    exists|k: int| 0 <= k < stack.len() && stack[k] as int == x
}

/// A walk that starts at a finished node stays among finished nodes.
proof fn lemma_walk_stays_done(adj: Seq<Vec<usize>>, s: Seq<u8>, q: Seq<usize>)
    requires
        closed_done(adj, s),
        q.len() >= 1,
        forall|k: int| 0 <= k < q.len() ==> (#[trigger] q[k]) < adj.len(),
        idx_path(adj, q),
        done(s, q[0] as int),
    ensures
        forall|k: int| 0 <= k < q.len() ==> done(s, #[trigger] q[k] as int),
    decreases q.len(),
{
    if q.len() > 1 {
        let r = q.drop_last();
        assert forall|k: int| 0 <= k < r.len() - 1 implies idx_edge(adj, #[trigger] r[k], r[k + 1]) by {
            assert(r[k] == q[k] && r[k + 1] == q[k + 1]);
        }
        assert forall|k: int| 0 <= k < r.len() implies (#[trigger] r[k]) < adj.len() by {
            assert(r[k] == q[k]);
        }
        lemma_walk_stays_done(adj, s, r);
        let n = q.len();
        assert(idx_edge(adj, q[n - 2], q[n - 1]));
        assert(done(s, r[n - 2] as int));
        let t = choose|t: int| 0 <= t < adj[q[n - 2] as int]@.len() && #[trigger] adj[q[n - 2] as int]@[t] == q[n - 1];
        assert(done(s, adj[q[n - 2] as int]@[t] as int));
        assert forall|k: int| 0 <= k < q.len() implies done(s, #[trigger] q[k] as int) by {
            if k < n - 1 {
                assert(q[k] == r[k]);
            }
        }
    }
}

/// Finishing a node whose successors are all finished keeps the search's knowledge.
proof fn lemma_finish(adj: Seq<Vec<usize>>, s: Seq<u8>, node: usize)
    requires
        dfs_inv(adj, s),
        adj_bounded(adj),
        node < adj.len(),
        !done(s, node as int),
        forall|t: int| 0 <= t < adj[node as int]@.len() ==> done(s, #[trigger] adj[node as int]@[t] as int),
    ensures
        dfs_inv(adj, s.update(node as int, 2)),
{
    let s2 = s.update(node as int, 2);
    assert forall|a: int, t: int| 0 <= a < adj.len() && 0 <= t < adj[a]@.len() && done(s2, a)
        implies done(s2, #[trigger] adj[a]@[t] as int) by {
        if a != node {
            assert(done(s, a));
            assert(done(s, adj[a]@[t] as int));
        } else {
            assert(done(s, adj[a]@[t] as int));
        }
    }
    assert forall|p: Seq<usize>| #[trigger] closed_idx_walk(adj, p) implies exists|k: int| 0 <= k < p.len() && !done(s2, #[trigger] p[k] as int) by {
        if forall|k: int| 0 <= k < p.len() ==> done(s2, #[trigger] p[k] as int) {
            let n = p.len();
            if exists|k: int| 0 <= k < n && p[k] == node {
                let k0 = choose|k: int| 0 <= k < n && p[k] == node;
                let k = if k0 == n - 1 { 0 } else { k0 };
                assert(p[k] == node);
                assert(0 <= k < n - 1);
                let q = p.subrange(k + 1, n as int) + p.subrange(1, k + 1);
                assert(q.len() == n - 1);
                assert forall|j: int| 0 <= j < q.len() implies q[j] == p[if j < n - k - 1 { j + k + 1 } else { j - (n - k - 1) + 1 }] by {
                }
                assert forall|j: int| 0 <= j < q.len() - 1 implies idx_edge(adj, #[trigger] q[j], q[j + 1]) by {
                    if j < n - k - 2 {
                        assert(q[j] == p[j + k + 1] && q[j + 1] == p[j + k + 2]);
                    } else if j == n - k - 2 {
                        assert(q[j] == p[n - 1] && q[j + 1] == p[1]);
                        assert(idx_edge(adj, p[0], p[1]));
                    } else {
                        assert(q[j] == p[j - (n - k - 1) + 1] && q[j + 1] == p[j - (n - k - 1) + 2]);
                    }
                }
                assert forall|j: int| 0 <= j < q.len() implies (#[trigger] q[j]) < adj.len() by {
                    if j < n - k - 1 {
                        assert(q[j] == p[j + k + 1]);
                    } else {
                        assert(q[j] == p[j - (n - k - 1) + 1]);
                    }
                }
                assert(idx_edge(adj, p[k], p[k + 1]));
                let t = choose|t: int| 0 <= t < adj[node as int]@.len() && #[trigger] adj[node as int]@[t] == p[k + 1];
                assert(done(s, adj[node as int]@[t] as int));
                assert(q[0] == p[k + 1]);
                lemma_walk_stays_done(adj, s, q);
                if k == 0 {
                    assert(q[q.len() - 1] == p[n - 1]);
                } else {
                    assert(q[q.len() - 1] == p[k]);
                }
                assert(done(s, q[q.len() - 1] as int));
                assert(false);
            } else {
                assert forall|k: int| 0 <= k < p.len() implies done(s, #[trigger] p[k] as int) by {
                    assert(done(s2, p[k] as int));
                    assert(p[k] != node);
                }
                let w = choose|k: int| 0 <= k < p.len() && !done(s, #[trigger] p[k] as int);
                assert(done(s, p[w] as int));
            }
        }
    }
}

/// Two marks that finish the same nodes carry the same knowledge.
proof fn lemma_same_done(adj: Seq<Vec<usize>>, s: Seq<u8>, s2: Seq<u8>)
    requires
        dfs_inv(adj, s),
        adj_bounded(adj),
        s2.len() == s.len(),
        forall|x: int| 0 <= x < s.len() ==> (done(s, x) <==> #[trigger] done(s2, x)),
    ensures
        dfs_inv(adj, s2),
{
    assert forall|a: int, t: int| 0 <= a < adj.len() && 0 <= t < adj[a]@.len() && done(s2, a)
        implies done(s2, #[trigger] adj[a]@[t] as int) by {
        assert(done(s, a));
        assert(done(s, adj[a]@[t] as int));
    }
    assert forall|p: Seq<usize>| #[trigger] closed_idx_walk(adj, p) implies exists|k: int| 0 <= k < p.len() && !done(s2, #[trigger] p[k] as int) by {
        let k = choose|k: int| 0 <= k < p.len() && !done(s, #[trigger] p[k] as int);
        assert(!done(s2, p[k] as int));
    }
}

/// Entering `node` puts it on the path.
proof fn lemma_gray_push(s: Seq<u8>, stack: Seq<usize>, node: usize)
    requires
        gray_is_stack(s, stack),
        node < s.len(),
        s[node as int] == 0,
    ensures
        gray_is_stack(s.update(node as int, 1), stack.push(node)),
{
    let s2 = s.update(node as int, 1);
    let b = stack.push(node);
    assert forall|x: int| 0 <= x < s2.len() implies (s2[x] == 1 <==> #[trigger] on_stack(b, x)) by {
        if x == node {
            assert(b[b.len() - 1] == node);
        } else {
            if on_stack(b, x) {
                let k = choose|k: int| 0 <= k < b.len() && b[k] as int == x;
                assert(k < stack.len());
                assert(stack[k] == b[k]);
                assert(on_stack(stack, x));
            }
            if on_stack(stack, x) {
                let k = choose|k: int| 0 <= k < stack.len() && stack[k] as int == x;
                assert(b[k] == stack[k]);
            }
        }
    }
}

/// Leaving `node` takes it off the path again.
proof fn lemma_gray_pop(entry: Seq<u8>, s: Seq<u8>, stack: Seq<usize>, node: usize)
    requires
        gray_is_stack(entry, stack),
        node < entry.len(),
        entry[node as int] == 0,
        s.len() == entry.len(),
        gray_is_stack(s, stack.push(node)),
    ensures
        gray_is_stack(s.update(node as int, 2), stack),
{
    let s2 = s.update(node as int, 2);
    let b = stack.push(node);
    assert forall|x: int| 0 <= x < s2.len() implies (s2[x] == 1 <==> #[trigger] on_stack(stack, x)) by {
        if x == node {
            assert(!on_stack(stack, x));
        } else {
            assert(s[x] == 1 <==> on_stack(b, x));
            if on_stack(b, x) {
                let k = choose|k: int| 0 <= k < b.len() && b[k] as int == x;
                assert(k < stack.len());
                assert(stack[k] == b[k]);
                assert(on_stack(stack, x));
            }
            if on_stack(stack, x) {
                let k = choose|k: int| 0 <= k < stack.len() && stack[k] as int == x;
                assert(b[k] == stack[k]);
            }
        }
    }
}

/// A rotation of a list without repeats has none.
proof fn lemma_rotate_distinct(c: Seq<usize>, m: int)
    requires
        distinct_idx(c),
        0 <= m < c.len(),
    ensures
        distinct_idx(c.subrange(m, c.len() as int) + c.subrange(0, m)),
{
    let r = c.subrange(m, c.len() as int) + c.subrange(0, m);
    let n = c.len();
    assert forall|i: int, j: int| 0 <= i < j < r.len() implies #[trigger] r[i] != #[trigger] r[j] by {
        let ci = if i < n - m { i + m } else { i + m - n };
        let cj = if j < n - m { j + m } else { j + m - n };
        assert(r[i] == c[ci] && r[j] == c[cj]);
        if ci < cj { assert(c[ci] != c[cj]); } else { assert(c[cj] != c[ci]); }
    }
}

/// A tail of a list without repeats has none.
proof fn lemma_subrange_distinct(p: Seq<usize>, start: int)
    requires
        distinct_idx(p),
        0 <= start <= p.len(),
    ensures
        distinct_idx(p.subrange(start, p.len() as int)),
{
    let c = p.subrange(start, p.len() as int);
    assert forall|i: int, j: int| 0 <= i < j < c.len() implies #[trigger] c[i] != #[trigger] c[j] by {
        assert(c[i] == p[start + i] && c[j] == p[start + j]);
    }
}

/// Index of the node with the least name among `c` (the first on ties).
fn least_position(g: &Graph, c: &Vec<usize>) -> (m: usize)
    requires
        g.wf(),
        c@.len() >= 1,
        forall|k: int| 0 <= k < c@.len() ==> (#[trigger] c@[k]) < g.nodes@.len(),
    ensures
        m < c@.len(),
        forall|k: int| 0 <= k < c@.len() ==> !seq_less(#[trigger] g.nodes@[c@[k] as int]@, g.nodes@[c@[m as int] as int]@),
{
    let mut best: usize = 0;
    let mut k: usize = 1;
    proof {
        crate::text::lemma_seq_less_irreflexive(g.nodes@[c@[0] as int]@);
    }
    while k < c.len()
        invariant
            1 <= k <= c@.len(),
            best < k,
            forall|j: int| 0 <= j < k ==> !seq_less(#[trigger] g.nodes@[c@[j] as int]@, g.nodes@[c@[best as int] as int]@),
        decreases c@.len() - k,
    {
        if str_less(g.nodes[c[k]].as_str(), g.nodes[c[best]].as_str()) {
            proof {
                let nk = g.nodes@[c@[k as int] as int]@;
                let nb = g.nodes@[c@[best as int] as int]@;
                assert forall|j: int| 0 <= j < k + 1 implies !seq_less(#[trigger] g.nodes@[c@[j] as int]@, nk) by {
                    let nj = g.nodes@[c@[j] as int]@;
                    if j == k {
                        crate::text::lemma_seq_less_irreflexive(nk);
                    } else if seq_less(nj, nk) {
                        crate::text::lemma_seq_less_transitive(nj, nk, nb);
                    }
                }
            }
            best = k;
        }
        k += 1;
    }
    best
}

fn same_indices(a: &Vec<usize>, b: &Vec<usize>) -> (r: bool)
    ensures
        r == (a@ == b@),
{
    if a.len() != b.len() {
        return false;
    }
    let mut i: usize = 0;
    while i < a.len()
        invariant
            a@.len() == b@.len(),
            0 <= i <= a@.len(),
            forall|k: int| 0 <= k < i ==> a@[k] == b@[k],
        decreases a@.len() - i,
    {
        if a[i] != b[i] {
            return false;
        }
        i += 1;
    }
    proof {
        assert(a@ =~= b@);
    }
    true
}

/// `c` rotated to start at position `m`.
fn rotate(c: &Vec<usize>, m: usize) -> (r: Vec<usize>)
    requires
        m < c@.len(),
    ensures
        r@ == c@.subrange(m as int, c@.len() as int) + c@.subrange(0, m as int),
{
    let mut rotated: Vec<usize> = Vec::new();
    let mut i = m;
    while i < c.len()
        invariant
            m <= i <= c@.len(),
            rotated@ == c@.subrange(m as int, i as int),
        decreases c@.len() - i,
    {
        rotated.push(c[i]);
        proof {
            assert(rotated@ =~= c@.subrange(m as int, i + 1));
        }
        i += 1;
    }
    let mut i2: usize = 0;
    while i2 < m
        invariant
            0 <= i2 <= m,
            rotated@ == c@.subrange(m as int, c@.len() as int) + c@.subrange(0, i2 as int),
        decreases m - i2,
    {
        rotated.push(c[i2]);
        proof {
            assert(rotated@ =~= c@.subrange(m as int, c@.len() as int) + c@.subrange(0, i2 + 1));
        }
        i2 += 1;
    }
    rotated
}

/// Records the cycle `path[start..]` closed by the edge from the end of `path` back to
/// `path[start]`, rotated to its least node, unless it is already recorded.
fn close_cycle(g: &Graph, adj: &Vec<Vec<usize>>, path: &Vec<usize>, start: usize, cycles: &mut Vec<Vec<usize>>)
    requires
        g.wf(),
        adj_ok(*g, adj@),
        start < path@.len(),
        idx_path(adj@, path@),
        forall|k: int| 0 <= k < path@.len() ==> (#[trigger] path@[k]) < adj@.len(),
        idx_edge(adj@, path@[path@.len() - 1], path@[start as int]),
        distinct_idx(path@),
        forall|k: int| 0 <= k < old(cycles)@.len() ==> recorded_cycle(*g, adj@, (#[trigger] old(cycles)@[k])@),
    ensures
        forall|k: int| 0 <= k < final(cycles)@.len() ==> recorded_cycle(*g, adj@, (#[trigger] final(cycles)@[k])@),
        final(cycles)@.len() >= old(cycles)@.len(),
        final(cycles)@.len() > 0,
{
    let mut cycle: Vec<usize> = Vec::new();
    let mut k = start;
    while k < path.len()
        invariant
            start <= k <= path@.len(),
            cycle@ == path@.subrange(start as int, k as int),
        decreases path@.len() - k,
    {
        cycle.push(path[k]);
        proof {
            assert(cycle@ =~= path@.subrange(start as int, k + 1));
        }
        k += 1;
    }
    proof {
        let c = cycle@;
        assert forall|j: int| 0 <= j < c.len() - 1 implies idx_edge(adj@, #[trigger] c[j], c[j + 1]) by {
            assert(c[j] == path@[start + j] && c[j + 1] == path@[start + j + 1]);
        }
        assert(c[c.len() - 1] == path@[path@.len() - 1]);
        assert(c[0] == path@[start as int]);
        assert forall|j: int| 0 <= j < c.len() implies (#[trigger] c[j]) < adj@.len() by {
            assert(c[j] == path@[start + j]);
        }
        lemma_subrange_distinct(path@, start as int);
    }
    let m = least_position(g, &cycle);
    let rotated = rotate(&cycle, m);
    proof {
        lemma_rotate_cycle(adj@, cycle@, m as int);
        let r = rotated@;
        let n = cycle@.len();
        assert(r[0] == cycle@[m as int]);
        assert forall|j: int| 0 <= j < r.len() implies !seq_less(#[trigger] g.nodes@[r[j] as int]@, g.nodes@[r[0] as int]@) by {
            if j < n - m {
                assert(r[j] == cycle@[j + m]);
            } else {
                assert(r[j] == cycle@[j + m - n]);
            }
        }
        lemma_rotate_distinct(cycle@, m as int);
    }
    let mut seen = false;
    let mut q: usize = 0;
    while q < cycles.len()
        invariant
            0 <= q <= cycles@.len(),
            seen ==> cycles@.len() > 0,
        decreases cycles@.len() - q,
    {
        if same_indices(&cycles[q], &rotated) {
            seen = true;
        }
        q += 1;
    }
    if !seen {
        cycles.push(rotated);
    }
}

/// An edge from the end of the current path back to `next`, which is on the path: the
/// cycle from `next`'s position to the end of the path is recorded.
fn close_back_edge(g: &Graph, adj: &Vec<Vec<usize>>, stack: &Vec<usize>, next: usize, cycles: &mut Vec<Vec<usize>>)
    requires
        g.wf(),
        adj_ok(*g, adj@),
        stack@.len() > 0,
        idx_path(adj@, stack@),
        forall|k: int| 0 <= k < stack@.len() ==> (#[trigger] stack@[k]) < adj@.len(),
        idx_edge(adj@, stack@[stack@.len() - 1], next),
        on_stack(stack@, next as int),
        distinct_idx(stack@),
        forall|k: int| 0 <= k < old(cycles)@.len() ==> recorded_cycle(*g, adj@, (#[trigger] old(cycles)@[k])@),
    ensures
        forall|k: int| 0 <= k < final(cycles)@.len() ==> recorded_cycle(*g, adj@, (#[trigger] final(cycles)@[k])@),
        final(cycles)@.len() >= old(cycles)@.len(),
        final(cycles)@.len() > 0,
{
    let mut start: usize = 0;
    while start < stack.len() && stack[start] != next
        invariant
            0 <= start <= stack@.len(),
            forall|k: int| 0 <= k < start ==> stack@[k] != next,
        decreases stack@.len() - start,
    {
        start += 1;
    }
    proof {
        let w = choose|k: int| 0 <= k < stack@.len() && stack@[k] as int == next as int;
        assert(stack@[w] == next);
        assert(start < stack@.len());
    }
    close_cycle(g, adj, stack, start, cycles);
}

/// Depth-first search from `node`, recording every cycle closed by an edge back to the
/// current path.
fn visit(
    g: &Graph,
    node: usize,
    adj: &Vec<Vec<usize>>,
    state: &mut Vec<u8>,
    stack: &mut Vec<usize>,
    cycles: &mut Vec<Vec<usize>>,
)
    requires
        g.wf(),
        adj_ok(*g, adj@),
        node < adj@.len(),
        old(state)@.len() == adj@.len(),
        old(state)@[node as int] == 0,
        forall|k: int| 0 <= k < old(stack)@.len() ==> (#[trigger] old(stack)@[k]) < adj@.len(),
        idx_path(adj@, old(stack)@.push(node)),
        forall|k: int| 0 <= k < old(cycles)@.len() ==> recorded_cycle(*g, adj@, (#[trigger] old(cycles)@[k])@),
        adj_bounded(adj@),
        gray_is_stack(old(state)@, old(stack)@),
        distinct_idx(old(stack)@),
        old(cycles)@.len() == 0 ==> dfs_inv(adj@, old(state)@),
    ensures
        final(state)@.len() == adj@.len(),
        zeros(final(state)@) < zeros(old(state)@),
        final(stack)@ == old(stack)@,
        forall|k: int| 0 <= k < final(cycles)@.len() ==> recorded_cycle(*g, adj@, (#[trigger] final(cycles)@[k])@),
        gray_is_stack(final(state)@, final(stack)@),
        forall|x: int| 0 <= x < adj@.len() && done(old(state)@, x) ==> done(final(state)@, x),
        done(final(state)@, node as int),
        final(cycles)@.len() >= old(cycles)@.len(),
        final(cycles)@.len() == 0 ==> dfs_inv(adj@, final(state)@),
    decreases zeros(old(state)@),
{
    let ghost entry = state@;
    proof {
        lemma_zeros_update(state@, node as int, 1);
    }
    state.set(node, 1);
    stack.push(node);
    let ghost base = stack@;
    proof {
        if cycles@.len() == 0 {
            lemma_same_done(adj@, entry, state@);
        }
        lemma_gray_push(entry, old(stack)@, node);
        assert(!on_stack(old(stack)@, node as int));
        assert forall|i: int, j: int| 0 <= i < j < base.len() implies #[trigger] base[i] != #[trigger] base[j] by {
            if j == base.len() - 1 {
                assert(base[i] == old(stack)@[i]);
                if base[i] == node {
                    assert(on_stack(old(stack)@, node as int));
                }
            } else {
                assert(base[i] == old(stack)@[i] && base[j] == old(stack)@[j]);
            }
        }
    }
    let edges = &adj[node];
    let mut t: usize = 0;
    while t < edges.len()
        invariant
            state@.len() == adj@.len(),
            zeros(state@) < zeros(entry),
            stack@ == base,
            base == old(stack)@.push(node),
            idx_path(adj@, base),
            forall|k: int| 0 <= k < base.len() ==> (#[trigger] base[k]) < adj@.len(),
            0 <= t <= edges@.len(),
            forall|k: int| 0 <= k < cycles@.len() ==> recorded_cycle(*g, adj@, (#[trigger] cycles@[k])@),
            edges@ == adj@[node as int]@,
            gray_is_stack(state@, base),
            distinct_idx(base),
            forall|x: int| 0 <= x < adj@.len() && done(entry, x) ==> done(state@, x),
            cycles@.len() >= old(cycles)@.len(),
            cycles@.len() == 0 ==> dfs_inv(adj@, state@),
            cycles@.len() == 0 ==> forall|j: int| 0 <= j < t ==> done(state@, #[trigger] edges@[j] as int),
        decreases edges@.len() - t,
    {
        let next = edges[t];
        assert(next < adj@.len());
        let s = state[next];
        let ghost before = state@;
        if s == 0 {
            visit(g, next, adj, state, stack, cycles);
        } else if s == 1 {
            proof {
                assert(adj@[node as int]@[t as int] == next);
                assert(stack@[stack@.len() - 1] == node);
            }
            close_back_edge(g, adj, stack, next, cycles);
        }
        t += 1;
    }
    stack.pop();
    proof {
        assert(stack@ =~= old(stack)@);
        lemma_zeros_update(state@, node as int, 2);
        assert(on_stack(base, node as int)) by {
            assert(base[base.len() - 1] == node);
        }
        if cycles@.len() == 0 {
            lemma_finish(adj@, state@, node);
        }
        lemma_gray_pop(entry, state@, old(stack)@, node);
    }
    state.set(node, 2);
}

} // verus!

verus! {

impl Graph {
    /// Appends `b` to the out-edges of node `i` (`entry(a).or_default().push(b)`).
    pub fn push_edge(&mut self, i: usize, b: String)
        requires
            old(self).wf(),
            i < old(self).nodes@.len(),
        ensures
            final(self).wf(),
            final(self).nodes@ == old(self).nodes@,
            final(self).edges@.len() == old(self).edges@.len(),
            final(self).edges@[i as int]@ == old(self).edges@[i as int]@.push(b),
            forall|k: int| 0 <= k < final(self).edges@.len() && k != i ==> final(self).edges@[k] == old(self).edges@[k],
            forall|x: Seq<char>, y: Seq<char>| final(self).has_edge(x, y)
                <==> (old(self).has_edge(x, y) || (x == old(self).nodes@[i as int]@ && y == b@)),
    {
        let ghost before = *self;
        let ghost bv = b@;
        let mut row = self.edges.remove(i);
        row.push(b);
        self.edges.insert(i, row);
        proof {
            assert(self.edges@[i as int]@ == before.edges@[i as int]@.push(self.edges@[i as int]@.last()));
            assert forall|k: int| 0 <= k < self.edges@.len() && k != i implies self.edges@[k] == before.edges@[k] by {
                if k < i {
                    assert(self.edges@[k] == before.edges@[k]);
                } else {
                    assert(self.edges@[k] == before.edges@[k]);
                }
            }
            assert forall|x: Seq<char>, y: Seq<char>| self.has_edge(x, y)
                <==> (before.has_edge(x, y) || (x == before.nodes@[i as int]@ && y == bv)) by {
                if self.has_edge(x, y) {
                    let (p, q) = choose|p: int, q: int| 0 <= p < self.nodes@.len() && 0 <= q < self.edges@[p]@.len()
                        && (#[trigger] self.nodes@[p])@ == x && (#[trigger] self.edges@[p]@[q])@ == y;
                    if p == i && q == before.edges@[i as int]@.len() {
                        assert(y == bv);
                    } else {
                        assert(before.edges@[p]@[q] == self.edges@[p]@[q]);
                        assert(before.has_edge(x, y));
                    }
                }
                if before.has_edge(x, y) {
                    let (p, q) = choose|p: int, q: int| 0 <= p < before.nodes@.len() && 0 <= q < before.edges@[p]@.len()
                        && (#[trigger] before.nodes@[p])@ == x && (#[trigger] before.edges@[p]@[q])@ == y;
                    assert(self.edges@[p]@[q] == before.edges@[p]@[q]);
                    assert(self.has_edge(x, y));
                }
                if x == before.nodes@[i as int]@ && y == bv {
                    let q = before.edges@[i as int]@.len() as int;
                    assert(self.edges@[i as int]@[q]@ == bv);
                    assert(self.nodes@[i as int]@ == x);
                    assert(self.has_edge(x, y));
                }
            }
        }
    }
}

/// `adj` has, for each node, an entry for every out-edge whose target is a node.
pub open spec fn adj_complete(g: Graph, adj: Seq<Vec<usize>>) -> bool {
    forall|i: int, k: int, j: int| 0 <= i < g.nodes@.len() && 0 <= k < g.edges@[i]@.len() && 0 <= j < g.nodes@.len()
        && (#[trigger] g.edges@[i]@[k])@ == (#[trigger] g.nodes@[j])@ ==> idx_edge(adj, i as usize, j as usize)
}

/// The node-index adjacency of `g`: out-edges to names that are not nodes are dropped.
pub fn build_adjacency(g: &Graph) -> (adj: Vec<Vec<usize>>)
    requires
        g.wf(),
    ensures
        adj_ok(*g, adj@),
        adj_complete(*g, adj@),
{
    let n = g.nodes.len();
    let mut adj: Vec<Vec<usize>> = Vec::new();
    let mut i: usize = 0;
    while i < n
        invariant
            g.wf(),
            n == g.nodes@.len(),
            0 <= i <= n,
            adj@.len() == i,
            forall|x: int, t: int| 0 <= x < i && 0 <= t < adj@[x]@.len() ==> {
                &&& (#[trigger] adj@[x]@[t]) < n
                &&& g.has_edge(g.nodes@[x]@, g.nodes@[adj@[x]@[t] as int]@)
            },
            forall|x: int, k: int, j: int| 0 <= x < i && 0 <= k < g.edges@[x]@.len() && 0 <= j < n
                && (#[trigger] g.edges@[x]@[k])@ == (#[trigger] g.nodes@[j])@ ==> idx_edge(adj@, x as usize, j as usize),
        decreases n - i,
    {
        let deps = &g.edges[i];
        let mut row: Vec<usize> = Vec::new();
        let mut k: usize = 0;
        while k < deps.len()
            invariant
                g.wf(),
                n == g.nodes@.len(),
                i < n,
                deps@ == g.edges@[i as int]@,
                0 <= k <= deps@.len(),
                forall|t: int| 0 <= t < row@.len() ==> {
                    &&& (#[trigger] row@[t]) < n
                    &&& g.has_edge(g.nodes@[i as int]@, g.nodes@[row@[t] as int]@)
                },
                forall|kk: int, j: int| 0 <= kk < k && 0 <= j < n && (#[trigger] deps@[kk])@ == (#[trigger] g.nodes@[j])@
                    ==> exists|t: int| 0 <= t < row@.len() && row@[t] == j,
            decreases deps@.len() - k,
        {
            match g.index_of(&deps[k]) {
                Some(j) => {
                    proof {
                        assert(g.nodes@[i as int]@ == g.nodes@[i as int]@ && g.edges@[i as int]@[k as int]@ == g.nodes@[j as int]@);
                        assert(g.has_edge(g.nodes@[i as int]@, g.nodes@[j as int]@));
                    }
                    let ghost prev = row@;
                    row.push(j);
                    proof {
                        assert forall|kk: int, jj: int| 0 <= kk < k + 1 && 0 <= jj < n && (#[trigger] deps@[kk])@ == (#[trigger] g.nodes@[jj])@
                            implies exists|t: int| 0 <= t < row@.len() && row@[t] == jj by {
                            if kk == k {
                                assert(j as int == jj) by {
                                    if (j as int) < jj {
                                        assert(g.nodes@[j as int]@ != g.nodes@[jj]@);
                                    } else if jj < j {
                                        assert(g.nodes@[jj]@ != g.nodes@[j as int]@);
                                    }
                                }
                                assert(row@[row@.len() - 1] == jj);
                            } else {
                                let t = choose|t: int| 0 <= t < prev.len() && prev[t] == jj;
                                assert(row@[t] == jj);
                            }
                        }
                    }
                },
                None => {
                    proof {
                        assert forall|kk: int, jj: int| 0 <= kk < k + 1 && 0 <= jj < n && (#[trigger] deps@[kk])@ == (#[trigger] g.nodes@[jj])@
                            implies exists|t: int| 0 <= t < row@.len() && row@[t] == jj by {
                            if kk == k {
                                assert(g.has_node(deps@[kk]@));
                            }
                        }
                    }
                },
            }
            k += 1;
        }
        adj.push(row);
        proof {
            assert forall|x: int, kk: int, j: int| 0 <= x < i + 1 && 0 <= kk < g.edges@[x]@.len() && 0 <= j < n
                && (#[trigger] g.edges@[x]@[kk])@ == (#[trigger] g.nodes@[j])@ implies idx_edge(adj@, x as usize, j as usize) by {
                if x == i {
                    assert(deps@[kk]@ == g.nodes@[j]@);
                    let t = choose|t: int| 0 <= t < adj@[x]@.len() && adj@[x]@[t] == j;
                    assert(adj@[x as usize as int]@[t] == j as usize);
                }
            }
        }
        i += 1;
    }
    adj
}

} // verus!

verus! {

/// The names of an index cycle, closed by repeating its first name.
pub open spec fn cycle_names(g: Graph, c: Seq<usize>) -> Seq<Seq<char>> {
    Seq::new((c.len() + 1) as nat, |k: int| if k < c.len() { g.nodes@[c[k] as int]@ } else { g.nodes@[c[0] as int]@ })
}

proof fn lemma_cycle_names(g: Graph, adj: Seq<Vec<usize>>, c: Seq<usize>)
    requires
        g.wf(),
        adj_ok(g, adj),
        recorded_cycle(g, adj, c),
    ensures
        g.is_reported_cycle(cycle_names(g, c)),
{
    let w = cycle_names(g, c);
    assert forall|k: int| 0 <= k < w.len() - 1 implies g.has_edge(#[trigger] w[k], w[k + 1]) by {
        if k < c.len() - 1 {
            assert(idx_edge(adj, c[k], c[k + 1]));
            let t = choose|t: int| 0 <= t < adj[c[k] as int]@.len() && adj[c[k] as int]@[t] == c[k + 1];
            assert(adj[c[k] as int]@[t] < adj.len());
        } else {
            assert(idx_edge(adj, c[c.len() - 1], c[0]));
            let t = choose|t: int| 0 <= t < adj[c[k] as int]@.len() && adj[c[k] as int]@[t] == c[0];
            assert(adj[c[k] as int]@[t] < adj.len());
        }
    }
    assert forall|k: int| 0 <= k < w.len() - 1 implies !seq_less(#[trigger] w[k], w[0]) by {
        assert(w[k] == g.nodes@[c[k] as int]@);
    }
    assert forall|i: int, j: int| 0 <= i < j < w.len() - 1 implies #[trigger] w[i] != #[trigger] w[j] by {
        assert(w[i] == g.nodes@[c[i] as int]@ && w[j] == g.nodes@[c[j] as int]@);
        assert(c[i] != c[j]);
        if c[i] < c[j] {
            assert(g.nodes@[c[i] as int]@ != g.nodes@[c[j] as int]@);
        } else {
            assert(g.nodes@[c[j] as int]@ != g.nodes@[c[i] as int]@);
        }
    }
}

/// The index of node `a`.
spec fn node_index(g: Graph, a: Seq<char>) -> int {
    choose|i: int| 0 <= i < g.nodes@.len() && (#[trigger] g.nodes@[i])@ == a
}

/// A closed walk over names is a closed walk over node indices.
proof fn lemma_cycle_indices(g: Graph, adj: Seq<Vec<usize>>, w: Seq<Seq<char>>)
    requires
        g.wf(),
        adj.len() == g.nodes@.len(),
        adj_complete(g, adj),
        g.is_walk(w),
        w.len() >= 2,
        w[0] == w[w.len() - 1],
    ensures
        exists|p: Seq<usize>| #[trigger] closed_idx_walk(adj, p),
{
    let n = w.len();
    assert(g.nodes.len() == g.nodes@.len());
    assert forall|k: int| 0 <= k < n implies g.has_node(#[trigger] w[k]) by {
        let k2 = if k == n - 1 { 0 } else { k };
        assert(w[k2] == w[k]);
        assert(g.has_edge(w[k2], w[k2 + 1]));
        let (i, j) = choose|i: int, j: int| 0 <= i < g.nodes@.len() && 0 <= j < g.edges@[i]@.len()
            && (#[trigger] g.nodes@[i])@ == w[k2] && (#[trigger] g.edges@[i]@[j])@ == w[k2 + 1];
        assert(g.nodes@[i]@ == w[k]);
    }
    let p = Seq::new(n, |k: int| node_index(g, w[k]) as usize);
    assert forall|k: int| 0 <= k < n implies (#[trigger] p[k]) < adj.len() && g.nodes@[p[k] as int]@ == w[k] by {
        assert(g.has_node(w[k]));
        let i = choose|i: int| 0 <= i < g.nodes@.len() && (#[trigger] g.nodes@[i])@ == w[k];
        assert(0 <= node_index(g, w[k]) < g.nodes@.len());
    }
    assert forall|k: int| 0 <= k < p.len() - 1 implies idx_edge(adj, #[trigger] p[k], p[k + 1]) by {
        assert(g.has_edge(w[k], w[k + 1]));
        let (i, j) = choose|i: int, j: int| 0 <= i < g.nodes@.len() && 0 <= j < g.edges@[i]@.len()
            && (#[trigger] g.nodes@[i])@ == w[k] && (#[trigger] g.edges@[i]@[j])@ == w[k + 1];
        assert(g.nodes@[p[k] as int]@ == w[k]);
        if i != p[k] as int {
            if i < p[k] as int {
                assert(g.nodes@[i]@ != g.nodes@[p[k] as int]@);
            } else {
                assert(g.nodes@[p[k] as int]@ != g.nodes@[i]@);
            }
        }
        assert(g.nodes@[p[k + 1] as int]@ == w[k + 1]);
        assert(g.edges@[i]@[j]@ == g.nodes@[p[k + 1] as int]@);
        assert(idx_edge(adj, i as usize, p[k + 1]));
    }
    assert(p[0] == p[n - 1]);
    assert(closed_idx_walk(adj, p));
}

/// The texts of a list of strings.
pub open spec fn texts(v: Vec<String>) -> Seq<Seq<char>> {
    v@.map_values(|s: String| s@)
}

/// Lexicographic order on lists of strings, each compared in string order (the order of
/// `Vec<String>`).
pub open spec fn texts_less(a: Seq<Seq<char>>, b: Seq<Seq<char>>) -> bool
    decreases a.len(),
{
    if a.len() == 0 {
        b.len() > 0
    } else if b.len() == 0 {
        false
    } else if a[0] != b[0] {
        seq_less(a[0], b[0])
    } else {
        texts_less(a.drop_first(), b.drop_first())
    }
}

pub proof fn lemma_texts_less_irreflexive(a: Seq<Seq<char>>)
    ensures
        !texts_less(a, a),
    decreases a.len(),
{
    if a.len() > 0 {
        lemma_texts_less_irreflexive(a.drop_first());
    }
}

pub proof fn lemma_texts_less_transitive(a: Seq<Seq<char>>, b: Seq<Seq<char>>, c: Seq<Seq<char>>)
    requires
        texts_less(a, b),
        texts_less(b, c),
    ensures
        texts_less(a, c),
    decreases a.len(),
{
    if a.len() > 0 && b.len() > 0 && c.len() > 0 {
        if a[0] == b[0] && b[0] == c[0] {
            lemma_texts_less_transitive(a.drop_first(), b.drop_first(), c.drop_first());
        } else if a[0] != b[0] && b[0] != c[0] {
            crate::text::lemma_seq_less_transitive(a[0], b[0], c[0]);
            if a[0] == c[0] {
                crate::text::lemma_seq_less_irreflexive(a[0]);
            }
        }
    }
}

pub proof fn lemma_texts_less_total(a: Seq<Seq<char>>, b: Seq<Seq<char>>)
    requires
        a != b,
    ensures
        texts_less(a, b) || texts_less(b, a),
    decreases a.len(),
{
    if a.len() == 0 && b.len() == 0 {
        assert(a =~= b);
    } else if a.len() > 0 && b.len() > 0 {
        if a[0] != b[0] {
            crate::text::lemma_seq_less_total(a[0], b[0]);
        } else {
            if a.drop_first() == b.drop_first() {
                assert(a =~= seq![a[0]] + a.drop_first());
                assert(b =~= seq![b[0]] + b.drop_first());
            }
            lemma_texts_less_total(a.drop_first(), b.drop_first());
        }
    }
}

/// Whether `a` comes before `b` in the order of lists of strings.
fn texts_before(a: &Vec<String>, b: &Vec<String>) -> (r: bool)
    ensures
        r == texts_less(texts(*a), texts(*b)),
{
    let ghost ta = texts(*a);
    let ghost tb = texts(*b);
    let mut i: usize = 0;
    proof {
        assert(ta.subrange(0, ta.len() as int) =~= ta);
        assert(tb.subrange(0, tb.len() as int) =~= tb);
    }
    while i < a.len() && i < b.len()
        invariant
            0 <= i <= a@.len(),
            i <= b@.len(),
            ta == texts(*a),
            tb == texts(*b),
            texts_less(ta, tb) == texts_less(ta.subrange(i as int, ta.len() as int), tb.subrange(i as int, tb.len() as int)),
        decreases a@.len() - i,
    {
        let ghost sa = ta.subrange(i as int, ta.len() as int);
        let ghost sb = tb.subrange(i as int, tb.len() as int);
        assert(sa[0] == a@[i as int]@ && sb[0] == b@[i as int]@);
        if !str_eq(a[i].as_str(), b[i].as_str()) {
            return str_less(a[i].as_str(), b[i].as_str());
        }
        proof {
            assert(sa.drop_first() =~= ta.subrange(i + 1, ta.len() as int));
            assert(sb.drop_first() =~= tb.subrange(i + 1, tb.len() as int));
        }
        i += 1;
    }
    i < b.len()
}

/// Some list of `v` has the texts `t`.
pub open spec fn has_texts(v: Seq<Vec<String>>, t: Seq<Seq<char>>) -> bool {
    exists|j: int| 0 <= j < v.len() && texts(#[trigger] v[j]) == t
}

/// `cycles` in ascending order without repeats: the order in which a set of them is
/// listed.
fn sorted_cycles(cycles: Vec<Vec<String>>) -> (r: Vec<Vec<String>>)
    ensures
        forall|p: int, q: int| 0 <= p < q < r@.len() ==> texts_less(texts(#[trigger] r@[p]), texts(#[trigger] r@[q])),
        forall|k: int| 0 <= k < r@.len() ==> has_texts(cycles@, texts(#[trigger] r@[k])),
        forall|j: int| 0 <= j < cycles@.len() ==> has_texts(r@, texts(#[trigger] cycles@[j])),
{
    let mut sorted: Vec<Vec<String>> = Vec::new();
    let mut i: usize = 0;
    while i < cycles.len()
        invariant
            0 <= i <= cycles@.len(),
            forall|p: int, q: int| 0 <= p < q < sorted@.len() ==> texts_less(texts(#[trigger] sorted@[p]), texts(#[trigger] sorted@[q])),
            forall|k: int| 0 <= k < sorted@.len() ==> has_texts(cycles@, texts(#[trigger] sorted@[k])),
            forall|j: int| 0 <= j < i ==> has_texts(sorted@, texts(#[trigger] cycles@[j])),
        decreases cycles@.len() - i,
    {
        let x = &cycles[i];
        let mut pos: usize = 0;
        while pos < sorted.len() && texts_before(&sorted[pos], x)
            invariant
                0 <= pos <= sorted@.len(),
                forall|p: int| 0 <= p < pos ==> texts_less(texts(#[trigger] sorted@[p]), texts(*x)),
            decreases sorted@.len() - pos,
        {
            pos += 1;
        }
        let duplicate = pos < sorted.len() && !texts_before(x, &sorted[pos]);
        let ghost before = sorted@;
        if duplicate {
            proof {
                if texts(sorted@[pos as int]) != texts(*x) {
                    lemma_texts_less_total(texts(sorted@[pos as int]), texts(*x));
                }
                assert(texts(sorted@[pos as int]) == texts(cycles@[i as int]));
            }
        } else {
            let copy = x.clone();
            proof {
                assert(texts(copy) =~= texts(*x)) by {
                    assert forall|t: int| 0 <= t < copy@.len() implies copy@[t]@ == x@[t]@ by {
                        assert(cloned::<String>(x@[t], copy@[t]));
                    }
                }
                if pos < before.len() {
                    if texts(before[pos as int]) != texts(*x) {
                        lemma_texts_less_total(texts(before[pos as int]), texts(*x));
                    } else {
                        lemma_texts_less_irreflexive(texts(*x));
                    }
                }
            }
            sorted.insert(pos, copy);
            proof {
                let after = sorted@;
                assert(after == before.insert(pos as int, copy));
                assert forall|p: int, q: int| 0 <= p < q < after.len() implies texts_less(texts(#[trigger] after[p]), texts(#[trigger] after[q])) by {
                    if q < pos {
                        assert(after[p] == before[p] && after[q] == before[q]);
                    } else if q == pos {
                        assert(after[p] == before[p]);
                    } else if p < pos {
                        assert(after[p] == before[p] && after[q] == before[q - 1]);
                        if q - 1 > pos {
                            lemma_texts_less_transitive(texts(before[p]), texts(*x), texts(before[pos as int]));
                            lemma_texts_less_transitive(texts(before[p]), texts(before[pos as int]), texts(before[q - 1]));
                        } else {
                            lemma_texts_less_transitive(texts(before[p]), texts(*x), texts(before[q - 1]));
                        }
                    } else if p == pos {
                        assert(after[q] == before[q - 1]);
                        if q - 1 > pos {
                            lemma_texts_less_transitive(texts(*x), texts(before[pos as int]), texts(before[q - 1]));
                        }
                    } else {
                        assert(after[p] == before[p - 1] && after[q] == before[q - 1]);
                    }
                }
                assert forall|k: int| 0 <= k < after.len() implies has_texts(cycles@, texts(#[trigger] after[k])) by {
                    if k < pos {
                        assert(after[k] == before[k]);
                        assert(has_texts(cycles@, texts(before[k])));
                    } else if k == pos {
                        assert(texts(after[k]) == texts(cycles@[i as int]));
                    } else {
                        assert(after[k] == before[k - 1]);
                        assert(has_texts(cycles@, texts(before[k - 1])));
                    }
                }
                assert forall|j: int| 0 <= j < i + 1 implies has_texts(after, texts(#[trigger] cycles@[j])) by {
                    if j == i {
                        assert(texts(after[pos as int]) == texts(cycles@[j]));
                    } else {
                        assert(has_texts(before, texts(cycles@[j])));
                        let k0 = choose|k: int| 0 <= k < before.len() && texts(#[trigger] before[k]) == texts(cycles@[j]);
                        if k0 < pos {
                            assert(after[k0] == before[k0]);
                        } else {
                            assert(after[k0 + 1] == before[k0]);
                        }
                    }
                }
            }
        }
        i += 1;
    }
    sorted
}

/// Every elementary cycle that a depth-first search over the nodes in order closes, each
/// rotated to start at its least node and closed by repeating it, listed once each in
/// ascending order. Each reported cycle is a closed walk of the graph starting at its least
/// node, and some cycle is reported exactly when the graph has one.
pub fn find_cycles(g: &Graph) -> (r: Vec<Vec<String>>)
    requires
        g.wf(),
    ensures
        forall|k: int| 0 <= k < r@.len() ==> g.is_reported_cycle((#[trigger] r@[k])@.map_values(|s: String| s@)),
        r@.len() > 0 <==> g.has_cycle(),
        forall|p: int, q: int| 0 <= p < q < r@.len() ==> texts_less(texts(#[trigger] r@[p]), texts(#[trigger] r@[q])),
{
    let adj = build_adjacency(g);
    let n = g.nodes.len();
    let mut state: Vec<u8> = Vec::new();
    let mut z: usize = 0;
    while z < n
        invariant
            0 <= z <= n,
            state@.len() == z,
            forall|x: int| 0 <= x < z ==> (#[trigger] state@[x]) == 0,
        decreases n - z,
    {
        state.push(0);
        z += 1;
    }
    let mut stack: Vec<usize> = Vec::new();
    let mut cycles: Vec<Vec<usize>> = Vec::new();
    proof {
        assert(adj_bounded(adj@));
        assert forall|p: Seq<usize>| #[trigger] closed_idx_walk(adj@, p) implies exists|k: int| 0 <= k < p.len() && !done(state@, #[trigger] p[k] as int) by {
            assert(!done(state@, p[0] as int));
        }
        assert(dfs_inv(adj@, state@));
        assert(gray_is_stack(state@, stack@));
    }
    let mut i: usize = 0;
    while i < n
        invariant
            g.wf(),
            n == g.nodes@.len(),
            adj_ok(*g, adj@),
            adj_bounded(adj@),
            0 <= i <= n,
            state@.len() == n,
            stack@.len() == 0,
            forall|k: int| 0 <= k < cycles@.len() ==> recorded_cycle(*g, adj@, (#[trigger] cycles@[k])@),
            gray_is_stack(state@, stack@),
            distinct_idx(stack@),
            cycles@.len() == 0 ==> dfs_inv(adj@, state@),
            forall|x: int| 0 <= x < i ==> done(state@, x),
        decreases n - i,
    {
        if state[i] == 0 {
            proof {
                assert(stack@.push(i)[0] == i);
                assert(idx_path(adj@, stack@.push(i)));
            }
            visit(g, i, &adj, &mut state, &mut stack, &mut cycles);
        } else {
            proof {
                assert(!on_stack(stack@, i as int));
            }
        }
        i += 1;
    }
    proof {
        if g.has_cycle() && cycles@.len() == 0 {
            let w = choose|w: Seq<Seq<char>>| #[trigger] g.is_walk(w) && w.len() >= 2 && w[0] == w[w.len() - 1];
            lemma_cycle_indices(*g, adj@, w);
            let p = choose|p: Seq<usize>| #[trigger] closed_idx_walk(adj@, p);
            let k = choose|k: int| 0 <= k < p.len() && !done(state@, #[trigger] p[k] as int);
            assert(done(state@, p[k] as int));
        }
    }
    let mut result: Vec<Vec<String>> = Vec::new();
    let mut k: usize = 0;
    while k < cycles.len()
        invariant
            g.wf(),
            adj_ok(*g, adj@),
            0 <= k <= cycles@.len(),
            result@.len() == k,
            forall|q: int| 0 <= q < cycles@.len() ==> recorded_cycle(*g, adj@, (#[trigger] cycles@[q])@),
            forall|q: int| 0 <= q < k ==> (#[trigger] result@[q])@.map_values(|s: String| s@) == cycle_names(*g, cycles@[q]@),
        decreases cycles@.len() - k,
    {
        let c = &cycles[k];
        proof {
            assert(recorded_cycle(*g, adj@, c@));
        }
        let mut names: Vec<String> = Vec::new();
        let mut p: usize = 0;
        while p < c.len()
            invariant
                0 <= p <= c@.len(),
                forall|t: int| 0 <= t < c@.len() ==> (#[trigger] c@[t]) < g.nodes@.len(),
                names@.len() == p,
                forall|t: int| 0 <= t < p ==> (#[trigger] names@[t])@ == g.nodes@[c@[t] as int]@,
            decreases c@.len() - p,
        {
            names.push(g.nodes[c[p]].clone());
            p += 1;
        }
        names.push(g.nodes[c[0]].clone());
        proof {
            assert(names@.map_values(|s: String| s@) =~= cycle_names(*g, c@));
        }
        result.push(names);
        k += 1;
    }
    proof {
        assert forall|q: int| 0 <= q < result@.len() implies g.is_reported_cycle((#[trigger] result@[q])@.map_values(|s: String| s@)) by {
            lemma_cycle_names(*g, adj@, cycles@[q]@);
        }
        if result@.len() > 0 {
            let c = result@[0]@.map_values(|s: String| s@);
            lemma_cycle_names(*g, adj@, cycles@[0]@);
            assert(g.is_walk(c));
        }
    }
    let ghost unsorted = result@;
    assert(unsorted.len() > 0 <==> g.has_cycle());
    let sorted = sorted_cycles(result);
    proof {
        assert forall|k: int| 0 <= k < sorted@.len() implies g.is_reported_cycle((#[trigger] sorted@[k])@.map_values(|s: String| s@)) by {
            assert(has_texts(unsorted, texts(sorted@[k])));
            let j = choose|j: int| 0 <= j < unsorted.len() && texts(#[trigger] unsorted[j]) == texts(sorted@[k]);
            assert(g.is_reported_cycle(unsorted[j]@.map_values(|s: String| s@)));
        }
        if unsorted.len() > 0 {
            assert(has_texts(sorted@, texts(unsorted[0])));
        }
        if sorted@.len() > 0 {
            assert(has_texts(unsorted, texts(sorted@[0])));
        }
    }
    sorted
}

/// `b` can be reached from one of `starts` by following edges.
pub open spec fn reaches(g: Graph, starts: Seq<String>, b: Seq<char>) -> bool {
    exists|w: Seq<Seq<char>>| #[trigger] g.is_walk(w) && names_contain(starts, w[0]) && w.last() == b
}

/// Number of unmarked entries.
pub open spec fn unmarked(s: Seq<bool>) -> nat
    decreases s.len(),
{
    if s.len() == 0 { 0 } else { unmarked(s.drop_last()) + if s.last() { 0nat } else { 1nat } }
}

proof fn lemma_unmarked_mark(s: Seq<bool>, i: int)
    requires
        0 <= i < s.len(),
        !s[i],
    ensures
        unmarked(s.update(i, true)) + 1 == unmarked(s),
    decreases s.len(),
{
    if i < s.len() - 1 {
        lemma_unmarked_mark(s.drop_last(), i);
        assert(s.update(i, true).drop_last() =~= s.drop_last().update(i, true));
    } else {
        assert(s.update(i, true).drop_last() =~= s.drop_last());
    }
}

proof fn lemma_walk_extend(g: Graph, w: Seq<Seq<char>>, b: Seq<char>)
    requires
        g.is_walk(w),
        g.has_edge(w.last(), b),
    ensures
        g.is_walk(w.push(b)),
        w.push(b)[0] == w[0],
        w.push(b).last() == b,
{
    let v = w.push(b);
    assert forall|k: int| 0 <= k < v.len() - 1 implies g.has_edge(#[trigger] v[k], v[k + 1]) by {
        if k < w.len() - 1 {
            assert(v[k] == w[k] && v[k + 1] == w[k + 1]);
        } else {
            assert(v[k] == w.last() && v[k + 1] == b);
        }
    }
}

/// The nodes reachable from `starts` (`reachable`): `r[i]` holds when node `i` can be
/// reached from a start by following edges. The marked set contains every start that is
/// a node, is closed under edges, and holds nothing that cannot be reached.
pub fn reachable(g: &Graph, starts: &Vec<String>) -> (r: Vec<bool>)
    requires
        g.wf(),
    ensures
        r@.len() == g.nodes@.len(),
        forall|s: int, i: int| 0 <= s < starts@.len() && 0 <= i < g.nodes@.len()
            && (#[trigger] starts@[s])@ == (#[trigger] g.nodes@[i])@ ==> r@[i],
        forall|i: int, j: int| 0 <= i < g.nodes@.len() && 0 <= j < g.nodes@.len() && r@[i]
            && g.has_edge(#[trigger] g.nodes@[i]@, #[trigger] g.nodes@[j]@) ==> r@[j],
        forall|i: int| 0 <= i < g.nodes@.len() && #[trigger] r@[i] ==> reaches(*g, starts@, g.nodes@[i]@),
{
    let adj = build_adjacency(g);
    let n = g.nodes.len();
    let mut marks: Vec<bool> = Vec::new();
    let mut z: usize = 0;
    while z < n
        invariant
            0 <= z <= n,
            marks@.len() == z,
            forall|t: int| 0 <= t < z ==> !(#[trigger] marks@[t]),
        decreases n - z,
    {
        marks.push(false);
        z += 1;
    }
    let mut queue: Vec<usize> = Vec::new();
    let mut s: usize = 0;
    while s < starts.len()
        invariant
            g.wf(),
            n == g.nodes@.len(),
            0 <= s <= starts@.len(),
            marks@.len() == n,
            forall|q: int| 0 <= q < queue@.len() ==> (#[trigger] queue@[q]) < n && marks@[queue@[q] as int],
            forall|i: int| 0 <= i < n && #[trigger] marks@[i] ==> exists|q: int| 0 <= q < queue@.len() && queue@[q] == i,
            forall|i: int| 0 <= i < n && #[trigger] marks@[i] ==> reaches(*g, starts@, g.nodes@[i]@),
            forall|ss: int, i: int| 0 <= ss < s && 0 <= i < n && (#[trigger] starts@[ss])@ == (#[trigger] g.nodes@[i])@ ==> marks@[i],
        decreases starts@.len() - s,
    {
        match g.index_of(&starts[s]) {
            Some(i) => {
                if !marks[i] {
                    let ghost prev_queue = queue@;
                    let ghost prev = marks@;
                    marks.set(i, true);
                    queue.push(i);
                    proof {
                        let w = seq![g.nodes@[i as int]@];
                        assert(g.is_walk(w));
                        assert(names_contain(starts@, w[0])) by {
                            assert(starts@[s as int]@ == w[0]);
                        }
                        assert(w.last() == g.nodes@[i as int]@);
                        assert forall|x: int| 0 <= x < n && #[trigger] marks@[x] implies exists|q: int| 0 <= q < queue@.len() && queue@[q] == x by {
                            if x == i {
                                assert(queue@[queue@.len() - 1] == x);
                            } else {
                                assert(prev[x]);
                                let q = choose|q: int| 0 <= q < prev_queue.len() && prev_queue[q] == x;
                                assert(queue@[q] == x);
                            }
                        }
                    }
                }
                proof {
                    assert forall|ss: int, x: int| 0 <= ss < s + 1 && 0 <= x < n && (#[trigger] starts@[ss])@ == (#[trigger] g.nodes@[x])@ implies marks@[x] by {
                        if ss == s {
                            assert(x == i as int) by {
                                if x < i { assert(g.nodes@[x]@ != g.nodes@[i as int]@); }
                                else if x > i { assert(g.nodes@[i as int]@ != g.nodes@[x]@); }
                            }
                        }
                    }
                }
            },
            None => {},
        }
        s += 1;
    }
    let mut head: usize = 0;
    while head < queue.len()
        invariant
            g.wf(),
            n == g.nodes@.len(),
            adj_ok(*g, adj@),
            adj_complete(*g, adj@),
            0 <= head <= queue@.len(),
            marks@.len() == n,
            forall|q: int| 0 <= q < queue@.len() ==> (#[trigger] queue@[q]) < n && marks@[queue@[q] as int],
            forall|i: int| 0 <= i < n && #[trigger] marks@[i] ==> exists|q: int| 0 <= q < queue@.len() && queue@[q] == i,
            forall|i: int| 0 <= i < n && #[trigger] marks@[i] ==> reaches(*g, starts@, g.nodes@[i]@),
            forall|ss: int, i: int| 0 <= ss < starts@.len() && 0 <= i < n && (#[trigger] starts@[ss])@ == (#[trigger] g.nodes@[i])@ ==> marks@[i],
            forall|q: int, t: int| 0 <= q < head && 0 <= t < adj@[queue@[q] as int]@.len() ==> marks@[(#[trigger] adj@[queue@[q] as int]@[t]) as int],
        decreases unmarked(marks@), queue@.len() - head,
    {
        let i = queue[head];
        let row = &adj[i];
        let ghost marks_before = marks@;
        let ghost queue_before = queue@;
        let mut t: usize = 0;
        while t < row.len()
            invariant
                g.wf(),
                n == g.nodes@.len(),
                adj_ok(*g, adj@),
                row@ == adj@[i as int]@,
                i < n,
                marks@[i as int],
                0 <= t <= row@.len(),
                marks@.len() == n,
                head < queue@.len(),
                queue@[head as int] == i,
                queue_before.len() <= queue@.len(),
                forall|q: int| 0 <= q < queue_before.len() ==> queue@[q] == queue_before[q],
                forall|q: int| 0 <= q < queue@.len() ==> (#[trigger] queue@[q]) < n && marks@[queue@[q] as int],
                forall|x: int| 0 <= x < n && #[trigger] marks@[x] ==> exists|q: int| 0 <= q < queue@.len() && queue@[q] == x,
                forall|x: int| 0 <= x < n && #[trigger] marks@[x] ==> reaches(*g, starts@, g.nodes@[x]@),
                forall|x: int| 0 <= x < n && marks_before[x] ==> #[trigger] marks@[x],
                forall|tt: int| 0 <= tt < t ==> marks@[(#[trigger] row@[tt]) as int],
                unmarked(marks@) <= unmarked(marks_before),
                unmarked(marks@) == unmarked(marks_before) ==> queue@.len() == queue_before.len(),
            decreases row@.len() - t,
        {
            let j = row[t];
            proof {
                assert(adj@[i as int]@[t as int] == j);
            }
            if !marks[j] {
                let ghost prev = marks@;
                let ghost prev_queue = queue@;
                proof {
                    lemma_unmarked_mark(marks@, j as int);
                    assert(g.has_edge(g.nodes@[i as int]@, g.nodes@[j as int]@));
                    let w = choose|w: Seq<Seq<char>>| #[trigger] g.is_walk(w) && names_contain(starts@, w[0]) && w.last() == g.nodes@[i as int]@;
                    lemma_walk_extend(*g, w, g.nodes@[j as int]@);
                    assert(g.is_walk(w.push(g.nodes@[j as int]@)));
                }
                marks.set(j, true);
                queue.push(j);
                proof {
                    assert forall|x: int| 0 <= x < n && #[trigger] marks@[x] implies exists|q: int| 0 <= q < queue@.len() && queue@[q] == x by {
                        if x == j {
                            assert(queue@[queue@.len() - 1] == x);
                        } else {
                            assert(prev[x]);
                            let q = choose|q: int| 0 <= q < prev_queue.len() && prev_queue[q] == x;
                            assert(queue@[q] == x);
                        }
                    }
                    assert forall|x: int| 0 <= x < n && #[trigger] marks@[x] implies reaches(*g, starts@, g.nodes@[x]@) by {
                        if x != j {
                            assert(prev[x]);
                        }
                    }
                }
            }
            t += 1;
        }
        proof {
            assert forall|q: int, tt: int| 0 <= q < head + 1 && 0 <= tt < adj@[queue@[q] as int]@.len()
                implies marks@[(#[trigger] adj@[queue@[q] as int]@[tt]) as int] by {
                if q < head {
                    assert(queue@[q] == queue_before[q]);
                    assert(marks_before[adj@[queue@[q] as int]@[tt] as int]);
                } else {
                    assert(row@[tt] == adj@[queue@[q] as int]@[tt]);
                }
            }
        }
        head += 1;
    }
    proof {
        assert forall|i: int, j: int| 0 <= i < g.nodes@.len() && 0 <= j < g.nodes@.len() && marks@[i]
            && g.has_edge(#[trigger] g.nodes@[i]@, #[trigger] g.nodes@[j]@) implies marks@[j] by {
            let (x, y) = choose|x: int, y: int| 0 <= x < g.nodes@.len() && 0 <= y < g.edges@[x]@.len()
                && (#[trigger] g.nodes@[x])@ == g.nodes@[i]@ && (#[trigger] g.edges@[x]@[y])@ == g.nodes@[j]@;
            assert(x == i) by {
                if x < i { assert(g.nodes@[x]@ != g.nodes@[i]@); }
                else if x > i { assert(g.nodes@[i]@ != g.nodes@[x]@); }
            }
            assert(idx_edge(adj@, i as usize, j as usize));
            let t = choose|t: int| 0 <= t < adj@[i]@.len() && adj@[i]@[t] == j;
            let q = choose|q: int| 0 <= q < queue@.len() && queue@[q] == i;
            assert(marks@[adj@[queue@[q] as int]@[t] as int]);
        }
    }
    marks
}

} // verus!
