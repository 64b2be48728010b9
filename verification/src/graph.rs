//! Adjacency-list graph with verified mutation primitives.
//!
//! A graph holds `nodes` vertices named by the dense indices `0..nodes`.
//! `edges[u]` lists the neighbors of `u`. The well-formedness invariant
//! [`Graph::wf`] keeps the graph simple and undirected: neighbor ids are in
//! range, no list holds duplicates or the vertex itself, and adjacency is
//! symmetric. Removing a node empties its list and deletes it from every
//! neighbor's list; the vertex stays counted in `nodes` as an isolated vertex.

use vstd::prelude::*;

verus! {

broadcast use vstd::seq_lib::lemma_seq_contains_after_push;

/// A malformed serialized edge list: an endpoint outside the declared
/// vertex count, or a self loop (the format describes simple graphs).
#[derive(Clone, Copy, Debug, PartialEq, Eq, Structural)]
pub enum FormatError {
    IdOutOfRange,
    SelfLoop,
}

/// `s` with every occurrence of `x` deleted, order of the rest kept.
pub open spec fn without(s: Seq<usize>, x: usize) -> Seq<usize>
    decreases s.len(),
{
    if s.len() == 0 {
        Seq::empty()
    } else if s.last() == x {
        without(s.drop_last(), x)
    } else {
        without(s.drop_last(), x).push(s.last())
    }
}

pub proof fn lemma_without_contains(s: Seq<usize>, x: usize, y: usize)
    ensures
        without(s, x).contains(y) <==> (s.contains(y) && y != x),
    decreases s.len(),
{
    if s.len() == 0 {
        assert(!s.contains(y));
    } else {
        lemma_without_contains(s.drop_last(), x, y);
        assert(s.contains(y) <==> (s.drop_last().contains(y) || s.last() == y)) by {
            assert(s =~= s.drop_last().push(s.last()));
        }
    }
}

pub proof fn lemma_without_absent(s: Seq<usize>, x: usize)
    requires
        !s.contains(x),
    ensures
        without(s, x) == s,
    decreases s.len(),
{
    if s.len() == 0 {
        assert(without(s, x) =~= s);
    } else {
        assert(s.contains(s.last())) by {
            assert(s[s.len() - 1] == s.last());
        }
        assert(forall|i: int| 0 <= i < s.len() - 1 ==> s.drop_last()[i] == s[i]);
        assert(!s.drop_last().contains(x));
        lemma_without_absent(s.drop_last(), x);
        assert(without(s, x) =~= s);
    }
}

pub proof fn lemma_without_no_duplicates(s: Seq<usize>, x: usize)
    requires
        s.no_duplicates(),
    ensures
        without(s, x).no_duplicates(),
    decreases s.len(),
{
    if s.len() > 0 {
        assert(s.drop_last().no_duplicates());
        lemma_without_no_duplicates(s.drop_last(), x);
        if s.last() != x {
            assert(forall|i: int| 0 <= i < s.len() - 1 ==> s.drop_last()[i] == s[i]);
            assert(!s.drop_last().contains(s.last()));
            lemma_without_contains(s.drop_last(), x, s.last());
            assert(!without(s.drop_last(), x).contains(s.last()));
        }
    }
}

pub proof fn lemma_without_push(s: Seq<usize>, x: usize, y: usize)
    ensures
        without(s.push(y), x) == if y == x {
            without(s, x)
        } else {
            without(s, x).push(y)
        },
{
    assert(s.push(y).drop_last() =~= s);
    assert(s.push(y).last() == y);
}

/// Deleting `x` a second time changes nothing.
pub proof fn lemma_without_idempotent(s: Seq<usize>, x: usize)
    ensures
        without(without(s, x), x) == without(s, x),
{
    lemma_without_contains(s, x, x);
    lemma_without_absent(without(s, x), x);
}

/// Well-formedness of an adjacency structure: the vertex count is the
/// length of the outer sequence, every neighbor id is in range, no list
/// holds duplicates or its own vertex, and adjacency is symmetric.
pub open spec fn adj_wf(e: Seq<Seq<usize>>) -> bool {
    &&& forall|i: int| 0 <= i < e.len() ==> (#[trigger] e[i]).no_duplicates()
    &&& forall|u: usize| u < e.len() ==> !(#[trigger] e[u as int].contains(u))
    &&& forall|i: int, k: int|
        0 <= i < e.len() && 0 <= k < e[i].len() ==> (#[trigger] e[i][k]) < e.len()
    &&& forall|u: usize, v: usize|
        u < e.len() && v < e.len() && #[trigger] e[u as int].contains(v) ==> e[v as int].contains(
            u,
        )
}

/// `e` with vertex `n` isolated: its own list emptied, and `n` deleted
/// from every other list.
pub open spec fn remove_node_model(e: Seq<Seq<usize>>, n: usize) -> Seq<Seq<usize>> {
    Seq::new(
        e.len(),
        |i: int|
            if i == n as int {
                Seq::empty()
            } else {
                without(e[i], n)
            },
    )
}

/// Some edge is still present somewhere in the adjacency structure.
pub open spec fn has_edges(e: Seq<Seq<usize>>) -> bool {
    exists|i: int| 0 <= i < e.len() && (#[trigger] e[i]).len() > 0
}

/// An undirected graph over vertices `0..nodes`, as adjacency lists.
#[derive(Debug)]
pub struct Graph {
    pub nodes: usize,
    pub edges: Vec<Vec<usize>>,
}

impl Graph {
    /// The adjacency lists as a sequence of sequences.
    pub open spec fn adj(self) -> Seq<Seq<usize>> {
        self.edges@.map_values(|l: Vec<usize>| l@)
    }

    pub open spec fn wf(self) -> bool {
        &&& self.edges@.len() == self.nodes
        &&& adj_wf(self.adj())
    }

    /// The undirected edge `u -- v` is present.
    pub open spec fn has_edge(self, u: usize, v: usize) -> bool {
        u < self.nodes && v < self.nodes && self.adj()[u as int].contains(v)
    }

    /// A graph with `k` isolated vertices and no edges.
    pub fn new_with_nodes(k: usize) -> (g: Graph)
        ensures
            g.wf(),
            g.nodes == k,
            g.adj() == Seq::new(k as nat, |i: int| Seq::<usize>::empty()),
    {
        let mut edges: Vec<Vec<usize>> = Vec::new();
        let mut i: usize = 0;
        #[verifier::loop_isolation(false)]
        while i < k
            invariant
                i <= k,
                edges@.len() == i,
                forall|j: int| 0 <= j < i ==> (#[trigger] edges@[j])@ == Seq::<usize>::empty(),
            decreases k - i,
        {
            edges.push(Vec::new());
            i += 1;
        }
        let g = Graph { nodes: k, edges };
        proof {
            assert(g.adj() =~= Seq::new(k as nat, |i: int| Seq::<usize>::empty()));
        }
        g
    }

    /// A disposable working copy: algorithms mutate the copy and leave
    /// the caller's graph untouched.
    pub fn duplicate(&self) -> (g: Graph)
        ensures
            g.nodes == self.nodes,
            g.adj() == self.adj(),
            g.wf() == self.wf(),
    {
        let mut edges: Vec<Vec<usize>> = Vec::new();
        let mut i: usize = 0;
        #[verifier::loop_isolation(false)]
        while i < self.edges.len()
            invariant
                i <= self.edges@.len(),
                edges@.len() == i,
                forall|j: int| 0 <= j < i ==> (#[trigger] edges@[j])@ == self.adj()[j],
            decreases self.edges@.len() - i,
        {
            let mut list: Vec<usize> = Vec::new();
            let mut k: usize = 0;
            let ghost gi = i as int;
            #[verifier::loop_isolation(false)]
            while k < self.edges[i].len()
                invariant
                    0 <= gi < self.edges@.len(),
                    i == gi,
                    k <= self.adj()[gi].len(),
                    list@ == self.adj()[gi].take(k as int),
                decreases self.adj()[gi].len() - k,
            {
                list.push(self.edges[i][k]);
                proof {
                    assert(list@ =~= self.adj()[gi].take(k as int + 1));
                }
                k += 1;
            }
            proof {
                assert(self.adj()[gi].take(self.adj()[gi].len() as int) =~= self.adj()[gi]);
            }
            edges.push(list);
            i += 1;
        }
        let g = Graph { nodes: self.nodes, edges };
        proof {
            assert(g.adj() =~= self.adj());
        }
        g
    }

    /// Builds a graph from a declared vertex count and a serialized list
    /// of undirected edges. An endpoint at or beyond `n` or a self loop is
    /// malformed and yields a `FormatError`; the reported error is the one
    /// of the first offending pair. A pair listed twice, in either
    /// orientation, inserts its edge once.
    pub fn from_edge_list(n: usize, list: &Vec<(usize, usize)>) -> (r: Result<Graph, FormatError>)
        ensures
            r is Ok <==> (forall|i: int|
                0 <= i < list@.len() ==> pair_ok(#[trigger] list@[i], n)),
            r matches Ok(g) ==> {
                &&& g.wf()
                &&& g.nodes == n
                &&& forall|u: usize, v: usize|
                    g.has_edge(u, v) <==> (u != v && (exists|i: int|
                        0 <= i < list@.len() && (#[trigger] list@[i] == (u, v) || list@[i] == (
                        v,
                        u,
                        ))))
            },
            r matches Err(e) ==> exists|k: int|
                {
                    &&& 0 <= k < list@.len()
                    &&& !pair_ok(#[trigger] list@[k], n)
                    &&& forall|j: int| 0 <= j < k ==> pair_ok(#[trigger] list@[j], n)
                    &&& e == if !pair_in_range(list@[k], n) {
                        FormatError::IdOutOfRange
                    } else {
                        FormatError::SelfLoop
                    }
                },
    {
        let mut i: usize = 0;
        #[verifier::loop_isolation(false)]
        while i < list.len()
            invariant
                i <= list@.len(),
                forall|j: int| 0 <= j < i ==> pair_ok(#[trigger] list@[j], n),
            decreases list@.len() - i,
        {
            let (u, v) = list[i];
            if u >= n || v >= n {
                return Err(FormatError::IdOutOfRange);
            }
            if u == v {
                return Err(FormatError::SelfLoop);
            }
            i += 1;
        }
        let mut g = Graph::new_with_nodes(n);
        let mut k: usize = 0;
        #[verifier::loop_isolation(false)]
        while k < list.len()
            invariant
                k <= list@.len(),
                forall|j: int| 0 <= j < list@.len() ==> pair_ok(#[trigger] list@[j], n),
                g.wf(),
                g.nodes == n,
                forall|u: usize, v: usize|
                    g.has_edge(u, v) <==> (u != v && (exists|i: int|
                        0 <= i < k && (#[trigger] list@[i] == (u, v) || list@[i] == (v, u)))),
            decreases list@.len() - k,
        {
            let ghost g0 = g;
            let pair = list[k];
            g.add_edge(pair);
            proof {
                lemma_add_edge_membership(g0, g, pair.0, pair.1);
            }
            k += 1;
        }
        Ok(g)
    }

    /// No edge is left anywhere in the graph.
    pub fn has_no_edges(&self) -> (r: bool)
        ensures
            r == !has_edges(self.adj()),
    {
        let mut i: usize = 0;
        #[verifier::loop_isolation(false)]
        while i < self.edges.len()
            invariant
                i <= self.edges@.len(),
                forall|j: int| 0 <= j < i ==> (#[trigger] self.adj()[j]).len() == 0,
            decreases self.edges@.len() - i,
        {
            if self.edges[i].len() > 0 {
                proof {
                    assert(0 <= (i as int) && (i as int) < self.adj().len() && self.adj()[i as int].len() > 0);
                }
                return false;
            }
            i += 1;
        }
        true
    }

    /// Inserts the undirected edge `u -- v` into both adjacency lists.
    /// A self loop or an edge already present leaves the graph unchanged.
    pub fn add_edge(&mut self, pair: (usize, usize))
        requires
            old(self).wf(),
            pair.0 < old(self).nodes,
            pair.1 < old(self).nodes,
        ensures
            final(self).wf(),
            final(self).nodes == old(self).nodes,
            final(self).adj() == if pair.0 == pair.1 || old(self).has_edge(pair.0, pair.1) {
                old(self).adj()
            } else {
                old(self).adj().update(pair.0 as int, old(self).adj()[pair.0 as int].push(pair.1))
                    .update(pair.1 as int, old(self).adj()[pair.1 as int].push(pair.0))
            },
    {
        let (u, v) = pair;
        if u == v {
            return ;
        }
        if contains_value(&self.edges[u], v) {
            return ;
        }
        self.edges[u].push(v);
        self.edges[v].push(u);
        proof {
            let e0 = old(self).adj();
            let e = self.adj();
            assert(e =~= e0.update(u as int, e0[u as int].push(v)).update(
                v as int,
                e0[v as int].push(u),
            ));
            assert(!e0[v as int].contains(u));
            assert forall|i: int| 0 <= i < e.len() implies (#[trigger] e[i]).no_duplicates() by {
                assert(e0[i].no_duplicates());
                if i == u as int {
                    assert(e[i] == e0[i].push(v));
                    assert forall|a: int, b: int|
                        0 <= a < e[i].len() && 0 <= b < e[i].len() && a != b implies e[i][a] != e[
                        i][b] by {
                        if a == e0[i].len() {
                            assert(e0[i].contains(e0[i][b]) ==> e0[i][b] != v);
                        } else if b == e0[i].len() {
                            assert(e0[i].contains(e0[i][a]) ==> e0[i][a] != v);
                        }
                    }
                } else if i == v as int {
                    assert(e[i] == e0[i].push(u));
                    assert forall|a: int, b: int|
                        0 <= a < e[i].len() && 0 <= b < e[i].len() && a != b implies e[i][a] != e[
                        i][b] by {
                        if a == e0[i].len() {
                            assert(e0[i].contains(e0[i][b]) ==> e0[i][b] != u);
                        } else if b == e0[i].len() {
                            assert(e0[i].contains(e0[i][a]) ==> e0[i][a] != u);
                        }
                    }
                }
            }
            assert forall|w: usize| w < e.len() implies !(#[trigger] e[w as int].contains(w)) by {
                assert(!e0[w as int].contains(w));
            }
            assert forall|i: int, k: int|
                0 <= i < e.len() && 0 <= k < e[i].len() implies (#[trigger] e[i][k]) < e.len() by {
                assert(e[i].contains(e[i][k]));
                if i == u as int {
                    if e0[i].contains(e[i][k]) {
                        lemma_adj_wf_member_range(e0, i, e[i][k]);
                    }
                } else if i == v as int {
                    if e0[i].contains(e[i][k]) {
                        lemma_adj_wf_member_range(e0, i, e[i][k]);
                    }
                } else {
                    lemma_adj_wf_member_range(e0, i, e[i][k]);
                }
            }
            assert forall|u2: usize, v2: usize|
                u2 < e.len() && v2 < e.len() && #[trigger] e[u2 as int].contains(v2) implies e[
            v2 as int].contains(u2) by {
                if u2 == u && e0[u2 as int].contains(v2) {
                    assert(e0[v2 as int].contains(u2));
                } else if u2 == v && e0[u2 as int].contains(v2) {
                    assert(e0[v2 as int].contains(u2));
                }
            }
        }
    }

    /// Removes the undirected edge `u -- v` from both adjacency lists;
    /// an absent edge leaves the lists as they were.
    pub fn remove_edge(&mut self, pair: (usize, usize))
        requires
            old(self).wf(),
            pair.0 < old(self).nodes,
            pair.1 < old(self).nodes,
        ensures
            final(self).wf(),
            final(self).nodes == old(self).nodes,
            final(self).adj() == old(self).adj().update(
                pair.0 as int,
                without(old(self).adj()[pair.0 as int], pair.1),
            ).update(pair.1 as int, without(old(self).adj()[pair.1 as int], pair.0)),
    {
        let (u, v) = pair;
        remove_value(&mut self.edges[u], v);
        remove_value(&mut self.edges[v], u);
        proof {
            let e0 = old(self).adj();
            let e = self.adj();
            if u == v {
                lemma_without_idempotent(e0[u as int], u);
                assert(e =~= e0.update(u as int, without(e0[u as int], v)).update(
                    v as int,
                    without(e0[v as int], u),
                ));
            } else {
                assert(e =~= e0.update(u as int, without(e0[u as int], v)).update(
                    v as int,
                    without(e0[v as int], u),
                ));
            }
            assert forall|i: int| 0 <= i < e.len() implies (#[trigger] e[i]).no_duplicates() by {
                assert(e0[i].no_duplicates());
                if i == v as int {
                    lemma_without_no_duplicates(e0[i], u);
                } else if i == u as int {
                    lemma_without_no_duplicates(e0[i], v);
                }
            }
            assert forall|w: usize| w < e.len() implies !(#[trigger] e[w as int].contains(w)) by {
                assert(!e0[w as int].contains(w));
                if w == v {
                    lemma_without_contains(e0[w as int], u, w);
                } else if w == u {
                    lemma_without_contains(e0[w as int], v, w);
                }
            }
            assert forall|i: int, k: int|
                0 <= i < e.len() && 0 <= k < e[i].len() implies (#[trigger] e[i][k]) < e.len() by {
                assert(e[i].contains(e[i][k]));
                if i == v as int {
                    lemma_without_contains(e0[i], u, e[i][k]);
                } else if i == u as int {
                    lemma_without_contains(e0[i], v, e[i][k]);
                }
                assert(e0[i].contains(e[i][k]));
                let k0 = choose|k0: int| 0 <= k0 < e0[i].len() && e0[i][k0] == e[i][k];
                assert(e0[i][k0] < e0.len());
            }
            assert forall|u2: usize, v2: usize|
                u2 < e.len() && v2 < e.len() && #[trigger] e[u2 as int].contains(v2) implies e[
                v2 as int].contains(u2) by {
                lemma_remove_edge_membership(e0, u, v, u2, v2);
                lemma_remove_edge_membership(e0, u, v, v2, u2);
                assert(e0[u2 as int].contains(v2));
                assert(e0[v2 as int].contains(u2));
            }
        }
    }

    /// Isolates vertex `n`: deletes `n` from every adjacency list and
    /// empties `n`'s own list. The vertex count does not change.
    pub fn remove_node(&mut self, n: usize)
        requires
            old(self).wf(),
            n < old(self).nodes,
        ensures
            final(self).wf(),
            final(self).nodes == old(self).nodes,
            final(self).adj() == remove_node_model(old(self).adj(), n),
    {
        let mut i: usize = 0;
        #[verifier::loop_isolation(false)]
        while i < self.edges.len()
            invariant
                i <= self.edges@.len(),
                self.edges@.len() == old(self).edges@.len(),
                self.nodes == old(self).nodes,
                forall|j: int| i <= j < self.edges@.len() ==> self.adj()[j] == old(self).adj()[j],
                forall|j: int|
                    0 <= j < i ==> self.adj()[j] == remove_node_model(old(self).adj(), n)[j],
            decreases self.edges@.len() - i,
        {
            let ghost pre = self.adj();
            if i == n {
                self.edges[i].clear();
                proof {
                    assert(self.adj() =~= pre.update(i as int, Seq::<usize>::empty()));
                }
            } else {
                remove_value(&mut self.edges[i], n);
                proof {
                    assert(self.adj() =~= pre.update(i as int, without(pre[i as int], n)));
                }
            }
            i += 1;
        }
        proof {
            let e0 = old(self).adj();
            let e = self.adj();
            assert(e =~= remove_node_model(e0, n));
            lemma_remove_node_model_wf(e0, n);
        }
    }
}

/// Membership after removing the edge `u -- v`: `b` is a neighbor of `a`
/// exactly when it was one before and `{a, b}` is not `{u, v}`.
proof fn lemma_remove_edge_membership(e0: Seq<Seq<usize>>, u: usize, v: usize, a: usize, b: usize)
    requires
        adj_wf(e0),
        u < e0.len(),
        v < e0.len(),
        a < e0.len(),
        b < e0.len(),
    ensures
        ({
            let e = e0.update(u as int, without(e0[u as int], v)).update(
                v as int,
                without(e0[v as int], u),
            );
            e[a as int].contains(b) <==> (e0[a as int].contains(b) && !((a == u && b == v) || (a
                == v && b == u)))
        }),
{
    let e = e0.update(u as int, without(e0[u as int], v)).update(
        v as int,
        without(e0[v as int], u),
    );
    if a == v {
        if u == v {
            lemma_without_idempotent(e0[a as int], u);
            lemma_without_contains(e0[a as int], u, b);
        } else {
            lemma_without_contains(e0[a as int], u, b);
        }
    } else if a == u {
        lemma_without_contains(e0[a as int], v, b);
    }
}

pub proof fn lemma_remove_node_model_wf(e0: Seq<Seq<usize>>, n: usize)
    requires
        adj_wf(e0),
    ensures
        adj_wf(remove_node_model(e0, n)),
{
    let e = remove_node_model(e0, n);
    assert forall|i: int| 0 <= i < e.len() implies (#[trigger] e[i]).no_duplicates() by {
        if i != n as int {
            lemma_without_no_duplicates(e0[i], n);
        }
    }
    assert forall|u: usize| u < e.len() implies !(#[trigger] e[u as int].contains(u)) by {
        if u as int != n as int {
            lemma_without_contains(e0[u as int], n, u);
        }
    }
    assert forall|i: int, k: int|
        0 <= i < e.len() && 0 <= k < e[i].len() implies (#[trigger] e[i][k]) < e.len() by {
        assert(i != n as int);
        assert(e[i].contains(e[i][k]));
        lemma_without_contains(e0[i], n, e[i][k]);
        let k0 = choose|k0: int| 0 <= k0 < e0[i].len() && e0[i][k0] == e[i][k];
        assert(e0[i][k0] < e0.len());
    }
    assert forall|u: usize, v: usize|
        u < e.len() && v < e.len() && #[trigger] e[u as int].contains(v) implies e[v as int]
        .contains(u) by {
        assert(u as int != n as int);
        lemma_without_contains(e0[u as int], n, v);
        assert(e0[u as int].contains(v) && v != n);
        assert(e0[v as int].contains(u));
        lemma_without_contains(e0[v as int], n, u);
    }
}

/// In a well-formed adjacency structure every listed neighbor is in range.
pub proof fn lemma_adj_wf_member_range(e: Seq<Seq<usize>>, i: int, w: usize)
    requires
        adj_wf(e),
        0 <= i < e.len(),
        e[i].contains(w),
    ensures
        w < e.len(),
{
    let k = choose|k: int| 0 <= k < e[i].len() && e[i][k] == w;
    assert(e[i][k] < e.len());
}

/// Both endpoints of a serialized edge lie inside the declared count.
pub open spec fn pair_in_range(p: (usize, usize), n: usize) -> bool {
    p.0 < n && p.1 < n
}

/// A serialized edge is well formed: endpoints in range and no self loop.
pub open spec fn pair_ok(p: (usize, usize), n: usize) -> bool {
    pair_in_range(p, n) && p.0 != p.1
}

/// Edge membership after `add_edge((u, v))`: exactly the old edges plus
/// `u -- v` in both orientations (when `u != v`).
pub proof fn lemma_add_edge_membership(g0: Graph, g: Graph, u: usize, v: usize)
    requires
        g0.wf(),
        u < g0.nodes,
        v < g0.nodes,
        g.nodes == g0.nodes,
        g.adj() == if u == v || g0.has_edge(u, v) {
            g0.adj()
        } else {
            g0.adj().update(u as int, g0.adj()[u as int].push(v)).update(
                v as int,
                g0.adj()[v as int].push(u),
            )
        },
    ensures
        forall|a: usize, b: usize|
            #[trigger] g.has_edge(a, b) <==> (g0.has_edge(a, b) || (u != v && ((a == u && b == v)
                || (a == v && b == u)))),
{
    if u == v || g0.has_edge(u, v) {
        assert(adj_wf(g0.adj()));
        assert forall|a: usize, b: usize| #[trigger]
            g.has_edge(a, b) <==> (g0.has_edge(a, b) || (u != v && ((a == u && b == v) || (a == v
                && b == u)))) by {
            if u != v && a == v && b == u {
                assert(g0.has_edge(u, v) ==> g0.has_edge(v, u));
            }
        }
    } else {
        let e0 = g0.adj();
        let e = g.adj();
        assert forall|a: usize, b: usize| #[trigger]
            g.has_edge(a, b) <==> (g0.has_edge(a, b) || (u != v && ((a == u && b == v) || (a == v
                && b == u)))) by {
            if a < g.nodes && b < g.nodes {
                if a == v {
                    assert(e[a as int] == e0[a as int].push(u));
                    assert(e[a as int].contains(b) <==> e0[a as int].contains(b) || b == u);
                } else if a == u {
                    assert(e[a as int] == e0[a as int].push(v));
                    assert(e[a as int].contains(b) <==> e0[a as int].contains(b) || b == v);
                } else {
                    assert(e[a as int] == e0[a as int]);
                }
            }
        }
    }
}

/// Isolating the same vertex twice changes nothing beyond the first
/// time: node removal is idempotent.
pub proof fn lemma_remove_node_idempotent(e: Seq<Seq<usize>>, n: usize)
    ensures
        remove_node_model(remove_node_model(e, n), n) == remove_node_model(e, n),
{
    let e1 = remove_node_model(e, n);
    let e2 = remove_node_model(e1, n);
    assert forall|i: int| 0 <= i < e.len() implies e2[i] == e1[i] by {
        if i != n as int {
            lemma_without_idempotent(e[i], n);
        }
    }
    assert(e2 =~= e1);
}

/// Inserting an absent edge and then removing the same pair restores the
/// adjacency lists exactly.
pub proof fn lemma_add_remove_edge_round_trip(e: Seq<Seq<usize>>, u: usize, v: usize)
    requires
        adj_wf(e),
        u < e.len(),
        v < e.len(),
        u != v,
        !e[u as int].contains(v),
    ensures
        ({
            let added = e.update(u as int, e[u as int].push(v)).update(
                v as int,
                e[v as int].push(u),
            );
            added.update(u as int, without(added[u as int], v)).update(
                v as int,
                without(added[v as int], u),
            ) == e
        }),
{
    let added = e.update(u as int, e[u as int].push(v)).update(v as int, e[v as int].push(u));
    assert(!e[v as int].contains(u));
    assert(added[u as int] == e[u as int].push(v));
    assert(added[v as int] == e[v as int].push(u));
    lemma_without_push(e[u as int], v, v);
    lemma_without_absent(e[u as int], v);
    lemma_without_push(e[v as int], u, u);
    lemma_without_absent(e[v as int], u);
    assert(added.update(u as int, without(added[u as int], v)).update(
        v as int,
        without(added[v as int], u),
    ) =~= e);
}

/// Whether `v` holds the value `x`.
pub fn contains_value(v: &Vec<usize>, x: usize) -> (r: bool)
    ensures
        r == v@.contains(x),
{
    let mut i: usize = 0;
    #[verifier::loop_isolation(false)]
    while i < v.len()
        invariant
            i <= v@.len(),
            forall|j: int| 0 <= j < i ==> v@[j] != x,
        decreases v@.len() - i,
    {
        if v[i] == x {
            return true;
        }
        i += 1;
    }
    false
}

/// Deletes every occurrence of `x` from `v`, keeping the order of the rest.
pub fn remove_value(v: &mut Vec<usize>, x: usize)
    ensures
        final(v)@ == without(old(v)@, x),
{
    let mut out: Vec<usize> = Vec::new();
    let mut i: usize = 0;
    #[verifier::loop_isolation(false)]
    while i < v.len()
        invariant
            i <= v@.len(),
            v@ == old(v)@,
            out@ == without(v@.take(i as int), x),
        decreases v@.len() - i,
    {
        proof {
            lemma_without_push(v@.take(i as int), x, v@[i as int]);
            assert(v@.take(i as int).push(v@[i as int]) =~= v@.take(i as int + 1));
        }
        if v[i] != x {
            out.push(v[i]);
        }
        i += 1;
    }
    proof {
        assert(v@.take(v@.len() as int) =~= v@);
    }
    *v = out;
}

} // verus!
