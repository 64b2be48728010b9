//! Breadth-first reachability scanner.
//!
//! [`bfs_from`] walks a graph from a start vertex and returns the visited
//! vertices in discovery order: each reachable vertex exactly once, and
//! nothing else. Reachability is specified through explicit paths, and
//! the scanner's contract pins the visited set to the reachable set, so a
//! caller can confirm connectivity by comparing the count with the
//! expected component size.

use vstd::prelude::*;
use crate::graph::{adj_wf, lemma_adj_wf_member_range, lemma_without_contains,
    lemma_without_no_duplicates, without, Graph};

verus! {

broadcast use vstd::seq_lib::lemma_seq_contains_after_push;

/// `p` is a walk through `e`: nonempty, every vertex in range, and each
/// step an edge of the graph.
pub open spec fn is_path(e: Seq<Seq<usize>>, p: Seq<usize>) -> bool {
    &&& p.len() > 0
    &&& forall|k: int| 0 <= k < p.len() ==> (#[trigger] p[k]) < e.len()
    &&& forall|k: int| 0 <= k < p.len() - 1 ==> e[p[k] as int].contains(#[trigger] p[k + 1])
}

/// Some path of `e` leads from `s` to `v`.
pub open spec fn reachable(e: Seq<Seq<usize>>, s: usize, v: usize) -> bool {
    exists|p: Seq<usize>| is_path(e, p) && p.first() == s && p.last() == v
}

pub proof fn lemma_reachable_refl(e: Seq<Seq<usize>>, s: usize)
    requires
        s < e.len(),
    ensures
        reachable(e, s, s),
{
    let p = seq![s];
    assert(is_path(e, p) && p.first() == s && p.last() == s);
}

/// Reachability extends along an edge.
pub proof fn lemma_reachable_step(e: Seq<Seq<usize>>, s: usize, u: usize, v: usize)
    requires
        reachable(e, s, u),
        u < e.len(),
        e[u as int].contains(v),
        v < e.len(),
    ensures
        reachable(e, s, v),
{
    let p = choose|p: Seq<usize>| is_path(e, p) && p.first() == s && p.last() == u;
    let q = p.push(v);
    assert(forall|k: int| 0 <= k < p.len() ==> q[k] == p[k]);
    assert(is_path(e, q)) by {
        assert forall|k: int| 0 <= k < q.len() - 1 implies e[q[k] as int].contains(
            #[trigger] q[k + 1],
        ) by {
            if k == q.len() - 2 {
                assert(q[k] == p.last() && q[k + 1] == v);
            }
        }
    }
    assert(q.first() == s && q.last() == v);
}

/// Every vertex reachable from `s` lies in any set of vertices that
/// holds `s` and is closed under following edges.
pub proof fn lemma_closed_under_edges(
    e: Seq<Seq<usize>>,
    f: spec_fn(usize) -> bool,
    s: usize,
    v: usize,
)
    requires
        f(s),
        forall|u: usize, w: usize|
            #![trigger f(u), e[u as int].contains(w)]
            u < e.len() && f(u) && e[u as int].contains(w) ==> f(w),
        reachable(e, s, v),
    ensures
        f(v),
{
    let p = choose|p: Seq<usize>| is_path(e, p) && p.first() == s && p.last() == v;
    lemma_closed_along_path(e, f, p);
}

proof fn lemma_closed_along_path(e: Seq<Seq<usize>>, f: spec_fn(usize) -> bool, p: Seq<usize>)
    requires
        is_path(e, p),
        f(p.first()),
        forall|u: usize, w: usize|
            #![trigger f(u), e[u as int].contains(w)]
            u < e.len() && f(u) && e[u as int].contains(w) ==> f(w),
    ensures
        f(p.last()),
    decreases p.len(),
{
    if p.len() > 1 {
        let q = p.drop_last();
        assert(forall|k: int| 0 <= k < q.len() ==> q[k] == p[k]);
        assert(is_path(e, q));
        assert(q.first() == p.first());
        lemma_closed_along_path(e, f, q);
        assert(e[p[p.len() - 2] as int].contains(p[p.len() - 2 + 1]));
        assert(f(p.last()));
    }
}

/// Vertex `w[j]` is a neighbor of some earlier vertex of the walk.
pub open spec fn attached_to_earlier(e: Seq<Seq<usize>>, w: Seq<usize>, j: int) -> bool {
    exists|i: int| #![auto] 0 <= i < j && e[w[i] as int].contains(w[j])
}

/// Every vertex of the walk after the first extends an earlier one: the
/// walk is connected by construction.
pub open spec fn walk_connected(e: Seq<Seq<usize>>, w: Seq<usize>) -> bool {
    forall|j: int| 1 <= j < w.len() ==> #[trigger] attached_to_earlier(e, w, j)
}

/// Deleting one value from a duplicate-free sequence shortens it by one
/// exactly when the value was present.
pub proof fn lemma_without_len_distinct(s: Seq<usize>, x: usize)
    requires
        s.no_duplicates(),
    ensures
        without(s, x).len() == if s.contains(x) {
            s.len() - 1
        } else {
            s.len() as int
        },
    decreases s.len(),
{
    if s.len() > 0 {
        let d = s.drop_last();
        assert(d.no_duplicates());
        lemma_without_len_distinct(d, x);
        assert(s.contains(s.last())) by {
            assert(s[s.len() - 1] == s.last());
        }
        assert(forall|i: int| 0 <= i < s.len() - 1 ==> d[i] == s[i]);
        assert(s.contains(x) <==> (d.contains(x) || s.last() == x)) by {
            assert(s =~= d.push(s.last()));
        }
        if s.last() == x {
            assert(!d.contains(x));
        }
    }
}

/// A duplicate-free sequence of values below `n` has at most `n` entries.
pub proof fn lemma_distinct_bounded(s: Seq<usize>, n: usize)
    requires
        s.no_duplicates(),
        forall|j: int| 0 <= j < s.len() ==> (#[trigger] s[j]) < n,
    ensures
        s.len() <= n,
    decreases n,
{
    if n == 0 {
        if s.len() > 0 {
            assert(s[0] < 0);
        }
    } else {
        let x = (n - 1) as usize;
        let t = without(s, x);
        lemma_without_no_duplicates(s, x);
        lemma_without_len_distinct(s, x);
        assert forall|j: int| 0 <= j < t.len() implies (#[trigger] t[j]) < (n - 1) as usize by {
            assert(t.contains(t[j]));
            lemma_without_contains(s, x, t[j]);
            let k = choose|k: int| 0 <= k < s.len() && s[k] == t[j];
        }
        lemma_distinct_bounded(t, (n - 1) as usize);
    }
}

/// A duplicate-free sequence of values below `n` that holds every value
/// below `n` has exactly `n` entries.
pub proof fn lemma_distinct_exact(s: Seq<usize>, n: usize)
    requires
        s.no_duplicates(),
        forall|j: int| 0 <= j < s.len() ==> (#[trigger] s[j]) < n,
        forall|v: usize| v < n ==> s.contains(v),
    ensures
        s.len() == n,
    decreases n,
{
    if n == 0 {
        if s.len() > 0 {
            assert(s[0] < 0);
        }
    } else {
        let x = (n - 1) as usize;
        let t = without(s, x);
        lemma_without_no_duplicates(s, x);
        lemma_without_len_distinct(s, x);
        assert(s.contains(x));
        assert forall|j: int| 0 <= j < t.len() implies (#[trigger] t[j]) < (n - 1) as usize by {
            assert(t.contains(t[j]));
            lemma_without_contains(s, x, t[j]);
            let k = choose|k: int| 0 <= k < s.len() && s[k] == t[j];
        }
        assert forall|v: usize| v < (n - 1) as usize implies t.contains(v) by {
            lemma_without_contains(s, x, v);
        }
        lemma_distinct_exact(t, (n - 1) as usize);
    }
}

/// A duplicate-free sequence whose values all occur in another
/// duplicate-free sequence is no longer than it.
pub proof fn lemma_distinct_subset_len(s1: Seq<usize>, s2: Seq<usize>)
    requires
        s1.no_duplicates(),
        s2.no_duplicates(),
        forall|j: int| 0 <= j < s1.len() ==> s2.contains(#[trigger] s1[j]),
    ensures
        s1.len() <= s2.len(),
    decreases s2.len(),
{
    if s1.len() > 0 {
        let x = s2.last();
        let t1 = without(s1, x);
        let t2 = s2.drop_last();
        lemma_without_no_duplicates(s1, x);
        lemma_without_len_distinct(s1, x);
        assert(t2.no_duplicates());
        assert(s2.contains(s1[0]));
        assert(s2.len() > 0);
        assert forall|j: int| 0 <= j < t1.len() implies t2.contains(#[trigger] t1[j]) by {
            assert(t1.contains(t1[j]));
            lemma_without_contains(s1, x, t1[j]);
            assert(s1.contains(t1[j]) && t1[j] != x);
            let a = choose|a: int| 0 <= a < s1.len() && s1[a] == t1[j];
            assert(s2.contains(s1[a]));
            let b = choose|b: int| 0 <= b < s2.len() && s2[b] == s1[a];
            assert(b < s2.len() - 1) by {
                assert(s2[s2.len() - 1] == x);
            }
            assert(t2[b] == s2[b]);
        }
        lemma_distinct_subset_len(t1, t2);
    }
}

/// Breadth-first scan from `start`: returns the reachable vertices, each
/// exactly once, in discovery order, starting with `start` itself. Each
/// later vertex is adjacent to one discovered before it.
pub fn bfs_from(graph: &Graph, start: usize) -> (order: Vec<usize>)
    requires
        graph.wf(),
        start < graph.nodes,
    ensures
        order@.no_duplicates(),
        order@.len() > 0 && order@[0] == start,
        walk_connected(graph.adj(), order@),
        forall|j: int|
            0 <= j < order@.len() ==> (#[trigger] order@[j]) < graph.nodes && reachable(
                graph.adj(),
                start,
                order@[j],
            ),
        forall|v: usize|
            v < graph.nodes ==> (reachable(graph.adj(), start, v) <==> order@.contains(v)),
{
    let ghost e = graph.adj();
    let mut visited: Vec<bool> = Vec::new();
    let mut i: usize = 0;
    #[verifier::loop_isolation(false)]
    while i < graph.nodes
        invariant
            i <= graph.nodes,
            visited@.len() == i,
            forall|j: int| 0 <= j < i ==> !(#[trigger] visited@[j]),
        decreases graph.nodes - i,
    {
        visited.push(false);
        i += 1;
    }
    let mut queue: Vec<usize> = Vec::new();
    queue.push(start);
    visited[start] = true;
    proof {
        lemma_reachable_refl(e, start);
    }
    let mut head: usize = 0;
    #[verifier::loop_isolation(false)]
    while head < queue.len()
        invariant
            visited@.len() == graph.nodes,
            head <= queue@.len(),
            queue@.no_duplicates(),
            queue@.len() > 0 && queue@[0] == start,
            walk_connected(e, queue@),
            forall|j: int|
                0 <= j < queue@.len() ==> (#[trigger] queue@[j]) < graph.nodes && reachable(
                    e,
                    start,
                    queue@[j],
                ),
            forall|v: usize| v < graph.nodes ==> (visited@[v as int] <==> queue@.contains(v)),
            forall|j: int, k: int|
                0 <= j < head && 0 <= k < e[queue@[j] as int].len() ==> visited@[(
                #[trigger] e[queue@[j] as int][k]) as int],
        decreases graph.nodes - head,
    {
        proof {
            lemma_distinct_bounded(queue@, graph.nodes);
        }
        let u = queue[head];
        let ghost gu = u;
        let mut k: usize = 0;
        #[verifier::loop_isolation(false)]
        while k < graph.edges[u].len()
            invariant
                u == gu,
                u == queue@[head as int],
                head < queue@.len(),
                k <= e[u as int].len(),
                visited@.len() == graph.nodes,
                queue@.no_duplicates(),
                queue@.len() > 0 && queue@[0] == start,
                walk_connected(e, queue@),
                forall|j: int|
                    0 <= j < queue@.len() ==> (#[trigger] queue@[j]) < graph.nodes && reachable(
                        e,
                        start,
                        queue@[j],
                    ),
                forall|v: usize| v < graph.nodes ==> (visited@[v as int] <==> queue@.contains(v)),
                forall|j: int, k2: int|
                    0 <= j < head && 0 <= k2 < e[queue@[j] as int].len() ==> visited@[(
                    #[trigger] e[queue@[j] as int][k2]) as int],
                forall|k2: int| 0 <= k2 < k ==> visited@[(#[trigger] e[u as int][k2]) as int],
            decreases e[u as int].len() - k,
        {
            let m = graph.edges[u][k];
            proof {
                assert(e[u as int].contains(m)) by {
                    assert(e[u as int][k as int] == m);
                }
                lemma_adj_wf_member_range(e, u as int, m);
            }
            if !visited[m] {
                visited[m] = true;
                let ghost prequeue = queue@;
                queue.push(m);
                proof {
                    lemma_reachable_step(e, start, u, m);
                    assert forall|a: int, b: int|
                        0 <= a < queue@.len() && 0 <= b < queue@.len() && a != b implies queue@[a]
                        != queue@[b] by {
                        if a == queue@.len() - 1 {
                            assert(!prequeue.contains(m));
                            assert(prequeue[b] != m);
                        } else if b == queue@.len() - 1 {
                            assert(!prequeue.contains(m));
                            assert(prequeue[a] != m);
                        }
                    }
                    assert forall|j: int| 1 <= j < queue@.len() implies
                        #[trigger] attached_to_earlier(e, queue@, j) by {
                        if j < queue@.len() - 1 {
                            assert(attached_to_earlier(e, prequeue, j));
                            let i = choose|i: int|
                                #![auto]
                                0 <= i < j && e[prequeue[i] as int].contains(prequeue[j]);
                            assert(queue@[i] == prequeue[i] && queue@[j] == prequeue[j]);
                        } else {
                            assert(queue@[head as int] == u && queue@[j] == m);
                            assert(0 <= (head as int) && (head as int) < j && e[queue@[
                            head as int] as int].contains(queue@[j]));
                        }
                    }
                    assert forall|v: usize| v < graph.nodes implies (visited@[v as int]
                        <==> queue@.contains(v)) by {
                        if v == m {
                            assert(queue@[queue@.len() - 1] == m);
                            assert(queue@.contains(m));
                        } else {
                            assert(queue@.contains(v) <==> prequeue.contains(v)) by {
                                assert(queue@ =~= prequeue.push(m));
                            }
                        }
                    }
                }
            }
            k += 1;
        }
        head += 1;
    }
    proof {
        let f = |v: usize| queue@.contains(v);
        assert forall|u2: usize, w: usize|
            #![trigger f(u2), e[u2 as int].contains(w)]
            u2 < e.len() && f(u2) && e[u2 as int].contains(w) implies f(w) by {
            let j = choose|j: int| 0 <= j < queue@.len() && queue@[j] == u2;
            let k2 = choose|k2: int| 0 <= k2 < e[u2 as int].len() && e[u2 as int][k2] == w;
            assert(visited@[e[queue@[j] as int][k2] as int]);
            lemma_adj_wf_member_range(e, u2 as int, w);
        }
        assert forall|v: usize|
            v < graph.nodes && reachable(e, start, v) implies queue@.contains(v) by {
            assert(f(start));
            lemma_closed_under_edges(e, f, start, v);
        }
    }
    queue
}

} // verus!
