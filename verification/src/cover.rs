//! Cover verification: does a candidate set of vertices dominate every edge?
//!
//! The module also holds the model of repeated node removal,
//! [`remove_all`], which the greedy heuristics are specified with, and the
//! proof that a vertex set whose removal leaves the graph edge-free covers
//! every edge of the original graph.

use vstd::prelude::*;
use crate::graph::{
    adj_wf, has_edges, lemma_remove_node_model_wf, lemma_without_contains, remove_node_model,
    without, Graph,
};

verus! {

/// Every edge of `e` has at least one endpoint in `c`.
pub open spec fn covers(e: Seq<Seq<usize>>, c: Seq<usize>) -> bool {
    forall|i: int, k: int|
        0 <= i < e.len() && 0 <= k < e[i].len() ==> c.contains(i as usize) || c.contains(
            #[trigger] e[i][k],
        )
}

/// `e` after isolating, in order, every vertex of `order`.
pub open spec fn remove_all(e: Seq<Seq<usize>>, order: Seq<usize>) -> Seq<Seq<usize>>
    decreases order.len(),
{
    if order.len() == 0 {
        e
    } else {
        remove_node_model(remove_all(e, order.drop_last()), order.last())
    }
}

pub proof fn lemma_remove_all_len(e: Seq<Seq<usize>>, order: Seq<usize>)
    ensures
        remove_all(e, order).len() == e.len(),
    decreases order.len(),
{
    if order.len() > 0 {
        lemma_remove_all_len(e, order.drop_last());
    }
}

pub proof fn lemma_remove_all_wf(e: Seq<Seq<usize>>, order: Seq<usize>)
    requires
        adj_wf(e),
    ensures
        adj_wf(remove_all(e, order)),
    decreases order.len(),
{
    if order.len() > 0 {
        lemma_remove_all_wf(e, order.drop_last());
        lemma_remove_node_model_wf(remove_all(e, order.drop_last()), order.last());
    }
}

/// Peeling one more vertex off a prefix of `order`.
pub proof fn lemma_remove_all_take_succ(e: Seq<Seq<usize>>, order: Seq<usize>, j: int)
    requires
        0 <= j < order.len(),
    ensures
        remove_all(e, order.take(j + 1)) == remove_node_model(
            remove_all(e, order.take(j)),
            order[j],
        ),
{
    assert(order.take(j + 1).drop_last() =~= order.take(j));
    assert(order.take(j + 1).last() == order[j]);
}

/// An edge neither endpoint of which is removed survives the removals.
pub proof fn lemma_edge_survives(e: Seq<Seq<usize>>, s: Seq<usize>, u: usize, m: usize)
    requires
        0 <= u < e.len(),
        e[u as int].contains(m),
        !s.contains(u),
        !s.contains(m),
    ensures
        remove_all(e, s)[u as int].contains(m),
    decreases s.len(),
{
    if s.len() > 0 {
        assert(s.contains(s.last())) by {
            assert(s[s.len() - 1] == s.last());
        }
        assert(forall|i: int| 0 <= i < s.len() - 1 ==> s.drop_last()[i] == s[i]);
        assert(!s.drop_last().contains(u) && !s.drop_last().contains(m));
        lemma_edge_survives(e, s.drop_last(), u, m);
        let rec = remove_all(e, s.drop_last());
        lemma_remove_all_len(e, s.drop_last());
        assert(s.last() != u && s.last() != m);
        lemma_without_contains(rec[u as int], s.last(), m);
    }
}

/// A removed vertex's adjacency list ends up empty.
pub proof fn lemma_remove_all_cleared(e: Seq<Seq<usize>>, s: Seq<usize>, i: int)
    requires
        e.len() <= usize::MAX,
        0 <= i < e.len(),
        s.contains(i as usize),
    ensures
        remove_all(e, s)[i].len() == 0,
    decreases s.len(),
{
    assert(s.len() > 0) by {
        let k0 = choose|k0: int| 0 <= k0 < s.len() && s[k0] == i as usize;
    }
    lemma_remove_all_len(e, s.drop_last());
    let rec = remove_all(e, s.drop_last());
    if s.last() == i as usize {
        assert(remove_all(e, s)[i] == Seq::<usize>::empty());
    } else {
        let k = choose|k: int| 0 <= k < s.len() && s[k] == i as usize;
        assert(k < s.len() - 1);
        assert(s.drop_last()[k] == i as usize);
        assert(s.drop_last().contains(i as usize));
        lemma_remove_all_cleared(e, s.drop_last(), i);
        assert(remove_all(e, s)[i] == without(rec[i], s.last()));
        assert(without(rec[i], s.last()) == Seq::<usize>::empty());
    }
}

/// Removing every vertex of the graph leaves no edge anywhere.
pub proof fn lemma_remove_all_all_vertices(e: Seq<Seq<usize>>, s: Seq<usize>)
    requires
        e.len() <= usize::MAX,
        forall|v: usize| v < e.len() ==> s.contains(v),
    ensures
        !has_edges(remove_all(e, s)),
{
    lemma_remove_all_len(e, s);
    assert forall|i: int| 0 <= i < remove_all(e, s).len() implies (#[trigger] remove_all(e, s)[i]).len()
        == 0 by {
        assert(s.contains(i as usize));
        lemma_remove_all_cleared(e, s, i);
    }
}

/// A set of vertices whose removal leaves the graph edge-free covers
/// every edge of the original graph.
pub proof fn lemma_cover_removal_verifies(e: Seq<Seq<usize>>, c: Seq<usize>)
    requires
        e.len() <= usize::MAX,
        !has_edges(remove_all(e, c)),
    ensures
        covers(e, c),
{
    lemma_remove_all_len(e, c);
    assert forall|i: int, k: int|
        0 <= i < e.len() && 0 <= k < e[i].len() implies c.contains(i as usize) || c.contains(
        #[trigger] e[i][k],
    ) by {
        if !c.contains(i as usize) && !c.contains(e[i][k]) {
            assert(e[i].contains(e[i][k]));
            lemma_edge_survives(e, c, i as usize, e[i][k]);
            assert(remove_all(e, c)[i].len() > 0);
            assert(has_edges(remove_all(e, c)));
        }
    }
}

/// Returns true iff every edge of `graph` has at least one endpoint in
/// `vc`. The check reads the adjacency lists directly and never mutates
/// the caller's graph.
pub fn verify_vertex_cover(vc: &Vec<usize>, graph: &Graph) -> (r: bool)
    ensures
        r == covers(graph.adj(), vc@),
{
    let mut i: usize = 0;
    #[verifier::loop_isolation(false)]
    while i < graph.edges.len()
        invariant
            i <= graph.edges@.len(),
            forall|i2: int, k: int|
                0 <= i2 < i && 0 <= k < graph.adj()[i2].len() ==> vc@.contains(i2 as usize)
                    || vc@.contains(#[trigger] graph.adj()[i2][k]),
        decreases graph.edges@.len() - i,
    {
        if !crate::graph::contains_value(vc, i) {
            let mut k: usize = 0;
            #[verifier::loop_isolation(false)]
            while k < graph.edges[i].len()
                invariant
                    0 <= (i as int) && (i as int) < graph.edges@.len(),
                    !vc@.contains(i as usize),
                    k <= graph.adj()[i as int].len(),
                    forall|k2: int|
                        0 <= k2 < k ==> vc@.contains(#[trigger] graph.adj()[i as int][k2]),
                decreases graph.adj()[i as int].len() - k,
            {
                let m = graph.edges[i][k];
                if !crate::graph::contains_value(vc, m) {
                    proof {
                        assert(graph.adj()[i as int][k as int] == m);
                        assert(!(vc@.contains(i as usize) || vc@.contains(
                            graph.adj()[i as int][k as int],
                        )));
                    }
                    return false;
                }
                k += 1;
            }
        }
        i += 1;
    }
    true
}

} // verus!
