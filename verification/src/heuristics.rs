//! The two greedy vertex-cover heuristics.
//!
//! Both share one skeleton: rank the vertices by a scalar key in
//! decreasing order, then repeatedly take the next-ranked vertex, add it
//! to the cover and isolate it in a working copy of the graph, until no
//! edge remains. The degree-ordered variant keys each vertex by its
//! static degree in the original graph; the probability-ordered variant
//! keys it by an externally supplied score (higher means "more likely to
//! belong to an optimal cover"); scores are integer ranks, so any
//! fixed-point encoding of a probability works. The resulting cover is
//! re-verified against the untouched original graph.

use vstd::prelude::*;
use crate::cover::{
    covers, lemma_cover_removal_verifies, lemma_remove_all_all_vertices, lemma_remove_all_take_succ,
    remove_all, verify_vertex_cover,
};
use crate::graph::{adj_wf, has_edges, remove_node_model, without, Graph};

verus! {

broadcast use vstd::seq_lib::group_to_multiset_ensures;

/// One evaluation record: a named graph, the reference cover read from
/// input data, per-vertex scores, and the degree snapshot taken from the
/// untouched graph at construction time. The snapshot is the ranking key
/// of the degree-ordered heuristic and is deliberately not updated while
/// an algorithm mutates its working copy.
#[derive(Debug)]
pub struct VertexCover {
    pub name: String,
    pub graph: Graph,
    pub cover: Vec<usize>,
    pub probabilities: Vec<(usize, u64)>,
    pub degrees: Vec<(usize, usize)>,
}

impl VertexCover {
    /// The degree snapshot taken from `graph` at construction: one pair
    /// `(vertex, degree)` per vertex, in vertex order.
    pub open spec fn degree_snapshot(graph: Graph) -> Seq<(usize, usize)> {
        Seq::new(graph.adj().len(), |i: int| (i as usize, graph.adj()[i].len() as usize))
    }

    /// A fresh record for `graph`: empty reference cover and scores, and
    /// the degree of every vertex computed once from the untouched graph.
    pub fn new(name: String, graph: Graph) -> (r: VertexCover)
        ensures
            r.name == name,
            r.graph == graph,
            r.cover@ == Seq::<usize>::empty(),
            r.probabilities@ == Seq::<(usize, u64)>::empty(),
            r.degrees@ == Self::degree_snapshot(graph),
            graph.wf() ==> ranking_pairs_wf(as_rank_pairs(r.degrees@), graph.nodes),
    {
        let mut degrees: Vec<(usize, usize)> = Vec::new();
        let mut i: usize = 0;
        #[verifier::loop_isolation(false)]
        while i < graph.edges.len()
            invariant
                i <= graph.edges@.len(),
                degrees@.len() == i,
                forall|j: int|
                    0 <= j < i ==> degrees@[j] == (j as usize, graph.adj()[j].len() as usize),
            decreases graph.edges@.len() - i,
        {
            degrees.push((i, graph.edges[i].len()));
            i += 1;
        }
        proof {
            assert(degrees@ =~= Self::degree_snapshot(graph));
            let pairs = as_rank_pairs(degrees@);
            if graph.wf() {
                assert forall|v: usize| v < graph.nodes implies #[trigger] ranks_vertex(
                    pairs,
                    v,
                ) by {
                    assert(pairs[v as int].0 == v);
                }
            }
        }
        VertexCover { name, graph, cover: Vec::new(), probabilities: Vec::new(), degrees }
    }
}

/// Some ranking pair names the vertex `v`.
pub open spec fn ranks_vertex(pairs: Seq<(usize, u64)>, v: usize) -> bool {
    exists|j: int| 0 <= j < pairs.len() && (#[trigger] pairs[j]).0 == v
}

/// Ranking pairs `(vertex, key)` fit a graph of `n` vertices: every
/// ranked vertex is in range and every vertex is ranked.
pub open spec fn ranking_pairs_wf(pairs: Seq<(usize, u64)>, n: usize) -> bool {
    &&& forall|j: int| 0 <= j < pairs.len() ==> (#[trigger] pairs[j]).0 < n
    &&& forall|v: usize| v < n ==> #[trigger] ranks_vertex(pairs, v)
}

/// Keys never increase along the sequence.
pub open spec fn sorted_desc(s: Seq<(usize, u64)>) -> bool {
    forall|a: int, b: int| 0 <= a < b < s.len() ==> (#[trigger] s[a]).1 >= (#[trigger] s[b]).1
}

/// The degree snapshot pairs widened to the common ranking-key type.
pub open spec fn as_rank_pairs(degrees: Seq<(usize, usize)>) -> Seq<(usize, u64)> {
    degrees.map_values(|p: (usize, usize)| (p.0, p.1 as u64))
}

/// The ranked vertex ids, keys dropped.
pub open spec fn ids_of(pairs: Seq<(usize, u64)>) -> Seq<usize> {
    pairs.map_values(|p: (usize, u64)| p.0)
}

/// What one greedy pass over a ranking `order` leaves behind: the cover
/// is the shortest prefix of the ranked ids whose removal strips the
/// graph of every edge.
pub open spec fn greedy_outcome(
    e: Seq<Seq<usize>>,
    pairs: Seq<(usize, u64)>,
    size: int,
) -> bool {
    exists|order: Seq<(usize, u64)>|
        {
            &&& sorted_desc(order)
            &&& order.to_multiset() == pairs.to_multiset()
            &&& 0 <= size <= order.len()
            &&& !has_edges(remove_all(e, #[trigger] ids_of(order).take(size)))
            &&& forall|j: int| 0 <= j < size ==> has_edges(remove_all(e, ids_of(order).take(j)))
        }
}

/// Stable insertion sort by key, largest key first.
fn sort_pairs_desc(v: &Vec<(usize, u64)>) -> (out: Vec<(usize, u64)>)
    ensures
        sorted_desc(out@),
        out@.to_multiset() == v@.to_multiset(),
{
    let mut out: Vec<(usize, u64)> = Vec::new();
    let mut i: usize = 0;
    #[verifier::loop_isolation(false)]
    while i < v.len()
        invariant
            i <= v@.len(),
            sorted_desc(out@),
            out@.to_multiset() == v@.take(i as int).to_multiset(),
        decreases v@.len() - i,
    {
        let x = v[i];
        let mut p: usize = 0;
        #[verifier::loop_isolation(false)]
        while p < out.len() && out[p].1 >= x.1
            invariant
                p <= out@.len(),
                forall|q: int| 0 <= q < p ==> (#[trigger] out@[q]).1 >= x.1,
            decreases out@.len() - p,
        {
            p += 1;
        }
        let ghost pre = out@;
        out.insert(p, x);
        proof {
            pre.insert_ensures(p as int, x);
            assert forall|a: int, b: int| 0 <= a < b < out@.len() implies (#[trigger] out@[a]).1
                >= (#[trigger] out@[b]).1 by {
                if b == p as int {
                    assert(out@[a] == pre[a]);
                } else if a == p as int {
                    assert(out@[b] == pre[b - 1]);
                    if p < pre.len() {
                        assert(pre[p as int].1 < x.1);
                        assert(pre[b - 1].1 <= pre[p as int].1);
                    }
                }
            }
            assert(v@.take(i as int).push(v@[i as int]) =~= v@.take(i as int + 1));
        }
        i += 1;
    }
    proof {
        assert(v@.take(v@.len() as int) =~= v@);
    }
    out
}

/// Widens the degree snapshot to the common `(vertex, key)` shape.
fn degrees_as_rank_pairs(degrees: &Vec<(usize, usize)>) -> (out: Vec<(usize, u64)>)
    ensures
        out@ == as_rank_pairs(degrees@),
{
    let mut out: Vec<(usize, u64)> = Vec::new();
    let mut i: usize = 0;
    #[verifier::loop_isolation(false)]
    while i < degrees.len()
        invariant
            i <= degrees@.len(),
            out@.len() == i,
            forall|j: int|
                0 <= j < i ==> out@[j] == (#[trigger] degrees@[j].0, degrees@[j].1 as u64),
        decreases degrees@.len() - i,
    {
        let (n, d) = degrees[i];
        out.push((n, d as u64));
        i += 1;
    }
    proof {
        assert(out@ =~= as_rank_pairs(degrees@));
    }
    out
}

/// Strips the keys off a ranking.
fn ranked_ids(pairs: &Vec<(usize, u64)>) -> (out: Vec<usize>)
    ensures
        out@ == ids_of(pairs@),
{
    let mut out: Vec<usize> = Vec::new();
    let mut i: usize = 0;
    #[verifier::loop_isolation(false)]
    while i < pairs.len()
        invariant
            i <= pairs@.len(),
            out@.len() == i,
            forall|j: int| 0 <= j < i ==> out@[j] == (#[trigger] pairs@[j]).0,
        decreases pairs@.len() - i,
    {
        out.push(pairs[i].0);
        i += 1;
    }
    proof {
        assert(out@ =~= ids_of(pairs@));
    }
    out
}

/// Multiset-equal rankings rank the same vertices.
proof fn lemma_multiset_same_ids(a: Seq<(usize, u64)>, b: Seq<(usize, u64)>, n: usize)
    requires
        a.to_multiset() == b.to_multiset(),
        ranking_pairs_wf(a, n),
    ensures
        ranking_pairs_wf(b, n),
{
    assert forall|j: int| 0 <= j < b.len() implies (#[trigger] b[j]).0 < n by {
        assert(b.contains(b[j]));
        assert(b.to_multiset().count(b[j]) > 0);
        assert(a.to_multiset().count(b[j]) > 0);
        assert(a.contains(b[j]));
        let k = choose|k: int| 0 <= k < a.len() && a[k] == b[j];
        assert(a[k].0 < n);
    }
    assert forall|v: usize| v < n implies #[trigger] ranks_vertex(b, v) by {
        assert(ranks_vertex(a, v));
        let k = choose|k: int| 0 <= k < a.len() && (#[trigger] a[k]).0 == v;
        assert(a.contains(a[k]));
        assert(a.to_multiset().count(a[k]) > 0);
        assert(b.to_multiset().count(a[k]) > 0);
        assert(b.contains(a[k]));
        let j = choose|j: int| 0 <= j < b.len() && b[j] == a[k];
        assert(b[j].0 == v);
    }
}

/// The greedy pass: walk the ranked ids, and while the working copy
/// still has an edge, add the next id to the cover and isolate it.
/// Returns the cover; the caller's graph is never mutated.
fn greedy_cover(g: &Graph, order: &Vec<usize>) -> (cover: Vec<usize>)
    requires
        g.wf(),
        forall|j: int| 0 <= j < order@.len() ==> (#[trigger] order@[j]) < g.nodes,
        forall|v: usize| v < g.nodes ==> order@.contains(v),
    ensures
        cover@.len() <= order@.len(),
        cover@ == order@.take(cover@.len() as int),
        !has_edges(remove_all(g.adj(), cover@)),
        forall|j: int| 0 <= j < cover@.len() ==> has_edges(remove_all(g.adj(), order@.take(j))),
        covers(g.adj(), cover@),
{
    let order_len = order.len();
    let mut work = g.duplicate();
    let mut cover: Vec<usize> = Vec::new();
    let mut counter: usize = 0;
    let mut done = work.has_no_edges();
    #[verifier::loop_isolation(false)]
    while !done
        invariant
            work.wf(),
            work.nodes == g.nodes,
            order_len == order@.len(),
            counter <= order_len,
            cover@ == order@.take(counter as int),
            work.adj() == remove_all(g.adj(), cover@),
            done == !has_edges(work.adj()),
            forall|j: int| 0 <= j < counter ==> has_edges(remove_all(g.adj(), order@.take(j))),
        decreases order@.len() - counter,
    {
        proof {
            if counter == order@.len() {
                assert(order@.take(counter as int) =~= order@);
                lemma_remove_all_all_vertices(g.adj(), order@);
                assert(false);
            }
        }
        let nxt = order[counter];
        cover.push(nxt);
        work.remove_node(nxt);
        proof {
            lemma_remove_all_take_succ(g.adj(), order@, counter as int);
            assert(order@.take(counter as int).push(order@[counter as int]) =~= order@.take(
                counter as int + 1,
            ));
        }
        done = work.has_no_edges();
        counter += 1;
    }
    proof {
        lemma_cover_removal_verifies(g.adj(), cover@);
    }
    cover
}

/// Runs one heuristic pass over `pairs` and re-verifies the cover
/// against the untouched graph before reporting its size.
fn greedy_by_ranking(g: &Graph, pairs: &Vec<(usize, u64)>) -> (size: usize)
    requires
        g.wf(),
        ranking_pairs_wf(pairs@, g.nodes),
    ensures
        greedy_outcome(g.adj(), pairs@, size as int),
        exists|c: Seq<usize>| c.len() == size && #[trigger] covers(g.adj(), c),
{
    let sorted = sort_pairs_desc(pairs);
    proof {
        lemma_multiset_same_ids(pairs@, sorted@, g.nodes);
        assert forall|v: usize| v < g.nodes implies ids_of(sorted@).contains(v) by {
            assert(ranks_vertex(sorted@, v));
            let j = choose|j: int| 0 <= j < sorted@.len() && (#[trigger] sorted@[j]).0 == v;
            assert(ids_of(sorted@)[j] == v);
        }
    }
    let order = ranked_ids(&sorted);
    let cover = greedy_cover(g, &order);
    let ok = verify_vertex_cover(&cover, g);
    assert(ok);
    proof {
        let size = cover@.len() as int;
        assert(ids_of(sorted@).take(size) == cover@);
        assert(greedy_outcome(g.adj(), pairs@, size)) by {
            assert({
                &&& sorted_desc(sorted@)
                &&& sorted@.to_multiset() == pairs@.to_multiset()
                &&& 0 <= size <= sorted@.len()
                &&& !has_edges(remove_all(g.adj(), ids_of(sorted@).take(size)))
                &&& forall|j: int|
                    0 <= j < size ==> has_edges(remove_all(g.adj(), ids_of(sorted@).take(j)))
            });
        }
    }
    cover.len()
}

/// Whatever ranking a heuristic ran with, the cover behind the size it
/// reports dominates every edge of the graph it was given: verification
/// of a heuristic's cover always succeeds.
pub proof fn lemma_heuristic_cover_verifies(e: Seq<Seq<usize>>, pairs: Seq<(usize, u64)>, size: int)
    requires
        e.len() <= usize::MAX,
        greedy_outcome(e, pairs, size),
    ensures
        exists|c: Seq<usize>| c.len() == size && #[trigger] covers(e, c),
{
    let order = choose|order: Seq<(usize, u64)>|
        {
            &&& sorted_desc(order)
            &&& order.to_multiset() == pairs.to_multiset()
            &&& 0 <= size <= order.len()
            &&& !has_edges(remove_all(e, #[trigger] ids_of(order).take(size)))
            &&& forall|j: int| 0 <= j < size ==> has_edges(remove_all(e, ids_of(order).take(j)))
        };
    let c = ids_of(order).take(size);
    lemma_cover_removal_verifies(e, c);
    assert(c.len() == size && covers(e, c));
}

/// A star: `c` is the center, and every other vertex's adjacency list
/// holds exactly the center. With at least one leaf, the graph has an
/// edge.
pub open spec fn is_star(g: Graph, c: usize) -> bool {
    &&& g.wf()
    &&& g.nodes >= 2
    &&& c < g.nodes
    &&& forall|v: usize| v < g.nodes && v != c ==> (#[trigger] g.adj()[v as int]) == seq![c]
}

/// The vertices other than the center, in increasing order.
spec fn star_leaves(g: Graph, c: usize) -> Seq<usize> {
    Seq::new(
        (g.nodes - 1) as nat,
        |i: int|
            if i < c as int {
                i as usize
            } else {
                (i + 1) as usize
            },
    )
}

/// The center of a star has every leaf in its list.
proof fn lemma_star_center_degree(g: Graph, c: usize)
    requires
        is_star(g, c),
    ensures
        g.adj()[c as int].len() >= g.nodes - 1,
{
    let e = g.adj();
    let leaves = star_leaves(g, c);
    assert(leaves.no_duplicates());
    assert forall|j: int| 0 <= j < leaves.len() implies e[c as int].contains(
        #[trigger] leaves[j],
    ) by {
        let v = leaves[j];
        assert(v < g.nodes && v != c);
        assert(e[v as int] == seq![c]);
        assert(e[v as int][0] == c);
        assert(e[v as int].contains(c));
        assert(adj_wf(e));
    }
    crate::reach::lemma_distinct_subset_len(leaves, e[c as int]);
}

/// Isolating the center of a star leaves no edge: every leaf's list held
/// only the center, and the center's own list is emptied.
proof fn lemma_star_remove_center(g: Graph, c: usize)
    requires
        is_star(g, c),
    ensures
        !has_edges(remove_node_model(g.adj(), c)),
{
    let e = g.adj();
    let r = remove_node_model(e, c);
    assert forall|i: int| 0 <= i < r.len() implies (#[trigger] r[i]).len() == 0 by {
        if i != c as int {
            let v = i as usize;
            assert(g.adj()[v as int] == seq![c]);
            assert(e[i] == seq![c]);
            assert(e[i].drop_last() =~= Seq::<usize>::empty());
            assert(e[i].last() == c);
            assert(without(Seq::<usize>::empty(), c) =~= Seq::<usize>::empty());
            assert(without(e[i], c) =~= Seq::<usize>::empty());
        }
    }
}

/// On a star with at least one leaf the degree-ordered heuristic always
/// returns a cover of size one: the first-ranked vertex has maximal
/// degree, so it is the center — or, with a single leaf, either endpoint
/// of the only edge — and isolating it strips every edge.
pub proof fn lemma_degree_heuristic_on_star(g: Graph, c: usize, size: int)
    requires
        is_star(g, c),
        greedy_outcome(g.adj(), as_rank_pairs(VertexCover::degree_snapshot(g)), size),
    ensures
        size == 1,
{
    let e = g.adj();
    let pairs = as_rank_pairs(VertexCover::degree_snapshot(g));
    let order = choose|order: Seq<(usize, u64)>|
        {
            &&& sorted_desc(order)
            &&& order.to_multiset() == pairs.to_multiset()
            &&& 0 <= size <= order.len()
            &&& !has_edges(remove_all(e, #[trigger] ids_of(order).take(size)))
            &&& forall|j: int| 0 <= j < size ==> has_edges(remove_all(e, ids_of(order).take(j)))
        };
    let ids = ids_of(order);
    // The graph has an edge: any leaf's list is nonempty.
    let leaf: usize = if c == 0 {
        1
    } else {
        0
    };
    assert(e[leaf as int] == seq![c]);
    assert(has_edges(e)) by {
        assert(0 <= (leaf as int) && (leaf as int) < e.len() && e[leaf as int].len() == 1);
    }
    // So the empty prefix leaves edges, and the cover is not empty.
    assert(ids.take(0) =~= Seq::<usize>::empty());
    assert(remove_all(e, ids.take(0)) == e);
    assert(size != 0);
    // The first-ranked vertex: its pair occurs among the degree pairs.
    assert(order.len() == pairs.len()) by {
        order.to_multiset_ensures();
        pairs.to_multiset_ensures();
    }
    assert(order.len() > 0);
    // Every adjacency list is short enough for its length to survive the
    // key casts below.
    assert forall|i: int| 0 <= i < e.len() implies (#[trigger] e[i]).len() <= g.nodes by {
        assert(adj_wf(e));
        crate::reach::lemma_distinct_bounded(e[i], g.nodes);
    }
    let first = order[0];
    assert(pairs.contains(first)) by {
        assert(order.contains(order[0]));
        assert(order.to_multiset().count(first) > 0);
        assert(pairs.to_multiset().count(first) > 0);
    }
    let fj = choose|fj: int| 0 <= fj < pairs.len() && pairs[fj] == first;
    assert(first.0 == fj as usize && first.1 == e[fj].len() as u64) by {
        assert(pairs[fj] == (fj as usize, (e[fj].len() as usize) as u64));
    }
    // The center's pair occurs too, and sortedness bounds its key.
    assert(pairs[c as int] == (c, e[c as int].len() as u64)) by {
        assert(pairs[c as int] == (c, (e[c as int].len() as usize) as u64));
    }
    assert(pairs.contains(pairs[c as int]));
    assert(order.contains(pairs[c as int])) by {
        assert(pairs.to_multiset().count(pairs[c as int]) > 0);
        assert(order.to_multiset().count(pairs[c as int]) > 0);
    }
    let cj = choose|cj: int| 0 <= cj < order.len() && order[cj] == pairs[c as int];
    assert(first.1 >= order[cj].1) by {
        if cj > 0 {
            assert(sorted_desc(order));
        }
    }
    lemma_star_center_degree(g, c);
    assert(first.1 >= (g.nodes - 1) as u64);
    // Whoever is ranked first, isolating it leaves no edge.
    assert(ids[0] == first.0);
    if first.0 == c {
        lemma_star_remove_center(g, c);
    } else {
        // A leaf ranked first: its degree is 1, so the center's degree
        // is 1 as well and the star is a single edge; isolating either
        // endpoint empties both lists.
        assert(first.0 < g.nodes) by {
            assert(0 <= fj < e.len());
        }
        assert(g.adj()[first.0 as int] == seq![c]);
        assert(e[first.0 as int] == seq![c]);
        assert(first.1 == 1u64) by {
            assert(e[fj].len() == 1);
        }
        assert(g.nodes == 2);
        let r = remove_node_model(e, first.0);
        assert forall|i: int| 0 <= i < r.len() implies (#[trigger] r[i]).len() == 0 by {
            if i != first.0 as int {
                assert(i == c as int);
                lemma_star_center_degree(g, c);
                assert(e[c as int].len() >= 1);
                assert forall|q: int| 0 <= q < e[c as int].len() implies e[c as int][q]
                    == first.0 by {
                    assert(e[c as int][q] < g.nodes);
                    assert(!e[c as int].contains(c)) by {
                        assert(adj_wf(e));
                    }
                    if e[c as int][q] == c {
                        assert(e[c as int].contains(c)) by {
                            assert(e[c as int][q] == c);
                        }
                    }
                }
                assert(e[c as int].len() == 1) by {
                    assert(e[c as int].no_duplicates());
                    if e[c as int].len() >= 2 {
                        assert(e[c as int][0] == first.0 && e[c as int][1] == first.0);
                    }
                }
                assert(e[c as int] =~= seq![first.0]);
                assert(e[c as int].drop_last() =~= Seq::<usize>::empty());
                assert(without(Seq::<usize>::empty(), first.0) =~= Seq::<usize>::empty());
                assert(without(e[c as int], first.0) =~= Seq::<usize>::empty());
            }
        }
    }
    // One vertex suffices, so by minimality the cover has exactly one.
    assert(ids.take(1) =~= seq![ids[0]]);
    assert(seq![ids[0]].drop_last() =~= Seq::<usize>::empty());
    lemma_remove_all_take_succ(e, ids, 0);
    assert(remove_all(e, ids.take(1)) == remove_node_model(remove_all(e, ids.take(0)), ids[0]));
    assert(!has_edges(remove_all(e, ids.take(1))));
    if size > 1 {
        assert(has_edges(remove_all(e, ids.take(1))));
    }
    assert(size == 1);
}

/// The classical greedy heuristic: vertices ranked by their static
/// degree in the original graph, highest degree first. Returns the size
/// of the cover it found; the record's graph is left untouched.
pub fn greedy_vertex_cover_deg(vc: &VertexCover) -> (size: usize)
    requires
        vc.graph.wf(),
        ranking_pairs_wf(as_rank_pairs(vc.degrees@), vc.graph.nodes),
    ensures
        greedy_outcome(vc.graph.adj(), as_rank_pairs(vc.degrees@), size as int),
        exists|c: Seq<usize>| c.len() == size && #[trigger] covers(vc.graph.adj(), c),
{
    let pairs = degrees_as_rank_pairs(&vc.degrees);
    greedy_by_ranking(&vc.graph, &pairs)
}

/// The probability-ordered heuristic: vertices ranked by an externally
/// supplied score, highest first. The score carries no correctness
/// assumption: whatever the distribution, the returned size is that of a
/// cover that dominates every edge of the record's graph.
pub fn greedy_vertex_cover_probabilities(vc: &VertexCover) -> (size: usize)
    requires
        vc.graph.wf(),
        ranking_pairs_wf(vc.probabilities@, vc.graph.nodes),
    ensures
        greedy_outcome(vc.graph.adj(), vc.probabilities@, size as int),
        exists|c: Seq<usize>| c.len() == size && #[trigger] covers(vc.graph.adj(), c),
{
    greedy_by_ranking(&vc.graph, &vc.probabilities)
}

} // verus!
