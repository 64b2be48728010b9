//! Random-walk subgraph sampler.
//!
//! [`generate_random_walk`] grows a self-avoiding walk: it starts at a
//! random vertex and repeatedly appends a random unvisited neighbor of a
//! random vertex already in the walk. When no vertex of the walk has an
//! unvisited neighbor left the walk has saturated its connected
//! component, and the sampler stops early instead of resampling forever.
//! [`graph_from_walk`] then builds the induced subgraph over the walk's
//! vertices, renumbered densely in walk order, and validates with the
//! breadth-first scanner that every vertex is reachable from vertex 0 —
//! an assertion that is proved here rather than checked at run time.
//!
//! Randomness comes from an explicit, seedable generator, [`WalkRng`],
//! so that experiments can be reproduced.

use vstd::prelude::*;
use crate::graph::{
    adj_wf, contains_value, has_edges, lemma_add_edge_membership, lemma_adj_wf_member_range, Graph,
};
use crate::reach::{
    attached_to_earlier, lemma_distinct_exact, lemma_reachable_refl, lemma_reachable_step,
    reachable, walk_connected,
};
use rand::Rng;
use rand::SeedableRng;

verus! {

broadcast use vstd::seq_lib::lemma_seq_contains_after_push;

#[verifier::external_type_specification]
#[verifier::external_body]
pub struct ExStdRng(rand::rngs::StdRng);

/// The sampler's random source: an explicit, seedable generator, so a
/// test can reproduce a run. Nothing is assumed about the values it
/// yields beyond their range.
pub struct WalkRng {
    rng: rand::rngs::StdRng,
}

impl WalkRng {
    /// Relies on rand's `SeedableRng::seed_from_u64` for `StdRng`: builds
    /// a generator whose stream is a function of the seed.
    #[verifier::external_body]
    pub fn from_seed(seed: u64) -> (r: WalkRng) {
        WalkRng { rng: rand::rngs::StdRng::seed_from_u64(seed) }
    }

    /// Relies on rand's `Rng::gen_range`: a sample from `0..n` is below
    /// `n` (and the range must not be empty, or the call panics).
    #[verifier::external_body]
    fn next_below(&mut self, n: usize) -> (r: usize)
        requires
            n >= 1,
        ensures
            r < n,
    {
        self.rng.gen_range(0..n)
    }
}

/// Every neighbor of every walk vertex already lies in the walk: the
/// walk has saturated its connected component.
pub open spec fn walk_exhausted(e: Seq<Seq<usize>>, w: Seq<usize>) -> bool {
    forall|j: int, k: int|
        0 <= j < w.len() && 0 <= k < e[w[j] as int].len() ==> w.contains(
            #[trigger] e[w[j] as int][k],
        )
}

/// A vertex that the walk may grow by: in range, unvisited, and adjacent
/// to some walk vertex.
pub open spec fn candidate_ok(e: Seq<Seq<usize>>, w: Seq<usize>, m: usize) -> bool {
    &&& m < e.len()
    &&& !w.contains(m)
    &&& exists|i: int| #![auto] 0 <= i < w.len() && e[w[i] as int].contains(m)
}

/// The index of the first occurrence of `m` in `walk`, if any.
fn position_of(walk: &Vec<usize>, m: usize) -> (r: Option<usize>)
    ensures
        match r {
            Some(j) => j < walk@.len() && walk@[j as int] == m,
            None => !walk@.contains(m),
        },
{
    let mut i: usize = 0;
    #[verifier::loop_isolation(false)]
    while i < walk.len()
        invariant
            i <= walk@.len(),
            forall|j: int| 0 <= j < i ==> walk@[j] != m,
        decreases walk@.len() - i,
    {
        if walk[i] == m {
            return Some(i);
        }
        i += 1;
    }
    None
}

/// Grows a self-avoiding walk of up to `length + 1` distinct vertices,
/// seeded at a random vertex. Each later vertex is an unvisited neighbor
/// of some earlier one, picked at random among all such extensions. The
/// walk only comes back shorter than requested when its component is
/// saturated: every neighbor of every walk vertex already visited.
pub fn generate_random_walk(graph: &Graph, length: usize, rng: &mut WalkRng) -> (walk: Vec<usize>)
    requires
        graph.wf(),
        graph.nodes >= 1,
    ensures
        1 <= walk@.len() && walk@.len() <= length + 1,
        walk@.no_duplicates(),
        forall|j: int| 0 <= j < walk@.len() ==> (#[trigger] walk@[j]) < graph.nodes,
        walk_connected(graph.adj(), walk@),
        walk@.len() < length + 1 ==> walk_exhausted(graph.adj(), walk@),
{
    let ghost e = graph.adj();
    let mut walk: Vec<usize> = Vec::new();
    let start = rng.next_below(graph.nodes);
    walk.push(start);
    let mut steps: usize = 0;
    let mut exhausted = false;
    #[verifier::loop_isolation(false)]
    while steps < length && !exhausted
        invariant
            steps <= length,
            walk@.len() == steps + 1,
            walk@.no_duplicates(),
            forall|j: int| 0 <= j < walk@.len() ==> (#[trigger] walk@[j]) < graph.nodes,
            walk_connected(e, walk@),
            exhausted ==> walk_exhausted(e, walk@),
        decreases length - steps, (if exhausted { 0int } else { 1int }),
    {
        let mut candidates: Vec<usize> = Vec::new();
        let mut pos: usize = 0;
        #[verifier::loop_isolation(false)]
        while pos < walk.len()
            invariant
                pos <= walk@.len(),
                forall|c: int|
                    0 <= c < candidates@.len() ==> candidate_ok(e, walk@, #[trigger] candidates@[c]),
                forall|j: int, k: int|
                    0 <= j < pos && 0 <= k < e[walk@[j] as int].len() ==> walk@.contains(
                        #[trigger] e[walk@[j] as int][k],
                    ) || candidates@.contains(e[walk@[j] as int][k]),
            decreases walk@.len() - pos,
        {
            let u = walk[pos];
            let mut k: usize = 0;
            #[verifier::loop_isolation(false)]
            while k < graph.edges[u].len()
                invariant
                    pos < walk@.len(),
                    u == walk@[pos as int],
                    k <= e[u as int].len(),
                    forall|c: int|
                        0 <= c < candidates@.len() ==> candidate_ok(
                            e,
                            walk@,
                            #[trigger] candidates@[c],
                        ),
                    forall|j: int, k2: int|
                        0 <= j < pos && 0 <= k2 < e[walk@[j] as int].len() ==> walk@.contains(
                            #[trigger] e[walk@[j] as int][k2],
                        ) || candidates@.contains(e[walk@[j] as int][k2]),
                    forall|k2: int|
                        0 <= k2 < k ==> walk@.contains(#[trigger] e[u as int][k2])
                            || candidates@.contains(e[u as int][k2]),
                decreases e[u as int].len() - k,
            {
                let m = graph.edges[u][k];
                proof {
                    assert(e[u as int].contains(m)) by {
                        assert(e[u as int][k as int] == m);
                    }
                    lemma_adj_wf_member_range(e, u as int, m);
                }
                if !contains_value(&walk, m) {
                    candidates.push(m);
                    proof {
                        assert(candidate_ok(e, walk@, m)) by {
                            assert(0 <= (pos as int) && (pos as int) < walk@.len() && e[walk@[
                            pos as int] as int].contains(m));
                        }
                    }
                }
                k += 1;
            }
            pos += 1;
        }
        if candidates.len() == 0 {
            exhausted = true;
        } else {
            let c = rng.next_below(candidates.len());
            let nxt = candidates[c];
            let ghost prewalk = walk@;
            walk.push(nxt);
            proof {
                assert(candidate_ok(e, prewalk, nxt));
                assert forall|a: int, b: int|
                    0 <= a < walk@.len() && 0 <= b < walk@.len() && a != b implies walk@[a]
                    != walk@[b] by {
                    if a == walk@.len() - 1 {
                        assert(prewalk[b] != nxt);
                    } else if b == walk@.len() - 1 {
                        assert(prewalk[a] != nxt);
                    }
                }
                assert forall|j: int| 1 <= j < walk@.len() implies #[trigger] attached_to_earlier(
                    e,
                    walk@,
                    j,
                ) by {
                    if j < walk@.len() - 1 {
                        assert(attached_to_earlier(e, prewalk, j));
                        let i = choose|i: int|
                            #![auto]
                            0 <= i < j && e[prewalk[i] as int].contains(prewalk[j]);
                        assert(walk@[i] == prewalk[i] && walk@[j] == prewalk[j]);
                    } else {
                        let i = choose|i: int|
                            #![auto]
                            0 <= i < prewalk.len() && e[prewalk[i] as int].contains(nxt);
                        assert(walk@[i] == prewalk[i] && walk@[j] == nxt);
                    }
                }
            }
            steps += 1;
        }
    }
    walk
}

/// The adjacency of the induced, renumbered subgraph: new vertices `a`
/// and `b` are adjacent exactly when the walk vertices they stand for
/// were adjacent in the old graph.
pub open spec fn induced_adj_rel(en: Seq<Seq<usize>>, eo: Seq<Seq<usize>>, w: Seq<usize>) -> bool {
    forall|a: usize, b: usize|
        a < w.len() && b < w.len() ==> ((#[trigger] en[a as int].contains(b)) <==> eo[w[
        a as int] as int].contains(w[b as int]))
}

/// Builds the subgraph induced by the walk's vertices, renumbered to the
/// dense ids `0..walk.len()` in walk order, and validates that every new
/// vertex is reachable from new vertex 0. The caller's graph is never
/// mutated.
pub fn graph_from_walk(walk: &Vec<usize>, old_graph: &Graph) -> (g: Graph)
    requires
        old_graph.wf(),
        1 <= walk@.len(),
        walk@.no_duplicates(),
        forall|j: int| 0 <= j < walk@.len() ==> (#[trigger] walk@[j]) < old_graph.nodes,
        walk_connected(old_graph.adj(), walk@),
    ensures
        g.wf(),
        g.nodes == walk@.len(),
        induced_adj_rel(g.adj(), old_graph.adj(), walk@),
{
    let ghost eo = old_graph.adj();
    let mut g = Graph::new_with_nodes(walk.len());
    let mut i: usize = 0;
    #[verifier::loop_isolation(false)]
    while i < walk.len()
        invariant
            i <= walk@.len(),
            g.wf(),
            g.nodes == walk@.len(),
            forall|a: usize, b: usize|
                a < g.nodes && b < g.nodes && #[trigger] g.adj()[a as int].contains(b) ==> eo[walk@[
                a as int] as int].contains(walk@[b as int]),
            forall|a: int, b: usize|
                #![trigger eo[walk@[a] as int].contains(walk@[b as int])]
                0 <= a < i && b < g.nodes && eo[walk@[a] as int].contains(walk@[b as int])
                    ==> g.adj()[a].contains(b),
        decreases walk@.len() - i,
    {
        let u = walk[i];
        let ghost gi = i as int;
        let mut k: usize = 0;
        #[verifier::loop_isolation(false)]
        while k < old_graph.edges[u].len()
            invariant
                0 <= gi < walk@.len(),
                i == gi,
                u == walk@[gi],
                k <= eo[u as int].len(),
                g.wf(),
                g.nodes == walk@.len(),
                forall|a: usize, b: usize|
                    a < g.nodes && b < g.nodes && #[trigger] g.adj()[a as int].contains(b) ==> eo[
                    walk@[a as int] as int].contains(walk@[b as int]),
                forall|a: int, b: usize|
                    #![trigger eo[walk@[a] as int].contains(walk@[b as int])]
                    0 <= a < gi && b < g.nodes && eo[walk@[a] as int].contains(walk@[b as int])
                        ==> g.adj()[a].contains(b),
                forall|k2: int, b: usize|
                    #![trigger eo[u as int][k2], walk@[b as int]]
                    0 <= k2 < k && b < g.nodes && eo[u as int][k2] == walk@[b as int] ==> g.adj()[
                    gi].contains(b),
            decreases eo[u as int].len() - k,
        {
            let m = old_graph.edges[u][k];
            match position_of(walk, m) {
                Some(j) => {
                    let ghost g0 = g;
                    g.add_edge((i, j));
                    proof {
                        lemma_add_edge_membership(g0, g, i, j);
                        assert(eo[walk@[gi] as int].contains(walk@[j as int])) by {
                            assert(eo[u as int][k as int] == m);
                        }
                        assert(eo[walk@[j as int] as int].contains(walk@[gi as int])) by {
                            assert(adj_wf(eo));
                        }
                    }
                },
                None => {
                    proof {
                        assert forall|b: usize|
                            b < g.nodes && eo[u as int][k as int] == walk@[b as int] implies g.adj()[
                        gi].contains(b) by {
                            assert(walk@.contains(walk@[b as int]));
                            assert(walk@.contains(m));
                            assert(false);
                        }
                    }
                },
            }
            k += 1;
        }
        proof {
            assert forall|b: usize|
                b < g.nodes && eo[walk@[gi] as int].contains(walk@[b as int]) implies g.adj()[gi]
                .contains(b) by {
                let k2 = choose|k2: int|
                    0 <= k2 < eo[u as int].len() && eo[u as int][k2] == walk@[b as int];
                assert(eo[u as int][k2] == walk@[b as int]);
            }
        }
        i += 1;
    }
    proof {
        lemma_induced_fully_reachable(g.adj(), eo, walk@);
        assert forall|v: usize| v < g.nodes implies reachable(g.adj(), 0, v) by {
            assert(v < g.adj().len());
        }
    }
    let order = crate::reach::bfs_from(&g, 0);
    proof {
        assert forall|v: usize| v < g.nodes implies order@.contains(v) by {
            assert(reachable(g.adj(), 0, v));
        }
        lemma_distinct_exact(order@, g.nodes);
    }
    assert(order.len() == g.nodes);
    g
}

/// In the induced subgraph of a connected walk, every vertex is
/// reachable from the first: the walk attaches each vertex to an earlier
/// one, and the induced graph keeps exactly those edges.
pub proof fn lemma_induced_fully_reachable(
    en: Seq<Seq<usize>>,
    eo: Seq<Seq<usize>>,
    w: Seq<usize>,
)
    requires
        en.len() == w.len(),
        1 <= w.len() <= usize::MAX,
        induced_adj_rel(en, eo, w),
        walk_connected(eo, w),
    ensures
        forall|v: usize| v < en.len() ==> reachable(en, 0, v),
{
    assert forall|v: usize| v < en.len() implies reachable(en, 0, v) by {
        lemma_induced_reachable(en, eo, w, v);
    }
}

proof fn lemma_induced_reachable(en: Seq<Seq<usize>>, eo: Seq<Seq<usize>>, w: Seq<usize>, v: usize)
    requires
        en.len() == w.len(),
        1 <= w.len() <= usize::MAX,
        induced_adj_rel(en, eo, w),
        walk_connected(eo, w),
        v < en.len(),
    ensures
        reachable(en, 0, v),
    decreases v,
{
    if v == 0 {
        lemma_reachable_refl(en, 0);
    } else {
        assert(attached_to_earlier(eo, w, v as int));
        let j = choose|j: int| #![auto] 0 <= j < v && eo[w[j] as int].contains(w[v as int]);
        lemma_induced_reachable(en, eo, w, j as usize);
        assert(en[j].contains(v)) by {
            assert((j as usize) < w.len() && v < w.len());
        }
        lemma_reachable_step(en, 0, j as usize, v);
    }
}

/// A well-formed graph with a single vertex has no edge: its one
/// adjacency list could only name the vertex itself, which the simple
/// graph invariant forbids. This is why a walk of length zero always
/// samples a single-node graph with no edges.
pub proof fn lemma_one_vertex_no_edges(g: Graph)
    requires
        g.wf(),
        g.nodes == 1,
    ensures
        !has_edges(g.adj()),
{
    let e = g.adj();
    assert forall|i: int| 0 <= i < e.len() implies (#[trigger] e[i]).len() == 0 by {
        if e[i].len() > 0 {
            assert(e[i][0] < 1);
            assert(e[i].contains(e[i][0]));
            assert(!e[0].contains(0usize));
        }
    }
}

/// A walk stays inside any vertex set that holds its first vertex and
/// is closed under following edges — in particular inside the connected
/// component it started in.
pub proof fn lemma_walk_confined(
    e: Seq<Seq<usize>>,
    w: Seq<usize>,
    f: spec_fn(usize) -> bool,
)
    requires
        1 <= w.len(),
        forall|j: int| 0 <= j < w.len() ==> (#[trigger] w[j]) < e.len(),
        walk_connected(e, w),
        f(w.first()),
        forall|u: usize, x: usize|
            #![trigger f(u), e[u as int].contains(x)]
            u < e.len() && f(u) && e[u as int].contains(x) ==> f(x),
    ensures
        forall|j: int| 0 <= j < w.len() ==> f(#[trigger] w[j]),
{
    assert forall|j: int| 0 <= j < w.len() implies f(#[trigger] w[j]) by {
        lemma_walk_confined_at(e, w, f, j);
    }
}

proof fn lemma_walk_confined_at(
    e: Seq<Seq<usize>>,
    w: Seq<usize>,
    f: spec_fn(usize) -> bool,
    j: int,
)
    requires
        1 <= w.len(),
        forall|j2: int| 0 <= j2 < w.len() ==> (#[trigger] w[j2]) < e.len(),
        walk_connected(e, w),
        f(w.first()),
        forall|u: usize, x: usize|
            #![trigger f(u), e[u as int].contains(x)]
            u < e.len() && f(u) && e[u as int].contains(x) ==> f(x),
        0 <= j < w.len(),
    ensures
        f(w[j]),
    decreases j,
{
    if j > 0 {
        assert(attached_to_earlier(e, w, j));
        let i = choose|i: int| #![auto] 0 <= i < j && e[w[i] as int].contains(w[j]);
        lemma_walk_confined_at(e, w, f, i);
    }
}

/// A self-avoiding walk that starts inside a component enumerated by
/// the duplicate-free sequence `comp` can never outgrow it: once the
/// component is saturated the sampler must stop, with a walk no longer
/// than the component.
pub proof fn lemma_walk_bounded_by_component(e: Seq<Seq<usize>>, w: Seq<usize>, comp: Seq<usize>)
    requires
        1 <= w.len(),
        w.no_duplicates(),
        forall|j: int| 0 <= j < w.len() ==> (#[trigger] w[j]) < e.len(),
        walk_connected(e, w),
        comp.no_duplicates(),
        comp.contains(w.first()),
        forall|u: usize, x: usize|
            #![trigger comp.contains(u), e[u as int].contains(x)]
            u < e.len() && comp.contains(u) && e[u as int].contains(x) ==> comp.contains(x),
    ensures
        w.len() <= comp.len(),
{
    let f = |v: usize| comp.contains(v);
    lemma_walk_confined(e, w, f);
    assert forall|j: int| 0 <= j < w.len() implies comp.contains(#[trigger] w[j]) by {
        assert(f(w[j]));
    }
    crate::reach::lemma_distinct_subset_len(w, comp);
}

} // verus!
