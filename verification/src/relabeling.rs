//! Renaming the nodes of a graph: colors, degrees and edge ids follow, so symmetric edges are in
//! the same orbit.

use crate::candidates;
use crate::color_refinement;
use crate::color_refinement::ColorRefinement;
use crate::counting;
use crate::edge_signature;
use crate::graph;
use crate::graph::{EdgeIndex, GraphModel};
use vstd::prelude::*;

verus! {

/// Whether `p` gives each of `n` nodes a new name, each name once.
pub open spec fn renames(p: Seq<usize>, n: nat) -> bool {
    &&& p.len() == n
    &&& p.no_duplicates()
    &&& forall|v: int| 0 <= v < n ==> #[trigger] p[v] < n
}

/// The edge between the new names of the nodes of `e`.
pub open spec fn renamed(p: Seq<usize>, e: EdgeIndex) -> EdgeIndex {
    graph::canon((p[e.0 as int], p[e.1 as int]))
}

/// Whether `h` is `g` with the nodes renamed.
pub open spec fn isomorphic(p: Seq<usize>, g: GraphModel, h: GraphModel) -> bool {
    &&& renames(p, g.n)
    &&& h.n == g.n
    &&& g.n <= usize::MAX
    &&& forall|v: int, w: int|
        0 <= v < g.n && 0 <= w < g.n ==> #[trigger] g.joins(v, w) == h.joins(
            p[v] as int,
            p[w] as int,
        )
}

/// The sum of `f` over the members of `s`.
spec fn total(f: spec_fn(int) -> nat, s: Seq<usize>) -> nat
    decreases s.len(),
{
    if s.len() == 0 {
        0
    } else {
        total(f, s.drop_last()) + f(s.last() as int)
    }
}

/// The nodes below `k` in order.
spec fn in_turn(k: nat) -> Seq<usize> {
    Seq::new(k, |i: int| i as usize)
}

/// What the nodes add to the sum over the neighbours of `v`.
spec fn terms(g: GraphModel, v: int, weight: spec_fn(int) -> nat) -> spec_fn(int) -> nat {
    |w: int|
        if g.joins(v, w) {
            weight(w)
        } else {
            0
        }
}

proof fn lemma_total_remove(f: spec_fn(int) -> nat, s: Seq<usize>, i: int)
    requires
        0 <= i < s.len(),
    ensures
        total(f, s) == total(f, s.remove(i)) + f(s[i] as int),
    decreases s.len(),
{
    if i < s.len() - 1 {
        lemma_total_remove(f, s.drop_last(), i);
        assert(s.remove(i).drop_last() =~= s.drop_last().remove(i));
    } else {
        assert(s.remove(i) =~= s.drop_last());
    }
}

proof fn lemma_total_permuted(f: spec_fn(int) -> nat, s: Seq<usize>, t: Seq<usize>)
    requires
        counting::permuted(s, t),
    ensures
        total(f, s) == total(f, t),
    decreases s.len(),
{
    s.to_multiset_ensures();
    t.to_multiset_ensures();
    if s.len() > 0 {
        let i = counting::lemma_permuted_last(s, t);
        lemma_total_permuted(f, s.drop_last(), t.remove(i));
        lemma_total_remove(f, t, i);
    }
}

proof fn lemma_neighbor_sum_total(g: GraphModel, v: int, weight: spec_fn(int) -> nat, k: nat)
    requires
        k <= usize::MAX,
    ensures
        g.neighbor_sum(v, weight, k) == total(terms(g, v, weight), in_turn(k)),
    decreases k,
{
    if k > 0 {
        lemma_neighbor_sum_total(g, v, weight, (k - 1) as nat);
        assert(in_turn(k).drop_last() =~= in_turn((k - 1) as nat));
    }
}

/// The new names are the old ones in another order.
proof fn lemma_renames_permuted(p: Seq<usize>, n: nat)
    requires
        renames(p, n),
        n <= usize::MAX,
    ensures
        counting::permuted(p, in_turn(n)),
{
    let q = in_turn(n);
    p.unique_seq_to_set();
    q.unique_seq_to_set();
    vstd::seq_lib::seq_to_set_is_finite(p);
    vstd::seq_lib::seq_to_set_is_finite(q);
    assert(p.to_set().subset_of(q.to_set())) by {
        assert forall|x: usize| p.to_set().contains(x) implies q.to_set().contains(x) by {
            let i = choose|i: int| 0 <= i < p.len() && p[i] == x;
            assert(p[i] < n);
            assert(q[x as int] == x);
        }
    }
    vstd::set_lib::lemma_subset_equality(p.to_set(), q.to_set());
    p.lemma_multiset_has_no_duplicates();
    q.lemma_multiset_has_no_duplicates();
    p.to_multiset_ensures();
    q.to_multiset_ensures();
    assert forall|x: usize| p.to_multiset().count(x) == q.to_multiset().count(x) by {
        assert(p.contains(x) <==> p.to_set().contains(x));
        assert(q.contains(x) <==> q.to_set().contains(x));
        assert(p.contains(x) <==> p.to_multiset().count(x) > 0);
        assert(q.contains(x) <==> q.to_multiset().count(x) > 0);
        assert(p.to_multiset().contains(x) <==> p.to_multiset().count(x) > 0);
        assert(q.to_multiset().contains(x) <==> q.to_multiset().count(x) > 0);
    }
    assert(p.to_multiset() =~= q.to_multiset());
}

/// Sums over neighbours follow a renaming, where the weights do.
proof fn lemma_neighbor_sum_renamed(
    p: Seq<usize>,
    g: GraphModel,
    h: GraphModel,
    v: int,
    a: spec_fn(int) -> nat,
    b: spec_fn(int) -> nat,
)
    requires
        isomorphic(p, g, h),
        0 <= v < g.n,
        forall|w: int| 0 <= w < g.n ==> #[trigger] a(w) == b(p[w] as int),
    ensures
        h.neighbor_sum(p[v] as int, b, h.n) == g.neighbor_sum(v, a, g.n),
{
    let n = g.n;
    let tg = terms(g, v, a);
    let th = terms(h, p[v] as int, b);
    lemma_neighbor_sum_total(g, v, a, n);
    lemma_neighbor_sum_total(h, p[v] as int, b, n);
    lemma_renames_permuted(p, n);
    lemma_total_permuted(th, p, in_turn(n));
    assert forall|w: int| 0 <= w < n implies #[trigger] tg(w) == th(p[w] as int) by {
        assert(g.joins(v, w) == h.joins(p[v] as int, p[w] as int));
        assert(a(w) == b(p[w] as int));
    }
    lemma_total_renamed(p, tg, th, n);
    assert(p.take(n as int) =~= p);
}

proof fn lemma_total_renamed(
    p: Seq<usize>,
    tg: spec_fn(int) -> nat,
    th: spec_fn(int) -> nat,
    k: nat,
)
    requires
        k <= p.len() <= usize::MAX,
        forall|w: int| 0 <= w < p.len() ==> #[trigger] tg(w) == th(p[w] as int),
    ensures
        total(th, p.take(k as int)) == total(tg, in_turn(k)),
    decreases k,
{
    if k > 0 {
        lemma_total_renamed(p, tg, th, (k - 1) as nat);
        assert(p.take(k as int).drop_last() =~= p.take(k - 1));
        assert(in_turn(k).drop_last() =~= in_turn((k - 1) as nat));
        assert(tg(k - 1) == th(p[k - 1] as int));
    }
}

/// A renamed node has the degree it had.
pub proof fn degrees_renamed(p: Seq<usize>, g: GraphModel, h: GraphModel, v: int)
    requires
        isomorphic(p, g, h),
        0 <= v < g.n,
    ensures
        h.degrees()[p[v] as int] == g.degrees()[v],
{
    lemma_neighbor_sum_renamed(p, g, h, v, graph::unit_weight(), graph::unit_weight());
}

proof fn lemma_hashes_renamed(p: Seq<usize>, g: GraphModel, h: GraphModel, rounds: nat)
    requires
        isomorphic(p, g, h),
    ensures
        color_refinement::node_hashes(g, rounds).len() == g.n,
        color_refinement::node_hashes(h, rounds).len() == g.n,
        forall|v: int|
            0 <= v < g.n ==> #[trigger] color_refinement::node_hashes(g, rounds)[v]
                == color_refinement::node_hashes(h, rounds)[p[v] as int],
    decreases rounds,
{
    if rounds > 0 {
        lemma_hashes_renamed(p, g, h, (rounds - 1) as nat);
        let a = color_refinement::node_hashes(g, (rounds - 1) as nat);
        let b = color_refinement::node_hashes(h, (rounds - 1) as nat);
        let wa = color_refinement::hash_weight(a);
        let wb = color_refinement::hash_weight(b);
        assert forall|w: int| 0 <= w < g.n implies #[trigger] wa(w) == wb(p[w] as int) by {
            assert(a[w] == b[p[w] as int]);
        }
        assert forall|v: int| 0 <= v < g.n implies #[trigger] color_refinement::node_hashes(
            g,
            rounds,
        )[v] == color_refinement::node_hashes(h, rounds)[p[v] as int] by {
            assert(a[v] == b[p[v] as int]);
            lemma_neighbor_sum_renamed(p, g, h, v, wa, wb);
        }
    }
}

/// A renamed node has the color it had.
pub proof fn colors_renamed(
    cr: ColorRefinement,
    p: Seq<usize>,
    g: GraphModel,
    h: GraphModel,
    v: int,
)
    requires
        isomorphic(p, g, h),
        0 <= v < g.n,
    ensures
        cr.colors(h)[p[v] as int] == cr.colors(g)[v],
{
    lemma_hashes_renamed(p, g, h, cr.rounds as nat);
    assert(color_refinement::node_hashes(g, cr.rounds as nat)[v] == color_refinement::node_hashes(
        h,
        cr.rounds as nat,
    )[p[v] as int]);
}

/// An edge between renamed nodes has the id it had.
pub proof fn edge_id_renamed(
    cr: ColorRefinement,
    p: Seq<usize>,
    g: GraphModel,
    h: GraphModel,
    e: EdgeIndex,
)
    requires
        isomorphic(p, g, h),
        e.0 < g.n,
        e.1 < g.n,
    ensures
        edge_signature::edge_id(cr, h, renamed(p, e)) == edge_signature::edge_id(cr, g, e),
{
    colors_renamed(cr, p, g, h, e.0 as int);
    colors_renamed(cr, p, g, h, e.1 as int);
    degrees_renamed(p, g, h, e.0 as int);
    degrees_renamed(p, g, h, e.1 as int);
}

/// Edges that a symmetry of the graph takes to each other are in the same orbit.
pub proof fn symmetric_edges_share_orbit(
    cr: ColorRefinement,
    p: Seq<usize>,
    g: GraphModel,
    edges: Seq<EdgeIndex>,
    i: int,
    j: int,
)
    requires
        isomorphic(p, g, g),
        0 <= i < edges.len(),
        0 <= j < edges.len(),
        edges[i].0 < g.n,
        edges[i].1 < g.n,
        graph::canon(edges[j]) == renamed(p, edges[i]),
    ensures
        edge_signature::edge_ranks(cr, g, edges)[i] == edge_signature::edge_ranks(
            cr,
            g,
            edges,
        )[j],
{
    edge_id_renamed(cr, p, g, g, edges[i]);
    let ids = edge_signature::edge_ids(cr, g, edges);
    crate::edge_prefix::canon_idempotent(edges[j].0, edges[j].1);
    assert(ids[i] == ids[j]);
}

/// A symmetry of a graph takes the graph with one more edge to the graph with the renamed edge.
proof fn lemma_isomorphic_with(p: Seq<usize>, g: GraphModel, e: EdgeIndex)
    requires
        isomorphic(p, g, g),
        e.0 < e.1 < g.n,
    ensures
        isomorphic(p, g.with(e), g.with(renamed(p, e))),
{
    let a = g.with(e);
    let b = g.with(renamed(p, e));
    assert forall|v: int, w: int| 0 <= v < g.n && 0 <= w < g.n implies #[trigger] a.joins(v, w)
        == b.joins(p[v] as int, p[w] as int) by {
        assert(g.joins(v, w) == g.joins(p[v] as int, p[w] as int));
        assert(p[e.0 as int] != p[e.1 as int]);
        assert(p[v] == p[e.0 as int] <==> v == e.0);
        assert(p[v] == p[e.1 as int] <==> v == e.1);
        assert(p[w] == p[e.0 as int] <==> w == e.0);
        assert(p[w] == p[e.1 as int] <==> w == e.1);
    }
}

/// Missing edges that a symmetry of the graph takes to each other are candidates of the same
/// orbit.
pub proof fn symmetric_candidates_share_orbit(
    cr: ColorRefinement,
    p: Seq<usize>,
    g: GraphModel,
    i: int,
    j: int,
)
    requires
        isomorphic(p, g, g),
        0 <= i < candidates::candidates(g).len(),
        0 <= j < candidates::candidates(g).len(),
        candidates::candidates(g)[j] == renamed(p, candidates::candidates(g)[i]),
    ensures
        candidates::candidate_ranks(cr, g, g.n)[i] == candidates::candidate_ranks(cr, g, g.n)[j],
{
    let edges = candidates::candidates(g);
    let e = edges[i];
    assert(g.among(g.n) == g);
    candidates::candidates_are_missing(g);
    assert(edges.contains(e));
    lemma_isomorphic_with(p, g, e);
    edge_id_renamed(cr, p, g.with(e), g.with(renamed(p, e)), e);
    let ids = candidates::candidate_ids(cr, g, g.n);
    assert(ids[i] == ids[j]);
}

/// When nodes are renamed, each new name is given once, and two nodes are joined if and only if their
/// new names are.
pub proof fn renaming_conditions(p: Seq<usize>, g: GraphModel, h: GraphModel)
    requires
        p.len() == g.n,
        h.n == g.n,
        g.n <= usize::MAX,
        forall|v: int| 0 <= v < g.n ==> #[trigger] p[v] < g.n,
        forall|v: int, w: int| 0 <= v < w < g.n ==> #[trigger] p[v] != #[trigger] p[w],
        forall|v: usize, w: usize|
            v < g.n && w < g.n ==> (#[trigger] g.edges.contains(graph::canon((v, w)))
                <==> h.edges.contains(graph::canon((p[v as int], p[w as int])))),
    ensures
        isomorphic(p, g, h),
{
    assert forall|i: int, j: int| 0 <= i < p.len() && 0 <= j < p.len() && i != j implies p[i]
        != p[j] by {
        if i < j {
            assert(p[i] != p[j]);
        } else {
            assert(p[j] != p[i]);
        }
    }
    assert forall|v: int, w: int| 0 <= v < g.n && 0 <= w < g.n implies #[trigger] g.joins(v, w)
        == h.joins(p[v] as int, p[w] as int) by {
        assert(g.edges.contains(graph::canon((v as usize, w as usize))) <==> h.edges.contains(
            graph::canon((p[v], p[w])),
        ));
    }
}

} // verus!
