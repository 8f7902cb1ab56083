//! Models for the edge that was taken away: the interface, and the model to which every missing
//! edge is equally likely.

use crate::candidates;
use crate::candidates::UniformCandidatePEdgeCodec;
use crate::codec::Codec;
use crate::color_refinement::ColorRefinement;
use crate::counting;
use crate::edge_prefix::{EdgePrefix, EdgeSlice, PrefixModel};
use crate::edge_signature;
use crate::graph;
use crate::graph::{EdgeIndex, GraphModel};
use std::fmt::Debug;
use vstd::prelude::*;

verus! {

/// A model for the edge that was taken away, given the graph that is left.
pub trait EdgeRemovalModel: Clone + Debug + Eq + PartialEq + Send + Sync + 'static {
    /// The codec for the edge, made for one graph.
    type SliceCodec: Codec<Symbol = EdgeSlice> + Clone + Send + Sync + 'static;

    /// The message after the edge `e` was pushed onto `m`, where `g` is left and edges join the
    /// first `n` nodes.
    spec fn edge_pushed(&self, g: GraphModel, n: nat, m: nat, e: EdgeIndex) -> nat;

    /// The message after an edge was popped off `m`, and the edge, where `g` is left and edges
    /// join the first `n` nodes.
    spec fn edge_popped(&self, g: GraphModel, n: nat, m: nat) -> (nat, EdgeIndex);

    /// A popped edge is one that the graph lacks.
    proof fn popped_is_missing(&self, g: GraphModel, n: nat, m: nat)
        requires
            g.wf(),
            n <= g.n,
            g.among(n).has_room(),
        ensures
            g.among(n).lacks(self.edge_popped(g, n, m).1),
    ;

    /// A copy of the model is the same model.
    proof fn copy_is_same(&self, copy: &Self)
        requires
            vstd::pervasive::cloned(*self, *copy),
        ensures
            *copy == *self,
    ;

    /// The codec for the edge that was taken away, given what is left.
    fn codec_for_removed_edge(&self, prefix_after_removal: &EdgePrefix) -> (c: Self::SliceCodec)
        requires
            prefix_after_removal@.list.n <= 1 || prefix_after_removal@.list.n
                <= prefix_after_removal@.g.n,
        ensures
            forall|e: EdgeIndex|
                prefix_after_removal@.g.among(prefix_after_removal@.list.n).lacks(graph::canon(e))
                    ==> #[trigger] c.can_push(e),
            forall|m: nat, e: EdgeIndex|
                prefix_after_removal@.g.among(prefix_after_removal@.list.n).lacks(graph::canon(e))
                    ==> #[trigger] c.pushed(m, e) == self.edge_pushed(
                    prefix_after_removal@.g,
                    prefix_after_removal@.list.n,
                    m,
                    graph::canon(e),
                ),
            prefix_after_removal@.g.among(prefix_after_removal@.list.n).has_room() ==> forall|
                m: nat,
            | #[trigger]
                c.can_pop(m),
            prefix_after_removal@.g.among(prefix_after_removal@.list.n).has_room() ==> forall|
                m: nat,
            | #[trigger]
                c.popped(m) == self.edge_popped(
                    prefix_after_removal@.g,
                    prefix_after_removal@.list.n,
                    m,
                ),
    ;
}

/// Whether `c` is the codec of the model for the edge that was taken away, where `x` is left.
pub open spec fn codes_removed_edge<M: EdgeRemovalModel>(
    model: M,
    c: M::SliceCodec,
    x: PrefixModel,
) -> bool {
    &&& forall|e: EdgeIndex|
        x.g.among(x.list.n).lacks(graph::canon(e)) ==> #[trigger] c.can_push(e)
    &&& forall|m: nat, e: EdgeIndex|
        x.g.among(x.list.n).lacks(graph::canon(e)) ==> #[trigger] c.pushed(m, e)
            == model.edge_pushed(x.g, x.list.n, m, graph::canon(e))
    &&& x.g.among(x.list.n).has_room() ==> forall|m: nat| #[trigger] c.can_pop(m)
    &&& x.g.among(x.list.n).has_room() ==> forall|m: nat| #[trigger]
        c.popped(m) == model.edge_popped(x.g, x.list.n, m)
}

/// The model to which every missing edge is equally likely: its orbit, in the graph with the edge
/// added, is as likely as it has candidates, and the candidates of an orbit are equally likely.
#[derive(Clone, Copy, Debug, PartialEq, Eq)]
pub struct UniformCandidateP {
    /// How nodes are colored.
    pub cr: ColorRefinement,
}

impl UniformCandidateP {
    /// The model that colors nodes in the given number of rounds.
    pub fn new(wl_rounds: usize) -> (p: Self)
        ensures
            p.cr == (ColorRefinement { rounds: wl_rounds, edge_labels: false }),
    {
        UniformCandidateP { cr: ColorRefinement::new(wl_rounds, false) }
    }
}

impl EdgeRemovalModel for UniformCandidateP {
    type SliceCodec = UniformCandidatePEdgeCodec;

    open spec fn edge_pushed(&self, g: GraphModel, n: nat, m: nat, e: EdgeIndex) -> nat {
        candidates::candidate_pushed(
            candidates::candidates(g.among(n)),
            candidates::candidate_ranks(self.cr, g, n),
            m,
            e,
        )
    }

    open spec fn edge_popped(&self, g: GraphModel, n: nat, m: nat) -> (nat, EdgeIndex) {
        candidates::candidate_popped(
            candidates::candidates(g.among(n)),
            candidates::candidate_ranks(self.cr, g, n),
            m,
        )
    }

    proof fn popped_is_missing(&self, g: GraphModel, n: nat, m: nat) {
        let h = g.among(n);
        candidates::candidates_are_missing(h);
        let e = choose|e: EdgeIndex| h.lacks(e);
        assert(candidates::candidates(h).contains(e));
        candidates::candidate_pop_then_push(
            candidates::candidates(h),
            candidates::candidate_ranks(self.cr, g, n),
            m,
        );
    }

    proof fn copy_is_same(&self, copy: &Self) {
    }

    fn codec_for_removed_edge(&self, prefix_after_removal: &EdgePrefix) -> (c:
        UniformCandidatePEdgeCodec)
        ensures
            c.wf(),
            c.edges() == candidates::candidates(
                prefix_after_removal@.g.among(prefix_after_removal@.list.n),
            ),
            c.ranks() == candidates::candidate_ranks(
                self.cr,
                prefix_after_removal@.g,
                prefix_after_removal@.list.n,
            ),
            c.members() == Seq::new(
                1 + counting::highest(c.ranks()),
                |k: int| candidates::positions(c.ranks(), k as usize),
            ),
            c.ranks().len() == c.edges().len(),
            forall|i: int, j: int|
                0 <= i < c.edges().len() && 0 <= j < c.edges().len() ==> (#[trigger] c.ranks()[i]
                    == #[trigger] c.ranks()[j] <==> candidates::hash_when_added(
                    self.cr,
                    prefix_after_removal@.g,
                    c.edges()[i],
                ) == candidates::hash_when_added(
                    self.cr,
                    prefix_after_removal@.g,
                    c.edges()[j],
                )),
    {
        let c = UniformCandidatePEdgeCodec::build(prefix_after_removal, &self.cr);
        proof {
            candidates::candidates_are_missing(
                prefix_after_removal@.g.among(prefix_after_removal@.list.n),
            );
            let h = prefix_after_removal@.g.among(prefix_after_removal@.list.n);
            if h.has_room() {
                let e = choose|e: EdgeIndex| h.lacks(e);
                assert(c.edges().contains(e));
            }
        }
        c
    }
}

/// A missing edge that was pushed is popped again, and the message is what it was.
pub proof fn uniform_candidate_push_then_pop(
    p: UniformCandidateP,
    g: GraphModel,
    n: nat,
    m: nat,
    e: EdgeIndex,
)
    requires
        n <= usize::MAX,
        g.among(n).lacks(e),
    ensures
        p.edge_popped(g, n, p.edge_pushed(g, n, m, e)) == (m, e),
{
    candidates::candidates_are_missing(g.among(n));
    candidates::candidate_push_then_pop(
        candidates::candidates(g.among(n)),
        candidates::candidate_ranks(p.cr, g, n),
        m,
        e,
    );
}

/// With the model to which every missing edge is equally likely, a missing edge is the lowest digit of
/// the message in a number system with as many digits as there are missing edges. The digits go by
/// the hashes of the signatures, each by the colors and degrees of the graph with the edge added, and
/// edges with the same hash by their order.
pub proof fn uniform_edge_is_lowest_digit(
    p: UniformCandidateP,
    g: GraphModel,
    n: nat,
    m: nat,
    i: int,
)
    requires
        n <= usize::MAX,
        candidates::candidates(g.among(n)).len() <= usize::MAX,
        0 <= i < candidates::candidates(g.among(n)).len(),
    ensures
        ({
            let edges = candidates::candidates(g.among(n));
            let hash = |e: EdgeIndex|
                {
                    let h = GraphModel { n: g.n, edges: g.edges.insert(e) };
                    edge_signature::signature_hash(
                        edge_signature::signature(p.cr.colors(h), h.degrees(), e),
                    )
                };
            let digit = edges.filter(|f: EdgeIndex| hash(f) < hash(edges[i])).len() + edges.take(
                i,
            ).filter(|f: EdgeIndex| hash(f) == hash(edges[i])).len();
            &&& digit < edges.len()
            &&& p.edge_pushed(g, n, m, edges[i]) == m * edges.len() + digit
            &&& p.edge_popped(g, n, m).0 == m / edges.len()
            &&& p.edge_popped(g, n, m).1 == edges[i] <==> m % edges.len() == digit
        }),
{
    let edges = candidates::candidates(g.among(n));
    let ranks = candidates::candidate_ranks(p.cr, g, n);
    let hash = |e: EdgeIndex|
        {
            let h = GraphModel { n: g.n, edges: g.edges.insert(e) };
            edge_signature::signature_hash(
                edge_signature::signature(p.cr.colors(h), h.degrees(), e),
            )
        };
    candidates::candidates_are_missing(g.among(n));
    assert forall|j: int| 0 <= j < edges.len() implies (ranks[j] < ranks[i] <==> hash(edges[j])
        < hash(edges[i])) && (ranks[j] == ranks[i] <==> hash(edges[j]) == hash(edges[i])) by {
        candidates::candidate_orbits_by_signature(p.cr, g, n, j, i);
    }
    candidates::candidate_orbits_by_signature(p.cr, g, n, i, i);
    counting::lemma_filter_same(
        ranks,
        edges,
        |x: usize| x < ranks[i],
        |f: EdgeIndex| hash(f) < hash(edges[i]),
    );
    counting::lemma_filter_same(
        ranks.take(i),
        edges.take(i),
        |x: usize| x == ranks[i],
        |f: EdgeIndex| hash(f) == hash(edges[i]),
    );
    candidates::candidate_is_lowest_digit(edges, ranks, m, i);
}

/// A codec of a model for what is left pushes every edge that the graph lacks, whichever node is named
/// first, and pops where it lacks one, each as the model does.
pub proof fn codec_of_model<M: EdgeRemovalModel>(
    model: M,
    c: M::SliceCodec,
    x: PrefixModel,
    m: nat,
    u: usize,
    v: usize,
)
    requires
        codes_removed_edge(model, c, x),
        u < v,
        v < x.list.n,
        !x.g.edges.contains((u, v)),
    ensures
        c.can_push((u, v)),
        c.can_push((v, u)),
        c.pushed(m, (u, v)) == model.edge_pushed(x.g, x.list.n, m, (u, v)),
        c.pushed(m, (v, u)) == model.edge_pushed(x.g, x.list.n, m, (u, v)),
        c.can_pop(m),
        c.popped(m) == model.edge_popped(x.g, x.list.n, m),
{
    let h = x.g.among(x.list.n);
    assert(graph::canon((u, v)) == (u, v) && graph::canon((v, u)) == (u, v));
    assert(h.lacks((u, v)));
}

} // verus!
