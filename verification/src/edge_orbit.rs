//! Codecs for graphs: the edges in no order, one at a time, each after its orbit came off the
//! message.

use crate::autoregressive;
use crate::autoregressive::UnfusedAutoregressiveShuffleCodec;
use crate::candidates;
use crate::codec::Codec;
use crate::color_refinement::ColorRefinement;
use crate::counting;
use crate::edge_prefix::{graph_of, EdgeList, EdgePrefixingChain, ListModel};
use crate::edge_signature::EdgeOrbitCodecs;
use crate::graph;
use crate::graph::{copy_edges, EdgeIndex, GraphModel, PlainGraph, Undirected};
use crate::message::Message;
use crate::permutable::Unordered;
use crate::removal_model;
use crate::removal_model::{EdgeRemovalModel, UniformCandidateP};
use crate::slice_codecs::EdgeSliceCodecs;
use vstd::prelude::*;

verus! {

/// The codec for unordered edge lists, with `convs` rounds of coloring to make out the orbits, and
/// the given model for the edges.
pub fn type2_edge_orbit_codec<M: EdgeRemovalModel>(
    n: usize,
    edges: Vec<EdgeIndex>,
    convs: usize,
    model: M,
) -> (c: UnfusedAutoregressiveShuffleCodec<
    EdgePrefixingChain,
    EdgeSliceCodecs<M>,
    EdgeOrbitCodecs,
>)
    ensures
        c.slice_codecs().chain == EdgePrefixingChain::the_chain(),
        c.slice_codecs().model == model,
        c.slice_codecs().m == edges.len(),
        c.orbits().cr == (ColorRefinement { rounds: convs, edge_labels: false }),
{
    let full = EdgeList { n, edges };
    let m: usize = full.len();
    let chain = EdgePrefixingChain::new();
    let slices = EdgeSliceCodecs { chain: chain.clone(), model, m };
    let orbit_codecs = EdgeOrbitCodecs { cr: ColorRefinement::new(convs, false) };
    UnfusedAutoregressiveShuffleCodec::new(slices, orbit_codecs)
}

/// The list of the edges of `g`, in increasing order.
pub open spec fn listed(g: GraphModel) -> ListModel {
    ListModel { n: g.n, edges: graph::in_order(g.edges) }
}

/// Codec for graphs.
#[derive(Clone, Debug, PartialEq, Eq)]
pub struct Type2EdgeOrbitGraphCodec<M: EdgeRemovalModel> {
    /// How many rounds of coloring make out the orbits.
    pub convs: usize,
    /// The model for the edges.
    pub model: M,
}

impl<M: EdgeRemovalModel> Type2EdgeOrbitGraphCodec<M> {
    /// How nodes are colored to make out the orbits.
    pub open spec fn coloring(&self) -> ColorRefinement {
        ColorRefinement { rounds: self.convs, edge_labels: false }
    }
}

impl<M: EdgeRemovalModel> Codec for Type2EdgeOrbitGraphCodec<M> {
    type Symbol = Unordered<PlainGraph<Undirected>>;

    open spec fn can_push(&self, g: GraphModel) -> bool {
        g.no_loops()
    }

    open spec fn can_pop(&self, m: nat) -> bool {
        autoregressive::enough_pairs(m)
    }

    open spec fn pushed(&self, m: nat, g: GraphModel) -> nat {
        autoregressive::list_pushed(self.model, self.coloring(), m, listed(g))
    }

    open spec fn popped(&self, m: nat) -> (nat, GraphModel) {
        let (rest, list) = autoregressive::list_popped(self.model, self.coloring(), m);
        (rest, list.graph())
    }

    fn push(&self, m: &mut Message, x: &Unordered<PlainGraph<Undirected>>)
        ensures
            final(m)@ == autoregressive::list_pushed(
                self.model,
                ColorRefinement { rounds: self.convs, edge_labels: false },
                old(m)@,
                ListModel { n: x@.n, edges: graph::in_order(x@.edges) },
            ),
    {
        let n = x.0.len();
        let edges = x.0.edge_indices();
        let model = self.model.clone();
        proof {
            self.model.copy_is_same(&model);
            lemma_listed(x@);
        }
        let inner = type2_edge_orbit_codec(n, copy_edges(&edges), self.convs, model);
        let list = Unordered(EdgeList { n, edges });
        assert(list@ == listed(x@));
        inner.push(m, &list);
    }

    fn pop(&self, m: &mut Message) -> (x: Unordered<PlainGraph<Undirected>>)
        ensures
            final(m)@ == autoregressive::list_popped(
                self.model,
                ColorRefinement { rounds: self.convs, edge_labels: false },
                old(m)@,
            ).0,
            x@ == autoregressive::list_popped(
                self.model,
                ColorRefinement { rounds: self.convs, edge_labels: false },
                old(m)@,
            ).1.graph(),
    {
        let model = self.model.clone();
        proof {
            self.model.copy_is_same(&model);
            autoregressive::popped_edge_list_is_simple(self.model, self.coloring(), m@);
        }
        let inner = type2_edge_orbit_codec(0, Vec::new(), self.convs, model);
        let list = inner.pop(m);
        Unordered(graph_of(list.0.n, &list.0.edges))
    }
}

/// The edges of a simple graph in increasing order: they are there, none twice, and they make the
/// graph.
proof fn lemma_listed(g: GraphModel)
    requires
        g.wf(),
        g.no_loops(),
    ensures
        graph::increasing(listed(g).edges),
        listed(g).edges.to_set() == g.edges,
        listed(g).in_range(),
        listed(g).no_loops(),
        listed(g).no_repeats(),
        listed(g).graph() == g,
{
    let missing = Set::new(|e: EdgeIndex| e.0 < e.1 < g.n && !g.edges.contains(e));
    let h = GraphModel { n: g.n, edges: missing };
    assert(Set::new(|e: EdgeIndex| h.lacks(e)) =~= g.edges);
    candidates::candidates_are_missing(h);
    let s = listed(g).edges;
    assert(s == candidates::candidates(h));
    assert forall|e: EdgeIndex| s.to_set().contains(e) <==> g.edges.contains(e) by {
        assert(s.to_set().contains(e) <==> s.contains(e));
    }
    assert(s.to_set() =~= g.edges);
    assert forall|i: int| 0 <= i < s.len() implies (#[trigger] s[i]).0 < s[i].1 < g.n by {
        assert(s.contains(s[i]));
    }
    assert(s.map_values(|e: EdgeIndex| graph::canon(e)) =~= s) by {
        assert forall|i: int| 0 <= i < s.len() implies graph::canon(s[i]) == s[i] by {
            assert(s[i].0 < s[i].1);
        }
    }
    assert forall|i: int, j: int| 0 <= i < s.len() && 0 <= j < s.len() && i != j implies s[i]
        != s[j] by {
        if i < j {
            assert(graph::precedes(s[i], s[j]));
        } else {
            assert(graph::precedes(s[j], s[i]));
        }
    }
}

/// Popping a graph that was pushed gives the same graph, and the message is what it was, where
/// each edge, once it is pushed, is one that the model pops again.
pub proof fn graph_push_then_pop<M: EdgeRemovalModel>(
    c: Type2EdgeOrbitGraphCodec<M>,
    m: nat,
    g: GraphModel,
)
    requires
        g.wf(),
        c.can_push(g),
        listed(g).edges.len() <= usize::MAX,
        autoregressive::each_comes_back(c.model, c.coloring(), g, listed(g).edges, m),
    ensures
        c.can_pop(c.pushed(m, g)),
        c.popped(c.pushed(m, g)) == (m, g),
{
    lemma_listed(g);
    autoregressive::edge_list_push_then_pop(c.model, c.coloring(), m, listed(g));
}

/// With a model that pops every edge that was pushed, every graph without loops that was pushed is
/// popped again, and the message is what it was.
pub proof fn graph_push_then_pop_inverting<M: EdgeRemovalModel>(
    c: Type2EdgeOrbitGraphCodec<M>,
    m: nat,
    g: GraphModel,
)
    requires
        g.wf(),
        c.can_push(g),
        listed(g).edges.len() <= usize::MAX,
        autoregressive::inverts(c.model),
    ensures
        c.can_pop(c.pushed(m, g)),
        c.popped(c.pushed(m, g)) == (m, g),
{
    lemma_listed(g);
    autoregressive::inverting_model_comes_back(c.model, c.coloring(), g, listed(g).edges, m);
    graph_push_then_pop(c, m, g);
}

/// The model to which every missing edge is equally likely pops every edge that was pushed.
pub proof fn uniform_candidates_invert(model: UniformCandidateP)
    ensures
        autoregressive::inverts(model),
{
    assert forall|g: GraphModel, n: nat, m: nat, e: EdgeIndex|
        g.wf() && n <= g.n && g.among(n).lacks(e) implies model.edge_popped(
        g,
        n,
        #[trigger] model.edge_pushed(g, n, m, e),
    ) == (m, e) by {
        removal_model::uniform_candidate_push_then_pop(model, g, n, m, e);
    }
}

/// The model to which every missing edge is equally likely pops each edge of every list.
pub proof fn uniform_candidates_come_back(
    model: UniformCandidateP,
    cr: ColorRefinement,
    g: GraphModel,
    active: Seq<EdgeIndex>,
    m: nat,
)
    requires
        g.wf(),
        (ListModel { n: g.n, edges: active }).in_range(),
        (ListModel { n: g.n, edges: active }).no_loops(),
    ensures
        autoregressive::each_comes_back(model, cr, g, active, m),
{
    uniform_candidates_invert(model);
    autoregressive::inverting_model_comes_back(model, cr, g, active, m);
}

/// With the model to which every missing edge is equally likely, popping an edge list that was
/// pushed gives the same edges, in some order and each with its smaller node first, and the message
/// is what it was. No edge may occur twice.
pub proof fn uniform_edge_list_push_then_pop(
    model: UniformCandidateP,
    cr: ColorRefinement,
    m: nat,
    x: ListModel,
)
    requires
        x.in_range(),
        x.no_loops(),
        x.no_repeats(),
        x.n <= usize::MAX,
        x.edges.len() <= usize::MAX,
    ensures
        autoregressive::enough_pairs(autoregressive::list_pushed(model, cr, m, x)),
        ({
            let (rest, y) = autoregressive::list_popped(
                model,
                cr,
                autoregressive::list_pushed(model, cr, m, x),
            );
            &&& rest == m
            &&& y.n == x.n
            &&& counting::permuted(autoregressive::canonical(x.edges), y.edges)
            &&& y.graph() == x.graph()
        }),
{
    autoregressive::list_makes_graph(x);
    uniform_candidates_come_back(model, cr, x.graph(), x.edges, m);
    autoregressive::edge_list_push_then_pop(model, cr, m, x);
}

/// With the model to which every missing edge is equally likely, every graph without loops that was
/// pushed is popped again, and the message is what it was.
pub proof fn uniform_graph_push_then_pop(
    c: Type2EdgeOrbitGraphCodec<UniformCandidateP>,
    m: nat,
    g: GraphModel,
)
    requires
        g.wf(),
        c.can_push(g),
        listed(g).edges.len() <= usize::MAX,
    ensures
        c.can_pop(c.pushed(m, g)),
        c.popped(c.pushed(m, g)) == (m, g),
{
    uniform_candidates_invert(c.model);
    graph_push_then_pop_inverting(c, m, g);
}

/// Whatever can be popped is a graph without loops with as many edges as the message says, so it
/// could have been pushed.
pub proof fn popped_graph_is_simple<M: EdgeRemovalModel>(c: Type2EdgeOrbitGraphCodec<M>, m: nat)
    requires
        c.can_pop(m),
    ensures
        c.popped(m).1.wf(),
        c.can_push(c.popped(m).1),
        c.popped(m).1.n == crate::slice_codecs::EmptyPrefixNm.popped(m).1.list.n,
        c.popped(m).1.edges.len()
            == crate::slice_codecs::EmptyPrefixNm.popped(m).1.list.edges.len(),
{
    autoregressive::popped_edge_list_is_simple(c.model, c.coloring(), m);
    crate::slice_codecs::empty_prefix_pop_then_push(m);
    let y = autoregressive::list_popped(c.model, c.coloring(), m).1;
    assert(y.edges.map_values(|e: EdgeIndex| graph::canon(e)) =~= y.edges);
    y.edges.unique_seq_to_set();
    vstd::seq_lib::seq_to_set_is_finite(y.edges);
    assert forall|e: EdgeIndex| #[trigger] y.graph().edges.contains(e) implies e.0 < e.1 < y.n by {
        let i = choose|i: int| 0 <= i < y.edges.len() && y.edges[i] == e;
        assert(y.edges[i].0 < y.edges[i].1 < y.n);
    }
}

/// The edges of a graph without loops, listed: they are increasing, they are the edges of the graph,
/// and they make the graph.
pub proof fn listed_edges(g: GraphModel)
    requires
        g.wf(),
        g.no_loops(),
    ensures
        listed(g).n == g.n,
        graph::increasing(listed(g).edges),
        listed(g).edges.to_set() == g.edges,
        GraphModel::of(listed(g).n, listed(g).edges) == g,
{
    lemma_listed(g);
}

/// A graph is coded as the list codec with the same number of rounds of coloring and the same model
/// codes its edges in increasing order, and popped as the graph of the list that this codec pops.
pub proof fn graph_is_coded_as_list<M: EdgeRemovalModel>(
    c: Type2EdgeOrbitGraphCodec<M>,
    list_codec: UnfusedAutoregressiveShuffleCodec<
        EdgePrefixingChain,
        EdgeSliceCodecs<M>,
        EdgeOrbitCodecs,
    >,
    m: nat,
    g: GraphModel,
)
    requires
        list_codec.slice_codecs().model == c.model,
        list_codec.orbits().cr == (ColorRefinement { rounds: c.convs, edge_labels: false }),
    ensures
        c.can_push(g) <==> forall|e: EdgeIndex| #[trigger] g.edges.contains(e) ==> e.0 != e.1,
        c.can_pop(m) <==> list_codec.can_pop(m),
        c.pushed(m, g) == list_codec.pushed(
            m,
            ListModel { n: g.n, edges: graph::in_order(g.edges) },
        ),
        c.popped(m).0 == list_codec.popped(m).0,
        c.popped(m).1 == GraphModel::of(list_codec.popped(m).1.n, list_codec.popped(m).1.edges),
{
}

} // verus!
