//! The codecs of one step of coding an edge list, and of what is left after the last one.

use crate::candidates::UniformCandidatePEdgeCodec;
use crate::codec;
use crate::codec::{Codec, LogUniform};
use crate::edge_prefix::{EdgeList, EdgePrefix, EdgePrefixingChain, EdgeSlice, PrefixModel};
use crate::graph::{EdgeIndex, PlainGraph, Undirected};
use crate::message::Message;
use crate::removal_model;
use crate::removal_model::{EdgeRemovalModel, UniformCandidateP};
use vstd::prelude::*;

verus! {

/// Codec for a prefix from which all edges were taken away: the number of nodes, and the number of
/// edges that there were.
#[derive(Clone, Copy, Debug, PartialEq, Eq)]
pub struct EmptyPrefixNm;

impl Codec for EmptyPrefixNm {
    type Symbol = EdgePrefix;

    open spec fn can_push(&self, x: PrefixModel) -> bool {
        x.len_active == 0
    }

    open spec fn can_pop(&self, m: nat) -> bool {
        true
    }

    open spec fn pushed(&self, m: nat, x: PrefixModel) -> nat {
        codec::log_uniform_pushed(codec::log_uniform_pushed(m, x.list.edges.len()), x.list.n)
    }

    open spec fn popped(&self, m: nat) -> (nat, PrefixModel) {
        let (above, n) = codec::log_uniform_popped(m);
        let (rest, len) = codec::log_uniform_popped(above);
        (rest, PrefixModel::blank(n, len))
    }

    fn push(&self, m: &mut Message, x: &EdgePrefix) {
        let n = x.list.n;
        let m_edges = x.list.edges.len();
        LogUniform::max().push(m, &m_edges);
        LogUniform::max().push(m, &n);
    }

    fn pop(&self, m: &mut Message) -> (x: EdgePrefix) {
        proof {
            let (above, _n) = codec::log_uniform_popped(m@);
            codec::log_uniform_pop_then_push(m@);
            codec::log_uniform_pop_then_push(above);
        }
        let n = LogUniform::max().pop(m);
        let m_edges = LogUniform::max().pop(m);
        let g: PlainGraph<Undirected> = PlainGraph::plain_empty(n);
        let dummy: EdgeIndex = (0, 0);
        let mut edges: Vec<EdgeIndex> = Vec::new();
        let mut i: usize = 0;
        while i < m_edges
            invariant
                i <= m_edges,
                dummy == (0usize, 0usize),
                edges@ == Seq::new(i as nat, |j: int| (0usize, 0usize)),
            decreases m_edges - i,
        {
            edges.push(dummy);
            assert(edges@ =~= Seq::new(i as nat + 1, |j: int| (0usize, 0usize)));
            i = i + 1;
        }
        let list = EdgeList { n, edges };
        EdgePrefix { g, list, len_active: 0 }
    }
}

/// The numbers of nodes and of edges that were pushed are popped again, and the message is what it
/// was.
pub proof fn empty_prefix_push_then_pop(m: nat, x: PrefixModel)
    requires
        EmptyPrefixNm.can_push(x),
        x.list.n <= usize::MAX,
        x.list.edges.len() <= usize::MAX,
    ensures
        EmptyPrefixNm.popped(EmptyPrefixNm.pushed(m, x)) == (
            m,
            PrefixModel::blank(x.list.n, x.list.edges.len()),
        ),
{
    let above = codec::log_uniform_pushed(m, x.list.edges.len());
    codec::log_uniform_push_then_pop(m, x.list.edges.len() as usize);
    codec::log_uniform_push_then_pop(above, x.list.n as usize);
}

/// Pushing the numbers of nodes and of edges that were popped restores the message.
pub proof fn empty_prefix_pop_then_push(m: nat)
    ensures
        EmptyPrefixNm.can_push(EmptyPrefixNm.popped(m).1),
        EmptyPrefixNm.popped(m).1.list.n <= usize::MAX,
        EmptyPrefixNm.popped(m).1.list.edges.len() <= usize::MAX,
        EmptyPrefixNm.pushed(EmptyPrefixNm.popped(m).0, EmptyPrefixNm.popped(m).1) == m,
{
    let (above, n) = codec::log_uniform_popped(m);
    codec::log_uniform_pop_then_push(m);
    codec::log_uniform_pop_then_push(above);
}

/// Makes the codec for the edge that was taken away in a step.
#[derive(Clone, Debug, PartialEq, Eq)]
pub struct EdgeSliceCodecs<M: EdgeRemovalModel> {
    /// How edges are taken away.
    pub chain: EdgePrefixingChain,
    /// The model for the edge.
    pub model: M,
    /// The number of edges.
    pub m: usize,
}

impl<M: EdgeRemovalModel> EdgeSliceCodecs<M> {
    /// The number of edges.
    pub fn len(&self) -> (len: usize)
        ensures
            len == self.m,
    {
        self.m
    }

    /// How edges are taken away.
    pub fn prefixing_chain(&self) -> (chain: EdgePrefixingChain)
        ensures
            chain == self.chain,
    {
        self.chain.clone()
    }

    /// The codec for what is left after the last step.
    pub fn empty_prefix(&self) -> (c: EmptyPrefixNm)
        ensures
            c == EmptyPrefixNm,
    {
        EmptyPrefixNm
    }

    /// The codec for the edge that was taken away, where `x` is left.
    pub fn apply(&self, x: &EdgePrefix) -> (image: M::SliceCodec)
        requires
            x@.list.n <= 1 || x@.list.n <= x@.g.n,
        ensures
            removal_model::codes_removed_edge(self.model, image, x@),
            call_ensures(M::codec_for_removed_edge, (&self.model, x), image),
    {
        self.model.codec_for_removed_edge(x)
    }

    /// Brings the codec in line with a prefix from which an edge was taken away.
    pub fn update_after_pop_slice(
        &self,
        image: &mut M::SliceCodec,
        x: &EdgePrefix,
        _slice: &EdgeSlice,
    )
        requires
            x@.list.n <= 1 || x@.list.n <= x@.g.n,
        ensures
            removal_model::codes_removed_edge(self.model, *final(image), x@),
            call_ensures(M::codec_for_removed_edge, (&self.model, x), *final(image)),
    {
        *image = self.apply(x);
    }

    /// Brings the codec in line with a prefix to which an edge was put back.
    pub fn update_after_push_slice(
        &self,
        image: &mut M::SliceCodec,
        x: &EdgePrefix,
        _slice: &EdgeSlice,
    )
        requires
            x@.list.n <= 1 || x@.list.n <= x@.g.n,
        ensures
            removal_model::codes_removed_edge(self.model, *final(image), x@),
            call_ensures(M::codec_for_removed_edge, (&self.model, x), *final(image)),
    {
        *image = self.apply(x);
    }

    /// Leaves the codec as it is: the order of the edges that are left does not matter to it.
    pub fn swap(&self, _image: &mut M::SliceCodec, _i: usize, _j: usize)
        ensures
            *final(_image) == *old(_image),
    {
    }
}

/// A codec for the edge that was taken away stays one when two edges that are left are exchanged.
pub proof fn swap_keeps_slice_codec<M: EdgeRemovalModel>(
    model: M,
    c: M::SliceCodec,
    x: PrefixModel,
    i: int,
    j: int,
)
    ensures
        removal_model::codes_removed_edge(model, c, x.swapped(i, j))
            == removal_model::codes_removed_edge(model, c, x),
{
    assert(x.swapped(i, j).g == x.g && x.swapped(i, j).list.n == x.list.n);
}

/// With the model to which every missing edge is equally likely, the codec made before two edges
/// that are left are exchanged has the candidates, orbits and members of the one made after.
pub proof fn swap_keeps_candidates(
    model: UniformCandidateP,
    x: &EdgePrefix,
    y: &EdgePrefix,
    before: UniformCandidatePEdgeCodec,
    after: UniformCandidatePEdgeCodec,
    i: int,
    j: int,
)
    requires
        y@ == x@.swapped(i, j),
        call_ensures(UniformCandidateP::codec_for_removed_edge, (&model, x), before),
        call_ensures(UniformCandidateP::codec_for_removed_edge, (&model, y), after),
    ensures
        before.edges() == after.edges(),
        before.ranks() == after.ranks(),
        before.members() == after.members(),
{
    assert(y@.g == x@.g && y@.list.n == x@.list.n);
}

/// What is left after the last step is coded by its number of edges, and then its number of nodes: the
/// number of nodes is popped first.
pub proof fn empty_prefix_codes_counts(m: nat, x: PrefixModel)
    ensures
        EmptyPrefixNm.can_push(x) <==> x.len_active == 0,
        EmptyPrefixNm.can_pop(m),
        EmptyPrefixNm.pushed(m, x) == codec::log_uniform_pushed(
            codec::log_uniform_pushed(m, x.list.edges.len()),
            x.list.n,
        ),
        ({
            let (above, n) = codec::log_uniform_popped(m);
            let (rest, len) = codec::log_uniform_popped(above);
            let (left, y) = EmptyPrefixNm.popped(m);
            &&& left == rest
            &&& y.list.n == n
            &&& y.g.n == n
            &&& y.g.edges == Set::<EdgeIndex>::empty()
            &&& y.list.edges.len() == len
            &&& y.len_active == 0
        }),
{
}

} // verus!
