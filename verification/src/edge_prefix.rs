//! Ordered edge lists, and the chain of prefixes that takes their edges away one by one.

use crate::counting;
use crate::graph;
use crate::graph::{EdgeIndex, GraphModel, PlainGraph, Undirected};
use crate::permutable::Unordered;
use std::marker::PhantomData;
use vstd::prelude::*;

verus! {

/// The edge with its smaller node first.
pub fn canon_edge(e: EdgeIndex) -> (c: EdgeIndex)
    ensures
        c == graph::canon(e),
{
    let (u, v) = e;
    if u < v {
        (u, v)
    } else {
        (v, u)
    }
}

/// An ordered list of edges between nodes numbered from zero.
#[verifier::ext_equal]
pub struct ListModel {
    pub n: nat,
    pub edges: Seq<EdgeIndex>,
}

impl ListModel {
    /// Whether all edges join nodes that there are.
    pub open spec fn in_range(self) -> bool {
        forall|i: int|
            0 <= i < self.edges.len() ==> (#[trigger] self.edges[i]).0 < self.n && self.edges[i].1
                < self.n
    }

    /// Whether no edge joins a node with itself.
    pub open spec fn no_loops(self) -> bool {
        forall|i: int| 0 <= i < self.edges.len() ==> (#[trigger] self.edges[i]).0 != self.edges[i].1
    }

    /// Whether no two nodes are joined twice.
    pub open spec fn no_repeats(self) -> bool {
        self.edges.map_values(|e: EdgeIndex| graph::canon(e)).no_duplicates()
    }

    /// The graph of the edges.
    pub open spec fn graph(self) -> GraphModel {
        GraphModel::of(self.n, self.edges)
    }
}

/// An ordered list of edges: what is permuted.
#[derive(Debug, PartialEq, Eq)]
pub struct EdgeList {
    /// The number of nodes.
    pub n: usize,
    /// The edges.
    pub edges: Vec<EdgeIndex>,
}

impl View for EdgeList {
    type V = ListModel;

    open spec fn view(&self) -> ListModel {
        ListModel { n: self.n as nat, edges: self.edges@ }
    }
}

impl Clone for EdgeList {
    fn clone(&self) -> (list: Self)
        ensures
            list@ == self@,
    {
        EdgeList { n: self.n, edges: graph::copy_edges(&self.edges) }
    }
}

impl EdgeList {
    /// The number of edges.
    pub fn len(&self) -> (len: usize)
        ensures
            len == self@.edges.len(),
    {
        self.edges.len()
    }

    /// Exchanges the edges at `i` and `j`.
    pub fn swap(&mut self, i: usize, j: usize)
        requires
            i < old(self)@.edges.len(),
            j < old(self)@.edges.len(),
        ensures
            final(self)@ == (ListModel {
                n: old(self)@.n,
                edges: counting::swapped(old(self)@.edges, i as int, j as int),
            }),
            final(self)@.edges == old(self)@.edges.update(
                i as int,
                old(self)@.edges[j as int],
            ).update(j as int, old(self)@.edges[i as int]),
    {
        let a = self.edges[i];
        let b = self.edges[j];
        self.edges.set(i, b);
        self.edges.set(j, a);
    }
}

/// The edges that are still there: a graph, and an ordered list whose first edges they are.
#[verifier::ext_equal]
pub struct PrefixModel {
    pub g: GraphModel,
    pub list: ListModel,
    pub len_active: nat,
}

impl PrefixModel {
    /// The edges that are still there, in order.
    pub open spec fn active(self) -> Seq<EdgeIndex> {
        self.list.edges.take(self.len_active as int)
    }

    /// The prefix with the active edges at `i` and `j` exchanged.
    pub open spec fn swapped(self, i: int, j: int) -> Self {
        PrefixModel {
            list: ListModel { edges: counting::swapped(self.list.edges, i, j), ..self.list },
            ..self
        }
    }

    /// The last active edge.
    pub open spec fn last_edge(self) -> EdgeIndex {
        graph::canon(self.list.edges[self.len_active - 1])
    }

    /// The prefix after its last active edge was taken away.
    pub open spec fn without_last(self) -> Self {
        PrefixModel {
            g: self.g.without(self.last_edge()),
            len_active: (self.len_active - 1) as nat,
            ..self
        }
    }

    /// The prefix after an edge was put behind the active ones.
    pub open spec fn with_edge(self, e: EdgeIndex) -> Self {
        PrefixModel {
            g: self.g.with(graph::canon(e)),
            list: ListModel {
                edges: self.list.edges.update(self.len_active as int, graph::canon(e)),
                ..self.list
            },
            len_active: self.len_active + 1,
        }
    }

    /// The prefix of a whole list.
    pub open spec fn of(full: ListModel) -> Self {
        PrefixModel { g: full.graph(), list: full, len_active: full.edges.len() }
    }

    /// The prefix without active edges, in a list with room for `len`.
    pub open spec fn blank(n: nat, len: nat) -> Self {
        PrefixModel {
            g: GraphModel::empty(n),
            list: ListModel { n, edges: Seq::new(len, |i: int| (0usize, 0usize)) },
            len_active: 0,
        }
    }
}

/// The edges that are still there.
#[derive(Debug, PartialEq, Eq)]
pub struct EdgePrefix {
    /// The graph of the edges that are still there.
    pub g: PlainGraph<Undirected>,
    /// All edges in order.
    pub list: EdgeList,
    /// How many edges from the front of the list are still there.
    pub len_active: usize,
}

impl View for EdgePrefix {
    type V = PrefixModel;

    open spec fn view(&self) -> PrefixModel {
        PrefixModel { g: self.g@, list: self.list@, len_active: self.len_active as nat }
    }
}

impl Clone for EdgePrefix {
    fn clone(&self) -> (prefix: Self)
        ensures
            prefix@ == self@,
    {
        EdgePrefix { g: self.g.clone(), list: self.list.clone(), len_active: self.len_active }
    }
}

impl EdgePrefix {
    /// The number of edges that are still there.
    pub fn len(&self) -> (len: usize)
        ensures
            len == self@.len_active,
    {
        self.len_active
    }

    /// Exchanges two edges that are still there.
    pub fn swap(&mut self, i: usize, j: usize)
        requires
            i < old(self)@.len_active,
            j < old(self)@.len_active,
            i < old(self)@.list.edges.len(),
            j < old(self)@.list.edges.len(),
        ensures
            final(self)@ == old(self)@.swapped(i as int, j as int),
            final(self)@.g == old(self)@.g,
            final(self)@.len_active == old(self)@.len_active,
            final(self)@.list.n == old(self)@.list.n,
            final(self)@.list.edges == old(self)@.list.edges.update(
                i as int,
                old(self)@.list.edges[j as int],
            ).update(j as int, old(self)@.list.edges[i as int]),
    {
        self.list.swap(i, j);
    }
}

/// What is taken away in one step: an edge.
pub type EdgeSlice = EdgeIndex;

/// Takes edges away from a prefix, and puts them back.
#[derive(Clone, Copy, Debug, PartialEq, Eq)]
pub struct EdgePrefixingChain {
    phantom: PhantomData<()>,
}

impl EdgePrefixingChain {
    /// The one value of this type.
    pub closed spec fn the_chain() -> Self {
        EdgePrefixingChain { phantom: PhantomData }
    }

    /// The chain.
    pub fn new() -> (chain: Self)
        ensures
            chain == Self::the_chain(),
    {
        EdgePrefixingChain { phantom: PhantomData }
    }

    /// Takes the last active edge away and returns it.
    pub fn pop_slice(&self, prefix: &mut EdgePrefix) -> (e: EdgeSlice)
        requires
            0 < old(prefix)@.len_active <= old(prefix)@.list.edges.len(),
        ensures
            e == old(prefix)@.last_edge(),
            final(prefix)@ == old(prefix)@.without_last(),
            e == graph::canon(old(prefix)@.list.edges[old(prefix)@.len_active - 1]),
            final(prefix)@.list == old(prefix)@.list,
            final(prefix)@.len_active == old(prefix)@.len_active - 1,
            final(prefix)@.g.n == old(prefix)@.g.n,
            final(prefix)@.g.edges == old(prefix)@.g.edges.remove(e),
    {
        let idx: usize = prefix.len_active - 1;
        let e = canon_edge(prefix.list.edges[idx]);
        prefix.len_active = idx;
        prefix.g.remove_plain_edge(e);
        e
    }

    /// Puts an edge behind the active ones.
    pub fn push_slice(&self, prefix: &mut EdgePrefix, slice: &EdgeSlice)
        requires
            old(prefix)@.len_active < old(prefix)@.list.edges.len(),
            slice.0 < old(prefix)@.g.n,
            slice.1 < old(prefix)@.g.n,
        ensures
            final(prefix)@ == old(prefix)@.with_edge(*slice),
            final(prefix)@.list.n == old(prefix)@.list.n,
            final(prefix)@.list.edges == old(prefix)@.list.edges.update(
                old(prefix)@.len_active as int,
                graph::canon(*slice),
            ),
            final(prefix)@.len_active == old(prefix)@.len_active + 1,
            final(prefix)@.g.n == old(prefix)@.g.n,
            final(prefix)@.g.edges == old(prefix)@.g.edges.insert(graph::canon(*slice)),
    {
        let e = canon_edge(*slice);
        let idx: usize = prefix.len_active;
        assert(idx < prefix.list.edges.len());
        prefix.list.edges.set(idx, e);
        prefix.len_active = idx + 1;
        prefix.g.insert_plain_edge(e);
    }

    /// The prefix of a whole list: all edges are still there.
    pub fn prefix(&self, full: EdgeList) -> (prefix: EdgePrefix)
        requires
            full@.in_range(),
        ensures
            prefix@ == PrefixModel::of(full@),
            prefix@.list == full@,
            prefix@.len_active == full@.edges.len(),
            prefix@.g == GraphModel::of(full@.n, full@.edges),
    {
        let g = graph_of(full.n, &full.edges);
        let len_active: usize = full.edges.len();
        EdgePrefix { g, list: full, len_active }
    }

    /// The list of a prefix.
    pub fn full(&self, prefix: EdgePrefix) -> (full: EdgeList)
        ensures
            full@ == prefix@.list,
    {
        prefix.list
    }
}

/// The graph with the given edges.
pub fn graph_of(n: usize, edges: &Vec<EdgeIndex>) -> (g: PlainGraph<Undirected>)
    requires
        (ListModel { n: n as nat, edges: edges@ }).in_range(),
    ensures
        g@ == GraphModel::of(n as nat, edges@),
{
    let ghost list = ListModel { n: n as nat, edges: edges@ };
    let mut g: PlainGraph<Undirected> = PlainGraph::plain_empty(n);
    let mut i: usize = 0;
    proof {
        lemma_graph_of_empty(n as nat);
        assert(edges@.take(0) =~= Seq::<EdgeIndex>::empty());
    }
    while i < edges.len()
        invariant
            i <= edges.len(),
            list == (ListModel { n: n as nat, edges: edges@ }),
            list.in_range(),
            g@ == GraphModel::of(n as nat, edges@.take(i as int)),
        decreases edges.len() - i,
    {
        assert(list.edges[i as int].0 < n);
        g.insert_plain_edge(canon_edge(edges[i]));
        proof {
            lemma_graph_of_push(n as nat, edges@.take(i as int), edges@[i as int]);
            assert(edges@.take(i + 1) =~= edges@.take(i as int).push(edges@[i as int]));
        }
        i = i + 1;
    }
    assert(edges@.take(i as int) =~= edges@);
    g
}

/// The unordered list of the given edges.
pub fn unordered_edge_list(n: usize, edges: Vec<EdgeIndex>) -> (list: Unordered<EdgeList>)
    ensures
        list@ == (ListModel { n: n as nat, edges: edges@ }),
        list.0.n == n,
        list.0.edges == edges,
{
    Unordered(EdgeList { n, edges })
}

/// Turning an edge round twice, or once after it was turned, changes nothing.
pub proof fn canon_idempotent(u: usize, v: usize)
    ensures
        graph::canon(graph::canon((u, v))) == graph::canon((u, v)),
        graph::canon((u, v)) == graph::canon((v, u)),
        graph::canon((u, v)).0 <= graph::canon((u, v)).1,
        graph::canon((u, v)) == (u, v) || graph::canon((u, v)) == (v, u),
{
}

/// No edges make no graph.
pub proof fn lemma_graph_of_empty(n: nat)
    ensures
        GraphModel::of(n, Seq::<EdgeIndex>::empty()) == GraphModel::empty(n),
{
    assert(GraphModel::of(n, Seq::<EdgeIndex>::empty()).edges =~= Set::<EdgeIndex>::empty());
}

/// One more edge in the list is one more edge in the graph.
pub proof fn lemma_graph_of_push(n: nat, edges: Seq<EdgeIndex>, e: EdgeIndex)
    ensures
        GraphModel::of(n, edges.push(e)) == GraphModel::of(n, edges).with(graph::canon(e)),
{
    let f = |e: EdgeIndex| graph::canon(e);
    let c = edges.map_values(f);
    assert(edges.push(e).map_values(f) =~= c.push(graph::canon(e)));
    c.lemma_push_to_set_commute(graph::canon(e));
    assert(GraphModel::of(n, edges.push(e)).edges =~= GraphModel::of(n, edges).with(
        graph::canon(e),
    ).edges);
}

/// Putting back the edge that was taken away restores the prefix, where the graph had the edge
/// and the list holds it with the smaller node first.
pub proof fn pop_slice_then_push_slice(p: PrefixModel)
    requires
        0 < p.len_active <= p.list.edges.len(),
        p.g.edges.contains(p.last_edge()),
        p.list.edges[p.len_active - 1] == p.last_edge(),
    ensures
        p.without_last().with_edge(p.last_edge()) == p,
{
    let q = p.without_last().with_edge(p.last_edge());
    canon_idempotent(
        p.list.edges[p.len_active - 1].0,
        p.list.edges[p.len_active - 1].1,
    );
    assert(q.g.edges =~= p.g.edges);
    assert(q.list.edges =~= p.list.edges);
}

/// Taking away the edge that was put back restores the graph and the active edges, where the graph
/// did not have the edge.
pub proof fn push_slice_then_pop_slice(p: PrefixModel, e: EdgeIndex)
    requires
        p.len_active < p.list.edges.len(),
        !p.g.edges.contains(graph::canon(e)),
    ensures
        p.with_edge(e).last_edge() == graph::canon(e),
        p.with_edge(e).without_last().g == p.g,
        p.with_edge(e).without_last().active() == p.active(),
        p.with_edge(e).without_last().len_active == p.len_active,
        p.with_edge(e).without_last().list.n == p.list.n,
{
    canon_idempotent(e.0, e.1);
    let q = p.with_edge(e).without_last();
    assert(q.g.edges =~= p.g.edges);
    assert(q.active() =~= p.active());
}

/// The list of the prefix of a list is the list.
pub proof fn prefix_then_full(full: ListModel)
    ensures
        PrefixModel::of(full).list == full,
        PrefixModel::of(full).active() == full.edges,
{
    assert(PrefixModel::of(full).active() =~= full.edges);
}

/// What it means for a list that its edges join nodes that there are, have no loops, and join no two
/// nodes twice.
pub proof fn list_conditions(x: ListModel)
    ensures
        x.in_range() <==> forall|i: int|
            0 <= i < x.edges.len() ==> (#[trigger] x.edges[i]).0 < x.n && x.edges[i].1 < x.n,
        x.no_loops() <==> forall|i: int|
            0 <= i < x.edges.len() ==> (#[trigger] x.edges[i]).0 != x.edges[i].1,
        x.no_repeats() <==> forall|i: int, j: int|
            0 <= i < j < x.edges.len() ==> #[trigger] x.edges[i] != #[trigger] x.edges[j]
                && x.edges[i] != (x.edges[j].1, x.edges[j].0),
        x.graph() == GraphModel::of(x.n, x.edges),
{
    let s = x.edges.map_values(|e: EdgeIndex| graph::canon(e));
    if x.no_repeats() {
        assert forall|i: int, j: int| 0 <= i < j < x.edges.len() implies #[trigger] x.edges[i]
            != #[trigger] x.edges[j] && x.edges[i] != (x.edges[j].1, x.edges[j].0) by {
            assert(s[i] != s[j]);
        }
    }
    if forall|i: int, j: int|
        0 <= i < j < x.edges.len() ==> #[trigger] x.edges[i] != #[trigger] x.edges[j] && x.edges[i]
            != (x.edges[j].1, x.edges[j].0) {
        assert forall|i: int, j: int| 0 <= i < s.len() && 0 <= j < s.len() && i != j implies s[i]
            != s[j] by {
            if i < j {
                assert(x.edges[i] != x.edges[j]);
            } else {
                assert(x.edges[j] != x.edges[i]);
            }
        }
    }
}

/// What the steps on a prefix do to its graph, its list and its number of active edges.
pub proof fn prefix_steps(p: PrefixModel, e: EdgeIndex, n: nat, len: nat)
    ensures
        p.active() == p.list.edges.take(p.len_active as int),
        p.last_edge() == graph::canon(p.list.edges[p.len_active - 1]),
        p.len_active > 0 ==> p.without_last() == (PrefixModel {
            g: GraphModel {
                n: p.g.n,
                edges: p.g.edges.remove(graph::canon(p.list.edges[p.len_active - 1])),
            },
            list: p.list,
            len_active: (p.len_active - 1) as nat,
        }),
        p.with_edge(e) == (PrefixModel {
            g: GraphModel { n: p.g.n, edges: p.g.edges.insert(graph::canon(e)) },
            list: ListModel {
                n: p.list.n,
                edges: p.list.edges.update(p.len_active as int, graph::canon(e)),
            },
            len_active: p.len_active + 1,
        }),
        PrefixModel::of(p.list) == (PrefixModel {
            g: GraphModel::of(p.list.n, p.list.edges),
            list: p.list,
            len_active: p.list.edges.len(),
        }),
        PrefixModel::blank(n, len).g == GraphModel::empty(n),
        PrefixModel::blank(n, len).list.n == n,
        PrefixModel::blank(n, len).list.edges.len() == len,
        PrefixModel::blank(n, len).len_active == 0,
{
}

/// Lists and prefixes stand for what their fields hold.
pub proof fn views_hold_fields(list: EdgeList, prefix: EdgePrefix, unordered: Unordered<EdgeList>)
    ensures
        list@.n == list.n,
        list@.edges == list.edges@,
        prefix@.g == prefix.g@,
        prefix@.list == prefix.list@,
        prefix@.len_active == prefix.len_active,
        unordered@ == unordered.0@,
{
}

} // verus!
