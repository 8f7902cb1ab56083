//! Coding of an unordered edge list, edge by edge, with bits back.

use crate::codec;
use crate::codec::Codec;
use crate::color_refinement::ColorRefinement;
use crate::counting;
use crate::edge_prefix;
use crate::edge_prefix::{EdgeList, EdgePrefix, EdgePrefixingChain, ListModel, PrefixModel};
use crate::edge_signature;
use crate::edge_signature::EdgeOrbitCodecs;
use crate::graph;
use crate::graph::{EdgeIndex, GraphModel};
use crate::message::Message;
use crate::permutable::Unordered;
use crate::prefix_orbit;
use crate::prefix_orbit::FixPrefixOrbitCodec;
use crate::removal_model::EdgeRemovalModel;
use crate::slice_codecs;
use crate::slice_codecs::{EdgeSliceCodecs, EmptyPrefixNm};
use std::marker::PhantomData;
use vstd::prelude::*;

verus! {

/// The place of the edge to take away from `active`: the orbit comes off the message `m`, and the
/// first edge of the orbit stands for it.
pub open spec fn chosen(
    cr: ColorRefinement,
    g: GraphModel,
    active: Seq<EdgeIndex>,
    m: nat,
) -> int {
    let ranks = edge_signature::edge_ranks(cr, g, active);
    prefix_orbit::first_of(ranks, prefix_orbit::orbit_popped(ranks, m).1)
}

/// The message after the orbit came off it.
pub open spec fn after_choice(
    cr: ColorRefinement,
    g: GraphModel,
    active: Seq<EdgeIndex>,
    m: nat,
) -> nat {
    prefix_orbit::orbit_popped(edge_signature::edge_ranks(cr, g, active), m).0
}

/// The edges that are left after the one at `i` was put last and taken away.
pub open spec fn left_over(active: Seq<EdgeIndex>, i: int) -> Seq<EdgeIndex> {
    Seq::new(
        (active.len() - 1) as nat,
        |j: int|
            if j == i {
                active.last()
            } else {
                active[j]
            },
    )
}

/// The message after all active edges were taken away and pushed.
pub open spec fn encoded<M: EdgeRemovalModel>(
    model: M,
    cr: ColorRefinement,
    g: GraphModel,
    active: Seq<EdgeIndex>,
    m: nat,
) -> nat
    decreases active.len(),
{
    if active.len() == 0 {
        m
    } else {
        let i = chosen(cr, g, active, m);
        let e = graph::canon(active[i]);
        let rest = g.without(e);
        encoded(
            model,
            cr,
            rest,
            left_over(active, i),
            model.edge_pushed(rest, g.n, after_choice(cr, g, active, m), e),
        )
    }
}

/// The message after `k` edges between `n` nodes were popped off `m`, and the edges.
pub open spec fn decoded<M: EdgeRemovalModel>(
    model: M,
    cr: ColorRefinement,
    n: nat,
    k: nat,
    m: nat,
) -> (nat, Seq<EdgeIndex>)
    decreases k,
{
    if k == 0 {
        (m, Seq::empty())
    } else {
        let (before, active) = decoded(model, cr, n, (k - 1) as nat, m);
        let (rest, slice) = model.edge_popped(GraphModel::of(n, active), n, before);
        let longer = active.push(graph::canon(slice));
        let ranks = edge_signature::edge_ranks(cr, GraphModel::of(n, longer), longer);
        (prefix_orbit::orbit_pushed(ranks, rest, ranks.last()), longer)
    }
}

/// The message after a list was pushed onto `m`: its edges, then its numbers of edges and nodes.
pub open spec fn list_pushed<M: EdgeRemovalModel>(
    model: M,
    cr: ColorRefinement,
    m: nat,
    x: ListModel,
) -> nat {
    EmptyPrefixNm.pushed(encoded(model, cr, x.graph(), x.edges, m), PrefixModel::of(x))
}

/// The message after a list was popped off `m`, and the list.
pub open spec fn list_popped<M: EdgeRemovalModel>(model: M, cr: ColorRefinement, m: nat) -> (
    nat,
    ListModel,
) {
    let (body, x) = EmptyPrefixNm.popped(m);
    let (rest, edges) = decoded(model, cr, x.list.n, x.list.edges.len(), body);
    (rest, ListModel { n: x.list.n, edges })
}

/// Whether the message asks for no more edges than there are pairs of different nodes.
pub open spec fn enough_pairs(m: nat) -> bool {
    let x = EmptyPrefixNm.popped(m).1;
    2 * x.list.edges.len() <= x.list.n * (x.list.n - 1)
}

/// Codec for unordered things: takes their parts away one by one, the orbit of each part coming
/// off the message and the part itself going onto it.
#[derive(Debug, PartialEq, Eq)]
pub struct UnfusedAutoregressiveShuffleCodec<C, S, O> {
    slices: S,
    orbit_codecs: O,
    phantom: PhantomData<C>,
}

impl<C, S, O> UnfusedAutoregressiveShuffleCodec<C, S, O> {
    /// How the codecs for the parts are made.
    pub closed spec fn slice_codecs(&self) -> S {
        self.slices
    }

    /// How the codecs for the orbits are made.
    pub closed spec fn orbits(&self) -> O {
        self.orbit_codecs
    }

    /// The codec that makes its codecs in the given ways.
    pub fn new(slices: S, orbit_codecs: O) -> (c: Self)
        ensures
            c.slice_codecs() == slices,
            c.orbits() == orbit_codecs,
    {
        UnfusedAutoregressiveShuffleCodec { slices, orbit_codecs, phantom: PhantomData }
    }
}

impl<C, S: Clone, O: Clone> Clone for UnfusedAutoregressiveShuffleCodec<C, S, O> {
    fn clone(&self) -> (c: Self)
        ensures
            vstd::pervasive::cloned(self.slice_codecs(), c.slice_codecs()),
            vstd::pervasive::cloned(self.orbits(), c.orbits()),
    {
        Self::new(self.slices.clone(), self.orbit_codecs.clone())
    }
}

/// Whether the active edges are there and join different nodes of the graph.
spec fn joins_nodes(x: PrefixModel) -> bool {
    &&& x.len_active <= x.list.edges.len()
    &&& x.list.n == x.g.n
    &&& forall|i: int|
        0 <= i < x.len_active ==> (#[trigger] x.list.edges[i]).0 < x.g.n && x.list.edges[i].1
            < x.g.n && x.list.edges[i].0 != x.list.edges[i].1
}

/// What is left after the active edge at `i` was put last and taken away.
proof fn lemma_taken_away(p: PrefixModel, i: int)
    requires
        joins_nodes(p),
        0 <= i < p.len_active,
    ensures
        ({
            let q = p.swapped(i, p.len_active - 1);
            let e = graph::canon(p.active()[i]);
            &&& q.last_edge() == e
            &&& graph::canon(e) == e
            &&& q.without_last().g == p.g.without(e)
            &&& q.without_last().active() == left_over(p.active(), i)
            &&& joins_nodes(q.without_last())
            &&& q.without_last().g.among(p.list.n).lacks(e)
        }),
{
    let last = p.len_active - 1;
    let q = p.swapped(i, last);
    let r = q.without_last();
    let e = graph::canon(p.active()[i]);
    assert(p.active()[i] == p.list.edges[i]);
    edge_prefix::canon_idempotent(p.list.edges[i].0, p.list.edges[i].1);
    assert(r.active() =~= left_over(p.active(), i));
    assert forall|j: int| 0 <= j < r.len_active implies (#[trigger] r.list.edges[j]).0 < r.g.n
        && r.list.edges[j].1 < r.g.n && r.list.edges[j].0 != r.list.edges[j].1 by {
        let b = if j == i {
            last
        } else {
            j
        };
        assert(r.list.edges[j] == p.list.edges[b]);
    }
}

impl<M: EdgeRemovalModel> UnfusedAutoregressiveShuffleCodec<
    EdgePrefixingChain,
    EdgeSliceCodecs<M>,
    EdgeOrbitCodecs,
> {
    /// Takes the orbit of an edge off the message, takes the edge away, and pushes it.
    fn encode_step(
        &self,
        chain: &EdgePrefixingChain,
        prefix: &mut EdgePrefix,
        image: &mut FixPrefixOrbitCodec,
        m: &mut Message,
    )
        requires
            joins_nodes(old(prefix)@),
            old(prefix)@.len_active > 0,
            self.orbits().is_image(*old(image), old(prefix)@),
        ensures
            joins_nodes(final(prefix)@),
            final(prefix)@.len_active == old(prefix)@.len_active - 1,
            final(prefix)@.list.n == old(prefix)@.list.n,
            final(prefix)@.list.edges.len() == old(prefix)@.list.edges.len(),
            self.orbits().is_image(*final(image), final(prefix)@),
            ({
                let g = old(prefix)@.g;
                let active = old(prefix)@.active();
                let i = chosen(self.orbits().cr, g, active, old(m)@);
                let e = graph::canon(active[i]);
                &&& final(prefix)@.g == g.without(e)
                &&& final(prefix)@.active() == left_over(active, i)
                &&& final(m)@ == self.slice_codecs().model.edge_pushed(
                    g.without(e),
                    g.n,
                    after_choice(self.orbits().cr, g, active, old(m)@),
                    e,
                )
            }),
    {
        proof {
            prefix_orbit::orbit_pop_then_push(image.ranks(), m@);
        }
        let orbit = image.pop(m);
        let i = image.representative(orbit);
        let last: usize = prefix.len() - 1;
        proof {
            lemma_taken_away(prefix@, i as int);
        }
        prefix.swap(i, last);
        self.orbit_codecs.swap(image, i, last);
        let slice = chain.pop_slice(prefix);
        self.orbit_codecs.update_after_pop_slice(image, prefix, &slice);
        let slice_codec = self.slices.apply(prefix);
        assert(slice_codec.can_push(slice));
        slice_codec.push(m, &slice);
    }
}

impl<M: EdgeRemovalModel> Codec for UnfusedAutoregressiveShuffleCodec<
    EdgePrefixingChain,
    EdgeSliceCodecs<M>,
    EdgeOrbitCodecs,
> {
    type Symbol = Unordered<EdgeList>;

    open spec fn can_push(&self, x: ListModel) -> bool {
        x.in_range() && x.no_loops()
    }

    open spec fn can_pop(&self, m: nat) -> bool {
        enough_pairs(m)
    }

    open spec fn pushed(&self, m: nat, x: ListModel) -> nat {
        list_pushed(self.slice_codecs().model, self.orbits().cr, m, x)
    }

    open spec fn popped(&self, m: nat) -> (nat, ListModel) {
        list_popped(self.slice_codecs().model, self.orbits().cr, m)
    }

    fn push(&self, m: &mut Message, x: &Unordered<EdgeList>) {
        let ghost model = self.slices.model;
        let ghost cr = self.orbit_codecs.cr;
        let ghost start = m@;
        let chain = self.slices.prefixing_chain();
        let mut prefix = chain.prefix(x.0.clone());
        proof {
            edge_prefix::prefix_then_full(x@);
            assert forall|i: int| 0 <= i < prefix@.len_active implies (#[trigger]
            prefix@.list.edges[i]).0 < prefix@.g.n && prefix@.list.edges[i].1 < prefix@.g.n
                && prefix@.list.edges[i].0 != prefix@.list.edges[i].1 by {
                assert(x@.edges[i].0 < x@.n && x@.edges[i].0 != x@.edges[i].1);
            }
        }
        let mut image = self.orbit_codecs.apply(&prefix);
        while prefix.len() > 0
            invariant
                model == self.slice_codecs().model,
                cr == self.orbits().cr,
                joins_nodes(prefix@),
                prefix@.list.edges.len() == x@.edges.len(),
                prefix@.list.n == x@.n,
                self.orbits().is_image(image, prefix@),
                encoded(model, cr, prefix@.g, prefix@.active(), m@) == encoded(
                    model,
                    cr,
                    x@.graph(),
                    x@.edges,
                    start,
                ),
            decreases prefix.len_active,
        {
            self.encode_step(&chain, &mut prefix, &mut image, m);
        }
        assert(prefix@.active() =~= Seq::<EdgeIndex>::empty());
        self.slices.empty_prefix().push(m, &prefix);
    }

    fn pop(&self, m: &mut Message) -> (x: Unordered<EdgeList>) {
        let ghost model = self.slices.model;
        let ghost cr = self.orbit_codecs.cr;
        let chain = self.slices.prefixing_chain();
        let mut prefix = self.slices.empty_prefix().pop(m);
        let total = prefix.list.len();
        let ghost n = prefix@.list.n;
        let ghost body = m@;
        proof {
            edge_prefix::lemma_graph_of_empty(n);
            assert(prefix@.active() =~= Seq::<EdgeIndex>::empty());
        }
        while prefix.len() < total
            invariant
                model == self.slices.model,
                cr == self.orbit_codecs.cr,
                2 * total <= n * (n - 1),
                prefix@.len_active <= total == prefix@.list.edges.len(),
                prefix@.list.n == n,
                n <= usize::MAX,
                prefix@.g == GraphModel::of(n, prefix@.active()),
                (m@, prefix@.active()) == decoded(model, cr, n, prefix@.len_active, body),
            decreases total - prefix.len_active,
        {
            let ghost k = prefix@.len_active;
            let ghost active = prefix@.active();
            let ghost before = m@;
            proof {
                lemma_decoded_step(model, cr, n, k, body);
                assert(prefix@.g.among(n) == prefix@.g);
                lemma_simple_graph(n, active);
                model.popped_is_missing(prefix@.g, n, m@);
                assert forall|j: int| 0 <= j < prefix@.len_active implies (#[trigger]
                prefix@.list.edges[j]).0 < n && prefix@.list.edges[j].1 < n by {
                    assert(active[j].0 < active[j].1 < n);
                }
            }
            let slice_codec = self.slices.apply(&prefix);
            assert(slice_codec.can_pop(m@));
            assert(slice_codec.popped(m@) == model.edge_popped(prefix@.g, n, m@));
            let slice = slice_codec.pop(m);
            chain.push_slice(&mut prefix, &slice);
            let ghost longer = active.push(graph::canon(slice));
            proof {
                assert(prefix@.active() =~= longer);
                edge_prefix::lemma_graph_of_push(n, active, graph::canon(slice));
                edge_prefix::canon_idempotent(slice.0, slice.1);
                assert(self.orbit_codecs.applies(prefix@));
            }
            let orbits = self.orbit_codecs.apply(&prefix);
            let orbit = orbits.rank(prefix.len() - 1);
            proof {
                counting::lemma_mass_positive(orbits.ranks(), k as int);
            }
            orbits.push(m, &orbit);
        }
        Unordered(chain.full(prefix))
    }
}

/// Whether the edges are simple: between nodes that there are, smaller node first, none twice.
pub open spec fn simple(n: nat, edges: Seq<EdgeIndex>) -> bool {
    &&& edges.no_duplicates()
    &&& forall|i: int| 0 <= i < edges.len() ==> (#[trigger] edges[i]).0 < edges[i].1 < n
}

/// The graph of a simple list is well formed.
proof fn lemma_simple_graph(n: nat, edges: Seq<EdgeIndex>)
    requires
        n <= usize::MAX,
        simple(n, edges),
    ensures
        GraphModel::of(n, edges).wf(),
{
    let list = ListModel { n, edges };
    assert forall|i: int| 0 <= i < edges.len() implies (#[trigger] list.edges[i]).0 < n
        && list.edges[i].1 < n && list.edges[i].0 != list.edges[i].1 by {
        assert(edges[i].0 < edges[i].1 < n);
    }
    list_makes_graph(list);
}

/// The graph of a list of edges between different nodes is well formed and has no loops.
pub proof fn list_makes_graph(x: ListModel)
    requires
        x.in_range(),
        x.no_loops(),
        x.n <= usize::MAX,
    ensures
        x.graph().wf(),
        x.graph().no_loops(),
{
    let g = x.graph();
    let s = canonical(x.edges);
    vstd::seq_lib::seq_to_set_is_finite(s);
    assert forall|e: EdgeIndex| #[trigger] g.edges.contains(e) implies e.0 < e.1 < g.n by {
        let i = choose|i: int| 0 <= i < s.len() && s[i] == e;
        assert(x.edges[i].0 < x.n && x.edges[i].0 != x.edges[i].1);
    }
}

/// A simple list with fewer edges than pairs of nodes leaves an edge to add.
proof fn lemma_simple_has_room(n: nat, edges: Seq<EdgeIndex>)
    requires
        n <= usize::MAX,
        simple(n, edges),
        2 * edges.len() < n * (n - 1),
    ensures
        GraphModel::of(n, edges).has_room(),
        GraphModel::of(n, edges).edges == edges.to_set(),
{
    let g = GraphModel::of(n, edges);
    assert(edges.map_values(|e: EdgeIndex| graph::canon(e)) =~= edges) by {
        assert forall|i: int| 0 <= i < edges.len() implies graph::canon(edges[i]) == edges[i] by {
        }
    }
    edges.unique_seq_to_set();
    vstd::seq_lib::seq_to_set_is_finite(edges);
    graph::edges_and_pairs(g);
}

/// What was popped so far is simple, and there is another edge to pop.
proof fn lemma_decoded_step<M: EdgeRemovalModel>(
    model: M,
    cr: ColorRefinement,
    n: nat,
    k: nat,
    m: nat,
)
    requires
        n <= usize::MAX,
        2 * k < n * (n - 1),
    ensures
        decoded(model, cr, n, k, m).1.len() == k,
        simple(n, decoded(model, cr, n, k, m).1),
        GraphModel::of(n, decoded(model, cr, n, k, m).1).has_room(),
{
    decoded_is_simple(model, cr, n, k, m);
    lemma_simple_has_room(n, decoded(model, cr, n, k, m).1);
}

/// Whatever the message, popping as many edges as there are pairs of nodes at most gives that many
/// edges, between different nodes that there are, none twice.
pub proof fn decoded_is_simple<M: EdgeRemovalModel>(
    model: M,
    cr: ColorRefinement,
    n: nat,
    k: nat,
    m: nat,
)
    requires
        n <= usize::MAX,
        2 * k <= n * (n - 1),
    ensures
        decoded(model, cr, n, k, m).1.len() == k,
        simple(n, decoded(model, cr, n, k, m).1),
    decreases k,
{
    if k > 0 {
        let (before, active) = decoded(model, cr, n, (k - 1) as nat, m);
        let g = GraphModel::of(n, active);
        decoded_is_simple(model, cr, n, (k - 1) as nat, m);
        lemma_simple_has_room(n, active);
        assert(g.among(n) == g);
        lemma_simple_graph(n, active);
        model.popped_is_missing(g, n, before);
        let slice = model.edge_popped(g, n, before).1;
        assert(g.lacks(slice));
        let longer = active.push(graph::canon(slice));
        assert forall|i: int| 0 <= i < longer.len() implies (#[trigger] longer[i]).0 < longer[i].1
            < n by {
            if i < active.len() {
                assert(active[i].0 < active[i].1);
            }
        }
        assert(!active.contains(slice)) by {
            assert(active.to_set().contains(slice) == active.contains(slice));
        }
        assert(longer.no_duplicates());
    }
}

/// The edges, each with its smaller node first.
pub open spec fn canonical(edges: Seq<EdgeIndex>) -> Seq<EdgeIndex> {
    edges.map_values(|e: EdgeIndex| graph::canon(e))
}

/// Whether each edge that is pushed while `active` is taken away would be popped again at once.
pub open spec fn each_comes_back<M: EdgeRemovalModel>(
    model: M,
    cr: ColorRefinement,
    g: GraphModel,
    active: Seq<EdgeIndex>,
    m: nat,
) -> bool
    decreases active.len(),
{
    active.len() > 0 ==> {
        let i = chosen(cr, g, active, m);
        let e = graph::canon(active[i]);
        let rest = g.without(e);
        let before = after_choice(cr, g, active, m);
        let after = model.edge_pushed(rest, g.n, before, e);
        &&& model.edge_popped(rest, g.n, after) == (before, e)
        &&& each_comes_back(model, cr, rest, left_over(active, i), after)
    }
}

/// Taking away an edge that occurs once: what is left, and how it relates to what there was.
proof fn lemma_left_over(n: nat, active: Seq<EdgeIndex>, i: int)
    requires
        0 <= i < active.len(),
        canonical(active).no_duplicates(),
    ensures
        counting::permuted(
            canonical(active),
            canonical(left_over(active, i)).push(graph::canon(active[i])),
        ),
        canonical(left_over(active, i)).no_duplicates(),
        GraphModel::of(n, left_over(active, i)) == GraphModel::of(n, active).without(
            graph::canon(active[i]),
        ),
        GraphModel::of(n, active).edges.contains(graph::canon(active[i])),
{
    let c = canonical(active);
    let last = active.len() - 1;
    let e = graph::canon(active[i]);
    let rest = canonical(left_over(active, i));
    assert(rest.push(e) =~= counting::swapped(c, i, last));
    counting::lemma_swapped_permuted(c, i, last);
    counting::lemma_permuted_members(c, rest.push(e));
    assert(!rest.contains(e)) by {
        if rest.contains(e) {
            let j = choose|j: int| 0 <= j < rest.len() && rest[j] == e;
            let b = if j == i {
                last
            } else {
                j
            };
            assert(c[b] == e && c[i] == e);
        }
    }
    assert forall|a: int, b: int| 0 <= a < rest.len() && 0 <= b < rest.len() && a != b implies rest[a]
        != rest[b] by {
        let x = if a == i {
            last
        } else {
            a
        };
        let y = if b == i {
            last
        } else {
            b
        };
        assert(rest[a] == c[x] && rest[b] == c[y]);
    }
    rest.lemma_push_to_set_commute(e);
    assert(c.contains(e)) by {
        assert(c[i] == e);
    }
    assert(rest.to_set() =~= c.to_set().remove(e)) by {
        assert forall|x: EdgeIndex| rest.to_set().contains(x) <==> c.to_set().remove(e).contains(
            x,
        ) by {
            assert(c.to_set().contains(x) <==> rest.to_set().insert(e).contains(x));
            assert(rest.to_set().contains(x) <==> rest.contains(x));
        }
    }
}

/// The ids of edges depend on the edges with the smaller node first.
proof fn lemma_ids_canonical(cr: ColorRefinement, g: GraphModel, edges: Seq<EdgeIndex>)
    ensures
        edge_signature::edge_ids(cr, g, canonical(edges)) == edge_signature::edge_ids(
            cr,
            g,
            edges,
        ),
{
    let ids = edge_signature::edge_ids(cr, g, edges);
    let other = edge_signature::edge_ids(cr, g, canonical(edges));
    assert forall|i: int| 0 <= i < edges.len() implies ids[i] == other[i] by {
        edge_prefix::canon_idempotent(edges[i].0, edges[i].1);
    }
    assert(ids =~= other);
}

/// Popping the edges that were pushed gives them all back, in some order, and the message.
proof fn lemma_encode_then_decode<M: EdgeRemovalModel>(
    model: M,
    cr: ColorRefinement,
    n: nat,
    active: Seq<EdgeIndex>,
    m: nat,
)
    requires
        canonical(active).no_duplicates(),
        each_comes_back(model, cr, GraphModel::of(n, active), active, m),
    ensures
        ({
            let body = encoded(model, cr, GraphModel::of(n, active), active, m);
            let (rest, edges) = decoded(model, cr, n, active.len(), body);
            &&& rest == m
            &&& counting::permuted(canonical(active), edges)
            &&& GraphModel::of(n, edges) == GraphModel::of(n, active)
        }),
    decreases active.len(),
{
    let g = GraphModel::of(n, active);
    if active.len() == 0 {
        assert(active =~= Seq::<EdgeIndex>::empty());
        assert(canonical(active) =~= Seq::<EdgeIndex>::empty());
    } else {
        let ranks = edge_signature::edge_ranks(cr, g, active);
        let (before, k) = prefix_orbit::orbit_popped(ranks, m);
        let i = chosen(cr, g, active, m);
        let e = graph::canon(active[i]);
        let fewer = left_over(active, i);
        let rest = g.without(e);
        let after = model.edge_pushed(rest, n, before, e);
        prefix_orbit::orbit_pop_then_push(ranks, m);
        prefix_orbit::first_of_exists(ranks, k);
        lemma_left_over(n, active, i);
        lemma_encode_then_decode(model, cr, n, fewer, after);
        let body = encoded(model, cr, rest, fewer, after);
        let (again, edges) = decoded(model, cr, n, fewer.len(), body);
        assert(again == after);
        assert(model.edge_popped(GraphModel::of(n, edges), n, after) == (before, e));
        edge_prefix::canon_idempotent(active[i].0, active[i].1);
        let longer = edges.push(e);
        let c = canonical(active);
        assert(counting::permuted(c, longer)) by {
            let fewer_c = canonical(fewer);
            fewer_c.to_multiset_ensures();
            edges.to_multiset_ensures();
            assert(fewer_c.push(e).to_multiset() =~= fewer_c.to_multiset().insert(e));
            assert(longer.to_multiset() =~= edges.to_multiset().insert(e));
        }
        edge_prefix::lemma_graph_of_push(n, edges, e);
        assert(GraphModel::of(n, longer).edges =~= g.edges);
        assert(GraphModel::of(n, longer) == g);
        let f = |x: EdgeIndex| edge_signature::edge_id(cr, g, x);
        let ids = edge_signature::edge_ids(cr, g, active);
        let ids_longer = edge_signature::edge_ids(cr, g, longer);
        lemma_ids_canonical(cr, g, active);
        counting::lemma_map_permuted(c, longer, f);
        assert(c.map_values(f) =~= ids);
        assert(longer.map_values(f) =~= ids_longer);
        prefix_orbit::ranks_permuted(ids, ids_longer);
        let ranks_longer = edge_signature::edge_ranks(cr, g, longer);
        prefix_orbit::orbit_pushed_permuted(ranks, ranks_longer, before, k);
        assert(ranks_longer.last() == k) by {
            assert(ids_longer.last() == edge_signature::edge_id(cr, g, e));
            assert(ids[i] == edge_signature::edge_id(cr, g, active[i]));
        }
        assert(decoded(model, cr, n, active.len(), body) == (m, longer)) by {
            assert((active.len() - 1) as nat == fewer.len());
        }
    }
}

/// Popping an edge list that was pushed gives the same edges, in some order and each with its
/// smaller node first, and the message is what it was.
///
/// No edge may occur twice, and each edge, once it is pushed, has to be one that the model pops
/// again.
pub proof fn edge_list_push_then_pop<M: EdgeRemovalModel>(
    model: M,
    cr: ColorRefinement,
    m: nat,
    x: ListModel,
)
    requires
        x.in_range(),
        x.no_loops(),
        x.no_repeats(),
        x.n <= usize::MAX,
        x.edges.len() <= usize::MAX,
        each_comes_back(model, cr, x.graph(), x.edges, m),
    ensures
        enough_pairs(list_pushed(model, cr, m, x)),
        ({
            let (rest, y) = list_popped(model, cr, list_pushed(model, cr, m, x));
            &&& rest == m
            &&& y.n == x.n
            &&& counting::permuted(canonical(x.edges), y.edges)
            &&& y.graph() == x.graph()
        }),
{
    let body = encoded(model, cr, x.graph(), x.edges, m);
    let left = PrefixModel { len_active: 0, ..PrefixModel::of(x) };
    slice_codecs::empty_prefix_push_then_pop(body, left);
    lemma_encode_then_decode(model, cr, x.n, x.edges, m);
    let g = x.graph();
    list_makes_graph(x);
    graph::edges_and_pairs(g);
    canonical(x.edges).unique_seq_to_set();
}

/// Whatever can be popped is a list of edges between different nodes that there are, smaller node
/// first, none twice, so it could have been pushed.
pub proof fn popped_edge_list_is_simple<M: EdgeRemovalModel>(
    model: M,
    cr: ColorRefinement,
    m: nat,
)
    requires
        enough_pairs(m),
    ensures
        ({
            let y = list_popped(model, cr, m).1;
            &&& simple(y.n, y.edges)
            &&& y.in_range()
            &&& y.no_loops()
            &&& y.no_repeats()
            &&& y.edges.len() == EmptyPrefixNm.popped(m).1.list.edges.len()
        }),
{
    let (body, x) = EmptyPrefixNm.popped(m);
    slice_codecs::empty_prefix_pop_then_push(m);
    decoded_is_simple(model, cr, x.list.n, x.list.edges.len(), body);
    let y = list_popped(model, cr, m).1;
    assert forall|i: int| 0 <= i < y.edges.len() implies (#[trigger] y.edges[i]).0 < y.n
        && y.edges[i].1 < y.n && y.edges[i].0 != y.edges[i].1 by {
        assert(y.edges[i].0 < y.edges[i].1 < y.n);
    }
    assert(y.edges.map_values(|e: EdgeIndex| graph::canon(e)) =~= y.edges);
}

/// Whether the model pops every missing edge that was pushed, whatever the graph and the message.
pub open spec fn inverts<M: EdgeRemovalModel>(model: M) -> bool {
    forall|g: GraphModel, n: nat, m: nat, e: EdgeIndex|
        g.wf() && n <= g.n && g.among(n).lacks(e) ==> model.edge_popped(
            g,
            n,
            #[trigger] model.edge_pushed(g, n, m, e),
        ) == (m, e)
}

/// A model that pops every edge that was pushed pops each edge of every list.
pub proof fn inverting_model_comes_back<M: EdgeRemovalModel>(
    model: M,
    cr: ColorRefinement,
    g: GraphModel,
    active: Seq<EdgeIndex>,
    m: nat,
)
    requires
        inverts(model),
        g.wf(),
        (ListModel { n: g.n, edges: active }).in_range(),
        (ListModel { n: g.n, edges: active }).no_loops(),
    ensures
        each_comes_back(model, cr, g, active, m),
    decreases active.len(),
{
    if active.len() > 0 {
        let i = chosen(cr, g, active, m);
        lemma_chosen(cr, g, active, m);
        let e = graph::canon(active[i]);
        let rest = g.without(e);
        let before = after_choice(cr, g, active, m);
        let after = model.edge_pushed(rest, g.n, before, e);
        let list = ListModel { n: g.n, edges: active };
        assert(list.edges[i].0 < g.n && list.edges[i].0 != list.edges[i].1);
        assert(rest.among(g.n).lacks(e));
        lemma_fewer_join_nodes(g.n, active, i);
        inverting_model_comes_back(model, cr, rest, left_over(active, i), after);
    }
}

/// The edge to take away is one of those that are there.
pub proof fn lemma_chosen(cr: ColorRefinement, g: GraphModel, active: Seq<EdgeIndex>, m: nat)
    requires
        active.len() > 0,
    ensures
        0 <= chosen(cr, g, active, m) < active.len(),
{
    let ranks = edge_signature::edge_ranks(cr, g, active);
    prefix_orbit::orbit_pop_then_push(ranks, m);
    prefix_orbit::first_of_exists(ranks, prefix_orbit::orbit_popped(ranks, m).1);
}

/// Taking an edge away leaves edges between different nodes that there are.
pub proof fn lemma_fewer_join_nodes(n: nat, active: Seq<EdgeIndex>, i: int)
    requires
        0 <= i < active.len(),
        (ListModel { n, edges: active }).in_range(),
        (ListModel { n, edges: active }).no_loops(),
    ensures
        (ListModel { n, edges: left_over(active, i) }).in_range(),
        (ListModel { n, edges: left_over(active, i) }).no_loops(),
{
    let list = ListModel { n, edges: active };
    let fewer = left_over(active, i);
    assert forall|j: int| 0 <= j < fewer.len() implies (#[trigger] fewer[j]).0 < n && fewer[j].1 < n
        && fewer[j].0 != fewer[j].1 by {
        let b = if j == i {
            active.len() - 1
        } else {
            j
        };
        assert(fewer[j] == list.edges[b]);
    }
}

/// The edge that a step takes away is the first of the orbit that comes off the message: of the
/// active edges, taken in the order of their ids with one number for each, its orbit has the number
/// that is the remainder of the message. What the edge is pushed onto has the same quotient, and
/// counts from the start of the orbit.
pub proof fn step_takes_popped_orbit(
    cr: ColorRefinement,
    g: GraphModel,
    active: Seq<EdgeIndex>,
    m: nat,
)
    requires
        0 < active.len() <= usize::MAX,
    ensures
        ({
            let k = active.len();
            let i = chosen(cr, g, active, m);
            let id = |e: EdgeIndex| edge_signature::edge_id(cr, g, e);
            let start = active.filter(|e: EdgeIndex| id(e) < id(active[i])).len();
            let size = active.filter(|e: EdgeIndex| id(e) == id(active[i])).len();
            &&& 0 <= i < k
            &&& start <= m % k && m % k < start + size
            &&& after_choice(cr, g, active, m) == (m / k) * size + (m % k - start)
            &&& forall|j: int| 0 <= j < i ==> id(#[trigger] active[j]) != id(active[i])
        }),
{
    let i = chosen(cr, g, active, m);
    let ids = edge_signature::edge_ids(cr, g, active);
    let ranks = edge_signature::edge_ranks(cr, g, active);
    let id = |e: EdgeIndex| edge_signature::edge_id(cr, g, e);
    lemma_ids(cr, g, active);
    prefix_orbit::orbit_pop_then_push(ranks, m);
    prefix_orbit::first_of_exists(ranks, prefix_orbit::orbit_popped(ranks, m).1);
    prefix_orbit::popped_orbit_holds_remainder(ids, m, i);
    counting::lemma_filter_same(
        ids,
        active,
        |x: u64| x < ids[i],
        |e: EdgeIndex| id(e) < id(active[i]),
    );
    counting::lemma_filter_same(
        ids,
        active,
        |x: u64| x == ids[i],
        |e: EdgeIndex| id(e) == id(active[i]),
    );
    assert forall|j: int| 0 <= j < i implies id(#[trigger] active[j]) != id(active[i]) by {
        prefix_orbit::ranks_tell_ids_apart(ids, j, i);
        assert(ranks[j] != ranks[i]);
        assert(ids[j] == id(active[j]));
    }
}

proof fn lemma_ids(cr: ColorRefinement, g: GraphModel, edges: Seq<EdgeIndex>)
    ensures
        edge_signature::edge_ids(cr, g, edges).len() == edges.len(),
        forall|j: int|
            0 <= j < edges.len() ==> #[trigger] edge_signature::edge_ids(cr, g, edges)[j]
                == edge_signature::edge_id(cr, g, edges[j]),
{
}

/// Pushing the edges takes them away one by one. Of `k` active edges it takes away the edge at `i` if
/// that is the first of its orbit and the interval of the orbit holds the remainder of the message;
/// the last edge then stands in its place. The edge is pushed onto the message that is left, and the
/// other edges after it. Without edges the message stays.
pub proof fn encoding_takes_popped_orbit<M: EdgeRemovalModel>(
    model: M,
    cr: ColorRefinement,
    g: GraphModel,
    active: Seq<EdgeIndex>,
    m: nat,
    i: int,
)
    requires
        0 <= i < active.len() <= usize::MAX,
        ({
            let id = |e: EdgeIndex| edge_signature::edge_id(cr, g, e);
            let start = active.filter(|e: EdgeIndex| id(e) < id(active[i])).len();
            let size = active.filter(|e: EdgeIndex| id(e) == id(active[i])).len();
            &&& start <= m % active.len() && m % active.len() < start + size
            &&& forall|j: int| 0 <= j < i ==> id(#[trigger] active[j]) != id(active[i])
        }),
    ensures
        encoded(model, cr, g, Seq::empty(), m) == m,
        ({
            let k = active.len();
            let id = |e: EdgeIndex| edge_signature::edge_id(cr, g, e);
            let start = active.filter(|e: EdgeIndex| id(e) < id(active[i])).len();
            let size = active.filter(|e: EdgeIndex| id(e) == id(active[i])).len();
            let before = ((m / k) * size + (m % k - start)) as nat;
            let e = graph::canon(active[i]);
            let rest = GraphModel { n: g.n, edges: g.edges.remove(e) };
            encoded(model, cr, g, active, m) == encoded(
                model,
                cr,
                rest,
                active.update(i, active.last()).drop_last(),
                model.edge_pushed(rest, g.n, before, e),
            )
        }),
{
    let k = active.len();
    let c = chosen(cr, g, active, m);
    let id = |e: EdgeIndex| edge_signature::edge_id(cr, g, e);
    let ids = edge_signature::edge_ids(cr, g, active);
    let ranks = edge_signature::edge_ranks(cr, g, active);
    lemma_ids(cr, g, active);
    step_takes_popped_orbit(cr, g, active, m);
    counting::lemma_filter_same(
        ids,
        active,
        |x: u64| x < ids[i],
        |e: EdgeIndex| id(e) < id(active[i]),
    );
    counting::lemma_filter_same(
        ids,
        active,
        |x: u64| x == ids[i],
        |e: EdgeIndex| id(e) == id(active[i]),
    );
    prefix_orbit::popped_orbit_holds_remainder(ids, m, i);
    prefix_orbit::orbit_pop_then_push(ranks, m);
    prefix_orbit::first_of_exists(ranks, prefix_orbit::orbit_popped(ranks, m).1);
    assert(ranks[c] == ranks[i]);
    prefix_orbit::ranks_tell_ids_apart(ids, c, i);
    assert(ids[c] == id(active[c]) && ids[i] == id(active[i]));
    assert(c == i) by {
        if c < i {
            assert(id(active[c]) != id(active[i]));
        } else if i < c {
            assert(id(active[i]) != id(active[c]));
        }
    }
    assert(left_over(active, i) =~= active.update(i, active.last()).drop_last());
}

/// Popping one edge more: the edge comes off the message by the model of the edges so far, and then
/// its orbit, among the edges with it, goes back onto the message. Without edges the message stays.
pub proof fn decoding_gives_orbit_back<M: EdgeRemovalModel>(
    model: M,
    cr: ColorRefinement,
    n: nat,
    k: nat,
    m: nat,
)
    requires
        k < usize::MAX,
    ensures
        decoded(model, cr, n, 0, m) == (m, Seq::<EdgeIndex>::empty()),
        decoded(model, cr, n, k, m).1.len() == k,
        ({
            let (before, active) = decoded(model, cr, n, k, m);
            let (rest, slice) = model.edge_popped(GraphModel::of(n, active), n, before);
            let e = graph::canon(slice);
            let longer = active.push(e);
            let g = GraphModel::of(n, longer);
            let id = |f: EdgeIndex| edge_signature::edge_id(cr, g, f);
            let start = longer.filter(|f: EdgeIndex| id(f) < id(e)).len();
            let size = longer.filter(|f: EdgeIndex| id(f) == id(e)).len();
            decoded(model, cr, n, k + 1, m) == (
                (rest / size) * (k + 1) + start + rest % size,
                longer,
            )
        }),
{
    lemma_decoded_len(model, cr, n, k, m);
    let (before, active) = decoded(model, cr, n, k, m);
    let (rest, slice) = model.edge_popped(GraphModel::of(n, active), n, before);
    let e = graph::canon(slice);
    let longer = active.push(e);
    let g = GraphModel::of(n, longer);
    let id = |f: EdgeIndex| edge_signature::edge_id(cr, g, f);
    let ids = edge_signature::edge_ids(cr, g, longer);
    let last = k as int;
    lemma_ids(cr, g, longer);
    assert(longer[last] == e);
    assert(ids[last] == id(e));
    counting::lemma_filter_same(
        ids,
        longer,
        |x: u64| x < ids[last],
        |f: EdgeIndex| id(f) < id(e),
    );
    counting::lemma_filter_same(
        ids,
        longer,
        |x: u64| x == ids[last],
        |f: EdgeIndex| id(f) == id(e),
    );
    prefix_orbit::pushed_orbit_sets_remainder(ids, rest, last);
    assert((k + 1 - 1) as nat == k);
    let ranks = edge_signature::edge_ranks(cr, g, longer);
    assert(ranks.last() == ranks[last]);
}

proof fn lemma_decoded_len<M: EdgeRemovalModel>(
    model: M,
    cr: ColorRefinement,
    n: nat,
    k: nat,
    m: nat,
)
    ensures
        decoded(model, cr, n, k, m).1.len() == k,
    decreases k,
{
    if k > 0 {
        lemma_decoded_len(model, cr, n, (k - 1) as nat, m);
    }
}

/// A codec for unordered edge lists pushes the edges by its model and its coloring, then the number of
/// edges, then the number of nodes, and pops them the other way round. It pushes every list of edges
/// between different nodes that there are, and pops where there are enough pairs of nodes.
pub proof fn edge_list_codec_parts<M: EdgeRemovalModel>(
    c: UnfusedAutoregressiveShuffleCodec<EdgePrefixingChain, EdgeSliceCodecs<M>, EdgeOrbitCodecs>,
    m: nat,
    x: ListModel,
)
    ensures
        c.can_push(x) <==> forall|i: int|
            0 <= i < x.edges.len() ==> (#[trigger] x.edges[i]).0 < x.n && x.edges[i].1 < x.n
                && x.edges[i].0 != x.edges[i].1,
        c.pushed(m, x) == codec::log_uniform_pushed(
            codec::log_uniform_pushed(
                encoded(
                    c.slice_codecs().model,
                    c.orbits().cr,
                    GraphModel::of(x.n, x.edges),
                    x.edges,
                    m,
                ),
                x.edges.len(),
            ),
            x.n,
        ),
        ({
            let (above, n) = codec::log_uniform_popped(m);
            let (body, len) = codec::log_uniform_popped(above);
            let (rest, edges) = decoded(c.slice_codecs().model, c.orbits().cr, n, len, body);
            &&& c.can_pop(m) <==> 2 * len <= n * (n - 1)
            &&& c.popped(m) == (rest, ListModel { n, edges })
        }),
{
    slice_codecs::empty_prefix_codes_counts(m, PrefixModel::of(x));
    if forall|i: int|
        0 <= i < x.edges.len() ==> (#[trigger] x.edges[i]).0 < x.n && x.edges[i].1 < x.n
            && x.edges[i].0 != x.edges[i].1 {
        edge_prefix::list_conditions(x);
    }
}

/// A simple list joins different nodes that there are, smaller node first, none twice.
pub proof fn simple_lists(n: nat, edges: Seq<EdgeIndex>)
    ensures
        simple(n, edges) <==> (forall|i: int|
            0 <= i < edges.len() ==> (#[trigger] edges[i]).0 < edges[i].1 && edges[i].1 < n) && (
        forall|i: int, j: int|
            0 <= i < j < edges.len() ==> #[trigger] edges[i] != #[trigger] edges[j]),
{
    if forall|i: int, j: int| 0 <= i < j < edges.len() ==> #[trigger] edges[i] != #[trigger] edges[j] {
        assert forall|i: int, j: int|
            0 <= i < edges.len() && 0 <= j < edges.len() && i != j implies edges[i] != edges[j] by {
            if i < j {
                assert(edges[i] != edges[j]);
            } else {
                assert(edges[j] != edges[i]);
            }
        }
    }
}

/// The edges keep their places when each is named by its smaller node first.
pub proof fn canonical_edges(edges: Seq<EdgeIndex>, i: int)
    requires
        0 <= i < edges.len(),
    ensures
        canonical(edges).len() == edges.len(),
        edges[i].0 <= edges[i].1 ==> canonical(edges)[i] == edges[i],
        edges[i].1 <= edges[i].0 ==> canonical(edges)[i] == (edges[i].1, edges[i].0),
{
}

} // verus!
