//! Signatures of edges, and the codec for the orbits that they make out.

use crate::color_refinement::ColorRefinement;
use crate::counting;
use crate::edge_prefix::{canon_edge, EdgePrefix, EdgeSlice, PrefixModel};
use crate::graph;
use crate::graph::{EdgeIndex, GraphModel};
use crate::prefix_orbit;
use crate::prefix_orbit::FixPrefixOrbitCodec;
use vstd::prelude::*;

verus! {

/// The smaller of two numbers.
pub open spec fn smaller(a: usize, b: usize) -> usize {
    if a <= b {
        a
    } else {
        b
    }
}

/// The larger of two numbers.
pub open spec fn larger(a: usize, b: usize) -> usize {
    if a <= b {
        b
    } else {
        a
    }
}

/// The signature of an edge: the colors of its nodes, then their degrees, each pair in order.
pub open spec fn signature(colors: Seq<usize>, deg: Seq<usize>, e: EdgeIndex) -> (
    usize,
    usize,
    usize,
    usize,
) {
    let (cu, cv) = (colors[e.0 as int], colors[e.1 as int]);
    let (du, dv) = (deg[e.0 as int], deg[e.1 as int]);
    (smaller(cu, cv), larger(cu, cv), smaller(du, dv), larger(du, dv))
}

/// The bits of `x` moved up by `k` places, those that leave at the top coming in at the bottom.
pub open spec fn rotated(x: u64, k: u64) -> u64 {
    (x << k) | (x >> ((64 - k) as u64))
}

/// The hash of a signature.
pub open spec fn signature_hash(sig: (usize, usize, usize, usize)) -> u64 {
    (sig.0 as u64).wrapping_mul(0x9E37_79B9_7F4A_7C15) ^ rotated(
        (sig.1 as u64).wrapping_add(0xD1B5_4A32_D192_ED03),
        17,
    ) ^ rotated((sig.2 as u64).wrapping_mul(0x94D0_49BB_1331_11EB), 31) ^ rotated(
        (sig.3 as u64).wrapping_mul(0xBF58_476D_1CE4_E5B9),
        47,
    )
}

/// The id of the orbit that the edge `e` of `g` is taken to belong to.
pub open spec fn edge_id(cr: ColorRefinement, g: GraphModel, e: EdgeIndex) -> u64 {
    signature_hash(signature(cr.colors(g), g.degrees(), graph::canon(e)))
}

/// The ids of a list of edges of `g`.
pub open spec fn edge_ids(cr: ColorRefinement, g: GraphModel, edges: Seq<EdgeIndex>) -> Seq<u64> {
    edges.map_values(|e: EdgeIndex| edge_id(cr, g, e))
}

/// The orbits of a list of edges of `g`, numbered.
pub open spec fn edge_ranks(cr: ColorRefinement, g: GraphModel, edges: Seq<EdgeIndex>) -> Seq<
    usize,
> {
    prefix_orbit::ranks_of(edge_ids(cr, g, edges))
}

/// The items of an iterator, in order.
///
/// Calls `itertools::Itertools::collect_vec`, which gathers in a vector everything that the
/// iterator has yet to yield.
#[verifier::external_body]
pub(crate) fn collect_vec(items: std::vec::IntoIter<usize>) -> (all: Vec<usize>)
    ensures
        all@ == vstd::std_specs::iter::IteratorSpec::remaining(&items),
{
    itertools::Itertools::collect_vec(items)
}

/// The signature of an edge, from the colors and degrees of all nodes.
pub fn edge_sig(node_color: &[usize], deg: &[usize], e: EdgeIndex) -> (sig: (
    usize,
    usize,
    usize,
    usize,
))
    requires
        e.0 < node_color@.len(),
        e.1 < node_color@.len(),
        e.0 < deg@.len(),
        e.1 < deg@.len(),
    ensures
        sig == signature(node_color@, deg@, e),
{
    let (u, v) = e;
    let (cu, cv) = (node_color[u], node_color[v]);
    let (du, dv) = (deg[u], deg[v]);
    let (c0, c1) = if cu <= cv {
        (cu, cv)
    } else {
        (cv, cu)
    };
    let (d0, d1) = if du <= dv {
        (du, dv)
    } else {
        (dv, du)
    };
    (c0, c1, d0, d1)
}

fn rotate_left(x: u64, k: u64) -> (y: u64)
    requires
        0 < k < 64,
    ensures
        y == rotated(x, k),
{
    (x << k) | (x >> (64 - k))
}

/// The hash of a signature.
pub fn hash_sig(sig: (usize, usize, usize, usize)) -> (hash: u64)
    ensures
        hash == signature_hash(sig),
{
    let (a, b, c, d) = sig;
    let mut x: u64 = (a as u64).wrapping_mul(0x9E37_79B9_7F4A_7C15);
    x = x ^ rotate_left((b as u64).wrapping_add(0xD1B5_4A32_D192_ED03), 17);
    x = x ^ rotate_left((c as u64).wrapping_mul(0x94D0_49BB_1331_11EB), 31);
    x = x ^ rotate_left((d as u64).wrapping_mul(0xBF58_476D_1CE4_E5B9), 47);
    x
}

/// Makes the codec for the orbit of an active edge, where every active edge is equally likely.
#[derive(Clone, Copy, Debug, PartialEq, Eq)]
pub struct EdgeOrbitCodecs {
    /// How nodes are colored.
    pub cr: ColorRefinement,
}

impl EdgeOrbitCodecs {
    /// Whether the active edges of the prefix are there and join nodes of its graph.
    pub open spec fn applies(&self, x: PrefixModel) -> bool {
        &&& x.len_active <= x.list.edges.len()
        &&& forall|i: int|
            0 <= i < x.len_active ==> (#[trigger] x.list.edges[i]).0 < x.g.n && x.list.edges[i].1
                < x.g.n
    }

    /// Whether `image` is the codec for the orbits of the active edges of `x`.
    pub open spec fn is_image(&self, image: FixPrefixOrbitCodec, x: PrefixModel) -> bool {
        &&& image.wf()
        &&& image.ranks() == edge_ranks(self.cr, x.g, x.active())
        &&& image.all_ranks() == image.ranks()
    }

    /// The codec for the orbit of an active edge.
    pub fn apply(&self, x: &EdgePrefix) -> (image: FixPrefixOrbitCodec)
        requires
            self.applies(x@),
        ensures
            self.is_image(image, x@),
            image.ranks().len() == x@.len_active,
            forall|i: int, j: int|
                0 <= i < x@.len_active && 0 <= j < x@.len_active ==> (#[trigger] image.ranks()[i]
                    == #[trigger] image.ranks()[j] <==> signature_hash(
                    signature(self.cr.colors(x@.g), x@.g.degrees(), x@.list.edges[i]),
                ) == signature_hash(
                    signature(self.cr.colors(x@.g), x@.g.degrees(), x@.list.edges[j]),
                )),
    {
        let colors = self.cr.apply(&x.g);
        let deg = collect_vec(x.g.degrees());
        let mut ids: Vec<u64> = Vec::with_capacity(x.len_active);
        let mut i: usize = 0;
        while i < x.len_active
            invariant
                i <= x.len_active,
                self.applies(x@),
                colors@ == self.cr.colors(x@.g),
                deg@ == x@.g.degrees(),
                colors.len() == x@.g.n,
                ids@ == edge_ids(self.cr, x@.g, x@.active()).take(i as int),
            decreases x.len_active - i,
        {
            assert(x@.list.edges[i as int].0 < x@.g.n);
            let e = canon_edge(x.list.edges[i]);
            let sig = edge_sig(colors.as_slice(), deg.as_slice(), e);
            ids.push(hash_sig(sig));
            assert(ids@ =~= edge_ids(self.cr, x@.g, x@.active()).take(i + 1));
            i = i + 1;
        }
        assert(ids@ =~= edge_ids(self.cr, x@.g, x@.active()));
        let image = FixPrefixOrbitCodec::new(ids, x.len_active);
        assert(image.ranks() =~= image.all_ranks());
        proof {
            assert(x@.len_active <= usize::MAX);
            assert forall|i: int, j: int|
                0 <= i < x@.len_active && 0 <= j < x@.len_active implies (#[trigger] image.ranks()[i]
                == #[trigger] image.ranks()[j] <==> signature_hash(
                signature(self.cr.colors(x@.g), x@.g.degrees(), x@.list.edges[i]),
            ) == signature_hash(
                signature(self.cr.colors(x@.g), x@.g.degrees(), x@.list.edges[j]),
            )) by {
                orbits_by_signature(*self, image, x@, i, j);
            }
        }
        image
    }

    /// Brings the codec in line with a prefix from which an edge was taken away.
    pub fn update_after_pop_slice(
        &self,
        image: &mut FixPrefixOrbitCodec,
        x: &EdgePrefix,
        _slice: &EdgeSlice,
    )
        requires
            self.applies(x@),
        ensures
            self.is_image(*final(image), x@),
            final(image).ranks().len() == x@.len_active,
            forall|i: int, j: int|
                0 <= i < x@.len_active && 0 <= j < x@.len_active ==> (
                #[trigger] final(image).ranks()[i] == #[trigger] final(image).ranks()[j]
                    <==> signature_hash(
                    signature(self.cr.colors(x@.g), x@.g.degrees(), x@.list.edges[i]),
                ) == signature_hash(
                    signature(self.cr.colors(x@.g), x@.g.degrees(), x@.list.edges[j]),
                )),
    {
        *image = self.apply(x);
    }

    /// Brings the codec in line with a prefix to which an edge was put back.
    pub fn update_after_push_slice(
        &self,
        image: &mut FixPrefixOrbitCodec,
        x: &EdgePrefix,
        _slice: &EdgeSlice,
    )
        requires
            self.applies(x@),
        ensures
            self.is_image(*final(image), x@),
            final(image).ranks().len() == x@.len_active,
            forall|i: int, j: int|
                0 <= i < x@.len_active && 0 <= j < x@.len_active ==> (
                #[trigger] final(image).ranks()[i] == #[trigger] final(image).ranks()[j]
                    <==> signature_hash(
                    signature(self.cr.colors(x@.g), x@.g.degrees(), x@.list.edges[i]),
                ) == signature_hash(
                    signature(self.cr.colors(x@.g), x@.g.degrees(), x@.list.edges[j]),
                )),
    {
        *image = self.apply(x);
    }

    /// Brings the codec in line with a prefix in which two active edges were exchanged.
    pub fn swap(&self, image: &mut FixPrefixOrbitCodec, i: usize, j: usize)
        requires
            old(image).wf(),
            i < old(image).ranks().len(),
            j < old(image).ranks().len(),
        ensures
            final(image).wf(),
            final(image).ranks() == counting::swapped(old(image).ranks(), i as int, j as int),
            final(image).all_ranks() == counting::swapped(
                old(image).all_ranks(),
                i as int,
                j as int,
            ),
            final(image).count() == old(image).count(),
            final(image).masses() == old(image).masses(),
    {
        image.swap(i, j);
    }
}

/// An edge has the same id whichever of its nodes is named first.
pub proof fn edge_id_undirected(cr: ColorRefinement, g: GraphModel, u: usize, v: usize)
    ensures
        edge_id(cr, g, (u, v)) == edge_id(cr, g, (v, u)),
        signature(cr.colors(g), g.degrees(), (u, v)) == signature(
            cr.colors(g),
            g.degrees(),
            (v, u),
        ),
{
}

/// The orbits of edges that were exchanged are the orbits, exchanged: a codec that follows the
/// swaps of its prefix stays the codec of its prefix.
pub proof fn swap_then_apply(
    cr: ColorRefinement,
    g: GraphModel,
    edges: Seq<EdgeIndex>,
    i: int,
    j: int,
)
    requires
        0 <= i < edges.len(),
        0 <= j < edges.len(),
    ensures
        edge_ranks(cr, g, counting::swapped(edges, i, j)) == counting::swapped(
            edge_ranks(cr, g, edges),
            i,
            j,
        ),
{
    let ids = edge_ids(cr, g, edges);
    let other = edge_ids(cr, g, counting::swapped(edges, i, j));
    assert(other =~= counting::swapped(ids, i, j));
    counting::lemma_swapped_permuted(ids, i, j);
    prefix_orbit::ranks_permuted(ids, other);
    assert(prefix_orbit::ranks_of(other) =~= counting::swapped(
        prefix_orbit::ranks_of(ids),
        i,
        j,
    ));
}

/// Bringing the orbit codec in line with a prefix gives what computing it from scratch gives, and
/// only the graph and the active edges count: neither the other edges of the list nor which node of
/// an edge is named first.
pub proof fn images_are_equal(
    codecs: EdgeOrbitCodecs,
    a: FixPrefixOrbitCodec,
    x: PrefixModel,
    b: FixPrefixOrbitCodec,
    y: PrefixModel,
)
    requires
        codecs.is_image(a, x),
        codecs.is_image(b, y),
        x.g == y.g,
        x.active().map_values(|e: EdgeIndex| graph::canon(e)) == y.active().map_values(
            |e: EdgeIndex| graph::canon(e),
        ),
    ensures
        a.all_ranks() == b.all_ranks(),
        a.ranks() == b.ranks(),
        a.count() == b.count(),
        a.masses() == b.masses(),
{
    let f = |e: EdgeIndex| graph::canon(e);
    let s = x.active();
    let t = y.active();
    let ids = edge_ids(codecs.cr, x.g, s);
    let other = edge_ids(codecs.cr, y.g, t);
    assert(s.map_values(f).len() == t.map_values(f).len());
    assert forall|i: int| 0 <= i < s.len() implies ids[i] == other[i] by {
        assert(s.map_values(f)[i] == t.map_values(f)[i]);
    }
    assert(ids =~= other);
    prefix_orbit::orbits_determine_codec(a, b);
}

/// A signature holds the two colors and the two degrees, the smaller of each pair first.
pub proof fn signature_holds_pairs(colors: Seq<usize>, deg: Seq<usize>, u: usize, v: usize)
    ensures
        ({
            let sig = signature(colors, deg, (u, v));
            let (cu, cv) = (colors[u as int], colors[v as int]);
            let (du, dv) = (deg[u as int], deg[v as int]);
            &&& cu <= cv ==> sig.0 == cu && sig.1 == cv
            &&& cv <= cu ==> sig.0 == cv && sig.1 == cu
            &&& du <= dv ==> sig.2 == du && sig.3 == dv
            &&& dv <= du ==> sig.2 == dv && sig.3 == du
        }),
{
}

/// The hash of a signature takes in all four of its numbers, each multiplied or shifted by a constant
/// and turned by its own number of bits.
pub proof fn hash_takes_in_numbers(a: usize, b: usize, c: usize, d: usize)
    ensures
        ({
            let wb = (b as u64).wrapping_add(0xD1B5_4A32_D192_ED03);
            let wc = (c as u64).wrapping_mul(0x94D0_49BB_1331_11EB);
            let wd = (d as u64).wrapping_mul(0xBF58_476D_1CE4_E5B9);
            signature_hash((a, b, c, d)) == (a as u64).wrapping_mul(0x9E37_79B9_7F4A_7C15) ^ (wb
                << 17u64 | wb >> 47u64) ^ (wc << 31u64 | wc >> 33u64) ^ (wd << 47u64 | wd >> 17u64)
        }),
{
}

/// The id of an edge is the hash of its signature, by the colors and the degrees of its nodes in the
/// graph, whichever node is named first.
pub proof fn edge_id_by_signature(cr: ColorRefinement, g: GraphModel, u: usize, v: usize)
    ensures
        edge_id(cr, g, (u, v)) == signature_hash(signature(cr.colors(g), g.degrees(), (u, v))),
        edge_id(cr, g, (u, v)) == signature_hash(signature(cr.colors(g), g.degrees(), (v, u))),
{
    assert(signature(cr.colors(g), g.degrees(), (u, v)) == signature(
        cr.colors(g),
        g.degrees(),
        (v, u),
    ));
}

/// Two active edges are in the same orbit if and only if their signatures have the same hash, and the
/// orbits are numbered in the order of the hashes: the number of an edge's orbit is how many
/// different hashes of active edges are smaller than its own.
pub proof fn orbits_by_signature(
    codecs: EdgeOrbitCodecs,
    image: FixPrefixOrbitCodec,
    x: PrefixModel,
    i: int,
    j: int,
)
    requires
        codecs.is_image(image, x),
        0 <= i < x.len_active <= x.list.edges.len(),
        0 <= j < x.len_active,
        x.len_active <= usize::MAX,
    ensures
        image.wf(),
        image.ranks().len() == x.len_active,
        image.all_ranks() == image.ranks(),
        ({
            let hash = |e: EdgeIndex|
                signature_hash(signature(codecs.cr.colors(x.g), x.g.degrees(), e));
            let (a, b) = (x.list.edges[i], x.list.edges[j]);
            &&& image.ranks()[i] == image.ranks()[j] <==> hash(a) == hash(b)
            &&& image.ranks()[i] < image.ranks()[j] <==> hash(a) < hash(b)
            &&& image.ranks()[i] as nat == Set::new(
                |h: u64|
                    h < hash(a) && exists|k: int|
                        0 <= k < x.len_active && hash(#[trigger] x.list.edges[k]) == h,
            ).len()
        }),
{
    let hash = |e: EdgeIndex| signature_hash(signature(codecs.cr.colors(x.g), x.g.degrees(), e));
    let ids = edge_ids(codecs.cr, x.g, x.active());
    assert forall|k: int| 0 <= k < x.len_active implies #[trigger] ids[k] == hash(
        x.list.edges[k],
    ) by {
        edge_id_by_signature(codecs.cr, x.g, x.list.edges[k].0, x.list.edges[k].1);
        assert(x.active()[k] == x.list.edges[k]);
    }
    assert(ids[i] == hash(x.list.edges[i]) && ids[j] == hash(x.list.edges[j]));
    prefix_orbit::ranks_tell_ids_apart(ids, i, j);
    prefix_orbit::rank_counts_smaller_ids(ids, i);
    let found = Set::new(
        |h: u64|
            h < hash(x.list.edges[i]) && exists|k: int|
                0 <= k < x.len_active && hash(#[trigger] x.list.edges[k]) == h,
    );
    assert(Set::new(|h: u64| ids.contains(h) && h < ids[i]) =~= found) by {
        assert forall|h: u64| ids.contains(h) <==> exists|k: int|
            0 <= k < x.len_active && hash(#[trigger] x.list.edges[k]) == h by {
            if ids.contains(h) {
                let k = choose|k: int| 0 <= k < ids.len() && ids[k] == h;
                assert(hash(x.list.edges[k]) == h);
            }
            if exists|k: int| 0 <= k < x.len_active && hash(#[trigger] x.list.edges[k]) == h {
                let k = choose|k: int|
                    0 <= k < x.len_active && hash(#[trigger] x.list.edges[k]) == h;
                assert(ids[k] == h);
            }
        }
    }
}

/// The codec for a prefix exists for every prefix whose active edges are there and join nodes of its
/// graph, and is made with the coloring of the codecs.
pub proof fn orbit_codecs_apply(codecs: EdgeOrbitCodecs, x: PrefixModel)
    ensures
        codecs.applies(x) <==> x.len_active <= x.list.edges.len() && forall|i: int|
            0 <= i < x.len_active ==> (#[trigger] x.list.edges[i]).0 < x.g.n && x.list.edges[i].1
                < x.g.n,
{
}

} // verus!
