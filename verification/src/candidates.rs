//! The edges that a graph lacks, and a codec for one of them, all equally likely.

use crate::codec::{Codec, Uniform};
use crate::color_refinement::ColorRefinement;
use crate::counting;
use crate::edge_prefix::{canon_edge, EdgePrefix};
use crate::edge_signature;
use crate::edge_signature::{collect_vec, edge_sig, hash_sig};
use crate::graph;
use crate::graph::{EdgeIndex, GraphModel};
use crate::message::Message;
use crate::prefix_orbit;
use crate::prefix_orbit::FixPrefixOrbitCodec;
use vstd::arithmetic::div_mod::{
    lemma_div_pos_is_pos, lemma_fundamental_div_mod, lemma_fundamental_div_mod_converse,
    lemma_mod_bound,
};
use vstd::prelude::*;

verus! {

/// The edges that `g` lacks, in increasing order.
pub open spec fn candidates(g: GraphModel) -> Seq<EdgeIndex> {
    graph::in_order(Set::new(|e: EdgeIndex| g.lacks(e)))
}

/// The edges that `g` lacks from `u` to nodes below `k`, in increasing order.
spec fn row(g: GraphModel, u: nat, k: nat) -> Seq<EdgeIndex>
    decreases k,
{
    if k <= u + 1 {
        Seq::empty()
    } else {
        let e = (u as usize, (k - 1) as usize);
        let r = row(g, u, (k - 1) as nat);
        if g.edges.contains(e) {
            r
        } else {
            r.push(e)
        }
    }
}

/// The edges that `g` lacks from nodes below `k`, in increasing order.
spec fn rows(g: GraphModel, k: nat) -> Seq<EdgeIndex>
    decreases k,
{
    if k == 0 {
        Seq::empty()
    } else {
        rows(g, (k - 1) as nat) + row(g, (k - 1) as nat, g.n)
    }
}

proof fn lemma_row(g: GraphModel, u: nat, k: nat)
    requires
        u < k <= usize::MAX + 1,
    ensures
        graph::increasing(row(g, u, k)),
        forall|e: EdgeIndex| #[trigger]
            row(g, u, k).contains(e) <==> e.0 == u && u < e.1 < k && !g.edges.contains(e),
    decreases k,
{
    if k > u + 1 {
        lemma_row(g, u, (k - 1) as nat);
        let r = row(g, u, (k - 1) as nat);
        let e = (u as usize, (k - 1) as usize);
        let s = row(g, u, k);
        assert forall|i: int, j: int| 0 <= i < j < s.len() implies graph::precedes(
            #[trigger] s[i],
            #[trigger] s[j],
        ) by {
            if j < r.len() {
                assert(graph::precedes(r[i], r[j]));
            } else {
                assert(r.contains(r[i]));
            }
        }
        assert forall|x: EdgeIndex| #[trigger] s.contains(x) <==> x.0 == u && u < x.1 < k
            && !g.edges.contains(x) by {
            assert(r.contains(x) <==> x.0 == u && u < x.1 < k - 1 && !g.edges.contains(x));
            if s.len() > r.len() {
                assert(s == r.push(e));
                assert(s[r.len() as int] == e);
                if r.contains(x) {
                    let j = choose|j: int| 0 <= j < r.len() && r[j] == x;
                    assert(s[j] == x);
                }
                if s.contains(x) && x != e {
                    let j = choose|j: int| 0 <= j < s.len() && s[j] == x;
                    assert(r[j] == x);
                }
            }
        }
    }
}

proof fn lemma_rows(g: GraphModel, k: nat)
    requires
        k <= g.n <= usize::MAX,
    ensures
        graph::increasing(rows(g, k)),
        forall|e: EdgeIndex| #[trigger] rows(g, k).contains(e) <==> e.0 < k && g.lacks(e),
    decreases k,
{
    if k > 0 {
        let u = (k - 1) as nat;
        lemma_rows(g, u);
        lemma_row(g, u, g.n);
        let a = rows(g, u);
        let b = row(g, u, g.n);
        let s = rows(g, k);
        assert forall|i: int, j: int| 0 <= i < j < s.len() implies graph::precedes(
            #[trigger] s[i],
            #[trigger] s[j],
        ) by {
            if j < a.len() {
                assert(graph::precedes(a[i], a[j]));
            } else if i < a.len() {
                assert(a.contains(a[i]));
                assert(b.contains(b[j - a.len()]));
            } else {
                assert(graph::precedes(b[i - a.len()], b[j - a.len()]));
            }
        }
        assert forall|e: EdgeIndex| #[trigger] s.contains(e) <==> e.0 < k && g.lacks(e) by {
            assert(a.contains(e) <==> e.0 < u && g.lacks(e));
            assert(b.contains(e) <==> e.0 == u && u < e.1 < g.n && !g.edges.contains(e));
            vstd::seq_lib::lemma_seq_concat_contains_all_elements(a, b, e);
        }
    }
}

/// The candidates are increasing, and they are the edges that the graph lacks.
pub proof fn candidates_are_missing(g: GraphModel)
    requires
        g.n <= usize::MAX,
    ensures
        graph::increasing(candidates(g)),
        forall|e: EdgeIndex| #[trigger] candidates(g).contains(e) <==> g.lacks(e),
{
    lemma_candidates_rows(g);
    lemma_rows(g, g.n);
}

proof fn lemma_candidates_rows(g: GraphModel)
    requires
        g.n <= usize::MAX,
    ensures
        candidates(g) == rows(g, g.n),
{
    lemma_rows(g, g.n);
    let s = rows(g, g.n);
    assert(s.to_set() =~= Set::new(|e: EdgeIndex| g.lacks(e))) by {
        assert forall|e: EdgeIndex| s.to_set().contains(e) <==> g.lacks(e) by {
            assert(s.to_set().contains(e) <==> s.contains(e));
        }
    }
    graph::lemma_in_order(s);
}

/// The ids of the candidates among the first `n` nodes, each in the graph with the candidate added.
pub open spec fn candidate_ids(cr: ColorRefinement, g: GraphModel, n: nat) -> Seq<u64> {
    candidates(g.among(n)).map_values(|e: EdgeIndex| edge_signature::edge_id(cr, g.with(e), e))
}

/// The hash of the signature of `e`, by the colors and degrees of the graph with `e` added.
pub open spec fn hash_when_added(cr: ColorRefinement, g: GraphModel, e: EdgeIndex) -> u64 {
    let h = GraphModel { n: g.n, edges: g.edges.insert(e) };
    edge_signature::signature_hash(edge_signature::signature(cr.colors(h), h.degrees(), e))
}

/// The orbits of the candidates among the first `n` nodes, numbered.
pub open spec fn candidate_ranks(cr: ColorRefinement, g: GraphModel, n: nat) -> Seq<usize> {
    prefix_orbit::ranks_of(candidate_ids(cr, g, n))
}

/// The positions of the orbit `k`, in increasing order.
pub open spec fn positions(ranks: Seq<usize>, k: usize) -> Seq<int>
    decreases ranks.len(),
{
    if ranks.len() == 0 {
        Seq::empty()
    } else {
        let p = positions(ranks.drop_last(), k);
        if ranks.last() == k {
            p.push(ranks.len() - 1)
        } else {
            p
        }
    }
}

/// The numbers, whatever their type.
spec fn numbers(s: Seq<usize>) -> Seq<int> {
    s.map_values(|i: usize| i as int)
}

/// An orbit has as many positions as its mass, and each of them is one of the orbit.
pub proof fn lemma_positions(ranks: Seq<usize>, k: usize)
    ensures
        positions(ranks, k).len() == counting::mass(ranks, k as nat),
        forall|j: int|
            0 <= j < positions(ranks, k).len() ==> 0 <= (#[trigger] positions(ranks, k)[j])
                < ranks.len() && ranks[positions(ranks, k)[j]] == k && counting::mass(
                ranks.take(positions(ranks, k)[j]),
                k as nat,
            ) == j,
    decreases ranks.len(),
{
    if ranks.len() > 0 {
        let shorter = ranks.drop_last();
        lemma_positions(shorter, k);
        let p = positions(ranks, k);
        let q = positions(shorter, k);
        assert forall|j: int| 0 <= j < p.len() implies 0 <= (#[trigger] p[j]) < ranks.len()
            && ranks[p[j]] == k && counting::mass(ranks.take(p[j]), k as nat) == j by {
            if j < q.len() {
                assert(p[j] == q[j]);
                assert(ranks.take(p[j]) =~= shorter.take(p[j]));
            } else {
                assert(ranks.take(p[j]) =~= shorter);
            }
        }
    }
}

/// The place of a position among those of its orbit is the number of earlier ones.
pub proof fn lemma_position_found(ranks: Seq<usize>, i: int)
    requires
        0 <= i < ranks.len(),
    ensures
        counting::mass(ranks.take(i), ranks[i] as nat) < counting::mass(ranks, ranks[i] as nat),
        positions(ranks, ranks[i])[counting::mass(ranks.take(i), ranks[i] as nat) as int] == i,
    decreases ranks.len(),
{
    let k = ranks[i];
    let shorter = ranks.drop_last();
    lemma_positions(shorter, k);
    if i < ranks.len() - 1 {
        lemma_position_found(shorter, i);
        assert(ranks.take(i) =~= shorter.take(i));
    } else {
        assert(ranks.take(i) =~= shorter);
    }
}

/// The message after the candidate `e` was pushed onto `m`: its place among the candidates of its
/// orbit, and then the orbit, which is popped first.
pub open spec fn candidate_pushed(
    edges: Seq<EdgeIndex>,
    ranks: Seq<usize>,
    m: nat,
    e: EdgeIndex,
) -> nat {
    let i = edges.index_of(e);
    let k = ranks[i];
    let size = counting::mass(ranks, k as nat);
    let place = counting::mass(ranks.take(i), k as nat);
    prefix_orbit::orbit_pushed(ranks, m * size + place, k)
}

/// The message after a candidate was popped off `m`, and the candidate: first its orbit, and then
/// its place among the candidates of the orbit.
pub open spec fn candidate_popped(edges: Seq<EdgeIndex>, ranks: Seq<usize>, m: nat) -> (
    nat,
    EdgeIndex,
) {
    let (lower, k) = prefix_orbit::orbit_popped(ranks, m);
    let size = counting::mass(ranks, k as nat);
    (lower / size, edges[positions(ranks, k)[(lower % size) as int]])
}

/// Codec for a missing edge, made for one graph: the orbit, as likely as it has candidates, and
/// the place among the candidates of the orbit, all equally likely.
#[derive(Debug)]
pub struct UniformCandidatePEdgeCodec {
    candidates: Vec<EdgeIndex>,
    orbit: FixPrefixOrbitCodec,
    members_by_orbit: Vec<Vec<usize>>,
}

impl UniformCandidatePEdgeCodec {
    /// The candidates.
    pub closed spec fn edges(&self) -> Seq<EdgeIndex> {
        self.candidates@
    }

    /// The orbits of the candidates.
    pub closed spec fn ranks(&self) -> Seq<usize> {
        self.orbit.ranks()
    }

    /// The candidates of each orbit, by their numbers.
    pub closed spec fn members(&self) -> Seq<Seq<int>> {
        self.members_by_orbit@.map_values(|v: Vec<usize>| numbers(v@))
    }

    /// Whether the candidates are increasing, each with its smaller node first, each has an orbit,
    /// and the members of each orbit are the candidates that have it, in increasing order.
    pub closed spec fn wf(&self) -> bool {
        &&& graph::increasing(self.candidates@)
        &&& forall|j: int|
            0 <= j < self.candidates@.len() ==> (#[trigger] self.candidates@[j]).0
                < self.candidates@[j].1
        &&& self.orbit.wf()
        &&& self.orbit.all_ranks() == self.orbit.ranks()
        &&& self.orbit.ranks().len() == self.candidates@.len()
        &&& self.members_by_orbit@.len() == 1 + counting::highest(self.orbit.ranks())
        &&& forall|k: int|
            0 <= k < self.members_by_orbit@.len() ==> numbers(
                (#[trigger] self.members_by_orbit@[k])@,
            ) == positions(self.orbit.ranks(), k as usize)
    }

    /// The codec for the edges that are missing after an edge was taken away.
    pub fn build(prefix_after_removal: &EdgePrefix, cr: &ColorRefinement) -> (c: Self)
        requires
            prefix_after_removal@.list.n <= 1 || prefix_after_removal@.list.n
                <= prefix_after_removal@.g.n,
        ensures
            c.wf(),
            c.edges() == candidates(
                prefix_after_removal@.g.among(prefix_after_removal@.list.n),
            ),
            c.ranks() == candidate_ranks(
                *cr,
                prefix_after_removal@.g,
                prefix_after_removal@.list.n,
            ),
            c.members() == Seq::new(
                1 + counting::highest(c.ranks()),
                |k: int| positions(c.ranks(), k as usize),
            ),
            c.ranks().len() == c.edges().len(),
            forall|i: int, j: int|
                0 <= i < c.edges().len() && 0 <= j < c.edges().len() ==> (#[trigger] c.ranks()[i]
                    == #[trigger] c.ranks()[j] <==> hash_when_added(
                    *cr,
                    prefix_after_removal@.g,
                    c.edges()[i],
                ) == hash_when_added(*cr, prefix_after_removal@.g, c.edges()[j])),
    {
        let candidates = Self::missing_edges(prefix_after_removal);
        let ids = Self::ids_with_edge(prefix_after_removal, cr, &candidates);
        let orbit = FixPrefixOrbitCodec::new(ids, candidates.len());
        assert(orbit.ranks() =~= orbit.all_ranks());
        let members_by_orbit = Self::group(&orbit);
        let c = UniformCandidatePEdgeCodec { candidates, orbit, members_by_orbit };
        proof {
            candidates_are_missing(prefix_after_removal@.g.among(prefix_after_removal@.list.n));
            assert forall|j: int| 0 <= j < c.candidates@.len() implies (#[trigger]
            c.candidates@[j]).0 < c.candidates@[j].1 by {
                assert(c.candidates@.contains(c.candidates@[j]));
            }
            assert(c.members() =~= Seq::new(
                1 + counting::highest(c.ranks()),
                |k: int| positions(c.ranks(), k as usize),
            ));
            assert(c.edges().len() == c.candidates.len());
            assert forall|i: int, j: int|
                0 <= i < c.edges().len() && 0 <= j < c.edges().len() implies (
            #[trigger] c.ranks()[i] == #[trigger] c.ranks()[j] <==> hash_when_added(
                *cr,
                prefix_after_removal@.g,
                c.edges()[i],
            ) == hash_when_added(*cr, prefix_after_removal@.g, c.edges()[j])) by {
                candidate_orbits_by_signature(
                    *cr,
                    prefix_after_removal@.g,
                    prefix_after_removal@.list.n,
                    i,
                    j,
                );
            }
        }
        c
    }

    /// The edges between the nodes of the list that the graph lacks, in increasing order.
    fn missing_edges(prefix: &EdgePrefix) -> (edges: Vec<EdgeIndex>)
        ensures
            edges@ == candidates(prefix@.g.among(prefix@.list.n)),
    {
        let g = &prefix.g;
        let n = prefix.list.n;
        let ghost h = g@.among(n as nat);
        let mut edges: Vec<EdgeIndex> = Vec::new();
        let mut u: usize = 0;
        while u < n
            invariant
                u <= n,
                h == g@.among(n as nat),
                edges@ == rows(h, u as nat),
            decreases n - u,
        {
            let mut v: usize = u + 1;
            assert(edges@ =~= rows(h, u as nat) + row(h, u as nat, v as nat));
            while v < n
                invariant
                    u < v <= n,
                    h == g@.among(n as nat),
                    edges@ == rows(h, u as nat) + row(h, u as nat, v as nat),
                decreases n - v,
            {
                let e = canon_edge((u, v));
                if !g.has_edge(&e) {
                    edges.push(e);
                }
                assert(edges@ =~= rows(h, u as nat) + row(h, u as nat, v as nat + 1));
                v = v + 1;
            }
            u = u + 1;
        }
        proof {
            lemma_candidates_rows(h);
        }
        edges
    }

    /// The id of each candidate in the graph with the candidate added.
    fn ids_with_edge(
        prefix: &EdgePrefix,
        cr: &ColorRefinement,
        candidates: &Vec<EdgeIndex>,
    ) -> (ids: Vec<u64>)
        requires
            prefix@.list.n <= 1 || prefix@.list.n <= prefix@.g.n,
            candidates@ == self::candidates(prefix@.g.among(prefix@.list.n)),
        ensures
            ids@ == candidate_ids(*cr, prefix@.g, prefix@.list.n),
    {
        let g = &prefix.g;
        let ghost n = prefix@.list.n;
        let mut ids: Vec<u64> = Vec::with_capacity(candidates.len());
        let mut i: usize = 0;
        while i < candidates.len()
            invariant
                i <= candidates.len(),
                n == prefix.list.n,
                n <= 1 || n <= g@.n,
                candidates@ == self::candidates(g@.among(n)),
                ids@ == candidate_ids(*cr, g@, n).take(i as int),
            decreases candidates.len() - i,
        {
            proof {
                candidates_are_missing(g@.among(n));
                assert(candidates@.contains(candidates@[i as int]));
            }
            let e = canon_edge(candidates[i]);
            let mut g_plus = g.clone();
            g_plus.insert_plain_edge(e);
            let colors = cr.apply(&g_plus);
            let deg = collect_vec(g_plus.degrees());
            let sig = edge_sig(colors.as_slice(), deg.as_slice(), e);
            ids.push(hash_sig(sig));
            assert(ids@ =~= candidate_ids(*cr, g@, n).take(i + 1));
            i = i + 1;
        }
        assert(ids@ =~= candidate_ids(*cr, g@, n));
        ids
    }

    /// The elements of each orbit, in increasing order.
    fn group(orbit: &FixPrefixOrbitCodec) -> (members: Vec<Vec<usize>>)
        requires
            orbit.wf(),
            orbit.all_ranks() == orbit.ranks(),
        ensures
            members.len() == 1 + counting::highest(orbit.ranks()),
            forall|k: int|
                0 <= k < members.len() ==> numbers((#[trigger] members@[k])@) == positions(
                    orbit.ranks(),
                    k as usize,
                ),
    {
        let ghost ranks = orbit.ranks();
        let len = orbit.num_elements();
        let mut max: usize = 0;
        let mut i: usize = 0;
        while i < len
            invariant
                i <= len,
                ranks == orbit.all_ranks(),
                len == ranks.len(),
                max == counting::highest(ranks.take(i as int)),
            decreases len - i,
        {
            let k = orbit.rank(i);
            assert(ranks.take(i + 1).drop_last() =~= ranks.take(i as int));
            if k > max {
                max = k;
            }
            i = i + 1;
        }
        assert(ranks.take(len as int) =~= ranks);
        let mut members: Vec<Vec<usize>> = Vec::new();
        let mut k: usize = 0;
        loop
            invariant_except_break
                members.len() == k,
            invariant
                k <= max,
                max == counting::highest(ranks),
                ranks == orbit.all_ranks(),
                len == ranks.len(),
                forall|j: int|
                    0 <= j < members.len() ==> numbers((#[trigger] members@[j])@) == positions(
                        ranks,
                        j as usize,
                    ),
            ensures
                members.len() == 1 + max,
            decreases max - k,
        {
            let mut of_k: Vec<usize> = Vec::new();
            let mut i: usize = 0;
            while i < len
                invariant
                    i <= len,
                    ranks == orbit.all_ranks(),
                    len == ranks.len(),
                    numbers(of_k@) == positions(ranks.take(i as int), k),
                decreases len - i,
            {
                assert(ranks.take(i + 1).drop_last() =~= ranks.take(i as int));
                if orbit.rank(i) == k {
                    let ghost before = of_k@;
                    of_k.push(i);
                    assert(numbers(of_k@) =~= numbers(before).push(i as int));
                }
                i = i + 1;
            }
            assert(ranks.take(len as int) =~= ranks);
            members.push(of_k);
            if k == max {
                break;
            }
            k = k + 1;
        }
        members
    }

    /// The number of the candidate `e`.
    pub fn locate_candidate(&self, e: EdgeIndex) -> (i: usize)
        requires
            self.wf(),
            self.edges().contains(graph::canon(e)),
        ensures
            i < self.edges().len(),
            self.edges()[i as int] == graph::canon(e),
            i == self.edges().index_of(graph::canon(e)),
    {
        let c = canon_edge(e);
        let i = graph::place_of(&self.candidates, c);
        proof {
            let j = self.candidates@.index_of(c);
            assert(self.candidates@[j] == c);
            assert(!graph::precedes(c, c));
            assert(i <= j);
            if i < j {
                assert(graph::precedes(self.candidates@[i as int], self.candidates@[j]));
            }
        }
        i
    }
}

impl Clone for UniformCandidatePEdgeCodec {
    fn clone(&self) -> (c: Self)
        ensures
            c.edges() == self.edges(),
            c.ranks() == self.ranks(),
            c.members() == self.members(),
            c.wf() == self.wf(),
    {
        let mut members_by_orbit: Vec<Vec<usize>> = Vec::with_capacity(self.members_by_orbit.len());
        let mut k: usize = 0;
        while k < self.members_by_orbit.len()
            invariant
                k <= self.members_by_orbit.len(),
                members_by_orbit.len() == k,
                forall|j: int|
                    0 <= j < k ==> (#[trigger] members_by_orbit@[j])@
                        == self.members_by_orbit@[j]@,
            decreases self.members_by_orbit.len() - k,
        {
            members_by_orbit.push(self.members_by_orbit[k].clone());
            k = k + 1;
        }
        let c = UniformCandidatePEdgeCodec {
            candidates: graph::copy_edges(&self.candidates),
            orbit: self.orbit.clone(),
            members_by_orbit,
        };
        proof {
            assert forall|j: int| 0 <= j < c.members_by_orbit@.len() implies numbers(
                (#[trigger] c.members_by_orbit@[j])@,
            ) == numbers(self.members_by_orbit@[j]@) by {
            }
            assert(c.members() =~= self.members());
            if c.wf() {
                assert forall|j: int| 0 <= j < self.members_by_orbit@.len() implies numbers(
                    (#[trigger] self.members_by_orbit@[j])@,
                ) == positions(self.orbit.ranks(), j as usize) by {
                    assert(c.members_by_orbit@[j]@ == self.members_by_orbit@[j]@);
                }
            }
        }
        c
    }
}

impl Codec for UniformCandidatePEdgeCodec {
    type Symbol = EdgeIndex;

    open spec fn can_push(&self, x: EdgeIndex) -> bool {
        self.wf() && self.edges().contains(graph::canon(x))
    }

    open spec fn can_pop(&self, m: nat) -> bool {
        self.wf() && self.edges().len() > 0
    }

    open spec fn pushed(&self, m: nat, x: EdgeIndex) -> nat {
        candidate_pushed(self.edges(), self.ranks(), m, graph::canon(x))
    }

    open spec fn popped(&self, m: nat) -> (nat, EdgeIndex) {
        candidate_popped(self.edges(), self.ranks(), m)
    }

    fn push(&self, m: &mut Message, x: &EdgeIndex) {
        let element = self.locate_candidate(*x);
        let k = self.orbit.rank(element);
        proof {
            assert(self.ranks().len() == self.candidates.len());
            counting::lemma_mass_positive(self.ranks(), element as int);
            counting::lemma_highest(self.ranks());
            lemma_positions(self.ranks(), k);
            lemma_position_found(self.ranks(), element as int);
        }
        let members = &self.members_by_orbit[k];
        let mut within: usize = 0;
        let ghost place = counting::mass(self.ranks().take(element as int), k as nat);
        assert(numbers(members@)[place as int] == element);
        while members[within] != element
            invariant
                numbers(members@) == positions(self.ranks(), k),
                within <= place < members@.len(),
                members@.len() == members.len(),
                members@[place as int] == element,
                place == counting::mass(self.ranks().take(element as int), k as nat),
                forall|j: int|
                    0 <= j < members@.len() ==> counting::mass(
                        self.ranks().take(#[trigger] numbers(members@)[j]),
                        k as nat,
                    ) == j,
            decreases place - within,
        {
            within = within + 1;
        }
        assert(numbers(members@)[within as int] == element);
        Uniform::new(members.len()).push(m, &within);
        self.orbit.push(m, &k);
    }

    fn pop(&self, m: &mut Message) -> (x: EdgeIndex) {
        proof {
            prefix_orbit::orbit_pop_then_push(self.ranks(), m@);
        }
        let k = self.orbit.pop(m);
        proof {
            assert(self.ranks().len() == self.candidates.len());
            let i = counting::lemma_mass_witness(self.ranks(), k as nat);
            counting::lemma_highest(self.ranks());
            lemma_positions(self.ranks(), k);
            lemma_mod_bound(m@ as int, counting::mass(self.ranks(), k as nat) as int);
        }
        let members = &self.members_by_orbit[k];
        let within = Uniform::new(members.len()).pop(m);
        let element = members[within];
        assert(numbers(members@)[within as int] == element);
        self.candidates[element]
    }
}

/// A candidate of an increasing list stands at one place only: looking up the candidate at `j`
/// gives `j`.
pub proof fn candidate_index(edges: Seq<EdgeIndex>, j: int)
    requires
        graph::increasing(edges),
        0 <= j < edges.len(),
    ensures
        edges.index_of(edges[j]) == j,
{
    let i = edges.index_of(edges[j]);
    assert(edges[i] == edges[j]);
    if i < j {
        assert(graph::precedes(edges[i], edges[j]));
    } else if j < i {
        assert(graph::precedes(edges[j], edges[i]));
    }
}

/// A candidate that was pushed is popped again, and the message is what it was.
pub proof fn candidate_push_then_pop(
    edges: Seq<EdgeIndex>,
    ranks: Seq<usize>,
    m: nat,
    e: EdgeIndex,
)
    requires
        ranks.len() == edges.len(),
        edges.contains(e),
    ensures
        candidate_popped(edges, ranks, candidate_pushed(edges, ranks, m, e)) == (m, e),
{
    let i = edges.index_of(e);
    let k = ranks[i];
    let size = counting::mass(ranks, k as nat);
    let place = counting::mass(ranks.take(i), k as nat);
    lemma_position_found(ranks, i);
    prefix_orbit::orbit_push_then_pop(ranks, m * size + place, k);
    assert(m * size == size * m) by (nonlinear_arith);
    lemma_fundamental_div_mod_converse(
        (m * size + place) as int,
        size as int,
        m as int,
        place as int,
    );
}

/// Each candidate comes off the messages of one remainder, out of as many as there are candidates:
/// all are equally likely.
pub proof fn candidate_share(edges: Seq<EdgeIndex>, ranks: Seq<usize>, m: nat, e: EdgeIndex)
    requires
        graph::increasing(edges),
        ranks.len() == edges.len(),
        edges.contains(e),
    ensures
        ({
            let i = edges.index_of(e);
            let k = ranks[i] as nat;
            candidate_popped(edges, ranks, m).1 == e <==> m % ranks.len() == counting::below(
                ranks,
                k,
            ) + counting::mass(ranks.take(i), k)
        }),
{
    let n = ranks.len() as int;
    let i = edges.index_of(e);
    let k = ranks[i];
    let (lower, other) = prefix_orbit::orbit_popped(ranks, m);
    let size = counting::mass(ranks, other as nat) as int;
    let start = counting::below(ranks, other as nat) as int;
    prefix_orbit::orbit_share(ranks, m, other);
    prefix_orbit::orbit_share(ranks, m, k);
    lemma_mod_bound(m as int, n);
    lemma_div_pos_is_pos(m as int, n);
    lemma_position_found(ranks, i);
    lemma_positions(ranks, other);
    let w = m as int % n - start;
    let q = m as int / n;
    assert(q * size >= 0) by (nonlinear_arith)
        requires
            q >= 0,
            size > 0,
    ;
    assert(q * size == size * q) by (nonlinear_arith);
    lemma_fundamental_div_mod_converse(lower as int, size, q, w);
    let j = positions(ranks, other)[w];
    candidate_index(edges, j);
    candidate_index(edges, i);
}

/// What is popped is a candidate, and pushing it restores the message.
pub proof fn candidate_pop_then_push(edges: Seq<EdgeIndex>, ranks: Seq<usize>, m: nat)
    requires
        graph::increasing(edges),
        0 < ranks.len() == edges.len(),
    ensures
        edges.contains(candidate_popped(edges, ranks, m).1),
        candidate_pushed(
            edges,
            ranks,
            candidate_popped(edges, ranks, m).0,
            candidate_popped(edges, ranks, m).1,
        ) == m,
{
    let (lower, k) = prefix_orbit::orbit_popped(ranks, m);
    let size = counting::mass(ranks, k as nat);
    prefix_orbit::orbit_pop_then_push(ranks, m);
    lemma_positions(ranks, k);
    lemma_mod_bound(lower as int, size as int);
    let w = (lower % size) as int;
    let i = positions(ranks, k)[w];
    candidate_index(edges, i);
    lemma_fundamental_div_mod(lower as int, size as int);
    assert((lower / size) * size == size * (lower / size)) by (nonlinear_arith);
}

/// Looking up the candidate at `j` in a candidate codec gives `j`, whichever of its nodes is named
/// first.
pub proof fn candidate_codec_index(c: UniformCandidatePEdgeCodec, j: int)
    requires
        c.wf(),
        0 <= j < c.edges().len(),
    ensures
        ({
            let (u, v) = c.edges()[j];
            &&& c.edges().index_of(graph::canon((u, v))) == j
            &&& c.edges().index_of(graph::canon((v, u))) == j
        }),
{
    assert(c.candidates@[j].0 < c.candidates@[j].1);
    candidate_index(c.edges(), j);
}

/// Popping an edge that a candidate codec pushed gives the edge, smaller node first, and the message
/// is what it was.
pub proof fn candidate_codec_push_then_pop(
    c: UniformCandidatePEdgeCodec,
    m: nat,
    e: EdgeIndex,
)
    requires
        c.can_push(e),
    ensures
        c.can_pop(c.pushed(m, e)),
        c.popped(c.pushed(m, e)) == (m, graph::canon(e)),
{
    candidate_push_then_pop(c.edges(), c.ranks(), m, graph::canon(e));
}

/// Pushing the edge that a candidate codec popped restores the message.
pub proof fn candidate_codec_pop_then_push(c: UniformCandidatePEdgeCodec, m: nat)
    requires
        c.can_pop(m),
    ensures
        c.can_push(c.popped(m).1),
        c.pushed(c.popped(m).0, c.popped(m).1) == m,
{
    candidate_pop_then_push(c.edges(), c.ranks(), m);
    let j = c.edges().index_of(c.popped(m).1);
    assert(c.edges()[j] == c.popped(m).1);
}

/// The candidates are all pairs of different nodes that no edge of the graph joins, smaller node
/// first, ordered by first node and then by second.
pub proof fn candidates_are_pairs(g: GraphModel, e: EdgeIndex)
    requires
        g.n <= usize::MAX,
    ensures
        candidates(g).contains(e) <==> e.0 < e.1 && e.1 < g.n && !g.edges.contains(e),
        forall|i: int, j: int|
            0 <= i < j < candidates(g).len() ==> (#[trigger] candidates(g)[i]).0
                < (#[trigger] candidates(g)[j]).0 || (candidates(g)[i].0 == candidates(g)[j].0
                && candidates(g)[i].1 < candidates(g)[j].1),
{
    candidates_are_missing(g);
    graph::increasing_by_pairs(candidates(g));
    graph::graph_operations(g, e, g.n);
}

/// Two candidates are in the same orbit if and only if their signatures have the same hash, each by
/// the colors and degrees of the graph with that candidate added, and the orbits are numbered in the
/// order of the hashes.
pub proof fn candidate_orbits_by_signature(
    cr: ColorRefinement,
    g: GraphModel,
    n: nat,
    i: int,
    j: int,
)
    requires
        n <= usize::MAX,
        candidates(g.among(n)).len() <= usize::MAX,
        0 <= i < candidates(g.among(n)).len(),
        0 <= j < candidates(g.among(n)).len(),
    ensures
        candidate_ranks(cr, g, n).len() == candidates(g.among(n)).len(),
        ({
            let hash = |e: EdgeIndex|
                {
                    let h = GraphModel { n: g.n, edges: g.edges.insert(e) };
                    edge_signature::signature_hash(
                        edge_signature::signature(cr.colors(h), h.degrees(), e),
                    )
                };
            let (a, b) = (candidates(g.among(n))[i], candidates(g.among(n))[j]);
            &&& candidate_ranks(cr, g, n)[i] == candidate_ranks(cr, g, n)[j] <==> hash(a) == hash(b)
            &&& candidate_ranks(cr, g, n)[i] < candidate_ranks(cr, g, n)[j] <==> hash(a) < hash(b)
            &&& hash(a) == hash_when_added(cr, g, a)
        }),
{
    let ids = candidate_ids(cr, g, n);
    lemma_candidate_ids(cr, g, n, i);
    lemma_candidate_ids(cr, g, n, j);
    prefix_orbit::ranks_tell_ids_apart(ids, i, j);
}

proof fn lemma_candidate_ids(cr: ColorRefinement, g: GraphModel, n: nat, i: int)
    requires
        0 <= i < candidates(g.among(n)).len(),
    ensures
        candidate_ids(cr, g, n).len() == candidates(g.among(n)).len(),
        candidate_ids(cr, g, n)[i] == hash_when_added(cr, g, candidates(g.among(n))[i]),
{
    let e = candidates(g.among(n))[i];
    edge_signature::edge_id_by_signature(cr, g.with(e), e.0, e.1);
}

/// The members of an orbit are the places of its elements, all of them, in increasing order.
pub proof fn positions_are_places(ranks: Seq<usize>, k: usize, i: int)
    requires
        0 <= i < ranks.len(),
    ensures
        positions(ranks, k).contains(i) <==> ranks[i] == k,
        forall|a: int| 0 <= a < positions(ranks, k).len() ==> 0 <= #[trigger] positions(ranks, k)[a]
            < ranks.len(),
        forall|a: int, b: int|
            0 <= a < b < positions(ranks, k).len() ==> #[trigger] positions(ranks, k)[a]
                < #[trigger] positions(ranks, k)[b],
{
    lemma_positions(ranks, k);
    lemma_positions_increase(ranks, k);
    if ranks[i] == k {
        lemma_position_found(ranks, i);
        lemma_positions(ranks, ranks[i]);
        let w = counting::mass(ranks.take(i), k as nat) as int;
        assert(positions(ranks, k)[w] == i);
    }
    if positions(ranks, k).contains(i) {
        let a = choose|a: int| 0 <= a < positions(ranks, k).len() && positions(ranks, k)[a] == i;
        assert(ranks[positions(ranks, k)[a]] == k);
    }
}

proof fn lemma_positions_increase(ranks: Seq<usize>, k: usize)
    ensures
        forall|a: int, b: int|
            0 <= a < b < positions(ranks, k).len() ==> #[trigger] positions(ranks, k)[a]
                < #[trigger] positions(ranks, k)[b],
    decreases ranks.len(),
{
    if ranks.len() > 0 {
        let shorter = ranks.drop_last();
        lemma_positions_increase(shorter, k);
        lemma_positions(shorter, k);
        let p = positions(ranks, k);
        let q = positions(shorter, k);
        assert forall|a: int, b: int| 0 <= a < b < p.len() implies #[trigger] p[a]
            < #[trigger] p[b] by {
            assert(p[a] == q[a]);
            if b < q.len() {
                assert(p[b] == q[b]);
            }
        }
    }
}

/// A candidate is the lowest digit of the message in a number system with as many digits as there are
/// candidates: its digit is the number of candidates in smaller orbits and of earlier ones in its
/// own.
pub proof fn candidate_is_lowest_digit(
    edges: Seq<EdgeIndex>,
    ranks: Seq<usize>,
    m: nat,
    i: int,
)
    requires
        graph::increasing(edges),
        ranks.len() == edges.len(),
        0 <= i < edges.len(),
    ensures
        ({
            let digit = ranks.filter(|x: usize| x < ranks[i]).len() + ranks.take(i).filter(
                |x: usize| x == ranks[i],
            ).len();
            &&& digit < edges.len()
            &&& candidate_pushed(edges, ranks, m, edges[i]) == m * edges.len() + digit
            &&& candidate_popped(edges, ranks, m).0 == m / edges.len()
            &&& candidate_popped(edges, ranks, m).1 == edges[i] <==> m % edges.len() == digit
        }),
{
    let k = ranks[i];
    let n = ranks.len();
    let size = counting::mass(ranks, k as nat);
    let place = counting::mass(ranks.take(i), k as nat);
    let start = counting::below(ranks, k as nat);
    let e = edges[i];
    candidate_index(edges, i);
    assert(edges.contains(e));
    lemma_position_found(ranks, i);
    counting::lemma_below_bounds(ranks, k as nat);
    counting::below_counts(ranks, k as nat);
    counting::mass_counts(ranks.take(i), k as nat);
    assert((|x: usize| x < k as nat) =~= (|x: usize| x < ranks[i]));
    assert((|x: usize| x == k as nat) =~= (|x: usize| x == ranks[i]));
    assert(m * size == size * m) by (nonlinear_arith);
    lemma_fundamental_div_mod_converse(
        (m * size + place) as int,
        size as int,
        m as int,
        place as int,
    );
    candidate_share(edges, ranks, m, e);
    let (lower, other) = prefix_orbit::orbit_popped(ranks, m);
    prefix_orbit::orbit_share(ranks, m, other);
    counting::lemma_below_bounds(ranks, other as nat);
    crate::codec::interval_popped_digits(
        m,
        n,
        counting::below(ranks, other as nat),
        counting::mass(ranks, other as nat),
    );
}

/// A codec for missing edges codes them by their orbits and places, and can push and pop those that
/// there are.
pub proof fn candidate_codec_digits(c: UniformCandidatePEdgeCodec, m: nat, i: int)
    requires
        c.wf(),
        0 <= i < c.edges().len(),
    ensures
        c.ranks().len() == c.edges().len(),
        c.can_pop(m),
        c.can_push(c.edges()[i]),
        c.can_push((c.edges()[i].1, c.edges()[i].0)),
        ({
            let digit = c.ranks().filter(|x: usize| x < c.ranks()[i]).len() + c.ranks().take(
                i,
            ).filter(|x: usize| x == c.ranks()[i]).len();
            &&& c.pushed(m, c.edges()[i]) == m * c.edges().len() + digit
            &&& c.pushed(m, (c.edges()[i].1, c.edges()[i].0)) == m * c.edges().len() + digit
            &&& c.popped(m).0 == m / c.edges().len()
            &&& c.popped(m).1 == c.edges()[i] <==> m % c.edges().len() == digit
        }),
{
    assert(c.candidates@[i].0 < c.candidates@[i].1);
    assert(c.edges().contains(c.edges()[i]));
    candidate_is_lowest_digit(c.edges(), c.ranks(), m, i);
}

} // verus!
