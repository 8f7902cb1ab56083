//! Undirected graphs without labels.

use std::marker::PhantomData;
use vstd::prelude::*;

verus! {

/// An edge, given by the two nodes it joins.
pub type EdgeIndex = (usize, usize);

/// The edge with its smaller node first.
pub open spec fn canon(e: EdgeIndex) -> EdgeIndex {
    if e.0 < e.1 {
        (e.0, e.1)
    } else {
        (e.1, e.0)
    }
}

/// Whether `a` comes before `b` in the order of edges: by first node, then by second.
pub open spec fn precedes(a: EdgeIndex, b: EdgeIndex) -> bool {
    a.0 < b.0 || (a.0 == b.0 && a.1 < b.1)
}

/// Whether `s` is strictly increasing.
pub open spec fn increasing(s: Seq<EdgeIndex>) -> bool {
    forall|i: int, j: int| 0 <= i < j < s.len() ==> precedes(#[trigger] s[i], #[trigger] s[j])
}

/// The members of `edges` in increasing order.
pub open spec fn in_order(edges: Set<EdgeIndex>) -> Seq<EdgeIndex> {
    choose|s: Seq<EdgeIndex>| #[trigger] increasing(s) && s.to_set() == edges
}

/// Increasing sequences with the same members are equal.
pub proof fn increasing_unique(s: Seq<EdgeIndex>, t: Seq<EdgeIndex>)
    requires
        increasing(s),
        increasing(t),
        s.to_set() == t.to_set(),
    ensures
        s == t,
    decreases s.len(),
{
    assert(forall|x: EdgeIndex| s.contains(x) <==> s.to_set().contains(x));
    assert(forall|x: EdgeIndex| t.contains(x) <==> t.to_set().contains(x));
    if s.len() == 0 {
        if t.len() > 0 {
            assert(t.contains(t[0]));
            assert(s.contains(t[0]));
        }
        assert(s =~= t);
    } else {
        assert(s.contains(s.last()));
        let i = choose|i: int| 0 <= i < t.len() && t[i] == s.last();
        assert(s.contains(t.last())) by {
            assert(t.contains(t.last()));
        }
        let j = choose|j: int| 0 <= j < s.len() && s[j] == t.last();
        assert(s.last() == t.last()) by {
            if i < t.len() - 1 && j < s.len() - 1 {
                assert(precedes(t[i], t[t.len() - 1]));
                assert(precedes(s[j], s[s.len() - 1]));
            }
        }
        let s1 = s.drop_last();
        let t1 = t.drop_last();
        assert(s1.to_set() =~= t1.to_set()) by {
            assert forall|x: EdgeIndex| s1.contains(x) <==> t1.contains(x) by {
                if s1.contains(x) {
                    let a = choose|a: int| 0 <= a < s1.len() && s1[a] == x;
                    assert(precedes(s[a], s[s.len() - 1]));
                    assert(s.contains(x));
                    let b = choose|b: int| 0 <= b < t.len() && t[b] == x;
                    assert(t1[b] == x);
                }
                if t1.contains(x) {
                    let a = choose|a: int| 0 <= a < t1.len() && t1[a] == x;
                    assert(precedes(t[a], t[t.len() - 1]));
                    assert(t.contains(x));
                    let b = choose|b: int| 0 <= b < s.len() && s[b] == x;
                    assert(s1[b] == x);
                }
            }
        }
        increasing_unique(s1, t1);
        assert(s =~= s1.push(s.last()));
        assert(t =~= t1.push(t.last()));
    }
}

/// An increasing sequence is the order of its members.
pub proof fn lemma_in_order(s: Seq<EdgeIndex>)
    requires
        increasing(s),
    ensures
        in_order(s.to_set()) == s,
{
    let t = in_order(s.to_set());
    increasing_unique(s, t);
}

/// Every node has weight one.
pub open spec fn unit_weight() -> spec_fn(int) -> nat {
    |w: int| 1nat
}

/// A graph: nodes numbered from zero, and a set of edges with the smaller node first.
#[verifier::ext_equal]
pub struct GraphModel {
    pub n: nat,
    pub edges: Set<EdgeIndex>,
}

impl GraphModel {
    /// The graph with `n` nodes and no edges.
    pub open spec fn empty(n: nat) -> Self {
        GraphModel { n, edges: Set::empty() }
    }

    /// The graph with the given nodes and edges.
    pub open spec fn of(n: nat, edges: Seq<EdgeIndex>) -> Self {
        GraphModel { n, edges: edges.map_values(|e: EdgeIndex| canon(e)).to_set() }
    }

    /// Whether the edges join nodes of the graph, smaller node first.
    pub open spec fn wf(self) -> bool {
        &&& self.n <= usize::MAX
        &&& self.edges.finite()
        &&& forall|e: EdgeIndex| #[trigger] self.edges.contains(e) ==> e.0 <= e.1 < self.n
    }

    /// Whether no edge joins a node with itself.
    pub open spec fn no_loops(self) -> bool {
        forall|e: EdgeIndex| #[trigger] self.edges.contains(e) ==> e.0 != e.1
    }

    /// Whether `e` joins two different nodes, smaller one first, and is not in the graph.
    pub open spec fn lacks(self, e: EdgeIndex) -> bool {
        e.0 < e.1 < self.n && !self.edges.contains(e)
    }

    /// Whether the graph lacks any edge.
    pub open spec fn has_room(self) -> bool {
        exists|e: EdgeIndex| #[trigger] self.lacks(e)
    }

    /// The same edges, in a graph of `n` nodes.
    pub open spec fn among(self, n: nat) -> Self {
        GraphModel { n, edges: self.edges }
    }

    /// The graph with one more edge.
    pub open spec fn with(self, e: EdgeIndex) -> Self {
        GraphModel { n: self.n, edges: self.edges.insert(e) }
    }

    /// The graph without an edge.
    pub open spec fn without(self, e: EdgeIndex) -> Self {
        GraphModel { n: self.n, edges: self.edges.remove(e) }
    }

    /// Whether an edge joins `v` and `w`.
    pub open spec fn joins(self, v: int, w: int) -> bool {
        self.edges.contains(canon((v as usize, w as usize)))
    }

    /// The summed weights of the nodes below `k` that an edge joins with `v`.
    pub open spec fn neighbor_sum(self, v: int, weight: spec_fn(int) -> nat, k: nat) -> nat
        decreases k,
    {
        if k == 0 {
            0
        } else {
            self.neighbor_sum(v, weight, (k - 1) as nat) + if self.joins(v, k - 1) {
                weight(k - 1)
            } else {
                0
            }
        }
    }

    /// The number of nodes that an edge joins with `v`.
    pub open spec fn degree(self, v: int) -> nat {
        self.neighbor_sum(v, unit_weight(), self.n)
    }

    /// The degrees of all nodes.
    pub open spec fn degrees(self) -> Seq<usize> {
        Seq::new(self.n, |v: int| self.degree(v) as usize)
    }
}

/// A new edge adds the weight of one node to each of the two that it joins.
pub proof fn lemma_neighbor_sum_with(
    g: GraphModel,
    e: EdgeIndex,
    v: int,
    weight: spec_fn(int) -> nat,
    k: nat,
)
    requires
        e.0 <= e.1,
        !g.edges.contains(e),
        0 <= v <= usize::MAX,
        k <= usize::MAX,
    ensures
        g.with(e).neighbor_sum(v, weight, k) == g.neighbor_sum(v, weight, k) + if v == e.0 && e.1
            < k {
            weight(e.1 as int)
        } else if v == e.1 && e.0 < k {
            weight(e.0 as int)
        } else {
            0
        },
    decreases k,
{
    if k > 0 {
        lemma_neighbor_sum_with(g, e, v, weight, (k - 1) as nat);
        let c = canon((v as usize, (k - 1) as usize));
        assert(g.with(e).edges.contains(c) <==> (c == e || g.edges.contains(c)));
    }
}

pub proof fn lemma_neighbor_sum_empty(n: nat, v: int, weight: spec_fn(int) -> nat, k: nat)
    ensures
        GraphModel::empty(n).neighbor_sum(v, weight, k) == 0,
    decreases k,
{
    if k > 0 {
        lemma_neighbor_sum_empty(n, v, weight, (k - 1) as nat);
    }
}

/// No node has more neighbours than there are nodes.
pub proof fn lemma_degree_bound(g: GraphModel, v: int, k: nat)
    ensures
        g.neighbor_sum(v, unit_weight(), k) <= k,
    decreases k,
{
    if k > 0 {
        lemma_degree_bound(g, v, (k - 1) as nat);
    }
}

/// The pairs of `v` with the nodes below `k`.
spec fn star(v: nat, k: nat) -> Set<EdgeIndex>
    decreases k,
{
    if k == 0 {
        Set::empty()
    } else {
        star(v, (k - 1) as nat).insert(((k - 1) as usize, v as usize))
    }
}

/// The pairs of different nodes below `n`.
spec fn pairs(n: nat) -> Set<EdgeIndex>
    decreases n,
{
    if n == 0 {
        Set::empty()
    } else {
        pairs((n - 1) as nat).union(star((n - 1) as nat, (n - 1) as nat))
    }
}

proof fn lemma_star(v: nat, k: nat)
    requires
        k <= v <= usize::MAX,
    ensures
        star(v, k).finite(),
        star(v, k).len() == k,
        forall|e: EdgeIndex| #[trigger] star(v, k).contains(e) <==> e.0 < k && e.1 == v,
    decreases k,
{
    if k > 0 {
        lemma_star(v, (k - 1) as nat);
    }
}

proof fn lemma_pairs(n: nat)
    requires
        n <= usize::MAX,
    ensures
        pairs(n).finite(),
        2 * pairs(n).len() == n * (n - 1),
        forall|e: EdgeIndex| #[trigger] pairs(n).contains(e) <==> e.0 < e.1 < n,
    decreases n,
{
    if n > 0 {
        let k = (n - 1) as nat;
        lemma_pairs(k);
        lemma_star(k, k);
        vstd::set_lib::lemma_set_disjoint_lens(pairs(k), star(k, k));
        assert(n * (n - 1) == k * (k - 1) + 2 * k) by (nonlinear_arith)
            requires
                n == k + 1,
        ;
    }
}

/// A graph with fewer edges than pairs of different nodes lacks one, and one with edges between
/// different nodes only has no more edges than pairs.
pub proof fn edges_and_pairs(g: GraphModel)
    requires
        g.n <= usize::MAX,
        g.edges.finite(),
    ensures
        2 * g.edges.len() < g.n * (g.n - 1) ==> g.has_room(),
        g.wf() && g.no_loops() ==> 2 * g.edges.len() <= g.n * (g.n - 1),
{
    let all = pairs(g.n);
    lemma_pairs(g.n);
    if !g.has_room() {
        assert forall|e: EdgeIndex| #[trigger] all.contains(e) implies g.edges.contains(e) by {
            assert(!g.lacks(e));
        }
        vstd::set_lib::lemma_len_subset(all, g.edges);
    }
    if g.wf() && g.no_loops() {
        assert forall|e: EdgeIndex| #[trigger] g.edges.contains(e) implies all.contains(e) by {
        }
        vstd::set_lib::lemma_len_subset(g.edges, all);
    }
}

/// A copy of the edges.
pub fn copy_edges(edges: &Vec<EdgeIndex>) -> (copy: Vec<EdgeIndex>)
    ensures
        copy@ == edges@,
{
    let mut copy: Vec<EdgeIndex> = Vec::with_capacity(edges.len());
    let mut i: usize = 0;
    while i < edges.len()
        invariant
            i <= edges.len(),
            copy@ == edges@.take(i as int),
        decreases edges.len() - i,
    {
        copy.push(edges[i]);
        assert(copy@ =~= edges@.take(i + 1));
        i = i + 1;
    }
    assert(copy@ =~= edges@);
    copy
}

/// Where the edge `e` stands in an increasing list, or would have to be put.
pub fn place_of(edges: &Vec<EdgeIndex>, e: EdgeIndex) -> (p: usize)
    requires
        increasing(edges@),
    ensures
        p <= edges.len(),
        forall|i: int| 0 <= i < p ==> precedes(#[trigger] edges@[i], e),
        forall|i: int| p <= i < edges.len() ==> !precedes(#[trigger] edges@[i], e),
{
    let mut lo: usize = 0;
    let mut hi: usize = edges.len();
    while lo < hi
        invariant
            lo <= hi <= edges.len(),
            increasing(edges@),
            forall|i: int| 0 <= i < lo ==> precedes(#[trigger] edges@[i], e),
            forall|i: int| hi <= i < edges.len() ==> !precedes(#[trigger] edges@[i], e),
        decreases hi - lo,
    {
        let mid: usize = lo + (hi - lo) / 2;
        let at = edges[mid];
        assert(at == edges@[mid as int]);
        if at.0 < e.0 || (at.0 == e.0 && at.1 < e.1) {
            assert forall|i: int| 0 <= i <= mid implies precedes(#[trigger] edges@[i], e) by {
                if i < mid {
                    assert(precedes(edges@[i], edges@[mid as int]));
                }
            }
            lo = mid + 1;
        } else {
            assert forall|i: int| mid <= i < edges.len() implies !precedes(
                #[trigger] edges@[i],
                e,
            ) by {
                if i > mid {
                    assert(precedes(edges@[mid as int], edges@[i]));
                }
            }
            hi = mid;
        }
    }
    lo
}

/// Marks graphs whose edges have no direction.
#[derive(Clone, Copy, Debug, PartialEq, Eq)]
pub struct Undirected;

/// A graph without labels.
#[derive(Debug, PartialEq, Eq)]
pub struct PlainGraph<Ty> {
    n: usize,
    edges: Vec<EdgeIndex>,
    phantom: PhantomData<Ty>,
}

impl<Ty> View for PlainGraph<Ty> {
    type V = GraphModel;

    closed spec fn view(&self) -> GraphModel {
        GraphModel { n: self.n as nat, edges: self.edges@.to_set() }
    }
}

impl<Ty> PlainGraph<Ty> {
    /// The edges are in increasing order and join nodes of the graph, smaller node first.
    #[verifier::type_invariant]
    spec fn inv(self) -> bool {
        &&& increasing(self.edges@)
        &&& forall|i: int|
            0 <= i < self.edges@.len() ==> (#[trigger] self.edges@[i]).0 <= self.edges@[i].1
                < self.n
    }
}

impl PlainGraph<Undirected> {
    /// The graph with `n` nodes and no edges.
    pub fn plain_empty(n: usize) -> (g: Self)
        ensures
            g@ == GraphModel::empty(n as nat),
            g@.n == n,
            g@.edges == Set::<EdgeIndex>::empty(),
    {
        let edges: Vec<EdgeIndex> = Vec::new();
        assert(edges@.to_set() =~= Set::<EdgeIndex>::empty());
        PlainGraph { n, edges, phantom: PhantomData }
    }

    /// The number of nodes.
    pub fn len(&self) -> (n: usize)
        ensures
            n == self@.n,
            self@.wf(),
    {
        proof {
            use_type_invariant(self);
            self.lemma_wf();
        }
        self.n
    }

    /// Every graph of this type is well formed.
    proof fn lemma_wf(&self)
        requires
            self.inv(),
        ensures
            self@.wf(),
    {
        vstd::seq_lib::seq_to_set_is_finite(self.edges@);
        assert forall|e: EdgeIndex| #[trigger] self@.edges.contains(e) implies e.0 <= e.1
            < self@.n by {
            let i = choose|i: int| 0 <= i < self.edges@.len() && self.edges@[i] == e;
            assert(self.edges@[i].0 <= self.edges@[i].1);
        }
    }

    fn canonical(e: EdgeIndex) -> (c: EdgeIndex)
        ensures
            c == canon(e),
    {
        if e.0 < e.1 {
            (e.0, e.1)
        } else {
            (e.1, e.0)
        }
    }

    /// Whether the graph has the edge `e`.
    pub fn has_edge(&self, e: &EdgeIndex) -> (found: bool)
        ensures
            found == self@.edges.contains(canon(*e)),
    {
        proof {
            use_type_invariant(self);
        }
        let c = Self::canonical(*e);
        let p = place_of(&self.edges, c);
        if p < self.edges.len() {
            let at = self.edges[p];
            let found = at.0 == c.0 && at.1 == c.1;
            proof {
                if found {
                    assert(self.edges@[p as int] == c);
                }
                if self.edges@.contains(c) {
                    let i = choose|i: int| 0 <= i < self.edges@.len() && self.edges@[i] == c;
                    assert(!precedes(c, c));
                    assert(p <= i);
                    if p < i {
                        assert(precedes(self.edges@[p as int], self.edges@[i]));
                    }
                }
            }
            found
        } else {
            proof {
                if self.edges@.contains(c) {
                    let i = choose|i: int| 0 <= i < self.edges@.len() && self.edges@[i] == c;
                    assert(precedes(self.edges@[i], c));
                }
            }
            false
        }
    }

    /// Adds the edge `e` if the graph does not have it.
    pub fn insert_plain_edge(&mut self, e: EdgeIndex)
        requires
            e.0 < old(self)@.n,
            e.1 < old(self)@.n,
        ensures
            final(self)@ == old(self)@.with(canon(e)),
            final(self)@.n == old(self)@.n,
            final(self)@.edges == old(self)@.edges.insert(canon(e)),
    {
        proof {
            use_type_invariant(&*self);
        }
        let ghost before = self.edges@;
        let c = Self::canonical(e);
        let mut edges: Vec<EdgeIndex> = Vec::new();
        std::mem::swap(&mut edges, &mut self.edges);
        let p = place_of(&edges, c);
        if p < edges.len() && edges[p].0 == c.0 && edges[p].1 == c.1 {
            assert(before[p as int] == c);
            assert(before.to_set().insert(c) =~= before.to_set());
        } else {
            edges.insert(p, c);
            proof {
                assert(edges@ =~= before.insert(p as int, c));
                lemma_insert_members(before, p as int, c);
                assert forall|i: int, j: int| 0 <= i < j < edges@.len() implies precedes(
                    #[trigger] edges@[i],
                    #[trigger] edges@[j],
                ) by {
                    let a = if i < p {
                        i
                    } else {
                        i - 1
                    };
                    let b = if j < p {
                        j
                    } else {
                        j - 1
                    };
                    if i != p {
                        assert(edges@[i] == before[a]);
                    }
                    if j != p {
                        assert(edges@[j] == before[b]);
                    }
                    if i != p && j != p {
                        assert(precedes(before[a], before[b]));
                    } else if i == p {
                        assert(!precedes(before[b], c));
                        assert(!precedes(before[p as int], c));
                        if b > p {
                            assert(precedes(before[p as int], before[b]));
                        }
                    } else {
                        assert(precedes(before[a], c));
                    }
                }
                assert forall|i: int| 0 <= i < edges@.len() implies (#[trigger] edges@[i]).0
                    <= edges@[i].1 < self.n by {
                    if i < p {
                        assert(edges@[i] == before[i]);
                    } else if i > p {
                        assert(edges@[i] == before[i - 1]);
                    }
                }
            }
        }
        self.edges = edges;
    }

    /// Takes away the edge `e` if the graph has it.
    pub fn remove_plain_edge(&mut self, e: EdgeIndex)
        ensures
            final(self)@ == old(self)@.without(canon(e)),
            final(self)@.n == old(self)@.n,
            final(self)@.edges == old(self)@.edges.remove(canon(e)),
    {
        proof {
            use_type_invariant(&*self);
        }
        let ghost before = self.edges@;
        let c = Self::canonical(e);
        let mut edges: Vec<EdgeIndex> = Vec::new();
        std::mem::swap(&mut edges, &mut self.edges);
        let p = place_of(&edges, c);
        if p < edges.len() && edges[p].0 == c.0 && edges[p].1 == c.1 {
            assert(before[p as int] == c);
            edges.remove(p);
            proof {
                assert(edges@ =~= before.remove(p as int));
                lemma_remove_members(before, p as int);
                assert forall|i: int, j: int| 0 <= i < j < edges@.len() implies precedes(
                    #[trigger] edges@[i],
                    #[trigger] edges@[j],
                ) by {
                    let a = if i < p {
                        i
                    } else {
                        i + 1
                    };
                    let b = if j < p {
                        j
                    } else {
                        j + 1
                    };
                    assert(precedes(before[a], before[b]));
                }
                assert forall|i: int| 0 <= i < edges@.len() implies (#[trigger] edges@[i]).0
                    <= edges@[i].1 < self.n by {
                    if i < p {
                        assert(edges@[i] == before[i]);
                    } else {
                        assert(edges@[i] == before[i + 1]);
                    }
                }
            }
        } else {
            proof {
                if before.contains(c) {
                    let i = choose|i: int| 0 <= i < before.len() && before[i] == c;
                    assert(!precedes(c, c));
                    assert(p <= i);
                    assert(p < i ==> precedes(before[p as int], before[i]));
                    assert(!precedes(before[p as int], c));
                    assert(before[p as int] == c);
                }
                assert(before.to_set().remove(c) =~= before.to_set());
            }
        }
        self.edges = edges;
    }

    /// The edges in increasing order, smaller node first.
    pub fn edge_indices(&self) -> (edges: Vec<EdgeIndex>)
        ensures
            edges@ == in_order(self@.edges),
            increasing(edges@),
            edges@.to_set() == self@.edges,
            self@.wf(),
    {
        proof {
            use_type_invariant(self);
            self.lemma_wf();
            lemma_in_order(self.edges@);
        }
        copy_edges(&self.edges)
    }

    /// The number of neighbours of each node, node by node.
    pub fn degrees(&self) -> (degrees: std::vec::IntoIter<usize>)
        ensures
            vstd::std_specs::iter::IteratorSpec::remaining(&degrees) == self@.degrees(),
            self@.wf(),
    {
        let mut degrees: Vec<usize> = vec![0; self.n];
        proof {
            use_type_invariant(self);
            self.lemma_wf();
        }
        let mut i: usize = 0;
        let ghost n = self.n as nat;
        proof {
            assert(self.edges@.take(0).to_set() =~= Set::<EdgeIndex>::empty());
            assert forall|v: int| 0 <= v < n implies #[trigger] degrees@[v] == (GraphModel {
                n,
                edges: self.edges@.take(0).to_set(),
            }).degree(v) by {
                lemma_neighbor_sum_empty(n, v, unit_weight(), n);
            }
        }
        while i < self.edges.len()
            invariant
                self.inv(),
                i <= self.edges.len(),
                n == self.n,
                degrees.len() == n,
                forall|v: int|
                    0 <= v < n ==> #[trigger] degrees@[v] == (GraphModel {
                        n,
                        edges: self.edges@.take(i as int).to_set(),
                    }).degree(v),
            decreases self.edges.len() - i,
        {
            let e = self.edges[i];
            let ghost g = GraphModel { n, edges: self.edges@.take(i as int).to_set() };
            let ghost before = degrees@;
            proof {
                lemma_take_next(self.edges@, i as int);
                assert((GraphModel { n, edges: self.edges@.take(i + 1).to_set() }) =~= g.with(e));
                assert(self.edges@[i as int] == e);
                lemma_neighbor_sum_with(g, e, e.0 as int, unit_weight(), n);
                lemma_neighbor_sum_with(g, e, e.1 as int, unit_weight(), n);
                lemma_degree_bound(g.with(e), e.0 as int, n);
                lemma_degree_bound(g.with(e), e.1 as int, n);
            }
            degrees.set(e.0, degrees[e.0] + 1);
            if e.0 != e.1 {
                degrees.set(e.1, degrees[e.1] + 1);
            }
            proof {
                assert forall|v: int| 0 <= v < n implies #[trigger] degrees@[v] == g.with(
                    e,
                ).degree(v) by {
                    lemma_neighbor_sum_with(g, e, v, unit_weight(), n);
                    assert(before[v] == g.degree(v));
                }
            }
            i = i + 1;
        }
        proof {
            assert(self.edges@.take(i as int) =~= self.edges@);
            assert(degrees@ =~= self@.degrees());
        }
        degrees.into_iter()
    }
}

impl Clone for PlainGraph<Undirected> {
    fn clone(&self) -> (g: Self)
        ensures
            g@ == self@,
    {
        proof {
            use_type_invariant(self);
        }
        PlainGraph { n: self.n, edges: copy_edges(&self.edges), phantom: PhantomData }
    }
}

proof fn lemma_insert_members(s: Seq<EdgeIndex>, p: int, e: EdgeIndex)
    requires
        0 <= p <= s.len(),
    ensures
        s.insert(p, e).to_set() == s.to_set().insert(e),
{
    let t = s.insert(p, e);
    assert forall|x: EdgeIndex| t.contains(x) <==> (s.contains(x) || x == e) by {
        if s.contains(x) {
            let j = choose|j: int| 0 <= j < s.len() && s[j] == x;
            if j < p {
                assert(t[j] == x);
            } else {
                assert(t[j + 1] == x);
            }
        }
        assert(t[p] == e);
        if t.contains(x) {
            let j = choose|j: int| 0 <= j < t.len() && t[j] == x;
            if j < p {
                assert(s[j] == x);
            } else if j > p {
                assert(s[j - 1] == x);
            }
        }
    }
    assert(t.to_set() =~= s.to_set().insert(e));
}

proof fn lemma_remove_members(s: Seq<EdgeIndex>, p: int)
    requires
        0 <= p < s.len(),
        increasing(s),
    ensures
        s.remove(p).to_set() == s.to_set().remove(s[p]),
{
    let t = s.remove(p);
    assert forall|x: EdgeIndex| t.contains(x) <==> (s.contains(x) && x != s[p]) by {
        if s.contains(x) && x != s[p] {
            let j = choose|j: int| 0 <= j < s.len() && s[j] == x;
            if j < p {
                assert(t[j] == x);
            } else {
                assert(t[j - 1] == x);
            }
        }
        if t.contains(x) {
            let j = choose|j: int| 0 <= j < t.len() && t[j] == x;
            if j < p {
                assert(s[j] == x);
                assert(precedes(s[j], s[p]));
            } else {
                assert(s[j + 1] == x);
                assert(precedes(s[p], s[j + 1]));
            }
        }
    }
    assert(t.to_set() =~= s.to_set().remove(s[p]));
}

/// The next item of an increasing sequence is a new member.
pub proof fn lemma_take_next(s: Seq<EdgeIndex>, i: int)
    requires
        0 <= i < s.len(),
        increasing(s),
    ensures
        !s.take(i).to_set().contains(s[i]),
        s.take(i + 1).to_set() == s.take(i).to_set().insert(s[i]),
{
    assert(s.take(i + 1) =~= s.take(i).push(s[i]));
    s.take(i).lemma_push_to_set_commute(s[i]);
    if s.take(i).contains(s[i]) {
        let j = choose|j: int| 0 <= j < i && s.take(i)[j] == s[i];
        assert(precedes(s[j], s[i]));
    }
}

/// The smaller node of an edge comes first, and its nodes stay.
pub proof fn canon_orders_nodes(u: usize, v: usize)
    ensures
        u <= v ==> canon((u, v)) == (u, v),
        v <= u ==> canon((u, v)) == (v, u),
{
}

/// Edges are ordered by their first nodes, and those with the same first node by their second: of
/// two different edges one precedes the other, and none precedes itself.
pub proof fn edges_are_ordered(a: EdgeIndex, b: EdgeIndex, c: EdgeIndex)
    ensures
        a.0 < b.0 ==> precedes(a, b),
        a.0 == b.0 && a.1 < b.1 ==> precedes(a, b),
        a != b ==> (precedes(a, b) <==> !precedes(b, a)),
        !precedes(a, a),
        precedes(a, b) && precedes(b, c) ==> precedes(a, c),
{
}

/// In an increasing sequence each edge comes before all that follow it, and a sequence in which
/// each does is increasing.
pub proof fn increasing_by_pairs(s: Seq<EdgeIndex>)
    ensures
        increasing(s) <==> forall|i: int, j: int|
            0 <= i < j < s.len() ==> (#[trigger] s[i]).0 < (#[trigger] s[j]).0 || (s[i].0 == s[j].0
                && s[i].1 < s[j].1),
{
    if increasing(s) {
        assert forall|i: int, j: int| 0 <= i < j < s.len() implies (#[trigger] s[i]).0
            < (#[trigger] s[j]).0 || (s[i].0 == s[j].0 && s[i].1 < s[j].1) by {
            assert(precedes(s[i], s[j]));
        }
    }
}

/// What the operations on graphs do to the nodes and the edges.
pub proof fn graph_operations(g: GraphModel, e: EdgeIndex, n: nat)
    ensures
        GraphModel::empty(n).n == n,
        GraphModel::empty(n).edges == Set::<EdgeIndex>::empty(),
        g.with(e).n == g.n,
        g.with(e).edges == g.edges.insert(e),
        g.without(e).n == g.n,
        g.without(e).edges == g.edges.remove(e),
        g.among(n).n == n,
        g.among(n).edges == g.edges,
        g.lacks(e) <==> e.0 < e.1 && e.1 < g.n && !g.edges.contains(e),
        g.has_room() <==> exists|f: EdgeIndex|
            f.0 < f.1 && f.1 < g.n && !(#[trigger] g.edges.contains(f)),
        g.no_loops() <==> forall|f: EdgeIndex| #[trigger] g.edges.contains(f) ==> f.0 != f.1,
        g.wf() <==> g.n <= usize::MAX && g.edges.finite() && forall|f: EdgeIndex| #[trigger]
            g.edges.contains(f) ==> f.0 <= f.1 && f.1 < g.n,
{
    if g.has_room() {
        let f = choose|f: EdgeIndex| g.lacks(f);
        assert(!g.edges.contains(f));
    }
    if exists|f: EdgeIndex| f.0 < f.1 && f.1 < g.n && !(#[trigger] g.edges.contains(f)) {
        let f = choose|f: EdgeIndex| f.0 < f.1 && f.1 < g.n && !(#[trigger] g.edges.contains(f));
        assert(g.lacks(f));
    }
}

/// The graph of a list has the edges of the list, each with its smaller node first, and no others.
pub proof fn graph_of_list(n: nat, edges: Seq<EdgeIndex>, e: EdgeIndex)
    ensures
        GraphModel::of(n, edges).n == n,
        GraphModel::of(n, edges).edges.contains(e) <==> e.0 <= e.1 && (edges.contains(e)
            || edges.contains((e.1, e.0))),
{
    let s = edges.map_values(|x: EdgeIndex| canon(x));
    if s.contains(e) {
        let i = choose|i: int| 0 <= i < s.len() && s[i] == e;
        assert(edges[i] == e || edges[i] == (e.1, e.0));
        assert(edges.contains(edges[i]));
    }
    if e.0 <= e.1 && edges.contains(e) {
        let i = choose|i: int| 0 <= i < edges.len() && edges[i] == e;
        assert(s[i] == e);
    }
    if e.0 <= e.1 && edges.contains((e.1, e.0)) {
        let i = choose|i: int| 0 <= i < edges.len() && edges[i] == (e.1, e.0);
        assert(s[i] == e);
    }
}

/// A sum over neighbours grows, node by node, by the weight of each node that an edge joins.
pub proof fn neighbor_sum_by_node(g: GraphModel, v: usize, weight: spec_fn(int) -> nat, w: usize)
    ensures
        g.neighbor_sum(v as int, weight, 0) == 0,
        g.edges.contains((v, w)) && v <= w || g.edges.contains((w, v)) && w <= v
            ==> g.neighbor_sum(v as int, weight, w as nat + 1) == g.neighbor_sum(
            v as int,
            weight,
            w as nat,
        ) + weight(w as int),
        !(g.edges.contains((v, w)) && v <= w || g.edges.contains((w, v)) && w <= v)
            ==> g.neighbor_sum(v as int, weight, w as nat + 1) == g.neighbor_sum(
            v as int,
            weight,
            w as nat,
        ),
{
    assert((w as nat + 1 - 1) as nat == w as nat);
}

proof fn lemma_degree_counts(g: GraphModel, v: int, k: nat)
    ensures
        Set::new(|w: int| 0 <= w < k && g.joins(v, w)).finite(),
        g.neighbor_sum(v, unit_weight(), k) == Set::new(
            |w: int| 0 <= w < k && g.joins(v, w),
        ).len(),
    decreases k,
{
    let s = Set::new(|w: int| 0 <= w < k && g.joins(v, w));
    if k == 0 {
        assert(s =~= Set::<int>::empty());
    } else {
        let t = Set::new(|w: int| 0 <= w < k - 1 && g.joins(v, w));
        lemma_degree_counts(g, v, (k - 1) as nat);
        assert(Set::new(|w: int| 0 <= w < (k - 1) as nat && g.joins(v, w)) =~= t);
        if g.joins(v, k - 1) {
            assert(s =~= t.insert(k - 1));
        } else {
            assert(s =~= t);
        }
    }
}

/// The degree of a node is the number of nodes that an edge joins with it.
pub proof fn degree_counts_neighbors(g: GraphModel, v: int)
    requires
        g.n <= usize::MAX,
        0 <= v < g.n,
    ensures
        g.degrees().len() == g.n,
        g.degrees()[v] as nat == Set::new(
            |w: int|
                0 <= w < g.n && g.edges.contains(
                    if v <= w {
                        (v as usize, w as usize)
                    } else {
                        (w as usize, v as usize)
                    },
                ),
        ).len(),
{
    lemma_degree_counts(g, v, g.n);
    lemma_degree_bound(g, v, g.n);
    assert(Set::new(|w: int| 0 <= w < g.n && g.joins(v, w)) =~= Set::new(
        |w: int|
            0 <= w < g.n && g.edges.contains(
                if v <= w {
                    (v as usize, w as usize)
                } else {
                    (w as usize, v as usize)
                },
            ),
    ));
}

} // verus!
