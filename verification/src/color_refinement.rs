//! Node colors that tell apart nodes whose surroundings differ.

use crate::graph;
use crate::graph::{GraphModel, PlainGraph, Undirected};
use vstd::arithmetic::div_mod::{lemma_add_mod_noop, lemma_small_mod};
use vstd::prelude::*;

verus! {

/// The hash that every node starts with.
pub const START_HASH: u64 = 0x9E37_79B9_7F4A_7C15;

/// Mixes the bits of a hash.
pub open spec fn scrambled(x: u64) -> u64 {
    let y = (x ^ (x >> 30)).wrapping_mul(0xBF58_476D_1CE4_E5B9);
    y ^ (y >> 27)
}

/// What a node contributes to the hashes of its neighbours.
pub open spec fn hash_weight(hashes: Seq<u64>) -> spec_fn(int) -> nat {
    |w: int| scrambled(hashes[w]) as nat
}

/// The hash of a node in the next round, from its own hash and what its neighbours contribute.
pub open spec fn next_hash(own: u64, around: nat) -> u64 {
    scrambled(own.wrapping_mul(0x94D0_49BB_1331_11EB).wrapping_add((around
        % 0x1_0000_0000_0000_0000) as u64))
}

/// The node hashes after the given number of rounds.
pub open spec fn node_hashes(g: GraphModel, rounds: nat) -> Seq<u64>
    decreases rounds,
{
    if rounds == 0 {
        Seq::new(g.n, |v: int| START_HASH)
    } else {
        let last = node_hashes(g, (rounds - 1) as nat);
        Seq::new(
            g.n,
            |v: int| next_hash(last[v], g.neighbor_sum(v, hash_weight(last), g.n)),
        )
    }
}

/// Color refinement: in every round the hash of a node takes in those of its neighbours.
#[derive(Clone, Copy, Debug, PartialEq, Eq)]
pub struct ColorRefinement {
    /// The number of rounds.
    pub rounds: usize,
    /// Whether edge labels count. Plain graphs have none, so it makes no difference to them.
    pub edge_labels: bool,
}

fn scramble(x: u64) -> (y: u64)
    ensures
        y == scrambled(x),
{
    let y = (x ^ (x >> 30)).wrapping_mul(0xBF58_476D_1CE4_E5B9);
    y ^ (y >> 27)
}

proof fn lemma_wrapping_sum(sum: nat, at: u64, x: u64)
    requires
        at as nat == sum % 0x1_0000_0000_0000_0000,
    ensures
        at.wrapping_add(x) as nat == (sum + x as nat) % 0x1_0000_0000_0000_0000,
{
    let m = 0x1_0000_0000_0000_0000int;
    lemma_add_mod_noop(sum as int, x as int, m);
    lemma_small_mod(x as nat, m as nat);
}

impl ColorRefinement {
    /// Color refinement with the given number of rounds.
    pub fn new(rounds: usize, edge_labels: bool) -> (c: Self)
        ensures
            c.rounds == rounds,
            c.edge_labels == edge_labels,
    {
        ColorRefinement { rounds, edge_labels }
    }

    /// The color of every node of `g`.
    pub open spec fn colors(self, g: GraphModel) -> Seq<usize> {
        node_hashes(g, self.rounds as nat).map_values(|h: u64| h as usize)
    }

    /// For every node what its neighbours contribute to its hash.
    fn contributions(g: &PlainGraph<Undirected>, hashes: &Vec<u64>) -> (around: Vec<u64>)
        requires
            hashes.len() == g@.n,
        ensures
            around.len() == g@.n,
            forall|v: int|
                0 <= v < g@.n ==> #[trigger] around@[v] as nat == g@.neighbor_sum(
                    v,
                    hash_weight(hashes@),
                    g@.n,
                ) % 0x1_0000_0000_0000_0000,
    {
        let edges = g.edge_indices();
        let mut around: Vec<u64> = vec![0; hashes.len()];
        let ghost n = g@.n;
        let ghost weight = hash_weight(hashes@);
        let mut i: usize = 0;
        proof {
            assert(edges@.take(0).to_set() =~= Set::<graph::EdgeIndex>::empty());
            assert forall|v: int| 0 <= v < n implies #[trigger] around@[v] as nat == (GraphModel {
                n,
                edges: edges@.take(0).to_set(),
            }).neighbor_sum(v, weight, n) % 0x1_0000_0000_0000_0000 by {
                graph::lemma_neighbor_sum_empty(n, v, weight, n);
            }
        }
        while i < edges.len()
            invariant
                g@.wf(),
                n == g@.n,
                graph::increasing(edges@),
                edges@.to_set() == g@.edges,
                i <= edges.len(),
                hashes.len() == n,
                around.len() == n,
                weight == hash_weight(hashes@),
                forall|v: int|
                    0 <= v < n ==> #[trigger] around@[v] as nat == (GraphModel {
                        n,
                        edges: edges@.take(i as int).to_set(),
                    }).neighbor_sum(v, weight, n) % 0x1_0000_0000_0000_0000,
            decreases edges.len() - i,
        {
            let e = edges[i];
            let ghost h = GraphModel { n, edges: edges@.take(i as int).to_set() };
            let ghost before = around@;
            proof {
                assert(edges@.to_set().contains(edges@[i as int]));
                assert(g@.edges.contains(e));
                graph::lemma_take_next(edges@, i as int);
                assert((GraphModel { n, edges: edges@.take(i + 1).to_set() }) =~= h.with(e));
                lemma_wrapping_sum(
                    h.neighbor_sum(e.0 as int, weight, n),
                    before[e.0 as int],
                    scrambled(hashes@[e.1 as int]),
                );
                lemma_wrapping_sum(
                    h.neighbor_sum(e.1 as int, weight, n),
                    before[e.1 as int],
                    scrambled(hashes@[e.0 as int]),
                );
            }
            around.set(e.0, around[e.0].wrapping_add(scramble(hashes[e.1])));
            if e.0 != e.1 {
                around.set(e.1, around[e.1].wrapping_add(scramble(hashes[e.0])));
            }
            proof {
                assert forall|v: int| 0 <= v < n implies #[trigger] around@[v] as nat == h.with(
                    e,
                ).neighbor_sum(v, weight, n) % 0x1_0000_0000_0000_0000 by {
                    graph::lemma_neighbor_sum_with(h, e, v, weight, n);
                    assert(before[v] as nat == h.neighbor_sum(v, weight, n)
                        % 0x1_0000_0000_0000_0000);
                }
            }
            i = i + 1;
        }
        assert(edges@.take(i as int) =~= edges@);
        assert((GraphModel { n, edges: edges@.to_set() }) =~= g@);
        around
    }

    /// The color of every node of `g`.
    pub fn apply(&self, g: &PlainGraph<Undirected>) -> (colors: Vec<usize>)
        ensures
            colors@ == self.colors(g@),
            colors.len() == g@.n,
    {
        let n = g.len();
        let mut hashes: Vec<u64> = vec![START_HASH; n];
        let mut round: usize = 0;
        assert(hashes@ =~= node_hashes(g@, 0));
        while round < self.rounds
            invariant
                n == g@.n,
                round <= self.rounds,
                hashes@ == node_hashes(g@, round as nat),
                hashes.len() == n,
            decreases self.rounds - round,
        {
            let around = Self::contributions(g, &hashes);
            let mut next: Vec<u64> = Vec::with_capacity(n);
            let mut v: usize = 0;
            while v < n
                invariant
                    v <= n,
                    n == g@.n,
                    hashes@ == node_hashes(g@, round as nat),
                    hashes.len() == n,
                    around.len() == n,
                    forall|v: int|
                        0 <= v < n ==> #[trigger] around@[v] as nat == g@.neighbor_sum(
                            v,
                            hash_weight(hashes@),
                            g@.n,
                        ) % 0x1_0000_0000_0000_0000,
                    next@ == node_hashes(g@, round as nat + 1).take(v as int),
                decreases n - v,
            {
                let own = hashes[v].wrapping_mul(0x94D0_49BB_1331_11EB);
                next.push(scramble(own.wrapping_add(around[v])));
                assert(next@ =~= node_hashes(g@, round as nat + 1).take(v + 1));
                v = v + 1;
            }
            assert(next@ =~= node_hashes(g@, round as nat + 1));
            hashes = next;
            round = round + 1;
        }
        let mut colors: Vec<usize> = Vec::with_capacity(n);
        let mut v: usize = 0;
        while v < n
            invariant
                v <= n,
                hashes.len() == n,
                hashes@ == node_hashes(g@, self.rounds as nat),
                colors@ == self.colors(g@).take(v as int),
            decreases n - v,
        {
            colors.push(#[verifier::truncate] (hashes[v] as usize));
            assert(colors@ =~= self.colors(g@).take(v + 1));
            v = v + 1;
        }
        assert(colors@ =~= self.colors(g@));
        colors
    }
}

/// Without a round all nodes have the hash they start with.
pub proof fn hashes_start_equal(g: GraphModel, v: int)
    requires
        0 <= v < g.n,
    ensures
        node_hashes(g, 0).len() == g.n,
        node_hashes(g, 0)[v] == 0x9E37_79B9_7F4A_7C15u64,
{
}

/// In every round the hash of a node is made of its own and of the sum of what its neighbours
/// contribute, each by its own last hash.
pub proof fn hashes_take_in_neighbors(g: GraphModel, rounds: nat, v: int)
    requires
        0 <= v < g.n,
    ensures
        node_hashes(g, rounds + 1).len() == g.n,
        ({
            let last = node_hashes(g, rounds);
            let mix = |x: u64|
                {
                    let y = (x ^ (x >> 30)).wrapping_mul(0xBF58_476D_1CE4_E5B9);
                    y ^ (y >> 27)
                };
            let around = g.neighbor_sum(v, |w: int| mix(last[w]) as nat, g.n);
            node_hashes(g, rounds + 1)[v] == mix(
                last[v].wrapping_mul(0x94D0_49BB_1331_11EB).wrapping_add((around
                    % 0x1_0000_0000_0000_0000) as u64),
            )
        }),
{
    let last = node_hashes(g, rounds);
    let mix = |x: u64|
        {
            let y = (x ^ (x >> 30)).wrapping_mul(0xBF58_476D_1CE4_E5B9);
            y ^ (y >> 27)
        };
    assert((rounds + 1 - 1) as nat == rounds);
    assert(hash_weight(last) =~= (|w: int| mix(last[w]) as nat));
}

/// The color of a node is its hash after as many rounds as the refinement has.
pub proof fn colors_are_hashes(cr: ColorRefinement, g: GraphModel, v: int)
    requires
        0 <= v < g.n,
    ensures
        cr.colors(g).len() == g.n,
        cr.colors(g)[v] == node_hashes(g, cr.rounds as nat)[v] as usize,
{
    assert(node_hashes(g, cr.rounds as nat).len() == g.n);
}

} // verus!
