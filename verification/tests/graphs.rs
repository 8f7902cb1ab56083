use edge_orbit::color_refinement::ColorRefinement;
use edge_orbit::edge_orbit::type2_edge_orbit_codec;
use edge_orbit::edge_prefix::{
    canon_edge, graph_of, unordered_edge_list, EdgeList, EdgePrefix, EdgePrefixingChain,
};
use edge_orbit::edge_signature::{edge_sig, hash_sig, EdgeOrbitCodecs};
use edge_orbit::graph::{PlainGraph, Undirected};
use edge_orbit::permutable::Unordered;
use edge_orbit::removal_model::UniformCandidateP;

type Graph = PlainGraph<Undirected>;

fn prefix_of(n: usize, edges: Vec<(usize, usize)>) -> EdgePrefix {
    EdgePrefixingChain::new().prefix(EdgeList { n, edges })
}

#[test]
fn graph_holds_edges_once_in_order() {
    let mut g: Graph = PlainGraph::plain_empty(4);
    assert_eq!(g.len(), 4);
    assert_eq!(g.edge_indices(), vec![]);
    g.insert_plain_edge((3, 1));
    g.insert_plain_edge((0, 2));
    g.insert_plain_edge((1, 3));
    assert_eq!(g.edge_indices(), vec![(0, 2), (1, 3)]);
    assert!(g.has_edge(&(2, 0)));
    assert!(!g.has_edge(&(0, 1)));
    g.remove_plain_edge((3, 1));
    g.remove_plain_edge((0, 1));
    assert_eq!(g.edge_indices(), vec![(0, 2)]);
}

#[test]
fn degrees_count_neighbours() {
    let g = graph_of(5, &vec![(0, 1), (2, 0), (0, 3), (3, 1)]);
    let degrees: Vec<usize> = g.degrees().collect();
    assert_eq!(degrees, vec![3, 2, 1, 2, 0]);
}

#[test]
fn colors_exact_values() {
    let g = graph_of(3, &vec![(0, 1), (1, 2)]);
    let start: usize = 11400714819323198485;
    assert_eq!(ColorRefinement::new(0, false).apply(&g), vec![start; 3]);
    assert_eq!(
        ColorRefinement::new(1, false).apply(&g),
        vec![2052906749719055071, 16004871749964916897, 2052906749719055071]
    );
    assert_eq!(
        ColorRefinement::new(2, false).apply(&g),
        vec![6354853487793658659, 2055722601024255330, 6354853487793658659]
    );
}

#[test]
fn colors_follow_a_renaming() {
    let cr = ColorRefinement::new(3, false);
    let new_names = [2usize, 0, 4, 1, 3];
    let edges = vec![(0usize, 1usize), (1, 2), (2, 3), (1, 3), (3, 4)];
    let renamed: Vec<(usize, usize)> =
        edges.iter().map(|&(u, v)| (new_names[u], new_names[v])).collect();
    let a = cr.apply(&graph_of(5, &edges));
    let b = cr.apply(&graph_of(5, &renamed));
    for v in 0..5 {
        assert_eq!(b[new_names[v]], a[v]);
    }
}

#[test]
fn canon_edge_puts_the_smaller_node_first() {
    assert_eq!(canon_edge((3, 5)), (3, 5));
    assert_eq!(canon_edge((5, 3)), (3, 5));
    assert_eq!(canon_edge((4, 4)), (4, 4));
    assert_eq!(canon_edge(canon_edge((9, 2))), (2, 9));
}

#[test]
fn edge_list_swaps() {
    let mut list = EdgeList { n: 4, edges: vec![(0, 1), (1, 2), (2, 3)] };
    assert_eq!(list.len(), 3);
    list.swap(0, 2);
    assert_eq!(list.edges, vec![(2, 3), (1, 2), (0, 1)]);
    list.swap(1, 1);
    assert_eq!(list.edges, vec![(2, 3), (1, 2), (0, 1)]);
}

#[test]
fn prefix_starts_with_all_edges() {
    let p = prefix_of(4, vec![(3, 2), (0, 1)]);
    assert_eq!(p.len(), 2);
    assert_eq!(p.g.edge_indices(), vec![(0, 1), (2, 3)]);
    assert_eq!(p.list.edges, vec![(3, 2), (0, 1)]);
    let full = EdgePrefixingChain::new().full(p);
    assert_eq!(full, EdgeList { n: 4, edges: vec![(3, 2), (0, 1)] });
}

#[test]
fn pop_slice_takes_the_last_active_edge() {
    let chain = EdgePrefixingChain::new();
    let mut p = prefix_of(4, vec![(1, 0), (2, 1), (3, 2)]);
    p.swap(0, 2);
    assert_eq!(chain.pop_slice(&mut p), (0, 1));
    assert_eq!(p.len_active, 2);
    assert_eq!(p.g.edge_indices(), vec![(1, 2), (2, 3)]);
    assert_eq!(chain.pop_slice(&mut p), (1, 2));
    assert_eq!(chain.pop_slice(&mut p), (2, 3));
    assert_eq!(p.len(), 0);
    assert_eq!(p.g.edge_indices(), vec![]);
}

#[test]
fn push_slice_undoes_pop_slice() {
    let chain = EdgePrefixingChain::new();
    let start = prefix_of(4, vec![(0, 1), (1, 2), (2, 3)]);
    let mut p = start.clone();
    let e = chain.pop_slice(&mut p);
    chain.push_slice(&mut p, &e);
    assert_eq!(p, start);
}

#[test]
fn pop_slice_undoes_push_slice() {
    let chain = EdgePrefixingChain::new();
    let mut p = prefix_of(4, vec![(0, 1), (1, 2), (2, 3)]);
    chain.pop_slice(&mut p);
    let g = p.g.clone();
    chain.push_slice(&mut p, &(3, 0));
    assert_eq!(p.list.edges[2], (0, 3));
    assert!(p.g.has_edge(&(0, 3)));
    assert_eq!(chain.pop_slice(&mut p), (0, 3));
    assert_eq!(p.g, g);
    assert_eq!(p.len(), 2);
}

#[test]
fn unordered_edge_list_wraps() {
    let list = unordered_edge_list(3, vec![(2, 1)]);
    assert_eq!(list, Unordered(EdgeList { n: 3, edges: vec![(2, 1)] }));
}

#[test]
fn edge_signature_orders_each_pair() {
    let colors = [40usize, 10, 30];
    let deg = [1usize, 2, 3];
    assert_eq!(edge_sig(&colors, &deg, (0, 1)), (10, 40, 1, 2));
    assert_eq!(edge_sig(&colors, &deg, (1, 0)), (10, 40, 1, 2));
    assert_eq!(edge_sig(&colors, &deg, (0, 2)), (30, 40, 1, 3));
}

#[test]
fn hash_exact_values() {
    assert_eq!(hash_sig((0, 0, 0, 0)), 10693132273228161898);
    assert_eq!(hash_sig((1, 2, 3, 4)), 6767008965099489326);
    assert_eq!(hash_sig((5, 5, 1, 1)), 8661711687356474796);
    assert_eq!(hash_sig((usize::MAX, usize::MAX, 7, 9)), 4559409568752476297);
}

#[test]
fn edge_orbits_of_a_path() {
    let codecs = EdgeOrbitCodecs { cr: ColorRefinement::new(2, false) };
    let image = codecs.apply(&prefix_of(4, vec![(0, 1), (2, 1), (3, 2)]));
    let ranks: Vec<usize> = (0..3).map(|i| image.rank(i)).collect();
    assert_eq!(ranks, vec![1, 0, 1]);
}

#[test]
fn edge_orbits_tell_degrees_apart_without_colors() {
    let codecs = EdgeOrbitCodecs { cr: ColorRefinement::new(0, false) };
    let image = codecs.apply(&prefix_of(4, vec![(0, 1), (1, 2), (2, 3)]));
    assert_eq!(image.rank(0), image.rank(2));
    assert_ne!(image.rank(0), image.rank(1));
}

#[test]
fn symmetric_edges_share_an_orbit() {
    let codecs = EdgeOrbitCodecs { cr: ColorRefinement::new(3, false) };
    let cycle = vec![(0, 1), (1, 2), (2, 3), (3, 4), (4, 0)];
    let image = codecs.apply(&prefix_of(5, cycle));
    for i in 0..5 {
        assert_eq!(image.rank(i), 0);
    }
}

#[test]
fn edge_orbits_follow_a_renaming() {
    let codecs = EdgeOrbitCodecs { cr: ColorRefinement::new(2, false) };
    let new_names = [2usize, 0, 4, 1, 3];
    let edges = vec![(0usize, 1usize), (1, 2), (2, 3), (1, 3), (3, 4)];
    let renamed: Vec<(usize, usize)> =
        edges.iter().map(|&(u, v)| (new_names[u], new_names[v])).collect();
    let image = codecs.apply(&prefix_of(5, edges));
    assert_eq!(image, codecs.apply(&prefix_of(5, renamed)));
    assert_ne!(image.rank(0), image.rank(1));
}

#[test]
fn orbit_codec_follows_swaps_and_slices() {
    let chain = EdgePrefixingChain::new();
    let codecs = EdgeOrbitCodecs { cr: ColorRefinement::new(2, false) };
    let mut p = prefix_of(5, vec![(0, 1), (1, 2), (2, 3), (1, 4)]);
    let mut image = codecs.apply(&p);
    p.swap(0, 3);
    codecs.swap(&mut image, 0, 3);
    assert_eq!(image, codecs.apply(&p));
    let e = chain.pop_slice(&mut p);
    codecs.update_after_pop_slice(&mut image, &p, &e);
    assert_eq!(image, codecs.apply(&p));
    assert_eq!(image.num_elements(), 3);
    chain.push_slice(&mut p, &e);
    codecs.update_after_push_slice(&mut image, &p, &e);
    assert_eq!(image, codecs.apply(&p));
    assert_eq!(image.num_elements(), 4);
}

#[test]
fn orbit_codec_depends_on_active_edges_only() {
    let chain = EdgePrefixingChain::new();
    let codecs = EdgeOrbitCodecs { cr: ColorRefinement::new(2, false) };
    let mut p = prefix_of(5, vec![(0, 1), (2, 1), (3, 2), (1, 4)]);
    chain.pop_slice(&mut p);
    let image = codecs.apply(&p);
    assert_eq!(image, codecs.apply(&prefix_of(5, vec![(1, 0), (1, 2), (2, 3)])));
    assert_eq!(image, image.clone());
    assert_ne!(image, codecs.apply(&prefix_of(5, vec![(1, 2), (0, 1), (2, 3)])));
}

#[test]
fn edge_list_codec_remembers_how_it_was_made() {
    let a = type2_edge_orbit_codec(3, vec![(0, 1)], 2, UniformCandidateP::new(1));
    assert_eq!(a.clone(), a);
    let b = type2_edge_orbit_codec(3, vec![(0, 1)], 1, UniformCandidateP::new(1));
    assert_ne!(a, b);
    let c = type2_edge_orbit_codec(3, vec![], 2, UniformCandidateP::new(1));
    assert_ne!(a, c);
}
