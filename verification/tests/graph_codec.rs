use edge_orbit::codec::{Codec, LogUniform};
use edge_orbit::edge_orbit::{type2_edge_orbit_codec, Type2EdgeOrbitGraphCodec};
use edge_orbit::edge_prefix::{graph_of, unordered_edge_list};
use edge_orbit::message::Message;
use edge_orbit::permutable::Unordered;
use edge_orbit::removal_model::UniformCandidateP;

fn message(low: u64) -> Message {
    Message::from_limbs(vec![low])
}

fn all_edges(n: usize) -> Vec<(usize, usize)> {
    let mut edges = Vec::new();
    for u in 0..n {
        for v in u + 1..n {
            edges.push((u, v));
        }
    }
    edges
}

fn some_edges(n: usize, choice: usize) -> Vec<(usize, usize)> {
    let all = all_edges(n);
    (0..all.len()).filter(|i| choice >> i & 1 == 1).map(|i| all[i]).collect()
}

#[test]
fn edge_list_exact_values() {
    let c = type2_edge_orbit_codec(3, vec![(0, 1), (1, 2)], 2, UniformCandidateP::new(2));
    let mut m = message(12345);
    c.push(&mut m, &unordered_edge_list(3, vec![(0, 1), (1, 2)]));
    assert_eq!(m, message(1251817127));
    let Unordered(list) = c.pop(&mut m);
    assert_eq!(m, message(12345));
    assert_eq!(list.n, 3);
    assert_eq!(list.edges, vec![(1, 2), (0, 1)]);
}

#[test]
fn edge_list_of_four_nodes_exact_values() {
    let edges = vec![(0, 1), (0, 2), (2, 3)];
    let c = type2_edge_orbit_codec(4, edges.clone(), 2, UniformCandidateP::new(2));
    let mut m = message(987654321);
    c.push(&mut m, &unordered_edge_list(4, edges));
    assert_eq!(m, message(1335308642178423));
    let Unordered(list) = c.pop(&mut m);
    assert_eq!(m, message(987654321));
    assert_eq!(list.edges, vec![(2, 3), (0, 1), (0, 2)]);
}

#[test]
fn any_list_codec_pops_any_list() {
    let c = type2_edge_orbit_codec(3, vec![(0, 1)], 2, UniformCandidateP::new(2));
    let mut m = message(4);
    c.push(&mut m, &unordered_edge_list(3, vec![(2, 0)]));
    let other = type2_edge_orbit_codec(0, vec![], 2, UniformCandidateP::new(2));
    let Unordered(list) = other.pop(&mut m);
    assert_eq!(m, message(4));
    assert_eq!(list.n, 3);
    assert_eq!(list.edges, vec![(0, 2)]);
}

#[test]
fn graphs_of_up_to_four_nodes_come_back() {
    let c = Type2EdgeOrbitGraphCodec { convs: 2, model: UniformCandidateP::new(2) };
    for n in 0..5usize {
        for choice in 0..1usize << all_edges(n).len() {
            let g = Unordered(graph_of(n, &some_edges(n, choice)));
            for start in [0u64, 1, 2, 1000, u64::MAX] {
                let mut m = message(start);
                c.push(&mut m, &g);
                assert_eq!(c.pop(&mut m), g);
                assert_eq!(m, message(start));
            }
        }
    }
}

#[test]
fn graphs_of_one_edge_come_back() {
    let c = Type2EdgeOrbitGraphCodec { convs: 3, model: UniformCandidateP::new(1) };
    for e in all_edges(6) {
        let g = Unordered(graph_of(6, &vec![e]));
        for start in [0u64, 3, 1 << 40] {
            let mut m = message(start);
            c.push(&mut m, &g);
            assert_eq!(c.pop(&mut m), g);
            assert_eq!(m, message(start));
        }
    }
}

#[test]
fn long_message_comes_back() {
    let c = Type2EdgeOrbitGraphCodec { convs: 2, model: UniformCandidateP::new(2) };
    let g = Unordered(graph_of(3, &vec![(0, 1), (0, 2), (1, 2)]));
    let start = Message::from_limbs(vec![5, 0, u64::MAX, 1]);
    let mut m = start.clone();
    c.push(&mut m, &g);
    assert_ne!(m, start);
    assert_eq!(c.pop(&mut m), g);
    assert_eq!(m, start);
}

#[test]
fn path_of_two_edges_comes_back() {
    let c = Type2EdgeOrbitGraphCodec { convs: 2, model: UniformCandidateP::new(2) };
    let mut m = message(0);
    c.push(&mut m, &Unordered(graph_of(4, &vec![(0, 1), (1, 2)])));
    assert_eq!(m, message(304723));
    let Unordered(g) = c.pop(&mut m);
    assert_eq!(m, message(0));
    assert_eq!(g.edge_indices(), vec![(0, 1), (1, 2)]);
}

#[test]
fn list_with_a_repeated_edge_does_not_come_back() {
    let edges = vec![(0, 1), (0, 1)];
    let c = type2_edge_orbit_codec(3, edges.clone(), 2, UniformCandidateP::new(2));
    let mut m = message(7);
    c.push(&mut m, &unordered_edge_list(3, edges));
    assert_eq!(m, message(1065027));
    let Unordered(list) = c.pop(&mut m);
    assert_eq!(m, message(10));
    assert_eq!(list.edges, vec![(0, 1), (1, 2)]);
}

#[test]
fn popped_graphs_are_simple() {
    let c = Type2EdgeOrbitGraphCodec { convs: 1, model: UniformCandidateP::new(1) };
    let list_codec = type2_edge_orbit_codec(4, vec![], 1, UniformCandidateP::new(1));
    for body in 0..50u64 {
        let mut m = message(body);
        // The numbers of edges and nodes of a list of three edges between four nodes.
        LogUniform::max().push(&mut m, &3);
        LogUniform::max().push(&mut m, &4);
        let mut again = m.clone();
        let Unordered(g) = c.pop(&mut m);
        assert_eq!(g.len(), 4);
        assert_eq!(g.edge_indices().len(), 3);
        let Unordered(list) = list_codec.pop(&mut again);
        assert_eq!(list.edges.len(), 3);
        for (u, v) in list.edges {
            assert!(u < v && v < 4);
        }
    }
}
