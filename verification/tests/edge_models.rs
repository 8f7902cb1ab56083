use edge_orbit::candidates::UniformCandidatePEdgeCodec;
use edge_orbit::codec::{Codec, Uniform};
use edge_orbit::color_refinement::ColorRefinement;
use edge_orbit::edge_prefix::{EdgeList, EdgePrefix, EdgePrefixingChain};
use edge_orbit::message::Message;
use edge_orbit::prefix_orbit::FixPrefixOrbitCodec;
use edge_orbit::removal_model::{EdgeRemovalModel, UniformCandidateP};
use edge_orbit::slice_codecs::{EdgeSliceCodecs, EmptyPrefixNm};

fn message(low: u64) -> Message {
    Message::from_limbs(vec![low])
}

fn prefix_of(n: usize, edges: Vec<(usize, usize)>) -> EdgePrefix {
    EdgePrefixingChain::new().prefix(EdgeList { n, edges })
}

fn codec_of(n: usize, edges: Vec<(usize, usize)>) -> UniformCandidatePEdgeCodec {
    UniformCandidatePEdgeCodec::build(&prefix_of(n, edges), &ColorRefinement::new(2, false))
}

#[test]
fn candidate_exact_values() {
    let c = codec_of(4, vec![(0, 1), (1, 2)]);
    let cases = [
        ((0usize, 2usize), 17u64, 68u64),
        ((0, 3), 0, 2),
        ((0, 3), 17, 70),
        ((1, 3), 17, 69),
        ((2, 3), 2, 11),
    ];
    for (e, before, after) in cases {
        let mut m = message(before);
        c.push(&mut m, &e);
        assert_eq!(m, message(after));
    }
}

#[test]
fn candidate_may_name_either_node_first() {
    let c = codec_of(4, vec![(0, 1), (1, 2)]);
    let mut a = message(17);
    c.push(&mut a, &(3, 0));
    assert_eq!(a, message(70));
}

#[test]
fn every_candidate_comes_back() {
    let graphs = [vec![], vec![(0, 1)], vec![(0, 1), (1, 2)], vec![(0, 1), (2, 3)]];
    for edges in graphs {
        let c = codec_of(4, edges.clone());
        for e in [(0usize, 1usize), (0, 2), (0, 3), (1, 2), (1, 3), (2, 3)] {
            if edges.contains(&e) {
                continue;
            }
            for start in 0..200u64 {
                let mut m = message(start);
                c.push(&mut m, &e);
                assert_eq!(c.pop(&mut m), e);
                assert_eq!(m, message(start));
            }
        }
    }
}

#[test]
fn candidate_of_a_larger_orbit_comes_back_off_the_empty_message() {
    let c = codec_of(4, vec![(0, 1), (1, 2)]);
    let mut m = message(0);
    c.push(&mut m, &(0, 3));
    assert_eq!(m, message(2));
    assert_eq!(c.pop(&mut m), (0, 3));
    assert_eq!(m, message(0));
}

#[test]
fn popped_candidate_goes_back() {
    let c = codec_of(4, vec![(0, 1), (1, 2)]);
    for start in 0..100u64 {
        let mut m = message(start);
        let e = c.pop(&mut m);
        c.push(&mut m, &e);
        assert_eq!(m, message(start));
    }
}

#[test]
fn candidate_is_found_whichever_node_is_named_first() {
    let c = codec_of(4, vec![(0, 1), (1, 2)]);
    for (j, (u, v)) in [(0usize, 2usize), (0, 3), (1, 3), (2, 3)].into_iter().enumerate() {
        assert_eq!(c.locate_candidate((u, v)), j);
        assert_eq!(c.locate_candidate((v, u)), j);
    }
}

#[test]
fn place_is_pushed_before_the_orbit() {
    let c = codec_of(4, vec![(0, 1), (1, 2)]);
    let orbit = FixPrefixOrbitCodec::new(vec![0, 2, 1, 2], 4);
    for start in 0..100u64 {
        let mut m = message(start);
        c.push(&mut m, &(2, 3));
        assert_eq!(orbit.pop(&mut m), 2);
        assert_eq!(Uniform::new(2).pop(&mut m), 1);
        assert_eq!(m, message(start));
    }
}

#[test]
fn candidates_are_equally_likely() {
    let c = codec_of(4, vec![(0, 1)]);
    let mut seen: Vec<(usize, usize)> = Vec::new();
    for start in 0..5u64 {
        let mut m = message(start);
        let e = c.pop(&mut m);
        assert!(!seen.contains(&e));
        seen.push(e);
        let mut again = message(start + 5 * 12);
        assert_eq!(c.pop(&mut again), e);
    }
    seen.sort();
    assert_eq!(seen, vec![(0, 2), (0, 3), (1, 2), (1, 3), (2, 3)]);
}

#[test]
fn candidates_among_the_nodes_of_the_list() {
    let mut p = prefix_of(5, vec![(0, 1)]);
    p.list.n = 3;
    let c = UniformCandidatePEdgeCodec::build(&p, &ColorRefinement::new(2, false));
    let mut seen: Vec<(usize, usize)> = (0..2u64).map(|s| c.pop(&mut message(s))).collect();
    seen.sort();
    assert_eq!(seen, vec![(0, 2), (1, 2)]);
}

#[test]
fn one_node_has_no_candidates() {
    let mut p = prefix_of(0, vec![]);
    p.list.n = 1;
    let c = UniformCandidatePEdgeCodec::build(&p, &ColorRefinement::new(2, false));
    let text = format!("{:?}", c);
    assert!(text.contains("candidates: []"));
    assert!(text.contains("members_by_orbit: [[]]"));
}

#[test]
fn copied_candidate_codec_codes_the_same() {
    let c = codec_of(4, vec![(0, 1), (1, 2)]);
    let copy = c.clone();
    for start in 0..40u64 {
        let (mut a, mut b) = (message(start), message(start));
        let e = c.pop(&mut a);
        assert_eq!(copy.pop(&mut b), e);
        assert_eq!(a, b);
        c.push(&mut a, &(3, 0));
        copy.push(&mut b, &(3, 0));
        assert_eq!(a, b);
    }
}

#[test]
fn model_builds_the_candidate_codec() {
    let model = UniformCandidateP::new(2);
    assert_eq!(model.cr, ColorRefinement::new(2, false));
    let c = model.codec_for_removed_edge(&prefix_of(4, vec![(0, 1), (1, 2)]));
    let mut m = message(17);
    c.push(&mut m, &(0, 3));
    assert_eq!(m, message(70));
}

#[test]
fn slice_codecs_make_the_model_s_codec() {
    let slices = EdgeSliceCodecs {
        chain: EdgePrefixingChain::new(),
        model: UniformCandidateP::new(2),
        m: 6,
    };
    assert_eq!(slices.len(), 6);
    assert_eq!(slices.prefixing_chain(), EdgePrefixingChain::new());
    assert_eq!(slices.empty_prefix(), EmptyPrefixNm);
    let chain = slices.prefixing_chain();
    let mut p = prefix_of(4, vec![(0, 1), (1, 2), (2, 3)]);
    let mut image = slices.apply(&p);
    let e = chain.pop_slice(&mut p);
    slices.update_after_pop_slice(&mut image, &p, &e);
    slices.swap(&mut image, 0, 1);
    let mut m = message(17);
    image.push(&mut m, &(0, 3));
    assert_eq!(m, message(70));
    chain.push_slice(&mut p, &e);
    slices.update_after_push_slice(&mut image, &p, &e);
    let mut seen: Vec<(usize, usize)> = (0..3u64).map(|s| image.pop(&mut message(s))).collect();
    seen.sort();
    assert_eq!(seen, vec![(0, 2), (0, 3), (1, 3)]);
}

#[test]
fn slice_codec_does_not_depend_on_the_order_of_edges() {
    let slices = EdgeSliceCodecs {
        chain: EdgePrefixingChain::new(),
        model: UniformCandidateP::new(2),
        m: 3,
    };
    let mut p = prefix_of(5, vec![(0, 1), (1, 2), (2, 3)]);
    let mut image = slices.apply(&p);
    p.swap(0, 2);
    slices.swap(&mut image, 0, 2);
    let fresh = slices.apply(&p);
    for start in 0..60u64 {
        let (mut a, mut b) = (message(start), message(start));
        let e = image.pop(&mut a);
        assert_eq!(fresh.pop(&mut b), e);
        assert_eq!(a, b);
        assert_eq!(image.locate_candidate(e), fresh.locate_candidate(e));
    }
}

#[test]
fn empty_prefix_exact_values() {
    let mut p = prefix_of(4, vec![(0, 1), (1, 2)]);
    let chain = EdgePrefixingChain::new();
    chain.pop_slice(&mut p);
    chain.pop_slice(&mut p);
    let mut m = message(1);
    EmptyPrefixNm.push(&mut m, &p);
    // Two edges: (1 * 2 + 0) * 65 + 2 = 132. Four nodes: (132 * 4 + 0) * 65 + 3 = 34323.
    assert_eq!(m, message(34323));
}

#[test]
fn empty_prefix_push_then_pop_gives_back() {
    let chain = EdgePrefixingChain::new();
    for edges in [vec![], vec![(0, 1)], vec![(0, 1), (4, 2), (3, 1)]] {
        let total = edges.len();
        let mut p = prefix_of(5, edges);
        while p.len() > 0 {
            chain.pop_slice(&mut p);
        }
        let mut m = message(99);
        EmptyPrefixNm.push(&mut m, &p);
        let q = EmptyPrefixNm.pop(&mut m);
        assert_eq!(m, message(99));
        assert_eq!(q.list.n, 5);
        assert_eq!(q.list.edges, vec![(0, 0); total]);
        assert_eq!(q.len_active, 0);
        assert_eq!(q.g.len(), 5);
        assert_eq!(q.g.edge_indices(), vec![]);
    }
}
