use edge_orbit::codec::{Codec, LogUniform, Uniform};
use edge_orbit::message::Message;
use edge_orbit::prefix_orbit::FixPrefixOrbitCodec;

fn message(low: u64) -> Message {
    Message::from_limbs(vec![low])
}

#[test]
fn empty_message_has_no_limbs() {
    assert_eq!(Message::new().limbs(), Vec::<u64>::new());
    assert_eq!(Message::from_limbs(vec![0, 0]).limbs(), Vec::<u64>::new());
    assert_eq!(Message::from_limbs(vec![7, 0, 3, 0]).limbs(), vec![7, 0, 3]);
}

#[test]
fn multiply_carries_into_new_limbs() {
    let mut m = message(u64::MAX);
    m.multiply(u64::MAX, u64::MAX);
    assert_eq!(m.limbs(), vec![0, u64::MAX]);
    m.multiply(0, 5);
    assert_eq!(m.limbs(), vec![5]);
    m.multiply(0, 0);
    assert_eq!(m, Message::new());
}

#[test]
fn divide_undoes_multiply() {
    let mut m = Message::from_limbs(vec![12, 34, 56]);
    m.multiply(1_000_003, 999_999);
    assert_eq!(m.divide(1_000_003), 999_999);
    assert_eq!(m.limbs(), vec![12, 34, 56]);
}

#[test]
fn divide_by_one_limb() {
    let mut m = Message::from_limbs(vec![0, 1]);
    assert_eq!(m.divide(10), 6);
    assert_eq!(m.limbs(), vec![1_844_674_407_370_955_161]);
    let mut z = Message::new();
    assert_eq!(z.divide(u64::MAX), 0);
    assert_eq!(z, Message::new());
}

#[test]
fn uniform_exact_values() {
    let mut m = message(10);
    Uniform::new(7).push(&mut m, &3);
    assert_eq!(m.limbs(), vec![73]);
    assert_eq!(Uniform::new(7).pop(&mut m), 3);
    assert_eq!(m.limbs(), vec![10]);
}

#[test]
fn uniform_pop_then_push_restores() {
    for size in 1..9usize {
        for start in 0..40u64 {
            let mut m = message(start);
            let x = Uniform::new(size).pop(&mut m);
            assert!(x < size);
            Uniform::new(size).push(&mut m, &x);
            assert_eq!(m, message(start));
        }
    }
}

#[test]
fn bit_length_counts_binary_digits() {
    assert_eq!(LogUniform::bit_length(0), 0);
    assert_eq!(LogUniform::bit_length(1), 1);
    assert_eq!(LogUniform::bit_length(2), 2);
    assert_eq!(LogUniform::bit_length(255), 8);
    assert_eq!(LogUniform::bit_length(256), 9);
    assert_eq!(LogUniform::bit_length(usize::MAX), usize::BITS as usize);
}

#[test]
fn log_uniform_exact_values() {
    for (x, expected) in [(0usize, 650u64), (1, 651), (2, 1302), (5, 2668)] {
        let mut m = message(10);
        LogUniform::max().push(&mut m, &x);
        assert_eq!(m.limbs(), vec![expected]);
    }
}

#[test]
fn log_uniform_push_then_pop_gives_back() {
    for x in [0usize, 1, 2, 3, 4, 5, 1000, usize::MAX - 1, usize::MAX] {
        let mut m = Message::from_limbs(vec![3, 1, 4]);
        LogUniform::max().push(&mut m, &x);
        assert_eq!(LogUniform::max().pop(&mut m), x);
        assert_eq!(m.limbs(), vec![3, 1, 4]);
    }
}

#[test]
fn log_uniform_pop_then_push_restores() {
    for start in 0..3000u64 {
        let mut m = message(start);
        let x = LogUniform::max().pop(&mut m);
        LogUniform::max().push(&mut m, &x);
        assert_eq!(m, message(start));
    }
}

#[test]
fn orbit_numbers_follow_the_order_of_ids() {
    let c = FixPrefixOrbitCodec::new(vec![50, 20, 50, 90, 20, 50], 6);
    assert_eq!(c.num_elements(), 6);
    let ranks: Vec<usize> = (0..6).map(|i| c.rank(i)).collect();
    assert_eq!(ranks, vec![1, 0, 1, 2, 0, 1]);
    assert_eq!(c.representative(0), 1);
    assert_eq!(c.representative(1), 0);
    assert_eq!(c.representative(2), 3);
}

#[test]
fn orbit_exact_values() {
    let c = FixPrefixOrbitCodec::new(vec![50, 20, 50, 90, 20, 50], 6);
    let mut m = message(100);
    c.push(&mut m, &1);
    assert_eq!(m.limbs(), vec![201]);
    assert_eq!(c.pop(&mut m), 1);
    assert_eq!(m.limbs(), vec![100]);
    c.push(&mut m, &2);
    assert_eq!(m.limbs(), vec![605]);
}

#[test]
fn orbit_comes_off_as_often_as_it_has_elements() {
    let c = FixPrefixOrbitCodec::new(vec![50, 20, 50, 90, 20, 50], 6);
    let mut counts = [0; 3];
    for start in 0..60u64 {
        let mut m = message(start);
        let k = c.pop(&mut m);
        counts[k] += 1;
        c.push(&mut m, &k);
        assert_eq!(m, message(start));
    }
    assert_eq!(counts, [20, 30, 10]);
}

#[test]
fn orbit_codec_counts_the_first_elements_only() {
    let c = FixPrefixOrbitCodec::new(vec![7, 7, 1], 2);
    assert_eq!(c.rank(2), 0);
    for start in 0..6u64 {
        let mut m = message(start);
        assert_eq!(c.pop(&mut m), 1);
        assert_eq!(m, message(start));
    }
}

#[test]
fn orbit_codec_swap_moves_ids() {
    let mut c = FixPrefixOrbitCodec::new(vec![3, 5, 3], 3);
    c.swap(0, 1);
    let ranks: Vec<usize> = (0..3).map(|i| c.rank(i)).collect();
    assert_eq!(ranks, vec![1, 0, 0]);
    assert_eq!(c, FixPrefixOrbitCodec::new(vec![5, 3, 3], 3));
}

#[test]
fn orbit_codecs_are_equal_by_orbits_and_count() {
    let c = FixPrefixOrbitCodec::new(vec![7, 7, 1], 2);
    assert_eq!(c, FixPrefixOrbitCodec::new(vec![90, 90, 4], 2));
    assert_ne!(c, FixPrefixOrbitCodec::new(vec![7, 7, 1], 3));
    assert_ne!(c, FixPrefixOrbitCodec::new(vec![7, 1, 7], 2));
    assert_eq!(FixPrefixOrbitCodec::new(vec![], 0), FixPrefixOrbitCodec::new(vec![], 0));
}
