use bbst::bitvector_rank::rank_1::Rank1;
use bbst::bitvector_rank::rank_256_64::Rank25664;
use bbst::bitvector_rank::rank_256_64_interlaced::Rank25664Interlaced;
use bbst::bitvector_rank::rank_512_64_interlaced::Rank51264Interlaced;
use bbst::bitvector_rank::rank_64_interlaced::Rank64Interlaced;
use bbst::bitvector_rank::test_utils::{count_prefix, test_rank_implementation};
use rand::{rngs::StdRng, Rng, SeedableRng};

#[test]
fn test_rank1() {
    assert!(test_rank_implementation::<Rank1>());
}

#[test]
fn rank_256_64_test_rank25664() {
    assert!(test_rank_implementation::<Rank25664>());
}

#[test]
fn test_rank25664_interlaced() {
    assert!(test_rank_implementation::<Rank64Interlaced>());
}

#[test]
fn rank_256_64_interlaced_test_rank25664() {
    let mut rng = StdRng::seed_from_u64(42);
    for tid in 1..=100 {
        let mut n = rng.random_range(0..=3000);
        if rng.random_ratio(1, 2) {
            n = n / 64 * 64;
        }
        println!("Testcase #{tid}: n = {n}");
        let a: Vec<_> = std::iter::repeat_with(|| rng.random_ratio(1, 2))
            .take(n)
            .collect();
        let bvec = Rank25664Interlaced::from_iter(a.clone());
        for qid in 1..=200 {
            let index = rng.random_range(0..=n);
            println!("Query #{tid}.{qid}: rank({index})");
            let expected = a.iter().take(index).filter(|&&b| b).count();
            let result = bvec.rank(index);
            assert_eq!(result, expected);
        }
    }
}

#[test]
fn rank_512_64_interlaced_test_rank25664() {
    let mut rng = StdRng::seed_from_u64(42);
    for tid in 1..=100 {
        let mut n = rng.random_range(0..=3000);
        if rng.random_ratio(1, 2) {
            n = n / 64 * 64;
        }
        println!("Testcase #{tid}: n = {n}");
        let a: Vec<_> = std::iter::repeat_with(|| rng.random_ratio(1, 2))
            .take(n)
            .collect();
        let bvec = Rank51264Interlaced::from_iter(a.clone());
        for qid in 1..=200 {
            let index = rng.random_range(0..=n);
            println!("Query #{tid}.{qid}: rank({index})");
            let expected = a.iter().take(index).filter(|&&b| b).count();
            let result = bvec.rank(index);
            assert_eq!(result, expected);
        }
    }
}

fn sample_bits(n: usize) -> Vec<bool> {
    (0..n).map(|i| (i * i + i / 3) % 5 < 2 || i % 64 == 63).collect()
}

fn naive(bits: &[bool], index: usize) -> usize {
    bits[..index].iter().filter(|&&b| b).count()
}

#[test]
fn rank_of_empty_sequence_is_zero() {
    assert_eq!(Rank1::from_iter(vec![]).rank(0), 0);
    assert_eq!(Rank64Interlaced::from_iter(vec![]).rank(0), 0);
    assert_eq!(Rank25664::from_iter(vec![]).rank(0), 0);
    assert_eq!(Rank25664Interlaced::from_iter(vec![]).rank(0), 0);
    assert_eq!(Rank51264Interlaced::from_iter(vec![]).rank(0), 0);
}

#[test]
fn rank_exact_small_values() {
    let bits = vec![true, false, true, true, false];
    let expected = [0usize, 1, 1, 2, 3, 3];
    let r1 = Rank1::from_iter(bits.clone());
    let r64 = Rank64Interlaced::from_iter(bits.clone());
    let r256 = Rank25664::from_iter(bits.clone());
    let r256i = Rank25664Interlaced::from_iter(bits.clone());
    let r512i = Rank51264Interlaced::from_iter(bits.clone());
    for (index, &e) in expected.iter().enumerate() {
        assert_eq!(r1.rank(index), e);
        assert_eq!(r64.rank(index), e);
        assert_eq!(r256.rank(index), e);
        assert_eq!(r256i.rank(index), e);
        assert_eq!(r512i.rank(index), e);
        assert_eq!(count_prefix(&bits, index), e);
    }
}

#[test]
fn rank_all_ones_across_superblocks() {
    for n in [64usize, 255, 256, 257, 511, 512, 513, 1024, 1600] {
        let bits = vec![true; n];
        let r1 = Rank1::from_iter(bits.clone());
        let r64 = Rank64Interlaced::from_iter(bits.clone());
        let r256 = Rank25664::from_iter(bits.clone());
        let r256i = Rank25664Interlaced::from_iter(bits.clone());
        let r512i = Rank51264Interlaced::from_iter(bits.clone());
        for index in 0..=n {
            assert_eq!(r1.rank(index), index);
            assert_eq!(r64.rank(index), index);
            assert_eq!(r256.rank(index), index);
            assert_eq!(r256i.rank(index), index);
            assert_eq!(r512i.rank(index), index);
        }
    }
}

#[test]
fn rank_matches_naive_count_on_pattern() {
    for n in [1usize, 63, 64, 65, 300, 512, 777, 2048] {
        let bits = sample_bits(n);
        let r1 = Rank1::from_iter(bits.clone());
        let r64 = Rank64Interlaced::from_iter(bits.clone());
        let r256 = Rank25664::from_iter(bits.clone());
        let r256i = Rank25664Interlaced::from_iter(bits.clone());
        let r512i = Rank51264Interlaced::from_iter(bits.clone());
        for index in 0..=n {
            let e = naive(&bits, index);
            assert_eq!(r1.rank(index), e);
            assert_eq!(r64.rank(index), e);
            assert_eq!(r256.rank(index), e);
            assert_eq!(r256i.rank(index), e);
            assert_eq!(r512i.rank(index), e);
        }
    }
}

#[test]
fn rank_self_check_holds_for_packed_indexes() {
    assert!(test_rank_implementation::<Rank25664Interlaced>());
    assert!(test_rank_implementation::<Rank51264Interlaced>());
}
