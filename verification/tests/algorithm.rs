use lseq::algorithm::{divergence_level, same_digit};
use lseq::allocator::{narrow_minus, narrow_plus, DEFAULT_LIMIT};
use lseq::batch::{between, generate, is_zero_extension};
use lseq::gap::{ceiling_digit, find_level, floor_digit, place};
use lseq::path::LEVEL0_END;
use lseq::{Algorithm, Allocator, Strategy};

#[test]
fn boundary_takes_the_next_digit() {
    let mut algorithm = Algorithm::with_strategy(Strategy::Boundary);
    assert_eq!(algorithm.generate_one(&[], &[LEVEL0_END]).digits(), vec![1]);
    assert_eq!(algorithm.generate_one(&[3], &[5]).digits(), vec![4]);
    assert_eq!(algorithm.generate_one(&[3], &[4]).digits(), vec![3, 1]);
    assert_eq!(algorithm.generate_one(&[3, 9], &[4, 2]).digits(), vec![3, 9, 1]);
    assert_eq!(algorithm.generate_one(&[3, 0xffff_ffff], &[4]).digits(), vec![3, 0xffff_ffff, 1]);
    assert_eq!(algorithm.generate_one(&[2, 7], &[2, 7, 0, 4]).digits(), vec![2, 7, 0, 1]);
    assert_eq!(algorithm.generate_one(&[5], &[5, 1]).digits(), vec![5, 0, 1]);
    assert_eq!(algorithm.generate_one(&[1], &[1]).digits(), vec![1, 1]);
    assert_eq!(algorithm.generate_one(&[1, 2, 3, 4], &[1, 2, 3, 9]).digits(), vec![1, 2, 3, 5]);
}

#[test]
fn boundary_minus_stays_by_the_right_neighbour() {
    let mut algorithm = Algorithm::with_strategy(Strategy::BoundaryMinus(1));
    assert_eq!(algorithm.generate_one(&[3], &[50]).digits(), vec![49]);
    assert_eq!(algorithm.generate_one(&[], &[LEVEL0_END]).digits(), vec![LEVEL0_END - 1]);
    let mut algorithm = Algorithm::with_strategy(Strategy::BoundaryMinus(10));
    for _ in 0..50 {
        let digit = algorithm.generate_one(&[3], &[500]).digits()[0];
        assert!((490..500).contains(&digit));
    }
}

#[test]
fn boundary_plus_stays_by_the_left_neighbour() {
    let mut algorithm = Algorithm::with_strategy(Strategy::BoundaryPlus(10));
    for _ in 0..50 {
        let digit = algorithm.generate_one(&[3], &[500]).digits()[0];
        assert!((4..14).contains(&digit));
    }
    for _ in 0..50 {
        let digit = algorithm.generate_one(&[3], &[7]).digits()[0];
        assert!((4..7).contains(&digit));
    }
}

#[test]
fn step_size_is_the_limit_held() {
    assert_eq!(Allocator::new(Strategy::Boundary).step_size(), 1);
    assert_eq!(Allocator::new(Strategy::BoundaryPlus(7)).step_size(), 7);
    assert_eq!(Allocator::new(Strategy::BoundaryMinus(0)).step_size(), 0);
    assert_eq!(Allocator::new(Strategy::BoundaryPlus(0)).step_size(), 0);
    assert_eq!(Allocator::new(Strategy::Boundaries(0)).step_size(), 0);
    assert_eq!(Allocator::new(Strategy::Boundaries(DEFAULT_LIMIT)).step_size(), 1024);
    assert_eq!(Allocator::BoundaryMinus(9).step_size(), 9);
}

#[test]
fn a_limit_of_zero_narrows_to_one_digit() {
    let mut algorithm = Algorithm::with_strategy(Strategy::BoundaryPlus(0));
    assert_eq!(algorithm.generate_one(&[3], &[500]).digits(), vec![4]);
    let mut algorithm = Algorithm::with_strategy(Strategy::BoundaryMinus(0));
    assert_eq!(algorithm.generate_one(&[3], &[500]).digits(), vec![499]);
    let mut rng = fastrand::Rng::with_seed(1);
    let mut zero = Allocator::BoundaryPlus(0);
    assert_eq!(zero.reduce_range(10..20, 0, &mut rng), 10..11);
    assert_eq!(zero.step_size(), 0);
}

#[test]
fn narrowing_leaves_plus_and_minus_as_they_were() {
    let mut rng = fastrand::Rng::with_seed(3);
    for limit in [0u32, 1, 2, 1024] {
        let mut plus = Allocator::BoundaryPlus(limit);
        plus.reduce_range(5..50, 2, &mut rng);
        assert!(matches!(plus, Allocator::BoundaryPlus(held) if held == limit));
        let mut minus = Allocator::BoundaryMinus(limit);
        minus.reduce_range(5..50, 2, &mut rng);
        assert!(matches!(minus, Allocator::BoundaryMinus(held) if held == limit));
    }
    let mut either = Allocator::new(Strategy::Boundaries(8));
    either.reduce_range(5..50, 2, &mut rng);
    either.reduce_range(5..50, 4, &mut rng);
    match either {
        Allocator::Boundaries { limit, choices } => {
            assert_eq!(limit, 8);
            assert_eq!(choices.keys().copied().collect::<Vec<u32>>(), vec![2, 4]);
        }
        _ => panic!("the strategy changed"),
    }
}

#[test]
fn boundaries_keeps_its_choice_per_level() {
    for seed in 0..20 {
        let mut algorithm = Algorithm::with_seed(seed);
        let first = algorithm.generate_one(&[0], &[1_000_000]).digits()[0];
        let by_left = first < 1025;
        assert!(by_left || first >= 1_000_000 - 1024);
        for _ in 0..20 {
            let digit = algorithm.generate_one(&[0], &[1_000_000]).digits()[0];
            assert_eq!(digit < 1025, by_left);
            assert!(digit >= 1 && digit < 1_000_000);
        }
    }
}

#[test]
fn generate_is_ascending() {
    let mut algorithm = Algorithm::default();
    let left = [7u32, 7];
    let right = [7u32, 9];
    let paths: Vec<Vec<u32>> =
        algorithm.generate(&left, &right, 300).iter().map(|path| path.digits()).collect();
    assert_eq!(paths.len(), 300);
    assert!(&left[..] < &paths[0][..]);
    for pair in paths.windows(2) {
        assert!(pair[0] < pair[1]);
    }
    for path in paths.iter() {
        assert!(&path[..] < &right[..]);
        assert_ne!(*path.last().unwrap(), 0);
    }
}

#[test]
fn generate_with_boundary() {
    let mut algorithm = Algorithm::with_strategy(Strategy::Boundary);
    let paths: Vec<Vec<u32>> =
        algorithm.generate(&[], &[3], 4).iter().map(|path| path.digits()).collect();
    assert_eq!(paths, vec![vec![1], vec![2], vec![2, 1], vec![2, 2]]);
    assert!(algorithm.generate(&[1], &[2], 0).is_empty());
}

#[test]
fn between_finds_room() {
    for _ in 0..20 {
        let path = between(&[3], &[9]).unwrap().digits();
        assert_eq!(path.len(), 1);
        assert!(3 < path[0] && path[0] < 9);
        let path = between(&[3], &[4]).unwrap().digits();
        assert_eq!(path.len(), 2);
        assert_eq!(path[0], 3);
        assert!(path[1] >= 1 && path[1] < 0xffff_ffff);
        let path = between(&[3], &[3, 0, 2]).unwrap().digits();
        assert_eq!(path, vec![3, 0, 1]);
        let path = between(&[], &[LEVEL0_END]).unwrap().digits();
        assert!(path[0] >= 1 && path[0] < LEVEL0_END);
    }
}

#[test]
fn between_without_room() {
    assert!(between(&[4], &[3]).is_none());
    assert!(between(&[4], &[4]).is_none());
    assert!(between(&[3, 1], &[3]).is_none());
    assert!(between(&[5], &[5, 0]).is_none());
    assert!(between(&[5], &[5, 0, 0]).is_none());
    assert!(between(&[], &[0]).is_none());
    assert!(between(&[], &[]).is_none());
}

#[test]
fn zero_extensions() {
    assert!(is_zero_extension(&[5], &[5, 0]));
    assert!(is_zero_extension(&[], &[0, 0]));
    assert!(!is_zero_extension(&[5], &[5]));
    assert!(!is_zero_extension(&[5], &[5, 0, 1]));
    assert!(!is_zero_extension(&[5], &[6, 0]));
    assert!(!is_zero_extension(&[5, 0], &[5]));
}

#[test]
fn batch_deals_out_equal_shares() {
    let paths: Vec<Vec<u32>> =
        generate(4, &[10], &[51]).iter().map(|path| path.digits()).collect();
    assert_eq!(paths.len(), 4);
    for (i, path) in paths.iter().enumerate() {
        assert_eq!(path.len(), 1);
        let low = 11 + 10 * i as u32;
        assert!(low <= path[0] && path[0] < low + 10);
    }
    let paths: Vec<Vec<u32>> = generate(3, &[10], &[14]).iter().map(|path| path.digits()).collect();
    assert_eq!(paths, vec![vec![11], vec![12], vec![13]]);
    let paths: Vec<Vec<u32>> = generate(3, &[10], &[13]).iter().map(|path| path.digits()).collect();
    assert_eq!(paths.len(), 3);
    for path in paths.iter() {
        assert_eq!(path.len(), 2);
        assert_eq!(path[0], 10);
    }
    assert!(paths[0] < paths[1] && paths[1] < paths[2]);
    assert!(generate(0, &[1], &[9]).is_empty());
    assert!(generate(2, &[9], &[1]).is_empty());
    assert!(generate(2, &[4], &[4]).is_empty());
    assert!(generate(2, &[4], &[4, 0]).is_empty());
    assert!(generate(LEVEL0_END, &[], &[LEVEL0_END]).is_empty());
}

#[test]
fn levels() {
    assert_eq!(find_level(&[3], &[5], 1, 0), 0);
    assert_eq!(find_level(&[3], &[4], 1, 0), 1);
    assert_eq!(find_level(&[3], &[5], 2, 0), 1);
    assert_eq!(find_level(&[3, 0xffff_fffe], &[4], 1, 0), 2);
    assert_eq!(find_level(&[1, 2], &[1, 2], 1, 2), 2);
    assert_eq!(floor_digit(&[7, 8], 1), 8);
    assert_eq!(floor_digit(&[7, 8], 2), 0);
    assert_eq!(ceiling_digit(&[7, 8], 0), 7);
    assert_eq!(ceiling_digit(&[], 0), LEVEL0_END);
    assert_eq!(ceiling_digit(&[7], 1), 0xffff_ffff);
    assert_eq!(place(&[7, 8, 9], 1, 4).digits(), vec![7, 4]);
    assert_eq!(place(&[7], 3, 4).digits(), vec![7, 0, 0, 4]);
    assert_eq!(place(&[], 0, 4).len(), 1);
}

#[test]
fn divergence_levels() {
    assert_eq!(divergence_level(&[1, 2, 3], &[1, 2, 4]), 2);
    assert_eq!(divergence_level(&[1, 2], &[1, 2, 4]), 2);
    assert_eq!(divergence_level(&[1, 2, 3], &[1]), 1);
    assert_eq!(divergence_level(&[1, 2], &[1, 2]), 2);
    assert_eq!(divergence_level(&[], &[9]), 0);
    assert_eq!(divergence_level(&[8], &[9]), 0);
    assert!(same_digit(4, 4));
    assert!(!same_digit(4, 5));
}

#[test]
fn narrowing() {
    assert_eq!(narrow_plus(10..20, 3), 10..13);
    assert_eq!(narrow_plus(10..20, 30), 10..20);
    assert_eq!(narrow_plus(0xffff_fff0..0xffff_ffff, 1024), 0xffff_fff0..0xffff_ffff);
    assert_eq!(narrow_minus(10..20, 3), 17..20);
    assert_eq!(narrow_minus(10..20, 30), 10..20);
    assert_eq!(narrow_minus(0..5, 1024), 0..5);
    let mut rng = fastrand::Rng::with_seed(7);
    let mut plus = Allocator::new(Strategy::BoundaryPlus(4));
    assert_eq!(plus.reduce_range(10..20, 0, &mut rng), 10..14);
    let mut minus = Allocator::new(Strategy::BoundaryMinus(4));
    assert_eq!(minus.reduce_range(10..20, 0, &mut rng), 16..20);
    let mut either = Allocator::new(Strategy::Boundaries(4));
    let first = either.reduce_range(10..20, 3, &mut rng);
    assert!(first == (10..14) || first == (16..20));
    for _ in 0..10 {
        assert_eq!(either.reduce_range(10..20, 3, &mut rng), first);
    }
}

#[test]
fn seeded_generators_repeat() {
    for seed in [0u64, 1, 42, u64::MAX] {
        let mut one = Algorithm::with_seed(seed);
        let mut two = Algorithm::with_seed(seed);
        let a: Vec<Vec<u32>> =
            one.generate(&[7], &[9, 1], 200).iter().map(|path| path.digits()).collect();
        let b: Vec<Vec<u32>> =
            two.generate(&[7], &[9, 1], 200).iter().map(|path| path.digits()).collect();
        assert_eq!(a, b);
        assert_eq!(
            one.generate_one(&[1], &[1, 0, 5]).digits(),
            two.generate_one(&[1], &[1, 0, 5]).digits()
        );
    }
    let mut one = Algorithm::with_seed(1);
    let mut two = Algorithm::with_seed(2);
    let a: Vec<Vec<u32>> = one.generate(&[], &[LEVEL0_END], 50).iter().map(|p| p.digits()).collect();
    let b: Vec<Vec<u32>> = two.generate(&[], &[LEVEL0_END], 50).iter().map(|p| p.digits()).collect();
    assert_ne!(a, b);
}
