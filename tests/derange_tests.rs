use derange::derange::{partition_size, Derange, ErrorKind};
use rand::SeedableRng;
use rand_xoshiro::Xoshiro128StarStar;

fn assert_derangement(m: &[usize]) {
    let mut seen = vec![false; m.len()];
    for (i, &v) in m.iter().enumerate() {
        assert!(v < m.len());
        assert_ne!(v, i);
        assert!(!seen[v]);
        seen[v] = true;
    }
}

#[test]
fn small_test() {
    let mut rng = Xoshiro128StarStar::seed_from_u64(0);
    let derange = Derange::new(&mut rng, 5);
    assert_eq!(derange.map(), [1, 3, 4, 0, 2]);
}

#[test]
fn big_test() {
    let mut rng = Xoshiro128StarStar::seed_from_u64(1);
    let derange = Derange::new(&mut rng, 16);
    assert_eq!(derange.map(), [5, 12, 6, 2, 8, 1, 9, 10, 13, 11, 15, 14, 7, 0, 3, 4]);
}

#[test]
fn get_test() {
    let mut rng = Xoshiro128StarStar::seed_from_u64(2);
    let derange = Derange::new(&mut rng, 5);
    let result = [2, 0, 1, 4, 3];
    assert_eq!(result, derange.map());
    for i in 0..5 {
        assert_eq!(derange.index(i), result[i]);
    }
}

#[test]
fn inverse_test() {
    let mut rng = Xoshiro128StarStar::seed_from_u64(3);
    let derange = Derange::new(&mut rng, 10);
    let inverse = derange.inverse();
    for i in 0..10 {
        assert_eq!(derange.index(inverse.index(i)), i);
        assert_eq!(inverse.index(derange.index(i)), i);
    }
}

#[test]
fn apply_test() {
    let mut rng = Xoshiro128StarStar::seed_from_u64(4);
    let derange = Derange::new(&mut rng, 5);
    let alphab = ['a', 'b', 'c', 'd', 'e'];
    let mut alphac = ['\0', '\0', '\0', '\0', '\0'];
    derange.apply(&alphab[..], &mut alphac[..]).unwrap();
    assert_eq!(alphac, ['c', 'e', 'a', 'b', 'd'])
}

#[test]
fn display_test() {
    let mut rng = Xoshiro128StarStar::seed_from_u64(6);
    let derange = Derange::new(&mut rng, 10);
    assert_eq!(derange.to_string(), String::from("(0 9 5 7)(1 6 3)(2 8 4)"));
}

#[test]
fn try_from_test() {
    let slice = [2, 3, 0, 1];
    let derange = Derange::try_from(&slice[..]).unwrap();
    assert_eq!(derange.map(), slice);

    let slice = [0, 3, 2, 1];
    if let Result::Err(ErrorKind::FixedPoint(0)) = Derange::try_from(&slice[..]) {
    } else {
        panic!("Expected fixed point (at 0) error");
    }

    let slice = [2, 7, 1, 0];
    if let Result::Err(ErrorKind::BadPermutation(7)) = Derange::try_from(&slice[..]) {
    } else {
        panic!("Expected bad permutation (7) error");
    }
}

#[test]
fn generated_maps_are_derangements() {
    for seed in 0..20u64 {
        for size in [2usize, 3, 4, 7, 50, 257] {
            let mut rng = Xoshiro128StarStar::seed_from_u64(seed);
            let derange = Derange::new(&mut rng, size);
            assert_eq!(derange.map().len(), size);
            assert_derangement(derange.map());
        }
    }
}

#[test]
fn generation_repeats_under_same_seed() {
    let mut a = Xoshiro128StarStar::seed_from_u64(42);
    let mut b = Xoshiro128StarStar::seed_from_u64(42);
    assert_eq!(Derange::new(&mut a, 30).map(), Derange::new(&mut b, 30).map());
}

#[test]
fn order_two_is_a_swap() {
    let mut rng = Xoshiro128StarStar::seed_from_u64(9);
    assert_eq!(Derange::new(&mut rng, 2).map(), [1, 0]);
}

#[test]
fn order_zero_is_empty() {
    let mut rng = Xoshiro128StarStar::seed_from_u64(9);
    let derange = Derange::new(&mut rng, 0);
    assert!(derange.map().is_empty());
    assert_eq!(derange.to_string(), String::new());
}

#[test]
fn get_in_and_out_of_range() {
    let derange = Derange::try_from(&[1usize, 2, 0][..]).unwrap();
    assert_eq!(derange.get(0), Some(&1));
    assert_eq!(derange.get(2), Some(&0));
    assert_eq!(derange.get(3), None);
    assert_eq!(derange.get(usize::MAX), None);
}

#[test]
fn inverse_of_three_cycle() {
    let derange = Derange::try_from(&[1usize, 2, 0][..]).unwrap();
    let inverse = derange.inverse();
    assert_eq!(inverse.map(), [2, 0, 1]);
    assert_eq!(inverse.inverse().map(), [1, 2, 0]);
}

#[test]
fn apply_moves_every_item() {
    let derange = Derange::try_from(&[1usize, 2, 0][..]).unwrap();
    let source = [String::from("x"), String::from("y"), String::from("z")];
    let mut dest = vec![String::new(); 3];
    assert_eq!(derange.apply(&source, &mut dest), Ok(()));
    assert_eq!(dest, ["y", "z", "x"]);
    assert_eq!(source, ["x", "y", "z"]);
}

#[test]
fn apply_size_mismatch_leaves_destination() {
    let derange = Derange::try_from(&[1usize, 2, 0][..]).unwrap();
    let mut dest = [7, 8];
    assert_eq!(derange.apply(&[1, 2], &mut dest), Err(ErrorKind::SizeMismatch(2, 2, 3)));
    assert_eq!(dest, [7, 8]);

    let mut dest = [7, 8, 9];
    assert_eq!(derange.apply(&[1, 2], &mut dest), Err(ErrorKind::SizeMismatch(2, 3, 3)));
    assert_eq!(dest, [7, 8, 9]);

    let mut dest = [7, 8, 9, 10];
    assert_eq!(derange.apply(&[1, 2, 3], &mut dest), Err(ErrorKind::SizeMismatch(3, 4, 3)));
    assert_eq!(dest, [7, 8, 9, 10]);
}

#[test]
fn try_from_errors() {
    assert_eq!(Derange::try_from(&[1usize, 1][..]), Err(ErrorKind::BadPermutation(1)));
    assert_eq!(Derange::try_from(&[1usize, 0, 2][..]), Err(ErrorKind::FixedPoint(2)));
    assert_eq!(Derange::try_from(&[0usize][..]), Err(ErrorKind::FixedPoint(0)));
    assert_eq!(Derange::try_from(&[1usize, 0, 3][..]), Err(ErrorKind::BadPermutation(3)));
    assert!(Derange::try_from(&[][..]).unwrap().map().is_empty());
}

#[test]
fn try_from_unsorted_input() {
    let values = [3usize, 0, 1, 2];
    assert_eq!(Derange::try_from(&values[..]).unwrap().map(), values);
}

#[test]
fn cyclic_notation_of_known_maps() {
    let derange = Derange::try_from(&[1usize, 0][..]).unwrap();
    assert_eq!(derange.to_string(), "(0 1)");
    let derange = Derange::try_from(&[2usize, 3, 0, 1][..]).unwrap();
    assert_eq!(derange.to_string(), "(0 2)(1 3)");
    let mut m: Vec<usize> = (0..12).map(|i| i ^ 1).collect();
    m.swap(0, 10);
    let derange = Derange::try_from(&m[..]).unwrap();
    assert_eq!(derange.to_string(), "(0 11 10 1)(2 3)(4 5)(6 7)(8 9)");
}

#[test]
fn cyclic_notation_of_inverse() {
    let mut rng = Xoshiro128StarStar::seed_from_u64(6);
    let derange = Derange::new(&mut rng, 10);
    assert_eq!(derange.inverse().to_string(), "(0 7 5 9)(1 3 6)(2 4 8)");
}

#[test]
fn clone_keeps_mapping() {
    let derange = Derange::try_from(&[1usize, 2, 0][..]).unwrap();
    assert_eq!(derange.clone(), derange);
}

#[test]
fn partition_size_rules() {
    assert_eq!(partition_size(2, 0), 2);
    assert_eq!(partition_size(2, 7), 2);
    assert_eq!(partition_size(3, 2), 3);
    assert_eq!(partition_size(5, 4), 5);
    assert_eq!(partition_size(5, 3), 3);
    assert_eq!(partition_size(5, 2), 2);
    assert_eq!(partition_size(16, 15), 16);
}

#[test]
fn from_cycles_builds_runs() {
    let derange = Derange::from_cycles(&[3, 1, 4, 0, 2], &[2, 3]);
    assert_eq!(derange.map(), [2, 3, 4, 1, 0]);
    assert_eq!(derange.to_string(), "(0 2 4)(1 3)");
    let derange = Derange::from_cycles(&[0, 1, 2, 3], &[4]);
    assert_eq!(derange.map(), [1, 2, 3, 0]);
    let derange = Derange::from_cycles(&[], &[]);
    assert!(derange.map().is_empty());
}
