use aldr::builder::{build, build_with_depth, ConstructionError, MAX_TOTAL_MASS};
use aldr::sampler::Sampler;

fn expect_err(r: Result<Sampler, ConstructionError>) -> ConstructionError {
    match r {
        Err(e) => e,
        Ok(_) => panic!("expected a construction error"),
    }
}

#[test]
fn scenario_weights_1_1_2() {
    // total mass 4 (a power of two): k = 2, depth 4, amplification 4, no
    // reject remainder. Amplified weights 4, 4, 8 give one leaf for outcome 2
    // at depth 1 and leaves for outcomes 0 and 1 at depth 2.
    let s = build(&vec![1u32, 1, 2]).unwrap();
    assert_eq!(s.num_levels(), 5);
    assert_eq!(s.num_leaves(), 3);
    let breadths: Vec<u32> = (0..s.num_levels()).map(|j| s.breadth_at(j)).collect();
    assert_eq!(breadths, vec![0, 1, 2, 0, 0]);
    let leaves: Vec<u32> = (0..s.num_leaves()).map(|t| s.leaf_at(t)).collect();
    assert_eq!(leaves, vec![3, 1, 2]);
    assert_eq!(s.footprint_words(), 8);
}

#[test]
fn power_of_two_mass_has_no_reject_leaves() {
    for weights in [vec![4u32], vec![1, 1, 2], vec![2, 2, 2, 2], vec![1, 3, 4, 8]] {
        let s = build(&weights).unwrap();
        for t in 0..s.num_leaves() {
            assert_ne!(s.leaf_at(t), 0, "reject leaf found for {:?}", weights);
        }
    }
}

#[test]
fn single_outcome_power_of_two_leaf_at_root() {
    for w in [1u32, 2, 4, 1024] {
        let s = build(&vec![w]).unwrap();
        assert_eq!(s.breadth_at(0), 1);
        assert_eq!(s.leaf_at(0), 1);
    }
}

#[test]
fn breadths_sum_to_leaf_count() {
    for weights in [vec![1u32], vec![3], vec![1, 1, 2], vec![7, 2, 9, 1, 1], vec![5, 5, 5]] {
        let s = build(&weights).unwrap();
        let total: u64 = (0..s.num_levels()).map(|j| s.breadth_at(j) as u64).sum();
        assert_eq!(total, s.num_leaves() as u64);
        assert_eq!(s.footprint_words(), (s.num_levels() + s.num_leaves()) as u64);
    }
}

#[test]
fn zero_mass_is_rejected() {
    assert_eq!(expect_err(build(&vec![])), ConstructionError::ZeroTotalMass);
    assert_eq!(expect_err(build(&vec![0, 0, 0])), ConstructionError::ZeroTotalMass);
}

#[test]
fn oversized_mass_is_rejected() {
    // Sum exceeds the 31-bit cap of the default depth choice.
    let weights = vec![u32::MAX, u32::MAX];
    assert_eq!(expect_err(build(&weights)), ConstructionError::PrecisionOverflow);
    // Right at the cap it still works.
    let s = build(&vec![MAX_TOTAL_MASS as u32]).unwrap();
    assert_eq!(s.num_levels(), 63);
}

#[test]
fn custom_depth_bounds() {
    // The chosen depth must cover the total mass and fit the word width.
    assert_eq!(
        expect_err(build_with_depth(&vec![1, 1, 2], 1)),
        ConstructionError::PrecisionOverflow
    );
    assert_eq!(
        expect_err(build_with_depth(&vec![1, 1, 2], 64)),
        ConstructionError::PrecisionOverflow
    );
    let s = build_with_depth(&vec![1, 1, 2], 4).unwrap();
    assert_eq!(s.num_levels(), 5);
    // A deeper tree is allowed: mass 3 at depth 8 gives factor 85, remainder 1.
    let s = build_with_depth(&vec![1, 1, 1], 8).unwrap();
    assert_eq!(s.num_levels(), 9);
    assert_eq!(expect_err(build_with_depth(&vec![0, 0], 10)), ConstructionError::ZeroTotalMass);
}

#[test]
fn scenario_weights_1_1_1_with_reject() {
    // total mass 3: k = 2, depth 4, amplification 5 (binary 0101), reject
    // remainder 1 (binary 00001). Each outcome gets leaves at depths 2 and 4;
    // the reject sentinel sits first within depth 4.
    let s = build(&vec![1u32, 1, 1]).unwrap();
    let breadths: Vec<u32> = (0..s.num_levels()).map(|j| s.breadth_at(j)).collect();
    assert_eq!(breadths, vec![0, 0, 3, 0, 4]);
    let leaves: Vec<u32> = (0..s.num_leaves()).map(|t| s.leaf_at(t)).collect();
    assert_eq!(leaves, vec![1, 2, 3, 0, 1, 2, 3]);
}
