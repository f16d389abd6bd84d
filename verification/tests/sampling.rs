use aldr::builder::{build, build_with_depth};
use aldr::extractor::FlipState;
use aldr::sampler::Sampler;
use aldr::source::{BitSource, StdRngSource, XorShift64};
use aldr::walk::sample_attempt;

/// Sampling with rejection restart: retry the walk until it lands on an
/// outcome leaf.
fn sample<B: BitSource>(s: &Sampler, src: &mut B, st: &mut FlipState) -> u32 {
    loop {
        if let Some(i) = sample_attempt(s, src, st) {
            return i;
        }
    }
}

fn bits_consumed(st: &FlipState) -> u64 {
    st.rng_calls() * 64 - st.bits_left()
}

#[test]
fn single_outcome_zero_bits() {
    let s = build(&vec![4u32]).unwrap();
    let mut src = XorShift64::new(42);
    let mut st = FlipState::new();
    for _ in 0..1000 {
        assert_eq!(sample(&s, &mut src, &mut st), 0);
    }
    // The one leaf sits at depth 0: no bit was ever drawn.
    assert_eq!(st.rng_calls(), 0);
}

#[test]
fn single_outcome_any_weight_returns_zero() {
    let s = build(&vec![3u32]).unwrap();
    let mut src = XorShift64::new(7);
    let mut st = FlipState::new();
    for _ in 0..1000 {
        assert_eq!(sample(&s, &mut src, &mut st), 0);
    }
}

#[test]
fn zero_weight_outcomes_never_drawn() {
    let s = build(&vec![5, 0, 3, 0, 1]).unwrap();
    let mut src = StdRngSource::from_seed(11);
    let mut st = FlipState::new();
    for _ in 0..10_000 {
        let i = sample(&s, &mut src, &mut st);
        assert!(i == 0 || i == 2 || i == 4);
    }
}

#[test]
fn power_of_two_mass_never_restarts() {
    let s = build(&vec![1u32, 1, 2]).unwrap();
    let mut src = StdRngSource::from_seed(3);
    let mut st = FlipState::new();
    for _ in 0..50_000 {
        assert!(sample_attempt(&s, &mut src, &mut st).is_some());
    }
}

#[test]
fn scenario_frequencies_1_1_2() {
    let s = build(&vec![1u32, 1, 2]).unwrap();
    let mut src = StdRngSource::from_seed(12345);
    let mut st = FlipState::new();
    let draws = 200_000u32;
    let mut counts = [0u32; 3];
    for _ in 0..draws {
        counts[sample(&s, &mut src, &mut st) as usize] += 1;
    }
    let f0 = counts[0] as f64 / draws as f64;
    let f1 = counts[1] as f64 / draws as f64;
    let f2 = counts[2] as f64 / draws as f64;
    assert!((f0 - 0.25).abs() < 0.01, "f0 = {}", f0);
    assert!((f1 - 0.25).abs() < 0.01, "f1 = {}", f1);
    assert!((f2 - 0.50).abs() < 0.01, "f2 = {}", f2);
}

fn chi_squared(weights: &[u32], draws: u32, seed: u64) -> f64 {
    let s = build(&weights.to_vec()).unwrap();
    let mut src = StdRngSource::from_seed(seed);
    let mut st = FlipState::new();
    let mut counts = vec![0u64; weights.len()];
    for _ in 0..draws {
        counts[sample(&s, &mut src, &mut st) as usize] += 1;
    }
    let mass: u64 = weights.iter().map(|&w| w as u64).sum();
    let mut chi2 = 0.0f64;
    for (i, &w) in weights.iter().enumerate() {
        if w == 0 {
            assert_eq!(counts[i], 0);
            continue;
        }
        let expected = draws as f64 * (w as f64) / (mass as f64);
        let d = counts[i] as f64 - expected;
        chi2 += d * d / expected;
    }
    chi2
}

#[test]
fn exactness_uniform_and_skewed() {
    // 99.9% chi-squared quantiles: 1 dof: 10.8, 7 dof: 24.3.
    let chi2 = chi_squared(&[5, 5], 100_000, 99);
    assert!(chi2 < 10.8, "uniform n=2 chi2 = {}", chi2);
    let chi2 = chi_squared(&[3, 3, 3, 3, 3, 3, 3, 3], 100_000, 100);
    assert!(chi2 < 24.3, "uniform n=8 chi2 = {}", chi2);
    let chi2 = chi_squared(&[1000, 1, 2, 3, 1, 1, 5, 1], 200_000, 101);
    assert!(chi2 < 24.3, "skewed n=8 chi2 = {}", chi2);
}

#[test]
fn determinism_with_seeded_source() {
    let s = build(&vec![2u32, 5, 1, 8]).unwrap();
    let run = |seed: u64| {
        let mut src = StdRngSource::from_seed(seed);
        let mut st = FlipState::new();
        let outcomes: Vec<u32> = (0..5000).map(|_| sample(&s, &mut src, &mut st)).collect();
        (outcomes, st.rng_calls())
    };
    let (o1, c1) = run(77);
    let (o2, c2) = run(77);
    assert_eq!(o1, o2);
    assert_eq!(c1, c2);
    let (o3, _) = run(78);
    assert_ne!(o1, o3);
}

#[test]
fn determinism_with_xorshift() {
    let s = build(&vec![1u32, 2, 3, 4, 5]).unwrap();
    let mut a = XorShift64::new(5);
    let mut b = XorShift64::new(5);
    let mut sta = FlipState::new();
    let mut stb = FlipState::new();
    for _ in 0..2000 {
        assert_eq!(sample(&s, &mut a, &mut sta), sample(&s, &mut b, &mut stb));
    }
    assert_eq!(sta.rng_calls(), stb.rng_calls());
}

fn shannon_entropy(weights: &[u32]) -> f64 {
    let mass: u64 = weights.iter().map(|&w| w as u64).sum();
    let mut h = 0.0f64;
    for &w in weights {
        if w > 0 {
            let p = w as f64 / mass as f64;
            h -= p * p.log2();
        }
    }
    h
}

fn avg_bits_per_sample(weights: &[u32], depth: u64, draws: u32, seed: u64) -> f64 {
    let s = build_with_depth(&weights.to_vec(), depth).unwrap();
    let mut src = StdRngSource::from_seed(seed);
    let mut st = FlipState::new();
    for _ in 0..draws {
        sample(&s, &mut src, &mut st);
    }
    (bits_consumed(&st) as f64) / (draws as f64)
}

#[test]
fn bit_consumption_near_entropy() {
    // Entropy-optimal sampling stays within a small additive constant of the
    // Shannon entropy; the buffered extractor reports whole drawn words, so
    // allow one word of slack on top.
    let draws = 50_000u32;
    for weights in [vec![1u32, 1, 1], vec![1, 2, 3, 4], vec![10, 1, 1]] {
        let h = shannon_entropy(&weights);
        let mass: u64 = weights.iter().map(|&w| w as u64).sum();
        let k = 64 - (mass as u64).leading_zeros() as u64;
        let bits = avg_bits_per_sample(&weights, 2 * k, draws, 7);
        assert!(bits < h + 3.0, "weights {:?}: {} bits vs entropy {}", weights, bits, h);
    }
}

#[test]
fn deeper_trees_reject_less() {
    // Mass 5: at depth 3 the reject probability is 3/8 and every walk costs 3
    // bits (expected 4.4 bits per sample); at depth 6 the reject probability
    // drops to 1/16 (expected 3.6 bits per sample).
    let weights = [1u32, 1, 1, 1, 1];
    let shallow = avg_bits_per_sample(&weights, 3, 100_000, 21);
    let deep = avg_bits_per_sample(&weights, 6, 100_000, 21);
    assert!(deep < shallow, "deep {} vs shallow {}", deep, shallow);
    assert!((shallow - 4.4).abs() < 0.1, "shallow = {}", shallow);
    assert!((deep - 3.6).abs() < 0.1, "deep = {}", deep);
}

#[test]
fn extractor_counts_words() {
    let mut src = XorShift64::new(9);
    let mut st = FlipState::new();
    assert_eq!(st.rng_calls(), 0);
    for _ in 0..64 {
        let b = aldr::extractor::flip(&mut src, &mut st);
        assert!(b == 0 || b == 1);
    }
    assert_eq!(st.rng_calls(), 1);
    aldr::extractor::flip(&mut src, &mut st);
    assert_eq!(st.rng_calls(), 2);
}

#[test]
fn nonzero_reject_mass_restarts_sometimes() {
    // Mass 3 leaves one sixteenth of the amplified space to the reject leaf,
    // so some walks end in a restart while most land on an outcome.
    let s = build(&vec![1u32, 1, 1]).unwrap();
    let mut src = StdRngSource::from_seed(17);
    let mut st = FlipState::new();
    let mut rejects = 0u32;
    let mut accepts = 0u32;
    for _ in 0..10_000 {
        match sample_attempt(&s, &mut src, &mut st) {
            Some(i) => {
                assert!(i < 3);
                accepts += 1;
            },
            None => rejects += 1,
        }
    }
    assert!(accepts > 8000);
    assert!(rejects > 100);
}
