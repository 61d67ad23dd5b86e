use conjecture::{
    bounded_int, good_bitlengths, integer_from_bitlengths, weighted, DataSource, FailedDraw,
    Probability, Repeat, Sampler, SamplerEntry,
};

/// Bits of each `(value, width)` pair, most significant first.
fn bits_of(values: &[(u64, u32)]) -> Vec<bool> {
    let mut bits = Vec::new();
    for &(value, width) in values {
        for k in (0..width).rev() {
            bits.push((value >> k) & 1 == 1);
        }
    }
    bits
}

fn source_of(values: &[(u64, u32)]) -> DataSource {
    DataSource::from_bits(bits_of(values))
}

/// A deterministic pseudo-random bit stream of `n` bits.
fn noise(n: usize, seed: u64) -> DataSource {
    let mut state = seed;
    let mut bits = Vec::with_capacity(n);
    while bits.len() < n {
        state = state
            .wrapping_mul(6364136223846793005)
            .wrapping_add(1442695040888963407);
        let word = state >> 33;
        for k in 0..31 {
            bits.push((word >> k) & 1 == 1);
        }
    }
    bits.truncate(n);
    DataSource::from_bits(bits)
}

#[test]
fn source_reads_most_significant_bit_first() {
    let mut source = DataSource::from_bits(vec![true, false, true, true]);
    assert_eq!(source.bits(3), Ok(5));
    assert_eq!(source.position(), 3);
    assert_eq!(source.bits(2), Err(FailedDraw));
    assert_eq!(source.position(), 3);
    assert_eq!(source.remaining(), 1);
    assert_eq!(source.bits(1), Ok(1));
}

#[test]
fn coin_of_probability_zero_is_false() {
    for probe in [0u64, 1, 1 << 63, u64::MAX] {
        let mut source = source_of(&[(probe, 64)]);
        assert_eq!(weighted(&mut source, Probability::zero()), Ok(false));
        assert_eq!(source.position(), 64);
    }
}

#[test]
fn coin_of_probability_one_is_true_on_nonzero_reads() {
    for probe in [1u64, 2, 1 << 63, u64::MAX] {
        let mut source = source_of(&[(probe, 64)]);
        assert_eq!(weighted(&mut source, Probability::one()), Ok(true));
    }
    let mut source = source_of(&[(0, 64)]);
    assert_eq!(weighted(&mut source, Probability::one()), Ok(false));
}

#[test]
fn coin_of_one_half_splits_at_the_top_bit() {
    let half = Probability::from_ratio(1, 2);
    assert_eq!(half.threshold, 1 << 63);
    let mut source = source_of(&[(1 << 63, 64), ((1 << 63) - 1, 64)]);
    assert_eq!(weighted(&mut source, half), Ok(true));
    assert_eq!(weighted(&mut source, half), Ok(false));
}

#[test]
fn ratio_thresholds_saturate_and_floor() {
    assert_eq!(Probability::from_ratio(1, 1).threshold, u64::MAX);
    assert_eq!(Probability::from_ratio(0, 7).threshold, 0);
    assert_eq!(Probability::from_ratio(1, 3).threshold, 6148914691236517205);
    assert_eq!(Probability::from_threshold(12).threshold, 12);
}

#[test]
fn coin_fails_without_64_bits() {
    let mut source = source_of(&[(5, 63)]);
    assert_eq!(weighted(&mut source, Probability::one()), Err(FailedDraw));
    assert_eq!(source.position(), 0);
}

#[test]
fn bounded_zero_reads_nothing() {
    let mut source = DataSource::from_bits(vec![]);
    assert_eq!(bounded_int(&mut source, 0), Ok(0));
    assert_eq!(source.position(), 0);
}

#[test]
fn bounded_rejects_values_above_max() {
    let mut source = source_of(&[(7, 3), (6, 3), (3, 3), (1, 3)]);
    assert_eq!(bounded_int(&mut source, 5), Ok(3));
    assert_eq!(source.position(), 9);
    assert_eq!(bounded_int(&mut source, 5), Ok(1));
}

#[test]
fn bounded_reads_the_fewest_bits() {
    let mut source = source_of(&[(1, 1)]);
    assert_eq!(bounded_int(&mut source, 1), Ok(1));
    let mut source = source_of(&[(u64::MAX - 1, 64)]);
    assert_eq!(bounded_int(&mut source, u64::MAX), Ok(u64::MAX - 1));
    assert_eq!(source.position(), 64);
}

#[test]
fn bounded_fails_when_rejections_exhaust_the_source() {
    let mut source = source_of(&[(7, 3), (6, 3)]);
    assert_eq!(bounded_int(&mut source, 5), Err(FailedDraw));
    assert_eq!(source.position(), 6);
}

#[test]
fn bounded_frequencies_are_close_to_uniform() {
    let mut source = noise(400_000, 17);
    let mut counts = [0u32; 5];
    for _ in 0..40_000 {
        let v = bounded_int(&mut source, 4).unwrap();
        assert!(v <= 4);
        counts[v as usize] += 1;
    }
    for c in counts {
        assert!(c > 7_200 && c < 8_800, "{:?}", counts);
    }
}

#[test]
fn repeat_with_equal_bounds_runs_exactly_that_many_times() {
    for expected in [0u64, 1, 5, 1000] {
        let p = Probability::from_ratio(expected, expected + 1);
        let mut repeat = Repeat::new(3, 3, p);
        let mut source = noise(200_000, expected + 3);
        let mut decisions = Vec::new();
        for _ in 0..5 {
            match repeat.should_continue(&mut source) {
                Ok(d) => decisions.push(d),
                Err(_) => break,
            }
        }
        if expected > 0 {
            assert_eq!(decisions, vec![true, true, true, false, false]);
            assert_eq!(repeat.count(), 3);
        } else {
            assert!(decisions.is_empty());
        }
    }
}

#[test]
fn repeat_forced_true_draws_until_true() {
    let half = Probability::from_ratio(1, 2);
    let mut repeat = Repeat::new(1, 4, half);
    let mut source = source_of(&[(0, 64), (5, 64), (u64::MAX, 64)]);
    assert_eq!(repeat.should_continue(&mut source), Ok(true));
    assert_eq!(source.position(), 192);
    assert_eq!(repeat.count(), 1);
}

#[test]
fn repeat_forced_false_draws_until_false() {
    let half = Probability::from_ratio(1, 2);
    let mut repeat = Repeat::new(0, 0, half);
    let mut source = source_of(&[(u64::MAX, 64), (0, 64)]);
    assert_eq!(repeat.should_continue(&mut source), Ok(false));
    assert_eq!(source.position(), 128);
    assert_eq!(repeat.count(), 0);
}

#[test]
fn repeat_free_decision_is_one_coin() {
    let half = Probability::from_ratio(1, 2);
    let mut repeat = Repeat::new(0, 10, half);
    let mut source = source_of(&[(u64::MAX, 64), (0, 64)]);
    assert_eq!(repeat.should_continue(&mut source), Ok(true));
    assert_eq!(repeat.count(), 1);
    assert_eq!(repeat.should_continue(&mut source), Ok(false));
    assert_eq!(repeat.count(), 1);
    assert_eq!(source.position(), 128);
}

#[test]
fn repeat_failure_keeps_the_count() {
    let half = Probability::from_ratio(1, 2);
    let mut repeat = Repeat::new(2, 4, half);
    let mut source = source_of(&[(u64::MAX, 64), (0, 64)]);
    assert_eq!(repeat.should_continue(&mut source), Ok(true));
    assert_eq!(repeat.should_continue(&mut source), Err(FailedDraw));
    assert_eq!(repeat.count(), 1);
    assert_eq!(source.position(), 128);
}

#[test]
fn sampler_table_for_two_weights() {
    let sampler = Sampler::new(vec![1, 3]);
    assert_eq!(sampler.len(), 2);
    assert_eq!(sampler.total_weight(), 4);
    assert_eq!(
        sampler.entry(0),
        SamplerEntry { primary: 0, alternate: 1, use_alternate: 2 }
    );
    assert_eq!(
        sampler.entry(1),
        SamplerEntry { primary: 1, alternate: 1, use_alternate: 0 }
    );
}

#[test]
fn sampler_uniform_weights_are_all_certain_rows() {
    let sampler = Sampler::new(vec![1, 1, 1, 1]);
    for i in 0..4 {
        assert_eq!(
            sampler.entry(i),
            SamplerEntry { primary: i, alternate: i, use_alternate: 0 }
        );
    }
}

#[test]
fn sampler_rows_are_sorted_and_swapped() {
    let sampler = Sampler::new(vec![5, 1, 1, 1]);
    let mut previous = (0usize, 0usize);
    for i in 0..sampler.len() {
        let e = sampler.entry(i);
        assert!(e.primary <= e.alternate);
        assert!((e.primary, e.alternate) >= previous);
        previous = (e.primary, e.alternate);
    }
}

fn frequencies(weights: Vec<u64>, draws: usize, seed: u64) -> Vec<f64> {
    let n = weights.len();
    let sampler = Sampler::new(weights);
    let mut source = noise(draws * 80, seed);
    let mut counts = vec![0usize; n];
    for _ in 0..draws {
        counts[sampler.sample(&mut source).unwrap()] += 1;
    }
    counts.iter().map(|&c| c as f64 / draws as f64).collect()
}

#[test]
fn sampler_reproduces_uniform_weights() {
    let f = frequencies(vec![1, 1, 1, 1], 40_000, 5);
    for x in f {
        assert!((x - 0.25).abs() < 0.02, "{}", x);
    }
}

#[test]
fn sampler_reproduces_skewed_weights() {
    let f = frequencies(vec![1, 1, 1, 100], 40_000, 9);
    for i in 0..3 {
        assert!((f[i] - 1.0 / 103.0).abs() < 0.005, "{:?}", f);
    }
    assert!((f[3] - 100.0 / 103.0).abs() < 0.01, "{:?}", f);
}

#[test]
fn single_weight_always_samples_zero() {
    let sampler = Sampler::new(vec![7]);
    let mut source = source_of(&[(u64::MAX, 64), (0, 64)]);
    assert_eq!(sampler.sample(&mut source), Ok(0));
    assert_eq!(source.position(), 64);
    assert_eq!(sampler.sample(&mut source), Ok(0));
    assert_eq!(sampler.sample(&mut source), Err(FailedDraw));
}

#[test]
fn preset_bitlengths_table() {
    let sampler = good_bitlengths();
    assert_eq!(sampler.len(), 63);
    assert_eq!(sampler.total_weight(), 631);
}

#[test]
fn signed_integer_reads_length_magnitude_and_sign() {
    let one = Sampler::new(vec![1]);
    let mut source = source_of(&[(0, 64), (1, 1), (1, 1), (0, 64), (1, 1), (0, 1)]);
    assert_eq!(integer_from_bitlengths(&mut source, &one), Ok(-1));
    assert_eq!(integer_from_bitlengths(&mut source, &one), Ok(1));
    assert_eq!(source.position(), 132);
    assert_eq!(integer_from_bitlengths(&mut source, &one), Err(FailedDraw));
}

#[test]
fn signed_integer_with_preset_never_fails_on_a_long_source() {
    let sampler = good_bitlengths();
    let mut source = noise(3_000_000, 23);
    let mut buckets = [0usize; 8];
    for _ in 0..20_000 {
        let v = integer_from_bitlengths(&mut source, &sampler).unwrap();
        let magnitude = v.unsigned_abs();
        let bits = 64 - magnitude.leading_zeros() as usize;
        buckets[bits.saturating_sub(1) / 8] += 1;
    }
    for b in 0..4 {
        assert!(buckets[b] > buckets[b + 1], "{:?}", buckets);
    }
}

#[test]
fn replaying_the_same_bits_gives_the_same_values() {
    let sampler = good_bitlengths();
    let run = || {
        let mut source = noise(100_000, 31);
        let mut out = Vec::new();
        let mut repeat = Repeat::new(1, 5, Probability::from_ratio(3, 4));
        while repeat.should_continue(&mut source).unwrap() {
            out.push(integer_from_bitlengths(&mut source, &sampler).unwrap());
            out.push(bounded_int(&mut source, 1000).unwrap() as i64);
            out.push(weighted(&mut source, Probability::from_ratio(1, 3)).unwrap() as i64);
        }
        (out, source.position())
    };
    assert_eq!(run(), run());
}

#[test]
fn sampler_rows_give_each_index_its_exact_weight() {
    for weights in [vec![2u64, 5, 1, 4], vec![1, 1, 1, 100], vec![3, 0, 0, 9, 1], vec![7]] {
        let n = weights.len() as u64;
        let sampler = Sampler::new(weights.clone());
        let total = sampler.total_weight();
        assert_eq!(total, weights.iter().sum::<u64>());
        let mut mass = vec![0u64; weights.len()];
        for k in 0..sampler.len() {
            let e = sampler.entry(k);
            assert!(e.primary <= e.alternate && e.use_alternate <= total);
            mass[e.primary] += total - e.use_alternate;
            mass[e.alternate] += e.use_alternate;
        }
        for i in 0..weights.len() {
            assert_eq!(mass[i], n * weights[i]);
        }
    }
}

#[test]
fn repeat_with_zero_bounds_stops_at_once() {
    let mut repeat = Repeat::new(0, 0, Probability::from_ratio(9, 10));
    let mut source = source_of(&[(u64::MAX, 64), (1, 64), (0, 64)]);
    assert_eq!(repeat.should_continue(&mut source), Ok(false));
    assert_eq!(source.position(), 128);
    assert_eq!(repeat.count(), 0);
}

fn rows(sampler: &Sampler) -> Vec<(usize, usize, u64)> {
    (0..sampler.len())
        .map(|k| {
            let e = sampler.entry(k);
            (e.primary, e.alternate, e.use_alternate)
        })
        .collect()
}

#[test]
fn sampler_skewed_table_pairs_each_small_index_with_the_large_one() {
    let sampler = Sampler::new(vec![1, 1, 1, 100]);
    assert_eq!(sampler.total_weight(), 103);
    assert_eq!(rows(&sampler), vec![(0, 3, 99), (1, 3, 99), (2, 3, 99), (3, 3, 0)]);
}

#[test]
fn sampler_swaps_rows_whose_alternate_is_lower() {
    // Scaled weights 9, 0, 3 against a total of 4: row (1, 0, 4) leaves 5 on
    // index 0, row (2, 0, 1) leaves exactly 4, so 0 ends as a certain row; the
    // two pairs are swapped to (0, 1, 0) and (0, 2, 3).
    let sampler = Sampler::new(vec![3, 0, 1]);
    assert_eq!(sampler.total_weight(), 4);
    assert_eq!(rows(&sampler), vec![(0, 0, 0), (0, 1, 0), (0, 2, 3)]);
}

#[test]
fn equal_weights_build_equal_tables() {
    assert_eq!(rows(&good_bitlengths()), rows(&good_bitlengths()));
    assert_eq!(rows(&Sampler::new(vec![2, 5, 1, 4])), rows(&Sampler::new(vec![2, 5, 1, 4])));
}

#[test]
fn uniform_table_returns_the_drawn_row_whatever_the_coin() {
    let sampler = Sampler::new(vec![1, 1, 1, 1]);
    for coin in [0u64, 1, u64::MAX] {
        let mut source = source_of(&[(2, 2), (coin, 64)]);
        assert_eq!(sampler.sample(&mut source), Ok(2));
    }
}
