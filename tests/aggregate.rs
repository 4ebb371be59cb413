use tdigest_agg::aggregate::{
    tdigest_combine, tdigest_count, tdigest_deserialize, tdigest_final, tdigest_max, tdigest_mean,
    tdigest_min, tdigest_quantile, tdigest_quantile_at_value, tdigest_serialize, tdigest_sum,
    tdigest_trans,
};
use tdigest_agg::digest::TDigest;
use tdigest_agg::quantile::QUANTILE_SCALE;
use tdigest_agg::state::{TDigestError, TDigestTransState};

const HALF: u64 = QUANTILE_SCALE / 2;

fn build(capacity: u32, values: &[i64]) -> Option<TDigestTransState> {
    let mut state = None;
    for &v in values {
        state = tdigest_trans(state, capacity, Some(v)).unwrap();
    }
    state
}

fn finish(capacity: u32, values: &[i64]) -> TDigest {
    tdigest_final(build(capacity, values)).unwrap()
}

fn within_pct(value: f64, expected: f64, pct: f64) -> bool {
    (value - expected).abs() <= pct * expected.abs()
}

fn q_of(fraction: f64) -> u64 {
    (fraction * QUANTILE_SCALE as f64) as u64
}

fn frac_of(q: u64) -> f64 {
    q as f64 / QUANTILE_SCALE as f64
}

// observations 0.01, 0.02, ..., 100.00 kept in hundredths
fn stream() -> Vec<i64> {
    (1..=10000).collect()
}

// the same observations kept in ten-thousandths, where the mean 50.005 is whole
fn fine_stream() -> Vec<i64> {
    (1..=10000).map(|i| i * 100).collect()
}

#[test]
fn test_aggregate() {
    let d = finish(100, &fine_stream());
    let unit = 10000.0;
    assert!((tdigest_min(&d) as f64 / unit - 0.01).abs() < 0.000001);
    assert!((tdigest_max(&d) as f64 / unit - 100.0).abs() < 0.000001);
    assert!((tdigest_count(&d) as f64 - 10000.0).abs() < 0.000001);
    assert!((tdigest_mean(&d) as f64 / unit - 50.005).abs() < 0.0001);
    assert!((tdigest_sum(&d) as f64 / unit - 500050.0).abs() < 0.0001);
    for i in 0..=100u64 {
        let value = i as f64;
        let quantile = value / 100.0;
        let est_val = tdigest_quantile(&d, q_of(quantile)) as f64 / unit;
        let est_quant = frac_of(tdigest_quantile_at_value(&d, (value * unit) as i64));
        if i == 0 {
            assert!(within_pct(est_val, 0.01, 1.0));
            assert!((est_quant - quantile).abs() < 0.0001);
        } else {
            assert!(within_pct(est_val, value, 1.0), "{} {}", est_val, value);
            assert!(within_pct(est_quant, quantile, 1.0), "{} {}", est_quant, quantile);
        }
    }
}

#[test]
fn hundredths_stream_figures() {
    let d = finish(100, &stream());
    assert_eq!(tdigest_count(&d), 10000);
    assert_eq!(tdigest_sum(&d), 50005000);
    assert!((tdigest_sum(&d) as f64 / tdigest_count(&d) as f64 - 5000.5).abs() < 1e-9);
}

#[test]
fn even_stream_median_within_one_percent() {
    let d = finish(100, &stream());
    let median = tdigest_quantile(&d, HALF) as f64;
    assert!(within_pct(median, 5000.0, 0.01), "{}", median);
    let at = frac_of(tdigest_quantile_at_value(&d, 5000));
    assert!(within_pct(at, 0.5, 0.01), "{}", at);
    assert!(d.centroids.len() <= 100);
}

#[test]
fn merged_halves_match_single_pass() {
    let all = stream();
    let single = finish(100, &all);
    let a = build(100, &all[..5000]);
    let b = build(100, &all[5000..]);
    let merged = tdigest_final(tdigest_combine(a, b)).unwrap();
    assert_eq!(tdigest_count(&merged), tdigest_count(&single));
    assert_eq!(tdigest_sum(&merged), tdigest_sum(&single));
    assert_eq!(tdigest_min(&merged), tdigest_min(&single));
    assert_eq!(tdigest_max(&merged), tdigest_max(&single));
    let m1 = tdigest_quantile(&merged, HALF) as f64;
    let m2 = tdigest_quantile(&single, HALF) as f64;
    assert!(within_pct(m1, m2, 0.01), "{} {}", m1, m2);
    assert!(merged.centroids.len() <= 100);
}

#[test]
fn permuted_stream_gives_same_figures() {
    let forward = stream();
    let mut backward = forward.clone();
    backward.reverse();
    let mut shuffled = Vec::new();
    for i in 0..100i64 {
        for j in 0..100i64 {
            shuffled.push(j * 100 + i + 1);
        }
    }
    let f = finish(100, &forward);
    for other in [backward, shuffled] {
        let g = finish(100, &other);
        assert_eq!(tdigest_count(&f), tdigest_count(&g));
        assert_eq!(tdigest_sum(&f), tdigest_sum(&g));
        assert_eq!(tdigest_min(&f), tdigest_min(&g));
        assert_eq!(tdigest_max(&f), tdigest_max(&g));
        let a = tdigest_quantile(&f, HALF) as f64;
        let b = tdigest_quantile(&g, HALF) as f64;
        assert!(within_pct(a, b, 0.01), "{} {}", a, b);
    }
}

#[test]
fn three_way_merges_agree() {
    let all = stream();
    let part = |lo: usize, hi: usize| build(50, &all[lo..hi]);
    let ab_c = tdigest_combine(tdigest_combine(part(0, 3000), part(3000, 7000)), part(7000, 10000));
    let a_bc = tdigest_combine(part(0, 3000), tdigest_combine(part(3000, 7000), part(7000, 10000)));
    let ac_b = tdigest_combine(tdigest_combine(part(0, 3000), part(7000, 10000)), part(3000, 7000));
    let ds: Vec<TDigest> = [ab_c, a_bc, ac_b].into_iter().map(|s| tdigest_final(s).unwrap()).collect();
    for d in &ds[1..] {
        assert_eq!(tdigest_count(d), tdigest_count(&ds[0]));
        assert_eq!(tdigest_sum(d), tdigest_sum(&ds[0]));
        assert_eq!(tdigest_min(d), tdigest_min(&ds[0]));
        assert_eq!(tdigest_max(d), tdigest_max(&ds[0]));
        let a = tdigest_quantile(d, HALF) as f64;
        let b = tdigest_quantile(&ds[0], HALF) as f64;
        assert!(within_pct(a, b, 0.02), "{} {}", a, b);
        assert!(d.centroids.len() <= 50);
    }
}

#[test]
fn combine_with_empty_is_identity() {
    let a = build(10, &[3, 1, 2]);
    let left = tdigest_combine(None, a.clone()).unwrap();
    let right = tdigest_combine(a.clone(), None).unwrap();
    let a = a.unwrap();
    assert_eq!(left.buffer, a.buffer);
    assert_eq!(right.buffer, a.buffer);
    assert_eq!(left.digested.centroids, a.digested.centroids);
    assert!(tdigest_combine(None, None).is_none());
}

#[test]
fn serialize_round_trip() {
    let state = build(100, &stream()[..1234]).unwrap();
    let bytes = tdigest_serialize(state.clone());
    let back = tdigest_deserialize(&bytes).unwrap();
    let flushed = tdigest_final(Some(state)).unwrap();
    assert!(back.buffer.is_empty());
    assert_eq!(back.digested.count, flushed.count);
    assert_eq!(back.digested.sum, flushed.sum);
    assert_eq!(back.digested.min, flushed.min);
    assert_eq!(back.digested.max, flushed.max);
    assert_eq!(back.digested.max_size, flushed.max_size);
    assert_eq!(back.digested.centroids, flushed.centroids);
    assert_eq!(tdigest_serialize(back), bytes);
}

#[test]
fn serialize_exact_layout() {
    let state = build(1, &[-5]).unwrap();
    let bytes = tdigest_serialize(state);
    let mut expected: Vec<u8> = Vec::new();
    expected.extend_from_slice(&56u32.to_le_bytes());
    expected.extend_from_slice(&1u32.to_le_bytes());
    expected.extend_from_slice(&1u32.to_le_bytes());
    expected.extend_from_slice(&(-5i128).to_le_bytes());
    expected.extend_from_slice(&(-5i64).to_le_bytes());
    expected.extend_from_slice(&(-5i64).to_le_bytes());
    expected.extend_from_slice(&(-5i64).to_le_bytes());
    expected.extend_from_slice(&1u32.to_le_bytes());
    assert_eq!(bytes, expected);
}

#[test]
fn deserialize_rejects_bad_bytes() {
    let bytes = tdigest_serialize(build(10, &[1, 2, 3]).unwrap());
    let short = bytes[..bytes.len() - 1].to_vec();
    assert_eq!(tdigest_deserialize(&short).err(), Some(TDigestError::Malformed));
    let mut wrong_len = bytes.clone();
    wrong_len[0] = wrong_len[0].wrapping_add(12);
    assert_eq!(tdigest_deserialize(&wrong_len).err(), Some(TDigestError::Malformed));
    let mut zero_cap = bytes.clone();
    zero_cap[4] = 0;
    assert_eq!(tdigest_deserialize(&zero_cap).err(), Some(TDigestError::Malformed));
    let mut bad_count = bytes.clone();
    bad_count[8] = 9;
    assert_eq!(tdigest_deserialize(&bad_count).err(), Some(TDigestError::Malformed));
    assert_eq!(tdigest_deserialize(&Vec::new()).err(), Some(TDigestError::Malformed));
}

#[test]
fn zero_capacity_is_rejected() {
    assert_eq!(tdigest_trans(None, 0, Some(1)).err(), Some(TDigestError::InvalidCapacity));
    assert!(TDigestTransState::new(0).is_err());
    assert!(TDigestTransState::new(1).is_ok());
}

#[test]
fn missing_value_keeps_state() {
    assert!(tdigest_trans(None, 10, None).unwrap().is_none());
    let s = build(10, &[4]);
    let t = tdigest_trans(s.clone(), 10, None).unwrap().unwrap();
    assert_eq!(t.buffer, s.unwrap().buffer);
}

#[test]
fn quantile_is_monotone() {
    let values: Vec<i64> = (0..5000).map(|i| (i * i) % 7919 - 3000).collect();
    let d = finish(40, &values);
    let mut prev = i64::MIN;
    for k in 0..=1000u64 {
        let v = tdigest_quantile(&d, QUANTILE_SCALE / 1000 * k);
        assert!(v >= prev);
        prev = v;
    }
}

#[test]
fn boundaries_are_exact() {
    let d = finish(20, &[7, -3, 12, 5, 5, 9]);
    assert_eq!(tdigest_quantile(&d, 0), -3);
    assert_eq!(tdigest_quantile(&d, QUANTILE_SCALE), 12);
    assert_eq!(tdigest_quantile_at_value(&d, -3), 0);
    assert_eq!(tdigest_quantile_at_value(&d, 12), QUANTILE_SCALE);
    assert_eq!(tdigest_quantile_at_value(&d, -100), 0);
    assert_eq!(tdigest_quantile_at_value(&d, 100), QUANTILE_SCALE);
}

#[test]
fn interpolation_exact_values() {
    // one centroid per value: knots at positions 0 (min), 1, 3, 5 (max),
    // in half-observations, with values 0, 0, 10, 10
    let d = finish(10, &[0, 10]);
    assert_eq!(d.centroids.len(), 2);
    assert_eq!(tdigest_quantile(&d, HALF), 5);
    assert_eq!(tdigest_quantile(&d, QUANTILE_SCALE / 4), 0);
    assert_eq!(tdigest_quantile_at_value(&d, 5), HALF);
}

#[test]
fn repeated_value() {
    let d = finish(5, &[42; 100]);
    assert_eq!(tdigest_min(&d), 42);
    assert_eq!(tdigest_max(&d), 42);
    assert_eq!(tdigest_quantile(&d, HALF), 42);
    assert_eq!(tdigest_mean(&d), 42);
    assert_eq!(d.centroids.len(), 1);
    assert_eq!(d.centroids[0].weight, 100);
    assert_eq!(d.centroids[0].mean, 42);
}

#[test]
fn few_points_stay_exact() {
    let d = finish(10, &[5, -1, 3, 3, 8]);
    let means: Vec<i64> = d.centroids.iter().map(|c| c.mean).collect();
    let weights: Vec<u32> = d.centroids.iter().map(|c| c.weight).collect();
    assert_eq!(means, vec![-1, 3, 3, 5, 8]);
    assert_eq!(weights, vec![1, 1, 1, 1, 1]);
}

#[test]
fn merge_unsorted_absorbs_batch() {
    let d = TDigest::new_with_size(4).merge_unsorted(vec![9, 1, 5, 7, 3, 2]);
    assert_eq!(d.count, 6);
    assert_eq!(d.sum, 27);
    assert_eq!(d.min, 1);
    assert_eq!(d.max, 9);
    assert!(d.centroids.len() <= 4);
    assert!(d.is_wf());
    assert_eq!(d.centroids.iter().map(|c| c.weight as u64).sum::<u64>(), 6);
    for w in d.centroids.windows(2) {
        assert!(w[0].mean <= w[1].mean);
    }
}

#[test]
fn mean_rounds_down_and_empty_is_zero() {
    let d = finish(10, &[-1, -2]);
    assert_eq!(tdigest_sum(&d), -3);
    assert_eq!(tdigest_mean(&d), -2);
    assert_eq!(tdigest_mean(&TDigest::new_with_size(4)), 0);
    assert_eq!(tdigest_mean(&finish(10, &[i64::MAX, i64::MAX])), i64::MAX);
    assert_eq!(tdigest_mean(&finish(10, &[i64::MIN, i64::MIN])), i64::MIN);
}

#[test]
fn push_flushes_at_capacity() {
    let mut s = TDigestTransState::new(3).unwrap();
    s.push(1);
    s.push(2);
    assert_eq!(s.buffer.len(), 2);
    s.push(3);
    assert!(s.buffer.is_empty());
    assert_eq!(s.digested.count, 3);
    assert!(s.digested.centroids.len() <= 3);
    s.digest();
    assert_eq!(s.digested.count, 3);
}

#[test]
fn capacity_bound_holds() {
    for cap in [1u32, 2, 3, 10, 64] {
        let values: Vec<i64> = (0..3000).map(|i| (i * 37) % 1001).collect();
        let a = build(cap, &values);
        let b = build(cap, &values[..700]);
        let m = tdigest_combine(a, b).unwrap();
        assert!(m.digested.centroids.len() <= cap as usize);
        assert_eq!(m.digested.count, 3700);
    }
}

#[test]
fn push_all_matches_pushes() {
    let values: Vec<i64> = (0..500).map(|i| (i * 7919) % 1009 - 400).collect();
    let mut reversed = values.clone();
    reversed.reverse();
    let mut a = TDigestTransState::new(16).unwrap();
    a.push_all(&values);
    let mut b = TDigestTransState::new(16).unwrap();
    b.push_all(&reversed);
    let mut c = TDigestTransState::new(16).unwrap();
    for &v in &values {
        c.push(v);
    }
    let fa = tdigest_final(Some(a)).unwrap();
    let fb = tdigest_final(Some(b)).unwrap();
    let fc = tdigest_final(Some(c)).unwrap();
    for d in [&fb, &fc] {
        assert_eq!(d.count, fa.count);
        assert_eq!(d.sum, fa.sum);
        assert_eq!(d.min, fa.min);
        assert_eq!(d.max, fa.max);
    }
    assert_eq!(fa.centroids, fc.centroids);
    assert_eq!(fa.count, 500);
    assert_eq!(fa.sum, values.iter().sum::<i64>() as i128);
    assert_eq!(fa.min, *values.iter().min().unwrap());
    assert_eq!(fa.max, *values.iter().max().unwrap());
}

#[test]
fn first_value_waits_in_buffer() {
    let s = tdigest_trans(None, 10, Some(7)).unwrap().unwrap();
    assert_eq!(s.buffer, vec![7]);
    assert_eq!(s.digested.count, 0);
    let t = tdigest_trans(Some(s.clone()), 10, Some(3)).unwrap().unwrap();
    assert_eq!(t.buffer, vec![7, 3]);
    assert_eq!(t.digested.centroids, s.digested.centroids);
    let one = tdigest_trans(None, 1, Some(7)).unwrap().unwrap();
    assert!(one.buffer.is_empty());
    assert_eq!(one.digested.centroids.len(), 1);
}

#[test]
fn small_merge_keeps_every_centroid() {
    let a = TDigest::new_with_size(8).merge_unsorted(vec![4, 1]);
    let b = TDigest::new_with_size(8).merge_unsorted(vec![3, 9, 2]);
    let m = TDigest::merge_digests(&a, &b);
    let means: Vec<i64> = m.centroids.iter().map(|c| c.mean).collect();
    assert_eq!(means, vec![1, 2, 3, 4, 9]);
    assert!(m.centroids.iter().all(|c| c.weight == 1));
    assert_eq!(m.max_size, 8);
}

#[test]
fn equal_digests_merge_to_one_centroid() {
    let a = TDigest::new_with_size(1).merge_unsorted(vec![6; 10]);
    let b = TDigest::new_with_size(1).merge_unsorted(vec![6; 5]);
    let m = TDigest::merge_digests(&a, &b);
    assert_eq!(m.centroids.len(), 1);
    let a2 = TDigest::new_with_size(2).merge_unsorted(vec![6; 10]);
    let b2 = TDigest::new_with_size(2).merge_unsorted(vec![6; 5]);
    assert_eq!(TDigest::merge_digests(&a2, &b2).centroids.len(), 2);
    assert_eq!(m.centroids[0].weight, 15);
}
