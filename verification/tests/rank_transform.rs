use histogram_gaussianize::grid::{midpoint, Fraction};
use histogram_gaussianize::rank::{normalized_ranks, rank_channel};
use histogram_gaussianize::sample::{Sample, SortedSamples};

const MU: f64 = 0.5;

fn sigma() -> f64 {
    (1.0_f64 / 36.0_f64).sqrt()
}

fn inv_cdf(u: f64, mu: f64, sigma: f64) -> f64 {
    sigma * 2.0_f64.sqrt() * puruspe::inverf(2.0 * u - 1.0) + mu
}

fn value(u: Fraction) -> f64 {
    u.num as f64 / u.den as f64
}

fn samples_of(sorted: &SortedSamples) -> Vec<Sample> {
    (0..sorted.len()).map(|k| sorted.sample(k)).collect()
}

#[test]
fn sorted_quad_has_identity_rank_map() {
    let channel = vec![10u8, 20, 30, 40];
    let (sorted, ranks) = rank_channel(&channel);
    assert_eq!(ranks, vec![0, 1, 2, 3]);
    assert_eq!(
        samples_of(&sorted),
        vec![
            Sample { index: 0, intensity: 10 },
            Sample { index: 1, intensity: 20 },
            Sample { index: 2, intensity: 30 },
            Sample { index: 3, intensity: 40 },
        ]
    );
}

#[test]
fn sorted_quad_has_midpoint_normalized_ranks() {
    let channel = vec![10u8, 20, 30, 40];
    let (_, ranks) = rank_channel(&channel);
    let points = normalized_ranks(&ranks);
    let values: Vec<f64> = points.iter().map(|u| value(*u)).collect();
    assert_eq!(values, vec![0.125, 0.375, 0.625, 0.875]);
}

#[test]
fn sorted_quad_forward_values() {
    let channel = vec![10u8, 20, 30, 40];
    let (_, ranks) = rank_channel(&channel);
    let forward: Vec<f64> = normalized_ranks(&ranks)
        .iter()
        .map(|u| inv_cdf(value(*u), MU, sigma()))
        .collect();
    let expected = [0.3085, 0.4469, 0.5531, 0.6915];
    assert_eq!(forward.len(), 4);
    for (got, want) in forward.iter().zip(expected.iter()) {
        assert!((got - want).abs() <= 0.001, "{} is not near {}", got, want);
    }
    assert!((forward[0] + forward[3] - 1.0).abs() <= 1e-9);
    assert!((forward[1] + forward[2] - 1.0).abs() <= 1e-9);
}

#[test]
fn forward_values_rise_with_intensity() {
    let channel = vec![200u8, 3, 77, 77, 0, 255, 3];
    let (_, ranks) = rank_channel(&channel);
    let forward: Vec<f64> = normalized_ranks(&ranks)
        .iter()
        .map(|u| inv_cdf(value(*u), MU, sigma()))
        .collect();
    for i in 0..channel.len() {
        for j in 0..channel.len() {
            if channel[i] < channel[j] || (channel[i] == channel[j] && i < j) {
                assert!(forward[i] < forward[j]);
            }
        }
    }
}

#[test]
fn sorting_rearranges_unsorted_channel() {
    let channel = vec![30u8, 10, 40, 20];
    let sorted = SortedSamples::from_channel(&channel);
    assert_eq!(sorted.len(), 4);
    assert_eq!(
        samples_of(&sorted),
        vec![
            Sample { index: 1, intensity: 10 },
            Sample { index: 3, intensity: 20 },
            Sample { index: 0, intensity: 30 },
            Sample { index: 2, intensity: 40 },
        ]
    );
    assert_eq!(sorted.rank_map(), vec![2, 0, 3, 1]);
}

#[test]
fn equal_intensities_keep_pixel_order() {
    let channel = vec![7u8, 7, 3, 7, 3];
    let (sorted, ranks) = rank_channel(&channel);
    assert_eq!(ranks, vec![2, 3, 0, 4, 1]);
    assert_eq!(
        samples_of(&sorted),
        vec![
            Sample { index: 2, intensity: 3 },
            Sample { index: 4, intensity: 3 },
            Sample { index: 0, intensity: 7 },
            Sample { index: 1, intensity: 7 },
            Sample { index: 3, intensity: 7 },
        ]
    );
}

#[test]
fn rank_map_is_a_bijection() {
    let channel: Vec<u8> = (0..500u32).map(|i| ((i * 37 + 11) % 23) as u8).collect();
    let (sorted, ranks) = rank_channel(&channel);
    let n = channel.len();
    assert_eq!(ranks.len(), n);
    let mut seen = vec![false; n];
    for &r in &ranks {
        assert!(r < n);
        assert!(!seen[r]);
        seen[r] = true;
    }
    assert!(seen.iter().all(|&s| s));
    for i in 0..n {
        assert_eq!(sorted.sample(ranks[i]).index, i);
        assert_eq!(sorted.sample(ranks[i]).intensity, channel[i]);
    }
    for k in 0..n {
        assert_eq!(ranks[sorted.sample(k).index], k);
    }
}

#[test]
fn ranks_follow_intensity_then_index() {
    let channel: Vec<u8> = (0..200u32).map(|i| ((i * 91 + 5) % 17) as u8).collect();
    let (_, ranks) = rank_channel(&channel);
    for i in 0..channel.len() {
        for j in 0..channel.len() {
            if channel[i] < channel[j] {
                assert!(ranks[i] < ranks[j]);
            }
            if channel[i] == channel[j] && i < j {
                assert!(ranks[i] < ranks[j]);
            }
        }
    }
}

#[test]
fn rank_counts_the_samples_that_precede() {
    let channel = vec![9u8, 1, 9, 4, 1, 0, 255, 4];
    let (_, ranks) = rank_channel(&channel);
    for i in 0..channel.len() {
        let before = (0..channel.len())
            .filter(|&j| channel[j] < channel[i] || (channel[j] == channel[i] && j < i))
            .count();
        assert_eq!(ranks[i], before);
    }
}

#[test]
fn sorted_samples_ascend() {
    let channel: Vec<u8> = (0..300u32).map(|i| ((i * i + 3 * i) % 251) as u8).collect();
    let sorted = SortedSamples::from_channel(&channel);
    let samples = samples_of(&sorted);
    for pair in samples.windows(2) {
        assert!(
            pair[0].intensity < pair[1].intensity
                || (pair[0].intensity == pair[1].intensity && pair[0].index < pair[1].index)
        );
    }
}

#[test]
fn single_sample_has_rank_zero_and_maps_to_the_mean() {
    let channel = vec![123u8];
    let (sorted, ranks) = rank_channel(&channel);
    assert_eq!(ranks, vec![0]);
    assert_eq!(sorted.sample(0), Sample { index: 0, intensity: 123 });
    let points = normalized_ranks(&ranks);
    assert_eq!(points, vec![Fraction { num: 1, den: 2 }]);
    assert_eq!(points[0], midpoint(0, 1));
    assert_eq!(value(points[0]), 0.5);
    let forward = inv_cdf(value(points[0]), MU, sigma()) as f32;
    assert_eq!(forward, 0.5_f32);
}

#[test]
fn empty_channel_gives_empty_results() {
    let channel: Vec<u8> = Vec::new();
    let (sorted, ranks) = rank_channel(&channel);
    assert_eq!(sorted.len(), 0);
    assert!(ranks.is_empty());
    assert!(normalized_ranks(&ranks).is_empty());
    assert!(SortedSamples::from_channel(&channel).rank_map().is_empty());
}
