use histogram_gaussianize::grid::{midpoints, Fraction};
use histogram_gaussianize::sample::SortedSamples;

fn sigma() -> f64 {
    (1.0_f64 / 36.0_f64).sqrt()
}

fn cdf(x: f64, mu: f64, sigma: f64) -> f64 {
    0.5 * (1.0 + puruspe::erf((x - mu) / (sigma * 2.0_f64.sqrt())))
}

fn value(u: Fraction) -> f64 {
    u.num as f64 / u.den as f64
}

fn places(width: usize, n: usize) -> Vec<usize> {
    midpoints(width)
        .iter()
        .map(|g| (cdf(value(*g), 0.5, sigma()) * n as f64).floor() as usize)
        .collect()
}

#[test]
fn lut_of_sorted_quad_saturates_at_the_ends() {
    let channel = vec![10u8, 20, 30, 40];
    let sorted = SortedSamples::from_channel(&channel);
    let grid: Vec<f64> = midpoints(4).iter().map(|g| value(*g)).collect();
    assert_eq!(grid, vec![0.125, 0.375, 0.625, 0.875]);
    let indices = places(4, channel.len());
    assert_eq!(indices, vec![0, 0, 3, 3]);
    let lut = sorted.inverse_lut(&indices);
    assert_eq!(lut, vec![10, 10, 40, 40]);
    for v in &lut {
        assert!(channel.contains(v));
    }
}

#[test]
fn lut_does_not_fall() {
    let channel: Vec<u8> = (0..640u32).map(|i| ((i * 53 + 7) % 256) as u8).collect();
    let sorted = SortedSamples::from_channel(&channel);
    let indices = places(64, channel.len());
    let lut = sorted.inverse_lut(&indices);
    assert_eq!(lut.len(), 64);
    for pair in lut.windows(2) {
        assert!(pair[0] <= pair[1]);
    }
}

#[test]
fn lut_reads_the_sample_at_each_place() {
    let channel = vec![50u8, 40, 30, 20, 10];
    let sorted = SortedSamples::from_channel(&channel);
    let lut = sorted.inverse_lut(&vec![4, 0, 2, 2, 1, 3]);
    assert_eq!(lut, vec![50, 10, 30, 30, 20, 40]);
}

#[test]
fn place_beyond_the_last_is_clamped() {
    let channel = vec![5u8, 9, 1];
    let sorted = SortedSamples::from_channel(&channel);
    assert_eq!(sorted.intensity_at(0), 1);
    assert_eq!(sorted.intensity_at(2), 9);
    assert_eq!(sorted.intensity_at(3), 9);
    assert_eq!(sorted.intensity_at(usize::MAX), 9);
    assert_eq!(sorted.inverse_lut(&vec![3, 100]), vec![9, 9]);
}

#[test]
fn single_sample_fills_the_whole_lut() {
    let channel = vec![77u8];
    let sorted = SortedSamples::from_channel(&channel);
    let indices = places(5, 1);
    assert_eq!(sorted.inverse_lut(&indices), vec![77; 5]);
    assert_eq!(sorted.inverse_lut(&vec![0, 1, 2]), vec![77, 77, 77]);
}

#[test]
fn zero_width_gives_an_empty_lut() {
    let channel = vec![1u8, 2, 3];
    let sorted = SortedSamples::from_channel(&channel);
    assert!(midpoints(0).is_empty());
    assert!(sorted.inverse_lut(&Vec::new()).is_empty());
}

#[test]
fn no_samples_give_an_empty_lut() {
    let sorted = SortedSamples::from_channel(&Vec::new());
    assert!(sorted.inverse_lut(&Vec::new()).is_empty());
    assert!(sorted.inverse_lut(&vec![0, 1, 2]).is_empty());
}
