use glaze_layout::dto::TilingSize;
use glaze_layout::shares::{add_up, normalize};
use glaze_layout::singles::{add_sizes, closest_single, divide_sizes};

fn size(value: f32) -> TilingSize {
    TilingSize::from_bits(value.to_bits())
}

fn normalized(sizes: &[Option<f32>]) -> Vec<f32> {
    let sizes: Vec<Option<TilingSize>> = sizes.iter().map(|s| s.map(size)).collect();
    normalize(&sizes).into_iter().map(|s| f32::from_bits(s.bits)).collect()
}

#[test]
fn quotients_are_rounded_as_single_precision_numbers() {
    for (part, total) in [(0, 3), (1, 3), (2, 3), (1576, 3440), (1864, 3440), (7, 7), (22, 7)] {
        let expected = part as f32 / total as f32;
        assert_eq!(closest_single(part, total).bits, expected.to_bits(), "{part}/{total}");
    }
    for part in 1..200u128 {
        for total in 1..200u128 {
            let expected = part as f32 / total as f32;
            assert_eq!(closest_single(part, total).bits, expected.to_bits(), "{part}/{total}");
        }
    }
}

#[test]
fn quotients_between_two_numbers_go_to_the_even_one() {
    // 2^24 + 1 lies halfway between two numbers, and so does 2^24 + 3.
    assert_eq!(closest_single((1 << 24) + 1, 1), size(16777216.0));
    assert_eq!(closest_single((1 << 24) + 3, 1), size(16777220.0));
    assert_eq!(closest_single((1 << 25) - 1, 1), size(33554432.0));
}

#[test]
fn sizes_are_scaled_to_one() {
    assert_eq!(normalized(&[Some(0.5), Some(1.5)]), vec![0.25, 0.75]);
    assert_eq!(normalized(&[Some(3.0), None, Some(1.0)]), vec![0.75, 0.0, 0.25]);
    assert_eq!(normalized(&[Some(0.6), Some(0.4)]), vec![0.6, 0.4]);
    assert_eq!(normalized(&[Some(0.2), Some(0.5)]), vec![0.2 / 0.7, 0.5 / 0.7]);
    assert!(normalized(&[]).is_empty());
}

#[test]
fn lone_size_is_one() {
    for value in [0.0, 0.3, 1.0, 1234.5, f32::MIN_POSITIVE] {
        assert_eq!(normalized(&[Some(value)]), vec![1.0]);
    }
}

#[test]
fn sizes_without_weight_share_equally() {
    assert_eq!(normalized(&[Some(0.0), Some(0.0)]), vec![0.5, 0.5]);
    assert_eq!(normalized(&[Some(-1.0), None, Some(f32::NAN)]), vec![0.5, 0.0, 0.5]);
    assert_eq!(normalized(&[Some(f32::EPSILON), Some(0.0)]), vec![0.5, 0.5]);
    assert_eq!(normalized(&[Some(f32::EPSILON * 2.0), Some(0.0)]), vec![1.0, 0.0]);
}

/// Sizes of every scale, among them the smallest and the largest.
fn samples() -> Vec<f32> {
    let mut bits: Vec<u32> = vec![
        0, 1, 2, 3, 0x7f_ffff, 0x80_0000, 0x80_0001, 0xff_ffff, 0x100_0000, 0x3f80_0000,
        0x3f80_0001, 0x3f7f_ffff, 0x4b80_0000, 0x4b80_0001, 0x7f7f_ffff, 0x7f00_0000,
    ];
    let mut seed: u32 = 12345;
    for _ in 0..200 {
        seed = seed.wrapping_mul(1664525).wrapping_add(1013904223);
        bits.push((seed >> 1) % 0x7f80_0000);
    }
    bits.into_iter().map(f32::from_bits).collect()
}

#[test]
fn sums_and_quotients_are_those_of_single_precision() {
    let samples = samples();
    for &a in &samples {
        for &b in &samples {
            assert_eq!(add_sizes(size(a), size(b)).bits, (a + b).to_bits(), "{a:e} + {b:e}");
            if b > 0.0 {
                let quotient = divide_sizes(size(a), size(b));
                assert_eq!(quotient.bits, (a / b).to_bits(), "{a:e} / {b:e}");
            }
        }
    }
}

#[test]
fn shares_are_those_of_single_precision() {
    let samples = samples();
    for window in samples.windows(5) {
        let sizes: Vec<Option<f32>> = window.iter().copied().map(Some).collect();
        let total: f32 = window.iter().sum();
        if total.is_finite() && total > f32::EPSILON {
            let expected: Vec<f32> = window.iter().map(|w| w / total).collect();
            assert_eq!(normalized(&sizes), expected);
        }
    }
    let sizes: Vec<Option<TilingSize>> = [0.1, 0.2, 0.3, 0.4].map(|s| Some(size(s))).to_vec();
    assert_eq!(add_up(&sizes), size(0.1 + 0.2 + 0.3 + 0.4));
}

#[test]
fn infinite_sizes_have_no_shares() {
    assert_eq!(normalized(&[Some(f32::MAX), Some(f32::MAX)]), vec![0.0, 0.0]);
    let shares = normalized(&[Some(f32::INFINITY), Some(1.0)]);
    assert!(shares[0].is_nan());
    assert_eq!(shares[1], 0.0);
    assert_eq!(divide_sizes(size(f32::INFINITY), size(2.0)), size(f32::INFINITY));
    assert_eq!(add_sizes(size(1.0), size(f32::INFINITY)), size(f32::INFINITY));
}

#[test]
fn shares_add_up_to_one() {
    for sizes in [vec![0.458f32, 1.292], vec![1.0; 7], vec![0.1, 0.7, 1e-3, 55.0], vec![0.0; 3]] {
        let given: Vec<Option<f32>> = sizes.iter().copied().map(Some).collect();
        let sum: f64 = normalized(&given).into_iter().map(f64::from).sum();
        assert!((sum - 1.0).abs() <= sizes.len() as f64 * f64::from(f32::EPSILON));
    }
}
