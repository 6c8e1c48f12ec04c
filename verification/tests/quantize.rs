use brr_conv::quantize::quantize;

#[test]
fn quantize_divides_by_the_step() {
    assert_eq!(quantize(100, 5), 6);
    assert_eq!(quantize(-100, 5), -6);
    assert_eq!(quantize(5, 1), 5);
    assert_eq!(quantize(-5, 1), -5);
    assert_eq!(quantize(0, 1), 0);
    assert_eq!(quantize(0, 14), 0);
    assert_eq!(quantize(12000, 13), 3);
    assert_eq!(quantize(-12000, 13), -3);
}

#[test]
fn quantize_rounds_halves_away_from_zero() {
    let samples = [8, -8, 24, -24, 40, -40, 7, -7, 9, -9, 23, -23, 25, -25];
    let expected = [1, -1, 2, -2, 3, -3, 0, 0, 1, -1, 1, -1, 2, -2];
    for (sample, nibble) in samples.iter().zip(expected.iter()) {
        assert_eq!(quantize(*sample, 5), *nibble, "sample {}", sample);
    }
    assert_eq!(quantize(1, 2), 1);
    assert_eq!(quantize(-1, 2), -1);
    assert_eq!(quantize(3, 2), 2);
    assert_eq!(quantize(-3, 2), -2);
}

#[test]
fn quantize_saturates_at_the_ends_of_the_nibble() {
    assert_eq!(quantize(1000, 1), 7);
    assert_eq!(quantize(-1000, 1), -8);
    assert_eq!(quantize(8, 1), 7);
    assert_eq!(quantize(-9, 1), -8);
    assert_eq!(quantize(120, 5), 7);
    assert_eq!(quantize(-120, 5), -8);
    assert_eq!(quantize(-136, 5), -8);
    assert_eq!(quantize(i16::MAX, 13), 7);
    assert_eq!(quantize(i16::MIN, 13), -8);
}

#[test]
fn quantize_under_the_largest_shift() {
    assert_eq!(quantize(i16::MAX, 14), 4);
    assert_eq!(quantize(i16::MIN, 14), -4);
    assert_eq!(quantize(4096, 14), 1);
    assert_eq!(quantize(4095, 14), 0);
    assert_eq!(quantize(-4096, 14), -1);
}

#[test]
fn quantize_never_leaves_the_nibble_range() {
    for shift in 1u32..=14 {
        for sample in i16::MIN..=i16::MAX {
            let nibble = quantize(sample, shift);
            assert!((-8..=7).contains(&nibble), "sample {} shift {}", sample, shift);
        }
    }
}

#[test]
fn quantize_agrees_with_rounding_in_floating_point() {
    for shift in 1u32..=14 {
        for sample in i16::MIN..=i16::MAX {
            let expected =
                ((sample as f32 / 2f32.powf(shift as f32 - 1.0)).round() as i8).clamp(-8, 7);
            assert_eq!(quantize(sample, shift), expected, "sample {} shift {}", sample, shift);
        }
    }
}
