use brr_conv::shift::{calc_shift, select_shift};

#[test]
fn needed_shift_of_small_samples_is_one() {
    for sample in -8i16..=7 {
        assert_eq!(calc_shift(&sample), 1, "sample {}", sample);
    }
}

#[test]
fn needed_shift_rises_at_each_power_of_two() {
    assert_eq!(calc_shift(&8), 2);
    assert_eq!(calc_shift(&-9), 2);
    assert_eq!(calc_shift(&15), 2);
    assert_eq!(calc_shift(&16), 3);
    assert_eq!(calc_shift(&100), 5);
    assert_eq!(calc_shift(&-100), 5);
    assert_eq!(calc_shift(&127), 5);
    assert_eq!(calc_shift(&128), 6);
    assert_eq!(calc_shift(&-128), 5);
    assert_eq!(calc_shift(&-129), 6);
    assert_eq!(calc_shift(&16383), 12);
    assert_eq!(calc_shift(&16384), 13);
    assert_eq!(calc_shift(&-16384), 12);
    assert_eq!(calc_shift(&-16385), 13);
}

#[test]
fn needed_shift_of_the_extremes_is_thirteen() {
    assert_eq!(calc_shift(&i16::MAX), 13);
    assert_eq!(calc_shift(&i16::MIN), 13);
}

#[test]
fn needed_shift_counts_leading_zeros_of_every_sample() {
    for sample in i16::MIN..=i16::MAX {
        let pattern = if sample < 0 { !sample } else { sample };
        let expected = 14 - pattern.leading_zeros().min(13);
        assert_eq!(calc_shift(&sample), expected, "sample {}", sample);
    }
}

#[test]
fn needed_shift_is_always_in_range() {
    for sample in i16::MIN..=i16::MAX {
        let shift = calc_shift(&sample);
        assert!((1..=14).contains(&shift), "sample {} gave {}", sample, shift);
    }
}

#[test]
fn selected_shift_of_silence_is_one() {
    assert_eq!(select_shift(&[0i16; 16]), 1);
}

#[test]
fn selected_shift_of_a_constant_frame_is_its_needed_shift() {
    assert_eq!(select_shift(&[100i16; 16]), 5);
    assert_eq!(select_shift(&[-3000i16; 16]), 10);
}

#[test]
fn selected_shift_is_the_most_frequent_not_the_largest() {
    let mut frame = [0i16; 16];
    frame[3] = 30000;
    frame[9] = -30000;
    assert_eq!(select_shift(&frame), 1);
    let mixed = [3, -3, 200, -200, 5, 7, -8, 8, -9, 0, 1, -1, 1000, -1000, 6, -6];
    assert_eq!(select_shift(&mixed), 1);
    let loud = [
        30000, -30000, 32767, -32768, 12000, -12000, 20000, -20000, 25000, -25000, 16384, -16385,
        16383, -16384, 8192, -8193,
    ];
    assert_eq!(select_shift(&loud), 13);
}

#[test]
fn selected_shift_tie_goes_to_the_first_to_reach_the_count() {
    assert_eq!(select_shift(&[0, 100, 100, 0]), 5);
    assert_eq!(select_shift(&[0, 100, 0, 100]), 1);
    assert_eq!(select_shift(&[100, 0, 0, 100]), 1);
    let mut early = [50i16; 16];
    for sample in early.iter_mut().skip(8) {
        *sample = -3000;
    }
    assert_eq!(select_shift(&early), 4);
    let mut late = [-3000i16; 16];
    for sample in late.iter_mut().skip(8) {
        *sample = 50;
    }
    assert_eq!(select_shift(&late), 10);
}

#[test]
fn selected_shift_of_one_sample_is_its_needed_shift() {
    assert_eq!(select_shift(&[1000]), 8);
}

#[test]
fn selected_shift_of_an_empty_frame_is_one() {
    assert_eq!(select_shift(&[]), 1);
}

#[test]
fn selected_shift_is_in_range_for_many_frames() {
    let mut state: u32 = 12345;
    for _ in 0..2000 {
        let mut frame = [0i16; 16];
        for sample in frame.iter_mut() {
            state = state.wrapping_mul(1664525).wrapping_add(1013904223);
            let spread = (state >> 28) & 15;
            *sample = ((state >> 8) as u16 as i16) >> spread;
        }
        let shift = select_shift(&frame);
        assert!((1..=14).contains(&shift));
        assert!(frame.iter().any(|s| calc_shift(s) == shift));
    }
}
