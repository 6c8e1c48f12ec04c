use brr_conv::encode::{encode_channel, encode_frame, get_next_nibbles};

#[test]
fn silence_encodes_to_a_block_of_zeros() {
    let block = encode_frame(&[0i16; 16]);
    assert_eq!(block, vec![0x10, 0, 0, 0, 0, 0, 0, 0, 0]);
}

#[test]
fn constant_frame_encodes_to_equal_nibbles() {
    let block = encode_frame(&[100i16; 16]);
    assert_eq!(block, vec![0x50, 0x66, 0x66, 0x66, 0x66, 0x66, 0x66, 0x66, 0x66]);
}

#[test]
fn negative_nibbles_are_stored_in_twos_complement() {
    assert_eq!(encode_frame(&[-1, 1]), vec![0x10, 0xF1]);
    assert_eq!(encode_frame(&[-8, 7, -2, 0]), vec![0x10, 0x87, 0xE0]);
}

#[test]
fn first_sample_of_a_pair_goes_to_the_high_nibble() {
    assert_eq!(encode_frame(&[1, 2, 3, 4]), vec![0x10, 0x12, 0x34]);
}

#[test]
fn outliers_are_clipped_under_the_common_shift() {
    let mixed = [3, -3, 200, -200, 5, 7, -8, 8, -9, 0, 1, -1, 1000, -1000, 6, -6];
    assert_eq!(
        encode_frame(&mixed),
        vec![0x10, 0x3D, 0x78, 0x57, 0x87, 0x80, 0x1F, 0x78, 0x6A]
    );
}

#[test]
fn loud_frame_takes_the_largest_needed_shift() {
    let loud = [
        30000, -30000, 32767, -32768, 12000, -12000, 20000, -20000, 25000, -25000, 16384, -16385,
        16383, -16384, 8192, -8193,
    ];
    assert_eq!(
        encode_frame(&loud),
        vec![0xD0, 0x79, 0x78, 0x3D, 0x5B, 0x6A, 0x4C, 0x4C, 0x2E]
    );
}

#[test]
fn empty_frame_gives_no_block() {
    assert_eq!(encode_frame(&[]), Vec::<u8>::new());
}

#[test]
fn odd_frame_pads_the_last_byte_with_zero() {
    assert_eq!(encode_frame(&[1, 2, 3, 4, 5]), vec![0x10, 0x12, 0x34, 0x50]);
    assert_eq!(encode_frame(&[-1]), vec![0x10, 0xF0]);
}

#[test]
fn short_final_frame_gives_a_short_block() {
    let stream = encode_channel(&[1, 2, 3, 4, 5]);
    assert_eq!(stream, vec![0x10, 0x12, 0x34, 0x50]);
}

#[test]
fn empty_channel_gives_an_empty_stream() {
    assert_eq!(encode_channel(&[]), Vec::<u8>::new());
}

#[test]
fn channel_is_cut_into_frames_of_sixteen() {
    let mut samples = vec![100i16; 16];
    samples.push(-5);
    assert_eq!(
        encode_channel(&samples),
        vec![0x50, 0x66, 0x66, 0x66, 0x66, 0x66, 0x66, 0x66, 0x66, 0x10, 0xB0]
    );
}

#[test]
fn each_frame_gets_its_own_shift() {
    let ramp: Vec<i16> =
        (0..40i32).map(|i| (i * i * 37 - 20000).clamp(-32768, 32767) as i16).collect();
    assert_eq!(
        encode_channel(&ramp),
        vec![
            0xD0, 0xBB, 0xBB, 0xBB, 0xBC, 0xCC, 0xCC, 0xCD, 0xDD, 0xC0, 0xBB, 0xCD, 0xDE, 0xF0,
            0x12, 0x23, 0x45, 0x67, 0xD0, 0x45, 0x66, 0x77, 0x77
        ]
    );
}

#[test]
fn every_block_but_the_last_has_nine_bytes() {
    for len in 0usize..100 {
        let samples: Vec<i16> = (0..len).map(|i| (i as i16) * 300 - 15000).collect();
        let stream = encode_channel(&samples);
        let full = len / 16;
        let tail = len % 16;
        let expected = 9 * full + if tail == 0 { 0 } else { 1 + (tail + 1) / 2 };
        assert_eq!(stream.len(), expected, "length {}", len);
        for k in 0..full {
            assert_eq!(&stream[9 * k..9 * k + 9], &encode_frame(&samples[16 * k..16 * k + 16])[..]);
        }
        if tail != 0 {
            assert_eq!(&stream[9 * full..], &encode_frame(&samples[16 * full..])[..]);
        }
    }
}

#[test]
fn every_header_has_a_zero_low_nibble() {
    let mut state: u32 = 99;
    let mut samples = Vec::new();
    for _ in 0..1600 {
        state = state.wrapping_mul(1664525).wrapping_add(1013904223);
        let spread = (state >> 28) & 15;
        samples.push(((state >> 8) as u16 as i16) >> spread);
    }
    let stream = encode_channel(&samples);
    assert_eq!(stream.len(), 900);
    for k in 0..100 {
        let header = stream[9 * k];
        assert_eq!(header & 0x0F, 0);
        assert!((1..=14).contains(&(header >> 4)));
    }
}

#[test]
fn stereo_chunk_splits_left_and_right() {
    let mut interleaved = Vec::new();
    for i in 0..16i16 {
        interleaved.push(100);
        interleaved.push(-i * 100);
    }
    let (left, right) = get_next_nibbles(&interleaved);
    assert_eq!(left, vec![0x50, 0x66, 0x66, 0x66, 0x66, 0x66, 0x66, 0x66, 0x66]);
    assert_eq!(right, vec![0x80, 0x0F, 0xEE, 0xDC, 0xBB, 0xA9, 0x88, 0x88, 0x88]);
}

#[test]
fn stereo_chunk_takes_at_most_thirty_two_samples() {
    let mut interleaved = vec![0i16; 32];
    interleaved.extend_from_slice(&[30000; 10]);
    let (left, right) = get_next_nibbles(&interleaved);
    assert_eq!(left, vec![0x10, 0, 0, 0, 0, 0, 0, 0, 0]);
    assert_eq!(right, vec![0x10, 0, 0, 0, 0, 0, 0, 0, 0]);
}

#[test]
fn stereo_chunk_of_a_short_tail() {
    let (left, right) = get_next_nibbles(&[1, -1, 2, -2, 3, -3, 4, -4, 5, -5]);
    assert_eq!(left, vec![0x10, 0x12, 0x34, 0x50]);
    assert_eq!(right, vec![0x10, 0xFE, 0xDC, 0xB0]);
}

#[test]
fn stereo_chunk_of_nothing_is_empty() {
    let (left, right) = get_next_nibbles(&[]);
    assert!(left.is_empty());
    assert!(right.is_empty());
}

#[test]
fn stereo_chunk_of_one_sample_has_no_right_block() {
    let (left, right) = get_next_nibbles(&[7]);
    assert_eq!(left, vec![0x10, 0x70]);
    assert!(right.is_empty());
}
