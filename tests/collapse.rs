use pensieve::fold::{chunk_levels, chunk_size, collapse_deterministic, collapse_with_threshold, extract_bits, num_chunks, synthesize};
use pensieve::tolerance::Tolerance;

fn tol(num: u64, den: u64) -> Tolerance {
    Tolerance::new(num, den)
}

#[test]
fn test_collapse_128_5_percent_concentrated() {
    let data0 = [0u8; 16];
    let mut data1 = data0.clone();
    data1[0] = 0b11111111;

    let mut data2 = data1.clone();
    data2[0] ^= 0b00000001;

    assert_ne!(data1, data2);
    let collapsed1 = collapse_deterministic(&data1, tol(5, 100));
    let collapsed2 = collapse_deterministic(&data2, tol(5, 100));
    assert_ne!(data0.as_slice(), collapsed1.as_slice());
    assert_eq!(collapsed1, collapsed2);
}

#[test]
fn test_collapse_128_12_5_percent_spread() {
    let data0 = [0u8; 16];
    let mut data1 = data0.clone();
    data1[0] = 0b11111111;

    let mut data2 = data1.clone();
    data2[0] ^= 0b00000001;
    data2[4] ^= 0b00000001;
    data2[8] ^= 0b00000001;
    data2[12] ^= 0b00000001;

    assert_ne!(data1, data2);
    let collapsed1 = collapse_deterministic(&data1, tol(125, 1000));
    let collapsed2 = collapse_deterministic(&data2, tol(125, 1000));
    assert_ne!(data0.as_slice(), collapsed1.as_slice());
    assert_eq!(collapsed1, collapsed2);
}

#[test]
fn test_collapse_128_20_percent_concentrated() {
    let data0 = [0u8; 16];
    let mut data1 = data0.clone();
    data1[0] = 0b11111111;

    let mut data2 = data1.clone();
    data2[0] ^= 0b00001111;

    assert_ne!(data1, data2);
    let collapsed1 = collapse_deterministic(&data1, tol(20, 100));
    let collapsed2 = collapse_deterministic(&data2, tol(20, 100));
    assert_ne!(data0.as_slice(), collapsed1.as_slice());
    assert_eq!(collapsed1, collapsed2);
}

#[test]
fn test_collapse_128_25_percent_spread() {
    let data0 = [0u8; 16];
    let mut data1 = data0.clone();
    data1[0] = 0b11111111;

    let mut data2 = data1.clone();
    data2[0] ^= 0b00000011;
    data2[2] ^= 0b00000011;
    data2[4] ^= 0b00000011;

    assert_ne!(data1, data2);
    let collapsed1 = collapse_deterministic(&data1, tol(25, 100));
    let collapsed2 = collapse_deterministic(&data2, tol(25, 100));
    assert_ne!(data0.as_slice(), collapsed1.as_slice());
    assert_eq!(collapsed1, collapsed2);
}

#[test]
fn test_collapse_16_12_5_percent() {
    let data0 = [0u8; 2];
    let mut data1 = data0.clone();
    data1[0] = 0b11111111;

    let mut data2 = data1.clone();
    data2[0] ^= 0b00000011;

    assert_ne!(data1, data2);
    let collapsed1 = collapse_deterministic(&data1, tol(125, 1000));
    let collapsed2 = collapse_deterministic(&data2, tol(125, 1000));
    assert_ne!(data0.as_slice(), collapsed1.as_slice());
    assert_eq!(collapsed1, collapsed2);
}

#[test]
fn test_collapse_128_too_many_errors_5_percent() {
    let data0 = [0u8; 16];
    let mut data1 = data0.clone();
    data1[0] = 0b11111111;

    let mut data2 = data1.clone();
    data2[0] ^= 0b11111111;

    assert_ne!(data1, data2);
    let collapsed1 = collapse_deterministic(&data1, tol(5, 100));
    let collapsed2 = collapse_deterministic(&data2, tol(5, 100));
    assert_ne!(data0.as_slice(), collapsed1.as_slice());
    assert_ne!(collapsed1, collapsed2);
}

fn head_byte_set() -> Vec<u8> {
    let mut a = vec![0u8; 16];
    a[0] = 0xFF;
    a
}

#[test]
fn repeated_calls_agree() {
    let a = head_byte_set();
    let first = collapse_deterministic(&a, tol(1, 8));
    let second = collapse_deterministic(&a, tol(1, 8));
    assert_eq!(first, second);
    // The same value written as another fraction.
    assert_eq!(first, collapse_deterministic(&a, tol(125, 1000)));
}

#[test]
fn output_length_matches_input() {
    for len in [0usize, 1, 2, 3, 7, 15, 16, 17, 100] {
        let input = vec![0x5Au8; len];
        assert_eq!(collapse_deterministic(&input, tol(1, 10)).len(), len);
    }
}

#[test]
fn tolerance_below_range_acts_as_lower_bound() {
    let mut a = head_byte_set();
    a[5] = 0b0000_0001;
    let lower = collapse_deterministic(&a, tol(5, 100));
    assert_eq!(collapse_deterministic(&a, tol(0, 1)), lower);
    assert_eq!(collapse_deterministic(&a, tol(1, 100)), lower);
    assert_eq!(tol(1, 100).clamped(), tol(1, 20));
}

#[test]
fn tolerance_above_range_acts_as_upper_bound() {
    let mut a = head_byte_set();
    a[2] = 0b0000_0111;
    let upper = collapse_deterministic(&a, tol(25, 100));
    assert_eq!(collapse_deterministic(&a, tol(9, 10)), upper);
    assert_eq!(collapse_deterministic(&a, tol(3, 1)), upper);
    assert_eq!(tol(9, 10).clamped(), tol(1, 4));
    assert_eq!(tol(1, 10).clamped(), tol(1, 10));
}

#[test]
fn within_tolerance_single_flip_is_absorbed() {
    let a = head_byte_set();
    let mut b = a.clone();
    b[0] = 0b1111_1110;
    assert_eq!(collapse_deterministic(&a, tol(5, 100)), collapse_deterministic(&b, tol(5, 100)));
}

#[test]
fn inverted_first_byte_diverges() {
    let a = head_byte_set();
    let mut b = a.clone();
    b[0] = 0x00;
    assert_ne!(collapse_deterministic(&a, tol(5, 100)), collapse_deterministic(&b, tol(5, 100)));
}

#[test]
fn all_zero_input_is_changed() {
    let zero = [0u8; 16];
    for (n, d) in [(5u64, 100u64), (1, 10), (125, 1000), (2, 10), (25, 100)] {
        let out = collapse_deterministic(&zero, tol(n, d));
        assert_ne!(out.as_slice(), zero.as_slice());
        let expected: Vec<u8> = (0..16u8).map(|i| 0xAA + i).collect();
        assert_eq!(out, expected);
    }
}

#[test]
fn spread_flips_absorbed_concentrated_flips_show() {
    let a = head_byte_set();
    let mut spread = a.clone();
    for k in [0usize, 4, 8, 12] {
        spread[k] ^= 0b0000_0001;
    }
    assert_eq!(collapse_deterministic(&a, tol(125, 1000)), collapse_deterministic(&spread, tol(125, 1000)));

    let mut concentrated = a.clone();
    concentrated[0] ^= 0xFF;
    assert_ne!(collapse_deterministic(&a, tol(5, 100)), collapse_deterministic(&concentrated, tol(5, 100)));
}

#[test]
fn exact_output_for_head_byte() {
    let a = head_byte_set();
    let out = collapse_deterministic(&a, tol(5, 100));
    let expected: Vec<u8> = (0..16u8)
        .map(|i| if i % 8 == 0 { 0xFF ^ (0xAA + i) } else { 0xAA + i })
        .collect();
    assert_eq!(out, expected);
    assert_eq!(out[0], 0x55);
    assert_eq!(out[8], 0x4D);
}

#[test]
fn empty_input_gives_empty_output() {
    assert!(collapse_deterministic(&[], tol(1, 10)).is_empty());
    assert!(collapse_with_threshold(&[], 3).is_empty());
}

#[test]
fn single_byte_is_one_chunk() {
    assert_eq!(collapse_deterministic(&[0x01], tol(5, 100)), vec![0x55]);
    assert_eq!(collapse_deterministic(&[0x00], tol(5, 100)), vec![0xAA]);
}

#[test]
fn remainder_chunk_uses_nominal_threshold() {
    // Seven bytes: three chunks of 18 bits and a last one of 2 bits, which can
    // never reach the threshold ceil(0.25 * 18) = 5.
    let input = [0xFFu8; 7];
    assert_eq!(chunk_size(56), 18);
    let out = collapse_deterministic(&input, tol(1, 4));
    assert_eq!(out, vec![0x55, 0x54, 0x53, 0xAD, 0x51, 0x50, 0x4F]);
}

#[test]
fn mask_wraps_past_255() {
    let zero = vec![0u8; 100];
    let out = collapse_deterministic(&zero, tol(1, 10));
    assert_eq!(out[85], 0xFF);
    assert_eq!(out[86], 0x00);
    assert_eq!(out[99], 13);
}

#[test]
fn threshold_rounds_up() {
    assert_eq!(tol(5, 100).threshold(16), 1);
    assert_eq!(tol(125, 1000).threshold(16), 2);
    assert_eq!(tol(20, 100).threshold(16), 4);
    assert_eq!(tol(25, 100).threshold(16), 4);
    assert_eq!(tol(0, 1).threshold(8), 1);
    assert_eq!(tol(1, 4).threshold(18), 5);
}

#[test]
fn chunk_count_and_size_by_length() {
    assert_eq!(num_chunks(128), 8);
    assert_eq!(num_chunks(1024), 8);
    assert_eq!(num_chunks(16), 1);
    assert_eq!(num_chunks(8), 0);
    assert_eq!(chunk_size(128), 16);
    assert_eq!(chunk_size(16), 16);
    assert_eq!(chunk_size(8), 8);
    assert_eq!(chunk_size(40), 20);
}

#[test]
fn bits_are_most_significant_first() {
    let bits = extract_bits(&[0b1000_0001, 0b0100_0000]);
    let expected = vec![
        true, false, false, false, false, false, false, true, false, true, false, false, false,
        false, false, false,
    ];
    assert_eq!(bits, expected);
}

#[test]
fn levels_compare_inclusively() {
    let bits = vec![true, true, false, false, true, false];
    assert_eq!(chunk_levels(&bits, 4, 2), vec![true, false]);
    assert_eq!(chunk_levels(&bits, 4, 1), vec![true, true]);
    assert_eq!(chunk_levels(&bits, 4, 3), vec![false, false]);
}

#[test]
fn synthesis_repeats_levels() {
    assert_eq!(synthesize(&vec![true, false], 4), vec![0x55, 0xAB, 0x53, 0xAD]);
}

#[test]
fn zero_threshold_sets_every_level() {
    let zero = [0u8; 4];
    assert_eq!(collapse_with_threshold(&zero, 0), vec![0x55, 0x54, 0x53, 0x52]);
}
