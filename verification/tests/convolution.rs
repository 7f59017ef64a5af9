use toid::convolution::{ConvolutionEffect, FRAMES_PER_BUFFER, MAX_FILTER_LEN};

fn assert_error(true_value: f32, calc_value: f32) {
    if true_value != 0.0 {
        assert!((true_value - calc_value).abs() / true_value.abs() < 1e-3);
    } else {
        assert!(calc_value < 1e-3);
    }
}

/// A tap or a gain as the library counts it: in thousandths.
fn thousandths(value: f32) -> i32 {
    (value * 1000.0).round() as i32
}

#[test]
fn test_convolution() {
    let mut filter: Vec<i32> = vec![];
    for i in 0..700 {
        filter.push(thousandths((i + 1) as f32));
    }
    let mut conv_effect =
        ConvolutionEffect::new(&filter, thousandths(0.0) as i16, thousandths(1.0) as i16);

    let mut input1: Vec<i16> = vec![];
    let mut input2: Vec<i16> = vec![];
    let mut input3: Vec<i16> = vec![];
    let mut input4: Vec<i16> = vec![];
    for i in 0..512 {
        input1.push((i + 1) as i16);
        input2.push((i + 512 + 1) as i16);
        input3.push(0);
        input4.push(0);
    }

    let (output1, _) = conv_effect.effect(&input1, &input1);
    let (output2, _) = conv_effect.effect(&input2, &input2);
    let (output3, _) = conv_effect.effect(&input3, &input3);
    let (output4, _) = conv_effect.effect(&input4, &input4);

    let mut not_fft_conv = vec![0.0; 512 * 4];
    for i in 0..512 * 2 {
        for j in 0..700 {
            not_fft_conv[i + j] += ((i + 1) * (j + 1)) as f32
        }
    }

    for i in 0..512 {
        assert_error(not_fft_conv[i], output1[i] as f32);
    }

    for i in 0..512 {
        assert_error(not_fft_conv[i + 512], output2[i] as f32);
    }

    for i in 0..512 {
        assert_error(not_fft_conv[i + 512 * 2], output3[i] as f32);
    }

    for i in 0..512 {
        assert_error(not_fft_conv[i + 512 * 3], output4[i] as f32);
    }
}

fn direct(signal: &[i16], filter: &[i32]) -> Vec<i64> {
    let mut sums = vec![0i64; signal.len()];
    for t in 0..signal.len() {
        for j in 0..filter.len() {
            if j <= t {
                sums[t] += signal[t - j] as i64 * filter[j] as i64;
            }
        }
    }
    sums
}

#[test]
fn convolution_matches_direct_form_exactly() {
    let filter: Vec<i32> = (0..1300).map(|j| ((j * 37) % 201 - 100) * 1000).collect();
    let signal: Vec<i16> =
        (0..FRAMES_PER_BUFFER * 5).map(|i| ((i * 53) % 4001) as i16 - 2000).collect();
    let sums = direct(&signal, &filter);
    let mut effect = ConvolutionEffect::new(&filter, 0, 1000);
    for block in 0..5 {
        let input: Vec<i16> =
            signal[block * FRAMES_PER_BUFFER..(block + 1) * FRAMES_PER_BUFFER].to_vec();
        let (left, right) = effect.effect(&input, &input);
        assert_eq!(left.len(), FRAMES_PER_BUFFER);
        assert_eq!(left, right);
        for m in 0..FRAMES_PER_BUFFER {
            assert_eq!(left[m] * 1000, sums[block * FRAMES_PER_BUFFER + m]);
        }
    }
}

#[test]
fn convolution_with_fractional_taps_and_gains_rounds_down_once() {
    let filter: Vec<i32> = vec![500, -250, 125];
    let signal: Vec<i16> = (0..1024).map(|i| ((i * 7919) % 2001) as i16 - 1000).collect();
    let sums = direct(&signal, &filter);
    let (wet, dry) = (200i64, 700i64);
    let mut effect = ConvolutionEffect::new(&filter, dry as i16, wet as i16);
    for block in 0..2 {
        let input: Vec<i16> = signal[block * 512..(block + 1) * 512].to_vec();
        let (left, _) = effect.effect(&input, &input);
        for m in 0..512 {
            let t = block * 512 + m;
            let exact = wet * sums[t] + dry * (signal[t] as i64) * 1000;
            assert_eq!(left[m], exact.div_euclid(1_000_000));
        }
    }
}

#[test]
fn convolution_mixes_wet_and_dry() {
    let filter: Vec<i32> = vec![2000];
    let mut effect = ConvolutionEffect::new(&filter, 3000, 5000);
    let left: Vec<i16> = (0..512).map(|i| i as i16).collect();
    let right: Vec<i16> = (0..512).map(|i| -(i as i16)).collect();
    let (out_left, out_right) = effect.effect(&left, &right);
    for m in 0..512 {
        assert_eq!(out_left[m], 5 * 2 * (m as i64) + 3 * (m as i64));
        assert_eq!(out_right[m], -(5 * 2 * (m as i64) + 3 * (m as i64)));
    }
}

#[test]
fn convolution_at_unit_gain_leaves_the_input() {
    let mut effect = ConvolutionEffect::new(&vec![1000], 0, 1000);
    let input: Vec<i16> = (0..512).map(|i| (i as i16) * 60 - 15000).collect();
    let (left, right) = effect.effect(&input, &input);
    for m in 0..512 {
        assert_eq!(left[m], input[m] as i64);
        assert_eq!(right[m], input[m] as i64);
    }
    let mut halved = ConvolutionEffect::new(&vec![1000], 500, 0);
    let (left, _) = halved.effect(&input, &input);
    for m in 0..512 {
        assert_eq!(left[m], (input[m] as i64 * 500).div_euclid(1000));
    }
}

#[test]
fn convolution_reads_only_the_first_block() {
    let filter: Vec<i32> = vec![1000, 1000];
    let mut effect = ConvolutionEffect::new(&filter, 0, 1000);
    let mut long: Vec<i16> = vec![1; 600];
    long[599] = 77;
    let (out, _) = effect.effect(&long, &long);
    assert_eq!(out.len(), 512);
    assert_eq!(out[0], 1);
    assert_eq!(out[1], 2);
    let silence: Vec<i16> = vec![0; 512];
    let (tail, _) = effect.effect(&silence, &silence);
    assert_eq!(tail[0], 1);
    assert_eq!(tail[1], 0);
}

#[test]
fn convolution_with_extreme_values_stays_in_range() {
    assert_eq!(MAX_FILTER_LEN, 2048 * FRAMES_PER_BUFFER);
    let filter: Vec<i32> = vec![i32::MIN; 1500];
    let mut effect = ConvolutionEffect::new(&filter, i16::MIN, i16::MIN);
    let input: Vec<i16> = vec![i16::MIN; 512];
    let mut last = 0;
    for _ in 0..4 {
        let (left, _) = effect.effect(&input, &input);
        last = left[511];
    }
    let y = 1500i128 * (i16::MIN as i128) * (i32::MIN as i128);
    let exact = (i16::MIN as i128) * y + (i16::MIN as i128) * (i16::MIN as i128) * 1000;
    assert_eq!(last as i128, exact.div_euclid(1_000_000));
}
