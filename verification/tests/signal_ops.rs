use dsp_toy_lib::signal::{
    apply_window, crop, crop_new, elementwise_add, elementwise_div, elementwise_mul,
    elementwise_sub, from_fn, overlap, reconstruct, resample_spectrum, resample_inverse_uses_fft,
    resample_target_len, scale, window_length,
    windows, zero_extend_end, zero_extend_end_mut, zero_extend_start, zero_extend_start_and_end,
    zero_extend_start_mut, WindowFunction,
};
use dsp_toy_lib::signal as ops;
use dsp_toy_lib::utility::equality_accuracy;
use nalgebra::Complex;
use std::f64::consts::PI;

fn c(x: f64) -> Complex<f64> {
    Complex::new(x, 0.)
}

fn signal(values: &[f64]) -> Vec<Complex<f64>> {
    values.iter().map(|x| c(*x)).collect()
}

fn round_to_place(num: f64, place: usize) -> f64 {
    let factor = 10_f64.powi(place as i32);
    (num * factor).round() / factor
}

/// Rough equality of two signals, to `equality_accuracy(None)` decimal places (none configured), over their
/// common length.
fn roughly_eq(a: &[Complex<f64>], b: &[Complex<f64>]) -> bool {
    let places = equality_accuracy(None);
    a.iter().zip(b.iter()).all(|(x, y)| {
        round_to_place(x.re, places) == round_to_place(y.re, places)
            && round_to_place(x.im, places) == round_to_place(y.im, places)
    })
}

fn hann(n: usize, len: usize) -> f64 {
    0.5 - 0.5 * ((2. * PI * n as f64) / len as f64).cos()
}

fn hann_coefficients(size: usize, symmetric: bool) -> Vec<Complex<f64>> {
    let len = window_length(size, symmetric);
    (0..size).map(|i| c(hann(i, len))).collect()
}

#[test]
fn signal_tests_amplitude_change() {
    assert_eq!(equality_accuracy(None), 2);

    let signal = signal(&[0.1, 0.2, -6., -7.]);
    let amplified = scale(signal, c(-2.5));

    assert!(roughly_eq(&amplified, &self::signal(&[-0.25, -0.5, 15., 17.5])));
    assert_eq!(amplified.len(), 4);
}

#[test]
fn lib_amplitude_change() {
    assert_eq!(equality_accuracy(None), 2);

    let signal = signal(&[0.1, 0.2, -6., -7.]);

    assert!(roughly_eq(&scale(signal, c(-2.5)), &self::signal(&[-0.25, -0.5, 15., 17.5])));
}

#[test]
fn signal_tests_windowing() {
    assert_eq!(equality_accuracy(None), 2);

    let signal = signal(&[10.].repeat(40));
    let window_size = 20;
    let hop_size = 10;

    let window = hann_coefficients(window_size, false);
    let frames = windows(&signal, window_size, hop_size, 3, &window);
    let a = frames[0].clone();
    let reconstructed = overlap(overlap(a, &frames[1], hop_size, c(0.)), &frames[2], hop_size * 2, c(0.));

    let expected = self::signal(&[
        0., 0.24, 0.95, 2.06, 3.45, 5., 6.55, 7.94, 9.05, 9.76, 10., 10., 10., 10., 10., 10., 10.,
        10., 10., 10., 10., 10., 10., 10., 10., 10., 10., 10., 10., 10., 10., 9.76, 9.05, 7.94,
        6.55, 5., 3.45, 2.06, 0.95, 0.24,
    ]);
    assert_eq!(reconstructed.len(), expected.len());
    assert!(roughly_eq(&reconstructed, &expected));
}

#[test]
fn lib_windowing() {
    assert_eq!(equality_accuracy(None), 2);

    let signal = signal(&[10.].repeat(40));
    let window_size = 20;
    let hop_size = 10;

    let window = hann_coefficients(window_size, false);
    let frames = windows(&signal, window_size, hop_size, 3, &window);
    let a = frames[0].clone();
    let reconstructed = overlap(overlap(a, &frames[1], hop_size, c(0.)), &frames[2], hop_size * 2, c(0.));

    let expected = self::signal(&[
        0., 0.24, 0.95, 2.06, 3.45, 5., 6.55, 7.94, 9.05, 9.76, 10., 10., 10., 10., 10., 10., 10.,
        10., 10., 10., 10., 10., 10., 10., 10., 10., 10., 10., 10., 10., 10., 9.76, 9.05, 7.94,
        6.55, 5., 3.45, 2.06, 0.95, 0.24,
    ]);
    assert_eq!(reconstructed.len(), expected.len());
    assert!(roughly_eq(&reconstructed, &expected));
}

#[test]
fn signal_tests_stft() {
    assert_eq!(equality_accuracy(None), 2);

    let signal = signal(&[
        0.5, -0.5, 0.5, -0.5, 0.5, -0.5, 0.5, -0.5, 0.5, -0.5, 0.5, -0.5, 1., 0., -1., 0., 1., 0.,
        -1., 0., 1., 0., -1., 0.,
    ]);
    let window_size = 8;
    let hop_size = 4;
    let windows_num = 5;

    let frames = windows(&signal, window_size, hop_size, windows_num, &hann_coefficients(window_size, false));

    let expected = self::signal(&[
        0., -0.07, 0.25, -0.43, 0.5, -0.5, 0.5, -0.5, 0.5, -0.5, 0.5, -0.5, 1., 0., -1., 0., 1.,
        0., -1., 0., 1., 0., -0.5, 0.,
    ]);
    let reconstructed = reconstruct(&frames, hop_size, c(0.));
    assert_eq!(reconstructed.len(), expected.len());
    assert!(roughly_eq(&reconstructed, &expected));
}

#[test]
fn lib_stft() {
    assert_eq!(equality_accuracy(None), 2);

    let signal = signal(&[
        0.5, -0.5, 0.5, -0.5, 0.5, -0.5, 0.5, -0.5, 0.5, -0.5, 0.5, -0.5, 1., 0., -1., 0., 1., 0.,
        -1., 0., 1., 0., -1., 0.,
    ]);
    let window_size = 8;
    let hop_size = 4;
    let windows_num = 5;

    let frames = windows(&signal, window_size, hop_size, windows_num, &hann_coefficients(window_size, false));

    let expected = self::signal(&[
        0., -0.07, 0.25, -0.43, 0.5, -0.5, 0.5, -0.5, 0.5, -0.5, 0.5, -0.5, 1., 0., -1., 0., 1.,
        0., -1., 0., 1., 0., -0.5, 0.,
    ]);
    let reconstructed = reconstruct(&frames, hop_size, c(0.));
    assert_eq!(reconstructed.len(), expected.len());
    assert!(roughly_eq(&reconstructed, &expected));
}

#[test]
fn rectangular_windows_reconstruct_the_signal() {
    let input = signal(&[1., 1., 1., 1.]);
    let window_size = 2;
    let hop_size = 2;
    let windows_count = 2;
    assert_eq!(WindowFunction::from_code(2), WindowFunction::Rectangular);

    let frames = windows(&input, window_size, hop_size, windows_count, &signal(&[1., 1.]));
    let reconstructed = reconstruct(&frames, hop_size, c(0.));

    assert!(roughly_eq(&reconstructed, &input));
    assert_eq!(reconstructed.len(), input.len());
}

#[test]
fn zero_extension_pads_with_zero() {
    let s = vec![1i64, 2, 3];
    assert_eq!(zero_extend_end(s.clone(), 2, 0), vec![1, 2, 3, 0, 0]);
    assert_eq!(zero_extend_start(s.clone(), 2, 0), vec![0, 0, 1, 2, 3]);
    assert_eq!(zero_extend_start_and_end(s.clone(), 1, 0), vec![0, 1, 2, 3, 0]);
    let mut m = s.clone();
    zero_extend_end_mut(&mut m, 1, 9);
    assert_eq!(m, vec![1, 2, 3, 9]);
    let mut m = s.clone();
    zero_extend_start_mut(&mut m, 3, 9);
    assert_eq!(m, vec![9, 9, 9, 1, 2, 3]);
    assert_eq!(zero_extend_end(Vec::<i64>::new(), 0, 0), Vec::<i64>::new());
}

#[test]
fn crop_keeps_the_span_and_clamps_the_end() {
    let s = vec![10i64, 11, 12, 13, 14];
    assert_eq!(crop(s.clone(), 1, 3), vec![11, 12]);
    assert_eq!(crop(s.clone(), 2, 100), vec![12, 13, 14]);
    assert_eq!(crop(s.clone(), 5, 5), Vec::<i64>::new());
    assert_eq!(crop_new(&s, 0, 5), s);
    assert_eq!(crop_new(&s, 3, 4), vec![13]);
    // crop undoes zero extension
    assert_eq!(crop(zero_extend_end(s.clone(), 3, 0), 0, 5), s);
    assert_eq!(crop(zero_extend_start_and_end(s.clone(), 3, 0), 3, 8), s);
}

#[test]
fn concat_appends() {
    assert_eq!(ops::concat(vec![1i64, 2], &[3, 4, 5]), vec![1, 2, 3, 4, 5]);
    assert_eq!(ops::concat(Vec::<i64>::new(), &[]), Vec::<i64>::new());
    assert_eq!(crop(ops::concat(vec![1i64, 2], &[3]), 0, 2), vec![1, 2]);
}

#[test]
fn overlap_adds_from_offset() {
    // covered part adds, the tail comes from `other`
    assert_eq!(overlap(vec![1i64, 2, 3], &[10, 20, 30], 1, 0), vec![1, 12, 23, 30]);
    // offset at the end: plain concatenation
    assert_eq!(overlap(vec![1i64, 2], &[5], 2, 0), vec![1, 2, 5]);
    // offset 0 on an empty signal
    assert_eq!(overlap(Vec::<i64>::new(), &[4, 5], 0, 0), vec![4, 5]);
}

#[test]
fn reconstruct_overlap_adds_every_frame() {
    let frames = vec![vec![1i64, 1, 1, 1], vec![2, 2, 2, 2], vec![3, 3, 3, 3]];
    assert_eq!(reconstruct(&frames, 2, 0), vec![1, 1, 3, 3, 5, 5, 3, 3]);
    assert_eq!(reconstruct(&Vec::<Vec<i64>>::new(), 2, 0), Vec::<i64>::new());
}

#[test]
fn window_frames_and_lengths() {
    assert_eq!(window_length(8, true), 7);
    assert_eq!(window_length(8, false), 8);
    let data: Vec<i64> = (0..10).collect();
    let frames = windows(&data, 4, 3, 3, &[1, 2, 1, 0]);
    assert_eq!(frames, vec![vec![0, 2, 2, 0], vec![3, 8, 5, 0], vec![6, 14, 8, 0]]);
    assert_eq!(apply_window(vec![1i64, 2, 3], &[2, 0, -1]), vec![2, 0, -3]);
}

#[test]
fn window_codes() {
    assert_eq!(WindowFunction::from_code(0), WindowFunction::Hann);
    assert_eq!(WindowFunction::from_code(1), WindowFunction::Hamming);
    assert_eq!(WindowFunction::from_code(2), WindowFunction::Rectangular);
    assert_eq!(WindowFunction::from_code(3), WindowFunction::Blackman);
    assert_eq!(WindowFunction::from_code(200), WindowFunction::Rectangular);
}

#[test]
fn elementwise_ops_cover_the_common_length() {
    assert_eq!(elementwise_add(vec![1i64, 2, 3], &[10, 20]), vec![11, 22, 3]);
    assert_eq!(elementwise_sub(vec![1i64, 2], &[10, 20, 30]), vec![-9, -18]);
    assert_eq!(elementwise_mul(vec![2i64, 3, 4], &[5, 6, 7]), vec![10, 18, 28]);
    assert_eq!(elementwise_div(vec![10i64, 9], &[5, 3]), vec![2, 3]);

    let sum = elementwise_add(signal(&[1., 0., -1., 0.]), &signal(&[1., 1., 1., 1.]));
    assert!(roughly_eq(&sum, &signal(&[2., 1., 0., 1.])));
}

#[test]
fn spectrum_relayout_for_resampling() {
    // growing an even-length spectrum splits the Nyquist bin
    assert_eq!(resample_spectrum(vec![1i64, 2, 8, 4], 7, 0, 2), vec![1, 2, 4, 0, 0, 4, 4]);
    // growing an odd-length spectrum inserts zeros after the middle
    assert_eq!(resample_spectrum(vec![1i64, 2, 3], 5, 0, 2), vec![1, 2, 0, 0, 3]);
    // shrinking to an even length merges the mirrored bins
    assert_eq!(resample_spectrum(vec![1i64, 2, 3, 4, 5, 6], 4, 0, 2), vec![1, 2, 8, 6]);
    // shrinking to an odd length keeps both ends
    assert_eq!(resample_spectrum(vec![1i64, 2, 3, 4, 5, 6], 3, 0, 2), vec![1, 2, 6]);
    // same length: unchanged
    assert_eq!(resample_spectrum(vec![1i64, 2, 3], 3, 0, 2), vec![1, 2, 3]);
    // odd length grown and shrunk back is unchanged
    let grown = resample_spectrum(vec![7i64, 8, 9, 10, 11], 9, 0, 2);
    assert_eq!(resample_spectrum(grown, 5, 0, 2), vec![7, 8, 9, 10, 11]);
}

#[test]
fn from_fn_evaluates_each_index() {
    assert_eq!(from_fn(|i: usize| i * i, 2, 5), vec![4, 9, 16]);
    assert_eq!(from_fn(|i: usize| i, 5, 2), Vec::<usize>::new());
}

#[test]
fn resample_requests() {
    assert_eq!(resample_target_len(Some(13), None), Ok(13));
    assert_eq!(resample_target_len(None, Some(7)), Ok(7));
    assert!(resample_target_len(None, None).is_err());
    assert!(resample_target_len(Some(3), Some(3)).is_err());
    // growing 12 -> 16 samples (even layout, power of two) uses the inverse FFT
    assert!(resample_inverse_uses_fft(12, 16));
    // growing an odd-length spectrum always uses the inverse DFT
    assert!(!resample_inverse_uses_fft(7, 8));
    // shrinking to an odd length uses the inverse DFT
    assert!(!resample_inverse_uses_fft(12, 7));
    // shrinking to 8 samples uses the inverse FFT
    assert!(resample_inverse_uses_fft(12, 8));
    assert!(!resample_inverse_uses_fft(12, 13));
}
