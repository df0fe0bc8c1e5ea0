use dsp_toy_lib::real_time::filters::kalman::process_noise::{matrix_source, MatrixSource};
use dsp_toy_lib::real_time::filters::kalman::sigma_points_functions::julier::Julier;
use dsp_toy_lib::real_time::filters::filter_iir_peak_bell::{
    expand_roots, normalize_feedback, normalize_feedforward, FilterIIRPeakBell,
};
use dsp_toy_lib::real_time::real_time_signal_processer::RealTimeSignalProcessor;
use dsp_toy_lib::utility::equality_accuracy;
use nalgebra::Complex;
use std::f64::consts::PI;

fn round_to_place(num: f64, place: usize) -> f64 {
    let factor = 10_f64.powi(place as i32);
    (num * factor).round() / factor
}

/// A real peak-bell filter for the EQ bands `(frequency, gain, q)`: each band contributes a
/// pole and a zero and their conjugates.
fn peak_bell_real(bands: &[(f64, f64, f64)], sample_rate: usize) -> FilterIIRPeakBell<f64> {
    let mut poles = Vec::new();
    let mut zeroes = Vec::new();
    for (band_freq, band_gain, band_q) in bands.iter() {
        let angle = 2. * PI * (*band_freq / sample_rate as f64);
        let thickness = angle.sin() / (2. * band_q);
        let amplitude = 10_f64.powf(band_gain / 40.);
        let pole_radius =
            f64::sqrt((1. - thickness / amplitude).clamp(0., f64::MAX) / (1. + thickness / amplitude));
        let zero_radius =
            f64::sqrt((1. - thickness * amplitude).clamp(0., f64::MAX) / (1. + thickness * amplitude));
        poles.push(Complex::new(pole_radius * angle.cos(), pole_radius * angle.sin()));
        poles.push(Complex::new(pole_radius * angle.cos(), -1. * pole_radius * angle.sin()));
        zeroes.push(Complex::new(zero_radius * angle.cos(), zero_radius * angle.sin()));
        zeroes.push(Complex::new(zero_radius * angle.cos(), -1. * zero_radius * angle.sin()));
    }
    let one = Complex::new(1., 0.);
    let minus_one = Complex::new(-1., 0.);
    let zero = Complex::new(0., 0.);
    let feedforward: Vec<f64> = expand_roots(&zeroes, one, minus_one, zero).iter().map(|x| x.re).collect();
    let feedback: Vec<f64> = expand_roots(&poles, one, minus_one, zero).iter().map(|x| x.re).collect();
    let first = feedback[0];
    FilterIIRPeakBell::from_coefficients(
        normalize_feedforward(&feedforward, first),
        normalize_feedback(&feedback, first, -1.),
        0.,
    )
}

#[test]
fn equality_accuracy_is_two_places() {
    assert_eq!(equality_accuracy(None), 2);
    assert_eq!(equality_accuracy(Some(5)), 5);
    assert_eq!(equality_accuracy(Some(0)), 0);
}

#[test]
fn iir_filter_difference_equation() {
    // y[n] = x[n] + 2 x[n-1] + 0.5 y[n-1]
    let mut filter = FilterIIRPeakBell::from_coefficients(vec![1., 2.], vec![0.5], 0.);
    let outputs: Vec<f64> = [1., 0., 0., 1.].iter().map(|x| filter.process_sample(*x)).collect();
    assert_eq!(outputs, vec![1., 2.5, 1.25, 1.625]);
}

#[test]
fn iir_filter_remembers_only_its_history() {
    let mut filter = FilterIIRPeakBell::from_coefficients(vec![1i64], vec![1], 0);
    // a running sum
    let outputs: Vec<i64> = [3, 4, 5].iter().map(|x| filter.process_sample(*x)).collect();
    assert_eq!(outputs, vec![3, 7, 12]);
}

#[test]
fn julier_keeps_kappa_and_weights() {
    let julier = Julier::<f64, 3, 7>::new(2.);
    assert_eq!(julier.kappa, 2.);
    let w = julier.weights(3., 1., 2.);
    assert_eq!(w.len(), 7);
    assert!((w[0] - 0.4).abs() < 1e-12);
    assert!(w[1..].iter().all(|x| (x - 0.1).abs() < 1e-12));
}

#[test]
fn model_matrix_precedence() {
    assert_eq!(matrix_source(false, true, true), MatrixSource::Absent);
    assert_eq!(matrix_source(true, true, true), MatrixSource::FromInput);
    assert_eq!(matrix_source(true, false, true), MatrixSource::ScaledByTimeStep);
    assert_eq!(matrix_source(true, false, false), MatrixSource::Configured);
}

#[test]
fn signal_tests_iir_eq_filter() {
    assert_eq!(equality_accuracy(None), 2);

    // random noise
    let signal = [
        -3.2, 4.7, 1.8, -0.5, -4.1, 3.4, 0.9, -2.8, 2.1, -1.6, 0.3, -4.8, 4.0, 1.2, -3.7, 2.6, -0.1, 3.8,
        -1.3, 4.5,
    ];
    let sample_rate = 20;

    let band_1 = (5., 20., 5.);
    let band_2 = (9.9, -20., 0.5);

    let mut filter = peak_bell_real([band_1, band_2].as_slice(), sample_rate);
    let filtered = filter.process_samples(&signal);

    let expected = [
        -3.2, 4.16, 4.41, -3.03, -6.06, 4.38, 6.36, -6.98, -2.02, 2.76, 3.37, -8.04, -0.15, 7.96, -3.19,
        -3.04, 0.47, 8.1, -1., -2.04,
    ];
    assert_eq!(filtered.len(), expected.len());
    for (got, want) in filtered.iter().zip(expected.iter()) {
        assert_eq!(round_to_place(*got, equality_accuracy(None)), round_to_place(*want, equality_accuracy(None)));
    }
}

#[test]
fn polynomial_from_roots() {
    // (1 - 2 z^-1)(1 - 3 z^-1) = 1 - 5 z^-1 + 6 z^-2
    assert_eq!(expand_roots(&[2i64, 3], 1, -1, 0), vec![1, -5, 6]);
    assert_eq!(expand_roots(&[] as &[i64], 1, -1, 0), vec![1]);
}

#[test]
fn coefficient_normalization() {
    assert_eq!(normalize_feedforward(&[2., 4., 6.], 2.), vec![1., 2., 3.]);
    // leading coefficient dropped, the rest negated and divided
    assert_eq!(normalize_feedback(&[2., 4., -6.], 2., -1.), vec![-2., 3.]);
    assert_eq!(normalize_feedback(&[] as &[f64], 2., -1.), Vec::<f64>::new());
}

#[test]
fn filtering_a_signal_runs_every_sample() {
    // y[n] = x[n] + 2 x[n-1] + 0.5 y[n-1]
    let mut filter = FilterIIRPeakBell::from_coefficients(vec![1., 2.], vec![0.5], 0.);
    assert_eq!(filter.process_samples(&[1., 0., 0.]), vec![1., 2.5, 1.25]);
    // the history carries over to the next call
    assert_eq!(filter.process_samples(&[1.]), vec![1.625]);
}
