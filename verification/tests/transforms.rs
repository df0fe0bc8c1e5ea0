use dsp_toy_lib::fft::{
    bit_reverse_permute, butterflies, combine_halves, divide_each, exact_log2, ir2fft_with_twiddles,
    is_power_of_two, r2fft_with_twiddles, reverse_bits, split_even_odd,
};
use dsp_toy_lib::math::{convolution_output_len, convolve};
use nalgebra::Complex;
use std::f64::consts::PI;

fn twiddles(n: usize, inverse: bool) -> Vec<Vec<Complex<f64>>> {
    let mut tables = Vec::new();
    let mut block_len = 2;
    while block_len <= n {
        let half_len = block_len / 2;
        let table = (0..half_len)
            .map(|j| {
                let angle = (2. * PI * j as f64) / block_len as f64;
                if inverse {
                    Complex::new(angle.cos(), angle.sin())
                } else {
                    Complex::new(angle.cos(), -1. * angle.sin())
                }
            })
            .collect();
        tables.push(table);
        block_len *= 2;
    }
    tables
}

fn close(a: &[Complex<f64>], b: &[Complex<f64>]) -> bool {
    a.len() == b.len() && a.iter().zip(b).all(|(x, y)| (x - y).norm() < 1e-5)
}

#[test]
fn bit_reversal_of_indices() {
    assert_eq!(reverse_bits(1, 3), 4);
    assert_eq!(reverse_bits(6, 3), 3);
    assert_eq!(reverse_bits(0, 0), 0);
    assert_eq!(reverse_bits(1, 4), 8);
    assert_eq!(reverse_bits(reverse_bits(11, 4), 4), 11);
}

#[test]
fn bit_reverse_permutation_reorders_and_undoes_itself() {
    let mut data: Vec<u32> = (0..8).collect();
    bit_reverse_permute(&mut data);
    assert_eq!(data, vec![0, 4, 2, 6, 1, 5, 3, 7]);
    bit_reverse_permute(&mut data);
    assert_eq!(data, (0..8).collect::<Vec<u32>>());
    let mut one = vec![5u32];
    bit_reverse_permute(&mut one);
    assert_eq!(one, vec![5]);
    let mut empty: Vec<u32> = vec![];
    bit_reverse_permute(&mut empty);
    assert!(empty.is_empty());
}

#[test]
fn powers_of_two() {
    assert!(is_power_of_two(1));
    assert!(is_power_of_two(64));
    assert!(!is_power_of_two(0));
    assert!(!is_power_of_two(12));
    assert_eq!(exact_log2(1), 0);
    assert_eq!(exact_log2(1024), 10);
}

#[test]
fn fft_of_impulse_is_flat_and_round_trips() {
    let mut data = vec![Complex::new(1., 0.), Complex::new(0., 0.), Complex::new(0., 0.), Complex::new(0., 0.)];
    r2fft_with_twiddles(&mut data, &twiddles(4, false));
    assert!(close(&data, &[Complex::new(1., 0.); 4]));

    let mut data = vec![Complex::new(1., 0.), Complex::new(0., 0.), Complex::new(-1., 0.), Complex::new(0., 0.)];
    r2fft_with_twiddles(&mut data, &twiddles(4, false));
    assert!(close(&data, &[Complex::new(0., 0.), Complex::new(2., 0.), Complex::new(0., 0.), Complex::new(2., 0.)]));
}

#[test]
fn convolution_and_fft_round_trip_values() {
    let convolved = convolve(&[Complex::new(1., 0.), Complex::new(2., 0.)], &[Complex::new(3., 0.), Complex::new(4., 0.)], Complex::new(0., 0.));
    assert!(close(&convolved, &[Complex::new(3., 0.), Complex::new(10., 0.), Complex::new(8., 0.)]));

    let real = [0.25, -1., 2.5, 0., 1.25, -0.5, 3., 4.];
    let imag = [0.5, 0., -0.25, 1.5, -1., 2., 0.75, -0.5];
    let input: Vec<Complex<f64>> = real.iter().zip(imag.iter()).map(|(r, i)| Complex::new(*r, *i)).collect();
    let mut data = input.clone();
    r2fft_with_twiddles(&mut data, &twiddles(8, false));
    ir2fft_with_twiddles(&mut data, &twiddles(8, true), Complex::new(8., 0.));
    assert!(close(&data, &input));
}

#[test]
fn butterflies_on_bit_reversed_input() {
    let mut data = vec![Complex::new(1., 0.), Complex::new(2., 0.)];
    butterflies(&mut data, &twiddles(2, false));
    assert!(close(&data, &[Complex::new(3., 0.), Complex::new(-1., 0.)]));
    let mut ints = vec![1i64, 2, 3, 4];
    butterflies(&mut ints, &[vec![1], vec![1, 1]]);
    assert_eq!(ints, vec![10, -2, -4, 0]);
}

#[test]
fn divide_each_sample() {
    let mut data = vec![8i64, 4, -6];
    divide_each(&mut data, 2);
    assert_eq!(data, vec![4, 2, -3]);
}

#[test]
fn convolution_lengths_and_values() {
    assert_eq!(convolve(&[1i64, 2, 3], &[1, 1], 0), vec![1, 3, 5, 3]);
    assert_eq!(convolve(&[1i64, 0, -1, 0], &[1], 0), vec![1, 0, -1, 0]);
    assert_eq!(convolve(&[], &[4i64, 5], 0), vec![0]);
    assert_eq!(convolve(&[7i64], &[], 0), Vec::<i64>::new());
}

#[test]
fn even_odd_split_and_recombination() {
    let (evens, odds) = split_even_odd(&[0i64, 1, 2, 3, 4]);
    assert_eq!(evens, vec![0, 2, 4]);
    assert_eq!(odds, vec![1, 3]);
    // twiddles 1, 2, 4: [e0 + 1*o0, e1 + 2*o1, e0 - 1*o0, e1 - 2*o1]
    assert_eq!(combine_halves(&[1i64, 2], &[10, 20], 2, 1), vec![11, 42, -9, -38]);
}

#[test]
fn convolution_requests_need_samples_on_both_sides() {
    assert_eq!(convolution_output_len(4, 3), Some(6));
    assert_eq!(convolution_output_len(1, 1), Some(1));
    assert_eq!(convolution_output_len(0, 3), None);
    assert_eq!(convolution_output_len(3, 0), None);
    assert_eq!(convolution_output_len(usize::MAX, 2), None);
    assert_eq!(convolution_output_len(usize::MAX, 1), Some(usize::MAX));
}
