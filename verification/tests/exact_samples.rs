use dsp_toy_lib::fft::{ir2fft_with_twiddles, r2fft_with_twiddles};
use dsp_toy_lib::math::convolve;
use dsp_toy_lib::signal::{crop, elementwise_add, elementwise_mul, zero_extend_end};
use dsp_toy_lib::modular::{Residue, MODULUS};
use dsp_toy_lib::real_time::filters::filter_iir_peak_bell::FilterIIRPeakBell;
use dsp_toy_lib::signal::{elementwise_div, resample_spectrum, scale};

fn r(v: u64) -> Residue {
    Residue::new(v)
}

fn rs(values: &[u64]) -> Vec<Residue> {
    values.iter().map(|v| r(*v)).collect()
}

fn pow_mod(base: u64, mut exp: u64) -> u64 {
    let m = MODULUS as u128;
    let mut b = base as u128 % m;
    let mut acc: u128 = 1;
    while exp > 0 {
        if exp % 2 == 1 {
            acc = acc * b % m;
        }
        b = b * b % m;
        exp /= 2;
    }
    acc as u64
}

/// A root of unity of order `n` (a power of two): 3 generates the multiplicative group.
fn root_of_unity(n: u64) -> u64 {
    pow_mod(3, (MODULUS - 1) / n)
}

/// Per-pass twiddle tables for `n` samples: pass `s` holds `w^j` for the root `w` of order
/// `2^(s+1)` (its inverse for the inverse transform).
fn twiddles(n: usize, inverse: bool) -> Vec<Vec<Residue>> {
    let mut tables = Vec::new();
    let mut block_len = 2;
    while block_len <= n {
        let mut w = root_of_unity(block_len as u64);
        if inverse {
            w = pow_mod(w, MODULUS - 2);
        }
        tables.push((0..block_len / 2).map(|j| r(pow_mod(w, j as u64))).collect());
        block_len *= 2;
    }
    tables
}

/// The DFT sum `X[k] = sum_j x[j] w^(jk)` with `w` of order `x.len()`, computed directly.
fn dft(x: &[Residue]) -> Vec<Residue> {
    let n = x.len() as u64;
    let w = root_of_unity(n);
    (0..n)
        .map(|k| {
            let mut acc: u128 = 0;
            for (j, v) in x.iter().enumerate() {
                acc = (acc + v.value as u128 * pow_mod(w, j as u64 * k) as u128) % MODULUS as u128;
            }
            r(acc as u64)
        })
        .collect()
}

#[test]
fn residue_arithmetic_is_exact() {
    assert_eq!(r(MODULUS - 1) + r(2), r(1));
    assert_eq!(r(1) - r(2), r(MODULUS - 1));
    assert_eq!(r(MODULUS - 1) * r(MODULUS - 1), r(1));
    assert_eq!(r(6) / r(3), r(2));
    assert_eq!((r(1) / r(2)) * r(2), r(1));
    assert_eq!(r(5) / r(0), r(0));
    // values beyond the modulus are reduced
    assert_eq!(Residue { value: u64::MAX } + r(0), r(u64::MAX % MODULUS));
}

#[test]
fn exact_convolution() {
    // (1 + 2x)(3 + 4x + 5x^2) = 3 + 10x + 13x^2 + 10x^3
    let out = convolve(&rs(&[1, 2]), &rs(&[3, 4, 5]), r(0));
    assert_eq!(out, rs(&[3, 10, 13, 10]));
}

#[test]
fn exact_fft_is_the_dft_and_inverts() {
    let input = rs(&[5, 0, 7, 1, 0, 0, 3, 9]);
    let mut data = input.clone();
    r2fft_with_twiddles(&mut data, &twiddles(8, false));
    assert_eq!(data, dft(&input));
    ir2fft_with_twiddles(&mut data, &twiddles(8, true), r(8));
    assert_eq!(data, input);
}

#[test]
fn exact_resampling_round_trip_of_even_length() {
    // halving and re-adding the Nyquist bin is exact for residues
    let spectrum = rs(&[4, 7, 9, 11]);
    let grown = resample_spectrum(spectrum.clone(), 7, r(0), r(2));
    assert_eq!(grown.len(), 7);
    assert_eq!(grown[2] + grown[5], spectrum[2]);
    assert_eq!(resample_spectrum(grown, 4, r(0), r(2)), spectrum);
}

#[test]
fn exact_elementwise_and_filtering() {
    assert_eq!(scale(rs(&[1, 2, 3]), r(MODULUS - 1)), rs(&[MODULUS - 1, MODULUS - 2, MODULUS - 3]));
    assert_eq!(elementwise_div(rs(&[6, 9]), &rs(&[3])), rs(&[2, 9]));
    // y[n] = x[n] + x[n-1] + y[n-1]
    let mut filter = FilterIIRPeakBell::from_coefficients(rs(&[1, 1]), rs(&[1]), r(0));
    assert_eq!(filter.process_samples(&rs(&[1, 2, 3])), rs(&[1, 4, 9]));
}

#[test]
fn exact_convolution_theorem() {
    // the original's scenario, with residues: -1 is MODULUS - 1
    let signal = zero_extend_end(rs(&[1, 0, MODULUS - 1, 0]), 4, r(0));
    let ir = zero_extend_end(rs(&[8, 3, MODULUS - 1000, 0]), 4, r(0));
    let convolved = crop(convolve(&signal, &ir, r(0)), 0, 8);
    assert_eq!(dft(&convolved), elementwise_mul(dft(&signal), &dft(&ir)));
}

#[test]
fn exact_linearity() {
    let signal = rs(&[1, 0, MODULUS - 1, 0]);
    let dc = rs(&[1, 1, 1, 1]);
    assert_eq!(dft(&elementwise_add(signal.clone(), &dc)), elementwise_add(dft(&signal), &dft(&dc)));
    assert_eq!(dft(&scale(signal.clone(), r(7))), scale(dft(&signal), r(7)));
}
