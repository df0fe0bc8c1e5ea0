# dsp_toy_lib

A small digital signal processing toolkit (DFT/FFT, STFT, FIR/IIR filtering, Kalman
filtering) whose sample-handling core is verified with Verus.

## Layout

- `src/` — the verified library. Samples are of any copyable type with `+`, `-`, `*`, `/`;
  contracts are stated over vstd's specifications of those operators. The clauses that give
  sample values apply to types whose operators carry such a specification and are defined
  for every pair of values, such as the library's own `modular::Residue` (integers modulo
  a prime); vstd gives `f64` and complex numbers no such specification, so for them the
  contracts fix the lengths and the layout of the results but not their values.
  - `modular` — `Residue`, the exact sample type, with `+ - * /` modulo the prime.
  - `dft`, `idft` — the DFT over residues, and the laws that the radix-2 FFT computes it
    and that the inverse FFT undoes the forward one.
  - `spectral` — linearity of the DFT and the convolution theorem, over residues.
  - `bits`, `fft` — binary digits and bit reversal of indices, power-of-two lengths, the
    in-place radix-2 FFT (bit-reversal permutation and butterfly passes) and its inverse,
    and the even/odd split and recombination of a recursive FFT.
  - `math` — direct time-domain convolution.
  - `signal` — padding, cropping, concatenation, overlap-add, framing with a window,
    reconstruction from frames, element-wise arithmetic and the spectrum re-layout used for
    resampling.
  - `real_time` — the `RealTimeSignalProcessor` trait, the peak-bell IIR filter (its
    difference equation, coefficient expansion from poles and zeroes, normalization, and
    filtering of whole signals), and the pieces of the Kalman filters that are not matrix
    arithmetic (Julier sigma-point weights, the choice of model matrices).
- `tests/` — tests of the library on concrete values.
- `app/` — the demo program and everything that works on floating-point values directly:
  the `Signal` type over complex `f64` samples, trigonometric window functions and DFTs,
  filter design, the nalgebra-based Kalman filters and the C ABI.
