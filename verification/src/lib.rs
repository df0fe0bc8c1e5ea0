pub mod bits;
pub mod dft;
pub mod fft;
pub mod idft;
pub mod math;
pub mod modular;
pub mod sample;
pub mod utility;
pub mod real_time;
pub mod signal;
pub mod spectral;
