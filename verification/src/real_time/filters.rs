pub mod filter_iir_peak_bell;
pub mod kalman;
