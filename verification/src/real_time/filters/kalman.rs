pub mod process_noise;
pub mod sigma_points_functions;
