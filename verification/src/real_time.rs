pub mod filters;
pub mod real_time_signal_processer;
