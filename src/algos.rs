pub mod algos_utils;
pub mod baseline_algo;
pub mod depth_one_entropy_algo;
pub mod fixed_log;
