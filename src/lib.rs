pub mod algos;
pub mod baseline_algo;
pub mod game;
mod rng;
