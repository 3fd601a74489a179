//! A genetic-algorithm solver for the capacitated vehicle routing problem:
//! a depot, customers with demands, and a vehicle capacity are turned into
//! an integer distance model, and an evolutionary loop searches for a short
//! set of depot round trips that serves every customer exactly once.

pub mod description;
pub mod matrix;
pub mod data;
pub mod rng;
pub mod chromosome;
pub mod genetic_algo;
