//! Metaheuristics for loading palets onto trucks and routing the trucks
//! through the cities the palets are bound for.

pub mod algo;
pub mod rng;

