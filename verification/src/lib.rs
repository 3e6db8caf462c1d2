//! Discrete core of the VCV48 kernels: 3-smooth arithmetic, the O_h group,
//! braid words, rational approximations and the pseudo-random generators.

pub mod smooth;
pub mod band;
pub mod rng;
pub mod text;
pub mod axion;
pub mod octahedral;
pub mod fraction;
pub mod braid;
pub mod species;
pub mod lattice;
pub mod perturb;
pub mod audit;
pub mod spectrum;
pub mod catalog;
pub mod random;
pub mod stream;
