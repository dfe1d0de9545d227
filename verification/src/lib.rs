//! Cooperative game theory primitives over coalitions of players: bitmask
//! coalitions, the enumeration of every order of the players, a seeded
//! random order, and coalition structures (partitions of the players into
//! groups).

pub mod coalition;
pub mod enumeration;
pub mod permutation;
pub mod stability;

pub use coalition::Coalition;

pub use permutation::{next_permutation, random_permutation, SimpleRng};
pub use stability::{CoalitionStructure, StabilityAnalysis, StabilityReport};
