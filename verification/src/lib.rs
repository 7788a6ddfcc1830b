//! A compositional algebra for music: the verified core.
//!
//! Chord-space navigation, Euclidean rhythm distribution and the routing
//! topology of patches live here with their contracts.

pub mod harmony;
pub mod patch;
pub mod ir;
pub mod construct;
pub mod combine;
pub mod corpus;
