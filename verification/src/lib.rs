//! Symmetry groups and equivariance structure for agent systems on graphs.
//!
//! This crate holds the discrete, integer-valued part of a geometric deep
//! learning toolkit: finite groups given by their multiplication tables,
//! permutations of agents, cyclic time shifts, representation dimensions,
//! graph connectivity patterns and the configuration and layer planning of
//! equivariant models. Every function here is verified with Verus.

pub mod agent;
pub mod config;
pub mod gauge;
pub mod graph;
pub mod group_conv;
pub mod lex_order;
pub mod permutation;
pub mod rotation;
pub mod spatial;
pub mod spectral;
pub mod time_equiv;
pub mod universal;
