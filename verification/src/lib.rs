//! A simulation of a branching root system competing for two depletable
//! soil resources (water, nitrogen) on a 2D field.
//!
//! Every tick, each root branch extracts resource samples from the soil
//! beneath it, converts the extracted amount into new biomass, and decides
//! how to spend it: lengthen itself, thicken itself, spawn a new child
//! branch, or feed an existing child.
//!
//! All scalar quantities (biomass, concentrations, coordinates, policy
//! ratios) are fixed-point numbers: `i64` counts of millionths, see
//! [`fixed`]. The branch tree is an arena of nodes addressed by index,
//! with child links always pointing to higher indices.

pub mod arena;
pub mod branch;
pub mod fixed;
pub mod geom;
pub mod plant;
pub mod soil;
pub mod stats;
pub mod strategy;
pub mod sums;
pub mod world;
