//! Verified core of a ground segmentation pipeline for airborne laser
//! scanning point clouds: histogram analysis of elevation offsets, grid
//! sampling of the lowest point per cell, region growing of the ground
//! class over a neighbourhood graph, scoring against a reference
//! classification, and binary PLY encoding.
//!
//! Everything that needs floating point (coordinates, normals, distances)
//! is computed by the caller and handed over as integers: an order key for
//! each value that must be compared, a precomputed cell index or a list of
//! accepted neighbours.

pub mod histogram;
pub mod sampling;
pub mod propagation;
pub mod scoring;
pub mod ply;
