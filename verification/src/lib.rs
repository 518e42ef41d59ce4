//! Spatial bookkeeping for a 2D gravitational N-body simulation: the
//! quadtrees that the Barnes-Hut and fast-multipole solvers build over the
//! stars, and the binomial table that the multipole translations use.
//!
//! A star enters the trees as a [`quadrant::Body`]: the index of the star in
//! the simulation and the quadrant it falls in at every level of the
//! recursive subdivision of the simulated box.

pub mod quadrant;
pub mod pascal;
pub mod fmm_adap;
pub mod fmm;
pub mod bh;
pub mod frames;
