//! Discrete core of a sonar perception pipeline: occupancy grids, radar pictures,
//! echo peak selection, noise words, track bookkeeping, filter windows and beam
//! alignment.

pub mod beam;
pub mod noise;
pub mod occupancy;
pub mod peaks;
pub mod radar;
pub mod tracks;
pub mod windows;
