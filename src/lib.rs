//! Turns a tagged geographic map extract into a consistent intersection/road graph.
//!
//! Coordinates are fixed-point integers: geographic points in units of 1e-7 degrees,
//! planar points in centimeters. Every cross-reference between graph entities is a
//! stable integer ID into a table owned by the map.

pub mod geom;
pub mod tags;
pub mod classify;
pub mod multipolygon;
pub mod raw_data;
pub mod extract;
pub mod initial;
pub mod merge;
pub mod geometry;
pub mod anomaly;
pub mod tick;
pub mod cli;
