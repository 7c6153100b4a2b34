//! A field of falling droplets: fixed-point motion with a stylised, phase-driven
//! gravity model, and deterministic merging of droplets whose circles touch.
//!
//! All lengths, sizes and speeds are fixed-point integers in millionths of a unit
//! (see [`fixed::SCALE`]); elapsed time is counted in microseconds.

pub mod fixed;
pub mod droplet;
pub mod motion;
mod random;
pub mod merge;
pub mod render;
