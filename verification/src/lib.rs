//! Spritesheet layout, frame sampling and inbetween scheduling for
//! optical-flow frame interpolation.

pub mod raster;
pub mod frame;
pub mod spritesheet;
pub mod interpolation;
pub mod algorithm;
