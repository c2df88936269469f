//! Removal of a solid background color from raster images by algebraic
//! inversion of the alpha-compositing equation, with optional search for
//! unknown foreground colors.
//!
//! All color arithmetic is carried out in exact fixed-point integers
//! (see [`fixed`]), so every numeric step of the engine is verified.

pub mod background;
pub mod color;
pub mod deduce;
pub mod fixed;
pub mod observe;
pub mod paths;
pub mod pipeline;
pub mod raster;
pub mod unmix;
