//! Verified pixel filters over row-major RGBA byte buffers: a box blur and a
//! mirror, together with the framing of their textual parameters.

mod raster;

pub mod blur;
pub mod mirror;
pub mod plugin;
pub mod symmetry;
