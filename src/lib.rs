//! Synthesis of an image in which every color of a discretized RGB cube
//! appears exactly once, grown so that neighbouring pixels hold similar colors.
pub mod random;
pub mod pool;
pub mod kernel;
pub mod color;
pub mod frontier;
pub mod config;
pub mod raster;
pub mod search;
pub mod growth;
pub mod run;

pub use color::ColorBase;
pub use config::{Config, ConfigError};
pub use pool::Pool;
pub use raster::color_base_to_color;
pub use run::{make_image, Raster};
