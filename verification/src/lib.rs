pub mod color;
pub mod data;
pub mod error;
pub mod manager;
pub mod palette;
pub mod raster;
pub mod round_trip;
pub mod sheet;
pub mod sprite;
pub mod store;
