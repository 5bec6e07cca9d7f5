//! Tile arithmetic, tile addressing and lake-map image processing for the
//! Minnesota DNR lake depth map tile service.

pub mod location;
pub mod text;
pub mod raster;
pub mod region;
pub mod img_ops;
pub mod fetch;
pub mod mosaic;
pub mod archive;
pub mod convert;
