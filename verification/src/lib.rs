//! Verified core of a tool that stitches satellite map tiles into one large
//! wallpaper image: argument validation, output naming, the tile grid layout,
//! request URLs, retry decisions and the tile stitching itself.

pub mod text;
pub mod cli;
pub mod raster;
pub mod tile_math;
pub mod downloader;
pub mod geocoder;
pub mod stitcher;
pub mod tile_order;
