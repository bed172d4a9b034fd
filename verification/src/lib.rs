//! A cache for tiled, mip-mapped textures.
//!
//! A tiled image file holds an image and its smaller levels. The texels of the larger levels are
//! rearranged into square tiles, so that the texels around one come with one read; the smallest
//! levels stand next to the header and are kept in memory. The cache keeps tiles of any number of
//! such files in a bounded amount of memory.
pub mod bytes;
pub mod cache;
pub mod cache_laws;
pub mod cache_steps;
pub mod create;
pub mod decimal;
pub mod file_descriptor;
pub mod file_laws;
pub mod hash_table;
pub mod header;
pub mod image;
pub mod layout;
pub mod mip_laws;
pub mod mips;
pub mod number_laws;
pub mod placement;
pub mod power_of_two;
pub mod round_trip;
pub mod storable;
pub mod table_laws;
pub mod table_steps;
pub mod texel;
pub mod texel_laws;
pub mod tiles;

pub use cache::TextureCache;
pub use image::TiledImage;
pub use mips::WrapMode;
pub use power_of_two::PowerOfTwo;
pub use texel::{Luma, PixelFormat, Rgb, Rgba, Texel};
