pub mod bitmap2d;
pub mod bits;
pub mod pixel_encoding;
pub mod tile;
pub mod tile_buffer;
pub mod tile_iter;
mod words;
