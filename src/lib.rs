//! Packs transparent-background images into bounded sprite sheets: shelf
//! packing onto fixed-size canvases, trimming of each canvas to its visible
//! pixels, and the frame of every image in the trimmed sheet.

pub mod raster;
pub mod trim;
pub mod frame;
pub mod sprite;
pub mod layout;
pub mod pack;
pub mod spriterator;
pub mod source;

pub use frame::Frame;
pub use raster::Bitmap;
pub use source::is_supported_extension;
pub use sprite::Sprite;
pub use spriterator::{PackError, Spriterator};
