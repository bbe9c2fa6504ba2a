//! A glyph-atlas library: a skyline rectangle packer that packs greyscale
//! glyph bitmaps into one growable atlas bitmap, together with the atlas
//! and face-cache layers that map characters to their packed location and
//! layout metrics.

pub mod atlas;
pub mod bitmap;
pub mod buffer2d;
pub mod cache;
pub mod rect;
pub mod skyline;

pub use atlas::make_atlas;
pub use atlas::Atlas;
pub use atlas::CharInfo;
pub use atlas::RenderedChar;
pub use atlas::RenderedGlyph;
pub use bitmap::Bitmap;
pub use buffer2d::Buffer2d;
pub use buffer2d::ResizeBuffer;
pub use cache::DrawCommand;
pub use cache::FaceCache;
pub use rect::Rect;
pub use skyline::NoFit;
pub use skyline::SkylinePacker;
