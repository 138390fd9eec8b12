//! What holds of the formats as a whole.

pub mod assets;
pub mod bytes;
pub mod cmap;
pub mod color;
pub mod conversion;
pub mod directory;
pub mod elements;
pub mod font;
pub mod fonts;
pub mod glyph;
pub mod lookups;
pub mod outline;
pub mod paints;
pub mod records;
pub mod refusals;
pub mod tables;
pub mod text;
pub mod transforms;
