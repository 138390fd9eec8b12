//! Conversion of fonts with private glyph data (`FTFH` and `FTFG` tables) to standard TrueType.

pub mod assets;
pub mod bytes;
pub mod cmap;
pub mod color;
pub mod convert;
pub mod error;
pub mod glyf;
pub mod laws;
pub mod messages;
pub mod names;
pub mod numerals;
pub mod ots;
pub mod outline;
pub mod sfnt;
pub mod tables;
pub mod tags;
pub mod text;

pub use assets::{extract_eimg_frames, EimgFrame};
pub use convert::{convert_ftf, convert_ftf_with, ConvertOptions};
