//! Reading and writing of PCX images, with verified contracts.
//!
//! The crate works on in-memory byte vectors: a file is loaded by the
//! surrounding application and handed to [`Reader::new`] as a `Vec<u8>`;
//! the writers build the complete file and hand it back from `finish` /
//! `write_palette`.

use vstd::prelude::*;

pub mod error;
pub mod header;
pub mod reader;
pub mod rle;
pub mod round_trip;
pub mod writer;

pub use error::DecodingError;
pub use reader::Reader;
pub use writer::WriterPaletted;
pub use writer::WriterRgb;

verus! {

/// First byte of every PCX file.
pub const MAGIC_BYTE: u8 = 0x0A;

/// Byte marking the start of the 256-color palette at the end of the file.
pub const PALETTE_START: u8 = 0x0C;

} // verus!
