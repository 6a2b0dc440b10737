//! Decoding of MRC volumetric image files: the fixed 1024-byte header and
//! the three-dimensional sample block that follows it.
//!
//! Everything here works on bytes already in memory, through a
//! [`stream::ByteStream`]. [`header::MRCHeader::read_from_stream`] reads the
//! header, and [`datablock::read_data_block`] decodes the samples that the
//! header describes into an array indexed `[x][y][z]`.
//!
//! Floating-point values are carried as IEEE 754 binary32 bit patterns in
//! `u32`; `f32::from_bits` turns one into a number.

pub mod datablock;
pub mod error;
pub mod grid;
pub mod header;
pub mod image;
pub mod mode;
pub mod rows;
pub mod single;
pub mod stream;
pub mod text;
pub mod value;
pub mod wire;
