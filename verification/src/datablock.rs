//! The data block: samples in one of eight encodings, decoded into a
//! three-dimensional array.

use crate::error::DecodeError;
use crate::grid::{cell, new_complex_grid, new_real_grid, shaped, within, ComplexSample};
use crate::header::MRCHeader;
use crate::mode::Mode;
use crate::rows::{
    fill_complex, fill_real, lemma_sample_offset, lemma_sample_within_block,
};
use crate::single::{single_of_half, single_of_int};
use crate::stream::ByteStream;
use crate::wire::{le_i16, le_i32, le_i8, le_u16};
use vstd::arithmetic::div_mod::lemma_fundamental_div_mod_converse;
use vstd::prelude::*;
use vstd::slice::slice_subrange;

verus! {

/// The place of the sample at `(x, y, z)` in wire order: columns run
/// fastest, then rows, then sections.
pub open spec fn wire_index(x: int, y: int, z: int, nx: int, ny: int) -> int {
    (z * ny + y) * nx + x
}

/// One of the two 4-bit values packed in `byte`.
pub open spec fn nibble(byte: int, high: bool) -> int {
    if high {
        byte / 16
    } else {
        byte % 16
    }
}

/// The pattern of the real sample whose bytes start at `at`, in an encoding
/// that gives each sample whole bytes.
pub open spec fn real_element(mode: Mode, s: Seq<u8>, at: int) -> int {
    match mode {
        Mode::Int8 => single_of_int(le_i8(s, at)),
        Mode::Int16 => single_of_int(le_i16(s, at)),
        Mode::Int32 => single_of_int(le_i32(s, at)),
        Mode::UInt16 => single_of_int(le_u16(s, at)),
        Mode::Half => single_of_half(le_u16(s, at)),
        _ => 0,
    }
}

/// The pattern of the real sample at `(x, y, z)` in a block that starts
/// with the bytes `s`.
///
/// Where each sample has whole bytes, the sample is the one at its place in
/// wire order. Packed rows take `(nx + 1) / 2` bytes each and follow one
/// another in the same order; sample `x` is in byte `x / 2` of its row, an
/// even `x` in the low four bits and an odd `x` in the high four.
pub open spec fn real_sample(mode: Mode, s: Seq<u8>, nx: int, ny: int, x: int, y: int, z: int)
    -> int {
    if mode == Mode::Packed4 {
        single_of_int(nibble(s[(z * ny + y) * ((nx + 1) / 2) + x / 2] as int, x % 2 == 1))
    } else {
        real_element(mode, s, mode.sample_bytes() * wire_index(x, y, z, nx, ny))
    }
}

/// How many bytes of a block it takes to hold the sample at `(x, y, z)`
/// and all that comes before it: the rows before its own, and its own row up
/// to and including it.
pub open spec fn sample_end(mode: Mode, nx: int, ny: int, x: int, y: int, z: int) -> int {
    (z * ny + y) * mode.row_bytes(nx) + mode.row_bytes(x + 1)
}

/// The complex sample whose bytes start at `at`: the real part first, the
/// imaginary part after it.
pub open spec fn complex_element(mode: Mode, s: Seq<u8>, at: int) -> ComplexSample {
    if mode == Mode::ComplexInt16 {
        ComplexSample {
            re: single_of_int(le_i16(s, at)) as u32,
            im: single_of_int(le_i16(s, at + 2)) as u32,
        }
    } else {
        ComplexSample {
            re: single_of_int(le_i32(s, at)) as u32,
            im: single_of_int(le_i32(s, at + 4)) as u32,
        }
    }
}

/// The complex sample at `(x, y, z)` in a block that starts with the bytes
/// `s`.
pub open spec fn complex_sample(
    mode: Mode,
    s: Seq<u8>,
    nx: int,
    ny: int,
    x: int,
    y: int,
    z: int,
) -> ComplexSample {
    complex_element(mode, s, mode.sample_bytes() * wire_index(x, y, z, nx, ny))
}

/// A decoded data block. Real and complex samples come in arrays of their
/// own kind, so that no imaginary part is ever dropped.
#[derive(Debug)]
pub enum SampleArray {
    /// Real samples, each a binary32 bit pattern.
    Real(Vec<Vec<Vec<u32>>>),
    /// Complex samples.
    Complex(Vec<Vec<Vec<ComplexSample>>>),
}

impl SampleArray {
    /// The array has the extents `(nx, ny, nz)`.
    pub open spec fn has_extents(self, nx: int, ny: int, nz: int) -> bool {
        match self {
            SampleArray::Real(data) => shaped(data@, nx, ny, nz),
            SampleArray::Complex(data) => shaped(data@, nx, ny, nz),
        }
    }

    /// The array holds what a block of the given encoding and extents that
    /// starts with the bytes `s` decodes to.
    pub open spec fn decodes(self, mode: Mode, s: Seq<u8>, nx: int, ny: int, nz: int) -> bool {
        match self {
            SampleArray::Real(data) => {
                &&& !mode.is_complex()
                &&& shaped(data@, nx, ny, nz)
                &&& forall|x: int, y: int, z: int|
                    within(x, y, z, nx, ny, nz) ==> #[trigger] cell(data@, x, y, z) == real_sample(
                        mode,
                        s,
                        nx,
                        ny,
                        x,
                        y,
                        z,
                    )
            },
            SampleArray::Complex(data) => {
                &&& mode.is_complex()
                &&& shaped(data@, nx, ny, nz)
                &&& forall|x: int, y: int, z: int|
                    within(x, y, z, nx, ny, nz) ==> #[trigger] cell(data@, x, y, z)
                        == complex_sample(mode, s, nx, ny, x, y, z)
            },
        }
    }
}

/// Why a block with the given header values cannot be decoded from
/// `available` bytes, or `None` where it can.
///
/// The dimensions are looked at first, then the mode code, then the number
/// of bytes.
pub open spec fn block_error(nx: int, ny: int, nz: int, code: int, available: int) -> Option<
    DecodeError,
> {
    if nx <= 0 || ny <= 0 || nz <= 0 {
        Some(DecodeError::InvalidDimensions)
    } else {
        match Mode::of_code(code) {
            None => Some(DecodeError::UnsupportedMode(code as i32)),
            Some(mode) => if mode.block_bytes(nx, ny, nz) > available {
                Some(DecodeError::Truncated)
            } else {
                None
            },
        }
    }
}

/// Decodes a block of real samples from the unread bytes of `stream` into
/// `data` and passes over it. Where the bytes run out it decodes the samples
/// that are there, passes over all the bytes and fails.
fn read_real(
    stream: &mut ByteStream,
    data: &mut Vec<Vec<Vec<u32>>>,
    nx: usize,
    ny: usize,
    nz: usize,
    mode: Mode,
) -> (r: Result<(), DecodeError>)
    requires
        !mode.is_complex(),
        shaped(old(data)@, nx as int, ny as int, nz as int),
    ensures
        final(stream).content() == old(stream).content(),
        shaped(final(data)@, nx as int, ny as int, nz as int),
        match r {
            Ok(()) => {
                &&& mode.block_bytes(nx as int, ny as int, nz as int) <= old(stream).unread().len()
                &&& final(stream).offset() == old(stream).offset() + mode.block_bytes(
                    nx as int,
                    ny as int,
                    nz as int,
                )
                &&& forall|x: int, y: int, z: int|
                    within(x, y, z, nx as int, ny as int, nz as int) ==> #[trigger] cell(
                        final(data)@,
                        x,
                        y,
                        z,
                    ) == real_sample(mode, old(stream).unread(), nx as int, ny as int, x, y, z)
            },
            Err(e) => {
                &&& e == DecodeError::Truncated
                &&& mode.block_bytes(nx as int, ny as int, nz as int) > old(stream).unread().len()
                &&& final(stream).offset() == old(stream).content().len()
                &&& forall|x: int, y: int, z: int|
                    within(x, y, z, nx as int, ny as int, nz as int) ==> #[trigger] cell(
                        final(data)@,
                        x,
                        y,
                        z,
                    ) == if sample_end(mode, nx as int, ny as int, x, y, z)
                        <= old(stream).unread().len() {
                        real_sample(mode, old(stream).unread(), nx as int, ny as int, x, y, z)
                    } else {
                        cell(old(data)@, x, y, z) as int
                    }
            },
        },
{
    let bytes = stream.bytes();
    let from: usize = stream.position();
    let rest = slice_subrange(bytes, from, bytes.len());
    assert(rest@ =~= stream.unread());
    match fill_real(rest, data, nx, ny, nz, mode) {
        Some(taken) => {
            proof {
                assert forall|x: int, y: int, z: int|
                    within(x, y, z, nx as int, ny as int, nz as int) implies sample_end(
                    mode,
                    nx as int,
                    ny as int,
                    x,
                    y,
                    z,
                ) <= rest.len() by {
                    lemma_sample_within_block(mode, nx as int, ny as int, nz as int, x, y, z);
                }
            }
            stream.advance(taken);
            Ok(())
        },
        None => {
            let left: usize = stream.remaining();
            stream.advance(left);
            Err(DecodeError::Truncated)
        },
    }
}

/// Decodes a block of complex samples from the unread bytes of `stream`
/// into `data` and passes over it. Where the bytes run out it decodes the
/// samples that are there, passes over all the bytes and fails.
fn read_complex(
    stream: &mut ByteStream,
    data: &mut Vec<Vec<Vec<ComplexSample>>>,
    nx: usize,
    ny: usize,
    nz: usize,
    mode: Mode,
) -> (r: Result<(), DecodeError>)
    requires
        mode.is_complex(),
        shaped(old(data)@, nx as int, ny as int, nz as int),
    ensures
        final(stream).content() == old(stream).content(),
        shaped(final(data)@, nx as int, ny as int, nz as int),
        match r {
            Ok(()) => {
                &&& mode.block_bytes(nx as int, ny as int, nz as int) <= old(stream).unread().len()
                &&& final(stream).offset() == old(stream).offset() + mode.block_bytes(
                    nx as int,
                    ny as int,
                    nz as int,
                )
                &&& forall|x: int, y: int, z: int|
                    within(x, y, z, nx as int, ny as int, nz as int) ==> #[trigger] cell(
                        final(data)@,
                        x,
                        y,
                        z,
                    ) == complex_sample(mode, old(stream).unread(), nx as int, ny as int, x, y, z)
            },
            Err(e) => {
                &&& e == DecodeError::Truncated
                &&& mode.block_bytes(nx as int, ny as int, nz as int) > old(stream).unread().len()
                &&& final(stream).offset() == old(stream).content().len()
                &&& forall|x: int, y: int, z: int|
                    within(x, y, z, nx as int, ny as int, nz as int) ==> #[trigger] cell(
                        final(data)@,
                        x,
                        y,
                        z,
                    ) == if sample_end(mode, nx as int, ny as int, x, y, z)
                        <= old(stream).unread().len() {
                        complex_sample(mode, old(stream).unread(), nx as int, ny as int, x, y, z)
                    } else {
                        cell(old(data)@, x, y, z)
                    }
            },
        },
{
    let bytes = stream.bytes();
    let from: usize = stream.position();
    let rest = slice_subrange(bytes, from, bytes.len());
    assert(rest@ =~= stream.unread());
    match fill_complex(rest, data, nx, ny, nz, mode) {
        Some(taken) => {
            proof {
                assert forall|x: int, y: int, z: int|
                    within(x, y, z, nx as int, ny as int, nz as int) implies sample_end(
                    mode,
                    nx as int,
                    ny as int,
                    x,
                    y,
                    z,
                ) <= rest.len() by {
                    lemma_sample_within_block(mode, nx as int, ny as int, nz as int, x, y, z);
                }
            }
            stream.advance(taken);
            Ok(())
        },
        None => {
            let left: usize = stream.remaining();
            stream.advance(left);
            Err(DecodeError::Truncated)
        },
    }
}

/// Decodes a block of signed 8-bit samples into `data`, which has the
/// block's extents, and passes over it.
///
/// One byte per sample; the sample at `(x, y, z)` is the one at its place in
/// wire order.
///
/// Where fewer bytes are left than the block takes, the call fails and the
/// stream stands at its end. The samples that lie whole within the bytes
/// that were left are decoded all the same, in wire order; every other cell
/// keeps what it held.
pub fn read_data_as_i8(
    stream: &mut ByteStream,
    data: &mut Vec<Vec<Vec<u32>>>,
    nx: usize,
    ny: usize,
    nz: usize,
) -> (r: Result<(), DecodeError>)
    requires
        shaped(old(data)@, nx as int, ny as int, nz as int),
    ensures
        final(stream).content() == old(stream).content(),
        shaped(final(data)@, nx as int, ny as int, nz as int),
        match r {
            Ok(()) => {
                &&& nx * ny * nz <= old(stream).unread().len()
                &&& final(stream).offset() == old(stream).offset() + nx * ny * nz
                &&& forall|x: int, y: int, z: int|
                    within(x, y, z, nx as int, ny as int, nz as int) ==> #[trigger] cell(
                        final(data)@,
                        x,
                        y,
                        z,
                    ) == single_of_int(
                        le_i8(old(stream).unread(), wire_index(x, y, z, nx as int, ny as int)),
                    )
            },
            Err(e) => {
                &&& e == DecodeError::Truncated
                &&& nx * ny * nz > old(stream).unread().len()
                &&& final(stream).offset() == old(stream).content().len()
                &&& forall|x: int, y: int, z: int|
                    within(x, y, z, nx as int, ny as int, nz as int) ==> #[trigger] cell(
                        final(data)@,
                        x,
                        y,
                        z,
                    ) == if wire_index(x, y, z, nx as int, ny as int) < old(stream).unread().len() {
                        single_of_int(
                            le_i8(old(stream).unread(), wire_index(x, y, z, nx as int, ny as int)),
                        )
                    } else {
                        cell(old(data)@, x, y, z) as int
                    }
            },
        },
{
    proof {
        assert forall|x: int, y: int, z: int| true implies (z * ny + y) * (1 * nx) + 1 * (x
            + 1) == 1 * #[trigger] wire_index(x, y, z, nx as int, ny as int) + 1 by {
            lemma_sample_offset(1, x, y, z, nx as int, ny as int);
        }
    }
    read_real(stream, data, nx, ny, nz, Mode::Int8)
}

/// Decodes a block of signed 16-bit samples into `data`, which has the
/// block's extents, and passes over it.
///
/// Two bytes per sample, little-endian.
///
/// Where fewer bytes are left than the block takes, the call fails and the
/// stream stands at its end. The samples that lie whole within the bytes
/// that were left are decoded all the same, in wire order; every other cell
/// keeps what it held.
pub fn read_data_as_i16(
    stream: &mut ByteStream,
    data: &mut Vec<Vec<Vec<u32>>>,
    nx: usize,
    ny: usize,
    nz: usize,
) -> (r: Result<(), DecodeError>)
    requires
        shaped(old(data)@, nx as int, ny as int, nz as int),
    ensures
        final(stream).content() == old(stream).content(),
        shaped(final(data)@, nx as int, ny as int, nz as int),
        match r {
            Ok(()) => {
                &&& 2 * nx * ny * nz <= old(stream).unread().len()
                &&& final(stream).offset() == old(stream).offset() + 2 * nx * ny * nz
                &&& forall|x: int, y: int, z: int|
                    within(x, y, z, nx as int, ny as int, nz as int) ==> #[trigger] cell(
                        final(data)@,
                        x,
                        y,
                        z,
                    ) == single_of_int(
                        le_i16(
                            old(stream).unread(),
                            2 * wire_index(x, y, z, nx as int, ny as int),
                        ),
                    )
            },
            Err(e) => {
                &&& e == DecodeError::Truncated
                &&& 2 * nx * ny * nz > old(stream).unread().len()
                &&& final(stream).offset() == old(stream).content().len()
                &&& forall|x: int, y: int, z: int|
                    within(x, y, z, nx as int, ny as int, nz as int) ==> #[trigger] cell(
                        final(data)@,
                        x,
                        y,
                        z,
                    ) == if 2 * wire_index(x, y, z, nx as int, ny as int) + 2
                        <= old(stream).unread().len() {
                        single_of_int(
                            le_i16(
                                old(stream).unread(),
                                2 * wire_index(x, y, z, nx as int, ny as int),
                            ),
                        )
                    } else {
                        cell(old(data)@, x, y, z) as int
                    }
            },
        },
{
    proof {
        assert forall|x: int, y: int, z: int| true implies (z * ny + y) * (2 * nx) + 2 * (x
            + 1) == 2 * #[trigger] wire_index(x, y, z, nx as int, ny as int) + 2 by {
            lemma_sample_offset(2, x, y, z, nx as int, ny as int);
        }
    }
    read_real(stream, data, nx, ny, nz, Mode::Int16)
}

/// Decodes a block of signed 32-bit samples into `data`, which has the
/// block's extents, and passes over it.
///
/// Four bytes per sample, little-endian; a sample that binary32 cannot hold
/// exactly is rounded to the nearest value, ties to even.
///
/// Where fewer bytes are left than the block takes, the call fails and the
/// stream stands at its end. The samples that lie whole within the bytes
/// that were left are decoded all the same, in wire order; every other cell
/// keeps what it held.
pub fn read_data_as_i32(
    stream: &mut ByteStream,
    data: &mut Vec<Vec<Vec<u32>>>,
    nx: usize,
    ny: usize,
    nz: usize,
) -> (r: Result<(), DecodeError>)
    requires
        shaped(old(data)@, nx as int, ny as int, nz as int),
    ensures
        final(stream).content() == old(stream).content(),
        shaped(final(data)@, nx as int, ny as int, nz as int),
        match r {
            Ok(()) => {
                &&& 4 * nx * ny * nz <= old(stream).unread().len()
                &&& final(stream).offset() == old(stream).offset() + 4 * nx * ny * nz
                &&& forall|x: int, y: int, z: int|
                    within(x, y, z, nx as int, ny as int, nz as int) ==> #[trigger] cell(
                        final(data)@,
                        x,
                        y,
                        z,
                    ) == single_of_int(
                        le_i32(
                            old(stream).unread(),
                            4 * wire_index(x, y, z, nx as int, ny as int),
                        ),
                    )
            },
            Err(e) => {
                &&& e == DecodeError::Truncated
                &&& 4 * nx * ny * nz > old(stream).unread().len()
                &&& final(stream).offset() == old(stream).content().len()
                &&& forall|x: int, y: int, z: int|
                    within(x, y, z, nx as int, ny as int, nz as int) ==> #[trigger] cell(
                        final(data)@,
                        x,
                        y,
                        z,
                    ) == if 4 * wire_index(x, y, z, nx as int, ny as int) + 4
                        <= old(stream).unread().len() {
                        single_of_int(
                            le_i32(
                                old(stream).unread(),
                                4 * wire_index(x, y, z, nx as int, ny as int),
                            ),
                        )
                    } else {
                        cell(old(data)@, x, y, z) as int
                    }
            },
        },
{
    proof {
        assert forall|x: int, y: int, z: int| true implies (z * ny + y) * (4 * nx) + 4 * (x
            + 1) == 4 * #[trigger] wire_index(x, y, z, nx as int, ny as int) + 4 by {
            lemma_sample_offset(4, x, y, z, nx as int, ny as int);
        }
    }
    read_real(stream, data, nx, ny, nz, Mode::Int32)
}

/// Decodes a block of complex samples of two signed 16-bit integers each
/// into `data`, which has the block's extents, and passes over it.
///
/// Four bytes per sample: the real part, then the imaginary part, both
/// little-endian. Both parts are kept.
///
/// Where fewer bytes are left than the block takes, the call fails and the
/// stream stands at its end. The samples that lie whole within the bytes
/// that were left are decoded all the same, in wire order; every other cell
/// keeps what it held.
pub fn read_data_as_complex_i16(
    stream: &mut ByteStream,
    data: &mut Vec<Vec<Vec<ComplexSample>>>,
    nx: usize,
    ny: usize,
    nz: usize,
) -> (r: Result<(), DecodeError>)
    requires
        shaped(old(data)@, nx as int, ny as int, nz as int),
    ensures
        final(stream).content() == old(stream).content(),
        shaped(final(data)@, nx as int, ny as int, nz as int),
        match r {
            Ok(()) => {
                &&& 4 * nx * ny * nz <= old(stream).unread().len()
                &&& final(stream).offset() == old(stream).offset() + 4 * nx * ny * nz
                &&& forall|x: int, y: int, z: int|
                    within(x, y, z, nx as int, ny as int, nz as int) ==> #[trigger] cell(
                        final(data)@,
                        x,
                        y,
                        z,
                    ) == (ComplexSample {
                        re: single_of_int(
                            le_i16(
                                old(stream).unread(),
                                4 * wire_index(x, y, z, nx as int, ny as int),
                            ),
                        ) as u32,
                        im: single_of_int(
                            le_i16(
                                old(stream).unread(),
                                4 * wire_index(x, y, z, nx as int, ny as int) + 2,
                            ),
                        ) as u32,
                    })
            },
            Err(e) => {
                &&& e == DecodeError::Truncated
                &&& 4 * nx * ny * nz > old(stream).unread().len()
                &&& final(stream).offset() == old(stream).content().len()
                &&& forall|x: int, y: int, z: int|
                    within(x, y, z, nx as int, ny as int, nz as int) ==> #[trigger] cell(
                        final(data)@,
                        x,
                        y,
                        z,
                    ) == if 4 * wire_index(x, y, z, nx as int, ny as int) + 4
                        <= old(stream).unread().len() {
                        (ComplexSample {
                            re: single_of_int(
                                le_i16(
                                    old(stream).unread(),
                                    4 * wire_index(x, y, z, nx as int, ny as int),
                                ),
                            ) as u32,
                            im: single_of_int(
                                le_i16(
                                    old(stream).unread(),
                                    4 * wire_index(x, y, z, nx as int, ny as int) + 2,
                                ),
                            ) as u32,
                        })
                    } else {
                        cell(old(data)@, x, y, z)
                    }
            },
        },
{
    proof {
        assert forall|x: int, y: int, z: int| true implies (z * ny + y) * (4 * nx) + 4 * (x
            + 1) == 4 * #[trigger] wire_index(x, y, z, nx as int, ny as int) + 4 by {
            lemma_sample_offset(4, x, y, z, nx as int, ny as int);
        }
    }
    read_complex(stream, data, nx, ny, nz, Mode::ComplexInt16)
}

/// Decodes a block of complex samples of two signed 32-bit integers each
/// into `data`, which has the block's extents, and passes over it.
///
/// Eight bytes per sample: the real part, then the imaginary part, both
/// little-endian. Both parts are kept, each rounded to the nearest binary32
/// value.
///
/// Where fewer bytes are left than the block takes, the call fails and the
/// stream stands at its end. The samples that lie whole within the bytes
/// that were left are decoded all the same, in wire order; every other cell
/// keeps what it held.
pub fn read_data_as_complex_i32(
    stream: &mut ByteStream,
    data: &mut Vec<Vec<Vec<ComplexSample>>>,
    nx: usize,
    ny: usize,
    nz: usize,
) -> (r: Result<(), DecodeError>)
    requires
        shaped(old(data)@, nx as int, ny as int, nz as int),
    ensures
        final(stream).content() == old(stream).content(),
        shaped(final(data)@, nx as int, ny as int, nz as int),
        match r {
            Ok(()) => {
                &&& 8 * nx * ny * nz <= old(stream).unread().len()
                &&& final(stream).offset() == old(stream).offset() + 8 * nx * ny * nz
                &&& forall|x: int, y: int, z: int|
                    within(x, y, z, nx as int, ny as int, nz as int) ==> #[trigger] cell(
                        final(data)@,
                        x,
                        y,
                        z,
                    ) == (ComplexSample {
                        re: single_of_int(
                            le_i32(
                                old(stream).unread(),
                                8 * wire_index(x, y, z, nx as int, ny as int),
                            ),
                        ) as u32,
                        im: single_of_int(
                            le_i32(
                                old(stream).unread(),
                                8 * wire_index(x, y, z, nx as int, ny as int) + 4,
                            ),
                        ) as u32,
                    })
            },
            Err(e) => {
                &&& e == DecodeError::Truncated
                &&& 8 * nx * ny * nz > old(stream).unread().len()
                &&& final(stream).offset() == old(stream).content().len()
                &&& forall|x: int, y: int, z: int|
                    within(x, y, z, nx as int, ny as int, nz as int) ==> #[trigger] cell(
                        final(data)@,
                        x,
                        y,
                        z,
                    ) == if 8 * wire_index(x, y, z, nx as int, ny as int) + 8
                        <= old(stream).unread().len() {
                        (ComplexSample {
                            re: single_of_int(
                                le_i32(
                                    old(stream).unread(),
                                    8 * wire_index(x, y, z, nx as int, ny as int),
                                ),
                            ) as u32,
                            im: single_of_int(
                                le_i32(
                                    old(stream).unread(),
                                    8 * wire_index(x, y, z, nx as int, ny as int) + 4,
                                ),
                            ) as u32,
                        })
                    } else {
                        cell(old(data)@, x, y, z)
                    }
            },
        },
{
    proof {
        assert forall|x: int, y: int, z: int| true implies (z * ny + y) * (8 * nx) + 8 * (x
            + 1) == 8 * #[trigger] wire_index(x, y, z, nx as int, ny as int) + 8 by {
            lemma_sample_offset(8, x, y, z, nx as int, ny as int);
        }
    }
    read_complex(stream, data, nx, ny, nz, Mode::ComplexInt32)
}

/// Decodes a block of unsigned 16-bit samples into `data`, which has the
/// block's extents, and passes over it.
///
/// Two bytes per sample, little-endian.
///
/// Where fewer bytes are left than the block takes, the call fails and the
/// stream stands at its end. The samples that lie whole within the bytes
/// that were left are decoded all the same, in wire order; every other cell
/// keeps what it held.
pub fn read_data_as_u16(
    stream: &mut ByteStream,
    data: &mut Vec<Vec<Vec<u32>>>,
    nx: usize,
    ny: usize,
    nz: usize,
) -> (r: Result<(), DecodeError>)
    requires
        shaped(old(data)@, nx as int, ny as int, nz as int),
    ensures
        final(stream).content() == old(stream).content(),
        shaped(final(data)@, nx as int, ny as int, nz as int),
        match r {
            Ok(()) => {
                &&& 2 * nx * ny * nz <= old(stream).unread().len()
                &&& final(stream).offset() == old(stream).offset() + 2 * nx * ny * nz
                &&& forall|x: int, y: int, z: int|
                    within(x, y, z, nx as int, ny as int, nz as int) ==> #[trigger] cell(
                        final(data)@,
                        x,
                        y,
                        z,
                    ) == single_of_int(
                        le_u16(
                            old(stream).unread(),
                            2 * wire_index(x, y, z, nx as int, ny as int),
                        ),
                    )
            },
            Err(e) => {
                &&& e == DecodeError::Truncated
                &&& 2 * nx * ny * nz > old(stream).unread().len()
                &&& final(stream).offset() == old(stream).content().len()
                &&& forall|x: int, y: int, z: int|
                    within(x, y, z, nx as int, ny as int, nz as int) ==> #[trigger] cell(
                        final(data)@,
                        x,
                        y,
                        z,
                    ) == if 2 * wire_index(x, y, z, nx as int, ny as int) + 2
                        <= old(stream).unread().len() {
                        single_of_int(
                            le_u16(
                                old(stream).unread(),
                                2 * wire_index(x, y, z, nx as int, ny as int),
                            ),
                        )
                    } else {
                        cell(old(data)@, x, y, z) as int
                    }
            },
        },
{
    proof {
        assert forall|x: int, y: int, z: int| true implies (z * ny + y) * (2 * nx) + 2 * (x
            + 1) == 2 * #[trigger] wire_index(x, y, z, nx as int, ny as int) + 2 by {
            lemma_sample_offset(2, x, y, z, nx as int, ny as int);
        }
    }
    read_real(stream, data, nx, ny, nz, Mode::UInt16)
}

/// Decodes a block of binary16 samples into `data`, which has the block's
/// extents, and passes over it.
///
/// Two bytes per sample, little-endian, each widened to binary32 without
/// change of value.
///
/// Where fewer bytes are left than the block takes, the call fails and the
/// stream stands at its end. The samples that lie whole within the bytes
/// that were left are decoded all the same, in wire order; every other cell
/// keeps what it held.
pub fn read_data_as_f16(
    stream: &mut ByteStream,
    data: &mut Vec<Vec<Vec<u32>>>,
    nx: usize,
    ny: usize,
    nz: usize,
) -> (r: Result<(), DecodeError>)
    requires
        shaped(old(data)@, nx as int, ny as int, nz as int),
    ensures
        final(stream).content() == old(stream).content(),
        shaped(final(data)@, nx as int, ny as int, nz as int),
        match r {
            Ok(()) => {
                &&& 2 * nx * ny * nz <= old(stream).unread().len()
                &&& final(stream).offset() == old(stream).offset() + 2 * nx * ny * nz
                &&& forall|x: int, y: int, z: int|
                    within(x, y, z, nx as int, ny as int, nz as int) ==> #[trigger] cell(
                        final(data)@,
                        x,
                        y,
                        z,
                    ) == single_of_half(
                        le_u16(
                            old(stream).unread(),
                            2 * wire_index(x, y, z, nx as int, ny as int),
                        ),
                    )
            },
            Err(e) => {
                &&& e == DecodeError::Truncated
                &&& 2 * nx * ny * nz > old(stream).unread().len()
                &&& final(stream).offset() == old(stream).content().len()
                &&& forall|x: int, y: int, z: int|
                    within(x, y, z, nx as int, ny as int, nz as int) ==> #[trigger] cell(
                        final(data)@,
                        x,
                        y,
                        z,
                    ) == if 2 * wire_index(x, y, z, nx as int, ny as int) + 2
                        <= old(stream).unread().len() {
                        single_of_half(
                            le_u16(
                                old(stream).unread(),
                                2 * wire_index(x, y, z, nx as int, ny as int),
                            ),
                        )
                    } else {
                        cell(old(data)@, x, y, z) as int
                    }
            },
        },
{
    proof {
        assert forall|x: int, y: int, z: int| true implies (z * ny + y) * (2 * nx) + 2 * (x
            + 1) == 2 * #[trigger] wire_index(x, y, z, nx as int, ny as int) + 2 by {
            lemma_sample_offset(2, x, y, z, nx as int, ny as int);
        }
    }
    read_real(stream, data, nx, ny, nz, Mode::Half)
}

/// Decodes a block of packed 4-bit samples into `data`, which has the
/// block's extents, and passes over it.
///
/// Two samples per byte, the low four bits first. Every row starts with a
/// new byte, so a row of `nx` samples takes `(nx + 1) / 2` bytes, and the
/// high four bits of its last byte go unused where `nx` is odd.
///
/// Where fewer bytes are left than the block takes, the call fails and the
/// stream stands at its end. The samples that lie whole within the bytes
/// that were left are decoded all the same, in wire order; every other cell
/// keeps what it held.
pub fn read_data_as_4bit_packed(
    stream: &mut ByteStream,
    data: &mut Vec<Vec<Vec<u32>>>,
    nx: usize,
    ny: usize,
    nz: usize,
) -> (r: Result<(), DecodeError>)
    requires
        shaped(old(data)@, nx as int, ny as int, nz as int),
    ensures
        final(stream).content() == old(stream).content(),
        shaped(final(data)@, nx as int, ny as int, nz as int),
        match r {
            Ok(()) => {
                &&& ((nx + 1) / 2) * ny * nz <= old(stream).unread().len()
                &&& final(stream).offset() == old(stream).offset() + ((nx + 1) / 2) * ny * nz
                &&& forall|x: int, y: int, z: int|
                    within(x, y, z, nx as int, ny as int, nz as int) ==> #[trigger] cell(
                        final(data)@,
                        x,
                        y,
                        z,
                    ) == single_of_int(
                        nibble(
                            old(stream).unread()[(z * ny + y) * ((nx + 1) / 2) + x / 2] as int,
                            x % 2 == 1,
                        ),
                    )
            },
            Err(e) => {
                &&& e == DecodeError::Truncated
                &&& ((nx + 1) / 2) * ny * nz > old(stream).unread().len()
                &&& final(stream).offset() == old(stream).content().len()
                &&& forall|x: int, y: int, z: int|
                    within(x, y, z, nx as int, ny as int, nz as int) ==> #[trigger] cell(
                        final(data)@,
                        x,
                        y,
                        z,
                    ) == if (z * ny + y) * ((nx + 1) / 2) + x / 2 < old(stream).unread().len() {
                        single_of_int(
                            nibble(
                                old(stream).unread()[(z * ny + y) * ((nx + 1) / 2) + x / 2] as int,
                                x % 2 == 1,
                            ),
                        )
                    } else {
                        cell(old(data)@, x, y, z) as int
                    }
            },
        },
{
    read_real(stream, data, nx, ny, nz, Mode::Packed4)
}

/// Decodes the data block that the unread bytes of `stream` start with, as
/// `header` describes it, and passes over it.
///
/// The result has the header's extents, and its cell `[x][y][z]` holds the
/// sample at place `(z * ny + y) * nx + x` in wire order. On failure the
/// stream stays where it was; no array is made before the header's values
/// and the number of unread bytes have been found to allow the decoding.
pub fn read_data_block(stream: &mut ByteStream, header: &MRCHeader) -> (r: Result<
    SampleArray,
    DecodeError,
>)
    ensures
        final(stream).content() == old(stream).content(),
        match r {
            Ok(array) => {
                &&& block_error(
                    header.nx as int,
                    header.ny as int,
                    header.nz as int,
                    header.mode as int,
                    old(stream).unread().len() as int,
                ) is None
                &&& array.has_extents(header.nx as int, header.ny as int, header.nz as int)
                &&& Mode::of_code(header.mode as int) matches Some(mode)
                &&& array.decodes(
                    mode,
                    old(stream).unread(),
                    header.nx as int,
                    header.ny as int,
                    header.nz as int,
                )
                &&& final(stream).offset() == old(stream).offset() + mode.block_bytes(
                    header.nx as int,
                    header.ny as int,
                    header.nz as int,
                )
            },
            Err(e) => {
                &&& block_error(
                    header.nx as int,
                    header.ny as int,
                    header.nz as int,
                    header.mode as int,
                    old(stream).unread().len() as int,
                ) == Some(e)
                &&& final(stream).offset() == old(stream).offset()
            },
        },
{
    if header.nx <= 0 || header.ny <= 0 || header.nz <= 0 {
        return Err(DecodeError::InvalidDimensions);
    }
    let nx: usize = header.nx as usize;
    let ny: usize = header.ny as usize;
    let nz: usize = header.nz as usize;
    let mode = match Mode::from_code(header.mode) {
        Some(mode) => mode,
        None => {
            return Err(DecodeError::UnsupportedMode(header.mode));
        },
    };
    let left: usize = stream.remaining();
    let fits = match mode.block_len(nx, ny, nz) {
        Some(need) => need <= left,
        None => false,
    };
    if !fits {
        return Err(DecodeError::Truncated);
    }
    match mode {
        Mode::ComplexInt16 => {
            let mut data = new_complex_grid(nx, ny, nz);
            match read_data_as_complex_i16(stream, &mut data, nx, ny, nz) {
                Ok(()) => Ok(SampleArray::Complex(data)),
                Err(e) => Err(e),
            }
        },
        Mode::ComplexInt32 => {
            let mut data = new_complex_grid(nx, ny, nz);
            match read_data_as_complex_i32(stream, &mut data, nx, ny, nz) {
                Ok(()) => Ok(SampleArray::Complex(data)),
                Err(e) => Err(e),
            }
        },
        _ => {
            let mut data = new_real_grid(nx, ny, nz);
            let filled = match mode {
                Mode::Int8 => read_data_as_i8(stream, &mut data, nx, ny, nz),
                Mode::Int16 => read_data_as_i16(stream, &mut data, nx, ny, nz),
                Mode::Int32 => read_data_as_i32(stream, &mut data, nx, ny, nz),
                Mode::UInt16 => read_data_as_u16(stream, &mut data, nx, ny, nz),
                Mode::Half => read_data_as_f16(stream, &mut data, nx, ny, nz),
                _ => read_data_as_4bit_packed(stream, &mut data, nx, ny, nz),
            };
            match filled {
                Ok(()) => Ok(SampleArray::Real(data)),
                Err(e) => Err(e),
            }
        },
    }
}

/// With positive extents and one of the eight mode codes, a block of at
/// least the length that the encoding calls for can be decoded; in
/// particular one of exactly that length.
pub proof fn lemma_full_block_decodes(nx: int, ny: int, nz: int, code: int, available: int)
    requires
        nx >= 1,
        ny >= 1,
        nz >= 1,
        code == 0 || code == 1 || code == 2 || code == 3 || code == 4 || code == 5 || code == 6
            || code == 101,
        available >= Mode::of_code(code).unwrap().block_bytes(nx, ny, nz),
    ensures
        Mode::of_code(code) is Some,
        block_error(nx, ny, nz, code, available) is None,
{
}

/// With positive extents and one of the eight mode codes, a block that is
/// shorter than the encoding calls for is refused as truncated, however
/// many bytes there are.
pub proof fn lemma_short_block_is_truncated(nx: int, ny: int, nz: int, code: int, available: int)
    requires
        nx >= 1,
        ny >= 1,
        nz >= 1,
        Mode::of_code(code) is Some,
        available < Mode::of_code(code).unwrap().block_bytes(nx, ny, nz),
    ensures
        block_error(nx, ny, nz, code, available) == Some(DecodeError::Truncated),
{
}

/// The length that a block calls for is the number of its samples times
/// the bytes of one sample, for every encoding but the packed one.
pub proof fn lemma_block_bytes(mode: Mode, nx: int, ny: int, nz: int)
    requires
        mode != Mode::Packed4,
    ensures
        mode.block_bytes(nx, ny, nz) == mode.sample_bytes() * (nx * ny * nz),
{
    assert(mode.sample_bytes() * nx * ny * nz == mode.sample_bytes() * (nx * ny * nz))
        by (nonlinear_arith);
}

/// The place in wire order determines the cell: its column is the
/// remainder by `nx`, and its row and section follow from the quotient.
pub proof fn lemma_wire_index_split(x: int, y: int, z: int, nx: int, ny: int, nz: int)
    requires
        within(x, y, z, nx, ny, nz),
    ensures
        0 <= wire_index(x, y, z, nx, ny) < nx * ny * nz,
        wire_index(x, y, z, nx, ny) % nx == x,
        (wire_index(x, y, z, nx, ny) / nx) % ny == y,
        (wire_index(x, y, z, nx, ny) / nx) / ny == z,
{
    let row = z * ny + y;
    assert(0 <= row < nz * ny) by (nonlinear_arith)
        requires
            0 <= y < ny,
            0 <= z < nz,
            row == z * ny + y,
    ;
    assert(0 <= row * nx + x < nx * ny * nz) by (nonlinear_arith)
        requires
            0 <= row < nz * ny,
            0 <= x < nx,
    ;
    lemma_fundamental_div_mod_converse(row * nx + x, nx, row, x);
    lemma_fundamental_div_mod_converse(row, ny, z, y);
}

/// Within the extents, different cells have different places in wire
/// order, and the places are those below the number of cells: every sample
/// of the block goes to exactly one cell.
pub proof fn lemma_wire_order_is_one_to_one(
    x: int,
    y: int,
    z: int,
    a: int,
    b: int,
    c: int,
    nx: int,
    ny: int,
    nz: int,
)
    requires
        within(x, y, z, nx, ny, nz),
        within(a, b, c, nx, ny, nz),
    ensures
        0 <= wire_index(x, y, z, nx, ny) < nx * ny * nz,
        wire_index(x, y, z, nx, ny) == wire_index(a, b, c, nx, ny) ==> x == a && y == b && z == c,
{
    lemma_wire_index_split(x, y, z, nx, ny, nz);
    lemma_wire_index_split(a, b, c, nx, ny, nz);
}

} // verus!
