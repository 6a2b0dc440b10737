//! Decoding row by row: the loops that walk a data block in wire order and
//! stop where the bytes run out.

use crate::datablock::{
    complex_element, complex_sample, nibble, real_element, real_sample, sample_end, wire_index,
};
use crate::grid::{cell, set_cell, shaped, within, ComplexSample};
use crate::mode::Mode;
use crate::single::{single_from_half, single_from_int, single_of_int};
use crate::wire::{take_i16, take_i32, take_i8, take_u16};
use vstd::arithmetic::div_mod::{lemma_div_is_ordered, lemma_fundamental_div_mod_converse};
use vstd::prelude::*;

verus! {

/// Where a packed row stands between two samples.
#[derive(Clone, Copy, Debug, PartialEq, Eq, Structural)]
pub enum NibbleState {
    /// The next sample needs a new byte.
    BytePending,
    /// The low half of this byte has been given out; its high half is next.
    LowEmitted(u8),
}

/// Gives out the next 4-bit value of a packed row: the low half of a newly
/// fetched byte, or the high half of the byte that is under way.
///
/// `at` is the place of the next byte to fetch, and moves on when one is
/// fetched.
pub fn next_nibble(rest: &[u8], at: usize, state: NibbleState) -> (out: (u8, usize, NibbleState))
    requires
        state == NibbleState::BytePending ==> at < rest.len(),
    ensures
        match state {
            NibbleState::BytePending => {
                &&& out.0 == nibble(rest@[at as int] as int, false)
                &&& out.1 == at + 1
                &&& out.2 == NibbleState::LowEmitted(rest@[at as int])
            },
            NibbleState::LowEmitted(byte) => {
                &&& out.0 == nibble(byte as int, true)
                &&& out.1 == at
                &&& out.2 == NibbleState::BytePending
            },
        },
{
    match state {
        NibbleState::BytePending => {
            let byte: u8 = rest[at];
            (byte % 16, at + 1, NibbleState::LowEmitted(byte))
        },
        NibbleState::LowEmitted(byte) => (byte / 16, at, NibbleState::BytePending),
    }
}

/// The pattern of real sample `x` of the row whose bytes start at `start`.
spec fn row_sample(mode: Mode, s: Seq<u8>, start: int, x: int) -> int {
    if mode == Mode::Packed4 {
        single_of_int(nibble(s[start + x / 2] as int, x % 2 == 1))
    } else {
        real_element(mode, s, start + mode.sample_bytes() * x)
    }
}

/// How far the decoding of a row got: `count` samples were decoded, from
/// the bytes between `start` and `next`, and where that is not the whole row
/// the next sample does not lie within the `len` bytes there are.
spec fn row_progress(mode: Mode, nx: int, start: int, len: int, count: int, next: int) -> bool {
    &&& 0 <= count <= nx
    &&& next == start + mode.row_bytes(count)
    &&& next <= len
    &&& count < nx ==> start + mode.row_bytes(count + 1) > len
}

/// The rows before row `(y, z)`.
spec fn earlier_row(b: int, c: int, y: int, z: int) -> bool {
    c < z || (c == z && b < y)
}

/// In an encoding that gives each sample `width` bytes, the sample at
/// `(x, y, z)` starts `width` times its place in wire order into the block.
pub(crate) proof fn lemma_sample_offset(width: int, x: int, y: int, z: int, nx: int, ny: int)
    ensures
        (z * ny + y) * (width * nx) + width * x == width * wire_index(x, y, z, nx, ny),
        (z * ny + y) * (width * nx) + width * (x + 1) == width * wire_index(x, y, z, nx, ny)
            + width,
{
    assert((z * ny + y) * (width * nx) + width * x == width * ((z * ny + y) * nx + x))
        by (nonlinear_arith);
    assert(width * (x + 1) == width * x + width) by (nonlinear_arith);
}

/// A longer row takes no fewer bytes.
proof fn lemma_row_bytes_grow(mode: Mode, a: int, b: int)
    requires
        0 <= a <= b,
    ensures
        0 <= mode.row_bytes(a) <= mode.row_bytes(b),
{
    let w = mode.sample_bytes();
    assert(0 <= w * a <= w * b) by (nonlinear_arith)
        requires
            0 <= w,
            0 <= a <= b,
    ;
}

/// Row `(y, z)` of a block ends within the block, where the next row
/// starts.
proof fn lemma_row_within_block(row: int, y: int, z: int, ny: int, nz: int)
    requires
        0 <= row,
        0 <= y < ny,
        0 <= z < nz,
    ensures
        0 <= (z * ny + y) * row,
        (z * ny + y) * row + row == (z * ny + (y + 1)) * row,
        (z * ny + y) * row + row <= row * ny * nz,
{
    assert(0 <= (z * ny + y) * row) by (nonlinear_arith)
        requires
            0 <= row,
            0 <= y,
            0 <= z,
            0 < ny,
    ;
    assert((z * ny + y + 1) * row <= (nz * ny) * row) by (nonlinear_arith)
        requires
            0 <= row,
            0 <= y < ny,
            0 <= z < nz,
    ;
    assert((z * ny + y) * row + row == (z * ny + (y + 1)) * row) by (nonlinear_arith);
    assert((nz * ny) * row == row * ny * nz) by (nonlinear_arith);
}

/// An earlier row ends no later than a later row starts.
proof fn lemma_rows_in_order(row: int, b: int, c: int, y: int, z: int, ny: int)
    requires
        0 <= row,
        0 <= b < ny,
        0 <= y < ny,
        0 <= c,
        0 <= z,
        earlier_row(b, c, y, z),
    ensures
        (c * ny + b) * row + row <= (z * ny + y) * row,
{
    assert(c * ny + b + 1 <= z * ny + y) by (nonlinear_arith)
        requires
            0 <= b < ny,
            0 <= y < ny,
            0 <= c,
            0 <= z,
            c < z || (c == z && b < y),
    ;
    assert((c * ny + b) * row + row <= (z * ny + y) * row) by (nonlinear_arith)
        requires
            c * ny + b + 1 <= z * ny + y,
            0 <= row,
    ;
}

/// Every sample of a block ends within the block.
pub(crate) proof fn lemma_sample_within_block(
    mode: Mode,
    nx: int,
    ny: int,
    nz: int,
    x: int,
    y: int,
    z: int,
)
    requires
        within(x, y, z, nx, ny, nz),
    ensures
        0 < sample_end(mode, nx, ny, x, y, z) <= mode.block_bytes(nx, ny, nz),
{
    lemma_row_bytes_grow(mode, 1, x + 1);
    lemma_row_bytes_grow(mode, x + 1, nx);
    lemma_row_within_block(mode.row_bytes(nx), y, z, ny, nz);
}

/// Where decoding stopped in row `(y, z)` after `count` of its samples, the
/// samples that lie within the `len` bytes are those of the earlier rows and
/// the first `count` of this row, and the block is longer than `len`.
proof fn lemma_cut(
    mode: Mode,
    nx: int,
    ny: int,
    nz: int,
    y: int,
    z: int,
    len: int,
    count: int,
    next: int,
    a: int,
    b: int,
    c: int,
)
    requires
        0 <= y < ny,
        0 <= z < nz,
        count < nx,
        row_progress(mode, nx, (z * ny + y) * mode.row_bytes(nx), len, count, next),
        within(a, b, c, nx, ny, nz),
    ensures
        sample_end(mode, nx, ny, a, b, c) <= len <==> earlier_row(b, c, y, z) || (b == y && c == z
            && a < count),
        mode.block_bytes(nx, ny, nz) > len,
{
    let row = mode.row_bytes(nx);
    let start = (z * ny + y) * row;
    lemma_row_bytes_grow(mode, 0, a + 1);
    lemma_row_bytes_grow(mode, a + 1, nx);
    lemma_row_bytes_grow(mode, count + 1, nx);
    lemma_row_within_block(row, y, z, ny, nz);
    if earlier_row(b, c, y, z) {
        lemma_rows_in_order(row, b, c, y, z, ny);
    } else if b == y && c == z {
        if a < count {
            lemma_row_bytes_grow(mode, a + 1, count);
        } else {
            lemma_row_bytes_grow(mode, count + 1, a + 1);
        }
    } else {
        lemma_rows_in_order(row, y, z, b, c, ny);
    }
}

/// A sample ends no later than any sample that follows it in wire order.
/// So where the bytes run out, the samples that lie whole within them are
/// the first so many in wire order.
pub proof fn lemma_samples_end_in_wire_order(
    mode: Mode,
    nx: int,
    ny: int,
    nz: int,
    a: int,
    b: int,
    c: int,
    x: int,
    y: int,
    z: int,
)
    requires
        within(a, b, c, nx, ny, nz),
        within(x, y, z, nx, ny, nz),
        wire_index(a, b, c, nx, ny) <= wire_index(x, y, z, nx, ny),
    ensures
        sample_end(mode, nx, ny, a, b, c) <= sample_end(mode, nx, ny, x, y, z),
{
    let row = mode.row_bytes(nx);
    lemma_fundamental_div_mod_converse(wire_index(a, b, c, nx, ny), nx, c * ny + b, a);
    lemma_fundamental_div_mod_converse(wire_index(x, y, z, nx, ny), nx, z * ny + y, x);
    lemma_div_is_ordered(wire_index(a, b, c, nx, ny), wire_index(x, y, z, nx, ny), nx);
    lemma_row_bytes_grow(mode, 0, a + 1);
    lemma_row_bytes_grow(mode, a + 1, nx);
    lemma_row_bytes_grow(mode, 0, x + 1);
    if c * ny + b == z * ny + y {
        lemma_row_bytes_grow(mode, a + 1, x + 1);
    } else {
        assert((c * ny + b) * row + row <= (z * ny + y) * row) by (nonlinear_arith)
            requires
                c * ny + b + 1 <= z * ny + y,
                0 <= row,
        ;
    }
}

/// Decodes the real sample whose bytes start at `at`.
fn decode_real(rest: &[u8], at: usize, mode: Mode) -> (bits: u32)
    requires
        !mode.is_complex(),
        mode != Mode::Packed4,
        at + mode.sample_bytes() <= rest.len(),
    ensures
        bits == real_element(mode, rest@, at as int),
{
    match mode {
        Mode::Int8 => single_from_int(take_i8(rest, at) as i32),
        Mode::Int16 => single_from_int(take_i16(rest, at) as i32),
        Mode::Int32 => single_from_int(take_i32(rest, at)),
        Mode::UInt16 => single_from_int(take_u16(rest, at) as i32),
        _ => single_from_half(take_u16(rest, at)),
    }
}

/// Decodes the packed row `(y, z)`, whose bytes start at `start`, as far as
/// the bytes reach. Every row begins with a fresh byte.
///
/// Gives back the number of samples decoded and the place after the last
/// byte fetched.
fn fill_packed_row(
    rest: &[u8],
    data: &mut Vec<Vec<Vec<u32>>>,
    nx: usize,
    ny: usize,
    nz: usize,
    y: usize,
    z: usize,
    start: usize,
) -> (out: (usize, usize))
    requires
        shaped(old(data)@, nx as int, ny as int, nz as int),
        y < ny,
        z < nz,
        start <= rest.len(),
    ensures
        shaped(final(data)@, nx as int, ny as int, nz as int),
        row_progress(
            Mode::Packed4,
            nx as int,
            start as int,
            rest.len() as int,
            out.0 as int,
            out.1 as int,
        ),
        forall|a: int|
            0 <= a < out.0 ==> #[trigger] cell(final(data)@, a, y as int, z as int) == row_sample(
                Mode::Packed4,
                rest@,
                start as int,
                a,
            ),
        forall|a: int, b: int, c: int|
            within(a, b, c, nx as int, ny as int, nz as int) && !(b == y && c == z && a < out.0)
                ==> #[trigger] cell(final(data)@, a, b, c) == cell(old(data)@, a, b, c),
{
    let mut state = NibbleState::BytePending;
    let mut at: usize = start;
    let mut x: usize = 0;
    let mut fed = true;
    while x < nx && fed
        invariant
            x <= nx,
            y < ny,
            z < nz,
            shaped(data@, nx as int, ny as int, nz as int),
            at == start + (x + 1) / 2,
            at <= rest.len(),
            !fed ==> x < nx && x % 2 == 0 && at == rest.len(),
            match state {
                NibbleState::BytePending => x % 2 == 0,
                NibbleState::LowEmitted(byte) => x % 2 == 1 && byte == rest@[start + x / 2],
            },
            forall|a: int|
                0 <= a < x ==> #[trigger] cell(data@, a, y as int, z as int) == row_sample(
                    Mode::Packed4,
                    rest@,
                    start as int,
                    a,
                ),
            forall|a: int, b: int, c: int|
                within(a, b, c, nx as int, ny as int, nz as int) && !(b == y && c == z && a < x)
                    ==> #[trigger] cell(data@, a, b, c) == cell(old(data)@, a, b, c),
        decreases nx - x, fed as int,
    {
        let ready = match state {
            NibbleState::BytePending => at < rest.len(),
            NibbleState::LowEmitted(_) => true,
        };
        if ready {
            let (value, next, after) = next_nibble(rest, at, state);
            set_cell(data, x, y, z, single_from_int(value as i32), nx, ny, nz);
            at = next;
            state = after;
            x = x + 1;
        } else {
            fed = false;
        }
    }
    (x, at)
}

/// Decodes row `(y, z)`, whose bytes start at `start`, in an encoding that
/// gives each sample whole bytes, as far as the bytes reach.
///
/// Gives back the number of samples decoded and the place after the last
/// of them.
fn fill_plain_row(
    rest: &[u8],
    data: &mut Vec<Vec<Vec<u32>>>,
    nx: usize,
    ny: usize,
    nz: usize,
    y: usize,
    z: usize,
    start: usize,
    mode: Mode,
) -> (out: (usize, usize))
    requires
        !mode.is_complex(),
        mode != Mode::Packed4,
        shaped(old(data)@, nx as int, ny as int, nz as int),
        y < ny,
        z < nz,
        start <= rest.len(),
    ensures
        shaped(final(data)@, nx as int, ny as int, nz as int),
        row_progress(mode, nx as int, start as int, rest.len() as int, out.0 as int, out.1 as int),
        forall|a: int|
            0 <= a < out.0 ==> #[trigger] cell(final(data)@, a, y as int, z as int) == row_sample(
                mode,
                rest@,
                start as int,
                a,
            ),
        forall|a: int, b: int, c: int|
            within(a, b, c, nx as int, ny as int, nz as int) && !(b == y && c == z && a < out.0)
                ==> #[trigger] cell(final(data)@, a, b, c) == cell(old(data)@, a, b, c),
{
    let width: usize = mode.sample_len();
    let mut at: usize = start;
    let mut x: usize = 0;
    assert(width * 0 == 0) by (nonlinear_arith);
    while x < nx && rest.len() - at >= width
        invariant
            x <= nx,
            y < ny,
            z < nz,
            !mode.is_complex(),
            mode != Mode::Packed4,
            width == mode.sample_bytes(),
            shaped(data@, nx as int, ny as int, nz as int),
            at == start + width * x,
            at <= rest.len(),
            forall|a: int|
                0 <= a < x ==> #[trigger] cell(data@, a, y as int, z as int) == row_sample(
                    mode,
                    rest@,
                    start as int,
                    a,
                ),
            forall|a: int, b: int, c: int|
                within(a, b, c, nx as int, ny as int, nz as int) && !(b == y && c == z && a < x)
                    ==> #[trigger] cell(data@, a, b, c) == cell(old(data)@, a, b, c),
        decreases nx - x,
    {
        assert(width * (x + 1) == width * x + width) by (nonlinear_arith);
        let bits = decode_real(rest, at, mode);
        set_cell(data, x, y, z, bits, nx, ny, nz);
        at = at + width;
        x = x + 1;
    }
    assert(width * (x + 1) == width * x + width) by (nonlinear_arith);
    (x, at)
}

/// Decodes row `(y, z)` of a block of real samples as far as the bytes
/// reach.
fn fill_real_row(
    rest: &[u8],
    data: &mut Vec<Vec<Vec<u32>>>,
    nx: usize,
    ny: usize,
    nz: usize,
    y: usize,
    z: usize,
    start: usize,
    mode: Mode,
) -> (out: (usize, usize))
    requires
        !mode.is_complex(),
        shaped(old(data)@, nx as int, ny as int, nz as int),
        y < ny,
        z < nz,
        start <= rest.len(),
    ensures
        shaped(final(data)@, nx as int, ny as int, nz as int),
        row_progress(mode, nx as int, start as int, rest.len() as int, out.0 as int, out.1 as int),
        forall|a: int|
            0 <= a < out.0 ==> #[trigger] cell(final(data)@, a, y as int, z as int) == row_sample(
                mode,
                rest@,
                start as int,
                a,
            ),
        forall|a: int, b: int, c: int|
            within(a, b, c, nx as int, ny as int, nz as int) && !(b == y && c == z && a < out.0)
                ==> #[trigger] cell(final(data)@, a, b, c) == cell(old(data)@, a, b, c),
{
    match mode {
        Mode::Packed4 => fill_packed_row(rest, data, nx, ny, nz, y, z, start),
        _ => fill_plain_row(rest, data, nx, ny, nz, y, z, start, mode),
    }
}

/// Decodes a block of real samples from the start of `rest`: section after
/// section, row after row within a section, column after column within a
/// row, until the block is done or the bytes run out.
///
/// Gives back the length of the block where all of it was there. Each
/// sample that lies within `rest` is decoded either way; the other cells are
/// left as they were.
pub(crate) fn fill_real(
    rest: &[u8],
    data: &mut Vec<Vec<Vec<u32>>>,
    nx: usize,
    ny: usize,
    nz: usize,
    mode: Mode,
) -> (taken: Option<usize>)
    requires
        !mode.is_complex(),
        shaped(old(data)@, nx as int, ny as int, nz as int),
    ensures
        shaped(final(data)@, nx as int, ny as int, nz as int),
        match taken {
            Some(n) => n == mode.block_bytes(nx as int, ny as int, nz as int) && n <= rest.len(),
            None => mode.block_bytes(nx as int, ny as int, nz as int) > rest.len(),
        },
        forall|a: int, b: int, c: int|
            within(a, b, c, nx as int, ny as int, nz as int) ==> #[trigger] cell(
                final(data)@,
                a,
                b,
                c,
            ) == if sample_end(mode, nx as int, ny as int, a, b, c) <= rest.len() {
                real_sample(mode, rest@, nx as int, ny as int, a, b, c)
            } else {
                cell(old(data)@, a, b, c) as int
            },
{
    let ghost row = mode.row_bytes(nx as int);
    let mut start: usize = 0;
    let mut z: usize = 0;
    proof {
        lemma_row_bytes_grow(mode, 0, nx as int);
        assert((0 * ny) * row == 0) by (nonlinear_arith);
    }
    while z < nz
        invariant
            z <= nz,
            !mode.is_complex(),
            shaped(data@, nx as int, ny as int, nz as int),
            row == mode.row_bytes(nx as int),
            0 <= row,
            start == (z * ny) * row,
            start <= rest.len(),
            forall|a: int, b: int, c: int|
                within(a, b, c, nx as int, ny as int, nz as int) && c < z ==> #[trigger] cell(
                    data@,
                    a,
                    b,
                    c,
                ) == real_sample(mode, rest@, nx as int, ny as int, a, b, c),
            forall|a: int, b: int, c: int|
                within(a, b, c, nx as int, ny as int, nz as int) && c >= z ==> #[trigger] cell(
                    data@,
                    a,
                    b,
                    c,
                ) == cell(old(data)@, a, b, c),
        decreases nz - z,
    {
        let mut y: usize = 0;
        while y < ny
            invariant
                y <= ny,
                z < nz,
                !mode.is_complex(),
                shaped(data@, nx as int, ny as int, nz as int),
                row == mode.row_bytes(nx as int),
                0 <= row,
                start == (z * ny + y) * row,
                start <= rest.len(),
                forall|a: int, b: int, c: int|
                    within(a, b, c, nx as int, ny as int, nz as int) && earlier_row(
                        b,
                        c,
                        y as int,
                        z as int,
                    ) ==> #[trigger] cell(data@, a, b, c) == real_sample(
                        mode,
                        rest@,
                        nx as int,
                        ny as int,
                        a,
                        b,
                        c,
                    ),
                forall|a: int, b: int, c: int|
                    within(a, b, c, nx as int, ny as int, nz as int) && !earlier_row(
                        b,
                        c,
                        y as int,
                        z as int,
                    ) ==> #[trigger] cell(data@, a, b, c) == cell(old(data)@, a, b, c),
            decreases ny - y,
        {
            let (count, next) = fill_real_row(rest, data, nx, ny, nz, y, z, start, mode);
            proof {
                lemma_row_within_block(row, y as int, z as int, ny as int, nz as int);
                assert forall|a: int| 0 <= a < count implies #[trigger] cell(
                    data@,
                    a,
                    y as int,
                    z as int,
                ) == real_sample(mode, rest@, nx as int, ny as int, a, y as int, z as int) by {
                    lemma_sample_offset(
                        mode.sample_bytes(),
                        a,
                        y as int,
                        z as int,
                        nx as int,
                        ny as int,
                    );
                }
            }
            if count < nx {
                proof {
                    assert forall|a: int, b: int, c: int|
                        within(a, b, c, nx as int, ny as int, nz as int) implies #[trigger] cell(
                        data@,
                        a,
                        b,
                        c,
                    ) == if sample_end(mode, nx as int, ny as int, a, b, c) <= rest.len() {
                        real_sample(mode, rest@, nx as int, ny as int, a, b, c)
                    } else {
                        cell(old(data)@, a, b, c) as int
                    } by {
                        lemma_cut(
                            mode,
                            nx as int,
                            ny as int,
                            nz as int,
                            y as int,
                            z as int,
                            rest.len() as int,
                            count as int,
                            next as int,
                            a,
                            b,
                            c,
                        );
                    }
                    lemma_cut(
                        mode,
                        nx as int,
                        ny as int,
                        nz as int,
                        y as int,
                        z as int,
                        rest.len() as int,
                        count as int,
                        next as int,
                        count as int,
                        y as int,
                        z as int,
                    );
                }
                return None;
            }
            start = next;
            y = y + 1;
        }
        assert((z * ny + ny) * row == ((z + 1) * ny) * row) by (nonlinear_arith);
        z = z + 1;
    }
    proof {
        assert((nz * ny) * row == row * ny * nz) by (nonlinear_arith);
        assert forall|a: int, b: int, c: int|
            within(a, b, c, nx as int, ny as int, nz as int) implies sample_end(
            mode,
            nx as int,
            ny as int,
            a,
            b,
            c,
        ) <= rest.len() by {
            lemma_sample_within_block(mode, nx as int, ny as int, nz as int, a, b, c);
        }
    }
    Some(start)
}

/// Decodes the complex sample whose bytes start at `at`.
fn decode_complex(rest: &[u8], at: usize, mode: Mode) -> (sample: ComplexSample)
    requires
        mode.is_complex(),
        at + mode.sample_bytes() <= rest.len(),
    ensures
        sample == complex_element(mode, rest@, at as int),
{
    match mode {
        Mode::ComplexInt16 => ComplexSample {
            re: single_from_int(take_i16(rest, at) as i32),
            im: single_from_int(take_i16(rest, at + 2) as i32),
        },
        _ => ComplexSample {
            re: single_from_int(take_i32(rest, at)),
            im: single_from_int(take_i32(rest, at + 4)),
        },
    }
}

/// Decodes row `(y, z)` of a block of complex samples, whose bytes start at
/// `start`, as far as the bytes reach.
///
/// Gives back the number of samples decoded and the place after the last
/// of them.
fn fill_complex_row(
    rest: &[u8],
    data: &mut Vec<Vec<Vec<ComplexSample>>>,
    nx: usize,
    ny: usize,
    nz: usize,
    y: usize,
    z: usize,
    start: usize,
    mode: Mode,
) -> (out: (usize, usize))
    requires
        mode.is_complex(),
        shaped(old(data)@, nx as int, ny as int, nz as int),
        y < ny,
        z < nz,
        start <= rest.len(),
    ensures
        shaped(final(data)@, nx as int, ny as int, nz as int),
        row_progress(mode, nx as int, start as int, rest.len() as int, out.0 as int, out.1 as int),
        forall|a: int|
            0 <= a < out.0 ==> #[trigger] cell(final(data)@, a, y as int, z as int)
                == complex_element(mode, rest@, start + mode.sample_bytes() * a),
        forall|a: int, b: int, c: int|
            within(a, b, c, nx as int, ny as int, nz as int) && !(b == y && c == z && a < out.0)
                ==> #[trigger] cell(final(data)@, a, b, c) == cell(old(data)@, a, b, c),
{
    let width: usize = mode.sample_len();
    let mut at: usize = start;
    let mut x: usize = 0;
    assert(width * 0 == 0) by (nonlinear_arith);
    while x < nx && rest.len() - at >= width
        invariant
            x <= nx,
            y < ny,
            z < nz,
            mode.is_complex(),
            width == mode.sample_bytes(),
            shaped(data@, nx as int, ny as int, nz as int),
            at == start + width * x,
            at <= rest.len(),
            forall|a: int|
                0 <= a < x ==> #[trigger] cell(data@, a, y as int, z as int) == complex_element(
                mode,
                rest@,
                start + mode.sample_bytes() * a,
            ),
            forall|a: int, b: int, c: int|
                within(a, b, c, nx as int, ny as int, nz as int) && !(b == y && c == z && a < x)
                    ==> #[trigger] cell(data@, a, b, c) == cell(old(data)@, a, b, c),
        decreases nx - x,
    {
        assert(width * (x + 1) == width * x + width) by (nonlinear_arith);
        let bits = decode_complex(rest, at, mode);
        set_cell(data, x, y, z, bits, nx, ny, nz);
        at = at + width;
        x = x + 1;
    }
    assert(width * (x + 1) == width * x + width) by (nonlinear_arith);
    (x, at)
}

/// Decodes a block of complex samples from the start of `rest`, in the
/// order in which real samples are decoded, until the block is done or the
/// bytes run out.
///
/// Gives back the length of the block where all of it was there. Each
/// sample that lies within `rest` is decoded either way; the other cells are
/// left as they were.
pub(crate) fn fill_complex(
    rest: &[u8],
    data: &mut Vec<Vec<Vec<ComplexSample>>>,
    nx: usize,
    ny: usize,
    nz: usize,
    mode: Mode,
) -> (taken: Option<usize>)
    requires
        mode.is_complex(),
        shaped(old(data)@, nx as int, ny as int, nz as int),
    ensures
        shaped(final(data)@, nx as int, ny as int, nz as int),
        match taken {
            Some(n) => n == mode.block_bytes(nx as int, ny as int, nz as int) && n <= rest.len(),
            None => mode.block_bytes(nx as int, ny as int, nz as int) > rest.len(),
        },
        forall|a: int, b: int, c: int|
            within(a, b, c, nx as int, ny as int, nz as int) ==> #[trigger] cell(
                final(data)@,
                a,
                b,
                c,
            ) == if sample_end(mode, nx as int, ny as int, a, b, c) <= rest.len() {
                complex_sample(mode, rest@, nx as int, ny as int, a, b, c)
            } else {
                cell(old(data)@, a, b, c)
            },
{
    let ghost row = mode.row_bytes(nx as int);
    let mut start: usize = 0;
    let mut z: usize = 0;
    proof {
        lemma_row_bytes_grow(mode, 0, nx as int);
        assert((0 * ny) * row == 0) by (nonlinear_arith);
    }
    while z < nz
        invariant
            z <= nz,
            mode.is_complex(),
            shaped(data@, nx as int, ny as int, nz as int),
            row == mode.row_bytes(nx as int),
            0 <= row,
            start == (z * ny) * row,
            start <= rest.len(),
            forall|a: int, b: int, c: int|
                within(a, b, c, nx as int, ny as int, nz as int) && c < z ==> #[trigger] cell(
                    data@,
                    a,
                    b,
                    c,
                ) == complex_sample(mode, rest@, nx as int, ny as int, a, b, c),
            forall|a: int, b: int, c: int|
                within(a, b, c, nx as int, ny as int, nz as int) && c >= z ==> #[trigger] cell(
                    data@,
                    a,
                    b,
                    c,
                ) == cell(old(data)@, a, b, c),
        decreases nz - z,
    {
        let mut y: usize = 0;
        while y < ny
            invariant
                y <= ny,
                z < nz,
                mode.is_complex(),
                shaped(data@, nx as int, ny as int, nz as int),
                row == mode.row_bytes(nx as int),
                0 <= row,
                start == (z * ny + y) * row,
                start <= rest.len(),
                forall|a: int, b: int, c: int|
                    within(a, b, c, nx as int, ny as int, nz as int) && earlier_row(
                        b,
                        c,
                        y as int,
                        z as int,
                    ) ==> #[trigger] cell(data@, a, b, c) == complex_sample(
                        mode,
                        rest@,
                        nx as int,
                        ny as int,
                        a,
                        b,
                        c,
                    ),
                forall|a: int, b: int, c: int|
                    within(a, b, c, nx as int, ny as int, nz as int) && !earlier_row(
                        b,
                        c,
                        y as int,
                        z as int,
                    ) ==> #[trigger] cell(data@, a, b, c) == cell(old(data)@, a, b, c),
            decreases ny - y,
        {
            let (count, next) = fill_complex_row(rest, data, nx, ny, nz, y, z, start, mode);
            proof {
                lemma_row_within_block(row, y as int, z as int, ny as int, nz as int);
                assert forall|a: int| 0 <= a < count implies #[trigger] cell(
                    data@,
                    a,
                    y as int,
                    z as int,
                ) == complex_sample(mode, rest@, nx as int, ny as int, a, y as int, z as int) by {
                    lemma_sample_offset(
                        mode.sample_bytes(),
                        a,
                        y as int,
                        z as int,
                        nx as int,
                        ny as int,
                    );
                }
            }
            if count < nx {
                proof {
                    assert forall|a: int, b: int, c: int|
                        within(a, b, c, nx as int, ny as int, nz as int) implies #[trigger] cell(
                        data@,
                        a,
                        b,
                        c,
                    ) == if sample_end(mode, nx as int, ny as int, a, b, c) <= rest.len() {
                        complex_sample(mode, rest@, nx as int, ny as int, a, b, c)
                    } else {
                        cell(old(data)@, a, b, c)
                    } by {
                        lemma_cut(
                            mode,
                            nx as int,
                            ny as int,
                            nz as int,
                            y as int,
                            z as int,
                            rest.len() as int,
                            count as int,
                            next as int,
                            a,
                            b,
                            c,
                        );
                    }
                    lemma_cut(
                        mode,
                        nx as int,
                        ny as int,
                        nz as int,
                        y as int,
                        z as int,
                        rest.len() as int,
                        count as int,
                        next as int,
                        count as int,
                        y as int,
                        z as int,
                    );
                }
                return None;
            }
            start = next;
            y = y + 1;
        }
        assert((z * ny + ny) * row == ((z + 1) * ny) * row) by (nonlinear_arith);
        z = z + 1;
    }
    proof {
        assert((nz * ny) * row == row * ny * nz) by (nonlinear_arith);
        assert forall|a: int, b: int, c: int|
            within(a, b, c, nx as int, ny as int, nz as int) implies sample_end(
            mode,
            nx as int,
            ny as int,
            a,
            b,
            c,
        ) <= rest.len() by {
            lemma_sample_within_block(mode, nx as int, ny as int, nz as int, a, b, c);
        }
    }
    Some(start)
}

} // verus!
