//! The sample encodings and the space they take on the wire.

use vstd::prelude::*;

verus! {

/// How the samples of a data block are encoded.
#[derive(Clone, Copy, Debug, PartialEq, Eq, Structural)]
pub enum Mode {
    /// Signed 8-bit integers.
    Int8,
    /// Signed 16-bit integers.
    Int16,
    /// Signed 32-bit integers.
    Int32,
    /// Pairs of signed 16-bit integers: real part, imaginary part.
    ComplexInt16,
    /// Pairs of signed 32-bit integers: real part, imaginary part.
    ComplexInt32,
    /// Unsigned 16-bit integers.
    UInt16,
    /// IEEE 754 binary16 values.
    Half,
    /// Unsigned 4-bit integers, two to a byte, each row starting a new byte.
    Packed4,
}

impl Mode {
    /// The encoding that the header's mode code `code` names, if any.
    pub open spec fn of_code(code: int) -> Option<Mode> {
        if code == 0 {
            Some(Mode::Int8)
        } else if code == 1 {
            Some(Mode::Int16)
        } else if code == 2 {
            Some(Mode::Int32)
        } else if code == 3 {
            Some(Mode::ComplexInt16)
        } else if code == 4 {
            Some(Mode::ComplexInt32)
        } else if code == 5 {
            Some(Mode::UInt16)
        } else if code == 6 {
            Some(Mode::Half)
        } else if code == 101 {
            Some(Mode::Packed4)
        } else {
            None
        }
    }

    /// Whether a sample has a real and an imaginary part.
    pub open spec fn is_complex(self) -> bool {
        self == Mode::ComplexInt16 || self == Mode::ComplexInt32
    }

    /// The bytes that one sample takes, for every encoding but the packed
    /// one, whose samples take half a byte.
    pub open spec fn sample_bytes(self) -> int {
        match self {
            Mode::Int8 => 1,
            Mode::Int16 => 2,
            Mode::Int32 => 4,
            Mode::ComplexInt16 => 4,
            Mode::ComplexInt32 => 8,
            Mode::UInt16 => 2,
            Mode::Half => 2,
            Mode::Packed4 => 0,
        }
    }

    /// The bytes that a row of `nx` samples takes. A packed row ends with
    /// half a byte unused where `nx` is odd.
    pub open spec fn row_bytes(self, nx: int) -> int {
        if self == Mode::Packed4 {
            (nx + 1) / 2
        } else {
            self.sample_bytes() * nx
        }
    }

    /// The bytes that a block of `nz` sections of `ny` rows of `nx` samples
    /// takes.
    pub open spec fn block_bytes(self, nx: int, ny: int, nz: int) -> int {
        self.row_bytes(nx) * ny * nz
    }

    /// The encoding that the header's mode code `code` names, if any.
    pub fn from_code(code: i32) -> (mode: Option<Mode>)
        ensures
            mode == Mode::of_code(code as int),
    {
        match code {
            0 => Some(Mode::Int8),
            1 => Some(Mode::Int16),
            2 => Some(Mode::Int32),
            3 => Some(Mode::ComplexInt16),
            4 => Some(Mode::ComplexInt32),
            5 => Some(Mode::UInt16),
            6 => Some(Mode::Half),
            101 => Some(Mode::Packed4),
            _ => None,
        }
    }

    /// The bytes that one sample takes; zero for the packed encoding.
    pub fn sample_len(self) -> (len: usize)
        ensures
            len == self.sample_bytes(),
    {
        match self {
            Mode::Int8 => 1,
            Mode::Int16 | Mode::UInt16 | Mode::Half => 2,
            Mode::Int32 | Mode::ComplexInt16 => 4,
            Mode::ComplexInt32 => 8,
            Mode::Packed4 => 0,
        }
    }

    /// The bytes that a row of `nx` samples takes, where that number fits.
    pub fn row_len(self, nx: usize) -> (len: Option<usize>)
        ensures
            len == if self.row_bytes(nx as int) <= usize::MAX {
                Some(self.row_bytes(nx as int) as usize)
            } else {
                None
            },
    {
        match self {
            Mode::Int8 => Some(nx),
            Mode::Int16 | Mode::UInt16 | Mode::Half => nx.checked_mul(2),
            Mode::Int32 | Mode::ComplexInt16 => nx.checked_mul(4),
            Mode::ComplexInt32 => nx.checked_mul(8),
            Mode::Packed4 => Some(nx / 2 + nx % 2),
        }
    }

    /// The bytes that a block of the given extents takes, where that number
    /// fits.
    pub fn block_len(self, nx: usize, ny: usize, nz: usize) -> (len: Option<usize>)
        ensures
            len == if self.block_bytes(nx as int, ny as int, nz as int) <= usize::MAX {
                Some(self.block_bytes(nx as int, ny as int, nz as int) as usize)
            } else {
                None
            },
    {
        if nx == 0 || ny == 0 || nz == 0 {
            assert(self.row_bytes(nx as int) * ny * nz == 0) by (nonlinear_arith)
                requires
                    self.row_bytes(nx as int) == 0 || ny == 0 || nz == 0,
            ;
            return Some(0);
        }
        let ghost row_bytes = self.row_bytes(nx as int);
        assert(row_bytes * ny * nz >= row_bytes * ny >= row_bytes >= 1) by (nonlinear_arith)
            requires
                row_bytes >= 1,
                ny >= 1,
                nz >= 1,
        ;
        let row = match self.row_len(nx) {
            Some(row) => row,
            None => {
                return None;
            },
        };
        let section = match row.checked_mul(ny) {
            Some(section) => section,
            None => {
                return None;
            },
        };
        section.checked_mul(nz)
    }
}

} // verus!
