//! Three-dimensional arrays indexed `[x][y][z]`.

use vstd::prelude::*;

verus! {

/// `data` has `nx` planes of `ny` rows of `nz` cells each.
pub open spec fn shaped<T>(data: Seq<Vec<Vec<T>>>, nx: int, ny: int, nz: int) -> bool {
    &&& data.len() == nx
    &&& forall|x: int| 0 <= x < nx ==> (#[trigger] data[x])@.len() == ny
    &&& forall|x: int, y: int|
        0 <= x < nx && 0 <= y < ny ==> (#[trigger] data[x]@[y])@.len() == nz
}

/// The cell of `data` at `[x][y][z]`.
pub open spec fn cell<T>(data: Seq<Vec<Vec<T>>>, x: int, y: int, z: int) -> T {
    data[x]@[y]@[z]
}

/// `(x, y, z)` lies within the extents `(nx, ny, nz)`.
pub open spec fn within(x: int, y: int, z: int, nx: int, ny: int, nz: int) -> bool {
    0 <= x < nx && 0 <= y < ny && 0 <= z < nz
}

/// A complex sample: the bit patterns of its real and imaginary parts.
#[derive(Clone, Copy, Debug, PartialEq, Eq, Structural)]
pub struct ComplexSample {
    /// The real part, as a binary32 bit pattern.
    pub re: u32,
    /// The imaginary part, as a binary32 bit pattern.
    pub im: u32,
}

/// An array of the given extents with positive zero in every cell.
pub fn new_real_grid(nx: usize, ny: usize, nz: usize) -> (data: Vec<Vec<Vec<u32>>>)
    ensures
        shaped(data@, nx as int, ny as int, nz as int),
        forall|x: int, y: int, z: int|
            within(x, y, z, nx as int, ny as int, nz as int) ==> #[trigger] cell(data@, x, y, z)
                == 0,
{
    vec![vec![vec![0u32; nz]; ny]; nx]
}

/// An array of the given extents with zero in every cell.
pub fn new_complex_grid(nx: usize, ny: usize, nz: usize) -> (data: Vec<Vec<Vec<ComplexSample>>>)
    ensures
        shaped(data@, nx as int, ny as int, nz as int),
        forall|x: int, y: int, z: int|
            within(x, y, z, nx as int, ny as int, nz as int) ==> #[trigger] cell(data@, x, y, z)
                == (ComplexSample { re: 0, im: 0 }),
{
    vec![vec![vec![ComplexSample { re: 0, im: 0 }; nz]; ny]; nx]
}

/// Stores `value` at `[x][y][z]` and leaves every other cell as it was.
pub fn set_cell<T>(
    data: &mut Vec<Vec<Vec<T>>>,
    x: usize,
    y: usize,
    z: usize,
    value: T,
    nx: usize,
    ny: usize,
    nz: usize,
)
    requires
        shaped(old(data)@, nx as int, ny as int, nz as int),
        within(x as int, y as int, z as int, nx as int, ny as int, nz as int),
    ensures
        shaped(final(data)@, nx as int, ny as int, nz as int),
        cell(final(data)@, x as int, y as int, z as int) == value,
        forall|a: int, b: int, c: int|
            within(a, b, c, nx as int, ny as int, nz as int) && !(a == x && b == y && c == z)
                ==> #[trigger] cell(final(data)@, a, b, c) == cell(old(data)@, a, b, c),
{
    data[x][y][z] = value;
}

} // verus!
