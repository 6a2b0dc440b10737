//! The fixed 1024-byte header that opens every file.
//!
//! Every field has its place, and all numbers are little-endian:
//!
//! | bytes     | field                              |
//! |-----------|------------------------------------|
//! | 0..12     | `nx`, `ny`, `nz`                   |
//! | 12..16    | `mode`                             |
//! | 16..28    | `nxstart`, `nystart`, `nzstart`    |
//! | 28..40    | `mx`, `my`, `mz`                   |
//! | 40..52    | `cella`                            |
//! | 52..64    | `cellb`                            |
//! | 64..76    | `mapc`, `mapr`, `maps`             |
//! | 76..88    | `dmin`, `dmax`, `dmean`            |
//! | 88..96    | `ispg`, `nsymbt`                   |
//! | 96..196   | `extra`                            |
//! | 196..204  | `exttyp`, `nversion`               |
//! | 204..216  | `origin`                           |
//! | 216..220  | `map_id`                           |
//! | 220..224  | `machst`                           |
//! | 224..232  | `rms`, `nlabl`                     |
//! | 232..952  | `labels`, nine slots of 80 bytes   |
//! | 952..1024 | the tenth label, 72 bytes          |
//!
//! The fields follow one another without gaps and none overlaps another.
//! The header ends at byte 1024, so the tenth label has the 72 bytes that
//! are left where the others have 80.

use crate::error::DecodeError;
use crate::stream::ByteStream;
use crate::text::{decode_lossy, decode_padded, lossy_text, trim_trailing_nul};
use crate::wire::{le_i32, le_u32, take_i32, take_u32};
use vstd::prelude::*;
use vstd::slice::slice_subrange;

verus! {

/// Length of the header in bytes.
pub const HEADER_LEN: usize = 1024;

/// The header of a file.
///
/// Floating-point fields hold the IEEE 754 binary32 bit pattern found on the
/// wire.
#[derive(Debug)]
pub struct MRCHeader {
    /// Number of columns.
    pub nx: i32,
    /// Number of rows.
    pub ny: i32,
    /// Number of sections.
    pub nz: i32,
    /// Code of the sample encoding.
    pub mode: i32,
    /// Grid index of the first column.
    pub nxstart: i32,
    /// Grid index of the first row.
    pub nystart: i32,
    /// Grid index of the first section.
    pub nzstart: i32,
    /// Sampling grid size along x.
    pub mx: i32,
    /// Sampling grid size along y.
    pub my: i32,
    /// Sampling grid size along z.
    pub mz: i32,
    /// Cell dimensions, as bit patterns.
    pub cella: [u32; 3],
    /// Cell angles, as bit patterns.
    pub cellb: [u32; 3],
    /// Axis that corresponds to columns.
    pub mapc: i32,
    /// Axis that corresponds to rows.
    pub mapr: i32,
    /// Axis that corresponds to sections.
    pub maps: i32,
    /// Smallest sample value, as a bit pattern.
    pub dmin: u32,
    /// Largest sample value, as a bit pattern.
    pub dmax: u32,
    /// Mean sample value, as a bit pattern.
    pub dmean: u32,
    /// Space group number.
    pub ispg: i32,
    /// Length in bytes of the extended header that follows this one.
    pub nsymbt: i32,
    /// The reserved region, kept as found.
    pub extra: [u8; 100],
    /// Type of the extended header.
    pub exttyp: i32,
    /// Version of the format.
    pub nversion: i32,
    /// Phase origin, as bit patterns.
    pub origin: [u32; 3],
    /// The format's identifying stamp.
    pub map_id: String,
    /// The machine stamp, kept as found.
    pub machst: [u8; 4],
    /// Root-mean-square deviation of the samples, as a bit pattern.
    pub rms: u32,
    /// Number of labels in use.
    pub nlabl: i32,
    /// The ten labels, each without its trailing NUL padding. The first nine
    /// have 80 bytes on the wire, the tenth 72.
    pub labels: [String; 10],
}

/// The mathematical content of a header.
pub struct HeaderView {
    pub nx: int,
    pub ny: int,
    pub nz: int,
    pub mode: int,
    pub nxstart: int,
    pub nystart: int,
    pub nzstart: int,
    pub mx: int,
    pub my: int,
    pub mz: int,
    pub cella: Seq<u32>,
    pub cellb: Seq<u32>,
    pub mapc: int,
    pub mapr: int,
    pub maps: int,
    pub dmin: u32,
    pub dmax: u32,
    pub dmean: u32,
    pub ispg: int,
    pub nsymbt: int,
    pub extra: Seq<u8>,
    pub exttyp: int,
    pub nversion: int,
    pub origin: Seq<u32>,
    pub map_id: Seq<char>,
    pub machst: Seq<u8>,
    pub rms: u32,
    pub nlabl: int,
    pub labels: Seq<Seq<char>>,
}

impl View for MRCHeader {
    type V = HeaderView;

    open spec fn view(&self) -> HeaderView {
        HeaderView {
            nx: self.nx as int,
            ny: self.ny as int,
            nz: self.nz as int,
            mode: self.mode as int,
            nxstart: self.nxstart as int,
            nystart: self.nystart as int,
            nzstart: self.nzstart as int,
            mx: self.mx as int,
            my: self.my as int,
            mz: self.mz as int,
            cella: self.cella@,
            cellb: self.cellb@,
            mapc: self.mapc as int,
            mapr: self.mapr as int,
            maps: self.maps as int,
            dmin: self.dmin,
            dmax: self.dmax,
            dmean: self.dmean,
            ispg: self.ispg as int,
            nsymbt: self.nsymbt as int,
            extra: self.extra@,
            exttyp: self.exttyp as int,
            nversion: self.nversion as int,
            origin: self.origin@,
            map_id: self.map_id@,
            machst: self.machst@,
            rms: self.rms,
            nlabl: self.nlabl as int,
            labels: self.labels@.map_values(|label: String| label@),
        }
    }
}

/// The header in which every number is zero and every text is empty.
pub open spec fn blank_header() -> HeaderView {
    HeaderView {
        nx: 0,
        ny: 0,
        nz: 0,
        mode: 0,
        nxstart: 0,
        nystart: 0,
        nzstart: 0,
        mx: 0,
        my: 0,
        mz: 0,
        cella: Seq::new(3, |i: int| 0u32),
        cellb: Seq::new(3, |i: int| 0u32),
        mapc: 0,
        mapr: 0,
        maps: 0,
        dmin: 0,
        dmax: 0,
        dmean: 0,
        ispg: 0,
        nsymbt: 0,
        extra: Seq::new(100, |i: int| 0u8),
        exttyp: 0,
        nversion: 0,
        origin: Seq::new(3, |i: int| 0u32),
        map_id: Seq::empty(),
        machst: Seq::new(4, |i: int| 0u8),
        rms: 0,
        nlabl: 0,
        labels: Seq::new(10, |i: int| Seq::empty()),
    }
}

/// Where label slot `slot` starts in a header.
pub open spec fn label_start(slot: int) -> int {
    232 + 80 * slot
}

/// Where label slot `slot` ends in a header: 80 bytes after its start, or
/// at the header's end for the tenth.
pub open spec fn label_end(slot: int) -> int {
    if slot == 9 {
        1024
    } else {
        312 + 80 * slot
    }
}

/// The text of label slot `slot` in the header bytes `s`.
pub open spec fn label_of(s: Seq<u8>, slot: int) -> Seq<char> {
    trim_trailing_nul(lossy_text(s.subrange(label_start(slot), label_end(slot))))
}

/// What the header bytes `s` say: each field read at its place, the fields
/// in wire order one after another. Numbers are little-endian.
pub open spec fn header_of(s: Seq<u8>) -> HeaderView {
    HeaderView {
        nx: le_i32(s, 0),
        ny: le_i32(s, 4),
        nz: le_i32(s, 8),
        mode: le_i32(s, 12),
        nxstart: le_i32(s, 16),
        nystart: le_i32(s, 20),
        nzstart: le_i32(s, 24),
        mx: le_i32(s, 28),
        my: le_i32(s, 32),
        mz: le_i32(s, 36),
        cella: seq![le_u32(s, 40) as u32, le_u32(s, 44) as u32, le_u32(s, 48) as u32],
        cellb: seq![le_u32(s, 52) as u32, le_u32(s, 56) as u32, le_u32(s, 60) as u32],
        mapc: le_i32(s, 64),
        mapr: le_i32(s, 68),
        maps: le_i32(s, 72),
        dmin: le_u32(s, 76) as u32,
        dmax: le_u32(s, 80) as u32,
        dmean: le_u32(s, 84) as u32,
        ispg: le_i32(s, 88),
        nsymbt: le_i32(s, 92),
        extra: s.subrange(96, 196),
        exttyp: le_i32(s, 196),
        nversion: le_i32(s, 200),
        origin: seq![le_u32(s, 204) as u32, le_u32(s, 208) as u32, le_u32(s, 212) as u32],
        map_id: lossy_text(s.subrange(216, 220)),
        machst: s.subrange(220, 224),
        rms: le_u32(s, 224) as u32,
        nlabl: le_i32(s, 228),
        labels: Seq::new(10, |slot: int| label_of(s, slot)),
    }
}

/// No text of the header has more characters than its field has bytes.
pub open spec fn texts_fit(h: HeaderView) -> bool {
    &&& h.map_id.len() <= 4
    &&& h.labels.len() == 10
    &&& forall|slot: int|
        0 <= slot < 10 ==> (#[trigger] h.labels[slot]).len() <= label_end(slot) - label_start(slot)
}

/// The header bytes of `bytes` that start at `base`.
spec fn window(bytes: Seq<u8>, base: int) -> Seq<u8> {
    bytes.subrange(base, base + 1024)
}

/// The signed 32-bit field at `at` in the header that starts at `base`.
fn int_field(bytes: &[u8], base: usize, at: usize) -> (v: i32)
    requires
        base + 1024 <= bytes.len(),
        at + 4 <= 1024,
    ensures
        v as int == le_i32(window(bytes@, base as int), at as int),
{
    take_i32(bytes, base + at)
}

/// The 32-bit pattern at `at` in the header that starts at `base`.
fn bits_field(bytes: &[u8], base: usize, at: usize) -> (v: u32)
    requires
        base + 1024 <= bytes.len(),
        at + 4 <= 1024,
    ensures
        v == le_u32(window(bytes@, base as int), at as int) as u32,
{
    take_u32(bytes, base + at)
}

/// The three 32-bit patterns at `at` in the header that starts at `base`.
fn triple_field(bytes: &[u8], base: usize, at: usize) -> (words: [u32; 3])
    requires
        base + 1024 <= bytes.len(),
        at + 12 <= 1024,
    ensures
        words@ == seq![
            le_u32(window(bytes@, base as int), at as int) as u32,
            le_u32(window(bytes@, base as int), at + 4) as u32,
            le_u32(window(bytes@, base as int), at + 8) as u32,
        ],
{
    let words = [
        bits_field(bytes, base, at),
        bits_field(bytes, base, at + 4),
        bits_field(bytes, base, at + 8),
    ];
    assert(words@ =~= seq![
        le_u32(window(bytes@, base as int), at as int) as u32,
        le_u32(window(bytes@, base as int), at + 4) as u32,
        le_u32(window(bytes@, base as int), at + 8) as u32,
    ]);
    words
}

/// The reserved region of the header that starts at `base`, copied out.
fn extra_field(bytes: &[u8], base: usize) -> (region: [u8; 100])
    requires
        base + 1024 <= bytes.len(),
    ensures
        region@ == window(bytes@, base as int).subrange(96, 196),
{
    let mut region = [0u8; 100];
    let mut i: usize = 0;
    while i < 100
        invariant
            i <= 100,
            base + 1024 <= bytes.len(),
            forall|k: int| 0 <= k < i ==> region@[k] == bytes@[base + 96 + k],
        decreases 100 - i,
    {
        region[i] = bytes[base + 96 + i];
        i = i + 1;
    }
    assert(region@ =~= window(bytes@, base as int).subrange(96, 196));
    region
}

/// The machine stamp of the header that starts at `base`, copied out.
fn stamp_field(bytes: &[u8], base: usize) -> (stamp: [u8; 4])
    requires
        base + 1024 <= bytes.len(),
    ensures
        stamp@ == window(bytes@, base as int).subrange(220, 224),
{
    let stamp = [bytes[base + 220], bytes[base + 221], bytes[base + 222], bytes[base + 223]];
    assert(stamp@ =~= window(bytes@, base as int).subrange(220, 224));
    stamp
}

/// The identifying stamp of the header that starts at `base`, as text.
fn map_id_field(bytes: &[u8], base: usize) -> (text: String)
    requires
        base + 1024 <= bytes.len(),
    ensures
        text@ == lossy_text(window(bytes@, base as int).subrange(216, 220)),
        text@.len() <= 4,
{
    let field = slice_subrange(bytes, base + 216, base + 220);
    assert(field@ =~= window(bytes@, base as int).subrange(216, 220));
    decode_lossy(field)
}

/// The text of label slot `slot` of the header that starts at `base`.
fn label_field(bytes: &[u8], base: usize, slot: usize) -> (label: String)
    requires
        base + 1024 <= bytes.len(),
        slot < 10,
    ensures
        label@ == label_of(window(bytes@, base as int), slot as int),
        label@.len() <= label_end(slot as int) - label_start(slot as int),
{
    let from: usize = base + 232 + 80 * slot;
    let to: usize = if slot == 9 {
        base + 1024
    } else {
        from + 80
    };
    let field = slice_subrange(bytes, from, to);
    assert(field@ =~= window(bytes@, base as int).subrange(
        label_start(slot as int),
        label_end(slot as int),
    ));
    decode_padded(field)
}

/// The header that starts at `base`.
fn header_at(bytes: &[u8], base: usize) -> (header: MRCHeader)
    requires
        base + 1024 <= bytes.len(),
    ensures
        header@ == header_of(window(bytes@, base as int)),
        texts_fit(header@),
{
    let header = MRCHeader {
        nx: int_field(bytes, base, 0),
        ny: int_field(bytes, base, 4),
        nz: int_field(bytes, base, 8),
        mode: int_field(bytes, base, 12),
        nxstart: int_field(bytes, base, 16),
        nystart: int_field(bytes, base, 20),
        nzstart: int_field(bytes, base, 24),
        mx: int_field(bytes, base, 28),
        my: int_field(bytes, base, 32),
        mz: int_field(bytes, base, 36),
        cella: triple_field(bytes, base, 40),
        cellb: triple_field(bytes, base, 52),
        mapc: int_field(bytes, base, 64),
        mapr: int_field(bytes, base, 68),
        maps: int_field(bytes, base, 72),
        dmin: bits_field(bytes, base, 76),
        dmax: bits_field(bytes, base, 80),
        dmean: bits_field(bytes, base, 84),
        ispg: int_field(bytes, base, 88),
        nsymbt: int_field(bytes, base, 92),
        extra: extra_field(bytes, base),
        exttyp: int_field(bytes, base, 196),
        nversion: int_field(bytes, base, 200),
        origin: triple_field(bytes, base, 204),
        map_id: map_id_field(bytes, base),
        machst: stamp_field(bytes, base),
        rms: bits_field(bytes, base, 224),
        nlabl: int_field(bytes, base, 228),
        labels: [
            label_field(bytes, base, 0),
            label_field(bytes, base, 1),
            label_field(bytes, base, 2),
            label_field(bytes, base, 3),
            label_field(bytes, base, 4),
            label_field(bytes, base, 5),
            label_field(bytes, base, 6),
            label_field(bytes, base, 7),
            label_field(bytes, base, 8),
            label_field(bytes, base, 9),
        ],
    };
    proof {
        let want = header_of(window(bytes@, base as int));
        assert(header@.cella =~= want.cella);
        assert(header@.cellb =~= want.cellb);
        assert(header@.origin =~= want.origin);
        assert(header@.labels =~= want.labels);
    }
    header
}

impl MRCHeader {
    /// A header in which every number is zero and every text is empty.
    pub fn new() -> (header: Self)
        ensures
            header@ == blank_header(),
    {
        let header = MRCHeader {
            nx: 0,
            ny: 0,
            nz: 0,
            mode: 0,
            nxstart: 0,
            nystart: 0,
            nzstart: 0,
            mx: 0,
            my: 0,
            mz: 0,
            cella: [0u32; 3],
            cellb: [0u32; 3],
            mapc: 0,
            mapr: 0,
            maps: 0,
            dmin: 0,
            dmax: 0,
            dmean: 0,
            ispg: 0,
            nsymbt: 0,
            extra: [0u8; 100],
            exttyp: 0,
            nversion: 0,
            origin: [0u32; 3],
            map_id: String::new(),
            machst: [0u8; 4],
            rms: 0,
            nlabl: 0,
            labels: [
                String::new(),
                String::new(),
                String::new(),
                String::new(),
                String::new(),
                String::new(),
                String::new(),
                String::new(),
                String::new(),
                String::new(),
            ],
        };
        proof {
            assert(header@.cella =~= blank_header().cella);
            assert(header@.cellb =~= blank_header().cellb);
            assert(header@.origin =~= blank_header().origin);
            assert(header@.extra =~= blank_header().extra);
            assert(header@.machst =~= blank_header().machst);
            assert(header@.labels =~= blank_header().labels);
        }
        header
    }

    /// Reads the header that the next 1024 bytes of `stream` hold, and
    /// passes over them.
    ///
    /// Fails where fewer than 1024 bytes are left; the stream then stays
    /// where it was.
    pub fn read_from_stream(stream: &mut ByteStream) -> (r: Result<Self, DecodeError>)
        ensures
            final(stream).content() == old(stream).content(),
            match r {
                Ok(header) => {
                    &&& old(stream).unread().len() >= HEADER_LEN
                    &&& header@ == header_of(old(stream).unread().subrange(0, HEADER_LEN as int))
                    &&& texts_fit(header@)
                    &&& final(stream).offset() == old(stream).offset() + HEADER_LEN
                },
                Err(e) => {
                    &&& e == DecodeError::Truncated
                    &&& old(stream).unread().len() < HEADER_LEN
                    &&& final(stream).offset() == old(stream).offset()
                },
            },
    {
        if stream.remaining() < HEADER_LEN {
            return Err(DecodeError::Truncated);
        }
        let bytes = stream.bytes();
        let base: usize = stream.position();
        assert(window(bytes@, base as int) =~= stream.unread().subrange(0, HEADER_LEN as int));
        let header = header_at(bytes, base);
        stream.advance(HEADER_LEN);
        Ok(header)
    }
}

} // verus!
