//! The bytes that a header is written as, and the law that reading them
//! gives the header back.

use crate::header::{header_of, label_end, label_of, label_start, HeaderView};
use crate::text::{lossy_text, trim_trailing_nul};
use crate::wire::{le_i32, le_u32};
use vstd::prelude::*;
use vstd::utf8::*;

verus! {

/// Byte `k` of the little-endian form of `v`.
pub open spec fn le_byte(v: int, k: nat) -> int
    decreases k,
{
    if k == 0 {
        v % 0x100
    } else {
        le_byte(v / 0x100, (k - 1) as nat)
    }
}

/// The 32-bit words `ws`, each in little-endian form, one after another.
/// A negative word is written in two's complement.
pub open spec fn le_words(ws: Seq<int>) -> Seq<u8> {
    Seq::new(4 * ws.len(), |i: int| le_byte(ws[i / 4], (i % 4) as nat) as u8)
}

/// `text` in UTF-8, filled up with NUL bytes to `len` bytes.
pub open spec fn padded(text: Seq<char>, len: int) -> Seq<u8> {
    encode_utf8(text) + Seq::new((len - encode_utf8(text).len()) as nat, |i: int| 0u8)
}

/// The bytes that label slot `slot` has: 80, or 72 for the tenth.
pub open spec fn slot_len(slot: int) -> int {
    label_end(slot) - label_start(slot)
}

/// The ten label slots, one after another.
pub open spec fn label_image(labels: Seq<Seq<char>>) -> Seq<u8> {
    Seq::new(792, |i: int| padded(labels[i / 80], slot_len(i / 80))[i % 80])
}

/// A number that a signed 32-bit field can hold.
pub open spec fn fits_i32(v: int) -> bool {
    -0x8000_0000 <= v < 0x8000_0000
}

/// A text that a label slot of `len` bytes can hold and give back: at most
/// `len` bytes of UTF-8, with no NUL at its end.
pub open spec fn fits_label(text: Seq<char>, len: int) -> bool {
    &&& encode_utf8(text).len() <= len
    &&& text.len() > 0 ==> text.last() != '\0'
}

/// The header's values are such as a file can hold: every number fits its
/// field, every region has its length, and every text fits its field.
pub open spec fn writable(h: HeaderView) -> bool {
    &&& fits_i32(h.nx) && fits_i32(h.ny) && fits_i32(h.nz) && fits_i32(h.mode)
    &&& fits_i32(h.nxstart) && fits_i32(h.nystart) && fits_i32(h.nzstart)
    &&& fits_i32(h.mx) && fits_i32(h.my) && fits_i32(h.mz)
    &&& fits_i32(h.mapc) && fits_i32(h.mapr) && fits_i32(h.maps)
    &&& fits_i32(h.ispg) && fits_i32(h.nsymbt)
    &&& fits_i32(h.exttyp) && fits_i32(h.nversion) && fits_i32(h.nlabl)
    &&& h.cella.len() == 3 && h.cellb.len() == 3 && h.origin.len() == 3
    &&& h.extra.len() == 100
    &&& h.machst.len() == 4
    &&& encode_utf8(h.map_id).len() == 4
    &&& h.labels.len() == 10
    &&& forall|slot: int| 0 <= slot < 10 ==> fits_label(#[trigger] h.labels[slot], slot_len(slot))
}

/// The words at the start of a header, up to the reserved region.
pub open spec fn head_words(h: HeaderView) -> Seq<int> {
    seq![
        h.nx,
        h.ny,
        h.nz,
        h.mode,
        h.nxstart,
        h.nystart,
        h.nzstart,
        h.mx,
        h.my,
        h.mz,
        h.cella[0] as int,
        h.cella[1] as int,
        h.cella[2] as int,
        h.cellb[0] as int,
        h.cellb[1] as int,
        h.cellb[2] as int,
        h.mapc,
        h.mapr,
        h.maps,
        h.dmin as int,
        h.dmax as int,
        h.dmean as int,
        h.ispg,
        h.nsymbt,
    ]
}

/// The five words between the reserved region and the identifying stamp.
pub open spec fn mid_words(h: HeaderView) -> Seq<int> {
    seq![h.exttyp, h.nversion, h.origin[0] as int, h.origin[1] as int, h.origin[2] as int]
}

/// The two words between the machine stamp and the labels.
pub open spec fn tail_words(h: HeaderView) -> Seq<int> {
    seq![h.rms as int, h.nlabl]
}

/// The 1024 bytes that a header is written as: its fields in wire order,
/// numbers little-endian, texts in UTF-8, labels filled up with NUL bytes.
pub open spec fn image(h: HeaderView) -> Seq<u8> {
    le_words(head_words(h)) + h.extra + le_words(mid_words(h)) + encode_utf8(h.map_id)
        + h.machst + le_words(tail_words(h)) + label_image(h.labels)
}

/// A word is read back from its little-endian form, up to a multiple of
/// 2^32.
proof fn lemma_word_read_back(ws: Seq<int>, j: int)
    requires
        0 <= j < ws.len(),
    ensures
        le_u32(le_words(ws), 4 * j) == ws[j] % 0x1_0000_0000,
{
    let v = ws[j];
    let s = le_words(ws);
    reveal_with_fuel(le_byte, 4);
    assert(s[4 * j] == le_byte(v, 0) as u8);
    assert(s[4 * j + 1] == le_byte(v, 1) as u8);
    assert(s[4 * j + 2] == le_byte(v, 2) as u8);
    assert(s[4 * j + 3] == le_byte(v, 3) as u8);
}

/// `n` NUL characters.
pub open spec fn nuls(n: nat) -> Seq<char> {
    Seq::new(n, |i: int| '\0')
}

/// The encoding of two texts joined is the two encodings joined.
proof fn lemma_encode_joined(a: Seq<char>, b: Seq<char>)
    ensures
        encode_utf8(a + b) == encode_utf8(a) + encode_utf8(b),
    decreases a.len(),
{
    if a.len() == 0 {
        assert(a + b =~= b);
        assert(encode_utf8(a) + encode_utf8(b) =~= encode_utf8(b));
    } else {
        lemma_encode_joined(a.drop_first(), b);
        assert((a + b).drop_first() =~= a.drop_first() + b);
        assert(encode_utf8(a + b) =~= encode_utf8(a) + encode_utf8(b));
    }
}

/// NUL characters are encoded as NUL bytes, one each.
proof fn lemma_encode_nuls(n: nat)
    ensures
        encode_utf8(nuls(n)) == Seq::new(n, |i: int| 0u8),
    decreases n,
{
    if n > 0 {
        lemma_encode_nuls((n - 1) as nat);
        assert(nuls(n).drop_first() =~= nuls((n - 1) as nat));
        assert(has_width_1_encoding(0u32));
        assert(leading_byte_width_1(0u32) == 0u8) by (bit_vector);
        assert(encode_scalar('\0' as u32) =~= seq![0u8]);
    }
    assert(encode_utf8(nuls(n)) =~= Seq::new(n, |i: int| 0u8));
}

/// NUL characters added to a text that ends in none are trimmed away
/// again, and nothing else is.
proof fn lemma_trim_nuls(text: Seq<char>, n: nat)
    requires
        text.len() > 0 ==> text.last() != '\0',
    ensures
        trim_trailing_nul(text + nuls(n)) == text,
    decreases n,
{
    if n == 0 {
        assert(text + nuls(n) =~= text);
    } else {
        lemma_trim_nuls(text, (n - 1) as nat);
        assert((text + nuls(n)).drop_last() =~= text + nuls((n - 1) as nat));
    }
}

/// A text that fits a label slot is read back from the slot's bytes.
proof fn lemma_label_read_back(text: Seq<char>, len: int)
    requires
        fits_label(text, len),
    ensures
        padded(text, len).len() == len,
        trim_trailing_nul(lossy_text(padded(text, len))) == text,
{
    let fill = (len - encode_utf8(text).len()) as nat;
    lemma_encode_nuls(fill);
    lemma_encode_joined(text, nuls(fill));
    assert(padded(text, len) == encode_utf8(text + nuls(fill)));
    encode_utf8_valid_utf8(text + nuls(fill));
    encode_utf8_decode_utf8(text + nuls(fill));
    lemma_trim_nuls(text, fill);
}

/// Where each part of a header lies in its bytes.
proof fn lemma_layout(h: HeaderView)
    requires
        writable(h),
    ensures
        image(h).len() == 1024,
        image(h).subrange(0, 96) == le_words(head_words(h)),
        image(h).subrange(96, 196) == h.extra,
        image(h).subrange(196, 216) == le_words(mid_words(h)),
        image(h).subrange(216, 220) == encode_utf8(h.map_id),
        image(h).subrange(220, 224) == h.machst,
        image(h).subrange(224, 232) == le_words(tail_words(h)),
        image(h).subrange(232, 1024) == label_image(h.labels),
{
    let s = image(h);
    assert(s.subrange(0, 96) =~= le_words(head_words(h)));
    assert(s.subrange(96, 196) =~= h.extra);
    assert(s.subrange(196, 216) =~= le_words(mid_words(h)));
    assert(s.subrange(216, 220) =~= encode_utf8(h.map_id));
    assert(s.subrange(220, 224) =~= h.machst);
    assert(s.subrange(224, 232) =~= le_words(tail_words(h)));
    assert(s.subrange(232, 1024) =~= label_image(h.labels));
}

/// A signed word that lies within a part of `s` is read back from `s`.
proof fn lemma_signed_read_back(s: Seq<u8>, from: int, ws: Seq<int>, j: int)
    requires
        0 <= from,
        from + 4 * ws.len() <= s.len(),
        s.subrange(from, from + 4 * ws.len()) == le_words(ws),
        0 <= j < ws.len(),
        fits_i32(ws[j]),
    ensures
        le_i32(s, from + 4 * j) == ws[j],
{
    lemma_word_read_back(ws, j);
    let part = s.subrange(from, from + 4 * ws.len());
    assert(part[4 * j] == s[from + 4 * j]);
    assert(part[4 * j + 1] == s[from + 4 * j + 1]);
    assert(part[4 * j + 2] == s[from + 4 * j + 2]);
    assert(part[4 * j + 3] == s[from + 4 * j + 3]);
}

/// A bit pattern that lies within a part of `s` is read back from `s`.
proof fn lemma_pattern_read_back(s: Seq<u8>, from: int, ws: Seq<int>, j: int)
    requires
        0 <= from,
        from + 4 * ws.len() <= s.len(),
        s.subrange(from, from + 4 * ws.len()) == le_words(ws),
        0 <= j < ws.len(),
        0 <= ws[j] < 0x1_0000_0000,
    ensures
        le_u32(s, from + 4 * j) == ws[j],
{
    lemma_word_read_back(ws, j);
    let part = s.subrange(from, from + 4 * ws.len());
    assert(part[4 * j] == s[from + 4 * j]);
    assert(part[4 * j + 1] == s[from + 4 * j + 1]);
    assert(part[4 * j + 2] == s[from + 4 * j + 2]);
    assert(part[4 * j + 3] == s[from + 4 * j + 3]);
}

/// The numbers before the reserved region are read back.
proof fn lemma_head_read_back(h: HeaderView)
    requires
        writable(h),
    ensures
        forall|j: int|
            0 <= j < 24 && fits_i32(head_words(h)[j]) ==> le_i32(image(h), 4 * j)
                == #[trigger] head_words(h)[j],
        forall|j: int|
            0 <= j < 24 && 0 <= head_words(h)[j] < 0x1_0000_0000 ==> le_u32(image(h), 4 * j)
                == #[trigger] head_words(h)[j],
{
    lemma_layout(h);
    assert forall|j: int| 0 <= j < 24 && fits_i32(head_words(h)[j]) implies le_i32(
        image(h),
        4 * j,
    ) == #[trigger] head_words(h)[j] by {
        lemma_signed_read_back(image(h), 0, head_words(h), j);
    }
    assert forall|j: int| 0 <= j < 24 && 0 <= head_words(h)[j] < 0x1_0000_0000 implies le_u32(
        image(h),
        4 * j,
    ) == #[trigger] head_words(h)[j] by {
        lemma_pattern_read_back(image(h), 0, head_words(h), j);
    }
}

/// The numbers after the reserved region are read back.
proof fn lemma_rest_read_back(h: HeaderView)
    requires
        writable(h),
    ensures
        le_i32(image(h), 196) == h.exttyp,
        le_i32(image(h), 200) == h.nversion,
        le_u32(image(h), 204) == h.origin[0],
        le_u32(image(h), 208) == h.origin[1],
        le_u32(image(h), 212) == h.origin[2],
        le_u32(image(h), 224) == h.rms,
        le_i32(image(h), 228) == h.nlabl,
{
    lemma_layout(h);
    let s = image(h);
    lemma_signed_read_back(s, 196, mid_words(h), 0);
    lemma_signed_read_back(s, 196, mid_words(h), 1);
    lemma_pattern_read_back(s, 196, mid_words(h), 2);
    lemma_pattern_read_back(s, 196, mid_words(h), 3);
    lemma_pattern_read_back(s, 196, mid_words(h), 4);
    lemma_pattern_read_back(s, 224, tail_words(h), 0);
    lemma_signed_read_back(s, 224, tail_words(h), 1);
}

/// The texts are read back.
proof fn lemma_texts_read_back(h: HeaderView)
    requires
        writable(h),
    ensures
        lossy_text(image(h).subrange(216, 220)) == h.map_id,
        forall|slot: int| 0 <= slot < 10 ==> #[trigger] label_of(image(h), slot) == h.labels[slot],
{
    lemma_layout(h);
    let s = image(h);
    encode_utf8_valid_utf8(h.map_id);
    encode_utf8_decode_utf8(h.map_id);
    assert forall|slot: int| 0 <= slot < 10 implies #[trigger] label_of(s, slot)
        == h.labels[slot] by {
        lemma_label_read_back(h.labels[slot], slot_len(slot));
        let field = s.subrange(label_start(slot), label_end(slot));
        assert(field =~= s.subrange(232, 1024).subrange(
            80 * slot,
            80 * slot + slot_len(slot),
        ));
        assert(field =~= padded(h.labels[slot], slot_len(slot)));
    }
}

/// Reading the bytes that a header is written as gives the header back:
/// every number, every opaque region and every text. This holds of every
/// header whose numbers and texts fit their fields.
pub proof fn lemma_read_back(h: HeaderView)
    requires
        writable(h),
    ensures
        image(h).len() == 1024,
        header_of(image(h)) == h,
{
    lemma_layout(h);
    lemma_head_read_back(h);
    lemma_rest_read_back(h);
    lemma_texts_read_back(h);
    let got = header_of(image(h));
    let head = head_words(h);
    assert(head[0] == h.nx && head[1] == h.ny && head[2] == h.nz && head[3] == h.mode);
    assert(head[4] == h.nxstart && head[5] == h.nystart && head[6] == h.nzstart);
    assert(head[7] == h.mx && head[8] == h.my && head[9] == h.mz);
    assert(head[16] == h.mapc && head[17] == h.mapr && head[18] == h.maps);
    assert(head[22] == h.ispg && head[23] == h.nsymbt);
    assert(head[10] == h.cella[0] && head[11] == h.cella[1] && head[12] == h.cella[2]);
    assert(head[13] == h.cellb[0] && head[14] == h.cellb[1] && head[15] == h.cellb[2]);
    assert(head[19] == h.dmin && head[20] == h.dmax && head[21] == h.dmean);
    assert(got.cella =~= h.cella);
    assert(got.cellb =~= h.cellb);
    assert(got.origin =~= h.origin);
    assert(got.labels =~= h.labels);
}

} // verus!
