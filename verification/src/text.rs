//! Text fields: permissive decoding and removal of trailing padding.

use vstd::prelude::*;
use vstd::string::*;
use vstd::utf8::*;

verus! {

/// What `String::from_utf8_lossy` makes of bytes that are not valid UTF-8.
pub uninterp spec fn utf8_repaired(bytes: Seq<u8>) -> Seq<char>;

/// The text that permissive decoding makes of `bytes`: the characters that
/// they encode where they are valid UTF-8, and a repaired reading otherwise.
pub open spec fn lossy_text(bytes: Seq<u8>) -> Seq<char> {
    if valid_utf8(bytes) {
        decode_utf8(bytes)
    } else {
        utf8_repaired(bytes)
    }
}

/// `s` without the NUL characters at its end.
pub open spec fn trim_trailing_nul(s: Seq<char>) -> Seq<char>
    decreases s.len(),
{
    if s.len() > 0 && s.last() == '\0' {
        trim_trailing_nul(s.drop_last())
    } else {
        s
    }
}

/// `String::from_utf8_lossy`, with the result made an owned `String`.
///
/// Trusted: valid UTF-8 comes back as the characters it encodes; for any
/// other input the result is whatever the standard library's replacement of
/// invalid sequences yields, which is a function of the bytes alone. Every
/// character of the result, replacement characters included, stands for at
/// least one byte, so the text has no more characters than there are bytes.
#[verifier::external_body]
pub(crate) fn decode_lossy(bytes: &[u8]) -> (text: String)
    ensures
        valid_utf8(bytes@) ==> text@ == decode_utf8(bytes@),
        !valid_utf8(bytes@) ==> text@ == utf8_repaired(bytes@),
        text@.len() <= bytes@.len(),
{
    String::from_utf8_lossy(bytes).into_owned()
}

/// Trimming takes characters away and adds none.
pub proof fn lemma_trim_shortens(s: Seq<char>)
    ensures
        trim_trailing_nul(s).len() <= s.len(),
    decreases s.len(),
{
    if s.len() > 0 && s.last() == '\0' {
        lemma_trim_shortens(s.drop_last());
    }
}

/// Every prefix of `s` that reaches past the last character other than NUL
/// trims to the same text as `s`.
proof fn lemma_trim_prefix(s: Seq<char>, end: int)
    requires
        0 <= end <= s.len(),
        forall|i: int| end <= i < s.len() ==> s[i] == '\0',
    ensures
        trim_trailing_nul(s) == trim_trailing_nul(s.subrange(0, end)),
        trim_trailing_nul(s).len() <= end,
    decreases s.len() - end,
{
    if end < s.len() {
        assert(s.last() == '\0');
        assert(s.drop_last().subrange(0, end) =~= s.subrange(0, end));
        lemma_trim_prefix(s.drop_last(), end);
    } else {
        assert(s.subrange(0, end) =~= s);
        lemma_trim_shortens(s);
    }
}

/// Removes the NUL characters at the end of `text`.
pub fn strip_trailing_nul(text: &str) -> (trimmed: String)
    ensures
        trimmed@ == trim_trailing_nul(text@),
        trimmed@.len() <= text@.len(),
{
    let mut end: usize = text.unicode_len();
    while end > 0 && text.get_char(end - 1) == '\0'
        invariant
            end <= text@.len(),
            forall|i: int| end <= i < text@.len() ==> text@[i] == '\0',
        decreases end,
    {
        end = end - 1;
    }
    proof {
        lemma_trim_prefix(text@, end as int);
    }
    text.substring_char(0, end).to_owned()
}

/// Decodes `bytes` permissively and removes the NUL padding at the end.
pub fn decode_padded(bytes: &[u8]) -> (text: String)
    ensures
        text@ == trim_trailing_nul(lossy_text(bytes@)),
        text@.len() <= bytes@.len(),
{
    let whole = decode_lossy(bytes);
    strip_trailing_nul(whole.as_str())
}

} // verus!
