use vstd::prelude::*;
use vstd::utf8::{decode_utf8, encode_utf8, is_ascii_chars, valid_utf8};

verus! {

/// What `String::from_utf8_lossy` makes of bytes that are not valid UTF-8:
/// the text in which each malformed stretch has become U+FFFD.
pub uninterp spec fn utf8_lossy_repaired(bytes: Seq<u8>) -> Seq<char>;

/// What `str::to_lowercase` makes of text that holds a character outside
/// ASCII: its lowercase form by the Unicode case mappings.
pub uninterp spec fn unicode_lowercase(text: Seq<char>) -> Seq<char>;

/// The text that a lossy UTF-8 conversion gives for `bytes`: valid UTF-8 is
/// decoded as it stands, anything else is repaired.
pub open spec fn lossy_text(bytes: Seq<u8>) -> Seq<char> {
    if valid_utf8(bytes) {
        decode_utf8(bytes)
    } else {
        utf8_lossy_repaired(bytes)
    }
}

/// The lowercase form of one ASCII character: `A` to `Z` move to `a` to `z`,
/// every other character stays.
pub open spec fn ascii_lower(c: char) -> char {
    if 0x41 <= c as u32 <= 0x5A {
        ((c as u32) + 0x20) as char
    } else {
        c
    }
}

/// The lowercase form of `text`: ASCII text is folded character by character,
/// other text by the Unicode case mappings.
pub open spec fn lowercase_text(text: Seq<char>) -> Seq<char> {
    if is_ascii_chars(text) {
        Seq::new(text.len(), |i: int| ascii_lower(text[i]))
    } else {
        unicode_lowercase(text)
    }
}

/// Every byte is below 0x80.
pub open spec fn is_ascii_bytes(bytes: Seq<u8>) -> bool {
    forall|i: int| 0 <= i < bytes.len() ==> bytes[i] < 0x80
}

/// The characters whose code points are the given bytes.
pub open spec fn ascii_text(bytes: Seq<u8>) -> Seq<char> {
    Seq::new(bytes.len(), |i: int| bytes[i] as char)
}

/// Calls `String::from_utf8_lossy` and takes ownership of what it returns.
/// The contract claims two things of it: bytes that are valid UTF-8 come back
/// as the text they encode, and the result depends on the bytes alone.
#[verifier::external_body]
pub(crate) fn utf8_lossy(bytes: &[u8]) -> (s: String)
    ensures
        s@ == (if valid_utf8(bytes@) {
            decode_utf8(bytes@)
        } else {
            utf8_lossy_repaired(bytes@)
        }),
{
    String::from_utf8_lossy(bytes).into_owned()
}

/// Calls `str::to_lowercase`. The contract claims two things of it: text made
/// of ASCII characters alone has `A` to `Z` replaced by `a` to `z` and nothing
/// else changed, and the result depends on the text alone.
#[verifier::external_body]
pub(crate) fn to_lowercase(text: &str) -> (s: String)
    ensures
        s@ == (if is_ascii_chars(text@) {
            Seq::new(text@.len(), |i: int| ascii_lower(text@[i]))
        } else {
            unicode_lowercase(text@)
        }),
{
    text.to_lowercase()
}

/// Whether `name` ends in `suffix`.
pub open spec fn is_suffix(suffix: Seq<char>, name: Seq<char>) -> bool {
    suffix.len() <= name.len() && name.subrange(name.len() - suffix.len(), name.len() as int)
        == suffix
}

/// Calls `str::ends_with` with a string slice as the pattern. The contract
/// claims that it tells whether the text of `suffix` ends the text of `name`.
#[verifier::external_body]
pub(crate) fn ends_with(name: &str, suffix: &str) -> (b: bool)
    ensures
        b == is_suffix(suffix@, name@),
{
    name.ends_with(suffix)
}

/// ASCII bytes are valid UTF-8 and decode to the characters with the same
/// code points.
pub proof fn lemma_lossy_text_of_ascii(bytes: Seq<u8>)
    requires
        is_ascii_bytes(bytes),
    ensures
        lossy_text(bytes) == ascii_text(bytes),
        is_ascii_chars(ascii_text(bytes)),
        encode_utf8(ascii_text(bytes)) == bytes,
{
    let chars = ascii_text(bytes);
    assert(is_ascii_chars(chars));
    vstd::utf8::is_ascii_chars_encode_utf8(chars);
    assert(encode_utf8(chars) =~= bytes);
    vstd::utf8::encode_utf8_valid_utf8(chars);
    vstd::utf8::encode_utf8_decode_utf8(chars);
}

} // verus!
