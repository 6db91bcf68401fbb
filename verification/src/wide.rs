//! Conversions between Rust strings and the null-terminated buffers the
//! system's interfaces exchange: UTF-16 for paths and names, and the single
//! byte strings embedded in device descriptors.
use vstd::prelude::*;
use vstd::string::{StrSliceExecFns, StringExecFns};

use crate::text::{trim, trimmed};

verus! {

/// The UTF-16 code units of one character: the character itself below
/// U+10000, and above it a high surrogate carrying the top ten bits of the
/// offset from U+10000 followed by a low surrogate carrying the bottom ten.
pub open spec fn char_utf16(c: char) -> Seq<u16> {
    let v = c as int;
    if v < 0x10000 {
        seq![v as u16]
    } else {
        seq![(0xD800 + (v - 0x10000) / 0x400) as u16, (0xDC00 + (v - 0x10000) % 0x400) as u16]
    }
}

/// The UTF-16 code units of a text, character after character.
pub open spec fn utf16_units(s: Seq<char>) -> Seq<u16>
    decreases s.len(),
{
    if s.len() == 0 {
        Seq::empty()
    } else {
        utf16_units(s.drop_last()) + char_utf16(s.last())
    }
}

/// The text UTF-16 code units decode to: a high surrogate followed by a low
/// one is the character they encode together; any other surrogate is U+FFFD;
/// any other unit is the character of that value.
pub open spec fn utf16_lossy(u: Seq<u16>) -> Seq<char>
    decreases u.len(),
{
    if u.len() == 0 {
        Seq::empty()
    } else if 0xD800 <= u[0] < 0xDC00 && u.len() >= 2 && 0xDC00 <= u[1] < 0xE000 {
        seq![(0x10000 + (u[0] - 0xD800) * 0x400 + (u[1] - 0xDC00)) as char] + utf16_lossy(u.subrange(2, u.len() as int))
    } else if 0xD800 <= u[0] < 0xE000 {
        seq!['\u{FFFD}'] + utf16_lossy(u.subrange(1, u.len() as int))
    } else {
        seq![u[0] as char] + utf16_lossy(u.subrange(1, u.len() as int))
    }
}

/// The text UTF-8 bytes decode to, each invalid sequence replaced by U+FFFD.
pub uninterp spec fn utf8_lossy(bytes: Seq<u8>) -> Seq<char>;

/// `str::encode_utf16`, collected: the code units of `s`, as its
/// documentation describes UTF-16.
#[verifier::external_body]
fn encode_utf16(s: &str) -> (r: Vec<u16>)
    ensures
        r@ == utf16_units(s@),
{
    s.encode_utf16().collect()
}

/// `String::from_utf16_lossy`: the text `units` decode to, each unpaired
/// surrogate replaced by U+FFFD, as its documentation describes.
#[verifier::external_body]
fn decode_utf16_lossy(units: &[u16]) -> (r: String)
    ensures
        r@ == utf16_lossy(units@),
{
    String::from_utf16_lossy(units)
}

/// `String::from_utf8_lossy`: the text `bytes` decode to, a function of the
/// bytes alone.
#[verifier::external_body]
fn decode_utf8_lossy(bytes: &[u8]) -> (r: String)
    ensures
        r@ == utf8_lossy(bytes@),
{
    String::from_utf8_lossy(bytes).into_owned()
}

/// Index of the first zero from `i` on, or the length.
pub open spec fn first_zero<T>(s: Seq<T>, zero: T, i: int) -> int
    decreases s.len() - i,
{
    if 0 <= i < s.len() && s[i] != zero {
        first_zero(s, zero, i + 1)
    } else {
        i
    }
}

proof fn lemma_first_zero<T>(s: Seq<T>, zero: T, i: int)
    requires
        0 <= i <= s.len(),
    ensures
        i <= first_zero(s, zero, i) <= s.len(),
    decreases s.len() - i,
{
    if i < s.len() && s[i] != zero {
        lemma_first_zero(s, zero, i + 1);
    }
}

/// A string as a null-terminated UTF-16 buffer.
pub fn to_wide(s: &str) -> (r: Vec<u16>)
    ensures
        r@ == utf16_units(s@).push(0),
{
    let mut units = encode_utf16(s);
    units.push(0);
    units
}

/// Reads a null-terminated UTF-16 string from a buffer: everything before
/// the first zero, or the whole buffer when there is none.
pub fn from_wide(buf: &[u16]) -> (r: String)
    ensures
        r@ == utf16_lossy(buf@.subrange(0, first_zero(buf@, 0u16, 0))),
{
    let mut end: usize = 0;
    while end < buf.len() && buf[end] != 0
        invariant
            end <= buf@.len(),
            first_zero(buf@, 0u16, 0) == first_zero(buf@, 0u16, end as int),
        decreases buf@.len() - end,
    {
        end = end + 1;
    }
    let head = &buf[0..end];
    decode_utf16_lossy(head)
}

/// The text a device descriptor stores at `offset`: the bytes up to the next
/// zero, decoded and trimmed. `None` for an offset of zero, which means
/// absent, an offset past the buffer, or a text that is empty once trimmed.
pub fn ansi_at(buf: &[u8], offset: u32) -> (r: Option<String>)
    ensures
        (offset == 0 || offset >= buf@.len()) ==> r is None,
        !(offset == 0 || offset >= buf@.len()) ==> ({
            let rest = buf@.subrange(offset as int, buf@.len() as int);
            let text = trimmed(utf8_lossy(rest.subrange(0, first_zero(rest, 0u8, 0))));
            &&& text.len() == 0 ==> r is None
            &&& text.len() > 0 ==> r is Some && r->Some_0@ == text
        }),
{
    let at = offset as usize;
    if offset == 0 || at >= buf.len() {
        return None;
    }
    let rest = &buf[at..buf.len()];
    let mut end: usize = 0;
    while end < rest.len() && rest[end] != 0
        invariant
            end <= rest@.len(),
            first_zero(rest@, 0u8, 0) == first_zero(rest@, 0u8, end as int),
        decreases rest@.len() - end,
    {
        end = end + 1;
    }
    let text = decode_utf8_lossy(&rest[0..end]);
    let t = trim(text.as_str());
    if t.unicode_len() == 0 {
        None
    } else {
        Some(String::from_str(t))
    }
}

} // verus!
