//! Conversions between bytes, characters and text.
use vstd::prelude::*;
use vstd::string::*;
use vstd::utf8::*;

use crate::model::{fill_gap, overwrite, FILLER};

verus! {

broadcast use group_utf8_lib;

/// Relies on `core::str::from_utf8`: it accepts a byte slice exactly when the
/// bytes are valid UTF-8, and the text it returns has those bytes.
#[verifier::external_body]
pub(crate) fn text_of(bytes: &[u8]) -> (r: Option<&str>)
    ensures
        r is Some <==> valid_utf8(bytes@),
        r matches Some(s) ==> s.spec_bytes() == bytes@,
{
    core::str::from_utf8(bytes).ok()
}

/// Relies on `String::into_bytes`: the vector it returns holds the string's
/// UTF-8 bytes, taken over without a copy.
#[verifier::external_body]
pub(crate) fn bytes_of(s: String) -> (r: Vec<u8>)
    ensures
        r@ == encode_utf8(s@),
{
    s.into_bytes()
}

/// Relies on `String::from_utf8`: it accepts a byte vector exactly when the
/// bytes are valid UTF-8, and the string it returns takes over those bytes.
#[verifier::external_body]
pub(crate) fn string_of(bytes: Vec<u8>) -> (r: Option<String>)
    ensures
        r is Some <==> valid_utf8(bytes@),
        r matches Some(s) ==> encode_utf8(s@) == bytes@,
{
    String::from_utf8(bytes).ok()
}

/// Number of bytes in the UTF-8 encoding of `c`.
pub fn encoded_len(c: char) -> (r: usize)
    ensures
        r as int == encode_scalar(c as u32).len(),
        1 <= r <= 4,
{
    let v = c as u32;
    proof {
        char_is_scalar(c);
    }
    if v < 0x80 {
        1
    } else if v < 0x800 {
        2
    } else if v < 0x10000 {
        3
    } else {
        4
    }
}


/// Writes the UTF-8 encoding of `c` into `buf` from index `at` on.
pub(crate) fn encode_into(buf: &mut Vec<u8>, at: usize, c: char)
    requires
        at + encode_scalar(c as u32).len() <= old(buf).len(),
    ensures
        final(buf)@ == overwrite(old(buf)@, at as int, encode_scalar(c as u32)),
    no_unwind
{
    let v = c as u32;
    proof {
        char_is_scalar(c);
    }
    let ghost b0 = buf@;
    if v < 0x80 {
        buf[at] = (v & 0x7F) as u8;
    } else if v < 0x800 {
        buf[at] = 0xC0 | ((v >> 6) & 0x1F) as u8;
        buf[at + 1] = 0x80 | (v & 0x3F) as u8;
    } else if v < 0x10000 {
        buf[at] = 0xE0 | ((v >> 12) & 0x0F) as u8;
        buf[at + 1] = 0x80 | ((v >> 6) & 0x3F) as u8;
        buf[at + 2] = 0x80 | (v & 0x3F) as u8;
    } else {
        buf[at] = 0xF0 | ((v >> 18) & 0x7) as u8;
        buf[at + 1] = 0x80 | ((v >> 12) & 0x3F) as u8;
        buf[at + 2] = 0x80 | ((v >> 6) & 0x3F) as u8;
        buf[at + 3] = 0x80 | (v & 0x3F) as u8;
    }
    assert(buf@ =~= overwrite(b0, at as int, encode_scalar(c as u32)));
}


/// Writes filler bytes over `buf[lo..hi]`.
pub(crate) fn fill_with_filler(buf: &mut Vec<u8>, lo: usize, hi: usize)
    requires
        lo <= hi <= old(buf).len(),
    ensures
        final(buf)@ == fill_gap(old(buf)@, lo as int, hi as int),
    no_unwind
{
    let ghost b0 = buf@;
    let mut i: usize = lo;
    assert(fill_gap(b0, lo as int, lo as int) =~= b0);
    while i < hi
        invariant
            lo <= i <= hi <= b0.len(),
            buf@ == fill_gap(b0, lo as int, i as int),
        decreases hi - i,
    {
        buf[i] = FILLER;
        assert(buf@ =~= fill_gap(b0, lo as int, i + 1));
        i = i + 1;
    }
}

} // verus!
