//! Character positions within the UTF-8 encoding of a string.

use vstd::prelude::*;
use vstd::std_specs::iter::IteratorSpec;
use vstd::string::StringSliceAdditionalSpecFns;
use vstd::utf8::*;
use crate::text::lemma_encode_utf8_append;

verus! {

broadcast use vstd::utf8::group_utf8_lib;

/// Number of UTF-8 bytes of a character.
pub open spec fn utf8_width(c: char) -> int {
    encode_scalar(c as u32).len() as int
}

/// Number of UTF-16 code units of a character.
pub open spec fn utf16_width(c: char) -> int {
    if (c as u32) < 0x10000 {
        1
    } else {
        2
    }
}

/// Byte offset at which the `k`-th character of `cs` starts in its UTF-8 encoding.
pub open spec fn byte_offset(cs: Seq<char>, k: int) -> int {
    encode_utf8(cs.take(k)).len() as int
}

/// Number of bytes `char::len_utf8` reports.
pub fn len_utf8(c: char) -> (r: usize)
    ensures
        r == utf8_width(c),
        1 <= r <= 4,
{
    let v = c as u32;
    proof {
        char_is_scalar(c);
    }
    if v <= 0x7f {
        1
    } else if v <= 0x7ff {
        2
    } else if v <= 0xffff {
        3
    } else {
        4
    }
}

/// Number of code units `char::len_utf16` reports.
pub fn len_utf16(c: char) -> (r: u32)
    ensures
        r == utf16_width(c),
{
    if (c as u32) < 0x10000 {
        1
    } else {
        2
    }
}

pub proof fn lemma_byte_offset_step(cs: Seq<char>, k: int)
    requires
        0 <= k < cs.len(),
    ensures
        byte_offset(cs, k + 1) == byte_offset(cs, k) + utf8_width(cs[k]),
        encode_utf8(cs.take(k + 1)) == encode_utf8(cs.take(k)) + encode_scalar(cs[k] as u32),
{
    assert(cs.take(k + 1) =~= cs.take(k) + seq![cs[k]]);
    lemma_encode_utf8_append(cs.take(k), seq![cs[k]]);
    let one = seq![cs[k]];
    assert(one.drop_first() =~= Seq::<char>::empty());
    assert(encode_utf8(one.drop_first()) =~= Seq::<u8>::empty());
    assert(encode_utf8(one) =~= encode_scalar(cs[k] as u32));
}

pub proof fn lemma_byte_offset_bound(cs: Seq<char>, k: int)
    requires
        0 <= k <= cs.len(),
    ensures
        0 <= byte_offset(cs, k) <= encode_utf8(cs).len(),
        encode_utf8(cs) == encode_utf8(cs.take(k)) + encode_utf8(cs.skip(k)),
{
    assert(cs =~= cs.take(k) + cs.skip(k));
    lemma_encode_utf8_append(cs.take(k), cs.skip(k));
}

/// The characters of `s` with the byte offset at which each starts, as
/// `str::char_indices` yields them.
pub fn char_indices(s: &str) -> (r: Vec<(usize, char)>)
    ensures
        r@.len() == s@.len(),
        forall|k: int|
            0 <= k < r@.len() ==> (#[trigger] r@[k]).1 == s@[k] && r@[k].0 == byte_offset(s@, k),
{
    broadcast use vstd::string::group_string_axioms;

    let total = s.as_bytes().len();
    let ghost cs = s@;
    let mut it = s.chars();
    let mut out: Vec<(usize, char)> = Vec::new();
    let mut off: usize = 0;
    loop
        invariant
            out@.len() <= cs.len(),
            it.remaining() == cs.skip(out@.len() as int),
            off == byte_offset(cs, out@.len() as int),
            total == encode_utf8(cs).len(),
            forall|k: int|
                0 <= k < out@.len() ==> (#[trigger] out@[k]).1 == cs[k] && out@[k].0
                    == byte_offset(cs, k),
        ensures
            out@.len() == cs.len(),
            forall|k: int|
                0 <= k < out@.len() ==> (#[trigger] out@[k]).1 == cs[k] && out@[k].0
                    == byte_offset(cs, k),
        decreases cs.len() - out@.len(),
    {
        match it.next() {
            Some(c) => {
                let ghost n = out@.len() as int;
                assert(c == cs[n]);
                proof {
                    lemma_byte_offset_step(cs, n);
                    lemma_byte_offset_bound(cs, n + 1);
                }
                out.push((off, c));
                off = off + len_utf8(c);
            },
            None => {
                break;
            },
        }
    }
    out
}

/// The first byte of each character's encoding: the character itself when it
/// is ASCII, a leading byte of a longer encoding otherwise.
pub proof fn lemma_byte_at_char(cs: Seq<char>, k: int)
    requires
        0 <= k < cs.len(),
    ensures
        byte_offset(cs, k) < encode_utf8(cs).len(),
        ((cs[k] as u32) < 0x80) ==> encode_utf8(cs)[byte_offset(cs, k)] == cs[k] as u32 as u8,
        ((cs[k] as u32) >= 0x80) ==> encode_utf8(cs)[byte_offset(cs, k)] >= 0xc0,
        is_char_boundary(encode_utf8(cs), byte_offset(cs, k)),
{
    lemma_byte_offset_bound(cs, k);
    lemma_byte_offset_step(cs, k);
    lemma_byte_offset_bound(cs, k + 1);
    let pre = encode_utf8(cs.take(k));
    let rest = encode_utf8(cs.skip(k));
    assert(cs.skip(k)[0] == cs[k]);
    assert(rest == encode_scalar(cs[k] as u32) + encode_utf8(cs.skip(k).drop_first()));
    assert(encode_utf8(cs)[byte_offset(cs, k)] == encode_scalar(cs[k] as u32)[0]);
    let v = cs[k] as u32;
    char_is_scalar(cs[k]);
    if v < 0x80 {
        assert(leading_byte_width_1(v) == v as u8) by (bit_vector)
            requires
                v < 0x80,
        ;
    } else if v <= 0x7ff {
        assert(leading_byte_width_2(v) >= 0xc0) by (bit_vector)
            requires
                0x80 <= v <= 0x7ff,
        ;
    } else if v <= 0xffff {
        assert(leading_byte_width_3(v) >= 0xc0) by (bit_vector)
            requires
                0x800 <= v <= 0xffff,
        ;
    } else {
        assert(leading_byte_width_4(v) >= 0xc0) by (bit_vector)
            requires
                0x10000 <= v <= 0x10ffff,
        ;
    }
    let b = encode_utf8(cs);
    is_char_boundary_iff_not_is_continuation_byte(b, byte_offset(cs, k));
}

} // verus!
