//! Building, comparing and trimming strings.

use vstd::prelude::*;
use vstd::string::StringExecFns;
use vstd::string::StringSliceAdditionalSpecFns;
use vstd::utf8::*;
use crate::chars::{byte_offset, char_indices, lemma_byte_at_char, lemma_byte_offset_bound};
use crate::position::is_white_space;
use crate::text::{lemma_encode_utf8_append, substr};

verus! {

broadcast use vstd::utf8::group_utf8_lib;

/// Calls `String::push`, which appends the character to the end of the string.
#[verifier::external_body]
pub(crate) fn push_char(s: &mut String, c: char)
    ensures
        final(s)@ == old(s)@.push(c),
{
    s.push(c);
}

/// Appends a string slice.
pub fn push_str(s: &mut String, piece: &str)
    ensures
        final(s)@ == old(s)@ + piece@,
{
    s.append(piece);
}

/// A new string holding the characters of `s`.
pub fn to_owned(s: &str) -> (r: String)
    ensures
        r@ == s@,
{
    String::from_str(s)
}

/// `$` followed by the name.
pub fn dollar_name(name: &str) -> (r: String)
    ensures
        r@ == seq!['$'] + name@,
{
    let mut out = String::new();
    push_char(&mut out, '$');
    push_str(&mut out, name);
    assert(out@ =~= seq!['$'] + name@);
    out
}

/// Whether `c` is a letter or digit, as `char::is_alphanumeric` decides.
pub uninterp spec fn alphanumeric(c: char) -> bool;

/// Calls `char::is_alphanumeric`. Its result depends on the character alone;
/// the contract names it and states nothing more of it.
#[verifier::external_body]
pub(crate) fn is_alphanumeric(c: char) -> (r: bool)
    ensures
        r == alphanumeric(c),
{
    c.is_alphanumeric()
}

/// `b` begins with the bytes of `prefix`.
pub open spec fn has_prefix(b: Seq<u8>, prefix: Seq<u8>) -> bool {
    prefix.len() <= b.len() && b.subrange(0, prefix.len() as int) == prefix
}

/// Whether `s` starts with `prefix`, compared byte by byte.
pub fn starts_with(s: &str, prefix: &str) -> (r: bool)
    ensures
        r == has_prefix(s.spec_bytes(), prefix.spec_bytes()),
{
    let b = s.as_bytes();
    let p = prefix.as_bytes();
    if p.len() > b.len() {
        return false;
    }
    let mut i: usize = 0;
    while i < p.len()
        invariant
            b@ == s.spec_bytes(),
            p@ == prefix.spec_bytes(),
            p@.len() <= b@.len(),
            i <= p@.len(),
            forall|j: int| 0 <= j < i ==> b@[j] == p@[j],
        decreases p@.len() - i,
    {
        if b[i] != p[i] {
            assert(b@.subrange(0, p@.len() as int)[i as int] != p@[i as int]);
            return false;
        }
        i = i + 1;
    }
    assert(b@.subrange(0, p@.len() as int) =~= p@);
    true
}

/// Decides the Unicode `White_Space` property.
pub fn white_space(c: char) -> (r: bool)
    ensures
        r == is_white_space(c),
{
    ('\u{9}' <= c && c <= '\u{d}') || c == ' ' || c == '\u{85}' || c == '\u{a0}' || c == '\u{1680}'
        || ('\u{2000}' <= c && c <= '\u{200a}') || c == '\u{2028}' || c == '\u{2029}' || c
        == '\u{202f}' || c == '\u{205f}' || c == '\u{3000}'
}

/// Index of the first character at or after `i` that is not white space.
pub open spec fn ws_forward(cs: Seq<char>, i: int) -> int
    decreases cs.len() - i,
{
    if 0 <= i < cs.len() && is_white_space(cs[i]) {
        ws_forward(cs, i + 1)
    } else {
        i
    }
}

/// Walking back from `i`, the index right after the last character that is
/// not white space.
pub open spec fn ws_backward(cs: Seq<char>, i: int) -> int
    decreases i,
{
    if 0 < i <= cs.len() && is_white_space(cs[i - 1]) {
        ws_backward(cs, i - 1)
    } else {
        i
    }
}

/// The character range that `str::trim` keeps: leading and trailing white
/// space removed.
pub open spec fn trim_range(cs: Seq<char>) -> (int, int) {
    let a = ws_forward(cs, 0);
    let e = ws_backward(cs, cs.len() as int);
    if e < a {
        (a, a)
    } else {
        (a, e)
    }
}

pub proof fn lemma_ws_bounds(cs: Seq<char>, i: int)
    requires
        0 <= i <= cs.len(),
    ensures
        i <= ws_forward(cs, i) <= cs.len(),
        0 <= ws_backward(cs, i) <= i,
    decreases cs.len() - i,
{
    if i < cs.len() && is_white_space(cs[i]) {
        lemma_ws_bounds(cs, i + 1);
    }
    lemma_ws_backward_bounds(cs, i);
}

proof fn lemma_ws_backward_bounds(cs: Seq<char>, i: int)
    requires
        0 <= i <= cs.len(),
    ensures
        0 <= ws_backward(cs, i) <= i,
    decreases i,
{
    if 0 < i && is_white_space(cs[i - 1]) {
        lemma_ws_backward_bounds(cs, i - 1);
    }
}

/// A character index's byte offset is a character boundary within the text.
pub proof fn lemma_offset_boundary(cs: Seq<char>, k: int)
    requires
        0 <= k <= cs.len(),
    ensures
        0 <= byte_offset(cs, k) <= encode_utf8(cs).len(),
        is_char_boundary(encode_utf8(cs), byte_offset(cs, k)),
{
    lemma_byte_offset_bound(cs, k);
    if k < cs.len() {
        lemma_byte_at_char(cs, k);
    } else {
        assert(cs.take(k) =~= cs);
        is_char_boundary_start_end_of_seq(encode_utf8(cs));
    }
}

/// Byte offsets of the range `str::trim` keeps.
pub fn trim_bounds(s: &str) -> (r: (usize, usize))
    ensures
        r.0 == byte_offset(s@, trim_range(s@).0),
        r.1 == byte_offset(s@, trim_range(s@).1),
        r.0 <= r.1 <= s.spec_bytes().len(),
        is_char_boundary(s.spec_bytes(), r.0 as int),
        is_char_boundary(s.spec_bytes(), r.1 as int),
{
    let idx = char_indices(s);
    let ghost cs = s@;
    let n = s.as_bytes().len();
    let mut a: usize = 0;
    while a < idx.len() && white_space(idx[a].1)
        invariant
            idx@.len() == cs.len(),
            forall|k: int| 0 <= k < idx@.len() ==> (#[trigger] idx@[k]).1 == cs[k] && idx@[k].0 == byte_offset(cs, k),
            a <= cs.len(),
            ws_forward(cs, 0) == ws_forward(cs, a as int),
        decreases cs.len() - a,
    {
        a = a + 1;
    }
    let mut e: usize = idx.len();
    while e > 0 && white_space(idx[e - 1].1)
        invariant
            idx@.len() == cs.len(),
            forall|k: int| 0 <= k < idx@.len() ==> (#[trigger] idx@[k]).1 == cs[k] && idx@[k].0 == byte_offset(cs, k),
            e <= cs.len(),
            ws_backward(cs, cs.len() as int) == ws_backward(cs, e as int),
        decreases e,
    {
        e = e - 1;
    }
    if e < a {
        e = a;
    }
    proof {
        lemma_offset_boundary(cs, a as int);
        lemma_offset_boundary(cs, e as int);
        lemma_offset_monotone(cs, a as int, e as int);
        assert(cs.take(cs.len() as int) =~= cs);
    }
    let start = if a < idx.len() { idx[a].0 } else { n };
    let end = if e < idx.len() { idx[e].0 } else { n };
    (start, end)
}

/// Byte offsets grow with character indices.
pub proof fn lemma_offset_monotone(cs: Seq<char>, i: int, j: int)
    requires
        0 <= i <= j <= cs.len(),
    ensures
        byte_offset(cs, i) <= byte_offset(cs, j),
{
    let t = cs.take(j);
    assert(t.take(i) =~= cs.take(i));
    lemma_byte_offset_bound(t, i);
}

/// The characters of a number in decimal.
pub open spec fn decimal_text(n: nat) -> Seq<char>
    decreases n,
{
    if n < 10 {
        seq![digit_char(n)]
    } else {
        decimal_text(n / 10).push(digit_char(n % 10))
    }
}

pub open spec fn digit_char(d: nat) -> char {
    if d == 0 { '0' }
    else if d == 1 { '1' }
    else if d == 2 { '2' }
    else if d == 3 { '3' }
    else if d == 4 { '4' }
    else if d == 5 { '5' }
    else if d == 6 { '6' }
    else if d == 7 { '7' }
    else if d == 8 { '8' }
    else { '9' }
}

fn digit(d: usize) -> (r: char)
    requires
        d < 10,
    ensures
        r == digit_char(d as nat),
{
    if d == 0 { '0' }
    else if d == 1 { '1' }
    else if d == 2 { '2' }
    else if d == 3 { '3' }
    else if d == 4 { '4' }
    else if d == 5 { '5' }
    else if d == 6 { '6' }
    else if d == 7 { '7' }
    else if d == 8 { '8' }
    else { '9' }
}

/// The decimal representation of a number, as `Display` writes it.
pub fn decimal(n: usize) -> (r: String)
    ensures
        r@ == decimal_text(n as nat),
    decreases n,
{
    if n < 10 {
        let mut s = String::new();
        push_char(&mut s, digit(n));
        assert(s@ =~= seq![digit_char(n as nat)]);
        s
    } else {
        let mut s = decimal(n / 10);
        push_char(&mut s, digit(n % 10));
        s
    }
}

/// Index of the first character at or after `i` that is not `$`.
pub open spec fn dollar_run(cs: Seq<char>, i: int) -> int
    decreases cs.len() - i,
{
    if 0 <= i < cs.len() && cs[i] == '$' {
        dollar_run(cs, i + 1)
    } else {
        i
    }
}

/// What `trim_start_matches('$')` keeps: the text after its leading `$` signs.
pub open spec fn strip_dollars(cs: Seq<char>) -> Seq<char> {
    cs.subrange(dollar_run(cs, 0), cs.len() as int)
}

pub proof fn lemma_dollar_run_bounds(cs: Seq<char>, i: int)
    requires
        0 <= i <= cs.len(),
    ensures
        i <= dollar_run(cs, i) <= cs.len(),
    decreases cs.len() - i,
{
    if i < cs.len() && cs[i] == '$' {
        lemma_dollar_run_bounds(cs, i + 1);
    }
}

/// The string without its leading `$` signs.
pub fn trim_dollars(s: &str) -> (r: String)
    ensures
        r@ == strip_dollars(s@),
{
    let idx = char_indices(s);
    let ghost cs = s@;
    let mut a: usize = 0;
    while a < idx.len() && idx[a].1 == '$'
        invariant
            idx@.len() == cs.len(),
            forall|k: int| 0 <= k < idx@.len() ==> (#[trigger] idx@[k]).1 == cs[k],
            a <= cs.len(),
            dollar_run(cs, 0) == dollar_run(cs, a as int),
        decreases cs.len() - a,
    {
        a = a + 1;
    }
    let mut out = String::new();
    let mut k = a;
    while k < idx.len()
        invariant
            idx@.len() == cs.len(),
            forall|j: int| 0 <= j < idx@.len() ==> (#[trigger] idx@[j]).1 == cs[j],
            a <= k <= cs.len(),
            out@ =~= cs.subrange(a as int, k as int),
        decreases cs.len() - k,
    {
        push_char(&mut out, idx[k].1);
        k = k + 1;
    }
    out
}

/// Concatenation of strings, in order.
pub open spec fn concat_all(parts: Seq<Seq<char>>) -> Seq<char>
    decreases parts.len(),
{
    if parts.len() == 0 {
        Seq::empty()
    } else {
        concat_all(parts.drop_last()) + parts.last()
    }
}

/// Every non-overlapping occurrence of `from`, found left to right, replaced by `to`.
pub open spec fn replace_all(s: Seq<char>, from: Seq<char>, to: Seq<char>) -> Seq<char>
    decreases s.len(),
{
    if from.len() == 0 || s.len() < from.len() {
        s
    } else if s.take(from.len() as int) == from {
        to + replace_all(s.skip(from.len() as int), from, to)
    } else {
        seq![s[0]] + replace_all(s.skip(1), from, to)
    }
}

/// The text ends with `t`.
pub open spec fn has_suffix(s: Seq<char>, t: Seq<char>) -> bool {
    t.len() <= s.len() && s.skip(s.len() - t.len()) == t
}

/// Whether the characters of `cs` from `i` on begin with those of `p`.
pub fn matches_at(cs: &Vec<char>, i: usize, p: &Vec<char>) -> (r: bool)
    requires
        i <= cs@.len(),
    ensures
        r == (p@.len() <= cs@.len() - i && cs@.subrange(i as int, i + p@.len()) == p@),
{
    if p.len() > cs.len() - i {
        return false;
    }
    let mut j: usize = 0;
    while j < p.len()
        invariant
            i + p@.len() <= cs.len(),
            j <= p@.len(),
            forall|q: int| 0 <= q < j ==> cs@[i + q] == p@[q],
        decreases p@.len() - j,
    {
        if cs[i + j] != p[j] {
            assert(cs@.subrange(i as int, i + p@.len())[j as int] != p@[j as int]);
            return false;
        }
        j = j + 1;
    }
    assert(cs@.subrange(i as int, i + p@.len()) =~= p@);
    true
}

/// Replaces each occurrence of `from`, left to right, by `to`.
pub fn replace_str(s: &str, from: &str, to: &str) -> (r: String)
    requires
        from@.len() > 0,
    ensures
        r@ == replace_all(s@, from@, to@),
{
    let cs = crate::trie::chars_of(s);
    let fc = crate::trie::chars_of(from);
    let mut out = String::new();
    let mut i: usize = 0;
    proof {
        assert(cs@.skip(0) =~= cs@);
        assert(out@ + replace_all(cs@, fc@, to@) =~= replace_all(cs@, fc@, to@));
    }
    while i < cs.len()
        invariant
            cs@ == s@,
            fc@ == from@,
            fc@.len() > 0,
            i <= cs@.len(),
            out@ + replace_all(cs@.skip(i as int), fc@, to@) == replace_all(cs@, fc@, to@),
        decreases cs@.len() - i,
    {
        let ghost rest = cs@.skip(i as int);
        if matches_at(&cs, i, &fc) {
            proof {
                assert(rest.take(fc@.len() as int) =~= cs@.subrange(i as int, i + fc@.len()));
                assert(rest.skip(fc@.len() as int) =~= cs@.skip(i + fc@.len()));
                assert(out@ + to@ + replace_all(cs@.skip(i + fc@.len()), fc@, to@) =~= out@ + replace_all(rest, fc@, to@));
            }
            push_str(&mut out, to);
            i = i + fc.len();
        } else {
            proof {
                if rest.len() >= fc@.len() {
                    assert(rest.take(fc@.len() as int) =~= cs@.subrange(i as int, i + fc@.len()));
                }
                assert(rest.skip(1) =~= cs@.skip(i + 1));
                assert(rest[0] == cs@[i as int]);
                if rest.len() < fc@.len() {
                    assert(replace_all(rest, fc@, to@) == rest);
                    assert(rest.skip(1).len() < fc@.len());
                    assert(replace_all(rest.skip(1), fc@, to@) == rest.skip(1));
                    assert(rest =~= seq![rest[0]] + rest.skip(1));
                }
                assert(out@.push(cs@[i as int]) + replace_all(cs@.skip(i + 1), fc@, to@) =~= out@ + replace_all(rest, fc@, to@));
            }
            push_char(&mut out, cs[i]);
            i = i + 1;
        }
    }
    proof {
        assert(cs@.skip(i as int) =~= Seq::<char>::empty());
        assert(out@ + Seq::<char>::empty() =~= out@);
    }
    out
}

/// Whether the text ends with `t`.
pub fn ends_with(s: &str, t: &str) -> (r: bool)
    ensures
        r == has_suffix(s@, t@),
{
    let cs = crate::trie::chars_of(s);
    let tc = crate::trie::chars_of(t);
    if tc.len() > cs.len() {
        return false;
    }
    let start = cs.len() - tc.len();
    let r = matches_at(&cs, start, &tc);
    proof {
        assert(cs@.subrange(start as int, start + tc@.len()) =~= cs@.skip(start as int));
    }
    r
}

/// What `str::trim` keeps.
pub open spec fn trim_text(cs: Seq<char>) -> Seq<char> {
    cs.subrange(trim_range(cs).0, trim_range(cs).1)
}

/// The text with leading and trailing white space removed.
pub fn trim_str(s: &str) -> (r: &str)
    ensures
        r@ == trim_text(s@),
{
    let (a, e) = trim_bounds(s);
    let r = substr(s, a, e);
    proof {
        let cs = s@;
        lemma_ws_bounds(cs, 0);
        lemma_ws_bounds(cs, cs.len() as int);
        let (x, y) = trim_range(cs);
        lemma_slice_chars(cs, x, y);
    }
    r
}

/// The bytes between the offsets of two characters encode the characters between them.
pub proof fn lemma_slice_chars(cs: Seq<char>, s: int, e: int)
    requires
        0 <= s <= e <= cs.len(),
    ensures
        encode_utf8(cs).subrange(byte_offset(cs, s), byte_offset(cs, e)) == encode_utf8(cs.subrange(s, e)),
        decode_utf8(encode_utf8(cs).subrange(byte_offset(cs, s), byte_offset(cs, e))) == cs.subrange(s, e),
{
    let t = cs.take(e);
    assert(t =~= cs.take(s) + cs.subrange(s, e));
    lemma_encode_utf8_append(cs.take(s), cs.subrange(s, e));
    lemma_byte_offset_bound(cs, e);
    assert(encode_utf8(cs).subrange(byte_offset(cs, s), byte_offset(cs, e)) =~= encode_utf8(t).subrange(
        byte_offset(cs, s),
        byte_offset(cs, e),
    ));
    assert(encode_utf8(t).subrange(byte_offset(cs, s), byte_offset(cs, e)) =~= encode_utf8(cs.subrange(s, e)));
}

/// The pieces of `cs` between the separators, as `str::split` yields them.
pub open spec fn split_pieces(cs: Seq<char>, sep: char) -> Seq<Seq<char>>
    decreases cs.len(),
{
    if cs.len() == 0 {
        seq![Seq::empty()]
    } else {
        let rest = split_pieces(cs.drop_last(), sep);
        if cs.last() == sep {
            rest.push(Seq::empty())
        } else {
            rest.update(rest.len() - 1, rest.last().push(cs.last()))
        }
    }
}

pub proof fn lemma_split_pieces_len(cs: Seq<char>, sep: char)
    ensures
        split_pieces(cs, sep).len() >= 1,
    decreases cs.len(),
{
    if cs.len() > 0 {
        lemma_split_pieces_len(cs.drop_last(), sep);
    }
}

/// Splits the text at each separator.
pub fn split_char(s: &str, sep: char) -> (r: Vec<String>)
    ensures
        r@.map_values(|x: String| x@) == split_pieces(s@, sep),
{
    let cs = crate::trie::chars_of(s);
    let mut out: Vec<String> = Vec::new();
    let mut piece = String::new();
    let mut i: usize = 0;
    while i < cs.len()
        invariant
            cs@ == s@,
            i <= cs@.len(),
            out@.map_values(|x: String| x@).push(piece@) == split_pieces(cs@.take(i as int), sep),
        decreases cs@.len() - i,
    {
        let ghost prev = out@.map_values(|x: String| x@);
        let ghost pv = piece@;
        proof {
            assert(cs@.take(i + 1).drop_last() =~= cs@.take(i as int));
            assert(cs@.take(i + 1).last() == cs@[i as int]);
        }
        if cs[i] == sep {
            let done = piece;
            out.push(done);
            piece = String::new();
            proof {
                assert(out@.map_values(|x: String| x@) =~= prev.push(pv));
                assert(out@.map_values(|x: String| x@).push(piece@) =~= prev.push(pv).push(Seq::empty()));
            }
        } else {
            push_char(&mut piece, cs[i]);
            proof {
                assert(out@.map_values(|x: String| x@).push(piece@) =~= prev.push(pv).update(
                    prev.len() as int,
                    pv.push(cs@[i as int]),
                ));
            }
        }
        i = i + 1;
    }
    out.push(piece);
    proof {
        assert(cs@.take(cs@.len() as int) =~= cs@);
    }
    out
}

/// The non-empty texts, in order.
pub open spec fn non_empty(xs: Seq<Seq<char>>) -> Seq<Seq<char>>
    decreases xs.len(),
{
    if xs.len() == 0 {
        Seq::empty()
    } else if xs.last().len() == 0 {
        non_empty(xs.drop_last())
    } else {
        non_empty(xs.drop_last()).push(xs.last())
    }
}

} // verus!
