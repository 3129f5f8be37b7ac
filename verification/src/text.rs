//! Byte-level scanning helpers for ForgeScript source text.
//!
//! All positions are byte offsets into the UTF-8 encoding of the text, as in
//! the editor protocol layer; the specifications are stated over
//! `spec_bytes()`, the UTF-8 bytes of a `str`.

use vstd::prelude::*;
use vstd::string::StringSliceAdditionalSpecFns;
use vstd::utf8::*;

verus! {

broadcast use vstd::utf8::group_utf8_lib;

pub open spec fn byte_dollar() -> u8 { 0x24u8 }
pub open spec fn byte_bang() -> u8 { 0x21u8 }
pub open spec fn byte_hash() -> u8 { 0x23u8 }
pub open spec fn byte_at() -> u8 { 0x40u8 }
pub open spec fn byte_open() -> u8 { 0x5bu8 }
pub open spec fn byte_close() -> u8 { 0x5du8 }
pub open spec fn byte_backslash() -> u8 { 0x5cu8 }
pub open spec fn byte_backtick() -> u8 { 0x60u8 }

/// An optional `usize` position that equals the given optional integer position.
pub open spec fn same_pos(r: Option<usize>, o: Option<int>) -> bool {
    match r {
        Some(i) => o == Some(i as int),
        None => o is None,
    }
}

/// ASCII letters, ASCII digits and underscore.
pub open spec fn is_ident_byte(c: u8) -> bool {
    (0x30u8 <= c <= 0x39u8) || (0x41u8 <= c <= 0x5au8) || (0x61u8 <= c <= 0x7au8) || c == 0x5fu8
}

pub fn ident_byte(c: u8) -> (r: bool)
    ensures
        r == is_ident_byte(c),
{
    (0x30u8 <= c && c <= 0x39u8) || (0x41u8 <= c && c <= 0x5au8) || (0x61u8 <= c && c <= 0x7au8)
        || c == 0x5fu8
}

/// The string that `str::to_lowercase` produces for the given characters.
pub uninterp spec fn lowercase(s: Seq<char>) -> Seq<char>;

/// ASCII letters `A` to `Z` lowered to `a` to `z`; other characters unchanged.
pub open spec fn ascii_lower(s: Seq<char>) -> Seq<char> {
    s.map_values(|c: char| if 'A' <= c <= 'Z' { ((c as u32) + 32) as char } else { c })
}

/// Calls `str::to_lowercase`. Its result is a function of the argument alone,
/// named `lowercase`; of it the contract states only what std documents for
/// ASCII text: `A` to `Z` become `a` to `z` and nothing else changes.
#[verifier::external_body]
pub(crate) fn to_lowercase(s: &str) -> (r: String)
    ensures
        r@ == lowercase(s@),
        vstd::utf8::is_ascii_chars(s@) ==> r@ == ascii_lower(s@),
{
    s.to_lowercase()
}

/// Encoding a concatenation is concatenating the encodings.
pub proof fn lemma_encode_utf8_append(a: Seq<char>, b: Seq<char>)
    ensures
        encode_utf8(a + b) == encode_utf8(a) + encode_utf8(b),
    decreases a.len(),
{
    if a.len() == 0 {
        assert(a + b =~= b);
        assert(encode_utf8(a) + encode_utf8(b) =~= encode_utf8(b));
    } else {
        assert((a + b).drop_first() =~= a.drop_first() + b);
        lemma_encode_utf8_append(a.drop_first(), b);
        assert(encode_utf8(a + b) =~= encode_utf8(a) + encode_utf8(b));
    }
}

/// Equal UTF-8 encodings mean equal character sequences.
pub proof fn lemma_encode_utf8_injective(a: Seq<char>, b: Seq<char>)
    requires
        encode_utf8(a) == encode_utf8(b),
    ensures
        a == b,
{
    encode_utf8_decode_utf8(a);
    encode_utf8_decode_utf8(b);
}

/// Character equality of two string slices, decided on their bytes.
pub fn str_eq(a: &str, b: &str) -> (r: bool)
    ensures
        r == (a@ == b@),
{
    let x = a.as_bytes();
    let y = b.as_bytes();
    if x.len() != y.len() {
        return false;
    }
    let mut i: usize = 0;
    while i < x.len()
        invariant
            x@ == a.spec_bytes(),
            y@ == b.spec_bytes(),
            x@.len() == y@.len(),
            0 <= i <= x@.len(),
            forall|j: int| 0 <= j < i ==> x@[j] == y@[j],
        decreases x@.len() - i,
    {
        if x[i] != y[i] {
            return false;
        }
        i = i + 1;
    }
    proof {
        assert(x@ =~= y@);
        lemma_encode_utf8_injective(a@, b@);
    }
    true
}

/// The slice of `s` between two character boundaries.
pub fn substr(s: &str, start: usize, end: usize) -> (r: &str)
    requires
        start <= end <= s.spec_bytes().len(),
        is_char_boundary(s.spec_bytes(), start as int),
        is_char_boundary(s.spec_bytes(), end as int),
    ensures
        r.spec_bytes() == s.spec_bytes().subrange(start as int, end as int),
        r@ == decode_utf8(s.spec_bytes().subrange(start as int, end as int)),
{
    let ghost b = s.spec_bytes();
    let (_, tail) = s.split_at(start);
    let ghost t = tail.spec_bytes();
    assert(t =~= b.subrange(start as int, b.len() as int));
    proof {
        valid_utf8_split(b, start as int);
        if end < b.len() {
            assert(t[end - start] == b[end as int]);
            is_char_boundary_iff_not_is_continuation_byte(b, end as int);
            is_char_boundary_iff_not_is_continuation_byte(t, end - start);
        } else {
            assert(end - start == t.len());
            is_char_boundary_start_end_of_seq(t);
        }
    }
    let (mid, _) = tail.split_at(end - start);
    assert(mid.spec_bytes() =~= b.subrange(start as int, end as int));
    proof {
        encode_utf8_decode_utf8(mid@);
    }
    mid
}

/// A byte below 0x80 in valid UTF-8 starts a character, and so does the byte after it.
pub proof fn lemma_ascii_byte_boundaries(b: Seq<u8>, i: int)
    requires
        valid_utf8(b),
        0 <= i < b.len(),
        b[i] < 0x80,
    ensures
        is_char_boundary(b, i),
        is_char_boundary(b, i + 1),
{
    is_char_boundary_iff_not_is_continuation_byte(b, i);
    if i + 1 < b.len() {
        is_char_boundary_iff_not_is_continuation_byte(b, i + 1);
        if is_continuation_byte(b[i + 1]) {
            // a continuation byte is preceded by a leading byte of width > 1 or a continuation byte
            lemma_continuation_preceded(b, i + 1);
        }
    } else {
        is_char_boundary_start_end_of_seq(b);
    }
}

/// In valid UTF-8 a continuation byte never follows an ASCII byte.
pub proof fn lemma_continuation_preceded(b: Seq<u8>, i: int)
    requires
        valid_utf8(b),
        0 < i < b.len(),
        is_continuation_byte(b[i]),
    ensures
        b[i - 1] >= 0x80,
    decreases b.len(),
{
    let k = length_of_first_scalar(b);
    if i < k {
    } else if i == k {
        assert(b[k - 1] >= 0x80 || k == 1);
        if k == 1 {
            // the next scalar begins at k, so b[k] is a leading byte
            let rest = pop_first_scalar(b);
            assert(rest.len() == b.len() - 1);
            assert(rest[0] == b[i]);
            assert(valid_utf8(rest));
            assert(valid_first_scalar(rest));
        }
    } else {
        let rest = pop_first_scalar(b);
        assert(rest.len() == b.len() - k);
        assert(rest[i - k] == b[i]);
        assert(rest[i - k - 1] == b[i - 1]);
        lemma_continuation_preceded(rest, i - k);
    }
}

// ---------------------------------------------------------------------------
// Escapes
// ---------------------------------------------------------------------------

/// Number of consecutive backslash bytes that end right before index `i`.
pub open spec fn backslashes_before(b: Seq<u8>, i: int) -> nat
    decreases i,
{
    if i <= 0 || i > b.len() {
        0
    } else if b[i - 1] == byte_backslash() {
        1 + backslashes_before(b, i - 1)
    } else {
        0
    }
}

/// A character is escaped when it starts at `i > 0` and is preceded by exactly one
/// backslash (for a backtick) or by exactly two backslashes (for anything else).
pub open spec fn spec_is_escaped(b: Seq<u8>, i: int) -> bool {
    &&& 0 < i < b.len()
    &&& is_char_boundary(b, i)
    &&& if b[i] == byte_backtick() {
        backslashes_before(b, i) == 1
    } else {
        backslashes_before(b, i) == 2
    }
}

/// Determines if the character at a given byte index is escaped by backslashes.
pub fn is_escaped(code: &str, byte_idx: usize) -> (r: bool)
    requires
        byte_idx != code.spec_bytes().len() || byte_idx == 0,
    ensures
        r == spec_is_escaped(code.spec_bytes(), byte_idx as int),
{
    if byte_idx == 0 || !code.is_char_boundary(byte_idx) {
        return false;
    }
    let bytes = code.as_bytes();
    assert(byte_idx < bytes@.len());
    let target = bytes[byte_idx];
    let mut count: usize = 0;
    let mut i = byte_idx;
    while i > 0
        invariant
            bytes@ == code.spec_bytes(),
            0 <= i <= byte_idx < bytes@.len(),
            count + i == byte_idx,
            backslashes_before(bytes@, byte_idx as int) == count + backslashes_before(
                bytes@,
                i as int,
            ),
        ensures
            backslashes_before(bytes@, byte_idx as int) == count,
        decreases i,
    {
        if bytes[i - 1] == 0x5cu8 {
            count = count + 1;
            i = i - 1;
        } else {
            break;
        }
    }
    if target == 0x60u8 {
        count == 1
    } else {
        count == 2
    }
}

// ---------------------------------------------------------------------------
// Raw bracket matching
// ---------------------------------------------------------------------------

/// Scans from `i` with `depth` open brackets counted so far (which may be
/// negative); returns the first `]` at which the count returns to zero.
pub open spec fn raw_scan(b: Seq<u8>, i: int, depth: int) -> Option<int>
    decreases b.len() - i,
{
    if i < 0 || i >= b.len() {
        None
    } else if b[i] == byte_open() {
        raw_scan(b, i + 1, depth + 1)
    } else if b[i] == byte_close() {
        if depth - 1 == 0 {
            Some(i)
        } else {
            raw_scan(b, i + 1, depth - 1)
        }
    } else {
        raw_scan(b, i + 1, depth)
    }
}

/// `r`, when present, is a closing bracket at or after `i`.
pub open spec fn close_at_or_after(b: Seq<u8>, i: int, r: Option<int>) -> bool {
    match r {
        Some(k) => i <= k < b.len() && b[k] == byte_close(),
        None => true,
    }
}

pub open spec fn spec_matching_bracket_raw(b: Seq<u8>, open_idx: int) -> Option<int> {
    raw_scan(b, open_idx, 0)
}

/// Performs a raw bracket match without considering ForgeScript escapes or functions.
pub fn find_matching_bracket_raw(bytes: &[u8], open_idx: usize) -> (r: Option<usize>)
    ensures
        same_pos(r, spec_matching_bracket_raw(bytes@, open_idx as int)),
        r matches Some(i) ==> open_idx <= i < bytes@.len() && bytes@[i as int] == byte_close(),
{
    let mut opens: usize = 0;
    let mut closes: usize = 0;
    let mut i = open_idx;
    proof { lemma_raw_scan_range(bytes@, open_idx as int); }
    while i < bytes.len()
        invariant
            open_idx <= i,
            opens + closes <= i - open_idx,
            spec_matching_bracket_raw(bytes@, open_idx as int) == raw_scan(
                bytes@,
                i as int,
                opens - closes,
            ),
            forall|d: int| close_at_or_after(bytes@, i as int, #[trigger] raw_scan(bytes@, i as int, d)),
        decreases bytes@.len() - i,
    {
        proof { lemma_raw_scan_range(bytes@, i as int + 1); }
        let c = bytes[i];
        if c == 0x5bu8 {
            opens = opens + 1;
        } else if c == 0x5du8 {
            if closes + 1 == opens {
                return Some(i);
            }
            closes = closes + 1;
        }
        i = i + 1;
    }
    None
}

pub proof fn lemma_raw_scan_range(b: Seq<u8>, i: int)
    ensures
        forall|d: int| close_at_or_after(b, i, #[trigger] raw_scan(b, i, d)),
    decreases b.len() - i,
{
    if 0 <= i < b.len() {
        lemma_raw_scan_range(b, i + 1);
        assert forall|d: int| close_at_or_after(b, i, #[trigger] raw_scan(b, i, d)) by {
            if b[i] == byte_open() {
                assert(raw_scan(b, i, d) == raw_scan(b, i + 1, d + 1));
            } else if b[i] == byte_close() {
                if d - 1 != 0 {
                    assert(raw_scan(b, i, d) == raw_scan(b, i + 1, d - 1));
                }
            } else {
                assert(raw_scan(b, i, d) == raw_scan(b, i + 1, d));
            }
        }
    }
}

// ---------------------------------------------------------------------------
// Escape functions and modifiers
// ---------------------------------------------------------------------------

/// Names of the functions whose bracket content is literal text, compared after
/// `str::to_lowercase`.
pub open spec fn is_escape_name(cs: Seq<char>) -> bool {
    let l = lowercase(cs);
    l == "esc"@ || l == "escape"@ || l == "escapecode"@
}

/// Checks if a string matches a known ForgeScript escape function name.
pub fn is_escape_function(name: &str) -> (r: bool)
    ensures
        r == is_escape_name(name@),
{
    let lower = to_lowercase(name);
    let l = lower.as_str();
    str_eq(l, "esc") || str_eq(l, "escape") || str_eq(l, "escapecode")
}

/// First index at or after `i` that is not `!` or `#`.
pub open spec fn skip_bang_hash(b: Seq<u8>, i: int) -> int
    decreases b.len() - i,
{
    if 0 <= i < b.len() && (b[i] == byte_bang() || b[i] == byte_hash()) {
        skip_bang_hash(b, i + 1)
    } else {
        i
    }
}

/// First index at or after `i` that does not hold an identifier byte.
pub open spec fn skip_ident(b: Seq<u8>, i: int) -> int
    decreases b.len() - i,
{
    if 0 <= i < b.len() && is_ident_byte(b[i]) {
        skip_ident(b, i + 1)
    } else {
        i
    }
}

pub proof fn lemma_skip_ident_bounds(b: Seq<u8>, i: int)
    requires
        0 <= i <= b.len(),
    ensures
        i <= skip_ident(b, i) <= b.len(),
        forall|j: int| i <= j < skip_ident(b, i) ==> is_ident_byte(#[trigger] b[j]),
        skip_ident(b, i) < b.len() ==> !is_ident_byte(b[skip_ident(b, i)]),
    decreases b.len() - i,
{
    if i < b.len() && is_ident_byte(b[i]) {
        lemma_skip_ident_bounds(b, i + 1);
    }
}

pub proof fn lemma_skip_bang_hash_bounds(b: Seq<u8>, i: int)
    requires
        0 <= i <= b.len(),
    ensures
        i <= skip_bang_hash(b, i) <= b.len(),
    decreases b.len() - i,
{
    if i < b.len() && (b[i] == byte_bang() || b[i] == byte_hash()) {
        lemma_skip_bang_hash_bounds(b, i + 1);
    }
}

/// Where the name of a call whose `$` is at `d` ends: after the `!`/`#`
/// modifiers and the identifier bytes that follow them.
pub open spec fn call_name_end(b: Seq<u8>, d: int) -> int {
    skip_ident(b, skip_bang_hash(b, d + 1))
}

/// Computes `call_name_end`.
pub fn find_call_name_end(code: &str, dollar_idx: usize) -> (r: usize)
    requires
        dollar_idx < code.spec_bytes().len(),
    ensures
        r == call_name_end(code.spec_bytes(), dollar_idx as int),
        dollar_idx < r <= code.spec_bytes().len(),
{
    let bytes = code.as_bytes();
    let ghost b = bytes@;
    let len = bytes.len();
    assert(dollar_idx < len);
    let mut pos = dollar_idx + 1;
    while pos < bytes.len() && (bytes[pos] == 0x21u8 || bytes[pos] == 0x23u8)
        invariant
            b == bytes@,
            dollar_idx < pos <= b.len(),
            skip_bang_hash(b, dollar_idx + 1) == skip_bang_hash(b, pos as int),
        decreases b.len() - pos,
    {
        pos = pos + 1;
    }
    let name_start = pos;
    while pos < bytes.len() && ident_byte(bytes[pos])
        invariant
            b == bytes@,
            name_start <= pos <= b.len(),
            dollar_idx < name_start,
            skip_ident(b, name_start as int) == skip_ident(b, pos as int),
        decreases b.len() - pos,
    {
        pos = pos + 1;
    }
    pos
}

/// Where `$esc[...]` (or `$escape`, `$escapeCode`, with `!`/`#` modifiers)
/// starting at `d` closes, if it is one.
pub open spec fn spec_escape_function_end(b: Seq<u8>, d: int) -> Option<int> {
    if !(0 <= d < b.len() && b[d] == byte_dollar() && !spec_is_escaped(b, d)) {
        None
    } else {
        let ns = skip_bang_hash(b, d + 1);
        let ne = skip_ident(b, ns);
        if ne == ns {
            None
        } else if !is_escape_name(decode_utf8(b.subrange(ns, ne))) {
            None
        } else if ne >= b.len() || b[ne] != byte_open() {
            None
        } else {
            spec_matching_bracket_raw(b, ne)
        }
    }
}

pub proof fn lemma_escape_end_after(b: Seq<u8>, d: int)
    ensures
        spec_escape_function_end(b, d) matches Some(e) ==> d < e < b.len() && b[e] == byte_close(),
{
    if 0 <= d < b.len() {
        lemma_skip_bang_hash_bounds(b, d + 1);
        let ns = skip_bang_hash(b, d + 1);
        lemma_skip_ident_bounds(b, ns);
        let ne = skip_ident(b, ns);
        if ne < b.len() {
            lemma_raw_scan_range(b, ne);
        }
    }
}

/// Detects if the current position is the start of an escape function ($esc, etc.).
pub fn find_escape_function_end(code: &str, dollar_idx: usize) -> (r: Option<usize>)
    ensures
        same_pos(r, spec_escape_function_end(code.spec_bytes(), dollar_idx as int)),
        r matches Some(e) ==> dollar_idx < e < code.spec_bytes().len(),
{
    let bytes = code.as_bytes();
    let ghost b = bytes@;
    proof {
        lemma_escape_end_after(b, dollar_idx as int);
    }
    if dollar_idx >= bytes.len() || bytes[dollar_idx] != 0x24u8 || is_escaped(code, dollar_idx) {
        return None;
    }
    let mut pos = dollar_idx + 1;
    while pos < bytes.len() && (bytes[pos] == 0x21u8 || bytes[pos] == 0x23u8)
        invariant
            b == bytes@,
            dollar_idx < pos <= b.len(),
            skip_bang_hash(b, dollar_idx + 1) == skip_bang_hash(b, pos as int),
        decreases b.len() - pos,
    {
        pos = pos + 1;
    }
    let name_start = pos;
    while pos < bytes.len() && ident_byte(bytes[pos])
        invariant
            b == bytes@,
            name_start <= pos <= b.len(),
            skip_ident(b, name_start as int) == skip_ident(b, pos as int),
            forall|j: int| name_start <= j < pos ==> is_ident_byte(#[trigger] b[j]),
        decreases b.len() - pos,
    {
        pos = pos + 1;
    }
    if pos == name_start {
        return None;
    }
    proof {
        lemma_ascii_byte_boundaries(b, name_start as int);
        lemma_ascii_byte_boundaries(b, pos - 1);
    }
    let name = substr(code, name_start, pos);
    if !is_escape_function(name) {
        return None;
    }
    if pos >= bytes.len() || bytes[pos] != 0x5bu8 {
        return None;
    }
    find_matching_bracket_raw(bytes, pos)
}

/// Where the modifier run `!`, `#`, `@[...]` that starts at `pos` ends.
pub open spec fn skip_mods(b: Seq<u8>, pos: int) -> int
    decreases b.len() - pos,
{
    if pos < 0 || pos >= b.len() {
        pos
    } else if b[pos] == byte_bang() || b[pos] == byte_hash() {
        skip_mods(b, pos + 1)
    } else if b[pos] == byte_at() && pos + 1 < b.len() && b[pos + 1] == byte_open() {
        match spec_matching_bracket_raw(b, pos + 1) {
            Some(e) => {
                proof {
                    lemma_raw_scan_range(b, pos + 1);
                }
                skip_mods(b, e + 1)
            },
            None => pos,
        }
    } else {
        pos
    }
}

pub proof fn lemma_skip_mods_bounds(b: Seq<u8>, pos: int)
    requires
        0 <= pos <= b.len(),
    ensures
        pos <= skip_mods(b, pos) <= b.len(),
    decreases b.len() - pos,
{
    if pos < b.len() {
        if b[pos] == byte_bang() || b[pos] == byte_hash() {
            lemma_skip_mods_bounds(b, pos + 1);
        } else if b[pos] == byte_at() && pos + 1 < b.len() && b[pos + 1] == byte_open() {
            lemma_raw_scan_range(b, pos + 1);
            if let Some(e) = spec_matching_bracket_raw(b, pos + 1) {
                lemma_skip_mods_bounds(b, e + 1);
            }
        }
    }
}

/// When the modifier run moves past `pos`, the byte before where it ends is
/// `!`, `#` or `]`.
pub proof fn lemma_skip_mods_ends_ascii(b: Seq<u8>, pos: int)
    requires
        0 <= pos <= b.len(),
    ensures
        skip_mods(b, pos) > pos ==> b[skip_mods(b, pos) - 1] < 0x80,
    decreases b.len() - pos,
{
    if pos < b.len() {
        if b[pos] == byte_bang() || b[pos] == byte_hash() {
            lemma_skip_mods_ends_ascii(b, pos + 1);
            lemma_skip_mods_bounds(b, pos + 1);
        } else if b[pos] == byte_at() && pos + 1 < b.len() && b[pos + 1] == byte_open() {
            lemma_raw_scan_range(b, pos + 1);
            if let Some(e) = spec_matching_bracket_raw(b, pos + 1) {
                assert(close_at_or_after(b, pos + 1, raw_scan(b, pos + 1, 0)));
                assert(b[e] == byte_close());
                lemma_skip_mods_ends_ascii(b, e + 1);
                lemma_skip_mods_bounds(b, e + 1);
            }
        }
    }
}

/// Advances a cursor past ForgeScript modifiers at the start of a function.
pub fn skip_modifiers(text: &str, start_idx: usize) -> (r: usize)
    ensures
        r == skip_mods(text.spec_bytes(), start_idx as int),
{
    let bytes = text.as_bytes();
    let ghost b = bytes@;
    let mut pos = start_idx;
    while pos < bytes.len()
        invariant
            b == bytes@,
            start_idx <= pos,
            skip_mods(b, start_idx as int) == skip_mods(b, pos as int),
        ensures
            skip_mods(b, pos as int) == pos,
        decreases b.len() - pos,
    {
        let c = bytes[pos];
        if c == 0x21u8 || c == 0x23u8 {
            pos = pos + 1;
        } else if c == 0x40u8 {
            if pos + 1 < bytes.len() && bytes[pos + 1] == 0x5bu8 {
                match find_matching_bracket_raw(bytes, pos + 1) {
                    Some(end_idx) => {
                        assert(skip_mods(b, pos as int) == skip_mods(b, end_idx + 1));
                        pos = end_idx + 1;
                    },
                    None => {
                        break;
                    },
                }
            } else {
                break;
            }
        } else {
            break;
        }
    }
    pos
}

// ---------------------------------------------------------------------------
// Function-call brackets
// ---------------------------------------------------------------------------

/// Walking backwards from `i`, the first index whose predecessor is not an identifier byte.
pub open spec fn ident_back(b: Seq<u8>, i: int) -> int
    decreases i,
{
    if 0 < i <= b.len() && is_ident_byte(b[i - 1]) {
        ident_back(b, i - 1)
    } else {
        i
    }
}

/// Walking backwards from `i` with `depth` unmatched `]` seen, the index of
/// the `[` that brings the count back to zero.
pub open spec fn bracket_back(b: Seq<u8>, i: int, depth: int) -> Option<int>
    decreases i,
{
    if i <= 0 || i > b.len() {
        None
    } else if b[i - 1] == byte_close() {
        bracket_back(b, i - 1, depth + 1)
    } else if b[i - 1] == byte_open() {
        if depth - 1 == 0 {
            Some(i - 1)
        } else {
            bracket_back(b, i - 1, depth - 1)
        }
    } else {
        bracket_back(b, i - 1, depth)
    }
}

pub proof fn lemma_bracket_back_before(b: Seq<u8>, i: int, depth: int)
    ensures
        bracket_back(b, i, depth) matches Some(j) ==> 0 <= j < i && b[j] == byte_open(),
    decreases i,
{
    if 0 < i <= b.len() {
        lemma_bracket_back_before(b, i - 1, depth + 1);
        lemma_bracket_back_before(b, i - 1, depth - 1);
        lemma_bracket_back_before(b, i - 1, depth);
    }
}

/// Walking backwards over the modifiers `!`, `#` and `@[...]` that end at `i`:
/// the index where they start, or `None` when an `@[...]` group is malformed.
pub open spec fn mods_back(b: Seq<u8>, i: int) -> Option<int>
    decreases i,
{
    if 0 < i <= b.len() && (b[i - 1] == byte_bang() || b[i - 1] == byte_hash()) {
        mods_back(b, i - 1)
    } else if 0 < i <= b.len() && b[i - 1] == byte_close() {
        match bracket_back(b, i, 0) {
            Some(j) => if 0 < j < i && b[j - 1] == byte_at() {
                mods_back(b, j - 1)
            } else {
                None
            },
            None => None,
        }
    } else {
        Some(i)
    }
}

/// A `[` at `k` opens a function call: it follows `$`, optional modifiers and an
/// identifier, and that `$` is not escaped.
pub open spec fn spec_is_function_call_bracket(b: Seq<u8>, k: int) -> bool {
    &&& 0 < k < b.len()
    &&& b[k] == byte_open()
    &&& match mods_back(b, ident_back(b, k)) {
        Some(i) => i > 0 && b[i - 1] == byte_dollar() && !spec_is_escaped(b, i - 1),
        None => false,
    }
}

pub proof fn lemma_ident_back_bounds(b: Seq<u8>, i: int)
    requires
        0 <= i <= b.len(),
    ensures
        0 <= ident_back(b, i) <= i,
    decreases i,
{
    if 0 < i && is_ident_byte(b[i - 1]) {
        lemma_ident_back_bounds(b, i - 1);
    }
}

pub proof fn lemma_mods_back_bounds(b: Seq<u8>, i: int)
    requires
        0 <= i <= b.len(),
    ensures
        mods_back(b, i) matches Some(j) ==> 0 <= j <= i,
    decreases i,
{
    if 0 < i && (b[i - 1] == byte_bang() || b[i - 1] == byte_hash()) {
        lemma_mods_back_bounds(b, i - 1);
    } else if 0 < i && b[i - 1] == byte_close() {
        if let Some(j) = bracket_back(b, i, 0) {
            if 0 < j < i && b[j - 1] == byte_at() {
                lemma_mods_back_bounds(b, j - 1);
            }
        }
    }
}

/// Where the `$` of the call that the `[` at `k` would open must stand: just
/// before the identifier and modifiers that precede the bracket.
pub open spec fn spec_call_prefix(b: Seq<u8>, k: int) -> Option<int> {
    if 0 < k < b.len() && b[k] == byte_open() {
        mods_back(b, ident_back(b, k))
    } else {
        None
    }
}

/// Walks back from a `[` over the identifier and the modifiers before it.
pub fn call_prefix_start(bytes: &[u8], bracket_idx: usize) -> (r: Option<usize>)
    ensures
        same_pos(r, spec_call_prefix(bytes@, bracket_idx as int)),
        r matches Some(i) ==> i <= bracket_idx,
{
    let ghost b = bytes@;
    if bracket_idx == 0 || bracket_idx >= bytes.len() || bytes[bracket_idx] != 0x5bu8 {
        return None;
    }
    let mut i = bracket_idx;
    while i > 0 && ident_byte(bytes[i - 1])
        invariant
            b == bytes@,
            0 <= i <= bracket_idx < b.len(),
            ident_back(b, bracket_idx as int) == ident_back(b, i as int),
        decreases i,
    {
        i = i - 1;
    }
    assert(ident_back(b, i as int) == i);
    while i > 0 && (bytes[i - 1] == 0x21u8 || bytes[i - 1] == 0x23u8 || bytes[i - 1] == 0x5du8)
        invariant
            b == bytes@,
            0 <= i < b.len(),
            mods_back(b, ident_back(b, bracket_idx as int)) == mods_back(b, i as int),
        decreases i,
    {
        if bytes[i - 1] == 0x21u8 || bytes[i - 1] == 0x23u8 {
            i = i - 1;
        } else {
            // bytes[i - 1] is `]`: find the `[` that matches it, walking backwards
            let ghost top = i;
            i = i - 1;
            let mut depth: usize = 1;
            let mut found = false;
            assert(bracket_back(b, top as int, 0) == bracket_back(b, i as int, 1));
            while i > 0
                invariant_except_break
                    bracket_back(b, top as int, 0) == bracket_back(b, i as int, depth as int),
                    !found,
                invariant
                    b == bytes@,
                    0 <= i < top <= b.len(),
                    depth >= 1,
                    depth <= top - i,
                ensures
                    found ==> bracket_back(b, top as int, 0) == Some(i as int),
                    !found ==> i == 0 && bracket_back(b, top as int, 0) is None,
                decreases i,
            {
                i = i - 1;
                if bytes[i] == 0x5du8 {
                    depth = depth + 1;
                } else if bytes[i] == 0x5bu8 {
                    if depth == 1 {
                        found = true;
                        break;
                    }
                    depth = depth - 1;
                }
            }
            proof {
                lemma_bracket_back_before(b, top as int, 0);
            }
            if !found || i == 0 || bytes[i - 1] != 0x40u8 {
                return None;
            }
            i = i - 1;
        }
    }
    proof {
        lemma_ident_back_bounds(b, bracket_idx as int);
        lemma_mods_back_bounds(b, ident_back(b, bracket_idx as int));
    }
    Some(i)
}

/// Verifies if a '[' character is the start of a ForgeScript function call.
pub fn is_function_call_bracket(text: &str, bracket_idx: usize) -> (r: bool)
    ensures
        r == spec_is_function_call_bracket(text.spec_bytes(), bracket_idx as int),
{
    let bytes = text.as_bytes();
    match call_prefix_start(bytes, bracket_idx) {
        Some(i) => i > 0 && bytes[i - 1] == 0x24u8 && !is_escaped(text, i - 1),
        None => false,
    }
}

/// Scan for the bracket closing the call opened at `open`: escaped characters
/// are skipped, `[` counts only when it opens a call (or is the opening one),
/// and escape functions are jumped over whole.
pub open spec fn call_scan(b: Seq<u8>, open: int, i: int, depth: int) -> Option<int>
    decreases b.len() - i,
{
    if i < 0 || i >= b.len() {
        None
    } else if spec_is_escaped(b, i) {
        call_scan(b, open, i + 1, depth)
    } else if b[i] == byte_open() {
        if i == open || spec_is_function_call_bracket(b, i) {
            call_scan(b, open, i + 1, depth + 1)
        } else {
            call_scan(b, open, i + 1, depth)
        }
    } else if b[i] == byte_close() {
        if depth > 0 {
            if depth - 1 == 0 {
                Some(i)
            } else {
                call_scan(b, open, i + 1, depth - 1)
            }
        } else {
            call_scan(b, open, i + 1, depth)
        }
    } else if b[i] == byte_dollar() {
        match spec_escape_function_end(b, i) {
            Some(e) => {
                proof {
                    lemma_escape_end_after(b, i);
                }
                call_scan(b, open, e + 1, depth)
            },
            None => call_scan(b, open, i + 1, depth),
        }
    } else {
        call_scan(b, open, i + 1, depth)
    }
}

pub open spec fn spec_matching_bracket(b: Seq<u8>, open: int) -> Option<int> {
    call_scan(b, open, open, 0)
}

pub proof fn lemma_call_scan_range(b: Seq<u8>, open: int, i: int)
    ensures
        forall|d: int| close_at_or_after(b, i, #[trigger] call_scan(b, open, i, d)),
    decreases b.len() - i,
{
    if 0 <= i < b.len() {
        lemma_call_scan_range(b, open, i + 1);
        lemma_escape_end_after(b, i);
        if let Some(e) = spec_escape_function_end(b, i) {
            lemma_call_scan_range(b, open, e + 1);
        }
        assert forall|d: int| close_at_or_after(b, i, #[trigger] call_scan(b, open, i, d)) by {
            assert(close_at_or_after(b, i + 1, call_scan(b, open, i + 1, d)));
            assert(close_at_or_after(b, i + 1, call_scan(b, open, i + 1, d + 1)));
            assert(close_at_or_after(b, i + 1, call_scan(b, open, i + 1, d - 1)));
            if let Some(e) = spec_escape_function_end(b, i) {
                assert(close_at_or_after(b, e + 1, call_scan(b, open, e + 1, d)));
            }
        }
    }
}

/// Finds the closing bracket for a function call, respecting nested calls and escapes.
pub fn find_matching_bracket(code: &str, open_idx: usize) -> (r: Option<usize>)
    ensures
        same_pos(r, spec_matching_bracket(code.spec_bytes(), open_idx as int)),
        r matches Some(i) ==> open_idx <= i < code.spec_bytes().len(),
{
    let bytes = code.as_bytes();
    let ghost b = bytes@;
    let mut depth: usize = 0;
    let mut i = open_idx;
    proof {
        lemma_call_scan_range(b, open_idx as int, open_idx as int);
    }
    while i < bytes.len()
        invariant
            b == bytes@,
            b == code.spec_bytes(),
            open_idx <= i,
            depth <= i - open_idx,
            spec_matching_bracket(b, open_idx as int) == call_scan(
                b,
                open_idx as int,
                i as int,
                depth as int,
            ),
            forall|d: int| close_at_or_after(b, i as int, #[trigger] call_scan(b, open_idx as int, i as int, d)),
        decreases b.len() - i,
    {
        proof {
            lemma_call_scan_range(b, open_idx as int, i + 1);
        }
        if is_escaped(code, i) {
            i = i + 1;
            continue;
        }
        let c = bytes[i];
        if c == 0x5bu8 {
            if i == open_idx || is_function_call_bracket(code, i) {
                depth = depth + 1;
            }
            i = i + 1;
        } else if c == 0x5du8 {
            if depth > 0 {
                if depth == 1 {
                    return Some(i);
                }
                depth = depth - 1;
            }
            i = i + 1;
        } else if c == 0x24u8 {
            match find_escape_function_end(code, i) {
                Some(end_idx) => {
                    proof {
                        lemma_escape_end_after(b, i as int);
                        lemma_call_scan_range(b, open_idx as int, end_idx + 1);
                    }
                    assert(call_scan(b, open_idx as int, i as int, depth as int) == call_scan(b, open_idx as int, end_idx + 1, depth as int));
                    i = end_idx + 1;
                },
                None => {
                    i = i + 1;
                },
            }
        } else {
            i = i + 1;
        }
    }
    None
}

/// The nesting depth of function calls just before `offset`.
pub open spec fn depth_scan(b: Seq<u8>, offset: int, i: int, depth: int) -> int
    decreases b.len() - i,
{
    if i < 0 || i >= b.len() || i >= offset {
        depth
    } else if spec_is_escaped(b, i) {
        depth_scan(b, offset, i + 1, depth)
    } else if b[i] == byte_open() && spec_is_function_call_bracket(b, i) {
        depth_scan(b, offset, i + 1, depth + 1)
    } else if b[i] == byte_close() && depth > 0 {
        depth_scan(b, offset, i + 1, depth - 1)
    } else {
        depth_scan(b, offset, i + 1, depth)
    }
}

/// Calculates the function nesting depth at a specific byte offset.
pub fn calculate_depth(text: &str, offset: usize) -> (r: usize)
    ensures
        r == depth_scan(text.spec_bytes(), offset as int, 0, 0),
{
    let bytes = text.as_bytes();
    let ghost b = bytes@;
    let mut depth: usize = 0;
    let mut i: usize = 0;
    while i < bytes.len() && i < offset
        invariant
            b == bytes@,
            b == text.spec_bytes(),
            i <= b.len(),
            depth <= i,
            depth_scan(b, offset as int, 0, 0) == depth_scan(b, offset as int, i as int, depth as int),
        decreases b.len() - i,
    {
        if !is_escaped(text, i) {
            let c = bytes[i];
            if c == 0x5bu8 {
                if is_function_call_bracket(text, i) {
                    depth = depth + 1;
                }
            } else if c == 0x5du8 {
                if depth > 0 {
                    depth = depth - 1;
                }
            }
        }
        i = i + 1;
    }
    depth
}

} // verus!
