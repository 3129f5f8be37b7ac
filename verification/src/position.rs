//! Conversions between byte offsets and editor positions, and the cursor
//! context used by completion and signature help.

use vstd::prelude::*;
use vstd::std_specs::iter::IteratorSpec;
use vstd::string::StringSliceAdditionalSpecFns;
use vstd::utf8::*;
use crate::chars::{byte_offset, char_indices, len_utf16, lemma_byte_at_char, lemma_byte_offset_bound, utf16_width};
use crate::text::{same_pos, substr};

verus! {

broadcast use vstd::utf8::group_utf8_lib;

/// A zero-based line and UTF-16 character position in a document.
#[derive(Clone, Copy, PartialEq, Eq, Debug)]
pub struct Position {
    pub line: u32,
    pub character: u32,
}

impl Position {
    pub fn new(line: u32, character: u32) -> (r: Position)
        ensures
            r.line == line,
            r.character == character,
    {
        Position { line, character }
    }
}

// ---------------------------------------------------------------------------
// Offset to position
// ---------------------------------------------------------------------------

/// Line and column after reading the first `n` characters: a newline starts a
/// new line at column 0, any other character advances the column by its
/// UTF-16 length.
pub open spec fn line_col_after(cs: Seq<char>, n: int) -> (int, int)
    decreases n,
{
    if n <= 0 || n > cs.len() {
        (0, 0)
    } else {
        let (l, c) = line_col_after(cs, n - 1);
        if cs[n - 1] == '\n' {
            (l + 1, 0)
        } else {
            (l, c + utf16_width(cs[n - 1]))
        }
    }
}

/// Number of characters, counted from `k`, that start before byte `offset`.
pub open spec fn chars_before_from(cs: Seq<char>, offset: int, k: int) -> int
    decreases cs.len() - k,
{
    if k < 0 || k >= cs.len() || byte_offset(cs, k) >= offset {
        k
    } else {
        chars_before_from(cs, offset, k + 1)
    }
}

/// Number of characters that start before byte `offset`.
pub open spec fn chars_before(cs: Seq<char>, offset: int) -> int {
    chars_before_from(cs, offset, 0)
}

/// Every line and column reached while reading the first `n` characters fits in a `u32`.
pub open spec fn line_col_fits(cs: Seq<char>, n: int) -> bool {
    forall|m: int|
        0 <= m <= n ==> (#[trigger] line_col_after(cs, m)).0 <= u32::MAX && line_col_after(
            cs,
            m,
        ).1 <= u32::MAX
}

pub proof fn lemma_chars_before_bounds(cs: Seq<char>, offset: int, k: int)
    requires
        0 <= k <= cs.len(),
    ensures
        k <= chars_before_from(cs, offset, k) <= cs.len(),
    decreases cs.len() - k,
{
    if k < cs.len() && byte_offset(cs, k) < offset {
        lemma_chars_before_bounds(cs, offset, k + 1);
    }
}

/// Converts a byte offset to (line, character) — works on all targets.
pub fn offset_to_position_raw(text: &str, offset: usize) -> (r: (u32, u32))
    requires
        line_col_fits(text@, chars_before(text@, offset as int)),
    ensures
        r.0 == line_col_after(text@, chars_before(text@, offset as int)).0,
        r.1 == line_col_after(text@, chars_before(text@, offset as int)).1,
{
    let ghost cs = text@;
    let idx = char_indices(text);
    let mut line: u32 = 0;
    let mut col: u32 = 0;
    let mut k: usize = 0;
    proof {
        lemma_chars_before_bounds(cs, offset as int, 0);
    }
    while k < idx.len()
        invariant
            idx@.len() == cs.len(),
            forall|j: int|
                0 <= j < idx@.len() ==> (#[trigger] idx@[j]).1 == cs[j] && idx@[j].0
                    == byte_offset(cs, j),
            0 <= k <= cs.len(),
            line_col_fits(cs, chars_before(cs, offset as int)),
            chars_before(cs, offset as int) == chars_before_from(cs, offset as int, k as int),
            k <= chars_before(cs, offset as int),
            line == line_col_after(cs, k as int).0,
            col == line_col_after(cs, k as int).1,
        ensures
            k == chars_before(cs, offset as int),
            line == line_col_after(cs, k as int).0,
            col == line_col_after(cs, k as int).1,
        decreases cs.len() - k,
    {
        let (i, ch) = idx[k];
        if i >= offset {
            break;
        }
        proof {
            lemma_chars_before_bounds(cs, offset as int, k + 1);
            assert(line_col_after(cs, k + 1).0 <= u32::MAX);
        }
        if ch == '\n' {
            line = line + 1;
            col = 0;
        } else {
            col = col + len_utf16(ch);
        }
        k = k + 1;
    }
    (line, col)
}

/// Converts a byte offset into a Position (line/character).
pub fn offset_to_position(text: &str, offset: usize) -> (r: Position)
    requires
        line_col_fits(text@, chars_before(text@, offset as int)),
    ensures
        r.line == line_col_after(text@, chars_before(text@, offset as int)).0,
        r.character == line_col_after(text@, chars_before(text@, offset as int)).1,
{
    let (line, col) = offset_to_position_raw(text, offset);
    Position::new(line, col)
}

// ---------------------------------------------------------------------------
// Position to offset
// ---------------------------------------------------------------------------

/// Lines are the newline-terminated pieces of the text (plus a final piece
/// when the text does not end in a newline), numbered from 0 and compared
/// after truncation to `u32`. Within the requested line, the first character
/// at which the UTF-16 column equals `character` gives the offset; so does
/// the end of the line, newline included, when the column reaches it there.
/// `k` is the character being read, `cur` the line it is on, `col` its
/// column on the requested line, and `fresh` whether a new line starts at `k`.
pub open spec fn pto_scan(
    cs: Seq<char>,
    line: u32,
    character: u32,
    k: int,
    cur: int,
    col: int,
    fresh: bool,
) -> Option<int>
    decreases cs.len() - k,
{
    if k < 0 || k >= cs.len() {
        if !fresh && cur % 0x1_0000_0000 == line && col == character {
            Some(encode_utf8(cs).len() as int)
        } else {
            None
        }
    } else if cur % 0x1_0000_0000 == line {
        if col == character {
            Some(byte_offset(cs, k))
        } else if cs[k] == '\n' {
            if col + 1 == character {
                Some(byte_offset(cs, k + 1))
            } else {
                None
            }
        } else {
            pto_scan(cs, line, character, k + 1, cur, col + utf16_width(cs[k]), false)
        }
    } else if cs[k] == '\n' {
        pto_scan(cs, line, character, k + 1, cur + 1, 0, true)
    } else {
        pto_scan(cs, line, character, k + 1, cur, col, false)
    }
}

/// The column on the requested line never grows past `u32::MAX` before the scan ends.
pub open spec fn pto_fits(
    cs: Seq<char>,
    line: u32,
    character: u32,
    k: int,
    cur: int,
    col: int,
) -> bool
    decreases cs.len() - k,
{
    if k < 0 || k >= cs.len() {
        true
    } else if cur % 0x1_0000_0000 == line {
        if col == character {
            true
        } else if cs[k] == '\n' {
            col + 1 <= u32::MAX
        } else {
            col + utf16_width(cs[k]) <= u32::MAX && pto_fits(
                cs,
                line,
                character,
                k + 1,
                cur,
                col + utf16_width(cs[k]),
            )
        }
    } else if cs[k] == '\n' {
        pto_fits(cs, line, character, k + 1, cur + 1, 0)
    } else {
        pto_fits(cs, line, character, k + 1, cur, col)
    }
}

pub open spec fn spec_position_to_offset(cs: Seq<char>, line: u32, character: u32) -> Option<int> {
    pto_scan(cs, line, character, 0, 0, 0, true)
}

pub open spec fn position_fits(cs: Seq<char>, line: u32, character: u32) -> bool {
    pto_fits(cs, line, character, 0, 0, 0)
}

pub proof fn lemma_pto_scan_bound(cs: Seq<char>, line: u32, character: u32, k: int, cur: int, col: int, fresh: bool)
    requires
        0 <= k <= cs.len(),
    ensures
        pto_scan(cs, line, character, k, cur, col, fresh) matches Some(o) ==> 0 <= o <= encode_utf8(cs).len(),
    decreases cs.len() - k,
{
    lemma_byte_offset_bound(cs, k);
    if k < cs.len() {
        lemma_byte_offset_bound(cs, k + 1);
        lemma_pto_scan_bound(cs, line, character, k + 1, cur, col + utf16_width(cs[k]), false);
        lemma_pto_scan_bound(cs, line, character, k + 1, cur + 1, 0, true);
        lemma_pto_scan_bound(cs, line, character, k + 1, cur, col, false);
    }
}

/// A line number truncated to 32 bits, as `as u32` does.
fn line_number_u32(n: usize) -> (r: u32)
    ensures
        r == (n as int) % 0x1_0000_0000,
{
    (n as u64 % 0x1_0000_0000u64) as u32
}

/// Converts (line, character) to a byte offset — works on all targets.
pub fn position_to_offset_raw(text: &str, line: u32, character: u32) -> (r: Option<usize>)
    requires
        position_fits(text@, line, character),
    ensures
        same_pos(r, spec_position_to_offset(text@, line, character)),
        r matches Some(o) ==> o <= text.spec_bytes().len(),
{
    let ghost cs = text@;
    let total = text.as_bytes().len();
    let idx = char_indices(text);
    let mut k: usize = 0;
    let mut cur: usize = 0;
    let mut col: u32 = 0;
    let mut fresh = true;
    proof {
        lemma_pto_scan_bound(cs, line, character, 0, 0, 0, true);
    }
    while k < idx.len()
        invariant
            cs == text@,
            idx@.len() == cs.len(),
            total == encode_utf8(cs).len(),
            forall|j: int|
                0 <= j < idx@.len() ==> (#[trigger] idx@[j]).1 == cs[j] && idx@[j].0
                    == byte_offset(cs, j),
            0 <= k <= cs.len(),
            cur <= k,
            spec_position_to_offset(cs, line, character) == pto_scan(
                cs,
                line,
                character,
                k as int,
                cur as int,
                col as int,
                fresh,
            ),
            pto_fits(cs, line, character, k as int, cur as int, col as int),
            pto_scan(cs, line, character, k as int, cur as int, col as int, fresh) matches Some(o) ==> 0 <= o <= total,
        decreases cs.len() - k,
    {
        let (i, c) = idx[k];
        proof {
            lemma_byte_offset_bound(cs, k + 1);
            lemma_pto_scan_bound(cs, line, character, k + 1, cur as int, col + utf16_width(cs[k as int]), false);
            lemma_pto_scan_bound(cs, line, character, k + 1, cur + 1, 0, true);
            lemma_pto_scan_bound(cs, line, character, k + 1, cur as int, col as int, false);
        }
        if line_number_u32(cur) == line {
            if col == character {
                return Some(i);
            }
            if c == '\n' {
                if col + 1 == character {
                    proof {
                        crate::chars::lemma_byte_offset_step(cs, k as int);
                    }
                    return Some(i + 1);
                }
                return None;
            }
            col = col + len_utf16(c);
            fresh = false;
        } else if c == '\n' {
            cur = cur + 1;
            col = 0;
            fresh = true;
        } else {
            fresh = false;
        }
        k = k + 1;
    }
    if !fresh && line_number_u32(cur) == line && col == character {
        Some(total)
    } else {
        None
    }
}

/// Converts a Position into a byte offset within the source text.
pub fn position_to_offset(text: &str, position: Position) -> (r: Option<usize>)
    requires
        position_fits(text@, position.line, position.character),
    ensures
        same_pos(r, spec_position_to_offset(text@, position.line, position.character)),
        r matches Some(o) ==> o <= text.spec_bytes().len(),
{
    position_to_offset_raw(text, position.line, position.character)
}

pub proof fn lemma_pto_scan_boundary(cs: Seq<char>, line: u32, character: u32, k: int, cur: int, col: int, fresh: bool)
    requires
        0 <= k <= cs.len(),
    ensures
        pto_scan(cs, line, character, k, cur, col, fresh) matches Some(o) ==> is_char_boundary(encode_utf8(cs), o),
    decreases cs.len() - k,
{
    is_char_boundary_start_end_of_seq(encode_utf8(cs));
    if k < cs.len() {
        lemma_byte_at_char(cs, k);
        if k + 1 < cs.len() {
            lemma_byte_at_char(cs, k + 1);
        } else {
            assert(cs.take(k + 1) =~= cs);
        }
        lemma_pto_scan_boundary(cs, line, character, k + 1, cur, col + utf16_width(cs[k]), false);
        lemma_pto_scan_boundary(cs, line, character, k + 1, cur + 1, 0, true);
        lemma_pto_scan_boundary(cs, line, character, k + 1, cur, col, false);
    }
}

// ---------------------------------------------------------------------------
// Cursor context
// ---------------------------------------------------------------------------

/// Byte offset of the cursor, or the end of the text when the position is not in it.
pub open spec fn cursor_offset(cs: Seq<char>, position: Position) -> int {
    match spec_position_to_offset(cs, position.line, position.character) {
        Some(o) => o,
        None => encode_utf8(cs).len() as int,
    }
}

/// Start of the window kept before the cursor: at most the last 8 KiB.
pub open spec fn cursor_window_start(cs: Seq<char>, position: Position) -> int {
    let end = cursor_offset(cs, position);
    if end > 8 * 1024 {
        end - 8 * 1024
    } else {
        0
    }
}

/// The text before the cursor, limited to its last 8 KiB.
pub fn get_text_up_to_cursor(text: &str, position: Position) -> (r: String)
    requires
        position_fits(text@, position.line, position.character),
        is_char_boundary(text.spec_bytes(), cursor_window_start(text@, position)),
    ensures
        r@ == decode_utf8(
            text.spec_bytes().subrange(
                cursor_window_start(text@, position),
                cursor_offset(text@, position),
            ),
        ),
        encode_utf8(r@) == text.spec_bytes().subrange(
            cursor_window_start(text@, position),
            cursor_offset(text@, position),
        ),
        0 <= cursor_window_start(text@, position) <= cursor_offset(text@, position) <= text.spec_bytes().len(),
        cursor_offset(text@, position) - cursor_window_start(text@, position) <= 8 * 1024,
{
    let ghost cs = text@;
    let total = text.as_bytes().len();
    proof {
        lemma_pto_scan_boundary(cs, position.line, position.character, 0, 0, 0, true);
        lemma_pto_scan_bound(cs, position.line, position.character, 0, 0, 0, true);
        is_char_boundary_start_end_of_seq(encode_utf8(cs));
    }
    let end = match position_to_offset_raw(text, position.line, position.character) {
        Some(o) => o,
        None => total,
    };
    let start = if end > 8 * 1024 {
        end - 8 * 1024
    } else {
        0
    };
    let window = substr(text, start, end);
    window.to_owned()
}

/// State of the argument scan: (index, bracket depth, inside '...', inside "...",
/// after a backslash, finished).
pub type ParamScan = (int, int, bool, bool, bool, bool);

/// One character of the scan that counts separators at depth zero, outside
/// quotes, skipping the character after a backslash, and stopping at an
/// unmatched `]`. The count saturates at `u32::MAX`.
pub open spec fn param_step(st: ParamScan, c: char) -> ParamScan {
    let (idx, depth, in_single, in_double, escape, done) = st;
    if done {
        st
    } else if escape {
        (idx, depth, in_single, in_double, false, false)
    } else if c == '\\' {
        (idx, depth, in_single, in_double, true, false)
    } else if c == '\'' && !in_double {
        (idx, depth, !in_single, in_double, false, false)
    } else if c == '"' && !in_single {
        (idx, depth, in_single, !in_double, false, false)
    } else if in_single || in_double {
        st
    } else if c == '[' {
        (idx, depth + 1, in_single, in_double, false, false)
    } else if c == ']' {
        if depth > 0 {
            (idx, depth - 1, in_single, in_double, false, false)
        } else {
            (idx, depth, in_single, in_double, false, true)
        }
    } else if (c == ',' || c == ';') && depth == 0 {
        (if idx + 1 > u32::MAX { u32::MAX as int } else { idx + 1 }, depth, in_single, in_double, false, false)
    } else {
        st
    }
}

pub open spec fn param_state(cs: Seq<char>, n: int) -> ParamScan
    decreases n,
{
    if n <= 0 || n > cs.len() {
        (0, 0, false, false, false, false)
    } else {
        param_step(param_state(cs, n - 1), cs[n - 1])
    }
}

/// The bracket depth of the scan stays within `i32` (it is kept in one).
pub open spec fn param_depth_fits(cs: Seq<char>) -> bool {
    forall|m: int| 0 <= m <= cs.len() ==> (#[trigger] param_state(cs, m)).1 < i32::MAX
}

/// Index of the argument the cursor is in, counted from the text after `[`.
pub fn compute_active_param_index(text_after_bracket: &str) -> (r: u32)
    requires
        param_depth_fits(text_after_bracket@),
    ensures
        r == param_state(text_after_bracket@, text_after_bracket@.len() as int).0,
{
    broadcast use vstd::string::group_string_axioms;

    let ghost cs = text_after_bracket@;
    let mut it = text_after_bracket.chars();
    let mut n: usize = 0;
    let mut param_index: u32 = 0;
    let mut local_depth: i32 = 0;
    let mut in_single = false;
    let mut in_double = false;
    let mut prev_escape = false;
    let mut done = false;
    proof {
        assert(text_after_bracket@.len() <= text_after_bracket.spec_bytes().len()) by {
            crate::chars::lemma_byte_offset_bound(cs, cs.len() as int);
            assert(cs.take(cs.len() as int) =~= cs);
            lemma_chars_le_bytes(cs);
        }
    }
    let blen = text_after_bracket.as_bytes().len();
    loop
        invariant
            cs == text_after_bracket@,
            cs.len() <= blen,
            n <= cs.len(),
            it.remaining() == cs.skip(n as int),
            param_depth_fits(cs),
            param_state(cs, n as int) == (
                param_index as int,
                local_depth as int,
                in_single,
                in_double,
                prev_escape,
                done,
            ),
            local_depth >= 0,
        ensures
            param_state(cs, cs.len() as int).0 == param_index,
        decreases cs.len() - n,
    {
        let ghost before = param_state(cs, n as int);
        match it.next() {
            Some(ch) => {
                assert(ch == cs[n as int]);
                assert(param_state(cs, n + 1) == param_step(before, ch));
                assert(param_state(cs, n + 1).1 < i32::MAX);
                if done {
                } else if prev_escape {
                    prev_escape = false;
                } else if ch == '\\' {
                    prev_escape = true;
                } else if ch == '\'' && !in_double {
                    in_single = !in_single;
                } else if ch == '"' && !in_single {
                    in_double = !in_double;
                } else if in_single || in_double {
                } else if ch == '[' {
                    local_depth = local_depth + 1;
                } else if ch == ']' {
                    if local_depth > 0 {
                        local_depth = local_depth - 1;
                    } else {
                        done = true;
                    }
                } else if (ch == ',' || ch == ';') && local_depth == 0 {
                    param_index = param_index.saturating_add(1);
                }
                n = n + 1;
            },
            None => {
                proof {
                    lemma_param_state_done(cs, n as int);
                }
                break;
            },
        }
    }
    param_index
}

pub proof fn lemma_param_state_done(cs: Seq<char>, n: int)
    requires
        0 <= n <= cs.len(),
        cs.skip(n).len() == 0,
    ensures
        n == cs.len(),
{
}

/// A string has at least as many bytes as characters.
pub proof fn lemma_chars_le_bytes(cs: Seq<char>)
    ensures
        cs.len() <= encode_utf8(cs).len(),
    decreases cs.len(),
{
    if cs.len() > 0 {
        lemma_chars_le_bytes(cs.drop_first());
        char_is_scalar(cs[0]);
    }
}

/// Walking backwards from `i` with `depth` closed brackets pending, the
/// unmatched `[` nearest before `i`.
pub open spec fn open_back(b: Seq<u8>, i: int, depth: int) -> Option<int>
    decreases i,
{
    if i <= 0 || i > b.len() {
        None
    } else if b[i - 1] == 0x5du8 {
        open_back(b, i - 1, depth + 1)
    } else if b[i - 1] == 0x5bu8 {
        if depth == 0 {
            Some(i - 1)
        } else {
            open_back(b, i - 1, depth - 1)
        }
    } else {
        open_back(b, i - 1, depth)
    }
}

/// The pending-bracket count of `open_back` stays within `i32` (it is kept in one).
pub open spec fn open_back_fits(b: Seq<u8>, i: int, depth: int) -> bool
    decreases i,
{
    if i <= 0 || i > b.len() {
        true
    } else if b[i - 1] == 0x5du8 {
        depth + 1 <= i32::MAX && open_back_fits(b, i - 1, depth + 1)
    } else if b[i - 1] == 0x5bu8 {
        depth == 0 || open_back_fits(b, i - 1, depth - 1)
    } else {
        open_back_fits(b, i - 1, depth)
    }
}

pub proof fn lemma_open_back_before(b: Seq<u8>, i: int, depth: int)
    ensures
        open_back(b, i, depth) matches Some(j) ==> 0 <= j < i && b[j] == 0x5bu8,
    decreases i,
{
    if 0 < i <= b.len() {
        lemma_open_back_before(b, i - 1, depth + 1);
        lemma_open_back_before(b, i - 1, depth - 1);
        lemma_open_back_before(b, i - 1, depth);
    }
}

/// Unicode `White_Space` characters, which the regex class `\s` matches.
pub open spec fn is_white_space(c: char) -> bool {
    ||| ('\u{9}' <= c <= '\u{d}')
    ||| c == ' '
    ||| c == '\u{85}'
    ||| c == '\u{a0}'
    ||| c == '\u{1680}'
    ||| ('\u{2000}' <= c <= '\u{200a}')
    ||| c == '\u{2028}'
    ||| c == '\u{2029}'
    ||| c == '\u{202f}'
    ||| c == '\u{205f}'
    ||| c == '\u{3000}'
}

pub open spec fn is_ascii_ident_char(c: char) -> bool {
    ('a' <= c <= 'z') || ('A' <= c <= 'Z') || ('0' <= c <= '9') || c == '_'
}

/// Walking backwards from `i`, the start of the run of white space that ends there.
pub open spec fn white_space_back(cs: Seq<char>, i: int) -> int
    decreases i,
{
    if 0 < i <= cs.len() && is_white_space(cs[i - 1]) {
        white_space_back(cs, i - 1)
    } else {
        i
    }
}

/// Walking backwards from `i`, the start of the run of ASCII identifier characters that ends there.
pub open spec fn ident_char_back(cs: Seq<char>, i: int) -> int
    decreases i,
{
    if 0 < i <= cs.len() && is_ascii_ident_char(cs[i - 1]) {
        ident_char_back(cs, i - 1)
    } else {
        i
    }
}

/// What the pattern `\$([a-zA-Z_][a-zA-Z0-9_]*)\s*$` captures in its group: the
/// identifier right after a `$`, followed by nothing but white space up to
/// the end. The identifier run is maximal because identifier characters are
/// not white space, so the match is unique when there is one.
pub open spec fn trailing_call_name(cs: Seq<char>) -> Option<Seq<char>> {
    let q = white_space_back(cs, cs.len() as int);
    let p = ident_char_back(cs, q);
    if p < q && p >= 1 && cs[p - 1] == '$' && !('0' <= cs[p] <= '9') {
        Some(cs.subrange(p, q))
    } else {
        None
    }
}

/// Calls `Regex::captures` with `\$([a-zA-Z_][a-zA-Z0-9_]*)\s*$` and returns
/// capture group 1. The contract claims the regex crate's documented
/// semantics: `$` is the end of the haystack, `\s` is Unicode white space, and
/// the leftmost match (unique here) is found.
#[verifier::external_body]
fn capture_trailing_call_name(before: &str) -> (r: Option<String>)
    ensures
        match r {
            Some(n) => trailing_call_name(before@) == Some(n@),
            None => trailing_call_name(before@) is None,
        },
{
    let re = regex::Regex::new(r"\$([a-zA-Z_][a-zA-Z0-9_]*)\s*$").expect("valid pattern");
    match re.captures(before) {
        Some(caps) => caps.get(1).map(|m| m.as_str().to_string()),
        None => None,
    }
}

/// The call whose brackets enclose the end of `text`: its name and the byte
/// index of its `[`.
pub open spec fn spec_active_function_call(b: Seq<u8>) -> Option<(Seq<char>, int)> {
    match open_back(b, b.len() as int, 0) {
        Some(o) => match trailing_call_name(decode_utf8(b.subrange(0, o))) {
            Some(n) => Some((n, o)),
            None => None,
        },
        None => None,
    }
}

/// Finds the function call that the end of the text is inside of.
pub fn find_active_function_call(text_up_to_cursor: &str) -> (r: Option<(String, usize)>)
    requires
        open_back_fits(text_up_to_cursor.spec_bytes(), text_up_to_cursor.spec_bytes().len() as int, 0),
    ensures
        match r {
            Some((n, o)) => spec_active_function_call(text_up_to_cursor.spec_bytes()) == Some((n@, o as int)),
            None => spec_active_function_call(text_up_to_cursor.spec_bytes()) is None,
        },
{
    let bytes = text_up_to_cursor.as_bytes();
    let ghost b = bytes@;
    let mut i = bytes.len();
    let mut depth: i32 = 0;
    let mut found: Option<usize> = None;
    while i > 0
        invariant_except_break
            found is None,
            open_back(b, b.len() as int, 0) == open_back(b, i as int, depth as int),
            open_back_fits(b, i as int, depth as int),
        invariant
            b == bytes@,
            0 <= i <= b.len(),
            depth >= 0,
        ensures
            found matches Some(o) ==> open_back(b, b.len() as int, 0) == Some(o as int),
            found is None ==> open_back(b, b.len() as int, 0) is None,
        decreases i,
    {
        let c = bytes[i - 1];
        if c == 0x5du8 {
            depth = depth + 1;
        } else if c == 0x5bu8 {
            if depth == 0 {
                found = Some(i - 1);
                break;
            }
            depth = depth - 1;
        }
        i = i - 1;
    }
    let open_index = match found {
        Some(o) => o,
        None => {
            return None;
        },
    };
    proof {
        lemma_open_back_before(b, b.len() as int, 0);
        crate::text::lemma_ascii_byte_boundaries(b, open_index as int);
        is_char_boundary_start_end_of_seq(b);
    }
    let before_bracket = substr(text_up_to_cursor, 0, open_index);
    match capture_trailing_call_name(before_bracket) {
        Some(name) => Some((name, open_index)),
        None => None,
    }
}

} // verus!
