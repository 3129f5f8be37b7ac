//! Semantic tokens and highlight ranges for the ForgeScript code blocks of a
//! document.

use vstd::prelude::*;
use vstd::string::StringSliceAdditionalSpecFns;
use vstd::utf8::*;
use crate::metadata::MetadataManager;
use crate::chars::byte_offset;
use crate::parser::{indexes, lemma_index_facts, lemma_pos_grows, pos_of};
use crate::strings::{alphanumeric, dollar_name, is_alphanumeric};
use crate::text::{find_escape_function_end, find_matching_bracket_raw, is_escaped, lemma_raw_scan_range, spec_escape_function_end, spec_is_escaped, spec_matching_bracket_raw, substr};
use crate::trie::lowercase_key;

verus! {

broadcast use vstd::utf8::group_utf8_lib;

/// A semantic token in the editor protocol's relative encoding.
#[derive(Clone, Copy, Debug, PartialEq, Eq, Structural)]
pub struct SemanticToken {
    pub delta_line: u32,
    pub delta_start: u32,
    pub length: u32,
    pub token_type: u32,
    pub token_modifiers_bitset: u32,
}

// ---------------------------------------------------------------------------
// Code blocks
// ---------------------------------------------------------------------------

/// The byte ranges that the pattern ``(?s)code:\s*`((?:[^`\\]|\\.)*)` ``
/// captures in group 1, for its successive matches in the text.
pub uninterp spec fn code_block_regions(s: Seq<char>) -> Seq<(int, int)>;

/// Byte ranges in order, not overlapping, on character boundaries.
pub open spec fn regions_ordered(r: Seq<(usize, usize)>, b: Seq<u8>) -> bool {
    &&& forall|k: int|
        0 <= k < r.len() ==> (#[trigger] r[k]).0 <= r[k].1 <= b.len() && is_char_boundary(b, r[k].0 as int)
            && is_char_boundary(b, r[k].1 as int)
    &&& forall|k: int, l: int| 0 <= k < l < r.len() ==> (#[trigger] r[k]).1 <= (#[trigger] r[l]).0
}

/// Byte ranges as pairs of integers.
pub open spec fn region_view(r: Seq<(usize, usize)>) -> Seq<(int, int)> {
    r.map_values(|p: (usize, usize)| (p.0 as int, p.1 as int))
}

/// Calls `Regex::captures_iter` with the code-block pattern and collects the
/// byte range of capture group 1 of each match. The contract names the list
/// and states what the regex crate documents of it: the matches come in order
/// and do not overlap, and a match's bounds are character boundaries of the
/// haystack.
#[verifier::external_body]
fn code_block_spans(source: &str) -> (r: Vec<(usize, usize)>)
    ensures
        region_view(r@) == code_block_regions(source@),
        regions_ordered(r@, source.spec_bytes()),
{
    let re = regex::Regex::new(r"(?s)code:\s*`((?:[^`\\]|\\.)*)`").expect("valid pattern");
    let mut out = Vec::new();
    for caps in re.captures_iter(source) {
        match caps.get(1) {
            Some(m) => out.push((m.start(), m.end())),
            None => {},
        }
    }
    out
}

// ---------------------------------------------------------------------------
// Pieces of a code block
// ---------------------------------------------------------------------------

/// The first character index at or after `k` that starts after byte `e`.
pub open spec fn first_after(cp: Seq<(usize, char)>, k: int, e: int) -> int
    decreases cp.len() - k,
{
    if 0 <= k < cp.len() && cp[k].0 <= e {
        first_after(cp, k + 1, e)
    } else {
        k
    }
}

pub proof fn lemma_first_after(cp: Seq<(usize, char)>, k: int, e: int)
    requires
        0 <= k <= cp.len(),
    ensures
        k <= first_after(cp, k, e) <= cp.len(),
        k < cp.len() && cp[k].0 <= e ==> first_after(cp, k, e) > k,
    decreases cp.len() - k,
{
    if k < cp.len() && cp[k].0 <= e {
        lemma_first_after(cp, k + 1, e);
    }
}

/// Advances `k` to the first character starting after byte `e`.
fn advance_past(cp: &[(usize, char)], k: usize, e: usize) -> (r: usize)
    requires
        k <= cp@.len(),
    ensures
        r == first_after(cp@, k as int, e as int),
{
    let mut j = k;
    while j < cp.len() && cp[j].0 <= e
        invariant
            k <= j <= cp@.len(),
            first_after(cp@, k as int, e as int) == first_after(cp@, j as int, e as int),
        decreases cp@.len() - j,
    {
        j = j + 1;
    }
    j
}

/// A `$c[...]` comment at character `idx`: where its bracket closes and the
/// character after it.
pub open spec fn spec_comment(b: Seq<u8>, cp: Seq<(usize, char)>, idx: int) -> Option<(int, int)> {
    if idx + 2 < cp.len() && cp[idx + 1].1 == 'c' && cp[idx + 2].1 == '[' {
        match spec_matching_bracket_raw(b, cp[idx + 2].0 as int) {
            Some(e) => Some((e, first_after(cp, idx, e))),
            None => None,
        }
    } else {
        None
    }
}

/// Recognizes a `$c[...]` comment at character `idx`.
fn try_extract_comment(code: &str, idx: usize, char_positions: &[(usize, char)]) -> (r: Option<(usize, usize)>)
    requires
        idx < char_positions@.len(),
    ensures
        match r {
            Some((e, nx)) => spec_comment(code.spec_bytes(), char_positions@, idx as int) == Some((e as int, nx as int)),
            None => spec_comment(code.spec_bytes(), char_positions@, idx as int) is None,
        },
{
    if char_positions.len() >= 3 && idx < char_positions.len() - 2 && char_positions[idx + 1].1 == 'c'
        && char_positions[idx + 2].1 == '[' {
        match find_matching_bracket_raw(code.as_bytes(), char_positions[idx + 2].0) {
            Some(end_idx) => {
                let next_idx = advance_past(char_positions, idx, end_idx);
                return Some((end_idx, next_idx));
            },
            None => {},
        }
    }
    None
}

/// An escape function at character `idx`: where its name ends (at its
/// bracket, after the modifiers), where it closes, and the character after it.
pub open spec fn spec_escape(b: Seq<u8>, cp: Seq<(usize, char)>, idx: int) -> Option<(int, int, int)> {
    let i = cp[idx].0 as int;
    match spec_escape_function_end(b, i) {
        Some(e) => Some((crate::text::call_name_end(b, i), e, first_after(cp, idx, e))),
        None => None,
    }
}

/// Recognizes an escape function at character `idx`.
fn try_extract_escape(code: &str, idx: usize, char_positions: &[(usize, char)]) -> (r: Option<(usize, usize, usize)>)
    requires
        idx < char_positions@.len(),
        char_positions@[idx as int].0 < code.spec_bytes().len(),
    ensures
        match r {
            Some((a, e, nx)) => spec_escape(code.spec_bytes(), char_positions@, idx as int) == Some(
                (a as int, e as int, nx as int),
            ),
            None => spec_escape(code.spec_bytes(), char_positions@, idx as int) is None,
        },
        r matches Some((a, e, nx)) ==> char_positions@[idx as int].0 < a,
{
    let bytes = code.as_bytes();
    let i = char_positions[idx].0;
    match find_escape_function_end(code, i) {
        Some(esc_end) => {
            let name_end = crate::text::find_call_name_end(code, i);
            let next_idx = advance_past(char_positions, idx, esc_end);
            Some((name_end, esc_end, next_idx))
        },
        None => None,
    }
}

/// After the `$` at character `j - 1`, the character index where the
/// modifiers `!`, `#` and `@[...]` end.
pub open spec fn mods_skip(b: Seq<u8>, cp: Seq<(usize, char)>, j: int) -> int
    decreases cp.len() - j,
{
    if j < 0 || j >= cp.len() {
        j
    } else if cp[j].1 == '!' || cp[j].1 == '#' {
        mods_skip(b, cp, j + 1)
    } else if cp[j].1 == '@' && j + 1 < cp.len() && cp[j + 1].1 == '[' {
        match spec_matching_bracket_raw(b, cp[j + 1].0 as int) {
            Some(close) => {
                let nx = first_after(cp, j, close);
                if nx > j {
                    proof {
                        lemma_first_after(cp, j, close);
                    }
                    mods_skip(b, cp, nx)
                } else {
                    j
                }
            },
            None => j,
        }
    } else {
        j
    }
}

/// The first character index at or after `k` that is neither alphanumeric nor `_`.
pub open spec fn name_run(cp: Seq<(usize, char)>, k: int) -> int
    decreases cp.len() - k,
{
    if 0 <= k < cp.len() && (alphanumeric(cp[k].1) || cp[k].1 == '_') {
        name_run(cp, k + 1)
    } else {
        k
    }
}

/// `$` followed by the text between bytes `s` and `e` names a known function.
pub open spec fn known_name(m: Map<Seq<char>, std::sync::Arc<crate::function::Function>>, b: Seq<u8>, s: int, e: int) -> bool {
    m.contains_key(lowercase_key(seq!['$'] + decode_utf8(b.subrange(s, e))))
}

/// Searching down from character `k` to just after `j`, the first end of a
/// known name starting at byte `ns`.
pub open spec fn longest_known(
    m: Map<Seq<char>, std::sync::Arc<crate::function::Function>>,
    b: Seq<u8>,
    cp: Seq<(usize, char)>,
    ns: int,
    j: int,
    k: int,
) -> Option<int>
    decreases k - j,
{
    if k <= j {
        None
    } else if known_name(m, b, ns, pos_of(cp, k, b.len() as int)) {
        Some(k)
    } else {
        longest_known(m, b, cp, ns, j, k - 1)
    }
}

/// A known function called at character `idx`: its length in bytes and in
/// characters. With a bracket after the name the whole name must be known;
/// otherwise the longest known prefix of the name is taken.
pub open spec fn spec_metadata_function(
    m: Map<Seq<char>, std::sync::Arc<crate::function::Function>>,
    b: Seq<u8>,
    cp: Seq<(usize, char)>,
    idx: int,
) -> Option<(int, int)> {
    let i = cp[idx].0 as int;
    let j = mods_skip(b, cp, idx + 1);
    if j >= cp.len() {
        None
    } else {
        let ns = cp[j].0 as int;
        let ne = name_run(cp, j);
        if ne < cp.len() && cp[ne].1 == '[' {
            if known_name(m, b, ns, cp[ne].0 as int) {
                Some((cp[ne].0 - i, ne - idx))
            } else {
                None
            }
        } else {
            match longest_known(m, b, cp, ns, j, ne) {
                Some(k) => Some((pos_of(cp, k, b.len() as int) - i, k - idx)),
                None => None,
            }
        }
    }
}

pub proof fn lemma_name_run_bounds(cp: Seq<(usize, char)>, k: int)
    requires
        0 <= k <= cp.len(),
    ensures
        k <= name_run(cp, k) <= cp.len(),
    decreases cp.len() - k,
{
    if k < cp.len() && (alphanumeric(cp[k].1) || cp[k].1 == '_') {
        lemma_name_run_bounds(cp, k + 1);
    }
}

pub proof fn lemma_mods_skip_bounds(b: Seq<u8>, cp: Seq<(usize, char)>, j: int)
    requires
        0 <= j <= cp.len(),
    ensures
        j <= mods_skip(b, cp, j) <= cp.len(),
    decreases cp.len() - j,
{
    if j < cp.len() {
        if cp[j].1 == '!' || cp[j].1 == '#' {
            lemma_mods_skip_bounds(b, cp, j + 1);
        } else if cp[j].1 == '@' && j + 1 < cp.len() && cp[j + 1].1 == '[' {
            if let Some(close) = spec_matching_bracket_raw(b, cp[j + 1].0 as int) {
                lemma_first_after(cp, j, close);
                let nx = first_after(cp, j, close);
                if nx > j {
                    lemma_mods_skip_bounds(b, cp, nx);
                }
            }
        }
    }
}

/// Skips the modifiers that start at character `j`.
fn skip_char_modifiers(code: &str, cp: &[(usize, char)], start: usize) -> (r: usize)
    requires
        start <= cp@.len(),
        indexes(cp@, code@),
    ensures
        r == mods_skip(code.spec_bytes(), cp@, start as int),
        start <= r <= cp@.len(),
{
    let ghost b = code.spec_bytes();
    let mut j = start;
    while j < cp.len()
        invariant
            start <= j <= cp@.len(),
            b == code.spec_bytes(),
            indexes(cp@, code@),
            mods_skip(b, cp@, start as int) == mods_skip(b, cp@, j as int),
        ensures
            mods_skip(b, cp@, start as int) == j,
        decreases cp@.len() - j,
    {
        let c = cp[j].1;
        if c == '!' || c == '#' {
            j = j + 1;
        } else if c == '@' && j + 1 < cp.len() && cp[j + 1].1 == '[' {
            match find_matching_bracket_raw(code.as_bytes(), cp[j + 1].0) {
                Some(close_idx) => {
                    proof {
                        lemma_index_facts(cp@, code@, j as int);
                        lemma_index_facts(cp@, code@, j + 1);
                        lemma_first_after(cp@, j as int, close_idx as int);
                    }
                    j = advance_past(cp, j, close_idx);
                },
                None => {
                    break;
                },
            }
        } else {
            break;
        }
    }
    j
}

/// Recognizes a call of a known function at character `idx`.
fn try_extract_metadata_function(
    code: &str,
    idx: usize,
    char_positions: &[(usize, char)],
    manager: &MetadataManager,
) -> (r: Option<(usize, usize)>)
    requires
        idx < char_positions@.len(),
        indexes(char_positions@, code@),
    ensures
        match r {
            Some((l, c)) => spec_metadata_function(manager.functions(), code.spec_bytes(), char_positions@, idx as int)
                == Some((l as int, c as int)),
            None => spec_metadata_function(manager.functions(), code.spec_bytes(), char_positions@, idx as int) is None,
        },
        r matches Some((l, c)) ==> 0 < l && 0 < c && char_positions@[idx as int].0 + l <= code.spec_bytes().len()
            && idx + c <= char_positions@.len()
            && char_positions@[idx as int].0 + l == pos_of(char_positions@, idx + c, code.spec_bytes().len() as int),
{
    let ghost b = code.spec_bytes();
    let cp = char_positions;
    let n = code.as_bytes().len();
    let i = cp[idx].0;
    let j = skip_char_modifiers(code, cp, idx + 1);
    if j >= cp.len() {
        return None;
    }
    let name_start_byte = cp[j].0;
    let mut name_end_char = j;
    while name_end_char < cp.len() && (is_alphanumeric(cp[name_end_char].1) || cp[name_end_char].1 == '_')
        invariant
            j <= name_end_char <= cp@.len(),
            name_run(cp@, j as int) == name_run(cp@, name_end_char as int),
        decreases cp@.len() - name_end_char,
    {
        name_end_char = name_end_char + 1;
    }
    proof {
        lemma_index_facts(cp@, code@, idx as int);
        lemma_index_facts(cp@, code@, j as int);
        lemma_pos_grows(cp@, code@, idx as int, j as int);
        lemma_pos_grows(cp@, code@, j as int, name_end_char as int);
    }
    let has_bracket = name_end_char < cp.len() && cp[name_end_char].1 == '[';
    proof {
        if name_end_char < cp@.len() {
            lemma_index_facts(cp@, code@, name_end_char as int);
        }
    }
    if has_bracket {
        if known_at(code, manager, name_start_byte, cp[name_end_char].0) {
            return Some((cp[name_end_char].0 - i, name_end_char - idx));
        }
    } else {
        let mut check_idx = name_end_char;
        while check_idx > j
            invariant
                j <= check_idx <= name_end_char <= cp@.len(),
                cp@ == char_positions@,
                indexes(cp@, code@),
                b == code.spec_bytes(),
                n == b.len(),
                name_start_byte == cp@[j as int].0,
                is_char_boundary(b, name_start_byte as int),
                i == cp@[idx as int].0,
                idx < j < cp@.len(),
                i < name_start_byte,
                j == mods_skip(b, cp@, idx + 1),
                name_end_char == name_run(cp@, j as int),
                !(name_end_char < cp@.len() && cp@[name_end_char as int].1 == '['),
                longest_known(manager.functions(), b, cp@, name_start_byte as int, j as int, name_end_char as int)
                    == longest_known(manager.functions(), b, cp@, name_start_byte as int, j as int, check_idx as int),
            decreases check_idx,
        {
            let end_byte = if check_idx < cp.len() { cp[check_idx].0 } else { n };
            proof {
                lemma_pos_grows(cp@, code@, j as int, check_idx as int);
                lemma_pos_grows(cp@, code@, idx as int, j as int);
                if check_idx < cp@.len() {
                    lemma_index_facts(cp@, code@, check_idx as int);
                } else {
                    is_char_boundary_start_end_of_seq(b);
                }
            }
            if known_at(code, manager, name_start_byte, end_byte) {
                assert(end_byte == pos_of(cp@, check_idx as int, b.len() as int));
                assert(longest_known(manager.functions(), b, cp@, name_start_byte as int, j as int, check_idx as int)
                    == Some(check_idx as int));
                return Some((end_byte - i, check_idx - idx));
            }
            check_idx = check_idx - 1;
        }
    }
    None
}

/// Whether `$` and the text between two character boundaries name a known function.
fn known_at(code: &str, manager: &MetadataManager, s: usize, e: usize) -> (r: bool)
    requires
        s <= e <= code.spec_bytes().len(),
        is_char_boundary(code.spec_bytes(), s as int),
        is_char_boundary(code.spec_bytes(), e as int),
    ensures
        r == known_name(manager.functions(), code.spec_bytes(), s as int, e as int),
{
    let name = substr(code, s, e);
    let key = dollar_name(name);
    manager.get_exact(key.as_str()).is_some()
}

// ---------------------------------------------------------------------------
// Semantic tokens
// ---------------------------------------------------------------------------

/// The characters of a text with the byte offset at which each starts.
pub open spec fn char_table(s: Seq<char>) -> Seq<(usize, char)> {
    Seq::new(s.len(), |k: int| (byte_offset(s, k) as usize, s[k]))
}

pub proof fn lemma_char_table(cp: Seq<(usize, char)>, s: Seq<char>)
    requires
        indexes(cp, s),
    ensures
        cp == char_table(s),
{
    assert forall|k: int| 0 <= k < cp.len() implies cp[k] == char_table(s)[k] by {
        crate::chars::lemma_byte_offset_bound(s, k);
    }
    assert(cp =~= char_table(s));
}

/// `true` at byte `i`.
pub open spec fn true_at(b: Seq<u8>, i: int) -> bool {
    i + 4 <= b.len() && b.subrange(i, i + 4) == seq![0x74u8, 0x72u8, 0x75u8, 0x65u8]
}

/// `false` at byte `i`.
pub open spec fn false_at(b: Seq<u8>, i: int) -> bool {
    i + 5 <= b.len() && b.subrange(i, i + 5) == seq![0x66u8, 0x61u8, 0x6cu8, 0x73u8, 0x65u8]
}

/// A digit or a dot.
pub open spec fn number_byte(c: u8) -> bool {
    (0x30u8 <= c && c <= 0x39u8) || c == 0x2eu8
}

/// The first byte at or after `i` that is neither a digit nor a dot.
pub open spec fn number_end(b: Seq<u8>, i: int) -> int
    decreases b.len() - i,
{
    if 0 <= i < b.len() && number_byte(b[i]) {
        number_end(b, i + 1)
    } else {
        i
    }
}

pub proof fn lemma_number_end_bounds(b: Seq<u8>, i: int)
    requires
        0 <= i <= b.len(),
    ensures
        i <= number_end(b, i) <= b.len(),
    decreases b.len() - i,
{
    if i < b.len() && number_byte(b[i]) {
        lemma_number_end_bounds(b, i + 1);
    }
}

/// One step of the scan at character `idx`: the tokens it emits, the next
/// character index and the next function count. Token types: 0 function,
/// 1 keyword, 2 number, 3 alternate function colour, 4 escaped text,
/// 5 comment. A `$` that is not escaped may start a comment, an escape
/// function or a known function call; a digit starts a number of digits and
/// dots; `true`, `false` and unescaped `;` are keywords. Positions
/// are moved by `off`; `fci` counts the functions coloured so far.
#[verifier::opaque]
pub open spec fn scan_step(
    m: Map<Seq<char>, std::sync::Arc<crate::function::Function>>,
    b: Seq<u8>,
    cp: Seq<(usize, char)>,
    off: int,
    colors: bool,
    idx: int,
    fci: int,
) -> (Seq<(usize, usize, u32)>, int, int) {
    let i = cp[idx].0 as int;
    let c = cp[idx].1;
    let dollar = c == '$' && !spec_is_escaped(b, i);
    if dollar && spec_comment(b, cp, idx) is Some {
        let (e, nx) = spec_comment(b, cp, idx).unwrap();
        (seq![((i + off) as usize, (e + 1 + off) as usize, 5u32)], nx, fci)
    } else if dollar && spec_escape(b, cp, idx) is Some {
        let (ne, ee, nx) = spec_escape(b, cp, idx).unwrap();
        (seq![((i + off) as usize, (ne + off) as usize, 0u32)]
            + (if ne < ee { seq![((ne + off) as usize, (ee + off) as usize, 4u32)] } else { Seq::empty() })
            + seq![((ee + off) as usize, (ee + 1 + off) as usize, 0u32)], nx, fci)
    } else if dollar && spec_metadata_function(m, b, cp, idx) is Some {
        let (l, cc) = spec_metadata_function(m, b, cp, idx).unwrap();
        let tt: u32 = if colors { ((fci % 2) * 3) as u32 } else { 0u32 };
        (seq![((i + off) as usize, (i + l + off) as usize, tt)], idx + cc, if colors { fci + 1 } else { fci })
    } else if '0' <= c && c <= '9' {
        let e = number_end(b, i);
        (seq![((i + off) as usize, (e + off) as usize, 2u32)], idx + (e - i), fci)
    } else if true_at(b, i) {
        (seq![((i + off) as usize, (i + 4 + off) as usize, 1u32)], idx + 4, fci)
    } else if false_at(b, i) {
        (seq![((i + off) as usize, (i + 5 + off) as usize, 1u32)], idx + 5, fci)
    } else if c == ';' && !spec_is_escaped(b, i) {
        (seq![((i + off) as usize, (i + 1 + off) as usize, 1u32)], idx + 1, fci)
    } else {
        (Seq::empty(), idx + 1, fci)
    }
}

/// The tokens of a code block from character `idx` on, in scan order.
pub open spec fn code_tokens(
    m: Map<Seq<char>, std::sync::Arc<crate::function::Function>>,
    b: Seq<u8>,
    cp: Seq<(usize, char)>,
    off: int,
    colors: bool,
    idx: int,
    fci: int,
) -> Seq<(usize, usize, u32)>
    decreases if idx < cp.len() { cp.len() - idx } else { 0 },
{
    if idx < 0 || idx >= cp.len() {
        Seq::empty()
    } else {
        let (t, nx, nf) = scan_step(m, b, cp, off, colors, idx, fci);
        if nx > idx {
            t + code_tokens(m, b, cp, off, colors, nx, nf)
        } else {
            t
        }
    }
}

/// Where an element goes when inserted into a sequence sorted by start:
/// after every element whose start is not greater.
pub open spec fn insert_pos(t: Seq<(usize, usize, u32)>, x: (usize, usize, u32), p: int) -> int
    decreases p,
{
    if p > 0 && p <= t.len() && t[p - 1].0 > x.0 {
        insert_pos(t, x, p - 1)
    } else {
        p
    }
}

/// The tokens sorted by start, tokens with equal starts keeping their order.
pub open spec fn stable_sort(s: Seq<(usize, usize, u32)>) -> Seq<(usize, usize, u32)>
    decreases s.len(),
{
    if s.len() == 0 {
        Seq::empty()
    } else {
        let t = stable_sort(s.drop_last());
        t.insert(insert_pos(t, s.last(), t.len() as int), s.last())
    }
}

/// The tokens are ordered by their start.
pub open spec fn sorted_by_start(v: Seq<(usize, usize, u32)>) -> bool {
    forall|a: int, c: int| 0 <= a < c < v.len() ==> (#[trigger] v[a]).0 <= (#[trigger] v[c]).0
}

/// Sorts tokens by their start, keeping the order of tokens with equal starts.
fn sort_by_start(v: Vec<(usize, usize, u32)>) -> (r: Vec<(usize, usize, u32)>)
    ensures
        r@ == stable_sort(v@),
        sorted_by_start(r@),
        r@.to_multiset() == v@.to_multiset(),
{
    let mut out: Vec<(usize, usize, u32)> = Vec::new();
    let mut i: usize = 0;
    proof {
        assert(v@.take(0) =~= Seq::<(usize, usize, u32)>::empty());
        assert(out@ =~= Seq::<(usize, usize, u32)>::empty());
    }
    while i < v.len()
        invariant
            i <= v@.len(),
            sorted_by_start(out@),
            out@.to_multiset() == v@.take(i as int).to_multiset(),
            out@ == stable_sort(v@.take(i as int)),
        decreases v@.len() - i,
    {
        let x = v[i];
        let mut pos = out.len();
        while pos > 0 && out[pos - 1].0 > x.0
            invariant
                pos <= out@.len(),
                forall|q: int| pos <= q < out@.len() ==> (#[trigger] out@[q]).0 > x.0,
                insert_pos(out@, x, out@.len() as int) == insert_pos(out@, x, pos as int),
            decreases pos,
        {
            pos = pos - 1;
        }
        proof {
            assert(v@.take(i + 1).drop_last() =~= v@.take(i as int));
            assert(v@.take(i + 1).last() == x);
        }
        let ghost before = out@;
        out.insert(pos, x);
        proof {
            vstd::seq_lib::to_multiset_insert(before, pos as int, x);
            assert(v@.take(i + 1) =~= v@.take(i as int).push(x));
            vstd::seq_lib::to_multiset_build(v@.take(i as int), x);
            assert forall|a: int, c: int| 0 <= a < c < out@.len() implies (#[trigger] out@[a]).0 <= (#[trigger] out@[c]).0 by {
                if c < pos {
                } else if a < pos && c == pos {
                    assert(out@[a] == before[a]);
                    if pos > 0 && a < pos {
                        assert(before[a].0 <= before[pos - 1].0 || a == pos - 1);
                    }
                } else if a < pos {
                    assert(out@[c] == before[c - 1]);
                } else if a == pos {
                    assert(out@[c] == before[c - 1]);
                } else {
                    assert(out@[a] == before[a - 1]);
                    assert(out@[c] == before[c - 1]);
                }
            }
        }
        i = i + 1;
    }
    assert(v@.take(v@.len() as int) =~= v@);
    out
}

/// Tokenizes the content of a ForgeScript code block that starts at byte
/// `code_start` of the document; the tokens come sorted by start.
/// One scan step at character `idx` (see `scan_step`).
#[verifier::rlimit(40)]
fn scan_one(
    code: &str,
    cp: &[(usize, char)],
    idx: usize,
    fci: u32,
    colors: bool,
    code_start: usize,
    manager: &MetadataManager,
) -> (r: (Vec<(usize, usize, u32)>, usize, u32))
    requires
        idx < cp@.len(),
        indexes(cp@, code@),
        cp@.len() <= code.spec_bytes().len(),
        code.spec_bytes().len() <= u32::MAX,
        fci <= idx,
        code_start + code.spec_bytes().len() <= usize::MAX,
    ensures
        (r.0@, r.1 as int, r.2 as int) == scan_step(
            manager.functions(),
            code.spec_bytes(),
            cp@,
            code_start as int,
            colors,
            idx as int,
            fci as int,
        ),
        r.1 > idx,
        r.2 <= r.1,
        forall|q: int| 0 <= q < r.0@.len() ==> (#[trigger] r.0@[q]).0 <= r.0@[q].1,
{
    let ghost b = code.spec_bytes();
    let n = code.as_bytes().len();
    let (i, c) = cp[idx];
    proof {
        reveal(scan_step);
        lemma_index_facts(cp@, code@, idx as int);
    }
    let mut out: Vec<(usize, usize, u32)> = Vec::new();
    let dollar = c == '$' && !is_escaped(code, i);
    if dollar {
        match try_extract_comment(code, idx, cp) {
            Some((end_idx, next_idx)) => {
                proof {
                    lemma_raw_scan_range(b, cp@[idx + 2].0 as int);
                    lemma_index_facts(cp@, code@, idx + 2);
                    lemma_pos_grows(cp@, code@, idx as int, idx + 2);
                    lemma_first_after(cp@, idx as int, end_idx as int);
                }
                out.push((i + code_start, end_idx + 1 + code_start, 5));
                return (out, next_idx, fci);
            },
            None => {},
        }
        match try_extract_escape(code, idx, cp) {
            Some((name_end, esc_end, next_idx)) => {
                proof {
                    crate::text::lemma_escape_end_after(b, i as int);
                    lemma_first_after(cp@, idx as int, esc_end as int);
                }
                out.push((i + code_start, name_end + code_start, 0));
                if name_end < esc_end {
                    out.push((name_end + code_start, esc_end + code_start, 4));
                }
                out.push((esc_end + code_start, esc_end + 1 + code_start, 0));
                proof {
                    if name_end < esc_end {
                        assert(out@ =~= seq![((i + code_start) as usize, (name_end + code_start) as usize, 0u32)]
                            + seq![((name_end + code_start) as usize, (esc_end + code_start) as usize, 4u32)]
                            + seq![((esc_end + code_start) as usize, (esc_end + 1 + code_start) as usize, 0u32)]);
                    } else {
                        assert(out@ =~= seq![((i + code_start) as usize, (name_end + code_start) as usize, 0u32)]
                            + Seq::<(usize, usize, u32)>::empty()
                            + seq![((esc_end + code_start) as usize, (esc_end + 1 + code_start) as usize, 0u32)]);
                    }
                }
                return (out, next_idx, fci);
            },
            None => {},
        }
        match try_extract_metadata_function(code, idx, cp, manager) {
            Some((best_match_len, best_match_char_count)) => {
                let mut next_fci = fci;
                let token_type = if colors {
                    let color = (fci % 2) * 3;
                    next_fci = fci + 1;
                    color
                } else {
                    0
                };
                out.push((i + code_start, i + best_match_len + code_start, token_type));
                return (out, idx + best_match_char_count, next_fci);
            },
            None => {},
        }
    }
    let bytes = code.as_bytes();
    proof {
        lemma_pos_grows(cp@, code@, 0, idx as int);
        assert(code@.take(0) =~= Seq::<char>::empty());
        assert(byte_offset(code@, 0) == 0);
        assert(idx <= i);
    }
    if c >= '0' && c <= '9' {
        proof {
            let x: u32 = c as u32;
            assert(0x30 <= x <= 0x39);
            assert(x < 0x80);
            assert(0x30 <= x <= 0x39 ==> 0x30u8 <= (x as u8) && (x as u8) <= 0x39u8) by (bit_vector);
            assert(number_byte(b[i as int]));
        }
        let mut j = i;
        while j < n && ((bytes[j] >= 0x30u8 && bytes[j] <= 0x39u8) || bytes[j] == 0x2eu8)
            invariant
                b == bytes@,
                n == b.len(),
                i <= j <= n,
                number_end(b, i as int) == number_end(b, j as int),
            decreases n - j,
        {
            j = j + 1;
        }
        out.push((i + code_start, j + code_start, 2));
        return (out, idx + (j - i), fci);
    }
    let is_true = n - i >= 4 && bytes[i] == 0x74u8 && bytes[i + 1] == 0x72u8 && bytes[i + 2] == 0x75u8
        && bytes[i + 3] == 0x65u8;
    proof {
        if i + 4 <= n {
            assert(is_true == (b.subrange(i as int, i + 4) =~= seq![0x74u8, 0x72u8, 0x75u8, 0x65u8]));
        }
    }
    if is_true {
        out.push((i + code_start, i + 4 + code_start, 1));
        return (out, idx + 4, fci);
    }
    let is_false = n - i >= 5 && bytes[i] == 0x66u8 && bytes[i + 1] == 0x61u8 && bytes[i + 2] == 0x6cu8
        && bytes[i + 3] == 0x73u8 && bytes[i + 4] == 0x65u8;
    proof {
        if i + 5 <= n {
            assert(is_false == (b.subrange(i as int, i + 5) =~= seq![0x66u8, 0x61u8, 0x6cu8, 0x73u8, 0x65u8]));
        }
    }
    if is_false {
        out.push((i + code_start, i + 5 + code_start, 1));
        return (out, idx + 5, fci);
    }
    if c == ';' && !is_escaped(code, i) {
        out.push((i + code_start, i + 1 + code_start, 1));
    }
    (out, idx + 1, fci)
}

/// Tokenizes the content of a ForgeScript code block that starts at byte
/// `code_start` of the document; the tokens come sorted by start.
pub fn extract_tokens_from_code(
    code: &str,
    code_start: usize,
    use_function_colors: bool,
    manager: &MetadataManager,
) -> (r: Vec<(usize, usize, u32)>)
    requires
        code.spec_bytes().len() <= u32::MAX,
        code_start + code.spec_bytes().len() <= usize::MAX,
    ensures
        r@ == stable_sort(code_tokens(
            manager.functions(),
            code.spec_bytes(),
            char_table(code@),
            code_start as int,
            use_function_colors,
            0,
            0,
        )),
        sorted_by_start(r@),
        r@.to_multiset() == code_tokens(
            manager.functions(),
            code.spec_bytes(),
            char_table(code@),
            code_start as int,
            use_function_colors,
            0,
            0,
        ).to_multiset(),
        forall|q: int| 0 <= q < r@.len() ==> (#[trigger] r@[q]).0 <= r@[q].1,
{
    let ghost b = code.spec_bytes();
    let ghost m = manager.functions();
    let mut found: Vec<(usize, usize, u32)> = Vec::new();
    let mut function_color_index: u32 = 0;
    let char_positions = crate::chars::char_indices(code);
    let cp = char_positions.as_slice();
    let mut idx: usize = 0;
    proof {
        lemma_char_table(char_positions@, code@);
        crate::position::lemma_chars_le_bytes(code@);
    }
    while idx < cp.len()
        invariant
            b == code.spec_bytes(),
            m == manager.functions(),
            b.len() <= u32::MAX,
            code_start + b.len() <= usize::MAX,
            cp@ == char_table(code@),
            indexes(cp@, code@),
            cp@.len() <= b.len(),
            function_color_index <= idx,
            found@ + code_tokens(m, b, cp@, code_start as int, use_function_colors, idx as int, function_color_index as int)
                == code_tokens(m, b, cp@, code_start as int, use_function_colors, 0, 0),
            forall|q: int| 0 <= q < found@.len() ==> (#[trigger] found@[q]).0 <= found@[q].1,
        decreases if idx < cp@.len() { cp@.len() - idx } else { 0 },
    {
        let (mut step, next_idx, next_fci) = scan_one(code, cp, idx, function_color_index, use_function_colors, code_start, manager);
        let ghost before = found@;
        let ghost st = step@;
        found.append(&mut step);
        proof {
            assert(found@ == before + st);
            assert(code_tokens(m, b, cp@, code_start as int, use_function_colors, idx as int, function_color_index as int)
                == st + code_tokens(m, b, cp@, code_start as int, use_function_colors, next_idx as int, next_fci as int));
            assert(found@ + code_tokens(m, b, cp@, code_start as int, use_function_colors, next_idx as int, next_fci as int)
                =~= before + code_tokens(m, b, cp@, code_start as int, use_function_colors, idx as int, function_color_index as int));
        }
        idx = next_idx;
        function_color_index = next_fci;
    }
    proof {
        assert(found@ =~= found@ + Seq::<(usize, usize, u32)>::empty());
    }
    let ghost f = found@;
    let r = sort_by_start(found);
    proof {
        assert forall|q: int| 0 <= q < r@.len() implies (#[trigger] r@[q]).0 <= r@[q].1 by {
            vstd::seq_lib::to_multiset_contains(r@, r@[q]);
            vstd::seq_lib::to_multiset_contains(f, r@[q]);
            assert(r@.contains(r@[q]));
            let w = choose|w: int| 0 <= w < f.len() && f[w] == r@[q];
            assert(f[w].0 <= f[w].1);
        }
    }
    r
}

// ---------------------------------------------------------------------------
// Relative encoding
// ---------------------------------------------------------------------------

/// The first index at or after `k` holding a newline, or the length.
pub open spec fn next_newline(cs: Seq<char>, k: int) -> int
    decreases cs.len() - k,
{
    if 0 <= k < cs.len() && cs[k] != '\n' {
        next_newline(cs, k + 1)
    } else {
        k
    }
}

/// Where line `li` starts, counting lines from `k`: after `li` newlines.
pub open spec fn line_start_from(cs: Seq<char>, li: int, k: int) -> Option<int>
    decreases li,
{
    if li <= 0 {
        Some(k)
    } else {
        let e = next_newline(cs, k);
        if 0 <= k <= e < cs.len() {
            line_start_from(cs, li - 1, e + 1)
        } else {
            None
        }
    }
}

/// The number of characters of line `li` as `str::lines` yields it: without
/// its newline and a carriage return right before that newline; 0 past the
/// last line.
pub open spec fn line_len(cs: Seq<char>, li: int) -> int {
    match line_start_from(cs, li, 0) {
        Some(s) => if 0 <= s < cs.len() {
            let e = next_newline(cs, s);
            if e < cs.len() && e > s && cs[e - 1] == '\r' {
                e - 1 - s
            } else {
                e - s
            }
        } else {
            0
        },
        None => 0,
    }
}

pub proof fn lemma_next_newline_bounds(cs: Seq<char>, k: int)
    requires
        0 <= k <= cs.len(),
    ensures
        k <= next_newline(cs, k) <= cs.len(),
        next_newline(cs, k) < cs.len() ==> cs[next_newline(cs, k)] == '\n',
    decreases cs.len() - k,
{
    if k < cs.len() && cs[k] != '\n' {
        lemma_next_newline_bounds(cs, k + 1);
    }
}

/// Counts the characters of line `li` of the text.
fn line_char_count(source: &str, li: u32) -> (r: usize)
    ensures
        r == line_len(source@, li as int),
{
    let ghost cs = source@;
    let idx = crate::chars::char_indices(source);
    let mut k: usize = 0;
    let mut line: u32 = 0;
    while line < li
        invariant
            cs == source@,
            idx@.len() == cs.len(),
            forall|j: int| 0 <= j < idx@.len() ==> (#[trigger] idx@[j]).1 == cs[j],
            k <= cs.len(),
            line <= li,
            line_start_from(cs, li as int, 0) == line_start_from(cs, (li - line) as int, k as int),
        decreases li - line,
    {
        let mut e = k;
        while e < idx.len() && idx[e].1 != '\n'
            invariant
                idx@.len() == cs.len(),
                forall|j: int| 0 <= j < idx@.len() ==> (#[trigger] idx@[j]).1 == cs[j],
                k <= e <= cs.len(),
                next_newline(cs, k as int) == next_newline(cs, e as int),
            decreases cs.len() - e,
        {
            e = e + 1;
        }
        if e >= idx.len() {
            assert(next_newline(cs, k as int) == e as int);
            assert(line_start_from(cs, (li - line) as int, k as int) is None);
            return 0;
        }
        k = e + 1;
        line = line + 1;
    }
    if k >= idx.len() {
        return 0;
    }
    let s = k;
    let mut e = k;
    while e < idx.len() && idx[e].1 != '\n'
        invariant
            idx@.len() == cs.len(),
            forall|j: int| 0 <= j < idx@.len() ==> (#[trigger] idx@[j]).1 == cs[j],
            s <= e <= cs.len(),
            next_newline(cs, s as int) == next_newline(cs, e as int),
        decreases cs.len() - e,
    {
        e = e + 1;
    }
    if e < idx.len() && e > s && idx[e - 1].1 == '\r' {
        e - 1 - s
    } else {
        e - s
    }
}

/// Line and column of a byte offset of the text.
pub open spec fn pos_line(cs: Seq<char>, offset: int) -> int {
    crate::position::line_col_after(cs, crate::position::chars_before(cs, offset)).0
}

pub open spec fn pos_col(cs: Seq<char>, offset: int) -> int {
    crate::position::line_col_after(cs, crate::position::chars_before(cs, offset)).1
}

pub open spec fn sat_sub(a: u32, b: u32) -> u32 {
    if a >= b { (a - b) as u32 } else { 0u32 }
}

/// The tokens a token spanning lines `li..=el` becomes, one per line with
/// characters, and the line and column the last of them starts at.
pub open spec fn span_lines(
    cs: Seq<char>,
    sl: u32,
    sc: u32,
    el: u32,
    ec: u32,
    tt: u32,
    li: int,
    ll: u32,
    lc: u32,
) -> (Seq<SemanticToken>, u32, u32)
    decreases el - li + 1,
{
    if li > el || li < 0 {
        (Seq::empty(), ll, lc)
    } else {
        let l = li as u32;
        let dl = sat_sub(l, ll);
        let (st, len) = if li == sl {
            (sc, sat_sub(line_len(cs, li) as u32, sc))
        } else if li == el {
            (0u32, ec)
        } else {
            (0u32, line_len(cs, li) as u32)
        };
        if len > 0 {
            let ds = if dl == 0 { sat_sub(st, lc) } else { st };
            let tok = SemanticToken { delta_line: dl, delta_start: ds, length: len, token_type: tt, token_modifiers_bitset: 0 };
            let rest = span_lines(cs, sl, sc, el, ec, tt, li + 1, l, st);
            (seq![tok] + rest.0, rest.1, rest.2)
        } else {
            span_lines(cs, sl, sc, el, ec, tt, li + 1, ll, lc)
        }
    }
}

/// The relative encoding of the tokens from the `k`-th on, after a token
/// that started at line `ll`, column `lc`: a token within one line becomes
/// one entry at least one character long; a token over several lines becomes
/// one entry per line that it covers characters of.
pub open spec fn rel_tokens(found: Seq<(usize, usize, u32)>, cs: Seq<char>, k: int, ll: u32, lc: u32) -> Seq<SemanticToken>
    decreases found.len() - k,
{
    if k < 0 || k >= found.len() {
        Seq::empty()
    } else {
        let (s, e, tt) = found[k];
        let sl = pos_line(cs, s as int) as u32;
        let sc = pos_col(cs, s as int) as u32;
        let el = pos_line(cs, e as int) as u32;
        let ec = pos_col(cs, e as int) as u32;
        if sl == el {
            let dl = sat_sub(sl, ll);
            let ds = if dl == 0 { sat_sub(sc, lc) } else { sc };
            let len = if ec - sc >= 1 { (ec - sc) as u32 } else { 1u32 };
            seq![SemanticToken { delta_line: dl, delta_start: ds, length: len, token_type: tt, token_modifiers_bitset: 0 }]
                + rel_tokens(found, cs, k + 1, sl, sc)
        } else {
            let sp = span_lines(cs, sl, sc, el, ec, tt, sl as int, ll, lc);
            sp.0 + rel_tokens(found, cs, k + 1, sp.1, sp.2)
        }
    }
}

pub proof fn lemma_chars_before_mono(cs: Seq<char>, o1: int, o2: int, k: int)
    requires
        o1 <= o2,
        0 <= k <= cs.len(),
    ensures
        crate::position::chars_before_from(cs, o1, k) <= crate::position::chars_before_from(cs, o2, k),
    decreases cs.len() - k,
{
    if k < cs.len() && byte_offset(cs, k) < o1 {
        lemma_chars_before_mono(cs, o1, o2, k + 1);
    } else {
        crate::position::lemma_chars_before_bounds(cs, o2, k);
    }
}

pub proof fn lemma_line_col_mono(cs: Seq<char>, n1: int, n2: int)
    requires
        0 <= n1 <= n2 <= cs.len(),
    ensures
        crate::position::line_col_after(cs, n1).0 <= crate::position::line_col_after(cs, n2).0,
        crate::position::line_col_after(cs, n1).0 == crate::position::line_col_after(cs, n2).0
            ==> crate::position::line_col_after(cs, n1).1 <= crate::position::line_col_after(cs, n2).1,
    decreases n2 - n1,
{
    if n1 < n2 {
        lemma_line_col_mono(cs, n1, n2 - 1);
        lemma_line_col_nonneg(cs, n2 - 1);
    }
}

pub proof fn lemma_line_col_nonneg(cs: Seq<char>, n: int)
    ensures
        crate::position::line_col_after(cs, n).0 >= 0,
        crate::position::line_col_after(cs, n).1 >= 0,
    decreases n,
{
    if 0 < n <= cs.len() {
        lemma_line_col_nonneg(cs, n - 1);
    }
}

/// Offsets in order give positions in order.
pub proof fn lemma_pos_order(cs: Seq<char>, s: int, e: int)
    requires
        s <= e,
    ensures
        pos_line(cs, s) <= pos_line(cs, e),
        pos_line(cs, s) == pos_line(cs, e) ==> pos_col(cs, s) <= pos_col(cs, e),
{
    lemma_chars_before_mono(cs, s, e, 0);
    crate::position::lemma_chars_before_bounds(cs, e, 0);
    crate::position::lemma_chars_before_bounds(cs, s, 0);
    lemma_line_col_mono(cs, crate::position::chars_before(cs, s), crate::position::chars_before(cs, e));
}

/// Computes relative offsets for semantic tokens.
pub fn to_relative_tokens(found: &[(usize, usize, u32)], source: &str) -> (r: Vec<SemanticToken>)
    requires
        crate::position::line_col_fits(source@, source@.len() as int),
        forall|q: int| 0 <= q < found@.len() ==> (#[trigger] found@[q]).0 <= found@[q].1,
    ensures
        r@ == rel_tokens(found@, source@, 0, 0, 0),
{
    let ghost cs = source@;
    let mut tokens: Vec<SemanticToken> = Vec::new();
    let mut last_line: u32 = 0;
    let mut last_col: u32 = 0;
    let mut k: usize = 0;
    while k < found.len()
        invariant
            cs == source@,
            crate::position::line_col_fits(cs, cs.len() as int),
            forall|q: int| 0 <= q < found@.len() ==> (#[trigger] found@[q]).0 <= found@[q].1,
            k <= found@.len(),
            tokens@ + rel_tokens(found@, cs, k as int, last_line, last_col) == rel_tokens(found@, cs, 0, 0, 0),
        decreases found@.len() - k,
    {
        let (start, end, token_type) = found[k];
        proof {
            crate::position::lemma_chars_before_bounds(cs, start as int, 0);
            crate::position::lemma_chars_before_bounds(cs, end as int, 0);
            lemma_pos_order(cs, start as int, end as int);
        }
        let start_pos = crate::position::offset_to_position(source, start);
        let end_pos = crate::position::offset_to_position(source, end);
        let ghost rest = rel_tokens(found@, cs, k as int, last_line, last_col);
        let ghost before = tokens@;
        if start_pos.line == end_pos.line {
            let delta_line: u32 = if start_pos.line >= last_line { start_pos.line - last_line } else { 0 };
            let delta_start: u32 = if delta_line == 0 {
                if start_pos.character >= last_col { start_pos.character - last_col } else { 0 }
            } else {
                start_pos.character
            };
            let diff = end_pos.character - start_pos.character;
            let length = if diff >= 1 { diff } else { 1 };
            tokens.push(
                SemanticToken { delta_line, delta_start, length, token_type, token_modifiers_bitset: 0 },
            );
            last_line = start_pos.line;
            last_col = start_pos.character;
        } else {
            let mut li: u64 = start_pos.line as u64;
            let ghost ll0 = last_line;
            let ghost lc0 = last_col;
            while li <= end_pos.line as u64
                invariant
                    cs == source@,
                    start_pos.line <= li <= end_pos.line as int + 1,
                    tokens@ + span_lines(cs, start_pos.line, start_pos.character, end_pos.line, end_pos.character, token_type, li as int, last_line, last_col).0
                        == before + span_lines(cs, start_pos.line, start_pos.character, end_pos.line, end_pos.character, token_type, start_pos.line as int, ll0, lc0).0,
                    span_lines(cs, start_pos.line, start_pos.character, end_pos.line, end_pos.character, token_type, li as int, last_line, last_col).1
                        == span_lines(cs, start_pos.line, start_pos.character, end_pos.line, end_pos.character, token_type, start_pos.line as int, ll0, lc0).1,
                    span_lines(cs, start_pos.line, start_pos.character, end_pos.line, end_pos.character, token_type, li as int, last_line, last_col).2
                        == span_lines(cs, start_pos.line, start_pos.character, end_pos.line, end_pos.character, token_type, start_pos.line as int, ll0, lc0).2,
                decreases end_pos.line as int + 1 - li,
            {
                let line_idx = li as u32;
                let delta_line: u32 = if line_idx >= last_line { line_idx - last_line } else { 0 };
                let count = line_char_count(source, line_idx);
                let (start_char, length) = if line_idx == start_pos.line {
                    let c = count as u32;
                    (start_pos.character, if c >= start_pos.character { c - start_pos.character } else { 0 })
                } else if line_idx == end_pos.line {
                    (0u32, end_pos.character)
                } else {
                    (0u32, count as u32)
                };
                let ghost prev = tokens@;
                if length > 0 {
                    let delta_start: u32 = if delta_line == 0 {
                        if start_char >= last_col { start_char - last_col } else { 0 }
                    } else {
                        start_char
                    };
                    tokens.push(SemanticToken { delta_line, delta_start, length, token_type, token_modifiers_bitset: 0 });
                    last_line = line_idx;
                    last_col = start_char;
                }
                li = li + 1;
            }
        }
        k = k + 1;
        proof {
            assert(tokens@ + rel_tokens(found@, cs, k as int, last_line, last_col) =~= before + rest);
        }
    }
    proof {
        assert(tokens@ =~= tokens@ + Seq::<SemanticToken>::empty());
    }
    tokens
}

// ---------------------------------------------------------------------------
// Whole documents
// ---------------------------------------------------------------------------

/// The sorted tokens of the first `k` code blocks, block after block.
pub open spec fn blocks_tokens(
    m: Map<Seq<char>, std::sync::Arc<crate::function::Function>>,
    b: Seq<u8>,
    regions: Seq<(int, int)>,
    colors: bool,
    k: int,
) -> Seq<(usize, usize, u32)>
    decreases k,
{
    if k <= 0 || k > regions.len() {
        Seq::empty()
    } else {
        let (s, e) = regions[k - 1];
        let code = b.subrange(s, e);
        blocks_tokens(m, b, regions, colors, k - 1) + stable_sort(
            code_tokens(m, code, char_table(decode_utf8(code)), s, colors, 0, 0),
        )
    }
}

/// The semantic tokens of the given code blocks of a document (byte ranges
/// in order, not overlapping, on character boundaries), in the editor
/// protocol's relative encoding.
pub fn semantic_tokens_in_regions(
    source: &str,
    regions: &Vec<(usize, usize)>,
    use_function_colors: bool,
    manager: &MetadataManager,
) -> (r: Vec<SemanticToken>)
    requires
        crate::position::line_col_fits(source@, source@.len() as int),
        source.spec_bytes().len() <= u32::MAX,
        source.spec_bytes().len() <= usize::MAX,
        regions_ordered(regions@, source.spec_bytes()),
    ensures
        r@ == rel_tokens(
            blocks_tokens(
                manager.functions(),
                source.spec_bytes(),
                region_view(regions@),
                use_function_colors,
                region_view(regions@).len() as int,
            ),
            source@,
            0,
            0,
            0,
        ),
{
    let ghost b = source.spec_bytes();
    let ghost m = manager.functions();
    let ghost rg = region_view(regions@);
    let mut tokens: Vec<(usize, usize, u32)> = Vec::new();
    let mut k: usize = 0;
    while k < regions.len()
        invariant
            b == source.spec_bytes(),
            m == manager.functions(),
            b.len() <= u32::MAX,
            b.len() <= usize::MAX,
            rg == region_view(regions@),
            regions_ordered(regions@, b),
            k <= regions@.len(),
            tokens@ == blocks_tokens(m, b, rg, use_function_colors, k as int),
            forall|q: int| 0 <= q < tokens@.len() ==> (#[trigger] tokens@[q]).0 <= tokens@[q].1,
        decreases regions@.len() - k,
    {
        let (s, e) = regions[k];
        let code = substr(source, s, e);
        let mut part = extract_tokens_from_code(code, s, use_function_colors, manager);
        let ghost before = tokens@;
        let ghost pt = part@;
        tokens.append(&mut part);
        proof {
            assert(rg[k as int] == (s as int, e as int));
            assert(tokens@ == before + pt);
            assert forall|q: int| 0 <= q < tokens@.len() implies (#[trigger] tokens@[q]).0 <= tokens@[q].1 by {
                if q >= before.len() {
                    assert(tokens@[q] == pt[q - before.len()]);
                }
            }
        }
        k = k + 1;
    }
    to_relative_tokens(tokens.as_slice(), source)
}

/// Processes document content to produce the semantic tokens of its code
/// blocks in the editor protocol's relative encoding.
pub fn extract_semantic_tokens_with_colors(
    source: &str,
    use_function_colors: bool,
    manager: &MetadataManager,
) -> (r: Vec<SemanticToken>)
    requires
        crate::position::line_col_fits(source@, source@.len() as int),
        source.spec_bytes().len() <= u32::MAX,
        source.spec_bytes().len() <= usize::MAX,
    ensures
        r@ == rel_tokens(
            blocks_tokens(
                manager.functions(),
                source.spec_bytes(),
                code_block_regions(source@),
                use_function_colors,
                code_block_regions(source@).len() as int,
            ),
            source@,
            0,
            0,
            0,
        ),
{
    let regions = code_block_spans(source);
    semantic_tokens_in_regions(source, &regions, use_function_colors, manager)
}

/// Where the name of a call starts in its text: after the `$` and the
/// modifiers `!`, `#` and `@[...]`; 0 for an empty text.
pub open spec fn name_start_of(raw: Seq<char>) -> int {
    if raw.len() == 0 {
        0
    } else {
        pos_of(char_table(raw), mods_skip(encode_utf8(raw), char_table(raw), 1), encode_utf8(raw).len() as int)
    }
}

/// Finds where the function name starts in the text of a call.
pub fn try_find_name_start(raw_func: &str) -> (r: usize)
    ensures
        r == name_start_of(raw_func@),
        r <= raw_func.spec_bytes().len(),
        is_char_boundary(raw_func.spec_bytes(), r as int),
{
    let chars = crate::chars::char_indices(raw_func);
    proof {
        lemma_char_table(chars@, raw_func@);
        is_char_boundary_start_end_of_seq(raw_func.spec_bytes());
    }
    if chars.len() == 0 {
        return 0;
    }
    let j = skip_char_modifiers(raw_func, chars.as_slice(), 1);
    if j < chars.len() {
        proof {
            lemma_index_facts(chars@, raw_func@, j as int);
        }
        chars[j].0
    } else {
        raw_func.as_bytes().len()
    }
}

// ---------------------------------------------------------------------------
// Highlight ranges
// ---------------------------------------------------------------------------

/// Name-to-colour pairs read as a table, a later pair replacing an earlier one.
pub open spec fn pair_table(l: Seq<(String, String)>) -> Map<Seq<char>, Seq<char>>
    decreases l.len(),
{
    if l.len() == 0 {
        Map::empty()
    } else {
        pair_table(l.drop_last()).insert(l.last().0@, l.last().1@)
    }
}

/// The colour state of the highlighter: how many colours were handed out
/// and, with consistent colours, which name got which.
pub struct ColorState {
    pub index: int,
    pub assigned: Map<Seq<char>, Seq<char>>,
}

/// The name a call is coloured by: the whole call text, or, with consistent
/// colours, `$` and the name without modifiers.
pub open spec fn color_key(raw: Seq<char>, consistent: bool) -> Seq<char> {
    if consistent {
        seq!['$'] + decode_utf8(encode_utf8(raw).subrange(name_start_of(raw), encode_utf8(raw).len() as int))
    } else {
        raw
    }
}

/// The colour a call gets and the state after it: the next colour in turn,
/// or, with consistent colours, the colour its name already has.
pub open spec fn pick_color(colors: Seq<Seq<char>>, key: Seq<char>, consistent: bool, st: ColorState) -> (Seq<char>, ColorState) {
    if consistent && st.assigned.contains_key(key) {
        (st.assigned[key], st)
    } else {
        let c = colors[st.index % (colors.len() as int)];
        (c, ColorState { index: st.index + 1, assigned: if consistent { st.assigned.insert(key, c) } else { st.assigned } })
    }
}

/// One step of the highlighter at character `idx`: comments and escape
/// functions are skipped, a known function call gets a colour.
#[verifier::opaque]
pub open spec fn highlight_step(
    m: Map<Seq<char>, std::sync::Arc<crate::function::Function>>,
    b: Seq<u8>,
    cp: Seq<(usize, char)>,
    off: int,
    colors: Seq<Seq<char>>,
    consistent: bool,
    idx: int,
    st: ColorState,
) -> (Seq<(int, int, Seq<char>)>, int, ColorState) {
    let i = cp[idx].0 as int;
    let dollar = cp[idx].1 == '$' && !spec_is_escaped(b, i);
    if dollar && spec_comment(b, cp, idx) is Some {
        (Seq::empty(), spec_comment(b, cp, idx).unwrap().1, st)
    } else if dollar && spec_escape(b, cp, idx) is Some {
        (Seq::empty(), spec_escape(b, cp, idx).unwrap().2, st)
    } else if dollar && spec_metadata_function(m, b, cp, idx) is Some {
        let (l, cc) = spec_metadata_function(m, b, cp, idx).unwrap();
        let raw = decode_utf8(b.subrange(i, i + l));
        let (c, st2) = pick_color(colors, color_key(raw, consistent), consistent, st);
        (seq![(i + off, i + l + off, c)], idx + cc, st2)
    } else {
        (Seq::empty(), idx + 1, st)
    }
}

/// The highlights of a code block from character `idx` on, and the colour
/// state after it.
pub open spec fn block_highlights(
    m: Map<Seq<char>, std::sync::Arc<crate::function::Function>>,
    b: Seq<u8>,
    cp: Seq<(usize, char)>,
    off: int,
    colors: Seq<Seq<char>>,
    consistent: bool,
    idx: int,
    st: ColorState,
) -> (Seq<(int, int, Seq<char>)>, ColorState)
    decreases if idx < cp.len() { cp.len() - idx } else { 0 },
{
    if idx < 0 || idx >= cp.len() {
        (Seq::empty(), st)
    } else {
        let (h, nx, st2) = highlight_step(m, b, cp, off, colors, consistent, idx, st);
        if nx > idx {
            let rest = block_highlights(m, b, cp, off, colors, consistent, nx, st2);
            (h + rest.0, rest.1)
        } else {
            (h, st2)
        }
    }
}

/// The highlights of the first `k` code blocks and the colour state after them.
pub open spec fn document_highlights(
    m: Map<Seq<char>, std::sync::Arc<crate::function::Function>>,
    b: Seq<u8>,
    regions: Seq<(int, int)>,
    colors: Seq<Seq<char>>,
    consistent: bool,
    k: int,
) -> (Seq<(int, int, Seq<char>)>, ColorState)
    decreases k,
{
    if k <= 0 || k > regions.len() {
        (Seq::empty(), ColorState { index: 0, assigned: Map::empty() })
    } else {
        let prev = document_highlights(m, b, regions, colors, consistent, k - 1);
        let (s, e) = regions[k - 1];
        let code = b.subrange(s, e);
        let cur = block_highlights(m, code, char_table(decode_utf8(code)), s, colors, consistent, 0, prev.1);
        (prev.0 + cur.0, cur.1)
    }
}

/// The highlights as integer triples with the colour's characters.
pub open spec fn highlight_view(v: Seq<(usize, usize, String)>) -> Seq<(int, int, Seq<char>)> {
    v.map_values(|h: (usize, usize, String)| (h.0 as int, h.1 as int, h.2@))
}

/// Looks up the colour given to a name.
fn assigned_color(l: &Vec<(String, String)>, key: &str) -> (r: Option<String>)
    ensures
        r is Some <==> pair_table(l@).contains_key(key@),
        r matches Some(c) ==> c@ == pair_table(l@)[key@],
{
    let mut i = l.len();
    while i > 0
        invariant
            i <= l@.len(),
            forall|j: int| i <= j < l@.len() ==> (#[trigger] l@[j]).0@ != key@,
        decreases i,
    {
        if crate::text::str_eq(l[i - 1].0.as_str(), key) {
            proof {
                lemma_pair_table_prefix(l@, i as int, key@);
                let t = l@.take(i as int);
                assert(t.drop_last() =~= l@.take(i - 1));
            }
            return Some(l[i - 1].1.clone());
        }
        i = i - 1;
    }
    proof {
        lemma_pair_table_prefix(l@, 0, key@);
        assert(l@.take(0) =~= Seq::<(String, String)>::empty());
    }
    None
}

pub proof fn lemma_pair_table_prefix(l: Seq<(String, String)>, i: int, k: Seq<char>)
    requires
        0 <= i <= l.len(),
        forall|j: int| i <= j < l.len() ==> (#[trigger] l[j]).0@ != k,
    ensures
        pair_table(l).contains_key(k) == pair_table(l.take(i)).contains_key(k),
        pair_table(l).contains_key(k) ==> pair_table(l)[k] == pair_table(l.take(i))[k],
    decreases l.len(),
{
    if l.len() == i {
        assert(l.take(i) =~= l);
    } else {
        assert(l.drop_last().take(i) =~= l.take(i));
        lemma_pair_table_prefix(l.drop_last(), i, k);
    }
}

/// One highlighter step at character `idx` (see `highlight_step`).
#[verifier::rlimit(40)]
fn highlight_one(
    code: &str,
    cp: &[(usize, char)],
    idx: usize,
    code_start: usize,
    function_colors: &[String],
    consistent: bool,
    manager: &MetadataManager,
    color_index: &mut usize,
    assigned: &mut Vec<(String, String)>,
) -> (r: (Option<(usize, usize, String)>, usize))
    requires
        idx < cp@.len(),
        indexes(cp@, code@),
        function_colors@.len() > 0,
        code_start + code.spec_bytes().len() <= usize::MAX,
        *old(color_index) <= code_start + cp@[idx as int].0,
    ensures
        ({
            let (h, nx, st2) = highlight_step(
                manager.functions(),
                code.spec_bytes(),
                cp@,
                code_start as int,
                function_colors@.map_values(|c: String| c@),
                consistent,
                idx as int,
                ColorState { index: *old(color_index) as int, assigned: pair_table(old(assigned)@) },
            );
            &&& h == match r.0 {
                Some(t) => seq![(t.0 as int, t.1 as int, t.2@)],
                None => Seq::empty(),
            }
            &&& nx == r.1 as int
            &&& st2 == ColorState { index: *final(color_index) as int, assigned: pair_table(final(assigned)@) }
        }),
        r.1 > idx,
        *final(color_index) <= code_start + pos_of(cp@, r.1 as int, code.spec_bytes().len() as int),
        r.0 matches Some(t) ==> t.0 == code_start + cp@[idx as int].0 && t.0 < t.1 && t.1 == code_start + pos_of(
            cp@,
            r.1 as int,
            code.spec_bytes().len() as int,
        ),
{
    let ghost b = code.spec_bytes();
    let ghost colors = function_colors@.map_values(|c: String| c@);
    let n = code.as_bytes().len();
    let (i, c) = cp[idx];
    proof {
        reveal(highlight_step);
        lemma_index_facts(cp@, code@, idx as int);
        lemma_pos_grows(cp@, code@, idx as int, idx + 1);
    }
    if c == '$' && !is_escaped(code, i) {
        match try_extract_comment(code, idx, cp) {
            Some((end_idx, next_idx)) => {
                proof {
                    lemma_raw_scan_range(b, cp@[idx + 2].0 as int);
                    lemma_index_facts(cp@, code@, idx + 2);
                    lemma_pos_grows(cp@, code@, idx as int, idx + 2);
                    lemma_first_after(cp@, idx as int, end_idx as int);
                    lemma_pos_grows(cp@, code@, idx as int, next_idx as int);
                }
                return (None, next_idx);
            },
            None => {},
        }
        match try_extract_escape(code, idx, cp) {
            Some((_, esc_end, next_idx)) => {
                proof {
                    crate::text::lemma_escape_end_after(b, i as int);
                    lemma_first_after(cp@, idx as int, esc_end as int);
                    lemma_pos_grows(cp@, code@, idx as int, next_idx as int);
                }
                return (None, next_idx);
            },
            None => {},
        }
        match try_extract_metadata_function(code, idx, cp, manager) {
            Some((best_match_len, best_match_char_count)) => {
                proof {
                    lemma_pos_grows(cp@, code@, idx as int, idx + best_match_char_count);
                    if idx + best_match_char_count < cp@.len() {
                        lemma_index_facts(cp@, code@, idx + best_match_char_count);
                    } else {
                        is_char_boundary_start_end_of_seq(b);
                    }
                }
                let raw_func = substr_checked(code, i, i + best_match_len);
                let key = if consistent {
                    let ns = try_find_name_start(raw_func);
                    let rest = substr(raw_func, ns, raw_func.as_bytes().len());
                    proof {
                        is_char_boundary_start_end_of_seq(raw_func.spec_bytes());
                    }
                    dollar_name(rest)
                } else {
                    crate::strings::to_owned(raw_func)
                };
                let color = if consistent {
                    match assigned_color(assigned, key.as_str()) {
                        Some(existing) => existing,
                        None => {
                            let chosen = function_colors[*color_index % function_colors.len()].clone();
                            *color_index = *color_index + 1;
                            let ghost before = assigned@;
                            let ghost key_view = key@;
                            assigned.push((key, chosen.clone()));
                            proof {
                                assert(assigned@.drop_last() =~= before);
                                assert(pair_table(assigned@) == pair_table(before).insert(key_view, chosen@));
                            }
                            chosen
                        },
                    }
                } else {
                    let chosen = function_colors[*color_index % function_colors.len()].clone();
                    *color_index = *color_index + 1;
                    chosen
                };
                return (Some((i + code_start, i + best_match_len + code_start, color)), idx + best_match_char_count);
            },
            None => {},
        }
    }
    (None, idx + 1)
}

/// The slice between two positions that a scan found to be character
/// boundaries of the text.
fn substr_checked(code: &str, s: usize, e: usize) -> (r: &str)
    requires
        s <= e <= code.spec_bytes().len(),
        is_char_boundary(code.spec_bytes(), s as int),
        is_char_boundary(code.spec_bytes(), e as int),
    ensures
        r.spec_bytes() == code.spec_bytes().subrange(s as int, e as int),
        r@ == decode_utf8(code.spec_bytes().subrange(s as int, e as int)),
{
    substr(code, s, e)
}

/// The range from `s` to `e` lies inside one of the regions.
pub open spec fn within_region(s: int, e: int, rg: Seq<(int, int)>) -> bool {
    exists|j: int| 0 <= j < rg.len() && (#[trigger] rg[j]).0 <= s && e <= rg[j].1
}

/// Highlight ranges that are not empty, each inside one of the regions, in
/// order of their starts and not overlapping.
pub open spec fn ranges_in_regions(h: Seq<(usize, usize, String)>, rg: Seq<(int, int)>) -> bool {
    &&& forall|k: int| 0 <= k < h.len() ==> (#[trigger] h[k]).0 < h[k].1 && within_region(h[k].0 as int, h[k].1 as int, rg)
    &&& forall|k: int, l: int| 0 <= k < l < h.len() ==> (#[trigger] h[k]).1 <= (#[trigger] h[l]).0
}

/// The highlight ranges of the given code blocks of a document (byte ranges
/// in order, not overlapping, on character boundaries).
pub fn highlight_ranges_in_regions(
    source: &str,
    regions: &Vec<(usize, usize)>,
    function_colors: &[String],
    consistent_colors: bool,
    manager: &MetadataManager,
) -> (r: Vec<(usize, usize, String)>)
    requires
        source.spec_bytes().len() <= usize::MAX,
        regions_ordered(regions@, source.spec_bytes()),
    ensures
        function_colors@.len() == 0 ==> r@.len() == 0,
        function_colors@.len() > 0 ==> highlight_view(r@) == document_highlights(
            manager.functions(),
            source.spec_bytes(),
            region_view(regions@),
            function_colors@.map_values(|c: String| c@),
            consistent_colors,
            region_view(regions@).len() as int,
        ).0,
        ranges_in_regions(r@, region_view(regions@)),
{
    let mut highlights: Vec<(usize, usize, String)> = Vec::new();
    if function_colors.len() == 0 {
        return highlights;
    }
    let ghost b = source.spec_bytes();
    let ghost m = manager.functions();
    let ghost colors = function_colors@.map_values(|c: String| c@);
    let ghost rg = region_view(regions@);
    let mut color_index: usize = 0;
    let mut assigned: Vec<(String, String)> = Vec::new();
    let mut k: usize = 0;
    proof {
        assert(highlight_view(highlights@) =~= Seq::<(int, int, Seq<char>)>::empty());
        assert(pair_table(assigned@) =~= Map::<Seq<char>, Seq<char>>::empty());
    }
    while k < regions.len()
        invariant
            b == source.spec_bytes(),
            m == manager.functions(),
            colors == function_colors@.map_values(|c: String| c@),
            function_colors@.len() > 0,
            b.len() <= usize::MAX,
            rg == region_view(regions@),
            regions_ordered(regions@, b),
            k <= regions@.len(),
            highlight_view(highlights@) == document_highlights(m, b, rg, colors, consistent_colors, k as int).0,
            (ColorState { index: color_index as int, assigned: pair_table(assigned@) })
                == document_highlights(m, b, rg, colors, consistent_colors, k as int).1,
            k < regions@.len() ==> color_index <= regions@[k as int].0,
            k == regions@.len() && k > 0 ==> color_index <= regions@[k - 1].1,
            ranges_in_regions(highlights@, rg),
            k > 0 ==> forall|x: int| 0 <= x < highlights@.len() ==> (#[trigger] highlights@[x]).1 <= regions@[k - 1].1,
        decreases regions@.len() - k,
    {
        let (s, e) = regions[k];
        let code = substr(source, s, e);
        let chars = crate::chars::char_indices(code);
        let cp = chars.as_slice();
        let ghost cb = b.subrange(s as int, e as int);
        let ghost st0 = ColorState { index: color_index as int, assigned: pair_table(assigned@) };
        let ghost before = highlight_view(highlights@);
        proof {
            lemma_char_table(chars@, code@);
            assert(rg[k as int] == (s as int, e as int));
            if k > 0 {
                assert(regions@[k - 1].1 <= regions@[k as int].0);
            } else {
                assert(highlight_view(highlights@).len() == 0);
            }
            if cp@.len() > 0 {
                lemma_index_facts(cp@, code@, 0);
                assert(cp@[0].0 == crate::chars::byte_offset(code@, 0));
                assert(code@.take(0) =~= Seq::<char>::empty());
            }
        }
        let mut idx: usize = 0;
        while idx < cp.len()
            invariant
                m == manager.functions(),
                colors == function_colors@.map_values(|c: String| c@),
                function_colors@.len() > 0,
                code.spec_bytes() == cb,
                cp@ == char_table(code@),
                indexes(cp@, code@),
                s + cb.len() <= usize::MAX,
                e == s + cb.len(),
                color_index <= s + pos_of(cp@, idx as int, cb.len() as int),
                before + block_highlights(m, cb, cp@, s as int, colors, consistent_colors, 0, st0).0
                    == highlight_view(highlights@) + block_highlights(
                        m,
                        cb,
                        cp@,
                        s as int,
                        colors,
                        consistent_colors,
                        idx as int,
                        (ColorState { index: color_index as int, assigned: pair_table(assigned@) }),
                    ).0,
                rg == region_view(regions@),
                k < regions@.len(),
                rg[k as int] == (s as int, e as int),
                ranges_in_regions(highlights@, rg),
                forall|x: int| 0 <= x < highlights@.len() ==> (#[trigger] highlights@[x]).1 <= s + pos_of(
                    cp@,
                    idx as int,
                    cb.len() as int,
                ),
                block_highlights(m, cb, cp@, s as int, colors, consistent_colors, 0, st0).1 == block_highlights(
                    m,
                    cb,
                    cp@,
                    s as int,
                    colors,
                    consistent_colors,
                    idx as int,
                    (ColorState { index: color_index as int, assigned: pair_table(assigned@) }),
                ).1,
            decreases if idx < cp@.len() { cp@.len() - idx } else { 0 },
        {
            let ghost st = ColorState { index: color_index as int, assigned: pair_table(assigned@) };
            let ghost hv = highlight_view(highlights@);
            let (h, next_idx) = highlight_one(
                code,
                cp,
                idx,
                s,
                function_colors,
                consistent_colors,
                manager,
                &mut color_index,
                &mut assigned,
            );
            proof {
                lemma_pos_grows(cp@, code@, idx as int, next_idx as int);
                lemma_index_facts(cp@, code@, idx as int);
            }
            match h {
                Some(t) => {
                    let ghost h0 = highlights@;
                    proof {
                        assert(rg[k as int].0 <= t.0 && t.1 <= rg[k as int].1);
                        assert(within_region(t.0 as int, t.1 as int, rg));
                    }
                    highlights.push(t);
                    proof {
                        assert(forall|x: int| 0 <= x < h0.len() ==> #[trigger] highlights@[x] == h0[x]);
                    }
                },
                None => {},
            }
            proof {
                assert(highlight_view(highlights@) =~= hv + match h {
                    Some(t) => seq![(t.0 as int, t.1 as int, t.2@)],
                    None => Seq::<(int, int, Seq<char>)>::empty(),
                });
            }
            idx = next_idx;
        }
        proof {
            assert(highlight_view(highlights@) =~= highlight_view(highlights@) + Seq::<(int, int, Seq<char>)>::empty());
            if k + 1 < regions@.len() {
                assert(regions@[k as int].1 <= regions@[k + 1].0);
            }
        }
        k = k + 1;
    }
    highlights
}

/// Identifies the ranges of known function calls in the code blocks and the
/// colour of each: colours are handed out in turn, or, with consistent
/// colours, once per function name (modifiers aside). Without colours there
/// are no ranges.
pub fn extract_highlight_ranges(
    source: &str,
    function_colors: &[String],
    consistent_colors: bool,
    manager: &MetadataManager,
) -> (r: Vec<(usize, usize, String)>)
    requires
        source.spec_bytes().len() <= usize::MAX,
    ensures
        function_colors@.len() == 0 ==> r@.len() == 0,
        function_colors@.len() > 0 ==> highlight_view(r@) == document_highlights(
            manager.functions(),
            source.spec_bytes(),
            code_block_regions(source@),
            function_colors@.map_values(|c: String| c@),
            consistent_colors,
            code_block_regions(source@).len() as int,
        ).0,
        ranges_in_regions(r@, code_block_regions(source@)),
{
    if function_colors.len() == 0 {
        return Vec::new();
    }
    let regions = code_block_spans(source);
    highlight_ranges_in_regions(source, &regions, function_colors, consistent_colors, manager)
}

} // verus!
