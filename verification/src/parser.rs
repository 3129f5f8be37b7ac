//! Parsing of ForgeScript: code-block extraction, function calls with their
//! modifiers and arguments, and the diagnostics found on the way.
//!
//! Positions are byte offsets into the parsed text.

use std::sync::Arc;
use vstd::prelude::*;
use vstd::string::StringSliceAdditionalSpecFns;
use vstd::utf8::*;
use crate::function::{Arg, Function};
use crate::metadata::MetadataManager;
use crate::chars::{byte_offset, lemma_byte_at_char, lemma_byte_offset_step, utf8_width};
use crate::strings::{decimal, decimal_text, has_prefix, lemma_offset_boundary, push_char, push_str, starts_with};
use crate::text::{byte_backslash, byte_dollar, find_escape_function_end, lemma_ascii_byte_boundaries, lemma_escape_end_after, spec_call_prefix, spec_escape_function_end, substr, call_prefix_start, find_matching_bracket_raw};

verus! {

broadcast use vstd::utf8::group_utf8_lib;

/// Captures syntax errors or warnings during the parsing phase.
#[derive(Clone, Debug)]
pub struct Diagnostic {
    pub message: String,
    pub start: usize,
    pub end: usize,
}

/// Token types recognized by the ForgeScript scanner.
#[derive(Clone, Debug, PartialEq, Eq, Structural)]
pub enum TokenKind {
    Text,
    FunctionName,
    Escaped,
    JavaScript,
    Unknown,
}

/// A scanned fragment of source code with corresponding metadata.
#[derive(Clone, Debug, PartialEq, Eq)]
pub struct Token {
    pub kind: TokenKind,
    pub text: String,
    pub start: usize,
    pub end: usize,
}

/// A successfully identified ForgeScript function call.
#[derive(Debug)]
pub struct ParsedFunction {
    pub name: String,
    pub matched: String,
    pub args: Option<Vec<(Vec<ParsedArg>, (usize, usize))>>,
    pub span: (usize, usize),
    pub silent: bool,
    pub negated: bool,
    pub count: Option<usize>,
    pub meta: Arc<Function>,
}

/// Result of a complete parsing pass.
#[derive(Debug)]
pub struct ParseResult {
    pub tokens: Vec<Token>,
    pub diagnostics: Vec<Diagnostic>,
    pub functions: Vec<ParsedFunction>,
}

/// Represent an individual argument, which can be a literal or a nested function.
#[derive(Debug)]
pub enum ParsedArg {
    Literal { text: String },
    Function { func: Box<ParsedFunction> },
}

// ---------------------------------------------------------------------------
// Shifting spans
// ---------------------------------------------------------------------------

/// `n` is `o` with every span, its own and those of its arguments at any
/// depth, moved by `d`; nothing else differs.
pub open spec fn shifted_fn(n: ParsedFunction, o: ParsedFunction, d: int) -> bool
    decreases o, 2int,
{
    &&& n.name == o.name
    &&& n.matched == o.matched
    &&& n.silent == o.silent
    &&& n.negated == o.negated
    &&& n.count == o.count
    &&& n.meta == o.meta
    &&& n.span.0 == o.span.0 + d
    &&& n.span.1 == o.span.1 + d
    &&& match (n.args, o.args) {
        (None, None) => true,
        (Some(nv), Some(ov)) => nv@.len() == ov@.len() && shifted_list(nv@, ov@, 0, d),
        _ => false,
    }
}

/// The argument entries from `i` on are shifted by `d`.
pub open spec fn shifted_list(
    ns: Seq<(Vec<ParsedArg>, (usize, usize))>,
    os: Seq<(Vec<ParsedArg>, (usize, usize))>,
    i: int,
    d: int,
) -> bool
    decreases os, os.len() - i,
{
    if i < 0 || i >= os.len() || i >= ns.len() {
        true
    } else {
        &&& ns[i].1.0 == os[i].1.0 + d
        &&& ns[i].1.1 == os[i].1.1 + d
        &&& ns[i].0@.len() == os[i].0@.len()
        &&& shifted_parts(ns[i].0@, os[i].0@, 0, d)
        &&& shifted_list(ns, os, i + 1, d)
    }
}

/// The argument parts from `j` on are shifted by `d`.
pub open spec fn shifted_parts(np: Seq<ParsedArg>, op: Seq<ParsedArg>, j: int, d: int) -> bool
    decreases op, op.len() - j,
{
    if j < 0 || j >= op.len() || j >= np.len() {
        true
    } else {
        shifted_arg(np[j], op[j], d) && shifted_parts(np, op, j + 1, d)
    }
}

/// One argument part shifted by `d`: a literal is unchanged.
pub open spec fn shifted_arg(n: ParsedArg, o: ParsedArg, d: int) -> bool
    decreases o, 3int,
{
    match (n, o) {
        (ParsedArg::Literal { text: a }, ParsedArg::Literal { text: b }) => a == b,
        (ParsedArg::Function { func: a }, ParsedArg::Function { func: b }) => shifted_fn(*a, *b, d),
        _ => false,
    }
}

/// Every span in `f`, its own and its arguments' at any depth, ends at or before `q`.
pub open spec fn spans_within(f: ParsedFunction, q: int) -> bool
    decreases f, 2int,
{
    &&& f.span.0 <= q
    &&& f.span.1 <= q
    &&& match f.args {
        None => true,
        Some(v) => list_within(v@, 0, q),
    }
}

pub open spec fn list_within(s: Seq<(Vec<ParsedArg>, (usize, usize))>, i: int, q: int) -> bool
    decreases s, s.len() - i,
{
    if i < 0 || i >= s.len() {
        true
    } else {
        s[i].1.0 <= q && s[i].1.1 <= q && parts_within(s[i].0@, 0, q) && list_within(s, i + 1, q)
    }
}

pub open spec fn parts_within(p: Seq<ParsedArg>, j: int, q: int) -> bool
    decreases p, p.len() - j,
{
    if j < 0 || j >= p.len() {
        true
    } else {
        arg_within(p[j], q) && parts_within(p, j + 1, q)
    }
}

pub open spec fn arg_within(a: ParsedArg, q: int) -> bool
    decreases a, 3int,
{
    match a {
        ParsedArg::Literal { .. } => true,
        ParsedArg::Function { func } => spans_within(*func, q),
    }
}

/// An argument entry of `n` is that of `o` shifted by `d`.
pub open spec fn shifted_entry(n: (Vec<ParsedArg>, (usize, usize)), o: (Vec<ParsedArg>, (usize, usize)), d: int) -> bool {
    &&& n.1.0 == o.1.0 + d
    &&& n.1.1 == o.1.1 + d
    &&& n.0@.len() == o.0@.len()
    &&& shifted_parts(n.0@, o.0@, 0, d)
}

pub proof fn lemma_shifted_list_from(
    ns: Seq<(Vec<ParsedArg>, (usize, usize))>,
    os: Seq<(Vec<ParsedArg>, (usize, usize))>,
    i: int,
    d: int,
)
    requires
        ns.len() == os.len(),
        0 <= i <= os.len(),
        forall|k: int| i <= k < os.len() ==> shifted_entry(#[trigger] ns[k], os[k], d),
    ensures
        shifted_list(ns, os, i, d),
    decreases os.len() - i,
{
    if i < os.len() {
        assert(shifted_entry(ns[i], os[i], d));
        lemma_shifted_list_from(ns, os, i + 1, d);
    }
}

pub proof fn lemma_shifted_parts_from(np: Seq<ParsedArg>, op: Seq<ParsedArg>, j: int, d: int)
    requires
        np.len() == op.len(),
        0 <= j <= op.len(),
        forall|k: int| j <= k < op.len() ==> shifted_arg(#[trigger] np[k], op[k], d),
    ensures
        shifted_parts(np, op, j, d),
    decreases op.len() - j,
{
    if j < op.len() {
        assert(shifted_arg(np[j], op[j], d));
        lemma_shifted_parts_from(np, op, j + 1, d);
    }
}

pub proof fn lemma_list_within_at(s: Seq<(Vec<ParsedArg>, (usize, usize))>, i: int, k: int, q: int)
    requires
        list_within(s, i, q),
        0 <= i <= k < s.len(),
    ensures
        s[k].1.0 <= q,
        s[k].1.1 <= q,
        parts_within(s[k].0@, 0, q),
    decreases k - i,
{
    if i < k {
        lemma_list_within_at(s, i + 1, k, q);
    }
}

pub proof fn lemma_parts_within_at(p: Seq<ParsedArg>, j: int, k: int, q: int)
    requires
        parts_within(p, j, q),
        0 <= j <= k < p.len(),
    ensures
        arg_within(p[k], q),
    decreases k - j,
{
    if j < k {
        lemma_parts_within_at(p, j + 1, k, q);
    }
}

pub proof fn lemma_list_within_from(s: Seq<(Vec<ParsedArg>, (usize, usize))>, i: int, q: int)
    requires
        0 <= i <= s.len(),
        forall|k: int|
            i <= k < s.len() ==> (#[trigger] s[k]).1.0 <= q && s[k].1.1 <= q && parts_within(s[k].0@, 0, q),
    ensures
        list_within(s, i, q),
    decreases s.len() - i,
{
    if i < s.len() {
        assert(s[i].1.0 <= q);
        lemma_list_within_from(s, i + 1, q);
    }
}

pub proof fn lemma_parts_within_from(p: Seq<ParsedArg>, j: int, q: int)
    requires
        0 <= j <= p.len(),
        forall|k: int| j <= k < p.len() ==> arg_within(#[trigger] p[k], q),
    ensures
        parts_within(p, j, q),
    decreases p.len() - j,
{
    if j < p.len() {
        assert(arg_within(p[j], q));
        lemma_parts_within_from(p, j + 1, q);
    }
}

/// Shifting by `d` moves the bound on spans by `d`.
pub proof fn lemma_shift_within(n: ParsedFunction, o: ParsedFunction, d: int, q: int)
    requires
        shifted_fn(n, o, d),
        spans_within(o, q),
    ensures
        spans_within(n, q + d),
    decreases o, 2int,
{
    match (n.args, o.args) {
        (Some(nv), Some(ov)) => {
            lemma_shift_within_list(nv@, ov@, 0, d, q);
        },
        _ => {},
    }
}

pub proof fn lemma_shift_within_list(
    ns: Seq<(Vec<ParsedArg>, (usize, usize))>,
    os: Seq<(Vec<ParsedArg>, (usize, usize))>,
    i: int,
    d: int,
    q: int,
)
    requires
        ns.len() == os.len(),
        0 <= i <= os.len(),
        shifted_list(ns, os, i, d),
        list_within(os, i, q),
    ensures
        list_within(ns, i, q + d),
    decreases os, os.len() - i,
{
    if i < os.len() {
        lemma_shift_within_parts(ns[i].0@, os[i].0@, 0, d, q);
        lemma_shift_within_list(ns, os, i + 1, d, q);
    }
}

pub proof fn lemma_shift_within_parts(np: Seq<ParsedArg>, op: Seq<ParsedArg>, j: int, d: int, q: int)
    requires
        np.len() == op.len(),
        0 <= j <= op.len(),
        shifted_parts(np, op, j, d),
        parts_within(op, j, q),
    ensures
        parts_within(np, j, q + d),
    decreases op, op.len() - j,
{
    if j < op.len() {
        assert(shifted_arg(np[j], op[j], d));
        assert(arg_within(op[j], q));
        match (np[j], op[j]) {
            (ParsedArg::Function { func: a }, ParsedArg::Function { func: b }) => {
                assert(shifted_fn(*a, *b, d));
                lemma_shift_within(*a, *b, d, q);
            },
            _ => {},
        }
        assert(arg_within(np[j], q + d));
        lemma_shift_within_parts(np, op, j + 1, d, q);
    }
}

/// A copy of `f` with every span moved by `d`.
fn shifted_copy(f: &ParsedFunction, d: usize) -> (r: ParsedFunction)
    requires
        spans_within(*f, usize::MAX - d),
    ensures
        shifted_fn(r, *f, d as int),
    decreases *f, 2int,
{
    let args = match &f.args {
        Some(v) => Some(shifted_list_copy(v, d)),
        None => None,
    };
    ParsedFunction {
        name: f.name.clone(),
        matched: f.matched.clone(),
        args,
        span: (f.span.0 + d, f.span.1 + d),
        silent: f.silent,
        negated: f.negated,
        count: f.count,
        meta: crate::trie::share(&f.meta),
    }
}

fn shifted_list_copy(v: &Vec<(Vec<ParsedArg>, (usize, usize))>, d: usize) -> (r: Vec<(Vec<ParsedArg>, (usize, usize))>)
    requires
        list_within(v@, 0, usize::MAX - d),
    ensures
        r@.len() == v@.len(),
        shifted_list(r@, v@, 0, d as int),
    decreases *v, 1int,
{
    let mut out: Vec<(Vec<ParsedArg>, (usize, usize))> = Vec::new();
    let mut i: usize = 0;
    while i < v.len()
        invariant
            i <= v@.len(),
            out@.len() == i,
            list_within(v@, 0, usize::MAX - d),
            forall|k: int| 0 <= k < i ==> shifted_entry(#[trigger] out@[k], v@[k], d as int),
        decreases v@.len() - i,
    {
        proof {
            lemma_list_within_at(v@, 0, i as int, (usize::MAX - d) as int);
        }
        let parts = shifted_parts_copy(&v[i].0, d);
        let span = (v[i].1.0 + d, v[i].1.1 + d);
        out.push((parts, span));
        i = i + 1;
    }
    proof {
        lemma_shifted_list_from(out@, v@, 0, d as int);
    }
    out
}

fn shifted_parts_copy(p: &Vec<ParsedArg>, d: usize) -> (r: Vec<ParsedArg>)
    requires
        parts_within(p@, 0, usize::MAX - d),
    ensures
        r@.len() == p@.len(),
        shifted_parts(r@, p@, 0, d as int),
    decreases *p, 1int,
{
    let mut out: Vec<ParsedArg> = Vec::new();
    let mut j: usize = 0;
    while j < p.len()
        invariant
            j <= p@.len(),
            out@.len() == j,
            parts_within(p@, 0, usize::MAX - d),
            forall|k: int| 0 <= k < j ==> shifted_arg(#[trigger] out@[k], p@[k], d as int),
        decreases p@.len() - j,
    {
        proof {
            lemma_parts_within_at(p@, 0, j as int, (usize::MAX - d) as int);
        }
        let a = shifted_arg_copy(&p[j], d);
        out.push(a);
        j = j + 1;
    }
    proof {
        lemma_shifted_parts_from(out@, p@, 0, d as int);
    }
    out
}

fn shifted_arg_copy(a: &ParsedArg, d: usize) -> (r: ParsedArg)
    requires
        arg_within(*a, usize::MAX - d),
    ensures
        shifted_arg(r, *a, d as int),
    decreases *a, 1int,
{
    match a {
        ParsedArg::Literal { text } => ParsedArg::Literal { text: text.clone() },
        ParsedArg::Function { func } => ParsedArg::Function { func: Box::new(shifted_copy(func, d)) },
    }
}

/// Every span is at most `usize::MAX`.
pub proof fn lemma_within_max(f: ParsedFunction)
    ensures
        spans_within(f, usize::MAX as int),
    decreases f, 2int,
{
    if let Some(v) = f.args {
        lemma_list_within_max(v@, 0);
    }
}

pub proof fn lemma_list_within_max(s: Seq<(Vec<ParsedArg>, (usize, usize))>, i: int)
    requires
        0 <= i <= s.len(),
    ensures
        list_within(s, i, usize::MAX as int),
    decreases s, s.len() - i,
{
    if i < s.len() {
        lemma_parts_within_max(s[i].0@, 0);
        lemma_list_within_max(s, i + 1);
    }
}

pub proof fn lemma_parts_within_max(p: Seq<ParsedArg>, j: int)
    requires
        0 <= j <= p.len(),
    ensures
        parts_within(p, j, usize::MAX as int),
    decreases p, p.len() - j,
{
    if j < p.len() {
        if let ParsedArg::Function { func } = p[j] {
            lemma_within_max(*func);
        }
        assert(arg_within(p[j], usize::MAX as int));
        lemma_parts_within_max(p, j + 1);
    }
}

impl ParsedFunction {
    /// Adjusts the byte offsets for this function and its arguments.
    pub fn offset_spans(&mut self, offset: usize)
        requires
            spans_within(*old(self), usize::MAX - offset),
        ensures
            shifted_fn(*final(self), *old(self), offset as int),
    {
        let moved = shifted_copy(self, offset);
        *self = moved;
    }

    /// A copy of this function and its arguments.
    pub fn copy(&self) -> (r: ParsedFunction)
        ensures
            shifted_fn(r, *self, 0),
    {
        proof {
            lemma_within_max(*self);
        }
        shifted_copy(self, 0)
    }
}

impl ParsedArg {
    /// Adjusts the byte offsets of a nested function; a literal is unchanged.
    pub fn offset_spans(&mut self, offset: usize)
        requires
            arg_within(*old(self), usize::MAX - offset),
        ensures
            shifted_arg(*final(self), *old(self), offset as int),
    {
        let moved = shifted_arg_copy(self, offset);
        *self = moved;
    }
}

// ---------------------------------------------------------------------------
// Code blocks
// ---------------------------------------------------------------------------

/// Scanning blocks from `idx`, whose first character is at `cur` in the
/// joined text (each block followed by one newline): the block holding
/// `position` and the offset within it, where the end of a block and the
/// newline after it are the block's end; past the end, the last block and
/// its length.
pub open spec fn block_of(position: int, lens: Seq<usize>, idx: int, cur: int) -> (int, int)
    decreases lens.len() - idx,
{
    if idx < 0 || idx >= lens.len() {
        let last = if lens.len() == 0 { 0 } else { lens.len() - 1 };
        (last, if last < lens.len() { lens[last] as int } else { 0 })
    } else if position <= cur + lens[idx] {
        (idx, position - cur)
    } else {
        block_of(position, lens, idx + 1, cur + lens[idx] + 1)
    }
}

/// The block scan from `idx` stays within `usize` and never looks for a
/// position before the block it lands in.
pub open spec fn block_scan_fits(position: int, lens: Seq<usize>, idx: int, cur: int) -> bool
    decreases lens.len() - idx,
{
    if idx < 0 || idx >= lens.len() {
        true
    } else {
        &&& cur + lens[idx] <= usize::MAX
        &&& if position <= cur + lens[idx] {
            position >= cur
        } else {
            cur + lens[idx] + 1 <= usize::MAX && block_scan_fits(position, lens, idx + 1, cur + lens[idx] + 1)
        }
    }
}

/// Maps a global character position back to a specific code block and local offset.
pub fn map_to_block(position: usize, block_lengths: &[usize]) -> (r: (usize, usize))
    requires
        block_scan_fits(position as int, block_lengths@, 0, 0),
    ensures
        (r.0 as int, r.1 as int) == block_of(position as int, block_lengths@, 0, 0),
{
    let ghost lens = block_lengths@;
    let mut current_pos: usize = 0;
    let mut idx: usize = 0;
    while idx < block_lengths.len()
        invariant
            lens == block_lengths@,
            idx <= lens.len(),
            block_of(position as int, lens, 0, 0) == block_of(position as int, lens, idx as int, current_pos as int),
            block_scan_fits(position as int, lens, idx as int, current_pos as int),
        decreases lens.len() - idx,
    {
        let length = block_lengths[idx];
        let block_end = current_pos + length;
        if position <= block_end {
            return (idx, position - current_pos);
        }
        current_pos = block_end + 1;
        idx = idx + 1;
    }
    let last_idx = if block_lengths.len() == 0 { 0 } else { block_lengths.len() - 1 };
    (last_idx, if last_idx < block_lengths.len() { block_lengths[last_idx] } else { 0 })
}

/// The bytes of the directive `$c[fs@ignore-error]`.
pub open spec fn ignore_directive() -> Seq<u8> {
    encode_utf8("$c[fs@ignore-error]"@)
}

/// Checks for the presence of a diagnostic suppression directive at the `$`
/// at `dollar_idx`; returns where the directive ends.
pub fn is_ignore_error_directive(code: &str, dollar_idx: usize) -> (r: Option<usize>)
    requires
        dollar_idx <= code.spec_bytes().len(),
        is_char_boundary(code.spec_bytes(), dollar_idx as int),
    ensures
        r == (if has_prefix(code.spec_bytes().subrange(dollar_idx as int, code.spec_bytes().len() as int), ignore_directive()) {
            Some((dollar_idx + ignore_directive().len()) as usize)
        } else {
            None::<usize>
        }),
{
    let n = code.as_bytes().len();
    proof {
        is_char_boundary_start_end_of_seq(code.spec_bytes());
    }
    let rest = substr(code, dollar_idx, n);
    let directive = "$c[fs@ignore-error]";
    if starts_with(rest, directive) {
        Some(dollar_idx + directive.as_bytes().len())
    } else {
        None
    }
}

// ---------------------------------------------------------------------------
// Bracket and escape helpers
// ---------------------------------------------------------------------------

/// Scans from `i` with `depth` braces open so far; the `}` at which the count
/// returns to zero.
pub open spec fn brace_scan(b: Seq<u8>, i: int, depth: int) -> Option<int>
    decreases b.len() - i,
{
    if i < 0 || i >= b.len() {
        None
    } else if b[i] == 0x7bu8 {
        brace_scan(b, i + 1, depth + 1)
    } else if b[i] == 0x7du8 {
        if depth - 1 == 0 {
            Some(i)
        } else {
            brace_scan(b, i + 1, depth - 1)
        }
    } else {
        brace_scan(b, i + 1, depth)
    }
}

pub proof fn lemma_brace_scan_range(b: Seq<u8>, i: int, depth: int)
    ensures
        brace_scan(b, i, depth) matches Some(k) ==> i <= k < b.len() && b[k] == 0x7du8,
    decreases b.len() - i,
{
    if 0 <= i < b.len() {
        lemma_brace_scan_range(b, i + 1, depth + 1);
        lemma_brace_scan_range(b, i + 1, depth - 1);
        lemma_brace_scan_range(b, i + 1, depth);
    }
}

/// Finds the `}` that closes the brace at `open`, counting braces from there on.
pub fn find_matching_brace(code: &str, open: usize) -> (r: Option<usize>)
    requires
        code.spec_bytes().len() <= i32::MAX,
    ensures
        crate::text::same_pos(r, brace_scan(code.spec_bytes(), open as int, 0)),
        r matches Some(k) ==> open <= k < code.spec_bytes().len(),
{
    let bytes = code.as_bytes();
    let ghost b = bytes@;
    let mut depth: i32 = 0;
    let mut i = open;
    proof {
        lemma_brace_scan_range(b, open as int, 0);
    }
    while i < bytes.len()
        invariant
            b == bytes@,
            b == code.spec_bytes(),
            b.len() <= i32::MAX,
            open <= i,
            -(i - open) <= depth <= i - open,
            brace_scan(b, open as int, 0) == brace_scan(b, i as int, depth as int),
        decreases b.len() - i,
    {
        let c = bytes[i];
        if c == 0x7bu8 {
            depth = depth + 1;
        } else if c == 0x7du8 {
            depth = depth - 1;
            if depth == 0 {
                return Some(i);
            }
        }
        i = i + 1;
    }
    None
}

/// A `[` at `k` of an argument text opens a call: it follows `$`, modifiers
/// and a name, and that `$` does not directly follow a backslash.
pub open spec fn spec_is_call_bracket_in_args(b: Seq<u8>, k: int) -> bool {
    match spec_call_prefix(b, k) {
        Some(i) => i > 0 && b[i - 1] == byte_dollar() && (i == 1 || b[i - 2] != byte_backslash()),
        None => false,
    }
}

/// Whether the `[` at `idx` of an argument text opens a function call.
pub fn is_function_call_bracket_sub(input: &str, idx: usize) -> (r: bool)
    ensures
        r == spec_is_call_bracket_in_args(input.spec_bytes(), idx as int),
{
    let b = input.as_bytes();
    match call_prefix_start(b, idx) {
        Some(i) => i > 0 && b[i - 1] == 0x24u8 && (i == 1 || b[i - 2] != 0x5cu8),
        None => false,
    }
}

/// The character at `idx` follows two backslashes.
pub fn is_escaped_bracket_in_args(chars: &[(usize, char)], idx: usize) -> (r: bool)
    ensures
        r == (2 <= idx && idx - 1 < chars@.len() && chars@[idx - 2].1 == '\\' && chars@[idx - 1].1 == '\\'),
{
    if idx < 2 {
        return false;
    }
    if idx - 1 < chars.len() {
        chars[idx - 2].1 == '\\' && chars[idx - 1].1 == '\\'
    } else {
        false
    }
}

/// Where an escape function starting at `idx` of `b` ends, counted from `idx`.
pub open spec fn escape_end_from(b: Seq<u8>, idx: int) -> Option<int> {
    if 0 <= idx < b.len() && b[idx] == byte_dollar() {
        spec_escape_function_end(b.subrange(idx, b.len() as int), 0)
    } else {
        None
    }
}

/// At nesting depth zero, an escape function (`$esc[...]` and the like) at
/// `idx` is copied whole into `current`; returns how far to advance.
pub fn try_handle_escape_function_in_args(input: &str, idx: usize, depth: i32, current: &mut String) -> (r: Option<usize>)
    ensures
        r is Some <==> (depth == 0 && escape_end_from(input.spec_bytes(), idx as int) is Some),
        r matches Some(j) ==> {
            &&& escape_end_from(input.spec_bytes(), idx as int) == Some(j - 1)
            &&& final(current)@ == old(current)@ + decode_utf8(input.spec_bytes().subrange(idx as int, idx + j))
        },
        r is None ==> final(current)@ == old(current)@,
{
    let b = input.as_bytes();
    let ghost bs = b@;
    if idx < b.len() && b[idx] == 0x24u8 && depth == 0 {
        proof {
            lemma_ascii_byte_boundaries(bs, idx as int);
            is_char_boundary_start_end_of_seq(bs);
        }
        let tail = substr(input, idx, b.len());
        match find_escape_function_end(tail, 0) {
            Some(e) => {
                proof {
                    assert(tail.spec_bytes() =~= bs.subrange(idx as int, bs.len() as int));
                    lemma_escape_end_after(tail.spec_bytes(), 0);
                    assert(bs[idx + e] == tail.spec_bytes()[e as int]);
                    lemma_ascii_byte_boundaries(bs, idx + e);
                }
                let piece = substr(input, idx, idx + e + 1);
                push_str(current, piece);
                return Some(e + 1);
            },
            None => {
                assert(tail.spec_bytes() =~= bs.subrange(idx as int, bs.len() as int));
            },
        }
    }
    None
}

/// One of the characters that a doubled backslash escapes in arguments.
pub open spec fn is_arg_escapable(c: char) -> bool {
    c == '$' || c == '[' || c == ']' || c == ';' || c == '\\'
}

/// Copies a backslash escape at `col` into `current`: `` \` `` and `\\x` for an
/// escapable `x` are kept whole, any other backslash alone; returns how far to
/// advance.
pub fn try_handle_backslash_escape_in_args(
    chars: &[(usize, char)],
    col: usize,
    _start: bool,
    current: &mut String,
    _first: &mut bool,
) -> (r: Option<usize>)
    ensures
        *final(_first) == *old(_first),
        if col + 1 < chars@.len() && chars@[col + 1].1 == '`' {
            r == Some(2usize) && final(current)@ == old(current)@ + seq!['\\', '`']
        } else if col + 2 < chars@.len() && chars@[col + 1].1 == '\\' && is_arg_escapable(chars@[col + 2].1) {
            r == Some(3usize) && final(current)@ == old(current)@ + seq!['\\', '\\', chars@[col + 2].1]
        } else {
            r == Some(1usize) && final(current)@ == old(current)@.push('\\')
        },
{
    let ghost before = current@;
    if col < chars.len() && col + 1 < chars.len() {
        let next = chars[col + 1].1;
        if next == '`' {
            push_char(current, '\\');
            push_char(current, '`');
            assert(current@ =~= before + seq!['\\', '`']);
            return Some(2);
        }
        if next == '\\' && col + 2 < chars.len() {
            let third = chars[col + 2].1;
            if third == '$' || third == '[' || third == ']' || third == ';' || third == '\\' {
                push_char(current, '\\');
                push_char(current, '\\');
                push_char(current, third);
                assert(current@ =~= before + seq!['\\', '\\', third]);
                return Some(3);
            }
        }
    }
    push_char(current, '\\');
    Some(1)
}

// ---------------------------------------------------------------------------
// Argument counts
// ---------------------------------------------------------------------------

/// Number of arguments marked required among the first `k`.
pub open spec fn required_count(args: Seq<Arg>, k: int) -> int
    decreases k,
{
    if k <= 0 || k > args.len() {
        0
    } else {
        required_count(args, k - 1) + if args[k - 1].required == Some(true) { 1int } else { 0int }
    }
}

/// Some argument takes the rest of the arguments.
pub open spec fn has_rest(args: Option<Vec<Arg>>) -> bool {
    match args {
        Some(v) => exists|i: int| 0 <= i < v@.len() && (#[trigger] v@[i]).rest,
        None => false,
    }
}

/// The fewest and most arguments a function accepts.
pub open spec fn arg_bounds(meta: Function) -> (int, int) {
    let min = match meta.args {
        Some(v) => required_count(v@, v@.len() as int),
        None => 0,
    };
    let max = if has_rest(meta.args) {
        usize::MAX as int
    } else {
        match meta.args {
            Some(v) => v@.len() as int,
            None => 0,
        }
    };
    (min, max)
}

pub proof fn lemma_required_count_bounds(args: Seq<Arg>, k: int)
    requires
        0 <= k <= args.len(),
    ensures
        0 <= required_count(args, k) <= k,
    decreases k,
{
    if k > 0 {
        lemma_required_count_bounds(args, k - 1);
    }
}

/// The fewest and most arguments the metadata allows.
pub fn compute_arg_counts(meta: &Function) -> (r: (usize, usize))
    ensures
        (r.0 as int, r.1 as int) == arg_bounds(*meta),
{
    match &meta.args {
        Some(v) => {
            let mut min: usize = 0;
            let mut rest = false;
            let mut i: usize = 0;
            while i < v.len()
                invariant
                    i <= v@.len(),
                    min == required_count(v@, i as int),
                    min <= i,
                    rest == exists|j: int| 0 <= j < i && (#[trigger] v@[j]).rest,
                decreases v@.len() - i,
            {
                if v[i].required == Some(true) {
                    min = min + 1;
                }
                if v[i].rest {
                    rest = true;
                }
                i = i + 1;
            }
            let max = if rest { usize::MAX } else { v.len() };
            (min, max)
        },
        None => (0, 0),
    }
}

/// The message of a call with too few (`too_few`) or too many arguments.
pub open spec fn arg_count_message(name: Seq<char>, too_few: bool, limit: nat, tot: nat) -> Seq<char> {
    seq!['$'] + name + (if too_few { " expects at least "@ } else { " expects at most "@ }) + decimal_text(limit)
        + " args, got "@ + decimal_text(tot)
}

/// Reports a call with fewer than `min` or (without rest arguments) more than
/// `max` arguments, unless diagnostics are suppressed.
pub fn validate_arg_count(
    name: &str,
    tot: usize,
    min: usize,
    max: usize,
    rest: bool,
    diags: &mut Vec<Diagnostic>,
    span: (usize, usize),
    _src: &str,
    ignore: bool,
)
    ensures
        if !ignore && tot < min {
            &&& final(diags)@.len() == old(diags)@.len() + 1
            &&& final(diags)@.drop_last() == old(diags)@
            &&& final(diags)@.last().message@ == arg_count_message(name@, true, min as nat, tot as nat)
            &&& final(diags)@.last().start == span.0 && final(diags)@.last().end == span.1
        } else if !ignore && !rest && tot > max {
            &&& final(diags)@.len() == old(diags)@.len() + 1
            &&& final(diags)@.drop_last() == old(diags)@
            &&& final(diags)@.last().message@ == arg_count_message(name@, false, max as nat, tot as nat)
            &&& final(diags)@.last().start == span.0 && final(diags)@.last().end == span.1
        } else {
            final(diags)@ == old(diags)@
        },
        diags_kept(old(diags)@, final(diags)@),
{
    if ignore {
        return;
    }
    if tot < min {
        let message = count_message(name, true, min, tot);
        let d = Diagnostic { message, start: span.0, end: span.1 };
        proof {
            lemma_kept_push(diags@, d);
        }
        diags.push(d);
    } else if !rest && tot > max {
        let message = count_message(name, false, max, tot);
        let d = Diagnostic { message, start: span.0, end: span.1 };
        proof {
            lemma_kept_push(diags@, d);
        }
        diags.push(d);
    }
}

fn count_message(name: &str, too_few: bool, limit: usize, tot: usize) -> (r: String)
    ensures
        r@ == arg_count_message(name@, too_few, limit as nat, tot as nat),
{
    let mut m = String::new();
    push_char(&mut m, '$');
    push_str(&mut m, name);
    if too_few {
        push_str(&mut m, " expects at least ");
    } else {
        push_str(&mut m, " expects at most ");
    }
    let a = decimal(limit);
    push_str(&mut m, a.as_str());
    push_str(&mut m, " args, got ");
    let b = decimal(tot);
    push_str(&mut m, b.as_str());
    assert(m@ =~= arg_count_message(name@, too_few, limit as nat, tot as nat));
    m
}

// ---------------------------------------------------------------------------
// Bounds on what a parse produces
// ---------------------------------------------------------------------------

/// Texts short enough that every position computed while parsing them fits
/// in a `usize`, and bracket depths in an `i32`.
pub open spec fn parse_fits(n: int) -> bool {
    0 <= n && n <= i32::MAX && n <= usize::MAX
}

pub open spec fn tokens_within(t: Seq<Token>, n: int) -> bool {
    forall|i: int| 0 <= i < t.len() ==> (#[trigger] t[i]).start <= t[i].end <= n
}

pub open spec fn diags_within(d: Seq<Diagnostic>, n: int) -> bool {
    forall|i: int| 0 <= i < d.len() ==> (#[trigger] d[i]).start <= n && d[i].end <= n
}

pub open spec fn funcs_within(f: Seq<ParsedFunction>, n: int) -> bool {
    forall|i: int|
        0 <= i < f.len() ==> (#[trigger] f[i]).span.0 <= n && f[i].span.1 <= n && spans_within(f[i], n)
}

/// Every position in the result, nested argument spans included, lies
/// within a text of `n` bytes.
pub open spec fn result_within(r: ParseResult, n: int) -> bool {
    &&& tokens_within(r.tokens@, n)
    &&& diags_within(r.diagnostics@, n)
    &&& funcs_within(r.functions@, n)
}

/// Tokens are never empty and come in the order of their starts; a token
/// other than a function name ends at or before the start of every later
/// one. (A function name ends where its match with the known name ends,
/// which passes the name itself when lower-casing changes a character's
/// length.)
pub open spec fn tokens_in_order(t: Seq<Token>) -> bool {
    &&& forall|i: int| 0 <= i < t.len() ==> (#[trigger] t[i]).start < t[i].end
    &&& forall|i: int, j: int| 0 <= i < j < t.len() ==> (#[trigger] t[i]).start <= (#[trigger] t[j]).start
    &&& forall|i: int, j: int|
        0 <= i < j < t.len() && t[i].kind != TokenKind::FunctionName ==> (#[trigger] t[i]).end
            <= (#[trigger] t[j]).start
}

/// Every token starts at or before `p`, and every token other than a
/// function name also ends there.
pub open spec fn tokens_before(t: Seq<Token>, p: int) -> bool {
    forall|i: int|
        0 <= i < t.len() ==> (#[trigger] t[i]).start <= p && (t[i].kind != TokenKind::FunctionName ==> t[i].end <= p)
}

/// A token that starts where the others have ended keeps them in order.
proof fn lemma_push_in_order(t: Seq<Token>, x: Token, p: int)
    requires
        tokens_in_order(t),
        tokens_before(t, p),
        p <= x.start < x.end,
    ensures
        tokens_in_order(t.push(x)),
        forall|q: int|
            p <= q && x.start <= q && (x.kind != TokenKind::FunctionName ==> x.end <= q) ==> #[trigger] tokens_before(
                t.push(x),
                q,
            ),
{
    let u = t.push(x);
    assert forall|i: int, j: int| 0 <= i < j < u.len() implies (#[trigger] u[i]).start <= (#[trigger] u[j]).start
        && (u[i].kind != TokenKind::FunctionName ==> u[i].end <= u[j].start) by {
        if j == t.len() {
            assert(u[i] == t[i]);
        } else {
            assert(u[i] == t[i] && u[j] == t[j]);
        }
    }
    assert forall|i: int| 0 <= i < u.len() implies (#[trigger] u[i]).start < u[i].end by {
        if i < t.len() {
            assert(u[i] == t[i]);
        }
    }
    assert forall|q: int|
        p <= q && x.start <= q && (x.kind != TokenKind::FunctionName ==> x.end <= q) implies #[trigger] tokens_before(
        u,
        q,
    ) by {
        assert forall|i: int| 0 <= i < u.len() implies (#[trigger] u[i]).start <= q && (u[i].kind
            != TokenKind::FunctionName ==> u[i].end <= q) by {
            if i < t.len() {
                assert(u[i] == t[i]);
            }
        }
    }
}

/// A token of plain text, a function name or an unknown call holds the text
/// over its span.
pub open spec fn token_shows_text(x: Token, b: Seq<u8>) -> bool {
    (x.kind == TokenKind::Text || x.kind == TokenKind::FunctionName || x.kind == TokenKind::Unknown) ==> x.text@
        == decode_utf8(b.subrange(x.start as int, x.end as int))
}

/// Every token shows its text (`token_shows_text`) in the text with bytes `b`.
pub open spec fn tokens_show_text(t: Seq<Token>, b: Seq<u8>) -> bool {
    forall|i: int| 0 <= i < t.len() ==> token_shows_text(#[trigger] t[i], b)
}

proof fn lemma_push_shows_text(t: Seq<Token>, x: Token, b: Seq<u8>)
    requires
        tokens_show_text(t, b),
        token_shows_text(x, b),
    ensures
        tokens_show_text(t.push(x), b),
{
    assert forall|i: int| 0 <= i < t.push(x).len() implies token_shows_text(#[trigger] t.push(x)[i], b) by {
        if i < t.len() {
            assert(t.push(x)[i] == t[i]);
        }
    }
}

pub proof fn lemma_parse_fits_smaller(n: int, m: int)
    requires
        parse_fits(n),
        0 <= m <= n,
    ensures
        parse_fits(m),
{
}

/// Moving the result of a strictly shorter text by at most the rest of the
/// text, even twice, stays within the bound of the whole text.

pub proof fn lemma_within_mono(f: ParsedFunction, q1: int, q2: int)
    requires
        spans_within(f, q1),
        q1 <= q2,
    ensures
        spans_within(f, q2),
    decreases f, 2int,
{
    if let Some(v) = f.args {
        lemma_list_within_mono(v@, 0, q1, q2);
    }
}

pub proof fn lemma_list_within_mono(s: Seq<(Vec<ParsedArg>, (usize, usize))>, i: int, q1: int, q2: int)
    requires
        0 <= i <= s.len(),
        list_within(s, i, q1),
        q1 <= q2,
    ensures
        list_within(s, i, q2),
    decreases s, s.len() - i,
{
    if i < s.len() {
        lemma_parts_within_mono(s[i].0@, 0, q1, q2);
        lemma_list_within_mono(s, i + 1, q1, q2);
    }
}

pub proof fn lemma_parts_within_mono(p: Seq<ParsedArg>, j: int, q1: int, q2: int)
    requires
        0 <= j <= p.len(),
        parts_within(p, j, q1),
        q1 <= q2,
    ensures
        parts_within(p, j, q2),
    decreases p, p.len() - j,
{
    if j < p.len() {
        assert(arg_within(p[j], q1));
        if let ParsedArg::Function { func } = p[j] {
            lemma_within_mono(*func, q1, q2);
        }
        assert(arg_within(p[j], q2));
        lemma_parts_within_mono(p, j + 1, q1, q2);
    }
}

/// `cs` lists the characters of `code` with the byte offset at which each starts.
pub open spec fn indexes(cs: Seq<(usize, char)>, code: Seq<char>) -> bool {
    &&& cs.len() == code.len()
    &&& forall|k: int| 0 <= k < cs.len() ==> (#[trigger] cs[k]).1 == code[k] && cs[k].0 == byte_offset(code, k)
}

/// Byte position of the character at index `k`, or the text's length past the end.
pub open spec fn pos_of(cs: Seq<(usize, char)>, k: int, n: int) -> int {
    if 0 <= k < cs.len() {
        cs[k].0 as int
    } else {
        n
    }
}

pub proof fn lemma_index_facts(cs: Seq<(usize, char)>, code: Seq<char>, k: int)
    requires
        indexes(cs, code),
        0 <= k < cs.len(),
    ensures
        cs[k].0 < encode_utf8(code).len(),
        is_char_boundary(encode_utf8(code), cs[k].0 as int),
        cs[k].0 + utf8_width(cs[k].1) == pos_of(cs, k + 1, encode_utf8(code).len() as int),
        1 <= utf8_width(cs[k].1) <= 4,
        ((cs[k].1 as u32) < 0x80) ==> encode_utf8(code)[cs[k].0 as int] == cs[k].1 as u32 as u8,
        ((cs[k].1 as u32) >= 0x80) ==> encode_utf8(code)[cs[k].0 as int] >= 0x80,
{
    lemma_byte_at_char(code, k);
    lemma_byte_offset_step(code, k);
    lemma_offset_boundary(code, k + 1);
    if k + 1 == code.len() {
        assert(code.take(k + 1) =~= code);
    }
    char_is_scalar(cs[k].1);
}

/// Positions grow with character indices, by at least one byte per character.
pub proof fn lemma_pos_grows(cs: Seq<(usize, char)>, code: Seq<char>, i: int, j: int)
    requires
        indexes(cs, code),
        0 <= i <= j,
    ensures
        pos_of(cs, i, encode_utf8(code).len() as int) + (if j <= cs.len() { j - i } else { 0 })
            <= pos_of(cs, j, encode_utf8(code).len() as int),
        pos_of(cs, j, encode_utf8(code).len() as int) <= encode_utf8(code).len(),
    decreases j - i,
{
    let n = encode_utf8(code).len() as int;
    if j < cs.len() {
        lemma_index_facts(cs, code, j);
    }
    if i < j {
        lemma_pos_grows(cs, code, i, j - 1);
        if j - 1 < cs.len() {
            lemma_index_facts(cs, code, j - 1);
        }
    } else if i < cs.len() {
        lemma_index_facts(cs, code, i);
    }
}

/// Advances `k` past the characters that start at or before `end`.
/// The first character index at or after `k` whose character starts after byte `e`.
pub open spec fn skip_to(cs: Seq<(usize, char)>, k: int, e: int) -> int
    decreases cs.len() - k,
{
    if 0 <= k < cs.len() && cs[k].0 <= e {
        skip_to(cs, k + 1, e)
    } else {
        k
    }
}

pub proof fn lemma_skip_to_range(cs: Seq<(usize, char)>, k: int, e: int)
    requires
        0 <= k <= cs.len(),
    ensures
        k <= skip_to(cs, k, e) <= cs.len(),
    decreases cs.len() - k,
{
    if k < cs.len() && cs[k].0 <= e {
        lemma_skip_to_range(cs, k + 1, e);
    }
}

/// The modifiers `!`, `#` and `@[...]` read from character index `k` on:
/// where they end, and whether `!` (silent) and `#` (negated) were among them.
pub open spec fn mods_scan(cs: Seq<(usize, char)>, b: Seq<u8>, k: int, silent: bool, negated: bool) -> (int, bool, bool)
    decreases cs.len() - k,
{
    if k < 0 || k >= cs.len() {
        (k, silent, negated)
    } else if cs[k].1 == '!' {
        mods_scan(cs, b, k + 1, true, negated)
    } else if cs[k].1 == '#' {
        mods_scan(cs, b, k + 1, silent, true)
    } else if cs[k].1 == '@' && k + 1 < cs.len() && cs[k + 1].1 == '[' {
        match crate::text::spec_matching_bracket_raw(b, cs[k + 1].0 as int) {
            Some(e) => {
                proof {
                    lemma_skip_to_range(cs, k + 2, e);
                }
                mods_scan(cs, b, skip_to(cs, k + 2, e), silent, negated)
            },
            None => mods_scan(cs, b, k + 2, silent, negated),
        }
    } else {
        (k, silent, negated)
    }
}

fn skip_through(cs: &Vec<(usize, char)>, k: &mut usize, end: usize)
    requires
        *old(k) <= cs@.len(),
    ensures
        *old(k) <= *final(k) <= cs@.len(),
        *final(k) == cs@.len() || cs@[*final(k) as int].0 > end,
        *final(k) == skip_to(cs@, *old(k) as int, end as int),
{
    while *k < cs.len() && cs[*k].0 <= end
        invariant
            *old(k) <= *k <= cs@.len(),
            skip_to(cs@, *old(k) as int, end as int) == skip_to(cs@, *k as int, end as int),
        decreases cs@.len() - *k,
    {
        *k = *k + 1;
    }
}

/// Advances `k` past the characters that start before `end`.
/// The first character index at or after `k` whose character starts at or after byte `e`.
pub open spec fn skip_below(cs: Seq<(usize, char)>, k: int, e: int) -> int
    decreases cs.len() - k,
{
    if 0 <= k < cs.len() && cs[k].0 < e {
        skip_below(cs, k + 1, e)
    } else {
        k
    }
}

pub proof fn lemma_skip_below_range(cs: Seq<(usize, char)>, k: int, e: int)
    requires
        0 <= k <= cs.len(),
    ensures
        k <= skip_below(cs, k, e) <= cs.len(),
        skip_below(cs, k, e) == cs.len() || cs[skip_below(cs, k, e)].0 >= e,
    decreases cs.len() - k,
{
    if k < cs.len() && cs[k].0 < e {
        lemma_skip_below_range(cs, k + 1, e);
    }
}

fn skip_before(cs: &Vec<(usize, char)>, k: &mut usize, end: usize)
    requires
        *old(k) <= cs@.len(),
    ensures
        *old(k) <= *final(k) <= cs@.len(),
        *final(k) == cs@.len() || cs@[*final(k) as int].0 >= end,
        *final(k) == skip_below(cs@, *old(k) as int, end as int),
{
    while *k < cs.len() && cs[*k].0 < end
        invariant
            *old(k) <= *k <= cs@.len(),
            skip_below(cs@, *old(k) as int, end as int) == skip_below(cs@, *k as int, end as int),
        decreases cs@.len() - *k,
    {
        *k = *k + 1;
    }
}

/// Calls the `Debug` formatting of a list of strings (`format!("{:?}", ..)`):
/// quoted, escaped items between brackets, separated by `, `.
#[verifier::external_body]
fn debug_strings(v: &Vec<String>) -> (r: String)
    ensures
        r@ == debug_text(crate::metadata::names_view(v@)),
{
    format!("{:?}", v)
}

/// What the `Debug` formatting of a list of strings writes.
pub uninterp spec fn debug_text(items: Seq<Seq<char>>) -> Seq<char>;

// ---------------------------------------------------------------------------
// The parser
// ---------------------------------------------------------------------------

/// Main parser for ForgeScript files, capable of extracting code blocks and parsing them.
pub struct ForgeScriptParser<'a> {
    manager: Arc<MetadataManager>,
    code: &'a str,
    skip_extraction: bool,
}

/// A text token.
fn text_token(code: &str, start: usize, end: usize) -> (r: Token)
    requires
        start <= end <= code.spec_bytes().len(),
        is_char_boundary(code.spec_bytes(), start as int),
        is_char_boundary(code.spec_bytes(), end as int),
    ensures
        r.kind == TokenKind::Text,
        r.start == start,
        r.end == end,
        r.text@ == decode_utf8(code.spec_bytes().subrange(start as int, end as int)),
{
    Token { kind: TokenKind::Text, text: crate::strings::to_owned(substr(code, start, end)), start, end }
}

/// A token of the given kind whose text is a slice of the code.
fn slice_token(code: &str, kind: TokenKind, from: usize, to: usize, start: usize, end: usize) -> (r: Token)
    requires
        from <= to <= code.spec_bytes().len(),
        is_char_boundary(code.spec_bytes(), from as int),
        is_char_boundary(code.spec_bytes(), to as int),
    ensures
        r.kind == kind,
        r.start == start,
        r.end == end,
        r.text@ == decode_utf8(code.spec_bytes().subrange(from as int, to as int)),
{
    Token { kind, text: crate::strings::to_owned(substr(code, from, to)), start, end }
}

/// The message `prefix` + `$name` + `suffix`.
fn name_message(prefix: &str, name: &str, suffix: &str) -> (r: String)
    ensures
        r@ == prefix@ + seq!['$'] + name@ + suffix@,
{
    let mut m = crate::strings::to_owned(prefix);
    push_char(&mut m, '$');
    push_str(&mut m, name);
    push_str(&mut m, suffix);
    m
}

/// The metadata recorded for a call of a function that is not known.
fn unknown_function_meta(name: &str) -> (r: Function)
    ensures
        r.name@ == seq!['$'] + name@,
        r.description@ == "Unknown function "@ + seq!['$'] + name@ + ""@,
        r.brackets == Some(true),
        r.args is None,
{
    Function {
        name: crate::strings::dollar_name(name),
        version: crate::strings::to_owned("null"),
        description: name_message("Unknown function ", name, ""),
        brackets: Some(true),
        unwrap: false,
        args: None,
        output: None,
        category: None,
        aliases: None,
        experimental: None,
        examples: None,
        deprecated: None,
        extension: None,
        source_url: None,
        local_path: None,
        line: None,
    }
}

/// Whether any argument takes the rest of the arguments.
fn any_rest(meta: &Function) -> (r: bool)
    ensures
        r == has_rest(meta.args),
{
    match &meta.args {
        Some(v) => {
            let mut found = false;
            let mut i: usize = 0;
            while i < v.len()
                invariant
                    i <= v@.len(),
                    found == exists|j: int| 0 <= j < i && (#[trigger] v@[j]).rest,
                decreases v@.len() - i,
            {
                if v[i].rest {
                    found = true;
                }
                i = i + 1;
            }
            found
        },
        None => false,
    }
}

impl<'a> ForgeScriptParser<'a> {
    /// The text this parser reads.
    pub closed spec fn text(&self) -> &'a str {
        self.code
    }

    /// The metadata this parser consults.
    pub closed spec fn metadata(&self) -> MetadataManager {
        *self.manager
    }

    /// Whether this parser reads code directly rather than extracting `code:` blocks first.
    pub closed spec fn reads_code_directly(&self) -> bool {
        self.skip_extraction
    }

    /// Constructs a parser for a raw source file.
    pub fn new(manager: Arc<MetadataManager>, code: &'a str) -> (r: Self)
        ensures
            r.text() == code,
            r.metadata() == *manager,
            !r.reads_code_directly(),
    {
        ForgeScriptParser { manager, code, skip_extraction: false }
    }

    /// Constructs an internal parser for extracted code fragments.
    fn new_internal(manager: Arc<MetadataManager>, code: &'a str) -> (r: Self)
        ensures
            r.text() == code,
            r.metadata() == *manager,
            r.reads_code_directly(),
    {
        ForgeScriptParser { manager, code, skip_extraction: true }
    }

    /// Primary parsing logic for a flattened stream of ForgeScript code.
    #[verifier::rlimit(100)]
    #[verifier::spinoff_prover]
    fn parse_internal(&self) -> (r: ParseResult)
        requires
            parse_fits(self.code.spec_bytes().len() as int),
        ensures
            result_within(r, self.code.spec_bytes().len() as int),
            !self.code@.contains('$') ==> r.diagnostics@.len() == 0 && r.functions@.len() == 0,
            tokens_in_order(r.tokens@),
            tokens_show_text(r.tokens@, self.code.spec_bytes()),
            plain_code(self.code.spec_bytes()) ==> single_text(r.tokens@, self.code.spec_bytes().len() as int),
            first_call_unknown(self.metadata().functions(), self.code@, self.code.spec_bytes()) ==> {
                &&& r.diagnostics@.len() > 0
                &&& first_call_diag(r.diagnostics@[0], self.code@, self.code.spec_bytes())
            },
            first_call_known(self.metadata().functions(), self.code@, self.code.spec_bytes()) ==> exists|i: int|
                0 <= i < r.functions@.len() && #[trigger] first_call_parsed(
                    r.functions@[i],
                    first_call_function(self.metadata().functions(), self.code@),
                    self.code@,
                    self.code.spec_bytes(),
                ),
            first_call_bare_escape(self.code@, self.code.spec_bytes()) ==> {
                &&& r.diagnostics@.len() > 0
                &&& bare_escape_diag(r.diagnostics@[0], self.code@, self.code.spec_bytes())
            },
            directive_then_line(self.metadata().functions(), self.code@) ==> r.diagnostics@.len() == 0
                && r.functions@.len() == 0,
            whole_escape_call(self.code@, self.code.spec_bytes()) ==> r.diagnostics@.len() == 0
                && r.functions@.len() == 0,
            !self.code.spec_bytes().contains(0x5cu8) && simple_calls(
                self.metadata().functions(),
                self.metadata().enum_table(),
                self.code@,
                self.code.spec_bytes(),
                0,
            ) is Some ==> {
                let v = simple_calls(self.metadata().functions(), self.metadata().enum_table(), self.code@, self.code.spec_bytes(), 0)->0;
                &&& diags_view(r.diagnostics@) == v.0
                &&& funcs_view(r.functions@) == v.1
            },
            first_call_unclosed(self.metadata().functions(), self.code@, self.code.spec_bytes()) ==> {
                &&& r.diagnostics@.len() > 0
                &&& unclosed_call_diag(
                    r.diagnostics@[0],
                    self.metadata().functions(),
                    self.code@,
                    self.code.spec_bytes(),
                )
            },
        decreases self.code.spec_bytes().len(), 2int,
    {
        let code = self.code;
        let ghost b = code.spec_bytes();
        let n = code.as_bytes().len();
        let cs = crate::chars::char_indices(code);
        let mut tokens: Vec<Token> = Vec::new();
        let mut diagnostics: Vec<Diagnostic> = Vec::new();
        let mut functions: Vec<ParsedFunction> = Vec::new();
        let mut k: usize = 0;
        let mut last_idx: usize = 0;
        let mut ignore_next_line = false;
        let mut pending_ignore_next_line = false;
        proof {
            is_char_boundary_start_end_of_seq(b);
            if plain_code(b) {
                lemma_plain_chars(code@);
            }
            crate::semantic::lemma_char_table(cs@, code@);
        }
        let ghost fcu = first_call_unknown(self.metadata().functions(), code@, b);
        let ghost fck = first_call_known(self.metadata().functions(), code@, b);
        let ghost fce = first_call_bare_escape(code@, b);
        let ghost fig = directive_then_line(self.metadata().functions(), code@);
        let ghost fbc = !b.contains(0x5cu8) && simple_calls(self.metadata().functions(), self.metadata().enum_table(), code@, b, 0) is Some;
        let ghost bcs = simple_calls(self.metadata().functions(), self.metadata().enum_table(), code@, b, 0)->0;
        proof {
            if fbc {
                assert(diags_view(diagnostics@) =~= Seq::<(Seq<char>, int, int)>::empty());
                assert(diags_view(diagnostics@) + bcs.0 =~= bcs.0);
                assert(funcs_view(functions@) =~= Seq::<(Seq<char>, int, int)>::empty());
                assert(funcs_view(functions@) + bcs.1 =~= bcs.1);
            }
        }
        proof {
            if fig {
                let lit = "$c[fs@ignore-error]"@;
                reveal_strlit("$c[fs@ignore-error]");
                assert(is_ascii_chars(lit));
                assert forall|j: int| 0 <= j <= 19 implies #[trigger] cs@[j].0 == j by {
                    lemma_ascii_prefix_offset(code@, lit, j);
                }
                crate::chars::lemma_byte_offset_bound(code@, 19);
                is_ascii_chars_encode_utf8(lit);
                assert(b.subrange(0, 19) =~= ignore_directive());
                assert(b.subrange(0, b.len() as int) =~= b);
                assert(ignore_directive().len() == 19);
                assert(has_prefix(b.subrange(0, b.len() as int), ignore_directive()));
                assert(code@[0] == lit[0]);
            }
        }
        let ghost fcw = whole_escape_call(code@, b);
        let ghost fcp = fcu || fck || fce || fcw;
        let ghost fcf = first_call_function(self.metadata().functions(), code@);
        let ghost fcx = first_call_unclosed(self.metadata().functions(), code@, b);
        let ghost mut fi: int = 0;
        let ghost fd = first_dollar(code@);
        proof {
            lemma_first_dollar(code@, 0);
            if fcp {
                lemma_encoded_prefix_plain(code@, b, fd);
            }
        }
        while k < cs.len()
            invariant
                code == self.code,
                b == code.spec_bytes(),
                n == b.len(),
                parse_fits(n as int),
                indexes(cs@, code@),
                k <= cs@.len(),
                last_idx <= n,
                is_char_boundary(b, last_idx as int),
                tokens_within(tokens@, n as int),
                diags_within(diagnostics@, n as int),
                funcs_within(functions@, n as int),
                code@.contains('$') || (diagnostics@.len() == 0 && functions@.len() == 0),
                tokens_in_order(tokens@),
                tokens_show_text(tokens@, code.spec_bytes()),
                tokens_before(tokens@, last_idx as int),
                tokens_before(tokens@, pos_of(cs@, k as int, n as int)),
                plain_code(b) ==> !code@.contains('$') && !code@.contains('\\') && tokens@.len() == 0 && last_idx == 0,
                cs@ == crate::semantic::char_table(code@),
                fcu == first_call_unknown(self.metadata().functions(), code@, b),
                fd == first_dollar(code@),
                fck == first_call_known(self.metadata().functions(), code@, b),
                fce == first_call_bare_escape(code@, b),
                fig == directive_then_line(self.metadata().functions(), code@),
                fbc == (!b.contains(0x5cu8) && simple_calls(self.metadata().functions(), self.metadata().enum_table(), code@, b, 0) is Some),
                bcs == simple_calls(self.metadata().functions(), self.metadata().enum_table(), code@, b, 0)->0,
                fbc ==> simple_calls(self.metadata().functions(), self.metadata().enum_table(), code@, b, k as int) is Some && diags_view(diagnostics@)
                    + (simple_calls(self.metadata().functions(), self.metadata().enum_table(), code@, b, k as int)->0).0 == bcs.0 && funcs_view(functions@)
                    + (simple_calls(self.metadata().functions(), self.metadata().enum_table(), code@, b, k as int)->0).1 == bcs.1
                    && !ignore_next_line && !pending_ignore_next_line,
                fig ==> diagnostics@.len() == 0 && functions@.len() == 0,
                fig ==> has_prefix(b.subrange(0, b.len() as int), ignore_directive()) && code@[0] == '$'
                    && forall|j: int| 0 <= j <= 19 ==> #[trigger] cs@[j].0 == j,
                fig && 1 <= k < 20 ==> k == 19 && pending_ignore_next_line,
                fig && 20 <= k < cs@.len() ==> ignore_next_line,
                fcw == whole_escape_call(code@, b),
                fcp == (fcu || fck || fce || fcw),
                fcw && k > fd ==> diagnostics@.len() == 0 && functions@.len() == 0 && k == cs@.len(),
                fce && k > fd ==> diagnostics@.len() > 0 && bare_escape_diag(diagnostics@[0], code@, b),
                fcf == first_call_function(self.metadata().functions(), code@),
                fcp ==> fd + 1 < code@.len() && code@[fd] == '$' && !code@.take(fd).contains('$')
                    && !code@.take(fd).contains('\\') && plain_code(b.subrange(0, first_call_start(code@, b))),
                fcx == first_call_unclosed(self.metadata().functions(), code@, b),
                fcp && k <= fd ==> diagnostics@.len() == 0 && functions@.len() == 0,
                fcx && k > fd ==> diagnostics@.len() > 0 && unclosed_call_diag(
                    diagnostics@[0],
                    self.metadata().functions(),
                    code@,
                    b,
                ),
                fcp && k <= fd ==> !ignore_next_line && !pending_ignore_next_line,
                fck && k > fd ==> 0 <= fi < functions@.len() && first_call_parsed(functions@[fi], fcf, code@, b),
                fcu && k > fd ==> diagnostics@.len() > 0 && first_call_diag(diagnostics@[0], code@, b),
            decreases cs@.len() - k,
        {
            let (idx, c) = cs[k];
            let ghost first = k == fd;
            let ghost k0: int = k as int;
            proof {
                lemma_index_facts(cs@, code@, k as int);
                if fcp && k < fd {
                    assert(code@.take(fd)[k as int] == code@[k as int]);
                    assert(code@[k as int] != '$' && code@[k as int] != '\\');
                }
                if fcp && first {
                    assert(idx == first_call_start(code@, b));
                    if idx > 0 {
                        assert(b[idx - 1] == b.subrange(0, idx as int)[idx - 1]);
                        assert(b[idx - 1] != 0x5cu8);
                    }
                    assert(!crate::text::spec_is_escaped(b, idx as int));
                }
                if fig && 20 <= k < cs@.len() - 1 {
                    assert(code@.subrange(20, code@.len() - 1)[k - 20] == code@[k as int]);
                    assert(c != '\n');
                }
                if fig && k == 19 {
                    assert(c == '\n');
                }
                if fig && k == 0 {
                    assert(c == '$' && idx == 0);
                }
                if fbc {
                    if c != '$' {
                        lemma_simple_plain(self.metadata().functions(), self.metadata().enum_table(), code@, b, k as int);
                    } else {
                        lemma_simple_call(self.metadata().functions(), self.metadata().enum_table(), code@, b, k as int);
                        lemma_step_facts(self.metadata().functions(), self.metadata().enum_table(), code@, b, k as int);
                    }
                }
            }
            k = k + 1;
            if self.handle_backslash_escape(&cs, &mut k, idx, c, &mut last_idx, &mut tokens) {
                continue;
            }
            if c == '\n' {
                ignore_next_line = pending_ignore_next_line;
                pending_ignore_next_line = false;
            }
            if c == '$' && !crate::text::is_escaped(code, idx) {
                assert(code@[k - 1] == '$');
                assert(code@.contains('$'));
                match is_ignore_error_directive(code, idx) {
                    Some(end_idx) => {
                        proof {
                            lemma_directive_end(b, idx as int);
                        }
                        pending_ignore_next_line = true;
                        let tok = text_token(code, idx, end_idx);
                        proof {
                            lemma_push_in_order(tokens@, tok, idx as int);
                            lemma_push_shows_text(tokens@, tok, self.code.spec_bytes());
                        }
                        tokens.push(tok);
                        skip_before(&cs, &mut k, end_idx);
                        proof {
                            if fig && k0 == 0 {
                                lemma_skip_below_exact(cs@, 1, 19);
                            }
                        }
                        last_idx = end_idx;
                        continue;
                    },
                    None => {},
                }
                if last_idx < idx {
                    let tok = text_token(code, last_idx, idx);
                    proof {
                        lemma_push_in_order(tokens@, tok, last_idx as int);
                        lemma_push_shows_text(tokens@, tok, self.code.spec_bytes());
                    }
                    tokens.push(tok);
                }
                let start = idx;
                if k < cs.len() && cs[k].1 == '{' {
                    let brace_idx = cs[k].0;
                    proof {
                        lemma_index_facts(cs@, code@, k as int);
                        lemma_pos_grows(cs@, code@, k - 1, k as int);
                    }
                    self.handle_js_expression(
                        &cs,
                        &mut k,
                        start,
                        brace_idx,
                        &mut last_idx,
                        &mut tokens,
                        &mut diagnostics,
                        ignore_next_line,
                    );
                    continue;
                }
                let ghost k_next = k;
                let (silent, negated) = self.handle_modifiers(&cs, &mut k);
                let ghost k_name = k;
                let (full_name, name_start, name_end) = self.extract_function_name(&cs, &mut k);
                proof {
                    lemma_pos_grows(cs@, code@, k_next as int, k_name as int);
                    assert(utf8_width('$') == 1) by {
                        reveal_strlit("$");
                    }
                }
                proof {
                    lemma_chars_empty_bytes(full_name@);
                    if first && fcp {
                        assert(k_next == fd + 1);
                        assert(cs@[fd + 1].1 == code@[fd + 1]);
                        assert(mods_scan(cs@, b, fd + 1, false, false) == (fd + 1, false, false));
                        assert(k_name == fd + 1);
                        assert(full_name@ == first_call_name(code@));
                        assert(full_name@.len() > 0);
                        assert(encode_utf8(full_name@).len() > 0);
                    }
                }
                let name_text = full_name.as_str();
                proof {
                    broadcast use vstd::string::group_string_axioms;
                    assert(name_text@ == full_name@);
                    assert(name_text.spec_bytes() == encode_utf8(name_text@));
                }
                let name_len = name_text.as_bytes().len();
                proof {
                    assert(first && fcp ==> name_len > 0);
                }
                if name_len == 0 {
                    last_idx = name_end;
                    continue;
                }
                proof {
                    if first && fcw {
                        assert(cs@[k as int].1 == code@[k as int]);
                        assert(bracket_at(cs@, k as int));
                        assert forall|j: int| k <= j < cs@.len() implies #[trigger] cs@[j].0 <= b.len() - 1 by {
                            lemma_index_facts(cs@, code@, j);
                        }
                        lemma_skip_to_all(cs@, k as int, b.len() - 1);
                        assert(cs@[k as int].0 == first_call_open(code@, b));
                        assert(crate::text::spec_matching_bracket_raw(b, cs@[k as int].0 as int) == Some(b.len() - 1));
                        assert(diagnostics@.len() == 0);
                    }
                }
                if self.handle_escape_function(
                    &cs,
                    &mut k,
                    start,
                    full_name.as_str(),
                    name_end,
                    &mut last_idx,
                    &mut tokens,
                    &mut diagnostics,
                    ignore_next_line,
                ) {
                    continue;
                }
                proof {
                    if first && fck {
                        assert(cs@[k as int].1 == code@[k as int]);
                        assert(bracket_at(cs@, k as int));
                    }
                    if fig {
                        crate::trie::lemma_empty_index_no_match(
                            self.metadata().functions(),
                            crate::trie::lowercase_key(seq!['$'] + full_name@),
                        );
                    }
                }
                let (matched, used_end) = self.find_matched_function(&cs, k, full_name.as_str(), name_start, name_end);
                match matched {
                    Some((name, meta)) => {
                        proof {
                            assert(!fig);
                        }
                        let ghost gmeta = meta;
                        let ghost gname = name@;
                        let ghost f0 = functions@;
                        self.handle_matched_function(
                            &cs,
                            &mut k,
                            name,
                            meta,
                            start,
                            used_end,
                            name_end,
                            silent,
                            negated,
                            &mut last_idx,
                            &mut tokens,
                            &mut diagnostics,
                            &mut functions,
                            ignore_next_line,
                        );
                        proof {
                            if first && fck {
                                assert(gmeta == fcf);
                                assert(gname == crate::strings::strip_dollars(fcf.name@));
                                fi = functions@.len() - 1;
                            } else if fck && k0 > fd {
                                assert(functions@[fi] == f0[fi]);
                            }
                        }
                    },
                    None => {
                        let ghost f0 = functions@;
                        self.handle_unknown_function_call(
                            &cs,
                            &mut k,
                            full_name.as_str(),
                            name_end,
                            start,
                            &mut last_idx,
                            &mut tokens,
                            &mut diagnostics,
                            &mut functions,
                            ignore_next_line,
                        );
                        proof {
                            if fck && k0 > fd {
                                assert(functions@[fi] == f0[fi]);
                            }
                        }
                    },
                }
            }
        }
        if last_idx < n {
            let tok = text_token(code, last_idx, n);
            proof {
                lemma_push_in_order(tokens@, tok, last_idx as int);
                lemma_push_shows_text(tokens@, tok, self.code.spec_bytes());
            }
            tokens.push(tok);
        }
        proof {
            if fck {
                assert(k > fd);
            }
            if fbc {
                lemma_simple_end(self.metadata().functions(), self.metadata().enum_table(), code@, b, k as int);
                assert(diags_view(diagnostics@) + Seq::<(Seq<char>, int, int)>::empty() =~= diags_view(diagnostics@));
                assert(funcs_view(functions@) + Seq::<(Seq<char>, int, int)>::empty() =~= funcs_view(functions@));
            }
        }
        let r = ParseResult { tokens, diagnostics, functions };
        proof {
            if fck {
                assert(0 <= fi < r.functions@.len() && first_call_parsed(
                    r.functions@[fi],
                    first_call_function(self.metadata().functions(), self.code@),
                    self.code@,
                    self.code.spec_bytes(),
                ));
            }
        }
        r
    }
}

/// The directive, once found, ends at a character boundary after its `$`.
proof fn lemma_directive_end(b: Seq<u8>, idx: int)
    requires
        valid_utf8(b),
        0 <= idx <= b.len(),
        has_prefix(b.subrange(idx, b.len() as int), ignore_directive()),
    ensures
        ignore_directive().len() == 19,
        idx + 19 <= b.len(),
        is_char_boundary(b, idx + 19),
{
    reveal_strlit("$c[fs@ignore-error]");
    assert(is_ascii_chars("$c[fs@ignore-error]"@));
    let d = ignore_directive();
    assert(d.len() == 19);
    assert(d[18] == 0x5du8);
    assert(b[idx + 18] == b.subrange(idx, b.len() as int).subrange(0, 19)[18]);
    lemma_ascii_byte_boundaries(b, idx + 18);
}

/// An opening bracket is the character at index `k`.
pub open spec fn bracket_at(cs: Seq<(usize, char)>, k: int) -> bool {
    0 <= k < cs.len() && cs[k].1 == '['
}

/// The diagnostics `old` come first, unchanged, in `new`.
pub open spec fn diags_kept(old: Seq<Diagnostic>, new: Seq<Diagnostic>) -> bool {
    &&& old.len() <= new.len()
    &&& forall|i: int| 0 <= i < old.len() ==> #[trigger] new[i] == old[i]
}

proof fn lemma_kept_trans(a: Seq<Diagnostic>, b: Seq<Diagnostic>, c: Seq<Diagnostic>)
    requires
        diags_kept(a, b),
        diags_kept(b, c),
    ensures
        diags_kept(a, c),
{
    assert forall|i: int| 0 <= i < a.len() implies #[trigger] c[i] == a[i] by {
        assert(c[i] == b[i]);
    }
}

proof fn lemma_kept_push(a: Seq<Diagnostic>, d: Diagnostic)
    ensures
        diags_kept(a, a.push(d)),
{
    assert forall|i: int| 0 <= i < a.len() implies #[trigger] a.push(d)[i] == a[i] by {}
}

/// The functions `old` come first, unchanged, in `new`.
pub open spec fn funcs_kept(old: Seq<ParsedFunction>, new: Seq<ParsedFunction>) -> bool {
    &&& old.len() <= new.len()
    &&& forall|i: int| 0 <= i < old.len() ==> #[trigger] new[i] == old[i]
}

/// The index of the first `$` of the code, from index `i` on; its length if none.
pub open spec fn first_dollar_from(code: Seq<char>, i: int) -> int
    decreases code.len() - i,
{
    if i < 0 || i >= code.len() {
        code.len() as int
    } else if code[i] == '$' {
        i
    } else {
        first_dollar_from(code, i + 1)
    }
}

/// The index of the first `$` of the code.
pub open spec fn first_dollar(code: Seq<char>) -> int {
    first_dollar_from(code, 0)
}

/// Where the first call of the code starts: the byte of its first `$`.
pub open spec fn first_call_start(code: Seq<char>, b: Seq<u8>) -> int {
    pos_of(crate::semantic::char_table(code), first_dollar(code), b.len() as int)
}

/// The name read after the first `$` of the code.
pub open spec fn first_call_name(code: Seq<char>) -> Seq<char> {
    let d = first_dollar(code);
    code.subrange(d + 1, crate::semantic::name_run(crate::semantic::char_table(code), d + 1))
}

/// Where the first call of the code ends, read as a call of an unknown function.
pub open spec fn first_call_end(code: Seq<char>, b: Seq<u8>) -> int {
    let cs = crate::semantic::char_table(code);
    let ne = crate::semantic::name_run(cs, first_dollar(code) + 1);
    unknown_call_end(b, cs, ne, pos_of(cs, ne, b.len() as int))
}

/// The code's first call, after plain text (no `$`, no backslash), is a call,
/// without modifiers, of a function the index `m` does not know: `$`, a name
/// of letters, digits and `_` that is neither an escape function nor the
/// ignore directive, and that neither names an indexed function nor holds one.
pub open spec fn first_call_unknown(m: Map<Seq<char>, Arc<Function>>, code: Seq<char>, b: Seq<u8>) -> bool {
    let cs = crate::semantic::char_table(code);
    let d = first_dollar(code);
    let p = first_call_start(code, b);
    let name = first_call_name(code);
    &&& d + 1 < code.len()
    &&& plain_code(b.subrange(0, p))
    &&& code[d + 1] != '{' && code[d + 1] != '!' && code[d + 1] != '#' && code[d + 1] != '@'
    &&& crate::semantic::name_run(cs, d + 1) > d + 1
    &&& !has_prefix(b.subrange(p, b.len() as int), ignore_directive())
    &&& !crate::text::is_escape_name(name)
    &&& !m.contains_key(crate::trie::lowercase_key(seq!['$'] + name))
    &&& crate::trie::spec_trie_get(m, crate::trie::lowercase_key(seq!['$'] + name)) is None
}

/// The code's first call, after plain text (no `$`, no backslash), is a call,
/// without modifiers, of a function the index `m` holds under that exact name,
/// with its opening bracket right after the name; the name is neither an
/// escape function nor the ignore directive.
pub open spec fn first_call_known(m: Map<Seq<char>, Arc<Function>>, code: Seq<char>, b: Seq<u8>) -> bool {
    let cs = crate::semantic::char_table(code);
    let d = first_dollar(code);
    let p = first_call_start(code, b);
    let ne = crate::semantic::name_run(cs, d + 1);
    &&& d + 1 < code.len()
    &&& plain_code(b.subrange(0, p))
    &&& code[d + 1] != '{' && code[d + 1] != '!' && code[d + 1] != '#' && code[d + 1] != '@'
    &&& ne > d + 1
    &&& ne < code.len() && code[ne] == '['
    &&& !has_prefix(b.subrange(p, b.len() as int), ignore_directive())
    &&& !crate::text::is_escape_name(first_call_name(code))
    &&& m.contains_key(crate::trie::lowercase_key(seq!['$'] + first_call_name(code)))
}

/// The byte of the bracket after the name of the code's first call.
pub open spec fn first_call_open(code: Seq<char>, b: Seq<u8>) -> int {
    let cs = crate::semantic::char_table(code);
    pos_of(cs, crate::semantic::name_run(cs, first_dollar(code) + 1), b.len() as int)
}

/// Where the bracket after the code's first call closes, if it does.
pub open spec fn first_call_close(code: Seq<char>, b: Seq<u8>) -> Option<int> {
    crate::text::spec_matching_bracket(b, first_call_open(code, b))
}

/// `n` carries the arguments of `o`, their spans unchanged.
pub open spec fn same_args(n: ParsedFunction, o: ParsedFunction) -> bool {
    match (n.args, o.args) {
        (None, None) => true,
        (Some(a), Some(c)) => a@.len() == c@.len() && shifted_list(a@, c@, 0, 0),
        _ => false,
    }
}

/// The arguments of the code's first call, whose bracket closes at `c`, are
/// those of the text between its brackets.
pub open spec fn first_call_args(f: ParsedFunction, code: Seq<char>, b: Seq<u8>, c: int) -> bool {
    let tb = b.subrange(first_call_open(code, b) + 1, c);
    f.args matches Some(v) && args_of_text(v@, decode_utf8(tb), tb)
}

/// `f` is the parse of the code's first call, a call of the indexed function
/// `meta`: it starts at the call's `$`, and when its bracket closes it ends
/// after that bracket and holds arguments exactly when the function takes
/// brackets.
pub open spec fn first_call_parsed(f: ParsedFunction, meta: Arc<Function>, code: Seq<char>, b: Seq<u8>) -> bool {
    &&& parsed_call_of(f, meta, first_call_start(code, b))
    &&& first_call_close(code, b) matches Some(c) ==> f.span.1 == c + 1 && (f.args is Some <==> meta.brackets is Some)
        && (meta.brackets is Some ==> first_call_args(f, code, b, c))
}

/// As `first_call_parsed`, with the positions of the joined code blocks
/// placed in the text by `mapped_position`.
pub open spec fn first_call_parsed_in_blocks(
    f: ParsedFunction,
    meta: Arc<Function>,
    code: Seq<char>,
    b: Seq<u8>,
    offs: Seq<usize>,
    lens: Seq<usize>,
) -> bool {
    &&& parsed_call_of(f, meta, mapped_position(first_call_start(code, b), offs, lens))
    &&& first_call_close(code, b) matches Some(c) ==> f.span.1 == mapped_position(c + 1, offs, lens) && (f.args is Some
        <==> meta.brackets is Some) && (meta.brackets is Some ==> first_call_args(f, code, b, c))
}

/// The code's first call is one of `first_call_known` whose opening bracket
/// is never closed.
pub open spec fn first_call_unclosed(m: Map<Seq<char>, Arc<Function>>, code: Seq<char>, b: Seq<u8>) -> bool {
    let cs = crate::semantic::char_table(code);
    let ne = crate::semantic::name_run(cs, first_dollar(code) + 1);
    &&& first_call_known(m, code, b)
    &&& crate::text::spec_matching_bracket(b, pos_of(cs, ne, b.len() as int)) is None
}

/// The diagnostic of a first call whose bracket is never closed: it runs from
/// the call's `$` to the end of the code.
pub open spec fn unclosed_call_diag(d: Diagnostic, m: Map<Seq<char>, Arc<Function>>, code: Seq<char>, b: Seq<u8>) -> bool {
    &&& d.message@ == "Unclosed '[' for function `"@ + seq!['$'] + crate::strings::strip_dollars(
        first_call_function(m, code).name@,
    ) + "`"@
    &&& d.start == first_call_start(code, b)
    &&& d.end == b.len()
}

/// The code's first call, after plain text (no `$`, no backslash), is a call,
/// without modifiers, of an escape function with no bracket after its name.
pub open spec fn first_call_bare_escape(code: Seq<char>, b: Seq<u8>) -> bool {
    let cs = crate::semantic::char_table(code);
    let d = first_dollar(code);
    let p = first_call_start(code, b);
    let ne = crate::semantic::name_run(cs, d + 1);
    &&& d + 1 < code.len()
    &&& plain_code(b.subrange(0, p))
    &&& code[d + 1] != '{' && code[d + 1] != '!' && code[d + 1] != '#' && code[d + 1] != '@'
    &&& ne > d + 1
    &&& !(ne < code.len() && code[ne] == '[')
    &&& !has_prefix(b.subrange(p, b.len() as int), ignore_directive())
    &&& crate::text::is_escape_name(first_call_name(code))
}

/// The diagnostic of an escape call without brackets: it covers the `$` and
/// the name.
pub open spec fn bare_escape_diag(d: Diagnostic, code: Seq<char>, b: Seq<u8>) -> bool {
    let cs = crate::semantic::char_table(code);
    &&& d.message@ == ""@ + seq!['$'] + first_call_name(code) + " expects brackets `[...]` containing content to escape"@
    &&& d.start == first_call_start(code, b)
    &&& d.end == pos_of(cs, crate::semantic::name_run(cs, first_dollar(code) + 1), b.len() as int)
}

/// The entry of one raw argument `p`: a single part, a literal when the
/// argument is not a call or is one escape call, holding the trimmed text
/// when anything is left of it.
pub open spec fn args_piece(e: (Vec<ParsedArg>, (usize, usize)), p: (Seq<char>, int)) -> bool {
    &&& e.0@.len() == 1
    &&& piece_quiet(p) ==> e.0@[0] is Literal
    &&& trim_start_byte(p.0) < trim_end_byte(p.0) && e.0@[0] is Literal ==> e.0@[0]->text@
        == crate::strings::trim_text(p.0)
}

/// The arguments `v` of a call whose bracket holds the text `text` (bytes
/// `tb`): one entry for each raw argument, in order.
pub open spec fn args_of_text(v: Seq<(Vec<ParsedArg>, (usize, usize))>, text: Seq<char>, tb: Seq<u8>) -> bool {
    &&& v.len() == nested_arg_pieces(text, tb).len()
    &&& forall|i: int| 0 <= i < v.len() ==> args_piece(#[trigger] v[i], nested_arg_pieces(text, tb)[i])
}

proof fn lemma_entry_piece(e: (Vec<ParsedArg>, (usize, usize)), p: (Seq<char>, int), base: int, lo: int, funcs: Seq<ParsedFunction>)
    requires
        arg_entry(e, p, base, lo, funcs),
    ensures
        args_piece(e, p),
{
}

proof fn lemma_shifted_list_at(
    ns: Seq<(Vec<ParsedArg>, (usize, usize))>,
    os: Seq<(Vec<ParsedArg>, (usize, usize))>,
    i: int,
    k: int,
    d: int,
)
    requires
        shifted_list(ns, os, i, d),
        ns.len() == os.len(),
        0 <= i <= k < os.len(),
    ensures
        shifted_entry(ns[k], os[k], d),
    decreases k - i,
{
    if i < k {
        lemma_shifted_list_at(ns, os, i + 1, k, d);
    }
}

/// Arguments shifted by nothing describe the same text.
proof fn lemma_args_of_text_shifted(
    ns: Seq<(Vec<ParsedArg>, (usize, usize))>,
    os: Seq<(Vec<ParsedArg>, (usize, usize))>,
    text: Seq<char>,
    tb: Seq<u8>,
)
    requires
        ns.len() == os.len(),
        shifted_list(ns, os, 0, 0),
        args_of_text(os, text, tb),
    ensures
        args_of_text(ns, text, tb),
{
    assert forall|i: int| 0 <= i < ns.len() implies args_piece(#[trigger] ns[i], nested_arg_pieces(text, tb)[i]) by {
        lemma_shifted_list_at(ns, os, 0, i, 0);
        assert(args_piece(os[i], nested_arg_pieces(text, tb)[i]));
        assert(shifted_arg(ns[i].0@[0], os[i].0@[0], 0));
    }
}

/// The code is one escape call: `$`, the name of an escape function and a
/// bracket whose match, read raw, is the code's last byte.
pub open spec fn whole_escape_call(code: Seq<char>, b: Seq<u8>) -> bool {
    let cs = crate::semantic::char_table(code);
    let d = first_dollar(code);
    let p = first_call_start(code, b);
    let ne = crate::semantic::name_run(cs, d + 1);
    &&& d == 0
    &&& d + 1 < code.len()
    &&& plain_code(b.subrange(0, p))
    &&& code[d + 1] != '{' && code[d + 1] != '!' && code[d + 1] != '#' && code[d + 1] != '@'
    &&& ne > d + 1
    &&& ne < code.len() && code[ne] == '['
    &&& !has_prefix(b.subrange(p, b.len() as int), ignore_directive())
    &&& crate::text::is_escape_name(first_call_name(code))
    &&& crate::text::spec_matching_bracket_raw(b, first_call_open(code, b)) == Some(b.len() - 1)
}

/// Skipping to a byte at or past every character's start ends the text.
proof fn lemma_skip_to_all(cs: Seq<(usize, char)>, k: int, e: int)
    requires
        0 <= k <= cs.len(),
        forall|j: int| k <= j < cs.len() ==> #[trigger] cs[j].0 <= e,
    ensures
        skip_to(cs, k, e) == cs.len(),
    decreases cs.len() - k,
{
    if k < cs.len() {
        lemma_skip_to_all(cs, k + 1, e);
    }
}

/// Diagnostics and parsed calls, each as text, start and end.
pub type ReportView = (Seq<(Seq<char>, int, int)>, Seq<(Seq<char>, int, int)>);

/// The diagnostics and parsed calls as text, start and end.
pub open spec fn funcs_view(f: Seq<ParsedFunction>) -> Seq<(Seq<char>, int, int)> {
    f.map_values(|x: ParsedFunction| (x.name@, x.span.0 as int, x.span.1 as int))
}

/// What the call at character `k` (a `$`) of the code reports, and the
/// character at which reading goes on, for a call without modifiers that is
/// not the ignore directive:
/// - an escape function without brackets: the report that it needs them;
/// - an escape function with brackets: nothing, reading on after its raw
///   closing bracket, or the report that its bracket is unclosed;
/// - a function the index does not find (by exact name when a bracket
///   follows, else anywhere in the name): the report that it is unknown,
///   covering the whole call. When its bracket closes around text without
///   `$`, the call is also listed; when it never closes, the bracket is
///   reported as unclosed up to the end of the code.
/// `None` for anything else: a known function, modifiers, a call whose
/// bracket holds further calls, or a `$` without a name.
#[verifier::opaque]
pub open spec fn simple_call_step(
    m: Map<Seq<char>, Arc<Function>>,
    enums: Map<Seq<char>, Seq<Seq<char>>>,
    code: Seq<char>,
    b: Seq<u8>,
    k: int,
) -> Option<
    (Seq<(Seq<char>, int, int)>, Seq<(Seq<char>, int, int)>, int),
> {
    let cs = crate::semantic::char_table(code);
    let ne = crate::semantic::name_run(cs, k + 1);
    let name = code.subrange(k + 1, ne);
    let here = cs[k].0 as int;
    let end = pos_of(cs, ne, b.len() as int);
    let brk = ne < code.len() && code[ne] == '[';
    let open = cs[ne].0 as int;
    let key = crate::trie::lowercase_key(seq!['$'] + name);
    if !(0 <= k < code.len()) || ne <= k + 1 || ne > code.len() || code[k + 1] == '{' || code[k + 1] == '!'
        || code[k + 1] == '#' || code[k + 1] == '@' || has_prefix(b.subrange(here, b.len() as int), ignore_directive()) {
        None
    } else if crate::text::is_escape_name(name) {
        if !brk {
            Some((seq![(""@ + seq!['$'] + name + " expects brackets `[...]` containing content to escape"@, here, end)], Seq::empty(), ne))
        } else {
            match crate::text::spec_matching_bracket_raw(b, open) {
                Some(c) => Some((Seq::empty(), Seq::empty(), skip_to(cs, ne, c))),
                None => Some((seq![("Unclosed '[' for function `"@ + seq!['$'] + name + "`"@, here, b.len() as int)], Seq::empty(), ne)),
            }
        }
    } else if brk && m.contains_key(key) {
        let f = m[key];
        let nm = crate::strings::strip_dollars(f.name@);
        if f.brackets is None {
            None
        } else {
            match crate::text::spec_matching_bracket(b, open) {
                Some(c) => if all_quiet(decode_utf8(b.subrange(open + 1, c)), b.subrange(open + 1, c)) {
                    Some((quiet_call_diags(nm, *f, enums, b, here, open, c), seq![(nm, here, c + 1)], skip_to(cs, ne, c)))
                } else {
                    None
                },
                None => None,
            }
        }
    } else if !brk && crate::trie::spec_trie_get(m, key) is Some {
        None
    } else if !brk {
        Some((seq![("Unknown function `"@ + seq!['$'] + name + "`"@, here, end)], Seq::empty(), ne))
    } else {
        match crate::text::spec_matching_bracket(b, open) {
            Some(c) => if decode_utf8(b.subrange(open + 1, c)).contains('$') {
                None
            } else {
                Some((seq![("Unknown function `"@ + seq!['$'] + name + "`"@, here, c + 1)], seq![(name, here, c + 1)], skip_to(cs, ne, c)))
            },
            None => Some((
                seq![
                    ("Unknown function `"@ + seq!['$'] + name + "`"@, here, end),
                    ("Unclosed '[' for function `"@ + seq!['$'] + name + "`"@, open, b.len() as int),
                ],
                Seq::empty(),
                ne + 1,
            )),
        }
    }
}

/// The diagnostics and parsed calls of the code from character `k` on, when
/// every call in it is one `simple_call_step` describes; `None` otherwise.
#[verifier::opaque]
pub open spec fn simple_calls(
    m: Map<Seq<char>, Arc<Function>>,
    enums: Map<Seq<char>, Seq<Seq<char>>>,
    code: Seq<char>,
    b: Seq<u8>,
    k: int,
) -> Option<ReportView>
    decreases code.len() - k,
{
    if k < 0 || k >= code.len() {
        Some((Seq::empty(), Seq::empty()))
    } else if code[k] != '$' {
        simple_calls(m, enums, code, b, k + 1)
    } else {
        match simple_call_step(m, enums, code, b, k) {
            Some((ds, fs, nx)) => if nx <= k || nx > code.len() {
                None
            } else {
                match simple_calls(m, enums, code, b, nx) {
                    Some((d2, f2)) => Some((ds + d2, fs + f2)),
                    None => None,
                }
            },
            None => None,
        }
    }
}

/// What a described call at `k` is, read from `simple_call_step`.
proof fn lemma_step_facts(m: Map<Seq<char>, Arc<Function>>, enums: Map<Seq<char>, Seq<Seq<char>>>, code: Seq<char>, b: Seq<u8>, k: int)
    requires
        0 <= k < code.len(),
        simple_call_step(m, enums, code, b, k) is Some,
    ensures
        ({
            let cs = crate::semantic::char_table(code);
            let ne = crate::semantic::name_run(cs, k + 1);
            let name = code.subrange(k + 1, ne);
            let here = cs[k].0 as int;
            let end = pos_of(cs, ne, b.len() as int);
            let brk = ne < code.len() && code[ne] == '[';
            let open = cs[ne].0 as int;
            let key = crate::trie::lowercase_key(seq!['$'] + name);
            let st = simple_call_step(m, enums, code, b, k)->0;
            &&& k + 1 < ne <= code.len()
            &&& code[k + 1] != '{' && code[k + 1] != '!' && code[k + 1] != '#' && code[k + 1] != '@'
            &&& !has_prefix(b.subrange(here, b.len() as int), ignore_directive())
            &&& crate::text::is_escape_name(name) && !brk ==> st == (
                seq![(""@ + seq!['$'] + name + " expects brackets `[...]` containing content to escape"@, here, end)],
                Seq::<(Seq<char>, int, int)>::empty(),
                ne,
            )
            &&& crate::text::is_escape_name(name) && brk ==> match crate::text::spec_matching_bracket_raw(b, open) {
                Some(c) => st == (Seq::<(Seq<char>, int, int)>::empty(), Seq::<(Seq<char>, int, int)>::empty(), skip_to(cs, ne, c)),
                None => st == (
                    seq![("Unclosed '[' for function `"@ + seq!['$'] + name + "`"@, here, b.len() as int)],
                    Seq::<(Seq<char>, int, int)>::empty(),
                    ne,
                ),
            }
            &&& !crate::text::is_escape_name(name) && brk && m.contains_key(key) ==> {
                let f = m[key];
                let nm = crate::strings::strip_dollars(f.name@);
                &&& f.brackets is Some
                &&& crate::text::spec_matching_bracket(b, open) is Some
                &&& all_quiet(
                    decode_utf8(b.subrange(open + 1, crate::text::spec_matching_bracket(b, open)->0)),
                    b.subrange(open + 1, crate::text::spec_matching_bracket(b, open)->0),
                )
                &&& st == (
                    quiet_call_diags(nm, *f, enums, b, here, open, crate::text::spec_matching_bracket(b, open)->0),
                    seq![(nm, here, crate::text::spec_matching_bracket(b, open)->0 + 1)],
                    skip_to(cs, ne, crate::text::spec_matching_bracket(b, open)->0),
                )
            }
            &&& !crate::text::is_escape_name(name) && !brk ==> crate::trie::spec_trie_get(m, key) is None
            &&& !crate::text::is_escape_name(name) && !brk ==> st == (
                seq![("Unknown function `"@ + seq!['$'] + name + "`"@, here, end)],
                Seq::<(Seq<char>, int, int)>::empty(),
                ne,
            )
            &&& !crate::text::is_escape_name(name) && brk && !m.contains_key(key) ==> match crate::text::spec_matching_bracket(b, open) {
                Some(c) => !decode_utf8(b.subrange(open + 1, c)).contains('$') && st == (
                    seq![("Unknown function `"@ + seq!['$'] + name + "`"@, here, c + 1)],
                    seq![(name, here, c + 1)],
                    skip_to(cs, ne, c),
                ),
                None => st == (
                    seq![
                        ("Unknown function `"@ + seq!['$'] + name + "`"@, here, end),
                        ("Unclosed '[' for function `"@ + seq!['$'] + name + "`"@, open, b.len() as int),
                    ],
                    Seq::<(Seq<char>, int, int)>::empty(),
                    ne + 1,
                ),
            }
        }),
{
    reveal(simple_call_step);
}

proof fn lemma_simple_plain(m: Map<Seq<char>, Arc<Function>>, enums: Map<Seq<char>, Seq<Seq<char>>>, code: Seq<char>, b: Seq<u8>, k: int)
    requires
        0 <= k < code.len(),
        code[k] != '$',
    ensures
        simple_calls(m, enums, code, b, k) == simple_calls(m, enums, code, b, k + 1),
{
    reveal(simple_calls);
}

proof fn lemma_simple_end(m: Map<Seq<char>, Arc<Function>>, enums: Map<Seq<char>, Seq<Seq<char>>>, code: Seq<char>, b: Seq<u8>, k: int)
    requires
        k >= code.len(),
    ensures
        simple_calls(m, enums, code, b, k) == Some::<ReportView>((Seq::empty(), Seq::empty())),
{
    reveal(simple_calls);
}

proof fn lemma_simple_call(m: Map<Seq<char>, Arc<Function>>, enums: Map<Seq<char>, Seq<Seq<char>>>, code: Seq<char>, b: Seq<u8>, k: int)
    requires
        0 <= k < code.len(),
        code[k] == '$',
        simple_calls(m, enums, code, b, k) is Some,
    ensures
        simple_call_step(m, enums, code, b, k) is Some,
        ({
            let (ds, fs, nx) = simple_call_step(m, enums, code, b, k)->0;
            &&& k < nx <= code.len()
            &&& simple_calls(m, enums, code, b, nx) is Some
            &&& (simple_calls(m, enums, code, b, k)->0).0 == ds + (simple_calls(m, enums, code, b, nx)->0).0
            &&& (simple_calls(m, enums, code, b, k)->0).1 == fs + (simple_calls(m, enums, code, b, nx)->0).1
        }),
{
    reveal(simple_calls);
}

/// The code is the ignore directive, a newline and one more line (perhaps
/// ended by a newline), read with an empty index: everything on that line
/// falls under the directive.
pub open spec fn directive_then_line(m: Map<Seq<char>, Arc<Function>>, code: Seq<char>) -> bool {
    &&& m == Map::<Seq<char>, Arc<Function>>::empty()
    &&& code.len() > 20
    &&& code.take(19) == "$c[fs@ignore-error]"@
    &&& code[19] == '\n'
    &&& !code.subrange(20, code.len() - 1).contains('\n')
}

/// Characters before index `j` of an ASCII prefix take one byte each.
proof fn lemma_ascii_prefix_offset(code: Seq<char>, p: Seq<char>, j: int)
    requires
        is_ascii_chars(p),
        p.len() <= code.len(),
        code.take(p.len() as int) == p,
        0 <= j <= p.len(),
    ensures
        byte_offset(code, j) == j,
{
    assert(code.take(j) =~= p.take(j));
    assert(is_ascii_chars(p.take(j)));
    is_ascii_chars_encode_utf8(p.take(j));
}

/// Skipping below byte `e` stops at the character that starts there.
proof fn lemma_skip_below_exact(cs: Seq<(usize, char)>, i: int, e: int)
    requires
        0 <= i <= e < cs.len(),
        forall|j: int| i <= j <= e ==> #[trigger] cs[j].0 == j,
    ensures
        skip_below(cs, i, e) == e,
    decreases e - i,
{
    if i < e {
        lemma_skip_below_exact(cs, i + 1, e);
    }
}

/// The indexed function that the code's first call names.
pub open spec fn first_call_function(m: Map<Seq<char>, Arc<Function>>, code: Seq<char>) -> Arc<Function> {
    m[crate::trie::lowercase_key(seq!['$'] + first_call_name(code))]
}

/// `f` is the parsed call of `meta` that starts at byte `start`.
pub open spec fn parsed_call_of(f: ParsedFunction, meta: Arc<Function>, start: int) -> bool {
    &&& f.span.0 == start
    &&& f.meta == meta
    &&& f.name@ == crate::strings::strip_dollars(meta.name@)
}

/// Plain bytes before the first `$` mean no `$` and no backslash among the
/// characters before it.
proof fn lemma_encoded_prefix_plain(code: Seq<char>, b: Seq<u8>, d: int)
    requires
        b == encode_utf8(code),
        d == first_dollar(code),
        0 <= d <= code.len(),
        plain_code(b.subrange(0, first_call_start(code, b))),
        b.len() <= usize::MAX,
    ensures
        !code.take(d).contains('$'),
        !code.take(d).contains('\\'),
{
    let cs = crate::semantic::char_table(code);
    crate::strings::lemma_slice_chars(code, 0, d);
    assert(code.take(0) =~= Seq::<char>::empty());
    assert(code.subrange(0, d) =~= code.take(d));
    crate::chars::lemma_byte_offset_bound(code, d);
    if d < code.len() {
        assert(cs[d] == (byte_offset(code, d) as usize, code[d]));
        assert(pos_of(cs, d, b.len() as int) == byte_offset(code, d));
    } else {
        assert(code.take(d) =~= code);
        assert(pos_of(cs, d, b.len() as int) == b.len());
    }
    lemma_plain_chars(code.take(d));
}

/// The diagnostic of the code's first call, when it is unknown.
pub open spec fn first_call_diag(d: Diagnostic, code: Seq<char>, b: Seq<u8>) -> bool {
    &&& d.message@ == "Unknown function `"@ + seq!['$'] + first_call_name(code) + "`"@
    &&& d.start == first_call_start(code, b)
    &&& d.end == first_call_end(code, b)
}

pub proof fn lemma_first_dollar(code: Seq<char>, i: int)
    requires
        0 <= i <= code.len(),
    ensures
        i <= first_dollar_from(code, i) <= code.len(),
        first_dollar_from(code, i) < code.len() ==> code[first_dollar_from(code, i)] == '$',
        forall|j: int| i <= j < first_dollar_from(code, i) ==> code[j] != '$',
    decreases code.len() - i,
{
    if i < code.len() && code[i] != '$' {
        lemma_first_dollar(code, i + 1);
    }
}

/// Where a call of an unknown function whose name ends at byte `name_end`
/// and character `k` ends: after the bracket matching a `[` right after the
/// name, else at the name's end.
pub open spec fn unknown_call_end(b: Seq<u8>, cs: Seq<(usize, char)>, k: int, name_end: int) -> int {
    if bracket_at(cs, k) {
        match crate::text::spec_matching_bracket(b, cs[k].0 as int) {
            Some(c) => c + 1,
            None => name_end,
        }
    } else {
        name_end
    }
}

/// How many characters after a backslash `c` its escape consumes, at
/// character index `k` of the text: one for a backtick, two for a second
/// backslash and an escapable character; none when `c` starts no escape.
pub open spec fn backslash_jump(cs: Seq<(usize, char)>, k: int, c: char) -> int {
    if c != '\\' || k < 0 || k >= cs.len() {
        0
    } else if cs[k].1 == '`' {
        1
    } else if cs[k].1 == '\\' && k + 1 < cs.len() && is_arg_escapable(cs[k + 1].1) {
        2
    } else {
        0
    }
}

impl<'a> ForgeScriptParser<'a> {
    /// A backslash before a backtick, or a doubled backslash before an
    /// escapable character, ends the text so far; the escape itself starts
    /// the next text run.
    fn handle_backslash_escape(
        &self,
        cs: &Vec<(usize, char)>,
        k: &mut usize,
        idx: usize,
        c: char,
        last_idx: &mut usize,
        tokens: &mut Vec<Token>,
    ) -> (r: bool)
        requires
            indexes(cs@, self.code@),
            *old(k) <= cs@.len(),
            idx < self.code.spec_bytes().len(),
            is_char_boundary(self.code.spec_bytes(), idx as int),
            *old(last_idx) <= self.code.spec_bytes().len(),
            is_char_boundary(self.code.spec_bytes(), *old(last_idx) as int),
            tokens_within(old(tokens)@, self.code.spec_bytes().len() as int),
            tokens_in_order(old(tokens)@),
            tokens_show_text(old(tokens)@, self.code.spec_bytes()),
            tokens_before(old(tokens)@, *old(last_idx) as int),
            tokens_before(old(tokens)@, idx as int),
            idx < pos_of(cs@, *old(k) as int, self.code.spec_bytes().len() as int),
        ensures
            *old(k) <= *final(k) <= cs@.len(),
            !r ==> *final(k) == *old(k) && *final(last_idx) == *old(last_idx) && final(tokens)@ == old(tokens)@,
            c != '\\' ==> !r,
            r == (backslash_jump(cs@, *old(k) as int, c) > 0),
            r ==> *final(k) == *old(k) + backslash_jump(cs@, *old(k) as int, c) && *final(last_idx) == idx,
            r && idx <= *old(last_idx) ==> final(tokens)@ == old(tokens)@,
            r && *old(last_idx) < idx ==> {
                &&& final(tokens)@.len() == old(tokens)@.len() + 1
                &&& final(tokens)@.drop_last() == old(tokens)@
                &&& final(tokens)@.last().kind == TokenKind::Text
                &&& final(tokens)@.last().start == *old(last_idx)
                &&& final(tokens)@.last().end == idx
            },
            *final(last_idx) <= self.code.spec_bytes().len(),
            is_char_boundary(self.code.spec_bytes(), *final(last_idx) as int),
            tokens_within(final(tokens)@, self.code.spec_bytes().len() as int),
            tokens_in_order(final(tokens)@),
            tokens_show_text(final(tokens)@, self.code.spec_bytes()),
            tokens_before(final(tokens)@, *final(last_idx) as int),
            tokens_before(final(tokens)@, pos_of(cs@, *final(k) as int, self.code.spec_bytes().len() as int)),
    {
        proof {
            lemma_pos_grows(cs@, self.code@, *old(k) as int, cs@.len() as int);
        }
        if c != '\\' {
            return false;
        }
        if *k >= cs.len() {
            return false;
        }
        let next_c = cs[*k].1;
        if next_c == '`' {
            if *last_idx < idx {
                let tok = text_token(self.code, *last_idx, idx);
                proof {
                    lemma_push_in_order(tokens@, tok, *last_idx as int);
                    lemma_push_shows_text(tokens@, tok, self.code.spec_bytes());
                }
                tokens.push(tok);
            }
            *k = *k + 1;
            proof {
                lemma_pos_grows(cs@, self.code@, *old(k) as int, *k as int);
            }
            *last_idx = idx;
            return true;
        }
        if next_c == '\\' {
            let look = *k + 1;
            let third = if look < cs.len() { cs[look].1 } else { ' ' };
            if look < cs.len() && (third == '$' || third == '[' || third == ']' || third == ';' || third == '\\') {
                if *last_idx < idx {
                    let tok = text_token(self.code, *last_idx, idx);
                    proof {
                        lemma_push_in_order(tokens@, tok, *last_idx as int);
                        lemma_push_shows_text(tokens@, tok, self.code.spec_bytes());
                    }
                    tokens.push(tok);
                }
                *k = *k + 2;
                proof {
                    lemma_pos_grows(cs@, self.code@, *old(k) as int, *k as int);
                }
                *last_idx = idx;
                return true;
            }
        }
        false
    }

    /// `${ ... }` is JavaScript up to the matching brace; without one, the
    /// rest of the text is taken and reported.
    fn handle_js_expression(
        &self,
        cs: &Vec<(usize, char)>,
        k: &mut usize,
        start: usize,
        brace_idx: usize,
        last_idx: &mut usize,
        tokens: &mut Vec<Token>,
        diagnostics: &mut Vec<Diagnostic>,
        ignore: bool,
    ) -> (r: bool)
        requires
            parse_fits(self.code.spec_bytes().len() as int),
            *old(k) <= cs@.len(),
            start < brace_idx < self.code.spec_bytes().len(),
            self.code.spec_bytes()[brace_idx as int] == 0x7bu8,
            tokens_within(old(tokens)@, self.code.spec_bytes().len() as int),
            diags_within(old(diagnostics)@, self.code.spec_bytes().len() as int),
            tokens_in_order(old(tokens)@),
            tokens_show_text(old(tokens)@, self.code.spec_bytes()),
            tokens_before(old(tokens)@, start as int),
            brace_idx == pos_of(cs@, *old(k) as int, self.code.spec_bytes().len() as int),
        ensures
            r,
            *old(k) <= *final(k) <= cs@.len(),
            *final(last_idx) <= self.code.spec_bytes().len(),
            is_char_boundary(self.code.spec_bytes(), *final(last_idx) as int),
            tokens_within(final(tokens)@, self.code.spec_bytes().len() as int),
            diags_within(final(diagnostics)@, self.code.spec_bytes().len() as int),
            diags_kept(old(diagnostics)@, final(diagnostics)@),
            ignore ==> final(diagnostics)@ == old(diagnostics)@,
            tokens_in_order(final(tokens)@),
            tokens_show_text(final(tokens)@, self.code.spec_bytes()),
            tokens_before(final(tokens)@, *final(last_idx) as int),
            tokens_before(final(tokens)@, pos_of(cs@, *final(k) as int, self.code.spec_bytes().len() as int)),
    {
        let ghost b = self.code.spec_bytes();
        let n = self.code.as_bytes().len();
        proof {
            lemma_brace_scan_range(b, brace_idx + 1, 1);
            lemma_ascii_byte_boundaries(b, brace_idx as int);
            is_char_boundary_start_end_of_seq(b);
        }
        match find_matching_brace(self.code, brace_idx) {
            Some(end) => {
                assert(brace_scan(b, brace_idx as int, 0) == brace_scan(b, brace_idx + 1, 1));
                proof {
                    lemma_ascii_byte_boundaries(b, end as int);
                }
                let tok = slice_token(self.code, TokenKind::JavaScript, brace_idx + 1, end, start, end + 1);
                proof {
                    lemma_push_in_order(tokens@, tok, start as int);
                    lemma_push_shows_text(tokens@, tok, self.code.spec_bytes());
                }
                tokens.push(tok);
                skip_through(cs, k, end);
                *last_idx = end + 1;
                true
            },
            None => {
                if !ignore {
                    diagnostics.push(
                        Diagnostic {
                            message: crate::strings::to_owned("Unclosed JS expression"),
                            start,
                            end: n,
                        },
                    );
                }
                *last_idx = n;
                true
            },
        }
    }

    /// Consumes the modifiers `!` (silent), `#` (negated) and `@[...]`.
    fn handle_modifiers(&self, cs: &Vec<(usize, char)>, k: &mut usize) -> (r: (bool, bool))
        requires
            *old(k) <= cs@.len(),
        ensures
            *old(k) <= *final(k) <= cs@.len(),
            mods_scan(cs@, self.code.spec_bytes(), *old(k) as int, false, false) == (*final(k) as int, r.0, r.1),
    {
        let mut silent = false;
        let mut negated = false;
        while *k < cs.len()
            invariant
                *old(k) <= *k <= cs@.len(),
                mods_scan(cs@, self.code.spec_bytes(), *old(k) as int, false, false) == mods_scan(
                    cs@,
                    self.code.spec_bytes(),
                    *k as int,
                    silent,
                    negated,
                ),
            ensures
                *old(k) <= *k <= cs@.len(),
                mods_scan(cs@, self.code.spec_bytes(), *old(k) as int, false, false) == (*k as int, silent, negated),
            decreases cs@.len() - *k,
        {
            let c = cs[*k].1;
            if c == '!' {
                silent = true;
                *k = *k + 1;
            } else if c == '#' {
                negated = true;
                *k = *k + 1;
            } else if c == '@' {
                if *k + 1 < cs.len() && cs[*k + 1].1 == '[' {
                    let idx = cs[*k + 1].0;
                    *k = *k + 2;
                    match find_matching_bracket_raw(self.code.as_bytes(), idx) {
                        Some(e) => {
                            skip_through(cs, k, e);
                        },
                        None => {},
                    }
                } else {
                    break;
                }
            } else {
                break;
            }
        }
        (silent, negated)
    }

    /// Reads the letters, digits and underscores of a function name.
    fn extract_function_name(&self, cs: &Vec<(usize, char)>, k: &mut usize) -> (r: (String, usize, usize))
        requires
            indexes(cs@, self.code@),
            *old(k) <= cs@.len(),
        ensures
            *old(k) <= *final(k) <= cs@.len(),
            r.1 == pos_of(cs@, *old(k) as int, self.code.spec_bytes().len() as int),
            r.2 == pos_of(cs@, *final(k) as int, self.code.spec_bytes().len() as int),
            r.0@.len() == *final(k) - *old(k),
            r.1 <= r.2 <= self.code.spec_bytes().len(),
            is_char_boundary(self.code.spec_bytes(), r.1 as int),
            is_char_boundary(self.code.spec_bytes(), r.2 as int),
            *final(k) == crate::semantic::name_run(cs@, *old(k) as int),
            r.0@ == self.code@.subrange(*old(k) as int, *final(k) as int),
    {
        let ghost b = self.code.spec_bytes();
        let n = self.code.as_bytes().len();
        let start = if *k < cs.len() { cs[*k].0 } else { n };
        let mut name = String::new();
        let mut end = start;
        proof {
            assert(name@ =~= self.code@.subrange(*old(k) as int, *k as int));
        }
        while *k < cs.len()
            invariant
                indexes(cs@, self.code@),
                b == self.code.spec_bytes(),
                n == b.len(),
                *old(k) <= *k <= cs@.len(),
                start == pos_of(cs@, *old(k) as int, n as int),
                end == pos_of(cs@, *k as int, n as int),
                name@.len() == *k - *old(k),
                name@ == self.code@.subrange(*old(k) as int, *k as int),
                crate::semantic::name_run(cs@, *old(k) as int) == crate::semantic::name_run(cs@, *k as int),
            ensures
                *old(k) <= *k <= cs@.len(),
                end == pos_of(cs@, *k as int, n as int),
                name@.len() == *k - *old(k),
                name@ == self.code@.subrange(*old(k) as int, *k as int),
                crate::semantic::name_run(cs@, *old(k) as int) == *k,
            decreases cs@.len() - *k,
        {
            let (i, c) = cs[*k];
            if crate::strings::is_alphanumeric(c) || c == '_' {
                proof {
                    lemma_index_facts(cs@, self.code@, *k as int);
                }
                let ghost before = name@;
                push_char(&mut name, c);
                end = i + crate::chars::len_utf8(c);
                *k = *k + 1;
                proof {
                    assert(name@ =~= self.code@.subrange(*old(k) as int, *k as int));
                }
            } else {
                break;
            }
        }
        proof {
            lemma_pos_grows(cs@, self.code@, *old(k) as int, *k as int);
            if *old(k) < cs@.len() {
                lemma_index_facts(cs@, self.code@, *old(k) as int);
            }
            if *k < cs@.len() {
                lemma_index_facts(cs@, self.code@, *k as int);
            }
            is_char_boundary_start_end_of_seq(b);
        }
        (name, start, end)
    }
}

/// A copy of a token kind.
fn copy_kind(k: &TokenKind) -> (r: TokenKind)
    ensures
        r == *k,
{
    match k {
        TokenKind::Text => TokenKind::Text,
        TokenKind::FunctionName => TokenKind::FunctionName,
        TokenKind::Escaped => TokenKind::Escaped,
        TokenKind::JavaScript => TokenKind::JavaScript,
        TokenKind::Unknown => TokenKind::Unknown,
    }
}

/// Whether the list holds the string.
fn contains_string(v: &Vec<String>, s: &str) -> (r: bool)
    ensures
        r == crate::metadata::names_view(v@).contains(s@),
{
    let mut i: usize = 0;
    while i < v.len()
        invariant
            i <= v@.len(),
            forall|j: int| 0 <= j < i ==> (#[trigger] v@[j])@ != s@,
        decreases v@.len() - i,
    {
        if crate::text::str_eq(v[i].as_str(), s) {
            assert(crate::metadata::names_view(v@)[i as int] == s@);
            return true;
        }
        i = i + 1;
    }
    proof {
        if crate::metadata::names_view(v@).contains(s@) {
            let j = choose|j: int| 0 <= j < v@.len() && crate::metadata::names_view(v@)[j] == s@;
            assert(v@[j]@ == s@);
        }
    }
    false
}

/// `n` is the token `o` moved by `d`.
pub open spec fn shifted_token(n: Token, o: Token, d: int) -> bool {
    n.kind == o.kind && n.text == o.text && n.start == o.start + d && n.end == o.end + d
}

/// `n` is the diagnostic `o` moved by `d`.
pub open spec fn shifted_diag(n: Diagnostic, o: Diagnostic, d: int) -> bool {
    n.message == o.message && n.start == o.start + d && n.end == o.end + d
}

/// Appends the tokens of a parse of a slice that starts at `off`.
fn append_shifted_tokens(tokens: &mut Vec<Token>, src: &Vec<Token>, off: usize, Ghost(m): Ghost<int>, Ghost(n): Ghost<int>, Ghost(b): Ghost<Seq<u8>>)
    requires
        0 <= m,
        tokens_within(src@, m),
        m + off <= n,
        n <= usize::MAX,
        tokens_within(old(tokens)@, n),
        tokens_in_order(src@),
        tokens_in_order(old(tokens)@),
        tokens_before(old(tokens)@, off as int),
        tokens_show_text(src@, b.subrange(off as int, off + m)),
        tokens_show_text(old(tokens)@, b),
        off + m <= b.len(),
    ensures
        tokens_within(final(tokens)@, n),
        tokens_in_order(final(tokens)@),
        tokens_before(final(tokens)@, m + off),
        tokens_show_text(final(tokens)@, b),
        final(tokens)@.len() == old(tokens)@.len() + src@.len(),
        forall|i: int| 0 <= i < old(tokens)@.len() ==> final(tokens)@[i] == old(tokens)@[i],
        forall|i: int| 0 <= i < src@.len() ==> shifted_token(final(tokens)@[old(tokens)@.len() + i], #[trigger] src@[i], off as int),
{
    let ghost first = tokens@;
    let mut i: usize = 0;
    while i < src.len()
        invariant
            tokens@.len() == first.len() + i,
            forall|x: int| 0 <= x < first.len() ==> tokens@[x] == first[x],
            forall|x: int| 0 <= x < i ==> shifted_token(tokens@[first.len() + x], #[trigger] src@[x], off as int),
            i <= src@.len(),
            tokens_within(src@, m),
            m + off <= n,
            n <= usize::MAX,
            tokens_within(tokens@, n),
            tokens_in_order(src@),
            tokens_in_order(tokens@),
            tokens_before(tokens@, m + off),
            i < src@.len() ==> tokens_before(tokens@, src@[i as int].start + off),
            tokens_show_text(src@, b.subrange(off as int, off + m)),
            tokens_show_text(tokens@, b),
            off + m <= b.len(),
        decreases src@.len() - i,
    {
        let t = &src[i];
        let tok = Token { kind: copy_kind(&t.kind), text: t.text.clone(), start: t.start + off, end: t.end + off };
        proof {
            lemma_push_in_order(tokens@, tok, src@[i as int].start + off);
            if i + 1 < src@.len() {
                assert(src@[i as int].start <= src@[i + 1].start);
                assert(tokens_before(tokens@.push(tok), src@[i + 1].start + off));
            }
            assert(tokens_before(tokens@.push(tok), m + off));
            let t = src@[i as int];
            assert(token_shows_text(t, b.subrange(off as int, off + m)));
            assert(b.subrange(off as int, off + m).subrange(t.start as int, t.end as int) =~= b.subrange(
                t.start + off,
                t.end + off,
            ));
            lemma_push_shows_text(tokens@, tok, b);
        }
        tokens.push(tok);
        i = i + 1;
    }
}

/// Appends the diagnostics of a parse of a slice that starts at `off`.
fn append_shifted_diags(diags: &mut Vec<Diagnostic>, src: &Vec<Diagnostic>, off: usize, Ghost(m): Ghost<int>, Ghost(n): Ghost<int>)
    requires
        diags_within(src@, m),
        m + off <= n,
        n <= usize::MAX,
        diags_within(old(diags)@, n),
    ensures
        diags_within(final(diags)@, n),
        final(diags)@.len() == old(diags)@.len() + src@.len(),
        forall|i: int| 0 <= i < old(diags)@.len() ==> final(diags)@[i] == old(diags)@[i],
        forall|i: int| 0 <= i < src@.len() ==> shifted_diag(final(diags)@[old(diags)@.len() + i], #[trigger] src@[i], off as int),
{
    let ghost first = diags@;
    let mut j: usize = 0;
    while j < src.len()
        invariant
            diags@.len() == first.len() + j,
            forall|x: int| 0 <= x < first.len() ==> diags@[x] == first[x],
            forall|x: int| 0 <= x < j ==> shifted_diag(diags@[first.len() + x], #[trigger] src@[x], off as int),
            j <= src@.len(),
            diags_within(src@, m),
            m + off <= n,
            n <= usize::MAX,
            diags_within(diags@, n),
        decreases src@.len() - j,
    {
        let d = &src[j];
        diags.push(Diagnostic { message: d.message.clone(), start: d.start + off, end: d.end + off });
        j = j + 1;
    }
}

/// Appends the functions of a parse of a slice that starts at `off`, their
/// spans moved accordingly.
fn append_shifted_funcs(funcs: &mut Vec<ParsedFunction>, src: &Vec<ParsedFunction>, off: usize, Ghost(m): Ghost<int>, Ghost(n): Ghost<int>)
    requires
        funcs_within(src@, m),
        0 <= m < n,
        m + off <= n,
        n <= usize::MAX,
        funcs_within(old(funcs)@, n),
    ensures
        funcs_within(final(funcs)@, n),
        final(funcs)@.len() == old(funcs)@.len() + src@.len(),
        forall|i: int| 0 <= i < old(funcs)@.len() ==> final(funcs)@[i] == old(funcs)@[i],
        forall|i: int| 0 <= i < src@.len() ==> shifted_fn(final(funcs)@[old(funcs)@.len() + i], #[trigger] src@[i], off as int),
{
    let ghost first = funcs@;
    let mut q: usize = 0;
    while q < src.len()
        invariant
            funcs@.len() == first.len() + q,
            forall|x: int| 0 <= x < first.len() ==> funcs@[x] == first[x],
            forall|x: int| 0 <= x < q ==> shifted_fn(funcs@[first.len() + x], #[trigger] src@[x], off as int),
            q <= src@.len(),
            funcs_within(src@, m),
            0 <= m < n,
            m + off <= n,
            n <= usize::MAX,
            funcs_within(funcs@, n),
        decreases src@.len() - q,
    {
        let f = &src[q];
        proof {
            lemma_within_mono(*f, m, usize::MAX - off);
        }
        let g = shifted_copy(f, off);
        proof {
            lemma_shift_within(g, *f, off as int, m);
            lemma_within_mono(g, m + off, n);
        }
        funcs.push(g);
        q = q + 1;
    }
}

impl<'a> ForgeScriptParser<'a> {
    /// `$esc[...]` and the like: the bracket content is taken literally up to
    /// the matching bracket. Returns whether the name was an escape function.
    fn handle_escape_function(
        &self,
        cs: &Vec<(usize, char)>,
        k: &mut usize,
        start: usize,
        name: &str,
        end: usize,
        last: &mut usize,
        tokens: &mut Vec<Token>,
        diags: &mut Vec<Diagnostic>,
        ignore: bool,
    ) -> (r: bool)
        requires
            indexes(cs@, self.code@),
            *old(k) <= cs@.len(),
            start < end <= self.code.spec_bytes().len(),
            is_char_boundary(self.code.spec_bytes(), start as int),
            is_char_boundary(self.code.spec_bytes(), end as int),
            tokens_within(old(tokens)@, self.code.spec_bytes().len() as int),
            diags_within(old(diags)@, self.code.spec_bytes().len() as int),
            pos_of(cs@, *old(k) as int, self.code.spec_bytes().len() as int) == end,
            tokens_in_order(old(tokens)@),
            tokens_show_text(old(tokens)@, self.code.spec_bytes()),
            tokens_before(old(tokens)@, start as int),
        ensures
            !r ==> *final(k) == *old(k) && *final(last) == *old(last) && final(tokens)@ == old(tokens)@
                && final(diags)@ == old(diags)@,
            r ==> *old(k) <= *final(k) <= cs@.len(),
            r ==> *final(last) <= self.code.spec_bytes().len(),
            r ==> is_char_boundary(self.code.spec_bytes(), *final(last) as int),
            tokens_within(final(tokens)@, self.code.spec_bytes().len() as int),
            diags_within(final(diags)@, self.code.spec_bytes().len() as int),
            diags_kept(old(diags)@, final(diags)@),
            tokens_in_order(final(tokens)@),
            tokens_show_text(final(tokens)@, self.code.spec_bytes()),
            r ==> tokens_before(final(tokens)@, *final(last) as int),
            r ==> tokens_before(final(tokens)@, pos_of(cs@, *final(k) as int, self.code.spec_bytes().len() as int)),
            r == crate::text::is_escape_name(name@),
            r && bracket_at(cs@, *old(k) as int) ==> match crate::text::spec_matching_bracket_raw(
                self.code.spec_bytes(),
                cs@[*old(k) as int].0 as int,
            ) {
                Some(close) => {
                    &&& *final(k) == skip_to(cs@, *old(k) as int, close)
                    &&& *final(last) == close + 1
                    &&& final(diags)@ == old(diags)@
                    &&& final(tokens)@.len() == old(tokens)@.len() + 1
                    &&& final(tokens)@.drop_last() == old(tokens)@
                    &&& final(tokens)@.last().kind == TokenKind::Escaped
                    &&& final(tokens)@.last().start == start
                    &&& final(tokens)@.last().end == close + 1
                    &&& final(tokens)@.last().text@ == decode_utf8(
                        self.code.spec_bytes().subrange(cs@[*old(k) as int].0 + 1, close),
                    )
                },
                None => {
                    &&& *final(k) == *old(k)
                    &&& *final(last) == self.code.spec_bytes().len()
                    &&& final(tokens)@ == old(tokens)@
                    &&& ignore ==> final(diags)@ == old(diags)@
                    &&& !ignore ==> {
                        &&& final(diags)@.len() == old(diags)@.len() + 1
                        &&& final(diags)@.drop_last() == old(diags)@
                        &&& final(diags)@.last().message@ == "Unclosed '[' for function `"@ + seq!['$'] + name@ + "`"@
                        &&& final(diags)@.last().start == start
                        &&& final(diags)@.last().end == self.code.spec_bytes().len()
                    }
                },
            },
            r && !bracket_at(cs@, *old(k) as int) ==> {
                &&& *final(k) == *old(k)
                &&& *final(last) == end
                &&& final(tokens)@.len() == old(tokens)@.len() + 1
                &&& final(tokens)@.drop_last() == old(tokens)@
                &&& final(tokens)@.last().kind == TokenKind::Unknown
                &&& final(tokens)@.last().start == start
                &&& final(tokens)@.last().end == end
                &&& ignore ==> final(diags)@ == old(diags)@
                &&& !ignore ==> {
                    &&& final(diags)@.len() == old(diags)@.len() + 1
                    &&& final(diags)@.drop_last() == old(diags)@
                    &&& final(diags)@.last().message@ == ""@ + seq!['$'] + name@ + " expects brackets `[...]` containing content to escape"@
                    &&& final(diags)@.last().start == start
                    &&& final(diags)@.last().end == end
                }
            },
    {
        let ghost b = self.code.spec_bytes();
        let n = self.code.as_bytes().len();
        if !crate::text::is_escape_function(name) {
            return false;
        }
        proof {
            is_char_boundary_start_end_of_seq(b);
        }
        if *k < cs.len() && cs[*k].1 == '[' {
            let idx = cs[*k].0;
            proof {
                lemma_index_facts(cs@, self.code@, *k as int);
                crate::text::lemma_raw_scan_range(b, idx + 1);
                lemma_ascii_byte_boundaries(b, idx as int);
            }
            match find_matching_bracket_raw(self.code.as_bytes(), idx) {
                Some(close) => {
                    assert(crate::text::raw_scan(b, idx as int, 0) == crate::text::raw_scan(b, idx + 1, 1));
                    proof {
                        lemma_ascii_byte_boundaries(b, close as int);
                    }
                    let tok = slice_token(self.code, TokenKind::Escaped, idx + 1, close, start, close + 1);
                    proof {
                        lemma_push_in_order(tokens@, tok, start as int);
                        lemma_push_shows_text(tokens@, tok, self.code.spec_bytes());
                    }
                    tokens.push(tok);
                    skip_through(cs, k, close);
                    *last = close + 1;
                    return true;
                },
                None => {
                    if !ignore {
                        diags.push(Diagnostic { message: name_message("Unclosed '[' for function `", name, "`"), start, end: n });
                    }
                    *last = n;
                    return true;
                },
            }
        }
        if !ignore {
            diags.push(Diagnostic { message: name_message("", name, " expects brackets `[...]` containing content to escape"), start, end });
        }
        let tok = slice_token(self.code, TokenKind::Unknown, start, end, start, end);
        proof {
            lemma_push_in_order(tokens@, tok, start as int);
            lemma_push_shows_text(tokens@, tok, self.code.spec_bytes());
        }
        tokens.push(tok);
        *last = end;
        true
    }

    /// Looks the name up: exactly when a bracket follows, else the longest
    /// known name within it, which must start the name (case-insensitively).
    /// Returns the function's name without `$` and where the match ends.
    fn find_matched_function(
        &self,
        cs: &Vec<(usize, char)>,
        k: usize,
        full: &str,
        start: usize,
        end: usize,
    ) -> (r: (Option<(String, Arc<Function>)>, usize))
        requires
            start <= end <= self.code.spec_bytes().len(),
        ensures
            r.0 is None ==> r.1 == end,
            r.0 is Some ==> start <= r.1 <= self.code.spec_bytes().len(),
            bracket_at(cs@, k as int) && !self.metadata().functions().contains_key(
                crate::trie::lowercase_key(seq!['$'] + full@),
            ) ==> r.0 is None,
            !bracket_at(cs@, k as int) && crate::trie::spec_trie_get(
                self.metadata().functions(),
                crate::trie::lowercase_key(seq!['$'] + full@),
            ) is None ==> r.0 is None,
            is_char_boundary(self.code.spec_bytes(), end as int) ==> is_char_boundary(self.code.spec_bytes(), r.1 as int),
            bracket_at(cs@, k as int) && self.metadata().functions().contains_key(
                crate::trie::lowercase_key(seq!['$'] + full@),
            ) ==> {
                &&& r.0 is Some
                &&& (r.0->0).1 == self.metadata().functions()[crate::trie::lowercase_key(seq!['$'] + full@)]
                &&& (r.0->0).0@ == crate::strings::strip_dollars((r.0->0).1.name@)
                &&& r.1 == end
            },
    {
        let n = self.code.as_bytes().len();
        let key = crate::strings::dollar_name(full);
        if k < cs.len() && cs[k].1 == '[' {
            match self.manager.get_exact(key.as_str()) {
                Some(f) => {
                    let nm = crate::strings::trim_dollars(f.name.as_str());
                    return (Some((nm, f)), end);
                },
                None => {},
            }
        } else {
            match self.manager.get_with_match(key.as_str()) {
                Some((matched, f)) => {
                    let m = crate::strings::trim_dollars(matched.as_str());
                    let lower = crate::text::to_lowercase(full);
                    if starts_with(lower.as_str(), m.as_str()) {
                        let ml = m.as_str().as_bytes().len();
                        if ml <= n - start && self.code.is_char_boundary(start + ml) {
                            let nm = crate::strings::trim_dollars(f.name.as_str());
                            return (Some((nm, f)), start + ml);
                        }
                    }
                },
                None => {},
            }
        }
        (None, end)
    }

    /// A call of an unknown function is reported; its bracket content, if
    /// closed, is parsed on its own.
    #[verifier::rlimit(40)]
    fn handle_unknown_function_call(
        &self,
        cs: &Vec<(usize, char)>,
        k: &mut usize,
        name: &str,
        name_end: usize,
        start: usize,
        last: &mut usize,
        tokens: &mut Vec<Token>,
        diags: &mut Vec<Diagnostic>,
        funcs: &mut Vec<ParsedFunction>,
        ignore: bool,
    )
        requires
            parse_fits(self.code.spec_bytes().len() as int),
            indexes(cs@, self.code@),
            *old(k) <= cs@.len(),
            start < name_end <= self.code.spec_bytes().len(),
            is_char_boundary(self.code.spec_bytes(), start as int),
            is_char_boundary(self.code.spec_bytes(), name_end as int),
            tokens_within(old(tokens)@, self.code.spec_bytes().len() as int),
            diags_within(old(diags)@, self.code.spec_bytes().len() as int),
            funcs_within(old(funcs)@, self.code.spec_bytes().len() as int),
            pos_of(cs@, *old(k) as int, self.code.spec_bytes().len() as int) == name_end,
            tokens_in_order(old(tokens)@),
            tokens_show_text(old(tokens)@, self.code.spec_bytes()),
            tokens_before(old(tokens)@, start as int),
        ensures
            *old(k) <= *final(k) <= cs@.len(),
            *final(last) <= self.code.spec_bytes().len(),
            is_char_boundary(self.code.spec_bytes(), *final(last) as int),
            tokens_within(final(tokens)@, self.code.spec_bytes().len() as int),
            diags_within(final(diags)@, self.code.spec_bytes().len() as int),
            funcs_within(final(funcs)@, self.code.spec_bytes().len() as int),
            tokens_in_order(final(tokens)@),
            tokens_show_text(final(tokens)@, self.code.spec_bytes()),
            tokens_before(final(tokens)@, *final(last) as int),
            tokens_before(final(tokens)@, pos_of(cs@, *final(k) as int, self.code.spec_bytes().len() as int)),
            diags_kept(old(diags)@, final(diags)@),
            funcs_kept(old(funcs)@, final(funcs)@),
            ignore ==> final(diags)@ == old(diags)@ && final(funcs)@ == old(funcs)@,
            !bracket_at(cs@, *old(k) as int) ==> *final(k) == *old(k) && final(funcs)@ == old(funcs)@
                && final(diags)@.len() == old(diags)@.len() + (if ignore { 0int } else { 1int }),
            !ignore && bracket_at(cs@, *old(k) as int) && crate::text::spec_matching_bracket(
                self.code.spec_bytes(),
                cs@[*old(k) as int].0 as int,
            ) is Some && !decode_utf8(
                self.code.spec_bytes().subrange(
                    cs@[*old(k) as int].0 + 1,
                    crate::text::spec_matching_bracket(self.code.spec_bytes(), cs@[*old(k) as int].0 as int)->0,
                ),
            ).contains('$') ==> {
                let c = crate::text::spec_matching_bracket(self.code.spec_bytes(), cs@[*old(k) as int].0 as int)->0;
                &&& *final(k) == skip_to(cs@, *old(k) as int, c)
                &&& final(diags)@.len() == old(diags)@.len() + 1
                &&& final(funcs)@.len() == old(funcs)@.len() + 1
                &&& final(funcs)@.last().name@ == name@
                &&& final(funcs)@.last().span.0 == start
                &&& final(funcs)@.last().span.1 == c + 1
            },
            !ignore && bracket_at(cs@, *old(k) as int) && crate::text::spec_matching_bracket(
                self.code.spec_bytes(),
                cs@[*old(k) as int].0 as int,
            ) is None ==> {
                &&& *final(k) == *old(k) + 1
                &&& final(funcs)@ == old(funcs)@
                &&& final(diags)@.len() == old(diags)@.len() + 2
                &&& final(diags)@[old(diags)@.len() + 1int].message@ == "Unclosed '[' for function `"@ + seq!['$'] + name@
                    + "`"@
                &&& final(diags)@[old(diags)@.len() + 1int].start == cs@[*old(k) as int].0
                &&& final(diags)@[old(diags)@.len() + 1int].end == self.code.spec_bytes().len()
            },
            !ignore ==> {
                &&& final(diags)@.len() > old(diags)@.len()
                &&& final(diags)@[old(diags)@.len() as int].message@ == "Unknown function `"@ + seq!['$'] + name@
                    + "`"@
                &&& final(diags)@[old(diags)@.len() as int].start == start
                &&& final(diags)@[old(diags)@.len() as int].end == unknown_call_end(
                    self.code.spec_bytes(),
                    cs@,
                    *old(k) as int,
                    name_end as int,
                )
            },
        decreases self.code.spec_bytes().len(), 1int,
    {
        let ghost b = self.code.spec_bytes();
        let n = self.code.as_bytes().len();
        let call_end: usize = if *k < cs.len() && cs[*k].1 == '[' {
            let open = cs[*k].0;
            proof {
                lemma_index_facts(cs@, self.code@, *k as int);
                lemma_ascii_byte_boundaries(b, open as int);
                crate::text::lemma_call_scan_range(b, open as int, open as int);
            }
            match crate::text::find_matching_bracket(self.code, open) {
                Some(close) => close + 1,
                None => name_end,
            }
        } else {
            name_end
        };
        if !ignore {
            diags.push(Diagnostic { message: name_message("Unknown function `", name, "`"), start, end: call_end });
        }
        let tok = slice_token(self.code, TokenKind::Unknown, start, name_end, start, name_end);
        proof {
            lemma_push_in_order(tokens@, tok, start as int);
            lemma_push_shows_text(tokens@, tok, self.code.spec_bytes());
        }
        tokens.push(tok);
        *last = name_end;
        if *k < cs.len() && cs[*k].1 == '[' {
            let idx = cs[*k].0;
            proof {
                lemma_index_facts(cs@, self.code@, *k as int);
                lemma_ascii_byte_boundaries(b, idx as int);
                crate::text::lemma_call_scan_range(b, idx as int, idx as int);
            }
            match crate::text::find_matching_bracket(self.code, idx) {
                Some(close) => {
                    proof {
                        lemma_ascii_byte_boundaries(b, close as int);
                    }
                    let inner = substr(self.code, idx + 1, close);
                    let ghost m = inner.spec_bytes().len() as int;
                    if !ignore {
                        let meta = unknown_function_meta(name);
                        funcs.push(
                            ParsedFunction {
                                name: crate::strings::to_owned(name),
                                matched: crate::strings::to_owned(name),
                                args: None,
                                span: (start, close + 1),
                                silent: false,
                                negated: false,
                                count: None,
                                meta: Arc::new(meta),
                            },
                        );
                        proof {
                            lemma_within_max(funcs@.last());
                            let l = funcs@.last();
                            assert(spans_within(l, n as int));
                        }
                    }
                    let open_tok = slice_token(self.code, TokenKind::Text, idx, idx + 1, idx, idx + 1);
                    proof {
                        lemma_push_in_order(tokens@, open_tok, idx as int);
                        lemma_push_shows_text(tokens@, open_tok, self.code.spec_bytes());
                    }
                    tokens.push(open_tok);
                    proof {
                        lemma_parse_fits_smaller(n as int, m);
                    }
                    let parser = ForgeScriptParser::new_internal(crate::trie::share(&self.manager), inner);
                    let res = parser.parse_internal();
                    let off = idx + 1;
                    append_shifted_tokens(tokens, &res.tokens, off, Ghost(m), Ghost(n as int), Ghost(b));
                    if !ignore {
                        append_shifted_diags(diags, &res.diagnostics, off, Ghost(m), Ghost(n as int));
                        append_shifted_funcs(funcs, &res.functions, off, Ghost(m), Ghost(n as int));
                    }
                    let close_tok = slice_token(self.code, TokenKind::Text, close, close + 1, close, close + 1);
                    proof {
                        lemma_push_in_order(tokens@, close_tok, close as int);
                        lemma_push_shows_text(tokens@, close_tok, self.code.spec_bytes());
                    }
                    tokens.push(close_tok);
                    skip_through(cs, k, close);
                    *last = close + 1;
                },
                None => {
                    if !ignore {
                        diags.push(Diagnostic { message: name_message("Unclosed '[' for function `", name, "`"), start: idx, end: n });
                        let open_tok = slice_token(self.code, TokenKind::Text, idx, idx + 1, idx, idx + 1);
                        proof {
                            lemma_push_in_order(tokens@, open_tok, idx as int);
                            lemma_push_shows_text(tokens@, open_tok, self.code.spec_bytes());
                        }
                        tokens.push(open_tok);
                        *k = *k + 1;
                        *last = idx + 1;
                    }
                },
            }
        }
    }
}

impl<'a> ForgeScriptParser<'a> {
    /// A call of a known function: its bracketed arguments are parsed and
    /// checked against the metadata.
    #[verifier::rlimit(60)]
    fn handle_matched_function(
        &self,
        cs: &Vec<(usize, char)>,
        k: &mut usize,
        name: String,
        meta: Arc<Function>,
        start: usize,
        used_end: usize,
        full_end: usize,
        silent: bool,
        negated: bool,
        last: &mut usize,
        tokens: &mut Vec<Token>,
        diags: &mut Vec<Diagnostic>,
        funcs: &mut Vec<ParsedFunction>,
        ignore: bool,
    )
        requires
            parse_fits(self.code.spec_bytes().len() as int),
            indexes(cs@, self.code@),
            *old(k) <= cs@.len(),
            start < used_end <= self.code.spec_bytes().len(),
            start < full_end <= self.code.spec_bytes().len(),
            is_char_boundary(self.code.spec_bytes(), start as int),
            is_char_boundary(self.code.spec_bytes(), used_end as int),
            is_char_boundary(self.code.spec_bytes(), full_end as int),
            tokens_within(old(tokens)@, self.code.spec_bytes().len() as int),
            diags_within(old(diags)@, self.code.spec_bytes().len() as int),
            funcs_within(old(funcs)@, self.code.spec_bytes().len() as int),
            pos_of(cs@, *old(k) as int, self.code.spec_bytes().len() as int) == full_end,
            tokens_in_order(old(tokens)@),
            tokens_show_text(old(tokens)@, self.code.spec_bytes()),
            tokens_before(old(tokens)@, start as int),
        ensures
            *old(k) <= *final(k) <= cs@.len(),
            *final(last) <= self.code.spec_bytes().len(),
            is_char_boundary(self.code.spec_bytes(), *final(last) as int),
            tokens_within(final(tokens)@, self.code.spec_bytes().len() as int),
            diags_within(final(diags)@, self.code.spec_bytes().len() as int),
            diags_kept(old(diags)@, final(diags)@),
            funcs_within(final(funcs)@, self.code.spec_bytes().len() as int),
            funcs_kept(old(funcs)@, final(funcs)@),
            !ignore ==> {
                &&& final(funcs)@.len() > old(funcs)@.len()
                &&& final(funcs)@.last().span.0 == start
                &&& final(funcs)@.last().meta == meta
                &&& final(funcs)@.last().name@ == crate::strings::strip_dollars(meta.name@)
            },
            !ignore && used_end == full_end && bracket_at(cs@, *old(k) as int)
                && crate::text::spec_matching_bracket(self.code.spec_bytes(), cs@[*old(k) as int].0 as int) is None ==> {
                &&& final(diags)@.len() > old(diags)@.len()
                &&& final(diags)@[old(diags)@.len() as int].message@ == "Unclosed '[' for function `"@ + seq!['$']
                    + name@ + "`"@
                &&& final(diags)@[old(diags)@.len() as int].start == start
                &&& final(diags)@[old(diags)@.len() as int].end == self.code.spec_bytes().len()
            },
            !ignore && used_end == full_end && bracket_at(cs@, *old(k) as int)
                && crate::text::spec_matching_bracket(self.code.spec_bytes(), cs@[*old(k) as int].0 as int) is Some ==> {
                &&& final(funcs)@.last().span.1 == crate::text::spec_matching_bracket(
                    self.code.spec_bytes(),
                    cs@[*old(k) as int].0 as int,
                )->0 + 1
                &&& (final(funcs)@.last().args is Some <==> meta.brackets is Some)
            },
            !ignore && used_end == full_end && bracket_at(cs@, *old(k) as int) && meta.brackets is Some
                && crate::text::spec_matching_bracket(self.code.spec_bytes(), cs@[*old(k) as int].0 as int) is Some ==> {
                let open = cs@[*old(k) as int].0 as int;
                let close = crate::text::spec_matching_bracket(self.code.spec_bytes(), open)->0;
                let tb = self.code.spec_bytes().subrange(open + 1, close);
                final(funcs)@.last().args matches Some(v) && args_of_text(v@, decode_utf8(tb), tb)
            },
            !ignore && used_end == full_end && bracket_at(cs@, *old(k) as int) && meta.brackets is Some
                && crate::text::spec_matching_bracket(self.code.spec_bytes(), cs@[*old(k) as int].0 as int) is Some
                && all_quiet(
                decode_utf8(
                    self.code.spec_bytes().subrange(
                        cs@[*old(k) as int].0 + 1,
                        crate::text::spec_matching_bracket(self.code.spec_bytes(), cs@[*old(k) as int].0 as int)->0,
                    ),
                ),
                self.code.spec_bytes().subrange(
                    cs@[*old(k) as int].0 + 1,
                    crate::text::spec_matching_bracket(self.code.spec_bytes(), cs@[*old(k) as int].0 as int)->0,
                ),
            ) ==> {
                let open = cs@[*old(k) as int].0 as int;
                let c = crate::text::spec_matching_bracket(self.code.spec_bytes(), open)->0;
                &&& *final(k) == skip_to(cs@, *old(k) as int, c)
                &&& diags_view(final(diags)@) == diags_view(old(diags)@) + quiet_call_diags(
                    name@,
                    *meta,
                    self.metadata().enum_table(),
                    self.code.spec_bytes(),
                    start as int,
                    open,
                    c,
                )
                &&& funcs_view(final(funcs)@) == funcs_view(old(funcs)@).push(
                    (crate::strings::strip_dollars(meta.name@), start as int, c + 1),
                )
            },
            tokens_in_order(final(tokens)@),
            tokens_show_text(final(tokens)@, self.code.spec_bytes()),
            tokens_before(final(tokens)@, *final(last) as int),
            tokens_before(final(tokens)@, pos_of(cs@, *final(k) as int, self.code.spec_bytes().len() as int)),
        decreases self.code.spec_bytes().len(), 1int,
    {
        let ghost b = self.code.spec_bytes();
        let ghost d0 = diags@;
        let ghost f0 = funcs@;
        let ghost mut quiet_path = false;
        let n = self.code.as_bytes().len();
        let mut args_range: Option<(usize, usize)> = None;
        let has_suffix = used_end < full_end;
        proof {
            is_char_boundary_start_end_of_seq(b);
        }
        if !has_suffix {
            if *k < cs.len() && cs[*k].1 == '[' {
                let idx = cs[*k].0;
                proof {
                    lemma_index_facts(cs@, self.code@, *k as int);
                    lemma_ascii_byte_boundaries(b, idx as int);
                    crate::text::lemma_call_scan_range(b, idx as int, idx as int);
                }
                match crate::text::find_matching_bracket(self.code, idx) {
                    Some(close) => {
                        proof {
                            lemma_ascii_byte_boundaries(b, close as int);
                        }
                        args_range = Some((idx + 1, close));
                        skip_through(cs, k, close);
                        *last = close + 1;
                    },
                    None => {
                        if !ignore {
                            let d = Diagnostic {
                                message: name_message("Unclosed '[' for function `", name.as_str(), "`"),
                                start,
                                end: n,
                            };
                            proof {
                                lemma_kept_push(diags@, d);
                            }
                            diags.push(d);
                        }
                        *last = n;
                    },
                }
            } else {
                *last = used_end;
            }
        } else {
            *last = full_end;
        }
        let (min, max) = compute_arg_counts(&meta);
        let mut parsed_args: Option<Vec<(Vec<ParsedArg>, (usize, usize))>> = None;
        match args_range {
            Some((a, e)) => {
                if meta.brackets.is_some() {
                    let inner = substr(self.code, a, e);
                    let ghost d1 = diags@;
                    let ghost f1 = funcs@;
                    let vec = parse_nested_args(inner, &self.manager, diags, funcs, a, Ghost(n as int));
                    proof {
                        assert forall|x: int| 0 <= x < vec@.len() implies args_piece(
                            #[trigger] vec@[x],
                            nested_arg_pieces(inner@, inner.spec_bytes())[x],
                        ) by {
                            lemma_entry_piece(vec@[x], nested_arg_pieces(inner@, inner.spec_bytes())[x], a as int, f1.len() as int, funcs@);
                        }
                    }
                    let ghost before = diags@;
                    proof {
                        lemma_kept_trans(d0, d1, before);
                    }
let ghost quiet = all_quiet(inner@, inner.spec_bytes());
                    let ghost before_view = diags_view(diags@);
                    let rest_args = any_rest(&meta);
                    validate_arg_count(
                        name.as_str(),
                        vec.len(),
                        min,
                        max,
                        rest_args,
                        diags,
                        (start, *last),
                        self.code,
                        ignore,
                    );
                    proof {
                        if !ignore {
                            if diags@.len() == before.len() + 1 {
                                lemma_diags_view_push(before, diags@);
                            }
                            assert(diags_view(diags@) =~= before_view + count_diags(
                                name@,
                                vec@.len() as int,
                                min as int,
                                max as int,
                                rest_args,
                                start as int,
                                *last as int,
                            ));
                        }
                    }
                    proof {
                        assert forall|i: int| 0 <= i < diags@.len() implies (#[trigger] diags@[i]).start <= n && diags@[i].end <= n by {
                            if i < before.len() && diags@.len() > before.len() {
                                assert(diags@[i] == diags@.drop_last()[i]);
                            }
                        }
                    }
                    proof {
                        lemma_kept_trans(d0, before, diags@);
                    }
                    if !ignore {
                        match &meta.args {
                            Some(m_args) => {
                                let ghost d2 = diags@;
                                validate_arg_enums(name.as_str(), &vec, m_args, &self.manager, diags, self.code, Ghost(n as int));
                                proof {
                                    lemma_kept_trans(d0, d2, diags@);
                                    if quiet {
                                        lemma_quiet_enum_diags(
                                            name@,
                                            vec@,
                                            nested_arg_pieces(inner@, inner.spec_bytes()),
                                            a as int,
                                            f1.len() as int,
                                            funcs@,
                                            m_args@,
                                            self.metadata().enum_table(),
                                            vec@.len() as int,
                                        );
                                    }
                                }
                            },
                            None => {},
                        }
                    }
                    proof {
                        lemma_list_within_from(vec@, 0, (n as int));
                        if quiet && !ignore {
                            assert(d1 == d0);
                            assert(before == d1);
                            assert(f1 == funcs@);
                            assert(f1 == f0);
                            quiet_path = true;
                            assert(diags_view(diags@) =~= diags_view(d0) + quiet_call_diags(
                                name@,
                                *meta,
                                self.metadata().enum_table(),
                                b,
                                start as int,
                                a - 1,
                                e as int,
                            ));
                        }
                    }
                    parsed_args = Some(vec);
                } else if !ignore {
                    let d = Diagnostic {
                        message: name_message("", name.as_str(), " does not accept brackets"),
                        start,
                        end: *last,
                    };
                    proof {
                        lemma_kept_push(diags@, d);
                        lemma_kept_trans(d0, diags@, diags@.push(d));
                    }
                    diags.push(d);
                }
            },
            None => {
                if matches!(meta.brackets, Some(true)) && !ignore {
                    let d = Diagnostic { message: name_message("", name.as_str(), " expects brackets"), start, end: used_end };
                    proof {
                        lemma_kept_push(diags@, d);
                        lemma_kept_trans(d0, diags@, diags@.push(d));
                    }
                    diags.push(d);
                }
            },
        }
        proof {
            lemma_pos_grows(cs@, self.code@, *old(k) as int, *k as int);
        }
        let name_tok = slice_token(self.code, TokenKind::FunctionName, start, used_end, start, used_end);
        proof {
            lemma_push_in_order(tokens@, name_tok, start as int);
            lemma_push_shows_text(tokens@, name_tok, self.code.spec_bytes());
        }
        tokens.push(name_tok);
        if has_suffix {
            let suffix_tok = text_token(self.code, used_end, full_end);
            proof {
                assert(tokens_before(tokens@, used_end as int));
                lemma_push_in_order(tokens@, suffix_tok, used_end as int);
                lemma_push_shows_text(tokens@, suffix_tok, self.code.spec_bytes());
            }
            tokens.push(suffix_tok);
        }
        if !ignore {
            let span_end = if has_suffix { used_end } else { *last };
            let pf = ParsedFunction {
                name: crate::strings::trim_dollars(meta.name.as_str()),
                matched: crate::strings::to_owned(substr(self.code, start, used_end)),
                args: parsed_args,
                span: (start, span_end),
                silent,
                negated,
                count: None,
                meta,
            };
            proof {
            }
let ghost fprev = funcs@;
            funcs.push(pf);
            proof {
                if quiet_path {
                    assert(fprev == f0);
                }
                assert(funcs_view(funcs@) =~= funcs_view(fprev).push(
                    (funcs@.last().name@, funcs@.last().span.0 as int, funcs@.last().span.1 as int),
                ));
            }
        }
    }
}

/// Appending a character adds its encoded width.
proof fn lemma_push_len(before: Seq<char>, c: char)
    ensures
        encode_utf8(before.push(c)).len() == encode_utf8(before).len() + utf8_width(c),
{
    assert(before.push(c) =~= before + seq![c]);
    crate::text::lemma_encode_utf8_append(before, seq![c]);
    let one = seq![c];
    assert(one.drop_first() =~= Seq::<char>::empty());
    assert(encode_utf8(one.drop_first()) =~= Seq::<u8>::empty());
    assert(encode_utf8(one) =~= encode_scalar(c as u32));
}

proof fn lemma_encode_newline(before: Seq<char>)
    ensures
        encode_utf8(before.push('\n')) == encode_utf8(before) + seq![0x0au8],
{
    assert(before.push('\n') =~= before + seq!['\n']);
    crate::text::lemma_encode_utf8_append(before, seq!['\n']);
    let one = seq!['\n'];
    assert(is_ascii_chars(one));
    is_ascii_chars_encode_utf8(one);
    assert(encode_utf8(one) =~= seq![0x0au8]);
}

proof fn lemma_ascii_width(c: char)
    requires
        (c as u32) < 0x80,
    ensures
        utf8_width(c) == 1,
{
}

/// Copying an escape function's text whole keeps the argument text no longer
/// than the input consumed.
proof fn lemma_escape_step(
    ib: Seq<u8>,
    chars_text: Seq<char>,
    cs: Seq<(usize, char)>,
    c_idx: int,
    byte_idx: int,
    e: int,
    before: Seq<char>,
)
    requires
        ib == encode_utf8(chars_text),
        indexes(cs, chars_text),
        0 <= c_idx < cs.len(),
        cs[c_idx].0 == byte_idx,
        escape_end_from(ib, byte_idx) == Some(e),
    ensures
        0 < e,
        byte_idx + e < ib.len(),
        encode_utf8(before + decode_utf8(ib.subrange(byte_idx, byte_idx + e + 1))).len() == encode_utf8(before).len() + e + 1,
        cs[c_idx].0 + e + 1 <= pos_of(cs, c_idx + e + 1, ib.len() as int),
{
    let t = ib.subrange(byte_idx, ib.len() as int);
    lemma_index_facts(cs, chars_text, c_idx);
    lemma_escape_end_after(t, 0);
    lemma_pos_grows(cs, chars_text, c_idx, c_idx + e + 1);
    valid_utf8_split(ib, byte_idx);
    assert(t[e] == ib[byte_idx + e]);
    lemma_ascii_byte_boundaries(t, e);
    valid_utf8_split(t, e + 1);
    let piece = ib.subrange(byte_idx, byte_idx + e + 1);
    assert(t.subrange(0, e + 1) =~= piece);
    crate::text::lemma_encode_utf8_append(before, decode_utf8(piece));
}

/// A backslash escape copies exactly the characters it consumes.
proof fn lemma_backslash_step(
    chars_text: Seq<char>,
    cs: Seq<(usize, char)>,
    c_idx: int,
    jump: int,
    before: Seq<char>,
    after: Seq<char>,
)
    requires
        indexes(cs, chars_text),
        0 <= c_idx < cs.len(),
        cs[c_idx].1 == '\\',
        if c_idx + 1 < cs.len() && cs[c_idx + 1].1 == '`' {
            jump == 2 && after == before + seq!['\\', '`']
        } else if c_idx + 2 < cs.len() && cs[c_idx + 1].1 == '\\' && is_arg_escapable(cs[c_idx + 2].1) {
            jump == 3 && after == before + seq!['\\', '\\', cs[c_idx + 2].1]
        } else {
            jump == 1 && after == before.push('\\')
        },
    ensures
        encode_utf8(after).len() + cs[c_idx].0 == encode_utf8(before).len() + pos_of(cs, c_idx + jump, encode_utf8(chars_text).len() as int),
{
    lemma_index_facts(cs, chars_text, c_idx);
    lemma_ascii_width('\\');
    lemma_push_len(before, '\\');
    if jump == 2 {
        lemma_index_facts(cs, chars_text, c_idx + 1);
        lemma_ascii_width('`');
        lemma_push_len(before.push('\\'), '`');
        assert(after =~= before.push('\\').push('`'));
    } else if jump == 3 {
        lemma_index_facts(cs, chars_text, c_idx + 1);
        lemma_index_facts(cs, chars_text, c_idx + 2);
        lemma_push_len(before.push('\\'), '\\');
        lemma_push_len(before.push('\\').push('\\'), cs[c_idx + 2].1);
        assert(after =~= before.push('\\').push('\\').push(cs[c_idx + 2].1));
    }
}

/// Byte offset where the trimmed text of `cs` starts.
pub open spec fn trim_start_byte(cs: Seq<char>) -> int {
    byte_offset(cs, crate::strings::trim_range(cs).0)
}

/// Byte offset where the trimmed text of `cs` ends.
pub open spec fn trim_end_byte(cs: Seq<char>) -> int {
    byte_offset(cs, crate::strings::trim_range(cs).1)
}

/// An argument text that is parsed as a call: it starts with `$` and is not
/// forced to be literal.
pub open spec fn call_arg(text: Seq<char>, force: bool) -> bool {
    !force && text.len() > 0 && text[0] == '$'
}

/// The character at index `i` follows two backslashes.
pub open spec fn escaped_in_args(cs: Seq<(usize, char)>, i: int) -> bool {
    2 <= i && i - 1 < cs.len() && cs[i - 2].1 == '\\' && cs[i - 1].1 == '\\'
}

/// The raw arguments of an argument text with bytes `b` and characters `cs`,
/// read from character index `i` at bracket depth `depth`, with `cur` read so
/// far for an argument that starts at byte `start`: each argument's text
/// (escapes kept as written) and where it starts. A `;` outside nested calls
/// ends an argument; escape calls at depth zero are copied whole, reading
/// resuming at the first character after them; `\``, and
/// `\\` before an escapable character, are kept together; a `[` opens a
/// nested call when a call name precedes it and it is not escaped. The last
/// argument counts when a `;` came before it or it is not empty.
pub open spec fn arg_pieces(
    b: Seq<u8>,
    cs: Seq<(usize, char)>,
    i: int,
    depth: int,
    cur: Seq<char>,
    start: int,
    seen: bool,
) -> Seq<(Seq<char>, int)>
    decreases (if i < cs.len() { cs.len() - i } else { 0 }),
{
    if i < 0 || i >= cs.len() {
        if seen || cur.len() > 0 {
            seq![(cur, start)]
        } else {
            Seq::empty()
        }
    } else {
        let bi = cs[i].0 as int;
        let c = cs[i].1;
        if depth == 0 && escape_end_from(b, bi) is Some {
            let e = escape_end_from(b, bi)->0;
            proof {
                lemma_skip_below_range(cs, i + 1, bi + e + 1);
            }
            arg_pieces(
                b,
                cs,
                skip_below(cs, i + 1, bi + e + 1),
                depth,
                cur + decode_utf8(b.subrange(bi, bi + e + 1)),
                start,
                seen,
            )
        } else if c == '\\' {
            if i + 1 < cs.len() && cs[i + 1].1 == '`' {
                arg_pieces(b, cs, i + 2, depth, cur + seq!['\\', '`'], start, seen)
            } else if i + 2 < cs.len() && cs[i + 1].1 == '\\' && is_arg_escapable(cs[i + 2].1) {
                arg_pieces(b, cs, i + 3, depth, cur + seq!['\\', '\\', cs[i + 2].1], start, seen)
            } else {
                arg_pieces(b, cs, i + 1, depth, cur.push('\\'), start, seen)
            }
        } else if c == '[' {
            let d = if !escaped_in_args(cs, i) && spec_is_call_bracket_in_args(b, bi) {
                depth + 1
            } else {
                depth
            };
            arg_pieces(b, cs, i + 1, d, cur.push(c), start, seen)
        } else if c == ']' {
            let d = if depth > 0 && !escaped_in_args(cs, i) {
                depth - 1
            } else {
                depth
            };
            arg_pieces(b, cs, i + 1, d, cur.push(c), start, seen)
        } else if c == ';' && depth == 0 {
            seq![(cur, start)] + arg_pieces(b, cs, i + 1, 0, Seq::empty(), pos_of(cs, i + 1, b.len() as int), true)
        } else {
            arg_pieces(b, cs, i + 1, depth, cur.push(c), start, seen)
        }
    }
}

/// A raw argument whose trimmed text is parsed as a call.
/// A raw argument that leaves diagnostics and calls alone: not a call, or one
/// escape call.
pub open spec fn piece_quiet(p: (Seq<char>, int)) -> bool {
    ||| !piece_parsed(p)
    ||| whole_escape_call(crate::strings::trim_text(p.0), encode_utf8(crate::strings::trim_text(p.0)))
}

pub open spec fn piece_parsed(p: (Seq<char>, int)) -> bool {
    trim_start_byte(p.0) < trim_end_byte(p.0) && call_arg(crate::strings::trim_text(p.0), false)
}

/// The entry made of raw argument `p` of an argument text at byte `base`:
/// its span is that of the trimmed text (empty at its start when nothing is
/// left); its one part is the trimmed text as a literal, or, only for a call,
/// a copy of a function that some parse reported after `lo` in `funcs`.
pub open spec fn arg_entry(
    e: (Vec<ParsedArg>, (usize, usize)),
    p: (Seq<char>, int),
    base: int,
    lo: int,
    funcs: Seq<ParsedFunction>,
) -> bool {
    let cur = p.0;
    let off = base + p.1 + trim_start_byte(cur);
    &&& e.0@.len() == 1
    &&& if trim_start_byte(cur) == trim_end_byte(cur) {
        &&& e.1.0 == base + p.1 && e.1.1 == base + p.1
        &&& (e.0@[0] matches ParsedArg::Literal { text } && text@.len() == 0)
    } else {
        &&& e.1.0 == off
        &&& e.1.1 == base + p.1 + trim_end_byte(cur)
        &&& (e.0@[0] matches ParsedArg::Literal { text } ==> text@ == crate::strings::trim_text(cur))
        &&& (piece_quiet(p) ==> e.0@[0] is Literal)
        &&& (e.0@[0] matches ParsedArg::Function { func } ==> piece_parsed(p) && exists|j: int|
            lo <= j < funcs.len() && shifted_fn(*func, #[trigger] funcs[j], 0))
    }
}

proof fn lemma_arg_entry_grow(
    e: (Vec<ParsedArg>, (usize, usize)),
    p: (Seq<char>, int),
    base: int,
    lo: int,
    f1: Seq<ParsedFunction>,
    f2: Seq<ParsedFunction>,
)
    requires
        arg_entry(e, p, base, lo, f1),
        0 <= lo,
        f1.len() <= f2.len(),
        f2.subrange(0, f1.len() as int) == f1,
    ensures
        arg_entry(e, p, base, lo, f2),
{
    if trim_start_byte(p.0) != trim_end_byte(p.0) {
        if e.0@[0] is Function {
            let func = e.0@[0]->func;
            let off = base + p.1 + trim_start_byte(p.0);
            let j = choose|j: int| lo <= j < f1.len() && shifted_fn(*func, #[trigger] f1[j], 0);
            assert(f2[j] == f2.subrange(0, f1.len() as int)[j]);
        }
    }
}

/// The raw arguments of an argument text.
pub open spec fn nested_arg_pieces(input: Seq<char>, b: Seq<u8>) -> Seq<(Seq<char>, int)> {
    arg_pieces(b, crate::semantic::char_table(input), 0, 0, Seq::empty(), 0, false)
}

proof fn lemma_prefix_chain<T>(a: Seq<T>, b: Seq<T>, c: Seq<T>)
    requires
        a.len() <= b.len(),
        b.subrange(0, a.len() as int) == a,
        b.len() <= c.len(),
        c.subrange(0, b.len() as int) == b,
    ensures
        a.len() <= c.len(),
        c.subrange(0, a.len() as int) == a,
{
    assert forall|i: int| 0 <= i < a.len() implies c.subrange(0, a.len() as int)[i] == a[i] by {
        assert(c[i] == c.subrange(0, b.len() as int)[i]);
        assert(b[i] == b.subrange(0, a.len() as int)[i]);
    }
    assert(c.subrange(0, a.len() as int) =~= a);
}

proof fn lemma_chars_empty_bytes(cs: Seq<char>)
    ensures
        (encode_utf8(cs).len() > 0) == (cs.len() > 0),
{
    if cs.len() > 0 {
        crate::chars::lemma_byte_at_char(cs, 0);
    } else {
        assert(cs =~= Seq::<char>::empty());
    }
}

/// What `finish_arg` promises, read as an entry of its raw argument.
proof fn lemma_finish_entry(
    e: (Vec<ParsedArg>, (usize, usize)),
    p: (Seq<char>, int),
    base: int,
    first: Seq<ParsedFunction>,
    before: Seq<ParsedFunction>,
    after: Seq<ParsedFunction>,
)
    requires
        first.len() <= before.len(),
        before.len() <= after.len(),
        after.subrange(0, before.len() as int) == before,
        e.0@.len() == 1,
        trim_start_byte(p.0) == trim_end_byte(p.0) ==> {
            &&& e.1.0 == base + p.1 && e.1.1 == base + p.1
            &&& (e.0@[0] matches ParsedArg::Literal { text } && text@.len() == 0)
        },
        trim_start_byte(p.0) < trim_end_byte(p.0) ==> {
            &&& e.1.0 == base + p.1 + trim_start_byte(p.0)
            &&& e.1.1 == base + p.1 + trim_end_byte(p.0)
            &&& (e.0@[0] matches ParsedArg::Literal { text } ==> text@ == crate::strings::trim_text(p.0))
            &&& (e.0@[0] matches ParsedArg::Function { func } ==> call_arg(crate::strings::trim_text(p.0), false)
                && before.len() < after.len() && shifted_fn(*func, after[before.len() as int], 0))
        },
        trim_start_byte(p.0) <= trim_end_byte(p.0),
        whole_escape_call(crate::strings::trim_text(p.0), encode_utf8(crate::strings::trim_text(p.0)))
            ==> e.0@[0] is Literal,
    ensures
        arg_entry(e, p, base, first.len() as int, after),
{
    if trim_start_byte(p.0) < trim_end_byte(p.0) && e.0@[0] is Function {
        let j = before.len() as int;
        let func = e.0@[0]->func;
        assert(shifted_fn(*func, after[j], 0));
    }
}

/// Splits argument text at top-level `;` into arguments; each is trimmed and
/// parsed as a nested call when it starts with `$`.
#[verifier::rlimit(40)]
fn parse_nested_args(
    input: &str,
    manager: &Arc<MetadataManager>,
    diags: &mut Vec<Diagnostic>,
    funcs: &mut Vec<ParsedFunction>,
    base: usize,
    Ghost(n): Ghost<int>,
) -> (r: Vec<(Vec<ParsedArg>, (usize, usize))>)
    requires
        parse_fits(n),
        base + input.spec_bytes().len() <= n,
        input.spec_bytes().len() < n,
        diags_within(old(diags)@, n),
        funcs_within(old(funcs)@, n),
    ensures
        diags_within(final(diags)@, n),
        funcs_within(final(funcs)@, n),
        forall|i: int|
            0 <= i < r@.len() ==> (#[trigger] r@[i]).1.0 <= n && r@[i].1.1 <= n && parts_within(r@[i].0@, 0, n),
        r@.len() == nested_arg_pieces(input@, input.spec_bytes()).len(),
        forall|i: int|
            0 <= i < r@.len() ==> arg_entry(
                #[trigger] r@[i],
                nested_arg_pieces(input@, input.spec_bytes())[i],
                base as int,
                old(funcs)@.len() as int,
                final(funcs)@,
            ),
        old(diags)@.len() <= final(diags)@.len(),
        final(diags)@.subrange(0, old(diags)@.len() as int) == old(diags)@,
        diags_kept(old(diags)@, final(diags)@),
        old(funcs)@.len() <= final(funcs)@.len(),
        final(funcs)@.subrange(0, old(funcs)@.len() as int) == old(funcs)@,
        (forall|i: int|
            0 <= i < nested_arg_pieces(input@, input.spec_bytes()).len() ==> piece_quiet(
                #[trigger] nested_arg_pieces(input@, input.spec_bytes())[i],
            )) ==> final(diags)@ == old(diags)@ && final(funcs)@ == old(funcs)@,
    decreases input.spec_bytes().len(), 5int,
{
    let ghost first_d = diags@;
    let ghost first_f = funcs@;
    let ghost mut done: Seq<(Seq<char>, int)> = Seq::empty();
    let ghost ib = input.spec_bytes();
    let len = input.as_bytes().len();
    let mut args: Vec<(Vec<ParsedArg>, (usize, usize))> = Vec::new();
    let mut current = String::new();
    let mut depth: i32 = 0;
    let mut seen_sep = false;
    let mut first_escaped = false;
    let mut is_start = true;
    let chars = crate::chars::char_indices(input);
    let mut c_idx: usize = 0;
    let mut arg_start: usize = 0;
    proof {
        crate::position::lemma_chars_le_bytes(input@);
        crate::semantic::lemma_char_table(chars@, input@);
        assert(current@ =~= Seq::<char>::empty());
        assert(diags@.subrange(0, first_d.len() as int) =~= first_d);
        assert(funcs@.subrange(0, first_f.len() as int) =~= first_f);
        assert(arg_pieces(ib, chars@, 0, 0, Seq::empty(), 0, false) =~= done + arg_pieces(
            ib,
            chars@,
            c_idx as int,
            depth as int,
            current@,
            arg_start as int,
            seen_sep,
        ));
    }
    while c_idx < chars.len()
        invariant
            chars@ == crate::semantic::char_table(input@),
            !first_escaped,
            arg_pieces(ib, chars@, 0, 0, Seq::empty(), 0, false) == done + arg_pieces(
                ib,
                chars@,
                c_idx as int,
                depth as int,
                current@,
                arg_start as int,
                seen_sep,
            ),
            args@.len() == done.len(),
            forall|k: int| 0 <= k < done.len() ==> arg_entry(#[trigger] args@[k], done[k], base as int, first_f.len() as int, funcs@),
            first_d.len() <= diags@.len(),
            diags@.subrange(0, first_d.len() as int) == first_d,
            first_f.len() <= funcs@.len(),
            funcs@.subrange(0, first_f.len() as int) == first_f,
            (forall|k: int| 0 <= k < done.len() ==> piece_quiet(#[trigger] done[k])) ==> diags@ == first_d && funcs@
                == first_f,
            ib == input.spec_bytes(),
            len == ib.len(),
            parse_fits(n),
            base + len <= n,
            len < n,
            indexes(chars@, input@),
            chars@.len() <= len,
            c_idx <= chars@.len() + len,
            0 <= depth <= c_idx,
            arg_start <= len,
            encode_utf8(current@).len() + arg_start <= pos_of(chars@, c_idx as int, len as int),
            diags_within(diags@, n),
            funcs_within(funcs@, n),
            forall|i: int|
                0 <= i < args@.len() ==> (#[trigger] args@[i]).1.0 <= n && args@[i].1.1 <= n && parts_within(
                    args@[i].0@,
                    0,
                    n,
                ),
        decreases chars@.len() + len - c_idx,
    {
        let (byte_idx, c) = chars[c_idx];
        proof {
            lemma_index_facts(chars@, input@, c_idx as int);
        }
        let ghost before = current@;
        match try_handle_escape_function_in_args(input, byte_idx, depth, &mut current) {
            Some(jump) => {
                proof {
                    lemma_escape_step(ib, input@, chars@, c_idx as int, byte_idx as int, jump - 1, before);
                    assert(jump >= 1);
                }
                let end = byte_idx + jump;
                c_idx = c_idx + 1;
                skip_before(&chars, &mut c_idx, end);
                is_start = false;
                continue;
            },
            None => {},
        }
        if c == '\\' {
            match try_handle_backslash_escape_in_args(&chars, c_idx, is_start, &mut current, &mut first_escaped) {
                Some(jump) => {
                    proof {
                        lemma_backslash_step(input@, chars@, c_idx as int, jump as int, before, current@);
                    }
                    c_idx = c_idx + jump;
                    is_start = false;
                    continue;
                },
                None => {},
            }
        }
        proof {
            lemma_push_len(before, c);
        }
        if c == '[' {
            if !is_escaped_bracket_in_args(&chars, c_idx) && is_function_call_bracket_sub(input, byte_idx) {
                depth = depth + 1;
            }
            push_char(&mut current, c);
            c_idx = c_idx + 1;
        } else if c == ']' {
            if depth > 0 && !is_escaped_bracket_in_args(&chars, c_idx) {
                depth = depth - 1;
            }
            push_char(&mut current, c);
            c_idx = c_idx + 1;
        } else if c == ';' && depth == 0 {
            seen_sep = true;
            let ghost d_before = diags@;
            let ghost f_before = funcs@;
            let ghost piece = (current@, arg_start as int);
            let entry = finish_arg(&current, manager, first_escaped, diags, funcs, base, arg_start, Ghost(n));
            proof {
                lemma_finish_entry(entry, piece, base as int, first_f, f_before, funcs@);
                assert forall|k: int| 0 <= k < done.len() implies arg_entry(
                    #[trigger] args@[k],
                    done[k],
                    base as int,
                    first_f.len() as int,
                    funcs@,
                ) by {
                    lemma_arg_entry_grow(args@[k], done[k], base as int, first_f.len() as int, f_before, funcs@);
                }
                lemma_prefix_chain(first_d, d_before, diags@);
                lemma_prefix_chain(first_f, f_before, funcs@);
                let nd = done.push(piece);
                if forall|k: int| 0 <= k < nd.len() ==> piece_quiet(#[trigger] nd[k]) {
                    assert forall|k: int| 0 <= k < done.len() implies piece_quiet(#[trigger] done[k]) by {
                        assert(nd[k] == done[k]);
                    }
                    assert(piece_quiet(nd[done.len() as int]));
                }
                done = nd;
            }
            args.push(entry);
            current = String::new();
            first_escaped = false;
            is_start = true;
            c_idx = c_idx + 1;
            arg_start = if c_idx < chars.len() { chars[c_idx].0 } else { len };
            proof {
                assert(encode_utf8(current@) =~= Seq::<u8>::empty());
                assert(current@ =~= Seq::<char>::empty());
            }
        } else {
            push_char(&mut current, c);
            c_idx = c_idx + 1;
        }
        if c != ';' || depth != 0 {
            is_start = false;
        }
    }
    proof {
        lemma_chars_empty_bytes(current@);
    }
    if seen_sep || current.as_str().len() > 0 {
        let ghost d_before = diags@;
        let ghost f_before = funcs@;
        let ghost piece = (current@, arg_start as int);
        let entry = finish_arg(&current, manager, first_escaped, diags, funcs, base, arg_start, Ghost(n));
        proof {
            lemma_finish_entry(entry, piece, base as int, first_f, f_before, funcs@);
            assert forall|k: int| 0 <= k < done.len() implies arg_entry(
                #[trigger] args@[k],
                done[k],
                base as int,
                first_f.len() as int,
                funcs@,
            ) by {
                lemma_arg_entry_grow(args@[k], done[k], base as int, first_f.len() as int, f_before, funcs@);
            }
            lemma_prefix_chain(first_d, d_before, diags@);
            lemma_prefix_chain(first_f, f_before, funcs@);
            let nd = done.push(piece);
            if forall|k: int| 0 <= k < nd.len() ==> piece_quiet(#[trigger] nd[k]) {
                assert forall|k: int| 0 <= k < done.len() implies piece_quiet(#[trigger] done[k]) by {
                    assert(nd[k] == done[k]);
                }
                assert(piece_quiet(nd[done.len() as int]));
            }
            done = nd;
        }
        args.push(entry);
    }
    proof {
        assert(done =~= nested_arg_pieces(input@, input.spec_bytes()));
        assert forall|i: int| 0 <= i < first_d.len() implies #[trigger] diags@[i] == first_d[i] by {
            assert(diags@.subrange(0, first_d.len() as int)[i] == diags@[i]);
        }
    }
    args
}

/// Trims one argument's text and parses it; an empty argument is an empty literal.
fn finish_arg(
    current: &String,
    manager: &Arc<MetadataManager>,
    first_escaped: bool,
    diags: &mut Vec<Diagnostic>,
    funcs: &mut Vec<ParsedFunction>,
    base: usize,
    arg_start: usize,
    Ghost(n): Ghost<int>,
) -> (r: (Vec<ParsedArg>, (usize, usize)))
    requires
        parse_fits(n),
        base + arg_start + encode_utf8(current@).len() <= n,
        encode_utf8(current@).len() < n,
        diags_within(old(diags)@, n),
        funcs_within(old(funcs)@, n),
    ensures
        diags_within(final(diags)@, n),
        funcs_within(final(funcs)@, n),
        r.1.0 <= n,
        r.1.1 <= n,
        parts_within(r.0@, 0, n),
        r.0@.len() == 1,
        old(diags)@.len() <= final(diags)@.len(),
        final(diags)@.subrange(0, old(diags)@.len() as int) == old(diags)@,
        old(funcs)@.len() <= final(funcs)@.len(),
        final(funcs)@.subrange(0, old(funcs)@.len() as int) == old(funcs)@,
        trim_start_byte(current@) <= trim_end_byte(current@),
        whole_escape_call(crate::strings::trim_text(current@), encode_utf8(crate::strings::trim_text(current@)))
            ==> final(diags)@ == old(diags)@ && final(funcs)@ == old(funcs)@ && r.0@[0] is Literal,
        trim_start_byte(current@) == trim_end_byte(current@) ==> {
            &&& r.1.0 == base + arg_start && r.1.1 == base + arg_start
            &&& (r.0@[0] matches ParsedArg::Literal { text } && text@.len() == 0)
            &&& final(diags)@ == old(diags)@
            &&& final(funcs)@ == old(funcs)@
        },
        trim_start_byte(current@) < trim_end_byte(current@) ==> {
            &&& r.1.0 == base + arg_start + trim_start_byte(current@)
            &&& r.1.1 == base + arg_start + trim_end_byte(current@)
            &&& !call_arg(crate::strings::trim_text(current@), first_escaped) ==> final(diags)@ == old(diags)@
                && final(funcs)@ == old(funcs)@
            &&& (r.0@[0] matches ParsedArg::Literal { text } ==> text@ == crate::strings::trim_text(current@))
            &&& (r.0@[0] matches ParsedArg::Function { func } ==> call_arg(
                crate::strings::trim_text(current@),
                first_escaped,
            ) && old(funcs)@.len() < final(funcs)@.len() && shifted_fn(
                *func,
                final(funcs)@[old(funcs)@.len() as int],
                0,
            ))
            &&& call_arg(crate::strings::trim_text(current@), first_escaped) && old(funcs)@.len()
                < final(funcs)@.len() ==> r.0@[0] is Function
        },
    decreases encode_utf8(current@).len(), 4int,
{
    let cur = current.as_str();
    let (ta, te) = crate::strings::trim_bounds(cur);
    proof {
        let cs = current@;
        crate::strings::lemma_ws_bounds(cs, 0);
        crate::strings::lemma_ws_bounds(cs, cs.len() as int);
        let (x, y) = crate::strings::trim_range(cs);
        crate::strings::lemma_slice_chars(cs, x, y);
        crate::strings::lemma_offset_monotone(cs, x, y);
    }
    if ta < te {
        let trimmed = substr(cur, ta, te);
        let off = base + arg_start + ta;
        let parts = parse_single_arg(trimmed, manager, first_escaped, diags, funcs, off, Ghost(n));
        (parts, (off, off + (te - ta)))
    } else {
        let mut parts: Vec<ParsedArg> = Vec::new();
        parts.push(ParsedArg::Literal { text: String::new() });
        proof {
            assert(arg_within(parts@[0], n));
            lemma_parts_within_from(parts@, 0, n);
        }
        (parts, (base + arg_start, base + arg_start))
    }
}

/// An argument that starts with `$` (unless forced literal) is parsed as a
/// call; its diagnostics and functions are reported at the argument's offset.
fn parse_single_arg(
    input: &str,
    mgr: &Arc<MetadataManager>,
    force: bool,
    diags: &mut Vec<Diagnostic>,
    funcs: &mut Vec<ParsedFunction>,
    base: usize,
    Ghost(n): Ghost<int>,
) -> (r: Vec<ParsedArg>)
    requires
        parse_fits(n),
        base + input.spec_bytes().len() <= n,
        input.spec_bytes().len() < n,
        diags_within(old(diags)@, n),
        funcs_within(old(funcs)@, n),
    ensures
        diags_within(final(diags)@, n),
        funcs_within(final(funcs)@, n),
        parts_within(r@, 0, n),
        r@.len() == 1,
        old(diags)@.len() <= final(diags)@.len(),
        final(diags)@.subrange(0, old(diags)@.len() as int) == old(diags)@,
        old(funcs)@.len() <= final(funcs)@.len(),
        final(funcs)@.subrange(0, old(funcs)@.len() as int) == old(funcs)@,
        !call_arg(input@, force) ==> final(diags)@ == old(diags)@ && final(funcs)@ == old(funcs)@,
        (r@[0] matches ParsedArg::Literal { text } ==> text@ == input@),
        (r@[0] matches ParsedArg::Function { func } ==> call_arg(input@, force) && old(funcs)@.len()
            < final(funcs)@.len() && shifted_fn(*func, final(funcs)@[old(funcs)@.len() as int], 0)),
        call_arg(input@, force) && old(funcs)@.len() < final(funcs)@.len() ==> r@[0] is Function,
        call_arg(input@, force) && first_call_unknown(mgr.functions(), input@, input.spec_bytes()) ==> {
            &&& final(diags)@.len() > old(diags)@.len()
            &&& final(diags)@[old(diags)@.len() as int].message@ == "Unknown function `"@ + seq!['$'] + first_call_name(
                input@,
            ) + "`"@
            &&& final(diags)@[old(diags)@.len() as int].start == base + first_call_start(input@, input.spec_bytes())
            &&& final(diags)@[old(diags)@.len() as int].end == base + first_call_end(input@, input.spec_bytes())
        },
        call_arg(input@, force) && first_call_known(mgr.functions(), input@, input.spec_bytes()) ==> r@[0] is Function,
        whole_escape_call(input@, input.spec_bytes()) ==> final(diags)@ == old(diags)@ && final(funcs)@ == old(funcs)@
            && r@[0] is Literal,
    decreases input.spec_bytes().len(), 3int,
{
    let bytes = input.as_bytes();
    let ghost m = bytes@.len() as int;
    let ghost old_diags = diags@;
    let ghost old_funcs = funcs@;
    proof {
        if call_arg(input@, force) {
            crate::chars::lemma_byte_at_char(input@, 0);
            assert(input@.take(0) =~= Seq::<char>::empty());
            assert(crate::chars::byte_offset(input@, 0) == 0);
            assert(('$' as u32) == 0x24) by {
                reveal_strlit("$");
            }
        }
    }
    if !force && bytes.len() > 0 && bytes[0] == 0x24u8 {
        proof {
            let cs = input@;
            if cs.len() == 0 {
                assert(cs =~= Seq::<char>::empty());
                assert(encode_utf8(cs).len() == 0);
            }
            crate::chars::lemma_byte_at_char(cs, 0);
            assert(cs.take(0) =~= Seq::<char>::empty());
            assert(encode_utf8(cs.take(0)).len() == 0);
            let x: u32 = cs[0] as u32;
            assert(x < 0x80);
            assert(x < 0x80 ==> (x as u8) as u32 == x) by (bit_vector);
            assert(x == 0x24);
            assert(('$' as u32) == 0x24);
            vstd::utf8::char_u32_cast(cs[0], x);
            vstd::utf8::char_u32_cast('$', 0x24u32);
            assert(cs[0] == '$');
        }
        proof {
            lemma_parse_fits_smaller(n, m);
        }
        let parser = ForgeScriptParser::new_internal(crate::trie::share(mgr), input);
        let res = parser.parse_internal();
        proof {
            assert(parser.metadata().functions() == (**mgr).functions());
        }
        let first = funcs.len();
        append_shifted_diags(diags, &res.diagnostics, base, Ghost(m), Ghost(n));
        append_shifted_funcs(funcs, &res.functions, base, Ghost(m), Ghost(n));
        proof {
            assert(diags@.subrange(0, old_diags.len() as int) =~= old_diags);
            assert(funcs@.subrange(0, old_funcs.len() as int) =~= old_funcs);
        }
        if res.functions.len() > 0 {
            let g = &funcs[first];
            let one = g.copy();
            proof {
                assert(spans_within(*g, n));
                lemma_shift_within(one, *g, 0, n);
            }
            let mut out: Vec<ParsedArg> = Vec::new();
            out.push(ParsedArg::Function { func: Box::new(one) });
            proof {
                assert(arg_within(out@[0], n));
                lemma_parts_within_from(out@, 0, n);
            }
            return out;
        }
    }
    let mut out: Vec<ParsedArg> = Vec::new();
    out.push(ParsedArg::Literal { text: crate::strings::to_owned(input) });
    proof {
        assert(arg_within(out@[0], n));
        lemma_parts_within_from(out@, 0, n);
    }
    out
}

/// The parameter an argument at index `i` is checked against: its own, or a
/// last parameter that takes the rest.
pub open spec fn enum_arg_index(meta: Seq<Arg>, i: int) -> Option<int> {
    if i < meta.len() {
        Some(i)
    } else if meta.len() > 0 && meta.last().rest {
        Some(meta.len() - 1)
    } else {
        None
    }
}

/// The values a parameter allows: those of its named enum, when the table
/// defines it, else its own list.
pub open spec fn allowed_values(a: Arg, enums: Map<Seq<char>, Seq<Seq<char>>>) -> Option<Seq<Seq<char>>> {
    match a.enum_name {
        Some(en) => if enums.contains_key(en@) {
            Some(enums[en@])
        } else {
            None
        },
        None => match a.arg_enum {
            Some(v) => Some(crate::metadata::names_view(v@)),
            None => None,
        },
    }
}

/// The text of an argument made of literals only, joined; none when a part
/// is a call.
pub open spec fn literal_text(parts: Seq<ParsedArg>) -> Option<Seq<char>>
    decreases parts.len(),
{
    if parts.len() == 0 {
        Some(Seq::empty())
    } else {
        match literal_text(parts.drop_last()) {
            Some(t) => match parts.last() {
                ParsedArg::Literal { text } => Some(t + text@),
                ParsedArg::Function { .. } => None,
            },
            None => None,
        }
    }
}

/// The message for a value outside an argument's enum.
pub open spec fn invalid_value_message(text: Seq<char>, arg: Seq<char>, values: Seq<Seq<char>>) -> Seq<char> {
    "Invalid value `"@ + text + "` for `"@ + arg + "`. Expected: "@ + debug_text(values)
}

/// The diagnostic (message, start, end) for argument entry `i` of a call of
/// `name`: a literal value outside the values its parameter allows. The first
/// argument of `$color` is not checked.
pub open spec fn enum_diag(
    name: Seq<char>,
    entry: (Vec<ParsedArg>, (usize, usize)),
    i: int,
    meta: Seq<Arg>,
    enums: Map<Seq<char>, Seq<Seq<char>>>,
) -> Option<(Seq<char>, int, int)> {
    if name == "color"@ && i == 0 {
        None
    } else {
        match enum_arg_index(meta, i) {
            Some(ai) => match allowed_values(meta[ai], enums) {
                Some(vals) => match literal_text(entry.0@) {
                    Some(t) => if vals.contains(t) {
                        None
                    } else {
                        Some((invalid_value_message(t, meta[ai].name@, vals), entry.1.0 as int, entry.1.1 as int))
                    },
                    None => None,
                },
                None => None,
            },
            None => None,
        }
    }
}

/// The diagnostics for the first `i` argument entries, in order.
pub open spec fn enum_diags(
    name: Seq<char>,
    parsed: Seq<(Vec<ParsedArg>, (usize, usize))>,
    meta: Seq<Arg>,
    enums: Map<Seq<char>, Seq<Seq<char>>>,
    i: int,
) -> Seq<(Seq<char>, int, int)>
    decreases i,
{
    if i <= 0 {
        Seq::empty()
    } else {
        enum_diags(name, parsed, meta, enums, i - 1) + match enum_diag(name, parsed[i - 1], i - 1, meta, enums) {
            Some(d) => seq![d],
            None => Seq::empty(),
        }
    }
}

proof fn lemma_diags_view_push(a: Seq<Diagnostic>, b: Seq<Diagnostic>)
    requires
        b.len() == a.len() + 1,
        b.drop_last() == a,
    ensures
        diags_view(b) == diags_view(a) + seq![(b.last().message@, b.last().start as int, b.last().end as int)],
{
    assert(b =~= a.push(b.last()));
    assert(diags_view(b) =~= diags_view(a) + seq![(b.last().message@, b.last().start as int, b.last().end as int)]);
}

/// Every raw argument of the bracket text leaves diagnostics and calls alone.
pub open spec fn all_quiet(text: Seq<char>, tb: Seq<u8>) -> bool {
    forall|i: int| 0 <= i < nested_arg_pieces(text, tb).len() ==> piece_quiet(#[trigger] nested_arg_pieces(text, tb)[i])
}

/// The diagnostics of a call of `meta`, named `name`, from byte `s` whose
/// bracket opens at `open` and closes at `c` around raw arguments that are
/// not calls: its argument count, then its literal arguments against their
/// enums.
pub open spec fn quiet_call_diags(
    name: Seq<char>,
    meta: Function,
    enums: Map<Seq<char>, Seq<Seq<char>>>,
    b: Seq<u8>,
    s: int,
    open: int,
    c: int,
) -> Seq<(Seq<char>, int, int)> {
    let tb = b.subrange(open + 1, c);
    let ps = nested_arg_pieces(decode_utf8(tb), tb);
    count_diags(name, ps.len() as int, arg_bounds(meta).0, arg_bounds(meta).1, has_rest(meta.args), s, c + 1) + match meta.args {
        Some(v) => quiet_enum_diags(name, ps, open + 1, v@, enums, ps.len() as int),
        None => Seq::empty(),
    }
}

/// The literal text and span that a raw argument `p` of a bracket text at
/// byte `base` becomes when it is not parsed as a call.
pub open spec fn quiet_arg(p: (Seq<char>, int), base: int) -> (Seq<char>, int, int) {
    if trim_start_byte(p.0) == trim_end_byte(p.0) {
        (Seq::empty(), base + p.1, base + p.1)
    } else {
        (crate::strings::trim_text(p.0), base + p.1 + trim_start_byte(p.0), base + p.1 + trim_end_byte(p.0))
    }
}

/// `enum_diag` for the literal argument `a` (text, start, end).
pub open spec fn quiet_enum_diag(
    name: Seq<char>,
    a: (Seq<char>, int, int),
    i: int,
    meta: Seq<Arg>,
    enums: Map<Seq<char>, Seq<Seq<char>>>,
) -> Option<(Seq<char>, int, int)> {
    if name == "color"@ && i == 0 {
        None
    } else {
        match enum_arg_index(meta, i) {
            Some(ai) => match allowed_values(meta[ai], enums) {
                Some(vals) => if vals.contains(a.0) {
                    None
                } else {
                    Some((invalid_value_message(a.0, meta[ai].name@, vals), a.1, a.2))
                },
                None => None,
            },
            None => None,
        }
    }
}

/// `enum_diags` for the first `i` raw arguments `ps` of a bracket text at byte
/// `base`, read as literals.
pub open spec fn quiet_enum_diags(
    name: Seq<char>,
    ps: Seq<(Seq<char>, int)>,
    base: int,
    meta: Seq<Arg>,
    enums: Map<Seq<char>, Seq<Seq<char>>>,
    i: int,
) -> Seq<(Seq<char>, int, int)>
    decreases i,
{
    if i <= 0 {
        Seq::empty()
    } else {
        quiet_enum_diags(name, ps, base, meta, enums, i - 1) + match quiet_enum_diag(name, quiet_arg(ps[i - 1], base), i - 1, meta, enums) {
            Some(d) => seq![d],
            None => Seq::empty(),
        }
    }
}

proof fn lemma_quiet_enum_diags(
    name: Seq<char>,
    v: Seq<(Vec<ParsedArg>, (usize, usize))>,
    ps: Seq<(Seq<char>, int)>,
    base: int,
    lo: int,
    funcs: Seq<ParsedFunction>,
    meta: Seq<Arg>,
    enums: Map<Seq<char>, Seq<Seq<char>>>,
    i: int,
)
    requires
        0 <= i <= v.len(),
        v.len() == ps.len(),
        forall|j: int| 0 <= j < v.len() ==> arg_entry(#[trigger] v[j], ps[j], base, lo, funcs),
        forall|j: int| 0 <= j < ps.len() ==> piece_quiet(#[trigger] ps[j]),
    ensures
        enum_diags(name, v, meta, enums, i) == quiet_enum_diags(name, ps, base, meta, enums, i),
    decreases i,
{
    if i > 0 {
        lemma_quiet_enum_diags(name, v, ps, base, lo, funcs, meta, enums, i - 1);
        let e = v[i - 1];
        let p = ps[i - 1];
        assert(arg_entry(e, p, base, lo, funcs));
        assert(piece_quiet(p));
        assert(e.0@[0] is Literal);
        let t = e.0@[0]->text@;
        assert(e.0@.drop_last() =~= Seq::<ParsedArg>::empty());
        assert(Seq::<char>::empty() + t =~= t);
        assert(literal_text(e.0@.drop_last()) == Some(Seq::<char>::empty()));
        assert(e.0@.last() == e.0@[0]);
        assert(literal_text(e.0@) == Some(t));
        if trim_start_byte(p.0) == trim_end_byte(p.0) {
            assert(t =~= Seq::<char>::empty());
        }
        assert(quiet_arg(p, base) == (t, e.1.0 as int, e.1.1 as int));
        assert(enum_diag(name, e, i - 1, meta, enums) == quiet_enum_diag(name, quiet_arg(p, base), i - 1, meta, enums));
    }
}

/// The report of a call with `tot` arguments against the bounds `min` and
/// `max` (none above with `rest`), spanning `s` to `e`.
pub open spec fn count_diags(name: Seq<char>, tot: int, min: int, max: int, rest: bool, s: int, e: int) -> Seq<(Seq<char>, int, int)> {
    if tot < min {
        seq![(arg_count_message(name, true, min as nat, tot as nat), s, e)]
    } else if !rest && tot > max {
        seq![(arg_count_message(name, false, max as nat, tot as nat), s, e)]
    } else {
        Seq::empty()
    }
}

/// Diagnostics as (message, start, end).
pub open spec fn diags_view(d: Seq<Diagnostic>) -> Seq<(Seq<char>, int, int)> {
    d.map_values(|x: Diagnostic| (x.message@, x.start as int, x.end as int))
}

/// Checks literal arguments against the values their parameter's enum allows.
fn validate_arg_enums(
    name: &str,
    parsed: &Vec<(Vec<ParsedArg>, (usize, usize))>,
    meta: &Vec<Arg>,
    mgr: &Arc<MetadataManager>,
    diags: &mut Vec<Diagnostic>,
    _src: &str,
    Ghost(n): Ghost<int>,
)
    requires
        diags_within(old(diags)@, n),
        forall|i: int| 0 <= i < parsed@.len() ==> (#[trigger] parsed@[i]).1.0 <= n && parsed@[i].1.1 <= n,
    ensures
        diags_within(final(diags)@, n),
        diags_view(final(diags)@) == diags_view(old(diags)@) + enum_diags(
            name@,
            parsed@,
            meta@,
            mgr.enum_table(),
            parsed@.len() as int,
        ),
        diags_kept(old(diags)@, final(diags)@),
{
    let ghost first = diags@;
    let mut i: usize = 0;
    while i < parsed.len()
        invariant
            i <= parsed@.len(),
            diags_within(diags@, n),
            diags_view(diags@) == diags_view(first) + enum_diags(name@, parsed@, meta@, mgr.enum_table(), i as int),
            diags_kept(first, diags@),
            forall|x: int| 0 <= x < parsed@.len() ==> (#[trigger] parsed@[x]).1.0 <= n && parsed@[x].1.1 <= n,
        decreases parsed@.len() - i,
    {
        let ghost before = diags@;
        let ghost tbl = mgr.enum_table();
        let ghost d = enum_diag(name@, parsed@[i as int], i as int, meta@, tbl);
        let exception = crate::text::str_eq(name, "color") && i == 0;
        if !exception {
            let arg_idx: Option<usize> = if i < meta.len() {
                Some(i)
            } else if meta.len() > 0 && meta[meta.len() - 1].rest {
                Some(meta.len() - 1)
            } else {
                None
            };
            match arg_idx {
                Some(ai) => {
                    let arg = &meta[ai];
                    let vals: Option<Vec<String>> = match &arg.enum_name {
                        Some(en) => mgr.enum_values(en.as_str()),
                        None => match &arg.arg_enum {
                            Some(v) => Some(crate::metadata::clone_strings(v)),
                            None => None,
                        },
                    };
                    proof {
                        assert(enum_arg_index(meta@, i as int) == Some(ai as int));
                        if vals is Some {
                            assert(allowed_values(meta@[ai as int], tbl) == Some(
                                crate::metadata::names_view(vals->0@),
                            ));
                        } else {
                            assert(allowed_values(meta@[ai as int], tbl) is None);
                        }
                    }
                    match vals {
                        Some(v) => {
                            let parts = &parsed[i].0;
                            let mut all_literal = true;
                            let mut text = String::new();
                            let mut j: usize = 0;
                            while j < parts.len()
                                invariant
                                    j <= parts@.len(),
                                    all_literal == literal_text(parts@.take(j as int)) is Some,
                                    all_literal ==> literal_text(parts@.take(j as int)) == Some(text@),
                                decreases parts@.len() - j,
                            {
                                proof {
                                    assert(parts@.take(j + 1).drop_last() =~= parts@.take(j as int));
                                }
                                match &parts[j] {
                                    ParsedArg::Literal { text: t } => {
                                        push_str(&mut text, t.as_str());
                                    },
                                    ParsedArg::Function { .. } => {
                                        all_literal = false;
                                    },
                                }
                                j = j + 1;
                            }
                            proof {
                                assert(parts@.take(parts@.len() as int) =~= parts@);
                            }
                            if all_literal && !contains_string(&v, text.as_str()) {
                                let mut message = crate::strings::to_owned("Invalid value `");
                                push_str(&mut message, text.as_str());
                                push_str(&mut message, "` for `");
                                push_str(&mut message, arg.name.as_str());
                                push_str(&mut message, "`. Expected: ");
                                let listed = debug_strings(&v);
                                push_str(&mut message, listed.as_str());
                                proof {
                                    assert(message@ == invalid_value_message(text@, arg.name@, crate::metadata::names_view(v@)));
                                }
                                let d = Diagnostic { message, start: parsed[i].1.0, end: parsed[i].1.1 };
                                proof {
                                    lemma_kept_push(diags@, d);
                                    lemma_kept_trans(first, diags@, diags@.push(d));
                                }
                                diags.push(d);
                            }
                        },
                        None => {},
                    }
                },
                None => {},
            }
        }
        proof {
            let add: Seq<(Seq<char>, int, int)> = match d {
                Some(x) => seq![x],
                None => Seq::empty(),
            };
            assert(diags_view(diags@) =~= diags_view(before) + add);
            assert(enum_diags(name@, parsed@, meta@, tbl, i + 1) == enum_diags(name@, parsed@, meta@, tbl, i as int)
                + add);
        }
        i = i + 1;
    }
}

// ---------------------------------------------------------------------------
// Code-block extraction
// ---------------------------------------------------------------------------

/// ASCII white space as `u8::is_ascii_whitespace` defines it.
pub open spec fn is_ascii_ws(c: u8) -> bool {
    c == 0x20u8 || c == 0x09u8 || c == 0x0au8 || c == 0x0cu8 || c == 0x0du8
}

/// First index at or after `j` that is not ASCII white space.
pub open spec fn skip_ascii_ws(b: Seq<u8>, j: int) -> int
    decreases b.len() - j,
{
    if 0 <= j < b.len() && is_ascii_ws(b[j]) {
        skip_ascii_ws(b, j + 1)
    } else {
        j
    }
}

/// The closing backtick of a block whose content starts at `j`; a backslash
/// escapes the byte after it.
pub open spec fn block_close(b: Seq<u8>, j: int) -> Option<int>
    decreases b.len() - j,
{
    if j < 0 || j >= b.len() {
        None
    } else if b[j] == 0x5cu8 && j + 1 < b.len() {
        block_close(b, j + 2)
    } else if b[j] == 0x60u8 {
        Some(j)
    } else {
        block_close(b, j + 1)
    }
}

/// The bytes of `code:`.
pub open spec fn code_label() -> Seq<u8> {
    seq![0x63u8, 0x6fu8, 0x64u8, 0x65u8, 0x3au8]
}

/// The content ranges of the `code: `...`` blocks found scanning from `i`:
/// `code:`, optional ASCII white space, a backtick, and the content up to
/// the next unescaped backtick.
pub open spec fn blocks_from(b: Seq<u8>, i: int) -> Seq<(int, int)>
    decreases b.len() - i,
{
    if i < 0 || i >= b.len() {
        Seq::empty()
    } else if i + 5 <= b.len() && b.subrange(i, i + 5) == code_label() {
        let j = skip_ascii_ws(b, i + 5);
        if j < b.len() && b[j] == 0x60u8 {
            match block_close(b, j + 1) {
                Some(e) => {
                    proof {
                        lemma_block_close_after(b, j + 1);
                        lemma_skip_ascii_ws_bounds(b, i + 5);
                    }
                    seq![(j + 1, e)] + blocks_from(b, e + 1)
                },
                None => blocks_from(b, i + 1),
            }
        } else {
            blocks_from(b, i + 1)
        }
    } else {
        blocks_from(b, i + 1)
    }
}

/// The contents of the blocks joined as they are parsed: each block's bytes
/// followed by a newline.
pub open spec fn joined_blocks(b: Seq<u8>, bs: Seq<(int, int)>) -> Seq<u8>
    decreases bs.len(),
{
    if bs.len() == 0 {
        Seq::empty()
    } else {
        joined_blocks(b, bs.drop_last()) + b.subrange(bs.last().0, bs.last().1) + seq![0x0au8]
    }
}

/// No `code:` block of the text holds a `$`.
pub open spec fn blocks_free_of_dollar(b: Seq<u8>) -> bool {
    forall|q: int, x: int|
        #![trigger blocks_from(b, 0)[q], b[x]]
        0 <= q < blocks_from(b, 0).len() && blocks_from(b, 0)[q].0 <= x < blocks_from(b, 0)[q].1 ==> b[x] != 0x24u8
}

/// Joined blocks without a `$` byte in them have none.
proof fn lemma_joined_free_of_dollar(b: Seq<u8>, bs: Seq<(int, int)>)
    requires
        forall|q: int, x: int| #![trigger bs[q], b[x]] 0 <= q < bs.len() && bs[q].0 <= x < bs[q].1 ==> b[x] != 0x24u8,
        forall|q: int| 0 <= q < bs.len() ==> 0 <= (#[trigger] bs[q]).0 <= bs[q].1 <= b.len(),
    ensures
        forall|x: int| 0 <= x < joined_blocks(b, bs).len() ==> joined_blocks(b, bs)[x] != 0x24u8,
    decreases bs.len(),
{
    if bs.len() > 0 {
        let pre = bs.drop_last();
        assert forall|q: int, x: int| #![trigger pre[q], b[x]] 0 <= q < pre.len() && pre[q].0 <= x < pre[q].1 implies b[x] != 0x24u8 by {
            assert(pre[q] == bs[q]);
        }
        assert forall|q: int| 0 <= q < pre.len() implies 0 <= (#[trigger] pre[q]).0 <= pre[q].1 <= b.len() by {
            assert(pre[q] == bs[q]);
        }
        lemma_joined_free_of_dollar(b, pre);
        let last = bs.last();
        assert(bs[bs.len() - 1] == last);
        let j = joined_blocks(b, bs);
        let jp = joined_blocks(b, pre);
        assert forall|x: int| 0 <= x < j.len() implies j[x] != 0x24u8 by {
            if x < jp.len() {
            } else if x < jp.len() + (last.1 - last.0) {
                assert(j[x] == b[last.0 + (x - jp.len())]);
            }
        }
    }
}

/// Text whose encoding has no `$` byte has no `$` character.
proof fn lemma_no_dollar_char(cs: Seq<char>)
    requires
        forall|x: int| 0 <= x < encode_utf8(cs).len() ==> encode_utf8(cs)[x] != 0x24u8,
    ensures
        !cs.contains('$'),
{
    if cs.contains('$') {
        let i = choose|i: int| 0 <= i < cs.len() && cs[i] == '$';
        crate::chars::lemma_byte_at_char(cs, i);
        assert(('$' as u32) < 0x80) by {
            reveal_strlit("$");
        }
    }
}

/// Code without a `$` or a backslash byte: there is nothing in it to parse.
pub open spec fn plain_code(b: Seq<u8>) -> bool {
    forall|x: int| 0 <= x < b.len() ==> b[x] != 0x24u8 && b[x] != 0x5cu8
}

/// The tokens of plain code of `n` bytes: one text token over all of it, or
/// none when it is empty.
pub open spec fn single_text(t: Seq<Token>, n: int) -> bool {
    if n == 0 {
        t.len() == 0
    } else {
        &&& t.len() == 1
        &&& t[0].kind == TokenKind::Text
        &&& t[0].start == 0
        &&& t[0].end == n
    }
}

proof fn lemma_plain_chars(cs: Seq<char>)
    requires
        plain_code(encode_utf8(cs)),
    ensures
        !cs.contains('$'),
        !cs.contains('\\'),
{
    lemma_no_dollar_char(cs);
    if cs.contains('\\') {
        let i = choose|i: int| 0 <= i < cs.len() && cs[i] == '\\';
        crate::chars::lemma_byte_at_char(cs, i);
    }
}

/// The blocks found from `i` on lie within the text, after `i`.
proof fn lemma_blocks_from_range(b: Seq<u8>, i: int)
    requires
        0 <= i,
    ensures
        forall|q: int| 0 <= q < blocks_from(b, i).len() ==> i <= (#[trigger] blocks_from(b, i)[q]).0 <= blocks_from(b, i)[q].1 < b.len(),
    decreases b.len() - i,
{
    if i < b.len() {
        if i + 5 <= b.len() && b.subrange(i, i + 5) == code_label() {
            let j = skip_ascii_ws(b, i + 5);
            lemma_skip_ascii_ws_bounds(b, i + 5);
            if j < b.len() && b[j] == 0x60u8 {
                lemma_block_close_after(b, j + 1);
                match block_close(b, j + 1) {
                    Some(e) => {
                        lemma_blocks_from_range(b, e + 1);
                        let rest = blocks_from(b, e + 1);
                        assert(blocks_from(b, i) == seq![(j + 1, e)] + rest);
                        assert forall|q: int| 0 <= q < blocks_from(b, i).len() implies i <= (#[trigger] blocks_from(b, i)[q]).0 <= blocks_from(b, i)[q].1 < b.len() by {
                            if q > 0 {
                                assert(blocks_from(b, i)[q] == rest[q - 1]);
                            }
                        }
                    },
                    None => {
                        lemma_blocks_from_range(b, i + 1);
                        assert(blocks_from(b, i) == blocks_from(b, i + 1));
                    },
                }
            } else {
                lemma_blocks_from_range(b, i + 1);
                assert(blocks_from(b, i) == blocks_from(b, i + 1));
            }
        } else {
            lemma_blocks_from_range(b, i + 1);
            assert(blocks_from(b, i) == blocks_from(b, i + 1));
        }
    }
}

pub proof fn lemma_block_close_after(b: Seq<u8>, j: int)
    ensures
        block_close(b, j) matches Some(e) ==> j <= e < b.len() && b[e] == 0x60u8,
    decreases b.len() - j,
{
    if 0 <= j < b.len() {
        lemma_block_close_after(b, j + 1);
        if j + 1 < b.len() {
            lemma_block_close_after(b, j + 2);
        }
    }
}

pub proof fn lemma_skip_ascii_ws_bounds(b: Seq<u8>, j: int)
    requires
        0 <= j,
    ensures
        j <= skip_ascii_ws(b, j),
        j <= b.len() ==> skip_ascii_ws(b, j) <= b.len(),
    decreases b.len() - j,
{
    if 0 <= j < b.len() && is_ascii_ws(b[j]) {
        lemma_skip_ascii_ws_bounds(b, j + 1);
    }
}

/// Total length of the first `i` blocks joined, each followed by a newline.
pub open spec fn joined_len(lens: Seq<usize>, i: int) -> int
    decreases i,
{
    if i <= 0 || i > lens.len() {
        0
    } else {
        joined_len(lens, i - 1) + lens[i - 1] + 1
    }
}

/// Where a position of the joined blocks lies in the file's text: in the
/// block that holds it, or, for the newline after a block, just before the
/// next block's content (or at the end of the last block).
pub open spec fn mapped_position(p: int, offsets: Seq<usize>, lens: Seq<usize>) -> int {
    let (bi, bo) = block_of(p, lens, 0, 0);
    offsets[bi] + bo
}

/// The layout of the extracted blocks within a text of `n` bytes: each block
/// starts after its opening backtick and ends before its closing one, in order.
pub open spec fn blocks_laid_out(offsets: Seq<usize>, lens: Seq<usize>, n: int) -> bool {
    &&& offsets.len() == lens.len()
    &&& forall|j: int| 0 <= j < offsets.len() ==> 1 <= #[trigger] offsets[j] && offsets[j] + lens[j] < n
    &&& forall|j: int| #![trigger joined_len(lens, j)] 0 <= j <= lens.len() ==> joined_len(lens, j) <= n
}

pub proof fn lemma_joined_len_mono(lens: Seq<usize>, i: int, j: int)
    requires
        0 <= i <= j <= lens.len(),
    ensures
        joined_len(lens, i) + (j - i) <= joined_len(lens, j),
    decreases j - i,
{
    if i < j {
        lemma_joined_len_mono(lens, i, j - 1);
    }
}

/// Maps a position of the joined blocks back into the file's text.
fn map_position(p: usize, offsets: &Vec<usize>, lengths: &Vec<usize>, Ghost(n): Ghost<int>) -> (r: usize)
    requires
        offsets@.len() > 0,
        blocks_laid_out(offsets@, lengths@, n),
        n <= usize::MAX,
        p <= joined_len(lengths@, lengths@.len() as int),
    ensures
        r == mapped_position(p as int, offsets@, lengths@),
        r < n,
{
    let ghost lens = lengths@;
    let mut cur: usize = 0;
    let mut idx: usize = 0;
    while idx < lengths.len()
        invariant
            lens == lengths@,
            blocks_laid_out(offsets@, lens, n),
            n <= usize::MAX,
            idx <= lens.len(),
            cur == joined_len(lens, idx as int),
            block_of(p as int, lens, 0, 0) == block_of(p as int, lens, idx as int, cur as int),
            block_scan_fits(p as int, lens, 0, 0) == block_scan_fits(p as int, lens, idx as int, cur as int),
            p >= cur,
        ensures
            idx < lens.len() ==> p <= cur + lens[idx as int] && joined_len(lens, idx + 1) <= n,
        decreases lens.len() - idx,
    {
        proof {
            lemma_joined_len_mono(lens, idx + 1, lens.len() as int);
            assert(joined_len(lens, idx + 1) <= n);
        }
        let end = cur + lengths[idx];
        if p <= end {
            break;
        }
        cur = end + 1;
        idx = idx + 1;
    }
    proof {
        if idx < lens.len() {
            assert(joined_len(lens, idx + 1) == cur + lens[idx as int] + 1);
            assert(block_scan_fits(p as int, lens, idx as int, cur as int));
            assert(block_of(p as int, lens, idx as int, cur as int) == (idx as int, p - cur));
        } else {
            assert(block_of(p as int, lens, idx as int, cur as int) == (lens.len() - 1, lens[lens.len() - 1] as int));
        }
    }
    let (bi, bo) = map_to_block(p, lengths.as_slice());
    proof {
        assert(0 <= bi < lens.len());
        assert(offsets@[bi as int] + lens[bi as int] < n);
    }
    offsets[bi] + bo
}

impl<'a> ForgeScriptParser<'a> {
    /// Orchestrates the parsing process: unless the text is code already, the
    /// contents of its `code: `...`` blocks are joined (each followed by a
    /// newline) and parsed together; diagnostics and the spans of top-level
    /// functions are then mapped back into the text. Tokens keep positions in
    /// the joined blocks and show the joined text (`tokens_show_text`), and
    /// come in order (`tokens_in_order`); code with neither `$` nor a
    /// backslash is one text token (`single_text`). The end of a block, and
    /// the newline after it, map to the end of that block in the text.
    /// Without blocks the result is empty; without `$` there are no
    /// diagnostics and no calls. For code without backslashes whose calls
    /// are all escape calls, unknown calls, or calls of indexed functions with
    /// a closed bracket around arguments that are not calls, the whole list of
    /// diagnostics and of parsed calls is stated, in order and mapped back
    /// into the text (`simple_calls`). Of the code's first call, after plain text,
    /// the contract states: an unknown function is reported over the whole
    /// call (`first_call_unknown`); a known one is among the parsed calls
    /// with its span and, one per raw argument, its arguments
    /// (`first_call_known`, `args_of_text`); a bracket that never closes is
    /// reported up to the end of the code (`first_call_unclosed`); an escape
    /// function without brackets is reported (`first_call_bare_escape`). A
    /// line after the ignore directive reports nothing when the index is
    /// empty (`directive_then_line`).
    pub fn parse(&self) -> (r: ParseResult)
        requires
            parse_fits(self.text().spec_bytes().len() as int),
        ensures
            result_within(r, self.text().spec_bytes().len() as int),
            !self.reads_code_directly() && blocks_from(self.text().spec_bytes(), 0).len() == 0 ==> {
                &&& r.tokens@.len() == 0
                &&& r.diagnostics@.len() == 0
                &&& r.functions@.len() == 0
            },
            !self.reads_code_directly() && blocks_free_of_dollar(self.text().spec_bytes()) ==> r.diagnostics@.len()
                == 0 && r.functions@.len() == 0,
            self.reads_code_directly() && !self.text()@.contains('$') ==> r.diagnostics@.len() == 0
                && r.functions@.len() == 0,
            tokens_in_order(r.tokens@),
            self.reads_code_directly() ==> tokens_show_text(r.tokens@, self.text().spec_bytes()),
            !self.reads_code_directly() ==> tokens_show_text(
                r.tokens@,
                joined_blocks(self.text().spec_bytes(), blocks_from(self.text().spec_bytes(), 0)),
            ),
            self.reads_code_directly() && plain_code(self.text().spec_bytes()) ==> single_text(
                r.tokens@,
                self.text().spec_bytes().len() as int,
            ),
            self.reads_code_directly() && first_call_unknown(
                self.metadata().functions(),
                self.text()@,
                self.text().spec_bytes(),
            ) ==> {
                &&& r.diagnostics@.len() > 0
                &&& first_call_diag(r.diagnostics@[0], self.text()@, self.text().spec_bytes())
            },
            !self.reads_code_directly() && blocks_from(self.text().spec_bytes(), 0).len() > 0 && first_call_unknown(
                self.metadata().functions(),
                decode_utf8(joined_code(self.text().spec_bytes())),
                joined_code(self.text().spec_bytes()),
            ) ==> {
                &&& r.diagnostics@.len() > 0
                &&& r.diagnostics@[0].message@ == "Unknown function `"@ + seq!['$'] + first_call_name(
                    decode_utf8(joined_code(self.text().spec_bytes())),
                ) + "`"@
                &&& r.diagnostics@[0].start == mapped_position(
                    first_call_start(
                        decode_utf8(joined_code(self.text().spec_bytes())),
                        joined_code(self.text().spec_bytes()),
                    ),
                    block_offsets(blocks_from(self.text().spec_bytes(), 0)),
                    block_lens(blocks_from(self.text().spec_bytes(), 0)),
                )
                &&& r.diagnostics@[0].end == mapped_position(
                    first_call_end(
                        decode_utf8(joined_code(self.text().spec_bytes())),
                        joined_code(self.text().spec_bytes()),
                    ),
                    block_offsets(blocks_from(self.text().spec_bytes(), 0)),
                    block_lens(blocks_from(self.text().spec_bytes(), 0)),
                )
            },
            self.reads_code_directly() && directive_then_line(self.metadata().functions(), self.text()@)
                ==> r.diagnostics@.len() == 0 && r.functions@.len() == 0,
            !self.reads_code_directly() && blocks_from(self.text().spec_bytes(), 0).len() > 0 && directive_then_line(
                self.metadata().functions(),
                decode_utf8(joined_code(self.text().spec_bytes())),
            ) ==> r.diagnostics@.len() == 0 && r.functions@.len() == 0,
            self.reads_code_directly() && !self.text().spec_bytes().contains(0x5cu8) && simple_calls(
                self.metadata().functions(),
                self.metadata().enum_table(),
                self.text()@,
                self.text().spec_bytes(),
                0,
            ) is Some ==> {
                let v = simple_calls(self.metadata().functions(), self.metadata().enum_table(), self.text()@, self.text().spec_bytes(), 0)->0;
                &&& diags_view(r.diagnostics@) == v.0
                &&& funcs_view(r.functions@) == v.1
            },
            !self.reads_code_directly() && blocks_from(self.text().spec_bytes(), 0).len() > 0
                && !joined_code(self.text().spec_bytes()).contains(0x5cu8) && simple_calls(
                self.metadata().functions(),
                self.metadata().enum_table(),
                decode_utf8(joined_code(self.text().spec_bytes())),
                joined_code(self.text().spec_bytes()),
                0,
            ) is Some ==> {
                let v = simple_calls(
                    self.metadata().functions(),
                    self.metadata().enum_table(),
                    decode_utf8(joined_code(self.text().spec_bytes())),
                    joined_code(self.text().spec_bytes()),
                    0,
                )->0;
                let offs = block_offsets(blocks_from(self.text().spec_bytes(), 0));
                let lens = block_lens(blocks_from(self.text().spec_bytes(), 0));
                &&& r.diagnostics@.len() == v.0.len()
                &&& forall|i: int|
                    0 <= i < v.0.len() ==> (#[trigger] r.diagnostics@[i]).message@ == v.0[i].0 && r.diagnostics@[i].start
                        == mapped_position(v.0[i].1, offs, lens) && r.diagnostics@[i].end == mapped_position(
                        v.0[i].2,
                        offs,
                        lens,
                    )
                &&& r.functions@.len() == v.1.len()
                &&& forall|i: int|
                    0 <= i < v.1.len() ==> (#[trigger] r.functions@[i]).name@ == v.1[i].0 && r.functions@[i].span.0
                        == mapped_position(v.1[i].1, offs, lens) && r.functions@[i].span.1 == mapped_position(
                        v.1[i].2,
                        offs,
                        lens,
                    )
            },
            self.reads_code_directly() && first_call_bare_escape(self.text()@, self.text().spec_bytes()) ==> {
                &&& r.diagnostics@.len() > 0
                &&& bare_escape_diag(r.diagnostics@[0], self.text()@, self.text().spec_bytes())
            },
            !self.reads_code_directly() && blocks_from(self.text().spec_bytes(), 0).len() > 0 && first_call_bare_escape(
                decode_utf8(joined_code(self.text().spec_bytes())),
                joined_code(self.text().spec_bytes()),
            ) ==> {
                let jc = joined_code(self.text().spec_bytes());
                let cs = crate::semantic::char_table(decode_utf8(jc));
                &&& r.diagnostics@.len() > 0
                &&& r.diagnostics@[0].message@ == ""@ + seq!['$'] + first_call_name(decode_utf8(jc))
                    + " expects brackets `[...]` containing content to escape"@
                &&& r.diagnostics@[0].start == mapped_position(
                    first_call_start(decode_utf8(jc), jc),
                    block_offsets(blocks_from(self.text().spec_bytes(), 0)),
                    block_lens(blocks_from(self.text().spec_bytes(), 0)),
                )
                &&& r.diagnostics@[0].end == mapped_position(
                    pos_of(cs, crate::semantic::name_run(cs, first_dollar(decode_utf8(jc)) + 1), jc.len() as int),
                    block_offsets(blocks_from(self.text().spec_bytes(), 0)),
                    block_lens(blocks_from(self.text().spec_bytes(), 0)),
                )
            },
            self.reads_code_directly() && first_call_unclosed(
                self.metadata().functions(),
                self.text()@,
                self.text().spec_bytes(),
            ) ==> {
                &&& r.diagnostics@.len() > 0
                &&& unclosed_call_diag(
                    r.diagnostics@[0],
                    self.metadata().functions(),
                    self.text()@,
                    self.text().spec_bytes(),
                )
            },
            !self.reads_code_directly() && blocks_from(self.text().spec_bytes(), 0).len() > 0 && first_call_unclosed(
                self.metadata().functions(),
                decode_utf8(joined_code(self.text().spec_bytes())),
                joined_code(self.text().spec_bytes()),
            ) ==> {
                &&& r.diagnostics@.len() > 0
                &&& r.diagnostics@[0].message@ == "Unclosed '[' for function `"@ + seq!['$'] + crate::strings::strip_dollars(
                    first_call_function(
                        self.metadata().functions(),
                        decode_utf8(joined_code(self.text().spec_bytes())),
                    ).name@,
                ) + "`"@
                &&& r.diagnostics@[0].start == mapped_position(
                    first_call_start(
                        decode_utf8(joined_code(self.text().spec_bytes())),
                        joined_code(self.text().spec_bytes()),
                    ),
                    block_offsets(blocks_from(self.text().spec_bytes(), 0)),
                    block_lens(blocks_from(self.text().spec_bytes(), 0)),
                )
                &&& r.diagnostics@[0].end == mapped_position(
                    joined_code(self.text().spec_bytes()).len() as int,
                    block_offsets(blocks_from(self.text().spec_bytes(), 0)),
                    block_lens(blocks_from(self.text().spec_bytes(), 0)),
                )
            },
            self.reads_code_directly() && first_call_known(
                self.metadata().functions(),
                self.text()@,
                self.text().spec_bytes(),
            ) ==> exists|i: int|
                0 <= i < r.functions@.len() && #[trigger] first_call_parsed(
                    r.functions@[i],
                    first_call_function(self.metadata().functions(), self.text()@),
                    self.text()@,
                    self.text().spec_bytes(),
                ),
            !self.reads_code_directly() && blocks_from(self.text().spec_bytes(), 0).len() > 0 && first_call_known(
                self.metadata().functions(),
                decode_utf8(joined_code(self.text().spec_bytes())),
                joined_code(self.text().spec_bytes()),
            ) ==> exists|i: int|
                0 <= i < r.functions@.len() && #[trigger] first_call_parsed_in_blocks(
                    r.functions@[i],
                    first_call_function(self.metadata().functions(), decode_utf8(joined_code(self.text().spec_bytes()))),
                    decode_utf8(joined_code(self.text().spec_bytes())),
                    joined_code(self.text().spec_bytes()),
                    block_offsets(blocks_from(self.text().spec_bytes(), 0)),
                    block_lens(blocks_from(self.text().spec_bytes(), 0)),
                ),
            !self.reads_code_directly() && plain_code(
                joined_blocks(self.text().spec_bytes(), blocks_from(self.text().spec_bytes(), 0)),
            ) ==> single_text(
                r.tokens@,
                joined_blocks(self.text().spec_bytes(), blocks_from(self.text().spec_bytes(), 0)).len() as int,
            ),
    {
        if self.skip_extraction {
            return self.parse_internal();
        }
        let code = self.code;
        let bytes = code.as_bytes();
        let ghost b = bytes@;
        let n = bytes.len();
        let mut code_to_parse = String::new();
        let mut offsets: Vec<usize> = Vec::new();
        let mut lengths: Vec<usize> = Vec::new();
        let mut i: usize = 0;
        let ghost mut pushed: Seq<(int, int)> = Seq::empty();
        proof {
            is_char_boundary_start_end_of_seq(b);
            assert(blocks_from(b, 0) =~= pushed + blocks_from(b, 0));
            assert(encode_utf8(code_to_parse@) =~= Seq::<u8>::empty());
            assert(offsets@ =~= block_offsets(pushed));
            assert(lengths@ =~= block_lens(pushed));
        }
        while i < n
            invariant
                b == bytes@,
                b == code.spec_bytes(),
                n == b.len(),
                parse_fits(n as int),
                i <= n,
                blocks_from(b, 0) == pushed + blocks_from(b, i as int),
                encode_utf8(code_to_parse@) == joined_blocks(b, pushed),
                offsets@.len() == lengths@.len(),
                encode_utf8(code_to_parse@).len() == joined_len(lengths@, lengths@.len() as int),
                joined_len(lengths@, lengths@.len() as int) <= i,
                forall|j: int| 0 <= j < offsets@.len() ==> 1 <= #[trigger] offsets@[j] && offsets@[j] + lengths@[j] < i,
                forall|j: int| #![trigger joined_len(lengths@, j)] 0 <= j <= lengths@.len() ==> joined_len(lengths@, j) <= i,
                offsets@.len() + blocks_from(b, i as int).len() == blocks_from(b, 0).len(),
                offsets@ == block_offsets(pushed),
                lengths@ == block_lens(pushed),
            decreases n - i,
        {
            if i + 5 <= n && bytes[i] == 0x63u8 && bytes[i + 1] == 0x6fu8 && bytes[i + 2] == 0x64u8
                && bytes[i + 3] == 0x65u8 && bytes[i + 4] == 0x3au8 {
                assert(b.subrange(i as int, i + 5) =~= code_label());
                let mut j = i + 5;
                while j < n && (bytes[j] == 0x20u8 || bytes[j] == 0x09u8 || bytes[j] == 0x0au8
                    || bytes[j] == 0x0cu8 || bytes[j] == 0x0du8)
                    invariant
                        b == bytes@,
                        n == b.len(),
                        i + 5 <= j <= n,
                        skip_ascii_ws(b, i + 5) == skip_ascii_ws(b, j as int),
                    decreases n - j,
                {
                    j = j + 1;
                }
                if j < n && bytes[j] == 0x60u8 {
                    j = j + 1;
                    let content_start = j;
                    let mut found_end = false;
                    while j < n
                        invariant_except_break
                            block_close(b, content_start as int) == block_close(b, j as int),
                            !found_end,
                        invariant
                            b == bytes@,
                            n == b.len(),
                            content_start <= j <= n,
                        ensures
                            found_end ==> j < n && block_close(b, content_start as int) == Some(j as int),
                            !found_end ==> block_close(b, content_start as int) is None,
                        decreases n - j,
                    {
                        if bytes[j] == 0x5cu8 && j + 1 < n {
                            j = j + 2;
                            continue;
                        }
                        if bytes[j] == 0x60u8 {
                            found_end = true;
                            break;
                        }
                        j = j + 1;
                    }
                    if found_end {
                        proof {
                            lemma_block_close_after(b, content_start as int);
                            lemma_ascii_byte_boundaries(b, content_start - 1);
                            lemma_ascii_byte_boundaries(b, j as int);
                            lemma_skip_ascii_ws_bounds(b, i + 5);
                        }
                        let content = substr(code, content_start, j);
                        let ghost old_lens = lengths@;
                        let ghost before = code_to_parse@;
                        offsets.push(content_start);
                        lengths.push(j - content_start);
                        push_str(&mut code_to_parse, content);
                        push_char(&mut code_to_parse, '\n');
                        proof {
                            let p0 = pushed;
                            pushed = pushed.push((content_start as int, j as int));
                            assert(pushed.drop_last() =~= p0);
                            lemma_encode_newline(before + content@);
                            crate::text::lemma_encode_utf8_append(before, content@);
                            assert(code_to_parse@ == (before + content@).push('\n'));
                            assert(encode_utf8(content@) == b.subrange(content_start as int, j as int));
                            assert(pushed.last() == (content_start as int, j as int));
                            assert(joined_blocks(b, pushed) == joined_blocks(b, p0) + b.subrange(content_start as int, j as int)
                                + seq![0x0au8]);
                            assert(encode_utf8(code_to_parse@) =~= joined_blocks(b, pushed));
                            crate::text::lemma_encode_utf8_append(before, content@);
                            lemma_push_len(before + content@, '\n');
                            lemma_ascii_width('\n');
                            assert(lengths@.drop_last() =~= old_lens);
                            assert forall|x: int| #![trigger joined_len(lengths@, x)] 0 <= x <= lengths@.len() implies joined_len(lengths@, x) <= j + 1 by {
                                lemma_joined_len_prefix(lengths@, old_lens, x);
                            }
                            lemma_joined_len_prefix(lengths@, old_lens, old_lens.len() as int);
                            assert(blocks_from(b, i as int) == seq![(content_start as int, j as int)] + blocks_from(b, j + 1));
                            assert(blocks_from(b, 0) =~= pushed + blocks_from(b, j + 1));
                            assert(offsets@ =~= block_offsets(pushed));
                            assert(lengths@ =~= block_lens(pushed));
                        }
                        i = j + 1;
                        continue;
                    }
                }
            }
            i = i + 1;
        }
        proof {
            assert(blocks_from(b, n as int) =~= Seq::<(int, int)>::empty());
            assert(pushed =~= blocks_from(b, 0));
            if blocks_free_of_dollar(b) {
                lemma_blocks_from_range(b, 0);
                lemma_joined_free_of_dollar(b, pushed);
                lemma_no_dollar_char(code_to_parse@);
            }
        }
        if offsets.len() > 0 {
            let ghost m = encode_utf8(code_to_parse@).len() as int;
            proof {
                lemma_parse_fits_smaller(n as int, m);
            }
            let inner = ForgeScriptParser::new_internal(crate::trie::share(&self.manager), code_to_parse.as_str());
            let result = inner.parse_internal();
            proof {
                assert(inner.text().spec_bytes() == joined_code(b));
                vstd::utf8::decode_utf8_encode_utf8(joined_code(b));
                assert(inner.text()@ == decode_utf8(joined_code(b)));
                assert(inner.metadata() == self.metadata());
            }
            let ParseResult { tokens, diagnostics, functions } = result;
            let mut mapped_diags: Vec<Diagnostic> = Vec::new();
            let mut q: usize = 0;
            while q < diagnostics.len()
                invariant
                    q <= diagnostics@.len(),
                    diags_within(diagnostics@, m),
                    m == joined_len(lengths@, lengths@.len() as int),
                    offsets@.len() > 0,
                    blocks_laid_out(offsets@, lengths@, n as int),
                    n <= usize::MAX,
                    diags_within(mapped_diags@, n as int),
                    mapped_diags@.len() == q,
                    forall|x: int|
                        0 <= x < q ==> (#[trigger] mapped_diags@[x]).message == diagnostics@[x].message
                            && mapped_diags@[x].start == mapped_position(diagnostics@[x].start as int, offsets@, lengths@)
                            && mapped_diags@[x].end == mapped_position(diagnostics@[x].end as int, offsets@, lengths@),
                decreases diagnostics@.len() - q,
            {
                let d = &diagnostics[q];
                let start = map_position(d.start, &offsets, &lengths, Ghost(n as int));
                let end = map_position(d.end, &offsets, &lengths, Ghost(n as int));
                mapped_diags.push(Diagnostic { message: d.message.clone(), start, end });
                q = q + 1;
            }
            let mut mapped_funcs: Vec<ParsedFunction> = Vec::new();
            let mut w: usize = 0;
            while w < functions.len()
                invariant
                    w <= functions@.len(),
                    funcs_within(functions@, m),
                    m == joined_len(lengths@, lengths@.len() as int),
                    m <= n,
                    parse_fits(n as int),
                    offsets@.len() > 0,
                    blocks_laid_out(offsets@, lengths@, n as int),
                    n <= usize::MAX,
                    funcs_within(mapped_funcs@, n as int),
                    mapped_funcs@.len() == w,
                    forall|x: int|
                        0 <= x < w ==> (#[trigger] mapped_funcs@[x]).name == functions@[x].name
                            && mapped_funcs@[x].meta == functions@[x].meta
                            && mapped_funcs@[x].span.0 == mapped_position(functions@[x].span.0 as int, offsets@, lengths@)
                            && mapped_funcs@[x].span.1 == mapped_position(functions@[x].span.1 as int, offsets@, lengths@)
                            && (mapped_funcs@[x].args is Some <==> functions@[x].args is Some)
                            && same_args(mapped_funcs@[x], functions@[x]),
                decreases functions@.len() - w,
            {
                let f = &functions[w];
                let mut g = f.copy();
                let s0 = map_position(f.span.0, &offsets, &lengths, Ghost(n as int));
                let s1 = map_position(f.span.1, &offsets, &lengths, Ghost(n as int));
                g.span = (s0, s1);
                proof {
                    lemma_parse_fits_smaller(n as int, m);
                    lemma_within_mono(*f, m, n as int);
                    lemma_copy_within(g, *f, (n as int));
                }
                mapped_funcs.push(g);
                w = w + 1;
            }
            proof {
                assert forall|t: int| 0 <= t < tokens@.len() implies (#[trigger] tokens@[t]).start <= tokens@[t].end <= n by {
                    assert(tokens@[t].end <= m);
                }
                assert(inner.text().spec_bytes() == joined_blocks(b, blocks_from(b, 0)));
            }
            proof {
                assert(pushed == blocks_from(b, 0));
                if first_call_bare_escape(decode_utf8(joined_code(b)), joined_code(b)) {
                    assert(diagnostics@.len() > 0);
                    assert(mapped_diags@[0].start == mapped_position(diagnostics@[0].start as int, offsets@, lengths@));
                    assert(mapped_diags@[0].end == mapped_position(diagnostics@[0].end as int, offsets@, lengths@));
                }
                if first_call_unclosed(self.metadata().functions(), decode_utf8(joined_code(b)), joined_code(b)) {
                    assert(diagnostics@.len() > 0);
                    assert(mapped_diags@[0].start == mapped_position(diagnostics@[0].start as int, offsets@, lengths@));
                    assert(mapped_diags@[0].end == mapped_position(diagnostics@[0].end as int, offsets@, lengths@));
                }
                if first_call_unknown(self.metadata().functions(), decode_utf8(joined_code(b)), joined_code(b)) {
                    assert(diagnostics@.len() > 0);
                    assert(mapped_diags@[0].start == mapped_position(diagnostics@[0].start as int, offsets@, lengths@));
                    assert(mapped_diags@[0].end == mapped_position(diagnostics@[0].end as int, offsets@, lengths@));
                }
            }
            proof {
                let jc = joined_code(b);
                if !jc.contains(0x5cu8) && simple_calls(self.metadata().functions(), self.metadata().enum_table(), decode_utf8(jc), jc, 0) is Some {
                    let v = simple_calls(self.metadata().functions(), self.metadata().enum_table(), decode_utf8(jc), jc, 0)->0;
                    assert(diags_view(diagnostics@) == v.0);
                    assert(funcs_view(functions@) == v.1);
                    assert forall|i: int| 0 <= i < v.0.len() implies (#[trigger] mapped_diags@[i]).message@ == v.0[i].0
                        && mapped_diags@[i].start == mapped_position(v.0[i].1, offsets@, lengths@)
                        && mapped_diags@[i].end == mapped_position(v.0[i].2, offsets@, lengths@) by {
                        assert(diags_view(diagnostics@)[i] == v.0[i]);
                    }
                    assert forall|i: int| 0 <= i < v.1.len() implies (#[trigger] mapped_funcs@[i]).name@ == v.1[i].0
                        && mapped_funcs@[i].span.0 == mapped_position(v.1[i].1, offsets@, lengths@)
                        && mapped_funcs@[i].span.1 == mapped_position(v.1[i].2, offsets@, lengths@) by {
                        assert(funcs_view(functions@)[i] == v.1[i]);
                    }
                }
            }
            let r = ParseResult { tokens, diagnostics: mapped_diags, functions: mapped_funcs };
            proof {
                let jc = joined_code(self.text().spec_bytes());
                if first_call_known(self.metadata().functions(), decode_utf8(jc), jc) {
                    let fi = choose|i: int|
                        0 <= i < functions@.len() && #[trigger] first_call_parsed(
                            functions@[i],
                            first_call_function(self.metadata().functions(), decode_utf8(jc)),
                            decode_utf8(jc),
                            jc,
                        );
                    let c0 = functions@[fi];
                    let c1 = r.functions@[fi];
                    if first_call_close(decode_utf8(jc), jc) is Some && c0.args is Some {
                        assert(same_args(c1, c0));
                        lemma_args_of_text_shifted(
                            c1.args->0@,
                            c0.args->0@,
                            decode_utf8(jc.subrange(first_call_open(decode_utf8(jc), jc) + 1, first_call_close(decode_utf8(jc), jc)->0)),
                            jc.subrange(first_call_open(decode_utf8(jc), jc) + 1, first_call_close(decode_utf8(jc), jc)->0),
                        );
                    }
                    assert(0 <= fi < r.functions@.len() && first_call_parsed_in_blocks(
                        r.functions@[fi],
                        first_call_function(self.metadata().functions(), decode_utf8(jc)),
                        decode_utf8(jc),
                        jc,
                        block_offsets(blocks_from(self.text().spec_bytes(), 0)),
                        block_lens(blocks_from(self.text().spec_bytes(), 0)),
                    ));
                }
            }
            return r;
        }
        proof {
            assert(blocks_from(b, n as int).len() == 0);
            assert(joined_blocks(b, blocks_from(b, 0)).len() == 0);
        }
        ParseResult { tokens: Vec::new(), diagnostics: Vec::new(), functions: Vec::new() }
    }
}

/// The joined contents of the code blocks of a text with bytes `b`.
pub open spec fn joined_code(b: Seq<u8>) -> Seq<u8> {
    joined_blocks(b, blocks_from(b, 0))
}

/// Where blocks start in the text.
pub open spec fn block_offsets(bs: Seq<(int, int)>) -> Seq<usize> {
    bs.map_values(|p: (int, int)| p.0 as usize)
}

/// How long blocks are.
pub open spec fn block_lens(bs: Seq<(int, int)>) -> Seq<usize> {
    bs.map_values(|p: (int, int)| (p.1 - p.0) as usize)
}

/// Joined lengths of a prefix do not depend on what follows.
pub proof fn lemma_joined_len_prefix(lens: Seq<usize>, pre: Seq<usize>, x: int)
    requires
        pre == lens.drop_last(),
        lens.len() >= 1,
        0 <= x <= lens.len(),
    ensures
        x <= pre.len() ==> joined_len(lens, x) == joined_len(pre, x),
        joined_len(lens, lens.len() as int) == joined_len(pre, pre.len() as int) + lens.last() + 1,
    decreases x,
{
    if x > 0 {
        lemma_joined_len_prefix(lens, pre, x - 1);
    }
    assert(joined_len(lens, lens.len() as int) == joined_len(lens, lens.len() - 1) + lens.last() + 1);
    lemma_joined_len_prefix_all(lens, pre, lens.len() - 1);
}

proof fn lemma_joined_len_prefix_all(lens: Seq<usize>, pre: Seq<usize>, x: int)
    requires
        lens.len() >= 1,
        pre == lens.drop_last(),
        0 <= x <= pre.len(),
    ensures
        joined_len(lens, x) == joined_len(pre, x),
    decreases x,
{
    if x > 0 {
        lemma_joined_len_prefix_all(lens, pre, x - 1);
        assert(pre[x - 1] == lens[x - 1]);
    }
}

/// A copy with a replaced top-level span within the bound keeps every span
/// within the bound.
proof fn lemma_copy_within(g: ParsedFunction, f: ParsedFunction, q: int)
    requires
        spans_within(f, q),
        g.span.0 <= q,
        g.span.1 <= q,
        match (g.args, f.args) {
            (Some(nv), Some(ov)) => nv@.len() == ov@.len() && shifted_list(nv@, ov@, 0, 0),
            (None, None) => true,
            _ => false,
        },
    ensures
        spans_within(g, q),
{
    match (g.args, f.args) {
        (Some(nv), Some(ov)) => {
            lemma_shift_within_list(nv@, ov@, 0, 0, q);
        },
        _ => {},
    }
}

} // verus!
