//! Editor features computed from a document and the function index: the
//! call under the cursor, hover documentation, the definition of a custom
//! function, completions, signature help, folding ranges, diagnostics and
//! the nesting depth at the cursor.

use std::sync::Arc;
use vstd::prelude::*;
use vstd::string::{StrSliceExecFns, StringExecFns, StringSliceAdditionalSpecFns};
use vstd::utf8::*;
use crate::chars::{byte_offset, utf16_width};
use crate::function::{arg_label, arg_label_text, signature_text, Arg, Function};
use crate::metadata::{names_view, MetadataManager};
use crate::parser::{Diagnostic, ParsedFunction};
use crate::position::{
    chars_before, cursor_offset, cursor_window_start, line_col_fits, open_back_fits, param_state, position_fits,
    spec_active_function_call, spec_position_to_offset, Position,
};
use crate::semantic::{line_start_from, next_newline, pos_col, pos_line};
use crate::strings::{alphanumeric, dollar_name, is_alphanumeric, push_char, push_str, to_owned};
use crate::text::{is_escaped, lemma_ascii_byte_boundaries, skip_mods, spec_is_escaped, substr};
use crate::trie::{lowercase_key, spec_trie_get};

verus! {

broadcast use vstd::utf8::group_utf8_lib;

// ---------------------------------------------------------------------------
// The token under the cursor
// ---------------------------------------------------------------------------

/// Characters that hover and go-to-definition take as part of a call.
pub open spec fn is_call_char(c: char) -> bool {
    alphanumeric(c) || c == '_' || c == '.' || c == '$' || c == '!' || c == '#' || c == '@' || c == '['
        || c == ']'
}

fn call_char(c: char) -> (r: bool)
    ensures
        r == is_call_char(c),
{
    is_alphanumeric(c) || c == '_' || c == '.' || c == '$' || c == '!' || c == '#' || c == '@' || c == '['
        || c == ']'
}

/// A `$` at character `k` that is not escaped.
pub open spec fn unescaped_dollar(cs: Seq<char>, k: int) -> bool {
    cs[k] == '$' && !spec_is_escaped(encode_utf8(cs), byte_offset(cs, k))
}

/// Walking back from character `k` over call characters, stopping after an unescaped `$`.
pub open spec fn token_back(cs: Seq<char>, k: int) -> int
    decreases k,
{
    if 0 < k <= cs.len() && is_call_char(cs[k - 1]) {
        if unescaped_dollar(cs, k - 1) {
            k - 1
        } else {
            token_back(cs, k - 1)
        }
    } else {
        k
    }
}

/// Walking forward from character `k` over call characters, stopping before
/// an unescaped `$` after the start.
pub open spec fn token_fwd(cs: Seq<char>, start: int, k: int) -> int
    decreases cs.len() - k,
{
    if 0 <= k < cs.len() && is_call_char(cs[k]) && !(unescaped_dollar(cs, k) && k > start) {
        token_fwd(cs, start, k + 1)
    } else {
        k
    }
}

/// The byte range of the call text around byte `offset`, if any.
pub open spec fn token_range(cs: Seq<char>, offset: int) -> Option<(int, int)> {
    let cur = chars_before(cs, offset);
    let s = token_back(cs, cur);
    let e = token_fwd(cs, s, cur);
    if s >= e {
        None
    } else {
        Some((byte_offset(cs, s), byte_offset(cs, e)))
    }
}

pub proof fn lemma_token_back_bounds(cs: Seq<char>, k: int)
    requires
        0 <= k <= cs.len(),
    ensures
        0 <= token_back(cs, k) <= k,
    decreases k,
{
    if 0 < k && is_call_char(cs[k - 1]) && !unescaped_dollar(cs, k - 1) {
        lemma_token_back_bounds(cs, k - 1);
    }
}

pub proof fn lemma_token_fwd_bounds(cs: Seq<char>, s: int, k: int)
    requires
        0 <= k <= cs.len(),
    ensures
        k <= token_fwd(cs, s, k) <= cs.len(),
    decreases cs.len() - k,
{
    if k < cs.len() && is_call_char(cs[k]) && !(unescaped_dollar(cs, k) && k > s) {
        lemma_token_fwd_bounds(cs, s, k + 1);
    }
}

/// Finds the call text around a byte offset.
pub fn token_range_at(text: &str, offset: usize) -> (r: Option<(usize, usize)>)
    ensures
        match r {
            Some((s, e)) => token_range(text@, offset as int) == Some((s as int, e as int)),
            None => token_range(text@, offset as int) is None,
        },
        r matches Some((s, e)) ==> s < e <= text.spec_bytes().len() && is_char_boundary(text.spec_bytes(), s as int)
            && is_char_boundary(text.spec_bytes(), e as int),
{
    let ghost cs = text@;
    let ghost b = text.spec_bytes();
    let indices = crate::chars::char_indices(text);
    let n = text.as_bytes().len();
    let mut k: usize = 0;
    proof {
        crate::position::lemma_chars_before_bounds(cs, offset as int, 0);
    }
    while k < indices.len() && indices[k].0 < offset
        invariant
            indices@.len() == cs.len(),
            forall|j: int| 0 <= j < indices@.len() ==> (#[trigger] indices@[j]).1 == cs[j] && indices@[j].0 == byte_offset(cs, j),
            k <= cs.len(),
            crate::position::chars_before(cs, offset as int) == crate::position::chars_before_from(cs, offset as int, k as int),
        decreases cs.len() - k,
    {
        k = k + 1;
    }
    let current = k;
    let mut start = current;
    while start > 0
        invariant_except_break
            token_back(cs, current as int) == token_back(cs, start as int),
        invariant
            indices@.len() == cs.len(),
            forall|j: int| 0 <= j < indices@.len() ==> (#[trigger] indices@[j]).1 == cs[j] && indices@[j].0 == byte_offset(cs, j),
            b == text.spec_bytes(),
            b == encode_utf8(cs),
            start <= current <= cs.len(),
        ensures
            token_back(cs, current as int) == start,
        decreases start,
    {
        let (bp, c) = indices[start - 1];
        proof {
            crate::chars::lemma_byte_at_char(cs, start - 1);
        }
        if call_char(c) {
            if c == '$' && !is_escaped(text, bp) {
                start = start - 1;
                break;
            }
            start = start - 1;
        } else {
            break;
        }
    }
    let mut end = current;
    proof {
        lemma_token_back_bounds(cs, current as int);
    }
    while end < indices.len()
        invariant
            indices@.len() == cs.len(),
            forall|j: int| 0 <= j < indices@.len() ==> (#[trigger] indices@[j]).1 == cs[j] && indices@[j].0 == byte_offset(cs, j),
            b == text.spec_bytes(),
            b == encode_utf8(cs),
            current <= end <= cs.len(),
            token_fwd(cs, start as int, current as int) == token_fwd(cs, start as int, end as int),
        ensures
            token_fwd(cs, start as int, current as int) == end,
        decreases cs.len() - end,
    {
        let (bp, c) = indices[end];
        proof {
            crate::chars::lemma_byte_at_char(cs, end as int);
        }
        if call_char(c) {
            if c == '$' && !is_escaped(text, bp) && end > start {
                break;
            }
            end = end + 1;
        } else {
            break;
        }
    }
    if start >= end {
        return None;
    }
    proof {
        crate::strings::lemma_offset_boundary(cs, start as int);
        crate::strings::lemma_offset_boundary(cs, end as int);
        crate::strings::lemma_offset_monotone(cs, start as int, end as int);
        crate::chars::lemma_byte_offset_step(cs, start as int);
        crate::strings::lemma_offset_monotone(cs, start + 1, end as int);
        assert(cs.take(cs.len() as int) =~= cs);
    }
    let start_byte = indices[start].0;
    let end_byte = if end < indices.len() { indices[end].0 } else { n };
    Some((start_byte, end_byte))
}

/// The call text without its modifiers: for a text starting with `$`, `$`
/// and what follows the modifiers, when there are modifiers and something
/// follows them; the text itself otherwise.
pub open spec fn clean_call(raw: Seq<char>) -> Seq<char> {
    let b = encode_utf8(raw);
    if b.len() > 0 && b[0] == 0x24u8 {
        let me = skip_mods(b, 1);
        if me > 1 && me < b.len() {
            seq!['$'] + decode_utf8(b.subrange(me, b.len() as int))
        } else {
            raw
        }
    } else {
        raw
    }
}

/// Strips the modifiers from a call text.
pub fn clean_call_text(raw: &str) -> (r: String)
    ensures
        r@ == clean_call(raw@),
{
    let b = raw.as_bytes();
    if b.len() > 0 && b[0] == 0x24u8 {
        let me = crate::text::skip_modifiers(raw, 1);
        if me > 1 && me < b.len() {
            proof {
                lemma_mods_end_boundary(b@, me as int);
                is_char_boundary_start_end_of_seq(b@);
            }
            let after = substr(raw, me, b.len());
            return dollar_name(after);
        }
    }
    to_owned(raw)
}

/// Where the modifier run ends there is a character boundary.
proof fn lemma_mods_end_boundary(b: Seq<u8>, me: int)
    requires
        valid_utf8(b),
        1 < me < b.len(),
        me == skip_mods(b, 1),
    ensures
        is_char_boundary(b, me),
{
    crate::text::lemma_skip_mods_ends_ascii(b, 1);
    lemma_ascii_byte_boundaries(b, me - 1);
}

// ---------------------------------------------------------------------------
// Hover and definition
// ---------------------------------------------------------------------------

/// The function a name refers to, found as the function index finds names in text.
pub open spec fn lookup_fn(m: Map<Seq<char>, Arc<Function>>, name: Seq<char>) -> Option<Arc<Function>> {
    match spec_trie_get(m, lowercase_key(name)) {
        Some((_, f)) => Some(f),
        None => None,
    }
}

/// The call text under the cursor, if the position is in the text and on a call.
pub open spec fn call_at(cs: Seq<char>, position: Position) -> Option<Seq<char>> {
    match spec_position_to_offset(cs, position.line, position.character) {
        Some(o) => match token_range(cs, o) {
            Some((s, e)) => Some(decode_utf8(encode_utf8(cs).subrange(s, e))),
            None => None,
        },
        None => None,
    }
}

/// The function hover documents: the one named by the call under the cursor,
/// unless that is an escape call or a JavaScript expression.
pub open spec fn hover_function(cs: Seq<char>, position: Position, m: Map<Seq<char>, Arc<Function>>) -> Option<Arc<Function>> {
    match call_at(cs, position) {
        Some(raw) => if raw == "$esc"@ || raw == "$escape"@ || (raw.len() >= 2 && raw[0] == '$' && raw[1] == '{') {
            None
        } else {
            lookup_fn(m, clean_call(raw))
        },
        None => None,
    }
}

/// The call text under the cursor.
fn call_text_at(text: &str, position: Position) -> (r: Option<String>)
    requires
        crate::position::position_fits(text@, position.line, position.character),
    ensures
        match r {
            Some(t) => call_at(text@, position) == Some(t@),
            None => call_at(text@, position) is None,
        },
{
    match crate::position::position_to_offset(text, position) {
        Some(offset) => match token_range_at(text, offset) {
            Some((s, e)) => Some(to_owned(substr(text, s, e))),
            None => None,
        },
        None => None,
    }
}

/// Builds the hover documentation for the call under the cursor.
pub fn get_hover(text: &str, position: Position, manager: &MetadataManager) -> (r: Option<String>)
    requires
        crate::position::position_fits(text@, position.line, position.character),
    ensures
        match hover_function(text@, position, manager.functions()) {
            Some(f) => r matches Some(md) && md@ == crate::docs::hover_text(*f),
            None => r is None,
        },
{
    let raw = match call_text_at(text, position) {
        Some(t) => t,
        None => {
            return None;
        },
    };
    let rs = raw.as_str();
    let rc = crate::trie::chars_of(rs);
    let js = rc.len() >= 2 && rc[0] == '$' && rc[1] == '{';
    if crate::text::str_eq(rs, "$esc") || crate::text::str_eq(rs, "$escape") || js {
        return None;
    }
    let clean = clean_call_text(rs);
    match manager.get(clean.as_str()) {
        Some(f) => Some(crate::docs::hover_markdown(&f)),
        None => None,
    }
}

/// Why a definition request was refused.
#[derive(Clone, Copy, Debug, PartialEq, Eq, Structural)]
pub enum DefinitionError {
    /// The position is not in the document.
    InvalidPosition,
}

/// Where the function named by the call under the cursor is defined: its
/// file and line, for a custom function that records both.
pub open spec fn definition_of(cs: Seq<char>, position: Position, m: Map<Seq<char>, Arc<Function>>) -> Option<(Seq<char>, u32)> {
    match call_at(cs, position) {
        Some(raw) => match lookup_fn(m, clean_call(raw)) {
            Some(f) => match (f.local_path, f.line) {
                (Some(p), Some(l)) => Some((p@, l)),
                _ => None,
            },
            None => None,
        },
        None => None,
    }
}

/// Finds the definition site of the call under the cursor.
pub fn get_definition(text: &str, position: Position, manager: &MetadataManager) -> (r: Result<Option<(String, u32)>, DefinitionError>)
    requires
        crate::position::position_fits(text@, position.line, position.character),
    ensures
        spec_position_to_offset(text@, position.line, position.character) is None <==> r == Err::<Option<(String, u32)>, DefinitionError>(DefinitionError::InvalidPosition),
        r matches Ok(d) ==> match definition_of(text@, position, manager.functions()) {
            Some((p, l)) => d matches Some((q, k)) && q@ == p && k == l,
            None => d is None,
        },
{
    if crate::position::position_to_offset(text, position).is_none() {
        return Err(DefinitionError::InvalidPosition);
    }
    let raw = match call_text_at(text, position) {
        Some(t) => t,
        None => {
            return Ok(None);
        },
    };
    let clean = clean_call_text(raw.as_str());
    match manager.get(clean.as_str()) {
        Some(f) => match (&f.local_path, f.line) {
            (Some(path), Some(line)) => Ok(Some((path.clone(), line))),
            _ => Ok(None),
        },
        None => Ok(None),
    }
}

// ---------------------------------------------------------------------------
// The call around the cursor
// ---------------------------------------------------------------------------

/// The bytes kept before the cursor: at most the last 8 KiB before it.
pub open spec fn cursor_window(cs: Seq<char>, position: Position) -> Seq<u8> {
    encode_utf8(cs).subrange(cursor_window_start(cs, position), cursor_offset(cs, position))
}

/// The position can be read, and the kept window starts at a character.
pub open spec fn cursor_ready(cs: Seq<char>, position: Position) -> bool {
    position_fits(cs, position.line, position.character)
        && is_char_boundary(encode_utf8(cs), cursor_window_start(cs, position))
}

/// The call whose brackets enclose the cursor, and the index of the argument
/// the cursor is in: separators counted after that call's `[`.
pub open spec fn active_call(cs: Seq<char>, position: Position) -> Option<(Seq<char>, int)> {
    let w = cursor_window(cs, position);
    match spec_active_function_call(w) {
        Some((name, o)) => {
            let after = decode_utf8(w.subrange(o + 1, w.len() as int));
            Some((name, param_state(after, after.len() as int).0))
        },
        None => None,
    }
}

/// The pending-bracket count stays below what it could reach in `i` bytes.
proof fn lemma_open_back_fits(b: Seq<u8>, i: int, depth: int)
    requires
        0 <= i <= b.len(),
        0 <= depth,
        depth + i <= i32::MAX,
    ensures
        open_back_fits(b, i, depth),
    decreases i,
{
    if i > 0 {
        lemma_open_back_fits(b, i - 1, depth + 1);
        if depth > 0 {
            lemma_open_back_fits(b, i - 1, depth - 1);
        }
        lemma_open_back_fits(b, i - 1, depth);
    }
}

/// The bracket depth of the argument scan never exceeds the characters read.
proof fn lemma_param_depth_bound(cs: Seq<char>, m: int)
    requires
        0 <= m <= cs.len(),
    ensures
        0 <= param_state(cs, m).1 <= m,
    decreases m,
{
    if m > 0 {
        lemma_param_depth_bound(cs, m - 1);
    }
}

/// Finds the call around the cursor and the argument the cursor is in.
pub fn cursor_call(text: &str, position: Position) -> (r: Option<(String, u32)>)
    requires
        cursor_ready(text@, position),
    ensures
        match r {
            Some((n, i)) => active_call(text@, position) == Some((n@, i as int)),
            None => active_call(text@, position) is None,
        },
{
    let window = crate::position::get_text_up_to_cursor(text, position);
    let ws = window.as_str();
    let ghost w = cursor_window(text@, position);
    assert(ws.spec_bytes() == w);
    proof {
        lemma_open_back_fits(w, w.len() as int, 0);
    }
    let (name, open_idx) = match crate::position::find_active_function_call(ws) {
        Some(found) => found,
        None => {
            return None;
        },
    };
    let n = ws.as_bytes().len();
    proof {
        crate::position::lemma_open_back_before(w, w.len() as int, 0);
        lemma_ascii_byte_boundaries(w, open_idx as int);
        is_char_boundary_start_end_of_seq(w);
    }
    let after = substr(ws, open_idx + 1, n);
    proof {
        let a = after@;
        crate::position::lemma_chars_le_bytes(a);
        assert(a.len() <= 8 * 1024);
        assert forall|m: int| 0 <= m <= a.len() implies (#[trigger] param_state(a, m)).1 < i32::MAX by {
            lemma_param_depth_bound(a, m);
        }
    }
    let idx = crate::position::compute_active_param_index(after);
    Some((name, idx))
}

// ---------------------------------------------------------------------------
// Signature help
// ---------------------------------------------------------------------------

/// One parameter of a signature: its label and its markdown documentation.
#[derive(Clone, Debug)]
pub struct ParameterInformation {
    pub label: String,
    pub documentation: String,
}

/// A function signature with its parameters and the parameter under the cursor.
#[derive(Clone, Debug)]
pub struct SignatureInformation {
    pub label: String,
    pub documentation: String,
    pub parameters: Vec<ParameterInformation>,
    pub active_parameter: u32,
}

/// The signatures offered for the call around the cursor.
#[derive(Clone, Debug)]
pub struct SignatureHelp {
    pub signatures: Vec<SignatureInformation>,
    pub active_signature: u32,
    pub active_parameter: u32,
}

/// The arguments of a function, empty when it declares none.
pub open spec fn args_of(f: Function) -> Seq<Arg> {
    match f.args {
        Some(v) => v@,
        None => Seq::empty(),
    }
}

/// A parameter's label is the argument's label; its documentation is the
/// argument's description.
pub open spec fn parameter_for(p: ParameterInformation, a: Arg) -> bool {
    p.label@ == arg_label_text(a) && p.documentation@ == a.description@
}

/// The parameters shown for a function: one per argument, in order.
pub open spec fn parameters_for(ps: Seq<ParameterInformation>, f: Function) -> bool {
    ps.len() == args_of(f).len() && forall|i: int| 0 <= i < ps.len() ==> parameter_for(#[trigger] ps[i], args_of(f)[i])
}

/// Builds the parameter list of a function's signature.
pub fn build_signature_help_parameters(func: &Function) -> (r: Vec<ParameterInformation>)
    ensures
        parameters_for(r@, *func),
{
    let mut out: Vec<ParameterInformation> = Vec::new();
    match &func.args {
        Some(args) => {
            let mut i: usize = 0;
            while i < args.len()
                invariant
                    func.args == Some(*args),
                    i <= args@.len(),
                    out@.len() == i,
                    forall|j: int| 0 <= j < i ==> parameter_for(#[trigger] out@[j], args@[j]),
                decreases args@.len() - i,
            {
                let a = &args[i];
                out.push(ParameterInformation { label: arg_label(a), documentation: a.description.clone() });
                i = i + 1;
            }
        },
        None => {},
    }
    out
}

/// The help a signature request is answered with: the function named by the
/// call around the cursor, its signature and parameters, and the argument the
/// cursor is in.
pub open spec fn signature_help_for(h: SignatureHelp, f: Function, index: int) -> bool {
    &&& h.signatures@.len() == 1
    &&& h.active_signature == 0
    &&& h.active_parameter == index
    &&& h.signatures@[0].label@ == signature_text(f)
    &&& h.signatures@[0].documentation@ == f.description@
    &&& parameters_for(h.signatures@[0].parameters@, f)
    &&& h.signatures@[0].active_parameter == index
}

/// The function a signature request is about: the one the call around the
/// cursor names, with the index of the argument the cursor is in.
pub open spec fn signature_target(cs: Seq<char>, position: Position, m: Map<Seq<char>, Arc<Function>>) -> Option<(Arc<Function>, int)> {
    match active_call(cs, position) {
        Some((name, index)) => match lookup_fn(m, seq!['$'] + name) {
            Some(f) => Some((f, index)),
            None => None,
        },
        None => None,
    }
}

/// Answers a signature-help request.
pub fn get_signature_help(text: &str, position: Position, manager: &MetadataManager) -> (r: Option<SignatureHelp>)
    requires
        cursor_ready(text@, position),
    ensures
        match signature_target(text@, position, manager.functions()) {
            Some((f, index)) => r matches Some(h) && signature_help_for(h, *f, index),
            None => r is None,
        },
{
    let (name, param_idx) = match cursor_call(text, position) {
        Some(found) => found,
        None => {
            return None;
        },
    };
    let key = dollar_name(name.as_str());
    match manager.get(key.as_str()) {
        Some(func) => {
            let sig = SignatureInformation {
                label: func.signature_label(),
                documentation: func.description.clone(),
                parameters: build_signature_help_parameters(&func),
                active_parameter: param_idx,
            };
            let mut signatures: Vec<SignatureInformation> = Vec::new();
            signatures.push(sig);
            Some(SignatureHelp { signatures, active_signature: 0, active_parameter: param_idx })
        },
        None => None,
    }
}

// ---------------------------------------------------------------------------
// Completions
// ---------------------------------------------------------------------------

/// A range of positions in a document.
#[derive(Clone, Copy, Debug, PartialEq, Eq)]
pub struct Range {
    pub start: Position,
    pub end: Position,
}

/// What a completion item stands for.
#[derive(Clone, Copy, Debug, PartialEq, Eq, Structural)]
pub enum CompletionItemKind {
    Function,
    EnumMember,
}

/// One completion offered to the editor. The documentation is markdown; the
/// text edit replaces a range by a text.
#[derive(Clone, Debug)]
pub struct CompletionItem {
    pub label: String,
    pub kind: CompletionItemKind,
    pub detail: Option<String>,
    pub documentation: Option<String>,
    pub insert_text: Option<String>,
    pub text_edit: Option<(Range, String)>,
    pub filter_text: Option<String>,
}

/// The completions offered at a position.
#[derive(Clone, Debug)]
pub struct CompletionList {
    pub is_incomplete: bool,
    pub items: Vec<CompletionItem>,
}

/// A function's name as completed after a `$` and a modifier: the modifier
/// goes after the `$`.
pub open spec fn completion_label(name: Seq<char>, modifier: Seq<char>) -> Seq<char> {
    if modifier.len() > 0 && name.len() > 0 && name[0] == '$' {
        seq!['$'] + modifier + name.skip(1)
    } else {
        name
    }
}

/// The detail shown beside a function: its extension, else its category, else `Function`.
pub open spec fn completion_detail(f: Function) -> Seq<char> {
    match f.extension {
        Some(e) => e@,
        None => match f.category {
            Some(c) => c@,
            None => "Function"@,
        },
    }
}

/// The item offered for a function, with the modifier typed and the range it replaces.
pub open spec fn function_item(item: CompletionItem, f: Function, modifier: Seq<char>, range: Range) -> bool {
    &&& item.label@ == completion_label(f.name@, modifier)
    &&& item.kind == CompletionItemKind::Function
    &&& item.detail matches Some(d) && d@ == completion_detail(f)
    &&& item.documentation matches Some(d) && d@ == crate::docs::completion_doc_text(f)
    &&& item.insert_text is None
    &&& item.text_edit matches Some((rg, t)) && rg == range && t@ == completion_label(f.name@, modifier)
    &&& item.filter_text matches Some(ft) && ft@ == f.name@
}

/// Builds the completion item for a function.
pub fn build_completion_item(f: &Function, modifier: &str, range: Range) -> (r: CompletionItem)
    ensures
        function_item(r, *f, modifier@, range),
{
    let base = f.name.clone();
    let bs = base.as_str();
    let n = bs.unicode_len();
    let name = if modifier.unicode_len() > 0 && n > 0 && bs.get_char(0) == '$' {
        let mut out = String::new();
        push_char(&mut out, '$');
        push_str(&mut out, modifier);
        push_str(&mut out, bs.substring_char(1, n));
        assert(bs@.subrange(1, n as int) =~= bs@.skip(1));
        out
    } else {
        base.clone()
    };
    let detail = match &f.extension {
        Some(e) => e.clone(),
        None => match &f.category {
            Some(c) => c.clone(),
            None => String::from_str("Function"),
        },
    };
    CompletionItem {
        label: name.clone(),
        kind: CompletionItemKind::Function,
        detail: Some(detail),
        documentation: Some(crate::docs::build_completion_markdown(f)),
        insert_text: None,
        text_edit: Some((range, name)),
        filter_text: Some(base),
    }
}

/// The item offered for one value of an enum argument.
pub open spec fn enum_item(item: CompletionItem, value: Seq<char>, arg_name: Seq<char>) -> bool {
    &&& item.label@ == value
    &&& item.kind == CompletionItemKind::EnumMember
    &&& item.detail matches Some(d) && d@ == "Enum for "@ + arg_name
    &&& item.documentation is None
    &&& item.insert_text matches Some(t) && t@ == value
    &&& item.text_edit is None
    &&& item.filter_text is None
}

/// The argument whose values are offered: the one at the cursor's index, or
/// the last one when it is a rest argument and the index is past the end.
pub open spec fn completion_arg(f: Function, index: int) -> Option<Arg> {
    match f.args {
        Some(v) => {
            let args = v@;
            let k = if index >= args.len() && args.len() > 0 && args.last().rest {
                args.len() - 1
            } else {
                index
            };
            if 0 <= k < args.len() {
                Some(args[k])
            } else {
                None
            }
        },
        None => None,
    }
}

/// The values an argument accepts: those of the enum it names, or its own list.
pub open spec fn arg_choices(a: Arg, enums: Map<Seq<char>, Seq<Seq<char>>>) -> Option<Seq<Seq<char>>> {
    match a.enum_name {
        Some(en) => if enums.contains_key(en@) {
            Some(enums[en@])
        } else {
            None
        },
        None => match a.arg_enum {
            Some(v) => Some(names_view(v@)),
            None => None,
        },
    }
}

/// The argument name and values offered when the cursor is in an argument
/// that accepts a fixed set of values.
pub open spec fn enum_completion(
    cs: Seq<char>,
    position: Position,
    m: Map<Seq<char>, Arc<Function>>,
    enums: Map<Seq<char>, Seq<Seq<char>>>,
) -> Option<(Seq<char>, Seq<Seq<char>>)> {
    match signature_target(cs, position, m) {
        Some((f, index)) => match completion_arg(*f, index) {
            Some(a) => match arg_choices(a, enums) {
                Some(vals) => Some((a.name@, vals)),
                None => None,
            },
            None => None,
        },
        None => None,
    }
}

/// Line `li` of the text as `str::lines` yields it: without its newline and
/// a carriage return right before that newline; empty past the last line.
pub open spec fn line_text(cs: Seq<char>, li: int) -> Seq<char> {
    match line_start_from(cs, li, 0) {
        Some(s) => if 0 <= s < cs.len() {
            let e = next_newline(cs, s);
            if e < cs.len() && e > s && cs[e - 1] == '\r' {
                cs.subrange(s, e - 1)
            } else {
                cs.subrange(s, e)
            }
        } else {
            Seq::empty()
        },
        None => Seq::empty(),
    }
}

/// Number of UTF-16 code units of a text.
pub open spec fn utf16_len(cs: Seq<char>) -> int
    decreases cs.len(),
{
    if cs.len() == 0 {
        0
    } else {
        utf16_len(cs.drop_last()) + utf16_width(cs.last())
    }
}

/// Byte offset of the cursor within its line: where the column reaches the
/// cursor's character, or the end of the line.
pub open spec fn line_cursor(line: Seq<char>, character: u32) -> int {
    match spec_position_to_offset(line, 0, character) {
        Some(o) => o,
        None => encode_utf8(line).len() as int,
    }
}

/// The last `$` before byte `i`.
pub open spec fn last_dollar(b: Seq<u8>, i: int) -> Option<int>
    decreases i,
{
    if i <= 0 || i > b.len() {
        None
    } else if b[i - 1] == 0x24u8 {
        Some(i - 1)
    } else {
        last_dollar(b, i - 1)
    }
}

proof fn lemma_last_dollar_bound(b: Seq<u8>, i: int)
    ensures
        last_dollar(b, i) matches Some(d) ==> 0 <= d < i && b[d] == 0x24u8,
    decreases i,
{
    if 0 < i <= b.len() && b[i - 1] != 0x24u8 {
        lemma_last_dollar_bound(b, i - 1);
    }
}

/// The modifier typed right after the `$` at `d`, before the cursor at `off`.
pub open spec fn modifier_after(b: Seq<u8>, d: int, off: int) -> Seq<char> {
    if d + 1 < off && b[d + 1] == 0x21u8 {
        "!"@
    } else if d + 1 < off && b[d + 1] == 0x2eu8 {
        "."@
    } else {
        ""@
    }
}

/// When a `$` precedes the cursor on its line: the modifier typed after the
/// last such `$`, and the range from that `$` to the cursor.
pub open spec fn dollar_completion(cs: Seq<char>, position: Position) -> Option<(Seq<char>, Range)> {
    let line = line_text(cs, position.line as int);
    let b = encode_utf8(line);
    let off = line_cursor(line, position.character);
    match last_dollar(b, off) {
        Some(d) => Some(
            (
                modifier_after(b, d, off),
                Range {
                    start: Position {
                        line: position.line,
                        character: utf16_len(line.take(chars_before(line, d))) as u32,
                    },
                    end: position,
                },
            ),
        ),
        None => None,
    }
}

/// The items offered for the indexed functions: one per function in the
/// order the index lists them (`MetadataManager::listing`, which lists each
/// indexed name once), each the item of that function.
pub open spec fn function_items(
    items: Seq<CompletionItem>,
    listing: Seq<Arc<Function>>,
    modifier: Seq<char>,
    range: Range,
) -> bool {
    &&& items.len() == listing.len()
    &&& forall|k: int| 0 <= k < items.len() ==> function_item(#[trigger] items[k], *listing[k], modifier, range)
}

/// The items offered for the values of an argument, in order.
pub open spec fn enum_items(items: Seq<CompletionItem>, vals: Seq<Seq<char>>, arg_name: Seq<char>) -> bool {
    items.len() == vals.len() && forall|i: int| 0 <= i < items.len() ==> enum_item(#[trigger] items[i], vals[i], arg_name)
}

/// What a completion request is answered with: the values of the argument
/// around the cursor when it accepts a fixed set, else every indexed function
/// when a `$` precedes the cursor on its line, else nothing.
pub open spec fn completion_result(
    r: Option<CompletionList>,
    cs: Seq<char>,
    position: Position,
    m: Map<Seq<char>, Arc<Function>>,
    enums: Map<Seq<char>, Seq<Seq<char>>>,
    listing: Seq<Arc<Function>>,
) -> bool {
    match enum_completion(cs, position, m, enums) {
        Some((arg_name, vals)) => r matches Some(l) && !l.is_incomplete && enum_items(l.items@, vals, arg_name),
        None => match dollar_completion(cs, position) {
            Some((modifier, range)) => r matches Some(l) && !l.is_incomplete && function_items(
                l.items@,
                listing,
                modifier,
                range,
            ),
            None => r is None,
        },
    }
}

/// The items for the values of an argument.
fn enum_list(vals: &Vec<String>, arg_name: &str) -> (r: CompletionList)
    ensures
        !r.is_incomplete,
        enum_items(r.items@, names_view(vals@), arg_name@),
{
    let mut items: Vec<CompletionItem> = Vec::new();
    let mut i: usize = 0;
    while i < vals.len()
        invariant
            i <= vals@.len(),
            items@.len() == i,
            forall|j: int| 0 <= j < i ==> enum_item(#[trigger] items@[j], vals@[j]@, arg_name@),
        decreases vals@.len() - i,
    {
        let v = &vals[i];
        let mut detail = String::from_str("Enum for ");
        push_str(&mut detail, arg_name);
        items.push(
            CompletionItem {
                label: v.clone(),
                kind: CompletionItemKind::EnumMember,
                detail: Some(detail),
                documentation: None,
                insert_text: Some(v.clone()),
                text_edit: None,
                filter_text: None,
            },
        );
        i = i + 1;
    }
    CompletionList { is_incomplete: false, items }
}

/// The bytes of the characters `s..e` of a text are the encoding of those characters.
proof fn lemma_char_slice(cs: Seq<char>, s: int, e: int)
    requires
        0 <= s <= e <= cs.len(),
    ensures
        encode_utf8(cs).subrange(byte_offset(cs, s), byte_offset(cs, e)) == encode_utf8(cs.subrange(s, e)),
{
    let t = cs.take(e);
    assert(t =~= cs.take(s) + cs.subrange(s, e));
    crate::text::lemma_encode_utf8_append(cs.take(s), cs.subrange(s, e));
    crate::chars::lemma_byte_offset_bound(cs, e);
    assert(encode_utf8(cs).subrange(byte_offset(cs, s), byte_offset(cs, e)) =~= encode_utf8(t).subrange(
        byte_offset(cs, s),
        byte_offset(cs, e),
    ));
    assert(encode_utf8(t).subrange(byte_offset(cs, s), byte_offset(cs, e)) =~= encode_utf8(cs.subrange(s, e)));
}

/// No newline lies between `k` and the next newline.
proof fn lemma_no_newline_before(cs: Seq<char>, k: int)
    requires
        0 <= k <= cs.len(),
    ensures
        forall|j: int| k <= j < next_newline(cs, k) ==> cs[j] != '\n',
    decreases cs.len() - k,
{
    if k < cs.len() && cs[k] != '\n' {
        lemma_no_newline_before(cs, k + 1);
    }
}

/// Byte bounds of line `li` of the text.
fn line_bounds(text: &str, li: u32) -> (r: (usize, usize))
    ensures
        r.0 <= r.1 <= text.spec_bytes().len(),
        is_char_boundary(text.spec_bytes(), r.0 as int),
        is_char_boundary(text.spec_bytes(), r.1 as int),
        decode_utf8(text.spec_bytes().subrange(r.0 as int, r.1 as int)) == line_text(text@, li as int),
        forall|j: int| 0 <= j < line_text(text@, li as int).len() ==> (#[trigger] line_text(text@, li as int)[j]) != '\n',
{
    let ghost cs = text@;
    let ghost b = text.spec_bytes();
    let idx = crate::chars::char_indices(text);
    let n = text.as_bytes().len();
    proof {
        is_char_boundary_start_end_of_seq(b);
        assert(b.subrange(n as int, n as int) =~= Seq::<u8>::empty());
        assert(decode_utf8(Seq::<u8>::empty()) =~= Seq::<char>::empty());
    }
    let mut k: usize = 0;
    let mut line: u32 = 0;
    while line < li
        invariant
            cs == text@,
            b == text.spec_bytes(),
            n == b.len(),
            idx@.len() == cs.len(),
            forall|j: int| 0 <= j < idx@.len() ==> (#[trigger] idx@[j]).1 == cs[j] && idx@[j].0 == byte_offset(cs, j),
            k <= cs.len(),
            line <= li,
            line_start_from(cs, li as int, 0) == line_start_from(cs, (li - line) as int, k as int),
        decreases li - line,
    {
        let mut e = k;
        while e < idx.len() && idx[e].1 != '\n'
            invariant
                idx@.len() == cs.len(),
                forall|j: int| 0 <= j < idx@.len() ==> (#[trigger] idx@[j]).1 == cs[j],
                k <= e <= cs.len(),
                next_newline(cs, k as int) == next_newline(cs, e as int),
            decreases cs.len() - e,
        {
            e = e + 1;
        }
        if e >= idx.len() {
            assert(next_newline(cs, k as int) == e as int);
            assert(line_start_from(cs, (li - line) as int, k as int) is None);
            return (n, n);
        }
        k = e + 1;
        line = line + 1;
    }
    if k >= idx.len() {
        return (n, n);
    }
    let s = k;
    let mut e = k;
    while e < idx.len() && idx[e].1 != '\n'
        invariant
            idx@.len() == cs.len(),
            forall|j: int| 0 <= j < idx@.len() ==> (#[trigger] idx@[j]).1 == cs[j],
            s <= e <= cs.len(),
            next_newline(cs, s as int) == next_newline(cs, e as int),
        decreases cs.len() - e,
    {
        e = e + 1;
    }
    let stop = if e < idx.len() && e > s && idx[e - 1].1 == '\r' {
        e - 1
    } else {
        e
    };
    proof {
        lemma_no_newline_before(cs, s as int);
        crate::strings::lemma_offset_boundary(cs, s as int);
        crate::strings::lemma_offset_boundary(cs, stop as int);
        crate::strings::lemma_offset_monotone(cs, s as int, stop as int);
        lemma_char_slice(cs, s as int, stop as int);
        assert(cs.take(cs.len() as int) =~= cs);
    }
    let sb = idx[s].0;
    let eb = if stop < idx.len() { idx[stop].0 } else { n };
    (sb, eb)
}

/// UTF-16 lengths of prefixes grow with the prefix.
proof fn lemma_utf16_prefix_mono(cs: Seq<char>, k: int, j: int)
    requires
        0 <= k <= j <= cs.len(),
    ensures
        utf16_len(cs.take(k)) <= utf16_len(cs.take(j)),
    decreases j - k,
{
    if k < j {
        assert(cs.take(j).drop_last() =~= cs.take(j - 1));
        lemma_utf16_prefix_mono(cs, k, j - 1);
    }
}

/// On a text without newlines whose UTF-16 length fits in a `u32`, reading
/// line 0 never overflows the column.
proof fn lemma_line_pto_fits(cs: Seq<char>, character: u32, k: int)
    requires
        forall|j: int| 0 <= j < cs.len() ==> cs[j] != '\n',
        utf16_len(cs) <= u32::MAX,
        0 <= k <= cs.len(),
    ensures
        crate::position::pto_fits(cs, 0, character, k, 0, utf16_len(cs.take(k))),
    decreases cs.len() - k,
{
    if k < cs.len() {
        assert(cs.take(k + 1).drop_last() =~= cs.take(k));
        assert(cs.take(cs.len() as int) =~= cs);
        lemma_utf16_prefix_mono(cs, k + 1, cs.len() as int);
        lemma_line_pto_fits(cs, character, k + 1);
    }
}

/// Offers completions at a position.
pub fn get_completions(text: &str, position: Position, manager: &MetadataManager) -> (r: Option<CompletionList>)
    requires
        cursor_ready(text@, position),
        utf16_len(line_text(text@, position.line as int)) <= u32::MAX,
    ensures
        completion_result(r, text@, position, manager.functions(), manager.enum_table(), manager.listing()),
{
    match cursor_call(text, position) {
        Some((name, param_idx)) => {
            let key = dollar_name(name.as_str());
            match manager.get(key.as_str()) {
                Some(func) => match &func.args {
                    Some(args) => {
                        let n = args.len();
                        let p = param_idx as usize;
                        let arg_idx = if p >= n && n > 0 && args[n - 1].rest {
                            n - 1
                        } else {
                            p
                        };
                        if arg_idx < n {
                            let arg = &args[arg_idx];
                            let vals = match &arg.enum_name {
                                Some(en) => manager.enum_values(en.as_str()),
                                None => match &arg.arg_enum {
                                    Some(v) => Some(crate::metadata::clone_strings(v)),
                                    None => None,
                                },
                            };
                            match vals {
                                Some(vals) => {
                                    return Some(enum_list(&vals, arg.name.as_str()));
                                },
                                None => {},
                            }
                        }
                    },
                    None => {},
                },
                None => {},
            }
        },
        None => {},
    }
    dollar_completions(text, position, manager)
}

/// Offers every indexed function when a `$` precedes the cursor on its line.
fn dollar_completions(text: &str, position: Position, manager: &MetadataManager) -> (r: Option<CompletionList>)
    requires
        utf16_len(line_text(text@, position.line as int)) <= u32::MAX,
    ensures
        match dollar_completion(text@, position) {
            Some((modifier, range)) => r matches Some(l) && !l.is_incomplete && function_items(
                l.items@,
                manager.listing(),
                modifier,
                range,
            ),
            None => r is None,
        },
{
    let ghost lcs = line_text(text@, position.line as int);
    let (ls, le) = line_bounds(text, position.line);
    let line = substr(text, ls, le);
    assert(line@ == lcs);
    let lb = line.as_bytes();
    let ghost b = lb@;
    proof {
        assert(lcs.take(0) =~= Seq::<char>::empty());
        lemma_line_pto_fits(lcs, position.character, 0);
    }
    let off = match crate::position::position_to_offset(line, Position::new(0, position.character)) {
        Some(o) => o,
        None => lb.len(),
    };
    let mut i = off;
    let mut found: Option<usize> = None;
    while i > 0
        invariant_except_break
            found is None,
            last_dollar(b, off as int) == last_dollar(b, i as int),
        invariant
            b == lb@,
            i <= off <= b.len(),
        ensures
            found matches Some(d) ==> last_dollar(b, off as int) == Some(d as int),
            found is None ==> last_dollar(b, off as int) is None,
        decreases i,
    {
        if lb[i - 1] == 0x24u8 {
            found = Some(i - 1);
            break;
        }
        i = i - 1;
    }
    let d = match found {
        Some(d) => d,
        None => {
            return None;
        },
    };
    proof {
        lemma_last_dollar_bound(b, off as int);
    }
    let modifier: &str = if d + 1 < off && lb[d + 1] == 0x21u8 {
        "!"
    } else if d + 1 < off && lb[d + 1] == 0x2eu8 {
        "."
    } else {
        ""
    };
    proof {
        reveal_strlit("!");
        reveal_strlit(".");
        reveal_strlit("");
    }
    let lidx = crate::chars::char_indices(line);
    let mut k: usize = 0;
    let mut col: u32 = 0;
    proof {
        crate::position::lemma_chars_before_bounds(lcs, d as int, 0);
    }
    while k < lidx.len() && lidx[k].0 < d
        invariant
            lcs == line@,
            lidx@.len() == lcs.len(),
            forall|j: int| 0 <= j < lidx@.len() ==> (#[trigger] lidx@[j]).1 == lcs[j] && lidx@[j].0 == byte_offset(lcs, j),
            k <= lcs.len(),
            utf16_len(lcs) <= u32::MAX,
            chars_before(lcs, d as int) == crate::position::chars_before_from(lcs, d as int, k as int),
            col == utf16_len(lcs.take(k as int)),
        decreases lcs.len() - k,
    {
        proof {
            assert(lcs.take(k + 1).drop_last() =~= lcs.take(k as int));
            assert(lcs.take(lcs.len() as int) =~= lcs);
            lemma_utf16_prefix_mono(lcs, k + 1, lcs.len() as int);
        }
        col = col + crate::chars::len_utf16(lidx[k].1);
        k = k + 1;
    }
    assert(k == chars_before(lcs, d as int));
    let range = Range { start: Position::new(position.line, col), end: position };
    assert(dollar_completion(text@, position) == Some((modifier@, range)));
    let fs = manager.all_functions();
    let mut items: Vec<CompletionItem> = Vec::new();
    let mut j: usize = 0;
    while j < fs.len()
        invariant
            j <= fs@.len(),
            items@.len() == j,
            forall|q: int| 0 <= q < j ==> function_item(#[trigger] items@[q], *fs@[q], modifier@, range),
        decreases fs@.len() - j,
    {
        items.push(build_completion_item(&fs[j], modifier, range));
        j = j + 1;
    }
    proof {
        assert(function_items(items@, manager.listing(), modifier@, range));
    }
    Some(CompletionList { is_incomplete: false, items })
}

/// Whether moving the cursor should ask the editor for completions: the
/// argument around the cursor declares an enum, by name or by its values.
pub open spec fn triggers_completion(cs: Seq<char>, position: Position, m: Map<Seq<char>, Arc<Function>>) -> bool {
    match signature_target(cs, position, m) {
        Some((f, index)) => match completion_arg(*f, index) {
            Some(a) => a.enum_name is Some || a.arg_enum is Some,
            None => false,
        },
        None => false,
    }
}

/// Decides whether a cursor move should trigger completion.
pub fn should_trigger_completion(text: &str, position: Position, manager: &MetadataManager) -> (r: bool)
    requires
        cursor_ready(text@, position),
    ensures
        r == triggers_completion(text@, position, manager.functions()),
{
    let (name, param_idx) = match cursor_call(text, position) {
        Some(found) => found,
        None => {
            return false;
        },
    };
    let key = dollar_name(name.as_str());
    let func = match manager.get(key.as_str()) {
        Some(f) => f,
        None => {
            return false;
        },
    };
    let args = match &func.args {
        Some(a) => a,
        None => {
            return false;
        },
    };
    let n = args.len();
    let p = param_idx as usize;
    let arg_idx = if p >= n && n > 0 && args[n - 1].rest {
        n - 1
    } else {
        p
    };
    if arg_idx < n {
        args[arg_idx].enum_name.is_some() || args[arg_idx].arg_enum.is_some()
    } else {
        false
    }
}

// ---------------------------------------------------------------------------
// Folding ranges, diagnostics and depth
// ---------------------------------------------------------------------------

/// The position of a byte offset: the line and UTF-16 column reached after
/// reading the characters that start before it.
pub open spec fn position_of(cs: Seq<char>, offset: int) -> Position {
    Position { line: pos_line(cs, offset) as u32, character: pos_col(cs, offset) as u32 }
}

/// Every line and column of the text fits in a `u32`.
pub open spec fn positions_fit(cs: Seq<char>) -> bool {
    line_col_fits(cs, cs.len() as int)
}

/// Converts a byte offset of a text whose positions all fit.
fn position_at(text: &str, offset: usize) -> (r: Position)
    requires
        positions_fit(text@),
    ensures
        r == position_of(text@, offset as int),
{
    proof {
        crate::position::lemma_chars_before_bounds(text@, offset as int, 0);
    }
    crate::position::offset_to_position(text, offset)
}

/// A region of the document that the editor can fold: the lines a call spans.
#[derive(Clone, Debug)]
pub struct FoldingRange {
    pub start_line: u32,
    pub start_character: u32,
    pub end_line: u32,
    pub end_character: u32,
    pub collapsed_text: String,
}

/// The fold offered for a call: from its start to its end, shown folded as its name.
pub open spec fn fold_for(r: FoldingRange, cs: Seq<char>, f: ParsedFunction) -> bool {
    let s = position_of(cs, f.span.0 as int);
    let e = position_of(cs, f.span.1 as int);
    &&& r.start_line == s.line
    &&& r.start_character == s.character
    &&& r.end_line == e.line
    &&& r.end_character == e.character
    &&& r.collapsed_text@ == f.name@
}

/// A call spans more than one line.
pub open spec fn spans_lines(cs: Seq<char>, f: ParsedFunction) -> bool {
    position_of(cs, f.span.0 as int).line < position_of(cs, f.span.1 as int).line
}

/// The calls folded: those that span lines, in order.
pub open spec fn folded_calls(cs: Seq<char>, fs: Seq<ParsedFunction>) -> Seq<ParsedFunction>
    decreases fs.len(),
{
    if fs.len() == 0 {
        Seq::empty()
    } else if spans_lines(cs, fs.last()) {
        folded_calls(cs, fs.drop_last()).push(fs.last())
    } else {
        folded_calls(cs, fs.drop_last())
    }
}

/// Folding ranges for the parsed calls of a document.
pub fn folding_ranges(text: &str, functions: &Vec<ParsedFunction>) -> (r: Vec<FoldingRange>)
    requires
        positions_fit(text@),
    ensures
        r@.len() == folded_calls(text@, functions@).len(),
        forall|i: int| 0 <= i < r@.len() ==> fold_for(#[trigger] r@[i], text@, folded_calls(text@, functions@)[i]),
{
    let mut out: Vec<FoldingRange> = Vec::new();
    let mut i: usize = 0;
    while i < functions.len()
        invariant
            positions_fit(text@),
            i <= functions@.len(),
            out@.len() == folded_calls(text@, functions@.take(i as int)).len(),
            forall|j: int| 0 <= j < out@.len() ==> fold_for(#[trigger] out@[j], text@, folded_calls(text@, functions@.take(i as int))[j]),
        decreases functions@.len() - i,
    {
        let f = &functions[i];
        let start = position_at(text, f.span.0);
        let end = position_at(text, f.span.1);
        assert(functions@.take(i + 1).drop_last() =~= functions@.take(i as int));
        if start.line < end.line {
            out.push(
                FoldingRange {
                    start_line: start.line,
                    start_character: start.character,
                    end_line: end.line,
                    end_character: end.character,
                    collapsed_text: f.name.clone(),
                },
            );
        }
        i = i + 1;
    }
    assert(functions@.take(functions@.len() as int) =~= functions@);
    out
}

/// A parser diagnostic placed in the document.
#[derive(Clone, Debug)]
pub struct EditorDiagnostic {
    pub range: Range,
    pub message: String,
}

/// The editor diagnostic for a parser diagnostic: the same message over the
/// positions of its start and end.
pub open spec fn editor_diagnostic_for(e: EditorDiagnostic, cs: Seq<char>, d: Diagnostic) -> bool {
    &&& e.range.start == position_of(cs, d.start as int)
    &&& e.range.end == position_of(cs, d.end as int)
    &&& e.message@ == d.message@
}

/// Places the parser's diagnostics in the document.
pub fn to_editor_diagnostics(text: &str, diagnostics: &Vec<Diagnostic>) -> (r: Vec<EditorDiagnostic>)
    requires
        positions_fit(text@),
    ensures
        r@.len() == diagnostics@.len(),
        forall|i: int| 0 <= i < r@.len() ==> editor_diagnostic_for(#[trigger] r@[i], text@, diagnostics@[i]),
{
    let mut out: Vec<EditorDiagnostic> = Vec::new();
    let mut i: usize = 0;
    while i < diagnostics.len()
        invariant
            positions_fit(text@),
            i <= diagnostics@.len(),
            out@.len() == i,
            forall|j: int| 0 <= j < i ==> editor_diagnostic_for(#[trigger] out@[j], text@, diagnostics@[j]),
        decreases diagnostics@.len() - i,
    {
        let d = &diagnostics[i];
        let range = Range { start: position_at(text, d.start), end: position_at(text, d.end) };
        out.push(EditorDiagnostic { range, message: d.message.clone() });
        i = i + 1;
    }
    out
}

/// The nesting depth of calls at the cursor (at the start of the text when
/// the position is not in it).
pub open spec fn depth_at_position(cs: Seq<char>, position: Position) -> int {
    let offset = match spec_position_to_offset(cs, position.line, position.character) {
        Some(o) => o,
        None => 0,
    };
    crate::text::depth_scan(encode_utf8(cs), offset, 0, 0)
}

/// Computes the nesting depth of calls at the cursor.
pub fn depth_at(text: &str, position: Position) -> (r: usize)
    requires
        position_fits(text@, position.line, position.character),
    ensures
        r == depth_at_position(text@, position),
{
    let offset = match crate::position::position_to_offset(text, position) {
        Some(o) => o,
        None => 0,
    };
    crate::text::calculate_depth(text, offset)
}

/// A highlighted range of the document and its colour.
#[derive(Clone, Debug)]
pub struct HighlightRange {
    pub range: Range,
    pub color: String,
}

/// The highlights of a document placed in it: one per highlighted range, in order.
pub open spec fn placed_highlights(v: Seq<HighlightRange>, cs: Seq<char>, hs: Seq<(int, int, Seq<char>)>) -> bool {
    v.len() == hs.len() && forall|i: int|
        0 <= i < v.len() ==> {
            &&& (#[trigger] v[i]).range.start == position_of(cs, hs[i].0)
            &&& v[i].range.end == position_of(cs, hs[i].1)
            &&& v[i].color@ == hs[i].2
        }
}

/// The highlights sent for a document: none at all when no colours are
/// configured; otherwise the highlighted ranges of its calls, placed in it.
pub fn highlight_ranges(
    text: &str,
    function_colors: &Vec<String>,
    consistent_colors: bool,
    manager: &MetadataManager,
) -> (r: Option<Vec<HighlightRange>>)
    requires
        text.spec_bytes().len() <= usize::MAX,
        positions_fit(text@),
    ensures
        r is None <==> function_colors@.len() == 0,
        r matches Some(v) ==> placed_highlights(
            v@,
            text@,
            crate::semantic::document_highlights(
                manager.functions(),
                text.spec_bytes(),
                crate::semantic::code_block_regions(text@),
                function_colors@.map_values(|c: String| c@),
                consistent_colors,
                crate::semantic::code_block_regions(text@).len() as int,
            ).0,
        ),
{
    if function_colors.len() == 0 {
        return None;
    }
    let hs = crate::semantic::extract_highlight_ranges(text, function_colors.as_slice(), consistent_colors, manager);
    let ghost hv = crate::semantic::highlight_view(hs@);
    let mut out: Vec<HighlightRange> = Vec::new();
    let mut i: usize = 0;
    while i < hs.len()
        invariant
            positions_fit(text@),
            hv == crate::semantic::highlight_view(hs@),
            i <= hs@.len(),
            out@.len() == i,
            forall|k: int|
                0 <= k < i ==> {
                    &&& (#[trigger] out@[k]).range.start == position_of(text@, hv[k].0)
                    &&& out@[k].range.end == position_of(text@, hv[k].1)
                    &&& out@[k].color@ == hv[k].2
                },
        decreases hs@.len() - i,
    {
        let (s, e, c) = (hs[i].0, hs[i].1, hs[i].2.clone());
        let range = Range { start: position_at(text, s), end: position_at(text, e) };
        out.push(HighlightRange { range, color: c });
        i = i + 1;
    }
    Some(out)
}

} // verus!
