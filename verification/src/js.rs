//! Custom function declarations read from JavaScript and TypeScript
//! sources: each `name: '...'` outside a parameter list opens a declaration
//! that runs to the next one, and its description, brackets, output and
//! parameter list are read from that stretch.

use vstd::prelude::*;
use vstd::string::{StrSliceExecFns, StringExecFns, StringSliceAdditionalSpecFns};
use vstd::utf8::*;
use crate::config::{find_byte, lemma_find_byte};
use crate::custom::{CustomFunction, CustomFunctionParam, CustomParams, ParamValue};
use crate::strings::push_char;
use crate::text::{raw_scan, substr};

verus! {

broadcast use vstd::utf8::group_utf8_lib;

// ---------------------------------------------------------------------------
// The patterns, and what the regex crate finds with them
// ---------------------------------------------------------------------------

/// The matches of `name:\s*['"]([^'"]+)['"]` in a text, as `Regex::captures_iter`
/// yields them: start and end byte of each match, and the text of its group.
pub uninterp spec fn name_matches(s: Seq<char>) -> Seq<(int, int, Seq<char>)>;

/// The start bytes of the matches of `(?:params|args):\s*\[`, as `Regex::find_iter` yields them.
pub uninterp spec fn params_starts(s: Seq<char>) -> Seq<int>;

/// The text of the first of the three groups of
/// `(?s)description:\s*(?:'((?:[^'\\]|\\.)*?)'|"((?:[^"\\]|\\.)*?)"|`((?:[^`\\]|\\.)*?)`)`
/// that takes part in the first match, as `Regex::captures` finds it.
pub uninterp spec fn description_capture(s: Seq<char>) -> Option<Seq<char>>;

/// The group of the first match of `brackets:\s*(true|false)`.
pub uninterp spec fn brackets_capture(s: Seq<char>) -> Option<Seq<char>>;

/// The group of the first match of `output:\s*([^,}\n\s]+)`.
pub uninterp spec fn output_capture(s: Seq<char>) -> Option<Seq<char>>;

/// The group of the first match of `name:\s*['"]([^'"]+)['"]`.
pub uninterp spec fn name_capture(s: Seq<char>) -> Option<Seq<char>>;

/// The group of the first match of `(?i)required:\s*(true|false)`.
pub uninterp spec fn required_capture(s: Seq<char>) -> Option<Seq<char>>;

/// The group of the first match of `(?i)rest:\s*(true|false)`.
pub uninterp spec fn rest_capture(s: Seq<char>) -> Option<Seq<char>>;

/// The group of the first match of `type:\s*([^,}\n\s]+)`.
pub uninterp spec fn type_capture(s: Seq<char>) -> Option<Seq<char>>;

/// Calls `Regex::captures_iter` with `name:\s*['"]([^'"]+)['"]`. Besides
/// naming the result, the contract states what the crate documents of the
/// matches it yields: each starts no later than it ends, both on character
/// boundaries of the haystack, and successive matches do not overlap.
#[verifier::external_body]
fn find_name_matches(s: &str) -> (r: Vec<(usize, usize, String)>)
    ensures
        r@.len() == name_matches(s@).len(),
        forall|i: int|
            0 <= i < r@.len() ==> (#[trigger] r@[i]).0 == name_matches(s@)[i].0 && r@[i].1 == name_matches(
                s@,
            )[i].1 && r@[i].2@ == name_matches(s@)[i].2,
        forall|i: int|
            0 <= i < r@.len() ==> (#[trigger] r@[i]).0 <= r@[i].1 <= s.spec_bytes().len()
                && is_char_boundary(s.spec_bytes(), r@[i].0 as int) && is_char_boundary(
                s.spec_bytes(),
                r@[i].1 as int,
            ),
        forall|i: int, j: int| 0 <= i < j < r@.len() ==> #[trigger] r@[i].1 <= #[trigger] r@[j].0,
{
    let re = regex::Regex::new(r#"name:\s*['"]([^'"]+)['"]"#).expect("valid pattern");
    re.captures_iter(s).map(|c| {
        let m = c.get(0).expect("group 0 is the match");
        (m.start(), m.end(), c[1].to_string())
    }).collect()
}

/// Calls `Regex::find_iter` with `(?:params|args):\s*\[` and keeps the start
/// of each match. Besides naming the result, the contract states what the
/// crate documents: starts lie on character boundaries within the haystack.
#[verifier::external_body]
fn find_params_starts(s: &str) -> (r: Vec<usize>)
    ensures
        r@.len() == params_starts(s@).len(),
        forall|i: int| 0 <= i < r@.len() ==> (#[trigger] r@[i]) == params_starts(s@)[i],
        forall|i: int|
            0 <= i < r@.len() ==> (#[trigger] r@[i]) <= s.spec_bytes().len() && is_char_boundary(
                s.spec_bytes(),
                r@[i] as int,
            ),
{
    let re = regex::Regex::new(r"(?:params|args):\s*\[").expect("valid pattern");
    re.find_iter(s).map(|m| m.start()).collect()
}

/// Calls `Regex::captures` with the description pattern and returns the
/// first group of 1, 2 and 3 that takes part.
#[verifier::external_body]
fn capture_description(s: &str) -> (r: Option<String>)
    ensures
        match r {
            Some(t) => description_capture(s@) == Some(t@),
            None => description_capture(s@) is None,
        },
{
    let re = regex::Regex::new(
        r#"(?s)description:\s*(?:'((?:[^'\\]|\\.)*?)'|"((?:[^"\\]|\\.)*?)"|`((?:[^`\\]|\\.)*?)`)"#,
    ).expect("valid pattern");
    re.captures(s).and_then(|c| c.get(1).or(c.get(2)).or(c.get(3)).map(|m| m.as_str().to_string()))
}

/// Calls `Regex::captures` with `brackets:\s*(true|false)` and returns group 1.
#[verifier::external_body]
fn capture_brackets(s: &str) -> (r: Option<String>)
    ensures
        match r {
            Some(t) => brackets_capture(s@) == Some(t@),
            None => brackets_capture(s@) is None,
        },
{
    let re = regex::Regex::new(r"brackets:\s*(true|false)").expect("valid pattern");
    re.captures(s).map(|c| c[1].to_string())
}

/// Calls `Regex::captures` with `output:\s*([^,}\n\s]+)` and returns group 1.
#[verifier::external_body]
fn capture_output(s: &str) -> (r: Option<String>)
    ensures
        match r {
            Some(t) => output_capture(s@) == Some(t@),
            None => output_capture(s@) is None,
        },
{
    let re = regex::Regex::new(r"output:\s*([^,}\n\s]+)").expect("valid pattern");
    re.captures(s).map(|c| c[1].to_string())
}

/// Calls `Regex::captures` with `name:\s*['"]([^'"]+)['"]` and returns group 1.
#[verifier::external_body]
fn capture_name(s: &str) -> (r: Option<String>)
    ensures
        match r {
            Some(t) => name_capture(s@) == Some(t@),
            None => name_capture(s@) is None,
        },
{
    let re = regex::Regex::new(r#"name:\s*['"]([^'"]+)['"]"#).expect("valid pattern");
    re.captures(s).map(|c| c[1].to_string())
}

/// Calls `Regex::captures` with `(?i)required:\s*(true|false)` and returns group 1.
#[verifier::external_body]
fn capture_required(s: &str) -> (r: Option<String>)
    ensures
        match r {
            Some(t) => required_capture(s@) == Some(t@),
            None => required_capture(s@) is None,
        },
{
    let re = regex::Regex::new(r"(?i)required:\s*(true|false)").expect("valid pattern");
    re.captures(s).map(|c| c[1].to_string())
}

/// Calls `Regex::captures` with `(?i)rest:\s*(true|false)` and returns group 1.
#[verifier::external_body]
fn capture_rest(s: &str) -> (r: Option<String>)
    ensures
        match r {
            Some(t) => rest_capture(s@) == Some(t@),
            None => rest_capture(s@) is None,
        },
{
    let re = regex::Regex::new(r"(?i)rest:\s*(true|false)").expect("valid pattern");
    re.captures(s).map(|c| c[1].to_string())
}

/// Calls `Regex::captures` with `type:\s*([^,}\n\s]+)` and returns group 1.
#[verifier::external_body]
fn capture_type(s: &str) -> (r: Option<String>)
    ensures
        match r {
            Some(t) => type_capture(s@) == Some(t@),
            None => type_capture(s@) is None,
        },
{
    let re = regex::Regex::new(r"type:\s*([^,}\n\s]+)").expect("valid pattern");
    re.captures(s).map(|c| c[1].to_string())
}

// ---------------------------------------------------------------------------
// What the declarations are read as
// ---------------------------------------------------------------------------

/// The parameter lists of a source: for each start, in order, the bytes up to
/// the `]` that closes its `[`, when there is one.
pub open spec fn param_ranges(b: Seq<u8>, starts: Seq<int>) -> Seq<(int, int)>
    decreases starts.len(),
{
    if starts.len() == 0 {
        Seq::empty()
    } else {
        let rest = param_ranges(b, starts.drop_last());
        match raw_scan(b, starts.last(), 0) {
            Some(e) => rest.push((starts.last(), e)),
            None => rest,
        }
    }
}

/// Byte `p` lies in one of the ranges.
pub open spec fn in_some_range(rs: Seq<(int, int)>, p: int) -> bool {
    exists|k: int| 0 <= k < rs.len() && #[trigger] rs[k].0 <= p < rs[k].1
}

/// The name matches that do not start inside a parameter list, in order.
pub open spec fn declarations(ms: Seq<(int, int, Seq<char>)>, rs: Seq<(int, int)>) -> Seq<(int, int, Seq<char>)>
    decreases ms.len(),
{
    if ms.len() == 0 {
        Seq::empty()
    } else if in_some_range(rs, ms.last().0) {
        declarations(ms.drop_last(), rs)
    } else {
        declarations(ms.drop_last(), rs).push(ms.last())
    }
}

/// The first range, from the `k`-th on, that starts within `lo..hi`.
pub open spec fn first_range_in(rs: Seq<(int, int)>, lo: int, hi: int, k: int) -> Option<(int, int)>
    decreases rs.len() - k,
{
    if k < 0 || k >= rs.len() {
        None
    } else if lo <= rs[k].0 < hi {
        Some(rs[k])
    } else {
        first_range_in(rs, lo, hi, k + 1)
    }
}

/// Scanning from `i` with `depth` braces open, the first `}` that closes them all.
pub open spec fn brace_scan(b: Seq<u8>, i: int, depth: int) -> Option<int>
    decreases b.len() - i,
{
    if i < 0 || i >= b.len() {
        None
    } else if b[i] == 0x7bu8 {
        brace_scan(b, i + 1, depth + 1)
    } else if b[i] == 0x7du8 {
        if depth - 1 == 0 {
            Some(i)
        } else {
            brace_scan(b, i + 1, depth - 1)
        }
    } else {
        brace_scan(b, i + 1, depth)
    }
}

pub proof fn lemma_brace_scan_range(b: Seq<u8>, i: int, depth: int)
    ensures
        brace_scan(b, i, depth) matches Some(c) ==> 0 <= i <= c < b.len() && b[c] == 0x7du8,
    decreases b.len() - i,
{
    if 0 <= i < b.len() {
        lemma_brace_scan_range(b, i + 1, depth + 1);
        lemma_brace_scan_range(b, i + 1, depth - 1);
        lemma_brace_scan_range(b, i + 1, depth);
    }
}

/// The bodies of the objects of a parameter list, from byte `i` on: from
/// each `{` to the `}` that closes it, the scan going on after that `}`. A
/// `{` that is never closed ends the scan.
pub open spec fn object_bodies(p: Seq<u8>, i: int) -> Seq<(int, int)>
    decreases p.len() - i,
{
    let a = find_byte(p, 0x7bu8, i);
    if i < 0 || i > p.len() || a >= p.len() {
        Seq::empty()
    } else {
        match brace_scan(p, a, 0) {
            Some(c) => {
                proof {
                    lemma_find_byte(p, 0x7bu8, i);
                    lemma_brace_scan_range(p, a, 0);
                }
                seq![(a + 1, c)] + object_bodies(p, c + 1)
            },
            None => Seq::empty(),
        }
    }
}

/// `t` with the quotes `'` and `"` trimmed from both ends.
pub open spec fn trim_quotes(t: Seq<char>) -> Seq<char>
    decreases t.len(),
{
    if t.len() > 0 && (t[0] == '\'' || t[0] == '"') {
        trim_quotes(t.skip(1))
    } else if t.len() > 0 && (t.last() == '\'' || t.last() == '"') {
        trim_quotes(t.drop_last())
    } else {
        t
    }
}

/// A captured type with white space and quotes trimmed, `String` when there
/// is none, and an `ArgType.` prefix taken off.
pub open spec fn param_type_of(cap: Option<Seq<char>>) -> Seq<char> {
    let t = match cap {
        Some(c) => trim_quotes(crate::strings::trim_text(c)),
        None => "String"@,
    };
    if t.len() >= 8 && t.take(8) == "ArgType."@ {
        t.skip(8)
    } else {
        t
    }
}

/// A captured `true` or `false`.
pub open spec fn flag_of(cap: Option<Seq<char>>) -> Option<bool> {
    match cap {
        Some(t) => Some(t == "true"@),
        None => None,
    }
}

/// The parameter an object body declares: named by its `name`, with its
/// `required` and `rest` flags, type and description.
pub open spec fn object_param(q: CustomFunctionParam, body: Seq<char>) -> bool {
    &&& name_capture(body) matches Some(n) && q.name@ == n
    &&& q.required == flag_of(required_capture(body))
    &&& q.rest == flag_of(rest_capture(body))
    &&& q.param_type@ == param_type_of(type_capture(body))
    &&& crate::custom::opt_text(q.description) == description_capture(body)
    &&& q.arg_enum is None
    &&& q.enum_name is None
}

/// The object bodies that name a parameter, in order.
pub open spec fn named_bodies(p: Seq<u8>, bodies: Seq<(int, int)>) -> Seq<Seq<char>>
    decreases bodies.len(),
{
    if bodies.len() == 0 {
        Seq::empty()
    } else {
        let rest = named_bodies(p, bodies.drop_last());
        let body = decode_utf8(p.subrange(bodies.last().0, bodies.last().1));
        if name_capture(body) is Some {
            rest.push(body)
        } else {
            rest
        }
    }
}

/// The parameters read from a parameter list: one per object that names a
/// parameter; when there is none, the names it holds; none at all when it
/// holds neither.
pub open spec fn list_params(params: Option<CustomParams>, p: Seq<u8>) -> bool {
    let bodies = named_bodies(p, object_bodies(p, 0));
    let names = name_matches(decode_utf8(p));
    if bodies.len() > 0 {
        params matches Some(CustomParams::List(v)) && v@.len() == bodies.len() && forall|i: int|
            0 <= i < v@.len() ==> (#[trigger] v@[i] matches ParamValue::Param(q) && object_param(q, bodies[i]))
    } else if names.len() > 0 {
        params matches Some(CustomParams::List(v)) && v@.len() == names.len() && forall|i: int|
            0 <= i < v@.len() ==> (#[trigger] v@[i] matches ParamValue::Name(n) && n@ == names[i].2)
    } else {
        params is None
    }
}

/// The outputs read from a captured output: its `,`-separated pieces,
/// trimmed of white space and quotes, the empty ones dropped.
pub open spec fn output_items(t: Seq<char>) -> Seq<Seq<char>> {
    crate::strings::non_empty(
        crate::strings::split_pieces(t, ',').map_values(|x: Seq<char>| trim_quotes(crate::strings::trim_text(x))),
    )
}

/// The declaration read from the `j`-th name: the text from the end of its
/// name to the start of the next declaration gives its description,
/// brackets and output, and the first parameter list that starts there its
/// parameters; its line is the number of newlines before it.
pub open spec fn declared_function(
    c: CustomFunction,
    b: Seq<u8>,
    ds: Seq<(int, int, Seq<char>)>,
    rs: Seq<(int, int)>,
    j: int,
    path: Seq<char>,
) -> bool {
    let end_pos = ds[j].1;
    let chunk_end = if j + 1 < ds.len() { ds[j + 1].0 } else { b.len() as int };
    let chunk = decode_utf8(b.subrange(end_pos, chunk_end));
    &&& c.name@ == ds[j].2
    &&& crate::custom::opt_text(c.description) == description_capture(chunk)
    &&& c.brackets == flag_of(brackets_capture(chunk))
    &&& crate::custom::opt_names(c.output) == (match output_capture(chunk) {
        Some(t) => Some(output_items(t)),
        None => None,
    })
    &&& match first_range_in(rs, end_pos, chunk_end, 0) {
        Some((s, e)) => list_params(c.params, b.subrange(s, e)),
        None => c.params is None,
    }
    &&& c.alias is None
    &&& c.path matches Some(p) && p@ == path
    &&& c.line == Some((newlines_before(b, ds[j].0) % 0x1_0000_0000) as u32)
}

/// The number of newline bytes before byte `i`.
pub open spec fn newlines_before(b: Seq<u8>, i: int) -> int
    decreases i,
{
    if i <= 0 || i > b.len() {
        0
    } else {
        newlines_before(b, i - 1) + if b[i - 1] == 0x0au8 { 1int } else { 0int }
    }
}

/// Name matches as (start, end, name).
pub open spec fn matches_view(ms: Seq<(usize, usize, String)>) -> Seq<(int, int, Seq<char>)> {
    ms.map_values(|m: (usize, usize, String)| (m.0 as int, m.1 as int, m.2@))
}

/// Byte positions as integers.
pub open spec fn starts_view(st: Seq<usize>) -> Seq<int> {
    st.map_values(|x: usize| x as int)
}

// ---------------------------------------------------------------------------
// Reading the declarations
// ---------------------------------------------------------------------------

/// The parameter lists of a source whose lists start at the given bytes:
/// each from its start to the bracket that closes the list's `[`.
pub fn param_lists_from(content: &str, starts: &Vec<usize>) -> (r: Vec<(usize, usize)>)
    requires
        forall|k: int|
            0 <= k < starts@.len() ==> (#[trigger] starts@[k]) <= content.spec_bytes().len() && is_char_boundary(
                content.spec_bytes(),
                starts@[k] as int,
            ),
    ensures
        r@.len() == param_ranges(content.spec_bytes(), starts_view(starts@)).len(),
        forall|i: int|
            0 <= i < r@.len() ==> (#[trigger] r@[i]).0 == param_ranges(content.spec_bytes(), starts_view(starts@))[i].0
                && r@[i].1 == param_ranges(content.spec_bytes(), starts_view(starts@))[i].1,
        forall|i: int|
            0 <= i < r@.len() ==> (#[trigger] r@[i]).0 <= r@[i].1 < content.spec_bytes().len()
                && is_char_boundary(content.spec_bytes(), r@[i].0 as int)
                && is_char_boundary(content.spec_bytes(), r@[i].1 as int),
{
    let ghost b = content.spec_bytes();
    let ghost st = starts_view(starts@);
    let bytes = content.as_bytes();
    let mut out: Vec<(usize, usize)> = Vec::new();
    let mut i: usize = 0;
    proof {
        assert(st.take(0) =~= Seq::<int>::empty());
    }
    while i < starts.len()
        invariant
            b == bytes@,
            b == content.spec_bytes(),
            starts@.len() == st.len(),
            forall|k: int| 0 <= k < starts@.len() ==> (#[trigger] starts@[k]) == st[k],
            forall|k: int|
                0 <= k < starts@.len() ==> (#[trigger] starts@[k]) <= b.len() && is_char_boundary(b, starts@[k] as int),
            i <= starts@.len(),
            out@.len() == param_ranges(b, st.take(i as int)).len(),
            forall|k: int|
                0 <= k < out@.len() ==> (#[trigger] out@[k]).0 == param_ranges(b, st.take(i as int))[k].0
                    && out@[k].1 == param_ranges(b, st.take(i as int))[k].1,
            forall|k: int|
                0 <= k < out@.len() ==> (#[trigger] out@[k]).0 <= out@[k].1 < b.len()
                    && is_char_boundary(b, out@[k].0 as int) && is_char_boundary(b, out@[k].1 as int),
        decreases starts@.len() - i,
    {
        proof {
            assert(st.take(i + 1).drop_last() =~= st.take(i as int));
            assert(st.take(i + 1).last() == st[i as int]);
        }
        let start = starts[i];
        match crate::text::find_matching_bracket_raw(bytes, start) {
            Some(e) => {
                proof {
                    crate::text::lemma_ascii_byte_boundaries(b, e as int);
                }
                out.push((start, e));
            },
            None => {},
        }
        i = i + 1;
    }
    proof {
        assert(st.take(st.len() as int) =~= st);
    }
    out
}

/// Finds the parameter lists of a source.
fn param_lists(content: &str) -> (r: Vec<(usize, usize)>)
    ensures
        r@.len() == param_ranges(content.spec_bytes(), params_starts(content@)).len(),
        forall|i: int|
            0 <= i < r@.len() ==> (#[trigger] r@[i]).0 == param_ranges(content.spec_bytes(), params_starts(content@))[i].0
                && r@[i].1 == param_ranges(content.spec_bytes(), params_starts(content@))[i].1,
        forall|i: int|
            0 <= i < r@.len() ==> (#[trigger] r@[i]).0 <= r@[i].1 < content.spec_bytes().len()
                && is_char_boundary(content.spec_bytes(), r@[i].0 as int)
                && is_char_boundary(content.spec_bytes(), r@[i].1 as int),
{
    let starts = find_params_starts(content);
    proof {
        assert(starts_view(starts@) =~= params_starts(content@));
    }
    param_lists_from(content, &starts)
}

/// Whether byte `p` lies in one of the ranges.
fn in_ranges(rs: &Vec<(usize, usize)>, p: usize) -> (r: bool)
    ensures
        r == in_some_range(rs@.map_values(|x: (usize, usize)| (x.0 as int, x.1 as int)), p as int),
{
    let ghost v = rs@.map_values(|x: (usize, usize)| (x.0 as int, x.1 as int));
    let mut k: usize = 0;
    while k < rs.len()
        invariant
            v == rs@.map_values(|x: (usize, usize)| (x.0 as int, x.1 as int)),
            k <= rs@.len(),
            forall|q: int| 0 <= q < k ==> !(#[trigger] v[q].0 <= p < v[q].1),
        decreases rs@.len() - k,
    {
        if rs[k].0 <= p && p < rs[k].1 {
            assert(v[k as int].0 <= p < v[k as int].1);
            return true;
        }
        k = k + 1;
    }
    false
}

/// The first range, in order, that starts within `lo..hi`.
fn first_range(rs: &Vec<(usize, usize)>, lo: usize, hi: usize) -> (r: Option<(usize, usize)>)
    ensures
        match first_range_in(rs@.map_values(|x: (usize, usize)| (x.0 as int, x.1 as int)), lo as int, hi as int, 0) {
            Some((s, e)) => r matches Some((a, c)) && a == s && c == e,
            None => r is None,
        },
{
    let ghost v = rs@.map_values(|x: (usize, usize)| (x.0 as int, x.1 as int));
    let mut k: usize = 0;
    while k < rs.len()
        invariant
            v == rs@.map_values(|x: (usize, usize)| (x.0 as int, x.1 as int)),
            k <= rs@.len(),
            first_range_in(v, lo as int, hi as int, 0) == first_range_in(v, lo as int, hi as int, k as int),
        decreases rs@.len() - k,
    {
        if lo <= rs[k].0 && rs[k].0 < hi {
            return Some(rs[k]);
        }
        k = k + 1;
    }
    None
}

/// Finds the `}` that closes the `{` at `open`.
fn find_brace_close(bytes: &[u8], open: usize) -> (r: Option<usize>)
    ensures
        crate::text::same_pos(r, brace_scan(bytes@, open as int, 0)),
{
    let mut opens: usize = 0;
    let mut closes: usize = 0;
    let mut i = open;
    while i < bytes.len()
        invariant
            open <= i,
            opens + closes <= i - open,
            brace_scan(bytes@, open as int, 0) == brace_scan(bytes@, i as int, opens - closes),
        decreases bytes@.len() - i,
    {
        let c = bytes[i];
        if c == 0x7bu8 {
            opens = opens + 1;
        } else if c == 0x7du8 {
            if closes + 1 == opens {
                return Some(i);
            }
            closes = closes + 1;
        }
        i = i + 1;
    }
    None
}

/// Characters `'` and `"`.
fn is_quote(c: char) -> (r: bool)
    ensures
        r == (c == '\'' || c == '"'),
{
    c == '\'' || c == '"'
}

/// The text with quotes trimmed from both ends.
fn trim_quotes_str(t: &str) -> (r: String)
    ensures
        r@ == trim_quotes(t@),
{
    let cs = crate::trie::chars_of(t);
    let mut lo: usize = 0;
    let mut hi: usize = cs.len();
    assert(cs@.subrange(0, cs@.len() as int) =~= cs@);
    while lo < hi && is_quote(cs[lo])
        invariant
            cs@ == t@,
            lo <= hi == cs@.len(),
            trim_quotes(t@) == trim_quotes(cs@.subrange(lo as int, hi as int)),
        decreases hi - lo,
    {
        assert(cs@.subrange(lo as int, hi as int).skip(1) =~= cs@.subrange(lo + 1, hi as int));
        lo = lo + 1;
    }
    while hi > lo && is_quote(cs[hi - 1])
        invariant
            cs@ == t@,
            lo <= hi <= cs@.len(),
            lo == hi || !(cs@[lo as int] == '\'' || cs@[lo as int] == '"'),
            trim_quotes(t@) == trim_quotes(cs@.subrange(lo as int, hi as int)),
        decreases hi - lo,
    {
        assert(cs@.subrange(lo as int, hi as int).drop_last() =~= cs@.subrange(lo as int, hi - 1));
        hi = hi - 1;
    }
    let mut out = String::new();
    let mut k = lo;
    while k < hi
        invariant
            lo <= k <= hi <= cs@.len(),
            out@ =~= cs@.subrange(lo as int, k as int),
        decreases hi - k,
    {
        push_char(&mut out, cs[k]);
        k = k + 1;
    }
    out
}

/// The type a parameter declares.
fn param_type(cap: Option<String>) -> (r: String)
    ensures
        r@ == param_type_of(crate::custom::opt_text(cap)),
{
    proof {
        reveal_strlit("String");
        reveal_strlit("ArgType.");
    }
    let t = match cap {
        Some(c) => trim_quotes_str(crate::strings::trim_str(c.as_str())),
        None => String::from_str("String"),
    };
    let cs = crate::trie::chars_of(t.as_str());
    let prefix = crate::trie::chars_of("ArgType.");
    if crate::strings::matches_at(&cs, 0, &prefix) {
        assert(cs@.subrange(0, 8) =~= cs@.take(8));
        let mut out = String::new();
        let mut k: usize = 8;
        while k < cs.len()
            invariant
                8 <= k <= cs@.len(),
                out@ =~= cs@.subrange(8, k as int),
            decreases cs@.len() - k,
        {
            push_char(&mut out, cs[k]);
            k = k + 1;
        }
        assert(cs@.subrange(8, cs@.len() as int) =~= cs@.skip(8));
        out
    } else {
        proof {
            if cs@.len() >= 8 {
                assert(cs@.subrange(0, 8) =~= cs@.take(8));
            }
        }
        t
    }
}

/// Reads a captured `true` or `false`.
fn flag(cap: Option<String>) -> (r: Option<bool>)
    ensures
        r == flag_of(crate::custom::opt_text(cap)),
{
    match cap {
        Some(t) => Some(crate::text::str_eq(t.as_str(), "true")),
        None => None,
    }
}

/// The parameter an object body names, if it names one.
fn body_param(body: &str) -> (r: Option<CustomFunctionParam>)
    ensures
        r is Some <==> name_capture(body@) is Some,
        r matches Some(q) ==> object_param(q, body@),
{
    let name = match capture_name(body) {
        Some(n) => n,
        None => {
            return None;
        },
    };
    Some(
        CustomFunctionParam {
            name,
            description: capture_description(body),
            param_type: param_type(capture_type(body)),
            required: flag(capture_required(body)),
            rest: flag(capture_rest(body)),
            arg_enum: None,
            enum_name: None,
        },
    )
}

/// Reads the parameters of a parameter list.
fn list_parameters(p: &str) -> (r: Option<CustomParams>)
    ensures
        list_params(r, p.spec_bytes()),
{
    let pb = p.as_bytes();
    let ghost b = pb@;
    let n = pb.len();
    let ghost bodies = object_bodies(b, 0);
    let mut params: Vec<ParamValue> = Vec::new();
    let ghost mut seen: Seq<(int, int)> = Seq::empty();
    let mut i: usize = 0;
    proof {
        is_char_boundary_start_end_of_seq(b);
    }
    loop
        invariant
            b == pb@,
            b == p.spec_bytes(),
            n == b.len(),
            i <= n,
            bodies == seen + object_bodies(b, i as int),
            params@.len() == named_bodies(b, seen).len(),
            forall|k: int|
                0 <= k < params@.len() ==> (#[trigger] params@[k] matches ParamValue::Param(q) && object_param(
                    q,
                    named_bodies(b, seen)[k],
                )),
        ensures
            bodies == seen,
        decreases n - i,
    {
        let a = crate::config::find_byte_exec(pb, 0x7bu8, i);
        proof {
            lemma_find_byte(b, 0x7bu8, i as int);
        }
        if a >= n {
            proof {
                assert(object_bodies(b, i as int) =~= Seq::<(int, int)>::empty());
                assert(bodies =~= seen);
            }
            break;
        }
        let c = match find_brace_close(pb, a) {
            Some(c) => c,
            None => {
                proof {
                    assert(object_bodies(b, i as int) =~= Seq::<(int, int)>::empty());
                    assert(bodies =~= seen);
                }
                break;
            },
        };
        proof {
            lemma_brace_scan_range(b, a as int, 0);
            crate::text::lemma_ascii_byte_boundaries(b, a as int);
            crate::text::lemma_ascii_byte_boundaries(b, c as int);
        }
        let body = substr(p, a + 1, c);
        let ghost seen2 = seen.push((a + 1, c as int));
        proof {
            assert(seen2.drop_last() =~= seen);
            assert(object_bodies(b, i as int) == seq![(a + 1, c as int)] + object_bodies(b, c + 1));
        }
        match body_param(body) {
            Some(q) => {
                params.push(ParamValue::Param(q));
            },
            None => {},
        }
        proof {
            seen = seen2;
            assert(bodies =~= seen + object_bodies(b, c + 1));
        }
        i = c + 1;
    }
    if params.len() > 0 {
        return Some(CustomParams::List(params));
    }
    let ms = find_name_matches(p);
    proof {
        assert(decode_utf8(b) == p@);
    }
    if ms.len() == 0 {
        return None;
    }
    let mut names: Vec<ParamValue> = Vec::new();
    let mut k: usize = 0;
    while k < ms.len()
        invariant
            k <= ms@.len(),
            ms@.len() == name_matches(p@).len(),
            forall|j: int| 0 <= j < ms@.len() ==> (#[trigger] ms@[j]).2@ == name_matches(p@)[j].2,
            names@.len() == k,
            forall|j: int| 0 <= j < k ==> (#[trigger] names@[j] matches ParamValue::Name(x) && x@ == name_matches(p@)[j].2),
        decreases ms@.len() - k,
    {
        names.push(ParamValue::Name(ms[k].2.clone()));
        k = k + 1;
    }
    Some(CustomParams::List(names))
}

/// Reads the outputs a captured output lists.
fn output_list(t: &str) -> (r: Vec<String>)
    ensures
        crate::metadata::names_view(r@) == output_items(t@),
{
    let pieces = crate::strings::split_char(t, ',');
    let ghost mapped = crate::strings::split_pieces(t@, ',').map_values(
        |x: Seq<char>| trim_quotes(crate::strings::trim_text(x)),
    );
    let mut out: Vec<String> = Vec::new();
    let mut i: usize = 0;
    proof {
        assert(mapped.take(0) =~= Seq::<Seq<char>>::empty());
    }
    while i < pieces.len()
        invariant
            pieces@.map_values(|x: String| x@) == crate::strings::split_pieces(t@, ','),
            mapped == crate::strings::split_pieces(t@, ',').map_values(
                |x: Seq<char>| trim_quotes(crate::strings::trim_text(x)),
            ),
            i <= pieces@.len(),
            crate::metadata::names_view(out@) == crate::strings::non_empty(mapped.take(i as int)),
        decreases pieces@.len() - i,
    {
        proof {
            assert(mapped.take(i + 1).drop_last() =~= mapped.take(i as int));
            assert(pieces@[i as int]@ == crate::strings::split_pieces(t@, ',')[i as int]);
        }
        let x = trim_quotes_str(crate::strings::trim_str(pieces[i].as_str()));
        if x.as_str().unicode_len() > 0 {
            let ghost before = crate::metadata::names_view(out@);
            out.push(x);
            proof {
                assert(crate::metadata::names_view(out@) =~= before.push(mapped[i as int]));
            }
        }
        i = i + 1;
    }
    proof {
        assert(mapped.take(mapped.len() as int) =~= mapped);
    }
    out
}

/// Counts the newline bytes before byte `i`.
fn count_newlines(bytes: &[u8], i: usize) -> (r: usize)
    requires
        i <= bytes@.len(),
    ensures
        r == newlines_before(bytes@, i as int),
{
    let mut n: usize = 0;
    let mut k: usize = 0;
    while k < i
        invariant
            k <= i <= bytes@.len(),
            n <= k,
            n == newlines_before(bytes@, k as int),
        decreases i - k,
    {
        if bytes[k] == 0x0au8 {
            n = n + 1;
        }
        k = k + 1;
    }
    n
}

/// The custom functions declared in a JavaScript source, given where its
/// `name:` entries match (start, end, name) and where its parameter lists
/// start.
pub fn custom_functions_from_matches(
    content: &str,
    file_path: &str,
    ms: &Vec<(usize, usize, String)>,
    starts: &Vec<usize>,
) -> (r: Vec<CustomFunction>)
    requires
        forall|i: int|
            0 <= i < ms@.len() ==> (#[trigger] ms@[i]).0 <= ms@[i].1 <= content.spec_bytes().len()
                && is_char_boundary(content.spec_bytes(), ms@[i].0 as int) && is_char_boundary(
                content.spec_bytes(),
                ms@[i].1 as int,
            ),
        forall|i: int, j: int| 0 <= i < j < ms@.len() ==> #[trigger] ms@[i].1 <= #[trigger] ms@[j].0,
        forall|k: int|
            0 <= k < starts@.len() ==> (#[trigger] starts@[k]) <= content.spec_bytes().len() && is_char_boundary(
                content.spec_bytes(),
                starts@[k] as int,
            ),
    ensures
        r@.len() == declarations(
            matches_view(ms@),
            param_ranges(content.spec_bytes(), starts_view(starts@)),
        ).len(),
        forall|j: int|
            0 <= j < r@.len() ==> declared_function(
                #[trigger] r@[j],
                content.spec_bytes(),
                declarations(matches_view(ms@), param_ranges(content.spec_bytes(), starts_view(starts@))),
                param_ranges(content.spec_bytes(), starts_view(starts@)),
                j,
                file_path@,
            ),
{
    let bytes = content.as_bytes();
    let ghost b = bytes@;
    let n = bytes.len();
    let rs = param_lists_from(content, starts);
    let ghost rsv = param_ranges(b, starts_view(starts@));
    proof {
        assert(rs@.map_values(|x: (usize, usize)| (x.0 as int, x.1 as int)) =~= rsv);
    }
    let ghost msv = matches_view(ms@);
    let mut ds: Vec<(usize, usize, String)> = Vec::new();
    let mut k: usize = 0;
    proof {
        assert(msv.take(0) =~= Seq::<(int, int, Seq<char>)>::empty());
    }
    while k < ms.len()
        invariant
            b == content.spec_bytes(),
            rs@.map_values(|x: (usize, usize)| (x.0 as int, x.1 as int)) == rsv,
            ms@.len() == msv.len(),
            forall|i: int|
                0 <= i < ms@.len() ==> (#[trigger] ms@[i]).0 == msv[i].0 && ms@[i].1 == msv[i].1 && ms@[i].2@ == msv[i].2,
            forall|i: int|
                0 <= i < ms@.len() ==> (#[trigger] ms@[i]).0 <= ms@[i].1 <= b.len() && is_char_boundary(b, ms@[i].0 as int)
                    && is_char_boundary(b, ms@[i].1 as int),
            forall|i: int, j: int| 0 <= i < j < ms@.len() ==> #[trigger] ms@[i].1 <= #[trigger] ms@[j].0,
            k <= ms@.len(),
            ds@.len() == declarations(msv.take(k as int), rsv).len(),
            forall|i: int|
                0 <= i < ds@.len() ==> (#[trigger] ds@[i]).0 == declarations(msv.take(k as int), rsv)[i].0
                    && ds@[i].1 == declarations(msv.take(k as int), rsv)[i].1 && ds@[i].2@ == declarations(
                    msv.take(k as int),
                    rsv,
                )[i].2,
            forall|i: int|
                0 <= i < ds@.len() ==> (#[trigger] ds@[i]).0 <= ds@[i].1 <= b.len() && is_char_boundary(b, ds@[i].0 as int)
                    && is_char_boundary(b, ds@[i].1 as int),
            forall|i: int, j: int| 0 <= i < j < ds@.len() ==> #[trigger] ds@[i].1 <= #[trigger] ds@[j].0,
            forall|i: int| 0 <= i < ds@.len() ==> (#[trigger] ds@[i]).1 <= ms@[k - 1].1 || k == 0,
        decreases ms@.len() - k,
    {
        proof {
            assert(msv.take(k + 1).drop_last() =~= msv.take(k as int));
            assert(msv.take(k + 1).last() == msv[k as int]);
        }
        let m0 = ms[k].0;
        if !in_ranges(&rs, m0) {
            let ghost before = ds@;
            ds.push((m0, ms[k].1, ms[k].2.clone()));
            proof {
                assert forall|i: int, j: int| 0 <= i < j < ds@.len() implies #[trigger] ds@[i].1 <= #[trigger] ds@[j].0 by {
                    if j == ds@.len() - 1 && i < j {
                        assert(before[i].1 <= ms@[k - 1].1);
                        assert(ms@[k - 1].1 <= ms@[k as int].0);
                    }
                }
            }
        }
        proof {
            assert forall|i: int| 0 <= i < ds@.len() implies (#[trigger] ds@[i]).1 <= ms@[k as int].1 by {
                if k > 0 && i < ds@.len() - 1 || (k > 0 && ds@[i].1 != ms@[k as int].1) {
                    if ds@[i].1 <= ms@[k - 1].1 {
                        assert(ms@[k - 1].1 <= ms@[k as int].0);
                    }
                }
            }
        }
        k = k + 1;
    }
    proof {
        assert(msv.take(msv.len() as int) =~= msv);
    }
    let ghost dsv = declarations(msv, rsv);
    let mut out: Vec<CustomFunction> = Vec::new();
    let mut j: usize = 0;
    while j < ds.len()
        invariant
            b == content.spec_bytes(),
            b == bytes@,
            n == b.len(),
            rs@.map_values(|x: (usize, usize)| (x.0 as int, x.1 as int)) == rsv,
            forall|i: int|
                0 <= i < rs@.len() ==> (#[trigger] rs@[i]).0 <= rs@[i].1 < b.len() && is_char_boundary(b, rs@[i].0 as int)
                    && is_char_boundary(b, rs@[i].1 as int),
            ds@.len() == dsv.len(),
            forall|i: int|
                0 <= i < ds@.len() ==> (#[trigger] ds@[i]).0 == dsv[i].0 && ds@[i].1 == dsv[i].1 && ds@[i].2@ == dsv[i].2,
            forall|i: int|
                0 <= i < ds@.len() ==> (#[trigger] ds@[i]).0 <= ds@[i].1 <= b.len() && is_char_boundary(b, ds@[i].0 as int)
                    && is_char_boundary(b, ds@[i].1 as int),
            forall|i: int, q: int| 0 <= i < q < ds@.len() ==> #[trigger] ds@[i].1 <= #[trigger] ds@[q].0,
            j <= ds@.len(),
            out@.len() == j,
            forall|i: int| 0 <= i < j ==> declared_function(#[trigger] out@[i], b, dsv, rsv, i, file_path@),
        decreases ds@.len() - j,
    {
        let end_pos = ds[j].1;
        let chunk_end = if j + 1 < ds.len() {
            ds[j + 1].0
        } else {
            n
        };
        proof {
            is_char_boundary_start_end_of_seq(b);
        }
        let chunk = substr(content, end_pos, chunk_end);
        let description = capture_description(chunk);
        let brackets = flag(capture_brackets(chunk));
        let output = match capture_output(chunk) {
            Some(t) => Some(output_list(t.as_str())),
            None => None,
        };
        let params = match first_range(&rs, end_pos, chunk_end) {
            Some((s, e)) => {
                proof {
                    let v = rs@.map_values(|x: (usize, usize)| (x.0 as int, x.1 as int));
                    lemma_first_range_in(v, end_pos as int, chunk_end as int, 0);
                    let q = choose|q: int| 0 <= q < v.len() && v[q] == (s as int, e as int);
                    assert(rs@[q].0 == s && rs@[q].1 == e);
                }
                list_parameters(substr(content, s, e))
            },
            None => None,
        };
        let count = count_newlines(bytes, ds[j].0);
        let line = (count as u64 % 0x1_0000_0000u64) as u32;
        out.push(
            CustomFunction {
                name: ds[j].2.clone(),
                description,
                params,
                brackets,
                alias: None,
                path: Some(String::from_str(file_path)),
                line: Some(line),
                output,
            },
        );
        j = j + 1;
    }
    out
}

/// Reads the custom functions a JavaScript or TypeScript source declares.
pub fn parse_custom_functions_from_js(content: &str, file_path: &str) -> (r: Vec<CustomFunction>)
    ensures
        r@.len() == declarations(
            name_matches(content@),
            param_ranges(content.spec_bytes(), params_starts(content@)),
        ).len(),
        forall|j: int|
            0 <= j < r@.len() ==> declared_function(
                #[trigger] r@[j],
                content.spec_bytes(),
                declarations(name_matches(content@), param_ranges(content.spec_bytes(), params_starts(content@))),
                param_ranges(content.spec_bytes(), params_starts(content@)),
                j,
                file_path@,
            ),
{
    let ms = find_name_matches(content);
    let starts = find_params_starts(content);
    proof {
        assert(matches_view(ms@) =~= name_matches(content@));
        assert(starts_view(starts@) =~= params_starts(content@));
    }
    custom_functions_from_matches(content, file_path, &ms, &starts)
}

/// A range found by `first_range_in` is one of the ranges.
pub proof fn lemma_first_range_in(rs: Seq<(int, int)>, lo: int, hi: int, k: int)
    requires
        0 <= k,
    ensures
        first_range_in(rs, lo, hi, k) matches Some(x) ==> exists|q: int| 0 <= q < rs.len() && rs[q] == x,
    decreases rs.len() - k,
{
    if k < rs.len() && !(lo <= rs[k].0 < hi) {
        lemma_first_range_in(rs, lo, hi, k + 1);
    }
}

} // verus!
