//! Configuration values: metadata source URLs and their GitHub shorthand,
//! log levels, and the project configuration.

use vstd::prelude::*;
use vstd::string::StringExecFns;
use vstd::string::StringSliceAdditionalSpecFns;
use vstd::utf8::*;
use crate::custom::CustomFunction;
use crate::strings::{has_prefix, starts_with};
use crate::text::{lemma_ascii_byte_boundaries, lemma_encode_utf8_append, substr};

verus! {

broadcast use vstd::utf8::group_utf8_lib;

/// First index at or after `from` holding byte `c`, or the length when there is none.
pub open spec fn find_byte(b: Seq<u8>, c: u8, from: int) -> int
    decreases b.len() - from,
{
    if from < 0 || from >= b.len() {
        b.len() as int
    } else if b[from] == c {
        from
    } else {
        find_byte(b, c, from + 1)
    }
}

pub proof fn lemma_find_byte(b: Seq<u8>, c: u8, from: int)
    requires
        0 <= from <= b.len(),
    ensures
        from <= find_byte(b, c, from) <= b.len(),
        find_byte(b, c, from) < b.len() ==> b[find_byte(b, c, from)] == c,
        forall|j: int| from <= j < find_byte(b, c, from) ==> b[j] != c,
    decreases b.len() - from,
{
    if from < b.len() && b[from] != c {
        lemma_find_byte(b, c, from + 1);
    }
}

pub fn find_byte_exec(b: &[u8], c: u8, from: usize) -> (r: usize)
    requires
        from <= b@.len(),
    ensures
        r == find_byte(b@, c, from as int),
{
    let mut i = from;
    while i < b.len()
        invariant
            from <= i <= b@.len(),
            find_byte(b@, c, from as int) == find_byte(b@, c, i as int),
        decreases b@.len() - i,
    {
        if b[i] == c {
            return i;
        }
        i = i + 1;
    }
    i
}

/// The raw-content URL that a `github:owner/repo[/path][#branch]` shorthand
/// stands for; the branch defaults to `main` and the path to
/// `metadata/functions.json`. Anything else, including a shorthand without a
/// `/` before the branch, is left as it is.
pub open spec fn spec_resolve_github_shorthand(b: Seq<u8>) -> Seq<u8> {
    let gh = encode_utf8("github:"@);
    if !has_prefix(b, gh) {
        b
    } else {
        let t = b.subrange(gh.len() as int, b.len() as int);
        let h = find_byte(t, 0x23u8, 0);
        let path = t.subrange(0, h);
        let branch = if h < t.len() {
            t.subrange(h + 1, t.len() as int)
        } else {
            encode_utf8("main"@)
        };
        let s1 = find_byte(path, 0x2fu8, 0);
        if s1 >= path.len() {
            b
        } else {
            let owner = path.subrange(0, s1);
            let s2 = find_byte(path, 0x2fu8, s1 + 1);
            let repo = path.subrange(s1 + 1, s2);
            let file = if s2 < path.len() {
                path.subrange(s2 + 1, path.len() as int)
            } else {
                encode_utf8("metadata/functions.json"@)
            };
            let slash = encode_utf8("/"@);
            encode_utf8("https://raw.githubusercontent.com/"@) + owner + slash + repo + slash
                + branch + slash + file
        }
    }
}

fn append_str(res: &mut String, piece: &str)
    ensures
        encode_utf8(final(res)@) == encode_utf8(old(res)@) + piece.spec_bytes(),
{
    let ghost before = res@;
    res.append(piece);
    proof {
        lemma_encode_utf8_append(before, piece@);
    }
}

/// Transforms github: shorthand into raw.githubusercontent.com URLs.
pub fn resolve_github_shorthand(input: String) -> (r: String)
    ensures
        encode_utf8(r@) == spec_resolve_github_shorthand(encode_utf8(input@)),
{
    let s = input.as_str();
    let ghost b = s.spec_bytes();
    if !starts_with(s, "github:") {
        return input;
    }
    let bytes = s.as_bytes();
    let gh_len = "github:".as_bytes().len();
    let ghost gh = encode_utf8("github:"@);
    assert(gh_len == gh.len());
    // the prefix is ASCII, so it ends at a character boundary
    proof {
        reveal_strlit("github:");
        assert(is_ascii_chars("github:"@));
        assert(gh.len() == 7);
        assert(gh[6] == 0x3au8);
        assert(b.subrange(0, gh.len() as int) == gh);
        assert(b[6] == b.subrange(0, gh.len() as int)[6]);
    }
    let ghost t = b.subrange(gh_len as int, b.len() as int);
    proof {
        lemma_prefix_boundary(s, gh_len as int);
        is_char_boundary_start_end_of_seq(b);
    }
    let rest = substr(s, gh_len, bytes.len());
    let tb = rest.as_bytes();
    assert(tb@ == t);
    let h = find_byte_exec(tb, 0x23u8, 0);
    proof {
        lemma_find_byte(t, 0x23u8, 0);
        valid_utf8_split(b, gh_len as int);
        is_char_boundary_start_end_of_seq(t);
        if h < t.len() {
            lemma_ascii_byte_boundaries(t, h as int);
        }
    }
    let path = substr(rest, 0, h);
    let ghost pb = path.spec_bytes();
    let pbytes = path.as_bytes();
    let s1 = find_byte_exec(pbytes, 0x2fu8, 0);
    proof {
        lemma_find_byte(pb, 0x2fu8, 0);
    }
    if s1 >= pbytes.len() {
        return input;
    }
    let s2 = find_byte_exec(pbytes, 0x2fu8, s1 + 1);
    proof {
        lemma_find_byte(pb, 0x2fu8, s1 + 1);
        is_char_boundary_start_end_of_seq(pb);
        lemma_ascii_byte_boundaries(pb, s1 as int);
        if s2 < pb.len() {
            lemma_ascii_byte_boundaries(pb, s2 as int);
        }
    }
    let owner = substr(path, 0, s1);
    let repo = substr(path, s1 + 1, s2);
    let mut out = String::new();
    append_str(&mut out, "https://raw.githubusercontent.com/");
    append_str(&mut out, owner);
    append_str(&mut out, "/");
    append_str(&mut out, repo);
    append_str(&mut out, "/");
    if h < tb.len() {
        let branch = substr(rest, h + 1, tb.len());
        append_str(&mut out, branch);
    } else {
        append_str(&mut out, "main");
    }
    append_str(&mut out, "/");
    if s2 < pbytes.len() {
        let file = substr(path, s2 + 1, pbytes.len());
        append_str(&mut out, file);
    } else {
        append_str(&mut out, "metadata/functions.json");
    }
    proof {
        assert(encode_utf8(Seq::<char>::empty()) =~= Seq::<u8>::empty());
    }
    out
}

/// The end of an ASCII prefix of a string is a character boundary.
proof fn lemma_prefix_boundary(s: &str, n: int)
    requires
        0 < n <= s.spec_bytes().len(),
        s.spec_bytes()[n - 1] < 0x80,
    ensures
        is_char_boundary(s.spec_bytes(), n),
{
    lemma_ascii_byte_boundaries(s.spec_bytes(), n - 1);
}

/// Available log levels, from the most verbose to the least.
#[derive(Clone, Copy, Debug, PartialEq, Eq, Structural, PartialOrd, Ord, Hash)]
pub enum LogLevel {
    Trace,
    Debug,
    Info,
    Warn,
    Error,
}

/// The rank of a level: `Trace` lowest, `Error` highest.
pub open spec fn level_rank(l: LogLevel) -> int {
    match l {
        LogLevel::Trace => 0,
        LogLevel::Debug => 1,
        LogLevel::Info => 2,
        LogLevel::Warn => 3,
        LogLevel::Error => 4,
    }
}

fn rank(l: LogLevel) -> (r: u8)
    ensures
        r == level_rank(l),
{
    match l {
        LogLevel::Trace => 0,
        LogLevel::Debug => 1,
        LogLevel::Info => 2,
        LogLevel::Warn => 3,
        LogLevel::Error => 4,
    }
}

/// A message at `level` is logged when the level is at least the configured minimum.
pub fn should_log(level: LogLevel, min: LogLevel) -> (r: bool)
    ensures
        r == (level_rank(level) >= level_rank(min)),
{
    rank(level) >= rank(min)
}

/// Configuration of the language server, as a project's `forgeconfig.json` gives it.
#[derive(Clone, Debug)]
pub struct ForgeConfig {
    pub urls: Vec<String>,
    pub multiple_function_colors: Option<bool>,
    pub function_colors: Option<Vec<String>>,
    pub consistent_function_colors: Option<bool>,
    pub custom_functions: Option<Vec<CustomFunction>>,
    pub custom_functions_path: Option<String>,
    pub log_level: Option<LogLevel>,
}

impl ForgeConfig {
    /// Resolves `github:` shorthands among the metadata URLs.
    pub fn resolve_urls(&mut self)
        ensures
            final(self).urls@.len() == old(self).urls@.len(),
            forall|i: int|
                0 <= i < final(self).urls@.len() ==> encode_utf8((#[trigger] final(self).urls@[i])@)
                    == spec_resolve_github_shorthand(encode_utf8(old(self).urls@[i]@)),
            final(self).multiple_function_colors == old(self).multiple_function_colors,
            final(self).function_colors == old(self).function_colors,
            final(self).consistent_function_colors == old(self).consistent_function_colors,
            final(self).custom_functions == old(self).custom_functions,
            final(self).custom_functions_path == old(self).custom_functions_path,
            final(self).log_level == old(self).log_level,
    {
        let mut urls: Vec<String> = Vec::new();
        std::mem::swap(&mut urls, &mut self.urls);
        let ghost old_urls = urls@;
        let mut out: Vec<String> = Vec::new();
        let mut i: usize = 0;
        while i < urls.len()
            invariant
                urls@ == old_urls,
                i <= old_urls.len(),
                out@.len() == i,
                forall|j: int|
                    0 <= j < i ==> encode_utf8((#[trigger] out@[j])@) == spec_resolve_github_shorthand(
                        encode_utf8(old_urls[j]@),
                    ),
            decreases old_urls.len() - i,
        {
            out.push(resolve_github_shorthand(urls[i].clone()));
            i = i + 1;
        }
        self.urls = out;
    }
}

} // verus!
