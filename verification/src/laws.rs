//! Properties that relate the operations of the library to one another.

use std::sync::Arc;
use vstd::prelude::*;
use crate::config::spec_resolve_github_shorthand;
use crate::custom::{function_for, registrations, CustomFunction};
use crate::function::{Arg, Function};
use crate::metadata::{last_reg, lemma_last_reg_bounds, registered_index, without_names};
use crate::strings::has_prefix;
use crate::trie::lowercase_key;
use crate::chars::byte_offset;
use crate::position::{chars_before, chars_before_from, line_col_after, line_col_fits, position_fits, pto_fits, pto_scan, spec_position_to_offset};
use crate::semantic::{lemma_line_col_mono, lemma_line_col_nonneg, lemma_pos_order, pos_col, pos_line, rel_tokens, SemanticToken};

verus! {

/// The index after an insertion, as `FunctionTrie::insert` leaves it.
pub open spec fn inserted(before: Map<Seq<char>, Arc<Function>>, key: Seq<char>, f: Arc<Function>) -> Map<Seq<char>, Arc<Function>> {
    before.insert(lowercase_key(key), f)
}

/// What `FunctionTrie::get_exact` returns for a name.
pub open spec fn exact_lookup(m: Map<Seq<char>, Arc<Function>>, name: Seq<char>) -> Option<Arc<Function>> {
    if m.contains_key(lowercase_key(name)) {
        Some(m[lowercase_key(name)])
    } else {
        None
    }
}

/// Looking a name up right after inserting a function under it finds that
/// function, and so does any spelling of the name that lower-cases alike.
pub proof fn law_lookup_after_insert(
    before: Map<Seq<char>, Arc<Function>>,
    key: Seq<char>,
    other: Seq<char>,
    f: Arc<Function>,
)
    requires
        lowercase_key(other) == lowercase_key(key),
    ensures
        exact_lookup(inserted(before, key, f), other) == Some(f),
{
}

/// Inserting under a name leaves every name that lower-cases differently as it was.
pub proof fn law_insert_keeps_others(
    before: Map<Seq<char>, Arc<Function>>,
    key: Seq<char>,
    other: Seq<char>,
    f: Arc<Function>,
)
    requires
        lowercase_key(other) != lowercase_key(key),
    ensures
        exact_lookup(inserted(before, key, f), other) == exact_lookup(before, other),
{
}

/// Removing a name right after inserting it leaves nothing under it.
pub proof fn law_lookup_after_remove(
    before: Map<Seq<char>, Arc<Function>>,
    key: Seq<char>,
    other: Seq<char>,
    f: Arc<Function>,
)
    requires
        lowercase_key(other) == lowercase_key(key),
    ensures
        exact_lookup(inserted(before, key, f).remove(lowercase_key(key)), other) is None,
{
}

/// Inserting under a new name counts one function more; inserting under a
/// name already present keeps the count.
pub proof fn law_count_after_insert(before: Map<Seq<char>, Arc<Function>>, key: Seq<char>, f: Arc<Function>)
    requires
        before.dom().finite(),
    ensures
        inserted(before, key, f).dom().len() == before.dom().len() + if before.contains_key(lowercase_key(key)) {
            0int
        } else {
            1int
        },
{
    assert(inserted(before, key, f).dom() =~= before.dom().insert(lowercase_key(key)));
}

/// Removing a name takes away its function and leaves every name of another
/// lower-cased form as it was; the count drops by one exactly when the name
/// was present.
pub proof fn law_remove_effects(before: Map<Seq<char>, Arc<Function>>, key: Seq<char>, other: Seq<char>)
    requires
        before.dom().finite(),
    ensures
        exact_lookup(before.remove(lowercase_key(key)), key) is None,
        lowercase_key(other) != lowercase_key(key) ==> exact_lookup(before.remove(lowercase_key(key)), other)
            == exact_lookup(before, other),
        before.remove(lowercase_key(key)).dom().len() == before.dom().len() - if before.contains_key(
            lowercase_key(key),
        ) {
            1int
        } else {
            0int
        },
{
    assert(before.remove(lowercase_key(key)).dom() =~= before.dom().remove(lowercase_key(key)));
}

/// A later registration under a name is found after an earlier one.
proof fn lemma_last_reg_after(regs: Seq<(Seq<char>, int)>, j: int)
    requires
        0 <= j < regs.len(),
    ensures
        last_reg(regs, lowercase_key(regs[j].0)) >= j,
    decreases regs.len(),
{
    if j < regs.len() - 1 && lowercase_key(regs.last().0) != lowercase_key(regs[j].0) {
        assert(regs.drop_last()[j] == regs[j]);
        lemma_last_reg_after(regs.drop_last(), j);
    }
}

/// After registering custom functions, every name they register is found,
/// holding the function of the custom function registered last under a name
/// that lower-cases alike.
pub proof fn law_registered_names_found(
    before: Map<Seq<char>, Arc<Function>>,
    after: Map<Seq<char>, Arc<Function>>,
    cs: Seq<CustomFunction>,
    j: int,
)
    requires
        registered_index(before, after, cs, registrations(cs)),
        0 <= j < registrations(cs).len(),
    ensures
        ({
            let regs = registrations(cs);
            let k = lowercase_key(regs[j].0);
            let l = last_reg(regs, k);
            &&& after.contains_key(k)
            &&& j <= l < regs.len()
            &&& lowercase_key(regs[l].0) == k
            &&& function_for(*after[k], cs[regs[l].1], regs[l].0)
        }),
{
    let regs = registrations(cs);
    let k = lowercase_key(regs[j].0);
    lemma_last_reg_after(regs, j);
    lemma_last_reg_bounds(regs, k);
}

/// After the functions of a file are removed, none of the names recorded
/// for it is found.
pub proof fn law_removed_names_gone(m: Map<Seq<char>, Arc<Function>>, names: Seq<Seq<char>>, i: int)
    requires
        0 <= i < names.len(),
    ensures
        !without_names(m, names).contains_key(lowercase_key(names[i])),
    decreases names.len(),
{
    if i < names.len() - 1 {
        assert(names.drop_last()[i] == names[i]);
        law_removed_names_gone(m, names.drop_last(), i);
    }
}

/// A URL that is not a `github:` shorthand is left as it is.
pub proof fn law_plain_url_unchanged(b: Seq<u8>)
    requires
        !has_prefix(b, vstd::utf8::encode_utf8("github:"@)),
    ensures
        spec_resolve_github_shorthand(b) == b,
{
}

/// Resolving a URL twice gives what resolving it once gives: a resolved
/// shorthand is a `https:` URL, which is left as it is.
pub proof fn law_resolve_idempotent(b: Seq<u8>)
    ensures
        spec_resolve_github_shorthand(spec_resolve_github_shorthand(b)) == spec_resolve_github_shorthand(b),
{
    let r = spec_resolve_github_shorthand(b);
    let gh = vstd::utf8::encode_utf8("github:"@);
    if r != b {
        reveal_strlit("github:");
        reveal_strlit("https://raw.githubusercontent.com/");
        let https = vstd::utf8::encode_utf8("https://raw.githubusercontent.com/"@);
        assert(vstd::utf8::is_ascii_chars("github:"@));
        assert(vstd::utf8::is_ascii_chars("https://raw.githubusercontent.com/"@));
        vstd::utf8::is_ascii_chars_encode_utf8("github:"@);
        vstd::utf8::is_ascii_chars_encode_utf8("https://raw.githubusercontent.com/"@);
        assert("github:"@[0] == 'g');
        assert("https://raw.githubusercontent.com/"@[0] == 'h');
        assert(gh[0] == 0x67u8);
        assert(https[0] == 0x68u8);
        assert(r[0] == https[0]);
        if has_prefix(r, gh) {
            assert(r.subrange(0, gh.len() as int)[0] == gh[0]);
        }
    }
}

// ---------------------------------------------------------------------------
// Offsets and positions
// ---------------------------------------------------------------------------

/// Characters start at strictly increasing byte offsets.
proof fn lemma_offsets_increase(cs: Seq<char>, k: int, n: int)
    requires
        0 <= k < n <= cs.len(),
    ensures
        byte_offset(cs, k) < byte_offset(cs, n),
    decreases n - k,
{
    crate::chars::lemma_byte_offset_step(cs, n - 1);
    vstd::utf8::char_is_scalar(cs[n - 1]);
    if k < n - 1 {
        lemma_offsets_increase(cs, k, n - 1);
    }
}

/// The characters that start before the offset of the `n`-th are the first `n`.
proof fn lemma_chars_before_offset(cs: Seq<char>, n: int, k: int)
    requires
        0 <= k <= n <= cs.len(),
    ensures
        chars_before_from(cs, byte_offset(cs, n), k) == n,
    decreases n - k,
{
    if k < n {
        lemma_offsets_increase(cs, k, n);
        lemma_chars_before_offset(cs, n, k + 1);
    }
}

/// Within one line, columns grow strictly and no newline is crossed.
proof fn lemma_same_line(cs: Seq<char>, k: int, n: int)
    requires
        0 <= k < n <= cs.len(),
        line_col_after(cs, k).0 == line_col_after(cs, n).0,
    ensures
        line_col_after(cs, k).1 < line_col_after(cs, n).1,
        cs[k] != '\n',
    decreases n - k,
{
    lemma_line_col_mono(cs, k, n - 1);
    lemma_line_col_mono(cs, n - 1, n);
    if k < n - 1 {
        lemma_same_line(cs, k, n - 1);
    }
}

/// The scan state of `position_to_offset` after reading `k` characters,
/// while looking for line `l`: the line reached, the column when on line
/// `l` (0 elsewhere), and whether a line starts there.
pub open spec fn scan_col(cs: Seq<char>, l: int, k: int) -> int {
    if line_col_after(cs, k).0 == l {
        line_col_after(cs, k).1
    } else {
        0
    }
}

pub open spec fn scan_fresh(cs: Seq<char>, k: int) -> bool {
    k == 0 || cs[k - 1] == '\n'
}

/// Reading up to the `n`-th character, the scan for its line and column
/// passes through the states above without stopping early, and never
/// overflows its column.
proof fn lemma_scan_to(cs: Seq<char>, n: int, k: int)
    requires
        0 <= k <= n <= cs.len(),
        line_col_fits(cs, cs.len() as int),
    ensures
        spec_position_to_offset(cs, line_col_after(cs, n).0 as u32, line_col_after(cs, n).1 as u32) == pto_scan(
            cs,
            line_col_after(cs, n).0 as u32,
            line_col_after(cs, n).1 as u32,
            k,
            line_col_after(cs, k).0,
            scan_col(cs, line_col_after(cs, n).0, k),
            scan_fresh(cs, k),
        ),
    decreases k,
{
    let l = line_col_after(cs, n).0;
    let c = line_col_after(cs, n).1;
    lemma_line_col_nonneg(cs, n);
    if k > 0 {
        lemma_scan_to(cs, n, k - 1);
        let j = k - 1;
        lemma_line_col_nonneg(cs, j);
        lemma_line_col_mono(cs, j, n);
        lemma_line_col_mono(cs, j, k);
        assert(line_col_after(cs, j).0 <= u32::MAX);
        if line_col_after(cs, j).0 == l {
            lemma_same_line(cs, j, n);
        }
    } else {
        assert(line_col_after(cs, 0) == (0int, 0int));
    }
}

proof fn lemma_fits_from(cs: Seq<char>, n: int, k: int)
    requires
        0 <= k <= n <= cs.len(),
        line_col_fits(cs, cs.len() as int),
    ensures
        pto_fits(
            cs,
            line_col_after(cs, n).0 as u32,
            line_col_after(cs, n).1 as u32,
            k,
            line_col_after(cs, k).0,
            scan_col(cs, line_col_after(cs, n).0, k),
        ),
    decreases n - k,
{
    let l = line_col_after(cs, n).0;
    lemma_line_col_nonneg(cs, n);
    lemma_line_col_nonneg(cs, k);
    lemma_line_col_mono(cs, k, n);
    if k < n {
        lemma_fits_from(cs, n, k + 1);
        lemma_line_col_mono(cs, k, k + 1);
        lemma_line_col_mono(cs, k + 1, n);
        assert(line_col_after(cs, k + 1).1 <= u32::MAX);
        if line_col_after(cs, k).0 == l {
            lemma_same_line(cs, k, n);
        }
    }
}

/// Converting a character offset of a text to a position and back gives the
/// offset again, for every character and for the end of a text that does not
/// end in a newline, when the text's lines and columns fit in `u32`s (the
/// width of an editor position's line and character); and the conversion
/// back can be made.
pub proof fn law_position_round_trip(cs: Seq<char>, n: int)
    requires
        line_col_fits(cs, cs.len() as int),
        0 <= n < cs.len() || (n == cs.len() && cs.len() > 0 && cs.last() != '\n'),
    ensures
        ({
            let o = byte_offset(cs, n);
            let (l, c) = line_col_after(cs, chars_before(cs, o));
            &&& position_fits(cs, l as u32, c as u32)
            &&& spec_position_to_offset(cs, l as u32, c as u32) == Some(o)
        }),
{
    lemma_chars_before_offset(cs, n, 0);
    lemma_scan_to(cs, n, n);
    lemma_fits_from(cs, n, 0);
    lemma_line_col_nonneg(cs, n);
    assert(line_col_after(cs, 0) == (0int, 0int));
    if n == cs.len() {
        assert(cs.take(n) =~= cs);
    }
}


/// The position a relative token leads to from line `l`, column `c`.
pub open spec fn rel_step(l: int, c: int, t: SemanticToken) -> (int, int) {
    if t.delta_line == 0 {
        (l, c + t.delta_start)
    } else {
        (l + t.delta_line, t.delta_start as int)
    }
}

/// The absolute position of token `j` of a relative encoding read from line
/// `l`, column `c`.
pub open spec fn rel_decode(ts: Seq<SemanticToken>, l: int, c: int, j: int) -> (int, int)
    decreases ts.len(),
{
    if ts.len() == 0 {
        (l, c)
    } else {
        let (l1, c1) = rel_step(l, c, ts[0]);
        if j <= 0 {
            (l1, c1)
        } else {
            rel_decode(ts.drop_first(), l1, c1, j - 1)
        }
    }
}

/// Tokens in order of their starts, each on one line.
pub open spec fn one_line_in_order(found: Seq<(usize, usize, u32)>, cs: Seq<char>) -> bool {
    &&& forall|k: int| 0 <= k < found.len() ==> (#[trigger] found[k]).0 <= found[k].1 && pos_line(cs, found[k].0 as int)
        == pos_line(cs, found[k].1 as int)
    &&& forall|k: int, q: int| 0 <= k < q < found.len() ==> (#[trigger] found[k]).0 <= (#[trigger] found[q]).0
}

proof fn lemma_pos_fits(cs: Seq<char>, o: int)
    requires
        line_col_fits(cs, cs.len() as int),
    ensures
        0 <= pos_line(cs, o) <= u32::MAX,
        0 <= pos_col(cs, o) <= u32::MAX,
{
    crate::position::lemma_chars_before_bounds(cs, o, 0);
    lemma_line_col_nonneg(cs, chars_before(cs, o));
    assert(line_col_after(cs, chars_before(cs, o)).0 <= u32::MAX);
}

proof fn lemma_rel_round_trip(found: Seq<(usize, usize, u32)>, cs: Seq<char>, k: int, ll: u32, lc: u32)
    requires
        line_col_fits(cs, cs.len() as int),
        one_line_in_order(found, cs),
        0 <= k <= found.len(),
        k < found.len() ==> ll < pos_line(cs, found[k].0 as int) || (ll == pos_line(cs, found[k].0 as int) && lc
            <= pos_col(cs, found[k].0 as int)),
    ensures
        rel_tokens(found, cs, k, ll, lc).len() == found.len() - k,
        forall|j: int|
            0 <= j < found.len() - k ==> #[trigger] rel_decode(rel_tokens(found, cs, k, ll, lc), ll as int, lc as int, j)
                == (pos_line(cs, found[k + j].0 as int), pos_col(cs, found[k + j].0 as int)),
    decreases found.len() - k,
{
    if k < found.len() {
        let (s, e, tt) = found[k];
        lemma_pos_fits(cs, s as int);
        lemma_pos_fits(cs, e as int);
        let sl = pos_line(cs, s as int) as u32;
        let sc = pos_col(cs, s as int) as u32;
        if k + 1 < found.len() {
            assert(found[k].0 <= found[k + 1].0);
            lemma_pos_order(cs, s as int, found[k + 1].0 as int);
        }
        lemma_rel_round_trip(found, cs, k + 1, sl, sc);
        let rest = rel_tokens(found, cs, k + 1, sl, sc);
        let ts = rel_tokens(found, cs, k, ll, lc);
        assert(ts.drop_first() =~= rest);
        assert forall|j: int| 0 <= j < found.len() - k implies #[trigger] rel_decode(ts, ll as int, lc as int, j) == (
            pos_line(cs, found[k + j].0 as int),
            pos_col(cs, found[k + j].0 as int),
        ) by {
            if j > 0 {
                assert(rel_decode(rest, sl as int, sc as int, j - 1) == (
                    pos_line(cs, found[k + 1 + (j - 1)].0 as int),
                    pos_col(cs, found[k + 1 + (j - 1)].0 as int),
                ));
            }
        }
    }
}

/// Reading the relative tokens of tokens that each lie on one line, in order
/// of their starts, back from the start of the text gives each token's line
/// and column: one relative token per token.
pub proof fn law_relative_tokens_round_trip(found: Seq<(usize, usize, u32)>, cs: Seq<char>)
    requires
        line_col_fits(cs, cs.len() as int),
        one_line_in_order(found, cs),
    ensures
        rel_tokens(found, cs, 0, 0, 0).len() == found.len(),
        forall|j: int|
            0 <= j < found.len() ==> #[trigger] rel_decode(rel_tokens(found, cs, 0, 0, 0), 0, 0, j) == (
                pos_line(cs, found[j].0 as int),
                pos_col(cs, found[j].0 as int),
            ),
{
    if found.len() > 0 {
        lemma_pos_fits(cs, found[0].0 as int);
    }
    lemma_rel_round_trip(found, cs, 0, 0, 0);
    assert forall|j: int| 0 <= j < found.len() implies #[trigger] rel_decode(rel_tokens(found, cs, 0, 0, 0), 0, 0, j) == (
        pos_line(cs, found[j].0 as int),
        pos_col(cs, found[j].0 as int),
    ) by {
        assert(found[0 + j] == found[j]);
    }
}

/// In a text without backslashes, a `[` opens a call in an argument text
/// exactly when it opens one in code.
pub proof fn law_call_bracket_without_backslashes(b: Seq<u8>, k: int)
    requires
        forall|i: int| 0 <= i < b.len() ==> b[i] != crate::text::byte_backslash(),
    ensures
        crate::parser::spec_is_call_bracket_in_args(b, k) == crate::text::spec_is_function_call_bracket(b, k),
{
    if 0 < k < b.len() && b[k] == crate::text::byte_open() {
        crate::text::lemma_ident_back_bounds(b, k);
        crate::text::lemma_mods_back_bounds(b, crate::text::ident_back(b, k));
        if let Some(i) = crate::text::mods_back(b, crate::text::ident_back(b, k)) {
            if i > 1 {
                assert(b[i - 2] != crate::text::byte_backslash());
            }
            if i > 0 {
                assert(crate::text::backslashes_before(b, i - 1) == 0);
            }
        }
    }
}

/// The argument scan run from state `st` over the first `n` characters of `s`.
pub open spec fn param_run(st: crate::position::ParamScan, s: Seq<char>, n: int) -> crate::position::ParamScan
    decreases n,
{
    if n <= 0 || n > s.len() {
        st
    } else {
        crate::position::param_step(param_run(st, s, n - 1), s[n - 1])
    }
}

proof fn lemma_param_prefix(a: Seq<char>, s: Seq<char>, m: int)
    requires
        0 <= m <= a.len(),
    ensures
        crate::position::param_state(a + s, m) == crate::position::param_state(a, m),
    decreases m,
{
    if m > 0 {
        lemma_param_prefix(a, s, m - 1);
        assert((a + s)[m - 1] == a[m - 1]);
    }
}

proof fn lemma_param_append(a: Seq<char>, s: Seq<char>, n: int)
    requires
        0 <= n <= s.len(),
    ensures
        crate::position::param_state(a + s, a.len() + n) == param_run(crate::position::param_state(a, a.len() as int), s, n),
    decreases n,
{
    if n == 0 {
        lemma_param_prefix(a, s, a.len() as int);
    } else {
        lemma_param_append(a, s, n - 1);
        assert((a + s)[a.len() + n - 1] == s[n - 1]);
    }
}

proof fn lemma_param_quoted(st: crate::position::ParamScan, q: Seq<char>, n: int)
    requires
        !st.2 && !st.3 && !st.4,
        !q.contains('"'),
        !q.contains('\\'),
        0 <= n <= q.len() + 2,
    ensures
        ({
            let w = seq!['"'] + q + seq!['"'];
            let inside = if st.5 { st } else { (st.0, st.1, false, true, false, false) };
            &&& 1 <= n <= q.len() + 1 ==> param_run(st, w, n) == inside
            &&& n == q.len() + 2 ==> param_run(st, w, n) == st
        }),
    decreases n,
{
    let w = seq!['"'] + q + seq!['"'];
    if n > 0 {
        lemma_param_quoted(st, q, n - 1);
        if 2 <= n <= q.len() + 1 {
            assert(w[n - 1] == q[n - 2]);
            assert(q.contains(q[n - 2]));
        }
    }
}

/// Separators inside a double-quoted stretch do not count: after a prefix
/// that ends outside quotes and escapes, inserting `"`, text without a
/// double quote or backslash, and `"` leaves the argument scan (and so the
/// active argument index) as it was.
pub proof fn law_quoted_separators_ignored(p: Seq<char>, q: Seq<char>, s: Seq<char>)
    requires
        !crate::position::param_state(p, p.len() as int).2,
        !crate::position::param_state(p, p.len() as int).3,
        !crate::position::param_state(p, p.len() as int).4,
        !q.contains('"'),
        !q.contains('\\'),
    ensures
        crate::position::param_state(
            p + seq!['"'] + q + seq!['"'] + s,
            (p.len() + q.len() + 2 + s.len()) as int,
        ) == crate::position::param_state(p + s, (p.len() + s.len()) as int),
        crate::position::param_state(p + seq!['"'] + q + seq!['"'] + s, (p.len() + q.len() + 2 + s.len()) as int).0
            == crate::position::param_state(p + s, (p.len() + s.len()) as int).0,
{
    let w = seq!['"'] + q + seq!['"'];
    let pw = p + w;
    assert(p + seq!['"'] + q + seq!['"'] =~= pw);
    assert(p + seq!['"'] + q + seq!['"'] + s =~= pw + s);
    let st = crate::position::param_state(p, p.len() as int);
    lemma_param_append(p, w, w.len() as int);
    lemma_param_quoted(st, q, w.len() as int);
    assert(crate::position::param_state(pw, pw.len() as int) == st);
    lemma_param_append(pw, s, s.len() as int);
    lemma_param_append(p, s, s.len() as int);
}

/// Required arguments among the first `k`, counted by filtering.
proof fn lemma_required_count_filter(args: Seq<Arg>, k: int)
    requires
        0 <= k <= args.len(),
    ensures
        crate::parser::required_count(args, k) == args.take(k).filter(|a: Arg| a.required == Some(true)).len(),
    decreases k,
{
    let pred = |a: Arg| a.required == Some(true);
    if k == 0 {
        assert(args.take(0) =~= Seq::<Arg>::empty());
        reveal(Seq::filter);
    } else {
        lemma_required_count_filter(args, k - 1);
        assert(args.take(k) =~= args.take(k - 1).push(args[k - 1]));
        args.take(k - 1).lemma_filter_push(args[k - 1], pred);
    }
}

/// The fewest arguments a function accepts is the number of its arguments
/// marked required (`Some(true)`), and a call that supplies at least those
/// and at most all of its arguments gets no argument-count report.
pub proof fn law_required_arguments_bound_the_count(
    meta: Function,
    name: Seq<char>,
    tot: int,
    s: int,
    e: int,
)
    requires
        meta.args is Some,
        meta.args->0@.filter(|a: Arg| a.required == Some(true)).len() <= tot <= meta.args->0@.len(),
    ensures
        crate::parser::arg_bounds(meta).0 == meta.args->0@.filter(|a: Arg| a.required == Some(true)).len(),
        crate::parser::count_diags(
            name,
            tot,
            crate::parser::arg_bounds(meta).0,
            crate::parser::arg_bounds(meta).1,
            crate::parser::has_rest(meta.args),
            s,
            e,
        ) == Seq::<(Seq<char>, int, int)>::empty(),
{
    let v = meta.args->0@;
    lemma_required_count_filter(v, v.len() as int);
    assert(v.take(v.len() as int) =~= v);
}

/// Past the last argument, a rest argument with a fixed set of values still
/// applies: the completions at a cursor in such a call are exactly those
/// values.
pub proof fn law_rest_argument_completions(
    r: Option<crate::features::CompletionList>,
    cs: Seq<char>,
    position: crate::position::Position,
    m: Map<Seq<char>, Arc<Function>>,
    enums: Map<Seq<char>, Seq<Seq<char>>>,
    listing: Seq<Arc<Function>>,
    f: Arc<Function>,
    index: int,
    vals: Seq<Seq<char>>,
)
    requires
        crate::features::signature_target(cs, position, m) == Some((f, index)),
        f.args is Some,
        f.args->0@.len() > 0,
        index >= f.args->0@.len(),
        f.args->0@.last().rest,
        crate::features::arg_choices(f.args->0@.last(), enums) == Some(vals),
        crate::features::completion_result(r, cs, position, m, enums, listing),
    ensures
        r matches Some(l) && crate::features::enum_items(l.items@, vals, f.args->0@.last().name@),
{
}

/// A known function written with a bracket: at a `$` whose name (after the
/// modifiers) is exactly an indexed name followed by `[`, the call found
/// runs from the `$` to the `[`.
pub proof fn law_bracketed_known_call_found(
    m: Map<Seq<char>, Arc<Function>>,
    b: Seq<u8>,
    cp: Seq<(usize, char)>,
    idx: int,
)
    requires
        0 <= idx < cp.len(),
        crate::semantic::mods_skip(b, cp, idx + 1) < cp.len(),
        crate::semantic::name_run(cp, crate::semantic::mods_skip(b, cp, idx + 1)) < cp.len(),
        cp[crate::semantic::name_run(cp, crate::semantic::mods_skip(b, cp, idx + 1))].1 == '[',
        m.contains_key(
            lowercase_key(
                seq!['$'] + vstd::utf8::decode_utf8(
                    b.subrange(
                        cp[crate::semantic::mods_skip(b, cp, idx + 1)].0 as int,
                        cp[crate::semantic::name_run(cp, crate::semantic::mods_skip(b, cp, idx + 1))].0 as int,
                    ),
                ),
            ),
        ),
    ensures
        crate::semantic::spec_metadata_function(m, b, cp, idx) == Some(
            (
                cp[crate::semantic::name_run(cp, crate::semantic::mods_skip(b, cp, idx + 1))].0 - cp[idx].0,
                crate::semantic::name_run(cp, crate::semantic::mods_skip(b, cp, idx + 1)) - idx,
            ),
        ),
{
}

/// A flag captured as the text `true` reads as `Some(true)`, one captured as
/// `false` as `Some(false)`, and only the text `true` reads as true; a flag
/// not written reads as `None`.
pub proof fn law_flags_read_as_written(t: Seq<char>)
    ensures
        crate::js::flag_of(Some("true"@)) == Some(true),
        crate::js::flag_of(Some("false"@)) == Some(false),
        crate::js::flag_of(Some(t)) == Some(true) ==> t == "true"@,
        crate::js::flag_of(Some(t)) is Some,
        crate::js::flag_of(None) is None,
{
    reveal_strlit("true");
    reveal_strlit("false");
    assert("true"@ != "false"@) by {
        assert("true"@[0] != "false"@[0]);
    }
}

proof fn lemma_param_single_quoted(st: crate::position::ParamScan, q: Seq<char>, n: int)
    requires
        !st.2 && !st.3 && !st.4,
        !q.contains('\''),
        !q.contains('\\'),
        0 <= n <= q.len() + 2,
    ensures
        ({
            let w = seq!['\''] + q + seq!['\''];
            let inside = if st.5 { st } else { (st.0, st.1, true, false, false, false) };
            &&& 1 <= n <= q.len() + 1 ==> param_run(st, w, n) == inside
            &&& n == q.len() + 2 ==> param_run(st, w, n) == st
        }),
    decreases n,
{
    let w = seq!['\''] + q + seq!['\''];
    assert(w[0] == '\'');
    assert(w[q.len() + 1int] == '\'');
    if n > 0 {
        lemma_param_single_quoted(st, q, n - 1);
        if 2 <= n <= q.len() + 1 {
            assert(w[n - 1] == q[n - 2]);
            assert(q.contains(q[n - 2]));
        }
    }
}

/// Separators inside a single-quoted stretch do not count either.
pub proof fn law_single_quoted_separators_ignored(p: Seq<char>, q: Seq<char>, s: Seq<char>)
    requires
        !crate::position::param_state(p, p.len() as int).2,
        !crate::position::param_state(p, p.len() as int).3,
        !crate::position::param_state(p, p.len() as int).4,
        !q.contains('\''),
        !q.contains('\\'),
    ensures
        crate::position::param_state(p + seq!['\''] + q + seq!['\''] + s, (p.len() + q.len() + 2 + s.len()) as int)
            == crate::position::param_state(p + s, (p.len() + s.len()) as int),
{
    let w = seq!['\''] + q + seq!['\''];
    let pw = p + w;
    assert(p + seq!['\''] + q + seq!['\''] =~= pw);
    assert(p + seq!['\''] + q + seq!['\''] + s =~= pw + s);
    let st = crate::position::param_state(p, p.len() as int);
    lemma_param_append(p, w, w.len() as int);
    lemma_param_single_quoted(st, q, w.len() as int);
    lemma_param_append(pw, s, s.len() as int);
    lemma_param_append(p, s, s.len() as int);
}

/// A backslash hides the character after it: outside an escape, inserting a
/// backslash and any one character leaves the argument scan as it was.
pub proof fn law_escaped_character_ignored(p: Seq<char>, c: char, s: Seq<char>)
    requires
        !crate::position::param_state(p, p.len() as int).4,
    ensures
        crate::position::param_state(p + seq!['\\', c] + s, (p.len() + 2 + s.len()) as int)
            == crate::position::param_state(p + s, (p.len() + s.len()) as int),
{
    let w = seq!['\\', c];
    assert(p + seq!['\\', c] + s =~= (p + w) + s);
    lemma_param_append(p, w, 2);
    let st = crate::position::param_state(p, p.len() as int);
    assert(w[0] == '\\' && w[1] == c);
    assert(param_run(st, w, 0) == st);
    assert(param_run(st, w, 1) == crate::position::param_step(st, '\\'));
    assert(param_run(st, w, 2) == crate::position::param_step(param_run(st, w, 1), c));
    assert(param_run(st, w, 2) == st);
    lemma_param_append(p + w, s, s.len() as int);
    lemma_param_append(p, s, s.len() as int);
}

proof fn lemma_param_done_run(st: crate::position::ParamScan, s: Seq<char>, n: int)
    requires
        st.5,
        0 <= n <= s.len(),
    ensures
        param_run(st, s, n) == st,
    decreases n,
{
    if n > 0 {
        lemma_param_done_run(st, s, n - 1);
    }
}

/// An unmatched `]` outside quotes ends the call: nothing after it changes
/// the active argument index.
pub proof fn law_unmatched_bracket_ends_call(p: Seq<char>, s: Seq<char>)
    requires
        !crate::position::param_state(p, p.len() as int).2,
        !crate::position::param_state(p, p.len() as int).3,
        !crate::position::param_state(p, p.len() as int).4,
        crate::position::param_state(p, p.len() as int).1 == 0,
    ensures
        crate::position::param_state(p + seq![']'] + s, (p.len() + 1 + s.len()) as int).0
            == crate::position::param_state(p, p.len() as int).0,
{
    let pw = p + seq![']'];
    lemma_param_append(p, seq![']'], 1);
    let st = crate::position::param_state(p, p.len() as int);
    let st1 = crate::position::param_state(pw, pw.len() as int);
    assert(seq![']'][0] == ']');
    assert(param_run(st, seq![']'], 0) == st);
    assert(st1 == crate::position::param_step(st, ']'));
    assert(st1.5 && st1.0 == st.0);
    assert(p + seq![']'] + s =~= pw + s);
    lemma_param_append(pw, s, s.len() as int);
    lemma_param_done_run(st1, s, s.len() as int);
}

/// The argument-count report of a call with `tot` arguments: fewer than the
/// arguments marked required gives an "at least" report; without a rest
/// argument, more than all arguments gives an "at most" report; anything in
/// between gives none.
pub proof fn law_argument_count_reports(meta: Function, name: Seq<char>, tot: int, s: int, e: int)
    requires
        meta.args is Some,
        tot >= 0,
    ensures
        ({
            let v = meta.args->0@;
            let req = v.filter(|a: Arg| a.required == Some(true)).len();
            let rest = exists|i: int| 0 <= i < v.len() && (#[trigger] v[i]).rest;
            crate::parser::count_diags(
                name,
                tot,
                crate::parser::arg_bounds(meta).0,
                crate::parser::arg_bounds(meta).1,
                crate::parser::has_rest(meta.args),
                s,
                e,
            ) == if tot < req {
                seq![(crate::parser::arg_count_message(name, true, req as nat, tot as nat), s, e)]
            } else if !rest && tot > v.len() {
                seq![(crate::parser::arg_count_message(name, false, v.len() as nat, tot as nat), s, e)]
            } else {
                Seq::<(Seq<char>, int, int)>::empty()
            }
        }),
{
    let v = meta.args->0@;
    lemma_required_count_filter(v, v.len() as int);
    assert(v.take(v.len() as int) =~= v);
}

/// Before the last argument, the completions offer the values of the
/// argument at the cursor's index.
pub proof fn law_indexed_argument_completions(
    r: Option<crate::features::CompletionList>,
    cs: Seq<char>,
    position: crate::position::Position,
    m: Map<Seq<char>, Arc<Function>>,
    enums: Map<Seq<char>, Seq<Seq<char>>>,
    listing: Seq<Arc<Function>>,
    f: Arc<Function>,
    index: int,
    vals: Seq<Seq<char>>,
)
    requires
        crate::features::signature_target(cs, position, m) == Some((f, index)),
        f.args is Some,
        0 <= index < f.args->0@.len(),
        crate::features::arg_choices(f.args->0@[index], enums) == Some(vals),
        crate::features::completion_result(r, cs, position, m, enums, listing),
    ensures
        r matches Some(l) && crate::features::enum_items(l.items@, vals, f.args->0@[index].name@),
{
}

/// Past the last argument, when that argument is not a rest argument, no
/// argument values are offered.
pub proof fn law_no_values_past_the_end(
    cs: Seq<char>,
    position: crate::position::Position,
    m: Map<Seq<char>, Arc<Function>>,
    enums: Map<Seq<char>, Seq<Seq<char>>>,
    f: Arc<Function>,
    index: int,
)
    requires
        crate::features::signature_target(cs, position, m) == Some((f, index)),
        f.args is Some,
        index >= f.args->0@.len(),
        f.args->0@.len() == 0 || !f.args->0@.last().rest,
    ensures
        crate::features::enum_completion(cs, position, m, enums) is None,
{
}

/// A name followed by `[` that is not an indexed name is no known call:
/// with a bracket, only the whole name counts.
pub proof fn law_bracketed_unknown_call_not_found(
    m: Map<Seq<char>, Arc<Function>>,
    b: Seq<u8>,
    cp: Seq<(usize, char)>,
    idx: int,
)
    requires
        0 <= idx < cp.len(),
        crate::semantic::mods_skip(b, cp, idx + 1) < cp.len(),
        crate::semantic::name_run(cp, crate::semantic::mods_skip(b, cp, idx + 1)) < cp.len(),
        cp[crate::semantic::name_run(cp, crate::semantic::mods_skip(b, cp, idx + 1))].1 == '[',
        !m.contains_key(
            lowercase_key(
                seq!['$'] + vstd::utf8::decode_utf8(
                    b.subrange(
                        cp[crate::semantic::mods_skip(b, cp, idx + 1)].0 as int,
                        cp[crate::semantic::name_run(cp, crate::semantic::mods_skip(b, cp, idx + 1))].0 as int,
                    ),
                ),
            ),
        ),
    ensures
        crate::semantic::spec_metadata_function(m, b, cp, idx) is None,
{
}

} // verus!
