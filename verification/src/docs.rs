//! Markdown documentation of a function, as hover and completion show it.

use vstd::prelude::*;
use crate::function::{arg_label_list, arg_labels, join_strings, seq_join, signature_text, Function};
use crate::metadata::names_view;
use crate::strings::{push_char, push_str, to_owned};

verus! {

/// `hay` holds `needle` somewhere.
pub open spec fn has_infix(hay: Seq<char>, needle: Seq<char>) -> bool {
    exists|i: int| 0 <= i && i + needle.len() <= hay.len() && #[trigger] hay.subrange(i, i + needle.len()) == needle
}

/// Whether `hay` contains `needle`.
pub fn contains_str(hay: &str, needle: &str) -> (r: bool)
    ensures
        r == has_infix(hay@, needle@),
{
    let h = crate::trie::chars_of(hay);
    let n = crate::trie::chars_of(needle);
    if n.len() > h.len() {
        proof {
            assert(!has_infix(hay@, needle@));
        }
        return false;
    }
    let mut i: usize = 0;
    while i <= h.len() - n.len()
        invariant
            h@ == hay@,
            n@ == needle@,
            n@.len() <= h@.len(),
            i <= h@.len() - n@.len() + 1,
            forall|k: int| 0 <= k < i ==> #[trigger] h@.subrange(k, k + n@.len()) != n@,
        decreases h@.len() - i,
    {
        let mut j: usize = 0;
        let mut same = true;
        while j < n.len()
            invariant
                h@ == hay@,
                n@ == needle@,
                i + n@.len() <= h@.len(),
                j <= n@.len(),
                same == forall|q: int| 0 <= q < j ==> h@[i + q] == n@[q],
            decreases n@.len() - j,
        {
            let hl = h.len();
            assert(i + j < hl);
            if h[i + j] != n[j] {
                same = false;
            }
            j = j + 1;
        }
        if same {
            assert(h@.subrange(i as int, i + n@.len()) =~= n@);
            return true;
        }
        proof {
            let q = choose|q: int| 0 <= q < n@.len() && h@[i + q] != n@[q];
            assert(h@.subrange(i as int, i + n@.len())[q] != n@[q]);
        }
        i = i + 1;
    }
    proof {
        if has_infix(hay@, needle@) {
            let k = choose|k: int| 0 <= k && k + needle@.len() <= hay@.len() && #[trigger] hay@.subrange(k, k + needle@.len()) == needle@;
            assert(k < i);
        }
    }
    false
}

/// The first `/` of `cs`, if any.
pub open spec fn first_slash(cs: Seq<char>, k: int) -> int
    decreases cs.len() - k,
{
    if 0 <= k < cs.len() && cs[k] != '/' {
        first_slash(cs, k + 1)
    } else {
        k
    }
}

/// The pieces of `cs` from index `k` on, between `/` characters.
pub open spec fn pieces_from(cs: Seq<char>, k: int) -> Seq<Seq<char>>
    decreases cs.len() - k,
{
    let e = first_slash(cs, k);
    if 0 <= k <= e < cs.len() {
        seq![cs.subrange(k, e)] + pieces_from(cs, e + 1)
    } else {
        seq![cs.subrange(k, cs.len() as int)]
    }
}

/// What `str::split('/')` yields.
pub open spec fn url_parts(cs: Seq<char>) -> Seq<Seq<char>> {
    pieces_from(cs, 0)
}

pub proof fn lemma_first_slash(cs: Seq<char>, k: int)
    requires
        0 <= k <= cs.len(),
    ensures
        k <= first_slash(cs, k) <= cs.len(),
        first_slash(cs, k) < cs.len() ==> cs[first_slash(cs, k)] == '/',
    decreases cs.len() - k,
{
    if k < cs.len() && cs[k] != '/' {
        lemma_first_slash(cs, k + 1);
    }
}

/// The pieces of a URL between `/` characters.
pub fn split_slashes(url: &str) -> (r: Vec<String>)
    ensures
        names_view(r@) == url_parts(url@),
{
    let cs = crate::trie::chars_of(url);
    let mut out: Vec<String> = Vec::new();
    let mut k: usize = 0;
    let mut piece = String::new();
    let mut i: usize = 0;
    while i < cs.len()
        invariant
            cs@ == url@,
            k <= i <= cs@.len(),
            forall|q: int| k <= q < i ==> cs@[q] != '/',
            piece@ == cs@.subrange(k as int, i as int),
            names_view(out@) + pieces_from(cs@, k as int) == url_parts(cs@),
            first_slash(cs@, k as int) == first_slash(cs@, i as int),
        decreases cs@.len() - i,
    {
        if cs[i] == '/' {
            proof {
                lemma_first_slash(cs@, k as int);
                assert(first_slash(cs@, i as int) == i);
                assert(pieces_from(cs@, k as int) == seq![cs@.subrange(k as int, i as int)] + pieces_from(cs@, i + 1));
            }
            let ghost before = out@;
            out.push(piece);
            proof {
                assert(names_view(out@) =~= names_view(before) + seq![cs@.subrange(k as int, i as int)]);
            }
            piece = String::new();
            k = i + 1;
            proof {
                assert(piece@ =~= cs@.subrange(k as int, k as int));
            }
        } else {
            push_char(&mut piece, cs[i]);
            proof {
                assert(piece@ =~= cs@.subrange(k as int, i + 1));
            }
        }
        i = i + 1;
    }
    let ghost before = out@;
    out.push(piece);
    proof {
        assert(pieces_from(cs@, k as int) == seq![cs@.subrange(k as int, cs@.len() as int)]);
        assert(names_view(out@) =~= names_view(before) + seq![cs@.subrange(k as int, cs@.len() as int)]);
    }
    out
}

/// The repository link of a function fetched from GitHub: the owner and
/// repository are the fourth and fifth pieces of its raw-content URL.
pub open spec fn repo_parts(f: Function) -> Option<(Seq<char>, Seq<char>)> {
    match f.source_url {
        Some(u) => if has_infix(u@, "githubusercontent.com"@) && url_parts(u@).len() >= 5 {
            Some((url_parts(u@)[3], url_parts(u@)[4]))
        } else {
            None
        },
        None => None,
    }
}

/// The links shown under a function's documentation: its repository (with
/// the given label) and its documentation page.
pub open spec fn doc_links(f: Function, repo_label: Seq<char>) -> Seq<Seq<char>> {
    let repo = match repo_parts(f) {
        Some((owner, name)) => seq!["["@ + repo_label + "](https://github.com/"@ + owner + "/"@ + name + ")"@],
        None => Seq::empty(),
    };
    let docs = match f.extension {
        Some(e) => seq!["[Documentation](https://docs.botforge.org/function/"@ + f.name@ + "?p="@ + e@ + ")"@],
        None => Seq::empty(),
    };
    repo + docs
}

/// Builds the links under a function's documentation.
pub fn doc_link_list(f: &Function, repo_label: &str) -> (r: Vec<String>)
    ensures
        names_view(r@) == doc_links(*f, repo_label@),
{
    let mut links: Vec<String> = Vec::new();
    match &f.source_url {
        Some(url) => {
            if contains_str(url.as_str(), "githubusercontent.com") {
                let parts = split_slashes(url.as_str());
                if parts.len() >= 5 {
                    let mut link = to_owned("[");
                    push_str(&mut link, repo_label);
                    push_str(&mut link, "](https://github.com/");
                    push_str(&mut link, parts[3].as_str());
                    push_str(&mut link, "/");
                    push_str(&mut link, parts[4].as_str());
                    push_str(&mut link, ")");
                    links.push(link);
                }
            }
        },
        None => {},
    }
    match &f.extension {
        Some(e) => {
            let mut link = to_owned("[Documentation](https://docs.botforge.org/function/");
            push_str(&mut link, f.name.as_str());
            push_str(&mut link, "?p=");
            push_str(&mut link, e.as_str());
            push_str(&mut link, ")");
            links.push(link);
        },
        None => {},
    }
    proof {
        assert(names_view(links@) =~= doc_links(*f, repo_label@));
    }
    links
}

/// The first two examples, each in a code fence after a blank line.
pub open spec fn examples_text(exs: Seq<Seq<char>>) -> Seq<char>
    decreases exs.len(),
{
    if exs.len() == 0 {
        Seq::empty()
    } else {
        let k = if exs.len() > 2 { 2int } else { exs.len() as int };
        examples_upto(exs, k)
    }
}

pub open spec fn examples_upto(exs: Seq<Seq<char>>, k: int) -> Seq<char>
    decreases k,
{
    if k <= 0 || k > exs.len() {
        Seq::empty()
    } else {
        examples_upto(exs, k - 1) + "\n```forgescript\n"@ + exs[k - 1] + "\n```\n"@
    }
}

fn push_examples(md: &mut String, exs: &Vec<String>)
    ensures
        final(md)@ == old(md)@ + examples_text(names_view(exs@)),
{
    let ghost v = names_view(exs@);
    let limit = if exs.len() > 2 { 2 } else { exs.len() };
    let ghost start = md@;
    let mut i: usize = 0;
    while i < limit
        invariant
            v == names_view(exs@),
            limit <= exs@.len(),
            limit == (if exs@.len() > 2 { 2 } else { exs@.len() }),
            i <= limit,
            md@ == start + examples_upto(v, i as int),
        decreases limit - i,
    {
        push_str(md, "\n```forgescript\n");
        push_str(md, exs[i].as_str());
        push_str(md, "\n```\n");
        i = i + 1;
        proof {
            assert(md@ =~= start + examples_upto(v, i as int));
        }
    }
}

/// The outputs joined by `;`, or `void`.
pub open spec fn outputs_text(f: Function) -> Seq<char> {
    match f.output {
        Some(v) => seq_join(names_view(v@), ";"@),
        None => "void"@,
    }
}

/// The examples block under the given heading, when there are examples.
pub open spec fn examples_block(f: Function, heading: Seq<char>) -> Seq<char> {
    match f.examples {
        Some(v) => if v@.len() > 0 { heading + examples_text(names_view(v@)) } else { Seq::empty() },
        None => Seq::empty(),
    }
}

/// The note shown under the call form of a function whose brackets are optional.
pub open spec fn optional_note(f: Function) -> Seq<char> {
    if f.brackets == Some(false) {
        "*Note: brackets are optional*\n"@
    } else {
        Seq::empty()
    }
}

/// The hover documentation: a code fence with the call form and outputs,
/// the note for optional brackets, the description, up to two examples and
/// the links.
pub open spec fn hover_text(f: Function) -> Seq<char> {
    let args = seq_join(arg_labels(f.args), "; "@);
    let outputs = outputs_text(f);
    let head = if f.brackets is Some {
        f.name@ + "["@ + args + "] -> "@ + outputs + "\n"@
    } else {
        f.name@ + " -> "@ + outputs + "\n"@
    };
    let desc = if f.description@.len() > 0 { f.description@ + "\n"@ } else { Seq::empty() };
    let exs = examples_block(f, "\n**Examples:**\n"@);
    let links = doc_links(f, "GitHub Repo"@);
    let tail = if links.len() > 0 { "\n---\n"@ + seq_join(links, " | "@) + "\n"@ } else { Seq::empty() };
    "```forgescript\n"@ + head + "```\n"@ + optional_note(f) + desc + exs + tail
}

/// Builds the hover documentation of a function.
#[verifier::rlimit(30)]
pub fn hover_markdown(f: &Function) -> (r: String)
    ensures
        r@ == hover_text(*f),
{
    let labels = arg_label_list(&f.args);
    let args_str = join_strings(&labels, "; ");
    let outputs_str = match &f.output {
        Some(v) => {
            let o = join_strings(v, ";");
            assert(names_view(v@) =~= v@.map_values(|s: String| s@));
            o
        },
        None => to_owned("void"),
    };
    let ghost outputs = outputs_text(*f);
    assert(outputs_str@ == outputs);
    let mut md = to_owned("```forgescript\n");
    push_str(&mut md, f.name.as_str());
    if f.brackets.is_some() {
        push_str(&mut md, "[");
        push_str(&mut md, args_str.as_str());
        push_str(&mut md, "] -> ");
    } else {
        push_str(&mut md, " -> ");
    }
    push_str(&mut md, outputs_str.as_str());
    push_str(&mut md, "\n");
    let ghost head = if f.brackets is Some {
        f.name@ + "["@ + seq_join(arg_labels(f.args), "; "@) + "] -> "@ + outputs + "\n"@
    } else {
        f.name@ + " -> "@ + outputs + "\n"@
    };
    assert(md@ =~= "```forgescript\n"@ + head);
    push_str(&mut md, "```\n");
    if matches!(f.brackets, Some(false)) {
        push_str(&mut md, "*Note: brackets are optional*\n");
    }
    let ghost note = optional_note(*f);
    assert(md@ =~= "```forgescript\n"@ + head + "```\n"@ + note);
    if !f.description.as_str().is_empty() {
        push_str(&mut md, f.description.as_str());
        push_str(&mut md, "\n");
    }
    let ghost desc = if f.description@.len() > 0 { f.description@ + "\n"@ } else { Seq::empty() };
    assert(md@ =~= "```forgescript\n"@ + head + "```\n"@ + note + desc);
    let ghost mid = md@;
    match &f.examples {
        Some(exs) => {
            if exs.len() > 0 {
                push_str(&mut md, "\n**Examples:**\n");
                push_examples(&mut md, exs);
            }
        },
        None => {},
    }
    let ghost exs_text = examples_block(*f, "\n**Examples:**\n"@);
    assert(md@ =~= mid + exs_text);
    let ghost mid2 = md@;
    let links = doc_link_list(f, "GitHub Repo");
    if links.len() > 0 {
        push_str(&mut md, "\n---\n");
        let joined = join_strings(&links, " | ");
        assert(names_view(links@) =~= links@.map_values(|s: String| s@));
        push_str(&mut md, joined.as_str());
        push_str(&mut md, "\n");
    }
    let ghost lk = doc_links(*f, "GitHub Repo"@);
    let ghost tail = if lk.len() > 0 { "\n---\n"@ + seq_join(lk, " | "@) + "\n"@ } else { Seq::empty() };
    assert(md@ =~= mid2 + tail);
    md
}

/// The completion documentation: the signature in a code fence, the
/// description, up to two examples and the links.
pub open spec fn completion_doc_text(f: Function) -> Seq<char> {
    let desc = if f.description@.len() > 0 { f.description@ + "\n\n"@ } else { Seq::empty() };
    let exs = examples_block(f, "**Examples:**\n"@);
    let links = doc_links(f, "GitHub"@);
    let tail = if links.len() > 0 { "\n---\n"@ + seq_join(links, " | "@) } else { Seq::empty() };
    "```forgescript\n"@ + signature_text(f) + "\n```\n\n"@ + desc + exs + tail
}

/// Builds the documentation shown with a completion item.
pub fn build_completion_markdown(f: &Function) -> (r: String)
    ensures
        r@ == completion_doc_text(*f),
{
    let mut md = to_owned("```forgescript\n");
    let sig = f.signature_label();
    push_str(&mut md, sig.as_str());
    push_str(&mut md, "\n```\n\n");
    if !f.description.as_str().is_empty() {
        push_str(&mut md, f.description.as_str());
        push_str(&mut md, "\n\n");
    }
    let ghost desc = if f.description@.len() > 0 { f.description@ + "\n\n"@ } else { Seq::empty() };
    assert(md@ =~= "```forgescript\n"@ + signature_text(*f) + "\n```\n\n"@ + desc);
    let ghost mid = md@;
    match &f.examples {
        Some(exs) => {
            if exs.len() > 0 {
                push_str(&mut md, "**Examples:**\n");
                push_examples(&mut md, exs);
            }
        },
        None => {},
    }
    let ghost exs_text = examples_block(*f, "**Examples:**\n"@);
    assert(md@ =~= mid + exs_text);
    let ghost mid2 = md@;
    let links = doc_link_list(f, "GitHub");
    if links.len() > 0 {
        push_str(&mut md, "\n---\n");
        let joined = join_strings(&links, " | ");
        assert(names_view(links@) =~= links@.map_values(|s: String| s@));
        push_str(&mut md, joined.as_str());
    }
    let ghost lk = doc_links(*f, "GitHub"@);
    let ghost tail = if lk.len() > 0 { "\n---\n"@ + seq_join(lk, " | "@) } else { Seq::empty() };
    assert(md@ =~= mid2 + tail);
    md
}

} // verus!
