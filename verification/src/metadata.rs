//! The index of ForgeScript function metadata, enum definitions, events and
//! the custom functions that project files declare.

use std::sync::Arc;
use vstd::prelude::*;
use crate::function::{opt_chars, retag, same_metadata, Function};
use crate::docs::{has_infix, url_parts};
use crate::strings::{ends_with, has_suffix, replace_all, replace_str};
use crate::trie::{FunctionTrie, lowercase_key, spec_trie_get};
use crate::custom::{CustomFunction, custom_function_entry, entries_of, function_for, registrations, with_dollar};

verus! {

/// The characters of each string.
pub open spec fn names_view(v: Seq<String>) -> Seq<Seq<char>> {
    v.map_values(|s: String| s@)
}

/// A list of named string lists read as a table: a later entry replaces an
/// earlier one with the same name.
pub open spec fn string_table(l: Seq<(String, Vec<String>)>) -> Map<Seq<char>, Seq<Seq<char>>>
    decreases l.len(),
{
    if l.len() == 0 {
        Map::empty()
    } else {
        string_table(l.drop_last()).insert(l.last().0@, names_view(l.last().1@))
    }
}

/// Entries after `i` do not bear the name `k`, so the table's entry for `k`
/// is decided by the first `i` entries.
pub proof fn lemma_string_table_prefix(l: Seq<(String, Vec<String>)>, i: int, k: Seq<char>)
    requires
        0 <= i <= l.len(),
        forall|j: int| i <= j < l.len() ==> (#[trigger] l[j]).0@ != k,
    ensures
        string_table(l).contains_key(k) == string_table(l.take(i)).contains_key(k),
        string_table(l).contains_key(k) ==> string_table(l)[k] == string_table(l.take(i))[k],
    decreases l.len(),
{
    if l.len() == i {
        assert(l.take(i) =~= l);
    } else {
        assert(l.drop_last().take(i) =~= l.take(i));
        lemma_string_table_prefix(l.drop_last(), i, k);
    }
}

/// A copy of a list of strings.
pub fn clone_strings(v: &Vec<String>) -> (r: Vec<String>)
    ensures
        names_view(r@) == names_view(v@),
        r@.len() == v@.len(),
{
    let mut out: Vec<String> = Vec::new();
    let mut i: usize = 0;
    while i < v.len()
        invariant
            i <= v@.len(),
            out@.len() == i,
            forall|j: int| 0 <= j < i ==> (#[trigger] out@[j])@ == v@[j]@,
        decreases v@.len() - i,
    {
        out.push(v[i].clone());
        i = i + 1;
    }
    assert(names_view(out@) =~= names_view(v@));
    out
}

/// The last registration whose name has the lower-cased key `k`, or -1.
pub open spec fn last_reg(regs: Seq<(Seq<char>, int)>, k: Seq<char>) -> int
    decreases regs.len(),
{
    if regs.len() == 0 {
        -1
    } else if lowercase_key(regs.last().0) == k {
        regs.len() - 1
    } else {
        last_reg(regs.drop_last(), k)
    }
}

pub proof fn lemma_last_reg_bounds(regs: Seq<(Seq<char>, int)>, k: Seq<char>)
    ensures
        -1 <= last_reg(regs, k) < regs.len(),
        last_reg(regs, k) >= 0 ==> lowercase_key(regs[last_reg(regs, k)].0) == k,
    decreases regs.len(),
{
    if regs.len() > 0 && lowercase_key(regs.last().0) != k {
        lemma_last_reg_bounds(regs.drop_last(), k);
    }
}

/// The index after registering custom functions: a registered name is found
/// under its lower-cased key, holding the function of the last registration
/// with that key; every other name keeps what it held.
pub open spec fn registered_index(
    before: Map<Seq<char>, Arc<Function>>,
    after: Map<Seq<char>, Arc<Function>>,
    cs: Seq<CustomFunction>,
    regs: Seq<(Seq<char>, int)>,
) -> bool {
    &&& forall|k: Seq<char>| #[trigger] after.contains_key(k) <==> (before.contains_key(k) || last_reg(regs, k) >= 0)
    &&& forall|k: Seq<char>| #[trigger] after.contains_key(k) && last_reg(regs, k) < 0 ==> after[k] == before[k]
    &&& forall|k: Seq<char>|
        #[trigger] last_reg(regs, k) >= 0 ==> function_for(
            *after[k],
            cs[regs[last_reg(regs, k)].1],
            regs[last_reg(regs, k)].0,
        )
}

proof fn lemma_register_step(
    before: Map<Seq<char>, Arc<Function>>,
    cur: Map<Seq<char>, Arc<Function>>,
    cs: Seq<CustomFunction>,
    regs: Seq<(Seq<char>, int)>,
    n: Seq<char>,
    i: int,
    f: Arc<Function>,
)
    requires
        registered_index(before, cur, cs, regs),
        function_for(*f, cs[i], n),
    ensures
        registered_index(before, cur.insert(lowercase_key(n), f), cs, regs.push((n, i))),
{
    let regs2 = regs.push((n, i));
    assert(regs2.drop_last() =~= regs);
    assert(regs2.last() == (n, i));
    let after = cur.insert(lowercase_key(n), f);
    assert forall|k: Seq<char>| #[trigger] last_reg(regs2, k) >= 0 implies function_for(
        *after[k],
        cs[regs2[last_reg(regs2, k)].1],
        regs2[last_reg(regs2, k)].0,
    ) by {
        if lowercase_key(n) != k {
            assert(last_reg(regs2, k) == last_reg(regs, k));
            lemma_last_reg_bounds(regs, k);
            assert(regs2[last_reg(regs2, k)] == regs[last_reg(regs, k)]);
        } else {
            assert(last_reg(regs2, k) == regs.len());
            assert(after[k] == f);
        }
    }
    assert forall|k: Seq<char>| #[trigger] after.contains_key(k) && last_reg(regs2, k) < 0 implies after[k] == before[k] by {
        if lowercase_key(n) != k {
            assert(last_reg(regs2, k) == last_reg(regs, k));
        }
    }
}

/// The names registered by the first `i` custom functions are at most as many as all of theirs.
proof fn lemma_registrations_prefix(cs: Seq<CustomFunction>, i: int)
    requires
        0 <= i <= cs.len(),
    ensures
        registrations(cs.take(i)).len() <= registrations(cs).len(),
    decreases cs.len() - i,
{
    if i < cs.len() {
        lemma_registrations_prefix(cs, i + 1);
        assert(cs.take(i + 1).drop_last() =~= cs.take(i));
    } else {
        assert(cs.take(i) =~= cs);
    }
}

/// The extension a metadata source stands for: the fifth `/`-separated
/// piece of a `githubusercontent.com` URL.
pub open spec fn source_extension(url: Seq<char>) -> Option<Seq<char>> {
    if has_infix(url, "githubusercontent.com"@) && url_parts(url).len() > 4 {
        Some(url_parts(url)[4])
    } else {
        None
    }
}

/// Finds the extension a metadata source stands for.
pub fn extension_of(url: &str) -> (r: Option<String>)
    ensures
        opt_chars(r) == source_extension(url@),
{
    if crate::docs::contains_str(url, "githubusercontent.com") {
        let parts = crate::docs::split_slashes(url);
        if parts.len() > 4 {
            proof {
                assert(parts@[4]@ == names_view(parts@)[4]);
            }
            return Some(parts[4].clone());
        }
    }
    None
}

/// The names a fetched function is indexed under, each with its index:
/// its aliases, then its name.
pub open spec fn source_entries(f: Function, i: int) -> Seq<(Seq<char>, int)> {
    (match f.aliases {
        Some(v) => names_view(v@).map_values(|a: Seq<char>| (a, i)),
        None => Seq::empty(),
    }) + seq![(f.name@, i)]
}

/// The names the functions of one source are indexed under, in order.
pub open spec fn source_registrations(fs: Seq<Function>) -> Seq<(Seq<char>, int)>
    decreases fs.len(),
{
    if fs.len() == 0 {
        Seq::empty()
    } else {
        source_registrations(fs.drop_last()) + source_entries(fs.last(), fs.len() - 1)
    }
}

/// The entry indexed for a fetched function under `name`: the function
/// under that name, tagged with the source's extension and URL.
pub open spec fn source_entry(g: Function, f: Function, name: Seq<char>, url: Seq<char>) -> bool {
    &&& same_metadata(g, f)
    &&& g.name@ == name
    &&& opt_chars(g.extension) == source_extension(url)
    &&& opt_chars(g.source_url) == Some(url)
}

/// The index after indexing a source: an indexed name is found under its
/// lower-cased key, holding the entry of the last registration with that
/// key; every other name keeps what it held.
pub open spec fn indexed_source(
    before: Map<Seq<char>, Arc<Function>>,
    after: Map<Seq<char>, Arc<Function>>,
    fs: Seq<Function>,
    regs: Seq<(Seq<char>, int)>,
    url: Seq<char>,
) -> bool {
    &&& forall|k: Seq<char>| #[trigger] after.contains_key(k) <==> (before.contains_key(k) || last_reg(regs, k) >= 0)
    &&& forall|k: Seq<char>| #[trigger] after.contains_key(k) && last_reg(regs, k) < 0 ==> after[k] == before[k]
    &&& forall|k: Seq<char>|
        #[trigger] last_reg(regs, k) >= 0 ==> source_entry(
            *after[k],
            fs[regs[last_reg(regs, k)].1],
            regs[last_reg(regs, k)].0,
            url,
        )
}

proof fn lemma_source_step(
    before: Map<Seq<char>, Arc<Function>>,
    cur: Map<Seq<char>, Arc<Function>>,
    fs: Seq<Function>,
    regs: Seq<(Seq<char>, int)>,
    url: Seq<char>,
    n: Seq<char>,
    i: int,
    g: Arc<Function>,
)
    requires
        indexed_source(before, cur, fs, regs, url),
        source_entry(*g, fs[i], n, url),
    ensures
        indexed_source(before, cur.insert(lowercase_key(n), g), fs, regs.push((n, i)), url),
{
    let regs2 = regs.push((n, i));
    assert(regs2.drop_last() =~= regs);
    assert(regs2.last() == (n, i));
    let after = cur.insert(lowercase_key(n), g);
    assert forall|k: Seq<char>| #[trigger] last_reg(regs2, k) >= 0 implies source_entry(
        *after[k],
        fs[regs2[last_reg(regs2, k)].1],
        regs2[last_reg(regs2, k)].0,
        url,
    ) by {
        if lowercase_key(n) != k {
            assert(last_reg(regs2, k) == last_reg(regs, k));
            lemma_last_reg_bounds(regs, k);
            assert(regs2[last_reg(regs2, k)] == regs[last_reg(regs, k)]);
        } else {
            assert(last_reg(regs2, k) == regs.len());
            assert(after[k] == g);
        }
    }
    assert forall|k: Seq<char>| #[trigger] after.contains_key(k) && last_reg(regs2, k) < 0 implies after[k] == before[k] by {
        if lowercase_key(n) != k {
            assert(last_reg(regs2, k) == last_reg(regs, k));
        }
    }
}

proof fn lemma_source_registrations_prefix(fs: Seq<Function>, i: int)
    requires
        0 <= i <= fs.len(),
    ensures
        source_registrations(fs.take(i)).len() <= source_registrations(fs).len(),
    decreases fs.len() - i,
{
    if i < fs.len() {
        lemma_source_registrations_prefix(fs, i + 1);
        assert(fs.take(i + 1).drop_last() =~= fs.take(i));
    } else {
        assert(fs.take(i) =~= fs);
    }
}

/// The URLs of the companion files of the sources: for each URL that ends
/// in `functions.json`, the URL with `functions.json` replaced by `file`.
pub open spec fn companion_urls(urls: Seq<Seq<char>>, file: Seq<char>) -> Seq<Seq<char>>
    decreases urls.len(),
{
    if urls.len() == 0 {
        Seq::empty()
    } else {
        let rest = companion_urls(urls.drop_last(), file);
        if has_suffix(urls.last(), "functions.json"@) {
            rest.push(replace_all(urls.last(), "functions.json"@, file))
        } else {
            rest
        }
    }
}

/// Derives the URLs of the sources' companion files (enums, events).
pub fn derived_urls(urls: &Vec<String>, file: &str) -> (r: Vec<String>)
    ensures
        names_view(r@) == companion_urls(names_view(urls@), file@),
{
    let mut out: Vec<String> = Vec::new();
    let mut i: usize = 0;
    while i < urls.len()
        invariant
            i <= urls@.len(),
            names_view(out@) == companion_urls(names_view(urls@).take(i as int), file@),
        decreases urls@.len() - i,
    {
        proof {
            reveal_strlit("functions.json");
            assert(names_view(urls@).take(i + 1).drop_last() =~= names_view(urls@).take(i as int));
        }
        let u = urls[i].as_str();
        if ends_with(u, "functions.json") {
            let ghost before = names_view(out@);
            out.push(replace_str(u, "functions.json", file));
            proof {
                assert(names_view(out@) =~= before.push(replace_all(u@, "functions.json"@, file@)));
            }
        }
        i = i + 1;
    }
    proof {
        assert(names_view(urls@).take(urls@.len() as int) =~= names_view(urls@));
    }
    out
}

/// The index with the given names taken out, one after another.
pub open spec fn without_names(m: Map<Seq<char>, Arc<Function>>, names: Seq<Seq<char>>) -> Map<Seq<char>, Arc<Function>>
    decreases names.len(),
{
    if names.len() == 0 {
        m
    } else {
        without_names(m, names.drop_last()).remove(lowercase_key(names.last()))
    }
}

proof fn lemma_without_names_len(m: Map<Seq<char>, Arc<Function>>, names: Seq<Seq<char>>)
    requires
        m.dom().finite(),
    ensures
        without_names(m, names).dom().finite(),
        without_names(m, names).dom().len() <= m.dom().len(),
    decreases names.len(),
{
    if names.len() > 0 {
        lemma_without_names_len(m, names.drop_last());
        let w = without_names(m, names.drop_last());
        assert(without_names(m, names).dom() =~= w.dom().remove(lowercase_key(names.last())));
    }
}

/// The entries of a list that do not bear the name `p`, in order.
pub open spec fn drop_entries(l: Seq<(String, Vec<String>)>, p: Seq<char>) -> Seq<(String, Vec<String>)>
    decreases l.len(),
{
    if l.len() == 0 {
        Seq::empty()
    } else if l.last().0@ == p {
        drop_entries(l.drop_last(), p)
    } else {
        drop_entries(l.drop_last(), p).push(l.last())
    }
}

proof fn lemma_drop_entries(l: Seq<(String, Vec<String>)>, p: Seq<char>)
    ensures
        string_table(drop_entries(l, p)) == string_table(l).remove(p),
    decreases l.len(),
{
    if l.len() == 0 {
        assert(string_table(l).remove(p) =~= string_table(l));
    } else {
        lemma_drop_entries(l.drop_last(), p);
        let d = drop_entries(l.drop_last(), p);
        if l.last().0@ == p {
            assert(string_table(l).remove(p) =~= string_table(l.drop_last()).remove(p));
        } else {
            assert(d.push(l.last()).drop_last() =~= d);
            assert(string_table(l).remove(p) =~= string_table(l.drop_last()).remove(p).insert(
                l.last().0@,
                names_view(l.last().1@),
            ));
        }
    }
}

/// Definition for ForgeScript events.
#[derive(Clone, Debug)]
pub struct Event {
    pub name: String,
    pub version: String,
    pub description: String,
    pub intents: Option<Vec<String>>,
}

/// Orchestrator for ForgeScript metadata: the function index, the enum
/// tables and the events, and the names each custom-function file declared.
pub struct MetadataManager {
    fetch_urls: Vec<String>,
    trie: FunctionTrie,
    enums: Vec<(String, Vec<String>)>,
    events: Vec<Event>,
    file_map: Vec<(String, Vec<String>)>,
}

impl MetadataManager {
    /// Only finitely many names are indexed.
    #[verifier::type_invariant]
    spec fn inv(self) -> bool {
        self.trie.view().dom().finite()
    }

    /// The indexed functions, by lower-cased name.
    pub closed spec fn functions(&self) -> Map<Seq<char>, Arc<Function>> {
        self.trie.view()
    }

    /// The enum definitions, by name.
    pub closed spec fn enum_table(&self) -> Map<Seq<char>, Seq<Seq<char>>> {
        string_table(self.enums@)
    }

    /// The names registered from each custom-function file, by path.
    pub closed spec fn file_table(&self) -> Map<Seq<char>, Seq<Seq<char>>> {
        string_table(self.file_map@)
    }

    /// The configured metadata sources.
    pub closed spec fn urls(&self) -> Seq<Seq<char>> {
        names_view(self.fetch_urls@)
    }

    /// The known events.
    pub closed spec fn event_list(&self) -> Seq<Event> {
        self.events@
    }

    /// Creates a manager for the given metadata sources, with nothing indexed yet.
    pub fn new(fetch_urls: Vec<String>) -> (r: MetadataManager)
        ensures
            r.functions() == Map::<Seq<char>, Arc<Function>>::empty(),
            r.enum_table() == Map::<Seq<char>, Seq<Seq<char>>>::empty(),
            r.file_table() == Map::<Seq<char>, Seq<Seq<char>>>::empty(),
            r.event_list() == Seq::<Event>::empty(),
            r.urls() == names_view(fetch_urls@),
    {
        MetadataManager {
            fetch_urls,
            trie: FunctionTrie::new(),
            enums: Vec::new(),
            events: Vec::new(),
            file_map: Vec::new(),
        }
    }

    /// The configured metadata sources.
    pub fn fetch_urls(&self) -> (r: &Vec<String>)
        ensures
            names_view(r@) == self.urls(),
    {
        &self.fetch_urls
    }

    /// Retrieves function metadata by the name found in the text, with the
    /// matched (lower-cased) name.
    pub fn get_with_match(&self, name: &str) -> (r: Option<(String, Arc<Function>)>)
        ensures
            match r {
                Some((k, f)) => spec_trie_get(self.functions(), lowercase_key(name@)) == Some((k@, f)),
                None => spec_trie_get(self.functions(), lowercase_key(name@)) is None,
            },
    {
        self.trie.get(name)
    }

    /// Helper for retrieving function metadata by the name found in the text.
    pub fn get(&self, name: &str) -> (r: Option<Arc<Function>>)
        ensures
            match spec_trie_get(self.functions(), lowercase_key(name@)) {
                Some((_, f)) => r == Some(f),
                None => r is None,
            },
    {
        match self.trie.get(name) {
            Some((_, f)) => Some(f),
            None => None,
        }
    }

    /// Retrieves function metadata by exact (case-insensitive) name.
    pub fn get_exact(&self, name: &str) -> (r: Option<Arc<Function>>)
        ensures
            r == (if self.functions().contains_key(lowercase_key(name@)) {
                Some(self.functions()[lowercase_key(name@)])
            } else {
                None
            }),
    {
        self.trie.get_exact(name)
    }

    /// Returns the total number of functions managed.
    pub fn function_count(&self) -> (r: usize)
        ensures
            r == self.functions().dom().len(),
            self.functions().dom().finite(),
    {
        self.trie.len()
    }

    /// The indexed functions in the order the index lists them, once per
    /// indexed name.
    pub closed spec fn listing(&self) -> Seq<Arc<Function>> {
        self.trie.listing()
    }

    /// Returns a list of all managed functions, once per indexed name, in
    /// the order of `listing`.
    pub fn all_functions(&self) -> (r: Vec<Arc<Function>>)
        ensures
            r@ == self.listing(),
            forall|f: Arc<Function>|
                r@.contains(f) <==> exists|k: Seq<char>| #[trigger] self.functions().contains_key(k) && self.functions()[k] == f,
            exists|ks: Seq<Seq<char>>| crate::trie::lists_once(r@, self.functions(), ks),
    {
        let r = self.trie.collect_all();
        proof {
            assert forall|f: Arc<Function>|
                r@.contains(f) <==> exists|k: Seq<char>| #[trigger] self.functions().contains_key(k) && self.functions()[k] == f by {
                if r@.contains(f) {
                    let k = choose|k: Seq<char>| #[trigger] self.trie.view().contains_key(k) && self.trie.view()[k] == f;
                    assert(self.functions().contains_key(k));
                }
                if exists|k: Seq<char>| #[trigger] self.functions().contains_key(k) && self.functions()[k] == f {
                    let k = choose|k: Seq<char>| #[trigger] self.functions().contains_key(k) && self.functions()[k] == f;
                    assert(self.trie.view().contains_key(k));
                }
            }
            let ks = choose|ks: Seq<Seq<char>>| crate::trie::lists_once(r@, self.trie.view(), ks);
            assert(crate::trie::lists_once(r@, self.functions(), ks));
        }
        r
    }

    /// The values of the named enum, if it is defined.
    pub fn enum_values(&self, name: &str) -> (r: Option<Vec<String>>)
        ensures
            r is Some <==> self.enum_table().contains_key(name@),
            r matches Some(v) ==> names_view(v@) == self.enum_table()[name@],
    {
        lookup_table(&self.enums, name)
    }

    /// Replaces the enum definitions by the given entries, in the order the
    /// sources listed them: a later entry replaces an earlier one of the same name.
    pub fn set_enums(&mut self, entries: Vec<(String, Vec<String>)>)
        ensures
            final(self).enum_table() == string_table(entries@),
            final(self).functions() == old(self).functions(),
            final(self).file_table() == old(self).file_table(),
            final(self).event_list() == old(self).event_list(),
            final(self).urls() == old(self).urls(),
    {
        proof {
            use_type_invariant(&*self);
        }
        self.enums = entries;
    }

    /// Replaces the known events.
    pub fn set_events(&mut self, events: Vec<Event>)
        ensures
            final(self).event_list() == events@,
            final(self).functions() == old(self).functions(),
            final(self).enum_table() == old(self).enum_table(),
            final(self).file_table() == old(self).file_table(),
            final(self).urls() == old(self).urls(),
    {
        proof {
            use_type_invariant(&*self);
        }
        self.events = events;
    }

    /// Registers a list of custom function definitions: each under its
    /// `$`-prefixed name, then under each of its `$`-prefixed aliases. Returns
    /// the registered names in that order.
    pub fn add_custom_functions(&mut self, custom_funcs: Vec<CustomFunction>) -> (r: Vec<String>)
        requires
            old(self).functions().dom().len() + registrations(custom_funcs@).len() < usize::MAX,
        ensures
            names_view(r@) == registrations(custom_funcs@).map_values(|e: (Seq<char>, int)| e.0),
            registered_index(old(self).functions(), final(self).functions(), custom_funcs@, registrations(custom_funcs@)),
            final(self).enum_table() == old(self).enum_table(),
            final(self).file_table() == old(self).file_table(),
            final(self).event_list() == old(self).event_list(),
            final(self).urls() == old(self).urls(),
    {
        proof {
            use_type_invariant(&*self);
        }
        let ghost before = self.functions();
        let ghost cs = custom_funcs@;
        let ghost enums0 = self.enum_table();
        let ghost files0 = self.file_table();
        let ghost events0 = self.event_list();
        let ghost urls0 = self.urls();
        let mut trie = FunctionTrie::new();
        std::mem::swap(&mut trie, &mut self.trie);
        let mut out: Vec<String> = Vec::new();
        let ghost mut regs: Seq<(Seq<char>, int)> = Seq::empty();
        proof {
            assert(cs.take(0) =~= Seq::<CustomFunction>::empty());
            assert(names_view(out@) =~= regs.map_values(|e: (Seq<char>, int)| e.0));
        }
        let mut i: usize = 0;
        while i < custom_funcs.len()
            invariant
                cs == custom_funcs@,
                i <= cs.len(),
                regs == registrations(cs.take(i as int)),
                names_view(out@) == regs.map_values(|e: (Seq<char>, int)| e.0),
                registered_index(before, trie.view(), cs, regs),
                trie.view().dom().finite(),
                trie.view().dom().len() <= before.dom().len() + regs.len(),
                before.dom().len() + registrations(cs).len() < usize::MAX,
                self.enum_table() == enums0,
                self.file_table() == files0,
                self.event_list() == events0,
                self.urls() == urls0,
            decreases cs.len() - i,
        {
            let c = &custom_funcs[i];
            let ghost entries = entries_of(*c, i as int);
            proof {
                assert(cs.take(i + 1).drop_last() =~= cs.take(i as int));
                assert(registrations(cs.take(i + 1)) == regs + entries);
                lemma_registrations_prefix(cs, i + 1);
            }
            let name = with_dollar(c.name.as_str());
            let f = custom_function_entry(c, name.as_str());
            let ghost cur = trie.view();
            let arc = Arc::new(f);
            trie.insert(name.as_str(), arc);
            proof {
                lemma_register_step(before, cur, cs, regs, name@, i as int, arc);
                assert(trie.view().dom() =~= cur.dom().insert(lowercase_key(name@)));
                regs = regs.push((name@, i as int));
                assert(regs =~= registrations(cs.take(i as int)) + entries.take(1));
            }
            let ghost names0 = names_view(out@);
            out.push(name);
            proof {
                assert(names_view(out@) =~= names0.push(name@));
                assert(regs.map_values(|e: (Seq<char>, int)| e.0) =~= names0.push(name@));
            }
            match &c.alias {
                Some(al) => {
                    let mut j: usize = 0;
                    while j < al.len()
                        invariant
                            cs == custom_funcs@,
                            i < cs.len(),
                            *c == cs[i as int],
                            c.alias == Some(*al),
                            entries == entries_of(*c, i as int),
                            entries.len() == al@.len() + 1,
                            j <= al@.len(),
                            regs == registrations(cs.take(i as int)) + entries.take(j + 1),
                            registrations(cs.take(i as int)).len() + entries.len() <= registrations(cs).len(),
                            names_view(out@) == regs.map_values(|e: (Seq<char>, int)| e.0),
                            registered_index(before, trie.view(), cs, regs),
                            trie.view().dom().finite(),
                            trie.view().dom().len() <= before.dom().len() + regs.len(),
                            before.dom().len() + registrations(cs).len() < usize::MAX,
                            self.enum_table() == enums0,
                            self.file_table() == files0,
                            self.event_list() == events0,
                            self.urls() == urls0,
                        decreases al@.len() - j,
                    {
                        let an = with_dollar(al[j].as_str());
                        let af = custom_function_entry(c, an.as_str());
                        let ghost cur2 = trie.view();
                        assert(entries[j + 1] == (an@, i as int));
                        let arc2 = Arc::new(af);
                        trie.insert(an.as_str(), arc2);
                        proof {
                            lemma_register_step(before, cur2, cs, regs, an@, i as int, arc2);
                            assert(trie.view().dom() =~= cur2.dom().insert(lowercase_key(an@)));
                            regs = regs.push((an@, i as int));
                            assert(regs =~= registrations(cs.take(i as int)) + entries.take(j + 2));
                        }
                        let ghost names1 = names_view(out@);
                        out.push(an);
                        proof {
                            assert(names_view(out@) =~= names1.push(an@));
                            assert(regs.map_values(|e: (Seq<char>, int)| e.0) =~= names1.push(an@));
                        }
                        j = j + 1;
                    }
                    proof {
                        assert(entries.take(j + 1) =~= entries);
                    }
                },
                None => {
                    proof {
                        assert(entries.take(1) =~= entries);
                    }
                },
            }
            i = i + 1;
        }
        proof {
            assert(cs.take(cs.len() as int) =~= cs);
        }
        self.trie = trie;
        out
    }

    /// Indexes the functions fetched from one metadata source: each under
    /// its aliases, then under its name, tagged with the source's extension
    /// and URL.
    pub fn index_source(&mut self, url: &str, funcs: &Vec<Function>)
        requires
            old(self).functions().dom().len() + source_registrations(funcs@).len() < usize::MAX,
        ensures
            indexed_source(old(self).functions(), final(self).functions(), funcs@, source_registrations(funcs@), url@),
            final(self).enum_table() == old(self).enum_table(),
            final(self).file_table() == old(self).file_table(),
            final(self).event_list() == old(self).event_list(),
            final(self).urls() == old(self).urls(),
    {
        proof {
            use_type_invariant(&*self);
        }
        let ghost before = self.functions();
        let ghost fs = funcs@;
        let extension = extension_of(url);
        let source = Some(String::from_str(url));
        let mut trie = FunctionTrie::new();
        std::mem::swap(&mut trie, &mut self.trie);
        let ghost mut regs: Seq<(Seq<char>, int)> = Seq::empty();
        proof {
            assert(fs.take(0) =~= Seq::<Function>::empty());
        }
        let mut i: usize = 0;
        while i < funcs.len()
            invariant
                fs == funcs@,
                i <= fs.len(),
                opt_chars(extension) == source_extension(url@),
                opt_chars(source) == Some(url@),
                regs == source_registrations(fs.take(i as int)),
                indexed_source(before, trie.view(), fs, regs, url@),
                trie.view().dom().finite(),
                trie.view().dom().len() <= before.dom().len() + regs.len(),
                before.dom().len() + source_registrations(fs).len() < usize::MAX,
            decreases fs.len() - i,
        {
            let f = &funcs[i];
            let ghost entries = source_entries(*f, i as int);
            let ghost base = regs;
            proof {
                assert(fs.take(i + 1).drop_last() =~= fs.take(i as int));
                assert(source_registrations(fs.take(i + 1)) == regs + entries);
                lemma_source_registrations_prefix(fs, i + 1);
            }
            let ghost na: int = entries.len() - 1;
            match &f.aliases {
                Some(al) => {
                    let mut j: usize = 0;
                    proof {
                        assert(entries.take(0) =~= Seq::<(Seq<char>, int)>::empty());
                        assert(regs =~= base + entries.take(0));
                    }
                    while j < al.len()
                        invariant
                            fs == funcs@,
                            i < fs.len(),
                            *f == fs[i as int],
                            f.aliases == Some(*al),
                            entries == source_entries(*f, i as int),
                            entries.len() == al@.len() + 1,
                            j <= al@.len(),
                            opt_chars(extension) == source_extension(url@),
                            opt_chars(source) == Some(url@),
                            regs == base + entries.take(j as int),
                            base.len() + entries.len() <= source_registrations(fs).len(),
                            indexed_source(before, trie.view(), fs, regs, url@),
                            trie.view().dom().finite(),
                            trie.view().dom().len() <= before.dom().len() + regs.len(),
                            before.dom().len() + source_registrations(fs).len() < usize::MAX,
                        decreases al@.len() - j,
                    {
                        let a = &al[j];
                        let g = retag(f, a.as_str(), &extension, &source);
                        let ghost cur = trie.view();
                        assert(entries[j as int] == (a@, i as int));
                        let arc = Arc::new(g);
                        trie.insert(a.as_str(), arc);
                        proof {
                            lemma_source_step(before, cur, fs, regs, url@, a@, i as int, arc);
                            assert(trie.view().dom() =~= cur.dom().insert(lowercase_key(a@)));
                            regs = regs.push((a@, i as int));
                            assert(regs =~= base + entries.take(j + 1));
                        }
                        j = j + 1;
                    }
                },
                None => {
                    proof {
                        assert(entries.take(0) =~= Seq::<(Seq<char>, int)>::empty());
                        assert(regs =~= base + entries.take(0));
                    }
                },
            }
            assert(regs == base + entries.take(na));
            let g = retag(f, f.name.as_str(), &extension, &source);
            let ghost cur = trie.view();
            assert(entries[na] == (f.name@, i as int));
            let arc = Arc::new(g);
            trie.insert(f.name.as_str(), arc);
            proof {
                lemma_source_step(before, cur, fs, regs, url@, f.name@, i as int, arc);
                assert(trie.view().dom() =~= cur.dom().insert(lowercase_key(f.name@)));
                regs = regs.push((f.name@, i as int));
                assert(regs =~= base + entries);
            }
            i = i + 1;
        }
        proof {
            assert(fs.take(fs.len() as int) =~= fs);
        }
        self.trie = trie;
    }

    /// Unregisters all functions associated with a file: the names recorded
    /// for it are taken out of the index, and its record is dropped.
    pub fn remove_functions_at_path(&mut self, path: &str)
        ensures
            final(self).file_table() == old(self).file_table().remove(path@),
            final(self).functions() == (if old(self).file_table().contains_key(path@) {
                without_names(old(self).functions(), old(self).file_table()[path@])
            } else {
                old(self).functions()
            }),
            final(self).functions().dom().len() <= old(self).functions().dom().len(),
            final(self).enum_table() == old(self).enum_table(),
            final(self).event_list() == old(self).event_list(),
            final(self).urls() == old(self).urls(),
    {
        proof {
            use_type_invariant(&*self);
        }
        let ghost before = self.functions();
        let names = match lookup_table(&self.file_map, path) {
            Some(n) => n,
            None => {
                proof {
                    assert(self.file_table().remove(path@) =~= self.file_table());
                }
                return;
            },
        };
        let mut fm: Vec<(String, Vec<String>)> = Vec::new();
        std::mem::swap(&mut fm, &mut self.file_map);
        let ghost l0 = fm@;
        let ghost mut m: int = 0;
        let mut i: usize = 0;
        proof {
            assert(l0.take(0) =~= Seq::<(String, Vec<String>)>::empty());
            assert(fm@ =~= drop_entries(l0.take(0), path@) + l0.skip(0));
        }
        while i < fm.len()
            invariant
                0 <= m <= l0.len(),
                fm@ == drop_entries(l0.take(m), path@) + l0.skip(m),
                i == drop_entries(l0.take(m), path@).len(),
                self.trie.view() == before,
                before.dom().finite(),
            decreases l0.len() - m,
        {
            assert(l0.take(m + 1).drop_last() =~= l0.take(m));
            assert(fm@[i as int] == l0[m]);
            if crate::text::str_eq(fm[i].0.as_str(), path) {
                fm.remove(i);
                proof {
                    assert(fm@ =~= drop_entries(l0.take(m + 1), path@) + l0.skip(m + 1));
                }
            } else {
                proof {
                    assert(fm@ =~= drop_entries(l0.take(m + 1), path@) + l0.skip(m + 1));
                }
                i = i + 1;
            }
            proof {
                m = m + 1;
            }
        }
        proof {
            assert(l0.take(m) =~= l0);
            assert(fm@ =~= drop_entries(l0, path@));
            lemma_drop_entries(l0, path@);
        }
        self.file_map = fm;
        let mut trie = FunctionTrie::new();
        std::mem::swap(&mut trie, &mut self.trie);
        let mut j: usize = 0;
        proof {
            assert(names_view(names@).take(0) =~= Seq::<Seq<char>>::empty());
        }
        while j < names.len()
            invariant
                j <= names@.len(),
                trie.view() == without_names(before, names_view(names@).take(j as int)),
                before.dom().finite(),
            decreases names@.len() - j,
        {
            assert(names_view(names@).take(j + 1).drop_last() =~= names_view(names@).take(j as int));
            trie.remove(names[j].as_str());
            j = j + 1;
        }
        proof {
            assert(names_view(names@).take(names@.len() as int) =~= names_view(names@));
            lemma_without_names_len(before, names_view(names@));
        }
        self.trie = trie;
    }

    /// Records the names registered from a file.
    pub fn record_file(&mut self, path: String, names: Vec<String>)
        ensures
            final(self).file_table() == old(self).file_table().insert(path@, names_view(names@)),
            final(self).functions() == old(self).functions(),
            final(self).enum_table() == old(self).enum_table(),
            final(self).event_list() == old(self).event_list(),
            final(self).urls() == old(self).urls(),
    {
        proof {
            use_type_invariant(&*self);
        }
        let mut fm: Vec<(String, Vec<String>)> = Vec::new();
        std::mem::swap(&mut fm, &mut self.file_map);
        let ghost l = fm@;
        fm.push((path, names));
        proof {
            assert(fm@.drop_last() =~= l);
        }
        self.file_map = fm;
    }

    /// Registers the custom functions parsed from a file and records their
    /// names for it. Returns the names.
    pub fn register_file(&mut self, path: &str, parsed: Vec<CustomFunction>) -> (r: Vec<String>)
        requires
            old(self).functions().dom().len() + registrations(parsed@).len() < usize::MAX,
        ensures
            names_view(r@) == registrations(parsed@).map_values(|e: (Seq<char>, int)| e.0),
            registered_index(old(self).functions(), final(self).functions(), parsed@, registrations(parsed@)),
            final(self).file_table() == old(self).file_table().insert(path@, names_view(r@)),
            final(self).enum_table() == old(self).enum_table(),
            final(self).event_list() == old(self).event_list(),
            final(self).urls() == old(self).urls(),
    {
        let names = self.add_custom_functions(parsed);
        self.record_file(String::from_str(path), clone_strings(&names));
        names
    }

    /// Replaces the functions registered from a file by those parsed from
    /// its new content. Returns how many custom functions were parsed.
    pub fn replace_file_functions(&mut self, path: &str, parsed: Vec<CustomFunction>) -> (r: usize)
        requires
            old(self).functions().dom().len() + registrations(parsed@).len() < usize::MAX,
        ensures
            r == parsed@.len(),
            registered_index(
                if old(self).file_table().contains_key(path@) {
                    without_names(old(self).functions(), old(self).file_table()[path@])
                } else {
                    old(self).functions()
                },
                final(self).functions(),
                parsed@,
                registrations(parsed@),
            ),
            final(self).file_table() == old(self).file_table().insert(
                path@,
                registrations(parsed@).map_values(|e: (Seq<char>, int)| e.0),
            ),
            final(self).enum_table() == old(self).enum_table(),
            final(self).event_list() == old(self).event_list(),
            final(self).urls() == old(self).urls(),
    {
        let ghost t0 = self.file_table();
        self.remove_functions_at_path(path);
        let count = parsed.len();
        let names = self.register_file(path, parsed);
        proof {
            assert(t0.remove(path@).insert(path@, names_view(names@)) =~= t0.insert(path@, names_view(names@)));
        }
        count
    }

    /// The known events.
    pub fn events(&self) -> (r: &Vec<Event>)
        ensures
            r@ == self.event_list(),
    {
        &self.events
    }
}

/// Looks a name up in a table, the last entry of that name deciding.
fn lookup_table(l: &Vec<(String, Vec<String>)>, name: &str) -> (r: Option<Vec<String>>)
    ensures
        r is Some <==> string_table(l@).contains_key(name@),
        r matches Some(v) ==> names_view(v@) == string_table(l@)[name@],
{
    let mut i = l.len();
    while i > 0
        invariant
            i <= l@.len(),
            forall|j: int| i <= j < l@.len() ==> (#[trigger] l@[j]).0@ != name@,
        decreases i,
    {
        if crate::text::str_eq(l[i - 1].0.as_str(), name) {
            proof {
                lemma_string_table_prefix(l@, i as int, name@);
                let t = l@.take(i as int);
                assert(t.drop_last() =~= l@.take(i - 1));
                assert(t.last() == l@[i - 1]);
            }
            return Some(clone_strings(&l[i - 1].1));
        }
        i = i - 1;
    }
    proof {
        lemma_string_table_prefix(l@, 0, name@);
        assert(l@.take(0) =~= Seq::<(String, Vec<String>)>::empty());
    }
    None
}

} // verus!
