//! Metadata describing ForgeScript functions and their arguments.

use vstd::prelude::*;
use vstd::string::StringExecFns;

verus! {

/// The declared type of an argument: a single type name, a list of
/// alternatives (an entry that is not a name shows as `?`), or anything else.
#[derive(Clone, Debug, PartialEq, Eq)]
pub enum ArgType {
    Name(String),
    Union(Vec<Option<String>>),
    Any,
}

/// Description of an individual argument within a ForgeScript function.
#[derive(Clone, Debug)]
pub struct Arg {
    pub name: String,
    pub description: String,
    pub rest: bool,
    pub required: Option<bool>,
    pub arg_type: ArgType,
    pub condition: Option<bool>,
    pub arg_enum: Option<Vec<String>>,
    pub enum_name: Option<String>,
    pub pointer: Option<i64>,
    pub pointer_property: Option<String>,
}

/// Comprehensive metadata for a ForgeScript command/function.
///
/// `version` holds the JSON text of the version value as published.
#[derive(Clone, Debug)]
pub struct Function {
    pub name: String,
    pub version: String,
    pub description: String,
    pub brackets: Option<bool>,
    pub unwrap: bool,
    pub args: Option<Vec<Arg>>,
    pub output: Option<Vec<String>>,
    pub category: Option<String>,
    pub aliases: Option<Vec<String>>,
    pub experimental: Option<bool>,
    pub examples: Option<Vec<String>>,
    pub deprecated: Option<bool>,
    pub extension: Option<String>,
    pub source_url: Option<String>,
    pub local_path: Option<String>,
    pub line: Option<u32>,
}

/// Joins the pieces with `sep` between consecutive ones.
pub open spec fn seq_join(list: Seq<Seq<char>>, sep: Seq<char>) -> Seq<char>
    decreases list.len(),
{
    if list.len() == 0 {
        Seq::empty()
    } else if list.len() == 1 {
        list[0]
    } else {
        seq_join(list.drop_last(), sep) + sep + list.last()
    }
}

/// Joins strings with a separator.
pub fn join_strings(list: &Vec<String>, sep: &str) -> (r: String)
    ensures
        r@ == seq_join(list@.map_values(|s: String| s@), sep@),
{
    let ghost views = list@.map_values(|s: String| s@);
    let mut out = String::new();
    let mut i: usize = 0;
    while i < list.len()
        invariant
            views == list@.map_values(|s: String| s@),
            i <= list@.len(),
            out@ == seq_join(views.take(i as int), sep@),
        decreases list@.len() - i,
    {
        assert(views.take(i + 1).drop_last() =~= views.take(i as int));
        if i != 0 {
            out.append(sep);
        } else {
            assert(out@ =~= Seq::<char>::empty());
        }
        out.append(list[i].as_str());
        assert(out@ =~= seq_join(views.take(i + 1), sep@));
        i = i + 1;
    }
    assert(views.take(list@.len() as int) =~= views);
    out
}

/// Text shown for a type: the name, the alternatives joined by `|` (a
/// non-name entry shows as `?`), or `Any`.
pub open spec fn type_text(t: ArgType) -> Seq<char> {
    match t {
        ArgType::Name(s) => s@,
        ArgType::Union(items) => seq_join(
            items@.map_values(|o: Option<String>| match o {
                Some(s) => s@,
                None => "?"@,
            }),
            "|"@,
        ),
        ArgType::Any => "Any"@,
    }
}

pub fn type_string(t: &ArgType) -> (r: String)
    ensures
        r@ == type_text(*t),
{
    match t {
        ArgType::Name(s) => s.clone(),
        ArgType::Union(items) => {
            let mut names: Vec<String> = Vec::new();
            let mut i: usize = 0;
            while i < items.len()
                invariant
                    i <= items@.len(),
                    names@.len() == i,
                    forall|j: int|
                        0 <= j < i ==> (#[trigger] names@[j])@ == match items@[j] {
                            Some(s) => s@,
                            None => "?"@,
                        },
                decreases items@.len() - i,
            {
                let piece = match &items[i] {
                    Some(s) => s.clone(),
                    None => String::from_str("?"),
                };
                names.push(piece);
                i = i + 1;
            }
            assert(names@.map_values(|s: String| s@) =~= items@.map_values(
                |o: Option<String>| match o {
                    Some(s) => s@,
                    None => "?"@,
                },
            ));
            join_strings(&names, "|")
        },
        ArgType::Any => String::from_str("Any"),
    }
}

/// An argument as shown in signatures: `...` for a rest argument, its name,
/// `?` unless it is required and not rest, then `: ` and the type text when
/// that is not empty.
pub open spec fn arg_label_text(a: Arg) -> Seq<char> {
    let head = if a.rest { "..."@ + a.name@ } else { a.name@ };
    let opt = if a.required != Some(true) || a.rest { head + "?"@ } else { head };
    let t = type_text(a.arg_type);
    if t.len() > 0 { opt + ": "@ + t } else { opt }
}

pub fn arg_label(a: &Arg) -> (r: String)
    ensures
        r@ == arg_label_text(*a),
{
    let mut name = String::new();
    if a.rest {
        name.append("...");
    }
    name.append(a.name.as_str());
    let ghost head = if a.rest { "..."@ + a.name@ } else { a.name@ };
    assert(name@ =~= head);
    if a.required != Some(true) || a.rest {
        name.append("?");
    }
    let ghost opt = if a.required != Some(true) || a.rest { head + "?"@ } else { head };
    assert(name@ =~= opt);
    let type_str = type_string(&a.arg_type);
    if !type_str.as_str().is_empty() {
        name.append(": ");
        name.append(type_str.as_str());
        assert(name@ =~= opt + ": "@ + type_str@);
    }
    name
}

/// The labels of the arguments, empty when the function declares none.
pub open spec fn arg_labels(args: Option<Vec<Arg>>) -> Seq<Seq<char>> {
    match args {
        Some(v) => v@.map_values(|a: Arg| arg_label_text(a)),
        None => Seq::empty(),
    }
}

pub fn arg_label_list(args: &Option<Vec<Arg>>) -> (r: Vec<String>)
    ensures
        r@.map_values(|s: String| s@) == arg_labels(*args),
{
    let mut out: Vec<String> = Vec::new();
    match args {
        Some(v) => {
            let mut i: usize = 0;
            while i < v.len()
                invariant
                    i <= v@.len(),
                    out@.len() == i,
                    forall|j: int| 0 <= j < i ==> (#[trigger] out@[j])@ == arg_label_text(v@[j]),
                decreases v@.len() - i,
            {
                out.push(arg_label(&v[i]));
                i = i + 1;
            }
            assert(out@.map_values(|s: String| s@) =~= arg_labels(*args));
        },
        None => {
            assert(out@.map_values(|s: String| s@) =~= arg_labels(*args));
        },
    }
    out
}

/// `name[label; label; ...]`.
pub open spec fn signature_text(f: Function) -> Seq<char> {
    f.name@ + "["@ + seq_join(arg_labels(f.args), "; "@) + "]"@
}

impl Function {
    /// Constructs a human-readable signature for documentation purposes.
    pub fn signature_label(&self) -> (r: String)
        ensures
            r@ == signature_text(*self),
    {
        let labels = arg_label_list(&self.args);
        let params = join_strings(&labels, "; ");
        let mut out = self.name.clone();
        out.append("[");
        out.append(params.as_str());
        out.append("]");
        out
    }
}

/// Optional strings compared by their characters.
pub open spec fn opt_chars(o: Option<String>) -> Option<Seq<char>> {
    match o {
        Some(s) => Some(s@),
        None => None,
    }
}

/// Optional string lists compared by their characters.
pub open spec fn opt_lists(o: Option<Vec<String>>) -> Option<Seq<Seq<char>>> {
    match o {
        Some(v) => Some(v@.map_values(|s: String| s@)),
        None => None,
    }
}

/// Two types read the same.
pub open spec fn same_type(a: ArgType, b: ArgType) -> bool {
    match (a, b) {
        (ArgType::Name(x), ArgType::Name(y)) => x@ == y@,
        (ArgType::Union(x), ArgType::Union(y)) => x@.map_values(|o: Option<String>| opt_chars(o))
            == y@.map_values(|o: Option<String>| opt_chars(o)),
        (ArgType::Any, ArgType::Any) => true,
        _ => false,
    }
}

/// Two arguments read the same.
pub open spec fn same_arg(a: Arg, b: Arg) -> bool {
    &&& a.name@ == b.name@
    &&& a.description@ == b.description@
    &&& a.rest == b.rest
    &&& a.required == b.required
    &&& same_type(a.arg_type, b.arg_type)
    &&& a.condition == b.condition
    &&& opt_lists(a.arg_enum) == opt_lists(b.arg_enum)
    &&& opt_chars(a.enum_name) == opt_chars(b.enum_name)
    &&& a.pointer == b.pointer
    &&& opt_chars(a.pointer_property) == opt_chars(b.pointer_property)
}

/// Two argument lists read the same.
pub open spec fn same_args(a: Option<Vec<Arg>>, b: Option<Vec<Arg>>) -> bool {
    match (a, b) {
        (Some(x), Some(y)) => x@.len() == y@.len() && forall|i: int| 0 <= i < x@.len() ==> same_arg(#[trigger] x@[i], y@[i]),
        (None, None) => true,
        _ => false,
    }
}

/// Two functions read the same but for their name, extension and source.
pub open spec fn same_metadata(g: Function, f: Function) -> bool {
    &&& g.version@ == f.version@
    &&& g.description@ == f.description@
    &&& g.brackets == f.brackets
    &&& g.unwrap == f.unwrap
    &&& same_args(g.args, f.args)
    &&& opt_lists(g.output) == opt_lists(f.output)
    &&& opt_chars(g.category) == opt_chars(f.category)
    &&& opt_lists(g.aliases) == opt_lists(f.aliases)
    &&& g.experimental == f.experimental
    &&& opt_lists(g.examples) == opt_lists(f.examples)
    &&& g.deprecated == f.deprecated
    &&& opt_chars(g.local_path) == opt_chars(f.local_path)
    &&& g.line == f.line
}

fn copy_opt_string(o: &Option<String>) -> (r: Option<String>)
    ensures
        opt_chars(r) == opt_chars(*o),
{
    match o {
        Some(s) => Some(s.clone()),
        None => None,
    }
}

fn copy_opt_list(o: &Option<Vec<String>>) -> (r: Option<Vec<String>>)
    ensures
        opt_lists(r) == opt_lists(*o),
{
    match o {
        Some(v) => {
            let mut out: Vec<String> = Vec::new();
            let mut i: usize = 0;
            while i < v.len()
                invariant
                    i <= v@.len(),
                    out@.len() == i,
                    forall|j: int| 0 <= j < i ==> (#[trigger] out@[j])@ == v@[j]@,
                decreases v@.len() - i,
            {
                out.push(v[i].clone());
                i = i + 1;
            }
            assert(out@.map_values(|s: String| s@) =~= v@.map_values(|s: String| s@));
            Some(out)
        },
        None => None,
    }
}

fn copy_type(t: &ArgType) -> (r: ArgType)
    ensures
        same_type(r, *t),
{
    match t {
        ArgType::Name(s) => ArgType::Name(s.clone()),
        ArgType::Union(items) => {
            let mut out: Vec<Option<String>> = Vec::new();
            let mut i: usize = 0;
            while i < items.len()
                invariant
                    i <= items@.len(),
                    out@.len() == i,
                    forall|j: int| 0 <= j < i ==> opt_chars(#[trigger] out@[j]) == opt_chars(items@[j]),
                decreases items@.len() - i,
            {
                out.push(copy_opt_string(&items[i]));
                i = i + 1;
            }
            assert(out@.map_values(|o: Option<String>| opt_chars(o)) =~= items@.map_values(
                |o: Option<String>| opt_chars(o),
            ));
            ArgType::Union(out)
        },
        ArgType::Any => ArgType::Any,
    }
}

fn copy_args(a: &Option<Vec<Arg>>) -> (r: Option<Vec<Arg>>)
    ensures
        same_args(r, *a),
{
    match a {
        Some(v) => {
            let mut out: Vec<Arg> = Vec::new();
            let mut i: usize = 0;
            while i < v.len()
                invariant
                    i <= v@.len(),
                    out@.len() == i,
                    forall|j: int| 0 <= j < i ==> same_arg(#[trigger] out@[j], v@[j]),
                decreases v@.len() - i,
            {
                let x = &v[i];
                out.push(
                    Arg {
                        name: x.name.clone(),
                        description: x.description.clone(),
                        rest: x.rest,
                        required: x.required,
                        arg_type: copy_type(&x.arg_type),
                        condition: x.condition,
                        arg_enum: copy_opt_list(&x.arg_enum),
                        enum_name: copy_opt_string(&x.enum_name),
                        pointer: x.pointer,
                        pointer_property: copy_opt_string(&x.pointer_property),
                    },
                );
                i = i + 1;
            }
            Some(out)
        },
        None => None,
    }
}

/// A copy of a function under another name, extension and source.
pub fn retag(f: &Function, name: &str, extension: &Option<String>, source_url: &Option<String>) -> (r: Function)
    ensures
        same_metadata(r, *f),
        r.name@ == name@,
        opt_chars(r.extension) == opt_chars(*extension),
        opt_chars(r.source_url) == opt_chars(*source_url),
{
    Function {
        name: String::from_str(name),
        version: f.version.clone(),
        description: f.description.clone(),
        brackets: f.brackets,
        unwrap: f.unwrap,
        args: copy_args(&f.args),
        output: copy_opt_list(&f.output),
        category: copy_opt_string(&f.category),
        aliases: copy_opt_list(&f.aliases),
        experimental: f.experimental,
        examples: copy_opt_list(&f.examples),
        deprecated: f.deprecated,
        extension: copy_opt_string(extension),
        source_url: copy_opt_string(source_url),
        local_path: copy_opt_string(&f.local_path),
        line: f.line,
    }
}

} // verus!
