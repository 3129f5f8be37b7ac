//! Custom functions declared by a project: in its configuration, or in the
//! JavaScript and TypeScript files of its custom-function folder.

use vstd::prelude::*;
use vstd::string::{StrSliceExecFns, StringExecFns};
use crate::function::{Arg, ArgType, Function};
use crate::metadata::{clone_strings, names_view};
use crate::strings::dollar_name;

verus! {

/// A parameter of a custom function, as its declaration gives it.
#[derive(Clone, Debug)]
pub struct CustomFunctionParam {
    pub name: String,
    pub description: Option<String>,
    pub param_type: String,
    pub required: Option<bool>,
    pub rest: Option<bool>,
    pub arg_enum: Option<Vec<String>>,
    pub enum_name: Option<String>,
}

/// One entry of a custom function's parameter list: a full parameter
/// declaration, a bare parameter name, or something that declares neither.
#[derive(Clone, Debug)]
pub enum ParamValue {
    Param(CustomFunctionParam),
    Name(String),
    Other,
}

/// A custom function's parameters: a list of entries, or a value that is not a list.
#[derive(Clone, Debug)]
pub enum CustomParams {
    List(Vec<ParamValue>),
    Other,
}

/// Structure representing a user-defined function.
#[derive(Clone, Debug)]
pub struct CustomFunction {
    pub name: String,
    pub description: Option<String>,
    pub params: Option<CustomParams>,
    pub brackets: Option<bool>,
    pub alias: Option<Vec<String>>,
    pub path: Option<String>,
    pub line: Option<u32>,
    pub output: Option<Vec<String>>,
}

/// A name as registered: with a leading `$`.
pub open spec fn dollar_prefixed(n: Seq<char>) -> Seq<char> {
    if n.len() > 0 && n[0] == '$' {
        n
    } else {
        seq!['$'] + n
    }
}

/// Prefixes a name with `$` unless it already starts with one.
pub fn with_dollar(name: &str) -> (r: String)
    ensures
        r@ == dollar_prefixed(name@),
{
    if name.unicode_len() > 0 && name.get_char(0) == '$' {
        String::from_str(name)
    } else {
        dollar_name(name)
    }
}

/// Optional string lists compared by their characters.
pub open spec fn opt_names(o: Option<Vec<String>>) -> Option<Seq<Seq<char>>> {
    match o {
        Some(v) => Some(names_view(v@)),
        None => None,
    }
}

/// Optional strings compared by their characters.
pub open spec fn opt_text(o: Option<String>) -> Option<Seq<char>> {
    match o {
        Some(s) => Some(s@),
        None => None,
    }
}

/// Copies an optional list of strings.
pub fn clone_opt_strings(o: &Option<Vec<String>>) -> (r: Option<Vec<String>>)
    ensures
        opt_names(r) == opt_names(*o),
{
    match o {
        Some(v) => Some(clone_strings(v)),
        None => None,
    }
}

/// Whether a parameter entry declares an argument.
pub open spec fn declares_arg(p: ParamValue) -> bool {
    p is Param || p is Name
}

/// The argument a parameter entry declares: a full declaration keeps its
/// fields (no description reads as empty, no rest flag as false); a bare name
/// is a required `String` argument.
pub open spec fn arg_from(a: Arg, p: ParamValue) -> bool {
    &&& a.condition is None
    &&& a.pointer is None
    &&& a.pointer_property is None
    &&& match p {
        ParamValue::Param(q) => {
            &&& a.name@ == q.name@
            &&& a.description@ == (match q.description {
                Some(d) => d@,
                None => Seq::<char>::empty(),
            })
            &&& a.rest == (q.rest == Some(true))
            &&& a.required == q.required
            &&& a.arg_type matches ArgType::Name(t) && t@ == q.param_type@
            &&& opt_names(a.arg_enum) == opt_names(q.arg_enum)
            &&& opt_text(a.enum_name) == opt_text(q.enum_name)
        },
        ParamValue::Name(n) => {
            &&& a.name@ == n@
            &&& a.description@ == Seq::<char>::empty()
            &&& !a.rest
            &&& a.required == Some(true)
            &&& a.arg_type matches ArgType::Name(t) && t@ == "String"@
            &&& a.arg_enum is None
            &&& a.enum_name is None
        },
        ParamValue::Other => false,
    }
}

/// The entries that declare arguments, in order.
pub open spec fn declared(ps: Seq<ParamValue>) -> Seq<ParamValue>
    decreases ps.len(),
{
    if ps.len() == 0 {
        Seq::empty()
    } else if declares_arg(ps.last()) {
        declared(ps.drop_last()).push(ps.last())
    } else {
        declared(ps.drop_last())
    }
}

/// The arguments of a custom function: one per declaring entry of its list,
/// none when the list declares none or the parameters are not a list.
pub open spec fn args_from(args: Option<Vec<Arg>>, params: Option<CustomParams>) -> bool {
    match params {
        Some(CustomParams::List(ps)) => {
            let d = declared(ps@);
            if d.len() == 0 {
                args is None
            } else {
                args matches Some(v) && v@.len() == d.len() && forall|i: int|
                    0 <= i < d.len() ==> arg_from(#[trigger] v@[i], d[i])
            }
        },
        _ => args is None,
    }
}

/// Builds the argument a parameter entry declares.
fn param_arg(p: &ParamValue) -> (r: Option<Arg>)
    ensures
        r is Some <==> declares_arg(*p),
        r matches Some(a) ==> arg_from(a, *p),
{
    match p {
        ParamValue::Param(q) => {
            let description = match &q.description {
                Some(d) => d.clone(),
                None => String::new(),
            };
            let rest = match q.rest {
                Some(b) => b,
                None => false,
            };
            let enum_name = match &q.enum_name {
                Some(e) => Some(e.clone()),
                None => None,
            };
            Some(
                Arg {
                    name: q.name.clone(),
                    description,
                    rest,
                    required: q.required,
                    arg_type: ArgType::Name(q.param_type.clone()),
                    condition: None,
                    arg_enum: clone_opt_strings(&q.arg_enum),
                    enum_name,
                    pointer: None,
                    pointer_property: None,
                },
            )
        },
        ParamValue::Name(n) => {
            proof {
                reveal_strlit("String");
            }
            Some(
                Arg {
                    name: n.clone(),
                    description: String::new(),
                    rest: false,
                    required: Some(true),
                    arg_type: ArgType::Name(String::from_str("String")),
                    condition: None,
                    arg_enum: None,
                    enum_name: None,
                    pointer: None,
                    pointer_property: None,
                },
            )
        },
        ParamValue::Other => None,
    }
}

/// Builds the arguments of a custom function from its parameters.
pub fn custom_args(params: &Option<CustomParams>) -> (r: Option<Vec<Arg>>)
    ensures
        args_from(r, *params),
{
    match params {
        Some(CustomParams::List(ps)) => {
            let mut out: Vec<Arg> = Vec::new();
            let mut i: usize = 0;
            while i < ps.len()
                invariant
                    i <= ps@.len(),
                    out@.len() == declared(ps@.take(i as int)).len(),
                    forall|j: int| 0 <= j < out@.len() ==> arg_from(#[trigger] out@[j], declared(ps@.take(i as int))[j]),
                decreases ps@.len() - i,
            {
                assert(ps@.take(i + 1).drop_last() =~= ps@.take(i as int));
                match param_arg(&ps[i]) {
                    Some(a) => {
                        out.push(a);
                    },
                    None => {},
                }
                i = i + 1;
            }
            assert(ps@.take(ps@.len() as int) =~= ps@);
            if out.len() == 0 {
                None
            } else {
                Some(out)
            }
        },
        _ => None,
    }
}

/// The function registered for a custom function under `name`: `$`-prefixed
/// name or alias, version `"1.0.0"`, its description or `Custom function`,
/// brackets as declared or required when it has parameters, its arguments,
/// output and `$`-prefixed aliases, category `custom`, and the file and line
/// it was declared at.
pub open spec fn function_for(f: Function, c: CustomFunction, name: Seq<char>) -> bool {
    &&& f.name@ == name
    &&& f.version@ == "\"1.0.0\""@
    &&& f.description@ == (match c.description {
        Some(d) => d@,
        None => "Custom function"@,
    })
    &&& f.brackets == (match c.brackets {
        Some(b) => Some(b),
        None => if c.params is Some {
            Some(true)
        } else {
            None
        },
    })
    &&& !f.unwrap
    &&& args_from(f.args, c.params)
    &&& opt_names(f.output) == opt_names(c.output)
    &&& f.category matches Some(cat) && cat@ == "custom"@
    &&& opt_names(f.aliases) == (match c.alias {
        Some(v) => Some(names_view(v@).map_values(|a: Seq<char>| dollar_prefixed(a))),
        None => None,
    })
    &&& f.experimental is None
    &&& f.examples is None
    &&& f.deprecated is None
    &&& f.extension is None
    &&& f.source_url is None
    &&& opt_text(f.local_path) == opt_text(c.path)
    &&& f.line == c.line
}

/// The `$`-prefixed aliases of a custom function.
pub fn custom_aliases(alias: &Option<Vec<String>>) -> (r: Option<Vec<String>>)
    ensures
        opt_names(r) == (match *alias {
            Some(v) => Some(names_view(v@).map_values(|a: Seq<char>| dollar_prefixed(a))),
            None => None,
        }),
{
    match alias {
        Some(v) => {
            let mut out: Vec<String> = Vec::new();
            let mut i: usize = 0;
            while i < v.len()
                invariant
                    i <= v@.len(),
                    out@.len() == i,
                    forall|j: int| 0 <= j < i ==> (#[trigger] out@[j])@ == dollar_prefixed(v@[j]@),
                decreases v@.len() - i,
            {
                out.push(with_dollar(v[i].as_str()));
                i = i + 1;
            }
            assert(names_view(out@) =~= names_view(v@).map_values(|a: Seq<char>| dollar_prefixed(a)));
            Some(out)
        },
        None => None,
    }
}

/// Builds the function registered for a custom function under `name`.
pub fn custom_function_entry(c: &CustomFunction, name: &str) -> (r: Function)
    ensures
        function_for(r, *c, name@),
{
    proof {
        reveal_strlit("\"1.0.0\"");
        reveal_strlit("Custom function");
        reveal_strlit("custom");
    }
    let description = match &c.description {
        Some(d) => d.clone(),
        None => String::from_str("Custom function"),
    };
    let brackets = match c.brackets {
        Some(b) => Some(b),
        None => if c.params.is_some() {
            Some(true)
        } else {
            None
        },
    };
    let local_path = match &c.path {
        Some(p) => Some(p.clone()),
        None => None,
    };
    Function {
        name: String::from_str(name),
        version: String::from_str("\"1.0.0\""),
        description,
        brackets,
        unwrap: false,
        args: custom_args(&c.params),
        output: clone_opt_strings(&c.output),
        category: Some(String::from_str("custom")),
        aliases: custom_aliases(&c.alias),
        experimental: None,
        examples: None,
        deprecated: None,
        extension: None,
        source_url: None,
        local_path,
        line: c.line,
    }
}

/// The names a custom function registers, each with the index of the custom
/// function: its `$`-prefixed name, then its `$`-prefixed aliases.
pub open spec fn entries_of(c: CustomFunction, i: int) -> Seq<(Seq<char>, int)> {
    seq![(dollar_prefixed(c.name@), i)] + match c.alias {
        Some(v) => names_view(v@).map_values(|a: Seq<char>| (dollar_prefixed(a), i)),
        None => Seq::empty(),
    }
}

/// The names a list of custom functions registers, in order, each with the
/// index of the custom function it belongs to.
pub open spec fn registrations(cs: Seq<CustomFunction>) -> Seq<(Seq<char>, int)>
    decreases cs.len(),
{
    if cs.len() == 0 {
        Seq::empty()
    } else {
        registrations(cs.drop_last()) + entries_of(cs.last(), cs.len() - 1)
    }
}

} // verus!
