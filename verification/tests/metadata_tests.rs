use forgelsp::cache::cache_file;
use forgelsp::custom::{CustomFunction, CustomFunctionParam, CustomParams, ParamValue};
use forgelsp::function::{Arg, ArgType, Function};
use forgelsp::js::parse_custom_functions_from_js;
use forgelsp::metadata::{derived_urls, extension_of, MetadataManager};

fn func(name: &str, aliases: Option<Vec<&str>>) -> Function {
    Function {
        name: name.to_string(),
        version: "\"2.0.0\"".to_string(),
        description: format!("{name} does things"),
        brackets: None,
        unwrap: false,
        args: None,
        output: Some(vec!["String".to_string()]),
        category: Some("misc".to_string()),
        aliases: aliases.map(|v| v.into_iter().map(String::from).collect()),
        experimental: None,
        examples: None,
        deprecated: None,
        extension: None,
        source_url: None,
        local_path: None,
        line: None,
    }
}

const SOURCE: &str = "https://raw.githubusercontent.com/tryforge/forgescript/dev/metadata/functions.json";

fn custom(name: &str, alias: Option<Vec<&str>>, params: Option<CustomParams>) -> CustomFunction {
    CustomFunction {
        name: name.to_string(),
        description: None,
        params,
        brackets: None,
        alias: alias.map(|v| v.into_iter().map(String::from).collect()),
        path: Some("/p/f.js".to_string()),
        line: Some(3),
        output: None,
    }
}

#[test]
fn indexed_source_tags_entries_and_aliases() {
    let mut m = MetadataManager::new(vec![SOURCE.to_string()]);
    let funcs = vec![func("$ping", Some(vec!["$pong"])), func("$send", None)];
    m.index_source(SOURCE, &funcs);
    assert_eq!(m.function_count(), 3);
    let ping = m.get_exact("$PING").unwrap();
    assert_eq!(ping.name, "$ping");
    assert_eq!(ping.extension.as_deref(), Some("forgescript"));
    assert_eq!(ping.source_url.as_deref(), Some(SOURCE));
    assert_eq!(ping.version, "\"2.0.0\"");
    let pong = m.get_exact("$pong").unwrap();
    assert_eq!(pong.name, "$pong");
    assert_eq!(pong.description, "$ping does things");
    assert!(m.get_exact("$nothing").is_none());
    assert_eq!(m.all_functions().len(), 3);
}

#[test]
fn lookup_in_text_prefers_the_longer_name() {
    let mut m = MetadataManager::new(vec![]);
    m.index_source("local", &vec![func("$ping", None), func("$pingserver", None)]);
    assert_eq!(m.get("$pingserver").unwrap().name, "$pingserver");
    let (matched, f) = m.get_with_match("$pingX").unwrap();
    assert_eq!(matched, "$ping");
    assert_eq!(f.name, "$ping");
    assert_eq!(m.get_exact("local").map(|f| f.name.clone()), None);
    assert_eq!(m.get("$ping").unwrap().extension, None);
}

#[test]
fn extension_comes_from_github_sources_only() {
    assert_eq!(extension_of(SOURCE).as_deref(), Some("forgescript"));
    assert_eq!(extension_of("https://example.com/a/b/c/d/functions.json"), None);
    assert_eq!(extension_of("https://githubusercontent.com/x"), None);
}

#[test]
fn custom_functions_are_registered_with_prefix_and_aliases() {
    let mut m = MetadataManager::new(vec![]);
    let params = CustomParams::List(vec![
        ParamValue::Param(CustomFunctionParam {
            name: "who".to_string(),
            description: Some("the target".to_string()),
            param_type: "User".to_string(),
            required: Some(true),
            rest: None,
            arg_enum: None,
            enum_name: None,
        }),
        ParamValue::Name("extra".to_string()),
        ParamValue::Other,
    ]);
    let names = m.add_custom_functions(vec![custom("greet", Some(vec!["hi", "$yo"]), Some(params))]);
    assert_eq!(names, vec!["$greet".to_string(), "$hi".to_string(), "$yo".to_string()]);
    let g = m.get_exact("$greet").unwrap();
    assert_eq!(g.version, "\"1.0.0\"");
    assert_eq!(g.description, "Custom function");
    assert_eq!(g.brackets, Some(true));
    assert_eq!(g.category.as_deref(), Some("custom"));
    assert_eq!(g.aliases, Some(vec!["$hi".to_string(), "$yo".to_string()]));
    assert_eq!(g.local_path.as_deref(), Some("/p/f.js"));
    assert_eq!(g.line, Some(3));
    let args = g.args.as_ref().unwrap();
    assert_eq!(args.len(), 2);
    assert_eq!(args[0].name, "who");
    assert_eq!(args[0].description, "the target");
    assert_eq!(args[0].arg_type, ArgType::Name("User".to_string()));
    assert!(!args[0].rest);
    assert_eq!(args[1].name, "extra");
    assert_eq!(args[1].required, Some(true));
    assert_eq!(args[1].arg_type, ArgType::Name("String".to_string()));
    let hi = m.get_exact("$HI").unwrap();
    assert_eq!(hi.name, "$hi");
    assert_eq!(m.function_count(), 3);
}

#[test]
fn custom_function_without_params_has_no_brackets_or_args() {
    let mut m = MetadataManager::new(vec![]);
    let names = m.add_custom_functions(vec![custom("$plain", None, None)]);
    assert_eq!(names, vec!["$plain".to_string()]);
    let f = m.get_exact("$plain").unwrap();
    assert_eq!(f.brackets, None);
    assert!(f.args.is_none());
    let mut m2 = MetadataManager::new(vec![]);
    m2.add_custom_functions(vec![custom("odd", None, Some(CustomParams::Other))]);
    let f2 = m2.get_exact("$odd").unwrap();
    assert_eq!(f2.brackets, Some(true));
    assert!(f2.args.is_none());
}

#[test]
fn later_registration_of_a_name_wins() {
    let mut m = MetadataManager::new(vec![]);
    let mut first = custom("dup", None, None);
    first.description = Some("first".to_string());
    let mut second = custom("DUP", None, None);
    second.description = Some("second".to_string());
    m.add_custom_functions(vec![first, second]);
    assert_eq!(m.function_count(), 1);
    assert_eq!(m.get_exact("$dup").unwrap().description, "second");
}

#[test]
fn file_functions_are_replaced_and_removed() {
    let mut m = MetadataManager::new(vec![]);
    m.index_source("local", &vec![func("$keep", None)]);
    let names = m.register_file("/w/a.js", vec![custom("one", Some(vec!["uno"]), None)]);
    assert_eq!(names, vec!["$one".to_string(), "$uno".to_string()]);
    assert_eq!(m.function_count(), 3);
    let count = m.replace_file_functions("/w/a.js", vec![custom("two", None, None), custom("three", None, None)]);
    assert_eq!(count, 2);
    assert!(m.get_exact("$one").is_none());
    assert!(m.get_exact("$uno").is_none());
    assert!(m.get_exact("$two").is_some());
    assert_eq!(m.function_count(), 3);
    m.remove_functions_at_path("/w/a.js");
    assert!(m.get_exact("$two").is_none());
    assert!(m.get_exact("$three").is_none());
    assert!(m.get_exact("$keep").is_some());
    m.remove_functions_at_path("/w/other.js");
    assert_eq!(m.function_count(), 1);
}

#[test]
fn enum_tables_use_the_last_definition() {
    let mut m = MetadataManager::new(vec![]);
    m.set_enums(vec![
        ("Color".to_string(), vec!["red".to_string()]),
        ("Size".to_string(), vec!["big".to_string()]),
        ("Color".to_string(), vec!["blue".to_string(), "green".to_string()]),
    ]);
    assert_eq!(m.enum_values("Color"), Some(vec!["blue".to_string(), "green".to_string()]));
    assert_eq!(m.enum_values("Size"), Some(vec!["big".to_string()]));
    assert_eq!(m.enum_values("None"), None);
}

#[test]
fn companion_urls_replace_the_functions_file() {
    let urls = vec![SOURCE.to_string(), "https://example.com/other.json".to_string()];
    let enums = derived_urls(&urls, "enums.json");
    assert_eq!(enums, vec!["https://raw.githubusercontent.com/tryforge/forgescript/dev/metadata/enums.json".to_string()]);
    let events = derived_urls(&urls, "events.json");
    assert_eq!(events.len(), 1);
    assert!(events[0].ends_with("/metadata/events.json"));
}

#[test]
fn cache_files_are_named_by_base64_of_the_url() {
    assert_eq!(
        cache_file("https://raw.githubusercontent.com/tryforge/forgescript/dev/metadata/functions.json"),
        "aHR0cHM6Ly9yYXcuZ2l0aHVidXNlcmNvbnRlbnQuY29tL3RyeWZvcmdlL2Zvcmdlc2NyaXB0L2Rldi9tZXRhZGF0YS9mdW5jdGlvbnMuanNvbg.json"
    );
    assert_eq!(cache_file("https://example.com/f.json"), "aHR0cHM6Ly9leGFtcGxlLmNvbS9mLmpzb24.json");
    assert_eq!(cache_file("ab"), "YWI.json");
}

const JS: &str = "module.exports = {\n  name: 'greet',\n  description: 'Says hi',\n  brackets: true,\n  output: 'String',\n  params: [\n    { name: 'who', required: true, type: ArgType.String, description: \"The target\" },\n    { name: \"times\", rest: true, type: 'Number' }\n  ],\n  code: `hi`\n}\nexport default { name: \"other\", args: [\"a\", \"b\"] }\n";

#[test]
fn js_declarations_are_read() {
    let fs = parse_custom_functions_from_js(JS, "/w/greet.js");
    assert_eq!(fs.len(), 2);
    let g = &fs[0];
    assert_eq!(g.name, "greet");
    assert_eq!(g.description.as_deref(), Some("Says hi"));
    assert_eq!(g.brackets, Some(true));
    assert_eq!(g.output, Some(vec!["String".to_string()]));
    assert_eq!(g.line, Some(1));
    assert_eq!(g.path.as_deref(), Some("/w/greet.js"));
    match &g.params {
        Some(CustomParams::List(ps)) => {
            assert_eq!(ps.len(), 2);
            match &ps[0] {
                ParamValue::Param(q) => {
                    assert_eq!(q.name, "who");
                    assert_eq!(q.required, Some(true));
                    assert_eq!(q.rest, None);
                    assert_eq!(q.param_type, "String");
                    assert_eq!(q.description.as_deref(), Some("The target"));
                },
                _ => panic!("expected a parameter"),
            }
            match &ps[1] {
                ParamValue::Param(q) => {
                    assert_eq!(q.name, "times");
                    assert_eq!(q.rest, Some(true));
                    assert_eq!(q.param_type, "Number");
                    assert_eq!(q.description, None);
                },
                _ => panic!("expected a parameter"),
            }
        },
        _ => panic!("expected a parameter list"),
    }
    let o = &fs[1];
    assert_eq!(o.name, "other");
    assert_eq!(o.description, None);
    assert_eq!(o.brackets, None);
    assert!(o.params.is_none());
    assert_eq!(o.line, Some(11));
}

#[test]
fn js_parameter_names_without_objects() {
    let src = "name: 'f', params: [name: 'a', name: 'b']";
    let fs = parse_custom_functions_from_js(src, "x.js");
    assert_eq!(fs.len(), 1);
    match &fs[0].params {
        Some(CustomParams::List(ps)) => {
            assert_eq!(ps.len(), 2);
            assert!(matches!(&ps[0], ParamValue::Name(n) if n == "a"));
            assert!(matches!(&ps[1], ParamValue::Name(n) if n == "b"));
        },
        _ => panic!("expected a name list"),
    }
}

#[test]
fn js_parsed_functions_register() {
    let mut m = MetadataManager::new(vec![]);
    let parsed = parse_custom_functions_from_js(JS, "/w/greet.js");
    let names = m.register_file("/w/greet.js", parsed);
    assert_eq!(names, vec!["$greet".to_string(), "$other".to_string()]);
    let g = m.get_exact("$greet").unwrap();
    let args = g.args.as_ref().unwrap();
    assert_eq!(args.len(), 2);
    assert!(args[1].rest);
    assert_eq!(g.description, "Says hi");
}

#[test]
fn arg_helper_types_compare() {
    let a = Arg {
        name: "x".to_string(),
        description: String::new(),
        rest: false,
        required: None,
        arg_type: ArgType::Union(vec![Some("A".to_string()), None]),
        condition: None,
        arg_enum: None,
        enum_name: None,
        pointer: None,
        pointer_property: None,
    };
    assert_eq!(forgelsp::function::arg_label(&a), "x?: A|?");
}
