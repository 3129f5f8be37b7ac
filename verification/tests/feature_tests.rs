use forgelsp::custom::CustomFunction;
use forgelsp::features::{
    build_completion_item, build_signature_help_parameters, depth_at, folding_ranges, get_completions,
    get_definition, get_hover, get_signature_help, highlight_ranges, should_trigger_completion,
    to_editor_diagnostics, CompletionItemKind, DefinitionError, Range,
};
use forgelsp::function::{Arg, ArgType, Function};
use forgelsp::metadata::MetadataManager;
use forgelsp::parser::{Diagnostic, ForgeScriptParser};
use forgelsp::position::Position;
use std::sync::Arc;

fn arg(name: &str, values: Option<Vec<&str>>) -> Arg {
    Arg {
        name: name.to_string(),
        description: format!("the {name}"),
        rest: false,
        required: Some(true),
        arg_type: ArgType::Name("String".to_string()),
        condition: None,
        arg_enum: values.map(|v| v.into_iter().map(String::from).collect()),
        enum_name: None,
        pointer: None,
        pointer_property: None,
    }
}

fn func(name: &str, args: Option<Vec<Arg>>, brackets: Option<bool>) -> Function {
    Function {
        name: name.to_string(),
        version: "\"1.0.0\"".to_string(),
        description: format!("{name} does things"),
        brackets,
        unwrap: false,
        args,
        output: Some(vec!["String".to_string()]),
        category: Some("misc".to_string()),
        aliases: None,
        experimental: None,
        examples: None,
        deprecated: None,
        extension: None,
        source_url: None,
        local_path: None,
        line: None,
    }
}

fn manager() -> MetadataManager {
    let mut m = MetadataManager::new(vec![]);
    let send = func("$send", Some(vec![arg("type", Some(vec!["text", "voice"])), arg("message", None)]), Some(true));
    m.index_source("local", &vec![send, func("$ping", None, None)]);
    m
}

#[test]
fn enum_argument_offers_its_values() {
    let m = manager();
    let list = get_completions("$send[", Position::new(0, 6), &m).unwrap();
    assert!(!list.is_incomplete);
    assert_eq!(list.items.len(), 2);
    assert_eq!(list.items[0].label, "text");
    assert_eq!(list.items[1].label, "voice");
    assert_eq!(list.items[0].kind, CompletionItemKind::EnumMember);
    assert_eq!(list.items[0].detail.as_deref(), Some("Enum for type"));
    assert_eq!(list.items[0].insert_text.as_deref(), Some("text"));
    assert!(should_trigger_completion("$send[", Position::new(0, 6), &m));
}

#[test]
fn named_enum_comes_from_the_enum_table() {
    let mut m = MetadataManager::new(vec![]);
    let mut a = arg("mode", None);
    a.enum_name = Some("Mode".to_string());
    m.index_source("local", &vec![func("$set", Some(vec![a]), Some(true))]);
    m.set_enums(vec![("Mode".to_string(), vec!["on".to_string(), "off".to_string()])]);
    let list = get_completions("$set[", Position::new(0, 5), &m).unwrap();
    let labels: Vec<String> = list.items.iter().map(|i| i.label.clone()).collect();
    assert_eq!(labels, vec!["on".to_string(), "off".to_string()]);
}

#[test]
fn other_arguments_offer_every_function() {
    let m = manager();
    let text = "$send[text;";
    let list = get_completions(text, Position::new(0, 11), &m).unwrap();
    assert_eq!(list.items.len(), 2);
    let mut labels: Vec<String> = list.items.iter().map(|i| i.label.clone()).collect();
    labels.sort();
    assert_eq!(labels, vec!["$ping".to_string(), "$send".to_string()]);
    let item = &list.items[0];
    assert_eq!(item.kind, CompletionItemKind::Function);
    let (range, _) = item.text_edit.as_ref().unwrap();
    assert_eq!(*range, Range { start: Position::new(0, 0), end: Position::new(0, 11) });
    assert!(!should_trigger_completion(text, Position::new(0, 11), &m));
}

#[test]
fn modifier_after_dollar_goes_into_labels() {
    let m = manager();
    let list = get_completions("say $!pi", Position::new(0, 8), &m).unwrap();
    let ping = list.items.iter().find(|i| i.filter_text.as_deref() == Some("$ping")).unwrap();
    assert_eq!(ping.label, "$!ping");
    let (range, text) = ping.text_edit.as_ref().unwrap();
    assert_eq!(text, "$!ping");
    assert_eq!(range.start, Position::new(0, 4));
    assert_eq!(ping.detail.as_deref(), Some("misc"));
    assert!(ping.documentation.as_ref().unwrap().starts_with("```forgescript\n$ping[]\n```"));
}

#[test]
fn no_dollar_no_completions() {
    let m = manager();
    assert!(get_completions("hello", Position::new(0, 5), &m).is_none());
    assert!(get_completions("$a\nhello", Position::new(1, 3), &m).is_none());
}

#[test]
fn completion_item_labels() {
    let f = func("$ping", None, None);
    let r = Range { start: Position::new(0, 0), end: Position::new(0, 1) };
    assert_eq!(build_completion_item(&f, ".", r).label, "$.ping");
    assert_eq!(build_completion_item(&f, "", r).label, "$ping");
    let mut g = func("$x", None, None);
    g.extension = Some("ext".to_string());
    assert_eq!(build_completion_item(&g, "", r).detail.as_deref(), Some("ext"));
    g.extension = None;
    g.category = None;
    assert_eq!(build_completion_item(&g, "", r).detail.as_deref(), Some("Function"));
}

#[test]
fn signature_help_for_the_call_around_the_cursor() {
    let m = manager();
    let help = get_signature_help("$send[text;", Position::new(0, 11), &m).unwrap();
    assert_eq!(help.signatures.len(), 1);
    assert_eq!(help.active_signature, 0);
    assert_eq!(help.active_parameter, 1);
    let sig = &help.signatures[0];
    assert_eq!(sig.label, "$send[type: String; message: String]");
    assert_eq!(sig.documentation, "$send does things");
    assert_eq!(sig.parameters.len(), 2);
    assert_eq!(sig.parameters[1].label, "message: String");
    assert_eq!(sig.parameters[1].documentation, "the message");
    assert!(get_signature_help("$nope[", Position::new(0, 6), &m).is_none());
    assert!(get_signature_help("plain", Position::new(0, 5), &m).is_none());
}

#[test]
fn parameter_labels_mark_optional_and_rest() {
    let mut a = arg("x", None);
    a.required = Some(false);
    let mut b = arg("y", None);
    b.rest = true;
    let f = func("$f", Some(vec![a, b]), Some(true));
    let ps = build_signature_help_parameters(&f);
    assert_eq!(ps[0].label, "x?: String");
    assert_eq!(ps[1].label, "...y?: String");
    assert!(build_signature_help_parameters(&func("$g", None, None)).is_empty());
}

#[test]
fn hover_documents_the_call_under_the_cursor() {
    let m = manager();
    let md = get_hover("say $ping now", Position::new(0, 6), &m).unwrap();
    assert!(md.starts_with("```forgescript\n$ping -> "));
    assert!(md.contains("$ping does things"));
    assert!(get_hover("say $ping now", Position::new(0, 1), &m).is_none());
    assert!(get_hover("$esc", Position::new(0, 2), &m).is_none());
}

#[test]
fn hover_ignores_modifiers() {
    let m = manager();
    let md = get_hover("$!send[a]", Position::new(0, 3), &m).unwrap();
    assert!(md.starts_with("```forgescript\n$send[type: String; message: String] -> "));
}

#[test]
fn definition_of_a_custom_function() {
    let mut m = MetadataManager::new(vec![]);
    m.add_custom_functions(vec![CustomFunction {
        name: "greet".to_string(),
        description: None,
        params: None,
        brackets: None,
        alias: None,
        path: Some("/w/greet.js".to_string()),
        line: Some(7),
        output: None,
    }]);
    let d = get_definition("use $greet here", Position::new(0, 6), &m).unwrap();
    assert_eq!(d, Some(("/w/greet.js".to_string(), 7)));
    assert_eq!(get_definition("use $greet here", Position::new(0, 1), &m).unwrap(), None);
    assert_eq!(get_definition("x", Position::new(3, 0), &m), Err(DefinitionError::InvalidPosition));
}

#[test]
fn parsed_calls_fold_when_they_span_lines() {
    let m = Arc::new(manager());
    let text = "code: `$send[\ntext;\nhi]`";
    let parser = ForgeScriptParser::new(m.clone(), text);
    let result = parser.parse();
    assert_eq!(result.functions.len(), 1);
    assert_eq!(result.functions[0].name, "send");
    let folds = folding_ranges(text, &result.functions);
    assert_eq!(folds.len(), 1);
    assert_eq!(folds[0].start_line, 0);
    assert_eq!(folds[0].start_character, 7);
    assert_eq!(folds[0].end_line, 2);
    assert_eq!(folds[0].collapsed_text, "send");
}

#[test]
fn unknown_functions_are_diagnosed() {
    let m = Arc::new(manager());
    let text = "code: `$nosuch[1]`";
    let result = ForgeScriptParser::new(m, text).parse();
    assert!(!result.diagnostics.is_empty());
    assert_eq!(result.diagnostics[0].message, "Unknown function `$nosuch`");
    assert_eq!(result.diagnostics[0].start, 7);
    let eds = to_editor_diagnostics(text, &result.diagnostics);
    assert_eq!(eds.len(), result.diagnostics.len());
    assert_eq!(eds[0].range.start, Position::new(0, 7));
    assert_eq!(eds[0].message, "Unknown function `$nosuch`");
}

#[test]
fn text_outside_code_blocks_is_not_parsed() {
    let m = Arc::new(manager());
    let result = ForgeScriptParser::new(m, "$nosuch[1]").parse();
    assert!(result.tokens.is_empty());
    assert!(result.diagnostics.is_empty());
    assert!(result.functions.is_empty());
}

#[test]
fn diagnostics_are_placed_by_line_and_column() {
    let diags = vec![Diagnostic { message: "m".to_string(), start: 3, end: 4 }];
    let eds = to_editor_diagnostics("ab\ncd", &diags);
    assert_eq!(eds[0].range.start, Position::new(1, 0));
    assert_eq!(eds[0].range.end, Position::new(1, 1));
}

#[test]
fn depth_at_the_cursor() {
    assert_eq!(depth_at("$a[$b[x]]", Position::new(0, 7)), 2);
    assert_eq!(depth_at("$a[$b[x]]", Position::new(0, 9)), 0);
    assert_eq!(depth_at("$a[x]", Position::new(4, 0)), 0);
}

#[test]
fn highlights_need_colours() {
    let m = manager();
    assert!(highlight_ranges("code: `$ping`", &vec![], false, &m).is_none());
    let hs = highlight_ranges("code: `$ping`", &vec!["#fff".to_string()], false, &m).unwrap();
    for h in &hs {
        assert_eq!(h.color, "#fff");
        assert_eq!(h.range.start.line, 0);
    }
}

#[test]
fn plain_code_is_one_text_token() {
    let m = Arc::new(manager());
    let result = ForgeScriptParser::new(m, "code: `hello world`").parse();
    assert_eq!(result.tokens.len(), 1);
    assert_eq!(result.tokens[0].kind, forgelsp::parser::TokenKind::Text);
    assert_eq!(result.tokens[0].start, 0);
    assert_eq!(result.tokens[0].end, 12);
    assert_eq!(result.tokens[0].text, "hello world\n");
}

#[test]
fn tokens_follow_the_code_in_order() {
    let m = Arc::new(manager());
    let result = ForgeScriptParser::new(m, "code: `a $ping b $nosuch[x $ping] ${1+1} $esc[$y] \\`c`").parse();
    let ts = &result.tokens;
    assert!(ts.len() >= 6);
    for i in 0..ts.len() {
        assert!(ts[i].start < ts[i].end);
        if i + 1 < ts.len() {
            assert!(ts[i].end <= ts[i + 1].start);
        }
    }
    assert_eq!(ts[0].text, "a ");
    assert_eq!(ts[1].kind, forgelsp::parser::TokenKind::FunctionName);
    assert_eq!(ts[1].text, "$ping");
    assert!(ts.iter().any(|t| t.kind == forgelsp::parser::TokenKind::JavaScript && t.text == "1+1"));
    assert!(ts.iter().any(|t| t.kind == forgelsp::parser::TokenKind::Escaped && t.text == "$y"));
}

#[test]
fn completions_offer_one_item_per_indexed_name() {
    let mut m = MetadataManager::new(vec![]);
    let mut send = func("$send", None, None);
    send.aliases = Some(vec!["$sendMessage".to_string()]);
    m.index_source("local", &vec![send, func("$ping", None, None)]);
    assert_eq!(m.function_count(), 3);
    assert_eq!(m.all_functions().len(), 3);
    let list = get_completions("$", Position::new(0, 1), &m).unwrap();
    assert_eq!(list.items.len(), 3);
    assert_eq!(list.items.iter().filter(|i| i.filter_text.as_deref() == Some("$send")).count(), 1);
    assert_eq!(list.items.iter().filter(|i| i.filter_text.as_deref() == Some("$sendMessage")).count(), 1);
    assert_eq!(list.items.iter().filter(|i| i.filter_text.as_deref() == Some("$ping")).count(), 1);
}

#[test]
fn ignore_directive_silences_the_next_line() {
    let m = Arc::new(manager());
    let text = "code: `$c[fs@ignore-error]\n$doesNotExist[a;b]\n$ping`";
    let result = ForgeScriptParser::new(m, text).parse();
    assert!(result.diagnostics.is_empty());
    assert_eq!(result.functions.len(), 1);
    assert_eq!(result.functions[0].name, "ping");
    assert!(result.tokens.iter().any(|t| t.text == "$doesNotExist"));
}

#[test]
fn nested_call_arguments_are_parsed() {
    let mut m = MetadataManager::new(vec![]);
    m.index_source(
        "local",
        &vec![
            func("$ping", Some(vec![arg("host", None), arg("n", None)]), Some(true)),
            func("$random", Some(vec![arg("min", None), arg("max", None)]), Some(true)),
        ],
    );
    let r = ForgeScriptParser::new(Arc::new(m), "code: `$ping[example.com;$random[1;10]]`").parse();
    assert!(r.diagnostics.is_empty());
    let ping = r.functions.iter().find(|f| f.name == "ping").unwrap();
    let args = ping.args.as_ref().unwrap();
    assert_eq!(args.len(), 2);
    match &args[0].0[0] {
        forgelsp::parser::ParsedArg::Literal { text } => assert_eq!(text, "example.com"),
        _ => panic!("literal expected"),
    }
    match &args[1].0[0] {
        forgelsp::parser::ParsedArg::Function { func } => {
            assert_eq!(func.name, "random");
            assert_eq!(func.args.as_ref().unwrap().len(), 2);
            assert_eq!(func.span, (18, 31));
        },
        _ => panic!("call expected"),
    }
}

#[test]
fn unclosed_bracket_is_reported() {
    let m = Arc::new(manager());
    let r = ForgeScriptParser::new(m, "code: `$send[a`").parse();
    assert_eq!(r.diagnostics[0].message, "Unclosed '[' for function `$send`");
    assert_eq!((r.diagnostics[0].start, r.diagnostics[0].end), (7, 14));
}
