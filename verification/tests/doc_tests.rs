use forgelsp::docs::hover_markdown;
use forgelsp::function::Function;
use forgelsp::metadata::MetadataManager;
use forgelsp::parser::{validate_arg_count, Diagnostic, ForgeScriptParser};
use forgelsp::semantic::{extract_highlight_ranges, extract_tokens_from_code};
use forgelsp::trie::FunctionTrie;
use std::sync::Arc;

fn function(name: &str, brackets: Option<bool>) -> Function {
    Function {
        name: name.to_string(),
        version: "1.0.0".to_string(),
        description: String::new(),
        brackets,
        unwrap: false,
        args: None,
        output: None,
        category: None,
        aliases: None,
        experimental: None,
        examples: None,
        deprecated: None,
        extension: None,
        source_url: None,
        local_path: None,
        line: None,
    }
}

#[test]
fn argument_count_messages_say_at_least_and_at_most() {
    let mut d: Vec<Diagnostic> = vec![];
    validate_arg_count("ping", 0, 1, 1, false, &mut d, (0, 7), "", false);
    assert_eq!(d.len(), 1);
    assert_eq!(d[0].message, "$ping expects at least 1 args, got 0");
    assert_eq!((d[0].start, d[0].end), (0, 7));
    let mut d: Vec<Diagnostic> = vec![];
    validate_arg_count("ping", 3, 1, 2, false, &mut d, (0, 9), "", false);
    assert_eq!(d[0].message, "$ping expects at most 2 args, got 3");
}

#[test]
fn hover_notes_optional_brackets() {
    let md = hover_markdown(&function("$ping", Some(false)));
    assert!(md.contains("$ping[] -> void"));
    assert!(md.contains("brackets are optional"));
    assert!(!hover_markdown(&function("$ping", Some(true))).contains("optional"));
}

#[test]
fn numbers_are_tokens() {
    let m = MetadataManager::new(vec![]);
    assert_eq!(extract_tokens_from_code("45.67", 0, false, &m), vec![(0, 5, 2)]);
}

#[test]
fn escape_name_token_skips_modifiers() {
    let m = MetadataManager::new(vec![]);
    assert_eq!(extract_tokens_from_code("$!esc[ab]", 0, false, &m), vec![(0, 5, 0), (5, 8, 4), (8, 9, 0)]);
}

#[test]
fn lookup_returns_the_longest_match() {
    let p = Arc::new(function("$ping", None));
    let a = Arc::new(function("$a", None));
    let mut t = FunctionTrie::new();
    t.insert("$ping", p.clone());
    t.insert("$a", a.clone());
    let (k, f) = t.get("$ping$a").unwrap();
    assert_eq!(k, "$ping");
    assert_eq!(f.name, "$ping");
}

#[test]
fn unknown_function_spans_the_whole_call() {
    let m = Arc::new(MetadataManager::new(vec![]));
    let r = ForgeScriptParser::new(m, "code: `$unknownFunc[arg1;arg2]`").parse();
    assert_eq!(r.diagnostics[0].message, "Unknown function `$unknownFunc`");
    assert_eq!((r.diagnostics[0].start, r.diagnostics[0].end), (7, 30));
}

#[test]
fn diagnostics_in_two_blocks_are_placed_in_each() {
    let m = Arc::new(MetadataManager::new(vec![]));
    let r = ForgeScriptParser::new(m, "code: `$x` code: `$y`").parse();
    assert_eq!(r.diagnostics.len(), 2);
    assert_eq!((r.diagnostics[0].start, r.diagnostics[0].end), (7, 9));
    assert_eq!((r.diagnostics[1].start, r.diagnostics[1].end), (18, 20));
    assert_eq!(r.diagnostics[1].message, "Unknown function `$y`");
}

#[test]
fn escape_function_without_brackets() {
    let m = Arc::new(MetadataManager::new(vec![]));
    let r = ForgeScriptParser::new(m, "code: `$esc`").parse();
    assert_eq!(r.diagnostics[0].message, "$esc expects brackets `[...]` containing content to escape");
}

#[test]
fn unknown_call_after_plain_text_is_placed_in_the_document() {
    let m = Arc::new(MetadataManager::new(vec![]));
    let r = ForgeScriptParser::new(m, "code: `say hi $nope[x]`").parse();
    assert_eq!(r.diagnostics.len(), 1);
    assert_eq!(r.diagnostics[0].message, "Unknown function `$nope`");
    assert_eq!((r.diagnostics[0].start, r.diagnostics[0].end), (14, 22));
}

#[test]
fn known_call_after_plain_text_is_reported_as_a_function() {
    let mut m = MetadataManager::new(vec![]);
    m.index_source("local", &vec![function("$ping", Some(true))]);
    let r = ForgeScriptParser::new(Arc::new(m), "code: `hi $ping[a]`").parse();
    let ping = r.functions.iter().find(|f| f.name == "ping").unwrap();
    assert_eq!(ping.span, (10, 18));
    let args = ping.args.as_ref().unwrap();
    assert_eq!(args.len(), 1);
    match &args[0].0[0] {
        forgelsp::parser::ParsedArg::Literal { text } => assert_eq!(text, "a"),
        _ => panic!("literal expected"),
    }
    assert_eq!(ping.meta.name, "$ping");
}

#[test]
fn unclosed_bracket_after_plain_text_runs_to_the_block_end() {
    let mut m = MetadataManager::new(vec![]);
    m.index_source("local", &vec![function("$ping", Some(true))]);
    let r = ForgeScriptParser::new(Arc::new(m), "code: `hi $ping[a`").parse();
    assert_eq!(r.diagnostics[0].message, "Unclosed '[' for function `$ping`");
    assert_eq!((r.diagnostics[0].start, r.diagnostics[0].end), (10, 17));
}

#[test]
fn highlight_ranges_are_sorted_and_inside_blocks() {
    let mut m = MetadataManager::new(vec![]);
    m.index_source("local", &vec![function("$ping", Some(false)), function("$pong", Some(false))]);
    let src = "code: `$ping $pong` text code: `$pong`";
    let hs = extract_highlight_ranges(src, &vec!["#a".to_string(), "#b".to_string()], false, &m);
    let got: Vec<(usize, usize)> = hs.iter().map(|h| (h.0, h.1)).collect();
    assert_eq!(got, vec![(7, 12), (13, 18), (32, 37)]);
    for w in hs.windows(2) {
        assert!(w[0].1 <= w[1].0);
    }
}

#[test]
fn the_line_after_the_ignore_directive_reports_nothing() {
    let m = Arc::new(MetadataManager::new(vec![]));
    let r = ForgeScriptParser::new(m, "code: `$c[fs@ignore-error]\n$doesNotExist[a;b]`").parse();
    assert!(r.diagnostics.is_empty());
    assert!(r.functions.is_empty());
}

#[test]
fn escape_without_brackets_after_plain_text() {
    let m = Arc::new(MetadataManager::new(vec![]));
    let r = ForgeScriptParser::new(m, "code: `hi $esc`").parse();
    assert_eq!(r.diagnostics[0].message, "$esc expects brackets `[...]` containing content to escape");
    assert_eq!((r.diagnostics[0].start, r.diagnostics[0].end), (10, 14));
}

#[test]
fn removing_a_name_drops_it_and_the_count() {
    let mut t = FunctionTrie::new();
    t.insert("$a", Arc::new(function("$a", None)));
    t.insert("$B", Arc::new(function("$B", None)));
    t.remove("$b");
    assert!(t.get_exact("$B").is_none());
    assert!(t.get_exact("$A").is_some());
    assert_eq!(t.len(), 1);
    t.remove("$zz");
    assert_eq!(t.len(), 1);
}

#[test]
fn relative_tokens_read_back_to_their_positions() {
    let src = "$a $b\n  $c";
    let found = vec![(0usize, 2usize, 0u32), (3, 5, 0), (8, 10, 1)];
    let rel = forgelsp::semantic::to_relative_tokens(&found, src);
    assert_eq!(rel.len(), 3);
    let mut line = 0u32;
    let mut col = 0u32;
    let mut got = Vec::new();
    for t in &rel {
        if t.delta_line == 0 {
            col += t.delta_start;
        } else {
            line += t.delta_line;
            col = t.delta_start;
        }
        got.push((line, col));
    }
    assert_eq!(got, vec![(0, 0), (0, 3), (1, 2)]);
}

#[test]
fn call_brackets_agree_without_backslashes() {
    let text = "$ab[x] [y] $!c[z] a$[q]";
    for i in 0..text.len() {
        assert_eq!(
            forgelsp::parser::is_function_call_bracket_sub(text, i),
            forgelsp::text::is_function_call_bracket(text, i)
        );
    }
    assert!(forgelsp::parser::is_function_call_bracket_sub(text, 3));
    assert!(!forgelsp::parser::is_function_call_bracket_sub(text, 7));
}

#[test]
fn an_escape_call_argument_stays_one_literal() {
    let mut m = MetadataManager::new(vec![]);
    m.index_source("local", &vec![function("$ping", Some(true))]);
    let r = ForgeScriptParser::new(Arc::new(m), "code: `$ping[$esc[a;b];c]`").parse();
    let ping = r.functions.iter().find(|f| f.name == "ping").unwrap();
    let args = ping.args.as_ref().unwrap();
    assert_eq!(args.len(), 2);
    match &args[0].0[0] {
        forgelsp::parser::ParsedArg::Literal { text } => assert_eq!(text, "$esc[a;b]"),
        _ => panic!("literal expected"),
    }
    match &args[1].0[0] {
        forgelsp::parser::ParsedArg::Literal { text } => assert_eq!(text, "c"),
        _ => panic!("literal expected"),
    }
    assert_eq!(r.functions.len(), 1);
}

#[test]
fn an_unknown_call_is_reported_once_and_listed() {
    let m = Arc::new(MetadataManager::new(vec![]));
    let r = ForgeScriptParser::new(m, "code: `$unknownFunc[arg1;arg2]`").parse();
    assert_eq!(r.diagnostics.len(), 1);
    assert_eq!((r.diagnostics[0].start, r.diagnostics[0].end), (7, 30));
    assert_eq!(r.functions.len(), 1);
    assert_eq!(r.functions[0].name, "unknownFunc");
    assert_eq!(r.functions[0].span, (7, 30));
}

#[test]
fn every_unknown_call_is_reported() {
    let m = Arc::new(MetadataManager::new(vec![]));
    let r = ForgeScriptParser::new(m, "code: `$a $b[x] $esc $c[y` code: `$d`").parse();
    let got: Vec<(String, usize, usize)> = r.diagnostics.iter().map(|d| (d.message.clone(), d.start, d.end)).collect();
    assert_eq!(
        got,
        vec![
            ("Unknown function `$a`".to_string(), 7, 9),
            ("Unknown function `$b`".to_string(), 10, 15),
            ("$esc expects brackets `[...]` containing content to escape".to_string(), 16, 20),
            ("Unknown function `$c`".to_string(), 21, 23),
            ("Unclosed '[' for function `$c`".to_string(), 23, 36),
            ("Unknown function `$d`".to_string(), 34, 36),
        ]
    );
    assert_eq!(r.functions.len(), 1);
    assert_eq!(r.functions[0].span, (10, 15));
}

#[test]
fn well_formed_calls_report_nothing_and_counts_are_checked() {
    let mut m = MetadataManager::new(vec![]);
    m.index_source("local", &vec![function("$ping", Some(true))]);
    let r = ForgeScriptParser::new(Arc::new(m), "code: `$ping[] $ping[a]`").parse();
    let got: Vec<(String, usize, usize)> = r.diagnostics.iter().map(|d| (d.message.clone(), d.start, d.end)).collect();
    assert_eq!(got, vec![("$ping expects at most 0 args, got 1".to_string(), 15, 23)]);
    let spans: Vec<(usize, usize)> = r.functions.iter().map(|f| f.span).collect();
    assert_eq!(spans, vec![(7, 14), (15, 23)]);
}
