use forgelsp::config::{resolve_github_shorthand, should_log, LogLevel};
use forgelsp::position::{
    compute_active_param_index, find_active_function_call, get_text_up_to_cursor, offset_to_position,
    position_to_offset, position_to_offset_raw, Position,
};
use forgelsp::strings::{ends_with, replace_str, split_char, trim_str};
use forgelsp::text::{
    calculate_depth, find_escape_function_end, find_matching_bracket, find_matching_bracket_raw, is_escape_function,
    is_escaped, is_function_call_bracket, skip_modifiers,
};

#[test]
fn escaped_dollar_needs_two_backslashes() {
    let two = "\\\\$ping";
    assert!(is_escaped(two, 2));
    let one = "\\$ping";
    assert!(!is_escaped(one, 1));
    let three = "\\\\\\$ping";
    assert!(!is_escaped(three, 3));
}

#[test]
fn escaped_backtick_needs_one_backslash() {
    let text = "a\\`b";
    assert!(is_escaped(text, 2));
    let text2 = "a\\\\`b";
    assert!(!is_escaped(text2, 3));
    assert!(!is_escaped("`", 0));
}

#[test]
fn raw_bracket_matching_ignores_escapes() {
    let b = "[a[b]c]d".as_bytes();
    assert_eq!(find_matching_bracket_raw(b, 0), Some(6));
    assert_eq!(find_matching_bracket_raw(b, 2), Some(4));
    assert_eq!(find_matching_bracket_raw("[[".as_bytes(), 0), None);
}

#[test]
fn call_bracket_detection() {
    let text = "$ping[1] x[2] \\\\$no[3] $!#get[4]";
    assert!(is_function_call_bracket(text, 5));
    assert!(!is_function_call_bracket(text, 10));
    assert!(!is_function_call_bracket(text, 19));
    assert!(is_function_call_bracket(text, 29));
}

#[test]
fn matching_bracket_skips_plain_brackets_and_escape_functions() {
    let text = "$a[$b[z] w]";
    assert_eq!(find_matching_bracket(text, 2), Some(10));
    let plain = "$a[x[y] z]";
    assert_eq!(find_matching_bracket(plain, 2), Some(6));
    let esc = "$a[$esc[ ] ]]";
    assert_eq!(find_matching_bracket(esc, 2), Some(11));
}

#[test]
fn escape_function_names_and_ends() {
    assert!(is_escape_function("esc"));
    assert!(is_escape_function("EscapeCode"));
    assert!(!is_escape_function("escaped"));
    let text = "$esc[a[b]c] rest";
    assert_eq!(find_escape_function_end(text, 0), Some(10));
    assert_eq!(find_escape_function_end("$ping[a]", 0), None);
}

#[test]
fn modifiers_are_skipped() {
    assert_eq!(skip_modifiers("$!#@[x]name", 1), 7);
    assert_eq!(skip_modifiers("$name", 1), 1);
    assert_eq!(skip_modifiers("$@[x", 1), 1);
}

#[test]
fn depth_counts_open_calls() {
    let text = "$a[$b[x] y]";
    assert_eq!(calculate_depth(text, 0), 0);
    assert_eq!(calculate_depth(text, 3), 1);
    assert_eq!(calculate_depth(text, 7), 2);
    assert_eq!(calculate_depth(text, 9), 1);
    assert_eq!(calculate_depth(text, 11), 0);
}

#[test]
fn offsets_become_positions() {
    let text = "ab\ncd";
    let p = offset_to_position(text, 4);
    assert_eq!((p.line, p.character), (1, 1));
    let q = offset_to_position(text, 2);
    assert_eq!((q.line, q.character), (0, 2));
    let wide = "a\u{1F600}b";
    let w = offset_to_position(wide, 5);
    assert_eq!((w.line, w.character), (0, 3));
}

#[test]
fn positions_become_offsets() {
    let text = "ab\ncd";
    assert_eq!(position_to_offset_raw(text, 1, 1), Some(4));
    assert_eq!(position_to_offset_raw(text, 0, 3), Some(3));
    assert_eq!(position_to_offset_raw(text, 0, 9), None);
    assert_eq!(position_to_offset_raw(text, 5, 0), None);
    assert_eq!(position_to_offset(text, Position::new(1, 2)), Some(5));
}

#[test]
fn position_round_trip_on_every_character() {
    let text = "$a[x]\n\u{e9}$b\nlast";
    let mut offsets: Vec<usize> = text.char_indices().map(|(i, _)| i).collect();
    offsets.push(text.len());
    for o in offsets {
        let p = offset_to_position(text, o);
        assert_eq!(position_to_offset(text, p), Some(o));
    }
}

#[test]
fn end_after_final_newline_has_no_offset() {
    assert_eq!(position_to_offset_raw("a\n", 1, 0), None);
    assert_eq!(position_to_offset_raw("", 0, 0), None);
}

#[test]
fn cursor_window_and_active_call() {
    let text = "$send[a;$get[x, y";
    let up = get_text_up_to_cursor(text, Position::new(0, 17));
    assert_eq!(up, text);
    let (name, open) = find_active_function_call(&up).unwrap();
    assert_eq!(name, "get");
    assert_eq!(open, 12);
    assert_eq!(compute_active_param_index(&up[open + 1..]), 1);
    assert_eq!(find_active_function_call("$a[b]"), None);
    assert_eq!(find_active_function_call("x [y"), None);
}

#[test]
fn param_index_skips_quotes_escapes_and_nesting() {
    assert_eq!(compute_active_param_index("a;b;c"), 2);
    assert_eq!(compute_active_param_index("'a;b';c"), 1);
    assert_eq!(compute_active_param_index("\\;a"), 0);
    assert_eq!(compute_active_param_index("[a;b];c"), 1);
    assert_eq!(compute_active_param_index("a] ;b"), 0);
}

#[test]
fn github_shorthand_examples() {
    assert_eq!(
        resolve_github_shorthand("github:owner/repo".to_string()),
        "https://raw.githubusercontent.com/owner/repo/main/metadata/functions.json"
    );
    assert_eq!(
        resolve_github_shorthand("github:owner/repo#dev".to_string()),
        "https://raw.githubusercontent.com/owner/repo/dev/metadata/functions.json"
    );
    assert_eq!(
        resolve_github_shorthand("github:owner/repo/custom/path/file.json".to_string()),
        "https://raw.githubusercontent.com/owner/repo/main/custom/path/file.json"
    );
    assert_eq!(
        resolve_github_shorthand("github:owner/repo/api/functions.json#feature-branch".to_string()),
        "https://raw.githubusercontent.com/owner/repo/feature-branch/api/functions.json"
    );
}

#[test]
fn plain_urls_and_bad_shorthands_pass_through() {
    let plain = "https://example.com/functions.json".to_string();
    assert_eq!(resolve_github_shorthand(plain.clone()), plain);
    assert_eq!(resolve_github_shorthand("github:justowner".to_string()), "github:justowner");
    let once = resolve_github_shorthand("github:a/b".to_string());
    assert_eq!(resolve_github_shorthand(once.clone()), once);
}

#[test]
fn log_levels_order() {
    assert!(should_log(LogLevel::Error, LogLevel::Info));
    assert!(should_log(LogLevel::Info, LogLevel::Info));
    assert!(!should_log(LogLevel::Debug, LogLevel::Info));
    assert!(should_log(LogLevel::Trace, LogLevel::Trace));
}

#[test]
fn string_helpers() {
    assert_eq!(replace_str("a/functions.json/functions.json", "functions.json", "enums.json"), "a/enums.json/enums.json");
    assert!(ends_with("x/functions.json", "functions.json"));
    assert!(!ends_with("json", "functions.json"));
    let parts = split_char("a,,b", ',');
    assert_eq!(parts, vec!["a".to_string(), String::new(), "b".to_string()]);
    assert_eq!(trim_str("  a b \n"), "a b");
}
