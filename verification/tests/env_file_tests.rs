use env_checker::env_file::{merge_env_files, parse_env_file, parse_env_line, parse_env_value};
use env_checker::types::EnvFileEntry;

fn entry(name: &str, value: Option<&str>, line: usize, file: &str) -> EnvFileEntry {
    EnvFileEntry {
        name: name.to_string(),
        value: value.map(|v| v.to_string()),
        line,
        file_path: file.to_string(),
    }
}

fn same(a: &EnvFileEntry, b: &EnvFileEntry) -> bool {
    a.name == b.name && a.value == b.value && a.line == b.line && a.file_path == b.file_path
}

fn line(text: &str) -> Option<(String, Option<String>)> {
    let chars: Vec<char> = text.chars().collect();
    parse_env_line(&chars)
}

#[test]
fn value_unquoted_is_kept() {
    assert_eq!(parse_env_value("secret"), "secret");
    assert_eq!(parse_env_value("  padded value  "), "padded value");
    assert_eq!(parse_env_value("a=b"), "a=b");
}

#[test]
fn value_double_quoted_is_stripped() {
    assert_eq!(parse_env_value("\"hello world\""), "hello world");
}

#[test]
fn value_single_quoted_is_stripped() {
    assert_eq!(parse_env_value("'hello world'"), "hello world");
}

#[test]
fn value_quoted_newline_escape_is_decoded() {
    assert_eq!(parse_env_value("\"line1\\nline2\""), "line1\nline2");
    assert_eq!(parse_env_value("\"a\\tb\""), "a\tb");
    assert_eq!(parse_env_value("\"a\\\\b\""), "a\\b");
}

#[test]
fn value_escapes_are_applied_in_one_pass() {
    // backslash, backslash, n: one backslash, and the n stays a letter
    assert_eq!(parse_env_value("\"a\\\\nb\""), "a\\nb");
    assert_eq!(parse_env_value("\"\\\\n\""), "\\n");
    assert_eq!(parse_env_value("\"\\\\\\n\""), "\\\n");
    assert_eq!(parse_env_value("'\\t\\\\t'"), "\t\\t");
}

#[test]
fn value_other_backslashes_stand_in_a_quoted_value() {
    assert_eq!(parse_env_value("\"a\\qb\""), "a\\qb");
    assert_eq!(parse_env_value("\"say \\\"hi\\\"\""), "say \\\"hi\\\"");
    assert_eq!(parse_env_value("'c:\\dir'"), "c:\\dir");
    assert_eq!(parse_env_value("\"end\\\\\""), "end\\");
}

#[test]
fn value_single_quoted_escapes_are_decoded_too() {
    assert_eq!(parse_env_value("'a\\nb'"), "a\nb");
}

#[test]
fn value_unclosed_double_quote_is_decoded_by_character() {
    assert_eq!(parse_env_value("\"abc"), "abc");
    assert_eq!(parse_env_value("\"a\\nb"), "a\nb");
    assert_eq!(parse_env_value("\"a\\\"b"), "a\"b");
    assert_eq!(parse_env_value("\"a\\qb"), "aqb");
    assert_eq!(parse_env_value("\"a\\\\nb"), "a\\nb");
    assert_eq!(parse_env_value("\"abc\\"), "abc");
}

#[test]
fn value_lone_quote_does_not_fail() {
    assert_eq!(parse_env_value("\""), "");
    assert_eq!(parse_env_value("'"), "'");
}

#[test]
fn value_mismatched_quotes_are_kept() {
    assert_eq!(parse_env_value("'abc\""), "'abc\"");
    assert_eq!(parse_env_value("abc\""), "abc\"");
}

#[test]
fn line_plain_assignment() {
    assert_eq!(line("API_KEY=secret"), Some(("API_KEY".to_string(), Some("secret".to_string()))));
}

#[test]
fn line_spaces_around_equals() {
    assert_eq!(line("  PORT  =  8080  "), Some(("PORT".to_string(), Some("8080".to_string()))));
}

#[test]
fn line_export_is_ignored() {
    assert_eq!(line("export  TOKEN=abc"), Some(("TOKEN".to_string(), Some("abc".to_string()))));
    assert_eq!(line("export\tTOKEN=abc"), Some(("TOKEN".to_string(), Some("abc".to_string()))));
}

#[test]
fn line_export_alone_is_a_name() {
    assert_eq!(line("export=1"), Some(("export".to_string(), Some("1".to_string()))));
    assert_eq!(line("exported=1"), Some(("exported".to_string(), Some("1".to_string()))));
    assert_eq!(line("export export X=1"), None);
}

#[test]
fn line_empty_values_are_absent() {
    assert_eq!(line("EMPTY="), Some(("EMPTY".to_string(), None)));
    assert_eq!(line("EMPTY=\"\""), Some(("EMPTY".to_string(), None)));
    assert_eq!(line("EMPTY=''"), Some(("EMPTY".to_string(), None)));
    assert_eq!(line("EMPTY=   "), Some(("EMPTY".to_string(), None)));
}

#[test]
fn line_comments_and_blanks_are_skipped() {
    assert_eq!(line(""), None);
    assert_eq!(line("   \t "), None);
    assert_eq!(line("# comment"), None);
    assert_eq!(line("   # A=1"), None);
}

#[test]
fn line_names_must_be_identifiers() {
    assert_eq!(line("1ABC=x"), None);
    assert_eq!(line("MY-VAR=x"), None);
    assert_eq!(line("NAME"), None);
    assert_eq!(line("=x"), None);
    assert_eq!(line("_a1=x"), Some(("_a1".to_string(), Some("x".to_string()))));
    assert_eq!(line("A B=x"), None);
}

#[test]
fn line_value_with_hash_is_kept() {
    assert_eq!(line("A=b # not a comment"), Some(("A".to_string(), Some("b # not a comment".to_string()))));
}

#[test]
fn file_entries_keep_their_lines() {
    let content = "# header\n\nAPI_KEY=secret\nexport PORT = 8080\nnot an assignment\nEMPTY=\n";
    let entries = parse_env_file(content, "/w/.env");
    let expected = vec![
        entry("API_KEY", Some("secret"), 2, "/w/.env"),
        entry("PORT", Some("8080"), 3, "/w/.env"),
        entry("EMPTY", None, 5, "/w/.env"),
    ];
    assert_eq!(entries.len(), expected.len());
    for (a, b) in entries.iter().zip(expected.iter()) {
        assert!(same(a, b), "{:?} != {:?}", a, b);
    }
}

#[test]
fn file_empty_gives_no_entries() {
    assert_eq!(parse_env_file("", ".env").len(), 0);
    assert_eq!(parse_env_file("\n\n\n", ".env").len(), 0);
}

#[test]
fn file_without_final_line_feed() {
    let entries = parse_env_file("A=1\nB=2", ".env");
    assert_eq!(entries.len(), 2);
    assert!(same(&entries[1], &entry("B", Some("2"), 1, ".env")));
}

#[test]
fn file_with_carriage_returns() {
    let entries = parse_env_file("A=1\r\nB=\"x\"\r\n", ".env");
    assert_eq!(entries.len(), 2);
    assert!(same(&entries[0], &entry("A", Some("1"), 0, ".env")));
    assert!(same(&entries[1], &entry("B", Some("x"), 1, ".env")));
}

#[test]
fn file_escaped_newline_in_quoted_value() {
    let entries = parse_env_file("API_KEY=\"line1\\nline2\"\n", ".env");
    assert_eq!(entries.len(), 1);
    assert_eq!(entries[0].name, "API_KEY");
    assert_eq!(entries[0].value.as_deref(), Some("line1\nline2"));
    assert_ne!(entries[0].value.as_deref(), Some("line1\\nline2"));
}

#[test]
fn file_unicode_white_space_is_trimmed() {
    let entries = parse_env_file("\u{a0}A\u{2003}=\u{3000}v\u{2028}\n", ".env");
    assert_eq!(entries.len(), 1);
    assert!(same(&entries[0], &entry("A", Some("v"), 0, ".env")));
}

#[test]
fn merge_first_seen_wins() {
    let a = vec![entry("X", Some("from-a"), 0, "a"), entry("Y", Some("1"), 1, "a")];
    let b = vec![entry("X", Some("from-b"), 0, "b"), entry("Z", Some("2"), 1, "b")];
    let merged = merge_env_files(vec![a, b]);
    assert_eq!(merged.len(), 3);
    assert!(same(&merged[0], &entry("X", Some("from-a"), 0, "a")));
    assert!(same(&merged[1], &entry("Y", Some("1"), 1, "a")));
    assert!(same(&merged[2], &entry("Z", Some("2"), 1, "b")));
}

#[test]
fn merge_within_one_list() {
    let a = vec![entry("X", Some("1"), 0, "a"), entry("X", Some("2"), 1, "a")];
    let merged = merge_env_files(vec![a]);
    assert_eq!(merged.len(), 1);
    assert_eq!(merged[0].value.as_deref(), Some("1"));
}

#[test]
fn merge_of_nothing() {
    assert_eq!(merge_env_files(vec![]).len(), 0);
    assert_eq!(merge_env_files(vec![vec![], vec![]]).len(), 0);
}

#[test]
fn merge_primary_file_port_is_preferred() {
    let first = parse_env_file("PORT=3000\n", "/w/.env");
    let second = parse_env_file("PORT=4000\nHOST=x\n", "/w/.env.local");
    let merged = merge_env_files(vec![first, second]);
    let port = merged.iter().find(|e| e.name == "PORT").unwrap();
    assert_eq!(port.value.as_deref(), Some("3000"));
    assert_eq!(port.file_path, "/w/.env");
    assert_eq!(merged.len(), 2);
}
