use env_checker::code_actions::ActionKind;
use env_checker::diagnostics::{Position, Severity, Span};
use env_checker::env_file::parse_env_file;
use env_checker::types::{EnvType, EnvVar, ParsedSchema, SchemaSource};
use env_checker::workspace::{
    build_catalog, code_actions_for, diagnostics_for, entries_for, find_unused,
    get_last_line_info, hover_at, validate_file, EnvFiles,
};

fn var(name: &str, optional: bool, default: Option<&str>) -> EnvVar {
    EnvVar {
        name: name.to_string(),
        var_type: EnvType::String,
        description: None,
        default: default.map(|d| d.to_string()),
        optional,
        group: None,
    }
}

fn schema(path: &str, vars: Vec<EnvVar>) -> ParsedSchema {
    ParsedSchema { source: SchemaSource::Zod { file_path: path.to_string() }, variables: vars }
}

fn files() -> EnvFiles {
    EnvFiles::new()
        .insert("/w/.env".to_string(), parse_env_file("PORT=3000\nLEGACY=1\n\nLAST=x\n", "/w/.env"))
        .insert("/w/.env.local".to_string(), parse_env_file("PORT=4000\nHOST=h\n", "/w/.env.local"))
}

#[test]
fn catalog_keeps_the_first_declaration() {
    let schemas = vec![
        schema("a.ts", vec![var("A", false, None), var("B", false, Some("first")), var("A", true, None)]),
        schema("b.ts", vec![var("B", true, Some("second")), var("C", true, None)]),
    ];
    let catalog = build_catalog(&schemas);
    let names: Vec<&str> = catalog.iter().map(|v| v.name.as_str()).collect();
    assert_eq!(names, vec!["A", "B", "C"]);
    assert!(!catalog[0].optional);
    assert_eq!(catalog[1].default.as_deref(), Some("first"));
    assert!(build_catalog(&[]).is_empty());
}

#[test]
fn files_are_kept_by_path() {
    let f = files();
    assert_eq!(f.len(), 2);
    assert_eq!(f.get("/w/.env").unwrap().len(), 3);
    assert_eq!(f.get("/w/.env.local").unwrap().len(), 2);
    assert!(f.get("/w/other").is_none());
    let f = f.insert("/w/.env".to_string(), parse_env_file("ONLY=1\n", "/w/.env"));
    assert_eq!(f.len(), 2);
    assert_eq!(f.get("/w/.env").unwrap().len(), 1);
    let all: Vec<String> = f.all_entries().iter().map(|e| e.name.clone()).collect();
    assert_eq!(all, vec!["ONLY", "PORT", "HOST"]);
    assert_eq!(EnvFiles::new().len(), 0);
    assert!(EnvFiles::new().all_entries().is_empty());
}

#[test]
fn own_entries_come_first() {
    let f = files();
    let entries = entries_for(&f, "/w/.env.local");
    let seen: Vec<(String, Option<String>)> = entries.iter().map(|e| (e.name.clone(), e.value.clone())).collect();
    assert_eq!(
        seen,
        vec![
            ("PORT".to_string(), Some("4000".to_string())),
            ("HOST".to_string(), Some("h".to_string())),
            ("LEGACY".to_string(), Some("1".to_string())),
            ("LAST".to_string(), Some("x".to_string())),
        ]
    );
    let entries = entries_for(&f, "/w/unknown");
    assert_eq!(entries[0].value.as_deref(), Some("3000"));
    assert_eq!(entries.len(), 4);
}

#[test]
fn validation_for_a_file_sees_all_files() {
    let catalog = vec![var("HOST", false, None), var("PORT", false, None), var("KEY", false, None)];
    let result = validate_file(&catalog, &files(), "/w/.env");
    assert_eq!(result.errors.len(), 1);
    assert_eq!(result.errors[0].var_name, "KEY");
    assert_eq!(result.all_env_vars.get("PORT").unwrap().value.as_deref(), Some("3000"));
    let other = validate_file(&catalog, &files(), "/w/.env.local");
    assert_eq!(other.all_env_vars.get("PORT").unwrap().value.as_deref(), Some("4000"));
}

#[test]
fn unused_entries_are_found() {
    let catalog = vec![var("PORT", false, None), var("LAST", true, None)];
    let entries = parse_env_file("PORT=1\nLEGACY=1\nLAST=2\nlegacy=3\n", ".env");
    let unused = find_unused(&catalog, &entries);
    let names: Vec<(&str, usize)> = unused.iter().map(|e| (e.name.as_str(), e.line)).collect();
    assert_eq!(names, vec![("LEGACY", 1), ("legacy", 3)]);
    assert!(find_unused(&catalog, &[]).is_empty());
    assert_eq!(find_unused(&[], &entries).len(), 4);
}

#[test]
fn diagnostics_report_missing_then_unused() {
    let catalog = vec![var("KEY", false, None), var("PORT", false, None), var("OPT", true, None), var("LAST", false, None)];
    let d = diagnostics_for(&catalog, &files(), "/w/.env");
    assert_eq!(d.len(), 2);
    assert_eq!(d[0].severity, Severity::Error);
    assert_eq!(d[0].code, "missing-env-var");
    assert_eq!(d[0].message, "Missing required environment variable: 'KEY'");
    assert_eq!(d[1].severity, Severity::Information);
    assert_eq!(d[1].code, "unused-env-var");
    assert_eq!(d[1].message, "Environment variable 'LEGACY' is not defined in any schema");
    assert_eq!(
        d[1].range,
        Span { start: Position { line: 1, character: 0 }, end: Position { line: 1, character: 6 } }
    );
    let d = diagnostics_for(&catalog, &files(), "/w/unknown");
    assert_eq!(d.len(), 1);
    assert_eq!(d[0].code, "missing-env-var");
}

#[test]
fn last_line_of_a_file() {
    let f = files().insert("/w/empty".to_string(), Vec::new()).insert(
        "/w/blank".to_string(),
        parse_env_file("A=\n", "/w/blank"),
    );
    assert_eq!(get_last_line_info(&f, "/w/.env"), (4, Some("LAST=x".to_string())));
    assert_eq!(get_last_line_info(&f, "/w/blank"), (1, Some("A=".to_string())));
    assert_eq!(get_last_line_info(&f, "/w/empty"), (0, None));
    assert_eq!(get_last_line_info(&f, "/w/unknown"), (0, None));
}

#[test]
fn actions_for_a_file_with_missing_variables() {
    let catalog = vec![var("KEY", false, None), var("PORT", false, None), var("TOKEN", false, Some("t"))];
    let actions = code_actions_for(&catalog, &files(), "/w/.env", "file:///w/.env");
    assert_eq!(actions.len(), 2);
    assert_eq!(actions[0].title, "Append 2 missing environment variable(s)");
    assert_eq!(actions[0].kind, ActionKind::QuickFix);
    assert_eq!(actions[0].uri, "file:///w/.env");
    assert_eq!(actions[0].edits[0].new_text, "KEY=\nTOKEN=t\n");
    assert_eq!(actions[0].edits[0].range.start, Position { line: 5, character: 0 });
    assert_eq!(actions[1].title, "Create .env.example file");
    assert_eq!(actions[1].uri, "file:///w/.env/.env.example");
}

#[test]
fn actions_for_a_file_without_missing_variables() {
    let catalog = vec![var("PORT", false, None), var("HOST", false, None)];
    let actions = code_actions_for(&catalog, &files(), "/w/.env", "file:///w/.env");
    assert_eq!(actions.len(), 1);
    assert_eq!(actions[0].title, "Create .env.example file");
}

#[test]
fn actions_for_an_unknown_file_count_everything_as_missing() {
    let catalog = vec![var("PORT", false, None), var("OPT", true, None)];
    let actions = code_actions_for(&catalog, &files(), "/w/unknown", "file:///w/unknown");
    assert_eq!(actions.len(), 2);
    assert_eq!(actions[0].title, "Append 1 missing environment variable(s)");
    assert_eq!(actions[0].edits[0].range.start, Position { line: 0, character: 0 });
}

#[test]
fn hover_on_a_line_with_a_known_variable() {
    let mut port = var("PORT", false, None);
    port.description = Some("The port".to_string());
    let catalog = vec![var("HOST", false, None), port];
    let h = hover_at(&catalog, &files(), "/w/.env", 0).unwrap();
    assert_eq!(h.value, "**Type:** `string`\n\n**Description:** The port\n\n**Required:** `true`\n");
    assert!(hover_at(&catalog, &files(), "/w/.env", 1).is_none());
    assert!(hover_at(&catalog, &files(), "/w/.env", 2).is_none());
    assert!(hover_at(&catalog, &files(), "/w/unknown", 0).is_none());
    assert!(hover_at(&catalog, &files(), "/w/.env.local", 1).is_some());
}
