use env_checker::code_actions::{
    create_append_missing_action, create_create_example_action, create_generate_example_action,
    ActionKind,
};
use env_checker::diagnostics::{
    create_missing_var_diagnostic, create_unused_var_diagnostic, Position, Severity, Span,
};
use env_checker::hover::{create_hover, format_type, MarkupKind};
use env_checker::types::{EnvType, EnvVar};
use env_checker::validation::ValidationError;

fn var(name: &str, description: Option<&str>, default: Option<&str>, optional: bool, group: Option<&str>) -> EnvVar {
    EnvVar {
        name: name.to_string(),
        var_type: EnvType::Integer,
        description: description.map(|d| d.to_string()),
        default: default.map(|d| d.to_string()),
        optional,
        group: group.map(|g| g.to_string()),
    }
}

fn at(line: u32, character: u32) -> Position {
    Position { line, character }
}

#[test]
fn missing_diagnostic_with_all_parts() {
    let error = ValidationError {
        var_name: "PORT".to_string(),
        missing_from_all: true,
        schema_var: var("PORT", Some("The port"), Some("3000"), false, None),
    };
    let d = create_missing_var_diagnostic(&error);
    assert_eq!(d.message, "Missing required environment variable: 'PORT'\n  Description: The port\n  Default: 3000");
    assert_eq!(d.severity, Severity::Error);
    assert_eq!(d.code, "missing-env-var");
    assert_eq!(d.source, "env-checker");
    assert_eq!(d.range, Span { start: at(0, 0), end: at(0, 0) });
}

#[test]
fn missing_diagnostic_bare() {
    let error = ValidationError {
        var_name: "KEY".to_string(),
        missing_from_all: true,
        schema_var: var("KEY", None, None, false, None),
    };
    let d = create_missing_var_diagnostic(&error);
    assert_eq!(d.message, "Missing required environment variable: 'KEY'");
}

#[test]
fn unused_diagnostic_covers_the_name() {
    let d = create_unused_var_diagnostic("LEGACY", 7);
    assert_eq!(d.message, "Environment variable 'LEGACY' is not defined in any schema");
    assert_eq!(d.severity, Severity::Information);
    assert_eq!(d.code, "unused-env-var");
    assert_eq!(d.source, "env-checker");
    assert_eq!(d.range, Span { start: at(7, 0), end: at(7, 6) });
}

#[test]
fn hover_with_all_parts() {
    let h = create_hover(&var("PORT", Some("The port"), Some("3000"), true, Some("Net"))).unwrap();
    assert_eq!(h.kind, MarkupKind::Markdown);
    assert_eq!(
        h.value,
        "**Type:** `integer`\n\n**Description:** The port\n\n**Default:** `3000`\n\n**Required:** `false`\n\n**Group:** `Net`"
    );
}

#[test]
fn hover_bare() {
    let h = create_hover(&var("PORT", None, None, false, None)).unwrap();
    assert_eq!(h.value, "**Type:** `integer`\n\n**Required:** `true`\n");
}

#[test]
fn type_words_for_display() {
    assert_eq!(format_type(&EnvType::String), "string");
    assert_eq!(format_type(&EnvType::Boolean), "boolean");
    assert_eq!(format_type(&EnvType::Number), "number");
    assert_eq!(format_type(&EnvType::Integer), "integer");
}

#[test]
fn append_action_goes_behind_a_line_with_text() {
    let missing = vec![var("B", None, None, false, None), var("A", None, Some("1"), false, None)];
    let a = create_append_missing_action(&missing, "file:///w/.env", 3, Some("LAST=1".to_string()));
    assert_eq!(a.title, "Append 2 missing environment variable(s)");
    assert_eq!(a.kind, ActionKind::QuickFix);
    assert_eq!(a.uri, "file:///w/.env");
    assert!(a.is_preferred);
    assert_eq!(a.edits.len(), 1);
    assert_eq!(a.edits[0].range, Span { start: at(4, 0), end: at(4, 0) });
    assert_eq!(a.edits[0].new_text, "A=1\nB=\n");
}

#[test]
fn append_action_stays_on_a_blank_or_unknown_line() {
    let missing = vec![var("A", None, None, false, None)];
    let a = create_append_missing_action(&missing, "u", 3, Some("  \t".to_string()));
    assert_eq!(a.edits[0].range, Span { start: at(3, 0), end: at(3, 0) });
    let a = create_append_missing_action(&missing, "u", 3, None);
    assert_eq!(a.edits[0].range, Span { start: at(3, 0), end: at(3, 0) });
    let a = create_append_missing_action(&missing, "u", 0, Some(String::new()));
    assert_eq!(a.edits[0].range, Span { start: at(0, 0), end: at(0, 0) });
    assert_eq!(a.title, "Append 1 missing environment variable(s)");
}

#[test]
fn generate_example_action_replaces_everything() {
    let all = vec![var("A", None, None, false, None), var("B", None, Some("x"), true, Some("G"))];
    let a = create_generate_example_action(&all, "file:///w/.env.example");
    assert_eq!(a.title, "Generate .env.example file");
    assert_eq!(a.kind, ActionKind::Source);
    assert_eq!(a.uri, "file:///w/.env.example");
    assert!(!a.is_preferred);
    assert_eq!(a.edits.len(), 1);
    assert_eq!(a.edits[0].range, Span { start: at(0, 0), end: at(u32::MAX, u32::MAX) });
    assert_eq!(a.edits[0].new_text, "# G\n#B=x\n\n# Other\nA=");
}

#[test]
fn create_example_action_names_the_file() {
    let a = create_create_example_action(&[], "file:///w");
    assert_eq!(a.title, "Create .env.example file");
    assert_eq!(a.kind, ActionKind::Source);
    assert_eq!(a.uri, "file:///w/.env.example");
    assert!(a.edits.is_empty());
    assert!(!a.is_preferred);
    assert_eq!(create_create_example_action(&[], "file:///w///").uri, "file:///w/.env.example");
    assert_eq!(create_create_example_action(&[], "").uri, "/.env.example");
}
