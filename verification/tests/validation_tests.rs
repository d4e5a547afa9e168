use env_checker::code_actions::generate_env_content;
use env_checker::env_file::{merge_env_files, parse_env_file};
use env_checker::types::{EnvFileEntry, EnvType, EnvVar};
use env_checker::validation::{group_variables, str_less, validate};

fn var(name: &str, optional: bool, default: Option<&str>, group: Option<&str>) -> EnvVar {
    EnvVar {
        name: name.to_string(),
        var_type: EnvType::String,
        description: None,
        default: default.map(|d| d.to_string()),
        optional,
        group: group.map(|g| g.to_string()),
    }
}

fn entry(name: &str, value: &str, file: &str) -> EnvFileEntry {
    EnvFileEntry { name: name.to_string(), value: Some(value.to_string()), line: 0, file_path: file.to_string() }
}

#[test]
fn validate_reports_required_missing_only() {
    let catalog = vec![
        EnvVar {
            name: "API_KEY".to_string(),
            var_type: EnvType::String,
            description: None,
            default: None,
            optional: false,
            group: None,
        },
        EnvVar {
            name: "DEBUG".to_string(),
            var_type: EnvType::Boolean,
            description: None,
            default: Some("false".to_string()),
            optional: true,
            group: None,
        },
    ];
    let entries = parse_env_file("", ".env");
    let result = validate(&catalog, &entries);
    assert_eq!(result.errors.len(), 1);
    assert_eq!(result.errors[0].var_name, "API_KEY");
    assert!(result.errors[0].missing_from_all);
    assert_eq!(result.errors[0].schema_var.name, "API_KEY");
    assert_eq!(result.errors[0].schema_var.var_type, EnvType::String);
    assert!(!result.errors[0].schema_var.optional);
    assert_eq!(result.all_schema_vars.len(), 2);
    assert_eq!(result.all_env_vars.len(), 0);

    let missing: Vec<EnvVar> = result.errors.iter().map(|e| e.schema_var.clone()).collect();
    let fragment = generate_env_content(&missing);
    assert_eq!(fragment, "API_KEY=\n");
    assert!(!fragment.contains("DEBUG"));
}

#[test]
fn validate_present_variables_are_not_reported() {
    let catalog = vec![var("A", false, None, None), var("B", false, None, None)];
    let entries = vec![entry("B", "1", ".env")];
    let result = validate(&catalog, &entries);
    assert_eq!(result.errors.len(), 1);
    assert_eq!(result.errors[0].var_name, "A");
    assert!(result.all_env_vars.contains_key("B"));
    assert!(!result.all_env_vars.contains_key("A"));
}

#[test]
fn validate_declared_but_blank_counts_as_present() {
    let catalog = vec![var("A", false, None, None)];
    let entries = parse_env_file("A=\n", ".env");
    assert_eq!(entries[0].value, None);
    let result = validate(&catalog, &entries);
    assert_eq!(result.errors.len(), 0);
}

#[test]
fn validate_optional_is_never_reported() {
    let catalog = vec![var("A", true, None, None), var("B", true, Some("x"), None)];
    let result = validate(&catalog, &[]);
    assert_eq!(result.errors.len(), 0);
    assert_eq!(result.all_schema_vars.len(), 2);
}

#[test]
fn validate_errors_follow_the_catalog() {
    let catalog = vec![
        var("Z", false, None, None),
        var("M", true, None, None),
        var("A", false, None, None),
        var("Z", false, None, None),
    ];
    let result = validate(&catalog, &[]);
    let names: Vec<&str> = result.errors.iter().map(|e| e.var_name.as_str()).collect();
    assert_eq!(names, vec!["Z", "A", "Z"]);
}

#[test]
fn validate_names_are_case_sensitive() {
    let catalog = vec![var("Port", false, None, None)];
    let result = validate(&catalog, &[entry("PORT", "1", ".env")]);
    assert_eq!(result.errors.len(), 1);
}

#[test]
fn validate_map_holds_the_first_entry_of_a_name() {
    let entries = vec![
        EnvFileEntry { name: "X".to_string(), value: Some("1".to_string()), line: 0, file_path: "a".to_string() },
        EnvFileEntry { name: "X".to_string(), value: Some("2".to_string()), line: 1, file_path: "a".to_string() },
        entry("PORT", "1", "a"),
        entry("PORT", "2", "b"),
    ];
    let result = validate(&[], &entries);
    assert_eq!(result.all_env_vars.len(), 2);
    let x = result.all_env_vars.get("X").unwrap();
    assert_eq!(x.value.as_deref(), Some("1"));
    assert_eq!(x.line, 0);
    let port = result.all_env_vars.get("PORT").unwrap();
    assert_eq!(port.value.as_deref(), Some("1"));
    assert_eq!(port.file_path, "a");
}

#[test]
fn validate_against_primary_file_prefers_its_value() {
    let first = parse_env_file("PORT=3000\n", "/w/.env");
    let second = parse_env_file("PORT=4000\n", "/w/.env.local");
    let merged = merge_env_files(vec![first, second]);
    let catalog = vec![var("PORT", false, None, None)];
    let result = validate(&catalog, &merged);
    assert_eq!(result.errors.len(), 0);
    let port = result.all_env_vars.get("PORT").unwrap();
    assert_eq!(port.value.as_deref(), Some("3000"));
    assert_eq!(port.file_path, "/w/.env");
}

#[test]
fn group_two_in_auth_one_ungrouped() {
    let catalog = vec![
        var("TOKEN", false, None, Some("Auth")),
        var("PLAIN", false, None, None),
        var("CLIENT_ID", false, None, Some("Auth")),
    ];
    let groups = group_variables(&catalog);
    let labels: Vec<&str> = groups.iter().map(|g| g.0.as_str()).collect();
    assert_eq!(labels, vec!["Auth", "Other"]);
    let auth: Vec<&str> = groups[0].1.iter().map(|v| v.name.as_str()).collect();
    assert_eq!(auth, vec!["CLIENT_ID", "TOKEN"]);
    let other: Vec<&str> = groups[1].1.iter().map(|v| v.name.as_str()).collect();
    assert_eq!(other, vec!["PLAIN"]);
}

#[test]
fn group_other_sorts_like_any_label() {
    let catalog = vec![
        var("A", false, None, Some("Zeta")),
        var("B", false, None, None),
        var("C", false, None, Some("Alpha")),
        var("D", false, None, Some("alpha")),
    ];
    let groups = group_variables(&catalog);
    let labels: Vec<&str> = groups.iter().map(|g| g.0.as_str()).collect();
    assert_eq!(labels, vec!["Alpha", "Other", "Zeta", "alpha"]);
}

#[test]
fn group_named_other_joins_the_ungrouped() {
    let catalog = vec![var("B", false, None, Some("Other")), var("A", false, None, None)];
    let groups = group_variables(&catalog);
    assert_eq!(groups.len(), 1);
    assert_eq!(groups[0].0, "Other");
    let names: Vec<&str> = groups[0].1.iter().map(|v| v.name.as_str()).collect();
    assert_eq!(names, vec!["A", "B"]);
}

#[test]
fn group_equal_names_keep_their_order() {
    let catalog = vec![
        var("X", false, Some("first"), None),
        var("A", false, None, None),
        var("X", false, Some("second"), None),
    ];
    let groups = group_variables(&catalog);
    let defaults: Vec<Option<&str>> = groups[0].1.iter().map(|v| v.default.as_deref()).collect();
    assert_eq!(defaults, vec![None, Some("first"), Some("second")]);
}

#[test]
fn group_of_nothing() {
    assert_eq!(group_variables(&[]).len(), 0);
}

#[test]
fn group_again_changes_nothing() {
    let catalog = vec![
        var("TOKEN", false, None, Some("Auth")),
        var("PLAIN", true, Some("1"), None),
        var("CLIENT_ID", false, None, Some("Auth")),
        var("DB", false, None, Some("Data")),
    ];
    let once = group_variables(&catalog);
    let flat: Vec<EnvVar> = once.iter().flat_map(|g| g.1.iter().cloned()).collect();
    let twice = group_variables(&flat);
    assert_eq!(once.len(), twice.len());
    for (a, b) in once.iter().zip(twice.iter()) {
        assert_eq!(a.0, b.0);
        let x: Vec<&str> = a.1.iter().map(|v| v.name.as_str()).collect();
        let y: Vec<&str> = b.1.iter().map(|v| v.name.as_str()).collect();
        assert_eq!(x, y);
    }
}

#[test]
fn order_of_texts_is_that_of_str() {
    let samples = ["", "a", "A", "ab", "b", "Z", "_", "a\u{e9}", "a\u{10000}", "\u{ffff}", "Other", "Auth"];
    for a in samples.iter() {
        for b in samples.iter() {
            assert_eq!(str_less(a, b), a < b, "{:?} < {:?}", a, b);
        }
    }
}
