use env_checker::code_actions::{
    format_var_entry, generate_env_content, generate_example_content,
};
use env_checker::env_file::{merge_env_files, parse_env_file};
use env_checker::types::{EnvType, EnvVar};
use env_checker::validation::validate;

fn var(
    name: &str,
    description: Option<&str>,
    default: Option<&str>,
    optional: bool,
    group: Option<&str>,
) -> EnvVar {
    EnvVar {
        name: name.to_string(),
        var_type: EnvType::String,
        description: description.map(|d| d.to_string()),
        default: default.map(|d| d.to_string()),
        optional,
        group: group.map(|g| g.to_string()),
    }
}

#[test]
fn entry_bare() {
    assert_eq!(format_var_entry(&var("API_KEY", None, None, false, None), false), "API_KEY=\n");
}

#[test]
fn entry_with_description_and_default() {
    let v = var("PORT", Some("The port"), Some("3000"), false, None);
    assert_eq!(format_var_entry(&v, false), "# The port\nPORT=3000\n");
}

#[test]
fn entry_optional_is_commented_out() {
    let v = var("DEBUG", None, Some("false"), true, None);
    assert_eq!(format_var_entry(&v, true), "#DEBUG=false\n");
    assert_eq!(format_var_entry(&v, false), "#DEBUG=false\n");
}

#[test]
fn fragment_has_no_leading_blank_line() {
    let vars = vec![
        var("TOKEN", Some("Access token"), None, false, Some("Auth")),
        var("PLAIN", None, Some("x"), false, None),
        var("CLIENT_ID", None, None, false, Some("Auth")),
    ];
    assert_eq!(
        generate_env_content(&vars),
        "CLIENT_ID=\n# Access token\nTOKEN=\n\nPLAIN=x\n"
    );
}

#[test]
fn fragment_of_nothing_is_empty() {
    assert_eq!(generate_env_content(&[]), "");
}

#[test]
fn example_has_blank_line_between_groups_and_no_final_line_feed() {
    let vars = vec![
        var("TOKEN", Some("Access token"), None, false, Some("Auth")),
        var("DEBUG", None, Some("false"), true, None),
        var("CLIENT_ID", None, None, false, Some("Auth")),
    ];
    assert_eq!(
        generate_example_content(&vars),
        "# Auth\nCLIENT_ID=\n# Access token\nTOKEN=\n\n# Other\n#DEBUG=false"
    );
}

#[test]
fn example_of_nothing_is_empty() {
    assert_eq!(generate_example_content(&[]), "");
}

#[test]
fn example_loses_every_final_line_feed() {
    let vars = vec![var("A", None, Some("x\n\n"), false, None)];
    assert_eq!(generate_example_content(&vars), "# Other\nA=x");
}

#[test]
fn rendering_twice_gives_the_same_text() {
    let vars = vec![
        var("B", Some("d"), None, false, Some("G")),
        var("A", None, Some("1"), true, None),
    ];
    assert_eq!(generate_env_content(&vars), generate_env_content(&vars));
    assert_eq!(generate_example_content(&vars), generate_example_content(&vars));
    let copy: Vec<EnvVar> = vars.iter().cloned().collect();
    assert_eq!(generate_example_content(&vars), generate_example_content(&copy));
}

#[test]
fn appended_fragment_leaves_nothing_missing() {
    let catalog = vec![
        var("API_KEY", Some("The key"), None, false, Some("Auth")),
        var("export", None, Some("a b"), false, None),
        var("PORT", None, Some("3000"), false, None),
        var("DEBUG", None, Some("false"), true, None),
        var("MULTI", Some("two\nlines"), Some("first\nsecond"), false, None),
    ];
    let content = "PORT=1\n# the last line is ended\n";
    let entries = parse_env_file(content, ".env");
    let before = validate(&catalog, &entries);
    let names: Vec<&str> = before.errors.iter().map(|e| e.var_name.as_str()).collect();
    assert_eq!(names, vec!["API_KEY", "export", "MULTI"]);

    let missing: Vec<EnvVar> = before.errors.iter().map(|e| e.schema_var.clone()).collect();
    let fragment = generate_env_content(&missing);
    let repaired = format!("{}{}", content, fragment);
    let reread = parse_env_file(&repaired, ".env");
    let after = validate(&catalog, &merge_env_files(vec![reread, Vec::new()]));
    assert_eq!(after.errors.len(), 0);
    assert_eq!(after.all_env_vars.get("MULTI").unwrap().value.as_deref(), Some("first"));
    assert_eq!(after.all_env_vars.get("export").unwrap().value.as_deref(), Some("a b"));
}

#[test]
fn appended_fragment_continues_a_last_line_that_is_not_ended() {
    let catalog = vec![var("KEY", None, None, false, None)];
    let content = "A=1";
    let before = validate(&catalog, &parse_env_file(content, ".env"));
    let missing: Vec<EnvVar> = before.errors.iter().map(|e| e.schema_var.clone()).collect();
    let fragment = generate_env_content(&missing);
    assert_eq!(fragment, "KEY=\n");
    let reread = parse_env_file(&format!("{}{}", content, fragment), ".env");
    assert_eq!(reread.len(), 1);
    assert_eq!(reread[0].value.as_deref(), Some("1KEY="));
    assert_eq!(validate(&catalog, &reread).errors.len(), 1);
    let reread = parse_env_file(&format!("{}\n{}", content, fragment), ".env");
    assert_eq!(validate(&catalog, &reread).errors.len(), 0);
}

#[test]
fn fragment_of_one_required_variable() {
    let catalog = vec![var("API_KEY", None, None, false, None)];
    assert_eq!(generate_env_content(&catalog), "API_KEY=\n");
    let with_optional = vec![
        var("API_KEY", None, None, false, None),
        var("DEBUG", None, Some("false"), true, None),
    ];
    assert_eq!(generate_env_content(&with_optional), "API_KEY=\n#DEBUG=false\n");
}

#[test]
fn appended_fragment_cannot_declare_a_name_that_is_no_identifier() {
    let catalog = vec![var("MY-VAR", None, None, false, None)];
    let before = validate(&catalog, &[]);
    let missing: Vec<EnvVar> = before.errors.iter().map(|e| e.schema_var.clone()).collect();
    let fragment = generate_env_content(&missing);
    assert_eq!(fragment, "MY-VAR=\n");
    let after = validate(&catalog, &parse_env_file(&fragment, ".env"));
    assert_eq!(after.errors.len(), 1);
}

#[test]
fn fragment_read_back_holds_the_required_names_and_no_other() {
    let vars = vec![
        var("B", Some("about B = 1"), Some("x"), false, Some("G")),
        var("A", Some("A=1"), None, false, None),
        var("OPT", None, Some("1"), true, None),
        var("C", None, Some("# not a comment"), false, Some("H")),
    ];
    let fragment = generate_env_content(&vars);
    assert_eq!(fragment, "# about B = 1\nB=x\n\nC=# not a comment\n\n# A=1\nA=\n#OPT=1\n");
    let mut names: Vec<String> =
        parse_env_file(&fragment, ".env").into_iter().map(|e| e.name).collect();
    names.sort();
    assert_eq!(names, vec!["A", "B", "C"]);
}

#[test]
fn reordered_catalog_renders_alike() {
    let a = vec![
        var("TOKEN", Some("Access token"), None, false, Some("Auth")),
        var("DEBUG", None, Some("false"), true, None),
        var("CLIENT_ID", None, None, false, Some("Auth")),
        var("DB", None, None, false, Some("Data")),
    ];
    for order in [[3, 2, 1, 0], [1, 3, 0, 2], [2, 0, 3, 1]] {
        let b: Vec<EnvVar> = order.iter().map(|&i: &usize| a[i].clone()).collect();
        assert_eq!(generate_env_content(&a), generate_env_content(&b));
        assert_eq!(generate_example_content(&a), generate_example_content(&b));
    }
}

#[test]
fn fragment_begins_a_line_unless_a_name_begins_with_a_line_feed() {
    let usual = vec![var("B", None, None, false, Some("Z")), var("A", None, None, true, None)];
    assert_eq!(generate_env_content(&usual), "#A=\n\nB=\n");
    let odd = vec![var("\nA", None, None, false, None)];
    assert_eq!(generate_env_content(&odd), "\nA=\n");
}

#[test]
fn groups_hold_the_catalog() {
    let catalog = vec![
        var("B", None, None, false, Some("G")),
        var("A", None, None, false, None),
        var("B", None, None, false, Some("G")),
        var("C", None, None, true, Some("Other")),
    ];
    let mut names: Vec<String> = env_checker::validation::group_variables(&catalog)
        .into_iter()
        .flat_map(|g| g.1.into_iter().map(|v| v.name))
        .collect();
    names.sort();
    assert_eq!(names, vec!["A", "B", "B", "C"]);
}
