use env_checker::config::{
    classify_schema_file, discover_schemas, file_extension, get_env_file_paths, is_env_file,
    schema_patterns, source_of, Discovered, EnvFileMatch, ExplicitFile,
};
use env_checker::types::{default_env_files, default_true, Config, Dialect, SchemaSource};

fn describe(s: &SchemaSource) -> String {
    match s {
        SchemaSource::Zod { file_path } => format!("zod:{}", file_path),
        SchemaSource::Pydantic { file_path } => format!("pydantic:{}", file_path),
        SchemaSource::Yaml { file_path } => format!("yaml:{}", file_path),
    }
}

#[test]
fn config_defaults() {
    let c = Config::default();
    assert!(c.schema_files.is_empty());
    assert_eq!(c.env_files, vec![".env".to_string()]);
    assert!(c.auto_discover);
    assert!(c.groups.is_empty());
    assert!(default_true());
    assert_eq!(default_env_files(), vec![".env".to_string()]);
}

#[test]
fn patterns_of_each_dialect() {
    assert_eq!(
        schema_patterns(Dialect::Zod),
        vec![
            "**/schema.ts", "**/schema.js", "**/config.ts", "**/config.js", "**/env.ts",
            "**/env.js", "**/*config.ts", "**/*config.js",
        ]
    );
    assert_eq!(
        schema_patterns(Dialect::Pydantic),
        vec!["**/config.py", "**/settings.py", "**/env.py", "**/configuration.py", "**/app_config.py"]
    );
    assert_eq!(
        schema_patterns(Dialect::Yaml),
        vec!["**/env.schema.yml", "**/env.schema.yaml", "**/.env.schema.yml", "**/.env.schema.yaml"]
    );
}

#[test]
fn extensions() {
    assert_eq!(file_extension("a/b.ts").as_deref(), Some("ts"));
    assert_eq!(file_extension("b.tar.gz").as_deref(), Some("gz"));
    assert_eq!(file_extension("/w/prod.env").as_deref(), Some("env"));
    assert_eq!(file_extension("/w/.env"), None);
    assert_eq!(file_extension(".env.local").as_deref(), Some("local"));
    assert_eq!(file_extension("dir.d/file"), None);
    assert_eq!(file_extension("dir.d\\file.py").as_deref(), Some("py"));
    assert_eq!(file_extension("a/.."), None);
    assert_eq!(file_extension(".."), None);
    assert_eq!(file_extension("foo.").as_deref(), Some(""));
    assert_eq!(file_extension("a.b/"), None);
    assert_eq!(file_extension(""), None);
    assert_eq!(file_extension("..a").as_deref(), Some("a"));
}

#[test]
fn watched_environment_files() {
    assert!(is_env_file("/w/prod.env"));
    assert!(is_env_file("a.b.env"));
    assert!(!is_env_file("/w/.env"));
    assert!(!is_env_file("/w/.env.local"));
    assert!(!is_env_file("/w/env"));
    assert!(!is_env_file("/w/x.ENV"));
}

#[test]
fn dialect_by_extension() {
    for (path, want) in [
        ("a.ts", Some("zod:a.ts")),
        ("a.js", Some("zod:a.js")),
        ("a.tsx", Some("zod:a.tsx")),
        ("a.jsx", Some("zod:a.jsx")),
        ("x/settings.py", Some("pydantic:x/settings.py")),
        ("env.schema.yml", Some("yaml:env.schema.yml")),
        ("env.schema.yaml", Some("yaml:env.schema.yaml")),
        ("a.json", None),
        ("a.TS", None),
        ("ts", None),
        (".ts", None),
    ] {
        assert_eq!(classify_schema_file(path).map(|s| describe(&s)).as_deref(), want, "{}", path);
    }
    assert_eq!(describe(&source_of(Dialect::Yaml, "p")), "yaml:p");
}

fn found() -> Discovered {
    Discovered {
        zod: vec!["/w/env.ts".to_string(), "/w/src/config.js".to_string()],
        pydantic: vec!["/w/settings.py".to_string()],
        yaml: vec!["/w/env.schema.yml".to_string()],
    }
}

fn explicit() -> Vec<ExplicitFile> {
    vec![
        ExplicitFile { path: "/w/custom/vars.py".to_string(), exists: true },
        ExplicitFile { path: "/w/gone.ts".to_string(), exists: false },
        ExplicitFile { path: "/w/notes.txt".to_string(), exists: true },
        ExplicitFile { path: "/w/extra.yaml".to_string(), exists: true },
    ]
}

#[test]
fn discovery_then_named_files() {
    let config = Config::default();
    let schemas = discover_schemas(&config, &found(), &explicit());
    let all: Vec<String> = schemas.iter().map(describe).collect();
    assert_eq!(
        all,
        vec![
            "zod:/w/env.ts", "zod:/w/src/config.js", "pydantic:/w/settings.py",
            "yaml:/w/env.schema.yml", "pydantic:/w/custom/vars.py", "yaml:/w/extra.yaml",
        ]
    );
}

#[test]
fn discovery_switched_off() {
    let mut config = Config::default();
    config.auto_discover = false;
    let schemas = discover_schemas(&config, &found(), &explicit());
    let all: Vec<String> = schemas.iter().map(describe).collect();
    assert_eq!(all, vec!["pydantic:/w/custom/vars.py", "yaml:/w/extra.yaml"]);
    assert!(discover_schemas(&config, &found(), &[]).is_empty());
}

#[test]
fn environment_files_named_and_expanded() {
    let matches = vec![
        EnvFileMatch::File("/w/.env".to_string()),
        EnvFileMatch::Pattern(vec!["/w/a.env".to_string(), "/w/b.env".to_string()]),
        EnvFileMatch::Pattern(vec![]),
    ];
    assert_eq!(
        get_env_file_paths(&matches, Some("/w/.env")),
        vec!["/w/.env".to_string(), "/w/a.env".to_string(), "/w/b.env".to_string()]
    );
}

#[test]
fn environment_files_fall_back_to_the_default() {
    let nothing = vec![EnvFileMatch::Pattern(vec![])];
    assert_eq!(get_env_file_paths(&nothing, Some("/w/.env")), vec!["/w/.env".to_string()]);
    assert!(get_env_file_paths(&nothing, None).is_empty());
    assert_eq!(get_env_file_paths(&[], Some("/w/.env")), vec!["/w/.env".to_string()]);
    assert!(get_env_file_paths(&[], None).is_empty());
}
