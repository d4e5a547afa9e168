use env_checker::schema::pydantic::{
    describe_field, find_class_definitions, parse_field_args, parse_field_assignment,
    parse_pydantic_schema, sanitize_python_value,
};
use env_checker::schema::yaml::{
    default_false, describe_yaml_var, parse_yaml_schema, YamlSchema, YamlVar,
};
use env_checker::schema::zod::{
    extract_default, extract_description, extract_group, extract_type_name,
    find_zod_object_definitions, parse_object_properties, parse_property_chain, parse_type_chain,
    parse_zod_schema,
};
use env_checker::schema::{map_type_string, parse_schema, type_of_word, SchemaInput};
use env_checker::types::{EnvType, EnvVar, SchemaSource};

fn chars(s: &str) -> Vec<char> {
    s.chars().collect()
}

fn check(v: &EnvVar, name: &str, t: EnvType, desc: Option<&str>, default: Option<&str>, optional: bool, group: Option<&str>) {
    assert_eq!(v.name, name);
    assert_eq!(v.var_type, t, "type of {}", name);
    assert_eq!(v.description.as_deref(), desc, "description of {}", name);
    assert_eq!(v.default.as_deref(), default, "default of {}", name);
    assert_eq!(v.optional, optional, "optional of {}", name);
    assert_eq!(v.group.as_deref(), group, "group of {}", name);
}

#[test]
fn type_words() {
    assert_eq!(type_of_word(&chars("bool")), EnvType::Boolean);
    assert_eq!(type_of_word(&chars("boolean")), EnvType::Boolean);
    assert_eq!(type_of_word(&chars("int")), EnvType::Integer);
    assert_eq!(type_of_word(&chars("integer")), EnvType::Integer);
    assert_eq!(type_of_word(&chars("number")), EnvType::Number);
    assert_eq!(type_of_word(&chars("string")), EnvType::String);
    assert_eq!(type_of_word(&chars("str")), EnvType::String);
    assert_eq!(type_of_word(&chars("float")), EnvType::String);
    assert_eq!(type_of_word(&chars("")), EnvType::String);
    assert_eq!(type_of_word(&chars("list[int]")), EnvType::Integer);
    assert_eq!(type_of_word(&chars("number or int")), EnvType::Integer);
    assert_eq!(type_of_word(&chars("bool or int")), EnvType::Boolean);
    assert_eq!(type_of_word(&chars("Bool")), EnvType::String);
}

#[test]
fn type_words_of_any_case() {
    assert_eq!(map_type_string("BOOLEAN"), EnvType::Boolean);
    assert_eq!(map_type_string("Integer"), EnvType::Integer);
    assert_eq!(map_type_string("Number"), EnvType::Number);
    assert_eq!(map_type_string("String"), EnvType::String);
    assert_eq!(map_type_string("Optional[INT]"), EnvType::Integer);
}

const ZOD: &str = r#"import { z } from "zod";

export const envSchema = z.object({
  API_KEY: z.string().describe("The API key"),
  PORT: z.coerce.number().default(3000),
  DEBUG: z.boolean().optional().default(false),
  NODE_ENV: z.string().default('development').register(registry, { group: "Runtime" }),
});
"#;

#[test]
fn zod_reads_every_property_once() {
    let parsed = parse_zod_schema("/w/env.ts", ZOD).unwrap();
    match &parsed.source {
        SchemaSource::Zod { file_path } => assert_eq!(file_path, "/w/env.ts"),
        other => panic!("{:?}", other),
    }
    let v = &parsed.variables;
    assert_eq!(v.len(), 4);
    check(&v[0], "API_KEY", EnvType::String, Some("The API key"), None, false, None);
    check(&v[1], "PORT", EnvType::Number, None, Some("3000"), true, None);
    check(&v[2], "DEBUG", EnvType::Boolean, None, Some("false"), true, None);
    check(&v[3], "NODE_ENV", EnvType::String, None, Some("development"), true, Some("Runtime"));
}

#[test]
fn zod_default_makes_optional() {
    let mut vars = Vec::new();
    parse_property_chain("A", "z.string().default(\"x\")", &mut vars);
    parse_property_chain("B", "z.string()", &mut vars);
    parse_property_chain("C", "z.string().nullable()", &mut vars);
    check(&vars[0], "A", EnvType::String, None, Some("x"), true, None);
    check(&vars[1], "B", EnvType::String, None, None, false, None);
    check(&vars[2], "C", EnvType::String, None, None, true, None);
}

#[test]
fn zod_file_without_schema_gives_none() {
    assert!(parse_zod_schema("a.ts", "export const x = 1;\n").is_none());
    assert!(parse_zod_schema("a.ts", "").is_none());
    assert!(parse_zod_schema("a.ts", "z.object({})").is_none());
    assert!(parse_zod_schema("a.ts", "z.object({ A: z.string()").is_none());
    assert!(parse_zod_schema("a.ts", "z.object({ A: z.string() }").is_none());
}

#[test]
fn zod_aliased_builder_and_spacing() {
    let text = "const s = schema\n  .object (\n {\n A : z.int() ,\n B:z.float()\n }\n )";
    let parsed = parse_zod_schema("a.ts", text).unwrap();
    assert_eq!(parsed.variables.len(), 2);
    check(&parsed.variables[0], "A", EnvType::Integer, None, None, false, None);
    check(&parsed.variables[1], "B", EnvType::String, None, None, false, None);
}

#[test]
fn zod_several_objects_and_repeated_names() {
    let text = "const a = z.object({ X: z.string() });\nconst b = z.object({ Y: z.number(), X: z.boolean() });";
    let mut vars = Vec::new();
    find_zod_object_definitions(text, &mut vars);
    let names: Vec<&str> = vars.iter().map(|v| v.name.as_str()).collect();
    assert_eq!(names, vec!["X", "Y", "X"]);
    assert_eq!(vars[2].var_type, EnvType::Boolean);
}

#[test]
fn zod_chain_over_several_lines() {
    let text = "z.object({\n  API_KEY: z\n    .string()\n    .describe(\"key, with (brackets)\")\n    .default(\"a,b\"),\n  NEXT: z.number(),\n})";
    let parsed = parse_zod_schema("a.ts", text).unwrap();
    assert_eq!(parsed.variables.len(), 2);
    check(&parsed.variables[0], "API_KEY", EnvType::String, Some("key, with (brackets)"), Some("a,b"), true, None);
    check(&parsed.variables[1], "NEXT", EnvType::Number, None, None, false, None);
}

#[test]
fn zod_nested_object_is_one_property() {
    let text = "z.object({ outer: z.object({ inner: z.string() }), last: z.boolean() })";
    let parsed = parse_zod_schema("a.ts", text).unwrap();
    let names: Vec<&str> = parsed.variables.iter().map(|v| v.name.as_str()).collect();
    assert_eq!(names, vec!["outer", "last"]);
}

#[test]
fn zod_properties_of_a_body() {
    let mut vars = vec![];
    parse_object_properties("A: z.string(), \"quoted\": z.string(), B: z.number()", &mut vars);
    let names: Vec<&str> = vars.iter().map(|v| v.name.as_str()).collect();
    assert_eq!(names, vec!["A", "B"]);
}

#[test]
fn zod_type_names() {
    assert_eq!(extract_type_name("z.string().min(1)"), Some("string"));
    assert_eq!(extract_type_name("z.number()"), Some("number"));
    assert_eq!(extract_type_name("z.boolean()"), Some("boolean"));
    assert_eq!(extract_type_name("z.int()"), Some("int"));
    assert_eq!(extract_type_name("z.float()"), Some("float"));
    assert_eq!(extract_type_name("z.coerce.number()"), Some("number"));
    assert_eq!(extract_type_name("z.coerce.boolean()"), Some("boolean"));
    assert_eq!(extract_type_name("z.coerce.string()"), Some("string"));
    assert_eq!(extract_type_name("z.enum([\"a\"])"), None);
    assert_eq!(extract_type_name("z.number().or(z.string())"), Some("string"));
}

#[test]
fn zod_descriptions() {
    assert_eq!(extract_description(".describe(\"x\")").as_deref(), Some("x"));
    assert_eq!(extract_description(".describe ( 'it is \"x\"' )").as_deref(), Some("it is \"x\""));
    assert_eq!(extract_description(".describe(\"\")").as_deref(), Some(""));
    assert_eq!(extract_description(".describe(text)"), None);
    assert_eq!(extract_description(".describe(\"open"), None);
    assert_eq!(extract_description("z.string()"), None);
}

#[test]
fn zod_defaults() {
    assert_eq!(extract_default(".default(\"x\")").as_deref(), Some("x"));
    assert_eq!(extract_default(".default('x')").as_deref(), Some("x"));
    assert_eq!(extract_default(".default( 3000 )").as_deref(), Some("3000"));
    assert_eq!(extract_default(".default(false)").as_deref(), Some("false"));
    assert_eq!(extract_default(".default(getPort(1, 2))").as_deref(), Some("getPort(1, 2)"));
    assert_eq!(extract_default(".default()"), None);
    assert_eq!(extract_default(".default(  )"), None);
    assert_eq!(extract_default(".defaults(1)"), None);
    assert_eq!(extract_default(".default(1"), None);
}

#[test]
fn zod_groups() {
    assert_eq!(extract_group(".register(reg, { group: \"Auth\" })").as_deref(), Some("Auth"));
    assert_eq!(extract_group(".register(reg, { title: 'x', group : 'Data base' })").as_deref(), Some("Data base"));
    assert_eq!(extract_group(".register(reg, { group: name })"), None);
    assert_eq!(extract_group(".register(reg, { title: 'x' })"), None);
    assert_eq!(extract_group(".meta({ group: \"Auth\" })"), None);
}

#[test]
fn zod_chain_keeps_what_it_does_not_mention() {
    let mut var_type = EnvType::Integer;
    let mut description = Some("old".to_string());
    let mut default = None;
    let mut optional = true;
    let mut group = Some("G".to_string());
    parse_type_chain("  z.enum(['a']).default('a')  ", &mut var_type, &mut description, &mut default, &mut optional, &mut group);
    assert_eq!(var_type, EnvType::Integer);
    assert_eq!(description.as_deref(), Some("old"));
    assert_eq!(default.as_deref(), Some("a"));
    assert!(optional);
    assert_eq!(group.as_deref(), Some("G"));
    let mut optional = false;
    parse_type_chain("z.boolean().optional()", &mut var_type, &mut description, &mut default, &mut optional, &mut group);
    assert_eq!(var_type, EnvType::Boolean);
    assert!(optional);
}

const PYDANTIC: &str = r#"from pydantic import BaseSettings, Field

class Settings(BaseSettings):
    """Application settings."""
    database_url: str = Field(..., description="Database URL")
    debug: bool = Field(default=False, description='Debug mode')
    port: Optional[int] = None
    workers: int = 4
    name: str | None
    timeout: float = Field(
        default=2.5,
    )

class Other:
        x: int
"#;

#[test]
fn pydantic_reads_every_field() {
    let parsed = parse_pydantic_schema("/w/settings.py", PYDANTIC).unwrap();
    match &parsed.source {
        SchemaSource::Pydantic { file_path } => assert_eq!(file_path, "/w/settings.py"),
        other => panic!("{:?}", other),
    }
    let v = &parsed.variables;
    assert_eq!(v.len(), 7);
    check(&v[0], "DATABASE_URL", EnvType::String, Some("Database URL"), None, false, None);
    check(&v[1], "DEBUG", EnvType::Boolean, Some("Debug mode"), Some("false"), true, None);
    check(&v[2], "PORT", EnvType::Integer, None, Some(""), true, None);
    check(&v[3], "WORKERS", EnvType::Integer, None, Some("4"), true, None);
    check(&v[4], "NAME", EnvType::String, None, None, true, None);
    check(&v[5], "TIMEOUT", EnvType::String, None, None, false, None);
    check(&v[6], "X", EnvType::Integer, None, None, false, None);
}

#[test]
fn pydantic_body_ends_at_an_outdented_line() {
    let text = "class A:\n    a: int\n\n    b: int\nclass B:\n\n  c: int\n   \nd: int\n  e: int\n";
    let mut vars = Vec::new();
    find_class_definitions(text, &mut vars);
    let names: Vec<&str> = vars.iter().map(|v| v.name.as_str()).collect();
    assert_eq!(names, vec!["A", "B", "C"]);
}

#[test]
fn pydantic_nested_lines_declare_nothing() {
    let text = "class A:\n  a: int\n  class Config:\n    env_file: str\n  b: int\n deeper: int\nc: int\n";
    let mut vars = Vec::new();
    find_class_definitions(text, &mut vars);
    let names: Vec<&str> = vars.iter().map(|v| v.name.as_str()).collect();
    assert_eq!(names, vec!["A", "B"]);
}

#[test]
fn pydantic_header_forms() {
    for header in ["class A:", "class  A :", "class A(B, C):", "class A ( B ) :", "  class A():"] {
        let text = format!("{}\n      x: int\n", header);
        assert!(parse_pydantic_schema("a.py", &text).is_some(), "{}", header);
    }
    for header in ["classA:", "class A", "class 1A:", "class A: pass", "class A(B:", "klass A:", "class:"] {
        let text = format!("{}\n      x: int\n", header);
        assert!(parse_pydantic_schema("a.py", &text).is_none(), "{}", header);
    }
}

#[test]
fn pydantic_file_without_class_gives_none() {
    assert!(parse_pydantic_schema("a.py", "x: int = 3\n").is_none());
    assert!(parse_pydantic_schema("a.py", "class A:\n    pass\n").is_none());
    assert!(parse_pydantic_schema("a.py", "").is_none());
}

#[test]
fn pydantic_field_with_default_is_optional() {
    let mut vars = Vec::new();
    parse_field_assignment("api_key", "str", "Field(default=\"abc\", description=\"Key\")", &mut vars);
    parse_field_assignment("api_key", "str", "Field(description=\"Key\")", &mut vars);
    parse_field_assignment("n", "NoneType", "", &mut vars);
    parse_field_assignment("m", "int", "default = 3", &mut vars);
    parse_field_assignment("debug", "bool ", "False", &mut vars);
    parse_field_assignment("plain", "str", "  ", &mut vars);
    check(&vars[0], "API_KEY", EnvType::String, Some("Key"), Some("abc"), true, None);
    check(&vars[1], "API_KEY", EnvType::String, Some("Key"), None, false, None);
    check(&vars[2], "N", EnvType::String, None, None, true, None);
    check(&vars[3], "M", EnvType::Integer, None, Some("default = 3"), true, None);
    check(&vars[4], "DEBUG", EnvType::Boolean, None, Some("false"), true, None);
    check(&vars[5], "PLAIN", EnvType::String, None, None, false, None);
}

#[test]
fn pydantic_field_descriptor() {
    let v = describe_field("X".to_string(), EnvType::Number, &chars("Optional[float]"), &chars("Field(default=None)"));
    check(&v, "X", EnvType::Number, None, Some(""), true, None);
    let v = describe_field("x".to_string(), EnvType::String, &chars("str"), &chars("Field(default_factory=list)"));
    check(&v, "x", EnvType::String, None, None, false, None);
}

#[test]
fn pydantic_field_args() {
    let mut description = None;
    let mut default = Some("kept".to_string());
    let mut optional = false;
    parse_field_args("Field(title=\"description\", description = 'It is', gt=0)", &mut description, &mut default, &mut optional);
    assert_eq!(description.as_deref(), Some("It is"));
    assert_eq!(default.as_deref(), Some("kept"));
    assert!(!optional);
    parse_field_args("Field(default = 'x y' , description=\"\")", &mut description, &mut default, &mut optional);
    assert_eq!(description.as_deref(), Some("It is"));
    assert_eq!(default.as_deref(), Some("x y"));
}

#[test]
fn python_values() {
    assert_eq!(sanitize_python_value("\"abc\""), "abc");
    assert_eq!(sanitize_python_value("'abc'"), "abc");
    assert_eq!(sanitize_python_value(" True "), "true");
    assert_eq!(sanitize_python_value("False"), "false");
    assert_eq!(sanitize_python_value("None"), "");
    assert_eq!(sanitize_python_value("42"), "42");
    assert_eq!(sanitize_python_value("true"), "true");
    assert_eq!(sanitize_python_value("\""), "\"");
    assert_eq!(sanitize_python_value("'a\""), "'a\"");
}

fn yaml_var(t: &str, default: Option<&str>, required: bool) -> YamlVar {
    YamlVar {
        var_type: t.to_string(),
        description: Some(format!("about {}", t)),
        default: default.map(|d| d.to_string()),
        required,
        group: Some("G".to_string()),
    }
}

#[test]
fn yaml_required_and_optional() {
    let schema = YamlSchema {
        variables: Some(vec![
            ("db_url".to_string(), yaml_var("string", None, true)),
            ("port".to_string(), yaml_var("Integer", Some("3000"), default_false())),
            ("debug".to_string(), yaml_var("boolean", None, false)),
            ("ratio".to_string(), yaml_var("NUMBER", Some("1"), true)),
        ]),
    };
    let parsed = parse_yaml_schema("/w/env.schema.yml", &schema).unwrap();
    match &parsed.source {
        SchemaSource::Yaml { file_path } => assert_eq!(file_path, "/w/env.schema.yml"),
        other => panic!("{:?}", other),
    }
    let v = &parsed.variables;
    assert_eq!(v.len(), 4);
    check(&v[0], "DB_URL", EnvType::String, Some("about string"), None, false, Some("G"));
    check(&v[1], "PORT", EnvType::Integer, Some("about Integer"), Some("3000"), true, Some("G"));
    check(&v[2], "DEBUG", EnvType::Boolean, Some("about boolean"), None, true, Some("G"));
    check(&v[3], "RATIO", EnvType::Number, Some("about NUMBER"), Some("1"), true, Some("G"));
}

#[test]
fn yaml_without_variables_gives_none() {
    assert!(parse_yaml_schema("a.yml", &YamlSchema { variables: None }).is_none());
    assert!(parse_yaml_schema("a.yml", &YamlSchema { variables: Some(vec![]) }).is_none());
}

#[test]
fn yaml_descriptor() {
    let v = describe_yaml_var("N".to_string(), EnvType::Integer, &yaml_var("x", None, true));
    check(&v, "N", EnvType::Integer, Some("about x"), None, false, Some("G"));
    assert!(!default_false());
}

#[test]
fn schema_is_read_in_the_dialect_of_its_source() {
    let zod = SchemaSource::Zod { file_path: "a.ts".to_string() };
    let py = SchemaSource::Pydantic { file_path: "a.py".to_string() };
    let yml = SchemaSource::Yaml { file_path: "a.yml".to_string() };
    let text = SchemaInput::Text("z.object({ A: z.string() })\nclass S:\n    b: int\n".to_string());
    let mapping = SchemaInput::Mapping(YamlSchema {
        variables: Some(vec![("c".to_string(), yaml_var("bool", None, false))]),
    });
    assert_eq!(parse_schema(&zod, &text).unwrap().variables[0].name, "A");
    assert_eq!(parse_schema(&py, &text).unwrap().variables[0].name, "B");
    assert_eq!(parse_schema(&yml, &mapping).unwrap().variables[0].name, "C");
    assert!(parse_schema(&yml, &text).is_none());
    assert!(parse_schema(&zod, &mapping).is_none());
    assert!(parse_schema(&py, &mapping).is_none());
}

#[test]
fn every_default_comes_with_optional() {
    let zod = parse_zod_schema("a.ts", ZOD).unwrap();
    let py = parse_pydantic_schema("a.py", PYDANTIC).unwrap();
    for v in zod.variables.iter().chain(py.variables.iter()) {
        assert!(v.default.is_none() || v.optional, "{}", v.name);
    }
}

#[test]
fn yaml_db_url_required_without_default() {
    let schema = YamlSchema {
        variables: Some(vec![
            (
                "DB_URL".to_string(),
                YamlVar {
                    var_type: "string".to_string(),
                    description: None,
                    default: None,
                    required: true,
                    group: None,
                },
            ),
            (
                "CACHE_URL".to_string(),
                YamlVar {
                    var_type: "string".to_string(),
                    description: None,
                    default: None,
                    required: default_false(),
                    group: None,
                },
            ),
        ]),
    };
    let parsed = parse_yaml_schema("env.schema.yaml", &schema).unwrap();
    check(&parsed.variables[0], "DB_URL", EnvType::String, None, None, false, None);
    check(&parsed.variables[1], "CACHE_URL", EnvType::String, None, None, true, None);
}

#[test]
fn zod_object_of_well_formed_properties() {
    let text = "schema.object({\n  A:z.string(),\n  B9: z.number().default(fn({ a: [1, 2] }, 3)),\n_c :z.boolean().describe(\"x,y\"),\n \t})";
    let parsed = parse_zod_schema("a.ts", text).unwrap();
    let v = &parsed.variables;
    assert_eq!(v.len(), 3);
    check(&v[0], "A", EnvType::String, None, None, false, None);
    check(&v[1], "B9", EnvType::Number, None, Some("fn({ a: [1, 2] }, 3)"), true, None);
    check(&v[2], "_c", EnvType::Boolean, Some("x,y"), None, false, None);
}

#[test]
fn pydantic_class_of_well_formed_fields() {
    let text = "class Settings:\n  a: int\n  b: Optional[str] = Field(default='x')\n  c: bool = True";
    let parsed = parse_pydantic_schema("a.py", text).unwrap();
    let v = &parsed.variables;
    assert_eq!(v.len(), 3);
    check(&v[0], "A", EnvType::Integer, None, None, false, None);
    check(&v[1], "B", EnvType::String, None, Some("x"), true, None);
    check(&v[2], "C", EnvType::Boolean, None, Some("true"), true, None);
}

#[test]
fn names_are_put_in_upper_case_by_unicodes_rules() {
    let mut vars = Vec::new();
    parse_field_assignment("stra\u{df}e", "Str", "", &mut vars);
    assert_eq!(vars[0].name, "STRASSE");
    let schema = YamlSchema {
        variables: Some(vec![(
            "\u{e9}t\u{e9}".to_string(),
            YamlVar { var_type: "\u{130}NT".to_string(), description: None, default: None, required: true, group: None },
        )]),
    };
    let parsed = parse_yaml_schema("a.yml", &schema).unwrap();
    assert_eq!(parsed.variables[0].name, "\u{c9}T\u{c9}");
    assert_eq!(parsed.variables[0].var_type, EnvType::String);
}

#[test]
fn pydantic_class_among_other_lines() {
    let text = "import os\n\nclass Settings(BaseSettings, Other):\n\ta: int\n\tb: str = 'x'\n\n  \n";
    let parsed = parse_pydantic_schema("a.py", text).unwrap();
    let v = &parsed.variables;
    assert_eq!(v.len(), 2);
    check(&v[0], "A", EnvType::Integer, None, None, false, None);
    check(&v[1], "B", EnvType::String, None, Some("x"), true, None);
}

#[test]
fn pydantic_unions_with_none_are_optional() {
    for hint in [
        "Optional[int]", "str | None", "None | str", "str|None", "None|str", "int | None | str",
        "Union[str, None]", "Union[None, int]", "typing.Union[int,None]", "NoneType",
        "str  |\tNone",
    ] {
        let mut vars = Vec::new();
        parse_field_assignment("x", hint, "", &mut vars);
        assert!(vars[0].optional, "{}", hint);
        assert_eq!(vars[0].default, None);
    }
    for hint in ["str", "int | str", "Nonesuch | str", "str | Nonesuch", "Callable[[], None]", "None", "MyNone | str", "Union[str, int]"] {
        let mut vars = Vec::new();
        parse_field_assignment("x", hint, "", &mut vars);
        assert!(!vars[0].optional, "{}", hint);
    }
}

#[test]
fn zod_object_with_a_nested_brace() {
    let text = "const env = z.object({\n  A: z.string(),\n  B: z.string().register(reg, { group: \"G\" }),\n  C: z.number(),\n})\n";
    let parsed = parse_zod_schema("a.ts", text).unwrap();
    let v = &parsed.variables;
    assert_eq!(v.len(), 3);
    check(&v[0], "A", EnvType::String, None, None, false, None);
    check(&v[1], "B", EnvType::String, None, None, false, Some("G"));
    check(&v[2], "C", EnvType::Number, None, None, false, None);
}
