//! Schemas: the three dialects they are written in, each read into the one
//! shape of a variable descriptor, and the inference of a variable's type
//! from the word that a schema uses for it.

pub mod pydantic;
pub mod yaml;
pub mod zod;

use crate::schema::pydantic::{
    lemma_class_variables_wf, parse_pydantic_schema, pydantic_variables, Block,
};
use crate::schema::yaml::{parse_yaml_schema, yaml_entries, yaml_variables, YamlSchema};
use crate::schema::zod::{lemma_zod_wf, parse_zod_schema, zod_variables};
use crate::env_file::split_lines;
use crate::text::{chars_of, contains, contains_in, lemma_contains, matches_at};
use crate::types::{Dialect, EnvType, ParsedSchema, SchemaSource, VarModel};
use vstd::prelude::*;

verus! {

/// What `str::to_lowercase` makes of a text.
pub uninterp spec fn lowercase(s: Seq<char>) -> Seq<char>;

/// What `str::to_uppercase` makes of a text.
pub uninterp spec fn uppercase(s: Seq<char>) -> Seq<char>;

/// `str::to_lowercase`: the text in lower case, by Unicode's rules.
#[verifier::external_body]
pub(crate) fn to_lowercase(s: &str) -> (r: String)
    ensures
        r@ == lowercase(s@),
{
    s.to_lowercase()
}

/// `str::to_uppercase`: the text in upper case, by Unicode's rules.
#[verifier::external_body]
pub(crate) fn to_uppercase(s: &str) -> (r: String)
    ensures
        r@ == uppercase(s@),
{
    s.to_uppercase()
}

/// The type that a word in lower case stands for: `Boolean` where it holds
/// `bool`, `Integer` where it holds `int`, `Number` where it holds
/// `number`, and `String` otherwise, in this order.
pub open spec fn env_type_of(word: Seq<char>) -> EnvType {
    if contains(word, "bool"@) {
        EnvType::Boolean
    } else if contains(word, "int"@) {
        EnvType::Integer
    } else if contains(word, "number"@) {
        EnvType::Number
    } else {
        EnvType::String
    }
}

/// The inference of a type, said by what the word holds: `Boolean`
/// exactly where `bool` stands somewhere in it; `Integer` exactly where
/// `bool` stands nowhere and `int` somewhere; `Number` exactly where
/// neither of them stands anywhere and `number` somewhere.
pub proof fn lemma_env_type_of(word: Seq<char>)
    ensures
        env_type_of(word) == EnvType::Boolean <==> exists|j: int| matches_at(word, j, "bool"@),
        env_type_of(word) == EnvType::Integer <==> !(exists|j: int| matches_at(word, j, "bool"@))
            && exists|j: int| matches_at(word, j, "int"@),
        env_type_of(word) == EnvType::Number <==> !(exists|j: int| matches_at(word, j, "bool"@))
            && !(exists|j: int| matches_at(word, j, "int"@)) && exists|j: int|
            matches_at(word, j, "number"@),
{
    lemma_contains(word, "bool"@);
    lemma_contains(word, "int"@);
    lemma_contains(word, "number"@);
}

/// The type that a word in lower case stands for: see `env_type_of`.
pub fn type_of_word(word: &[char]) -> (t: EnvType)
    ensures
        t == env_type_of(word@),
{
    if contains_in(word, chars_of("bool").as_slice()) {
        EnvType::Boolean
    } else if contains_in(word, chars_of("int").as_slice()) {
        EnvType::Integer
    } else if contains_in(word, chars_of("number").as_slice()) {
        EnvType::Number
    } else {
        EnvType::String
    }
}

/// The type that a word of any case stands for: the word is put in lower
/// case and then read by `env_type_of`.
pub fn map_type_string(type_str: &str) -> (t: EnvType)
    ensures
        t == env_type_of(lowercase(type_str@)),
{
    let lowered = to_lowercase(type_str);
    type_of_word(chars_of(lowered.as_str()).as_slice())
}

/// Whether every variable of the list that has a default value is optional.
pub open spec fn all_wf(vars: Seq<VarModel>) -> bool {
    forall|i: int| 0 <= i < vars.len() ==> (#[trigger] vars[i]).wf()
}

/// What was read from a schema file: its text, or, for the dialect whose
/// files are YAML, the mapping that the text was read as.
#[derive(Debug)]
pub enum SchemaInput {
    Text(String),
    Mapping(YamlSchema),
}

/// The variables that a schema file declares, read in the dialect of its
/// source. An input of the wrong form for the dialect declares none.
pub open spec fn schema_variables(dialect: Dialect, input: SchemaInput) -> Seq<VarModel> {
    match (dialect, input) {
        (Dialect::Zod, SchemaInput::Text(text)) => zod_variables(text@),
        (Dialect::Pydantic, SchemaInput::Text(text)) => pydantic_variables(text@),
        (Dialect::Yaml, SchemaInput::Mapping(mapping)) => yaml_variables(yaml_entries(mapping)),
        _ => Seq::empty(),
    }
}

/// In every dialect, a variable that has a default value is optional.
pub proof fn lemma_schema_variables_wf(dialect: Dialect, input: SchemaInput)
    ensures
        all_wf(schema_variables(dialect, input)),
{
    match (dialect, input) {
        (Dialect::Zod, SchemaInput::Text(text)) => {
            lemma_zod_wf(text@, 0);
        },
        (Dialect::Pydantic, SchemaInput::Text(text)) => {
            lemma_class_variables_wf(
                split_lines(text@),
                0,
                Block { open: false, body: false, indent: 0 },
            );
        },
        (Dialect::Yaml, SchemaInput::Mapping(mapping)) => {},
        _ => {},
    }
}

/// Reads the variables of a schema file in the dialect of its source.
///
/// The result holds the source and the variables in the order in which
/// the file declares them. A file that declares none gives `None`, which
/// is no error: a file may carry a name that schemas are looked for under
/// and hold no schema. Every variable that has a default value is
/// optional.
pub fn parse_schema(source: &SchemaSource, input: &SchemaInput) -> (r: Option<ParsedSchema>)
    ensures
        match r {
            Some(parsed) => {
                &&& parsed@.source == source@
                &&& parsed@.variables == schema_variables(source@.dialect, *input)
                &&& parsed@.variables.len() > 0
                &&& all_wf(parsed@.variables)
            },
            None => schema_variables(source@.dialect, *input).len() == 0,
        },
{
    proof {
        lemma_schema_variables_wf(source@.dialect, *input);
    }
    match source {
        SchemaSource::Zod { file_path } => match input {
            SchemaInput::Text(text) => parse_zod_schema(file_path.as_str(), text.as_str()),
            SchemaInput::Mapping(_) => None,
        },
        SchemaSource::Pydantic { file_path } => match input {
            SchemaInput::Text(text) => parse_pydantic_schema(file_path.as_str(), text.as_str()),
            SchemaInput::Mapping(_) => None,
        },
        SchemaSource::Yaml { file_path } => match input {
            SchemaInput::Text(_) => None,
            SchemaInput::Mapping(mapping) => parse_yaml_schema(file_path.as_str(), mapping),
        },
    }
}

} // verus!
