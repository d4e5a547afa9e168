//! The structured-mapping dialect: a mapping from names to the properties
//! of a variable, held in a YAML file under the key `variables`.
//!
//! Reading YAML is the caller's work. What is read comes here as plain
//! values, one `YamlVar` for each name, in the order in which the caller
//! met them.

use crate::schema::{
    env_type_of, lowercase, to_lowercase, to_uppercase, type_of_word, uppercase,
};
use crate::text::chars_of;
use crate::types::{
    clone_text, text_of, Dialect, EnvType, EnvVar, ParsedSchema, SchemaSource, SourceModel, VarModel,
};
use vstd::prelude::*;

verus! {

/// The properties that the mapping gives for one name.
#[derive(Debug)]
pub struct YamlVar {
    /// The word for the variable's type, under the key `type`.
    pub var_type: String,
    pub description: Option<String>,
    pub default: Option<String>,
    /// Whether the variable must be set. A mapping that does not say is
    /// read as `false`.
    pub required: bool,
    pub group: Option<String>,
}

/// What a `YamlVar` stands for.
pub struct YamlVarModel {
    pub var_type: Seq<char>,
    pub description: Option<Seq<char>>,
    pub default: Option<Seq<char>>,
    pub required: bool,
    pub group: Option<Seq<char>>,
}

impl View for YamlVar {
    type V = YamlVarModel;

    open spec fn view(&self) -> YamlVarModel {
        YamlVarModel {
            var_type: self.var_type@,
            description: text_of(self.description),
            default: text_of(self.default),
            required: self.required,
            group: text_of(self.group),
        }
    }
}

impl DeepView for YamlVar {
    type V = YamlVarModel;

    open spec fn deep_view(&self) -> YamlVarModel {
        self@
    }
}

/// The content of a schema file of this dialect.
#[derive(Debug)]
pub struct YamlSchema {
    /// The entries under `variables`, `None` where the file has no such key.
    pub variables: Option<Vec<(String, YamlVar)>>,
}

/// The entries of a schema, none where it has no `variables`.
pub open spec fn yaml_entries(schema: YamlSchema) -> Seq<(Seq<char>, YamlVarModel)> {
    match schema.variables {
        Some(vars) => vars.deep_view(),
        None => Seq::empty(),
    }
}

/// What `required` is read as where a mapping does not give it.
pub fn default_false() -> (r: bool)
    ensures
        !r,
{
    false
}

/// The descriptor of a variable, given its name as it is to stand, the
/// type that its word stands for, and its properties. The variable is
/// optional unless it is required and has no default value.
pub open spec fn yaml_descriptor(name: Seq<char>, var_type: EnvType, var: YamlVarModel) -> VarModel {
    VarModel {
        name,
        var_type,
        description: var.description,
        default: var.default,
        optional: !var.required || var.default is Some,
        group: var.group,
    }
}

/// The descriptor that an entry of the mapping is read as: the name in
/// upper case, the type inferred from the type's word in lower case.
pub open spec fn yaml_variable(entry: (Seq<char>, YamlVarModel)) -> VarModel {
    yaml_descriptor(uppercase(entry.0), env_type_of(lowercase(entry.1.var_type)), entry.1)
}

/// The descriptors of all entries, in their order.
pub open spec fn yaml_variables(entries: Seq<(Seq<char>, YamlVarModel)>) -> Seq<VarModel> {
    Seq::new(entries.len(), |i: int| yaml_variable(entries[i]))
}

/// Builds the descriptor of a variable: see `yaml_descriptor`.
pub fn describe_yaml_var(name: String, var_type: EnvType, var: &YamlVar) -> (r: EnvVar)
    ensures
        r@ == yaml_descriptor(name@, var_type, var@),
        r@.wf(),
{
    let default = clone_text(&var.default);
    let optional = !var.required || default.is_some();
    EnvVar {
        name,
        var_type,
        description: clone_text(&var.description),
        default,
        optional,
        group: clone_text(&var.group),
    }
}

/// Reads the variables of a schema of this dialect.
///
/// Every entry gives one descriptor, in the order of the entries. A schema
/// without entries gives `None`.
pub fn parse_yaml_schema(file_path: &str, schema: &YamlSchema) -> (r: Option<ParsedSchema>)
    ensures
        match r {
            Some(parsed) => {
                &&& parsed@.source == (SourceModel { dialect: Dialect::Yaml, file_path: file_path@ })
                &&& parsed@.variables == yaml_variables(yaml_entries(*schema))
                &&& parsed@.variables.len() > 0
            },
            None => yaml_entries(*schema).len() == 0,
        },
        r matches Some(parsed) ==> forall|i: int|
            0 <= i < parsed@.variables.len() ==> (#[trigger] parsed@.variables[i]).wf(),
{
    let mut variables: Vec<EnvVar> = Vec::new();
    match &schema.variables {
        Some(vars) => {
            let ghost entries = vars.deep_view();
            let mut i: usize = 0;
            while i < vars.len()
                invariant
                    i <= vars@.len(),
                    entries == vars.deep_view(),
                    variables@.len() == i,
                    forall|k: int|
                        0 <= k < i ==> (#[trigger] variables@[k])@ == yaml_variable(entries[k]),
                    forall|k: int| 0 <= k < i ==> (#[trigger] variables@[k])@.wf(),
                decreases vars@.len() - i,
            {
                let name = to_uppercase(vars[i].0.as_str());
                let word = to_lowercase(vars[i].1.var_type.as_str());
                let var_type = type_of_word(chars_of(word.as_str()).as_slice());
                assert(entries[i as int] == (vars@[i as int].0@, vars@[i as int].1@));
                variables.push(describe_yaml_var(name, var_type, &vars[i].1));
                i += 1;
            }
            assert(variables.deep_view() =~= yaml_variables(entries));
        },
        None => {},
    }
    if variables.len() == 0 {
        return None;
    }
    let parsed = ParsedSchema {
        source: SchemaSource::Yaml { file_path: String::from_str(file_path) },
        variables,
    };
    assert forall|i: int| 0 <= i < parsed@.variables.len() implies (
    #[trigger] parsed@.variables[i]).wf() by {
        assert(parsed@.variables[i] == parsed.variables@[i]@);
    }
    Some(parsed)
}

} // verus!
