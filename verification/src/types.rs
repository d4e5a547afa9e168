//! The vocabulary shared by every part of the crate: variable descriptors,
//! schema sources, environment entries and the workspace configuration,
//! each with the mathematical model that contracts speak of.

use crate::keyed::Keyed;
use std::collections::HashMap;
use vstd::prelude::*;

verus! {

/// The kind of value an environment variable is expected to hold.
#[derive(Debug, Clone, Copy, PartialEq, Eq, Hash, Structural)]
pub enum EnvType {
    String,
    Boolean,
    Number,
    Integer,
}

/// One variable that a schema declares.
#[derive(Debug)]
pub struct EnvVar {
    pub name: String,
    pub var_type: EnvType,
    pub description: Option<String>,
    pub default: Option<String>,
    pub optional: bool,
    pub group: Option<String>,
}

/// What an `EnvVar` stands for.
pub struct VarModel {
    pub name: Seq<char>,
    pub var_type: EnvType,
    pub description: Option<Seq<char>>,
    pub default: Option<Seq<char>>,
    pub optional: bool,
    pub group: Option<Seq<char>>,
}

impl VarModel {
    /// A variable with a default value is never required.
    pub open spec fn wf(self) -> bool {
        self.default is Some ==> self.optional
    }
}

/// The characters of an optional string.
pub open spec fn text_of(o: Option<String>) -> Option<Seq<char>> {
    match o {
        Some(s) => Some(s@),
        None => None,
    }
}

/// A copy of an optional string.
pub fn clone_text(o: &Option<String>) -> (r: Option<String>)
    ensures
        text_of(r) == text_of(*o),
{
    match o {
        Some(s) => Some(s.clone()),
        None => None,
    }
}

impl View for EnvVar {
    type V = VarModel;

    open spec fn view(&self) -> VarModel {
        VarModel {
            name: self.name@,
            var_type: self.var_type,
            description: text_of(self.description),
            default: text_of(self.default),
            optional: self.optional,
            group: text_of(self.group),
        }
    }
}

impl DeepView for EnvVar {
    type V = VarModel;

    open spec fn deep_view(&self) -> VarModel {
        self@
    }
}

impl Clone for EnvVar {
    fn clone(&self) -> (r: Self)
        ensures
            r@ == self@,
    {
        EnvVar {
            name: self.name.clone(),
            var_type: self.var_type,
            description: clone_text(&self.description),
            default: clone_text(&self.default),
            optional: self.optional,
            group: clone_text(&self.group),
        }
    }
}

/// Where a schema was found, and in which dialect it is written.
#[derive(Debug)]
pub enum SchemaSource {
    Zod { file_path: String },
    Pydantic { file_path: String },
    Yaml { file_path: String },
}

/// The three dialects a schema may be written in.
#[derive(Debug, Clone, Copy, PartialEq, Eq, Hash, Structural)]
pub enum Dialect {
    Zod,
    Pydantic,
    Yaml,
}

/// What a `SchemaSource` stands for.
pub struct SourceModel {
    pub dialect: Dialect,
    pub file_path: Seq<char>,
}

impl View for SchemaSource {
    type V = SourceModel;

    open spec fn view(&self) -> SourceModel {
        match self {
            SchemaSource::Zod { file_path } => SourceModel {
                dialect: Dialect::Zod,
                file_path: file_path@,
            },
            SchemaSource::Pydantic { file_path } => SourceModel {
                dialect: Dialect::Pydantic,
                file_path: file_path@,
            },
            SchemaSource::Yaml { file_path } => SourceModel {
                dialect: Dialect::Yaml,
                file_path: file_path@,
            },
        }
    }
}

impl DeepView for SchemaSource {
    type V = SourceModel;

    open spec fn deep_view(&self) -> SourceModel {
        self@
    }
}

impl Clone for SchemaSource {
    fn clone(&self) -> (r: Self)
        ensures
            r@ == self@,
    {
        match self {
            SchemaSource::Zod { file_path } => SchemaSource::Zod { file_path: file_path.clone() },
            SchemaSource::Pydantic { file_path } => SchemaSource::Pydantic {
                file_path: file_path.clone(),
            },
            SchemaSource::Yaml { file_path } => SchemaSource::Yaml { file_path: file_path.clone() },
        }
    }
}

impl SchemaSource {
    /// The dialect that the source is written in.
    pub fn dialect(&self) -> (d: Dialect)
        ensures
            d == self@.dialect,
    {
        match self {
            SchemaSource::Zod { .. } => Dialect::Zod,
            SchemaSource::Pydantic { .. } => Dialect::Pydantic,
            SchemaSource::Yaml { .. } => Dialect::Yaml,
        }
    }

    /// The path of the source's file.
    pub fn file_path(&self) -> (p: &String)
        ensures
            p@ == self@.file_path,
    {
        match self {
            SchemaSource::Zod { file_path } => file_path,
            SchemaSource::Pydantic { file_path } => file_path,
            SchemaSource::Yaml { file_path } => file_path,
        }
    }
}

/// The variables read from one schema file.
#[derive(Debug)]
pub struct ParsedSchema {
    pub source: SchemaSource,
    pub variables: Vec<EnvVar>,
}

/// What a `ParsedSchema` stands for.
pub struct SchemaModel {
    pub source: SourceModel,
    pub variables: Seq<VarModel>,
}

impl View for ParsedSchema {
    type V = SchemaModel;

    open spec fn view(&self) -> SchemaModel {
        SchemaModel { source: self.source@, variables: self.variables.deep_view() }
    }
}

impl DeepView for ParsedSchema {
    type V = SchemaModel;

    open spec fn deep_view(&self) -> SchemaModel {
        self@
    }
}

/// A copy of a list of variables.
pub fn clone_vars(vars: &[EnvVar]) -> (r: Vec<EnvVar>)
    ensures
        r.deep_view() == vars.deep_view(),
{
    let mut r: Vec<EnvVar> = Vec::new();
    let mut i: usize = 0;
    while i < vars.len()
        invariant
            i <= vars@.len(),
            r@.len() == i,
            forall|k: int| 0 <= k < i ==> (#[trigger] r@[k])@ == vars@[k]@,
        decreases vars@.len() - i,
    {
        r.push(vars[i].clone());
        i += 1;
    }
    assert(r.deep_view() =~= vars.deep_view());
    r
}

impl Clone for ParsedSchema {
    fn clone(&self) -> (r: Self)
        ensures
            r@ == self@,
    {
        ParsedSchema { source: self.source.clone(), variables: clone_vars(self.variables.as_slice()) }
    }
}

/// One assignment read from an environment file.
#[derive(Debug)]
pub struct EnvFileEntry {
    pub name: String,
    /// `None` where the file declares the name with an empty value.
    pub value: Option<String>,
    /// The line of the assignment in its file, counted from zero.
    pub line: usize,
    pub file_path: String,
}

/// What an `EnvFileEntry` stands for.
pub struct EntryModel {
    pub name: Seq<char>,
    pub value: Option<Seq<char>>,
    pub line: int,
    pub file_path: Seq<char>,
}

impl View for EnvFileEntry {
    type V = EntryModel;

    open spec fn view(&self) -> EntryModel {
        EntryModel {
            name: self.name@,
            value: text_of(self.value),
            line: self.line as int,
            file_path: self.file_path@,
        }
    }
}

impl DeepView for EnvFileEntry {
    type V = EntryModel;

    open spec fn deep_view(&self) -> EntryModel {
        self@
    }
}

impl Clone for EnvFileEntry {
    fn clone(&self) -> (r: Self)
        ensures
            r@ == self@,
    {
        EnvFileEntry {
            name: self.name.clone(),
            value: clone_text(&self.value),
            line: self.line,
            file_path: self.file_path.clone(),
        }
    }
}

/// A copy of a list of entries.
pub fn clone_entries(entries: &[EnvFileEntry]) -> (r: Vec<EnvFileEntry>)
    ensures
        r.deep_view() == entries.deep_view(),
{
    let mut r: Vec<EnvFileEntry> = Vec::new();
    let mut i: usize = 0;
    while i < entries.len()
        invariant
            i <= entries@.len(),
            r@.len() == i,
            forall|k: int| 0 <= k < i ==> (#[trigger] r@[k])@ == entries@[k]@,
        decreases entries@.len() - i,
    {
        r.push(entries[i].clone());
        i += 1;
    }
    assert(r.deep_view() =~= entries.deep_view());
    r
}

/// The workspace's settings.
#[derive(Debug, Clone)]
pub struct Config {
    /// Schema files named explicitly, relative to the workspace root.
    pub schema_files: Vec<String>,
    /// Environment files, as paths or patterns relative to the workspace root.
    pub env_files: Vec<String>,
    /// Whether schema files are also looked for under well-known names.
    pub auto_discover: bool,
    /// Labels that replace group names when they are shown.
    pub groups: HashMap<String, String>,
}

/// What `env_files` is read as where a configuration does not give it:
/// the single file `.env`.
pub fn default_env_files() -> (files: Vec<String>)
    ensures
        files@.len() == 1,
        files@[0]@ == ".env"@,
{
    let mut files: Vec<String> = Vec::new();
    files.push(String::from_str(".env"));
    files
}

/// What `auto_discover` is read as where a configuration does not give it.
pub fn default_true() -> (r: bool)
    ensures
        r,
{
    true
}

impl Default for Config {
    /// No explicit schema files, the single environment file `.env`,
    /// discovery switched on and no labels.
    fn default() -> (c: Self)
        ensures
            c.schema_files@.len() == 0,
            c.env_files@.len() == 1,
            c.env_files@[0]@ == ".env"@,
            c.auto_discover,
            c.groups@.len() == 0,
    {
        Config {
            schema_files: Vec::new(),
            env_files: default_env_files(),
            auto_discover: default_true(),
            groups: HashMap::new(),
        }
    }
}

impl Keyed for VarModel {
    open spec fn key(&self) -> Seq<char> {
        self.name
    }
}

impl Keyed for EntryModel {
    open spec fn key(&self) -> Seq<char> {
        self.name
    }
}

/// The files of a workspace are found by their path.
impl Keyed for (Seq<char>, Seq<EntryModel>) {
    open spec fn key(&self) -> Seq<char> {
        self.0
    }
}

} // verus!
