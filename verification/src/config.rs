//! Which files hold schemas and which hold the environment: the names that
//! schemas are looked for under, the dialect that a file's extension
//! stands for, and the choice among what was found on disk.
//!
//! Nothing here touches the disk. The caller expands patterns and tests
//! paths, and hands over what it found.

use crate::text::{chars_of, same_chars, scan_back, scan_class_back, string_of, Class};
use crate::types::{Config, Dialect, SchemaSource, SourceModel};
use vstd::prelude::*;
use vstd::slice::slice_subrange;

verus! {

/// The patterns under which schemas of the object-schema dialect are
/// looked for, relative to the workspace root.
pub open spec fn zod_pattern_list() -> Seq<Seq<char>> {
    seq![
        "**/schema.ts"@,
        "**/schema.js"@,
        "**/config.ts"@,
        "**/config.js"@,
        "**/env.ts"@,
        "**/env.js"@,
        "**/*config.ts"@,
        "**/*config.js"@,
    ]
}

/// The patterns under which schemas of the annotated-class dialect are
/// looked for.
pub open spec fn pydantic_pattern_list() -> Seq<Seq<char>> {
    seq![
        "**/config.py"@,
        "**/settings.py"@,
        "**/env.py"@,
        "**/configuration.py"@,
        "**/app_config.py"@,
    ]
}

/// The patterns under which schemas of the structured-mapping dialect are
/// looked for.
pub open spec fn yaml_pattern_list() -> Seq<Seq<char>> {
    seq![
        "**/env.schema.yml"@,
        "**/env.schema.yaml"@,
        "**/.env.schema.yml"@,
        "**/.env.schema.yaml"@,
    ]
}

/// The patterns of one dialect.
pub open spec fn pattern_list(dialect: Dialect) -> Seq<Seq<char>> {
    match dialect {
        Dialect::Zod => zod_pattern_list(),
        Dialect::Pydantic => pydantic_pattern_list(),
        Dialect::Yaml => yaml_pattern_list(),
    }
}

/// The patterns under which schemas of a dialect are looked for: see
/// `pattern_list`.
pub fn schema_patterns(dialect: Dialect) -> (patterns: Vec<&'static str>)
    ensures
        patterns.deep_view() == pattern_list(dialect),
{
    let patterns = match dialect {
        Dialect::Zod => vec![
            "**/schema.ts",
            "**/schema.js",
            "**/config.ts",
            "**/config.js",
            "**/env.ts",
            "**/env.js",
            "**/*config.ts",
            "**/*config.js",
        ],
        Dialect::Pydantic => vec![
            "**/config.py",
            "**/settings.py",
            "**/env.py",
            "**/configuration.py",
            "**/app_config.py",
        ],
        Dialect::Yaml => vec![
            "**/env.schema.yml",
            "**/env.schema.yaml",
            "**/.env.schema.yml",
            "**/.env.schema.yaml",
        ],
    };
    assert(patterns.deep_view() =~= pattern_list(dialect));
    patterns
}

/// The last component of a path: what follows its last separator, `/` or
/// `\\`.
pub open spec fn file_name_of(path: Seq<char>) -> Seq<char> {
    path.skip(scan_back(path, path.len() as int, Class::Except('/', '\\')))
}

/// The extension of a path: what follows the last dot of its last
/// component. There is none where that component holds no dot, begins
/// with its only dot, or is `..`.
pub open spec fn extension_of(path: Seq<char>) -> Option<Seq<char>> {
    let name = file_name_of(path);
    let d = scan_back(name, name.len() as int, Class::Except('.', '.'));
    if d <= 1 || name == ".."@ {
        None
    } else {
        Some(name.skip(d))
    }
}

/// The dialect that an extension stands for.
pub open spec fn dialect_of(extension: Seq<char>) -> Option<Dialect> {
    if extension == "ts"@ || extension == "js"@ || extension == "tsx"@ || extension == "jsx"@ {
        Some(Dialect::Zod)
    } else if extension == "py"@ {
        Some(Dialect::Pydantic)
    } else if extension == "yml"@ || extension == "yaml"@ {
        Some(Dialect::Yaml)
    } else {
        None
    }
}

/// The schema source that a path stands for, by its extension.
pub open spec fn classified(path: Seq<char>) -> Option<SourceModel> {
    match extension_of(path) {
        Some(extension) => match dialect_of(extension) {
            Some(dialect) => Some(SourceModel { dialect, file_path: path }),
            None => None,
        },
        None => None,
    }
}

fn extension_in<'a>(path: &'a [char]) -> (r: Option<&'a [char]>)
    ensures
        match r {
            Some(e) => extension_of(path@) == Some(e@),
            None => extension_of(path@) is None,
        },
{
    let start = scan_class_back(path, Class::Except('/', '\\'));
    let name = slice_subrange(path, start, path.len());
    let d = scan_class_back(name, Class::Except('.', '.'));
    if d <= 1 || same_chars(name, chars_of("..").as_slice()) {
        None
    } else {
        Some(slice_subrange(name, d, name.len()))
    }
}

/// The extension of a path: see `extension_of`.
pub fn file_extension(path: &str) -> (r: Option<String>)
    ensures
        match r {
            Some(e) => extension_of(path@) == Some(e@),
            None => extension_of(path@) is None,
        },
{
    let chars = chars_of(path);
    match extension_in(chars.as_slice()) {
        Some(e) => Some(string_of(e)),
        None => None,
    }
}

fn dialect_in(extension: &[char]) -> (r: Option<Dialect>)
    ensures
        r == dialect_of(extension@),
{
    if same_chars(extension, chars_of("ts").as_slice()) || same_chars(
        extension,
        chars_of("js").as_slice(),
    ) || same_chars(extension, chars_of("tsx").as_slice()) || same_chars(
        extension,
        chars_of("jsx").as_slice(),
    ) {
        Some(Dialect::Zod)
    } else if same_chars(extension, chars_of("py").as_slice()) {
        Some(Dialect::Pydantic)
    } else if same_chars(extension, chars_of("yml").as_slice()) || same_chars(
        extension,
        chars_of("yaml").as_slice(),
    ) {
        Some(Dialect::Yaml)
    } else {
        None
    }
}

/// The source of the given dialect at the given path.
pub fn source_of(dialect: Dialect, path: &str) -> (s: SchemaSource)
    ensures
        s@ == (SourceModel { dialect, file_path: path@ }),
{
    match dialect {
        Dialect::Zod => SchemaSource::Zod { file_path: String::from_str(path) },
        Dialect::Pydantic => SchemaSource::Pydantic { file_path: String::from_str(path) },
        Dialect::Yaml => SchemaSource::Yaml { file_path: String::from_str(path) },
    }
}

/// The schema source that a path stands for, by its extension: `ts`, `js`,
/// `tsx` and `jsx` are the object-schema dialect, `py` the annotated-class
/// dialect, `yml` and `yaml` the structured-mapping dialect. A path with
/// any other extension, or with none, is no schema.
pub fn classify_schema_file(path: &str) -> (r: Option<SchemaSource>)
    ensures
        match r {
            Some(s) => classified(path@) == Some(s@),
            None => classified(path@) is None,
        },
{
    let chars = chars_of(path);
    match extension_in(chars.as_slice()) {
        Some(e) => match dialect_in(e) {
            Some(dialect) => Some(source_of(dialect, path)),
            None => None,
        },
        None => None,
    }
}

/// Whether a path names an environment file that is watched: one whose
/// extension is `env`.
pub fn is_env_file(path: &str) -> (r: bool)
    ensures
        r == (extension_of(path@) == Some("env"@)),
{
    let chars = chars_of(path);
    match extension_in(chars.as_slice()) {
        Some(e) => same_chars(e, chars_of("env").as_slice()),
        None => false,
    }
}

/// A schema file that the configuration names, as the caller found it.
#[derive(Debug)]
pub struct ExplicitFile {
    /// The path, joined to the workspace root.
    pub path: String,
    /// Whether anything exists at the path.
    pub exists: bool,
}

/// The files that discovery found, by dialect.
#[derive(Debug)]
pub struct Discovered {
    pub zod: Vec<String>,
    pub pydantic: Vec<String>,
    pub yaml: Vec<String>,
}

/// The sources of one dialect at the given paths.
pub open spec fn sources_at(dialect: Dialect, paths: Seq<Seq<char>>) -> Seq<SourceModel> {
    Seq::new(paths.len(), |i: int| SourceModel { dialect, file_path: paths[i] })
}

/// The sources that the named files stand for: those that exist and whose
/// extension stands for a dialect, in their order.
pub open spec fn explicit_sources(files: Seq<(Seq<char>, bool)>) -> Seq<SourceModel>
    decreases files.len(),
{
    if files.len() == 0 {
        Seq::empty()
    } else {
        let before = explicit_sources(files.drop_last());
        let (path, exists) = files.last();
        match classified(path) {
            Some(source) => if exists {
                before.push(source)
            } else {
                before
            },
            None => before,
        }
    }
}

/// The schema sources of a workspace: where discovery is switched on,
/// what it found, the object-schema dialect first, then the
/// annotated-class dialect, then the structured-mapping dialect; behind
/// them the files that the configuration names.
pub open spec fn discovered_sources(
    auto_discover: bool,
    zod: Seq<Seq<char>>,
    pydantic: Seq<Seq<char>>,
    yaml: Seq<Seq<char>>,
    explicit: Seq<(Seq<char>, bool)>,
) -> Seq<SourceModel> {
    let found = if auto_discover {
        sources_at(Dialect::Zod, zod) + sources_at(Dialect::Pydantic, pydantic) + sources_at(
            Dialect::Yaml,
            yaml,
        )
    } else {
        Seq::empty()
    };
    found + explicit_sources(explicit)
}

impl View for ExplicitFile {
    type V = (Seq<char>, bool);

    open spec fn view(&self) -> (Seq<char>, bool) {
        (self.path@, self.exists)
    }
}

impl DeepView for ExplicitFile {
    type V = (Seq<char>, bool);

    open spec fn deep_view(&self) -> (Seq<char>, bool) {
        self@
    }
}

fn push_sources(out: &mut Vec<SchemaSource>, dialect: Dialect, paths: &Vec<String>)
    ensures
        final(out).deep_view() == old(out).deep_view() + sources_at(dialect, paths.deep_view()),
{
    let ghost start = out.deep_view();
    let ghost all = sources_at(dialect, paths.deep_view());
    let mut i: usize = 0;
    assert(start + all.take(0) =~= start);
    while i < paths.len()
        invariant
            i <= paths@.len(),
            all == sources_at(dialect, paths.deep_view()),
            out.deep_view() == start + all.take(i as int),
        decreases paths@.len() - i,
    {
        let ghost before = out.deep_view();
        out.push(source_of(dialect, paths[i].as_str()));
        assert(out.deep_view() =~= before.push(all[i as int]));
        assert(start + all.take(i + 1) =~= (start + all.take(i as int)).push(all[i as int]));
        i += 1;
    }
    assert(all.take(paths@.len() as int) =~= all);
}

/// Chooses the schema sources of a workspace from what the caller found:
/// see `discovered_sources`.
///
/// What discovery found counts only where the configuration switches
/// discovery on. A file that the configuration names counts where it
/// exists and its extension stands for a dialect.
pub fn discover_schemas(config: &Config, found: &Discovered, explicit: &[ExplicitFile]) -> (schemas:
    Vec<SchemaSource>)
    ensures
        schemas.deep_view() == discovered_sources(
            config.auto_discover,
            found.zod.deep_view(),
            found.pydantic.deep_view(),
            found.yaml.deep_view(),
            explicit.deep_view(),
        ),
{
    let mut schemas: Vec<SchemaSource> = Vec::new();
    if config.auto_discover {
        push_sources(&mut schemas, Dialect::Zod, &found.zod);
        push_sources(&mut schemas, Dialect::Pydantic, &found.pydantic);
        push_sources(&mut schemas, Dialect::Yaml, &found.yaml);
    }
    let ghost start = schemas.deep_view();
    let ghost files = explicit.deep_view();
    assert(start =~= if config.auto_discover {
        sources_at(Dialect::Zod, found.zod.deep_view()) + sources_at(
            Dialect::Pydantic,
            found.pydantic.deep_view(),
        ) + sources_at(Dialect::Yaml, found.yaml.deep_view())
    } else {
        Seq::empty()
    });
    let mut i: usize = 0;
    assert(files.take(0) =~= Seq::<(Seq<char>, bool)>::empty());
    assert(start + explicit_sources(files.take(0)) =~= start);
    while i < explicit.len()
        invariant
            i <= explicit@.len(),
            files == explicit.deep_view(),
            schemas.deep_view() == start + explicit_sources(files.take(i as int)),
        decreases explicit@.len() - i,
    {
        let ghost before = schemas.deep_view();
        assert(files.take(i + 1).drop_last() =~= files.take(i as int));
        assert(files.take(i + 1).last() == explicit@[i as int]@);
        if explicit[i].exists {
            match classify_schema_file(explicit[i].path.as_str()) {
                Some(source) => {
                    schemas.push(source);
                    assert(schemas.deep_view() =~= before.push(source@));
                    assert(start + explicit_sources(files.take(i as int)).push(source@)
                        =~= before.push(source@));
                },
                None => {},
            }
        }
        i += 1;
    }
    assert(files.take(explicit@.len() as int) =~= files);
    schemas
}

/// What the caller found for one entry of the configured environment
/// files.
#[derive(Debug)]
pub enum EnvFileMatch {
    /// The entry is the path of a file.
    File(String),
    /// The entry is no file; as a pattern it expands to these files.
    Pattern(Vec<String>),
}

/// The paths that one entry gives.
pub open spec fn match_paths(m: EnvFileMatch) -> Seq<Seq<char>> {
    match m {
        EnvFileMatch::File(path) => seq![path@],
        EnvFileMatch::Pattern(paths) => paths.deep_view(),
    }
}

/// The paths that the entries give, in their order.
pub open spec fn all_match_paths(matches: Seq<EnvFileMatch>) -> Seq<Seq<char>>
    decreases matches.len(),
{
    if matches.len() == 0 {
        Seq::empty()
    } else {
        all_match_paths(matches.drop_last()) + match_paths(matches.last())
    }
}

/// The environment files of a workspace: the paths that the configured
/// entries give; where they give none, the fallback alone, if there is one.
pub open spec fn env_file_paths(matches: Seq<EnvFileMatch>, fallback: Option<Seq<char>>) -> Seq<
    Seq<char>,
> {
    let paths = all_match_paths(matches);
    if paths.len() > 0 {
        paths
    } else {
        match fallback {
            Some(path) => seq![path],
            None => Seq::empty(),
        }
    }
}

/// Chooses the environment files of a workspace from what the caller
/// found: see `env_file_paths`.
///
/// An entry that is a file counts as that file, any other entry as the
/// files it expands to as a pattern. `fallback` is the workspace's `.env`
/// where that file exists; it counts only where the entries give nothing.
pub fn get_env_file_paths(matches: &[EnvFileMatch], fallback: Option<&str>) -> (paths: Vec<String>)
    ensures
        paths.deep_view() == env_file_paths(
            matches@,
            match fallback {
                Some(p) => Some(p@),
                None => None,
            },
        ),
{
    let mut paths: Vec<String> = Vec::new();
    let mut i: usize = 0;
    assert(matches@.take(0) =~= Seq::<EnvFileMatch>::empty());
    assert(paths.deep_view() =~= all_match_paths(matches@.take(0)));
    while i < matches.len()
        invariant
            i <= matches@.len(),
            paths.deep_view() == all_match_paths(matches@.take(i as int)),
        decreases matches@.len() - i,
    {
        let ghost start = paths.deep_view();
        assert(matches@.take(i + 1).drop_last() =~= matches@.take(i as int));
        assert(matches@.take(i + 1).last() == matches@[i as int]);
        match &matches[i] {
            EnvFileMatch::File(path) => {
                paths.push(path.clone());
                assert(paths.deep_view() =~= start + seq![path@]);
            },
            EnvFileMatch::Pattern(found) => {
                let ghost all = found.deep_view();
                let mut j: usize = 0;
                assert(start + all.take(0) =~= start);
                while j < found.len()
                    invariant
                        j <= found@.len(),
                        all == found.deep_view(),
                        paths.deep_view() == start + all.take(j as int),
                    decreases found@.len() - j,
                {
                    let ghost before = paths.deep_view();
                    paths.push(found[j].clone());
                    assert(paths.deep_view() =~= before.push(all[j as int]));
                    assert(start + all.take(j + 1) =~= (start + all.take(j as int)).push(
                        all[j as int],
                    ));
                    j += 1;
                }
                assert(all.take(found@.len() as int) =~= all);
            },
        }
        i += 1;
    }
    assert(matches@.take(matches@.len() as int) =~= matches@);
    if paths.len() == 0 {
        match fallback {
            Some(path) => {
                paths.push(String::from_str(path));
                assert(paths.deep_view() =~= seq![path@]);
            },
            None => {},
        }
    }
    paths
}

} // verus!
