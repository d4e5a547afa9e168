//! Checks that the environment variables a workspace's configuration schemas
//! declare are present in its environment files.
//!
//! The crate holds the engine only: text goes in, catalogs, validation
//! results, diagnostics and edits come out. Reading files, talking to an
//! editor and locking shared state are left to the caller.
//!
//! - `types`: variable descriptors, schema sources, entries, configuration.
//! - `text`: characters and the scans that the grammars are built from.
//! - `keyed`: lists of things that bear a key, first of each key first.
//! - `schema`: the three dialects of schemas, read into descriptors.
//! - `env_file`: environment files, and how the entries of several merge.
//! - `validation`: missing variables, and the grouping of a catalog.
//! - `code_actions`: the texts and edits that fix a workspace.
//! - `repair`: why the rendered fragment repairs a file.
//! - `diagnostics`, `hover`: findings and hovers as an editor shows them.
//! - `config`: which files hold schemas and which the environment.
//! - `workspace`: the catalog, the files, and the answers to requests.
//! - `release`: where an editor finds the server's binary.

pub mod code_actions;
pub mod config;
pub mod diagnostics;
pub mod env_file;
pub mod hover;
pub mod keyed;
pub mod release;
pub mod repair;
pub mod schema;
pub mod text;
pub mod types;
pub mod validation;
pub mod workspace;
