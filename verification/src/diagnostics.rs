//! What validation finds, as an editor shows it: one diagnostic for each
//! missing variable, and one for each entry that no schema declares.

use crate::validation::{ErrorModel, ValidationError};
use vstd::prelude::*;

verus! {

/// A place in a text: a line and a column, both counted from zero.
#[derive(Debug, Clone, Copy, PartialEq, Eq, Structural)]
pub struct Position {
    pub line: u32,
    pub character: u32,
}

/// The text between two places.
#[derive(Debug, Clone, Copy, PartialEq, Eq, Structural)]
pub struct Span {
    pub start: Position,
    pub end: Position,
}

/// How grave a diagnostic is.
#[derive(Debug, Clone, Copy, PartialEq, Eq, Structural)]
pub enum Severity {
    Error,
    Information,
}

/// One finding, ready to be shown in an editor.
#[derive(Debug)]
pub struct Diagnostic {
    pub range: Span,
    pub severity: Severity,
    /// The kind of finding: `missing-env-var` or `unused-env-var`.
    pub code: String,
    /// Who reports it: `env-checker`.
    pub source: String,
    pub message: String,
}

/// What a `Diagnostic` stands for.
pub struct DiagnosticModel {
    pub range: Span,
    pub severity: Severity,
    pub code: Seq<char>,
    pub source: Seq<char>,
    pub message: Seq<char>,
}

impl View for Diagnostic {
    type V = DiagnosticModel;

    open spec fn view(&self) -> DiagnosticModel {
        DiagnosticModel {
            range: self.range,
            severity: self.severity,
            code: self.code@,
            source: self.source@,
            message: self.message@,
        }
    }
}

impl DeepView for Diagnostic {
    type V = DiagnosticModel;

    open spec fn deep_view(&self) -> DiagnosticModel {
        self@
    }
}

/// The place at the given line and column.
pub open spec fn place(line: u32, character: u32) -> Position {
    Position { line, character }
}

/// The message that reports a variable as missing: its name, then its
/// description and its default value, each on a line of its own, where
/// the variable has them.
pub open spec fn missing_message(error: ErrorModel) -> Seq<char> {
    "Missing required environment variable: '"@ + error.var_name + "'"@ + (
    match error.schema_var.description {
        Some(d) => "\n  Description: "@ + d,
        None => Seq::empty(),
    }) + (match error.schema_var.default {
        Some(d) => "\n  Default: "@ + d,
        None => Seq::empty(),
    })
}

/// The diagnostic that reports an error of validation.
pub open spec fn missing_diagnostic(error: ErrorModel) -> DiagnosticModel {
    DiagnosticModel {
        range: Span { start: place(0, 0), end: place(0, 0) },
        severity: Severity::Error,
        code: "missing-env-var"@,
        source: "env-checker"@,
        message: missing_message(error),
    }
}

/// The message that reports an entry as declared by no schema.
pub open spec fn unused_message(name: Seq<char>) -> Seq<char> {
    "Environment variable '"@ + name + "' is not defined in any schema"@
}

/// Reports a required variable as missing. The diagnostic is an error at
/// the very start of the file: a missing variable has no place in it.
pub fn create_missing_var_diagnostic(error: &ValidationError) -> (d: Diagnostic)
    ensures
        d@ == missing_diagnostic(error@),
{
    let position = Position { line: 0, character: 0 };
    let mut message = String::from_str("Missing required environment variable: '");
    message.append(error.var_name.as_str());
    message.append("'");
    match &error.schema_var.description {
        Some(description) => {
            message.append("\n  Description: ");
            message.append(description.as_str());
        },
        None => {},
    }
    match &error.schema_var.default {
        Some(default) => {
            message.append("\n  Default: ");
            message.append(default.as_str());
        },
        None => {},
    }
    assert(message@ =~= missing_diagnostic(error@).message);
    Diagnostic {
        range: Span { start: position, end: position },
        severity: Severity::Error,
        code: String::from_str("missing-env-var"),
        source: String::from_str("env-checker"),
        message,
    }
}

/// Reports an entry of an environment file whose name no schema declares.
/// The diagnostic is a piece of information that covers the name at the
/// start of the entry's line; the name's length is taken in bytes.
pub fn create_unused_var_diagnostic(var_name: &str, line: usize) -> (d: Diagnostic)
    ensures
        d@.range == (Span {
            start: place(line as u32, 0),
            end: place(line as u32, var_name.len() as u32),
        }),
        d@.severity == Severity::Information,
        d@.code == "unused-env-var"@,
        d@.source == "env-checker"@,
        d@.message == unused_message(var_name@),
{
    let start = Position { line: line as u32, character: 0 };
    let end = Position { line: line as u32, character: var_name.len() as u32 };
    let mut message = String::from_str("Environment variable '");
    message.append(var_name);
    message.append("' is not defined in any schema");
    Diagnostic {
        range: Span { start, end },
        severity: Severity::Information,
        code: String::from_str("unused-env-var"),
        source: String::from_str("env-checker"),
        message,
    }
}

} // verus!
