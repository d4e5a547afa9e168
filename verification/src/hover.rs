//! What an editor shows when the pointer rests on a variable.

use crate::types::{EnvType, EnvVar, VarModel};
use vstd::prelude::*;

verus! {

/// How the text of a hover is to be read.
#[derive(Debug, Clone, Copy, PartialEq, Eq, Structural)]
pub enum MarkupKind {
    PlainText,
    Markdown,
}

/// The content of a hover.
#[derive(Debug)]
pub struct Hover {
    pub kind: MarkupKind,
    pub value: String,
}

/// The word for a type.
pub open spec fn type_label(t: EnvType) -> Seq<char> {
    match t {
        EnvType::String => "string"@,
        EnvType::Boolean => "boolean"@,
        EnvType::Number => "number"@,
        EnvType::Integer => "integer"@,
    }
}

/// The text of the hover for a variable: its type, its description and
/// its default value where it has them, whether it is required, and its
/// group where it has one.
pub open spec fn hover_text(v: VarModel) -> Seq<char> {
    "**Type:** `"@ + type_label(v.var_type) + "`\n\n"@ + (match v.description {
        Some(d) => "**Description:** "@ + d + "\n\n"@,
        None => Seq::empty(),
    }) + (match v.default {
        Some(d) => "**Default:** `"@ + d + "`\n\n"@,
        None => Seq::empty(),
    }) + (if v.optional {
        "**Required:** `false`\n"@
    } else {
        "**Required:** `true`\n"@
    }) + (match v.group {
        Some(g) => "\n**Group:** `"@ + g + "`"@,
        None => Seq::empty(),
    })
}

/// The word for a type: see `type_label`.
pub fn format_type(env_type: &EnvType) -> (r: String)
    ensures
        r@ == type_label(*env_type),
{
    match env_type {
        EnvType::String => String::from_str("string"),
        EnvType::Boolean => String::from_str("boolean"),
        EnvType::Number => String::from_str("number"),
        EnvType::Integer => String::from_str("integer"),
    }
}

/// The hover for a variable: Markdown with the text of `hover_text`.
/// There is one for every variable.
pub fn create_hover(var: &EnvVar) -> (r: Option<Hover>)
    ensures
        r matches Some(h) && h.kind == MarkupKind::Markdown && h.value@ == hover_text(var@),
{
    let mut markdown = String::from_str("**Type:** `");
    markdown.append(format_type(&var.var_type).as_str());
    markdown.append("`\n\n");
    match &var.description {
        Some(d) => {
            markdown.append("**Description:** ");
            markdown.append(d.as_str());
            markdown.append("\n\n");
        },
        None => {},
    }
    match &var.default {
        Some(d) => {
            markdown.append("**Default:** `");
            markdown.append(d.as_str());
            markdown.append("`\n\n");
        },
        None => {},
    }
    if var.optional {
        markdown.append("**Required:** `false`\n");
    } else {
        markdown.append("**Required:** `true`\n");
    }
    match &var.group {
        Some(g) => {
            markdown.append("\n**Group:** `");
            markdown.append(g.as_str());
            markdown.append("`");
        },
        None => {},
    }
    assert(markdown@ =~= hover_text(var@));
    Some(Hover { kind: MarkupKind::Markdown, value: markdown })
}

} // verus!
