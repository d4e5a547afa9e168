//! The text that fixes a workspace: the fragment that adds the missing
//! variables to an environment file, the full example file, and the edits
//! that carry them to an editor.

use crate::diagnostics::{place, Position, Span};
use crate::keyed::distinct_keys;
use crate::text::{
    chars_of, decimal, decimal_of, scan_back, scan_class_back, string_of, trim, trim_of, Class,
};
use crate::types::{text_of, EnvVar, VarModel};
use crate::validation::{
    group_variables, grouped, lemma_grouping_idempotent, lemma_grouping_ignores_order, ungrouped,
};
use vstd::prelude::*;
use vstd::slice::slice_subrange;

verus! {

/// A line that holds `text` as a comment.
pub open spec fn comment_line(text: Seq<char>) -> Seq<char> {
    seq!['#', ' '] + text + seq!['\n']
}

/// The lines that one variable is written as: its description as a
/// comment, where it has one, then `NAME=` and the default value, where it
/// has one. The assignment of an optional variable is commented out.
pub open spec fn entry_text(v: VarModel) -> Seq<char> {
    let description = match v.description {
        Some(d) => comment_line(d),
        None => Seq::empty(),
    };
    let mark = if v.optional {
        seq!['#']
    } else {
        Seq::empty()
    };
    let value = match v.default {
        Some(d) => d,
        None => Seq::empty(),
    };
    description + mark + v.name + seq!['='] + value + seq!['\n']
}

/// The lines of several variables, one after the other.
pub open spec fn entries_text(vars: Seq<VarModel>) -> Seq<char>
    decreases vars.len(),
{
    if vars.len() == 0 {
        Seq::empty()
    } else {
        entries_text(vars.drop_last()) + entry_text(vars.last())
    }
}

/// A group: its label as a comment, then its variables.
pub open spec fn block_text(group: (Seq<char>, Seq<VarModel>)) -> Seq<char> {
    comment_line(group.0) + entries_text(group.1)
}

/// The variables of the groups, group after group, an empty line before
/// each group. The labels of the groups are not written.
pub open spec fn fragment_blocks(groups: Seq<(Seq<char>, Seq<VarModel>)>) -> Seq<char>
    decreases groups.len(),
{
    if groups.len() == 0 {
        Seq::empty()
    } else {
        fragment_blocks(groups.drop_last()) + seq!['\n'] + entries_text(groups.last().1)
    }
}

/// The fragment that declares the given variables: their lines, group by
/// group, with an empty line between the groups and none before the
/// first. The groups bear no heading.
pub open spec fn env_text(vars: Seq<VarModel>) -> Seq<char> {
    let raw = fragment_blocks(grouped(vars));
    if raw.len() > 0 {
        raw.skip(1)
    } else {
        raw
    }
}

/// The groups one after the other, an empty line behind each.
pub open spec fn example_blocks(groups: Seq<(Seq<char>, Seq<VarModel>)>) -> Seq<char>
    decreases groups.len(),
{
    if groups.len() == 0 {
        Seq::empty()
    } else {
        example_blocks(groups.drop_last()) + block_text(groups.last()) + seq!['\n']
    }
}

/// The example file for the given catalog: every variable, group by group,
/// with an empty line between the groups and no line feed at the end.
pub open spec fn example_text(vars: Seq<VarModel>) -> Seq<char> {
    let raw = example_blocks(grouped(vars));
    raw.take(scan_back(raw, raw.len() as int, Class::Only('\n')))
}

/// What is rendered depends on the catalog through its groups alone:
/// catalogs that fall into the same groups are rendered alike. So is, in
/// particular, a catalog and the catalog read back from its groups.
pub proof fn lemma_rendering_follows_grouping(a: Seq<VarModel>, b: Seq<VarModel>)
    requires
        grouped(a) == grouped(b),
    ensures
        env_text(a) == env_text(b),
        example_text(a) == example_text(b),
{
}

/// Rendering is idempotent on grouping: the variables as the groups show
/// them, taken as a catalog, are rendered as the catalog itself.
pub proof fn lemma_rendering_idempotent(vars: Seq<VarModel>)
    ensures
        env_text(ungrouped(grouped(vars))) == env_text(vars),
        example_text(ungrouped(grouped(vars))) == example_text(vars),
{
    lemma_grouping_idempotent(vars);
}

/// The order of the catalog makes no difference to what is rendered: a
/// catalog of distinct names and any reordering of it give the same
/// fragment and the same example file.
pub proof fn lemma_rendering_ignores_order(a: Seq<VarModel>, b: Seq<VarModel>)
    requires
        a.to_multiset() == b.to_multiset(),
        distinct_keys(a),
    ensures
        env_text(a) == env_text(b),
        example_text(a) == example_text(b),
{
    lemma_grouping_ignores_order(a, b);
}

fn push_comment_line(out: &mut String, text: &str)
    ensures
        final(out)@ == old(out)@ + comment_line(text@),
{
    out.push('#');
    out.push(' ');
    out.append(text);
    out.push('\n');
    assert(out@ =~= old(out)@ + comment_line(text@));
}

fn push_entry(out: &mut String, var: &EnvVar)
    ensures
        final(out)@ == old(out)@ + entry_text(var@),
{
    match &var.description {
        Some(d) => {
            push_comment_line(out, d.as_str());
        },
        None => {},
    }
    if var.optional {
        out.push('#');
    }
    out.append(var.name.as_str());
    out.push('=');
    match &var.default {
        Some(d) => {
            out.append(d.as_str());
        },
        None => {},
    }
    out.push('\n');
    assert(out@ =~= old(out)@ + entry_text(var@));
}

/// The lines that one variable is written as: see `entry_text`. The flag
/// makes no difference to them.
pub fn format_var_entry(var: &EnvVar, _is_example: bool) -> (r: String)
    ensures
        r@ == entry_text(var@),
{
    let mut out = String::new();
    push_entry(&mut out, var);
    assert(Seq::<char>::empty() + entry_text(var@) =~= entry_text(var@));
    out
}

fn push_entries(out: &mut String, vars: &[EnvVar])
    ensures
        final(out)@ == old(out)@ + entries_text(vars.deep_view()),
{
    let ghost all = vars.deep_view();
    let ghost head = out@;
    let mut i: usize = 0;
    assert(all.take(0) =~= Seq::<VarModel>::empty());
    assert(head + entries_text(all.take(0)) =~= head);
    while i < vars.len()
        invariant
            i <= vars@.len(),
            all == vars.deep_view(),
            out@ == head + entries_text(all.take(i as int)),
        decreases vars@.len() - i,
    {
        assert(all.take(i + 1).drop_last() =~= all.take(i as int));
        assert(all.take(i + 1).last() == vars@[i as int]@);
        push_entry(out, &vars[i]);
        assert(out@ =~= head + (entries_text(all.take(i as int)) + entry_text(vars@[i as int]@)));
        i += 1;
    }
    assert(all.take(vars@.len() as int) =~= all);
}

fn push_block(out: &mut String, label: &str, vars: &[EnvVar])
    ensures
        final(out)@ == old(out)@ + block_text((label@, vars.deep_view())),
{
    push_comment_line(out, label);
    push_entries(out, vars);
    assert(out@ =~= old(out)@ + (comment_line(label@) + entries_text(vars.deep_view())));
}

/// The fragment that adds the given variables to an environment file: see
/// `env_text`.
pub fn generate_env_content(vars: &[EnvVar]) -> (content: String)
    ensures
        content@ == env_text(vars.deep_view()),
{
    let grouped_vars = group_variables(vars);
    let ghost groups = grouped_vars.deep_view();
    let mut content = String::new();
    let mut i: usize = 0;
    assert(groups.take(0) =~= Seq::<(Seq<char>, Seq<VarModel>)>::empty());
    while i < grouped_vars.len()
        invariant
            i <= grouped_vars@.len(),
            groups == grouped_vars.deep_view(),
            content@ == fragment_blocks(groups.take(i as int)),
        decreases grouped_vars@.len() - i,
    {
        let ghost before = content@;
        assert(groups.take(i + 1).drop_last() =~= groups.take(i as int));
        assert(groups.take(i + 1).last() == (grouped_vars@[i as int].0@, grouped_vars@[i as int].1.deep_view()));
        content.push('\n');
        push_entries(&mut content, grouped_vars[i].1.as_slice());
        assert(content@ =~= before + seq!['\n'] + entries_text(groups.take(i + 1).last().1));
        i += 1;
    }
    assert(groups.take(grouped_vars@.len() as int) =~= groups);
    let chars = chars_of(content.as_str());
    if chars.len() > 0 {
        string_of(slice_subrange(chars.as_slice(), 1, chars.len()))
    } else {
        content
    }
}

/// The example file for the given catalog: see `example_text`.
pub fn generate_example_content(vars: &[EnvVar]) -> (content: String)
    ensures
        content@ == example_text(vars.deep_view()),
{
    let grouped_vars = group_variables(vars);
    let ghost groups = grouped_vars.deep_view();
    let mut content = String::new();
    let mut i: usize = 0;
    assert(groups.take(0) =~= Seq::<(Seq<char>, Seq<VarModel>)>::empty());
    while i < grouped_vars.len()
        invariant
            i <= grouped_vars@.len(),
            groups == grouped_vars.deep_view(),
            content@ == example_blocks(groups.take(i as int)),
        decreases grouped_vars@.len() - i,
    {
        let ghost before = content@;
        assert(groups.take(i + 1).drop_last() =~= groups.take(i as int));
        assert(groups.take(i + 1).last() == (grouped_vars@[i as int].0@, grouped_vars@[i as int].1.deep_view()));
        push_block(&mut content, grouped_vars[i].0.as_str(), grouped_vars[i].1.as_slice());
        content.push('\n');
        assert(content@ =~= before + block_text(groups.take(i + 1).last()) + seq!['\n']);
        i += 1;
    }
    assert(groups.take(grouped_vars@.len() as int) =~= groups);
    let chars = chars_of(content.as_str());
    let end = scan_class_back(chars.as_slice(), Class::Only('\n'));
    string_of(slice_subrange(chars.as_slice(), 0, end))
}

/// One change to a text: what stands in `range` is replaced by `new_text`.
#[derive(Debug)]
pub struct TextEdit {
    pub range: Span,
    pub new_text: String,
}

/// What a `TextEdit` stands for.
pub struct EditModel {
    pub range: Span,
    pub new_text: Seq<char>,
}

impl View for TextEdit {
    type V = EditModel;

    open spec fn view(&self) -> EditModel {
        EditModel { range: self.range, new_text: self.new_text@ }
    }
}

impl DeepView for TextEdit {
    type V = EditModel;

    open spec fn deep_view(&self) -> EditModel {
        self@
    }
}

/// The kind of an action, as an editor files it.
#[derive(Debug, Clone, Copy, PartialEq, Eq, Structural)]
pub enum ActionKind {
    QuickFix,
    Source,
}

/// An action that an editor offers: the edits it makes to one document.
#[derive(Debug)]
pub struct CodeAction {
    pub title: String,
    pub kind: ActionKind,
    /// The document that the edits are made to.
    pub uri: String,
    pub edits: Vec<TextEdit>,
    pub is_preferred: bool,
}

/// What a `CodeAction` stands for.
pub struct ActionModel {
    pub title: Seq<char>,
    pub kind: ActionKind,
    pub uri: Seq<char>,
    pub edits: Seq<EditModel>,
    pub is_preferred: bool,
}

impl View for CodeAction {
    type V = ActionModel;

    open spec fn view(&self) -> ActionModel {
        ActionModel {
            title: self.title@,
            kind: self.kind,
            uri: self.uri@,
            edits: self.edits.deep_view(),
            is_preferred: self.is_preferred,
        }
    }
}

impl DeepView for CodeAction {
    type V = ActionModel;

    open spec fn deep_view(&self) -> ActionModel {
        self@
    }
}

/// The line at which the fragment is put: the line behind `last_line`
/// where that line holds more than white space, and `last_line` itself
/// where it is blank or nothing is known of it.
pub open spec fn append_line(last_line: usize, line_content: Option<Seq<char>>) -> u32 {
    match line_content {
        Some(line) => if trim(line).len() == 0 {
            last_line as u32
        } else if last_line < usize::MAX {
            (last_line + 1) as u32
        } else {
            0
        },
        None => last_line as u32,
    }
}

/// The title of the action that appends `count` missing variables.
pub open spec fn append_title(count: nat) -> Seq<char> {
    "Append "@ + decimal(count) + " missing environment variable(s)"@
}

/// The action that appends the missing variables to an environment file.
pub open spec fn append_missing_action(
    missing: Seq<VarModel>,
    file_uri: Seq<char>,
    last_line: usize,
    line_content: Option<Seq<char>>,
) -> ActionModel {
    let at = place(append_line(last_line, line_content), 0);
    ActionModel {
        title: append_title(missing.len()),
        kind: ActionKind::QuickFix,
        uri: file_uri,
        edits: seq![EditModel { range: Span { start: at, end: at }, new_text: env_text(missing) }],
        is_preferred: true,
    }
}

/// The action that replaces a whole document by the example file.
pub open spec fn generate_example_action(all: Seq<VarModel>, file_uri: Seq<char>) -> ActionModel {
    ActionModel {
        title: "Generate .env.example file"@,
        kind: ActionKind::Source,
        uri: file_uri,
        edits: seq![
            EditModel {
                range: Span { start: place(0, 0), end: place(u32::MAX, u32::MAX) },
                new_text: example_text(all),
            },
        ],
        is_preferred: false,
    }
}

/// Where the example file of a workspace lies: `.env.example` under the
/// workspace's address, which is taken without the slashes at its end.
pub open spec fn example_uri(workspace_uri: Seq<char>) -> Seq<char> {
    workspace_uri.take(scan_back(workspace_uri, workspace_uri.len() as int, Class::Only('/')))
        + "/.env.example"@
}

/// The action that creates the example file of a workspace, empty.
pub open spec fn create_example_action(workspace_uri: Seq<char>) -> ActionModel {
    ActionModel {
        title: "Create .env.example file"@,
        kind: ActionKind::Source,
        uri: example_uri(workspace_uri),
        edits: Seq::empty(),
        is_preferred: false,
    }
}

/// Offers to append the missing variables to an environment file.
///
/// The action inserts the fragment for `missing_vars` at the start of a
/// line: `last_line` where `line_content` is blank or unknown, the line
/// behind it otherwise. It is the preferred quick fix.
pub fn create_append_missing_action(
    missing_vars: &[EnvVar],
    file_uri: &str,
    last_line: usize,
    line_content: Option<String>,
) -> (action: CodeAction)
    ensures
        action@ == append_missing_action(
            missing_vars.deep_view(),
            file_uri@,
            last_line,
            text_of(line_content),
        ),
{
    let content = generate_env_content(missing_vars);
    let line: u32 = match &line_content {
        Some(l) => {
            let chars = chars_of(l.as_str());
            if trim_of(chars.as_slice()).len() == 0 {
                last_line as u32
            } else if last_line < usize::MAX {
                (last_line + 1) as u32
            } else {
                0
            }
        },
        None => last_line as u32,
    };
    let at = Position { line, character: 0 };
    let mut edits: Vec<TextEdit> = Vec::new();
    edits.push(TextEdit { range: Span { start: at, end: at }, new_text: content });
    let mut title = String::from_str("Append ");
    title.append(decimal_of(missing_vars.len()).as_str());
    title.append(" missing environment variable(s)");
    assert(missing_vars.deep_view().len() == missing_vars@.len());
    let action = CodeAction {
        title,
        kind: ActionKind::QuickFix,
        uri: String::from_str(file_uri),
        edits,
        is_preferred: true,
    };
    assert(action@.edits =~= append_missing_action(
        missing_vars.deep_view(),
        file_uri@,
        last_line,
        text_of(line_content),
    ).edits);
    action
}

/// Offers to replace a whole document by the example file for the
/// catalog.
pub fn create_generate_example_action(all_vars: &[EnvVar], file_uri: &str) -> (action: CodeAction)
    ensures
        action@ == generate_example_action(all_vars.deep_view(), file_uri@),
{
    let content = generate_example_content(all_vars);
    let mut edits: Vec<TextEdit> = Vec::new();
    edits.push(
        TextEdit {
            range: Span {
                start: Position { line: 0, character: 0 },
                end: Position { line: u32::MAX, character: u32::MAX },
            },
            new_text: content,
        },
    );
    let action = CodeAction {
        title: String::from_str("Generate .env.example file"),
        kind: ActionKind::Source,
        uri: String::from_str(file_uri),
        edits,
        is_preferred: false,
    };
    assert(action@.edits =~= generate_example_action(all_vars.deep_view(), file_uri@).edits);
    action
}

/// Offers to create the example file of a workspace. The action names
/// the file and makes no edit; the catalog makes no difference to it.
pub fn create_create_example_action(_all_vars: &[EnvVar], workspace_uri: &str) -> (action:
    CodeAction)
    ensures
        action@ == create_example_action(workspace_uri@),
{
    let chars = chars_of(workspace_uri);
    let end = scan_class_back(chars.as_slice(), Class::Only('/'));
    let mut uri = string_of(slice_subrange(chars.as_slice(), 0, end));
    uri.append("/.env.example");
    let action = CodeAction {
        title: String::from_str("Create .env.example file"),
        kind: ActionKind::Source,
        uri,
        edits: Vec::new(),
        is_preferred: false,
    };
    assert(action@.edits =~= Seq::<EditModel>::empty());
    action
}

} // verus!
