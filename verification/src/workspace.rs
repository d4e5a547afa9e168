//! The state of a workspace and what is derived from it: the catalog of
//! all schemas, the entries of all environment files, and the answers to
//! an editor's requests.
//!
//! The state is held by the caller, who may guard each part of it by a
//! lock of its own. Every function here takes the parts it reads and
//! returns a new value, which the caller swaps in whole.

use crate::code_actions::{
    append_missing_action, create_append_missing_action, create_create_example_action,
    create_example_action, ActionModel, CodeAction,
};
use crate::diagnostics::{
    create_missing_var_diagnostic, create_unused_var_diagnostic, missing_diagnostic, place,
    unused_message, Diagnostic, DiagnosticModel, Severity, Span,
};
use crate::env_file::{merge_env_files, merged_entries};
use crate::hover::{create_hover, hover_text, Hover, MarkupKind};
use crate::keyed::{
    distinct_keys, first_of_each, first_with, has_key, key_scan, lemma_first_of_each_distinct,
    lemma_first_of_each_of_distinct, lemma_key_scan, lemma_key_scan_push,
};
use crate::repair::reported_vars;
use crate::schema::all_wf;
use crate::types::{
    clone_entries, text_of, EntryModel, EnvFileEntry, EnvVar, ParsedSchema, SchemaModel, VarModel,
};
use crate::validation::{missing_errors, validate, validation, ValidationResult};
use vstd::hash_set::StringHashSet;
use vstd::prelude::*;
use vstd::utf8::encode_utf8;

verus! {

/// The variables of all schemas, laid end to end.
pub open spec fn all_variables(schemas: Seq<SchemaModel>) -> Seq<VarModel>
    decreases schemas.len(),
{
    if schemas.len() == 0 {
        Seq::empty()
    } else {
        all_variables(schemas.drop_last()) + schemas.last().variables
    }
}

/// The catalog of a workspace: the variables of all its schemas, in the
/// order of the schemas, each name once. Where several schemas declare a
/// name, the first declaration stands.
pub open spec fn catalog_of(schemas: Seq<SchemaModel>) -> Seq<VarModel> {
    first_of_each(all_variables(schemas))
}

/// A catalog built from schemas whose variables are well formed is well
/// formed: every variable of it that has a default value is optional.
pub proof fn lemma_catalog_wf(schemas: Seq<SchemaModel>)
    requires
        forall|k: int| 0 <= k < schemas.len() ==> all_wf((#[trigger] schemas[k]).variables),
    ensures
        all_wf(catalog_of(schemas)),
{
    let all = all_variables(schemas);
    lemma_first_of_each_distinct(all);
    lemma_all_variables_wf(schemas);
    assert forall|i: int| 0 <= i < catalog_of(schemas).len() implies (#[trigger] catalog_of(
        schemas,
    )[i]).wf() by {
        let v = catalog_of(schemas)[i];
        assert(all.contains(v));
        let k = choose|k: int| 0 <= k < all.len() && all[k] == v;
        assert(all[k].wf());
    }
}

/// The variables of schemas whose variables are well formed are well
/// formed.
proof fn lemma_all_variables_wf(schemas: Seq<SchemaModel>)
    requires
        forall|k: int| 0 <= k < schemas.len() ==> all_wf((#[trigger] schemas[k]).variables),
    ensures
        all_wf(all_variables(schemas)),
    decreases schemas.len(),
{
    if schemas.len() > 0 {
        let init = schemas.drop_last();
        assert forall|k: int| 0 <= k < init.len() implies all_wf(
            (#[trigger] init[k]).variables,
        ) by {
            assert(init[k] == schemas[k]);
        }
        lemma_all_variables_wf(init);
        let before = all_variables(init);
        let last = schemas.last().variables;
        assert(schemas.last() == schemas[schemas.len() - 1]);
        assert forall|i: int| 0 <= i < (before + last).len() implies (#[trigger] (before
            + last)[i]).wf() by {
            if i < before.len() {
                assert(before[i].wf());
            } else {
                assert(last[i - before.len()].wf());
            }
        }
    }
}

/// A schema that declares no name twice gives a catalog of exactly its
/// declarations, in their order.
pub proof fn lemma_catalog_of_one(schema: SchemaModel)
    requires
        distinct_keys(schema.variables),
    ensures
        catalog_of(seq![schema]) == schema.variables,
{
    let schemas = seq![schema];
    assert(schemas.drop_last() =~= Seq::<SchemaModel>::empty());
    assert(all_variables(schemas.drop_last()) =~= Seq::<VarModel>::empty());
    assert(schemas.last() == schema);
    assert(all_variables(schemas) =~= schema.variables);
    lemma_first_of_each_of_distinct(schema.variables);
}

fn push_new_vars(out: &mut Vec<EnvVar>, seen: &mut StringHashSet, vars: &Vec<EnvVar>, Ghost(flat): Ghost<Seq<VarModel>>)
    requires
        old(out).deep_view() == first_of_each(flat),
        forall|n: Seq<char>| old(seen)@.contains(n) <==> has_key(flat, n),
    ensures
        final(out).deep_view() == first_of_each(flat + vars.deep_view()),
        forall|n: Seq<char>| final(seen)@.contains(n) <==> has_key(flat + vars.deep_view(), n),
{
    let ghost all = vars.deep_view();
    let mut i: usize = 0;
    assert(flat + all.take(0) =~= flat);
    while i < vars.len()
        invariant
            i <= vars@.len(),
            all == vars.deep_view(),
            out.deep_view() == first_of_each(flat + all.take(i as int)),
            forall|n: Seq<char>| seen@.contains(n) <==> has_key(flat + all.take(i as int), n),
        decreases vars@.len() - i,
    {
        let ghost cur = flat + all.take(i as int);
        let ghost v = vars@[i as int]@;
        let ghost next = cur.push(v);
        let ghost before = out.deep_view();
        assert(next =~= flat + all.take(i + 1));
        assert(next.drop_last() =~= cur);
        assert forall|n: Seq<char>| has_key(next, n) <==> (has_key(cur, n) || n == v.name) by {
            lemma_key_scan_push(cur, v, 0, n);
            lemma_key_scan(cur, 0, n);
        }
        if seen.insert(vars[i].name.clone()) {
            out.push(vars[i].clone());
            assert(out.deep_view() =~= before.push(v));
        }
        i += 1;
    }
    assert(all.take(vars@.len() as int) =~= all);
}

/// Builds the catalog of a workspace from the schemas that were read: see
/// `catalog_of`.
pub fn build_catalog(schemas: &[ParsedSchema]) -> (catalog: Vec<EnvVar>)
    ensures
        catalog.deep_view() == catalog_of(schemas.deep_view()),
{
    let ghost all = schemas.deep_view();
    let mut catalog: Vec<EnvVar> = Vec::new();
    let mut seen = StringHashSet::new();
    let mut i: usize = 0;
    assert(all.take(0) =~= Seq::<SchemaModel>::empty());
    assert(catalog.deep_view() =~= first_of_each(all_variables(all.take(0))));
    while i < schemas.len()
        invariant
            i <= schemas@.len(),
            all == schemas.deep_view(),
            catalog.deep_view() == first_of_each(all_variables(all.take(i as int))),
            forall|n: Seq<char>|
                seen@.contains(n) <==> has_key(all_variables(all.take(i as int)), n),
        decreases schemas@.len() - i,
    {
        assert(all.take(i + 1).drop_last() =~= all.take(i as int));
        assert(all.take(i + 1).last().variables == schemas@[i as int].variables.deep_view());
        push_new_vars(
            &mut catalog,
            &mut seen,
            &schemas[i].variables,
            Ghost(all_variables(all.take(i as int))),
        );
        i += 1;
    }
    assert(all.take(schemas@.len() as int) =~= all);
    catalog
}

/// The entries of the environment files of a workspace, file by file.
/// No path occurs twice.
pub struct EnvFiles {
    files: Vec<(String, Vec<EnvFileEntry>)>,
}

/// The entries of the file at `path`.
pub open spec fn entries_at(files: Seq<(Seq<char>, Seq<EntryModel>)>, path: Seq<char>) -> Option<
    Seq<EntryModel>,
> {
    let i = key_scan(files, 0, path);
    if i < files.len() {
        Some(files[i].1)
    } else {
        None
    }
}

/// The entries of all files, laid end to end.
pub open spec fn all_file_entries(files: Seq<(Seq<char>, Seq<EntryModel>)>) -> Seq<EntryModel>
    decreases files.len(),
{
    if files.len() == 0 {
        Seq::empty()
    } else {
        all_file_entries(files.drop_last()) + files.last().1
    }
}

/// The files with the entries of the file at `path` replaced; with the
/// file put at the end, where it was not among them.
pub open spec fn with_file(
    files: Seq<(Seq<char>, Seq<EntryModel>)>,
    path: Seq<char>,
    entries: Seq<EntryModel>,
) -> Seq<(Seq<char>, Seq<EntryModel>)> {
    let i = key_scan(files, 0, path);
    if i < files.len() {
        files.update(i, (path, entries))
    } else {
        files.push((path, entries))
    }
}

/// Putting a file among files of distinct paths leaves the paths distinct.
pub proof fn lemma_with_file_distinct(
    files: Seq<(Seq<char>, Seq<EntryModel>)>,
    path: Seq<char>,
    entries: Seq<EntryModel>,
)
    requires
        distinct_keys(files),
    ensures
        distinct_keys(with_file(files, path, entries)),
{
    lemma_key_scan(files, 0, path);
    let out = with_file(files, path, entries);
    let p = key_scan(files, 0, path);
    assert forall|i: int, j: int| 0 <= i < j < out.len() implies (#[trigger] out[i]).0 != (
    #[trigger] out[j]).0 by {
        if p < files.len() {
            assert(out[i].0 == files[i].0 && out[j].0 == files[j].0);
        } else if j < files.len() {
            assert(out[i] == files[i] && out[j] == files[j]);
        } else {
            assert(out[i] == files[i]);
        }
    }
}

impl View for EnvFiles {
    type V = Seq<(Seq<char>, Seq<EntryModel>)>;

    closed spec fn view(&self) -> Seq<(Seq<char>, Seq<EntryModel>)> {
        self.files.deep_view()
    }
}

impl EnvFiles {
    #[verifier::type_invariant]
    spec fn distinct(self) -> bool {
        distinct_keys(self.files.deep_view())
    }

    /// No files.
    pub fn new() -> (files: Self)
        ensures
            files@ == Seq::<(Seq<char>, Seq<EntryModel>)>::empty(),
            distinct_keys(files@),
    {
        let files = EnvFiles { files: Vec::new() };
        assert(files.files.deep_view() =~= Seq::<(Seq<char>, Seq<EntryModel>)>::empty());
        files
    }

    /// The number of files.
    pub fn len(&self) -> (n: usize)
        ensures
            n == self@.len(),
    {
        self.files.len()
    }

    fn position(&self, path: &str) -> (r: usize)
        ensures
            r == key_scan(self@, 0, path@),
            r <= self@.len(),
    {
        let wanted = String::from_str(path);
        let mut i: usize = 0;
        while i < self.files.len()
            invariant
                i <= self.files@.len(),
                wanted@ == path@,
                key_scan(self@, 0, path@) == key_scan(self@, i as int, path@),
            decreases self.files@.len() - i,
        {
            assert(self@[i as int].0 == self.files@[i as int].0@);
            if self.files[i].0 == wanted {
                return i;
            }
            i += 1;
        }
        i
    }

    /// The entries of the file at `path`, if it is among the files.
    pub fn get(&self, path: &str) -> (r: Option<&Vec<EnvFileEntry>>)
        ensures
            match r {
                Some(entries) => entries_at(self@, path@) == Some(entries.deep_view()),
                None => entries_at(self@, path@) is None,
            },
    {
        let i = self.position(path);
        if i < self.files.len() {
            assert(self@[i as int].1 == self.files@[i as int].1.deep_view());
            Some(&self.files[i].1)
        } else {
            None
        }
    }

    /// The files with the entries of one more file put among them. The
    /// entries that the file had before, if any, are replaced.
    pub fn insert(self, path: String, entries: Vec<EnvFileEntry>) -> (files: Self)
        ensures
            files@ == with_file(self@, path@, entries.deep_view()),
            distinct_keys(self@),
            distinct_keys(files@),
    {
        proof {
            use_type_invariant(&self);
            lemma_with_file_distinct(self@, path@, entries.deep_view());
        }
        let ghost before = self@;
        let i = self.position(path.as_str());
        let mut files = self.files;
        if i < files.len() {
            files[i] = (path, entries);
            assert(files.deep_view() =~= before.update(i as int, (path@, entries.deep_view())));
        } else {
            files.push((path, entries));
            assert(files.deep_view() =~= before.push((path@, entries.deep_view())));
        }
        EnvFiles { files }
    }

    /// The entries of all files, laid end to end in the order in which
    /// the files were first put in.
    pub fn all_entries(&self) -> (all: Vec<EnvFileEntry>)
        ensures
            all.deep_view() == all_file_entries(self@),
    {
        let ghost files = self@;
        let mut all: Vec<EnvFileEntry> = Vec::new();
        let mut i: usize = 0;
        assert(files.take(0) =~= Seq::<(Seq<char>, Seq<EntryModel>)>::empty());
        assert(all.deep_view() =~= all_file_entries(files.take(0)));
        while i < self.files.len()
            invariant
                i <= self.files@.len(),
                files == self@,
                all.deep_view() == all_file_entries(files.take(i as int)),
            decreases self.files@.len() - i,
        {
            let ghost start = all.deep_view();
            let list = &self.files[i].1;
            let ghost these = list.deep_view();
            assert(files.take(i + 1).drop_last() =~= files.take(i as int));
            assert(files.take(i + 1).last().1 == these);
            let mut j: usize = 0;
            assert(start + these.take(0) =~= start);
            while j < list.len()
                invariant
                    j <= list@.len(),
                    these == list.deep_view(),
                    all.deep_view() == start + these.take(j as int),
                decreases list@.len() - j,
            {
                let ghost before = all.deep_view();
                all.push(list[j].clone());
                assert(all.deep_view() =~= before.push(these[j as int]));
                assert(start + these.take(j + 1) =~= (start + these.take(j as int)).push(
                    these[j as int],
                ));
                j += 1;
            }
            assert(these.take(list@.len() as int) =~= these);
            i += 1;
        }
        assert(files.take(self.files@.len() as int) =~= files);
        all
    }
}

/// The entries that a file is validated against: its own entries first,
/// then those of all files, merged so that the file's own entries take
/// precedence. A file that is not among the files has no entries of its
/// own.
pub open spec fn validation_entries(
    files: Seq<(Seq<char>, Seq<EntryModel>)>,
    path: Seq<char>,
) -> Seq<EntryModel> {
    let own = match entries_at(files, path) {
        Some(entries) => entries,
        None => Seq::empty(),
    };
    merged_entries(seq![own, all_file_entries(files)])
}

/// The entries that a file is validated against when fixes for it are
/// asked for: as `validation_entries`, but none at all for a file that
/// is not among the files.
pub open spec fn action_entries(
    files: Seq<(Seq<char>, Seq<EntryModel>)>,
    path: Seq<char>,
) -> Seq<EntryModel> {
    match entries_at(files, path) {
        Some(entries) => merged_entries(seq![entries, all_file_entries(files)]),
        None => Seq::empty(),
    }
}

/// The entries whose name the catalog does not declare, in their order.
pub open spec fn unused_entries(vars: Seq<VarModel>, entries: Seq<EntryModel>) -> Seq<EntryModel>
    decreases entries.len(),
{
    if entries.len() == 0 {
        Seq::empty()
    } else {
        let before = unused_entries(vars, entries.drop_last());
        if has_key(vars, entries.last().name) {
            before
        } else {
            before.push(entries.last())
        }
    }
}

/// An entry is reported as unused if and only if it is among the
/// entries and the catalog declares no variable of its name.
pub proof fn lemma_unused_iff_undeclared(vars: Seq<VarModel>, entries: Seq<EntryModel>, e: EntryModel)
    ensures
        unused_entries(vars, entries).contains(e) <==> (entries.contains(e) && !has_key(
            vars,
            e.name,
        )),
    decreases entries.len(),
{
    if entries.len() > 0 {
        let init = entries.drop_last();
        let last = entries.last();
        let before = unused_entries(vars, init);
        let out = unused_entries(vars, entries);
        lemma_unused_iff_undeclared(vars, init, e);
        if entries.contains(e) {
            let i = choose|i: int| 0 <= i < entries.len() && entries[i] == e;
            if i < init.len() {
                assert(init[i] == e);
            }
        }
        if init.contains(e) {
            let i = choose|i: int| 0 <= i < init.len() && init[i] == e;
            assert(entries[i] == e);
        }
        assert(entries[entries.len() - 1] == last);
        if !has_key(vars, last.name) {
            assert(out[before.len() as int] == last);
            if before.contains(e) {
                let k = choose|k: int| 0 <= k < before.len() && before[k] == e;
                assert(out[k] == e);
            }
            if out.contains(e) {
                let k = choose|k: int| 0 <= k < out.len() && out[k] == e;
                if k < before.len() {
                    assert(before[k] == e);
                }
            }
        }
    }
}

/// Finds the entries that no schema declares: see `unused_entries`.
pub fn find_unused(schema_vars: &[EnvVar], env_entries: &[EnvFileEntry]) -> (unused: Vec<
    EnvFileEntry,
>)
    ensures
        unused.deep_view() == unused_entries(schema_vars.deep_view(), env_entries.deep_view()),
{
    let ghost vars = schema_vars.deep_view();
    let ghost entries = env_entries.deep_view();
    let mut names = StringHashSet::new();
    let mut i: usize = 0;
    assert(vars.take(0) =~= Seq::<VarModel>::empty());
    while i < schema_vars.len()
        invariant
            i <= schema_vars@.len(),
            vars == schema_vars.deep_view(),
            forall|n: Seq<char>| names@.contains(n) <==> has_key(vars.take(i as int), n),
        decreases schema_vars@.len() - i,
    {
        let ghost cur = vars.take(i as int);
        let ghost v = schema_vars@[i as int]@;
        assert(cur.push(v) =~= vars.take(i + 1));
        assert forall|n: Seq<char>| has_key(cur.push(v), n) <==> (has_key(cur, n) || n
            == v.name) by {
            lemma_key_scan_push(cur, v, 0, n);
            lemma_key_scan(cur, 0, n);
        }
        names.insert(schema_vars[i].name.clone());
        i += 1;
    }
    assert(vars.take(schema_vars@.len() as int) =~= vars);
    let mut unused: Vec<EnvFileEntry> = Vec::new();
    let mut j: usize = 0;
    assert(entries.take(0) =~= Seq::<EntryModel>::empty());
    assert(unused.deep_view() =~= unused_entries(vars, entries.take(0)));
    while j < env_entries.len()
        invariant
            j <= env_entries@.len(),
            entries == env_entries.deep_view(),
            forall|n: Seq<char>| names@.contains(n) <==> has_key(vars, n),
            unused.deep_view() == unused_entries(vars, entries.take(j as int)),
        decreases env_entries@.len() - j,
    {
        let ghost before = unused.deep_view();
        assert(entries.take(j + 1).drop_last() =~= entries.take(j as int));
        assert(entries.take(j + 1).last() == env_entries@[j as int]@);
        if !names.contains(env_entries[j].name.as_str()) {
            unused.push(env_entries[j].clone());
            assert(unused.deep_view() =~= before.push(env_entries@[j as int]@));
        }
        j += 1;
    }
    assert(entries.take(env_entries@.len() as int) =~= entries);
    unused
}

/// The entries that a file is validated against: see `validation_entries`.
pub fn entries_for(files: &EnvFiles, path: &str) -> (entries: Vec<EnvFileEntry>)
    ensures
        entries.deep_view() == validation_entries(files@, path@),
{
    let own = match files.get(path) {
        Some(entries) => clone_entries(entries.as_slice()),
        None => Vec::new(),
    };
    let all = files.all_entries();
    let ghost own_model = own.deep_view();
    let ghost all_model = all.deep_view();
    let mut lists: Vec<Vec<EnvFileEntry>> = Vec::new();
    lists.push(own);
    lists.push(all);
    assert(lists.deep_view() =~= seq![own_model, all_model]);
    assert(own_model =~= match entries_at(files@, path@) {
        Some(entries) => entries,
        None => Seq::empty(),
    });
    merge_env_files(lists)
}

/// Validates the catalog for one environment file: against the file's
/// own entries and, behind them, those of all files.
pub fn validate_file(schemas: &[EnvVar], files: &EnvFiles, path: &str) -> (result:
    ValidationResult)
    ensures
        result@ == validation(schemas.deep_view(), validation_entries(files@, path@)),
{
    let entries = entries_for(files, path);
    validate(schemas, entries.as_slice())
}

/// The diagnostic that reports an entry as declared by no schema: a
/// piece of information that covers the name at the start of the
/// entry's line.
pub open spec fn unused_diagnostic(e: EntryModel) -> DiagnosticModel {
    DiagnosticModel {
        range: Span {
            start: place(e.line as usize as u32, 0),
            end: place(e.line as usize as u32, encode_utf8(e.name).len() as usize as u32),
        },
        severity: Severity::Information,
        code: "unused-env-var"@,
        source: "env-checker"@,
        message: unused_message(e.name),
    }
}

/// The diagnostics of an environment file: an error for each variable
/// that is missing when the catalog is validated for the file, then a
/// piece of information for each entry of the file that no schema
/// declares.
pub open spec fn file_diagnostics(
    vars: Seq<VarModel>,
    files: Seq<(Seq<char>, Seq<EntryModel>)>,
    path: Seq<char>,
) -> Seq<DiagnosticModel> {
    let errors = missing_errors(vars, validation_entries(files, path));
    let own = match entries_at(files, path) {
        Some(entries) => entries,
        None => Seq::empty(),
    };
    let unused = unused_entries(vars, own);
    Seq::new(errors.len(), |i: int| missing_diagnostic(errors[i])) + Seq::new(
        unused.len(),
        |i: int| unused_diagnostic(unused[i]),
    )
}

/// The diagnostics to publish for an environment file: see
/// `file_diagnostics`.
pub fn diagnostics_for(schemas: &[EnvVar], files: &EnvFiles, path: &str) -> (diagnostics: Vec<
    Diagnostic,
>)
    ensures
        diagnostics.deep_view() == file_diagnostics(schemas.deep_view(), files@, path@),
{
    let result = validate_file(schemas, files, path);
    let ghost errors = result.errors.deep_view();
    let mut diagnostics: Vec<Diagnostic> = Vec::new();
    let mut i: usize = 0;
    while i < result.errors.len()
        invariant
            i <= result.errors@.len(),
            errors == result.errors.deep_view(),
            diagnostics@.len() == i,
            forall|k: int|
                0 <= k < i ==> (#[trigger] diagnostics@[k])@ == missing_diagnostic(errors[k]),
        decreases result.errors@.len() - i,
    {
        diagnostics.push(create_missing_var_diagnostic(&result.errors[i]));
        i += 1;
    }
    let empty: Vec<EnvFileEntry> = Vec::new();
    let unused = match files.get(path) {
        Some(entries) => find_unused(schemas, entries.as_slice()),
        None => {
            assert(empty.deep_view() =~= Seq::<EntryModel>::empty());
            find_unused(schemas, empty.as_slice())
        },
    };
    let ghost gone = unused.deep_view();
    let ghost count = i as int;
    let mut j: usize = 0;
    while j < unused.len()
        invariant
            j <= unused@.len(),
            gone == unused.deep_view(),
            count == errors.len(),
            diagnostics@.len() == count + j,
            forall|k: int|
                0 <= k < count ==> (#[trigger] diagnostics@[k])@ == missing_diagnostic(errors[k]),
            forall|k: int|
                0 <= k < j ==> (#[trigger] diagnostics@[count + k])@ == unused_diagnostic(gone[k]),
        decreases unused@.len() - j,
    {
        let d = create_unused_var_diagnostic(unused[j].name.as_str(), unused[j].line);
        assert(d@ == unused_diagnostic(unused@[j as int]@));
        diagnostics.push(d);
        j += 1;
    }
    assert(diagnostics.deep_view() =~= file_diagnostics(schemas.deep_view(), files@, path@)) by {
        let model = file_diagnostics(schemas.deep_view(), files@, path@);
        assert(model.len() == count + gone.len());
        assert forall|k: int| 0 <= k < model.len() implies diagnostics.deep_view()[k]
            == model[k] by {
            if k >= count {
                assert(diagnostics@[count + (k - count)]@ == unused_diagnostic(gone[k - count]));
            }
        }
    }
    diagnostics
}

/// The text of an entry as its line declares it: the name, `=`, and the
/// value where there is one.
pub open spec fn entry_line(e: EntryModel) -> Seq<char> {
    e.name + seq!['='] + match e.value {
        Some(v) => v,
        None => Seq::empty(),
    }
}

/// The line behind the last entry of a file, and the text of that entry.
/// For a file without entries, or one that is not among the files, line 0
/// and no text.
pub open spec fn last_line_info(
    files: Seq<(Seq<char>, Seq<EntryModel>)>,
    path: Seq<char>,
) -> (usize, Option<Seq<char>>) {
    match entries_at(files, path) {
        Some(entries) => if entries.len() > 0 {
            (
                if entries.last().line < usize::MAX {
                    (entries.last().line + 1) as usize
                } else {
                    usize::MAX
                },
                Some(entry_line(entries.last())),
            )
        } else {
            (0, None)
        },
        None => (0, None),
    }
}

/// Where a file's entries end: see `last_line_info`.
pub fn get_last_line_info(files: &EnvFiles, path: &str) -> (info: (usize, Option<String>))
    ensures
        (info.0, text_of(info.1)) == last_line_info(files@, path@),
{
    match files.get(path) {
        Some(entries) => {
            let n = entries.len();
            if n > 0 {
                let last = &entries[n - 1];
                assert(entries.deep_view().last() == last@);
                let mut text = last.name.clone();
                text.push('=');
                match &last.value {
                    Some(v) => {
                        text.append(v.as_str());
                    },
                    None => {},
                }
                assert(text@ =~= entry_line(last@));
                let line = if last.line < usize::MAX {
                    last.line + 1
                } else {
                    usize::MAX
                };
                (line, Some(text))
            } else {
                (0, None)
            }
        },
        None => (0, None),
    }
}

/// The actions that are offered for the environment file at `path`,
/// which the editor knows by the address `uri`. Where variables are
/// missing, the first appends them behind the file's last entry. The
/// last, which is always offered, creates the example file.
pub open spec fn file_actions(
    vars: Seq<VarModel>,
    files: Seq<(Seq<char>, Seq<EntryModel>)>,
    path: Seq<char>,
    uri: Seq<char>,
) -> Seq<ActionModel> {
    let errors = missing_errors(vars, action_entries(files, path));
    let info = last_line_info(files, path);
    if errors.len() > 0 {
        seq![
            append_missing_action(reported_vars(errors), uri, info.0, info.1),
            create_example_action(uri),
        ]
    } else {
        seq![create_example_action(uri)]
    }
}

/// The actions to offer for an environment file: see `file_actions`.
pub fn code_actions_for(schemas: &[EnvVar], files: &EnvFiles, path: &str, uri: &str) -> (actions:
    Vec<CodeAction>)
    ensures
        actions.deep_view() == file_actions(schemas.deep_view(), files@, path@, uri@),
{
    let empty: Vec<EnvFileEntry> = Vec::new();
    let result = match files.get(path) {
        Some(entries) => {
            let mut lists: Vec<Vec<EnvFileEntry>> = Vec::new();
            let own = clone_entries(entries.as_slice());
            let all = files.all_entries();
            let ghost own_model = own.deep_view();
            let ghost all_model = all.deep_view();
            lists.push(own);
            lists.push(all);
            assert(lists.deep_view() =~= seq![own_model, all_model]);
            let merged = merge_env_files(lists);
            validate(schemas, merged.as_slice())
        },
        None => {
            assert(empty.deep_view() =~= Seq::<EntryModel>::empty());
            validate(schemas, empty.as_slice())
        },
    };
    let ghost errors = result.errors.deep_view();
    let mut actions: Vec<CodeAction> = Vec::new();
    if result.errors.len() > 0 {
        let mut missing: Vec<EnvVar> = Vec::new();
        let mut i: usize = 0;
        while i < result.errors.len()
            invariant
                i <= result.errors@.len(),
                errors == result.errors.deep_view(),
                missing@.len() == i,
                forall|k: int| 0 <= k < i ==> (#[trigger] missing@[k])@ == errors[k].schema_var,
            decreases result.errors@.len() - i,
        {
            missing.push(result.errors[i].schema_var.clone());
            i += 1;
        }
        assert(missing.deep_view() =~= reported_vars(errors));
        let (last_line, last_content) = get_last_line_info(files, path);
        actions.push(create_append_missing_action(missing.as_slice(), uri, last_line, last_content));
    }
    actions.push(create_create_example_action(schemas, uri));
    assert(actions.deep_view() =~= file_actions(schemas.deep_view(), files@, path@, uri@));
    actions
}

/// The first index at or after `i` of an entry on the given line, or the
/// length of `entries` if there is none.
pub open spec fn line_scan(entries: Seq<EntryModel>, i: int, line: u32) -> int
    decreases entries.len() - i,
{
    if 0 <= i < entries.len() && entries[i].line as usize as u32 != line {
        line_scan(entries, i + 1, line)
    } else {
        i
    }
}

/// The variable that the given line of a file speaks of: the first
/// variable of the catalog that carries the name of the first entry on
/// that line.
pub open spec fn var_on_line(
    vars: Seq<VarModel>,
    files: Seq<(Seq<char>, Seq<EntryModel>)>,
    path: Seq<char>,
    line: u32,
) -> Option<VarModel> {
    match entries_at(files, path) {
        Some(entries) => {
            let i = line_scan(entries, 0, line);
            if i < entries.len() {
                first_with(vars, entries[i].name)
            } else {
                None
            }
        },
        None => None,
    }
}

/// The hover for a line of an environment file: that of the variable
/// which the line speaks of, none where it speaks of none.
pub fn hover_at(schemas: &[EnvVar], files: &EnvFiles, path: &str, line: u32) -> (r: Option<Hover>)
    ensures
        match r {
            Some(h) => var_on_line(schemas.deep_view(), files@, path@, line) matches Some(v)
                && h.kind == MarkupKind::Markdown && h.value@ == hover_text(v),
            None => var_on_line(schemas.deep_view(), files@, path@, line) is None,
        },
{
    match files.get(path) {
        Some(entries) => {
            let ghost models = entries.deep_view();
            let mut i: usize = 0;
            while i < entries.len() && entries[i].line as u32 != line
                invariant
                    i <= entries@.len(),
                    models == entries.deep_view(),
                    line_scan(models, 0, line) == line_scan(models, i as int, line),
                decreases entries@.len() - i,
            {
                assert(models[i as int] == entries@[i as int]@);
                i += 1;
            }
            if i >= entries.len() {
                return None;
            }
            assert(models[i as int] == entries@[i as int]@);
            let ghost vars = schemas.deep_view();
            let mut j: usize = 0;
            while j < schemas.len() && schemas[j].name != entries[i].name
                invariant
                    j <= schemas@.len(),
                    i < entries@.len(),
                    vars == schemas.deep_view(),
                    key_scan(vars, 0, entries@[i as int].name@) == key_scan(
                        vars,
                        j as int,
                        entries@[i as int].name@,
                    ),
                decreases schemas@.len() - j,
            {
                assert(vars[j as int] == schemas@[j as int]@);
                j += 1;
            }
            if j >= schemas.len() {
                return None;
            }
            assert(vars[j as int] == schemas@[j as int]@);
            create_hover(&schemas[j])
        },
        None => None,
    }
}

} // verus!
