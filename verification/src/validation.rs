//! Validation of a catalog against the entries of the environment files,
//! and the grouping of a catalog for display.

use crate::env_file::{lemma_merge_prefers_first, merged_entries};
use crate::keyed::{
    distinct_keys, first_with, has_key, key_scan, lemma_key_scan, lemma_key_scan_push,
};
use crate::text::{chars_of, lex_less, lex_lt};
use crate::types::{clone_vars, EntryModel, EnvFileEntry, EnvVar, VarModel};
use vstd::hash_map::StringHashMap;
use vstd::prelude::*;

verus! {

/// A required variable that no environment file defines.
#[derive(Debug)]
pub struct ValidationError {
    pub var_name: String,
    pub missing_from_all: bool,
    /// The descriptor of the missing variable, whole.
    pub schema_var: EnvVar,
}

/// What a `ValidationError` stands for.
pub struct ErrorModel {
    pub var_name: Seq<char>,
    pub missing_from_all: bool,
    pub schema_var: VarModel,
}

impl View for ValidationError {
    type V = ErrorModel;

    open spec fn view(&self) -> ErrorModel {
        ErrorModel {
            var_name: self.var_name@,
            missing_from_all: self.missing_from_all,
            schema_var: self.schema_var@,
        }
    }
}

impl DeepView for ValidationError {
    type V = ErrorModel;

    open spec fn deep_view(&self) -> ErrorModel {
        self@
    }
}

impl Clone for ValidationError {
    fn clone(&self) -> (r: Self)
        ensures
            r@ == self@,
    {
        ValidationError {
            var_name: self.var_name.clone(),
            missing_from_all: self.missing_from_all,
            schema_var: self.schema_var.clone(),
        }
    }
}

/// The outcome of one validation.
pub struct ValidationResult {
    /// One error for each missing variable, in the order of the catalog.
    pub errors: Vec<ValidationError>,
    /// The entries that were validated against, by name.
    pub all_env_vars: StringHashMap<EnvFileEntry>,
    /// The catalog that was validated.
    pub all_schema_vars: Vec<EnvVar>,
}

/// What a `ValidationResult` stands for.
pub struct ResultModel {
    pub errors: Seq<ErrorModel>,
    pub all_env_vars: Map<Seq<char>, EntryModel>,
    pub all_schema_vars: Seq<VarModel>,
}

/// The entries of a map, each by what it stands for.
pub open spec fn entry_models(m: Map<Seq<char>, EnvFileEntry>) -> Map<Seq<char>, EntryModel> {
    Map::new(|k: Seq<char>| m.contains_key(k), |k: Seq<char>| m[k]@)
}

impl View for ValidationResult {
    type V = ResultModel;

    open spec fn view(&self) -> ResultModel {
        ResultModel {
            errors: self.errors.deep_view(),
            all_env_vars: entry_models(self.all_env_vars@),
            all_schema_vars: self.all_schema_vars.deep_view(),
        }
    }
}

/// A variable is missing when it is required and no entry carries its name.
pub open spec fn is_missing(v: VarModel, entries: Seq<EntryModel>) -> bool {
    !v.optional && !has_key(entries, v.name)
}

/// The error that reports `v` as missing.
pub open spec fn error_for(v: VarModel) -> ErrorModel {
    ErrorModel { var_name: v.name, missing_from_all: true, schema_var: v }
}

/// The errors of a validation: one for each missing variable, in the order
/// of the catalog.
pub open spec fn missing_errors(vars: Seq<VarModel>, entries: Seq<EntryModel>) -> Seq<ErrorModel>
    decreases vars.len(),
{
    if vars.len() == 0 {
        Seq::empty()
    } else {
        let before = missing_errors(vars.drop_last(), entries);
        if is_missing(vars.last(), entries) {
            before.push(error_for(vars.last()))
        } else {
            before
        }
    }
}

/// The entries by name. Where a name occurs more than once, the first
/// entry that carries it stands.
pub open spec fn entry_map(entries: Seq<EntryModel>) -> Map<Seq<char>, EntryModel>
    decreases entries.len(),
{
    if entries.len() == 0 {
        Map::empty()
    } else {
        let before = entry_map(entries.drop_last());
        if before.contains_key(entries.last().name) {
            before
        } else {
            before.insert(entries.last().name, entries.last())
        }
    }
}

/// What validating a catalog against a list of entries gives.
pub open spec fn validation(vars: Seq<VarModel>, entries: Seq<EntryModel>) -> ResultModel {
    ResultModel {
        errors: missing_errors(vars, entries),
        all_env_vars: entry_map(entries),
        all_schema_vars: vars,
    }
}

/// The names of the map are the names of the entries.
pub proof fn lemma_entry_map_names(entries: Seq<EntryModel>, name: Seq<char>)
    ensures
        entry_map(entries).contains_key(name) <==> has_key(entries, name),
        entry_map(entries).contains_key(name) ==> entry_map(entries)[name].name == name,
    decreases entries.len(),
{
    if entries.len() > 0 {
        let init = entries.drop_last();
        lemma_entry_map_names(init, name);
        assert(init.push(entries.last()) =~= entries);
        lemma_key_scan_push(init, entries.last(), 0, name);
        lemma_key_scan(init, 0, name);
    }
}

/// First seen wins: the map holds each name with the first entry that
/// carries it.
pub proof fn lemma_entry_map_holds_first(entries: Seq<EntryModel>, name: Seq<char>)
    requires
        has_key(entries, name),
    ensures
        entry_map(entries).contains_key(name),
        first_with(entries, name) == Some(entry_map(entries)[name]),
    decreases entries.len(),
{
    lemma_entry_map_names(entries, name);
    let init = entries.drop_last();
    let last = entries.last();
    assert(init.push(last) =~= entries);
    lemma_key_scan_push(init, last, 0, name);
    lemma_key_scan(init, 0, name);
    lemma_entry_map_names(init, name);
    lemma_entry_map_names(init, last.name);
    if has_key(init, name) {
        lemma_entry_map_holds_first(init, name);
        let k = key_scan(init, 0, name);
        assert(entries[k] == init[k]);
    } else {
        assert(entries[entries.len() - 1] == last);
    }
}

/// Validation prefers the first file: where the file that is validated
/// defines a name, the result holds that name with the entry of that
/// file, whatever the other files hold.
pub proof fn lemma_validation_prefers_first(
    vars: Seq<VarModel>,
    own: Seq<EntryModel>,
    others: Seq<EntryModel>,
    name: Seq<char>,
)
    requires
        has_key(own, name),
    ensures
        validation(vars, merged_entries(seq![own, others])).all_env_vars.contains_key(name),
        Some(validation(vars, merged_entries(seq![own, others])).all_env_vars[name])
            == first_with(own, name),
{
    let merged = merged_entries(seq![own, others]);
    lemma_merge_prefers_first(own, others, name);
    lemma_key_scan(merged, 0, name);
    lemma_entry_map_holds_first(merged, name);
}

/// A descriptor is reported as missing if and only if it is in the catalog,
/// is not optional, and no entry carries its name.
pub proof fn lemma_reported_iff_missing(vars: Seq<VarModel>, entries: Seq<EntryModel>, v: VarModel)
    ensures
        missing_errors(vars, entries).contains(error_for(v)) <==> (vars.contains(v) && is_missing(
            v,
            entries,
        )),
        forall|k: int|
            0 <= k < missing_errors(vars, entries).len() ==> exists|i: int|
                0 <= i < vars.len() && #[trigger] missing_errors(vars, entries)[k] == error_for(
                    vars[i],
                ) && is_missing(vars[i], entries),
    decreases vars.len(),
{
    let errors = missing_errors(vars, entries);
    if vars.len() > 0 {
        let init = vars.drop_last();
        let last = vars.last();
        let before = missing_errors(init, entries);
        lemma_reported_iff_missing(init, entries, v);
        assert(init.push(last) =~= vars);
        if vars.contains(v) {
            let i = choose|i: int| 0 <= i < vars.len() && vars[i] == v;
            if i < init.len() {
                assert(init[i] == v);
            }
        }
        if init.contains(v) {
            let i = choose|i: int| 0 <= i < init.len() && init[i] == v;
            assert(vars[i] == v);
        }
        if is_missing(last, entries) {
            assert(errors == before.push(error_for(last)));
            assert(errors[before.len() as int] == error_for(last));
            if before.contains(error_for(v)) {
                let k = choose|k: int| 0 <= k < before.len() && before[k] == error_for(v);
                assert(errors[k] == error_for(v));
            }
            if errors.contains(error_for(v)) {
                let k = choose|k: int| 0 <= k < errors.len() && errors[k] == error_for(v);
                if k < before.len() {
                    assert(before[k] == error_for(v));
                }
            }
        }
        assert forall|k: int| 0 <= k < errors.len() implies exists|i: int|
            0 <= i < vars.len() && #[trigger] errors[k] == error_for(vars[i]) && is_missing(
                vars[i],
                entries,
            ) by {
            if k < before.len() {
                let i = choose|i: int|
                    0 <= i < init.len() && before[k] == error_for(init[i]) && is_missing(
                        init[i],
                        entries,
                    );
                assert(vars[i] == init[i]);
            } else {
                assert(errors[k] == error_for(vars[vars.len() - 1]));
            }
        }
    }
}

/// Validates a catalog against the entries of the environment files.
///
/// Every variable of the catalog that is not optional and whose name no
/// entry carries gives one error, in the order of the catalog. Optional
/// variables are never reported. The result also holds the entries by
/// name, the first entry of each name, and the catalog itself.
pub fn validate(schema_vars: &[EnvVar], env_entries: &[EnvFileEntry]) -> (result: ValidationResult)
    ensures
        result@ == validation(schema_vars.deep_view(), env_entries.deep_view()),
{
    let ghost vars = schema_vars.deep_view();
    let ghost entries = env_entries.deep_view();
    let mut env_map: StringHashMap<EnvFileEntry> = StringHashMap::new();
    let mut i: usize = 0;
    assert(entries.take(0) =~= Seq::<EntryModel>::empty());
    assert(entry_models(env_map@) =~= entry_map(entries.take(0)));
    while i < env_entries.len()
        invariant
            i <= env_entries@.len(),
            entries == env_entries.deep_view(),
            entry_models(env_map@) == entry_map(entries.take(i as int)),
        decreases env_entries@.len() - i,
    {
        let ghost before = env_map@;
        assert(entries.take(i + 1).drop_last() =~= entries.take(i as int));
        assert(entries.take(i + 1).last() == entries[i as int]);
        assert(entry_models(before).contains_key(entries[i as int].name) == before.contains_key(
            entries[i as int].name,
        ));
        if !env_map.contains_key(env_entries[i].name.as_str()) {
            let entry = env_entries[i].clone();
            env_map.insert(entry.name.clone(), entry);
            assert(entry_models(env_map@) =~= entry_models(before).insert(
                entries[i as int].name,
                entries[i as int],
            ));
        }
        i += 1;
    }
    assert(entries.take(env_entries@.len() as int) =~= entries);

    let mut errors: Vec<ValidationError> = Vec::new();
    let mut j: usize = 0;
    assert(vars.take(0) =~= Seq::<VarModel>::empty());
    assert(errors.deep_view() =~= missing_errors(vars.take(0), entries));
    while j < schema_vars.len()
        invariant
            j <= schema_vars@.len(),
            vars == schema_vars.deep_view(),
            entry_models(env_map@) == entry_map(entries),
            errors.deep_view() == missing_errors(vars.take(j as int), entries),
        decreases schema_vars@.len() - j,
    {
        let schema_var = &schema_vars[j];
        let ghost before = errors.deep_view();
        assert(vars.take(j + 1).drop_last() =~= vars.take(j as int));
        assert(vars.take(j + 1).last() == schema_var@);
        proof {
            lemma_entry_map_names(entries, schema_var@.name);
            assert(entry_models(env_map@).contains_key(schema_var@.name) == env_map@.contains_key(
                schema_var@.name,
            ));
        }
        if !schema_var.optional && !env_map.contains_key(schema_var.name.as_str()) {
            errors.push(
                ValidationError {
                    var_name: schema_var.name.clone(),
                    missing_from_all: true,
                    schema_var: schema_var.clone(),
                },
            );
            assert(errors.deep_view() =~= before.push(error_for(schema_var@)));
        }
        j += 1;
    }
    assert(vars.take(schema_vars@.len() as int) =~= vars);
    ValidationResult { errors, all_env_vars: env_map, all_schema_vars: clone_vars(schema_vars) }
}

/// The group that a variable is shown under: its own, or `Other` where it names none.
pub open spec fn label_of(v: VarModel) -> Seq<char> {
    match v.group {
        Some(g) => g,
        None => "Other"@,
    }
}

/// `labels`, an ascending list, with `l` put in its place unless it is there already.
pub open spec fn insert_label(labels: Seq<Seq<char>>, l: Seq<char>) -> Seq<Seq<char>>
    decreases labels.len(),
{
    if labels.len() == 0 {
        seq![l]
    } else if lex_lt(l, labels.last()) {
        insert_label(labels.drop_last(), l).push(labels.last())
    } else if labels.last() == l {
        labels
    } else {
        labels.push(l)
    }
}

/// The labels of the variables, each once, in ascending order.
pub open spec fn sorted_labels(vars: Seq<VarModel>) -> Seq<Seq<char>>
    decreases vars.len(),
{
    if vars.len() == 0 {
        Seq::empty()
    } else {
        insert_label(sorted_labels(vars.drop_last()), label_of(vars.last()))
    }
}

/// The variables shown under `label`, in the order of the catalog.
pub open spec fn with_label(vars: Seq<VarModel>, label: Seq<char>) -> Seq<VarModel>
    decreases vars.len(),
{
    if vars.len() == 0 {
        Seq::empty()
    } else if label_of(vars.last()) == label {
        with_label(vars.drop_last(), label).push(vars.last())
    } else {
        with_label(vars.drop_last(), label)
    }
}

/// `vars`, a list ascending by name, with `v` put behind every variable
/// whose name does not come after its own.
pub open spec fn insert_by_name(vars: Seq<VarModel>, v: VarModel) -> Seq<VarModel>
    decreases vars.len(),
{
    if vars.len() > 0 && lex_lt(v.name, vars.last().name) {
        insert_by_name(vars.drop_last(), v).push(vars.last())
    } else {
        vars.push(v)
    }
}

/// The variables in ascending order of their names. Variables of one name
/// keep the order they had.
pub open spec fn sort_by_name(vars: Seq<VarModel>) -> Seq<VarModel>
    decreases vars.len(),
{
    if vars.len() == 0 {
        Seq::empty()
    } else {
        insert_by_name(sort_by_name(vars.drop_last()), vars.last())
    }
}

/// The catalog by groups: the labels in ascending order, each with its
/// variables in ascending order of their names.
pub open spec fn grouped(vars: Seq<VarModel>) -> Seq<(Seq<char>, Seq<VarModel>)> {
    let labels = sorted_labels(vars);
    Seq::new(labels.len(), |i: int| (labels[i], sort_by_name(with_label(vars, labels[i]))))
}

/// Putting a variable in its place adds it and nothing else.
pub proof fn lemma_insert_by_name_permutes(vars: Seq<VarModel>, v: VarModel)
    ensures
        insert_by_name(vars, v).to_multiset() == vars.to_multiset().insert(v),
        insert_by_name(vars, v).len() == vars.len() + 1,
    decreases vars.len(),
{
    broadcast use vstd::seq_lib::to_multiset_build;

    if vars.len() > 0 && lex_lt(v.name, vars.last().name) {
        let init = vars.drop_last();
        lemma_insert_by_name_permutes(init, v);
        assert(init.push(vars.last()) =~= vars);
        assert(insert_by_name(vars, v).to_multiset() =~= vars.to_multiset().insert(v));
    }
}

/// Sorting keeps every variable, as often as it occurs.
pub proof fn lemma_sort_permutes(vars: Seq<VarModel>)
    ensures
        sort_by_name(vars).to_multiset() == vars.to_multiset(),
        sort_by_name(vars).len() == vars.len(),
    decreases vars.len(),
{
    broadcast use vstd::seq_lib::to_multiset_build;

    if vars.len() > 0 {
        let init = vars.drop_last();
        lemma_sort_permutes(init);
        lemma_insert_by_name_permutes(sort_by_name(init), vars.last());
        assert(init.push(vars.last()) =~= vars);
    } else {
        assert(sort_by_name(vars) =~= vars);
    }
}

/// A sorted list holds a variable exactly when the list it was sorted from does.
pub proof fn lemma_sort_contains(vars: Seq<VarModel>, v: VarModel)
    ensures
        sort_by_name(vars).contains(v) <==> vars.contains(v),
{
    lemma_sort_permutes(vars);
    vstd::seq_lib::to_multiset_contains(vars, v);
    vstd::seq_lib::to_multiset_contains(sort_by_name(vars), v);
}

/// Whether no variable of the list comes before one that stands ahead of it.
pub open spec fn ascending_by_name(vars: Seq<VarModel>) -> bool {
    forall|i: int, j: int|
        0 <= i < j < vars.len() ==> !lex_lt((#[trigger] vars[j]).name, (#[trigger] vars[i]).name)
}

/// Putting a variable in its place keeps an ascending list ascending.
pub proof fn lemma_insert_by_name_ascending(vars: Seq<VarModel>, v: VarModel)
    requires
        ascending_by_name(vars),
    ensures
        ascending_by_name(insert_by_name(vars, v)),
        forall|i: int|
            0 <= i < insert_by_name(vars, v).len() ==> (#[trigger] insert_by_name(vars, v)[i]) == v
                || vars.contains(insert_by_name(vars, v)[i]),
    decreases vars.len(),
{
    let out = insert_by_name(vars, v);
    if vars.len() > 0 && lex_lt(v.name, vars.last().name) {
        let init = vars.drop_last();
        let last = vars.last();
        let inner = insert_by_name(init, v);
        assert forall|i: int, j: int| 0 <= i < j < init.len() implies !lex_lt(
            (#[trigger] init[j]).name,
            (#[trigger] init[i]).name,
        ) by {
            assert(init[i] == vars[i] && init[j] == vars[j]);
        }
        lemma_insert_by_name_ascending(init, v);
        assert forall|i: int| 0 <= i < out.len() implies (#[trigger] out[i]) == v || vars.contains(
            out[i],
        ) by {
            if i < inner.len() {
                assert(out[i] == inner[i]);
                if inner[i] != v {
                    let k = choose|k: int| 0 <= k < init.len() && init[k] == inner[i];
                    assert(vars[k] == inner[i]);
                }
            } else {
                assert(vars[vars.len() - 1] == out[i]);
            }
        }
        assert forall|i: int, j: int| 0 <= i < j < out.len() implies !lex_lt(
            (#[trigger] out[j]).name,
            (#[trigger] out[i]).name,
        ) by {
            if j < inner.len() {
                assert(out[i] == inner[i] && out[j] == inner[j]);
            } else {
                assert(out[j] == last);
                assert(out[i] == inner[i]);
                if inner[i] == v {
                    crate::text::lemma_lex_asymmetric(v.name, last.name, 0);
                } else {
                    let k = choose|k: int| 0 <= k < init.len() && init[k] == inner[i];
                    assert(vars[k] == inner[i]);
                    assert(vars[vars.len() - 1] == last);
                }
            }
        }
    } else {
        assert forall|i: int| 0 <= i < out.len() implies (#[trigger] out[i]) == v || vars.contains(
            out[i],
        ) by {
            if i < vars.len() {
                assert(vars[i] == out[i]);
            }
        }
        assert forall|i: int, j: int| 0 <= i < j < out.len() implies !lex_lt(
            (#[trigger] out[j]).name,
            (#[trigger] out[i]).name,
        ) by {
            if j < vars.len() {
                assert(out[i] == vars[i] && out[j] == vars[j]);
            } else {
                assert(out[j] == v);
                assert(out[i] == vars[i]);
                if vars.len() > 0 && i < vars.len() - 1 {
                    // v does not come before the last, which does not come before out[i]
                    let last = vars[vars.len() - 1];
                    assert(!lex_lt(last.name, vars[i].name));
                    if lex_lt(v.name, vars[i].name) {
                        crate::text::lemma_lex_total(last.name, vars[i].name, 0);
                        if last.name != vars[i].name {
                            crate::text::lemma_lex_transitive(v.name, vars[i].name, last.name, 0);
                        }
                    }
                }
            }
        }
    }
}

/// The variables of a sorted list ascend by name.
pub proof fn lemma_sort_ascending(vars: Seq<VarModel>)
    ensures
        ascending_by_name(sort_by_name(vars)),
    decreases vars.len(),
{
    if vars.len() > 0 {
        lemma_sort_ascending(vars.drop_last());
        lemma_insert_by_name_ascending(sort_by_name(vars.drop_last()), vars.last());
    }
}

/// The variables under a label are those of the catalog that carry it.
pub proof fn lemma_with_label_contains(vars: Seq<VarModel>, label: Seq<char>, v: VarModel)
    ensures
        with_label(vars, label).contains(v) <==> (vars.contains(v) && label_of(v) == label),
    decreases vars.len(),
{
    if vars.len() > 0 {
        let init = vars.drop_last();
        let last = vars.last();
        lemma_with_label_contains(init, label, v);
        let chosen = with_label(init, label);
        if vars.contains(v) {
            let i = choose|i: int| 0 <= i < vars.len() && vars[i] == v;
            if i < init.len() {
                assert(init[i] == v);
            }
        }
        if init.contains(v) {
            let i = choose|i: int| 0 <= i < init.len() && init[i] == v;
            assert(vars[i] == v);
        }
        if label_of(last) == label {
            let out = chosen.push(last);
            assert(out[chosen.len() as int] == last);
            if chosen.contains(v) {
                let i = choose|i: int| 0 <= i < chosen.len() && chosen[i] == v;
                assert(out[i] == v);
            }
            if out.contains(v) {
                let i = choose|i: int| 0 <= i < out.len() && out[i] == v;
                if i < chosen.len() {
                    assert(chosen[i] == v);
                }
            }
        }
        assert(vars[vars.len() - 1] == last);
    }
}

/// Whether every label comes strictly before those behind it.
pub open spec fn strictly_ascending(labels: Seq<Seq<char>>) -> bool {
    forall|i: int, j: int|
        0 <= i < j < labels.len() ==> lex_lt(#[trigger] labels[i], #[trigger] labels[j])
}

/// Putting a label in its place keeps the list strictly ascending, and adds
/// that label and no other.
pub proof fn lemma_insert_label(labels: Seq<Seq<char>>, l: Seq<char>)
    requires
        strictly_ascending(labels),
    ensures
        strictly_ascending(insert_label(labels, l)),
        forall|x: Seq<char>|
            #![trigger insert_label(labels, l).contains(x)]
            insert_label(labels, l).contains(x) <==> (labels.contains(x) || x == l),
    decreases labels.len(),
{
    let out = insert_label(labels, l);
    if labels.len() == 0 {
        assert(out[0] == l);
    } else if lex_lt(l, labels.last()) {
        let init = labels.drop_last();
        let last = labels.last();
        let inner = insert_label(init, l);
        assert forall|i: int, j: int| 0 <= i < j < init.len() implies lex_lt(
            #[trigger] init[i],
            #[trigger] init[j],
        ) by {
            assert(init[i] == labels[i] && init[j] == labels[j]);
        }
        lemma_insert_label(init, l);
        assert forall|x: Seq<char>| out.contains(x) <==> (labels.contains(x) || x == l) by {
            if out.contains(x) {
                let i = choose|i: int| 0 <= i < out.len() && out[i] == x;
                if i < inner.len() {
                    assert(inner[i] == x);
                    assert(inner.contains(x));
                    if init.contains(x) {
                        let k = choose|k: int| 0 <= k < init.len() && init[k] == x;
                        assert(labels[k] == x);
                    }
                } else {
                    assert(labels[labels.len() - 1] == x);
                }
            }
            if labels.contains(x) || x == l {
                if x == last {
                    assert(out[out.len() - 1] == x);
                } else {
                    if labels.contains(x) {
                        let k = choose|k: int| 0 <= k < labels.len() && labels[k] == x;
                        assert(init[k] == x);
                    }
                    assert(inner.contains(x));
                    let i = choose|i: int| 0 <= i < inner.len() && inner[i] == x;
                    assert(out[i] == x);
                }
            }
        }
        assert forall|i: int, j: int| 0 <= i < j < out.len() implies lex_lt(
            #[trigger] out[i],
            #[trigger] out[j],
        ) by {
            if j < inner.len() {
                assert(out[i] == inner[i] && out[j] == inner[j]);
            } else {
                assert(out[j] == last);
                assert(out[i] == inner[i]);
                assert(inner.contains(inner[i]));
                if inner[i] != l {
                    let k = choose|k: int| 0 <= k < init.len() && init[k] == inner[i];
                    assert(labels[k] == inner[i]);
                    assert(labels[labels.len() - 1] == last);
                }
            }
        }
    } else if labels.last() == l {
        assert(labels[labels.len() - 1] == l);
    } else {
        crate::text::lemma_lex_total(l, labels.last(), 0);
        assert forall|x: Seq<char>| out.contains(x) <==> (labels.contains(x) || x == l) by {
            if out.contains(x) {
                let i = choose|i: int| 0 <= i < out.len() && out[i] == x;
                if i < labels.len() {
                    assert(labels[i] == x);
                }
            }
            if labels.contains(x) {
                let k = choose|k: int| 0 <= k < labels.len() && labels[k] == x;
                assert(out[k] == x);
            }
            if x == l {
                assert(out[labels.len() as int] == x);
            }
        }
        assert forall|i: int, j: int| 0 <= i < j < out.len() implies lex_lt(
            #[trigger] out[i],
            #[trigger] out[j],
        ) by {
            if j < labels.len() {
                assert(out[i] == labels[i] && out[j] == labels[j]);
            } else {
                assert(out[j] == l);
                assert(out[i] == labels[i]);
                let last = labels[labels.len() - 1];
                if i < labels.len() - 1 {
                    assert(lex_lt(labels[i], last));
                    crate::text::lemma_lex_transitive(labels[i], last, l, 0);
                }
            }
        }
    }
}

/// The labels of a catalog ascend strictly, and they are the labels that
/// its variables carry.
pub proof fn lemma_sorted_labels(vars: Seq<VarModel>)
    ensures
        strictly_ascending(sorted_labels(vars)),
        forall|x: Seq<char>|
            #![trigger sorted_labels(vars).contains(x)]
            sorted_labels(vars).contains(x) <==> exists|i: int|
                0 <= i < vars.len() && label_of(#[trigger] vars[i]) == x,
    decreases vars.len(),
{
    if vars.len() > 0 {
        let init = vars.drop_last();
        lemma_sorted_labels(init);
        lemma_insert_label(sorted_labels(init), label_of(vars.last()));
        assert forall|x: Seq<char>|
            sorted_labels(vars).contains(x) <==> exists|i: int|
                0 <= i < vars.len() && label_of(#[trigger] vars[i]) == x by {
            if sorted_labels(init).contains(x) {
                let i = choose|i: int| 0 <= i < init.len() && label_of(#[trigger] init[i]) == x;
                assert(label_of(vars[i]) == x);
            }
            if x == label_of(vars.last()) {
                assert(label_of(vars[vars.len() - 1]) == x);
            }
            if exists|i: int| 0 <= i < vars.len() && label_of(#[trigger] vars[i]) == x {
                let i = choose|i: int| 0 <= i < vars.len() && label_of(#[trigger] vars[i]) == x;
                if i < init.len() {
                    assert(label_of(init[i]) == x);
                }
            }
        }
    }
}

/// Every variable of the catalog stands in the group of its label, and
/// every variable of a group is one of the catalog that carries the
/// group's label.
pub proof fn lemma_grouped_partitions(vars: Seq<VarModel>, v: VarModel)
    ensures
        vars.contains(v) ==> exists|k: int|
            0 <= k < grouped(vars).len() && (#[trigger] grouped(vars)[k]).0 == label_of(v)
                && grouped(vars)[k].1.contains(v),
        forall|k: int|
            0 <= k < grouped(vars).len() && (#[trigger] grouped(vars)[k]).1.contains(v) ==> vars.contains(
                v,
            ) && label_of(v) == grouped(vars)[k].0,
{
    let labels = sorted_labels(vars);
    lemma_sorted_labels(vars);
    if vars.contains(v) {
        let i = choose|i: int| 0 <= i < vars.len() && vars[i] == v;
        assert(label_of(vars[i]) == label_of(v));
        assert(labels.contains(label_of(v)));
        let k = choose|k: int| 0 <= k < labels.len() && labels[k] == label_of(v);
        lemma_with_label_contains(vars, labels[k], v);
        lemma_sort_contains(with_label(vars, labels[k]), v);
        assert(grouped(vars)[k].1.contains(v));
    }
    assert forall|k: int|
        0 <= k < grouped(vars).len() && (#[trigger] grouped(vars)[k]).1.contains(v) implies vars.contains(
        v,
    ) && label_of(v) == grouped(vars)[k].0 by {
        lemma_with_label_contains(vars, labels[k], v);
        lemma_sort_contains(with_label(vars, labels[k]), v);
    }
}

/// Sorting a list that ascends by name changes nothing.
pub proof fn lemma_sort_of_ascending(vars: Seq<VarModel>)
    requires
        ascending_by_name(vars),
    ensures
        sort_by_name(vars) == vars,
    decreases vars.len(),
{
    if vars.len() > 0 {
        let init = vars.drop_last();
        assert forall|i: int, j: int| 0 <= i < j < init.len() implies !lex_lt(
            (#[trigger] init[j]).name,
            (#[trigger] init[i]).name,
        ) by {
            assert(init[i] == vars[i] && init[j] == vars[j]);
        }
        lemma_sort_of_ascending(init);
        if init.len() > 0 {
            assert(init.last() == vars[vars.len() - 2]);
            assert(vars.last() == vars[vars.len() - 1]);
        }
        assert(init.push(vars.last()) =~= vars);
    } else {
        assert(sort_by_name(vars) =~= vars);
    }
}

/// The variables of all groups, laid end to end.
pub open spec fn ungrouped(groups: Seq<(Seq<char>, Seq<VarModel>)>) -> Seq<VarModel>
    decreases groups.len(),
{
    if groups.len() == 0 {
        Seq::empty()
    } else {
        ungrouped(groups.drop_last()) + groups.last().1
    }
}

/// The variables under a label, of two lists laid end to end.
pub proof fn lemma_with_label_concat(a: Seq<VarModel>, b: Seq<VarModel>, label: Seq<char>)
    ensures
        with_label(a + b, label) == with_label(a, label) + with_label(b, label),
    decreases b.len(),
{
    if b.len() == 0 {
        assert(a + b =~= a);
        assert(with_label(a, label) + with_label(b, label) =~= with_label(a, label));
    } else {
        lemma_with_label_concat(a, b.drop_last(), label);
        assert((a + b).drop_last() =~= a + b.drop_last());
        assert((a + b).last() == b.last());
        assert(with_label(a + b, label) =~= with_label(a, label) + with_label(b, label));
    }
}

/// A list whose variables all carry one label is what stands under that
/// label, and nothing of it stands under any other.
pub proof fn lemma_with_label_of_one(b: Seq<VarModel>, l: Seq<char>, label: Seq<char>)
    requires
        forall|i: int| 0 <= i < b.len() ==> label_of(#[trigger] b[i]) == l,
    ensures
        with_label(b, label) == if label == l {
            b
        } else {
            Seq::empty()
        },
    decreases b.len(),
{
    if b.len() > 0 {
        let init = b.drop_last();
        assert forall|i: int| 0 <= i < init.len() implies label_of(#[trigger] init[i]) == l by {
            assert(init[i] == b[i]);
        }
        lemma_with_label_of_one(init, l, label);
        assert(label_of(b[b.len() - 1]) == l);
        assert(init.push(b.last()) =~= b);
    } else {
        assert(with_label(b, label) =~= b);
    }
}

/// The labels of a list behind which variables of one greater label are
/// put: that label comes behind them, once.
pub proof fn lemma_sorted_labels_append(x: Seq<VarModel>, b: Seq<VarModel>, l: Seq<char>)
    requires
        b.len() > 0,
        forall|i: int| 0 <= i < b.len() ==> label_of(#[trigger] b[i]) == l,
        sorted_labels(x).len() > 0 ==> lex_lt(sorted_labels(x).last(), l),
    ensures
        sorted_labels(x + b) == sorted_labels(x).push(l),
    decreases b.len(),
{
    let init = b.drop_last();
    assert((x + b).drop_last() =~= x + init);
    assert((x + b).last() == b[b.len() - 1]);
    let before = sorted_labels(x);
    if init.len() == 0 {
        assert(x + init =~= x);
        if before.len() > 0 {
            crate::text::lemma_lex_asymmetric(before.last(), l, 0);
            crate::text::lemma_lex_irreflexive(l, 0);
        }
    } else {
        assert forall|i: int| 0 <= i < init.len() implies label_of(#[trigger] init[i]) == l by {
            assert(init[i] == b[i]);
        }
        lemma_sorted_labels_append(x, init, l);
        crate::text::lemma_lex_irreflexive(l, 0);
        assert(before.push(l).last() == l);
    }
}

/// Grouping is idempotent: the variables of the groups, laid end to end
/// and grouped again, fall into the same groups in the same order.
pub proof fn lemma_grouping_idempotent(vars: Seq<VarModel>)
    ensures
        grouped(ungrouped(grouped(vars))) == grouped(vars),
{
    let groups = grouped(vars);
    let labels = sorted_labels(vars);
    lemma_regrouped(vars, groups.len() as int);
    assert(groups.take(groups.len() as int) =~= groups);
    assert(labels.take(groups.len() as int) =~= labels);
    let flat = ungrouped(groups);
    assert forall|k: int| 0 <= k < groups.len() implies grouped(flat)[k] == groups[k] by {
        let bucket = with_label(vars, labels[k]);
        lemma_sort_ascending(bucket);
        lemma_sort_of_ascending(sort_by_name(bucket));
    }
    assert(grouped(flat) =~= groups);
}

/// The first `k` groups, laid end to end, have the first `k` labels, and
/// under each of these labels stands its group.
proof fn lemma_regrouped(vars: Seq<VarModel>, k: int)
    requires
        0 <= k <= grouped(vars).len(),
    ensures
        sorted_labels(ungrouped(grouped(vars).take(k))) == sorted_labels(vars).take(k),
        forall|j: int|
            0 <= j < k ==> with_label(
                ungrouped(grouped(vars).take(k)),
                #[trigger] sorted_labels(vars)[j],
            ) == grouped(vars)[j].1,
        forall|j: int|
            k <= j < grouped(vars).len() ==> with_label(
                ungrouped(grouped(vars).take(k)),
                #[trigger] sorted_labels(vars)[j],
            ) == Seq::<VarModel>::empty(),
    decreases k,
{
    let groups = grouped(vars);
    let labels = sorted_labels(vars);
    lemma_sorted_labels(vars);
    if k == 0 {
        assert(groups.take(0) =~= Seq::<(Seq<char>, Seq<VarModel>)>::empty());
        assert(labels.take(0) =~= Seq::<Seq<char>>::empty());
        assert(sorted_labels(ungrouped(groups.take(0))) =~= labels.take(0));
    } else {
        lemma_regrouped(vars, k - 1);
        let before = ungrouped(groups.take(k - 1));
        let l = labels[k - 1];
        let bucket = groups[k - 1].1;
        assert(groups.take(k).drop_last() =~= groups.take(k - 1));
        assert(groups.take(k).last() == groups[k - 1]);
        assert(ungrouped(groups.take(k)) == before + bucket);
        // the bucket is not empty, and all of it carries the label
        assert(labels.contains(l));
        let i = choose|i: int| 0 <= i < vars.len() && label_of(#[trigger] vars[i]) == l;
        assert(vars.contains(vars[i]));
        lemma_with_label_contains(vars, l, vars[i]);
        lemma_sort_permutes(with_label(vars, l));
        assert(with_label(vars, l).len() > 0);
        assert forall|i: int| 0 <= i < bucket.len() implies label_of(#[trigger] bucket[i]) == l by {
            assert(bucket.contains(bucket[i]));
            lemma_sort_contains(with_label(vars, l), bucket[i]);
            lemma_with_label_contains(vars, l, bucket[i]);
        }
        if k > 1 {
            assert(labels.take(k - 1).last() == labels[k - 2]);
        }
        lemma_sorted_labels_append(before, bucket, l);
        assert(labels.take(k - 1).push(l) =~= labels.take(k));
        assert forall|j: int| 0 <= j < groups.len() implies with_label(
            ungrouped(groups.take(k)),
            #[trigger] labels[j],
        ) == if j < k {
            groups[j].1
        } else {
            Seq::<VarModel>::empty()
        } by {
            lemma_with_label_concat(before, bucket, labels[j]);
            lemma_with_label_of_one(bucket, l, labels[j]);
            if j != k - 1 {
                if j < k - 1 {
                    crate::text::lemma_lex_irreflexive(l, 0);
                    assert(lex_lt(labels[j], labels[k - 1]));
                } else {
                    crate::text::lemma_lex_irreflexive(l, 0);
                    assert(lex_lt(labels[k - 1], labels[j]));
                }
                assert(with_label(before, labels[j]) + Seq::<VarModel>::empty() =~= with_label(
                    before,
                    labels[j],
                ));
            } else {
                assert(Seq::<VarModel>::empty() + bucket =~= bucket);
            }
        }
    }
}

/// How often a variable stands under a label: as often as in the
/// catalog where it carries the label, and else never.
proof fn lemma_with_label_count(vars: Seq<VarModel>, label: Seq<char>, v: VarModel)
    ensures
        with_label(vars, label).to_multiset().count(v) == if label_of(v) == label {
            vars.to_multiset().count(v)
        } else {
            0
        },
    decreases vars.len(),
{
    broadcast use vstd::seq_lib::to_multiset_build;

    if vars.len() > 0 {
        let init = vars.drop_last();
        let last = vars.last();
        lemma_with_label_count(init, label, v);
        assert(init.push(last) =~= vars);
        assert(vars.to_multiset().count(v) == init.to_multiset().count(v) + if last == v {
            1nat
        } else {
            0nat
        });
        if label_of(last) == label {
            let chosen = with_label(init, label);
            assert(chosen.push(last).to_multiset().count(v) == chosen.to_multiset().count(v)
                + if last == v {
                1nat
            } else {
                0nat
            });
        }
    } else {
        assert(with_label(vars, label) =~= vars);
        vstd::seq_lib::to_multiset_contains(vars, v);
    }
}

/// How often a variable stands in the first `k` groups: as often as in
/// the catalog where its label is among the first `k`, and else never.
proof fn lemma_ungrouped_count(vars: Seq<VarModel>, k: int, v: VarModel)
    requires
        0 <= k <= grouped(vars).len(),
    ensures
        ungrouped(grouped(vars).take(k)).to_multiset().count(v) == if sorted_labels(vars).take(
            k,
        ).contains(label_of(v)) {
            vars.to_multiset().count(v)
        } else {
            0
        },
    decreases k,
{
    let groups = grouped(vars);
    let labels = sorted_labels(vars);
    if k == 0 {
        assert(groups.take(0) =~= Seq::<(Seq<char>, Seq<VarModel>)>::empty());
        assert(ungrouped(groups.take(0)) =~= Seq::<VarModel>::empty());
        assert(labels.take(0) =~= Seq::<Seq<char>>::empty());
        vstd::seq_lib::to_multiset_contains(ungrouped(groups.take(0)), v);
    } else {
        lemma_ungrouped_count(vars, k - 1, v);
        lemma_sorted_labels(vars);
        let before = ungrouped(groups.take(k - 1));
        let l = labels[k - 1];
        let bucket = groups[k - 1].1;
        assert(groups.take(k).drop_last() =~= groups.take(k - 1));
        assert(groups.take(k).last() == groups[k - 1]);
        vstd::seq_lib::lemma_multiset_commutative(before, bucket);
        lemma_sort_permutes(with_label(vars, l));
        lemma_with_label_count(vars, l, v);
        let early = labels.take(k - 1);
        let now = labels.take(k);
        assert(now =~= early.push(l));
        assert(now[k - 1] == l);
        if early.contains(label_of(v)) {
            let j = choose|j: int| 0 <= j < early.len() && early[j] == label_of(v);
            assert(now[j] == label_of(v));
            assert(lex_lt(labels[j], labels[k - 1]));
            crate::text::lemma_lex_irreflexive(l, 0);
        }
        if now.contains(label_of(v)) && !early.contains(label_of(v)) {
            let j = choose|j: int| 0 <= j < now.len() && now[j] == label_of(v);
            if j < k - 1 {
                assert(early[j] == label_of(v));
            }
        }
    }
}

/// The groups hold the catalog: every variable stands in them as often
/// as in the catalog, and nothing else does.
pub proof fn lemma_grouping_permutes(vars: Seq<VarModel>)
    ensures
        ungrouped(grouped(vars)).to_multiset() == vars.to_multiset(),
{
    let groups = grouped(vars);
    let labels = sorted_labels(vars);
    lemma_sorted_labels(vars);
    assert(groups.take(groups.len() as int) =~= groups);
    assert(labels.take(groups.len() as int) =~= labels);
    assert forall|v: VarModel|
        ungrouped(groups).to_multiset().count(v) == vars.to_multiset().count(v) by {
        lemma_ungrouped_count(vars, groups.len() as int, v);
        vstd::seq_lib::to_multiset_contains(vars, v);
        if vars.contains(v) {
            let i = choose|i: int| 0 <= i < vars.len() && vars[i] == v;
            assert(label_of(vars[i]) == label_of(v));
        }
    }
    assert(ungrouped(groups).to_multiset() =~= vars.to_multiset());
}

/// Whether the names of the list ascend strictly.
pub open spec fn strictly_by_name(vars: Seq<VarModel>) -> bool {
    forall|i: int, j: int|
        0 <= i < j < vars.len() ==> lex_lt((#[trigger] vars[i]).name, (#[trigger] vars[j]).name)
}

/// Putting a variable of a new name in its place keeps a strictly
/// ascending list strictly ascending.
proof fn lemma_insert_by_name_strict(vars: Seq<VarModel>, v: VarModel)
    requires
        strictly_by_name(vars),
        forall|i: int| 0 <= i < vars.len() ==> (#[trigger] vars[i]).name != v.name,
    ensures
        strictly_by_name(insert_by_name(vars, v)),
        forall|x: VarModel|
            #![trigger insert_by_name(vars, v).contains(x)]
            insert_by_name(vars, v).contains(x) <==> (vars.contains(x) || x == v),
    decreases vars.len(),
{
    let out = insert_by_name(vars, v);
    lemma_insert_by_name_permutes(vars, v);
    assert forall|x: VarModel| #![trigger out.contains(x)] out.contains(x) <==> (vars.contains(x) || x == v) by {
        vstd::seq_lib::to_multiset_contains(out, x);
        vstd::seq_lib::to_multiset_contains(vars, x);
    }
    if vars.len() > 0 && lex_lt(v.name, vars.last().name) {
        let init = vars.drop_last();
        let last = vars.last();
        let inner = insert_by_name(init, v);
        assert forall|i: int, j: int| 0 <= i < j < init.len() implies lex_lt(
            (#[trigger] init[i]).name,
            (#[trigger] init[j]).name,
        ) by {
            assert(init[i] == vars[i] && init[j] == vars[j]);
        }
        assert forall|i: int| 0 <= i < init.len() implies (#[trigger] init[i]).name != v.name by {
            assert(init[i] == vars[i]);
        }
        lemma_insert_by_name_strict(init, v);
        assert forall|i: int, j: int| 0 <= i < j < out.len() implies lex_lt(
            (#[trigger] out[i]).name,
            (#[trigger] out[j]).name,
        ) by {
            if j < inner.len() {
                assert(out[i] == inner[i] && out[j] == inner[j]);
            } else {
                assert(out[j] == last);
                assert(out[i] == inner[i]);
                assert(inner.contains(inner[i]));
                if inner[i] != v {
                    let k = choose|k: int| 0 <= k < init.len() && init[k] == inner[i];
                    assert(vars[k] == inner[i]);
                    assert(vars[vars.len() - 1] == last);
                }
            }
        }
    } else {
        assert forall|i: int, j: int| 0 <= i < j < out.len() implies lex_lt(
            (#[trigger] out[i]).name,
            (#[trigger] out[j]).name,
        ) by {
            if j < vars.len() {
                assert(out[i] == vars[i] && out[j] == vars[j]);
            } else {
                assert(out[j] == v);
                assert(out[i] == vars[i]);
                let last = vars[vars.len() - 1];
                assert(last == vars.last());
                crate::text::lemma_lex_total(last.name, v.name, 0);
                if i < vars.len() - 1 {
                    assert(lex_lt(vars[i].name, last.name));
                    crate::text::lemma_lex_transitive(vars[i].name, last.name, v.name, 0);
                }
            }
        }
    }
}

/// Variables of distinct names, sorted, ascend strictly.
proof fn lemma_sort_strict(vars: Seq<VarModel>)
    requires
        distinct_keys(vars),
    ensures
        strictly_by_name(sort_by_name(vars)),
    decreases vars.len(),
{
    if vars.len() > 0 {
        let init = vars.drop_last();
        let last = vars.last();
        assert forall|i: int, j: int| 0 <= i < j < init.len() implies (#[trigger] init[i]).name != (
        #[trigger] init[j]).name by {
            assert(init[i] == vars[i] && init[j] == vars[j]);
        }
        lemma_sort_strict(init);
        let sorted = sort_by_name(init);
        assert forall|i: int| 0 <= i < sorted.len() implies (#[trigger] sorted[i]).name
            != last.name by {
            assert(sorted.contains(sorted[i]));
            lemma_sort_contains(init, sorted[i]);
            let k = choose|k: int| 0 <= k < init.len() && init[k] == sorted[i];
            assert(vars[k] == init[k]);
            assert(vars[vars.len() - 1] == last);
        }
        lemma_insert_by_name_strict(sorted, last);
    }
}

/// The variables under a label, taken from variables of distinct names,
/// have distinct names.
proof fn lemma_with_label_distinct(vars: Seq<VarModel>, label: Seq<char>)
    requires
        distinct_keys(vars),
    ensures
        distinct_keys(with_label(vars, label)),
    decreases vars.len(),
{
    if vars.len() > 0 {
        let init = vars.drop_last();
        let last = vars.last();
        assert forall|i: int, j: int| 0 <= i < j < init.len() implies (#[trigger] init[i]).name != (
        #[trigger] init[j]).name by {
            assert(init[i] == vars[i] && init[j] == vars[j]);
        }
        lemma_with_label_distinct(init, label);
        let chosen = with_label(init, label);
        let out = with_label(vars, label);
        if label_of(last) == label {
            assert forall|i: int, j: int| 0 <= i < j < out.len() implies (#[trigger] out[i]).name != (
            #[trigger] out[j]).name by {
                if j < chosen.len() {
                    assert(out[i] == chosen[i] && out[j] == chosen[j]);
                } else {
                    assert(out[j] == last);
                    assert(out[i] == chosen[i]);
                    assert(chosen.contains(chosen[i]));
                    lemma_with_label_contains(init, label, chosen[i]);
                    let k = choose|k: int| 0 <= k < init.len() && init[k] == chosen[i];
                    assert(vars[k] == init[k]);
                    assert(vars[vars.len() - 1] == last);
                }
            }
        }
    }
}

/// Two lists whose names ascend strictly and which hold the same
/// variables are one list.
proof fn lemma_strict_by_name_unique(x: Seq<VarModel>, y: Seq<VarModel>)
    requires
        strictly_by_name(x),
        strictly_by_name(y),
        forall|v: VarModel| x.contains(v) <==> y.contains(v),
    ensures
        x == y,
    decreases x.len(),
{
    if x.len() == 0 {
        if y.len() > 0 {
            assert(y.contains(y[0]));
        }
        assert(x =~= y);
    } else {
        let xl = x[x.len() - 1];
        assert(x.contains(xl));
        let k = choose|k: int| 0 <= k < y.len() && y[k] == xl;
        let yl = y[y.len() - 1];
        assert(y.contains(yl));
        let m = choose|m: int| 0 <= m < x.len() && x[m] == yl;
        if k < y.len() - 1 && m < x.len() - 1 {
            crate::text::lemma_lex_asymmetric(xl.name, yl.name, 0);
        }
        if k < y.len() - 1 {
            crate::text::lemma_lex_irreflexive(xl.name, 0);
        }
        if m < x.len() - 1 {
            crate::text::lemma_lex_irreflexive(yl.name, 0);
        }
        assert(xl == yl);
        let xi = x.drop_last();
        let yi = y.drop_last();
        assert forall|i: int, j: int| 0 <= i < j < xi.len() implies lex_lt(
            (#[trigger] xi[i]).name,
            (#[trigger] xi[j]).name,
        ) by {
            assert(xi[i] == x[i] && xi[j] == x[j]);
        }
        assert forall|i: int, j: int| 0 <= i < j < yi.len() implies lex_lt(
            (#[trigger] yi[i]).name,
            (#[trigger] yi[j]).name,
        ) by {
            assert(yi[i] == y[i] && yi[j] == y[j]);
        }
        assert forall|v: VarModel| xi.contains(v) <==> yi.contains(v) by {
            crate::text::lemma_lex_irreflexive(xl.name, 0);
            if xi.contains(v) {
                let i = choose|i: int| 0 <= i < xi.len() && xi[i] == v;
                assert(x[i] == v);
                assert(x.contains(v));
                let j = choose|j: int| 0 <= j < y.len() && y[j] == v;
                assert(lex_lt(x[i].name, xl.name));
                assert(yi[j] == v);
            }
            if yi.contains(v) {
                let i = choose|i: int| 0 <= i < yi.len() && yi[i] == v;
                assert(y[i] == v);
                assert(y.contains(v));
                let j = choose|j: int| 0 <= j < x.len() && x[j] == v;
                assert(lex_lt(y[i].name, yl.name));
                assert(xi[j] == v);
            }
        }
        lemma_strict_by_name_unique(xi, yi);
        assert(xi.push(xl) =~= x);
        assert(yi.push(yl) =~= y);
    }
}

/// Two strictly ascending lists that hold the same labels are one list.
proof fn lemma_strictly_ascending_unique(x: Seq<Seq<char>>, y: Seq<Seq<char>>)
    requires
        strictly_ascending(x),
        strictly_ascending(y),
        forall|l: Seq<char>| x.contains(l) <==> y.contains(l),
    ensures
        x == y,
    decreases x.len(),
{
    if x.len() == 0 {
        if y.len() > 0 {
            assert(y.contains(y[0]));
        }
        assert(x =~= y);
    } else {
        let xl = x[x.len() - 1];
        assert(x.contains(xl));
        let k = choose|k: int| 0 <= k < y.len() && y[k] == xl;
        let yl = y[y.len() - 1];
        assert(y.contains(yl));
        let m = choose|m: int| 0 <= m < x.len() && x[m] == yl;
        if k < y.len() - 1 && m < x.len() - 1 {
            crate::text::lemma_lex_asymmetric(xl, yl, 0);
        }
        if k < y.len() - 1 {
            crate::text::lemma_lex_irreflexive(xl, 0);
        }
        if m < x.len() - 1 {
            crate::text::lemma_lex_irreflexive(yl, 0);
        }
        assert(xl == yl);
        let xi = x.drop_last();
        let yi = y.drop_last();
        assert forall|i: int, j: int| 0 <= i < j < xi.len() implies lex_lt(
            #[trigger] xi[i],
            #[trigger] xi[j],
        ) by {
            assert(xi[i] == x[i] && xi[j] == x[j]);
        }
        assert forall|i: int, j: int| 0 <= i < j < yi.len() implies lex_lt(
            #[trigger] yi[i],
            #[trigger] yi[j],
        ) by {
            assert(yi[i] == y[i] && yi[j] == y[j]);
        }
        assert forall|l: Seq<char>| xi.contains(l) <==> yi.contains(l) by {
            crate::text::lemma_lex_irreflexive(xl, 0);
            if xi.contains(l) {
                let i = choose|i: int| 0 <= i < xi.len() && xi[i] == l;
                assert(x[i] == l);
                assert(x.contains(l));
                let j = choose|j: int| 0 <= j < y.len() && y[j] == l;
                assert(lex_lt(x[i], xl));
                assert(yi[j] == l);
            }
            if yi.contains(l) {
                let i = choose|i: int| 0 <= i < yi.len() && yi[i] == l;
                assert(y[i] == l);
                assert(y.contains(l));
                let j = choose|j: int| 0 <= j < x.len() && x[j] == l;
                assert(lex_lt(y[i], yl));
                assert(xi[j] == l);
            }
        }
        lemma_strictly_ascending_unique(xi, yi);
        assert(xi.push(xl) =~= x);
        assert(yi.push(yl) =~= y);
    }
}

/// A list that holds the variables of a list of distinct names, each as
/// often, has distinct names too.
proof fn lemma_permutation_distinct(a: Seq<VarModel>, b: Seq<VarModel>)
    requires
        a.to_multiset() == b.to_multiset(),
        distinct_keys(a),
    ensures
        distinct_keys(b),
        forall|v: VarModel| a.contains(v) <==> b.contains(v),
{
    assert forall|v: VarModel| a.contains(v) <==> b.contains(v) by {
        vstd::seq_lib::to_multiset_contains(a, v);
        vstd::seq_lib::to_multiset_contains(b, v);
    }
    assert(a.no_duplicates()) by {
        assert forall|i: int, j: int|
            0 <= i < a.len() && 0 <= j < a.len() && i != j implies a[i] != a[j] by {
            if i < j {
                assert(a[i].name != a[j].name);
            } else {
                assert(a[j].name != a[i].name);
            }
        }
    }
    a.lemma_multiset_has_no_duplicates();
    b.lemma_multiset_has_no_duplicates_conv();
    assert forall|i: int, j: int| 0 <= i < j < b.len() implies (#[trigger] b[i]).name != (
    #[trigger] b[j]).name by {
        assert(b[i] != b[j]);
        assert(b.contains(b[i]) && b.contains(b[j]));
        let p = choose|p: int| 0 <= p < a.len() && a[p] == b[i];
        let q = choose|q: int| 0 <= q < a.len() && a[q] == b[j];
        if p < q {
            assert(a[p].name != a[q].name);
        } else {
            assert(a[q].name != a[p].name);
        }
    }
}

/// The order of the catalog makes no difference to its groups: a catalog
/// of distinct names and any reordering of it fall into the same groups,
/// in the same order, with the same variables in the same order.
pub proof fn lemma_grouping_ignores_order(a: Seq<VarModel>, b: Seq<VarModel>)
    requires
        a.to_multiset() == b.to_multiset(),
        distinct_keys(a),
    ensures
        grouped(a) == grouped(b),
{
    lemma_permutation_distinct(a, b);
    lemma_sorted_labels(a);
    lemma_sorted_labels(b);
    let la = sorted_labels(a);
    let lb = sorted_labels(b);
    assert forall|l: Seq<char>| la.contains(l) <==> lb.contains(l) by {
        if la.contains(l) {
            let i = choose|i: int| 0 <= i < a.len() && label_of(#[trigger] a[i]) == l;
            assert(a.contains(a[i]));
            let j = choose|j: int| 0 <= j < b.len() && b[j] == a[i];
            assert(label_of(b[j]) == l);
        }
        if lb.contains(l) {
            let i = choose|i: int| 0 <= i < b.len() && label_of(#[trigger] b[i]) == l;
            assert(b.contains(b[i]));
            let j = choose|j: int| 0 <= j < a.len() && a[j] == b[i];
            assert(label_of(a[j]) == l);
        }
    }
    lemma_strictly_ascending_unique(la, lb);
    assert forall|k: int| 0 <= k < la.len() implies grouped(a)[k] == grouped(b)[k] by {
        let l = la[k];
        let x = sort_by_name(with_label(a, l));
        let y = sort_by_name(with_label(b, l));
        lemma_with_label_distinct(a, l);
        lemma_with_label_distinct(b, l);
        lemma_sort_strict(with_label(a, l));
        lemma_sort_strict(with_label(b, l));
        assert forall|v: VarModel| x.contains(v) <==> y.contains(v) by {
            lemma_sort_contains(with_label(a, l), v);
            lemma_sort_contains(with_label(b, l), v);
            lemma_with_label_contains(a, l, v);
            lemma_with_label_contains(b, l, v);
        }
        lemma_strict_by_name_unique(x, y);
    }
    assert(grouped(a) =~= grouped(b));
}

/// Whether `a` comes strictly before `b`: see `lex_lt`.
pub fn str_less(a: &str, b: &str) -> (r: bool)
    ensures
        r == lex_lt(a@, b@),
{
    let x = chars_of(a);
    let y = chars_of(b);
    lex_less(x.as_slice(), y.as_slice())
}

fn label_text(v: &EnvVar) -> (l: String)
    ensures
        l@ == label_of(v@),
{
    match &v.group {
        Some(g) => g.clone(),
        None => String::from_str("Other"),
    }
}

fn add_label(labels: &mut Vec<String>, l: String)
    ensures
        final(labels).deep_view() == insert_label(old(labels).deep_view(), l@),
{
    let ghost all = labels.deep_view();
    let mut p: usize = labels.len();
    assert(all.take(p as int) =~= all);
    assert(insert_label(all, l@) =~= insert_label(all.take(p as int), l@) + all.skip(p as int));
    while p > 0 && str_less(l.as_str(), labels[p - 1].as_str())
        invariant
            p <= labels@.len(),
            all == labels.deep_view(),
            labels == old(labels),
            insert_label(all, l@) == insert_label(all.take(p as int), l@) + all.skip(p as int),
        decreases p,
    {
        assert(all.take(p as int).drop_last() =~= all.take(p - 1));
        assert(all.take(p as int).last() == all[p - 1]);
        assert(insert_label(all.take(p - 1), l@).push(all[p - 1]) + all.skip(p as int)
            =~= insert_label(all.take(p - 1), l@) + all.skip(p - 1));
        p -= 1;
    }
    if p > 0 {
        assert(all.take(p as int).last() == all[p - 1]);
    }
    if p > 0 && labels[p - 1] == l {
        assert(all.take(p as int) + all.skip(p as int) =~= all);
    } else {
        labels.insert(p, l);
        assert(labels.deep_view() =~= all.take(p as int).push(l@) + all.skip(p as int));
    }
}

fn add_by_name(bucket: &mut Vec<EnvVar>, v: EnvVar)
    ensures
        final(bucket).deep_view() == insert_by_name(old(bucket).deep_view(), v@),
{
    let ghost all = bucket.deep_view();
    let mut p: usize = bucket.len();
    assert(all.take(p as int) =~= all);
    assert(insert_by_name(all, v@) =~= insert_by_name(all.take(p as int), v@) + all.skip(p as int));
    while p > 0 && str_less(v.name.as_str(), bucket[p - 1].name.as_str())
        invariant
            p <= bucket@.len(),
            all == bucket.deep_view(),
            bucket == old(bucket),
            insert_by_name(all, v@) == insert_by_name(all.take(p as int), v@) + all.skip(p as int),
        decreases p,
    {
        assert(all.take(p as int).drop_last() =~= all.take(p - 1));
        assert(all.take(p as int).last() == all[p - 1]);
        assert(insert_by_name(all.take(p - 1), v@).push(all[p - 1]) + all.skip(p as int)
            =~= insert_by_name(all.take(p - 1), v@) + all.skip(p - 1));
        p -= 1;
    }
    if p > 0 {
        assert(all.take(p as int).last() == all[p - 1]);
    }
    bucket.insert(p, v);
    assert(bucket.deep_view() =~= all.take(p as int).push(v@) + all.skip(p as int));
}

/// Groups a catalog for display.
///
/// Every variable goes under the label of its group, and under `Other`
/// where it names none. The groups come in ascending order of their
/// labels, `Other` among them like any other label, and the variables of a
/// group in ascending order of their names.
pub fn group_variables(vars: &[EnvVar]) -> (groups: Vec<(String, Vec<EnvVar>)>)
    ensures
        groups.deep_view() == grouped(vars.deep_view()),
{
    let ghost all = vars.deep_view();
    let mut labels: Vec<String> = Vec::new();
    let mut i: usize = 0;
    assert(all.take(0) =~= Seq::<VarModel>::empty());
    assert(labels.deep_view() =~= sorted_labels(all.take(0)));
    while i < vars.len()
        invariant
            i <= vars@.len(),
            all == vars.deep_view(),
            labels.deep_view() == sorted_labels(all.take(i as int)),
        decreases vars@.len() - i,
    {
        assert(all.take(i + 1).drop_last() =~= all.take(i as int));
        assert(all.take(i + 1).last() == vars@[i as int]@);
        add_label(&mut labels, label_text(&vars[i]));
        i += 1;
    }
    assert(all.take(vars@.len() as int) =~= all);

    let mut groups: Vec<(String, Vec<EnvVar>)> = Vec::new();
    let mut g: usize = 0;
    while g < labels.len()
        invariant
            g <= labels@.len(),
            all == vars.deep_view(),
            labels.deep_view() == sorted_labels(all),
            groups@.len() == g,
            forall|k: int|
                0 <= k < g ==> (#[trigger] groups@[k]).0@ == labels@[k]@ && groups@[k].1.deep_view()
                    == sort_by_name(with_label(all, labels@[k]@)),
        decreases labels@.len() - g,
    {
        let label = labels[g].clone();
        let mut bucket: Vec<EnvVar> = Vec::new();
        let mut j: usize = 0;
        assert(with_label(all.take(0), label@) =~= Seq::<VarModel>::empty());
        assert(bucket.deep_view() =~= sort_by_name(with_label(all.take(0), label@)));
        while j < vars.len()
            invariant
                j <= vars@.len(),
                all == vars.deep_view(),
                bucket.deep_view() == sort_by_name(with_label(all.take(j as int), label@)),
            decreases vars@.len() - j,
        {
            assert(all.take(j + 1).drop_last() =~= all.take(j as int));
            assert(all.take(j + 1).last() == vars@[j as int]@);
            let l = label_text(&vars[j]);
            if l == label {
                let ghost chosen = with_label(all.take(j as int), label@);
                assert(chosen.push(vars@[j as int]@).drop_last() =~= chosen);
                add_by_name(&mut bucket, vars[j].clone());
            }
            j += 1;
        }
        assert(all.take(vars@.len() as int) =~= all);
        groups.push((label, bucket));
        g += 1;
    }
    assert(groups.deep_view() =~= grouped(all)) by {
        assert(labels.deep_view().len() == labels@.len());
        assert forall|k: int| 0 <= k < groups@.len() implies groups.deep_view()[k] == grouped(
            all,
        )[k] by {
            assert(labels.deep_view()[k] == labels@[k]@);
            assert(groups@[k].0@ == labels@[k]@);
        }
    }
    groups
}

} // verus!
