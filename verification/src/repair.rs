//! Why the rendered fragment repairs a file: appended to an environment
//! file, it declares every variable that was missing.

use crate::code_actions::{comment_line, entries_text, entry_text, env_text, fragment_blocks};
use crate::env_file::{
    assignment, concat_all, entries_of_lines, env_entries, ident_len, is_identifier, is_line,
    is_skipped, lemma_split_lines_concat, lemma_split_one_line, line_entry, merged_entries,
    split_lines, strip_export,
};
use crate::keyed::{
    has_key, lemma_first_of_each_lookup, lemma_first_with_concat, lemma_key_scan,
    lemma_key_scan_push,
};
use crate::text::{
    is_ident_char, is_space, lemma_scan, lemma_scan_back, lemma_scan_unique, matches_at, scan,
    scan_back, trim, trim_start, Class,
};
use crate::types::{EntryModel, VarModel};
use crate::validation::{
    error_for, grouped, label_of, lemma_grouped_partitions, lemma_reported_iff_missing,
    lemma_sort_permutes, lemma_sorted_labels, lemma_with_label_contains, missing_errors,
    sorted_labels, with_label, ErrorModel,
};
use vstd::prelude::*;

verus! {

/// Whether `line` stands in `text` from index `p` as a whole line: it holds
/// no line feed, a line feed or the start of the text comes before it, and
/// a line feed or the end of the text behind it.
pub open spec fn line_at(text: Seq<char>, p: int, line: Seq<char>) -> bool {
    &&& 0 <= p
    &&& p + line.len() <= text.len()
    &&& text.subrange(p, p + line.len()) == line
    &&& forall|k: int| 0 <= k < line.len() ==> line[k] != '\n'
    &&& p == 0 || text[p - 1] == '\n'
    &&& p + line.len() == text.len() || text[p + line.len()] == '\n'
}

/// A whole line of a text is one of the lines it splits into.
pub proof fn lemma_line_at_is_split(text: Seq<char>, p: int, line: Seq<char>)
    requires
        line_at(text, p, line),
    ensures
        split_lines(text).contains(line),
    decreases text.len(),
{
    let class = Class::Except('\n', '\n');
    let i = scan(text, 0, class);
    lemma_scan(text, 0, class);
    if p == 0 {
        assert forall|k: int| 0 <= k < line.len() implies class.has(#[trigger] text[k]) by {
            assert(text.subrange(0, line.len() as int)[k] == line[k]);
        }
        lemma_scan_unique(text, 0, line.len() as int, class);
        if i < text.len() {
            assert(text.take(i) =~= line);
            assert(split_lines(text)[0] == line);
        } else {
            assert(text =~= line);
            assert(split_lines(text)[0] == line);
        }
    } else {
        assert(!class.has(text[p - 1]));
        assert(i <= p - 1);
        let rest = text.skip(i + 1);
        let q = p - i - 1;
        assert(rest.subrange(q, q + line.len()) =~= text.subrange(p, p + line.len()));
        assert(line_at(rest, q, line));
        lemma_line_at_is_split(rest, q, line);
        let k = choose|k: int| 0 <= k < split_lines(rest).len() && split_lines(rest)[k] == line;
        assert(split_lines(text)[k + 1] == line);
    }
}

/// A line that declares a name gives the file an entry of that name.
pub proof fn lemma_line_gives_entry(lines: Seq<Seq<char>>, path: Seq<char>, line: Seq<char>)
    requires
        lines.contains(line),
        line_entry(line) is Some,
    ensures
        has_key(entries_of_lines(lines, path), line_entry(line).unwrap().0),
    decreases lines.len(),
{
    let name = line_entry(line).unwrap().0;
    if lines.len() > 0 {
        let init = lines.drop_last();
        let before = entries_of_lines(init, path);
        let k = choose|k: int| 0 <= k < lines.len() && lines[k] == line;
        if k < init.len() {
            assert(init[k] == line);
            lemma_line_gives_entry(init, path, line);
        }
        match line_entry(lines.last()) {
            Some((n, value)) => {
                let e = EntryModel { name: n, value, line: lines.len() - 1, file_path: path };
                lemma_key_scan_push(before, e, 0, name);
                lemma_key_scan(before, 0, name);
            },
            None => {},
        }
    }
}

/// No identifier character is white space, a line feed, `=` or `#`.
pub proof fn lemma_ident_chars(c: char)
    requires
        is_ident_char(c),
    ensures
        !is_space(c),
        c != '\n',
        c != '=',
        c != '#',
{
}

/// A line that consists of an identifier, `=` and any text declares that
/// identifier.
pub proof fn lemma_assignment_line(name: Seq<char>, rest: Seq<char>)
    requires
        is_identifier(name),
    ensures
        line_entry(name + seq!['='] + rest) is Some,
        line_entry(name + seq!['='] + rest).unwrap().0 == name,
{
    reveal_strlit("export");
    let line = name + seq!['='] + rest;
    let n = name.len() as int;
    lemma_scan(name, 0, Class::Ident);
    assert forall|k: int| 0 <= k < n implies is_ident_char(#[trigger] line[k]) by {
        assert(line[k] == name[k]);
        assert(Class::Ident.has(name[k]));
    }
    assert(line[0] == name[0]);
    assert(line[n] == '=');
    lemma_ident_chars(line[0]);
    // nothing is cut off at the start
    assert(scan(line, 0, Class::Space) == 0);
    assert(trim_start(line) =~= line);
    // what is cut off at the end lies behind the `=`
    let e = scan_back(line, line.len() as int, Class::Space);
    lemma_scan_back(line, line.len() as int, Class::Space);
    if e <= n {
        assert(Class::Space.has(line[n]));
    }
    let t = trim(line);
    assert(t =~= line.take(e));
    assert(t[0] == line[0]);
    assert(t[n] == '=');
    assert(!is_skipped(t));
    // no `export` keyword is taken off
    let kw = "export"@;
    if matches_at(t, 0, kw) && kw.len() < t.len() && is_space(t[kw.len() as int]) {
        assert(t.subrange(0, 6) == kw);
        if n < 6 {
            assert(t.subrange(0, 6)[n] == t[n]);
        } else if n > 6 {
            assert(t[6] == line[6]);
            lemma_ident_chars(line[6]);
        }
    }
    assert(strip_export(t) == t);
    // the name is the identifier the line begins with
    assert forall|k: int| 0 <= k < n implies Class::Ident.has(#[trigger] t[k]) by {
        assert(t[k] == line[k]);
    }
    lemma_scan_unique(t, 0, n, Class::Ident);
    assert(ident_len(t) == n);
    assert(scan(t, n, Class::Space) == n);
    assert(t.take(n) =~= name);
    assert(assignment(t) is Some);
}

/// Whether `line` stands in `text` from index `p` with a line feed on
/// either side, holding none itself.
pub open spec fn inner_line(text: Seq<char>, p: int, line: Seq<char>) -> bool {
    &&& 1 <= p
    &&& p + line.len() < text.len()
    &&& text[p - 1] == '\n'
    &&& text[p + line.len()] == '\n'
    &&& text.subrange(p, p + line.len()) == line
    &&& forall|k: int| 0 <= k < line.len() ==> line[k] != '\n'
}

/// `s` up to its first line feed.
pub open spec fn first_line(s: Seq<char>) -> Seq<char> {
    s.take(scan(s, 0, Class::Except('\n', '\n')))
}

/// The default value as it is written, nothing where there is none.
pub open spec fn written_value(v: VarModel) -> Seq<char> {
    match v.default {
        Some(d) => d,
        None => Seq::empty(),
    }
}

/// The line by which the rendered text declares a required variable.
pub open spec fn declared_line(v: VarModel) -> Seq<char> {
    v.name + seq!['='] + first_line(written_value(v))
}

/// Whether `s` ends with a line feed.
pub open spec fn ends_with_feed(s: Seq<char>) -> bool {
    s.len() > 0 && s.last() == '\n'
}

/// A line between line feeds stays one when text is put around it.
pub proof fn lemma_inner_line_embeds(
    a: Seq<char>,
    x: Seq<char>,
    b: Seq<char>,
    p: int,
    line: Seq<char>,
)
    requires
        inner_line(x, p, line),
    ensures
        inner_line(a + x + b, a.len() + p, line),
{
    let text = a + x + b;
    let q = a.len() + p;
    assert(text[q - 1] == x[p - 1]);
    assert(text[q + line.len()] == x[p + line.len()]);
    assert(text.subrange(q, q + line.len()) =~= x.subrange(p, p + line.len()));
}

/// The lines of a required variable, put behind a line feed, hold the line
/// that declares it.
pub proof fn lemma_entry_declares(h: Seq<char>, v: VarModel) -> (q: int)
    requires
        ends_with_feed(h),
        !v.optional,
        is_identifier(v.name),
    ensures
        inner_line(h + entry_text(v), q, declared_line(v)),
        q >= h.len(),
        ends_with_feed(h + entry_text(v)),
{
    let description = match v.description {
        Some(d) => comment_line(d),
        None => Seq::empty(),
    };
    let value = written_value(v);
    let class = Class::Except('\n', '\n');
    let i = scan(value, 0, class);
    lemma_scan(value, 0, class);
    let line = declared_line(v);
    let text = h + entry_text(v);
    let q: int = h.len() as int + description.len();
    let n = v.name.len() as int;
    assert(entry_text(v) =~= description + v.name + seq!['='] + value + seq!['\n']);
    lemma_scan(v.name, 0, Class::Ident);
    assert forall|k: int| 0 <= k < line.len() implies line[k] != '\n' by {
        if k < n {
            assert(line[k] == v.name[k]);
            assert(Class::Ident.has(v.name[k]));
            lemma_ident_chars(v.name[k]);
        } else if k > n {
            assert(line[k] == value[k - n - 1]);
            assert(class.has(value[k - n - 1]));
        }
    }
    assert(text.subrange(q, q + line.len()) =~= line);
    if description.len() > 0 {
        assert(text[q - 1] == description.last());
    } else {
        assert(text[q - 1] == h.last());
    }
    if i < value.len() {
        assert(text[q + line.len()] == value[i]);
    } else {
        assert(text[q + line.len()] == '\n');
    }
    assert(text.last() == '\n');
    q
}

/// The lines of any variable end with a line feed.
pub proof fn lemma_entries_end(h: Seq<char>, vars: Seq<VarModel>)
    requires
        ends_with_feed(h),
    ensures
        ends_with_feed(h + entries_text(vars)),
    decreases vars.len(),
{
    if vars.len() > 0 {
        lemma_entries_end(h, vars.drop_last());
        let text = h + entries_text(vars);
        assert(text.last() == entry_text(vars.last()).last());
    } else {
        assert(h + entries_text(vars) =~= h);
    }
}

/// The lines of several variables, put behind a line feed, hold the line
/// that declares each required one among them.
pub proof fn lemma_entries_declare(h: Seq<char>, vars: Seq<VarModel>, v: VarModel) -> (q: int)
    requires
        ends_with_feed(h),
        vars.contains(v),
        !v.optional,
        is_identifier(v.name),
    ensures
        inner_line(h + entries_text(vars), q, declared_line(v)),
        q >= h.len(),
    decreases vars.len(),
{
    let init = vars.drop_last();
    let last = vars.last();
    if last == v {
        lemma_entries_end(h, init);
        let q = lemma_entry_declares(h + entries_text(init), v);
        assert(h + entries_text(init) + entry_text(v) =~= h + entries_text(vars));
        q
    } else {
        let i = choose|i: int| 0 <= i < vars.len() && vars[i] == v;
        assert(init[i] == v);
        let q = lemma_entries_declare(h, init, v);
        lemma_inner_line_embeds(Seq::empty(), h + entries_text(init), entry_text(last), q, declared_line(v));
        assert(Seq::<char>::empty() + (h + entries_text(init)) + entry_text(last) =~= h
            + entries_text(vars));
        q
    }
}

/// The groups one after the other hold the line that declares each
/// required variable of each group.
pub proof fn lemma_blocks_declare(groups: Seq<(Seq<char>, Seq<VarModel>)>, k: int, v: VarModel) -> (q:
    int)
    requires
        0 <= k < groups.len(),
        groups[k].1.contains(v),
        !v.optional,
        is_identifier(v.name),
    ensures
        inner_line(fragment_blocks(groups), q, declared_line(v)),
    decreases groups.len(),
{
    let init = groups.drop_last();
    let last = groups.last();
    if k == groups.len() - 1 {
        let h = seq!['\n'];
        assert(h.last() == '\n');
        let p = lemma_entries_declare(h, last.1, v);
        lemma_inner_line_embeds(
            fragment_blocks(init),
            h + entries_text(last.1),
            Seq::empty(),
            p,
            declared_line(v),
        );
        assert(fragment_blocks(init) + (h + entries_text(last.1)) + Seq::<char>::empty()
            =~= fragment_blocks(groups));
        fragment_blocks(init).len() + p
    } else {
        assert(init[k] == groups[k]);
        let q = lemma_blocks_declare(init, k, v);
        lemma_inner_line_embeds(
            Seq::empty(),
            fragment_blocks(init),
            seq!['\n'] + entries_text(last.1),
            q,
            declared_line(v),
        );
        assert(Seq::<char>::empty() + fragment_blocks(init) + (seq!['\n'] + entries_text(last.1))
            =~= fragment_blocks(groups));
        q
    }
}

/// The variables that the errors of a validation report.
pub open spec fn reported_vars(errors: Seq<ErrorModel>) -> Seq<VarModel> {
    Seq::new(errors.len(), |i: int| errors[i].schema_var)
}

/// Whether a text is empty or ends with a line feed, so that what is
/// appended to it begins a line.
pub open spec fn ends_a_line(content: Seq<char>) -> bool {
    content.len() == 0 || content.last() == '\n'
}

/// Appending the fragment to a file whose last line is ended makes the
/// file declare every required variable that the fragment was rendered
/// for, provided the variable's name is an identifier.
pub proof fn lemma_appended_fragment_declares(
    content: Seq<char>,
    path: Seq<char>,
    vars: Seq<VarModel>,
    v: VarModel,
)
    requires
        vars.contains(v),
        !v.optional,
        is_identifier(v.name),
        ends_a_line(content),
    ensures
        has_key(env_entries(content + env_text(vars), path), v.name),
{
    lemma_grouped_partitions(vars, v);
    let groups = grouped(vars);
    let k = choose|k: int|
        0 <= k < groups.len() && (#[trigger] groups[k]).0 == label_of(v) && groups[k].1.contains(v);
    let p = lemma_blocks_declare(groups, k, v);
    let raw = fragment_blocks(groups);
    let line = declared_line(v);
    let text = content + env_text(vars);
    let at = content.len() + p - 1;
    assert(text.subrange(at, at + line.len()) =~= raw.subrange(p, p + line.len()));
    assert(text[at + line.len()] == raw[p + line.len()]);
    if p >= 2 {
        assert(text[at - 1] == raw[p - 1]);
    } else if content.len() > 0 {
        assert(text[at - 1] == content.last());
    }
    assert(line_at(text, at, line));
    lemma_line_at_is_split(text, at, line);
    lemma_assignment_line(v.name, first_line(written_value(v)));
    lemma_line_gives_entry(split_lines(text), path, line);
}

/// The fragment repairs the file. Take the variables that a validation
/// reports as missing, render the fragment for them, append it to an
/// environment file whose last line is ended and read that file again:
/// validated against the entries read, merged with those of any other
/// files, none of those variables is reported any more. This holds of
/// every reported variable whose name is an identifier; a line that
/// begins with any other name is not read as an assignment. Behind a
/// last line that is not ended, the first line of the fragment would
/// continue that line.
pub proof fn lemma_fragment_repairs(
    catalog: Seq<VarModel>,
    entries: Seq<EntryModel>,
    content: Seq<char>,
    path: Seq<char>,
    others: Seq<Seq<EntryModel>>,
    v: VarModel,
)
    requires
        missing_errors(catalog, entries).contains(error_for(v)),
        is_identifier(v.name),
        ends_a_line(content),
    ensures
        ({
            let fragment = env_text(reported_vars(missing_errors(catalog, entries)));
            let reread = env_entries(content + fragment, path);
            let merged = merged_entries(seq![reread] + others);
            &&& has_key(reread, v.name)
            &&& has_key(merged, v.name)
            &&& !missing_errors(catalog, merged).contains(error_for(v))
        }),
{
    let errors = missing_errors(catalog, entries);
    let vars = reported_vars(errors);
    lemma_reported_iff_missing(catalog, entries, v);
    let k = choose|k: int| 0 <= k < errors.len() && errors[k] == error_for(v);
    assert(vars[k] == v);
    lemma_appended_fragment_declares(content, path, vars, v);
    let reread = env_entries(content + env_text(vars), path);
    let lists = seq![reread] + others;
    lemma_concat_all_first(reread, others);
    lemma_first_with_concat(reread, concat_all(others), v.name);
    lemma_first_of_each_lookup(concat_all(lists), v.name);
    let merged = merged_entries(lists);
    lemma_reported_iff_missing(catalog, merged, v);
}

/// Laying lists end to end begins with the first list.
pub proof fn lemma_concat_all_first(first: Seq<EntryModel>, others: Seq<Seq<EntryModel>>)
    ensures
        concat_all(seq![first] + others) == first + concat_all(others),
    decreases others.len(),
{
    let lists = seq![first] + others;
    if others.len() == 0 {
        assert(lists =~= seq![first]);
        assert(lists.drop_last() =~= Seq::<Seq<EntryModel>>::empty());
        assert(lists.last() == first);
        assert(concat_all(lists.drop_last()) =~= Seq::<EntryModel>::empty());
        assert(concat_all(others) =~= Seq::<EntryModel>::empty());
        assert(concat_all(lists) =~= first + concat_all(others));
    } else {
        lemma_concat_all_first(first, others.drop_last());
        assert(lists.drop_last() =~= seq![first] + others.drop_last());
        assert(lists.last() == others.last());
        assert(concat_all(lists) =~= first + concat_all(others));
    }
}

/// The lines, each with a line feed behind it.
pub open spec fn feed_lines(lines: Seq<Seq<char>>) -> Seq<char>
    decreases lines.len(),
{
    if lines.len() == 0 {
        Seq::empty()
    } else {
        feed_lines(lines.drop_last()) + lines.last() + seq!['\n']
    }
}

/// The line that assigns a variable, commented out where the variable is
/// optional.
pub open spec fn assignment_line(v: VarModel) -> Seq<char> {
    (if v.optional {
        seq!['#']
    } else {
        Seq::empty()
    }) + v.name + seq!['='] + written_value(v)
}

/// The lines that one variable is written as.
pub open spec fn entry_lines(v: VarModel) -> Seq<Seq<char>> {
    (match v.description {
        Some(d) => seq![seq!['#', ' '] + d],
        None => Seq::empty(),
    }) + seq![assignment_line(v)]
}

/// The lines that several variables are written as.
pub open spec fn entries_lines(vars: Seq<VarModel>) -> Seq<Seq<char>>
    decreases vars.len(),
{
    if vars.len() == 0 {
        Seq::empty()
    } else {
        entries_lines(vars.drop_last()) + entry_lines(vars.last())
    }
}

/// The lines of the groups, an empty line before each group.
pub open spec fn fragment_lines(groups: Seq<(Seq<char>, Seq<VarModel>)>) -> Seq<Seq<char>>
    decreases groups.len(),
{
    if groups.len() == 0 {
        Seq::empty()
    } else {
        fragment_lines(groups.drop_last()) + seq![Seq::<char>::empty()] + entries_lines(
            groups.last().1,
        )
    }
}

/// Whether a variable is written on lines of its own: its name is an
/// identifier, and neither its description nor its default value holds a
/// line feed.
pub open spec fn is_plain(v: VarModel) -> bool {
    &&& is_identifier(v.name)
    &&& v.description matches Some(d) ==> is_line(d)
    &&& is_line(written_value(v))
}

/// Whether some line declares `name`.
pub open spec fn some_line_declares(lines: Seq<Seq<char>>, name: Seq<char>) -> bool {
    exists|k: int|
        0 <= k < lines.len() && line_entry(#[trigger] lines[k]) is Some && line_entry(
            lines[k],
        ).unwrap().0 == name
}

/// Whether some required variable is called `name`.
pub open spec fn some_required(vars: Seq<VarModel>, name: Seq<char>) -> bool {
    exists|i: int| 0 <= i < vars.len() && !(#[trigger] vars[i]).optional && vars[i].name == name
}

/// Lines laid end to end, each with its line feed.
proof fn lemma_feed_concat(a: Seq<Seq<char>>, b: Seq<Seq<char>>)
    ensures
        feed_lines(a + b) == feed_lines(a) + feed_lines(b),
    decreases b.len(),
{
    if b.len() == 0 {
        assert(a + b =~= a);
        assert(feed_lines(a) + feed_lines(b) =~= feed_lines(a));
    } else {
        lemma_feed_concat(a, b.drop_last());
        assert((a + b).drop_last() =~= a + b.drop_last());
        assert((a + b).last() == b.last());
        assert(feed_lines(a + b) =~= feed_lines(a) + feed_lines(b));
    }
}

/// One line with its line feed.
proof fn lemma_feed_one(line: Seq<char>)
    ensures
        feed_lines(seq![line]) == line + seq!['\n'],
{
    assert(seq![line].drop_last() =~= Seq::<Seq<char>>::empty());
    assert(feed_lines(seq![line].drop_last()) =~= Seq::<char>::empty());
    assert(seq![line].last() == line);
    assert(feed_lines(seq![line]) =~= line + seq!['\n']);
}

/// The text of several variables is their lines, each with its line feed.
proof fn lemma_entries_text_is_lines(vars: Seq<VarModel>)
    ensures
        entries_text(vars) == feed_lines(entries_lines(vars)),
    decreases vars.len(),
{
    if vars.len() > 0 {
        let v = vars.last();
        lemma_entries_text_is_lines(vars.drop_last());
        lemma_feed_concat(entries_lines(vars.drop_last()), entry_lines(v));
        lemma_feed_one(assignment_line(v));
        match v.description {
            Some(d) => {
                lemma_feed_one(seq!['#', ' '] + d);
                lemma_feed_concat(seq![seq!['#', ' '] + d], seq![assignment_line(v)]);
                assert(entry_text(v) =~= feed_lines(entry_lines(v)));
            },
            None => {
                assert(entry_lines(v) =~= seq![assignment_line(v)]);
                assert(entry_text(v) =~= feed_lines(entry_lines(v)));
            },
        }
    }
}

/// The text of the groups is their lines, each with its line feed.
proof fn lemma_fragment_is_lines(groups: Seq<(Seq<char>, Seq<VarModel>)>)
    ensures
        fragment_blocks(groups) == feed_lines(fragment_lines(groups)),
        groups.len() > 0 ==> fragment_lines(groups).len() > 0 && fragment_lines(groups)[0]
            == Seq::<char>::empty(),
    decreases groups.len(),
{
    if groups.len() > 0 {
        let init = groups.drop_last();
        let last = groups.last();
        lemma_fragment_is_lines(init);
        lemma_entries_text_is_lines(last.1);
        lemma_feed_one(Seq::empty());
        lemma_feed_concat(fragment_lines(init), seq![Seq::<char>::empty()]);
        lemma_feed_concat(fragment_lines(init) + seq![Seq::<char>::empty()], entries_lines(last.1));
        assert(fragment_blocks(groups) =~= feed_lines(fragment_lines(groups)));
        if init.len() == 0 {
            assert(fragment_lines(init) =~= Seq::<Seq<char>>::empty());
            assert(fragment_lines(groups)[0] == Seq::<char>::empty());
        } else {
            assert(fragment_lines(groups)[0] == fragment_lines(init)[0]);
        }
    }
}

/// Lines that hold no line feed, each with its line feed, split into
/// these lines and an empty piece at the end.
proof fn lemma_split_of_feed(lines: Seq<Seq<char>>)
    requires
        forall|k: int| 0 <= k < lines.len() ==> is_line(#[trigger] lines[k]),
    ensures
        split_lines(feed_lines(lines)) == lines.push(Seq::empty()),
    decreases lines.len(),
{
    if lines.len() == 0 {
        lemma_split_one_line(Seq::empty());
        assert(feed_lines(lines) =~= Seq::<char>::empty());
        assert(lines.push(Seq::empty()) =~= seq![Seq::<char>::empty()]);
    } else {
        let first = lines[0];
        let rest = lines.skip(1);
        assert(seq![first] + rest =~= lines);
        lemma_feed_concat(seq![first], rest);
        lemma_feed_one(first);
        assert forall|k: int| 0 <= k < rest.len() implies is_line(#[trigger] rest[k]) by {
            assert(rest[k] == lines[k + 1]);
        }
        lemma_split_of_feed(rest);
        lemma_split_lines_concat(first, feed_lines(rest));
        lemma_split_one_line(first);
        assert(seq![first] + rest.push(Seq::empty()) =~= lines.push(Seq::empty()));
    }
}

/// An entry is read only from a line that declares its name.
proof fn lemma_entry_comes_from_line(lines: Seq<Seq<char>>, path: Seq<char>, name: Seq<char>)
    requires
        has_key(entries_of_lines(lines, path), name),
    ensures
        some_line_declares(lines, name),
    decreases lines.len(),
{
    if lines.len() > 0 {
        let init = lines.drop_last();
        let before = entries_of_lines(init, path);
        lemma_key_scan(before, 0, name);
        match line_entry(lines.last()) {
            Some((n, value)) => {
                let e = EntryModel { name: n, value, line: lines.len() - 1, file_path: path };
                lemma_key_scan_push(before, e, 0, name);
            },
            None => {},
        }
        if has_key(before, name) {
            lemma_entry_comes_from_line(init, path, name);
            let k = choose|k: int|
                0 <= k < init.len() && line_entry(#[trigger] init[k]) is Some && line_entry(
                    init[k],
                ).unwrap().0 == name;
            assert(lines[k] == init[k]);
        } else {
            assert(lines[lines.len() - 1] == lines.last());
        }
    }
}

/// A line that begins with `#` declares nothing.
proof fn lemma_comment_declares_nothing(line: Seq<char>)
    requires
        line.len() > 0,
        line[0] == '#',
    ensures
        line_entry(line) is None,
{
    assert(scan(line, 0, Class::Space) == 0);
    assert(trim_start(line) =~= line);
    lemma_scan_back(line, line.len() as int, Class::Space);
    let e = scan_back(line, line.len() as int, Class::Space);
    if e == 0 {
        assert(Class::Space.has(line[0]));
    }
    assert(trim(line)[0] == line[0]);
}

/// The lines of a plain variable hold no line feed, and declare no name
/// but that of the variable, and that only where it is required.
proof fn lemma_entry_lines(v: VarModel, name: Seq<char>)
    requires
        is_plain(v),
    ensures
        forall|k: int| 0 <= k < entry_lines(v).len() ==> is_line(#[trigger] entry_lines(v)[k]),
        some_line_declares(entry_lines(v), name) ==> !v.optional && v.name == name,
{
    let line = assignment_line(v);
    let n = v.name.len() as int;
    lemma_scan(v.name, 0, Class::Ident);
    assert(is_line(line)) by {
        assert forall|k: int| 0 <= k < line.len() implies #[trigger] line[k] != '\n' by {
            let m: int = if v.optional {
                1
            } else {
                0
            };
            if m <= k < m + n {
                assert(line[k] == v.name[k - m]);
                assert(Class::Ident.has(v.name[k - m]));
                lemma_ident_chars(v.name[k - m]);
            } else if k > m + n {
                assert(line[k] == written_value(v)[k - m - n - 1]);
            }
        }
    }
    if v.optional {
        lemma_comment_declares_nothing(line);
    } else {
        assert(line =~= v.name + seq!['='] + written_value(v));
        lemma_assignment_line(v.name, written_value(v));
    }
    match v.description {
        Some(d) => {
            let c = seq!['#', ' '] + d;
            lemma_comment_declares_nothing(c);
            assert(is_line(c)) by {
                assert forall|k: int| 0 <= k < c.len() implies #[trigger] c[k] != '\n' by {
                    if k >= 2 {
                        assert(c[k] == d[k - 2]);
                    }
                }
            }
            assert(entry_lines(v)[0] == c);
            assert(entry_lines(v)[1] == line);
        },
        None => {
            assert(entry_lines(v)[0] == line);
        },
    }
}

/// The lines of plain variables hold no line feed, and declare no name
/// but those of the required variables among them.
proof fn lemma_entries_lines(vars: Seq<VarModel>, name: Seq<char>)
    requires
        forall|i: int| 0 <= i < vars.len() ==> is_plain(#[trigger] vars[i]),
    ensures
        forall|k: int| 0 <= k < entries_lines(vars).len() ==> is_line(#[trigger] entries_lines(vars)[k]),
        some_line_declares(entries_lines(vars), name) ==> some_required(vars, name),
    decreases vars.len(),
{
    if vars.len() > 0 {
        let init = vars.drop_last();
        let last = vars.last();
        assert(last == vars[vars.len() - 1]);
        assert forall|i: int| 0 <= i < init.len() implies is_plain(#[trigger] init[i]) by {
            assert(init[i] == vars[i]);
        }
        lemma_entries_lines(init, name);
        lemma_entry_lines(last, name);
        let a = entries_lines(init);
        let b = entry_lines(last);
        let all = entries_lines(vars);
        assert forall|k: int| 0 <= k < all.len() implies is_line(#[trigger] all[k]) by {
            if k < a.len() {
                assert(all[k] == a[k]);
            } else {
                assert(all[k] == b[k - a.len()]);
            }
        }
        if some_line_declares(all, name) {
            let k = choose|k: int|
                0 <= k < all.len() && line_entry(#[trigger] all[k]) is Some && line_entry(
                    all[k],
                ).unwrap().0 == name;
            if k < a.len() {
                assert(all[k] == a[k]);
                assert(some_line_declares(a, name));
                let i = choose|i: int|
                    0 <= i < init.len() && !(#[trigger] init[i]).optional && init[i].name == name;
                assert(vars[i] == init[i]);
            } else {
                assert(all[k] == b[k - a.len()]);
                assert(some_line_declares(b, name));
            }
        }
    }
}

/// The lines of groups of plain variables hold no line feed, and declare
/// no name but those of the required variables of the groups.
proof fn lemma_fragment_lines(groups: Seq<(Seq<char>, Seq<VarModel>)>, name: Seq<char>)
    requires
        forall|g: int, i: int|
            0 <= g < groups.len() && 0 <= i < groups[g].1.len() ==> is_plain(
                #[trigger] groups[g].1[i],
            ),
    ensures
        forall|k: int|
            0 <= k < fragment_lines(groups).len() ==> is_line(#[trigger] fragment_lines(groups)[k]),
        some_line_declares(fragment_lines(groups), name) ==> exists|g: int|
            0 <= g < groups.len() && some_required((#[trigger] groups[g]).1, name),
    decreases groups.len(),
{
    if groups.len() > 0 {
        let init = groups.drop_last();
        let last = groups.last();
        assert(last == groups[groups.len() - 1]);
        assert forall|g: int, i: int|
            0 <= g < init.len() && 0 <= i < init[g].1.len() implies is_plain(
            #[trigger] init[g].1[i],
        ) by {
            assert(init[g] == groups[g]);
        }
        assert forall|i: int| 0 <= i < last.1.len() implies is_plain(#[trigger] last.1[i]) by {
            assert(is_plain(groups[groups.len() - 1].1[i]));
        }
        lemma_fragment_lines(init, name);
        lemma_entries_lines(last.1, name);
        lemma_split_one_line(Seq::empty());
        let a = fragment_lines(init);
        let b = entries_lines(last.1);
        let all = fragment_lines(groups);
        assert forall|k: int| 0 <= k < all.len() implies is_line(#[trigger] all[k]) by {
            if k < a.len() {
                assert(all[k] == a[k]);
            } else if k > a.len() {
                assert(all[k] == b[k - a.len() - 1]);
            }
        }
        if some_line_declares(all, name) {
            let k = choose|k: int|
                0 <= k < all.len() && line_entry(#[trigger] all[k]) is Some && line_entry(
                    all[k],
                ).unwrap().0 == name;
            if k < a.len() {
                assert(all[k] == a[k]);
                assert(some_line_declares(a, name));
                let g = choose|g: int|
                    0 <= g < init.len() && some_required((#[trigger] init[g]).1, name);
                assert(groups[g] == init[g]);
            } else if k == a.len() {
                lemma_empty_declares_nothing();
            } else {
                assert(all[k] == b[k - a.len() - 1]);
                assert(some_line_declares(b, name));
                assert(some_required(groups[groups.len() - 1].1, name));
            }
        }
    }
}

/// An empty line declares nothing.
proof fn lemma_empty_declares_nothing()
    ensures
        line_entry(Seq::empty()) is None,
{
    let line = Seq::<char>::empty();
    assert(trim_start(line) =~= line);
    assert(trim(line) =~= line);
}

/// What is read back from the fragment. Written for variables whose
/// names are identifiers and whose descriptions and default values hold
/// no line feed, the fragment declares the required ones among them and
/// no other name: comments, empty lines and the commented lines of
/// optional variables give no entry.
pub proof fn lemma_fragment_reads_back(vars: Seq<VarModel>, path: Seq<char>, name: Seq<char>)
    requires
        forall|i: int| 0 <= i < vars.len() ==> is_plain(#[trigger] vars[i]),
    ensures
        has_key(env_entries(env_text(vars), path), name) <==> some_required(vars, name),
{
    let groups = grouped(vars);
    let text = env_text(vars);
    if some_required(vars, name) {
        let i = choose|i: int|
            0 <= i < vars.len() && !(#[trigger] vars[i]).optional && vars[i].name == name;
        lemma_appended_fragment_declares(Seq::empty(), path, vars, vars[i]);
        assert(Seq::<char>::empty() + text =~= text);
    }
    if has_key(env_entries(text, path), name) {
        assert forall|g: int, i: int|
            0 <= g < groups.len() && 0 <= i < groups[g].1.len() implies is_plain(
            #[trigger] groups[g].1[i],
        ) by {
            let v = groups[g].1[i];
            lemma_grouped_partitions(vars, v);
            assert(groups[g].1.contains(v));
            let j = choose|j: int| 0 <= j < vars.len() && vars[j] == v;
            assert(is_plain(vars[j]));
        }
        lemma_fragment_lines(groups, name);
        lemma_fragment_is_lines(groups);
        let all = fragment_lines(groups);
        if groups.len() > 0 {
            let lines = all.skip(1);
            assert(seq![Seq::<char>::empty()] + lines =~= all);
            lemma_feed_concat(seq![Seq::<char>::empty()], lines);
            lemma_feed_one(Seq::empty());
            assert(fragment_blocks(groups).skip(1) =~= feed_lines(lines));
            assert forall|k: int| 0 <= k < lines.len() implies is_line(#[trigger] lines[k]) by {
                assert(lines[k] == all[k + 1]);
            }
            lemma_split_of_feed(lines);
            let read = lines.push(Seq::empty());
            lemma_entry_comes_from_line(read, path, name);
            let k = choose|k: int|
                0 <= k < read.len() && line_entry(#[trigger] read[k]) is Some && line_entry(
                    read[k],
                ).unwrap().0 == name;
            lemma_empty_declares_nothing();
            assert(k < lines.len());
            assert(all[k + 1] == read[k]);
            assert(some_line_declares(all, name));
            let g = choose|g: int|
                0 <= g < groups.len() && some_required((#[trigger] groups[g]).1, name);
            let i = choose|i: int|
                0 <= i < groups[g].1.len() && !(#[trigger] groups[g].1[i]).optional
                    && groups[g].1[i].name == name;
            let v = groups[g].1[i];
            lemma_grouped_partitions(vars, v);
            assert(groups[g].1.contains(v));
            let j = choose|j: int| 0 <= j < vars.len() && vars[j] == v;
            assert(!vars[j].optional && vars[j].name == name);
        } else {
            assert(fragment_blocks(groups) =~= Seq::<char>::empty());
            lemma_split_one_line(Seq::empty());
            lemma_entry_comes_from_line(seq![Seq::<char>::empty()], path, name);
            lemma_empty_declares_nothing();
        }
    }
}

/// Lines that begin with a line that is not empty, each with its line
/// feed, begin with the first character of that line.
proof fn lemma_feed_head(lines: Seq<Seq<char>>)
    requires
        lines.len() > 0,
        lines[0].len() > 0,
    ensures
        feed_lines(lines).len() > 0,
        feed_lines(lines)[0] == lines[0][0],
{
    assert(seq![lines[0]] + lines.skip(1) =~= lines);
    lemma_feed_concat(seq![lines[0]], lines.skip(1));
    lemma_feed_one(lines[0]);
}

/// The lines of several variables begin with the first line of the first.
proof fn lemma_entries_lines_head(vars: Seq<VarModel>)
    requires
        vars.len() > 0,
    ensures
        entries_lines(vars).len() > 0,
        entries_lines(vars)[0] == entry_lines(vars[0])[0],
    decreases vars.len(),
{
    if vars.len() > 1 {
        lemma_entries_lines_head(vars.drop_last());
        assert(vars.drop_last()[0] == vars[0]);
    } else {
        assert(entries_lines(vars.drop_last()) =~= Seq::<Seq<char>>::empty());
        assert(vars.last() == vars[0]);
    }
}

/// The lines of the groups begin with an empty line and the first line of
/// the first variable of the first group.
proof fn lemma_fragment_lines_head(groups: Seq<(Seq<char>, Seq<VarModel>)>)
    requires
        groups.len() > 0,
        groups[0].1.len() > 0,
    ensures
        fragment_lines(groups).len() >= 2,
        fragment_lines(groups)[1] == entry_lines(groups[0].1[0])[0],
    decreases groups.len(),
{
    if groups.len() > 1 {
        lemma_fragment_lines_head(groups.drop_last());
        assert(groups.drop_last()[0] == groups[0]);
    } else {
        assert(fragment_lines(groups.drop_last()) =~= Seq::<Seq<char>>::empty());
        assert(groups.last() == groups[0]);
        lemma_entries_lines_head(groups[0].1);
    }
}

/// The fragment has no empty line at its start: it is empty, or begins
/// with a character that is no line feed. This holds where no name
/// begins with a line feed.
pub proof fn lemma_fragment_begins_a_line(vars: Seq<VarModel>)
    requires
        forall|i: int|
            0 <= i < vars.len() ==> !((#[trigger] vars[i]).name.len() > 0 && vars[i].name[0]
                == '\n'),
    ensures
        env_text(vars).len() == 0 || env_text(vars)[0] != '\n',
{
    let groups = grouped(vars);
    if groups.len() > 0 {
        let labels = sorted_labels(vars);
        let bucket = groups[0].1;
        lemma_sorted_labels(vars);
        assert(labels.contains(labels[0]));
        let i = choose|i: int| 0 <= i < vars.len() && label_of(#[trigger] vars[i]) == labels[0];
        assert(vars.contains(vars[i]));
        lemma_with_label_contains(vars, labels[0], vars[i]);
        lemma_sort_permutes(with_label(vars, labels[0]));
        assert(bucket.len() > 0);
        let v = bucket[0];
        assert(bucket.contains(v));
        lemma_grouped_partitions(vars, v);
        let j = choose|j: int| 0 <= j < vars.len() && vars[j] == v;
        assert(!(vars[j].name.len() > 0 && vars[j].name[0] == '\n'));
        lemma_fragment_lines_head(groups);
        lemma_fragment_is_lines(groups);
        let all = fragment_lines(groups);
        let lines = all.skip(1);
        assert(seq![Seq::<char>::empty()] + lines =~= all);
        lemma_feed_concat(seq![Seq::<char>::empty()], lines);
        lemma_feed_one(Seq::empty());
        assert(fragment_blocks(groups).skip(1) =~= feed_lines(lines));
        let first = entry_lines(v)[0];
        assert(lines[0] == first);
        assert(first.len() > 0 && first[0] != '\n') by {
            match v.description {
                Some(d) => {
                    assert(first == seq!['#', ' '] + d);
                    assert(first[0] == '#');
                },
                None => {
                    let line = assignment_line(v);
                    assert(first == line);
                    if v.optional {
                        assert(line[0] == '#');
                    } else if v.name.len() > 0 {
                        assert(line[0] == v.name[0]);
                    } else {
                        assert(line[0] == '=');
                    }
                },
            }
        }
        lemma_feed_head(lines);
    } else {
        assert(fragment_blocks(groups) =~= Seq::<char>::empty());
    }
}

} // verus!
