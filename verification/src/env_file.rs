//! Environment files: the grammar of one line, the entries of a whole file,
//! and the rule by which the entries of several files are merged.

use crate::keyed::{
    first_of_each, first_with, has_key, lemma_first_of_each_lookup, lemma_first_with_concat,
    lemma_key_scan, lemma_key_scan_push,
};
use crate::text::{
    char_is_ident_start, char_is_space, chars_of, fully_quoted, has_at, is_fully_quoted,
    is_ident_start, is_space, lemma_scan, lemma_scan_unique, scan, scan_class, starts_with,
    string_of, trim, trim_of, Class,
};
use crate::types::{text_of, EntryModel, EnvFileEntry};
use vstd::hash_set::StringHashSet;
use vstd::prelude::*;
use vstd::slice::{slice_subrange, slice_to_vec};

verus! {

/// What a backslash followed by `c` stands for.
pub open spec fn unescape(c: char) -> char {
    if c == 'n' {
        '\n'
    } else if c == 't' {
        '\t'
    } else {
        c
    }
}

/// Whether a backslash followed by `c` is an escape of a quoted value.
pub open spec fn is_escape(c: char) -> bool {
    c == 'n' || c == 't' || c == '\\'
}

/// The escapes of a quoted value, applied in one pass from left to right:
/// a backslash before `n`, `t` or a backslash gives a line feed, a tab or
/// a backslash, and both characters are used up. Every other character
/// stands, a backslash before anything else too.
pub open spec fn apply_escapes(s: Seq<char>) -> Seq<char>
    decreases s.len(),
{
    if s.len() == 0 {
        s
    } else if s.len() >= 2 && s[0] == '\\' && is_escape(s[1]) {
        seq![unescape(s[1])] + apply_escapes(s.skip(2))
    } else {
        seq![s[0]] + apply_escapes(s.skip(1))
    }
}

/// A text read character by character, where a backslash gives the next
/// character its escaped meaning. A backslash at the very end is dropped.
pub open spec fn decode_escapes(s: Seq<char>) -> Seq<char>
    decreases s.len(),
{
    if s.len() == 0 {
        s
    } else if s[0] != '\\' {
        seq![s[0]] + decode_escapes(s.skip(1))
    } else if s.len() == 1 {
        Seq::empty()
    } else {
        seq![unescape(s[1])] + decode_escapes(s.skip(2))
    }
}

/// The value that the text after `=` stands for.
///
/// A fully quoted text loses its quotes and has its escapes applied in one
/// pass. A text that opens a double quote and does not close it is decoded
/// character by character. Anything else is taken as it stands.
pub open spec fn env_value(raw: Seq<char>) -> Seq<char> {
    let v = trim(raw);
    if is_fully_quoted(v) {
        apply_escapes(v.subrange(1, v.len() - 1))
    } else if v.len() > 0 && v[0] == '"' {
        decode_escapes(v.skip(1))
    } else {
        v
    }
}

/// A blank line or a comment.
pub open spec fn is_skipped(t: Seq<char>) -> bool {
    t.len() == 0 || t[0] == '#'
}

/// `t` without a leading `export` keyword and the white space after it.
pub open spec fn strip_export(t: Seq<char>) -> Seq<char> {
    let kw = "export"@;
    if starts_with(t, kw) && kw.len() < t.len() && is_space(t[kw.len() as int]) {
        t.skip(scan(t, kw.len() as int, Class::Space))
    } else {
        t
    }
}

/// The length of the identifier that `s` begins with, 0 if it begins with none.
pub open spec fn ident_len(s: Seq<char>) -> int {
    if s.len() > 0 && is_ident_start(s[0]) {
        scan(s, 0, Class::Ident)
    } else {
        0
    }
}

/// Whether `s` is an identifier: letters, digits and `_`, not starting with a digit.
pub open spec fn is_identifier(s: Seq<char>) -> bool {
    s.len() > 0 && ident_len(s) == s.len()
}

/// `NAME = VALUE`: the name and the trimmed text after the `=`.
pub open spec fn assignment(u: Seq<char>) -> Option<(Seq<char>, Seq<char>)> {
    let n = ident_len(u);
    let eq = scan(u, n, Class::Space);
    if n > 0 && eq < u.len() && u[eq] == '=' {
        Some((u.take(n), trim(u.skip(eq + 1))))
    } else {
        None
    }
}

/// The value of an assignment: none where the text is empty or an empty pair of quotes.
pub open spec fn assigned_value(raw: Seq<char>) -> Option<Seq<char>> {
    if raw.len() == 0 || raw == seq!['\'', '\''] || raw == seq!['"', '"'] {
        None
    } else {
        Some(env_value(raw))
    }
}

/// The name and value that one line of an environment file declares, if any.
pub open spec fn line_entry(line: Seq<char>) -> Option<(Seq<char>, Option<Seq<char>>)> {
    let t = trim(line);
    if is_skipped(t) {
        None
    } else {
        match assignment(strip_export(t)) {
            Some((name, raw)) => Some((name, assigned_value(raw))),
            None => None,
        }
    }
}

/// The pieces of `s` between its line feeds. There is one more piece than
/// there are line feeds.
pub open spec fn split_lines(s: Seq<char>) -> Seq<Seq<char>>
    decreases s.len(),
{
    let i = scan(s, 0, Class::Except('\n', '\n'));
    if 0 <= i < s.len() {
        seq![s.take(i)] + split_lines(s.skip(i + 1))
    } else {
        seq![s]
    }
}

/// The lines put together, a line feed between each two.
pub open spec fn join_lines(lines: Seq<Seq<char>>) -> Seq<char>
    decreases lines.len(),
{
    if lines.len() == 0 {
        Seq::empty()
    } else if lines.len() == 1 {
        lines[0]
    } else {
        join_lines(lines.drop_last()) + seq!['\n'] + lines.last()
    }
}

/// Whether a text holds no line feed.
pub open spec fn is_line(s: Seq<char>) -> bool {
    forall|k: int| 0 <= k < s.len() ==> #[trigger] s[k] != '\n'
}

/// A text without line feeds is its own single line.
pub proof fn lemma_split_one_line(s: Seq<char>)
    requires
        is_line(s),
    ensures
        split_lines(s) == seq![s],
{
    let class = Class::Except('\n', '\n');
    assert forall|k: int| 0 <= k < s.len() implies class.has(#[trigger] s[k]) by {}
    lemma_scan_unique(s, 0, s.len() as int, class);
}

/// The lines of two texts put together with a line feed are the lines of
/// the one and then the lines of the other.
pub proof fn lemma_split_lines_concat(a: Seq<char>, b: Seq<char>)
    ensures
        split_lines(a + seq!['\n'] + b) == split_lines(a) + split_lines(b),
    decreases a.len(),
{
    let class = Class::Except('\n', '\n');
    let whole = a + seq!['\n'] + b;
    let i = scan(a, 0, class);
    lemma_scan(a, 0, class);
    assert forall|k: int| 0 <= k < i implies class.has(#[trigger] whole[k]) by {
        assert(whole[k] == a[k]);
    }
    if i < a.len() {
        assert(whole[i] == a[i]);
        lemma_scan_unique(whole, 0, i, class);
        assert(whole.take(i) =~= a.take(i));
        assert(whole.skip(i + 1) =~= a.skip(i + 1) + seq!['\n'] + b);
        lemma_split_lines_concat(a.skip(i + 1), b);
        assert(seq![a.take(i)] + (split_lines(a.skip(i + 1)) + split_lines(b)) =~= (seq![a.take(i)]
            + split_lines(a.skip(i + 1))) + split_lines(b));
    } else {
        assert(whole[i] == '\n');
        lemma_scan_unique(whole, 0, i, class);
        assert(whole.take(i) =~= a);
        assert(whole.skip(i + 1) =~= b);
    }
}

/// Lines that hold no line feed are the lines of the text they are put
/// together to.
pub proof fn lemma_split_of_join(lines: Seq<Seq<char>>)
    requires
        lines.len() > 0,
        forall|k: int| 0 <= k < lines.len() ==> is_line(#[trigger] lines[k]),
    ensures
        split_lines(join_lines(lines)) == lines,
    decreases lines.len(),
{
    if lines.len() == 1 {
        lemma_split_one_line(lines[0]);
        assert(seq![lines[0]] =~= lines);
    } else {
        let init = lines.drop_last();
        assert forall|k: int| 0 <= k < init.len() implies is_line(#[trigger] init[k]) by {
            assert(init[k] == lines[k]);
        }
        lemma_split_of_join(init);
        lemma_split_lines_concat(join_lines(init), lines.last());
        assert(lines.last() == lines[lines.len() - 1]);
        lemma_split_one_line(lines.last());
        assert(init + seq![lines.last()] =~= lines);
    }
}

/// The entries that the given lines declare, each with the index of its line.
pub open spec fn entries_of_lines(lines: Seq<Seq<char>>, path: Seq<char>) -> Seq<EntryModel>
    decreases lines.len(),
{
    if lines.len() == 0 {
        Seq::empty()
    } else {
        let before = entries_of_lines(lines.drop_last(), path);
        match line_entry(lines.last()) {
            Some((name, value)) => before.push(
                EntryModel { name, value, line: lines.len() - 1, file_path: path },
            ),
            None => before,
        }
    }
}

/// The entries of an environment file with the given content.
pub open spec fn env_entries(content: Seq<char>, path: Seq<char>) -> Seq<EntryModel> {
    entries_of_lines(split_lines(content), path)
}

fn apply_escapes_of(s: &[char]) -> (r: Vec<char>)
    ensures
        r@ == apply_escapes(s@),
{
    let mut out: Vec<char> = Vec::new();
    let mut i: usize = 0;
    assert(s@.skip(0) =~= s@);
    assert(out@ + apply_escapes(s@) =~= apply_escapes(s@));
    while i < s.len()
        invariant
            i <= s@.len(),
            apply_escapes(s@) == out@ + apply_escapes(s@.skip(i as int)),
        decreases s@.len() - i,
    {
        let ghost rest = s@.skip(i as int);
        let ghost before = out@;
        let c = s[i];
        if c == '\\' && i + 1 < s.len() && (s[i + 1] == 'n' || s[i + 1] == 't' || s[i + 1]
            == '\\') {
            let d = s[i + 1];
            let e = if d == 'n' {
                '\n'
            } else if d == 't' {
                '\t'
            } else {
                d
            };
            out.push(e);
            assert(rest.skip(2) =~= s@.skip(i + 2));
            assert(out@ + apply_escapes(s@.skip(i + 2)) =~= before + (seq![unescape(rest[1])]
                + apply_escapes(rest.skip(2))));
            i += 2;
        } else {
            out.push(c);
            assert(rest.skip(1) =~= s@.skip(i + 1));
            assert(out@ + apply_escapes(s@.skip(i + 1)) =~= before + (seq![rest[0]]
                + apply_escapes(rest.skip(1))));
            i += 1;
        }
    }
    assert(out@ + Seq::<char>::empty() =~= out@);
    out
}

fn decode_escapes_of(s: &[char]) -> (r: Vec<char>)
    ensures
        r@ == decode_escapes(s@),
{
    let mut out: Vec<char> = Vec::new();
    let mut i: usize = 0;
    assert(s@.skip(0) =~= s@);
    assert(out@ + decode_escapes(s@) =~= decode_escapes(s@));
    while i < s.len()
        invariant
            i <= s@.len(),
            decode_escapes(s@) == out@ + decode_escapes(s@.skip(i as int)),
        decreases s@.len() - i,
    {
        let ghost rest = s@.skip(i as int);
        let ghost before = out@;
        let c = s[i];
        if c != '\\' {
            out.push(c);
            assert(rest.skip(1) =~= s@.skip(i + 1));
            assert(out@ + decode_escapes(s@.skip(i + 1)) =~= before + (seq![rest[0]]
                + decode_escapes(rest.skip(1))));
            i += 1;
        } else if i + 1 == s.len() {
            assert(rest.len() == 1);
            assert(out@ + decode_escapes(rest) =~= out@);
            return out;
        } else {
            let d = s[i + 1];
            let e = if d == 'n' {
                '\n'
            } else if d == 't' {
                '\t'
            } else {
                d
            };
            out.push(e);
            assert(rest.skip(2) =~= s@.skip(i + 2));
            assert(out@ + decode_escapes(s@.skip(i + 2)) =~= before + (seq![unescape(rest[1])]
                + decode_escapes(rest.skip(2))));
            i += 2;
        }
    }
    assert(out@ + Seq::<char>::empty() =~= out@);
    out
}

fn env_value_of(raw: &[char]) -> (r: String)
    ensures
        r@ == env_value(raw@),
{
    let v = trim_of(raw);
    let n = v.len();
    if fully_quoted(v) {
        let inner = apply_escapes_of(slice_subrange(v, 1, n - 1));
        string_of(inner.as_slice())
    } else if n > 0 && v[0] == '"' {
        let inner = decode_escapes_of(slice_subrange(v, 1, n));
        string_of(inner.as_slice())
    } else {
        string_of(v)
    }
}

/// The value that the text after `=` stands for: see `env_value`.
pub fn parse_env_value(value: &str) -> (r: String)
    ensures
        r@ == env_value(value@),
{
    let chars = chars_of(value);
    env_value_of(chars.as_slice())
}

fn strip_export_of(t: &[char]) -> (r: &[char])
    ensures
        r@ == strip_export(t@),
{
    proof {
        reveal_strlit("export");
    }
    let kw = chars_of("export");
    if has_at(t, 0, kw.as_slice()) && kw.len() < t.len() && char_is_space(t[kw.len()]) {
        let i = scan_class(t, kw.len(), Class::Space);
        slice_subrange(t, i, t.len())
    } else {
        t
    }
}

fn ident_len_of(s: &[char]) -> (n: usize)
    ensures
        n == ident_len(s@),
        n <= s@.len(),
{
    if s.len() > 0 && char_is_ident_start(s[0]) {
        scan_class(s, 0, Class::Ident)
    } else {
        0
    }
}

fn assigned_value_of(raw: &[char]) -> (r: Option<String>)
    ensures
        text_of(r) == assigned_value(raw@),
{
    let n = raw.len();
    if n == 0 {
        return None;
    }
    if n == 2 && ((raw[0] == '\'' && raw[1] == '\'') || (raw[0] == '"' && raw[1] == '"')) {
        assert(raw@ =~= seq!['\'', '\''] || raw@ =~= seq!['"', '"']);
        return None;
    }
    assert(raw@ != seq!['\'', '\''] && raw@ != seq!['"', '"']) by {
        if raw@ == seq!['\'', '\''] || raw@ == seq!['"', '"'] {
            assert(raw@.len() == 2);
            assert(raw@[0] == raw@[1]);
        }
    }
    Some(env_value_of(raw))
}

/// The name and value that one line declares, if any: see `line_entry`.
pub fn parse_env_line(line: &[char]) -> (r: Option<(String, Option<String>)>)
    ensures
        match r {
            Some((name, value)) => line_entry(line@) == Some((name@, text_of(value))),
            None => line_entry(line@) is None,
        },
{
    let t = trim_of(line);
    if t.len() == 0 || t[0] == '#' {
        return None;
    }
    let u = strip_export_of(t);
    let n = ident_len_of(u);
    let eq = scan_class(u, n, Class::Space);
    if n > 0 && eq < u.len() && u[eq] == '=' {
        let name = string_of(slice_subrange(u, 0, n));
        let raw = trim_of(slice_subrange(u, eq + 1, u.len()));
        let value = assigned_value_of(raw);
        Some((name, value))
    } else {
        None
    }
}

/// The lines of a text: see `split_lines`.
pub fn lines_of(s: &[char]) -> (lines: Vec<Vec<char>>)
    ensures
        lines.deep_view() == split_lines(s@),
{
    let mut lines: Vec<Vec<char>> = Vec::new();
    let mut pos: usize = 0;
    assert(s@.skip(0) =~= s@);
    assert(lines.deep_view() + split_lines(s@) =~= split_lines(s@));
    loop
        invariant
            pos <= s@.len(),
            split_lines(s@) == lines.deep_view() + split_lines(s@.skip(pos as int)),
        decreases s@.len() - pos,
    {
        let rest = slice_subrange(s, pos, s.len());
        let i = scan_class(rest, 0, Class::Except('\n', '\n'));
        let ghost before = lines.deep_view();
        lines.push(slice_to_vec(slice_subrange(rest, 0, i)));
        assert(lines.deep_view() =~~= before.push(rest@.take(i as int)));
        if i >= rest.len() {
            assert(rest@.take(i as int) =~= rest@);
            assert(before + seq![rest@] =~= before.push(rest@));
            return lines;
        }
        assert(rest@.skip(i + 1) =~= s@.skip(pos + i + 1));
        assert(before + (seq![rest@.take(i as int)] + split_lines(rest@.skip(i + 1)))
            =~= before.push(rest@.take(i as int)) + split_lines(s@.skip(pos + i + 1)));
        pos = pos + i + 1;
    }
}

/// Reads the entries of an environment file from its content.
///
/// Lines are numbered from zero. Blank lines and comments give no entry, a
/// leading `export` is ignored, and a line that is no assignment is passed
/// over. `file_path` is recorded in every entry.
pub fn parse_env_file(content: &str, file_path: &str) -> (entries: Vec<EnvFileEntry>)
    ensures
        entries.deep_view() == env_entries(content@, file_path@),
{
    let chars = chars_of(content);
    let lines = lines_of(chars.as_slice());
    let ghost all = split_lines(content@);
    let mut entries: Vec<EnvFileEntry> = Vec::new();
    let mut i: usize = 0;
    assert(all.take(0) =~= Seq::<Seq<char>>::empty());
    assert(entries.deep_view() =~= entries_of_lines(all.take(0), file_path@));
    while i < lines.len()
        invariant
            i <= lines@.len(),
            all == lines.deep_view(),
            entries.deep_view() == entries_of_lines(all.take(i as int), file_path@),
        decreases lines@.len() - i,
    {
        let ghost before = entries.deep_view();
        assert(all.take(i + 1).drop_last() =~= all.take(i as int));
        assert(all.take(i + 1).last() =~= lines@[i as int]@);
        match parse_env_line(lines[i].as_slice()) {
            Some((name, value)) => {
                let entry = EnvFileEntry {
                    name,
                    value,
                    line: i,
                    file_path: String::from_str(file_path),
                };
                entries.push(entry);
                assert(entries.deep_view() =~= before.push(entry@));
            },
            None => {},
        }
        i += 1;
    }
    assert(all.take(lines@.len() as int) =~= all);
    entries
}

/// The lists laid end to end.
pub open spec fn concat_all(lists: Seq<Seq<EntryModel>>) -> Seq<EntryModel>
    decreases lists.len(),
{
    if lists.len() == 0 {
        Seq::empty()
    } else {
        concat_all(lists.drop_last()) + lists.last()
    }
}

/// The entries of several files as one list in which no name occurs twice:
/// of the entries that share a name, the first one seen stays.
pub open spec fn merged_entries(lists: Seq<Seq<EntryModel>>) -> Seq<EntryModel> {
    first_of_each(concat_all(lists))
}

/// First seen wins: where the first of two lists defines a name, the merged
/// list holds that name with the entry it has in the first list, whatever
/// the second list holds.
pub proof fn lemma_merge_prefers_first(a: Seq<EntryModel>, b: Seq<EntryModel>, name: Seq<char>)
    requires
        has_key(a, name),
    ensures
        first_with(merged_entries(seq![a, b]), name) == first_with(a, name),
        first_with(merged_entries(seq![a, b]), name) is Some,
{
    let lists = seq![a, b];
    assert(lists.drop_last() =~= seq![a]);
    assert(seq![a].drop_last() =~= Seq::<Seq<EntryModel>>::empty());
    assert(concat_all(Seq::<Seq<EntryModel>>::empty()) =~= Seq::<EntryModel>::empty());
    assert(seq![a].last() == a);
    assert(concat_all(seq![a]) =~= a);
    assert(lists.last() == b);
    assert(concat_all(lists) =~= a + b);
    lemma_first_of_each_lookup(a + b, name);
    lemma_first_with_concat(a, b, name);
}

/// A name that only later lists define is still found in the merged list.
pub proof fn lemma_merge_keeps_every_name(lists: Seq<Seq<EntryModel>>, name: Seq<char>)
    ensures
        has_key(merged_entries(lists), name) == has_key(concat_all(lists), name),
        first_with(merged_entries(lists), name) == first_with(concat_all(lists), name),
{
    lemma_first_of_each_lookup(concat_all(lists), name);
}

/// Merges the entries of several files into one list in which every name
/// occurs once. Lists that come first take precedence: of the entries that
/// share a name, the one seen first stays, at the place where it was seen.
pub fn merge_env_files(entries_list: Vec<Vec<EnvFileEntry>>) -> (merged: Vec<EnvFileEntry>)
    ensures
        merged.deep_view() == merged_entries(entries_list.deep_view()),
{
    let ghost lists = entries_list.deep_view();
    let mut merged: Vec<EnvFileEntry> = Vec::new();
    let mut seen = StringHashSet::new();
    let ghost mut flat: Seq<EntryModel> = Seq::empty();
    let mut a: usize = 0;
    assert(lists.take(0) =~= Seq::<Seq<EntryModel>>::empty());
    assert(merged.deep_view() =~= first_of_each(flat));
    while a < entries_list.len()
        invariant
            a <= entries_list@.len(),
            lists == entries_list.deep_view(),
            flat == concat_all(lists.take(a as int)),
            merged.deep_view() == first_of_each(flat),
            forall|n: Seq<char>| seen@.contains(n) <==> has_key(flat, n),
        decreases entries_list@.len() - a,
    {
        let list = &entries_list[a];
        let ghost start = flat;
        let mut b: usize = 0;
        assert(start + lists[a as int].take(0) =~= start);
        while b < list.len()
            invariant
                b <= list@.len(),
                list.deep_view() == lists[a as int],
                flat == start + lists[a as int].take(b as int),
                merged.deep_view() == first_of_each(flat),
                forall|n: Seq<char>| seen@.contains(n) <==> has_key(flat, n),
            decreases list@.len() - b,
        {
            let entry = &list[b];
            let ghost e = entry@;
            let ghost next = flat.push(e);
            let ghost before = merged.deep_view();
            assert(lists[a as int][b as int] == e);
            assert(next =~= start + lists[a as int].take(b + 1));
            assert(next.drop_last() =~= flat);
            assert forall|n: Seq<char>| has_key(next, n) <==> (has_key(flat, n) || n == e.name) by {
                lemma_key_scan_push(flat, e, 0, n);
                lemma_key_scan(flat, 0, n);
            }
            if seen.insert(entry.name.clone()) {
                merged.push(entry.clone());
                assert(merged.deep_view() =~= before.push(e));
            }
            proof {
                flat = next;
            }
            b += 1;
        }
        assert(lists[a as int].take(list@.len() as int) =~= lists[a as int]);
        assert(lists.take(a + 1).drop_last() =~= lists.take(a as int));
        a += 1;
    }
    assert(lists.take(entries_list@.len() as int) =~= lists);
    merged
}

} // verus!
