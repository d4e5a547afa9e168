//! The annotated-class dialect: variables declared as the annotated fields
//! of a class.
//!
//! The text is read line by line. A class begins with a header line,
//! `class Name:` or `class Name(Bases):`. Its body is the run of lines
//! behind the header that are indented at least as far as the first of
//! them, which must be indented further than the header; blank lines do
//! not count. The fields are the lines of the body that are indented
//! exactly as far as the first; lines indented further continue a field
//! or belong to something nested, and declare nothing.

use crate::env_file::{
    ident_len, is_identifier, is_line, join_lines, lemma_split_of_join, lines_of, split_lines,
};
use crate::schema::{
    all_wf, env_type_of, lowercase, to_lowercase, to_uppercase, type_of_word, uppercase,
};
use crate::text::{
    char_is_ident, char_is_ident_start, chars_of, contains, contains_in, find, find_in,
    fully_quoted, has_at, is_fully_quoted, is_ident_char, is_ident_start, is_space, lemma_scan,
    lemma_scan_unique, lemma_trim_padded, matches_at, same_chars, scan, scan_back, scan_class,
    scan_class_back_from, starts_with, string_of, trim, trim_of, Class,
};
use crate::types::{
    text_of, Dialect, EnvType, EnvVar, ParsedSchema, SchemaSource, SourceModel, VarModel,
};
use vstd::prelude::*;
use vstd::slice::slice_subrange;

verus! {

/// Whether a line is the header of a class: the word `class`, a name, the
/// bases in parentheses where there are any, and a colon at the end.
pub open spec fn is_class_header(line: Seq<char>) -> bool {
    let t = trim(line);
    let kw = "class"@;
    let a = scan(t, kw.len() as int, Class::Space);
    let e = scan(t, a, Class::Ident);
    let b = scan(t, e, Class::Space);
    let c = scan(t, b + 1, Class::Except(')', ')'));
    let d = if b < t.len() && t[b] == '(' {
        if c < t.len() {
            scan(t, c + 1, Class::Space)
        } else {
            t.len() as int
        }
    } else {
        b
    };
    &&& starts_with(t, kw)
    &&& a > kw.len()
    &&& a < t.len()
    &&& is_ident_start(t[a])
    &&& d == t.len() - 1
    &&& t[d] == ':'
}

/// The text that a value written in the class stands for: a string
/// literal without its quotes, `True` and `False` in lower case, `None` as
/// the empty text, anything else as it is written.
pub open spec fn sanitized(value: Seq<char>) -> Seq<char> {
    let v = trim(value);
    if is_fully_quoted(v) {
        v.subrange(1, v.len() - 1)
    } else if v == "True"@ {
        "true"@
    } else if v == "False"@ {
        "false"@
    } else if v == "None"@ {
        Seq::empty()
    } else {
        v
    }
}

/// A keyword argument with a quoted value that begins at index `i`: the
/// keyword, `=`, and a string literal that is not empty. Gives what the
/// literal holds.
pub open spec fn quoted_arg_at(s: Seq<char>, i: int, key: Seq<char>) -> Option<Seq<char>> {
    let a = scan(s, i + key.len(), Class::Space);
    let b = scan(s, a + 1, Class::Space);
    let e = scan(s, b + 1, Class::Except(s[b], s[b]));
    if matches_at(s, i, key) && a < s.len() && s[a] == '=' && b < s.len() && (s[b] == '"' || s[b]
        == '\'') && b + 1 < e < s.len() {
        Some(s.subrange(b + 1, e))
    } else {
        None
    }
}

/// The first keyword argument with a quoted value at or after index `i`.
pub open spec fn first_quoted_arg(s: Seq<char>, i: int, key: Seq<char>) -> Option<Seq<char>>
    decreases s.len() - i,
{
    if i < 0 || i >= s.len() {
        None
    } else {
        match quoted_arg_at(s, i, key) {
            Some(text) => Some(text),
            None => first_quoted_arg(s, i + 1, key),
        }
    }
}

/// A keyword argument that begins at index `i`: the keyword, `=`, and the
/// text up to the next comma or closing parenthesis, which must not be
/// empty.
pub open spec fn plain_arg_at(s: Seq<char>, i: int, key: Seq<char>) -> Option<Seq<char>> {
    let a = scan(s, i + key.len(), Class::Space);
    let b = scan(s, a + 1, Class::Space);
    let e = scan(s, b, Class::Except(')', ','));
    if matches_at(s, i, key) && a < s.len() && s[a] == '=' && b < e {
        Some(s.subrange(b, e))
    } else {
        None
    }
}

/// The first keyword argument at or after index `i`.
pub open spec fn first_plain_arg(s: Seq<char>, i: int, key: Seq<char>) -> Option<Seq<char>>
    decreases s.len() - i,
{
    if i < 0 || i >= s.len() {
        None
    } else {
        match plain_arg_at(s, i, key) {
            Some(text) => Some(text),
            None => first_plain_arg(s, i + 1, key),
        }
    }
}

/// Whether the value of a field is built by a call of `Field`.
pub open spec fn is_field_call(value: Seq<char>) -> bool {
    contains(value, "Field("@)
}

/// The description that a call of `Field` gives.
pub open spec fn field_description(value: Seq<char>) -> Option<Seq<char>> {
    if is_field_call(value) {
        first_quoted_arg(value, 0, "description"@)
    } else {
        None
    }
}

/// The default value of a field: what a call of `Field` is given as
/// `default`, where the value is such a call; else the value itself,
/// where there is one.
pub open spec fn field_default(value: Seq<char>) -> Option<Seq<char>> {
    if is_field_call(value) {
        match first_plain_arg(value, 0, "default"@) {
            Some(text) => Some(sanitized(text)),
            None => None,
        }
    } else if trim(value).len() > 0 {
        Some(sanitized(value))
    } else {
        None
    }
}

/// Whether the word `None` stands at index `i`, and not as a part of a
/// longer word.
pub open spec fn none_at(s: Seq<char>, i: int) -> bool {
    &&& matches_at(s, i, "None"@)
    &&& i == 0 || !is_ident_char(s[i - 1])
    &&& i + 4 >= s.len() || !is_ident_char(s[i + 4])
}

/// Whether `None` stands at index `i` as a member of a union: a bar
/// stands before or behind it, white space apart, or it stands behind
/// `Union[`.
pub open spec fn is_none_member(s: Seq<char>, i: int) -> bool {
    let left = scan_back(s, i, Class::Space);
    let right = scan(s, i + 4, Class::Space);
    &&& none_at(s, i)
    &&& {
        ||| left > 0 && s[left - 1] == '|'
        ||| right < s.len() && s[right] == '|'
        ||| find(s, 0, "Union["@) matches Some(u) && u < i
    }
}

/// Whether `None` is a member of a union at or after index `i`.
pub open spec fn none_member_from(s: Seq<char>, i: int) -> bool
    decreases s.len() - i,
{
    if i < 0 || i >= s.len() {
        false
    } else {
        is_none_member(s, i) || none_member_from(s, i + 1)
    }
}

/// `None` is found as a member of a union exactly where it is one
/// somewhere.
pub proof fn lemma_none_member(s: Seq<char>, i: int)
    requires
        0 <= i,
    ensures
        none_member_from(s, i) <==> exists|k: int| i <= k && is_none_member(s, k),
    decreases s.len() - i,
{
    if i < s.len() {
        lemma_none_member(s, i + 1);
        if none_member_from(s, i + 1) {
            let k = choose|k: int| i + 1 <= k && is_none_member(s, k);
            assert(i <= k && is_none_member(s, k));
        }
        if exists|k: int| i <= k && is_none_member(s, k) {
            let k = choose|k: int| i <= k && is_none_member(s, k);
            if k > i {
                assert(i + 1 <= k && is_none_member(s, k));
            }
        }
    } else {
        reveal_strlit("None");
        assert forall|k: int| i <= k implies !is_none_member(s, k) by {}
    }
}

/// Whether a type annotation allows the value to be absent: it is
/// wrapped in `Optional[`, names `NoneType`, or is a union of which
/// `None` is a member, in whatever place and with whatever spacing.
pub open spec fn allows_none(type_hint: Seq<char>) -> bool {
    contains(type_hint, "Optional["@) || contains(type_hint, "NoneType"@) || none_member_from(
        type_hint,
        0,
    )
}

/// The descriptor of a field, given its name as it is to stand, the type
/// that its annotation stands for, the annotation and the value. A field
/// with a default value is optional, whatever its annotation.
pub open spec fn field_descriptor(
    name: Seq<char>,
    var_type: EnvType,
    type_hint: Seq<char>,
    value: Seq<char>,
) -> VarModel {
    VarModel {
        name,
        var_type,
        description: field_description(value),
        default: field_default(value),
        optional: allows_none(type_hint) || field_default(value) is Some,
        group: None,
    }
}

/// The descriptor that a field is read as: the name in upper case, the
/// type inferred from the annotation in lower case.
pub open spec fn pydantic_variable(name: Seq<char>, type_hint: Seq<char>, value: Seq<char>) -> VarModel {
    field_descriptor(uppercase(name), env_type_of(lowercase(type_hint)), type_hint, value)
}

/// The parts of a line that declares a field: the name, the annotation
/// and the value. The annotation runs up to the first `=` and must not be
/// empty; the value is what follows the `=`, empty where there is none.
pub open spec fn field_parts(line: Seq<char>) -> Option<(Seq<char>, Seq<char>, Seq<char>)> {
    let t = trim(line);
    let n = ident_len(t);
    let c = scan(t, n, Class::Space);
    let rest = t.skip(c + 1);
    let eq = scan(rest, 0, Class::Except('=', '='));
    let type_hint = trim(rest.take(eq));
    let value = if eq < rest.len() {
        trim(rest.skip(eq + 1))
    } else {
        Seq::empty()
    };
    if n > 0 && c < t.len() && t[c] == ':' && type_hint.len() > 0 {
        Some((t.take(n), type_hint, value))
    } else {
        None
    }
}

/// The descriptor that a line declares, if it declares a field.
pub open spec fn field_of_line(line: Seq<char>) -> Option<VarModel> {
    match field_parts(line) {
        Some((name, type_hint, value)) => Some(pydantic_variable(name, type_hint, value)),
        None => None,
    }
}

/// Where the reading of a text stands between two lines.
#[derive(Clone, Copy, Debug)]
pub struct Block {
    /// Whether a class is open.
    pub open: bool,
    /// Whether a line of its body has been seen.
    pub body: bool,
    /// How far the body is indented, once a line of it has been seen; how
    /// far the header is indented, before.
    pub indent: usize,
}

/// How far a line is indented.
pub open spec fn indent_of(line: Seq<char>) -> int {
    scan(line, 0, Class::Space)
}

/// Reading one line: where the reading stands behind it, and the field it
/// declares, if any. A blank line changes nothing. A line inside the
/// body of the open class keeps the class open. Any other line closes it,
/// and opens a new one if it is a header.
pub open spec fn step(state: Block, line: Seq<char>) -> (Block, Option<VarModel>) {
    let ind = indent_of(line);
    let inside = state.open && if state.body {
        ind >= state.indent
    } else {
        ind > state.indent
    };
    if ind >= line.len() {
        (state, None)
    } else if inside {
        let level = if state.body {
            state.indent
        } else {
            ind as usize
        };
        (
            Block { open: true, body: true, indent: level },
            if ind == level {
                field_of_line(line)
            } else {
                None
            },
        )
    } else if is_class_header(line) {
        (Block { open: true, body: false, indent: ind as usize }, None)
    } else {
        (Block { open: false, body: false, indent: 0 }, None)
    }
}

/// The fields that the lines from index `i` on declare.
pub open spec fn class_variables(lines: Seq<Seq<char>>, i: int, state: Block) -> Seq<VarModel>
    decreases lines.len() - i,
{
    if i < 0 || i >= lines.len() {
        Seq::empty()
    } else {
        let (next, field) = step(state, lines[i]);
        let here = match field {
            Some(v) => seq![v],
            None => Seq::empty(),
        };
        here + class_variables(lines, i + 1, next)
    }
}

/// The variables that a text of this dialect declares.
pub open spec fn pydantic_variables(content: Seq<char>) -> Seq<VarModel> {
    class_variables(split_lines(content), 0, Block { open: false, body: false, indent: 0 })
}

/// Every descriptor read from a text of this dialect is well formed: one
/// that has a default value is optional.
pub proof fn lemma_class_variables_wf(lines: Seq<Seq<char>>, i: int, state: Block)
    ensures
        all_wf(class_variables(lines, i, state)),
    decreases lines.len() - i,
{
    if 0 <= i < lines.len() {
        let (next, field) = step(state, lines[i]);
        lemma_class_variables_wf(lines, i + 1, next);
    }
}

/// A field as the text of a class declares it: its name, its annotation
/// and, where it has one, the value it is given.
pub struct FieldSource {
    pub name: Seq<char>,
    pub type_hint: Seq<char>,
    pub value: Option<Seq<char>>,
}

/// A run of `n` blanks.
pub open spec fn blanks(n: nat) -> Seq<char> {
    Seq::new(n, |i: int| ' ')
}

/// Whether a text is a piece of one line that neither starts nor ends
/// with white space.
pub open spec fn is_trimmed_text(s: Seq<char>) -> bool {
    s.len() > 0 && !is_space(s[0]) && !is_space(s.last()) && is_line(s)
}

/// Whether a field is well formed: its name is an identifier, its
/// annotation a trimmed text without `=`, and its value, where it has
/// one, a trimmed text.
pub open spec fn is_field_source(f: FieldSource) -> bool {
    &&& is_identifier(f.name)
    &&& is_trimmed_text(f.type_hint)
    &&& forall|k: int| 0 <= k < f.type_hint.len() ==> f.type_hint[k] != '='
    &&& f.value matches Some(v) ==> is_trimmed_text(v)
}

/// The value of a field as it is written, empty where it has none.
pub open spec fn written_value(f: FieldSource) -> Seq<char> {
    match f.value {
        Some(v) => v,
        None => Seq::empty(),
    }
}

/// The line that declares a field: `name: annotation`, and ` = value`
/// where the field has a value, behind `indent` blanks.
pub open spec fn field_line(indent: nat, f: FieldSource) -> Seq<char> {
    blanks(indent) + f.name + seq![':', ' '] + f.type_hint + match f.value {
        Some(v) => seq![' ', '=', ' '] + v,
        None => Seq::empty(),
    }
}

/// The header of a class, with its bases in parentheses where it has any.
pub open spec fn header_line(class_name: Seq<char>, bases: Option<Seq<char>>) -> Seq<char> {
    "class "@ + class_name + (match bases {
        Some(b) => seq!['('] + b + seq![')'],
        None => Seq::empty(),
    }) + seq![':']
}

/// Whether a text can stand as the bases of a class: a piece of one line
/// without a closing parenthesis.
pub open spec fn is_bases(bases: Option<Seq<char>>) -> bool {
    bases matches Some(b) ==> is_line(b) && forall|k: int| 0 <= k < b.len() ==> b[k] != ')'
}

/// Whether a line holds white space alone.
pub open spec fn is_blank_line(line: Seq<char>) -> bool {
    is_line(line) && forall|k: int| 0 <= k < line.len() ==> is_space(#[trigger] line[k])
}

/// The lines of a text that holds one class: lines that are no headers,
/// the header of the class, one line for each field, and blank lines.
pub open spec fn class_lines(
    before: Seq<Seq<char>>,
    class_name: Seq<char>,
    bases: Option<Seq<char>>,
    indent: nat,
    fields: Seq<FieldSource>,
    after: Seq<Seq<char>>,
) -> Seq<Seq<char>> {
    before + seq![header_line(class_name, bases)] + Seq::new(
        fields.len(),
        |i: int| field_line(indent, fields[i]),
    ) + after
}

/// The descriptors that well-formed fields are read as.
pub open spec fn declared_fields(fields: Seq<FieldSource>) -> Seq<VarModel> {
    Seq::new(
        fields.len(),
        |i: int| pydantic_variable(fields[i].name, fields[i].type_hint, written_value(fields[i])),
    )
}

/// The header of a class is read as one, and it is not indented.
proof fn lemma_header_line(class_name: Seq<char>, bases: Option<Seq<char>>)
    requires
        is_identifier(class_name),
        is_bases(bases),
    ensures
        is_class_header(header_line(class_name, bases)),
        indent_of(header_line(class_name, bases)) == 0,
        header_line(class_name, bases).len() > 0,
        is_line(header_line(class_name, bases)),
{
    reveal_strlit("class ");
    reveal_strlit("class");
    let line = header_line(class_name, bases);
    let n = class_name.len() as int;
    let mid = match bases {
        Some(b) => seq!['('] + b + seq![')'],
        None => Seq::<char>::empty(),
    };
    let m = mid.len() as int;
    lemma_scan(class_name, 0, Class::Ident);
    assert(line.len() == 7 + n + m);
    assert(line[0] == 'c' && line[5] == ' ' && line[6] == class_name[0]);
    assert(line[6 + n + m] == ':');
    assert forall|k: int| 0 <= k < n implies Class::Ident.has(#[trigger] line[6 + k]) by {
        assert(line[6 + k] == class_name[k]);
        assert(Class::Ident.has(class_name[k]));
    }
    assert forall|k: int| 0 <= k < m implies line[6 + n + k] == #[trigger] mid[k] by {}
    assert(is_line(line)) by {
        assert forall|k: int| 0 <= k < line.len() implies #[trigger] line[k] != '\n' by {
            if 6 <= k < 6 + n {
                assert(Class::Ident.has(line[6 + (k - 6)]));
            } else if 6 + n <= k < 6 + n + m {
                assert(line[6 + n + (k - 6 - n)] == mid[k - 6 - n]);
                if 0 < k - 6 - n < m - 1 {
                    assert(mid[k - 6 - n] == bases.unwrap()[k - 6 - n - 1]);
                }
            }
        }
    }
    assert(scan(line, 0, Class::Space) == 0);
    lemma_trim_padded(Seq::empty(), line, Seq::empty());
    assert(Seq::<char>::empty() + line + Seq::<char>::empty() =~= line);
    let t = trim(line);
    assert(t == line);
    assert(t.subrange(0, 5) =~= "class"@);
    lemma_scan_unique(t, 5, 6, Class::Space);
    assert forall|k: int| 6 <= k < 6 + n implies Class::Ident.has(#[trigger] t[k]) by {
        assert(Class::Ident.has(line[6 + (k - 6)]));
    }
    let e = 6 + n;
    match bases {
        Some(b) => {
            assert(t[e] == mid[0]);
            assert(t[e] == '(');
            lemma_scan_unique(t, 6, e, Class::Ident);
            lemma_scan_unique(t, e, e, Class::Space);
            let c = e + 1 + b.len();
            assert forall|k: int| e + 1 <= k < c implies Class::Except(')', ')').has(
                #[trigger] t[k],
            ) by {
                assert(t[6 + n + (k - e)] == mid[k - e]);
                assert(mid[k - e] == b[k - e - 1]);
            }
            assert(t[c] == mid[m - 1]);
            assert(t[c] == ')');
            lemma_scan_unique(t, e + 1, c, Class::Except(')', ')'));
            lemma_scan_unique(t, c + 1, c + 1, Class::Space);
        },
        None => {
            lemma_scan_unique(t, 6, e, Class::Ident);
            lemma_scan_unique(t, e, e, Class::Space);
        },
    }
}

/// What a field's line holds behind its indentation.
pub open spec fn field_body(f: FieldSource) -> Seq<char> {
    f.name + seq![':', ' '] + f.type_hint + match f.value {
        Some(v) => seq![' ', '=', ' '] + v,
        None => Seq::empty(),
    }
}

/// What a well-formed field's line holds behind its indentation neither
/// starts nor ends with white space, and holds no line feed.
proof fn lemma_field_body(f: FieldSource)
    requires
        is_field_source(f),
    ensures
        field_body(f).len() > 0,
        is_ident_start(field_body(f)[0]),
        !is_space(field_body(f).last()),
        is_line(field_body(f)),
{
    let n = f.name.len() as int;
    let m = f.type_hint.len() as int;
    let s = field_body(f);
    lemma_scan(f.name, 0, Class::Ident);
    assert(s[0] == f.name[0]);
    assert(s.last() == match f.value {
        Some(v) => v.last(),
        None => f.type_hint.last(),
    });
    assert forall|j: int| 0 <= j < s.len() implies #[trigger] s[j] != '\n' by {
        if j < n {
            assert(s[j] == f.name[j]);
            assert(Class::Ident.has(f.name[j]));
        } else if n + 2 <= j < n + 2 + m {
            assert(s[j] == f.type_hint[j - n - 2]);
        } else if j >= n + 2 + m + 3 {
            assert(s[j] == f.value.unwrap()[j - n - 2 - m - 3]);
        }
    }
}

/// A line that holds a well-formed field between white space declares
/// that field.
proof fn lemma_field_parts(line: Seq<char>, f: FieldSource)
    requires
        is_field_source(f),
        trim(line) == field_body(f),
    ensures
        field_parts(line) == Some((f.name, f.type_hint, written_value(f))),
{
    let n = f.name.len() as int;
    let m = f.type_hint.len() as int;
    let tail = match f.value {
        Some(v) => seq![' ', '=', ' '] + v,
        None => Seq::<char>::empty(),
    };
    let t = trim(line);
    lemma_scan(f.name, 0, Class::Ident);
    assert forall|k: int| 0 <= k < n implies Class::Ident.has(#[trigger] t[k]) by {
        assert(t[k] == f.name[k]);
        assert(Class::Ident.has(f.name[k]));
    }
    assert(t[0] == f.name[0]);
    assert(t[n] == ':');
    lemma_scan_unique(t, 0, n, Class::Ident);
    lemma_scan_unique(t, n, n, Class::Space);
    let rest = t.skip(n + 1);
    assert(rest =~= seq![' '] + f.type_hint + tail);
    let class = Class::Except('=', '=');
    assert(t.take(n) =~= f.name);
    match f.value {
        Some(v) => {
            assert(rest[1 + m] == ' ');
            assert(rest[2 + m] == '=');
            assert forall|k: int| 0 <= k < 2 + m implies class.has(#[trigger] rest[k]) by {
                if 0 < k < 1 + m {
                    assert(rest[k] == f.type_hint[k - 1]);
                }
            }
            lemma_scan_unique(rest, 0, 2 + m, class);
            assert(rest.take(2 + m) =~= seq![' '] + f.type_hint + seq![' ']);
            lemma_trim_padded(seq![' '], f.type_hint, seq![' ']);
            assert(rest.skip(3 + m) =~= seq![' '] + v + Seq::<char>::empty());
            lemma_trim_padded(seq![' '], v, Seq::empty());
        },
        None => {
            assert forall|k: int| 0 <= k < 1 + m implies class.has(#[trigger] rest[k]) by {
                if k > 0 {
                    assert(rest[k] == f.type_hint[k - 1]);
                }
            }
            lemma_scan_unique(rest, 0, 1 + m, class);
            assert(rest.take(1 + m) =~= seq![' '] + f.type_hint + Seq::<char>::empty());
            lemma_trim_padded(seq![' '], f.type_hint, Seq::empty());
        },
    }
}

/// The line of a well-formed field is indented as far as it says, is not
/// blank, and declares the field.
proof fn lemma_field_line(indent: nat, f: FieldSource)
    requires
        is_field_source(f),
    ensures
        indent_of(field_line(indent, f)) == indent,
        field_line(indent, f).len() > indent,
        is_line(field_line(indent, f)),
        field_parts(field_line(indent, f)) == Some((f.name, f.type_hint, written_value(f))),
{
    let line = field_line(indent, f);
    let pad = blanks(indent);
    let s = field_body(f);
    lemma_field_body(f);
    assert(line =~= pad + s + Seq::<char>::empty());
    assert forall|k: int| 0 <= k < indent implies Class::Space.has(#[trigger] line[k]) by {
        assert(line[k] == ' ');
    }
    assert(line[indent as int] == s[0]);
    lemma_scan_unique(line, 0, indent as int, Class::Space);
    assert(is_line(line)) by {
        assert forall|k: int| 0 <= k < line.len() implies #[trigger] line[k] != '\n' by {
            if k >= indent {
                assert(line[k] == s[k - indent]);
            } else {
                assert(line[k] == ' ');
            }
        }
    }
    lemma_trim_padded(pad, s, Seq::empty());
    lemma_field_parts(line, f);
}

/// Blank lines declare nothing, wherever the reading stands.
proof fn lemma_blank_lines(lines: Seq<Seq<char>>, i: int, state: Block)
    requires
        0 <= i,
        forall|k: int| i <= k < lines.len() ==> is_blank_line(#[trigger] lines[k]),
    ensures
        class_variables(lines, i, state) == Seq::<VarModel>::empty(),
    decreases lines.len() - i,
{
    if i < lines.len() {
        let line = lines[i];
        assert(is_blank_line(line));
        assert forall|k: int| 0 <= k < line.len() implies Class::Space.has(#[trigger] line[k]) by {}
        lemma_scan_unique(line, 0, line.len() as int, Class::Space);
        lemma_blank_lines(lines, i + 1, state);
    }
}

/// Lines that are no headers declare nothing while no class is open.
proof fn lemma_closed_lines(lines: Seq<Seq<char>>, i: int, j: int)
    requires
        0 <= i <= j <= lines.len(),
        forall|k: int| i <= k < j ==> !is_class_header(#[trigger] lines[k]),
    ensures
        class_variables(lines, i, Block { open: false, body: false, indent: 0 })
            == class_variables(lines, j, Block { open: false, body: false, indent: 0 }),
    decreases j - i,
{
    if i < j {
        assert(!is_class_header(lines[i]));
        lemma_closed_lines(lines, i + 1, j);
        assert(Seq::<VarModel>::empty() + class_variables(
            lines,
            i + 1,
            Block { open: false, body: false, indent: 0 },
        ) =~= class_variables(lines, i + 1, Block { open: false, body: false, indent: 0 }));
    }
}

/// The lines of well-formed fields, read inside a class whose body is
/// indented as they are and followed by blank lines alone, declare
/// exactly these fields.
proof fn lemma_fields_from(
    lines: Seq<Seq<char>>,
    base: int,
    j: int,
    state: Block,
    indent: nat,
    fields: Seq<FieldSource>,
)
    requires
        0 <= base,
        base + fields.len() <= lines.len(),
        0 <= j <= fields.len(),
        forall|k: int|
            0 <= k < fields.len() ==> lines[base + k] == field_line(indent, #[trigger] fields[k]),
        forall|k: int| base + fields.len() <= k < lines.len() ==> is_blank_line(#[trigger] lines[k]),
        forall|k: int| 0 <= k < fields.len() ==> is_field_source(#[trigger] fields[k]),
        0 < indent <= usize::MAX,
        state.open,
        if state.body {
            state.indent == indent
        } else {
            state.indent < indent
        },
    ensures
        class_variables(lines, base + j, state) == declared_fields(fields).skip(j),
    decreases fields.len() - j,
{
    if j < fields.len() {
        let f = fields[j];
        let i = base + j;
        assert(lines[base + j] == field_line(indent, f));
        lemma_field_line(indent, f);
        let next = Block { open: true, body: true, indent: indent as usize };
        assert(step(state, lines[i]).0 == next);
        assert(step(state, lines[i]).1 == Some(declared_fields(fields)[j]));
        lemma_fields_from(lines, base, j + 1, next, indent, fields);
        assert(seq![declared_fields(fields)[j]] + declared_fields(fields).skip(j + 1)
            =~= declared_fields(fields).skip(j));
    } else {
        lemma_blank_lines(lines, base + j, state);
        assert(declared_fields(fields).skip(j) =~= Seq::<VarModel>::empty());
    }
}

/// A class of well-formed fields declares exactly these fields. Take a
/// text of lines that are no headers, then the header of a class, with
/// or without bases, then one indented line for each field, then blank
/// lines, so that the text may or may not end in a line feed. As many
/// descriptors are read from it as there are fields, in their order,
/// each from the name, the annotation and the value of its field.
pub proof fn lemma_class_declares_its_fields(
    before: Seq<Seq<char>>,
    class_name: Seq<char>,
    bases: Option<Seq<char>>,
    indent: nat,
    fields: Seq<FieldSource>,
    after: Seq<Seq<char>>,
)
    requires
        forall|k: int|
            0 <= k < before.len() ==> is_line(#[trigger] before[k]) && !is_class_header(before[k]),
        is_identifier(class_name),
        is_bases(bases),
        0 < indent <= usize::MAX,
        forall|k: int| 0 <= k < fields.len() ==> is_field_source(#[trigger] fields[k]),
        forall|k: int| 0 <= k < after.len() ==> is_blank_line(#[trigger] after[k]),
    ensures
        pydantic_variables(
            join_lines(class_lines(before, class_name, bases, indent, fields, after)),
        ) == declared_fields(fields),
{
    let lines = class_lines(before, class_name, bases, indent, fields, after);
    let at = before.len() as int;
    let base = at + 1;
    lemma_header_line(class_name, bases);
    assert(lines[at] == header_line(class_name, bases));
    assert forall|k: int| 0 <= k < fields.len() implies lines[base + k] == field_line(
        indent,
        #[trigger] fields[k],
    ) by {}
    assert forall|k: int| base + fields.len() <= k < lines.len() implies is_blank_line(
        #[trigger] lines[k],
    ) by {
        assert(lines[k] == after[k - base - fields.len()]);
    }
    assert forall|k: int| 0 <= k < lines.len() implies is_line(#[trigger] lines[k]) by {
        if k < at {
            assert(lines[k] == before[k]);
        } else if base <= k < base + fields.len() {
            assert(lines[base + (k - base)] == field_line(indent, fields[k - base]));
            lemma_field_line(indent, fields[k - base]);
        }
    }
    lemma_split_of_join(lines);
    let closed = Block { open: false, body: false, indent: 0 };
    let header = Block { open: true, body: false, indent: 0 };
    assert forall|k: int| 0 <= k < at implies !is_class_header(#[trigger] lines[k]) by {
        assert(lines[k] == before[k]);
    }
    lemma_closed_lines(lines, 0, at);
    assert(step(closed, lines[at]).0 == header);
    assert(step(closed, lines[at]).1 is None);
    lemma_fields_from(lines, base, 0, header, indent, fields);
    assert(declared_fields(fields).skip(0) =~= declared_fields(fields));
    assert(Seq::<VarModel>::empty() + class_variables(lines, base, header) =~= class_variables(
        lines,
        base,
        header,
    ));
}

fn class_header(line: &[char]) -> (r: bool)
    ensures
        r == is_class_header(line@),
{
    proof {
        reveal_strlit("class");
    }
    let t = trim_of(line);
    let kw = chars_of("class");
    if !has_at(t, 0, kw.as_slice()) {
        return false;
    }
    let a = scan_class(t, kw.len(), Class::Space);
    if a <= kw.len() || a >= t.len() || !char_is_ident_start(t[a]) {
        return false;
    }
    let e = scan_class(t, a, Class::Ident);
    let b = scan_class(t, e, Class::Space);
    let d = if b < t.len() && t[b] == '(' {
        let c = scan_class(t, b + 1, Class::Except(')', ')'));
        if c < t.len() {
            scan_class(t, c + 1, Class::Space)
        } else {
            t.len()
        }
    } else {
        b
    };
    d < t.len() && d == t.len() - 1 && t[d] == ':'
}

/// The text that a value written in the class stands for: see `sanitized`.
pub fn sanitize_python_value(value: &str) -> (r: String)
    ensures
        r@ == sanitized(value@),
{
    sanitized_of(chars_of(value).as_slice())
}

fn sanitized_of(value: &[char]) -> (r: String)
    ensures
        r@ == sanitized(value@),
{
    let v = trim_of(value);
    if fully_quoted(v) {
        string_of(slice_subrange(v, 1, v.len() - 1))
    } else if same_chars(v, chars_of("True").as_slice()) {
        String::from_str("true")
    } else if same_chars(v, chars_of("False").as_slice()) {
        String::from_str("false")
    } else if same_chars(v, chars_of("None").as_slice()) {
        String::new()
    } else {
        string_of(v)
    }
}

fn first_quoted_arg_in(s: &[char], key: &[char]) -> (r: Option<String>)
    ensures
        text_of(r) == first_quoted_arg(s@, 0, key@),
{
    let n = s.len();
    let mut i: usize = 0;
    while i < n
        invariant
            n == s@.len(),
            first_quoted_arg(s@, 0, key@) == first_quoted_arg(s@, i as int, key@),
        decreases n - i,
    {
        if has_at(s, i, key) {
            let a = scan_class(s, i + key.len(), Class::Space);
            if a < n && s[a] == '=' {
                let b = scan_class(s, a + 1, Class::Space);
                if b < n && (s[b] == '"' || s[b] == '\'') {
                    let e = scan_class(s, b + 1, Class::Except(s[b], s[b]));
                    if b + 1 < e && e < n {
                        return Some(string_of(slice_subrange(s, b + 1, e)));
                    }
                }
            }
        }
        i += 1;
    }
    None
}

fn first_plain_arg_in<'a>(s: &'a [char], key: &[char]) -> (r: Option<&'a [char]>)
    ensures
        match r {
            Some(text) => first_plain_arg(s@, 0, key@) == Some(text@),
            None => first_plain_arg(s@, 0, key@) is None,
        },
{
    let n = s.len();
    let mut i: usize = 0;
    while i < n
        invariant
            n == s@.len(),
            first_plain_arg(s@, 0, key@) == first_plain_arg(s@, i as int, key@),
        decreases n - i,
    {
        if has_at(s, i, key) {
            let a = scan_class(s, i + key.len(), Class::Space);
            if a < n && s[a] == '=' {
                let b = scan_class(s, a + 1, Class::Space);
                let e = scan_class(s, b, Class::Except(')', ','));
                if b < e {
                    return Some(slice_subrange(s, b, e));
                }
            }
        }
        i += 1;
    }
    None
}

fn field_call(value: &[char]) -> (r: bool)
    ensures
        r == is_field_call(value@),
{
    contains_in(value, chars_of("Field(").as_slice())
}

fn field_description_of(value: &[char]) -> (r: Option<String>)
    ensures
        text_of(r) == field_description(value@),
{
    if field_call(value) {
        first_quoted_arg_in(value, chars_of("description").as_slice())
    } else {
        None
    }
}

fn field_default_of(value: &[char]) -> (r: Option<String>)
    ensures
        text_of(r) == field_default(value@),
{
    if field_call(value) {
        match first_plain_arg_in(value, chars_of("default").as_slice()) {
            Some(text) => Some(sanitized_of(text)),
            None => None,
        }
    } else if trim_of(value).len() > 0 {
        Some(sanitized_of(value))
    } else {
        None
    }
}

/// Reads the arguments of a call of `Field` into the parts of a
/// descriptor. A part that the call says nothing of keeps the value it
/// had. The flag is left as it is.
pub fn parse_field_args(
    value: &str,
    description: &mut Option<String>,
    default: &mut Option<String>,
    _optional: &mut bool,
)
    ensures
        text_of(*final(description)) == match first_quoted_arg(value@, 0, "description"@) {
            Some(d) => Some(d),
            None => text_of(*old(description)),
        },
        text_of(*final(default)) == match first_plain_arg(value@, 0, "default"@) {
            Some(d) => Some(sanitized(d)),
            None => text_of(*old(default)),
        },
        *final(_optional) == *old(_optional),
{
    let chars = chars_of(value);
    match first_quoted_arg_in(chars.as_slice(), chars_of("description").as_slice()) {
        Some(d) => {
            *description = Some(d);
        },
        None => {},
    }
    match first_plain_arg_in(chars.as_slice(), chars_of("default").as_slice()) {
        Some(text) => {
            *default = Some(sanitized_of(text));
        },
        None => {},
    }
}

fn none_member_in(s: &[char]) -> (r: bool)
    ensures
        r == none_member_from(s@, 0),
{
    proof {
        reveal_strlit("None");
    }
    let word = chars_of("None");
    let union = find_in(s, 0, chars_of("Union[").as_slice());
    let n = s.len();
    let mut i: usize = 0;
    while i < n
        invariant
            n == s@.len(),
            word@ == "None"@,
            word@.len() == 4,
            match union {
                Some(u) => find(s@, 0, "Union["@) == Some(u as int),
                None => find(s@, 0, "Union["@) is None,
            },
            none_member_from(s@, 0) == none_member_from(s@, i as int),
        decreases n - i,
    {
        if has_at(s, i, word.as_slice()) && (i == 0 || !char_is_ident(s[i - 1])) && (n - i <= 4
            || !char_is_ident(s[i + 4])) {
            let left = scan_class_back_from(s, i, Class::Space);
            let right = scan_class(s, i + 4, Class::Space);
            let behind_union = match union {
                Some(u) => u < i,
                None => false,
            };
            if (left > 0 && s[left - 1] == '|') || (right < n && s[right] == '|') || behind_union {
                return true;
            }
        }
        i += 1;
    }
    false
}

fn allows_none_in(type_hint: &[char]) -> (r: bool)
    ensures
        r == allows_none(type_hint@),
{
    contains_in(type_hint, chars_of("Optional[").as_slice()) || contains_in(
        type_hint,
        chars_of("NoneType").as_slice(),
    ) || none_member_in(type_hint)
}

/// Builds the descriptor of a field: see `field_descriptor`.
pub fn describe_field(name: String, var_type: EnvType, type_hint: &[char], value: &[char]) -> (r:
    EnvVar)
    ensures
        r@ == field_descriptor(name@, var_type, type_hint@, value@),
        r@.wf(),
{
    let default = field_default_of(value);
    let optional = allows_none_in(type_hint) || default.is_some();
    EnvVar {
        name,
        var_type,
        description: field_description_of(value),
        default,
        optional,
        group: None,
    }
}

fn variable_of(name: &[char], type_hint: &[char], value: &[char]) -> (r: EnvVar)
    ensures
        r@ == pydantic_variable(name@, type_hint@, value@),
        r@.wf(),
{
    let upper = to_uppercase(string_of(name).as_str());
    let word = to_lowercase(string_of(type_hint).as_str());
    let var_type = type_of_word(chars_of(word.as_str()).as_slice());
    describe_field(upper, var_type, type_hint, value)
}

/// Adds the descriptor of one field to the list: see `pydantic_variable`.
pub fn parse_field_assignment(name: &str, type_hint: &str, value: &str, variables: &mut Vec<EnvVar>)
    ensures
        final(variables).deep_view() == old(variables).deep_view().push(
            pydantic_variable(name@, type_hint@, value@),
        ),
{
    let ghost before = variables.deep_view();
    let v = variable_of(
        chars_of(name).as_slice(),
        chars_of(type_hint).as_slice(),
        chars_of(value).as_slice(),
    );
    variables.push(v);
    assert(variables.deep_view() =~= before.push(pydantic_variable(name@, type_hint@, value@)));
}

fn field_in(line: &[char]) -> (r: Option<EnvVar>)
    ensures
        match r {
            Some(v) => field_of_line(line@) == Some(v@) && v@.wf(),
            None => field_of_line(line@) is None,
        },
{
    let t = trim_of(line);
    let n = if t.len() > 0 && char_is_ident_start(t[0]) {
        scan_class(t, 0, Class::Ident)
    } else {
        0
    };
    let c = scan_class(t, n, Class::Space);
    if n == 0 || c >= t.len() || t[c] != ':' {
        return None;
    }
    let rest = slice_subrange(t, c + 1, t.len());
    let eq = scan_class(rest, 0, Class::Except('=', '='));
    let type_hint = trim_of(slice_subrange(rest, 0, eq));
    if type_hint.len() == 0 {
        return None;
    }
    let empty: Vec<char> = Vec::new();
    let v = if eq < rest.len() {
        variable_of(
            slice_subrange(t, 0, n),
            type_hint,
            trim_of(slice_subrange(rest, eq + 1, rest.len())),
        )
    } else {
        assert(empty@ =~= Seq::<char>::empty());
        variable_of(slice_subrange(t, 0, n), type_hint, empty.as_slice())
    };
    Some(v)
}

fn step_in(state: Block, line: &[char]) -> (r: (Block, Option<EnvVar>))
    ensures
        r.0 == step(state, line@).0,
        match r.1 {
            Some(v) => step(state, line@).1 == Some(v@) && v@.wf(),
            None => step(state, line@).1 is None,
        },
{
    let ind = scan_class(line, 0, Class::Space);
    let inside = state.open && if state.body {
        ind >= state.indent
    } else {
        ind > state.indent
    };
    if ind >= line.len() {
        (state, None)
    } else if inside {
        let level = if state.body {
            state.indent
        } else {
            ind
        };
        let field = if ind == level {
            field_in(line)
        } else {
            None
        };
        (Block { open: true, body: true, indent: level }, field)
    } else if class_header(line) {
        (Block { open: true, body: false, indent: ind }, None)
    } else {
        (Block { open: false, body: false, indent: 0 }, None)
    }
}

/// Adds the variables that a text of this dialect declares to the list:
/// see `pydantic_variables`.
pub fn find_class_definitions(content: &str, variables: &mut Vec<EnvVar>)
    ensures
        final(variables).deep_view() == old(variables).deep_view() + pydantic_variables(content@),
{
    let chars = chars_of(content);
    let lines = lines_of(chars.as_slice());
    let ghost all = split_lines(content@);
    let ghost start = variables.deep_view();
    let ghost mut done: Seq<VarModel> = Seq::empty();
    let mut state = Block { open: false, body: false, indent: 0 };
    let mut i: usize = 0;
    assert(start + done =~= start);
    assert(done + class_variables(all, 0, state) =~= pydantic_variables(content@));
    while i < lines.len()
        invariant
            i <= lines@.len(),
            all == lines.deep_view(),
            start == old(variables).deep_view(),
            variables.deep_view() == start + done,
            pydantic_variables(content@) == done + class_variables(all, i as int, state),
        decreases lines@.len() - i,
    {
        assert(all[i as int] =~= lines@[i as int]@);
        let ghost before = variables.deep_view();
        let ghost here: Seq<VarModel> = match step(state, all[i as int]).1 {
            Some(v) => seq![v],
            None => Seq::empty(),
        };
        let (next, field) = step_in(state, lines[i].as_slice());
        match field {
            Some(v) => {
                variables.push(v);
            },
            None => {},
        }
        assert(variables.deep_view() =~= before + here);
        proof {
            assert(done + (here + class_variables(all, i + 1, next)) =~= (done + here)
                + class_variables(all, i + 1, next));
            assert(start + done + here =~= start + (done + here));
            done = done + here;
        }
        state = next;
        i += 1;
    }
    assert(done + Seq::<VarModel>::empty() =~= done);
}

/// Reads the variables that a text of this dialect declares.
///
/// Every field of every class gives one descriptor, in the order of the
/// text. A text that declares none gives `None`. Every descriptor that has
/// a default value is optional.
pub fn parse_pydantic_schema(file_path: &str, content: &str) -> (r: Option<ParsedSchema>)
    ensures
        match r {
            Some(parsed) => {
                &&& parsed@.source == (SourceModel {
                    dialect: Dialect::Pydantic,
                    file_path: file_path@,
                })
                &&& parsed@.variables == pydantic_variables(content@)
                &&& parsed@.variables.len() > 0
                &&& all_wf(parsed@.variables)
            },
            None => pydantic_variables(content@).len() == 0,
        },
{
    let mut variables: Vec<EnvVar> = Vec::new();
    find_class_definitions(content, &mut variables);
    assert(variables.deep_view() =~= pydantic_variables(content@));
    proof {
        lemma_class_variables_wf(
            split_lines(content@),
            0,
            Block { open: false, body: false, indent: 0 },
        );
    }
    if variables.len() == 0 {
        return None;
    }
    Some(
        ParsedSchema {
            source: SchemaSource::Pydantic { file_path: String::from_str(file_path) },
            variables,
        },
    )
}

} // verus!
