//! The object-schema dialect: variables declared as the properties of an
//! object literal that is handed to a schema builder's `.object( ... )`.
//!
//! The text is scanned, not parsed. An object is the text between the
//! brace that follows `.object(` and the brace that closes it, and it must
//! be followed by the call's closing parenthesis. Inside, the
//! properties are parted at the commas that stand outside all brackets. A
//! property is recognised by the first identifier of its part that is
//! followed by a colon; what follows the colon is its chain of calls, from
//! which the descriptor is read.

use crate::schema::{all_wf, env_type_of, type_of_word};
use crate::env_file::is_identifier;
use crate::text::{
    char_is_ident_start, chars_of, closing, closing_in, contains, contains_in, find, find_in,
    fully_quoted, has_at, is_fully_quoted, is_ident_start, is_space, lemma_contains, lemma_scan,
    lemma_scan_unique, lemma_trim_blank_tail, matches_at, scan, scan_class, string_of, trim, trim_of, Class,
};
use crate::types::{
    text_of, Dialect, EnvType, EnvVar, ParsedSchema, SchemaSource, SourceModel, VarModel,
};
use vstd::prelude::*;
use vstd::slice::slice_subrange;

verus! {

/// The word for the primitive type that a chain of calls builds on: the
/// first of `z.string`, `z.number`, `z.boolean`, `z.int`, `z.float` that the
/// chain holds, named without its `z.`, and else the first of the coercing
/// constructors for number, boolean and string.
pub open spec fn type_word(value: Seq<char>) -> Option<Seq<char>> {
    if contains(value, "z.string"@) {
        Some("string"@)
    } else if contains(value, "z.number"@) {
        Some("number"@)
    } else if contains(value, "z.boolean"@) {
        Some("boolean"@)
    } else if contains(value, "z.int"@) {
        Some("int"@)
    } else if contains(value, "z.float"@) {
        Some("float"@)
    } else if contains(value, "z.coerce.number"@) {
        Some("number"@)
    } else if contains(value, "z.coerce.boolean"@) {
        Some("boolean"@)
    } else if contains(value, "z.coerce.string"@) {
        Some("string"@)
    } else {
        None
    }
}

/// The arguments of a call of `method` that begins at index `i`: the text
/// between the parenthesis behind the method's name and the one that
/// closes it, given by its two ends.
pub open spec fn call_at(s: Seq<char>, i: int, method: Seq<char>) -> Option<(int, int)> {
    let a = scan(s, i + method.len(), Class::Space);
    if matches_at(s, i, method) && a < s.len() && s[a] == '(' {
        match closing(s, a + 1, '(', ')', 0) {
            Some(c) => Some((a + 1, c)),
            None => None,
        }
    } else {
        None
    }
}

/// The arguments of the first call of `method` at or after index `i`.
pub open spec fn first_call(s: Seq<char>, i: int, method: Seq<char>) -> Option<Seq<char>>
    decreases s.len() - i,
{
    if i < 0 || i >= s.len() {
        None
    } else {
        match call_at(s, i, method) {
            Some((a, c)) => Some(s.subrange(a, c)),
            None => first_call(s, i + 1, method),
        }
    }
}

/// What a string literal holds: the text between its quotes.
pub open spec fn unquoted(t: Seq<char>) -> Option<Seq<char>> {
    if is_fully_quoted(t) {
        Some(t.subrange(1, t.len() - 1))
    } else {
        None
    }
}

/// The description: the string literal handed to the first `.describe( ... )`.
pub open spec fn zod_description(value: Seq<char>) -> Option<Seq<char>> {
    match first_call(value, 0, ".describe"@) {
        Some(args) => unquoted(trim(args)),
        None => None,
    }
}

/// The default value: what is handed to the first `.default( ... )`. A
/// string literal is taken without its quotes, anything else as it is
/// written. A call without arguments gives no default.
pub open spec fn zod_default(value: Seq<char>) -> Option<Seq<char>> {
    match first_call(value, 0, ".default"@) {
        Some(args) => {
            let t = trim(args);
            if t.len() == 0 {
                None
            } else if is_fully_quoted(t) {
                unquoted(t)
            } else {
                Some(t)
            }
        },
        None => None,
    }
}

/// The string literal that the field `group` is given in the text: the
/// word `group`, a colon, and a quoted text.
pub open spec fn group_field(args: Seq<char>) -> Option<Seq<char>> {
    match find(args, 0, "group"@) {
        Some(g) => {
            let a = scan(args, g + "group"@.len(), Class::Space);
            let b = scan(args, a + 1, Class::Space);
            if a < args.len() && args[a] == ':' && b < args.len() && (args[b] == '"' || args[b]
                == '\'') {
                let e = scan(args, b + 1, Class::Except(args[b], args[b]));
                if e < args.len() {
                    Some(args.subrange(b + 1, e))
                } else {
                    None
                }
            } else {
                None
            }
        },
        None => None,
    }
}

/// The group: the field `group` of what is handed to the first `.register( ... )`.
pub open spec fn zod_group(value: Seq<char>) -> Option<Seq<char>> {
    match first_call(value, 0, ".register"@) {
        Some(args) => group_field(args),
        None => None,
    }
}

/// Whether the chain marks the property as optional or nullable.
pub open spec fn zod_marked_optional(value: Seq<char>) -> bool {
    contains(value, ".optional("@) || contains(value, ".nullable("@)
}

/// The type that the chain builds on, `String` where it names none.
pub open spec fn zod_type(value: Seq<char>) -> EnvType {
    match type_word(value) {
        Some(word) => env_type_of(word),
        None => EnvType::String,
    }
}

/// The descriptor of a property, from its name and its chain of calls. A
/// property with a default value is optional, marked or not.
pub open spec fn zod_variable(name: Seq<char>, value: Seq<char>) -> VarModel {
    let chain = trim(value);
    VarModel {
        name,
        var_type: zod_type(chain),
        description: zod_description(chain),
        default: zod_default(chain),
        optional: zod_marked_optional(chain) || zod_default(chain) is Some,
        group: zod_group(chain),
    }
}

/// Whether a property begins at index `i`: an identifier, then a colon.
/// Gives the end of the name and the index behind the colon.
pub open spec fn head_at(seg: Seq<char>, i: int) -> Option<(int, int)> {
    let e = scan(seg, i, Class::Ident);
    let c = scan(seg, e, Class::Space);
    if 0 <= i < seg.len() && is_ident_start(seg[i]) && c < seg.len() && seg[c] == ':' {
        Some((e, c + 1))
    } else {
        None
    }
}

/// The property that a part of an object declares: its name is the first
/// identifier at or after `i` that a colon follows, its chain is the rest
/// of the part.
pub open spec fn property_from(seg: Seq<char>, i: int) -> Option<VarModel>
    decreases seg.len() - i,
{
    if i < 0 || i >= seg.len() {
        None
    } else {
        match head_at(seg, i) {
            Some((e, v)) => Some(zod_variable(seg.subrange(i, e), seg.skip(v))),
            None => property_from(seg, i + 1),
        }
    }
}

/// Whether `c` opens a bracket.
pub open spec fn opens(c: char) -> bool {
    c == '(' || c == '[' || c == '{'
}

/// Whether `c` closes a bracket.
pub open spec fn closes(c: char) -> bool {
    c == ')' || c == ']' || c == '}'
}

/// The index of the first comma at or after `i` that stands outside all
/// brackets, `depth` of them being open at `i`; the length of `s` where
/// there is none.
pub open spec fn top_comma(s: Seq<char>, i: int, depth: nat) -> int
    decreases s.len() - i,
{
    if i < 0 || i >= s.len() {
        s.len() as int
    } else if opens(s[i]) {
        top_comma(s, i + 1, depth + 1)
    } else if closes(s[i]) {
        top_comma(
            s,
            i + 1,
            if depth > 0 {
                (depth - 1) as nat
            } else {
                0
            },
        )
    } else if s[i] == ',' && depth == 0 {
        i
    } else {
        top_comma(s, i + 1, depth)
    }
}

/// The properties that the body of an object declares from index `i` on,
/// one for each part that holds one. A part ends at the next comma
/// outside brackets, which never lies before `i`.
pub open spec fn object_variables(body: Seq<char>, i: int) -> Seq<VarModel>
    decreases body.len() - i,
{
    if i < 0 || i > body.len() {
        Seq::empty()
    } else {
        let c = top_comma(body, i, 0);
        let here = match property_from(body.subrange(i, if i <= c <= body.len() {
            c
        } else {
            i
        }), 0) {
            Some(v) => seq![v],
            None => Seq::empty(),
        };
        if i <= c < body.len() {
            here + object_variables(body, c + 1)
        } else {
            here
        }
    }
}

/// An object that begins at index `i`: `.object`, a parenthesis, a brace,
/// the body up to the closing brace, and the closing parenthesis. Gives the
/// two ends of the body and the index behind the parenthesis.
pub open spec fn object_at(s: Seq<char>, i: int) -> Option<(int, int, int)> {
    let a = scan(s, i + ".object"@.len(), Class::Space);
    let b = scan(s, a + 1, Class::Space);
    if matches_at(s, i, ".object"@) && a < s.len() && s[a] == '(' && b < s.len() && s[b] == '{' {
        match closing(s, b + 1, '{', '}', 0) {
            Some(c) => {
                let d = scan(s, c + 1, Class::Space);
                if d < s.len() && s[d] == ')' {
                    Some((b + 1, c, d + 1))
                } else {
                    None
                }
            },
            None => None,
        }
    } else {
        None
    }
}

/// The variables of all objects that begin at or after index `i`. The
/// search for the next object goes on behind the one that was found,
/// which always lies behind `i`.
pub open spec fn zod_variables_from(s: Seq<char>, i: int) -> Seq<VarModel>
    decreases s.len() - i,
{
    if i < 0 || i >= s.len() {
        Seq::empty()
    } else {
        match object_at(s, i) {
            Some((from, to, next)) => object_variables(s.subrange(from, to), 0)
                + zod_variables_from(
                s,
                if next > i {
                    next
                } else {
                    i + 1
                },
            ),
            None => zod_variables_from(s, i + 1),
        }
    }
}

/// The variables that a text of this dialect declares.
pub open spec fn zod_variables(content: Seq<char>) -> Seq<VarModel> {
    zod_variables_from(content, 0)
}

/// Every descriptor of a property is well formed.
pub proof fn lemma_property_wf(seg: Seq<char>, i: int)
    ensures
        property_from(seg, i) matches Some(v) ==> v.wf(),
    decreases seg.len() - i,
{
    if 0 <= i < seg.len() && head_at(seg, i) is None {
        lemma_property_wf(seg, i + 1);
    }
}

/// Every descriptor read from an object is well formed.
pub proof fn lemma_object_wf(body: Seq<char>, i: int)
    ensures
        all_wf(object_variables(body, i)),
    decreases body.len() - i,
{
    if 0 <= i <= body.len() {
        let c = top_comma(body, i, 0);
        lemma_property_wf(body.subrange(i, if i <= c <= body.len() {
            c
        } else {
            i
        }), 0);
        if i <= c < body.len() {
            lemma_object_wf(body, c + 1);
        }
    }
}

/// Every descriptor read from a text of this dialect is well formed: one
/// that has a default value is optional.
pub proof fn lemma_zod_wf(s: Seq<char>, i: int)
    ensures
        all_wf(zod_variables_from(s, i)),
    decreases s.len() - i,
{
    if 0 <= i < s.len() {
        match object_at(s, i) {
            Some((from, to, next)) => {
                lemma_object_wf(s.subrange(from, to), 0);
                lemma_zod_wf(s, if next > i {
                    next
                } else {
                    i + 1
                });
            },
            None => {
                lemma_zod_wf(s, i + 1);
            },
        }
    }
}

/// How many brackets are open behind the first `n` characters of `s`:
/// braces alone, or brackets of every kind.
pub open spec fn depth(s: Seq<char>, n: int, braces_only: bool) -> int
    decreases n,
{
    if n <= 0 || n > s.len() {
        0
    } else {
        depth(s, n - 1, braces_only) + if braces_only {
            if s[n - 1] == '{' {
                1int
            } else if s[n - 1] == '}' {
                -1int
            } else {
                0int
            }
        } else {
            if opens(s[n - 1]) {
                1int
            } else if closes(s[n - 1]) {
                -1int
            } else {
                0int
            }
        }
    }
}

/// Whether the brackets of a text are balanced: none is closed that was
/// not opened, and none is left open.
pub open spec fn is_balanced(s: Seq<char>, braces_only: bool) -> bool {
    &&& forall|n: int| 0 <= n <= s.len() ==> #[trigger] depth(s, n, braces_only) >= 0
    &&& depth(s, s.len() as int, braces_only) == 0
}

/// Whether every comma of a text stands inside brackets.
pub open spec fn commas_are_inside(s: Seq<char>) -> bool {
    forall|k: int| 0 <= k < s.len() && s[k] == ',' ==> #[trigger] depth(s, k, false) > 0
}

/// Whether a text holds neither a bracket nor a comma.
pub open spec fn is_flat(s: Seq<char>) -> bool {
    forall|k: int| 0 <= k < s.len() ==> !opens(#[trigger] s[k]) && !closes(s[k]) && s[k] != ','
}

/// The depth within two texts laid end to end.
proof fn lemma_depth_concat(a: Seq<char>, b: Seq<char>, n: int, braces_only: bool)
    requires
        0 <= n <= a.len() + b.len(),
    ensures
        depth(a + b, n, braces_only) == if n <= a.len() {
            depth(a, n, braces_only)
        } else {
            depth(a, a.len() as int, braces_only) + depth(b, n - a.len(), braces_only)
        },
    decreases n,
{
    assert(depth(b, 0, braces_only) == 0);
    if n > 0 {
        lemma_depth_concat(a, b, n - 1, braces_only);
        if n <= a.len() {
            assert((a + b)[n - 1] == a[n - 1]);
        } else {
            assert((a + b)[n - 1] == b[n - 1 - a.len()]);
            assert(depth(b, n - a.len(), braces_only) == depth(b, n - a.len() - 1, braces_only)
                + depth(a + b, n, braces_only) - depth(a + b, n - 1, braces_only));
        }
    }
}

/// A text without brackets has depth 0 throughout.
proof fn lemma_depth_flat(s: Seq<char>, n: int, braces_only: bool)
    requires
        is_flat(s),
        0 <= n <= s.len(),
    ensures
        depth(s, n, braces_only) == 0,
    decreases n,
{
    if n > 0 {
        lemma_depth_flat(s, n - 1, braces_only);
    }
}

/// Balanced texts laid end to end are balanced.
proof fn lemma_balanced_concat(a: Seq<char>, b: Seq<char>, braces_only: bool)
    requires
        is_balanced(a, braces_only),
        is_balanced(b, braces_only),
    ensures
        is_balanced(a + b, braces_only),
{
    assert forall|n: int| 0 <= n <= (a + b).len() implies #[trigger] depth(a + b, n, braces_only)
        >= 0 by {
        lemma_depth_concat(a, b, n, braces_only);
        if n > a.len() {
            assert(depth(b, n - a.len(), braces_only) >= 0);
        } else {
            assert(depth(a, n, braces_only) >= 0);
        }
    }
    lemma_depth_concat(a, b, (a + b).len() as int, braces_only);
}

/// A text without brackets is balanced.
proof fn lemma_flat_is_balanced(s: Seq<char>, braces_only: bool)
    requires
        is_flat(s),
    ensures
        is_balanced(s, braces_only),
{
    assert forall|n: int| 0 <= n <= s.len() implies #[trigger] depth(s, n, braces_only) >= 0 by {
        lemma_depth_flat(s, n, braces_only);
    }
    lemma_depth_flat(s, s.len() as int, braces_only);
}

/// The search for a closing brace passes over a text whose braces are
/// balanced.
proof fn lemma_closing_passes(s: Seq<char>, i: int, x: Seq<char>, j: int, d: nat)
    requires
        0 <= i,
        i + x.len() <= s.len(),
        s.subrange(i, i + x.len()) == x,
        is_balanced(x, true),
        0 <= j <= x.len(),
    ensures
        closing(s, i + j, '{', '}', (d + depth(x, j, true)) as nat) == closing(
            s,
            i + x.len(),
            '{',
            '}',
            d,
        ),
    decreases x.len() - j,
{
    if j < x.len() {
        assert(depth(x, j, true) >= 0);
        assert(depth(x, j + 1, true) >= 0);
        assert(s[i + j] == x[j]) by {
            assert(s.subrange(i, i + x.len())[j] == s[i + j]);
        }
        lemma_closing_passes(s, i, x, j + 1, d);
    }
}

/// The search for a comma outside brackets passes over a text whose
/// brackets are balanced and whose commas stand inside brackets.
proof fn lemma_top_comma_passes(s: Seq<char>, i: int, x: Seq<char>, j: int)
    requires
        0 <= i,
        i + x.len() <= s.len(),
        s.subrange(i, i + x.len()) == x,
        is_balanced(x, false),
        commas_are_inside(x),
        0 <= j <= x.len(),
    ensures
        top_comma(s, i + j, depth(x, j, false) as nat) == top_comma(s, i + x.len(), 0),
    decreases x.len() - j,
{
    if j < x.len() {
        assert(depth(x, j, false) >= 0);
        assert(depth(x, j + 1, false) >= 0);
        assert(s[i + j] == x[j]) by {
            assert(s.subrange(i, i + x.len())[j] == s[i + j]);
        }
        if x[j] == ',' {
            assert(depth(x, j, false) > 0);
        }
        lemma_top_comma_passes(s, i, x, j + 1);
    }
}

/// A property as the text of an object declares it: white space, the
/// name, a colon, and the chain of calls.
pub struct PropertySource {
    pub pad: Seq<char>,
    pub name: Seq<char>,
    pub chain: Seq<char>,
}

/// Whether a text is white space throughout.
pub open spec fn is_blank(s: Seq<char>) -> bool {
    forall|k: int| 0 <= k < s.len() ==> is_space(#[trigger] s[k])
}

/// Whether a property is well formed: its name is an identifier, the
/// brackets of its chain are balanced, and every comma of the chain
/// stands inside brackets.
pub open spec fn is_property_source(p: PropertySource) -> bool {
    &&& is_blank(p.pad)
    &&& is_identifier(p.name)
    &&& is_balanced(p.chain, false)
    &&& is_balanced(p.chain, true)
    &&& commas_are_inside(p.chain)
}

/// The text of a property.
pub open spec fn property_text(p: PropertySource) -> Seq<char> {
    p.pad + p.name + seq![':'] + p.chain
}

/// The body of an object from its `j`-th property on: the properties
/// with a comma between them, a comma behind the last where `last_comma`
/// says so, and `tail` at the end.
pub open spec fn body_text(
    props: Seq<PropertySource>,
    j: int,
    last_comma: bool,
    tail: Seq<char>,
) -> Seq<char>
    decreases props.len() - j,
{
    if j < 0 || j >= props.len() {
        tail
    } else if j == props.len() - 1 && !last_comma {
        property_text(props[j]) + tail
    } else {
        property_text(props[j]) + seq![','] + body_text(props, j + 1, last_comma, tail)
    }
}

/// The text of a file that holds one object: what stands before it,
/// `.object({`, the body, `})`, and what stands behind it.
pub open spec fn object_text(
    before: Seq<char>,
    props: Seq<PropertySource>,
    last_comma: bool,
    tail: Seq<char>,
    after: Seq<char>,
) -> Seq<char> {
    before + ".object({"@ + body_text(props, 0, last_comma, tail) + seq!['}', ')'] + after
}

/// Whether `pat` begins nowhere within `before`, when `pat` follows it.
pub open spec fn begins_nowhere(before: Seq<char>, pat: Seq<char>) -> bool {
    forall|i: int| 0 <= i < before.len() ==> !#[trigger] matches_at(before + pat, i, pat)
}

/// The descriptors that well-formed properties are read as.
pub open spec fn declared_properties(props: Seq<PropertySource>) -> Seq<VarModel> {
    Seq::new(props.len(), |i: int| zod_variable(props[i].name, props[i].chain))
}

/// White space holds neither a bracket nor a comma.
proof fn lemma_blank_is_flat(s: Seq<char>)
    requires
        is_blank(s),
    ensures
        is_flat(s),
{
    assert forall|k: int| 0 <= k < s.len() implies !opens(#[trigger] s[k]) && !closes(s[k]) && s[k]
        != ',' by {
        assert(is_space(s[k]));
    }
}

/// What stands before the chain of a property holds neither a bracket
/// nor a comma.
proof fn lemma_head_is_flat(p: PropertySource)
    requires
        is_property_source(p),
    ensures
        is_flat(p.pad + p.name + seq![':']),
{
    let head = p.pad + p.name + seq![':'];
    lemma_blank_is_flat(p.pad);
    lemma_scan(p.name, 0, Class::Ident);
    assert forall|k: int| 0 <= k < head.len() implies !opens(#[trigger] head[k]) && !closes(
        head[k],
    ) && head[k] != ',' by {
        if k < p.pad.len() {
            assert(head[k] == p.pad[k]);
        } else if k < p.pad.len() + p.name.len() {
            assert(head[k] == p.name[k - p.pad.len()]);
            assert(Class::Ident.has(p.name[k - p.pad.len()]));
        }
    }
}

/// The text of a well-formed property is balanced, for braces and for
/// brackets of every kind, and its commas stand inside brackets.
proof fn lemma_property_text_balanced(p: PropertySource)
    requires
        is_property_source(p),
    ensures
        is_balanced(property_text(p), true),
        is_balanced(property_text(p), false),
        commas_are_inside(property_text(p)),
{
    let head = p.pad + p.name + seq![':'];
    let text = property_text(p);
    lemma_head_is_flat(p);
    lemma_flat_is_balanced(head, true);
    lemma_flat_is_balanced(head, false);
    lemma_balanced_concat(head, p.chain, true);
    lemma_balanced_concat(head, p.chain, false);
    assert(text =~= head + p.chain);
    assert forall|k: int| 0 <= k < text.len() && text[k] == ',' implies #[trigger] depth(
        text,
        k,
        false,
    ) > 0 by {
        lemma_depth_concat(head, p.chain, k, false);
        lemma_depth_flat(head, head.len() as int, false);
        if k < head.len() {
            assert(text[k] == head[k]);
        } else {
            assert(text[k] == p.chain[k - head.len()]);
            assert(depth(p.chain, k - head.len(), false) > 0);
        }
    }
}

/// White space declares no property.
proof fn lemma_blank_declares_nothing(seg: Seq<char>, i: int)
    requires
        is_blank(seg),
        0 <= i,
    ensures
        property_from(seg, i) is None,
    decreases seg.len() - i,
{
    if i < seg.len() {
        assert(is_space(seg[i]));
        lemma_blank_declares_nothing(seg, i + 1);
    }
}

/// The text of a well-formed property, with white space behind it,
/// declares that property.
proof fn lemma_property_text_declares(p: PropertySource, tail: Seq<char>, i: int)
    requires
        is_property_source(p),
        is_blank(tail),
        0 <= i <= p.pad.len(),
    ensures
        property_from(property_text(p) + tail, i) == Some(zod_variable(p.name, p.chain)),
    decreases p.pad.len() - i,
{
    let seg = property_text(p) + tail;
    let start = p.pad.len() as int;
    let n = p.name.len() as int;
    lemma_scan(p.name, 0, Class::Ident);
    if i < start {
        assert(seg[i] == p.pad[i]);
        assert(is_space(seg[i]));
        lemma_property_text_declares(p, tail, i + 1);
    } else {
        assert(seg[start] == p.name[0]);
        assert forall|k: int| start <= k < start + n implies Class::Ident.has(#[trigger] seg[k]) by {
            assert(seg[k] == p.name[k - start]);
            assert(Class::Ident.has(p.name[k - start]));
        }
        assert(seg[start + n] == ':');
        lemma_scan_unique(seg, start, start + n, Class::Ident);
        lemma_scan_unique(seg, start + n, start + n, Class::Space);
        assert(seg.subrange(start, start + n) =~= p.name);
        assert(seg.skip(start + n + 1) =~= p.chain + tail);
        lemma_trim_blank_tail(p.chain, tail);
    }
}

/// The text of a well-formed property, with white space behind it, is
/// balanced, and its commas stand inside brackets.
proof fn lemma_property_with_tail(p: PropertySource, tail: Seq<char>)
    requires
        is_property_source(p),
        is_blank(tail),
    ensures
        is_balanced(property_text(p) + tail, true),
        is_balanced(property_text(p) + tail, false),
        commas_are_inside(property_text(p) + tail),
{
    let x = property_text(p);
    let text = x + tail;
    lemma_property_text_balanced(p);
    lemma_blank_is_flat(tail);
    lemma_flat_is_balanced(tail, true);
    lemma_flat_is_balanced(tail, false);
    lemma_balanced_concat(x, tail, true);
    lemma_balanced_concat(x, tail, false);
    assert forall|k: int| 0 <= k < text.len() && text[k] == ',' implies #[trigger] depth(
        text,
        k,
        false,
    ) > 0 by {
        lemma_depth_concat(x, tail, k, false);
        if k < x.len() {
            assert(text[k] == x[k]);
            assert(depth(x, k, false) > 0);
        } else {
            assert(text[k] == tail[k - x.len()]);
        }
    }
}

/// The body of an object of well-formed properties is balanced for
/// braces.
proof fn lemma_body_balanced(props: Seq<PropertySource>, j: int, last_comma: bool, tail: Seq<char>)
    requires
        0 <= j <= props.len(),
        is_blank(tail),
        forall|k: int| 0 <= k < props.len() ==> is_property_source(#[trigger] props[k]),
    ensures
        is_balanced(body_text(props, j, last_comma, tail), true),
    decreases props.len() - j,
{
    if j >= props.len() {
        lemma_blank_is_flat(tail);
        lemma_flat_is_balanced(tail, true);
    } else if j == props.len() - 1 && !last_comma {
        lemma_property_with_tail(props[j], tail);
    } else {
        lemma_body_balanced(props, j + 1, last_comma, tail);
        lemma_property_text_balanced(props[j]);
        lemma_comma_balanced();
        lemma_balanced_concat(property_text(props[j]), seq![','], true);
        lemma_balanced_concat(
            property_text(props[j]) + seq![','],
            body_text(props, j + 1, last_comma, tail),
            true,
        );
    }
}

/// A comma is balanced for braces.
proof fn lemma_comma_balanced()
    ensures
        is_balanced(seq![','], true),
{
    let s = seq![','];
    assert forall|n: int| 0 <= n <= s.len() implies #[trigger] depth(s, n, true) >= 0 by {
        assert(depth(s, 0, true) == 0);
        assert(depth(s, 1, true) == 0);
    }
    assert(depth(s, 0, true) == 0);
    assert(depth(s, 1, true) == 0);
}

/// The body of an object of well-formed properties declares exactly
/// these properties.
proof fn lemma_body_declares(
    body: Seq<char>,
    i: int,
    props: Seq<PropertySource>,
    j: int,
    last_comma: bool,
    tail: Seq<char>,
)
    requires
        0 <= i <= body.len(),
        0 <= j <= props.len(),
        body.skip(i) == body_text(props, j, last_comma, tail),
        is_blank(tail),
        forall|k: int| 0 <= k < props.len() ==> is_property_source(#[trigger] props[k]),
    ensures
        object_variables(body, i) == declared_properties(props).skip(j),
    decreases props.len() - j,
{
    if j >= props.len() {
        assert(body.subrange(i, body.len() as int) == tail);
        lemma_blank_is_flat(tail);
        lemma_flat_is_balanced(tail, false);
        assert(commas_are_inside(tail));
        assert(depth(tail, 0, false) == 0);
        lemma_top_comma_passes(body, i, tail, 0);
        lemma_blank_declares_nothing(tail, 0);
        assert(declared_properties(props).skip(j) =~= Seq::<VarModel>::empty());
    } else if j == props.len() - 1 && !last_comma {
        let p = props[j];
        let x = property_text(p) + tail;
        assert(body.subrange(i, body.len() as int) == x);
        lemma_property_with_tail(p, tail);
        assert(depth(x, 0, false) == 0);
        lemma_top_comma_passes(body, i, x, 0);
        lemma_property_text_declares(p, tail, 0);
        assert(declared_properties(props).skip(j) =~= seq![declared_properties(props)[j]]);
    } else {
        let p = props[j];
        let x = property_text(p);
        let rest = body_text(props, j + 1, last_comma, tail);
        assert(body.skip(i) == x + seq![','] + rest);
        assert(body.len() - i == x.len() + 1 + rest.len());
        assert(body.subrange(i, i + x.len()) =~= x) by {
            assert forall|k: int| 0 <= k < x.len() implies body.subrange(i, i + x.len())[k]
                == x[k] by {
                assert(body.skip(i)[k] == x[k]);
            }
        }
        assert(body[i + x.len()] == ',') by {
            assert(body.skip(i)[x.len() as int] == ',');
        }
        lemma_property_text_balanced(p);
        assert(depth(x, 0, false) == 0);
        lemma_top_comma_passes(body, i, x, 0);
        let c = i + x.len();
        assert(top_comma(body, c, 0) == c);
        lemma_property_text_declares(p, Seq::empty(), 0);
        assert(x + Seq::<char>::empty() =~= x);
        assert(body.skip(c + 1) =~= rest) by {
            assert forall|k: int| 0 <= k < rest.len() implies body.skip(c + 1)[k] == rest[k] by {
                assert(body.skip(i)[x.len() + 1 + k] == rest[k]);
            }
        }
        lemma_body_declares(body, c + 1, props, j + 1, last_comma, tail);
        assert(seq![declared_properties(props)[j]] + declared_properties(props).skip(j + 1)
            =~= declared_properties(props).skip(j));
    }
}

/// No object is found where `.object` stands nowhere.
proof fn lemma_no_object_between(content: Seq<char>, i: int, end: int)
    requires
        0 <= i <= end,
        forall|k: int| i <= k < end ==> !#[trigger] matches_at(content, k, ".object"@),
    ensures
        zod_variables_from(content, i) == zod_variables_from(
            content,
            if end <= content.len() {
                end
            } else {
                content.len() as int
            },
        ),
    decreases end - i,
{
    if i < end && i < content.len() {
        assert(!matches_at(content, i, ".object"@));
        lemma_no_object_between(content, i + 1, end);
    }
}

/// An object of well-formed properties declares exactly these
/// properties. Take a text that holds one object: what stands before it,
/// in which `.object` begins nowhere; `.object({`; the properties with a
/// comma between them and, at will, behind the last; white space; `})`;
/// and what stands behind it, in which `.object` stands nowhere. As many
/// descriptors are read from it as there are properties, in their
/// order, each from the name and the chain of its property.
pub proof fn lemma_object_declares_its_properties(
    before: Seq<char>,
    props: Seq<PropertySource>,
    last_comma: bool,
    tail: Seq<char>,
    after: Seq<char>,
)
    requires
        begins_nowhere(before, ".object"@),
        !contains(after, ".object"@),
        is_blank(tail),
        forall|k: int| 0 <= k < props.len() ==> is_property_source(#[trigger] props[k]),
    ensures
        zod_variables(object_text(before, props, last_comma, tail, after)) == declared_properties(
            props,
        ),
{
    reveal_strlit(".object");
    reveal_strlit(".object({");
    let pat = ".object"@;
    let body = body_text(props, 0, last_comma, tail);
    let content = object_text(before, props, last_comma, tail, after);
    let p = before.len() as int;
    let from = p + 9;
    let to = from + body.len();
    let end = to + 2;
    assert(content.len() == end + after.len());
    assert forall|k: int| 0 <= k < p implies !#[trigger] matches_at(content, k, pat) by {
        if matches_at(content, k, pat) {
            assert(content.subrange(k, k + 7) =~= (before + pat).subrange(k, k + 7));
            assert(matches_at(before + pat, k, pat));
        }
    }
    lemma_no_object_between(content, 0, p);
    assert(content.subrange(p, p + 7) =~= pat);
    assert(content[p + 7] == '(');
    assert(content[p + 8] == '{');
    lemma_scan_unique(content, p + 7, p + 7, Class::Space);
    lemma_scan_unique(content, p + 8, p + 8, Class::Space);
    assert(content.subrange(from, to) =~= body);
    lemma_body_balanced(props, 0, last_comma, tail);
    assert(depth(body, 0, true) == 0);
    lemma_closing_passes(content, from, body, 0, 0);
    assert(content[to] == '}');
    assert(content[to + 1] == ')');
    assert(closing(content, to, '{', '}', 0) == Some(to));
    lemma_scan_unique(content, to + 1, to + 1, Class::Space);
    assert(object_at(content, p) == Some((from, to, end)));
    lemma_contains(after, pat);
    assert forall|k: int| end <= k < content.len() implies !#[trigger] matches_at(
        content,
        k,
        pat,
    ) by {
        if matches_at(content, k, pat) {
            assert(content.subrange(k, k + 7) =~= after.subrange(k - end, k - end + 7));
            assert(matches_at(after, k - end, pat));
        }
    }
    lemma_no_object_between(content, end, content.len() as int);
    assert(zod_variables_from(content, content.len() as int) =~= Seq::<VarModel>::empty());
    assert(body.skip(0) =~= body);
    lemma_body_declares(body, 0, props, 0, last_comma, tail);
    assert(declared_properties(props).skip(0) =~= declared_properties(props));
    assert(declared_properties(props) + Seq::<VarModel>::empty() =~= declared_properties(props));
}

fn first_call_in<'a>(s: &'a [char], method: &[char]) -> (r: Option<&'a [char]>)
    ensures
        match r {
            Some(args) => first_call(s@, 0, method@) == Some(args@),
            None => first_call(s@, 0, method@) is None,
        },
{
    let mut i: usize = 0;
    while i < s.len()
        invariant
            first_call(s@, 0, method@) == first_call(s@, i as int, method@),
        decreases s@.len() - i,
    {
        if has_at(s, i, method) {
            let a = scan_class(s, i + method.len(), Class::Space);
            if a < s.len() && s[a] == '(' {
                match closing_in(s, a + 1, '(', ')') {
                    Some(c) => {
                        return Some(slice_subrange(s, a + 1, c));
                    },
                    None => {},
                }
            }
        }
        i += 1;
    }
    None
}

fn type_word_of(chain: &[char]) -> (r: Option<&'static str>)
    ensures
        match r {
            Some(word) => type_word(chain@) == Some(word@),
            None => type_word(chain@) is None,
        },
{
    if contains_in(chain, chars_of("z.string").as_slice()) {
        Some("string")
    } else if contains_in(chain, chars_of("z.number").as_slice()) {
        Some("number")
    } else if contains_in(chain, chars_of("z.boolean").as_slice()) {
        Some("boolean")
    } else if contains_in(chain, chars_of("z.int").as_slice()) {
        Some("int")
    } else if contains_in(chain, chars_of("z.float").as_slice()) {
        Some("float")
    } else if contains_in(chain, chars_of("z.coerce.number").as_slice()) {
        Some("number")
    } else if contains_in(chain, chars_of("z.coerce.boolean").as_slice()) {
        Some("boolean")
    } else if contains_in(chain, chars_of("z.coerce.string").as_slice()) {
        Some("string")
    } else {
        None
    }
}

fn unquoted_of(t: &[char]) -> (r: Option<String>)
    ensures
        text_of(r) == unquoted(t@),
{
    if fully_quoted(t) {
        Some(string_of(slice_subrange(t, 1, t.len() - 1)))
    } else {
        None
    }
}

fn description_of(chain: &[char]) -> (r: Option<String>)
    ensures
        text_of(r) == zod_description(chain@),
{
    match first_call_in(chain, chars_of(".describe").as_slice()) {
        Some(args) => unquoted_of(trim_of(args)),
        None => None,
    }
}

fn default_of(chain: &[char]) -> (r: Option<String>)
    ensures
        text_of(r) == zod_default(chain@),
{
    match first_call_in(chain, chars_of(".default").as_slice()) {
        Some(args) => {
            let t = trim_of(args);
            if t.len() == 0 {
                None
            } else if fully_quoted(t) {
                unquoted_of(t)
            } else {
                Some(string_of(t))
            }
        },
        None => None,
    }
}

fn group_field_of(args: &[char]) -> (r: Option<String>)
    ensures
        text_of(r) == group_field(args@),
{
    let word = chars_of("group");
    match find_in(args, 0, word.as_slice()) {
        Some(g) => {
            proof {
                crate::text::lemma_find(args@, 0, word@);
            }
            let n = args.len();
            let a = scan_class(args, g + word.len(), Class::Space);
            if a >= n || args[a] != ':' {
                return None;
            }
            let b = scan_class(args, a + 1, Class::Space);
            if b >= args.len() || (args[b] != '"' && args[b] != '\'') {
                return None;
            }
            let e = scan_class(args, b + 1, Class::Except(args[b], args[b]));
            if e < args.len() {
                Some(string_of(slice_subrange(args, b + 1, e)))
            } else {
                None
            }
        },
        None => None,
    }
}

fn group_of(chain: &[char]) -> (r: Option<String>)
    ensures
        text_of(r) == zod_group(chain@),
{
    match first_call_in(chain, chars_of(".register").as_slice()) {
        Some(args) => group_field_of(args),
        None => None,
    }
}

fn marked_optional(chain: &[char]) -> (r: bool)
    ensures
        r == zod_marked_optional(chain@),
{
    contains_in(chain, chars_of(".optional(").as_slice()) || contains_in(
        chain,
        chars_of(".nullable(").as_slice(),
    )
}

fn variable_of(name: &[char], value: &[char]) -> (v: EnvVar)
    ensures
        v@ == zod_variable(name@, value@),
        v@.wf(),
{
    let chain = trim_of(value);
    let var_type = match type_word_of(chain) {
        Some(word) => type_of_word(chars_of(word).as_slice()),
        None => EnvType::String,
    };
    let default = default_of(chain);
    let optional = marked_optional(chain) || default.is_some();
    EnvVar {
        name: string_of(name),
        var_type,
        description: description_of(chain),
        default,
        optional,
        group: group_of(chain),
    }
}

fn property_in(seg: &[char]) -> (r: Option<EnvVar>)
    ensures
        match r {
            Some(v) => property_from(seg@, 0) == Some(v@),
            None => property_from(seg@, 0) is None,
        },
{
    let mut i: usize = 0;
    while i < seg.len()
        invariant
            property_from(seg@, 0) == property_from(seg@, i as int),
        decreases seg@.len() - i,
    {
        if char_is_ident_start(seg[i]) {
            let e = scan_class(seg, i, Class::Ident);
            let c = scan_class(seg, e, Class::Space);
            if c < seg.len() && seg[c] == ':' {
                let v = variable_of(
                    slice_subrange(seg, i, e),
                    slice_subrange(seg, c + 1, seg.len()),
                );
                return Some(v);
            }
        }
        i += 1;
    }
    None
}

fn top_comma_in(s: &[char], from: usize) -> (r: usize)
    requires
        from <= s@.len(),
    ensures
        r == top_comma(s@, from as int, 0),
        from <= r <= s@.len(),
{
    let mut i: usize = from;
    let mut depth: usize = 0;
    while i < s.len()
        invariant
            from <= i <= s@.len(),
            depth <= i - from,
            top_comma(s@, from as int, 0) == top_comma(s@, i as int, depth as nat),
        decreases s@.len() - i,
    {
        let c = s[i];
        if c == '(' || c == '[' || c == '{' {
            depth += 1;
        } else if c == ')' || c == ']' || c == '}' {
            if depth > 0 {
                depth -= 1;
            }
        } else if c == ',' && depth == 0 {
            return i;
        }
        i += 1;
    }
    i
}

fn object_variables_in(body: &[char], variables: &mut Vec<EnvVar>)
    ensures
        final(variables).deep_view() == old(variables).deep_view() + object_variables(body@, 0),
{
    let ghost start = variables.deep_view();
    let mut i: usize = 0;
    assert(start + Seq::<VarModel>::empty() =~= start);
    let ghost mut done: Seq<VarModel> = Seq::empty();
    loop
        invariant
            i <= body@.len(),
            start == old(variables).deep_view(),
            variables.deep_view() == start + done,
            object_variables(body@, 0) == done + object_variables(body@, i as int),
        decreases body@.len() - i,
    {
        let c = top_comma_in(body, i);
        let ghost before = variables.deep_view();
        let found = property_in(slice_subrange(body, i, c));
        let ghost here: Seq<VarModel> = match property_from(body@.subrange(i as int, c as int), 0) {
            Some(v) => seq![v],
            None => Seq::empty(),
        };
        match found {
            Some(v) => {
                variables.push(v);
            },
            None => {},
        }
        assert(variables.deep_view() =~= before + here);
        assert(object_variables(body@, i as int) == if c < body@.len() {
            here + object_variables(body@, c + 1)
        } else {
            here
        });
        if c >= body.len() {
            assert(start + (done + here) =~= start + done + here);
            return ;
        }
        proof {
            assert(done + (here + object_variables(body@, c + 1)) =~= (done + here)
                + object_variables(body@, c + 1));
            assert(start + (done + here) =~= start + done + here);
            done = done + here;
        }
        i = c + 1;
    }
}

fn object_in(s: &[char], i: usize) -> (r: Option<(usize, usize, usize)>)
    requires
        i < s@.len(),
    ensures
        match r {
            Some((from, to, next)) => object_at(s@, i as int) == Some(
                (from as int, to as int, next as int),
            ) && from <= to < s@.len() && i < next <= s@.len(),
            None => object_at(s@, i as int) is None,
        },
{
    proof {
        reveal_strlit(".object");
    }
    let kw = chars_of(".object");
    let n = s.len();
    if !has_at(s, i, kw.as_slice()) {
        return None;
    }
    let a = scan_class(s, i + kw.len(), Class::Space);
    if a >= s.len() || s[a] != '(' {
        return None;
    }
    let b = scan_class(s, a + 1, Class::Space);
    if b >= s.len() || s[b] != '{' {
        return None;
    }
    match closing_in(s, b + 1, '{', '}') {
        Some(c) => {
            let d = scan_class(s, c + 1, Class::Space);
            if d < s.len() && s[d] == ')' {
                Some((b + 1, c, d + 1))
            } else {
                None
            }
        },
        None => None,
    }
}

fn zod_variables_in(s: &[char], variables: &mut Vec<EnvVar>)
    ensures
        final(variables).deep_view() == old(variables).deep_view() + zod_variables(s@),
{
    let ghost start = variables.deep_view();
    let ghost mut done: Seq<VarModel> = Seq::empty();
    let mut i: usize = 0;
    assert(start + done =~= start);
    assert(done + zod_variables_from(s@, 0) =~= zod_variables(s@));
    while i < s.len()
        invariant
            variables.deep_view() == start + done,
            zod_variables(s@) == done + zod_variables_from(s@, i as int),
        decreases s@.len() - i,
    {
        match object_in(s, i) {
            Some((from, to, next)) => {
                let ghost found = object_variables(s@.subrange(from as int, to as int), 0);
                object_variables_in(slice_subrange(s, from, to), variables);
                proof {
                    assert(done + (found + zod_variables_from(s@, next as int)) =~= (done + found)
                        + zod_variables_from(s@, next as int));
                    assert(start + done + found =~= start + (done + found));
                    done = done + found;
                }
                i = next;
            },
            None => {
                i += 1;
            },
        }
    }
    assert(done + Seq::<VarModel>::empty() =~= done);
}

/// The word for the primitive type that a chain of calls builds on: see
/// `type_word`.
pub fn extract_type_name(value: &str) -> (r: Option<&'static str>)
    ensures
        match r {
            Some(word) => type_word(value@) == Some(word@),
            None => type_word(value@) is None,
        },
{
    type_word_of(chars_of(value).as_slice())
}

/// The description that a chain of calls gives: see `zod_description`.
pub fn extract_description(value: &str) -> (r: Option<String>)
    ensures
        text_of(r) == zod_description(value@),
{
    description_of(chars_of(value).as_slice())
}

/// The default value that a chain of calls gives: see `zod_default`.
pub fn extract_default(value: &str) -> (r: Option<String>)
    ensures
        text_of(r) == zod_default(value@),
{
    default_of(chars_of(value).as_slice())
}

/// The group that a chain of calls gives: see `zod_group`.
pub fn extract_group(value: &str) -> (r: Option<String>)
    ensures
        text_of(r) == zod_group(value@),
{
    group_of(chars_of(value).as_slice())
}

/// Reads a chain of calls into the parts of a descriptor. A part that the
/// chain says nothing of keeps the value it had; `optional` is set where
/// the chain marks the property optional or nullable, and never cleared.
pub fn parse_type_chain(
    value: &str,
    var_type: &mut EnvType,
    description: &mut Option<String>,
    default: &mut Option<String>,
    optional: &mut bool,
    group: &mut Option<String>,
)
    ensures
        *final(optional) == (*old(optional) || zod_marked_optional(trim(value@))),
        *final(var_type) == match type_word(trim(value@)) {
            Some(word) => env_type_of(word),
            None => *old(var_type),
        },
        text_of(*final(description)) == match zod_description(trim(value@)) {
            Some(d) => Some(d),
            None => text_of(*old(description)),
        },
        text_of(*final(default)) == match zod_default(trim(value@)) {
            Some(d) => Some(d),
            None => text_of(*old(default)),
        },
        text_of(*final(group)) == match zod_group(trim(value@)) {
            Some(g) => Some(g),
            None => text_of(*old(group)),
        },
{
    let chars = chars_of(value);
    let chain = trim_of(chars.as_slice());
    if marked_optional(chain) {
        *optional = true;
    }
    match type_word_of(chain) {
        Some(word) => {
            *var_type = type_of_word(chars_of(word).as_slice());
        },
        None => {},
    }
    match description_of(chain) {
        Some(d) => {
            *description = Some(d);
        },
        None => {},
    }
    match default_of(chain) {
        Some(d) => {
            *default = Some(d);
        },
        None => {},
    }
    match group_of(chain) {
        Some(g) => {
            *group = Some(g);
        },
        None => {},
    }
}

/// Adds the descriptor of one property to the list: see `zod_variable`.
pub fn parse_property_chain(name: &str, value: &str, variables: &mut Vec<EnvVar>)
    ensures
        final(variables).deep_view() == old(variables).deep_view().push(
            zod_variable(name@, value@),
        ),
{
    let mut var_type = EnvType::String;
    let mut description: Option<String> = None;
    let mut default: Option<String> = None;
    let mut optional = false;
    let mut group: Option<String> = None;
    parse_type_chain(value, &mut var_type, &mut description, &mut default, &mut optional, &mut group);
    if default.is_some() {
        optional = true;
    }
    let ghost before = variables.deep_view();
    variables.push(EnvVar { name: String::from_str(name), var_type, description, default, optional, group });
    assert(variables.deep_view() =~= before.push(zod_variable(name@, value@)));
}

/// Adds the properties that the body of an object declares to the list:
/// see `object_variables`.
pub fn parse_object_properties(properties: &str, variables: &mut Vec<EnvVar>)
    ensures
        final(variables).deep_view() == old(variables).deep_view() + object_variables(
            properties@,
            0,
        ),
{
    object_variables_in(chars_of(properties).as_slice(), variables);
}

/// Adds the variables of all objects of a text to the list: see
/// `zod_variables`.
pub fn find_zod_object_definitions(content: &str, variables: &mut Vec<EnvVar>)
    ensures
        final(variables).deep_view() == old(variables).deep_view() + zod_variables(content@),
{
    zod_variables_in(chars_of(content).as_slice(), variables);
}

/// Reads the variables that a text of this dialect declares.
///
/// Every property of every object gives one descriptor, in the order of
/// the text; a name that is declared twice is given twice. A text that
/// declares none gives `None`. Every descriptor that has a default value
/// is optional.
pub fn parse_zod_schema(file_path: &str, content: &str) -> (r: Option<ParsedSchema>)
    ensures
        match r {
            Some(parsed) => {
                &&& parsed@.source == (SourceModel { dialect: Dialect::Zod, file_path: file_path@ })
                &&& parsed@.variables == zod_variables(content@)
                &&& parsed@.variables.len() > 0
                &&& all_wf(parsed@.variables)
            },
            None => zod_variables(content@).len() == 0,
        },
{
    let mut variables: Vec<EnvVar> = Vec::new();
    find_zod_object_definitions(content, &mut variables);
    assert(variables.deep_view() =~= zod_variables(content@));
    proof {
        lemma_zod_wf(content@, 0);
    }
    if variables.len() == 0 {
        return None;
    }
    Some(
        ParsedSchema {
            source: SchemaSource::Zod { file_path: String::from_str(file_path) },
            variables,
        },
    )
}

} // verus!
