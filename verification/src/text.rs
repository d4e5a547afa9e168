//! Character sequences: the classes of characters the scanners tell apart,
//! and the primitive scans that every grammar in this crate is built from.
//!
//! Executable functions work on `&[char]`; their contracts speak of the
//! slice's view, a `Seq<char>`.

use vstd::prelude::*;
use vstd::slice::slice_subrange;

verus! {

/// `String::push` appends one character.
pub assume_specification[ std::string::String::push ](s: &mut std::string::String, c: char)
    ensures
        final(s)@ == old(s)@.push(c),
;

/// Unicode's `White_Space` property, the set that `str::trim` removes.
pub open spec fn is_space(c: char) -> bool {
    let n = c as u32;
    ||| 0x09 <= n <= 0x0d
    ||| n == 0x20
    ||| n == 0x85
    ||| n == 0xa0
    ||| n == 0x1680
    ||| 0x2000 <= n <= 0x200a
    ||| n == 0x2028
    ||| n == 0x2029
    ||| n == 0x202f
    ||| n == 0x205f
    ||| n == 0x3000
}

/// A character that may begin an identifier: an ASCII letter or `_`.
pub open spec fn is_ident_start(c: char) -> bool {
    ('a' <= c <= 'z') || ('A' <= c <= 'Z') || c == '_'
}

/// A character that may continue an identifier: an ASCII letter, digit or `_`.
pub open spec fn is_ident_char(c: char) -> bool {
    is_ident_start(c) || ('0' <= c <= '9')
}

/// A set of characters that a scan runs over.
#[derive(Clone, Copy, Debug)]
pub enum Class {
    /// White space.
    Space,
    /// Identifier characters.
    Ident,
    /// Every character but the two given ones.
    Except(char, char),
    /// The given character alone.
    Only(char),
}

impl Class {
    /// Whether `c` belongs to the class.
    pub open spec fn has(self, c: char) -> bool {
        match self {
            Class::Space => is_space(c),
            Class::Ident => is_ident_char(c),
            Class::Except(a, b) => c != a && c != b,
            Class::Only(a) => c == a,
        }
    }

    /// Whether `c` belongs to the class.
    pub fn contains(&self, c: char) -> (r: bool)
        ensures
            r == self.has(c),
    {
        match self {
            Class::Space => char_is_space(c),
            Class::Ident => char_is_ident(c),
            Class::Except(a, b) => c != *a && c != *b,
            Class::Only(a) => c == *a,
        }
    }
}

/// Whether `c` is white space.
pub fn char_is_space(c: char) -> (r: bool)
    ensures
        r == is_space(c),
{
    let n: u32 = c as u32;
    (0x09 <= n && n <= 0x0d) || n == 0x20 || n == 0x85 || n == 0xa0 || n == 0x1680 || (0x2000 <= n
        && n <= 0x200a) || n == 0x2028 || n == 0x2029 || n == 0x202f || n == 0x205f || n == 0x3000
}

/// Whether `c` may begin an identifier.
pub fn char_is_ident_start(c: char) -> (r: bool)
    ensures
        r == is_ident_start(c),
{
    (c >= 'a' && c <= 'z') || (c >= 'A' && c <= 'Z') || c == '_'
}

/// Whether `c` may continue an identifier.
pub fn char_is_ident(c: char) -> (r: bool)
    ensures
        r == is_ident_char(c),
{
    char_is_ident_start(c) || (c >= '0' && c <= '9')
}

/// The characters of a string, in order.
pub fn chars_of(s: &str) -> (v: Vec<char>)
    ensures
        v@ == s@,
{
    let mut v: Vec<char> = Vec::new();
    for c in it: s.chars()
        invariant
            v@ == it.seq().take(it.index() as int),
            it.seq() == s@,
    {
        v.push(c);
    }
    v
}

/// The string made of the given characters.
pub fn string_of(chars: &[char]) -> (s: String)
    ensures
        s@ == chars@,
{
    let mut s = String::new();
    let mut i: usize = 0;
    while i < chars.len()
        invariant
            i <= chars@.len(),
            s@ == chars@.take(i as int),
        decreases chars@.len() - i,
    {
        s.push(chars[i]);
        i += 1;
    }
    s
}

/// The first index at or after `i` whose character is outside `class`,
/// or the length of `s` if the run reaches the end.
pub open spec fn scan(s: Seq<char>, i: int, class: Class) -> int
    decreases s.len() - i,
{
    if 0 <= i < s.len() && class.has(s[i]) {
        scan(s, i + 1, class)
    } else {
        i
    }
}

/// What `scan` returns, said without recursion: everything from `i` up to
/// the result is in the class, and the result is the end of `s` or a
/// character outside the class.
pub proof fn lemma_scan(s: Seq<char>, i: int, class: Class)
    requires
        0 <= i <= s.len(),
    ensures
        i <= scan(s, i, class) <= s.len(),
        forall|k: int| i <= k < scan(s, i, class) ==> class.has(#[trigger] s[k]),
        scan(s, i, class) < s.len() ==> !class.has(s[scan(s, i, class)]),
    decreases s.len() - i,
{
    if i < s.len() && class.has(s[i]) {
        lemma_scan(s, i + 1, class);
    }
}

/// A run that is known to hold from `i` to `j` and to stop at `j` is the
/// one `scan` finds.
pub proof fn lemma_scan_unique(s: Seq<char>, i: int, j: int, class: Class)
    requires
        0 <= i <= j <= s.len(),
        forall|k: int| i <= k < j ==> class.has(#[trigger] s[k]),
        j < s.len() ==> !class.has(s[j]),
    ensures
        scan(s, i, class) == j,
    decreases j - i,
{
    if i < j {
        lemma_scan_unique(s, i + 1, j, class);
    }
}

/// Runs over the characters of `class` from index `from`: see `scan`.
pub fn scan_class(s: &[char], from: usize, class: Class) -> (r: usize)
    ensures
        r == scan(s@, from as int, class),
        from <= r,
        from <= s@.len() ==> r <= s@.len(),
{
    let mut i: usize = from;
    while i < s.len() && class.contains(s[i])
        invariant
            from <= i,
            from <= s@.len() ==> i <= s@.len(),
            scan(s@, from as int, class) == scan(s@, i as int, class),
        decreases s@.len() - i,
    {
        i += 1;
    }
    i
}

/// The least index from which everything up to `j` is in `class`.
pub open spec fn scan_back(s: Seq<char>, j: int, class: Class) -> int
    decreases j,
{
    if 0 < j <= s.len() && class.has(s[j - 1]) {
        scan_back(s, j - 1, class)
    } else {
        j
    }
}

/// What `scan_back` returns, said without recursion.
pub proof fn lemma_scan_back(s: Seq<char>, j: int, class: Class)
    requires
        0 <= j <= s.len(),
    ensures
        0 <= scan_back(s, j, class) <= j,
        forall|k: int| scan_back(s, j, class) <= k < j ==> class.has(#[trigger] s[k]),
        scan_back(s, j, class) > 0 ==> !class.has(s[scan_back(s, j, class) - 1]),
    decreases j,
{
    if 0 < j && class.has(s[j - 1]) {
        lemma_scan_back(s, j - 1, class);
    }
}

/// Runs backwards over the characters of `class` from index `from`: see
/// `scan_back`.
pub fn scan_class_back_from(s: &[char], from: usize, class: Class) -> (r: usize)
    ensures
        r == scan_back(s@, from as int, class),
        r <= from,
{
    let mut j: usize = from;
    while j > 0 && j <= s.len() && class.contains(s[j - 1])
        invariant
            j <= from,
            scan_back(s@, from as int, class) == scan_back(s@, j as int, class),
        decreases j,
    {
        j -= 1;
    }
    j
}

/// Runs backwards over the characters of `class` from the end of `s`:
/// see `scan_back`.
pub fn scan_class_back(s: &[char], class: Class) -> (r: usize)
    ensures
        r == scan_back(s@, s@.len() as int, class),
        r <= s@.len(),
{
    scan_class_back_from(s, s.len(), class)
}

/// Where `s` ends once the white space at its end is cut off.
pub open spec fn trimmed_end(s: Seq<char>) -> int {
    scan_back(s, s.len() as int, Class::Space)
}

/// `s` without the white space at its start.
pub open spec fn trim_start(s: Seq<char>) -> Seq<char> {
    s.skip(scan(s, 0, Class::Space))
}

/// `s` without the white space at its end.
pub open spec fn trim_end(s: Seq<char>) -> Seq<char> {
    s.take(trimmed_end(s))
}

/// `s` without the white space at either end.
pub open spec fn trim(s: Seq<char>) -> Seq<char> {
    trim_end(trim_start(s))
}

/// White space around a text that neither starts nor ends with white
/// space is what trimming removes.
pub proof fn lemma_trim_padded(pre: Seq<char>, s: Seq<char>, post: Seq<char>)
    requires
        forall|k: int| 0 <= k < pre.len() ==> is_space(#[trigger] pre[k]),
        forall|k: int| 0 <= k < post.len() ==> is_space(#[trigger] post[k]),
        s.len() > 0,
        !is_space(s[0]),
        !is_space(s.last()),
    ensures
        trim(pre + s + post) == s,
{
    let whole = pre + s + post;
    assert forall|k: int| 0 <= k < pre.len() implies Class::Space.has(#[trigger] whole[k]) by {
        assert(whole[k] == pre[k]);
    }
    assert(whole[pre.len() as int] == s[0]);
    lemma_scan_unique(whole, 0, pre.len() as int, Class::Space);
    let rest = trim_start(whole);
    assert(rest =~= s + post);
    assert forall|k: int| s.len() <= k < rest.len() implies Class::Space.has(
        #[trigger] rest[k],
    ) by {
        assert(rest[k] == post[k - s.len()]);
    }
    assert(rest[s.len() - 1] == s.last());
    lemma_scan_back(rest, rest.len() as int, Class::Space);
    let e = scan_back(rest, rest.len() as int, Class::Space);
    if e < s.len() {
        assert(Class::Space.has(rest[s.len() - 1]));
    }
    if e > s.len() {
        assert(Class::Space.has(rest[e - 1]));
    }
    assert(rest.take(e) =~= s);
}

/// A run that is known to hold from `i` to `j` and to begin at `i` is the
/// one `scan_back` finds.
pub proof fn lemma_scan_back_unique(s: Seq<char>, i: int, j: int, class: Class)
    requires
        0 <= i <= j <= s.len(),
        forall|k: int| i <= k < j ==> class.has(#[trigger] s[k]),
        i > 0 ==> !class.has(s[i - 1]),
    ensures
        scan_back(s, j, class) == i,
    decreases j,
{
    if i < j {
        lemma_scan_back_unique(s, i, j - 1, class);
    }
}

/// White space behind a text makes no difference to what trimming gives.
pub proof fn lemma_trim_blank_tail(s: Seq<char>, tail: Seq<char>)
    requires
        forall|k: int| 0 <= k < tail.len() ==> is_space(#[trigger] tail[k]),
    ensures
        trim(s + tail) == trim(s),
{
    let whole = s + tail;
    let a = scan(s, 0, Class::Space);
    lemma_scan(s, 0, Class::Space);
    if a < s.len() {
        assert forall|k: int| 0 <= k < a implies Class::Space.has(#[trigger] whole[k]) by {
            assert(whole[k] == s[k]);
        }
        assert(whole[a] == s[a]);
        lemma_scan_unique(whole, 0, a, Class::Space);
        let r = trim_start(s);
        let w = trim_start(whole);
        assert(w =~= r + tail);
        assert(r[0] == s[a]);
        let e = scan_back(r, r.len() as int, Class::Space);
        lemma_scan_back(r, r.len() as int, Class::Space);
        if e == 0 {
            assert(Class::Space.has(r[0]));
        }
        assert forall|k: int| e <= k < w.len() implies Class::Space.has(#[trigger] w[k]) by {
            if k < r.len() {
                assert(w[k] == r[k]);
            } else {
                assert(w[k] == tail[k - r.len()]);
            }
        }
        assert(w[e - 1] == r[e - 1]);
        lemma_scan_back_unique(w, e, w.len() as int, Class::Space);
        assert(w.take(e) =~= r.take(e));
    } else {
        assert forall|k: int| 0 <= k < whole.len() implies Class::Space.has(#[trigger] whole[k]) by {
            if k < s.len() {
                assert(whole[k] == s[k]);
            } else {
                assert(whole[k] == tail[k - s.len()]);
            }
        }
        lemma_scan_unique(whole, 0, whole.len() as int, Class::Space);
        assert(trim_start(whole) =~= Seq::<char>::empty());
        assert(trim_start(s) =~= Seq::<char>::empty());
    }
}

/// The slice without the white space at its start.
pub fn trim_start_of(s: &[char]) -> (r: &[char])
    ensures
        r@ == trim_start(s@),
{
    let i = scan_class(s, 0, Class::Space);
    slice_subrange(s, i, s.len())
}

/// The slice without the white space at its end.
pub fn trim_end_of(s: &[char]) -> (r: &[char])
    ensures
        r@ == trim_end(s@),
{
    let j = scan_class_back(s, Class::Space);
    slice_subrange(s, 0, j)
}

/// The slice without the white space at either end.
pub fn trim_of(s: &[char]) -> (r: &[char])
    ensures
        r@ == trim(s@),
{
    trim_end_of(trim_start_of(s))
}

/// Whether `pat` stands in `s` at index `i`.
pub open spec fn matches_at(s: Seq<char>, i: int, pat: Seq<char>) -> bool {
    0 <= i && i + pat.len() <= s.len() && s.subrange(i, i + pat.len()) == pat
}

/// Whether `s` begins with `pat`.
pub open spec fn starts_with(s: Seq<char>, pat: Seq<char>) -> bool {
    matches_at(s, 0, pat)
}

/// Whether `pat` stands in `s` at index `i`.
pub fn has_at(s: &[char], i: usize, pat: &[char]) -> (r: bool)
    ensures
        r == matches_at(s@, i as int, pat@),
{
    if i > s.len() || pat.len() > s.len() - i {
        return false;
    }
    let mut k: usize = 0;
    while k < pat.len()
        invariant
            k <= pat@.len(),
            i + pat@.len() <= s@.len() <= usize::MAX,
            forall|j: int| 0 <= j < k ==> s@[i + j] == pat@[j],
        decreases pat@.len() - k,
    {
        if s[i + k] != pat[k] {
            assert(s@.subrange(i as int, i + pat@.len())[k as int] == s@[i + k]);
            return false;
        }
        k += 1;
    }
    assert(s@.subrange(i as int, i + pat@.len()) =~= pat@);
    true
}

/// The first index at or after `i` at which `pat` stands in `s`.
pub open spec fn find(s: Seq<char>, i: int, pat: Seq<char>) -> Option<int>
    decreases s.len() + 1 - i,
{
    if i < 0 || i + pat.len() > s.len() {
        None
    } else if matches_at(s, i, pat) {
        Some(i)
    } else {
        find(s, i + 1, pat)
    }
}

/// Whether `pat` stands somewhere in `s`.
pub open spec fn contains(s: Seq<char>, pat: Seq<char>) -> bool {
    find(s, 0, pat) is Some
}

/// What `find` returns, said without recursion: the least index from `i`
/// on at which `pat` stands, and `None` exactly when there is none.
pub proof fn lemma_find(s: Seq<char>, i: int, pat: Seq<char>)
    requires
        0 <= i,
    ensures
        match find(s, i, pat) {
            Some(k) => i <= k && matches_at(s, k, pat) && forall|j: int|
                i <= j < k ==> !matches_at(s, j, pat),
            None => forall|j: int| i <= j ==> !matches_at(s, j, pat),
        },
    decreases s.len() + 1 - i,
{
    if i + pat.len() <= s.len() && !matches_at(s, i, pat) {
        lemma_find(s, i + 1, pat);
    }
}

/// `pat` stands somewhere in `s` exactly when `contains` says so.
pub proof fn lemma_contains(s: Seq<char>, pat: Seq<char>)
    ensures
        contains(s, pat) <==> exists|j: int| matches_at(s, j, pat),
{
    lemma_find(s, 0, pat);
    if contains(s, pat) {
        assert(matches_at(s, find(s, 0, pat).unwrap(), pat));
    }
}

/// The first index at or after `from` at which `pat` stands in `s`.
pub fn find_in(s: &[char], from: usize, pat: &[char]) -> (r: Option<usize>)
    ensures
        match r {
            Some(k) => find(s@, from as int, pat@) == Some(k as int),
            None => find(s@, from as int, pat@) is None,
        },
{
    if from > s.len() || pat.len() > s.len() - from {
        return None;
    }
    let last: usize = s.len() - pat.len();
    let mut i: usize = from;
    loop
        invariant
            from <= i <= last,
            last == s@.len() - pat@.len(),
            find(s@, from as int, pat@) == find(s@, i as int, pat@),
        decreases last - i,
    {
        if has_at(s, i, pat) {
            return Some(i);
        }
        if i == last {
            assert(find(s@, i + 1, pat@) is None);
            return None;
        }
        i += 1;
    }
}

/// Whether `pat` stands somewhere in `s`.
pub fn contains_in(s: &[char], pat: &[char]) -> (r: bool)
    ensures
        r == contains(s@, pat@),
{
    find_in(s, 0, pat).is_some()
}

/// Whether `a` comes before `b` from index `i` on, the two being equal
/// before `i`.
pub open spec fn lex_lt_at(a: Seq<char>, b: Seq<char>, i: int) -> bool
    decreases a.len() - i,
{
    if i < 0 || i >= b.len() {
        false
    } else if i >= a.len() {
        true
    } else if a[i] != b[i] {
        a[i] < b[i]
    } else {
        lex_lt_at(a, b, i + 1)
    }
}

/// Whether `a` comes strictly before `b` in the order of a dictionary, the
/// characters taken by their code points.
pub open spec fn lex_lt(a: Seq<char>, b: Seq<char>) -> bool {
    lex_lt_at(a, b, 0)
}

/// Nothing comes before itself.
pub proof fn lemma_lex_irreflexive(a: Seq<char>, i: int)
    requires
        0 <= i,
    ensures
        !lex_lt_at(a, a, i),
    decreases a.len() - i,
{
    if i < a.len() {
        lemma_lex_irreflexive(a, i + 1);
    }
}

/// Of two sequences at most one comes before the other.
pub proof fn lemma_lex_asymmetric(a: Seq<char>, b: Seq<char>, i: int)
    requires
        0 <= i,
        lex_lt_at(a, b, i),
    ensures
        !lex_lt_at(b, a, i),
    decreases a.len() - i,
{
    if i < a.len() && i < b.len() && a[i] == b[i] {
        lemma_lex_asymmetric(a, b, i + 1);
    }
}

/// What comes before something that comes before a third comes before the third.
pub proof fn lemma_lex_transitive(a: Seq<char>, b: Seq<char>, c: Seq<char>, i: int)
    requires
        0 <= i,
        lex_lt_at(a, b, i),
        lex_lt_at(b, c, i),
    ensures
        lex_lt_at(a, c, i),
    decreases a.len() - i,
{
    if i < a.len() && i < b.len() && i < c.len() && a[i] == b[i] && b[i] == c[i] {
        lemma_lex_transitive(a, b, c, i + 1);
    }
}

/// Two sequences that agree before `i` are equal, or one of them comes before the other.
pub proof fn lemma_lex_total(a: Seq<char>, b: Seq<char>, i: int)
    requires
        0 <= i <= a.len(),
        i <= b.len(),
        forall|j: int| 0 <= j < i ==> a[j] == b[j],
    ensures
        lex_lt_at(a, b, i) || lex_lt_at(b, a, i) || a == b,
    decreases a.len() - i,
{
    if i < a.len() && i < b.len() {
        if a[i] == b[i] {
            lemma_lex_total(a, b, i + 1);
        }
    } else if i == a.len() && i == b.len() {
        assert(a =~= b);
    }
}

/// Whether `a` comes strictly before `b`: see `lex_lt`.
pub fn lex_less(a: &[char], b: &[char]) -> (r: bool)
    ensures
        r == lex_lt(a@, b@),
{
    let mut i: usize = 0;
    loop
        invariant
            lex_lt(a@, b@) == lex_lt_at(a@, b@, i as int),
            i <= a@.len(),
        decreases a@.len() - i,
    {
        if i >= b.len() {
            return false;
        }
        if i >= a.len() {
            return true;
        }
        if a[i] != b[i] {
            return a[i] < b[i];
        }
        i += 1;
    }
}

/// Whether the two slices hold the same characters.
pub fn same_chars(a: &[char], b: &[char]) -> (r: bool)
    ensures
        r == (a@ == b@),
{
    assert(a@.len() == b@.len() ==> a@.subrange(0, b@.len() as int) =~= a@);
    a.len() == b.len() && has_at(a, 0, b)
}

/// The character that writes the digit `d`.
pub open spec fn digit(d: int) -> char {
    if d == 0 {
        '0'
    } else if d == 1 {
        '1'
    } else if d == 2 {
        '2'
    } else if d == 3 {
        '3'
    } else if d == 4 {
        '4'
    } else if d == 5 {
        '5'
    } else if d == 6 {
        '6'
    } else if d == 7 {
        '7'
    } else if d == 8 {
        '8'
    } else {
        '9'
    }
}

/// `n` written in decimal, without leading zeros.
pub open spec fn decimal(n: nat) -> Seq<char>
    decreases n,
{
    if n < 10 {
        seq![digit(n as int)]
    } else {
        decimal(n / 10).push(digit((n % 10) as int))
    }
}

fn digit_of(d: usize) -> (c: char)
    requires
        d < 10,
    ensures
        c == digit(d as int),
{
    if d == 0 {
        '0'
    } else if d == 1 {
        '1'
    } else if d == 2 {
        '2'
    } else if d == 3 {
        '3'
    } else if d == 4 {
        '4'
    } else if d == 5 {
        '5'
    } else if d == 6 {
        '6'
    } else if d == 7 {
        '7'
    } else if d == 8 {
        '8'
    } else {
        '9'
    }
}

/// `n` written in decimal: see `decimal`.
pub fn decimal_of(n: usize) -> (s: String)
    ensures
        s@ == decimal(n as nat),
    decreases n,
{
    if n < 10 {
        let mut s = String::new();
        s.push(digit_of(n));
        assert(s@ =~= seq![digit(n as int)]);
        s
    } else {
        let mut s = decimal_of(n / 10);
        s.push(digit_of(n % 10));
        s
    }
}

/// Whether `v` opens and closes with the same quote, single or double.
pub open spec fn is_fully_quoted(v: Seq<char>) -> bool {
    v.len() >= 2 && ((v[0] == '"' && v.last() == '"') || (v[0] == '\'' && v.last() == '\''))
}

/// Whether the slice opens and closes with the same quote.
pub fn fully_quoted(v: &[char]) -> (r: bool)
    ensures
        r == is_fully_quoted(v@),
{
    let n = v.len();
    n >= 2 && ((v[0] == '"' && v[n - 1] == '"') || (v[0] == '\'' && v[n - 1] == '\''))
}

/// The index of the bracket that closes the one opened just before `i`,
/// with `depth` further brackets of that kind open at `i`. Brackets of
/// other kinds, and quotes, are not looked at.
pub open spec fn closing(s: Seq<char>, i: int, open: char, close: char, depth: nat) -> Option<int>
    decreases s.len() - i,
{
    if i < 0 || i >= s.len() {
        None
    } else if s[i] == close {
        if depth == 0 {
            Some(i)
        } else {
            closing(s, i + 1, open, close, (depth - 1) as nat)
        }
    } else if s[i] == open {
        closing(s, i + 1, open, close, depth + 1)
    } else {
        closing(s, i + 1, open, close, depth)
    }
}

/// Finds the bracket that closes the one opened just before `from`.
pub fn closing_in(s: &[char], from: usize, open: char, close: char) -> (r: Option<usize>)
    ensures
        match r {
            Some(c) => closing(s@, from as int, open, close, 0) == Some(c as int) && from <= c
                < s@.len(),
            None => closing(s@, from as int, open, close, 0) is None,
        },
{
    let mut i: usize = from;
    let mut depth: usize = 0;
    while i < s.len()
        invariant
            from <= i,
            depth <= i - from,
            closing(s@, from as int, open, close, 0) == closing(
                s@,
                i as int,
                open,
                close,
                depth as nat,
            ),
        decreases s@.len() - i,
    {
        let c = s[i];
        if c == close {
            if depth == 0 {
                return Some(i);
            }
            depth -= 1;
        } else if c == open {
            depth += 1;
        }
        i += 1;
    }
    None
}

} // verus!
