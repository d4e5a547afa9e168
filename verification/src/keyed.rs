//! Lists of things that bear a key: finding the first thing of a key, and
//! keeping the first thing of each key.
//!
//! Entries are keyed by their name, variables by theirs, and the files of
//! a workspace by their path.

use vstd::prelude::*;

verus! {

/// A thing that is found by a key.
pub trait Keyed {
    /// The key that the thing is found by.
    spec fn key(&self) -> Seq<char>;
}

/// The first index at or after `i` of a thing with the given key, or the
/// length of `s` if there is none.
pub open spec fn key_scan<T: Keyed>(s: Seq<T>, i: int, key: Seq<char>) -> int
    decreases s.len() - i,
{
    if 0 <= i < s.len() && s[i].key() != key {
        key_scan(s, i + 1, key)
    } else {
        i
    }
}

/// Whether some thing has the given key.
pub open spec fn has_key<T: Keyed>(s: Seq<T>, key: Seq<char>) -> bool {
    key_scan(s, 0, key) < s.len()
}

/// The first thing with the given key.
pub open spec fn first_with<T: Keyed>(s: Seq<T>, key: Seq<char>) -> Option<T> {
    let i = key_scan(s, 0, key);
    if i < s.len() {
        Some(s[i])
    } else {
        None
    }
}

/// Whether no two things of the list share a key.
pub open spec fn distinct_keys<T: Keyed>(s: Seq<T>) -> bool {
    forall|i: int, j: int| 0 <= i < j < s.len() ==> (#[trigger] s[i]).key() != (#[trigger] s[j]).key()
}

/// The things in order, without those whose key an earlier thing has.
pub open spec fn first_of_each<T: Keyed>(s: Seq<T>) -> Seq<T>
    decreases s.len(),
{
    if s.len() == 0 {
        Seq::empty()
    } else {
        let before = first_of_each(s.drop_last());
        if has_key(s.drop_last(), s.last().key()) {
            before
        } else {
            before.push(s.last())
        }
    }
}

/// What `key_scan` returns, said without recursion.
pub proof fn lemma_key_scan<T: Keyed>(s: Seq<T>, i: int, key: Seq<char>)
    requires
        0 <= i <= s.len(),
    ensures
        i <= key_scan(s, i, key) <= s.len(),
        forall|k: int| i <= k < key_scan(s, i, key) ==> (#[trigger] s[k]).key() != key,
        key_scan(s, i, key) < s.len() ==> s[key_scan(s, i, key)].key() == key,
    decreases s.len() - i,
{
    if i < s.len() && s[i].key() != key {
        lemma_key_scan(s, i + 1, key);
    }
}

/// Scanning a list with one more thing at its end.
pub proof fn lemma_key_scan_push<T: Keyed>(s: Seq<T>, e: T, i: int, key: Seq<char>)
    requires
        0 <= i <= s.len(),
    ensures
        key_scan(s.push(e), i, key) == if key_scan(s, i, key) < s.len() {
            key_scan(s, i, key)
        } else if e.key() == key {
            s.len() as int
        } else {
            s.len() as int + 1
        },
    decreases s.len() - i,
{
    let more = s.push(e);
    if i < s.len() {
        assert(more[i] == s[i]);
        if s[i].key() != key {
            lemma_key_scan_push(s, e, i + 1, key);
        }
    } else {
        assert(more[i] == e);
        if e.key() != key {
            assert(key_scan(more, i + 1, key) == i + 1);
        }
    }
}

/// Looking a key up in two lists laid end to end.
pub proof fn lemma_first_with_concat<T: Keyed>(a: Seq<T>, b: Seq<T>, key: Seq<char>)
    ensures
        first_with(a + b, key) == if has_key(a, key) {
            first_with(a, key)
        } else {
            first_with(b, key)
        },
        has_key(a + b, key) == (has_key(a, key) || has_key(b, key)),
    decreases b.len(),
{
    if b.len() == 0 {
        assert(a + b =~= a);
    } else {
        lemma_first_with_concat(a, b.drop_last(), key);
        assert((a + b.drop_last()).push(b.last()) =~= a + b);
        assert(b.drop_last().push(b.last()) =~= b);
        lemma_key_scan_push(a + b.drop_last(), b.last(), 0, key);
        lemma_key_scan_push(b.drop_last(), b.last(), 0, key);
        lemma_key_scan(a + b.drop_last(), 0, key);
        lemma_key_scan(b.drop_last(), 0, key);
        lemma_key_scan(a, 0, key);
    }
}

/// Looking a key up in the list without repetitions gives what looking
/// it up in the whole list gives: the first thing of that key.
pub proof fn lemma_first_of_each_lookup<T: Keyed>(s: Seq<T>, key: Seq<char>)
    ensures
        first_with(first_of_each(s), key) == first_with(s, key),
        has_key(first_of_each(s), key) == has_key(s, key),
    decreases s.len(),
{
    if s.len() > 0 {
        let init = s.drop_last();
        let last = s.last();
        let before = first_of_each(init);
        lemma_first_of_each_lookup(init, key);
        lemma_first_of_each_lookup(init, last.key());
        assert(init.push(last) =~= s);
        lemma_key_scan_push(init, last, 0, key);
        lemma_key_scan(init, 0, key);
        lemma_key_scan(before, 0, key);
        if !has_key(init, last.key()) {
            lemma_key_scan_push(before, last, 0, key);
        }
    }
}

/// In the list without repetitions no two things share a key, and every
/// thing is one of the whole list.
pub proof fn lemma_first_of_each_distinct<T: Keyed>(s: Seq<T>)
    ensures
        distinct_keys(first_of_each(s)),
        forall|i: int| 0 <= i < first_of_each(s).len() ==> s.contains(#[trigger] first_of_each(s)[i]),
    decreases s.len(),
{
    if s.len() > 0 {
        let init = s.drop_last();
        let last = s.last();
        let before = first_of_each(init);
        lemma_first_of_each_distinct(init);
        assert forall|i: int| 0 <= i < first_of_each(s).len() implies s.contains(
            #[trigger] first_of_each(s)[i],
        ) by {
            if i < before.len() {
                let k = choose|k: int| 0 <= k < init.len() && init[k] == before[i];
                assert(s[k] == before[i]);
            } else {
                assert(s[s.len() - 1] == last);
            }
        }
        if !has_key(init, last.key()) {
            lemma_first_of_each_lookup(init, last.key());
            lemma_key_scan(before, 0, last.key());
        }
    }
}

/// Where no key occurs twice, nothing is left out.
pub proof fn lemma_first_of_each_of_distinct<T: Keyed>(s: Seq<T>)
    requires
        distinct_keys(s),
    ensures
        first_of_each(s) == s,
    decreases s.len(),
{
    if s.len() > 0 {
        let init = s.drop_last();
        let last = s.last();
        assert forall|i: int, j: int| 0 <= i < j < init.len() implies (#[trigger] init[i]).key() != (
        #[trigger] init[j]).key() by {
            assert(init[i] == s[i] && init[j] == s[j]);
        }
        lemma_first_of_each_of_distinct(init);
        lemma_key_scan(init, 0, last.key());
        if has_key(init, last.key()) {
            let k = key_scan(init, 0, last.key());
            assert(s[k] == init[k]);
            assert(s[s.len() - 1] == last);
        }
        assert(init.push(last) =~= s);
    } else {
        assert(first_of_each(s) =~= s);
    }
}

} // verus!
