use env_checker::text::{
    char_is_ident, char_is_ident_start, char_is_space, chars_of, closing_in, contains_in,
    decimal_of, find_in, fully_quoted, has_at, lex_less, same_chars, scan_class,
    scan_class_back, string_of, trim_end_of, trim_of, trim_start_of, Class,
};

fn chars(s: &str) -> Vec<char> {
    s.chars().collect()
}

#[test]
fn white_space_is_unicodes() {
    for n in 0..=0x11_0000u32 {
        if let Some(c) = char::from_u32(n) {
            assert_eq!(char_is_space(c), c.is_whitespace(), "U+{:04X}", n);
        }
    }
}

#[test]
fn identifier_characters() {
    for n in 0..=0x11_0000u32 {
        if let Some(c) = char::from_u32(n) {
            assert_eq!(char_is_ident_start(c), c.is_ascii_alphabetic() || c == '_');
            assert_eq!(char_is_ident(c), c.is_ascii_alphanumeric() || c == '_');
        }
    }
}

#[test]
fn strings_and_characters() {
    for s in ["", "abc", "a\u{e9}\u{10000}z", "\n\t "] {
        assert_eq!(chars_of(s), chars(s));
        assert_eq!(string_of(&chars(s)), s);
    }
}

#[test]
fn trimming_is_strs() {
    for s in ["", "  ", "a", " a ", "\t a b \r\n", "\u{a0}x\u{3000}", "x \u{200b}", "\u{85}\u{2028}y"] {
        assert_eq!(string_of(trim_of(&chars(s))), s.trim(), "{:?}", s);
        assert_eq!(string_of(trim_start_of(&chars(s))), s.trim_start(), "{:?}", s);
        assert_eq!(string_of(trim_end_of(&chars(s))), s.trim_end(), "{:?}", s);
    }
}

#[test]
fn scanning() {
    let s = chars("  ab_1 = x//");
    assert_eq!(scan_class(&s, 0, Class::Space), 2);
    assert_eq!(scan_class(&s, 2, Class::Ident), 6);
    assert_eq!(scan_class(&s, 2, Class::Except('=', 'x')), 7);
    assert_eq!(scan_class(&s, 2, Class::Only('a')), 3);
    assert_eq!(scan_class(&s, 12, Class::Space), 12);
    assert_eq!(scan_class_back(&s, Class::Only('/')), 10);
    assert_eq!(scan_class_back(&s, Class::Ident), 12);
    assert!(Class::Space.contains(' '));
    assert!(!Class::Except('a', 'b').contains('b'));
}

#[test]
fn finding() {
    let s = chars("abcabc");
    assert!(has_at(&s, 3, &chars("abc")));
    assert!(!has_at(&s, 4, &chars("abc")));
    assert!(has_at(&s, 6, &chars("")));
    assert!(!has_at(&s, 7, &chars("")));
    assert_eq!(find_in(&s, 0, &chars("bc")), Some(1));
    assert_eq!(find_in(&s, 2, &chars("bc")), Some(4));
    assert_eq!(find_in(&s, 5, &chars("bc")), None);
    assert_eq!(find_in(&s, 0, &chars("")), Some(0));
    assert_eq!(find_in(&s, 6, &chars("")), Some(6));
    assert_eq!(find_in(&s, 7, &chars("")), None);
    assert_eq!(find_in(&s, 0, &chars("abcabcd")), None);
    assert!(contains_in(&s, &chars("ca")));
    assert!(!contains_in(&s, &chars("cb")));
    assert!(same_chars(&s, &chars("abcabc")));
    assert!(!same_chars(&s, &chars("abcab")));
}

#[test]
fn brackets() {
    let s = chars("a(b(c)d)e)");
    assert_eq!(closing_in(&s, 2, '(', ')'), Some(7));
    assert_eq!(closing_in(&s, 0, '(', ')'), Some(9));
    assert_eq!(closing_in(&s, 4, '(', ')'), Some(5));
    assert_eq!(closing_in(&s, 10, '(', ')'), None);
    assert_eq!(closing_in(&chars("((x)"), 1, '(', ')'), None);
    assert!(fully_quoted(&chars("\"a\"")));
    assert!(fully_quoted(&chars("''")));
    assert!(!fully_quoted(&chars("'")));
    assert!(!fully_quoted(&chars("'a\"")));
}

#[test]
fn order() {
    assert!(lex_less(&chars("a"), &chars("b")));
    assert!(lex_less(&chars(""), &chars("a")));
    assert!(lex_less(&chars("ab"), &chars("abc")));
    assert!(!lex_less(&chars("abc"), &chars("abc")));
    assert!(!lex_less(&chars("b"), &chars("abc")));
}

#[test]
fn decimals() {
    for n in [0usize, 1, 9, 10, 11, 99, 100, 101, 1234567890, usize::MAX] {
        assert_eq!(decimal_of(n), n.to_string());
    }
}
