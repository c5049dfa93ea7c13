use ndnblk::text::{
    chars_of, has_part, last_position, position, replaced, same_text, stripped, text_of, to_uppercase, trimmed,
    white_space,
};

#[test]
fn white_space_is_that_of_unicode() {
    for n in 0..=0x10ffffu32 {
        if let Some(c) = char::from_u32(n) {
            assert_eq!(white_space(c), c.is_whitespace(), "{n:x}");
        }
    }
}

#[test]
fn characters_and_back() {
    for s in ["", "abc", "naïve — \u{1f600}"] {
        let chars = chars_of(s);
        assert_eq!(chars, s.chars().collect::<Vec<char>>());
        assert_eq!(text_of(&chars), s);
    }
    assert_eq!(text_of(&['a', 'b', 'c'][1..]), "bc");
}

#[test]
fn trimming() {
    for s in ["", " ", "\t a b \n", "\u{a0}x\u{3000}", "x"] {
        assert_eq!(text_of(trimmed(&chars_of(s))), s.trim(), "{s:?}");
    }
    for s in ["", "/", "a/b//", "//a", "a"] {
        assert_eq!(text_of(stripped(&chars_of(s), '/')), s.trim_end_matches('/'), "{s:?}");
    }
}

#[test]
fn positions() {
    let s = chars_of("a/b/c");
    assert_eq!(position(&s, '/'), 1);
    assert_eq!(position(&s, 'x'), 5);
    assert_eq!(last_position(&s, '/'), Some(3));
    assert_eq!(last_position(&s, 'x'), None);
}

#[test]
fn upper_case_is_that_of_ascii() {
    for s in ["", "kB", "äöü-Zz{`"] {
        assert_eq!(text_of(&to_uppercase(&chars_of(s))), s.to_ascii_uppercase());
    }
}

#[test]
fn replacing() {
    assert_eq!(replaced("a b  c ", ' ', '_'), "a_b__c_");
    assert_eq!(replaced("abc", ' ', '_'), "abc");
}

#[test]
fn parts() {
    for (s, p) in [("", ""), ("abc", ""), ("abc", "bc"), ("abc", "abcd"), ("aab", "ab"), ("abc", "ac"), ("", "a")] {
        assert_eq!(has_part(&chars_of(s), &chars_of(p)), s.contains(p), "{s:?} {p:?}");
    }
    assert!(same_text("abc", "abc"));
    assert!(!same_text("abc", "abd"));
    assert!(!same_text("abc", "ab"));
}
