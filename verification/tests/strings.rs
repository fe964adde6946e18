use limmat::strings::{
    chars_of, comes_before, contains_text, copy_texts, decimal_text, is_text, join, join_path,
    lines, signed_decimal_text, split, string_of, trim,
};

#[test]
fn numbers_are_written_in_decimal() {
    for n in [0, 7, 10, 1234567890, u64::MAX] {
        assert_eq!(decimal_text(n), n.to_string());
    }
    for n in [0, -1, 42, i32::MIN, i32::MAX] {
        assert_eq!(signed_decimal_text(n), n.to_string());
    }
}

#[test]
fn texts_are_split_and_joined() {
    for s in ["", "a", "a,b", ",", "a,,b,", "é,ü"] {
        let parts = split(s, ',');
        assert_eq!(parts, s.split(',').collect::<Vec<_>>());
        assert_eq!(join(&parts, ","), s);
    }
    assert_eq!(join(&vec![], ","), "");
}

#[test]
fn lines_end_at_line_feeds() {
    for s in ["", "a", "a\n", "a\nb", "a\r\nb\r\n", "\n\n", "a\r", "\r\n"] {
        assert_eq!(lines(s), s.lines().collect::<Vec<_>>(), "{s:?}");
    }
}

#[test]
fn white_space_is_trimmed() {
    for s in ["", " ", "a", " a b\t\n", "\u{a0}a\u{3000}", "\u{85}x\u{2028}"] {
        assert_eq!(trim(s), s.trim(), "{s:?}");
    }
}

#[test]
fn parts_are_found() {
    for (s, part) in [("abc", "bc"), ("abc", ""), ("abc", "cb"), ("", "a"), ("aab", "ab")] {
        assert_eq!(contains_text(s, part), s.contains(part));
    }
}

#[test]
fn texts_are_ordered_by_characters() {
    let texts = ["", "A", "a", "aa", "ab", "b", "é", "\u{10000}"];
    for a in texts {
        for b in texts {
            assert_eq!(comes_before(a, b), a < b, "{a:?} {b:?}");
        }
    }
}

#[test]
fn paths_are_joined() {
    for (base, path) in [
        ("/a", "b"),
        ("/a/", "b"),
        ("a", "/b"),
        ("", "b"),
        ("/a", ""),
        ("a", "b/c"),
    ] {
        assert_eq!(
            join_path(base, path),
            std::path::Path::new(base).join(path).to_str().unwrap()
        );
    }
}

#[test]
fn characters_make_strings() {
    let chars = chars_of("aéb");
    assert_eq!(chars, ['a', 'é', 'b']);
    assert_eq!(string_of(&chars, 1, 3), "éb");
    assert_eq!(string_of(&chars, 2, 2), "");
    assert!(is_text(&"x".to_owned(), "x"));
    assert!(!is_text(&"x".to_owned(), "y"));
    assert_eq!(copy_texts(&vec!["p".to_owned()]), ["p"]);
}
