use polybot::text::{
    has_line, join_strings, push_decimal, push_signed_decimal, remove_all, replace,
    skip_leading_chars, split_once, starts_with_char, trim, is_whitespace,
};

#[test]
fn trim_drops_surrounding_whitespace() {
    assert_eq!(trim("  Hello World \t\n"), "Hello World");
    assert_eq!(trim(""), "");
    assert_eq!(trim(" \u{a0} "), "");
    assert_eq!(trim("x"), "x");
}

#[test]
fn remove_all_takes_out_every_copy() {
    assert_eq!(remove_all("@@a@b@", '@'), "ab");
    assert_eq!(remove_all("abc", '@'), "abc");
}

#[test]
fn decimal_notation() {
    let mut s = String::from("n=");
    push_decimal(&mut s, 0);
    assert_eq!(s, "n=0");
    let mut s = String::new();
    push_decimal(&mut s, 1234567890);
    assert_eq!(s, "1234567890");
    let mut s = String::new();
    push_signed_decimal(&mut s, -42);
    assert_eq!(s, "-42");
    let mut s = String::new();
    push_signed_decimal(&mut s, i64::MIN);
    assert_eq!(s, i64::MIN.to_string());
    let mut s = String::new();
    push_signed_decimal(&mut s, i64::MAX);
    assert_eq!(s, i64::MAX.to_string());
}

#[test]
fn split_once_at_first_separator() {
    let (a, b) = split_once("so  bob x", ' ');
    assert_eq!(a, "so");
    assert_eq!(b.unwrap(), " bob x");
    let (a, b) = split_once("alone", ' ');
    assert_eq!(a, "alone");
    assert!(b.is_none());
    let (a, b) = split_once("", ' ');
    assert_eq!(a, "");
    assert!(b.is_none());
}

#[test]
fn replace_matches_std() {
    for (s, p, r) in [
        ("see $link and $link", "$link", "x.y"),
        ("aaa", "aa", "b"),
        ("ab", "abc", "z"),
        ("", "$x", "y"),
        ("$x$x$x", "$x", ""),
    ] {
        assert_eq!(replace(s, p, r), s.replace(p, r));
    }
}

#[test]
fn has_line_follows_std_lines() {
    let text = "first\r\nsecond\n\nlast\r";
    for key in ["first", "second", "", "last\r", "last", "first\r", "third"] {
        assert_eq!(has_line(text, key), text.lines().any(|l| l == key), "key {:?}", key);
    }
    assert!(!has_line("", ""));
    assert!(!has_line("a\n", ""));
    assert!(has_line("a\n\nb", ""));
}

#[test]
fn skip_and_prefix_checks() {
    assert_eq!(skip_leading_chars("$$$hi there", '$'), "hi there");
    assert_eq!(skip_leading_chars("$", '$'), "");
    assert!(starts_with_char("#bob", '#'));
    assert!(!starts_with_char("", '#'));
}

#[test]
fn join_with_separator() {
    let v = vec!["a".to_string(), "b".to_string(), "c".to_string()];
    assert_eq!(join_strings(&v, " | "), "a | b | c");
    assert_eq!(join_strings(&Vec::new(), " | "), "");
    assert_eq!(join_strings(&vec!["x".to_string()], ","), "x");
}

#[test]
fn whitespace_matches_std() {
    for c in [' ', '\t', '\n', '\u{0b}', '\u{0c}', '\r', '\u{85}', '\u{a0}', '\u{1680}', '\u{2000}', '\u{200a}',
        '\u{2028}', '\u{2029}', '\u{202f}', '\u{205f}', '\u{3000}', 'a', '0', '\u{200b}', '\u{180e}', '\u{feff}', 'é'] {
        assert_eq!(is_whitespace(c), c.is_whitespace(), "{:?}", c);
    }
}
