use fasttext::text::{
    append_chars, chars_of, find, find_char, matches_at, push_decimal, same_chars, split_slices,
    string_of, token_slices,
};
use fasttext::vectors::without;

fn chars(text: &str) -> Vec<char> {
    text.chars().collect()
}

fn strings(pieces: Vec<&[char]>) -> Vec<String> {
    pieces.into_iter().map(|p| p.iter().collect()).collect()
}

#[test]
fn chars_and_strings_go_back_and_forth() {
    for text in ["", "a", "a b\nc", "日本語 – ß…", "\u{0}\u{10ffff}"] {
        assert_eq!(chars_of(text), chars(text));
        assert_eq!(string_of(&chars_of(text)), text);
    }
}

#[test]
fn append_chars_adds_at_the_end() {
    let mut out = chars("ab");
    append_chars(&mut out, &chars("cd"));
    append_chars(&mut out, &[]);
    assert_eq!(out, chars("abcd"));
}

#[test]
fn push_decimal_appends_the_digits() {
    for n in [0u64, 7, 10, 123, 1000, 18446744073709551615] {
        let mut out = String::from("n=");
        push_decimal(&mut out, n);
        assert_eq!(out, format!("n={}", n));
    }
}

#[test]
fn same_chars_compares_whole_texts() {
    assert!(same_chars(&chars(""), &chars("")));
    assert!(same_chars(&chars("abc"), &chars("abc")));
    assert!(!same_chars(&chars("abc"), &chars("abd")));
    assert!(!same_chars(&chars("abc"), &chars("ab")));
    assert!(!same_chars(&chars(""), &chars("a")));
}

#[test]
fn find_char_gives_the_first_place_or_the_length() {
    assert_eq!(find_char(&chars("a b c"), ' '), 1);
    assert_eq!(find_char(&chars(" a"), ' '), 0);
    assert_eq!(find_char(&chars("abc"), ' '), 3);
    assert_eq!(find_char(&chars(""), ' '), 0);
}

#[test]
fn matches_at_looks_at_one_place() {
    let text = chars("abcabc");
    assert!(matches_at(&text, &chars("abc"), 0));
    assert!(matches_at(&text, &chars("abc"), 3));
    assert!(!matches_at(&text, &chars("abc"), 1));
    assert!(!matches_at(&text, &chars("abc"), 4));
    assert!(matches_at(&text, &chars(""), 6));
    assert!(!matches_at(&text, &chars(""), 7));
    assert!(!matches_at(&text, &chars("abcabca"), 0));
}

#[test]
fn find_gives_the_first_occurrence() {
    assert_eq!(find(&chars("xxabxab"), &chars("ab")), Some(2));
    assert_eq!(find(&chars("ab"), &chars("ab")), Some(0));
    assert_eq!(find(&chars("aab"), &chars("ab")), Some(1));
    assert_eq!(find(&chars("aba"), &chars("abab")), None);
    assert_eq!(find(&chars(""), &chars("a")), None);
    assert_eq!(find(&chars("abc"), &chars("")), Some(0));
    assert_eq!(find(&chars(""), &chars("")), Some(0));
}

#[test]
fn split_slices_keeps_empty_pieces() {
    assert_eq!(strings(split_slices(&chars("a b"), ' ')), vec!["a", "b"]);
    assert_eq!(strings(split_slices(&chars(""), ' ')), vec![""]);
    assert_eq!(strings(split_slices(&chars(" a  b "), ' ')), vec!["", "a", "", "b", ""]);
    assert_eq!(strings(split_slices(&chars("a\nb\n"), '\n')), vec!["a", "b", ""]);
    for text in ["", " ", "a", "a b", "  a   b  ", "no-blank", " x "] {
        let expected: Vec<String> = text.split(' ').map(|p| p.to_string()).collect();
        assert_eq!(strings(split_slices(&chars(text), ' ')), expected);
    }
}

#[test]
fn token_slices_drops_empty_pieces() {
    assert_eq!(strings(token_slices(&chars(" a  b "))), vec!["a", "b"]);
    assert_eq!(strings(token_slices(&chars(""))), Vec::<String>::new());
    assert_eq!(strings(token_slices(&chars("   "))), Vec::<String>::new());
    assert_eq!(strings(token_slices(&chars("a\tb c"))), vec!["a\tb", "c"]);
}

#[test]
fn without_removes_as_replace_does() {
    for (text, pat) in [
        ("aXbXc", "X"),
        ("aaa", "aa"),
        ("aabb", "ab"),
        ("abc", ""),
        ("", "a"),
        ("abcabc", "abc"),
        ("ab", "abc"),
        ("é–é", "–"),
    ] {
        let expected = text.replace(pat, "");
        assert_eq!(without(&chars(text), &chars(pat)), chars(&expected), "{:?} {:?}", text, pat);
    }
}
