use alman::rank::{char_precedes, text_precedes};
use alman::text::{
    all_plain_chars, append_chars, copy_range, find_char, from_chars, has_prefix, is_plain_char,
    is_whitespace, lines_of, measure, same_chars, split_words, to_chars, trimmed,
};

fn chars(s: &str) -> Vec<char> {
    s.chars().collect()
}

fn text(v: &Vec<char>) -> String {
    v.iter().collect()
}

#[test]
fn whitespace_is_the_unicode_property() {
    let mut c = 0u32;
    while c <= 0x10FFFF {
        if let Some(ch) = char::from_u32(c) {
            assert_eq!(is_whitespace(ch), ch.is_whitespace(), "U+{:04X}", c);
        }
        c += 1;
    }
}

#[test]
fn plain_is_ascii_or_whitespace() {
    assert!(is_plain_char('a'));
    assert!(is_plain_char('~'));
    assert!(is_plain_char('\u{7f}'));
    assert!(is_plain_char('\u{a0}'));
    assert!(is_plain_char('\u{3000}'));
    assert!(!is_plain_char('\u{e9}'));
    assert!(!is_plain_char('\u{80}'));
    assert!(all_plain_chars(&chars("ls -la\u{a0}/tmp")));
    assert!(!all_plain_chars(&chars("caf\u{e9}")));
    assert!(all_plain_chars(&chars("")));
}

#[test]
fn chars_and_strings_convert_both_ways() {
    for s in ["", "a", "git commit", "caf\u{e9} \u{1F600}", "  x  "] {
        assert_eq!(to_chars(s), chars(s));
        assert_eq!(from_chars(&chars(s)), s);
    }
}

#[test]
fn copy_range_takes_the_middle() {
    let v = chars("abcdef");
    assert_eq!(text(&copy_range(&v, 2, 4)), "cd");
    assert_eq!(text(&copy_range(&v, 0, 6)), "abcdef");
    assert_eq!(text(&copy_range(&v, 3, 3)), "");
}

#[test]
fn append_chars_extends() {
    let mut v = chars("git");
    append_chars(&mut v, &chars(" commit"));
    assert_eq!(text(&v), "git commit");
    append_chars(&mut v, &chars(""));
    assert_eq!(text(&v), "git commit");
}

#[test]
fn trimmed_is_str_trim() {
    for s in [
        "",
        " ",
        "   \t\n",
        "a",
        " a",
        "a ",
        "  ls -la /tmp  ",
        "\t\r\nx y\u{a0}",
        "\u{3000}wide\u{2003}",
        "no-space",
        " inner  space ",
    ] {
        assert_eq!(text(&trimmed(&chars(s))), s.trim(), "{:?}", s);
    }
}

#[test]
fn split_words_is_split_whitespace() {
    for s in [
        "",
        " ",
        "a",
        "git commit -m test",
        "  git   commit\t-m\ntest  ",
        "x\u{a0}y",
        "trailing ",
        " leading",
        "a b c d e f g",
    ] {
        let got: Vec<String> = split_words(&chars(s)).iter().map(text).collect();
        let expected: Vec<String> = s.split_whitespace().map(|w| w.to_string()).collect();
        assert_eq!(got, expected, "{:?}", s);
    }
}

#[test]
fn measure_counts_word_characters_and_words() {
    assert_eq!(measure(&chars("")), (0, 0));
    assert_eq!(measure(&chars("   ")), (0, 0));
    assert_eq!(measure(&chars("git")), (3, 1));
    assert_eq!(measure(&chars("ls -la /tmp")), (9, 3));
    assert_eq!(measure(&chars("git commit -m test")), (15, 4));
    assert_eq!(measure(&chars("  a   bb  ")), (3, 2));
    for s in ["x y z", "one", " two  words ", "\ttabs\tand\nlines\r\n"] {
        let length: usize = s.split_whitespace().map(|w| w.chars().count()).sum();
        let words = s.split_whitespace().count();
        assert_eq!(measure(&chars(s)), (length as u64, words as u64));
    }
}

#[test]
fn lines_of_splits_at_line_feeds() {
    let lines = |s: &str| -> Vec<String> { lines_of(&chars(s)).iter().map(text).collect() };
    assert_eq!(lines(""), vec![""]);
    assert_eq!(lines("a"), vec!["a"]);
    assert_eq!(lines("a\nb"), vec!["a", "b"]);
    assert_eq!(lines("a\nb\n"), vec!["a", "b", ""]);
    assert_eq!(lines("\n\n"), vec!["", "", ""]);
    assert_eq!(lines("a\r\nb"), vec!["a\r", "b"]);
}

#[test]
fn has_prefix_and_same_chars() {
    assert!(has_prefix(&chars(": 1:0;ls"), &chars(": ")));
    assert!(has_prefix(&chars("abc"), &chars("")));
    assert!(has_prefix(&chars("abc"), &chars("abc")));
    assert!(!has_prefix(&chars("ab"), &chars("abc")));
    assert!(!has_prefix(&chars("abd"), &chars("abc")));
    assert!(same_chars(&chars("abc"), &chars("abc")));
    assert!(same_chars(&chars(""), &chars("")));
    assert!(!same_chars(&chars("abc"), &chars("abd")));
    assert!(!same_chars(&chars("abc"), &chars("ab")));
}

#[test]
fn find_char_gives_the_first_position() {
    assert_eq!(find_char(&chars(": 1:0;ls;x"), ';'), 5);
    assert_eq!(find_char(&chars(";"), ';'), 0);
    assert_eq!(find_char(&chars("abc"), ';'), 3);
    assert_eq!(find_char(&chars(""), ';'), 0);
}

#[test]
fn text_precedes_is_the_order_of_strings() {
    let samples = [
        "", "a", "ab", "abc", "abd", "b", "B", "git", "git commit", "git-commit", "z", "\u{e9}",
        "\u{1F600}", "a\u{e9}", "~", " ",
    ];
    for a in samples {
        for b in samples {
            assert_eq!(text_precedes(a, b), a < b, "{:?} {:?}", a, b);
        }
    }
    assert!(char_precedes('a', 'b'));
    assert!(!char_precedes('b', 'a'));
    assert!(!char_precedes('a', 'a'));
}
