use synchronous_autocomplete::{is_whitespace, split, tokenize};

#[test]
fn split_cuts_at_spaces() {
    assert_eq!(split("one four"), vec!["one", "four"]);
    assert_eq!(split("two three four"), vec!["two", "three", "four"]);
}

#[test]
fn split_passes_over_runs_of_spaces() {
    assert_eq!(split("  a   bc  "), vec!["a", "bc"]);
    assert_eq!(split(" x"), vec!["x"]);
    assert_eq!(split("x "), vec!["x"]);
}

#[test]
fn split_of_nothing_is_nothing() {
    assert!(split("").is_empty());
    assert!(split("    ").is_empty());
}

#[test]
fn split_keeps_a_single_word() {
    assert_eq!(split("word"), vec!["word"]);
}

#[test]
fn split_cuts_at_any_white_space() {
    assert_eq!(split("a\tb c-d\ne"), vec!["a", "b", "c-d", "e"]);
    assert_eq!(split("\u{a0}x\u{3000}y\u{2003}\u{2028}z\r\n"), vec!["x", "y", "z"]);
    assert_eq!(split("é ü"), vec!["é", "ü"]);
    assert_eq!(split("a\u{200b}b"), vec!["a\u{200b}b"]);
}

#[test]
fn split_agrees_with_split_whitespace() {
    let texts = [
        "",
        " ",
        "one four",
        "  two\tthree \n four\r\n",
        "\u{85}a\u{1680}b\u{2000}c\u{200a}d\u{2029}e\u{202f}f\u{205f}g\u{b}h\u{c}i",
        "no-space",
        "trailing ",
        " leading",
    ];
    for text in texts {
        let expected: Vec<&str> = text.split_whitespace().collect();
        assert_eq!(split(text), expected);
    }
}

#[test]
fn is_whitespace_agrees_with_char_is_whitespace_on_every_character() {
    for code in 0..=0x10ffffu32 {
        if let Some(c) = char::from_u32(code) {
            assert_eq!(is_whitespace(c), c.is_whitespace(), "U+{:04X}", code);
        }
    }
}

#[test]
fn tokenize_lowers_case_and_drops_punctuation() {
    assert_eq!(tokenize("One fOUr!"), vec!["one", "four"]);
    assert_eq!(tokenize("two THREE four?"), vec!["two", "three", "four"]);
}

#[test]
fn tokenize_keeps_repeated_words() {
    assert_eq!(tokenize("foo bar foo"), vec!["foo", "bar", "foo"]);
}

#[test]
fn tokenize_cuts_at_punctuation() {
    assert_eq!(tokenize("alice@bob.com"), vec!["alice", "bob", "com"]);
    assert_eq!(tokenize("jaja---lol"), vec!["jaja", "lol"]);
}

#[test]
fn tokenize_transliterates() {
    assert_eq!(tokenize("Æúű--cool?"), vec!["aeuu", "cool"]);
}

#[test]
fn tokenize_of_no_word_is_empty() {
    assert!(tokenize("").is_empty());
    assert!(tokenize("?!").is_empty());
    assert!(tokenize("   ").is_empty());
}
