use railog::text::blank;
use railog::text::chars_of;
use railog::text::first_words;
use railog::text::is_whitespace;

fn std_prefix(line: &str, n: usize) -> String {
    line.split_whitespace().take(n).collect::<Vec<_>>().join(" ")
}

#[test]
fn whitespace_is_the_unicode_property() {
    let mut code: u32 = 0;
    while code <= 0x10ffff {
        if let Some(c) = char::from_u32(code) {
            assert_eq!(is_whitespace(c), c.is_whitespace(), "U+{:04X}", code);
        }
        code += 1;
    }
}

#[test]
fn chars_come_in_order() {
    assert_eq!(chars_of("aé\u{3000}z"), vec!['a', 'é', '\u{3000}', 'z']);
    assert_eq!(chars_of(""), Vec::<char>::new());
}

#[test]
fn blank_text_holds_only_white_space() {
    assert!(blank(&chars_of("")));
    assert!(blank(&chars_of(" \t\r\n\u{2003}")));
    assert!(!blank(&chars_of("  x ")));
}

#[test]
fn first_three_words_joined_by_single_spaces() {
    assert_eq!(first_words("Oct 28 12:34:56 host sshd[1]: x", 3), "Oct 28 12:34:56");
    assert_eq!(first_words("  Oct   28\t12:34:56   host", 3), "Oct 28 12:34:56");
    assert_eq!(first_words("one two", 3), "one two");
    assert_eq!(first_words("one", 3), "one");
    assert_eq!(first_words("", 3), "");
    assert_eq!(first_words("   ", 3), "");
    assert_eq!(first_words("a b c d", 0), "");
    assert_eq!(first_words("a b c d", 1), "a");
    assert_eq!(first_words("a b c d", 9), "a b c d");
}

#[test]
fn first_words_agree_with_split_whitespace() {
    let samples = [
        "Oct 28 12:34:56 host sshd[12345]: Accepted publickey",
        "\u{a0}x\u{2003}y\u{3000}z w",
        "tab\tseparated\twords\there",
        "trailing   ",
        "   leading",
        "é ü ß ø",
        "a\u{85}b\u{1680}c\u{2028}d",
        "single",
        "",
    ];
    for line in samples {
        for n in 0..6 {
            assert_eq!(first_words(line, n), std_prefix(line, n), "{:?} {}", line, n);
        }
    }
}
