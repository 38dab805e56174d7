use golangci_cmd::number::{parse_u8, push_decimal};
use golangci_cmd::search::{find, replace, rfind, same_text, starts_with};
use golangci_cmd::text::{
    before_dot, chars_of, first_word, is_whitespace, join, trim, truncate,
};

#[test]
fn white_space_is_that_of_unicode() {
    for code in 0..=0x10FFFFu32 {
        if let Some(c) = char::from_u32(code) {
            assert_eq!(is_whitespace(c), c.is_whitespace(), "{:?}", c);
        }
    }
}

#[test]
fn trimming() {
    for text in ["", " ", "a", " a b\t\n", "\u{a0}é\u{2003}", "\u{200b}x\u{200b}", "\n\n"] {
        assert_eq!(trim(text), text.trim());
        assert_eq!(trim(trim(text)), trim(text));
    }
}

#[test]
fn words_and_dots() {
    for text in ["", "  ", "1.2 x", "\t2.11.3\nbuilt", "a"] {
        assert_eq!(first_word(text), text.split_whitespace().next().unwrap_or(""));
    }
    assert_eq!(before_dot("1.62.2"), "1");
    assert_eq!(before_dot(".5"), "");
    assert_eq!(before_dot("plain"), "plain");
}

#[test]
fn characters() {
    assert_eq!(chars_of("aé✓"), vec!['a', 'é', '✓']);
    assert_eq!(chars_of(""), vec![]);
}

#[test]
fn truncating() {
    assert_eq!(truncate("hello world", 8), "hello...");
    assert_eq!(truncate("hello", 5), "hello");
    assert_eq!(truncate("hello", 3), "...");
    assert_eq!(truncate("hello", 2), "...");
    assert_eq!(truncate("", 0), "");
}

#[test]
fn joining() {
    let none: Vec<String> = vec![];
    assert_eq!(join(&none, " "), "");
    assert_eq!(join(&["a".to_string()], " "), "a");
    assert_eq!(join(&["a".to_string(), "".to_string(), "b".to_string()], ", "), "a, , b");
}

#[test]
fn searching() {
    assert_eq!(find("go version 1 version 2", "version "), Some(3));
    assert_eq!(find("goversion", "version "), None);
    assert_eq!(find("éx", "x"), Some(1));
    assert_eq!(find("abc", ""), Some(0));
    assert_eq!(find("", ""), Some(0));
    assert_eq!(rfind("/pkg/pkg/x", "/pkg/"), Some(4));
    assert_eq!(rfind("pkg/x", "/pkg/"), None);
    assert_eq!(rfind("abc", ""), Some(3));
    assert_eq!(rfind("a", "abc"), None);
}

#[test]
fn comparing() {
    assert!(starts_with("--output.json.path=x", "--output."));
    assert!(!starts_with("--out", "--output."));
    assert!(starts_with("x", ""));
    assert!(same_text("run", "run"));
    assert!(!same_text("run", "runs"));
    assert!(!same_text("run", "ran"));
}

#[test]
fn replacing() {
    assert_eq!(replace("C:\\a\\b.go", '\\', '/'), "C:/a/b.go");
    assert_eq!(replace("abc", 'x', 'y'), "abc");
}

#[test]
fn decimal_numbers() {
    for n in [0u64, 7, 10, 42, 999, 1000, u64::MAX] {
        let mut out = String::from("=");
        push_decimal(&mut out, n);
        assert_eq!(out, format!("={}", n));
    }
}

#[test]
fn numbers_up_to_255() {
    let texts = [
        "", "+", "-", "0", "1", "+2", "-0", "007", "255", "256", "+255", "00000000255", "999999999",
        "1a", "a1", " 1", "++1", "٣",
    ];
    for text in texts {
        assert_eq!(parse_u8(text), text.parse::<u8>().ok(), "{:?}", text);
    }
    for n in 0..=255u8 {
        assert_eq!(parse_u8(&n.to_string()), Some(n));
    }
}
