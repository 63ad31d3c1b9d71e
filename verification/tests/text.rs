use jelly::text::{
    chars_of, comes_before, is_white_space, joined, left_aligned, parse_u32, parse_unsigned,
    push_decimal, push_text, repeat_char, right_aligned, same_text, split_chars, split_lines,
    split_words, string_of, trimmed,
};

const SAMPLES: [&str; 14] = [
    "",
    "\n",
    "\r\n",
    "a",
    "a\n",
    "a\nb",
    "a\n\nb\n",
    "a\r\nb\r\n",
    "a\rb\n",
    "\n\n",
    "tail\r",
    " x \t y\u{a0}z\u{2003}",
    "\u{3000}é\u{85}…\n ü",
    "one  two\tthree\n\x0bfour ",
];

fn rows(parts: Vec<Vec<char>>) -> Vec<String> {
    parts.iter().map(|p| string_of(p)).collect()
}

#[test]
fn lines_split_as_std_splits_them() {
    for s in SAMPLES {
        let expected: Vec<String> = s.lines().map(|l| l.to_string()).collect();
        assert_eq!(rows(split_lines(s)), expected, "{s:?}");
    }
}

#[test]
fn fields_split_as_std_splits_them() {
    for s in ["", "\t", "a\tb", "a\t\tb\t", "\ta"] {
        let expected: Vec<String> = s.split('\t').map(|l| l.to_string()).collect();
        assert_eq!(rows(split_chars(&chars_of(s), '\t')), expected, "{s:?}");
    }
}

#[test]
fn words_split_as_std_splits_them() {
    for s in SAMPLES {
        let expected: Vec<String> = s.split_whitespace().map(|l| l.to_string()).collect();
        assert_eq!(rows(split_words(&chars_of(s))), expected, "{s:?}");
    }
}

#[test]
fn trimming_agrees_with_std() {
    for s in SAMPLES {
        assert_eq!(string_of(&trimmed(&chars_of(s))), s.trim(), "{s:?}");
        let inner = trimmed(&chars_of(s));
        assert_eq!(trimmed(&inner), inner);
    }
}

#[test]
fn white_space_agrees_with_std_on_every_character() {
    for n in 0..=0x10ffffu32 {
        if let Some(c) = char::from_u32(n) {
            assert_eq!(is_white_space(c), c.is_whitespace(), "{n:x}");
        }
    }
}

#[test]
fn numbers_parse_as_std_parses_them() {
    for s in [
        "", "0", "+0", "-0", "+", "-", "7", "007", "+12", "-1", "4294967295", "4294967296",
        "99999999999999999999", " 1", "1 ", "1x", "٣", "18446744073709551615",
        "18446744073709551616", "++1",
    ] {
        assert_eq!(parse_u32(&chars_of(s)), s.parse::<u32>().ok(), "{s:?}");
        assert_eq!(parse_unsigned(&chars_of(s), u64::MAX), s.parse::<u64>().ok(), "{s:?}");
    }
}

#[test]
fn decimals_read_back() {
    for n in [0u64, 1, 9, 10, 99, 100, 4294967295, u64::MAX] {
        let mut s = String::new();
        push_decimal(&mut s, n);
        assert_eq!(s, n.to_string());
        assert_eq!(parse_unsigned(&chars_of(&s), u64::MAX), Some(n));
    }
}

#[test]
fn padding_agrees_with_std() {
    for s in ["", "a", "abc", "…é", "abcdef", "abcdefg"] {
        assert_eq!(left_aligned(s, 6), format!("{s:<6}"));
        assert_eq!(right_aligned(s, 6), format!("{s:>6}"));
    }
}

#[test]
fn order_agrees_with_std() {
    let names = ["", "a", "ab", "b", "B", "é", "z", "\u{10000}", "\u{ffff}"];
    for a in names {
        for b in names {
            assert_eq!(comes_before(&chars_of(a), &chars_of(b)), a < b, "{a:?} {b:?}");
            assert_eq!(same_text(a, b), a == b);
        }
    }
}

#[test]
fn pieces_join() {
    assert_eq!(joined("ab", "çd"), "abçd");
    let mut s = String::from("x");
    push_text(&mut s, "yz");
    assert_eq!(s, "xyz");
    assert_eq!(repeat_char('█', 3), "███");
    assert_eq!(repeat_char('█', 0), "");
}
