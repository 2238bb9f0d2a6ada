use lib::text::{
    char_is_whitespace, chars_of, contains_chars, count_words, find_or_len_chars, join_strings, parse_u32, parse_u64, split_chars,
    split_lines, split_n_chars, str_eq, str_to_string, string_of, strip_all_prefix_chars, strip_prefix_chars,
    trim_chars, trim_end_char_chars, trim_str, u64_to_decimal,
};

fn cs(s: &str) -> Vec<char> {
    chars_of(s)
}

fn strs(v: &Vec<Vec<char>>) -> Vec<String> {
    v.iter().map(|l| string_of(l)).collect()
}

#[test]
fn decimal_formatting() {
    assert_eq!(u64_to_decimal(0), "0");
    assert_eq!(u64_to_decimal(7), "7");
    assert_eq!(u64_to_decimal(1234567890), "1234567890");
    assert_eq!(u64_to_decimal(u64::MAX), "18446744073709551615");
}

#[test]
fn parsing_unsigned_numbers() {
    assert_eq!(parse_u32(&cs("42")), Some(42));
    assert_eq!(parse_u32(&cs("+42")), Some(42));
    assert_eq!(parse_u32(&cs("007")), Some(7));
    assert_eq!(parse_u32(&cs("4294967295")), Some(u32::MAX));
    assert_eq!(parse_u32(&cs("4294967296")), None);
    assert_eq!(parse_u32(&cs("")), None);
    assert_eq!(parse_u32(&cs("+")), None);
    assert_eq!(parse_u32(&cs("-1")), None);
    assert_eq!(parse_u32(&cs(" 1")), None);
    assert_eq!(parse_u32(&cs("1a")), None);
    assert_eq!(parse_u64(&cs("18446744073709551615")), Some(u64::MAX));
    assert_eq!(parse_u64(&cs("18446744073709551616")), None);
    // the same answers as the standard library gives
    for s in ["12", "+3", "", "x", "99999999999", "0"] {
        assert_eq!(parse_u32(&cs(s)), s.parse::<u32>().ok());
    }
}

#[test]
fn trimming_like_std() {
    for s in ["  a b  ", "\t\nx\r\n", "", "   ", "abc", " \u{3000}wide\u{3000} "] {
        assert_eq!(trim_str(s), s.trim());
        assert_eq!(string_of(&trim_chars(&cs(s))), s.trim());
    }
    assert_eq!(string_of(&trim_end_char_chars(&cs("line\n\n"), '\n')), "line");
    assert_eq!(string_of(&trim_end_char_chars(&cs("line\r"), '\n')), "line\r");
}

#[test]
fn substring_search() {
    assert!(contains_chars(&cs("hello world"), &cs("o w")));
    assert!(contains_chars(&cs("hello"), &cs("")));
    assert!(contains_chars(&cs(""), &cs("")));
    assert!(!contains_chars(&cs("hello"), &cs("hello!")));
    assert!(!contains_chars(&cs("abc"), &cs("cb")));
    assert!(str_eq("same", "same"));
    assert!(!str_eq("same", "sane"));
}

#[test]
fn lines_like_std() {
    for s in ["a\nb", "a\nb\n", "a\r\nb\r\n", "", "\n", "\n\n", "x\ry", "one"] {
        let expected: Vec<String> = s.lines().map(|l| l.to_string()).collect();
        assert_eq!(strs(&split_lines(&cs(s))), expected);
    }
}

#[test]
fn words_like_std() {
    for s in ["", "   ", "one", " two  words ", "tabs\tand\nlines", "a b c d"] {
        assert_eq!(count_words(&cs(s)), s.split_whitespace().count());
    }
}

#[test]
fn splitting_like_std() {
    for s in ["a,b,c", "", ",", "no commas", "a,,b,"] {
        let expected: Vec<String> = s.split(',').map(|p| p.to_string()).collect();
        assert_eq!(strs(&split_chars(&cs(s), ',')), expected);
        let expected2: Vec<String> = s.splitn(2, ',').map(|p| p.to_string()).collect();
        assert_eq!(strs(&split_n_chars(&cs(s), 2, ',')), expected2);
    }
    let line = "a,b,c,d,e,f,g,h,i,j,k,l,m";
    let expected: Vec<String> = line.splitn(11, ',').map(|p| p.to_string()).collect();
    assert_eq!(strs(&split_n_chars(&cs(line), 11, ',')), expected);
}

#[test]
fn prefixes() {
    assert_eq!(strip_prefix_chars(&cs("Title: x"), "Title:").map(|v| string_of(&v)), Some(" x".to_string()));
    assert_eq!(strip_prefix_chars(&cs("Tit"), "Title:"), None);
    assert_eq!(string_of(&strip_all_prefix_chars(&cs("Version Version 3"), "Version ")), "3");
    assert_eq!(string_of(&strip_all_prefix_chars(&cs("::a"), ":")), "a");
    assert_eq!(find_or_len_chars(&cs("ab,c"), ','), 2);
    assert_eq!(find_or_len_chars(&cs("abc"), ','), 3);
}

#[test]
fn joining() {
    let parts = vec![str_to_string("a"), str_to_string("b"), str_to_string("c")];
    assert_eq!(join_strings(&parts, "|"), "a|b|c");
    assert_eq!(join_strings(&Vec::new(), "|"), "");
    assert_eq!(join_strings(&vec![str_to_string("solo")], ", #"), "solo");
}

#[test]
fn whitespace_test_agrees_with_std_on_every_char() {
    for code in 0u32..=0x10FFFF {
        if let Some(c) = char::from_u32(code) {
            assert_eq!(char_is_whitespace(c), c.is_whitespace(), "U+{:04X}", code);
        }
    }
}

#[test]
fn trimming_unicode_whitespace() {
    assert_eq!(trim_str("\u{3000}\u{a0} note \u{2029}"), "note");
    assert_eq!(trim_str("\u{200b}x"), "\u{200b}x");
}

#[test]
fn line_splitting_agrees_with_std() {
    let samples = [
        "", "a", "a\n", "a\nb", "a\r\nb\r\n", "foo\r\nbar\n\nbaz\r", "\r", "\r\n", "\n\n", "x\ry\n", "end\r\r\n",
    ];
    for t in samples {
        let ours: Vec<String> = split_lines(&cs(t)).iter().map(|l| string_of(l)).collect();
        let std_lines: Vec<String> = t.lines().map(|l| l.to_string()).collect();
        assert_eq!(ours, std_lines, "{:?}", t);
    }
}
