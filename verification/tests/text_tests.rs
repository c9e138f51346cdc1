use devport::text::{
    char_vec, contains, decimal_string, find, lex_less, line_ranges, parse_i32_range, rfind_char,
    signed_decimal_string, split_ranges, white_space, word_ranges,
};

fn chars(s: &str) -> Vec<char> {
    char_vec(s)
}

fn pieces(s: &str, ranges: &[(usize, usize)]) -> Vec<String> {
    let cs: Vec<char> = s.chars().collect();
    ranges.iter().map(|&(a, b)| cs[a..b].iter().collect()).collect()
}

#[test]
fn char_vec_keeps_every_character() {
    assert_eq!(chars("a\u{e9}\u{1f600}b"), vec!['a', '\u{e9}', '\u{1f600}', 'b']);
    assert_eq!(chars(""), Vec::<char>::new());
}

#[test]
fn find_gives_the_leftmost_occurrence() {
    assert_eq!(find(&chars("abcabc"), &chars("bc")), Some(1));
    assert_eq!(find(&chars("abc"), &chars("d")), None);
    assert_eq!(find(&chars("abc"), &chars("")), Some(0));
    assert!(contains(&chars("node server.js"), &chars("server")));
    assert!(!contains(&chars("ab"), &chars("abc")));
}

#[test]
fn split_matches_str_split() {
    for s in ["a/b/c", "/a//b/", "", "abc", "//"] {
        let cs = chars(s);
        let expected: Vec<String> = s.split('/').map(|p| p.to_string()).collect();
        assert_eq!(pieces(s, &split_ranges(&cs, '/')), expected);
    }
}

#[test]
fn lines_match_str_lines() {
    for s in ["a\nb\n", "a\r\nb", "a\rb\n\nc", "", "\n", "x\r", "one\r\n\r\ntwo"] {
        let cs = chars(s);
        let expected: Vec<String> = s.lines().map(|p| p.to_string()).collect();
        assert_eq!(pieces(s, &line_ranges(&cs)), expected);
    }
}

#[test]
fn words_match_split_whitespace() {
    for s in ["node  1234 user", "  a\tb\u{a0}c  ", "", "   ", "x"] {
        let cs = chars(s);
        let expected: Vec<String> = s.split_whitespace().map(|p| p.to_string()).collect();
        assert_eq!(pieces(s, &word_ranges(&cs)), expected);
    }
}

#[test]
fn parse_matches_str_parse() {
    for s in [
        "0", "42", "+7", "-13", "-", "+", "", "12a", "2147483647", "2147483648", "-2147483648",
        "-2147483649", "99999999999999999999", "007",
    ] {
        let cs = chars(s);
        assert_eq!(parse_i32_range(&cs, 0, cs.len()), s.parse::<i32>().ok(), "{}", s);
    }
}

#[test]
fn decimal_matches_display() {
    for n in [0u64, 7, 10, 3000, 27017, u64::MAX] {
        assert_eq!(decimal_string(n), n.to_string());
    }
    for n in [0i32, -1, 42, i32::MIN, i32::MAX] {
        assert_eq!(signed_decimal_string(n), n.to_string());
    }
}

#[test]
fn white_space_matches_char_is_whitespace() {
    for u in 0u32..=0x10FFFF {
        if let Some(c) = char::from_u32(u) {
            assert_eq!(white_space(c), c.is_whitespace(), "{:x}", u);
        }
    }
}

#[test]
fn lexicographic_order_matches_string_order() {
    let samples = ["", "a", "ab", "b", "api", "web", "Web", "\u{e9}", "z", "\u{1f600}", "ab\u{e9}", "abc"];
    for a in samples {
        for b in samples {
            assert_eq!(lex_less(&char_vec(a), &char_vec(b)), a < b, "{} {}", a, b);
        }
    }
}

#[test]
fn rfind_looks_only_before_the_end() {
    let cs = char_vec("/a/b/c");
    assert_eq!(rfind_char(&cs, '/', 6), Some(4));
    assert_eq!(rfind_char(&cs, '/', 4), Some(2));
    assert_eq!(rfind_char(&cs, '/', 0), None);
    assert_eq!(rfind_char(&cs, 'x', 6), None);
}
