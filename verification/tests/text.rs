use match_engine::text::{
    chars_of, has_text, parse_i32, parse_u32, parse_u64, same_text, space, split_words, str_eq,
    trim, write_u64,
};

fn chars(s: &str) -> Vec<char> {
    s.chars().collect()
}

#[test]
fn unsigned_numbers_are_read_as_the_standard_library_reads_them() {
    for text in ["0", "7", "+7", "007", "18446744073709551615", "18446744073709551616", "", "+",
        "-1", "1 ", " 1", "1_000", "12a", "++1", "٣"]
    {
        assert_eq!(parse_u64(text), text.parse::<u64>().ok(), "{text:?}");
    }
    for text in ["4294967295", "4294967296", "+0", "99999999999999999999999", "12"] {
        assert_eq!(parse_u32(text), text.parse::<u32>().ok(), "{text:?}");
    }
    assert_eq!(parse_u64("18446744073709551615"), Some(u64::MAX));
    assert_eq!(parse_u32("4294967296"), None);
}

#[test]
fn signed_numbers_are_read_as_the_standard_library_reads_them() {
    for text in ["0", "-0", "-1", "+1", "2147483647", "2147483648", "-2147483648", "-2147483649",
        "", "-", "+", "--1", "+-1", "1-", "- 1", "90"]
    {
        assert_eq!(parse_i32(text), text.parse::<i32>().ok(), "{text:?}");
    }
    assert_eq!(parse_i32("-2147483648"), Some(i32::MIN));
    assert_eq!(parse_i32("2147483647"), Some(i32::MAX));
}

#[test]
fn numbers_are_written_as_the_standard_library_writes_them() {
    for n in [0u64, 1, 9, 10, 11, 99, 100, 101, 1234567890, u64::MAX] {
        assert_eq!(write_u64(n), chars(&n.to_string()));
        let text: String = write_u64(n).into_iter().collect();
        assert_eq!(parse_u64(&text), Some(n));
    }
}

#[test]
fn white_space_is_what_the_standard_library_takes_for_it() {
    for code in 0..0x3100u32 {
        if let Some(c) = char::from_u32(code) {
            assert_eq!(space(c), c.is_whitespace(), "{code:#x}");
        }
    }
    assert!(!space('\u{feff}'));
}

#[test]
fn trimming_takes_white_space_from_both_ends_only() {
    for text in ["", " ", "  \t\n", "a", " a", "a ", "  a b  ", "\u{3000}x\u{a0}", "a  b", " \r\n<@1>\n"] {
        assert_eq!(trim(&chars(text)), chars(text.trim()), "{text:?}");
    }
}

#[test]
fn words_are_the_runs_between_white_space() {
    for text in ["", "   ", "5", "5 90 1200 100", "  5\t90\n\n1200   100  ", "a\u{2003}b", " x"] {
        let expected: Vec<Vec<char>> = text.split_whitespace().map(chars).collect();
        assert_eq!(split_words(&chars(text)), expected, "{text:?}");
    }
}

#[test]
fn text_is_found_where_it_stands() {
    assert!(has_text(&chars("2023 ICPC World Finals"), &chars("ICPC")));
    assert!(has_text(&chars("ICPC"), &chars("ICPC")));
    assert!(has_text(&chars("xxICPC"), &chars("ICPC")));
    assert!(has_text(&chars("anything"), &chars("")));
    assert!(has_text(&chars(""), &chars("")));
    assert!(!has_text(&chars("ICP"), &chars("ICPC")));
    assert!(!has_text(&chars("icpc"), &chars("ICPC")));
    assert!(!has_text(&chars("IC PC"), &chars("ICPC")));
    assert!(!has_text(&chars(""), &chars("ICPC")));
    assert!(has_text(&chars("IICPC"), &chars("ICPC")));
    assert!(has_text(&chars("ICPICPC"), &chars("ICPC")));
}

#[test]
fn texts_are_compared_character_by_character() {
    assert!(str_eq("abc", "abc"));
    assert!(!str_eq("abc", "abd"));
    assert!(!str_eq("abc", "ab"));
    assert!(str_eq("", ""));
    assert!(same_text(&chars("héllo"), &chars_of("héllo")));
    assert!(!same_text(&chars("a"), &chars("b")));
    assert!(!same_text(&chars("a"), &chars("aa")));
    assert_eq!(chars_of("a→b"), vec!['a', '→', 'b']);
}
