use mem_attest::text::{
    char_is_whitespace, chars_of, digit_of, find, find_char, has_prefix, has_suffix, line_ranges,
    matches_at, parse_number, push_number, push_padded_number, range_equals, split_words, text_of,
    trim_range,
};

fn chars(text: &str) -> Vec<char> {
    text.chars().collect()
}

fn words(text: &str) -> Vec<String> {
    let line = chars(text);
    split_words(&line).iter().map(|&(start, end)| text_of(&line, start, end)).collect()
}

fn lines(text: &str) -> Vec<String> {
    let all = chars(text);
    line_ranges(&all).iter().map(|&(start, end)| text_of(&all, start, end)).collect()
}

fn trimmed(text: &str) -> String {
    let all = chars(text);
    let (start, end) = trim_range(&all, 0, all.len());
    text_of(&all, start, end)
}

fn parsed(text: &str, radix: u64) -> Option<u64> {
    let all = chars(text);
    parse_number(&all, 0, all.len(), radix)
}

#[test]
fn whitespace_is_the_unicode_property() {
    for code in 0..=0x10ffffu32 {
        if let Some(c) = char::from_u32(code) {
            assert_eq!(char_is_whitespace(c), c.is_whitespace(), "{:x}", code);
        }
    }
}

#[test]
fn characters_of_a_string() {
    assert_eq!(chars_of(""), Vec::<char>::new());
    assert_eq!(chars_of("aé\u{1f600}z"), vec!['a', 'é', '\u{1f600}', 'z']);
    assert_eq!(text_of(&chars("aé\u{1f600}z"), 1, 3), "é\u{1f600}");
    assert_eq!(text_of(&chars("abc"), 2, 2), "");
}

#[test]
fn fields_are_runs_between_whitespace() {
    let samples = [
        "",
        " ",
        "a",
        " a ",
        "a b",
        "  a   b\tc\n",
        "one\u{a0}two\u{3000}three",
        "\u{2003}x\u{85}",
        "a\rb",
        "tab\tseparated\tfields",
        "é è\u{2028}ê",
    ];
    for sample in samples {
        let expected: Vec<String> = sample.split_whitespace().map(|word| word.to_string()).collect();
        assert_eq!(words(sample), expected, "{:?}", sample);
    }
}

#[test]
fn lines_end_at_line_feeds() {
    let samples = [
        "",
        "a",
        "a\n",
        "\n",
        "\n\n",
        "a\nb",
        "a\r\nb\r\n",
        "a\rb",
        "a\r",
        "\r\n",
        "\r",
        "a\n\nb\n",
        "Name:\tcat\nState:\tR (running)\n",
        "x\r\r\ny",
    ];
    for sample in samples {
        let expected: Vec<String> = sample.lines().map(|line| line.to_string()).collect();
        assert_eq!(lines(sample), expected, "{:?}", sample);
    }
}

#[test]
fn trimming_drops_whitespace_at_both_ends() {
    let samples = ["", " ", "a", " a", "a ", "  a b  ", "\t\n x \r\n", "\u{3000}é\u{a0}", "   ", "a\u{85}"];
    for sample in samples {
        assert_eq!(trimmed(sample), sample.trim(), "{:?}", sample);
    }
    let all = chars("xx  ab  yy");
    assert_eq!(trim_range(&all, 2, 8), (4, 6));
    assert_eq!(trim_range(&all, 2, 4), (4, 4));
    assert_eq!(trim_range(&all, 0, 10), (0, 10));
}

#[test]
fn numbers_in_hexadecimal_and_decimal() {
    assert_eq!(parsed("0", 16), Some(0));
    assert_eq!(parsed("7fff", 16), Some(0x7fff));
    assert_eq!(parsed("DeadBeef", 16), Some(0xdeadbeef));
    assert_eq!(parsed("ffffffffffffffff", 16), Some(u64::MAX));
    assert_eq!(parsed("10000000000000000", 16), None);
    assert_eq!(parsed("18446744073709551615", 10), Some(u64::MAX));
    assert_eq!(parsed("18446744073709551616", 10), None);
    assert_eq!(parsed("99999999999999999999", 10), None);
    assert_eq!(parsed("12a", 10), None);
    assert_eq!(parsed("12", 10), Some(12));
    assert_eq!(parsed("+12", 10), Some(12));
    assert_eq!(parsed("0012", 10), Some(12));
}

#[test]
fn numbers_agree_with_the_standard_library() {
    let samples = [
        "", "+", "-", "+0", "-0", "++1", "+-1", "1+", " 1", "1 ", "0x10", "g", "G", "f", "F", "a0",
        "000000000000000000000000000000001", "ffffffffffffffffa", "+ffffffffffffffff", "１２", "٣",
        "1e3", "1.0", "9", "z", "/", ":", "@", "`",
    ];
    for sample in samples {
        for radix in [2u32, 8, 10, 16] {
            assert_eq!(
                parsed(sample, radix as u64),
                u64::from_str_radix(sample, radix).ok(),
                "{:?} in {}",
                sample,
                radix
            );
        }
    }
}

#[test]
fn part_of_a_line_is_read_as_a_number() {
    let line = chars("ab-1f cd");
    assert_eq!(parse_number(&line, 3, 5, 16), Some(0x1f));
    assert_eq!(parse_number(&line, 0, 2, 16), Some(0xab));
    assert_eq!(parse_number(&line, 0, 5, 16), None);
    assert_eq!(parse_number(&line, 2, 2, 16), None);
    assert_eq!(parse_number(&line, 6, 8, 10), None);
}

#[test]
fn digits_by_radix() {
    assert_eq!(digit_of('7', 8), Some(7));
    assert_eq!(digit_of('8', 8), None);
    assert_eq!(digit_of('a', 16), Some(10));
    assert_eq!(digit_of('F', 16), Some(15));
    assert_eq!(digit_of('a', 10), None);
    assert_eq!(digit_of('g', 16), None);
    for code in 0..=0x10ffffu32 {
        if let Some(c) = char::from_u32(code) {
            assert_eq!(digit_of(c, 16), c.to_digit(16).map(|d| d as u64));
            assert_eq!(digit_of(c, 10), c.to_digit(10).map(|d| d as u64));
        }
    }
}

#[test]
fn search_for_characters_and_patterns() {
    let line = chars("7f00-7f10");
    assert_eq!(find_char(&line, 0, 9, '-'), 4);
    assert_eq!(find_char(&line, 5, 9, '-'), 9);
    assert_eq!(find_char(&line, 0, 4, '-'), 4);
    assert_eq!(find_char(&line, 4, 4, '-'), 4);

    let name = chars("/usr/lib/libc.so.6");
    assert!(find(&name, &chars(".so.")));
    assert!(find(&name, &chars("")));
    assert!(find(&name, &name));
    assert!(!find(&name, &chars(".so.7")));
    assert!(!find(&chars(""), &chars("a")));
    assert!(find(&chars(""), &chars("")));
    assert!(matches_at(&name, &chars("usr"), 1));
    assert!(!matches_at(&name, &chars("usr"), 2));
    assert!(!matches_at(&name, &chars("6x"), 17));
    assert!(matches_at(&name, &chars(""), 18));
    assert!(!matches_at(&name, &chars(""), 19));
    assert!(has_prefix(&name, &chars("/usr")));
    assert!(!has_prefix(&name, &chars("usr")));
    assert!(has_suffix(&name, &chars(".6")));
    assert!(!has_suffix(&name, &chars(".so")));
    assert!(!has_suffix(&chars("o"), &chars(".so")));
    assert!(range_equals(&name, 1, 4, &chars("usr")));
    assert!(!range_equals(&name, 1, 5, &chars("usr")));
    assert!(range_equals(&name, 3, 3, &chars("")));
}

#[test]
fn numbers_are_written_as_the_standard_library_writes_them() {
    for n in [0u64, 1, 9, 10, 15, 16, 255, 256, 4095, 0xdeadbeef, u64::MAX] {
        let mut hex = Vec::new();
        push_number(&mut hex, n, 16);
        assert_eq!(hex.iter().collect::<String>(), format!("{:x}", n));
        let mut dec = vec!['#'];
        push_number(&mut dec, n, 10);
        assert_eq!(dec.iter().collect::<String>(), format!("#{}", n));
        let mut wide = Vec::new();
        push_padded_number(&mut wide, n, 16, 16, '0');
        assert_eq!(wide.iter().collect::<String>(), format!("{:016x}", n));
        let mut narrow = Vec::new();
        push_padded_number(&mut narrow, n, 10, 8, ' ');
        assert_eq!(narrow.iter().collect::<String>(), format!("{:>8}", n));
        let mut none = Vec::new();
        push_padded_number(&mut none, n, 2, 0, '0');
        assert_eq!(none.iter().collect::<String>(), format!("{:b}", n));
    }
}
