use mem_attest::utils::{
    comm_matches, find_process_by_name, get_process_info, hex_to_bytes, info_value, parse_pid,
    HexError,
};

fn entries(list: &[(&str, Option<&str>)]) -> Vec<(String, Option<String>)> {
    list.iter().map(|(name, comm)| (name.to_string(), comm.map(|text| text.to_string()))).collect()
}

fn pairs(list: &[(&str, &str)]) -> Vec<(String, String)> {
    list.iter().map(|(key, value)| (key.to_string(), value.to_string())).collect()
}

#[test]
fn hex_text_is_read_into_bytes() {
    assert_eq!(hex_to_bytes(""), Ok(vec![]));
    assert_eq!(hex_to_bytes("00"), Ok(vec![0]));
    assert_eq!(hex_to_bytes("deadBEEF"), Ok(vec![0xde, 0xad, 0xbe, 0xef]));
    assert_eq!(hex_to_bytes("0102030f10"), Ok(vec![1, 2, 3, 15, 16]));
    assert_eq!(hex_to_bytes("ff"), Ok(vec![255]));
}

#[test]
fn spaces_and_marks_are_ignored() {
    assert_eq!(hex_to_bytes("0xde 0xad"), Ok(vec![0xde, 0xad]));
    assert_eq!(hex_to_bytes("de ad be ef"), Ok(vec![0xde, 0xad, 0xbe, 0xef]));
    assert_eq!(hex_to_bytes(" d e a d "), Ok(vec![0xde, 0xad]));
    assert_eq!(hex_to_bytes("0x"), Ok(vec![]));
    assert_eq!(hex_to_bytes("0x0x12"), Ok(vec![0x12]));
    assert_eq!(hex_to_bytes("0 x12"), Ok(vec![0x12]));
    assert_eq!(hex_to_bytes("10x2"), Ok(vec![0x12]));
    assert_eq!(hex_to_bytes("100x2"), Err(HexError::OddLength));
    assert_eq!("100x2".replace(' ', "").replace("0x", ""), "102");
    assert_eq!(hex_to_bytes("00xx"), Err(HexError::InvalidDigit));
    assert_eq!(hex_to_bytes("000x"), Ok(vec![0]));
    assert_eq!(hex_to_bytes("0x0"), Err(HexError::OddLength));
}

#[test]
fn odd_length_is_refused_before_digits_are_looked_at() {
    assert_eq!(hex_to_bytes("a"), Err(HexError::OddLength));
    assert_eq!(hex_to_bytes("abc"), Err(HexError::OddLength));
    assert_eq!(hex_to_bytes("zzz"), Err(HexError::OddLength));
    assert_eq!(hex_to_bytes("a b c"), Err(HexError::OddLength));
    assert_eq!(hex_to_bytes("é1"), Err(HexError::OddLength));
}

#[test]
fn pairs_that_write_no_byte_are_refused() {
    assert_eq!(hex_to_bytes("zz"), Err(HexError::InvalidDigit));
    assert_eq!(hex_to_bytes("0g"), Err(HexError::InvalidDigit));
    assert_eq!(hex_to_bytes("12 3x"), Err(HexError::InvalidDigit));
    assert_eq!(hex_to_bytes("-1"), Err(HexError::InvalidDigit));
    assert_eq!(hex_to_bytes("1+"), Err(HexError::InvalidDigit));
    assert_eq!(hex_to_bytes("++"), Err(HexError::InvalidDigit));
    assert_eq!(hex_to_bytes("é"), Err(HexError::InvalidDigit));
    assert_eq!(hex_to_bytes("12\t3"), Err(HexError::InvalidDigit));
    assert_eq!(hex_to_bytes("0X12"), Err(HexError::InvalidDigit));
}

#[test]
fn plus_sign_and_one_digit_write_a_byte() {
    assert_eq!(hex_to_bytes("+f"), Ok(vec![15]));
    assert_eq!(hex_to_bytes("+0+A"), Ok(vec![0, 10]));
    assert_eq!(u8::from_str_radix("+f", 16), Ok(15));
}

#[test]
fn hex_text_round_trip() {
    let bytes: Vec<u8> = (0..=255u8).collect();
    assert_eq!(hex_to_bytes(&hex::encode(&bytes)), Ok(bytes.clone()));
    assert_eq!(hex_to_bytes(&hex::encode_upper(&bytes)), Ok(bytes.clone()));
    assert_eq!(hex_to_bytes(&format!("0x{}", hex::encode(&bytes))), Ok(bytes));
}

#[test]
fn process_numbers_are_decimal_file_names() {
    assert_eq!(parse_pid("1"), Some(1));
    assert_eq!(parse_pid("4294967295"), Some(u32::MAX));
    assert_eq!(parse_pid("4294967296"), None);
    assert_eq!(parse_pid("0042"), Some(42));
    assert_eq!(parse_pid("+7"), Some(7));
    for name in ["", "self", "12a", "-1", " 1", "1 ", "0x10", "net", "99999999999999999999999"] {
        assert_eq!(parse_pid(name), name.parse::<u32>().ok(), "{:?}", name);
        assert_eq!(parse_pid(name), None);
    }
}

#[test]
fn command_names_are_compared_trimmed() {
    assert!(comm_matches("game\n", "game"));
    assert!(comm_matches("  game \t\n", "game"));
    assert!(comm_matches("my game\n", "my game"));
    assert!(comm_matches("", ""));
    assert!(comm_matches(" \n", ""));
    assert!(!comm_matches("game\n", "game\n"));
    assert!(!comm_matches("game\n", " game"));
    assert!(!comm_matches("games\n", "game"));
    assert!(!comm_matches("gam\n", "game"));
    assert!(!comm_matches("Game\n", "game"));
}

#[test]
fn first_matching_process_is_found() {
    let list = entries(&[
        ("cpuinfo", Some("game\n")),
        ("1", Some("init\n")),
        ("77", None),
        ("120", Some("game\n")),
        ("self", None),
        ("300", Some("game\n")),
    ]);
    assert_eq!(find_process_by_name(&list, "game"), 120);
    assert_eq!(find_process_by_name(&list, "init"), 1);
}

#[test]
fn unknown_process_is_zero() {
    let list = entries(&[("1", Some("init\n")), ("2", None), ("x", Some("game\n"))]);
    assert_eq!(find_process_by_name(&list, "game"), 0);
    assert_eq!(find_process_by_name(&vec![], "game"), 0);
    assert_eq!(find_process_by_name(&list, ""), 0);
}

#[test]
fn process_info_from_all_three_sources() {
    let info = get_process_info(
        Some("cat\n"),
        Some("cat\0-n\0/etc/hosts\0"),
        Some("Name:\tcat\nUmask:\t0022\nState:\tR (running)\nno colon here\nPid:  42  \n"),
    );
    assert_eq!(
        info,
        pairs(&[
            ("name", "cat"),
            ("cmdline", "cat -n /etc/hosts"),
            ("Name", "cat"),
            ("Umask", "0022"),
            ("State", "R (running)"),
            ("Pid", "42"),
        ])
    );
}

#[test]
fn process_info_without_sources_is_empty() {
    assert!(get_process_info(None, None, None).is_empty());
    assert_eq!(get_process_info(Some("x"), None, None), pairs(&[("name", "x")]));
    assert_eq!(get_process_info(None, Some(""), None), pairs(&[("cmdline", "")]));
    assert!(get_process_info(None, None, Some("")).is_empty());
    assert!(get_process_info(None, None, Some("\n\nnothing\n")).is_empty());
}

#[test]
fn status_lines_split_at_the_first_colon() {
    let info = get_process_info(None, None, Some("a:b:c\n:\n key : value \r\n::\nlast:"));
    assert_eq!(
        info,
        pairs(&[("a", "b:c"), ("", ""), ("key", "value"), ("", ":"), ("last", "")])
    );
}

#[test]
fn command_line_separators_become_spaces() {
    assert_eq!(
        get_process_info(None, Some("\0\0a\0\0b\0"), None),
        pairs(&[("cmdline", "a  b")])
    );
    assert_eq!(get_process_info(None, Some(" \0 "), None), pairs(&[("cmdline", "")]));
}

#[test]
fn repeated_keys_are_kept_in_order() {
    let info = get_process_info(Some("one"), None, Some("name: two\nname: three\n"));
    assert_eq!(info, pairs(&[("name", "one"), ("name", "two"), ("name", "three")]));
    let map: std::collections::HashMap<String, String> = info.into_iter().collect();
    assert_eq!(map.get("name").map(|value| value.as_str()), Some("three"));
}

#[test]
fn later_value_holds_for_a_repeated_key() {
    let info = get_process_info(Some("one"), Some("a\0b"), Some("name: two\nState: S\nname: three\n"));
    assert_eq!(info_value(&info, "name").as_deref(), Some("three"));
    assert_eq!(info_value(&info, "cmdline").as_deref(), Some("a b"));
    assert_eq!(info_value(&info, "State").as_deref(), Some("S"));
    assert_eq!(info_value(&info, "state"), None);
    assert_eq!(info_value(&info, ""), None);
    assert_eq!(info_value(&vec![], "name"), None);
    let map: std::collections::HashMap<String, String> = info.clone().into_iter().collect();
    for key in ["name", "cmdline", "State", "missing"] {
        assert_eq!(info_value(&info, key), map.get(key).cloned());
    }
}
