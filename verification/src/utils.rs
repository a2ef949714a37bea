//! Helpers around the catalog: hexadecimal input and the lookup of a process.

use vstd::prelude::*;
use vstd::string::{StringExecFns, StringSliceAdditionalSpecFns};
use vstd::utf8::{encode_utf8, is_ascii_chars, is_ascii_chars_encode_utf8};
use crate::hash::{hex_char, hex_string};
use crate::text::{
    chars_of,
    find_char,
    lemma_position_of_shift,
    line_ranges,
    lines_of,
    parse_number,
    parse_unsigned,
    position_of,
    range_equals,
    text_of,
    trim,
    trim_range,
};

verus! {

/// Why a text is not the hexadecimal form of bytes.
#[derive(Debug, Clone, Copy, PartialEq, Eq, Structural)]
pub enum HexError {
    /// An odd number of characters is left once spaces and `0x` marks are taken out.
    OddLength,
    /// A pair of characters does not write a byte.
    InvalidDigit,
}

/// `bytes` without its spaces.
pub open spec fn without_spaces(bytes: Seq<u8>) -> Seq<u8> {
    bytes.filter(|b: u8| b != 0x20)
}

/// `bytes` without its `0x` marks, found from left to right; what is left is not
/// searched again.
pub open spec fn without_marks(bytes: Seq<u8>) -> Seq<u8>
    decreases bytes.len(),
{
    if bytes.len() < 2 {
        bytes
    } else if bytes[0] == 0x30 && bytes[1] == 0x78 {
        without_marks(bytes.skip(2))
    } else {
        seq![bytes[0]] + without_marks(bytes.skip(1))
    }
}

/// The value of an ASCII hexadecimal digit, in either case.
pub open spec fn nibble_value(b: u8) -> Option<u8> {
    if 0x30 <= b <= 0x39 {
        Some((b - 0x30) as u8)
    } else if 0x61 <= b <= 0x66 {
        Some((b - 0x61 + 10) as u8)
    } else if 0x41 <= b <= 0x46 {
        Some((b - 0x41 + 10) as u8)
    } else {
        None
    }
}

/// The byte that two characters write: two hexadecimal digits, or a plus sign and one
/// digit.
pub open spec fn pair_value(high: u8, low: u8) -> Option<u8> {
    if high == 0x2B {
        nibble_value(low)
    } else {
        match (nibble_value(high), nibble_value(low)) {
            (Some(h), Some(l)) => Some((16 * h + l) as u8),
            _ => None,
        }
    }
}

/// The digits of a hexadecimal text, given the text as its UTF-8 bytes: what is left
/// when the spaces are taken out first, and then the `0x` marks.
pub open spec fn hex_digits(text: Seq<u8>) -> Seq<u8> {
    without_marks(without_spaces(text))
}

/// The bytes that digits write, read two at a time.
pub open spec fn read_pairs(digits: Seq<u8>) -> Result<Seq<u8>, HexError> {
    if digits.len() % 2 != 0 {
        Err(HexError::OddLength)
    } else if forall|i: int|
        0 <= i < digits.len() / 2 ==> (#[trigger] pair_value(digits[2 * i], digits[2 * i + 1])) is Some {
        Ok(Seq::new(digits.len() / 2, |i: int| pair_value(digits[2 * i], digits[2 * i + 1])->0))
    } else {
        Err(HexError::InvalidDigit)
    }
}

/// The bytes that a hexadecimal text writes, given the text as its UTF-8 bytes.
pub open spec fn hex_decoded(text: Seq<u8>) -> Result<Seq<u8>, HexError> {
    read_pairs(hex_digits(text))
}

/// Takes the spaces out of `bytes`.
fn strip_spaces(bytes: &[u8]) -> (kept: Vec<u8>)
    ensures
        kept@ == without_spaces(bytes@),
{
    let ghost keep = |b: u8| b != 0x20;
    let mut kept: Vec<u8> = Vec::new();
    let mut i: usize = 0;
    while i < bytes.len()
        invariant
            i <= bytes@.len(),
            keep == |b: u8| b != 0x20,
            kept@ == bytes@.take(i as int).filter(keep),
        decreases bytes@.len() - i,
    {
        proof {
            reveal(Seq::filter);
            assert(bytes@.take(i + 1).drop_last() =~= bytes@.take(i as int));
        }
        if bytes[i] != 0x20 {
            kept.push(bytes[i]);
        }
        i += 1;
    }
    assert(bytes@.take(bytes@.len() as int) =~= bytes@);
    kept
}

/// Takes the `0x` marks out of `bytes`.
fn strip_marks(bytes: &Vec<u8>) -> (kept: Vec<u8>)
    ensures
        kept@ == without_marks(bytes@),
{
    let len = bytes.len();
    let mut kept: Vec<u8> = Vec::new();
    let mut i: usize = 0;
    assert(bytes@.skip(0) =~= bytes@);
    assert(kept@ + without_marks(bytes@) =~= without_marks(bytes@));
    while i < len
        invariant
            i <= len,
            len == bytes@.len(),
            without_marks(bytes@) == kept@ + without_marks(bytes@.skip(i as int)),
        decreases len - i,
    {
        let ghost rest = bytes@.skip(i as int);
        if len - i >= 2 && bytes[i] == 0x30 && bytes[i + 1] == 0x78 {
            assert(rest.skip(2) =~= bytes@.skip(i + 2));
            i += 2;
        } else {
            proof {
                assert(rest.skip(1) =~= bytes@.skip(i + 1));
                if rest.len() < 2 {
                    assert(rest =~= seq![rest[0]] + bytes@.skip(i + 1));
                    assert(without_marks(bytes@.skip(i + 1)) == bytes@.skip(i + 1));
                }
                assert(kept@ + (seq![rest[0]] + without_marks(bytes@.skip(i + 1))) =~= kept@.push(
                    rest[0],
                ) + without_marks(bytes@.skip(i + 1)));
            }
            kept.push(bytes[i]);
            i += 1;
        }
    }
    assert(kept@ + without_marks(bytes@.skip(len as int)) =~= kept@);
    kept
}

/// The value of an ASCII hexadecimal digit.
fn nibble_of(b: u8) -> (value: Option<u8>)
    ensures
        value == nibble_value(b),
{
    if 0x30 <= b && b <= 0x39 {
        Some(b - 0x30)
    } else if 0x61 <= b && b <= 0x66 {
        Some(b - 0x61 + 10)
    } else if 0x41 <= b && b <= 0x46 {
        Some(b - 0x41 + 10)
    } else {
        None
    }
}

/// The byte that two characters write.
fn pair_of(high: u8, low: u8) -> (value: Option<u8>)
    ensures
        value == pair_value(high, low),
{
    if high == 0x2B {
        nibble_of(low)
    } else {
        match (nibble_of(high), nibble_of(low)) {
            (Some(h), Some(l)) => Some(16 * h + l),
            _ => None,
        }
    }
}

/// Reads a hexadecimal text into bytes. Spaces and `0x` marks may stand anywhere and
/// are ignored; the digits may be in either case.
///
/// Fails with `OddLength` when an odd number of characters is left, and otherwise with
/// `InvalidDigit` when a pair of them does not write a byte.
pub fn hex_to_bytes(hex_str: &str) -> (result: Result<Vec<u8>, HexError>)
    ensures
        match hex_decoded(hex_str.spec_bytes()) {
            Ok(bytes) => result matches Ok(decoded) && decoded@ == bytes,
            Err(e) => result == Err::<Vec<u8>, HexError>(e),
        },
{
    let spaceless = strip_spaces(hex_str.as_bytes());
    let digits = strip_marks(&spaceless);
    let len = digits.len();
    if len % 2 != 0 {
        return Err(HexError::OddLength);
    }
    let mut bytes: Vec<u8> = Vec::new();
    let mut i: usize = 0;
    while i < len / 2
        invariant
            i <= len / 2,
            len == digits@.len(),
            len % 2 == 0,
            digits@ == hex_digits(hex_str.spec_bytes()),
            bytes@.len() == i,
            forall|k: int|
                0 <= k < i ==> #[trigger] pair_value(digits@[2 * k], digits@[2 * k + 1]) == Some(
                    bytes@[k],
                ),
        decreases len / 2 - i,
    {
        match pair_of(digits[2 * i], digits[2 * i + 1]) {
            Some(byte) => {
                bytes.push(byte);
            },
            None => {
                assert(pair_value(digits@[2 * i], digits@[2 * i + 1]) is None);
                return Err(HexError::InvalidDigit);
            },
        }
        i += 1;
    }
    assert(bytes@ =~= Seq::new(
        digits@.len() / 2,
        |i: int| pair_value(digits@[2 * i], digits@[2 * i + 1])->0,
    ));
    Ok(bytes)
}

/// A hexadecimal digit as written by `hex_char` is an ASCII character that reads back as
/// its value, and is neither a space nor a plus sign nor the letter of the `0x` mark.
proof fn lemma_digit_reads_back(nibble: int)
    requires
        0 <= nibble < 16,
    ensures
        '\0' <= hex_char(nibble) <= '\u{7f}',
        nibble_value(hex_char(nibble) as u8) == Some(nibble as u8),
        hex_char(nibble) as u8 != 0x20,
        hex_char(nibble) as u8 != 0x2B,
        hex_char(nibble) as u8 != 0x78,
{
    let digits = seq![
        '0',
        '1',
        '2',
        '3',
        '4',
        '5',
        '6',
        '7',
        '8',
        '9',
        'a',
        'b',
        'c',
        'd',
        'e',
        'f',
    ];
    assert(hex_char(nibble) == digits[nibble]);
    if nibble == 0 {
    } else if nibble == 1 {
    } else if nibble == 2 {
    } else if nibble == 3 {
    } else if nibble == 4 {
    } else if nibble == 5 {
    } else if nibble == 6 {
    } else if nibble == 7 {
    } else if nibble == 8 {
    } else if nibble == 9 {
    } else if nibble == 10 {
    } else if nibble == 11 {
    } else if nibble == 12 {
    } else if nibble == 13 {
    } else if nibble == 14 {
    } else {
    }
}

/// A text without spaces loses nothing when its spaces are taken out.
proof fn lemma_no_spaces(bytes: Seq<u8>)
    requires
        forall|i: int| 0 <= i < bytes.len() ==> bytes[i] != 0x20,
    ensures
        without_spaces(bytes) == bytes,
    decreases bytes.len(),
{
    reveal(Seq::filter);
    if bytes.len() > 0 {
        lemma_no_spaces(bytes.drop_last());
        assert(bytes.drop_last().push(bytes.last()) =~= bytes);
    }
}

/// A text without the letter `x` loses nothing when its `0x` marks are taken out.
proof fn lemma_no_marks(bytes: Seq<u8>)
    requires
        forall|i: int| 0 <= i < bytes.len() ==> bytes[i] != 0x78,
    ensures
        without_marks(bytes) == bytes,
    decreases bytes.len(),
{
    if bytes.len() >= 2 {
        lemma_no_marks(bytes.skip(1));
        assert(seq![bytes[0]] + bytes.skip(1) =~= bytes);
    }
}

/// The UTF-8 bytes of a hexadecimal text are its digits, two for each byte written.
proof fn lemma_hex_text_bytes(bytes: Seq<u8>)
    ensures
        encode_utf8(hex_string(bytes)).len() == 2 * bytes.len(),
        forall|i: int|
            0 <= i < bytes.len() ==> {
                &&& #[trigger] encode_utf8(hex_string(bytes))[2 * i] == hex_char(
                    bytes[i] as int / 16,
                ) as u8
                &&& encode_utf8(hex_string(bytes))[2 * i + 1] == hex_char(bytes[i] as int % 16) as u8
            },
{
    let text = hex_string(bytes);
    assert forall|i: int| 0 <= i < text.len() implies '\0' <= #[trigger] text[i] <= '\u{7f}' by {
        let b = bytes[i / 2] as int;
        lemma_digit_reads_back(b / 16);
        lemma_digit_reads_back(b % 16);
    }
    assert(is_ascii_chars(text));
    is_ascii_chars_encode_utf8(text);
    let plain = encode_utf8(text);
    assert forall|i: int| 0 <= i < bytes.len() implies #[trigger] plain[2 * i] == hex_char(
        bytes[i] as int / 16,
    ) as u8 && plain[2 * i + 1] == hex_char(bytes[i] as int % 16) as u8 by {
        assert(plain[2 * i] == text[2 * i] as u8);
        assert(plain[2 * i + 1] == text[2 * i + 1] as u8);
    }
}

/// Bytes that are hexadecimal digits, two for each byte written, read back as the bytes
/// written.
proof fn lemma_digits_read_back(digits: Seq<u8>, bytes: Seq<u8>)
    requires
        digits.len() == 2 * bytes.len(),
        forall|i: int|
            0 <= i < bytes.len() ==> {
                &&& #[trigger] digits[2 * i] == hex_char(bytes[i] as int / 16) as u8
                &&& digits[2 * i + 1] == hex_char(bytes[i] as int % 16) as u8
            },
    ensures
        hex_decoded(digits) == Ok::<Seq<u8>, HexError>(bytes),
{
    assert forall|k: int| 0 <= k < digits.len() implies digits[k] != 0x20 && digits[k] != 0x78 by {
        let i = k / 2;
        lemma_digit_reads_back(bytes[i] as int / 16);
        lemma_digit_reads_back(bytes[i] as int % 16);
        assert(digits[2 * i] == hex_char(bytes[i] as int / 16) as u8);
    }
    lemma_no_spaces(digits);
    lemma_no_marks(digits);
    assert forall|i: int| 0 <= i < digits.len() / 2 implies #[trigger] pair_value(
        digits[2 * i],
        digits[2 * i + 1],
    ) == Some(bytes[i]) by {
        lemma_digit_reads_back(bytes[i] as int / 16);
        lemma_digit_reads_back(bytes[i] as int % 16);
    }
    assert(Seq::new(digits.len() / 2, |i: int| pair_value(digits[2 * i], digits[2 * i + 1])->0)
        =~= bytes);
}

/// The text that writes bytes in hexadecimal reads back as those bytes.
pub proof fn lemma_hex_round_trip(bytes: Seq<u8>)
    ensures
        hex_decoded(encode_utf8(hex_string(bytes))) == Ok::<Seq<u8>, HexError>(bytes),
{
    lemma_hex_text_bytes(bytes);
    lemma_digits_read_back(encode_utf8(hex_string(bytes)), bytes);
}

/// A `0x` mark before a text without spaces does not change its digits.
proof fn lemma_mark_is_dropped(plain: Seq<u8>)
    requires
        forall|k: int| 0 <= k < plain.len() ==> plain[k] != 0x20,
    ensures
        hex_digits(seq![0x30u8, 0x78u8] + plain) == hex_digits(plain),
{
    let with_mark = seq![0x30u8, 0x78u8] + plain;
    assert forall|k: int| 0 <= k < with_mark.len() implies with_mark[k] != 0x20 by {
        if k >= 2 {
            assert(with_mark[k] == plain[k - 2]);
        }
    }
    lemma_no_spaces(with_mark);
    lemma_no_spaces(plain);
    assert(with_mark.skip(2) =~= plain);
}

/// The text that writes bytes in hexadecimal after a `0x` mark reads back as those bytes.
pub proof fn lemma_marked_hex_round_trip(bytes: Seq<u8>)
    ensures
        hex_decoded(encode_utf8(seq!['0', 'x'] + hex_string(bytes))) == Ok::<Seq<u8>, HexError>(
            bytes,
        ),
{
    let text = hex_string(bytes);
    lemma_hex_text_bytes(bytes);
    lemma_hex_round_trip(bytes);
    let plain = encode_utf8(text);
    assert(is_ascii_chars(text)) by {
        assert forall|i: int| 0 <= i < text.len() implies '\0' <= #[trigger] text[i] <= '\u{7f}' by {
            let b = bytes[i / 2] as int;
            lemma_digit_reads_back(b / 16);
            lemma_digit_reads_back(b % 16);
        }
    }
    lemma_encode_marked(text);
    assert forall|k: int| 0 <= k < plain.len() implies plain[k] != 0x20 by {
        let i = k / 2;
        lemma_digit_reads_back(bytes[i] as int / 16);
        lemma_digit_reads_back(bytes[i] as int % 16);
        assert(plain[2 * i] == hex_char(bytes[i] as int / 16) as u8);
    }
    lemma_mark_is_dropped(plain);
}

/// The UTF-8 bytes of an ASCII text after a `0x` mark are the mark and the text's bytes.
proof fn lemma_encode_marked(text: Seq<char>)
    requires
        is_ascii_chars(text),
    ensures
        encode_utf8(seq!['0', 'x'] + text) == seq![0x30u8, 0x78u8] + encode_utf8(text),
{
    let marked = seq!['0', 'x'] + text;
    assert(is_ascii_chars(marked)) by {
        assert forall|i: int| 0 <= i < marked.len() implies '\0' <= #[trigger] marked[i]
            <= '\u{7f}' by {
            if i >= 2 {
                assert(marked[i] == text[i - 2]);
            }
        }
    }
    is_ascii_chars_encode_utf8(text);
    is_ascii_chars_encode_utf8(marked);
    let left = encode_utf8(marked);
    let right = seq![0x30u8, 0x78u8] + encode_utf8(text);
    assert forall|i: int| 0 <= i < left.len() implies left[i] == right[i] by {
        assert(left[i] == marked[i] as u8);
        if i >= 2 {
            assert(marked[i] == text[i - 2]);
            assert(encode_utf8(text)[i - 2] == text[i - 2] as u8);
        }
    }
    assert(left =~= right);
}

/// The process that a directory entry stands for, if it is the one called `name`: the
/// entry's file name has to write a process number in decimal, and the process's
/// command name, once trimmed, has to be `name`. `comm` is the command name as read,
/// `None` where it could not be read.
pub open spec fn entry_process(file_name: Seq<char>, comm: Option<Seq<char>>, name: Seq<char>) -> Option<
    u32,
> {
    match (parse_unsigned(file_name, 10, u32::MAX as nat), comm) {
        (Some(pid), Some(text)) => if trim(text) == name {
            Some(pid as u32)
        } else {
            None
        },
        _ => None,
    }
}

/// The directory entries as plain values.
pub open spec fn entry_views(entries: Seq<(String, Option<String>)>) -> Seq<
    (Seq<char>, Option<Seq<char>>),
> {
    Seq::new(
        entries.len(),
        |k: int|
            (
                entries[k].0@,
                match entries[k].1 {
                    Some(text) => Some(text@),
                    None => None,
                },
            ),
    )
}

/// The process called `name`: that of the first entry that stands for one, and 0 when
/// no entry does.
pub open spec fn found_process(entries: Seq<(Seq<char>, Option<Seq<char>>)>, name: Seq<char>) -> u32
    decreases entries.len(),
{
    if entries.len() == 0 {
        0
    } else {
        match entry_process(entries[0].0, entries[0].1, name) {
            Some(pid) => pid,
            None => found_process(entries.drop_first(), name),
        }
    }
}

/// The process number that a file name writes in decimal.
pub fn parse_pid(file_name: &str) -> (pid: Option<u32>)
    ensures
        pid matches Some(p) ==> parse_unsigned(file_name@, 10, u32::MAX as nat) == Some(p as nat),
        pid is None ==> parse_unsigned(file_name@, 10, u32::MAX as nat) is None,
{
    let chars = chars_of(file_name);
    assert(chars@.subrange(0, chars@.len() as int) =~= chars@);
    match parse_number(&chars, 0, chars.len(), 10) {
        Some(value) => if value <= 0xffff_ffff {
            Some(value as u32)
        } else {
            None
        },
        None => None,
    }
}

/// Whether a command name as read, once trimmed, is `name`.
pub fn comm_matches(comm: &str, name: &str) -> (same: bool)
    ensures
        same == (trim(comm@) == name@),
{
    let chars = chars_of(comm);
    let wanted = chars_of(name);
    assert(chars@.subrange(0, chars@.len() as int) =~= chars@);
    let (start, end) = trim_range(&chars, 0, chars.len());
    range_equals(&chars, start, end, &wanted)
}

/// Looks the process called `name` up among the entries of the process directory. Each
/// entry is a file name and, where it could be read, the command name of the process.
/// The first entry that matches decides; without a match the answer is 0.
pub fn find_process_by_name(entries: &Vec<(String, Option<String>)>, name: &str) -> (pid: u32)
    ensures
        pid == found_process(entry_views(entries@), name@),
{
    let ghost all = entry_views(entries@);
    let mut i: usize = 0;
    assert(all.skip(0) =~= all);
    while i < entries.len()
        invariant
            i <= entries@.len(),
            all == entry_views(entries@),
            found_process(all, name@) == found_process(all.skip(i as int), name@),
        decreases entries@.len() - i,
    {
        assert(all.skip(i as int).drop_first() =~= all.skip(i + 1));
        assert(all.skip(i as int)[0] == all[i as int]);
        let entry = &entries[i];
        match parse_pid(entry.0.as_str()) {
            Some(candidate) => match &entry.1 {
                Some(comm) => {
                    if comm_matches(comm.as_str(), name) {
                        return candidate;
                    }
                },
                None => {},
            },
            None => {},
        }
        i += 1;
    }
    0
}

/// The text of a command line as it is shown: every NUL becomes a space.
pub open spec fn spaced(cmdline: Seq<char>) -> Seq<char> {
    Seq::new(
        cmdline.len(),
        |i: int|
            if cmdline[i] == '\0' {
                ' '
            } else {
                cmdline[i]
            },
    )
}

/// The key and the value that a line of a status report gives: what stands before its
/// first colon and what stands after it, both trimmed. A line without a colon gives
/// nothing.
pub open spec fn status_entry(line: Seq<char>) -> Option<(Seq<char>, Seq<char>)> {
    let colon = position_of(line, ':', 0);
    if colon < line.len() {
        Some((trim(line.take(colon)), trim(line.skip(colon + 1))))
    } else {
        None
    }
}

/// What is known of a process, as keys and values in the order in which they are
/// learnt: `name` from the command name, `cmdline` from the command line, then one entry
/// for each line of the status report that gives one. Where a key comes twice, the later
/// value is the one that holds.
pub open spec fn process_info(
    comm: Option<Seq<char>>,
    cmdline: Option<Seq<char>>,
    status: Option<Seq<char>>,
) -> Seq<(Seq<char>, Seq<char>)> {
    let named = match comm {
        Some(text) => seq![("name"@, trim(text))],
        None => Seq::empty(),
    };
    let called = match cmdline {
        Some(text) => seq![("cmdline"@, trim(spaced(text)))],
        None => Seq::empty(),
    };
    let reported = match status {
        Some(text) => lines_of(text).filter_map(|line: Seq<char>| status_entry(line)),
        None => Seq::empty(),
    };
    named + called + reported
}

/// Keys and values as plain values.
pub open spec fn info_views(info: Seq<(String, String)>) -> Seq<(Seq<char>, Seq<char>)> {
    Seq::new(info.len(), |k: int| (info[k].0@, info[k].1@))
}

/// The text of an optional string.
pub open spec fn optional_text(text: Option<&str>) -> Option<Seq<char>> {
    match text {
        Some(t) => Some(t@),
        None => None,
    }
}

/// Gathers what is known of a process from its command name, its command line and its
/// status report, each as read, `None` where it could not be read.
pub fn get_process_info(comm: Option<&str>, cmdline: Option<&str>, status: Option<&str>) -> (info: Vec<
    (String, String),
>)
    ensures
        info_views(info@) == process_info(
            optional_text(comm),
            optional_text(cmdline),
            optional_text(status),
        ),
{
    let mut info: Vec<(String, String)> = Vec::new();
    match comm {
        Some(text) => {
            let chars = chars_of(text);
            assert(chars@.subrange(0, chars@.len() as int) =~= chars@);
            let (start, end) = trim_range(&chars, 0, chars.len());
            info.push((String::from_str("name"), text_of(&chars, start, end)));
        },
        None => {},
    }
    let ghost named = info_views(info@);
    match cmdline {
        Some(text) => {
            let chars = chars_of(text);
            let mut shown: Vec<char> = Vec::with_capacity(chars.len());
            let mut i: usize = 0;
            while i < chars.len()
                invariant
                    i <= chars@.len(),
                    shown@ == spaced(chars@).take(i as int),
                decreases chars@.len() - i,
            {
                let c = chars[i];
                shown.push(if c == '\0' {
                    ' '
                } else {
                    c
                });
                assert(spaced(chars@).take(i as int).push(spaced(chars@)[i as int]) =~= spaced(
                    chars@,
                ).take(i + 1));
                i += 1;
            }
            assert(spaced(chars@).take(chars@.len() as int) =~= spaced(chars@));
            assert(shown@.subrange(0, shown@.len() as int) =~= shown@);
            let (start, end) = trim_range(&shown, 0, shown.len());
            info.push((String::from_str("cmdline"), text_of(&shown, start, end)));
        },
        None => {},
    }
    let ghost called = info_views(info@);
    assert(called =~= named + match optional_text(cmdline) {
        Some(text) => seq![("cmdline"@, trim(spaced(text)))],
        None => Seq::empty(),
    });
    match status {
        Some(text) => {
            let chars = chars_of(text);
            let lines = line_ranges(&chars);
            let ghost entry = |line: Seq<char>| status_entry(line);
            let ghost all = lines_of(text@);
            let mut k: usize = 0;
            while k < lines.len()
                invariant
                    k <= lines@.len(),
                    chars@ == text@,
                    all == lines_of(text@),
                    entry == |line: Seq<char>| status_entry(line),
                    lines@.len() == all.len(),
                    forall|j: int|
                        0 <= j < lines@.len() ==> {
                            &&& (#[trigger] lines@[j]).0 <= lines@[j].1 <= chars@.len()
                            &&& chars@.subrange(lines@[j].0 as int, lines@[j].1 as int) == all[j]
                        },
                    info_views(info@) == called + all.take(k as int).filter_map(entry),
                decreases lines@.len() - k,
            {
                let (start, end) = lines[k];
                let ghost line = chars@.subrange(start as int, end as int);
                let ghost before = info_views(info@);
                assert(all.take(k + 1).drop_last() =~= all.take(k as int));
                assert(all.take(k + 1).last() == line);
                let colon = find_char(&chars, start, end, ':');
                if colon < end {
                    assert(line.take(colon - start) =~= chars@.subrange(start as int, colon as int));
                    assert(line.skip(colon - start + 1) =~= chars@.subrange(colon + 1, end as int));
                    let (key_start, key_end) = trim_range(&chars, start, colon);
                    let (value_start, value_end) = trim_range(&chars, colon + 1, end);
                    let key = text_of(&chars, key_start, key_end);
                    let value = text_of(&chars, value_start, value_end);
                    info.push((key, value));
                    assert(info_views(info@) =~= before + seq![status_entry(line)->0]);
                    assert(called + (all.take(k as int).filter_map(entry) + seq![
                        status_entry(line)->0,
                    ]) =~= before + seq![status_entry(line)->0]);
                }
                k += 1;
            }
            assert(all.take(lines@.len() as int) =~= all);
        },
        None => {
            assert(info_views(info@) =~= called + Seq::<(Seq<char>, Seq<char>)>::empty());
        },
    }
    info
}

/// The value that holds for `key`: that of the last entry with this key.
pub open spec fn held_value(info: Seq<(Seq<char>, Seq<char>)>, key: Seq<char>) -> Option<Seq<char>>
    decreases info.len(),
{
    if info.len() == 0 {
        None
    } else if info.last().0 == key {
        Some(info.last().1)
    } else {
        held_value(info.drop_last(), key)
    }
}

/// Looks up what is known of a process under `key`. Where the key comes twice, the
/// later value is the one that holds.
pub fn info_value(info: &Vec<(String, String)>, key: &str) -> (value: Option<String>)
    ensures
        value is Some <==> held_value(info_views(info@), key@) is Some,
        value matches Some(text) ==> held_value(info_views(info@), key@) == Some(text@),
{
    let wanted = chars_of(key);
    let ghost all = info_views(info@);
    let mut i: usize = info.len();
    assert(all.take(i as int) =~= all);
    while i > 0
        invariant
            i <= info@.len(),
            wanted@ == key@,
            all == info_views(info@),
            held_value(all, key@) == held_value(all.take(i as int), key@),
        decreases i,
    {
        let entry = &info[i - 1];
        let name = chars_of(entry.0.as_str());
        assert(name@.subrange(0, name@.len() as int) =~= name@);
        assert(all.take(i as int).last() == all[i - 1]);
        assert(all.take(i as int).drop_last() =~= all.take(i - 1));
        if range_equals(&name, 0, name.len(), &wanted) {
            return Some(entry.1.clone());
        }
        i -= 1;
    }
    None
}

} // verus!
