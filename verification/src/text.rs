//! Text over sequences of characters: fields between whitespace, numbers in a radix,
//! and the search for a pattern.

use vstd::prelude::*;
use crate::hash::hex_char;

verus! {

/// The characters that separate fields: those with the Unicode property White_Space.
pub open spec fn is_whitespace(c: char) -> bool {
    let u = c as u32;
    ||| 0x09 <= u <= 0x0D
    ||| u == 0x20
    ||| u == 0x85
    ||| u == 0xA0
    ||| u == 0x1680
    ||| 0x2000 <= u <= 0x200A
    ||| u == 0x2028
    ||| u == 0x2029
    ||| u == 0x202F
    ||| u == 0x205F
    ||| u == 0x3000
}

/// Whether `c` separates fields.
pub fn char_is_whitespace(c: char) -> (yes: bool)
    ensures
        yes == is_whitespace(c),
{
    let u: u32 = c as u32;
    (0x09 <= u && u <= 0x0D) || u == 0x20 || u == 0x85 || u == 0xA0 || u == 0x1680 || (0x2000 <= u
        && u <= 0x200A) || u == 0x2028 || u == 0x2029 || u == 0x202F || u == 0x205F || u == 0x3000
}

/// The characters of a string, in order.
pub fn chars_of(text: &str) -> (chars: Vec<char>)
    ensures
        chars@ == text@,
{
    let mut chars: Vec<char> = Vec::new();
    for c in it: text.chars()
        invariant
            chars@ == it.seq().take(it.index()),
            it.seq() == text@,
    {
        chars.push(c);
    }
    chars
}

/// Calls `String::push`.
/// Trusted: the text afterwards is the text before with `c` at its end.
#[verifier::external_body]
fn push_char(text: &mut String, c: char)
    ensures
        final(text)@ == old(text)@.push(c),
{
    text.push(c)
}

/// The characters `[start, end)` of `chars` as a string.
pub fn text_of(chars: &Vec<char>, start: usize, end: usize) -> (text: String)
    requires
        start <= end <= chars@.len(),
    ensures
        text@ == chars@.subrange(start as int, end as int),
{
    let mut text = String::new();
    let mut i: usize = start;
    while i < end
        invariant
            start <= i <= end <= chars@.len(),
            text@ == chars@.subrange(start as int, i as int),
        decreases end - i,
    {
        push_char(&mut text, chars[i]);
        assert(chars@.subrange(start as int, i as int).push(chars@[i as int]) =~= chars@.subrange(
            start as int,
            i + 1,
        ));
        i += 1;
    }
    text
}

/// The first position at or after `from` that holds no whitespace, or the length of `s`.
pub open spec fn word_start(s: Seq<char>, from: int) -> int
    decreases s.len() - from,
{
    if 0 <= from < s.len() && is_whitespace(s[from]) {
        word_start(s, from + 1)
    } else {
        from
    }
}

/// The first position at or after `from` that holds whitespace, or the length of `s`.
pub open spec fn word_end(s: Seq<char>, from: int) -> int
    decreases s.len() - from,
{
    if 0 <= from < s.len() && !is_whitespace(s[from]) {
        word_end(s, from + 1)
    } else {
        from
    }
}

/// The fields of `s` that begin at or after `from`.
pub open spec fn words_from(s: Seq<char>, from: int) -> Seq<Seq<char>>
    decreases s.len() - from,
{
    let start = word_start(s, from);
    let end = word_end(s, start);
    if 0 <= from <= start < end <= s.len() {
        seq![s.subrange(start, end)] + words_from(s, end)
    } else {
        Seq::empty()
    }
}

/// The fields of `s`: its maximal runs of characters that are not whitespace, in order.
pub open spec fn split_whitespace(s: Seq<char>) -> Seq<Seq<char>> {
    words_from(s, 0)
}

/// `words` joined by single spaces.
pub open spec fn join_words(words: Seq<Seq<char>>) -> Seq<char>
    decreases words.len(),
{
    if words.len() == 0 {
        Seq::empty()
    } else if words.len() == 1 {
        words[0]
    } else {
        join_words(words.drop_last()) + seq![' '] + words.last()
    }
}

/// The fields of a line of characters, each as the range `[start, end)` that it fills.
pub fn split_words(chars: &Vec<char>) -> (ranges: Vec<(usize, usize)>)
    ensures
        ranges@.len() == split_whitespace(chars@).len(),
        forall|k: int|
            0 <= k < ranges@.len() ==> {
                &&& (#[trigger] ranges@[k]).0 < ranges@[k].1 <= chars@.len()
                &&& chars@.subrange(ranges@[k].0 as int, ranges@[k].1 as int) == split_whitespace(
                    chars@,
                )[k]
            },
{
    let len = chars.len();
    let mut ranges: Vec<(usize, usize)> = Vec::new();
    let ghost mut found: Seq<Seq<char>> = Seq::empty();
    let mut position: usize = 0;
    loop
        invariant
            len == chars@.len(),
            position <= len,
            ranges@.len() == found.len(),
            split_whitespace(chars@) == found + words_from(chars@, position as int),
            forall|k: int|
                0 <= k < ranges@.len() ==> {
                    &&& (#[trigger] ranges@[k]).0 < ranges@[k].1 <= chars@.len()
                    &&& chars@.subrange(ranges@[k].0 as int, ranges@[k].1 as int) == found[k]
                },
        ensures
            ranges@.len() == found.len(),
            split_whitespace(chars@) == found,
            forall|k: int|
                0 <= k < ranges@.len() ==> {
                    &&& (#[trigger] ranges@[k]).0 < ranges@[k].1 <= chars@.len()
                    &&& chars@.subrange(ranges@[k].0 as int, ranges@[k].1 as int) == found[k]
                },
        decreases len - position,
    {
        let mut start: usize = position;
        while start < len && char_is_whitespace(chars[start])
            invariant
                len == chars@.len(),
                position <= start <= len,
                word_start(chars@, start as int) == word_start(chars@, position as int),
            decreases len - start,
        {
            start += 1;
        }
        let mut end: usize = start;
        while end < len && !char_is_whitespace(chars[end])
            invariant
                len == chars@.len(),
                start <= end <= len,
                word_end(chars@, end as int) == word_end(chars@, start as int),
            decreases len - end,
        {
            end += 1;
        }
        if start == end {
            assert(found + Seq::<Seq<char>>::empty() =~= found);
            break;
        }
        proof {
            let word = chars@.subrange(start as int, end as int);
            let rest = words_from(chars@, end as int);
            assert(found + (seq![word] + rest) =~= found.push(word) + rest);
            found = found.push(word);
        }
        ranges.push((start, end));
        position = end;
    }
    ranges
}

/// The value of `c` as a digit in `radix` (at most 16), if it is one: `0` to `9`, then
/// `a` to `f` in either case.
pub open spec fn digit_value(c: char, radix: nat) -> Option<nat> {
    let u = c as u32;
    let value: int = if 0x30 <= u <= 0x39 {
        u - 0x30
    } else if 0x61 <= u <= 0x66 {
        u - 0x61 + 10
    } else if 0x41 <= u <= 0x46 {
        u - 0x41 + 10
    } else {
        16
    };
    if value < radix {
        Some(value as nat)
    } else {
        None
    }
}

/// The number that the digits of `s` write in `radix`, most significant digit first, if
/// every character of `s` is a digit. No digits write zero.
pub open spec fn digits_value(s: Seq<char>, radix: nat) -> Option<nat>
    decreases s.len(),
{
    if s.len() == 0 {
        Some(0)
    } else {
        match (digits_value(s.drop_last(), radix), digit_value(s.last(), radix)) {
            (Some(high), Some(low)) => Some(high * radix + low),
            _ => None,
        }
    }
}

/// The digits of a number's text: the text without one leading plus sign.
pub open spec fn unsigned_digits(s: Seq<char>) -> Seq<char> {
    if s.len() > 0 && s[0] == '+' {
        s.drop_first()
    } else {
        s
    }
}

/// The number that `s` writes in `radix`, if it is at most `max`: an optional plus sign,
/// then one or more digits and nothing else. No range of digit counts is imposed, so
/// leading zeros are harmless.
pub open spec fn parse_unsigned(s: Seq<char>, radix: nat, max: nat) -> Option<nat> {
    let digits = unsigned_digits(s);
    if digits.len() == 0 {
        None
    } else {
        match digits_value(digits, radix) {
            Some(value) => if value <= max {
                Some(value)
            } else {
                None
            },
            None => None,
        }
    }
}

/// Digits written after a number can only make it larger, or spoil it.
pub proof fn lemma_digits_value_grows(s: Seq<char>, radix: nat, k: int)
    requires
        0 <= k <= s.len(),
        digits_value(s, radix) is Some,
    ensures
        digits_value(s.take(k), radix) is Some,
        digits_value(s.take(k), radix)->0 <= digits_value(s, radix)->0,
    decreases s.len() - k,
{
    if k == s.len() {
        assert(s.take(k) =~= s);
    } else {
        lemma_digits_value_grows(s, radix, k + 1);
        assert(s.take(k + 1).drop_last() =~= s.take(k));
        let high = digits_value(s.take(k), radix)->0;
        assert(high <= high * radix) by (nonlinear_arith)
            requires
                radix >= 1,
        ;
    }
}

/// The value of `c` as a digit in `radix`.
pub fn digit_of(c: char, radix: u64) -> (value: Option<u64>)
    requires
        radix <= 16,
    ensures
        value matches Some(v) ==> digit_value(c, radix as nat) == Some(v as nat),
        value is None ==> digit_value(c, radix as nat) is None,
{
    let u: u32 = c as u32;
    let value: u64 = if 0x30 <= u && u <= 0x39 {
        (u - 0x30) as u64
    } else if 0x61 <= u && u <= 0x66 {
        (u - 0x61 + 10) as u64
    } else if 0x41 <= u && u <= 0x46 {
        (u - 0x41 + 10) as u64
    } else {
        16
    };
    if value < radix {
        Some(value)
    } else {
        None
    }
}

/// Reads the characters `[start, end)` of `chars` as a number in `radix`.
pub fn parse_number(chars: &Vec<char>, start: usize, end: usize, radix: u64) -> (value: Option<u64>)
    requires
        start <= end <= chars@.len(),
        2 <= radix <= 16,
    ensures
        value matches Some(v) ==> parse_unsigned(
            chars@.subrange(start as int, end as int),
            radix as nat,
            u64::MAX as nat,
        ) == Some(v as nat),
        value is None ==> parse_unsigned(
            chars@.subrange(start as int, end as int),
            radix as nat,
            u64::MAX as nat,
        ) is None,
{
    let ghost text = chars@.subrange(start as int, end as int);
    let first: usize = if start < end && chars[start] == '+' {
        start + 1
    } else {
        start
    };
    let ghost digits = unsigned_digits(text);
    assert(digits =~= chars@.subrange(first as int, end as int));
    if first == end {
        return None;
    }
    let mut total: u64 = 0;
    let mut i: usize = first;
    while i < end
        invariant
            start <= first <= i <= end <= chars@.len(),
            2 <= radix <= 16,
            digits == chars@.subrange(first as int, end as int),
            digits == unsigned_digits(chars@.subrange(start as int, end as int)),
            digits.len() > 0,
            digits_value(digits.take(i - first), radix as nat) == Some(total as nat),
        decreases end - i,
    {
        let ghost seen = digits.take(i - first);
        let ghost next = digits.take(i - first + 1);
        assert(next.drop_last() =~= seen);
        assert(next.last() == chars@[i as int]);
        let step = match digit_of(chars[i], radix) {
            Some(digit) => match total.checked_mul(radix) {
                Some(shifted) => shifted.checked_add(digit),
                None => None,
            },
            None => {
                proof {
                    if digits_value(digits, radix as nat) is Some {
                        lemma_digits_value_grows(digits, radix as nat, i - first + 1);
                    }
                }
                return None;
            },
        };
        match step {
            Some(sum) => {
                total = sum;
            },
            None => {
                proof {
                    let digit = digit_value(chars@[i as int], radix as nat)->0;
                    assert(digits_value(next, radix as nat) == Some((total * radix + digit) as nat));
                    if digits_value(digits, radix as nat) is Some {
                        lemma_digits_value_grows(digits, radix as nat, i - first + 1);
                    }
                }
                return None;
            },
        }
        i += 1;
    }
    assert(digits.take(end - first) =~= digits);
    Some(total)
}

/// The first position at or after `from` that holds `c`, or the length of `s`.
pub open spec fn position_of(s: Seq<char>, c: char, from: int) -> int
    decreases s.len() - from,
{
    if 0 <= from < s.len() && s[from] != c {
        position_of(s, c, from + 1)
    } else {
        from
    }
}

/// Finds the first position in `[start, end)` of `chars` that holds `c`; `end` if none does.
pub fn find_char(chars: &Vec<char>, start: usize, end: usize, c: char) -> (at: usize)
    requires
        start <= end <= chars@.len(),
    ensures
        start <= at <= end,
        at - start == position_of(chars@.subrange(start as int, end as int), c, 0),
{
    let ghost field = chars@.subrange(start as int, end as int);
    let mut at: usize = start;
    while at < end && chars[at] != c
        invariant
            start <= at <= end <= chars@.len(),
            field == chars@.subrange(start as int, end as int),
            position_of(field, c, at - start) == position_of(field, c, 0),
        decreases end - at,
    {
        at += 1;
    }
    at
}

/// `pattern` stands in `s` at position `at`.
pub open spec fn occurs_at(s: Seq<char>, pattern: Seq<char>, at: int) -> bool {
    0 <= at && at + pattern.len() <= s.len() && s.subrange(at, at + pattern.len()) == pattern
}

/// `pattern` stands somewhere in `s`.
pub open spec fn contains(s: Seq<char>, pattern: Seq<char>) -> bool {
    exists|at: int| occurs_at(s, pattern, at)
}

/// `s` begins with `pattern`.
pub open spec fn starts_with(s: Seq<char>, pattern: Seq<char>) -> bool {
    occurs_at(s, pattern, 0)
}

/// `s` ends with `pattern`.
pub open spec fn ends_with(s: Seq<char>, pattern: Seq<char>) -> bool {
    occurs_at(s, pattern, s.len() - pattern.len())
}

/// Whether `pattern` stands in `s` at position `at`.
pub fn matches_at(s: &Vec<char>, pattern: &Vec<char>, at: usize) -> (yes: bool)
    ensures
        yes == occurs_at(s@, pattern@, at as int),
{
    if pattern.len() > s.len() || at > s.len() - pattern.len() {
        return false;
    }
    let width = pattern.len();
    let mut i: usize = 0;
    while i < width
        invariant
            i <= width,
            width == pattern@.len(),
            at + width <= s@.len() <= usize::MAX,
            forall|j: int| 0 <= j < i ==> s@[at + j] == pattern@[j],
        decreases width - i,
    {
        if s[at + i] != pattern[i] {
            assert(s@.subrange(at as int, at + pattern@.len())[i as int] != pattern@[i as int]);
            return false;
        }
        i += 1;
    }
    assert(s@.subrange(at as int, at + pattern@.len()) =~= pattern@);
    true
}

/// Whether `pattern` stands somewhere in `s`.
pub fn find(s: &Vec<char>, pattern: &Vec<char>) -> (yes: bool)
    ensures
        yes == contains(s@, pattern@),
{
    if pattern.len() > s.len() {
        return false;
    }
    let last = s.len() - pattern.len();
    let mut at: usize = 0;
    loop
        invariant
            last == s@.len() - pattern@.len(),
            at <= last,
            forall|k: int| 0 <= k < at ==> !occurs_at(s@, pattern@, k),
        decreases last - at,
    {
        if matches_at(s, pattern, at) {
            return true;
        }
        if at == last {
            return false;
        }
        at += 1;
    }
}

/// Whether `s` begins with `pattern`.
pub fn has_prefix(s: &Vec<char>, pattern: &Vec<char>) -> (yes: bool)
    ensures
        yes == starts_with(s@, pattern@),
{
    matches_at(s, pattern, 0)
}

/// Whether `s` ends with `pattern`.
pub fn has_suffix(s: &Vec<char>, pattern: &Vec<char>) -> (yes: bool)
    ensures
        yes == ends_with(s@, pattern@),
{
    if pattern.len() > s.len() {
        return false;
    }
    matches_at(s, pattern, s.len() - pattern.len())
}

/// The end of `s` once trailing whitespace before `end` is dropped.
pub open spec fn trimmed_end(s: Seq<char>, end: int) -> int
    decreases end,
{
    if 0 < end <= s.len() && is_whitespace(s[end - 1]) {
        trimmed_end(s, end - 1)
    } else {
        end
    }
}

/// `s` without the whitespace at its two ends.
pub open spec fn trim(s: Seq<char>) -> Seq<char> {
    let start = word_start(s, 0);
    let end = trimmed_end(s, s.len() as int);
    if start < end {
        s.subrange(start, end)
    } else {
        Seq::empty()
    }
}

/// The range `[start, end)` of `chars` between `from` and `to` that is left once the
/// whitespace at the two ends is dropped.
pub fn trim_range(chars: &Vec<char>, from: usize, to: usize) -> (range: (usize, usize))
    requires
        from <= to <= chars@.len(),
    ensures
        from <= range.0 <= range.1 <= to,
        chars@.subrange(range.0 as int, range.1 as int) == trim(
            chars@.subrange(from as int, to as int),
        ),
{
    let ghost part = chars@.subrange(from as int, to as int);
    let mut start: usize = from;
    while start < to && char_is_whitespace(chars[start])
        invariant
            from <= start <= to <= chars@.len(),
            part == chars@.subrange(from as int, to as int),
            word_start(part, start - from) == word_start(part, 0),
        decreases to - start,
    {
        start += 1;
    }
    let mut end: usize = to;
    while end > start && char_is_whitespace(chars[end - 1])
        invariant
            from <= start <= end <= to <= chars@.len(),
            part == chars@.subrange(from as int, to as int),
            start < to ==> !is_whitespace(chars@[start as int]),
            trimmed_end(part, end - from) == trimmed_end(part, part.len() as int),
        decreases end,
    {
        end -= 1;
    }
    proof {
        if start < end {
            assert(!is_whitespace(part[end - from - 1]));
            assert(chars@.subrange(start as int, end as int) =~= part.subrange(
                start - from,
                end - from,
            ));
        } else {
            assert(chars@.subrange(start as int, end as int) =~= Seq::<char>::empty());
            lemma_trimmed_end_bounds(part, end - from);
        }
    }
    (start, end)
}

/// Dropping trailing whitespace never moves the end forward or below zero.
pub proof fn lemma_trimmed_end_bounds(s: Seq<char>, end: int)
    requires
        0 <= end <= s.len(),
    ensures
        0 <= trimmed_end(s, end) <= end,
    decreases end,
{
    if 0 < end && is_whitespace(s[end - 1]) {
        lemma_trimmed_end_bounds(s, end - 1);
    }
}

/// Whether the characters `[start, end)` of `chars` are the text `other`.
pub fn range_equals(chars: &Vec<char>, start: usize, end: usize, other: &Vec<char>) -> (same: bool)
    requires
        start <= end <= chars@.len(),
    ensures
        same == (chars@.subrange(start as int, end as int) == other@),
{
    if end - start != other.len() {
        return false;
    }
    matches_at(chars, other, start)
}

/// One line of a text: the characters up to a line feed, without the carriage return
/// that may stand directly before the line feed.
pub open spec fn line_at(s: Seq<char>, from: int, end: int) -> Seq<char> {
    if end < s.len() && from < end && s[end - 1] == '\r' {
        s.subrange(from, end - 1)
    } else {
        s.subrange(from, end)
    }
}

/// The lines of `s` that begin at or after `from`.
pub open spec fn lines_from(s: Seq<char>, from: int) -> Seq<Seq<char>>
    decreases s.len() - from,
{
    if 0 <= from < s.len() {
        let end = position_of(s, '\n', from);
        if from <= end < s.len() {
            seq![line_at(s, from, end)] + lines_from(s, end + 1)
        } else {
            seq![line_at(s, from, end)]
        }
    } else {
        Seq::empty()
    }
}

/// The lines of `s`: what stands between line feeds. A line feed at the very end opens
/// no further line, and a carriage return directly before a line feed belongs to the
/// line ending.
pub open spec fn lines_of(s: Seq<char>) -> Seq<Seq<char>> {
    lines_from(s, 0)
}

/// The lines of a text, each as the range `[start, end)` that it fills.
pub fn line_ranges(chars: &Vec<char>) -> (ranges: Vec<(usize, usize)>)
    ensures
        ranges@.len() == lines_of(chars@).len(),
        forall|k: int|
            0 <= k < ranges@.len() ==> {
                &&& (#[trigger] ranges@[k]).0 <= ranges@[k].1 <= chars@.len()
                &&& chars@.subrange(ranges@[k].0 as int, ranges@[k].1 as int) == lines_of(chars@)[k]
            },
{
    let len = chars.len();
    let mut ranges: Vec<(usize, usize)> = Vec::new();
    let ghost mut found: Seq<Seq<char>> = Seq::empty();
    let mut from: usize = 0;
    assert(found + lines_from(chars@, 0) =~= lines_of(chars@));
    while from < len
        invariant
            len == chars@.len(),
            from <= len,
            ranges@.len() == found.len(),
            lines_of(chars@) == found + lines_from(chars@, from as int),
            forall|k: int|
                0 <= k < ranges@.len() ==> {
                    &&& (#[trigger] ranges@[k]).0 <= ranges@[k].1 <= chars@.len()
                    &&& chars@.subrange(ranges@[k].0 as int, ranges@[k].1 as int) == found[k]
                },
        decreases len - from,
    {
        let end = find_char(chars, from, len, '\n');
        proof {
            lemma_position_of_shift(chars@, '\n', from as int, 0);
            assert(position_of(chars@, '\n', from as int) == end);
        }
        let stop: usize = if end < len && from < end && chars[end - 1] == '\r' {
            (end - 1) as usize
        } else {
            end
        };
        proof {
            let line = line_at(chars@, from as int, end as int);
            if end < len {
                let rest = lines_from(chars@, end + 1);
                assert(found + (seq![line] + rest) =~= found.push(line) + rest);
            } else {
                assert(found + seq![line] =~= found.push(line) + lines_from(chars@, len as int));
            }
            found = found.push(line);
        }
        ranges.push((from, stop));
        if end == len {
            from = len;
        } else {
            from = end + 1;
        }
    }
    assert(found + lines_from(chars@, len as int) =~= found);
    ranges
}

/// Searching the tail of a text is searching the text from where the tail begins.
pub proof fn lemma_position_of_shift(s: Seq<char>, c: char, from: int, at: int)
    requires
        0 <= from <= s.len(),
        0 <= at <= s.len() - from,
    ensures
        position_of(s.subrange(from, s.len() as int), c, at) + from == position_of(s, c, from + at),
    decreases s.len() - from - at,
{
    let tail = s.subrange(from, s.len() as int);
    if at < tail.len() && tail[at] != c {
        lemma_position_of_shift(s, c, from, at + 1);
    }
}

/// The digits of `n` in `radix` (at most 16), most significant first, in lowercase and
/// without leading zeros; zero is written `0`.
pub open spec fn number_text(n: nat, radix: nat) -> Seq<char>
    decreases n,
{
    if radix < 2 || n < radix {
        seq![hex_char(n as int)]
    } else {
        proof {
            assert(n / radix < n) by (nonlinear_arith)
                requires
                    n >= radix >= 2,
            ;
        }
        number_text(n / radix, radix).push(hex_char((n % radix) as int))
    }
}

/// `text`, with `fill` before it up to a width of `width`; a text that is already as
/// wide stays as it is.
pub open spec fn padded(text: Seq<char>, width: nat, fill: char) -> Seq<char> {
    if text.len() >= width {
        text
    } else {
        Seq::new((width - text.len()) as nat, |i: int| fill) + text
    }
}

/// The digit for a value below sixteen.
pub fn digit_char(value: u8) -> (c: char)
    requires
        value < 16,
    ensures
        c == hex_char(value as int),
{
    match value {
        0 => '0',
        1 => '1',
        2 => '2',
        3 => '3',
        4 => '4',
        5 => '5',
        6 => '6',
        7 => '7',
        8 => '8',
        9 => '9',
        10 => 'a',
        11 => 'b',
        12 => 'c',
        13 => 'd',
        14 => 'e',
        _ => 'f',
    }
}

/// Writes `n` in `radix` at the end of `out`.
pub fn push_number(out: &mut Vec<char>, n: u64, radix: u64)
    requires
        2 <= radix <= 16,
    ensures
        final(out)@ == old(out)@ + number_text(n as nat, radix as nat),
    decreases n,
{
    if n >= radix {
        assert(n / radix < n) by (nonlinear_arith)
            requires
                n >= radix >= 2,
        ;
        push_number(out, n / radix, radix);
    }
    out.push(digit_char((n % radix) as u8));
    proof {
        let digit = hex_char((n % radix) as int);
        if n >= radix {
            let high = number_text((n / radix) as nat, radix as nat);
            assert(number_text(n as nat, radix as nat) == high.push(digit));
            assert(old(out)@ + high.push(digit) =~= (old(out)@ + high).push(digit));
        } else {
            vstd::arithmetic::div_mod::lemma_small_mod(n as nat, radix as nat);
            assert(number_text(n as nat, radix as nat) == seq![digit]);
            assert(old(out)@ + seq![digit] =~= old(out)@.push(digit));
        }
    }
}

/// Writes `n` in `radix` at the end of `out`, with `fill` before it up to a width of
/// `width`.
pub fn push_padded_number(out: &mut Vec<char>, n: u64, radix: u64, width: usize, fill: char)
    requires
        2 <= radix <= 16,
    ensures
        final(out)@ == old(out)@ + padded(number_text(n as nat, radix as nat), width as nat, fill),
{
    let mut digits: Vec<char> = Vec::new();
    push_number(&mut digits, n, radix);
    assert(digits@ =~= number_text(n as nat, radix as nat));
    let ghost before = out@;
    let mut i: usize = digits.len();
    while i < width
        invariant
            digits@.len() <= i,
            i <= width || i == digits@.len(),
            out@ == before + Seq::new((i - digits@.len()) as nat, |k: int| fill),
        decreases width - i,
    {
        out.push(fill);
        assert(Seq::new((i - digits@.len()) as nat, |k: int| fill).push(fill) =~= Seq::new(
            (i + 1 - digits@.len()) as nat,
            |k: int| fill,
        ));
        i += 1;
    }
    let ghost filled = out@;
    push_chars(out, &digits);
    proof {
        if digits@.len() >= width {
            assert(filled =~= before);
        }
        assert(out@ =~= before + padded(digits@, width as nat, fill));
    }
}

/// Writes `chars` at the end of `out`.
pub fn push_chars(out: &mut Vec<char>, chars: &Vec<char>)
    ensures
        final(out)@ == old(out)@ + chars@,
{
    let mut i: usize = 0;
    while i < chars.len()
        invariant
            i <= chars@.len(),
            out@ == old(out)@ + chars@.take(i as int),
        decreases chars@.len() - i,
    {
        out.push(chars[i]);
        assert(chars@.take(i as int).push(chars@[i as int]) =~= chars@.take(i + 1));
        i += 1;
    }
    assert(chars@.take(chars@.len() as int) =~= chars@);
}

} // verus!
