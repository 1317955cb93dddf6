//! Plain text as the engine reads and writes it: lists on one line or several,
//! and numbers in decimal.

use vstd::prelude::*;
use vstd::string::{StrSliceExecFns, StringExecFns};

verus! {

/// White space as `str::trim` understands it: the characters that Unicode
/// gives the property `White_Space`.
pub open spec fn is_space(c: char) -> bool {
    let n = c as u32;
    ||| 0x09 <= n <= 0x0d
    ||| n == 0x20
    ||| n == 0x85
    ||| n == 0xa0
    ||| n == 0x1680
    ||| 0x2000 <= n <= 0x200a
    ||| n == 0x2028
    ||| n == 0x2029
    ||| n == 0x202f
    ||| n == 0x205f
    ||| n == 0x3000
}

/// The first place from `from` on that holds no white space, or the length.
pub open spec fn text_start(s: Seq<char>, from: int) -> int
    decreases s.len() - from,
{
    if from < 0 || from >= s.len() {
        s.len() as int
    } else if is_space(s[from]) {
        text_start(s, from + 1)
    } else {
        from
    }
}

/// The place after the last character before `upto` that is no white space, or
/// zero.
pub open spec fn text_end(s: Seq<char>, upto: int) -> int
    decreases upto,
{
    if upto <= 0 || upto > s.len() {
        0
    } else if is_space(s[upto - 1]) {
        text_end(s, upto - 1)
    } else {
        upto
    }
}

/// The text without the white space at its two ends.
pub open spec fn trimmed(s: Seq<char>) -> Seq<char> {
    let start = text_start(s, 0);
    if start >= s.len() {
        Seq::empty()
    } else {
        s.subrange(start, text_end(s, s.len() as int))
    }
}

/// The pieces of the text that lie between one `separator` and the next, read
/// from place `at` on, where the piece being read began at `start`. There is
/// always at least one piece, and a piece may be empty.
pub open spec fn pieces_from(s: Seq<char>, separator: char, start: int, at: int) -> Seq<Seq<char>>
    decreases s.len() - at,
{
    if at < 0 || at >= s.len() {
        seq![s.subrange(start, s.len() as int)]
    } else if s[at] == separator {
        seq![s.subrange(start, at)] + pieces_from(s, separator, at + 1, at + 1)
    } else {
        pieces_from(s, separator, start, at + 1)
    }
}

/// The pieces of the text that lie between one `separator` and the next.
pub open spec fn pieces(s: Seq<char>, separator: char) -> Seq<Seq<char>> {
    pieces_from(s, separator, 0, 0)
}

/// The texts of a list of strings, in order.
pub open spec fn texts(strings: Seq<String>) -> Seq<Seq<char>> {
    Seq::new(strings.len(), |i: int| strings[i]@)
}

/// The pieces joined again, with `separator` between one and the next.
pub open spec fn joined(parts: Seq<Seq<char>>, separator: char) -> Seq<char>
    decreases parts.len(),
{
    if parts.len() == 0 {
        Seq::empty()
    } else if parts.len() == 1 {
        parts[0]
    } else {
        joined(parts.drop_last(), separator).push(separator) + parts.last()
    }
}

/// The characters of a string, as a list.
fn characters(s: &str) -> (r: Vec<char>)
    ensures
        r@ == s@,
{
    let n = s.unicode_len();
    let mut chars: Vec<char> = Vec::new();
    let mut i: usize = 0;
    while i < n
        invariant
            i <= n,
            n == s@.len(),
            chars@ =~= s@.take(i as int),
        decreases n - i,
    {
        chars.push(s.get_char(i));
        i = i + 1;
    }
    assert(s@.take(n as int) =~= s@);
    chars
}

/// Whether `c` is white space.
pub fn is_white_space(c: char) -> (r: bool)
    ensures
        r == is_space(c),
{
    let n = c as u32;
    (0x09 <= n && n <= 0x0d) || n == 0x20 || n == 0x85 || n == 0xa0 || n == 0x1680 || (0x2000 <= n
        && n <= 0x200a) || n == 0x2028 || n == 0x2029 || n == 0x202f || n == 0x205f || n == 0x3000
}

/// Cuts the text between the places `from` and `to` into the pieces that lie
/// between one `separator` and the next.
fn cut(s: &str, chars: &Vec<char>, from: usize, to: usize, separator: char) -> (r: Vec<String>)
    requires
        chars@ == s@,
        from <= to <= chars.len(),
    ensures
        texts(r@) == pieces(s@.subrange(from as int, to as int), separator),
        r.len() >= 1,
{
    let ghost part = s@.subrange(from as int, to as int);
    let mut found: Vec<String> = Vec::new();
    let mut start: usize = from;
    let mut i: usize = from;
    loop
        invariant_except_break
            from <= start <= i <= to <= chars.len(),
            chars@ == s@,
            part == s@.subrange(from as int, to as int),
            pieces(part, separator) == texts(found@) + pieces_from(
                part,
                separator,
                start - from,
                i - from,
            ),
        ensures
            texts(found@) == pieces(part, separator),
            found.len() >= 1,
        decreases to - i,
    {
        if i == to {
            let piece = s.substring_char(start, to);
            let ghost before = found@;
            found.push(String::from_str(piece));
            proof {
                assert(s@.subrange(start as int, to as int) =~= part.subrange(
                    start - from,
                    part.len() as int,
                ));
                assert(texts(found@) =~= texts(before) + seq![piece@]);
            }
            break;
        }
        if chars[i] == separator {
            let piece = s.substring_char(start, i);
            let ghost before = found@;
            found.push(String::from_str(piece));
            proof {
                assert(part[i - from] == separator);
                assert(s@.subrange(start as int, i as int) =~= part.subrange(
                    start - from,
                    i - from,
                ));
                assert(texts(found@) =~= texts(before) + seq![piece@]);
                assert(texts(found@) + pieces_from(part, separator, i + 1 - from, i + 1 - from)
                    =~= texts(before) + (seq![piece@] + pieces_from(
                    part,
                    separator,
                    i + 1 - from,
                    i + 1 - from,
                )));
            }
            start = i + 1;
        } else {
            assert(part[i - from] == chars[i as int]);
        }
        i = i + 1;
    }
    found
}

/// The pieces of `text` that lie between one `separator` and the next, as
/// `str::split` gives them.
pub fn split(text: &str, separator: char) -> (r: Vec<String>)
    ensures
        texts(r@) == pieces(text@, separator),
        r.len() >= 1,
{
    let chars = characters(text);
    assert(text@.subrange(0, text@.len() as int) =~= text@);
    cut(text, &chars, 0, chars.len(), separator)
}

/// The lines of `text` once the white space at its two ends is taken off.
pub fn trimmed_lines(text: &str) -> (r: Vec<String>)
    ensures
        texts(r@) == pieces(trimmed(text@), '\n'),
        r.len() >= 1,
{
    let chars = characters(text);
    let n = chars.len();
    let mut start: usize = 0;
    while start < n && is_white_space(chars[start])
        invariant
            start <= n,
            n == chars.len(),
            chars@ == text@,
            text_start(text@, 0) == text_start(text@, start as int),
        decreases n - start,
    {
        start = start + 1;
    }
    if start == n {
        assert(text@.subrange(n as int, n as int) =~= Seq::<char>::empty());
        return cut(text, &chars, n, n, '\n');
    }
    let mut end: usize = n;
    while end > 0 && is_white_space(chars[end - 1])
        invariant
            end <= n,
            n == chars.len(),
            chars@ == text@,
            start < n,
            !is_space(chars[start as int]),
            start < end,
            text_end(text@, n as int) == text_end(text@, end as int),
        decreases end,
    {
        end = end - 1;
    }
    cut(text, &chars, start, end, '\n')
}

/// The strings joined, with `separator` between one and the next, as
/// `[String]::join` gives them.
pub(crate) fn join(parts: &Vec<String>, separator: &str, mark: char) -> (r: String)
    requires
        separator@ == seq![mark],
    ensures
        r@ == joined(texts(parts@), mark),
{
    let mut all = String::new();
    let mut i: usize = 0;
    proof {
        assert(texts(parts@).take(0) =~= Seq::<Seq<char>>::empty());
    }
    while i < parts.len()
        invariant
            i <= parts.len(),
            separator@ == seq![mark],
            all@ == joined(texts(parts@).take(i as int), mark),
        decreases parts.len() - i,
    {
        proof {
            let longer = texts(parts@).take(i + 1);
            assert(longer.drop_last() =~= texts(parts@).take(i as int));
            assert(longer.last() == parts[i as int]@);
            if i == 0 {
                assert(longer[0] == parts[0]@);
                assert(Seq::<char>::empty() + parts[0]@ =~= parts[0]@);
            } else {
                assert(all@ + separator@ =~= all@.push(mark));
            }
        }
        if i > 0 {
            all.append(separator);
        }
        all.append(parts[i].as_str());
        i = i + 1;
    }
    proof {
        assert(texts(parts@).take(parts.len() as int) =~= texts(parts@));
    }
    all
}

/// Whether `c` is one of the ten digits.
pub open spec fn is_digit(c: char) -> bool {
    0x30 <= c as u32 <= 0x39
}

/// The number that a string of digits denotes in decimal.
pub open spec fn decimal_value(digits: Seq<char>) -> nat
    decreases digits.len(),
{
    if digits.len() == 0 {
        0
    } else {
        (decimal_value(digits.drop_last()) * 10 + (digits.last() as u32 - 0x30)) as nat
    }
}

/// The digits of a number text: the text itself, or what follows a leading
/// plus sign.
pub open spec fn digits_of(s: Seq<char>) -> Seq<char> {
    if s.len() > 0 && s[0] == '+' {
        s.drop_first()
    } else {
        s
    }
}

/// Whether every character of the string is a digit.
pub open spec fn all_digits(digits: Seq<char>) -> bool {
    forall|i: int| 0 <= i < digits.len() ==> is_digit(#[trigger] digits[i])
}

/// The number that one or more digits denote, if it fits in 32 bits.
pub open spec fn number_of(digits: Seq<char>) -> Option<u32> {
    if digits.len() > 0 && all_digits(digits) && decimal_value(digits) <= u32::MAX {
        Some(decimal_value(digits) as u32)
    } else {
        None
    }
}

/// What `str::parse::<u32>` makes of a text: the number that its digits denote,
/// if it is one or more digits, with or without a plus sign before them, and
/// the number fits in 32 bits.
pub open spec fn parsed_u32(s: Seq<char>) -> Option<u32> {
    number_of(digits_of(s))
}

/// A string of digits denotes no less than any of its beginnings does.
pub proof fn lemma_decimal_value_grows(digits: Seq<char>, fewer: int)
    requires
        0 <= fewer <= digits.len(),
        all_digits(digits),
    ensures
        decimal_value(digits.take(fewer)) <= decimal_value(digits),
    decreases digits.len() - fewer,
{
    if fewer < digits.len() {
        lemma_decimal_value_grows(digits, fewer + 1);
        assert(digits.take(fewer + 1).drop_last() =~= digits.take(fewer));
        assert(is_digit(digits[fewer]));
    } else {
        assert(digits.take(fewer) =~= digits);
    }
}

/// Reads a number in decimal, as `str::parse::<u32>` does.
pub fn parse_u32(text: &str) -> (r: Option<u32>)
    ensures
        r == parsed_u32(text@),
{
    let chars = characters(text);
    let n = chars.len();
    let first: usize = if n > 0 && chars[0] == '+' {
        1
    } else {
        0
    };
    let ghost digits = digits_of(text@);
    assert(digits =~= text@.subrange(first as int, n as int));
    if first == n {
        return None;
    }
    let mut value: u64 = 0;
    let mut i: usize = first;
    proof {
        assert(digits.take(0) =~= Seq::<char>::empty());
    }
    while i < n
        invariant
            first <= i <= n,
            n == chars.len(),
            chars@ == text@,
            digits == digits_of(text@),
            digits == text@.subrange(first as int, n as int),
            forall|j: int| 0 <= j < i - first ==> is_digit(#[trigger] digits[j]),
            value == decimal_value(digits.take(i - first)),
            value <= u32::MAX,
        decreases n - i,
    {
        let c = chars[i];
        assert(digits[i - first] == c);
        let code: u32 = c as u32;
        if code < 0x30 || code > 0x39 {
            assert(!is_digit(digits[i - first]));
            return None;
        }
        let digit: u64 = (code - 0x30) as u64;
        value = value * 10 + digit;
        proof {
            assert(digits.take(i + 1 - first).drop_last() =~= digits.take(i - first));
            assert(digits.take(i + 1 - first).last() == c);
        }
        if value > u32::MAX as u64 {
            proof {
                if all_digits(digits) {
                    lemma_decimal_value_grows(digits, i + 1 - first);
                }
            }
            return None;
        }
        i = i + 1;
    }
    proof {
        assert(digits.take(n - first) =~= digits);
    }
    Some(value as u32)
}

/// The digit that stands for a number below ten.
pub open spec fn digit_of(n: nat) -> char {
    (n + 0x30) as char
}

/// A number in decimal, without leading zeros.
pub open spec fn decimal_digits(n: nat) -> Seq<char>
    decreases n,
{
    if n < 10 {
        seq![digit_of(n)]
    } else {
        decimal_digits(n / 10).push(digit_of(n % 10))
    }
}

/// The text of one digit.
fn digit_text(d: u32) -> (r: &'static str)
    requires
        d < 10,
    ensures
        r@ == seq![digit_of(d as nat)],
{
    proof {
        reveal_strlit("0");
        reveal_strlit("1");
        reveal_strlit("2");
        reveal_strlit("3");
        reveal_strlit("4");
        reveal_strlit("5");
        reveal_strlit("6");
        reveal_strlit("7");
        reveal_strlit("8");
        reveal_strlit("9");
    }
    let text = if d == 0 {
        "0"
    } else if d == 1 {
        "1"
    } else if d == 2 {
        "2"
    } else if d == 3 {
        "3"
    } else if d == 4 {
        "4"
    } else if d == 5 {
        "5"
    } else if d == 6 {
        "6"
    } else if d == 7 {
        "7"
    } else if d == 8 {
        "8"
    } else {
        "9"
    };
    assert(text@ =~= seq![digit_of(d as nat)]);
    text
}

/// Writes a number in decimal, as its `to_string` does.
pub fn decimal(n: u32) -> (r: String)
    ensures
        r@ == decimal_digits(n as nat),
    decreases n,
{
    if n < 10 {
        String::from_str(digit_text(n))
    } else {
        let mut text = decimal(n / 10);
        text.append(digit_text(n % 10));
        assert(text@ =~= decimal_digits((n / 10) as nat).push(digit_of((n % 10) as nat)));
        text
    }
}

} // verus!
