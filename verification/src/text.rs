//! Byte-level text measures: white space, tokens and sizes.
//!
//! Text is handled as UTF-8 bytes. White space is recognised by the encodings
//! of the characters that have the Unicode property `White_Space`.

use crate::unicode::{law_tokens_are_words, size_of_text};
use vstd::prelude::*;
use vstd::slice::slice_subrange;
use vstd::string::{StringExecFns, StringSliceAdditionalSpecFns};
use vstd::utf8::{decode_utf8, encode_utf8, encode_utf8_decode_utf8, valid_utf8};

verus! {

/// The one-byte white-space characters: tab, line feed, vertical tab, form
/// feed, carriage return and space.
pub open spec fn is_ascii_space(b: u8) -> bool {
    (0x09 <= b && b <= 0x0D) || b == 0x20
}

/// The two-byte white-space characters U+0085 and U+00A0.
pub open spec fn is_two_byte_space(a: u8, b: u8) -> bool {
    a == 0xC2 && (b == 0x85 || b == 0xA0)
}

/// The three-byte white-space characters: U+1680, U+2000 to U+200A, U+2028,
/// U+2029, U+202F, U+205F and U+3000.
pub open spec fn is_three_byte_space(a: u8, b: u8, c: u8) -> bool {
    ||| a == 0xE1 && b == 0x9A && c == 0x80
    ||| a == 0xE2 && b == 0x80 && ((0x80 <= c && c <= 0x8A) || c == 0xA8 || c == 0xA9 || c == 0xAF)
    ||| a == 0xE2 && b == 0x81 && c == 0x9F
    ||| a == 0xE3 && b == 0x80 && c == 0x80
}

/// Number of bytes of the white-space character that starts at `i`, or 0 when
/// none starts there.
pub open spec fn space_width(s: Seq<u8>, i: int) -> int {
    if i < 0 || i >= s.len() {
        0
    } else if is_ascii_space(s[i]) {
        1
    } else if i + 1 < s.len() && is_two_byte_space(s[i], s[i + 1]) {
        2
    } else if i + 2 < s.len() && is_three_byte_space(s[i], s[i + 1], s[i + 2]) {
        3
    } else {
        0
    }
}

/// First position at or after `i` where no white space starts.
pub open spec fn skip_spaces(s: Seq<u8>, i: int) -> int
    decreases s.len() - i,
{
    if space_width(s, i) > 0 {
        skip_spaces(s, i + space_width(s, i))
    } else {
        i
    }
}

/// First position at or after `i` that is the end of the text or the start of
/// white space.
pub open spec fn word_end(s: Seq<u8>, i: int) -> int
    decreases s.len() - i,
{
    if i < 0 || i >= s.len() || space_width(s, i) > 0 {
        i
    } else {
        word_end(s, i + 1)
    }
}

/// Number of white-space separated words that start at or after `i`.
pub open spec fn words_from(s: Seq<u8>, i: int) -> nat
    decreases s.len() - i,
{
    let start = skip_spaces(s, i);
    if i < 0 || start >= s.len() {
        0
    } else {
        proof {
            lemma_skip_spaces_bounds(s, i);
            lemma_word_end_bounds(s, start + 1);
        }
        1 + words_from(s, word_end(s, start + 1))
    }
}

/// Number of white-space separated words in `s`.
pub open spec fn token_count(s: Seq<u8>) -> nat {
    words_from(s, 0)
}

/// Size of a text: its number of words when `count_tokens` is set, its number
/// of bytes otherwise.
pub open spec fn text_size(s: Seq<u8>, count_tokens: bool) -> nat {
    if count_tokens {
        token_count(s)
    } else {
        s.len()
    }
}

/// Skipping white space stays within the text and ends where none starts.
pub proof fn lemma_skip_spaces_bounds(s: Seq<u8>, i: int)
    requires
        0 <= i <= s.len(),
    ensures
        i <= skip_spaces(s, i) <= s.len(),
        space_width(s, skip_spaces(s, i)) == 0,
    decreases s.len() - i,
{
    if space_width(s, i) > 0 {
        lemma_skip_spaces_bounds(s, i + space_width(s, i));
    }
}

/// A word ends within the text, at its end or at white space.
pub proof fn lemma_word_end_bounds(s: Seq<u8>, i: int)
    requires
        0 <= i <= s.len(),
    ensures
        i <= word_end(s, i) <= s.len(),
        word_end(s, i) < s.len() ==> space_width(s, word_end(s, i)) > 0,
    decreases s.len() - i,
{
    if !(i >= s.len() || space_width(s, i) > 0) {
        lemma_word_end_bounds(s, i + 1);
    }
}

/// Width of the white-space character at `i`, 0 when none starts there.
pub(crate) fn space_width_at(s: &[u8], i: usize) -> (w: usize)
    ensures
        w == space_width(s@, i as int),
        w <= 3,
        i + w <= s.len() || w == 0,
{
    let n: usize = s.len();
    if i >= n {
        return 0;
    }
    let a: u8 = s[i];
    if (0x09 <= a && a <= 0x0D) || a == 0x20 {
        return 1;
    }
    if n - i >= 2 {
        let b: u8 = s[i + 1];
        if a == 0xC2 && (b == 0x85 || b == 0xA0) {
            return 2;
        }
        if n - i >= 3 {
            let c: u8 = s[i + 2];
            if (a == 0xE1 && b == 0x9A && c == 0x80)
                || (a == 0xE2 && b == 0x80 && ((0x80 <= c && c <= 0x8A) || c == 0xA8 || c == 0xA9 || c == 0xAF))
                || (a == 0xE2 && b == 0x81 && c == 0x9F)
                || (a == 0xE3 && b == 0x80 && c == 0x80)
            {
                return 3;
            }
        }
    }
    0
}

/// Position of the first byte at or after `from` that does not start white
/// space.
pub(crate) fn skip_spaces_at(s: &[u8], from: usize) -> (at: usize)
    requires
        from <= s.len(),
    ensures
        at == skip_spaces(s@, from as int),
        from <= at <= s.len(),
{
    let mut i: usize = from;
    loop
        invariant
            from <= i <= s.len(),
            skip_spaces(s@, i as int) == skip_spaces(s@, from as int),
        decreases s.len() - i,
    {
        let w: usize = space_width_at(s, i);
        if w == 0 {
            return i;
        }
        i = i + w;
    }
}

/// Position of the end of the word that covers `from`: the first white space
/// at or after `from`, or the end of the text.
pub(crate) fn word_end_at(s: &[u8], from: usize) -> (at: usize)
    requires
        from <= s.len(),
    ensures
        at == word_end(s@, from as int),
        from <= at <= s.len(),
{
    let mut i: usize = from;
    while i < s.len() && space_width_at(s, i) == 0
        invariant
            from <= i <= s.len(),
            word_end(s@, i as int) == word_end(s@, from as int),
        decreases s.len() - i,
    {
        i = i + 1;
    }
    i
}

/// Counts the white-space separated words of `s`.
pub(crate) fn count_tokens_in(s: &[u8]) -> (n: usize)
    ensures
        n == token_count(s@),
{
    let mut count: usize = 0;
    let mut i: usize = 0;
    loop
        invariant
            i <= s.len(),
            count <= i,
            count + words_from(s@, i as int) == token_count(s@),
        decreases s.len() - i,
    {
        let start: usize = skip_spaces_at(s, i);
        if start >= s.len() {
            return count;
        }
        proof {
            lemma_word_end_bounds(s@, start + 1);
        }
        i = word_end_at(s, start + 1);
        count = count + 1;
    }
}

/// Size of a byte text under the chosen measure.
pub fn measure(s: &[u8], count_tokens: bool) -> (size: usize)
    ensures
        size == text_size(s@, count_tokens),
{
    if count_tokens {
        count_tokens_in(s)
    } else {
        s.len()
    }
}

/// Size of a text: the number of white-space separated words when
/// `count_tokens` is set, the length in bytes otherwise.
pub fn count_size(text: &str, count_tokens: bool) -> (size: usize)
    ensures
        size == size_of_text(text@, count_tokens),
        size == text_size(text.spec_bytes(), count_tokens),
{
    proof {
        law_tokens_are_words(text@);
    }
    measure(text.as_bytes(), count_tokens)
}

/// The character of a digit below sixteen, in lower case.
pub open spec fn digit_char(d: int) -> char {
    if d == 0 {
        '0'
    } else if d == 1 {
        '1'
    } else if d == 2 {
        '2'
    } else if d == 3 {
        '3'
    } else if d == 4 {
        '4'
    } else if d == 5 {
        '5'
    } else if d == 6 {
        '6'
    } else if d == 7 {
        '7'
    } else if d == 8 {
        '8'
    } else if d == 9 {
        '9'
    } else if d == 10 {
        'a'
    } else if d == 11 {
        'b'
    } else if d == 12 {
        'c'
    } else if d == 13 {
        'd'
    } else if d == 14 {
        'e'
    } else {
        'f'
    }
}

/// Decimal digits of `n`, most significant first, without leading zeros; a
/// single `0` for zero.
pub open spec fn decimal_digits(n: nat) -> Seq<char>
    decreases n,
{
    if n < 10 {
        seq![digit_char(n as int)]
    } else {
        decimal_digits(n / 10).push(digit_char((n % 10) as int))
    }
}

/// Lower-case hexadecimal digits of `n`, most significant first, without
/// leading zeros; a single `0` for zero.
pub open spec fn hex_digits(n: nat) -> Seq<char>
    decreases n,
{
    if n < 16 {
        seq![digit_char(n as int)]
    } else {
        hex_digits(n / 16).push(digit_char((n % 16) as int))
    }
}

/// Decimal notation of an integer, with a leading `-` when it is negative.
pub open spec fn decimal(n: int) -> Seq<char> {
    if n < 0 {
        seq!['-'] + decimal_digits((-n) as nat)
    } else {
        decimal_digits(n as nat)
    }
}

/// The one-character text of a digit below sixteen.
fn digit_text(d: u8) -> (t: &'static str)
    requires
        d < 16,
    ensures
        t@ == seq![digit_char(d as int)],
{
    proof {
        reveal_strlit("0");
        reveal_strlit("1");
        reveal_strlit("2");
        reveal_strlit("3");
        reveal_strlit("4");
        reveal_strlit("5");
        reveal_strlit("6");
        reveal_strlit("7");
        reveal_strlit("8");
        reveal_strlit("9");
        reveal_strlit("a");
        reveal_strlit("b");
        reveal_strlit("c");
        reveal_strlit("d");
        reveal_strlit("e");
        reveal_strlit("f");
    }
    let t: &'static str = if d == 0 {
        "0"
    } else if d == 1 {
        "1"
    } else if d == 2 {
        "2"
    } else if d == 3 {
        "3"
    } else if d == 4 {
        "4"
    } else if d == 5 {
        "5"
    } else if d == 6 {
        "6"
    } else if d == 7 {
        "7"
    } else if d == 8 {
        "8"
    } else if d == 9 {
        "9"
    } else if d == 10 {
        "a"
    } else if d == 11 {
        "b"
    } else if d == 12 {
        "c"
    } else if d == 13 {
        "d"
    } else if d == 14 {
        "e"
    } else {
        "f"
    };
    assert(t@ =~= seq![digit_char(d as int)]);
    t
}

/// Appends the decimal digits of `n` to `out`.
pub(crate) fn push_decimal_digits(out: &mut String, n: u128)
    ensures
        final(out)@ == old(out)@ + decimal_digits(n as nat),
    decreases n,
{
    if n >= 10 {
        push_decimal_digits(out, n / 10);
    }
    let d: u8 = (n % 10) as u8;
    out.append(digit_text(d));
    assert(out@ =~= old(out)@ + decimal_digits(n as nat));
}

/// Appends the lower-case hexadecimal digits of `n` to `out`.
pub(crate) fn push_hex_digits(out: &mut String, n: u128)
    ensures
        final(out)@ == old(out)@ + hex_digits(n as nat),
    decreases n,
{
    if n >= 16 {
        push_hex_digits(out, n / 16);
    }
    let d: u8 = (n % 16) as u8;
    out.append(digit_text(d));
    assert(out@ =~= old(out)@ + hex_digits(n as nat));
}

/// Appends the decimal notation of `n` to `out`.
pub(crate) fn push_decimal(out: &mut String, n: i128)
    requires
        n > i128::MIN,
    ensures
        final(out)@ == old(out)@ + decimal(n as int),
{
    if n < 0 {
        proof {
            reveal_strlit("-");
        }
        out.append("-");
        push_decimal_digits(out, (-n) as u128);
        assert(out@ =~= old(out)@ + decimal(n as int));
    } else {
        push_decimal_digits(out, n as u128);
    }
}

/// Appends `bytes` to `out`.
pub(crate) fn append_bytes(out: &mut Vec<u8>, bytes: &[u8])
    ensures
        final(out)@ == old(out)@ + bytes@,
{
    let mut i: usize = 0;
    while i < bytes.len()
        invariant
            i <= bytes.len(),
            out@ == old(out)@ + bytes@.take(i as int),
        decreases bytes.len() - i,
    {
        out.push(bytes[i]);
        assert(bytes@.take(i + 1) =~= bytes@.take(i as int).push(bytes@[i as int]));
        i = i + 1;
    }
    assert(bytes@.take(i as int) =~= bytes@);
}

/// Whether two texts are the same, character by character.
pub(crate) fn text_eq(a: &str, b: &str) -> (same: bool)
    ensures
        same == (a@ == b@),
{
    let x = a.as_bytes();
    let y = b.as_bytes();
    proof {
        encode_utf8_decode_utf8(a@);
        encode_utf8_decode_utf8(b@);
        assert(x@ == y@ ==> a@ == b@) by {
            if x@ == y@ {
                assert(decode_utf8(encode_utf8(a@)) == decode_utf8(encode_utf8(b@)));
            }
        }
    }
    if x.len() != y.len() {
        return false;
    }
    let mut i: usize = 0;
    while i < x.len()
        invariant
            i <= x.len(),
            x.len() == y.len(),
            a@ == b@ ==> x@ == y@,
            x@ == y@ ==> a@ == b@,
            forall|j: int| 0 <= j < i ==> x@[j] == y@[j],
        decreases x.len() - i,
    {
        if x[i] != y[i] {
            return false;
        }
        i = i + 1;
    }
    assert(x@ =~= y@);
    true
}

/// Number of bytes of the white-space character that ends just before `end`,
/// or 0 when none ends there.
pub open spec fn space_width_before(s: Seq<u8>, end: int) -> int {
    if end < 1 || end > s.len() {
        0
    } else if is_ascii_space(s[end - 1]) {
        1
    } else if end >= 2 && is_two_byte_space(s[end - 2], s[end - 1]) {
        2
    } else if end >= 3 && is_three_byte_space(s[end - 3], s[end - 2], s[end - 1]) {
        3
    } else {
        0
    }
}

/// Last position at or before `end`, and not before `low`, just before which
/// no white space ends.
pub open spec fn skip_spaces_back(s: Seq<u8>, low: int, end: int) -> int
    decreases end,
{
    let w = space_width_before(s, end);
    if w > 0 && end - w >= low {
        skip_spaces_back(s, low, end - w)
    } else {
        end
    }
}

/// The text without its leading and trailing white space.
pub open spec fn trimmed(s: Seq<u8>) -> Seq<u8> {
    let start = skip_spaces(s, 0);
    s.subrange(start, skip_spaces_back(s, start, s.len() as int))
}

/// Width of the white-space character that ends just before `end`.
fn space_width_before_at(s: &[u8], end: usize) -> (w: usize)
    requires
        end <= s.len(),
    ensures
        w == space_width_before(s@, end as int),
        w <= 3,
        w <= end,
{
    if end < 1 {
        return 0;
    }
    let c: u8 = s[end - 1];
    if (0x09 <= c && c <= 0x0D) || c == 0x20 {
        return 1;
    }
    if end >= 2 {
        let b: u8 = s[end - 2];
        if b == 0xC2 && (c == 0x85 || c == 0xA0) {
            return 2;
        }
        if end >= 3 {
            let a: u8 = s[end - 3];
            if (a == 0xE1 && b == 0x9A && c == 0x80)
                || (a == 0xE2 && b == 0x80 && ((0x80 <= c && c <= 0x8A) || c == 0xA8 || c == 0xA9 || c == 0xAF))
                || (a == 0xE2 && b == 0x81 && c == 0x9F)
                || (a == 0xE3 && b == 0x80 && c == 0x80)
            {
                return 3;
            }
        }
    }
    0
}

/// The text without its leading and trailing white space.
pub fn trim(s: &[u8]) -> (t: &[u8])
    ensures
        t@ == trimmed(s@),
{
    let start: usize = skip_spaces_at(s, 0);
    let mut end: usize = s.len();
    loop
        invariant
            start <= end <= s.len(),
            start == skip_spaces(s@, 0),
            skip_spaces_back(s@, start as int, end as int) == skip_spaces_back(
                s@,
                start as int,
                s.len() as int,
            ),
        decreases end,
    {
        let w: usize = space_width_before_at(s, end);
        if w == 0 || end - w < start {
            return slice_subrange(s, start, end);
        }
        end = end - w;
    }
}

/// The line feed.
pub const LINE_FEED: u8 = 0x0A;

/// The carriage return.
pub const CARRIAGE_RETURN: u8 = 0x0D;

/// Position of the first line feed at or after `from`, or the end of the
/// text.
pub open spec fn line_end(s: Seq<u8>, from: int) -> int
    decreases s.len() - from,
{
    if from < 0 || from >= s.len() || s[from] == LINE_FEED {
        from
    } else {
        line_end(s, from + 1)
    }
}

/// Where the line after the one at `from` starts: behind its line feed, or at
/// the end of the text.
pub open spec fn next_line(s: Seq<u8>, from: int) -> int {
    let end = line_end(s, from);
    if end < s.len() {
        end + 1
    } else {
        end
    }
}

/// A line ends within the text, at its end or at a line feed.
pub proof fn lemma_line_end_bounds(s: Seq<u8>, from: int)
    requires
        0 <= from <= s.len(),
    ensures
        from <= line_end(s, from) <= s.len(),
        line_end(s, from) < s.len() ==> s[line_end(s, from)] == LINE_FEED,
    decreases s.len() - from,
{
    if from < s.len() && s[from] != LINE_FEED {
        lemma_line_end_bounds(s, from + 1);
    }
}

/// Position of the first line feed at or after `from`, or the end of the
/// text.
pub(crate) fn line_end_at(s: &[u8], from: usize) -> (at: usize)
    requires
        from <= s.len(),
    ensures
        at == line_end(s@, from as int),
        from <= at <= s.len(),
        at < s.len() ==> s@[at as int] == LINE_FEED,
{
    let mut i: usize = from;
    while i < s.len() && s[i] != LINE_FEED
        invariant
            from <= i <= s.len(),
            line_end(s@, i as int) == line_end(s@, from as int),
        decreases s.len() - i,
    {
        i = i + 1;
    }
    i
}

/// What `String::from_utf8_lossy` makes of a byte text.
pub uninterp spec fn utf8_lossy(bytes: Seq<u8>) -> Seq<char>;

/// `String::from_utf8_lossy`: the text that the bytes encode. Bytes that are
/// well-formed UTF-8 are decoded as they are; what it puts in the place of
/// others is not stated here.
#[verifier::external_body]
pub(crate) fn text_of(bytes: &[u8]) -> (s: String)
    ensures
        s@ == utf8_lossy(bytes@),
        valid_utf8(bytes@) ==> s@ == decode_utf8(bytes@),
{
    String::from_utf8_lossy(bytes).into_owned()
}

/// The text that bytes stand for: the text that they encode where they are
/// well-formed UTF-8, and else what a lossy reading makes of them.
pub open spec fn decoded(bytes: Seq<u8>) -> Seq<char> {
    if valid_utf8(bytes) {
        decode_utf8(bytes)
    } else {
        utf8_lossy(bytes)
    }
}

/// Reads bytes as text.
pub(crate) fn decode(bytes: &[u8]) -> (s: String)
    ensures
        s@ == decoded(bytes@),
{
    text_of(bytes)
}

/// Decoding gives back what was encoded.
pub proof fn law_decode_encoded(chars: Seq<char>)
    ensures
        decoded(encode_utf8(chars)) == chars,
{
    vstd::utf8::encode_utf8_valid_utf8(chars);
    encode_utf8_decode_utf8(chars);
}

} // verus!
