//! White space and words of a text, character by character, and how the
//! byte-level measures of encoded text follow them.

use crate::text::{
    is_ascii_space, is_three_byte_space, is_two_byte_space, skip_spaces, skip_spaces_back,
    space_width, space_width_before, token_count, trimmed, word_end, words_from,
};
use vstd::prelude::*;
use vstd::utf8::{
    char_is_scalar, encode_scalar, encode_utf8, has_width_1_encoding, has_width_2_encoding,
    has_width_3_encoding, has_width_4_encoding, last_continuation_byte, leading_byte_width_1,
    leading_byte_width_2, leading_byte_width_3, leading_byte_width_4,
    second_last_continuation_byte, third_last_continuation_byte,
};

verus! {

/// Whether a code point has the Unicode property `White_Space`.
pub open spec fn is_space_code(u: u32) -> bool {
    ||| 0x09 <= u && u <= 0x0D
    ||| u == 0x20
    ||| u == 0x85
    ||| u == 0xA0
    ||| u == 0x1680
    ||| 0x2000 <= u && u <= 0x200A
    ||| u == 0x2028
    ||| u == 0x2029
    ||| u == 0x202F
    ||| u == 0x205F
    ||| u == 0x3000
}

/// Whether a character is white space.
pub open spec fn is_white_space(c: char) -> bool {
    is_space_code(c as u32)
}

/// Whether a word starts at character `i`: it is no white space, and it is
/// the first character or stands behind white space.
pub open spec fn starts_word(chars: Seq<char>, i: int) -> bool {
    &&& 0 <= i < chars.len()
    &&& !is_white_space(chars[i])
    &&& i == 0 || is_white_space(chars[i - 1])
}

/// Number of words that start at or after character `from`.
pub open spec fn word_starts(chars: Seq<char>, from: int) -> nat
    decreases chars.len() - from,
{
    if from < 0 || from >= chars.len() {
        0
    } else if starts_word(chars, from) {
        1 + word_starts(chars, from + 1)
    } else {
        word_starts(chars, from + 1)
    }
}

/// Number of words of a text: of its runs of characters that are no white
/// space.
pub open spec fn word_count(chars: Seq<char>) -> nat {
    word_starts(chars, 0)
}

/// The encoding in one byte.
proof fn lemma_one_byte(u: u32)
    by (bit_vector)
    requires
        has_width_1_encoding(u),
    ensures
        leading_byte_width_1(u) <= 0x7F,
        is_ascii_space(leading_byte_width_1(u)) <==> ((0x09 <= u && u <= 0x0D) || u == 0x20),
{
}

/// The encoding in two bytes.
proof fn lemma_two_bytes(u: u32)
    by (bit_vector)
    requires
        has_width_2_encoding(u),
    ensures
        0xC2 <= leading_byte_width_2(u) && leading_byte_width_2(u) <= 0xDF,
        0x80 <= last_continuation_byte(u) && last_continuation_byte(u) <= 0xBF,
        is_two_byte_space(leading_byte_width_2(u), last_continuation_byte(u)) <==> (u == 0x85 || u
            == 0xA0),
{
}

/// The encoding in three bytes.
proof fn lemma_three_bytes(u: u32)
    by (bit_vector)
    requires
        has_width_3_encoding(u),
    ensures
        0xE0 <= leading_byte_width_3(u) && leading_byte_width_3(u) <= 0xEF,
        0x80 <= second_last_continuation_byte(u) && second_last_continuation_byte(u) <= 0xBF,
        0x80 <= last_continuation_byte(u) && last_continuation_byte(u) <= 0xBF,
        is_three_byte_space(
            leading_byte_width_3(u),
            second_last_continuation_byte(u),
            last_continuation_byte(u),
        ) <==> (u == 0x1680 || (0x2000 <= u && u <= 0x200A) || u == 0x2028 || u == 0x2029 || u
            == 0x202F || u == 0x205F || u == 0x3000),
{
}

/// The encoding in four bytes.
proof fn lemma_four_bytes(u: u32)
    by (bit_vector)
    requires
        has_width_4_encoding(u),
    ensures
        0xF0 <= leading_byte_width_4(u),
        0x80 <= third_last_continuation_byte(u) && third_last_continuation_byte(u) <= 0xBF,
        0x80 <= second_last_continuation_byte(u) && second_last_continuation_byte(u) <= 0xBF,
        0x80 <= last_continuation_byte(u) && last_continuation_byte(u) <= 0xBF,
{
}

/// Whether no white space starts with the byte: it is none of the bytes that
/// the encoding of a white-space character begins with.
spec fn starts_no_space(b: u8) -> bool {
    !is_ascii_space(b) && b != 0xC2 && b != 0xE1 && b != 0xE2 && b != 0xE3
}

/// The encoding of a character, seen as white space or not. That of a
/// white-space character is one of the byte patterns of white space, and no
/// shorter pattern begins it. That of another character is none, and its
/// later bytes begin none.
proof fn lemma_encoded_char(c: char)
    ensures
        ({
            let e = encode_scalar(c as u32);
            &&& 1 <= e.len() <= 4
            &&& forall|k: int| 1 <= k < e.len() ==> starts_no_space(#[trigger] e[k])
            &&& e.len() == 1 ==> (is_ascii_space(e[0]) <==> is_white_space(c)) && e[0] <= 0x7F
            &&& e.len() == 2 ==> (is_two_byte_space(e[0], e[1]) <==> is_white_space(c))
                && 0xC2 <= e[0] <= 0xDF
            &&& e.len() == 3 ==> (is_three_byte_space(e[0], e[1], e[2]) <==> is_white_space(c))
                && !is_ascii_space(e[0]) && e[0] != 0xC2
            &&& e.len() == 4 ==> !is_white_space(c) && starts_no_space(e[0])
        }),
{
    let u = c as u32;
    char_is_scalar(c);
    if has_width_1_encoding(u) {
        lemma_one_byte(u);
    } else if has_width_2_encoding(u) {
        lemma_two_bytes(u);
    } else if has_width_3_encoding(u) {
        lemma_three_bytes(u);
    } else {
        lemma_four_bytes(u);
    }
}

/// The encoding of two texts, one after the other, is the encoding of the
/// first followed by that of the second.
pub proof fn lemma_encode_concat(a: Seq<char>, b: Seq<char>)
    ensures
        encode_utf8(a + b) == encode_utf8(a) + encode_utf8(b),
    decreases a.len(),
{
    if a.len() == 0 {
        assert(a + b =~= b);
        assert(encode_utf8(a) + encode_utf8(b) =~= encode_utf8(b));
    } else {
        assert((a + b).drop_first() =~= a.drop_first() + b);
        lemma_encode_concat(a.drop_first(), b);
        assert(encode_utf8(a + b) =~= encode_utf8(a) + encode_utf8(b));
    }
}

/// Where character `i` begins in the encoded text.
pub open spec fn offset(chars: Seq<char>, i: int) -> int {
    encode_utf8(chars.take(i)).len() as int
}

/// The encoded text holds the encoding of each character at its offset, and
/// the next character begins right behind it.
proof fn lemma_offsets(chars: Seq<char>, i: int)
    requires
        0 <= i < chars.len(),
    ensures
        ({
            let b = encode_utf8(chars);
            let e = encode_scalar(chars[i] as u32);
            &&& 0 <= offset(chars, i)
            &&& offset(chars, i + 1) == offset(chars, i) + e.len()
            &&& offset(chars, i + 1) <= b.len()
            &&& forall|k: int| 0 <= k < e.len() ==> b[offset(chars, i) + k] == #[trigger] e[k]
        }),
{
    let b = encode_utf8(chars);
    let e = encode_scalar(chars[i] as u32);
    let front = chars.take(i);
    let one = seq![chars[i]];
    let back = chars.skip(i + 1);
    assert(one.drop_first() =~= Seq::<char>::empty());
    assert(encode_utf8(Seq::<char>::empty()) =~= Seq::<u8>::empty());
    assert(encode_utf8(one) =~= e);
    assert(chars.take(i + 1) =~= front + one);
    assert(chars =~= chars.take(i + 1) + back);
    lemma_encode_concat(front, one);
    lemma_encode_concat(chars.take(i + 1), back);
    assert(b == (encode_utf8(front) + e) + encode_utf8(back));
}

/// The first character begins at 0, and behind the last the text ends.
proof fn lemma_offset_ends(chars: Seq<char>)
    ensures
        offset(chars, 0) == 0,
        offset(chars, chars.len() as int) == encode_utf8(chars).len(),
{
    assert(chars.take(0) =~= Seq::<char>::empty());
    assert(chars.take(chars.len() as int) =~= chars);
}

/// At the bytes of a character: white space of the width of the character
/// starts with a white-space character, and none starts at any byte of
/// another character.
proof fn lemma_space_width_at_char(chars: Seq<char>, i: int)
    requires
        0 <= i < chars.len(),
    ensures
        ({
            let b = encode_utf8(chars);
            let at = offset(chars, i);
            let next = offset(chars, i + 1);
            &&& at < next <= b.len()
            &&& is_white_space(chars[i]) ==> space_width(b, at) == next - at
            &&& !is_white_space(chars[i]) ==> forall|p: int|
                at <= p < next ==> #[trigger] space_width(b, p) == 0
        }),
{
    let b = encode_utf8(chars);
    let e = encode_scalar(chars[i] as u32);
    let at = offset(chars, i);
    lemma_offsets(chars, i);
    lemma_encoded_char(chars[i]);
    assert forall|k: int| 0 <= k < e.len() implies b[at + k] == e[k] by {
        assert(b[offset(chars, i) + k] == e[k]);
    }
    assert(b[at] == e[0]);
    if e.len() >= 2 {
        assert(b[at + 1] == e[1]);
    }
    if e.len() >= 3 {
        assert(b[at + 2] == e[2]);
    }
    if !is_white_space(chars[i]) {
        assert forall|p: int| at <= p < at + e.len() implies #[trigger] space_width(b, p) == 0 by {
            if p > at {
                assert(b[at + (p - at)] == e[p - at]);
                assert(starts_no_space(e[p - at]));
            }
        }
    }
}

/// First character at or after `i` that is no white space, or the number
/// of characters.
pub open spec fn skip_space_chars(chars: Seq<char>, i: int) -> int
    decreases chars.len() - i,
{
    if 0 <= i < chars.len() && is_white_space(chars[i]) {
        skip_space_chars(chars, i + 1)
    } else {
        i
    }
}

/// First character at or after `i` that is white space, or the end.
spec fn word_end_chars(chars: Seq<char>, i: int) -> int
    decreases chars.len() - i,
{
    if i < 0 || i >= chars.len() || is_white_space(chars[i]) {
        i
    } else {
        word_end_chars(chars, i + 1)
    }
}

/// What is skipped is white space, and what follows is none.
proof fn lemma_skip_space_chars(chars: Seq<char>, i: int)
    requires
        0 <= i <= chars.len(),
    ensures
        i <= skip_space_chars(chars, i) <= chars.len(),
        forall|j: int| i <= j < skip_space_chars(chars, i) ==> is_white_space(#[trigger] chars[j]),
        skip_space_chars(chars, i) < chars.len() ==> !is_white_space(
            chars[skip_space_chars(chars, i)],
        ),
    decreases chars.len() - i,
{
    if i < chars.len() && is_white_space(chars[i]) {
        lemma_skip_space_chars(chars, i + 1);
    }
}

/// A word holds no white space, and white space follows it.
proof fn lemma_word_end_chars(chars: Seq<char>, i: int)
    requires
        0 <= i <= chars.len(),
    ensures
        i <= word_end_chars(chars, i) <= chars.len(),
        forall|j: int| i <= j < word_end_chars(chars, i) ==> !is_white_space(#[trigger] chars[j]),
        word_end_chars(chars, i) < chars.len() ==> is_white_space(chars[word_end_chars(chars, i)]),
    decreases chars.len() - i,
{
    if i < chars.len() && !is_white_space(chars[i]) {
        lemma_word_end_chars(chars, i + 1);
    }
}

/// Number of words at or after character `i`, found as the bytes are
/// scanned: skip white space, then pass a word.
spec fn scanned_words(chars: Seq<char>, i: int) -> nat
    decreases chars.len() - i,
{
    let start = skip_space_chars(chars, i);
    if i < 0 || start >= chars.len() {
        0
    } else {
        proof {
            lemma_skip_space_chars(chars, i);
            lemma_word_end_chars(chars, start + 1);
        }
        1 + scanned_words(chars, word_end_chars(chars, start + 1))
    }
}

/// Skipping white space in the bytes is skipping white-space characters.
proof fn lemma_skip_spaces_by_chars(chars: Seq<char>, i: int)
    requires
        0 <= i <= chars.len(),
    ensures
        skip_spaces(encode_utf8(chars), offset(chars, i)) == offset(
            chars,
            skip_space_chars(chars, i),
        ),
    decreases chars.len() - i,
{
    let b = encode_utf8(chars);
    if i == chars.len() {
        lemma_offset_ends(chars);
    } else {
        lemma_space_width_at_char(chars, i);
        if is_white_space(chars[i]) {
            lemma_skip_spaces_by_chars(chars, i + 1);
        }
    }
}

/// Within a character that is no white space, the word goes on to the next
/// character.
proof fn lemma_word_end_within_char(chars: Seq<char>, i: int, p: int)
    requires
        0 <= i < chars.len(),
        !is_white_space(chars[i]),
        offset(chars, i) <= p <= offset(chars, i + 1),
    ensures
        word_end(encode_utf8(chars), p) == word_end(encode_utf8(chars), offset(chars, i + 1)),
    decreases offset(chars, i + 1) - p,
{
    lemma_space_width_at_char(chars, i);
    if p < offset(chars, i + 1) {
        assert(space_width(encode_utf8(chars), p) == 0);
        lemma_word_end_within_char(chars, i, p + 1);
    }
}

/// The end of a word in the bytes is the end of the word in characters.
proof fn lemma_word_end_by_chars(chars: Seq<char>, i: int)
    requires
        0 <= i <= chars.len(),
    ensures
        word_end(encode_utf8(chars), offset(chars, i)) == offset(chars, word_end_chars(chars, i)),
    decreases chars.len() - i,
{
    if i == chars.len() {
        lemma_offset_ends(chars);
    } else {
        lemma_space_width_at_char(chars, i);
        if !is_white_space(chars[i]) {
            lemma_word_end_within_char(chars, i, offset(chars, i));
            lemma_word_end_by_chars(chars, i + 1);
        }
    }
}

/// Counting words in the bytes is counting them in characters.
proof fn lemma_words_by_chars(chars: Seq<char>, i: int)
    requires
        0 <= i <= chars.len(),
    ensures
        words_from(encode_utf8(chars), offset(chars, i)) == scanned_words(chars, i),
    decreases chars.len() - i,
{
    let b = encode_utf8(chars);
    let start = skip_space_chars(chars, i);
    lemma_skip_space_chars(chars, i);
    lemma_skip_spaces_by_chars(chars, i);
    lemma_offset_ends(chars);
    if start < chars.len() {
        lemma_space_width_at_char(chars, start);
        lemma_offsets(chars, i);
        lemma_word_end_within_char(chars, start, offset(chars, start) + 1);
        lemma_word_end_by_chars(chars, start + 1);
        lemma_word_end_chars(chars, start + 1);
        lemma_words_by_chars(chars, word_end_chars(chars, start + 1));
    }
}

/// No word starts among white-space characters.
proof fn lemma_no_start_in_spaces(chars: Seq<char>, i: int, to: int)
    requires
        0 <= i <= to <= chars.len(),
        forall|j: int| i <= j < to ==> is_white_space(#[trigger] chars[j]),
    ensures
        word_starts(chars, i) == word_starts(chars, to),
    decreases to - i,
{
    if i < to {
        assert(is_white_space(chars[i]));
        lemma_no_start_in_spaces(chars, i + 1, to);
    }
}

/// No word starts within a word.
proof fn lemma_no_start_in_word(chars: Seq<char>, i: int, to: int)
    requires
        1 <= i <= to <= chars.len(),
        forall|j: int| i - 1 <= j < to ==> !is_white_space(#[trigger] chars[j]),
    ensures
        word_starts(chars, i) == word_starts(chars, to),
    decreases to - i,
{
    if i < to {
        assert(!is_white_space(chars[i - 1]));
        lemma_no_start_in_word(chars, i + 1, to);
    }
}

/// From a place that is not within a word, the words found by scanning are
/// the words that start.
proof fn lemma_scanned_words_start(chars: Seq<char>, i: int)
    requires
        0 <= i <= chars.len(),
        i == 0 || i == chars.len() || is_white_space(chars[i - 1]) || is_white_space(chars[i]),
    ensures
        scanned_words(chars, i) == word_starts(chars, i),
    decreases chars.len() - i,
{
    let start = skip_space_chars(chars, i);
    lemma_skip_space_chars(chars, i);
    lemma_no_start_in_spaces(chars, i, start);
    if start < chars.len() {
        if start > i {
            assert(is_white_space(chars[start - 1]));
        }
        assert(starts_word(chars, start));
        let end = word_end_chars(chars, start + 1);
        lemma_word_end_chars(chars, start + 1);
        assert forall|j: int| start <= j < end implies !is_white_space(#[trigger] chars[j]) by {}
        lemma_no_start_in_word(chars, start + 1, end);
        lemma_scanned_words_start(chars, end);
    }
}

/// Size of a text: its number of words when `count_tokens` is set, the
/// number of bytes of its encoding otherwise.
pub open spec fn size_of_text(chars: Seq<char>, count_tokens: bool) -> nat {
    if count_tokens {
        word_count(chars)
    } else {
        encode_utf8(chars).len()
    }
}

/// Tokens are words. The number of tokens of an encoded text is the number
/// of words of the text: of its runs of characters that are no white space.
pub proof fn law_tokens_are_words(chars: Seq<char>)
    ensures
        token_count(encode_utf8(chars)) == word_count(chars),
{
    lemma_offset_ends(chars);
    lemma_words_by_chars(chars, 0);
    lemma_scanned_words_start(chars, 0);
}

/// Last position at or before `end`, and not before `low`, that does not
/// stand behind a white-space character.
pub open spec fn skip_space_chars_back(chars: Seq<char>, low: int, end: int) -> int
    decreases end,
{
    if low < end <= chars.len() && 0 < end && is_white_space(chars[end - 1]) {
        skip_space_chars_back(chars, low, end - 1)
    } else {
        end
    }
}

/// The text without the white-space characters at its start and at its end.
pub open spec fn trimmed_chars(chars: Seq<char>) -> Seq<char> {
    let start = skip_space_chars(chars, 0);
    chars.subrange(start, skip_space_chars_back(chars, start, chars.len() as int))
}

/// Characters begin in the order in which they stand.
proof fn lemma_offsets_grow(chars: Seq<char>, i: int, j: int)
    requires
        0 <= i <= j <= chars.len(),
    ensures
        0 <= offset(chars, i) <= offset(chars, j) <= encode_utf8(chars).len(),
        i < j ==> offset(chars, i) < offset(chars, j),
    decreases j - i,
{
    assert(chars =~= chars.take(j) + chars.skip(j));
    lemma_encode_concat(chars.take(j), chars.skip(j));
    if i < j {
        lemma_offsets(chars, j - 1);
        lemma_encoded_char(chars[j - 1]);
        lemma_offsets_grow(chars, i, j - 1);
    }
}

/// Behind the bytes of a character: white space of the width of the
/// character ends behind a white-space character, and none ends behind
/// another character.
proof fn lemma_space_width_before_char(chars: Seq<char>, i: int)
    requires
        0 <= i < chars.len(),
    ensures
        ({
            let b = encode_utf8(chars);
            let at = offset(chars, i);
            let next = offset(chars, i + 1);
            &&& 0 <= at < next <= b.len()
            &&& is_white_space(chars[i]) ==> space_width_before(b, next) == next - at
            &&& !is_white_space(chars[i]) ==> space_width_before(b, next) == 0
        }),
{
    let b = encode_utf8(chars);
    let e = encode_scalar(chars[i] as u32);
    let at = offset(chars, i);
    lemma_offsets(chars, i);
    lemma_encoded_char(chars[i]);
    assert forall|k: int| 0 <= k < e.len() implies b[at + k] == e[k] by {
        assert(b[offset(chars, i) + k] == e[k]);
    }
    assert(b[at] == e[0]);
    if e.len() >= 2 {
        assert(b[at + 1] == e[1]);
        assert(starts_no_space(e[1]));
    }
    if e.len() >= 3 {
        assert(b[at + 2] == e[2]);
        assert(starts_no_space(e[2]));
    }
    if e.len() >= 4 {
        assert(b[at + 3] == e[3]);
        assert(starts_no_space(e[3]));
    }
}

/// Dropping white space at the end of the bytes is dropping white-space
/// characters at the end.
proof fn lemma_skip_back_by_chars(chars: Seq<char>, low: int, end: int)
    requires
        0 <= low <= end <= chars.len(),
        low == 0 || is_white_space(chars[low - 1]),
    ensures
        skip_spaces_back(encode_utf8(chars), offset(chars, low), offset(chars, end)) == offset(
            chars,
            skip_space_chars_back(chars, low, end),
        ),
    decreases end,
{
    let b = encode_utf8(chars);
    lemma_offset_ends(chars);
    if end > low {
        lemma_space_width_before_char(chars, end - 1);
        lemma_offsets_grow(chars, low, end - 1);
        if is_white_space(chars[end - 1]) {
            lemma_skip_back_by_chars(chars, low, end - 1);
        }
    } else if low > 0 {
        lemma_space_width_before_char(chars, low - 1);
    }
}

/// The bytes between two characters are the encoding of the characters
/// between them.
proof fn lemma_encoded_subrange(chars: Seq<char>, i: int, j: int)
    requires
        0 <= i <= j <= chars.len(),
    ensures
        encode_utf8(chars).subrange(offset(chars, i), offset(chars, j)) == encode_utf8(
            chars.subrange(i, j),
        ),
{
    lemma_offsets_grow(chars, i, j);
    assert(chars.take(j) =~= chars.take(i) + chars.subrange(i, j));
    assert(chars =~= chars.take(j) + chars.skip(j));
    lemma_encode_concat(chars.take(i), chars.subrange(i, j));
    lemma_encode_concat(chars.take(j), chars.skip(j));
    assert(encode_utf8(chars).subrange(offset(chars, i), offset(chars, j)) =~= encode_utf8(
        chars.subrange(i, j),
    ));
}

/// Trimming is by characters. The encoded text without the white space
/// around it is the encoding of the text without the white-space characters
/// at its start and at its end.
pub proof fn law_trim_by_chars(chars: Seq<char>)
    ensures
        trimmed(encode_utf8(chars)) == encode_utf8(trimmed_chars(chars)),
{
    let start = skip_space_chars(chars, 0);
    lemma_skip_space_chars(chars, 0);
    lemma_skip_spaces_by_chars(chars, 0);
    lemma_offset_ends(chars);
    if start > 0 {
        assert(is_white_space(chars[start - 1]));
    }
    lemma_skip_back_by_chars(chars, start, chars.len() as int);
    lemma_skip_space_chars_back_bounds(chars, start, chars.len() as int);
    lemma_encoded_subrange(
        chars,
        start,
        skip_space_chars_back(chars, start, chars.len() as int),
    );
}

/// Dropping characters at the end stays between the bounds.
proof fn lemma_skip_space_chars_back_bounds(chars: Seq<char>, low: int, end: int)
    requires
        0 <= low <= end <= chars.len(),
    ensures
        low <= skip_space_chars_back(chars, low, end) <= end,
    decreases end,
{
    if low < end && is_white_space(chars[end - 1]) {
        lemma_skip_space_chars_back_bounds(chars, low, end - 1);
    }
}

} // verus!
