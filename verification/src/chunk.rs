//! Chunks: size-bounded batches of (path, content) records, and the text they
//! are written as.

use crate::text::{
    append_bytes, decimal_digits, is_ascii_space, is_three_byte_space, is_two_byte_space,
    lemma_skip_spaces_bounds, lemma_word_end_bounds, push_decimal_digits, skip_spaces,
    skip_spaces_at, space_width, text_size, token_count, word_end, word_end_at, words_from,
};
use vstd::prelude::*;
use vstd::slice::{slice_subrange, slice_to_vec};
use vstd::string::StringExecFns;
use vstd::utf8::encode_utf8;

verus! {

/// One file as it is written into a chunk: the path shown in its marker line
/// and its content.
#[derive(Debug)]
pub struct Record {
    pub path: String,
    pub content: Vec<u8>,
}

/// A record as plain values.
pub struct RecordView {
    pub path: Seq<char>,
    pub content: Seq<u8>,
}

impl View for Record {
    type V = RecordView;

    open spec fn view(&self) -> RecordView {
        RecordView { path: self.path@, content: self.content@ }
    }
}

/// A completed chunk: its records in order, and the index under which it is
/// written.
#[derive(Debug)]
pub struct Chunk {
    pub index: usize,
    pub records: Vec<Record>,
}

/// A chunk as plain values.
pub struct ChunkView {
    pub index: nat,
    pub records: Seq<RecordView>,
}

/// The records of a list as plain values.
pub open spec fn records_view(rs: Seq<Record>) -> Seq<RecordView> {
    Seq::new(rs.len(), |i: int| rs[i]@)
}

impl View for Chunk {
    type V = ChunkView;

    open spec fn view(&self) -> ChunkView {
        ChunkView { index: self.index as nat, records: records_view(self.records@) }
    }
}

/// The chunks of a list as plain values.
pub open spec fn chunks_view(cs: Seq<Chunk>) -> Seq<ChunkView> {
    Seq::new(cs.len(), |i: int| cs[i]@)
}

/// The bytes `>>>> ` that open a record.
pub open spec fn marker() -> Seq<u8> {
    seq![0x3Eu8, 0x3Eu8, 0x3Eu8, 0x3Eu8, 0x20u8]
}

/// A record as written: the marker, the path, a line feed, the content as it
/// is, and an empty line.
pub open spec fn render_record(r: RecordView) -> Seq<u8> {
    marker() + encode_utf8(r.path) + seq![0x0Au8] + r.content + seq![0x0Au8, 0x0Au8]
}

/// Records written one after the other, with nothing between them.
pub open spec fn render_records(rs: Seq<RecordView>) -> Seq<u8>
    decreases rs.len(),
{
    if rs.len() == 0 {
        Seq::empty()
    } else {
        render_records(rs.drop_last()) + render_record(rs.last())
    }
}

/// Chunks written one after the other.
pub open spec fn render_chunks(cs: Seq<ChunkView>) -> Seq<u8>
    decreases cs.len(),
{
    if cs.len() == 0 {
        Seq::empty()
    } else {
        render_chunks(cs.drop_last()) + render_records(cs.last().records)
    }
}

/// Sum of the sizes of the contents of `rs`.
pub open spec fn records_size(rs: Seq<RecordView>, count_tokens: bool) -> nat
    decreases rs.len(),
{
    if rs.len() == 0 {
        0
    } else {
        records_size(rs.drop_last(), count_tokens) + text_size(rs.last().content, count_tokens)
    }
}

/// Writes the records of a chunk as bytes.
pub fn render_chunk(records: &Vec<Record>) -> (out: Vec<u8>)
    ensures
        out@ == render_records(records_view(records@)),
{
    let mut out: Vec<u8> = Vec::new();
    let ghost views = records_view(records@);
    let mut i: usize = 0;
    while i < records.len()
        invariant
            i <= records.len(),
            views == records_view(records@),
            out@ == render_records(views.take(i as int)),
        decreases records.len() - i,
    {
        let ghost before = out@;
        let record = &records[i];
        out.push(0x3E);
        out.push(0x3E);
        out.push(0x3E);
        out.push(0x3E);
        out.push(0x20);
        append_bytes(&mut out, record.path.as_str().as_bytes());
        out.push(0x0A);
        append_bytes(&mut out, record.content.as_slice());
        out.push(0x0A);
        out.push(0x0A);
        proof {
            assert(out@ =~= before + render_record(record@));
            assert(views.take(i + 1).drop_last() =~= views.take(i as int));
            assert(views.take(i + 1).last() == record@);
        }
        i = i + 1;
    }
    assert(views.take(i as int) =~= views);
    out
}

/// Bytes taken by the first `m` words at or after `i`, each counted with one
/// byte for a separator.
pub open spec fn words_span(s: Seq<u8>, i: int, m: nat) -> nat
    decreases m,
{
    let start = skip_spaces(s, i);
    if m == 0 || i < 0 || start >= s.len() {
        0
    } else {
        let end = word_end(s, start + 1);
        ((end - start + 1) + words_span(s, end, (m - 1) as nat)) as nat
    }
}

/// Number of bytes that the next part of an oversized text takes from
/// position `start`.
///
/// By bytes, a part takes up to `max` bytes. By tokens, it takes as many bytes
/// as the first `max` words have, one separator counted with each; where no
/// word is left, up to `max` bytes. It never takes more than what is left.
pub open spec fn cut_len(s: Seq<u8>, start: int, max: nat, count_tokens: bool) -> int {
    let left = s.len() - start;
    let span = words_span(s, start, max);
    let wanted = if count_tokens && span > 0 {
        span
    } else {
        max
    };
    if wanted <= left {
        wanted as int
    } else {
        left
    }
}

/// Whether splitting a text comes to an end. With a maximum of 0 a part
/// takes nothing, so that only the white space dropped behind it brings the
/// splitting on: it ends where the text is white space alone.
pub open spec fn can_split(s: Seq<u8>, max: nat) -> bool {
    max > 0 || skip_spaces(s, 0) >= s.len()
}

/// The parts of an oversized text, from position `start` on. After each part
/// the white space that follows it is dropped. With a maximum of 0 there is
/// one part, which is empty.
pub open spec fn parts_from(s: Seq<u8>, start: int, max: nat, count_tokens: bool) -> Seq<Seq<u8>>
    decreases s.len() - start,
{
    if start < 0 || start >= s.len() {
        Seq::empty()
    } else if max == 0 {
        seq![Seq::empty()]
    } else {
        let cut = cut_len(s, start, max, count_tokens);
        proof {
            lemma_cut_len_bounds(s, start, max, count_tokens);
            lemma_skip_spaces_bounds(s, start + cut);
        }
        seq![s.subrange(start, start + cut)] + parts_from(
            s,
            skip_spaces(s, start + cut),
            max,
            count_tokens,
        )
    }
}

/// The parts into which a text that is larger than `max` is split.
pub open spec fn split_parts(s: Seq<u8>, max: nat, count_tokens: bool) -> Seq<Seq<u8>> {
    parts_from(s, 0, max, count_tokens)
}

/// A part takes at least one byte and no more than is left.
pub proof fn lemma_cut_len_bounds(s: Seq<u8>, start: int, max: nat, count_tokens: bool)
    requires
        0 <= start < s.len(),
        max > 0,
    ensures
        1 <= cut_len(s, start, max, count_tokens) <= s.len() - start,
        !count_tokens ==> cut_len(s, start, max, count_tokens) <= max,
{
}

/// White space that starts in a text starts in a prefix of the text too,
/// unless the prefix ends within it.
proof fn lemma_prefix_space_width(s: Seq<u8>, c: int, p: int)
    requires
        0 <= c <= s.len(),
    ensures
        space_width(s.take(c), p) == if p + space_width(s, p) <= c {
            space_width(s, p)
        } else {
            0
        },
{
}

/// Whether a byte is one of the later bytes of an encoded character.
spec fn is_tail_byte(b: u8) -> bool {
    0x80 <= b && b <= 0xBF
}

/// The later bytes of encoded white space are tail bytes.
proof fn lemma_tail_bytes(s: Seq<u8>, p: int, q: int)
    requires
        p < q < p + space_width(s, p),
    ensures
        0 <= q < s.len(),
        is_tail_byte(s[q]),
{
}

/// No white space starts with a tail byte.
proof fn lemma_no_space_at_tail(u: Seq<u8>, q: int)
    requires
        0 <= q < u.len(),
        is_tail_byte(u[q]),
    ensures
        space_width(u, q) == 0,
{
}

/// In a prefix that ends before the white space does, white space is skipped
/// as in the text.
proof fn lemma_skip_spaces_prefix(s: Seq<u8>, c: int, i: int)
    requires
        0 <= i <= s.len(),
        skip_spaces(s, i) <= c <= s.len(),
    ensures
        skip_spaces(s.take(c), i) == skip_spaces(s, i),
    decreases s.len() - i,
{
    lemma_skip_spaces_bounds(s, i);
    lemma_prefix_space_width(s, c, i);
    let w = space_width(s, i);
    if w > 0 {
        lemma_skip_spaces_bounds(s, i + w);
        lemma_skip_spaces_prefix(s, c, i + w);
    }
}

/// A prefix of white space holds at most one word: the bytes of a
/// white-space character that the prefix cuts short.
proof fn lemma_truncated_spaces(s: Seq<u8>, i: int, c: int)
    requires
        0 <= i <= c <= s.len(),
        c <= skip_spaces(s, i),
    ensures
        words_from(s.take(c), i) <= 1,
    decreases c - i,
{
    let t = s.take(c);
    lemma_prefix_space_width(s, c, i);
    if i < c {
        let w = space_width(s, i);
        if i + w <= c {
            lemma_truncated_spaces(s, i + w, c);
        } else {
            if i + 1 < c {
                lemma_tail_bytes(s, i, i + 1);
                lemma_no_space_at_tail(t, i + 1);
                assert(word_end(t, i + 2) == c);
            }
            assert(word_end(t, i + 1) == c);
            assert(words_from(t, c) == 0);
        }
    }
}

/// Where a word ends in a prefix of a text: where it ends in the text, if the
/// white space behind it lies within the prefix, and else at the end of the
/// prefix.
proof fn lemma_word_end_prefix(s: Seq<u8>, c: int, p: int)
    requires
        0 <= p <= c <= s.len(),
    ensures
        word_end(s.take(c), p) == if word_end(s, p) < c && word_end(s, p) + space_width(
            s,
            word_end(s, p),
        ) <= c {
            word_end(s, p)
        } else {
            c
        },
    decreases c - p,
{
    let t = s.take(c);
    lemma_prefix_space_width(s, c, p);
    lemma_word_end_bounds(s, p);
    if p < c {
        let w = space_width(s, p);
        if w > 0 {
            if p + w > c {
                if p + 1 < c {
                    lemma_tail_bytes(s, p, p + 1);
                    lemma_no_space_at_tail(t, p + 1);
                    assert(word_end(t, p + 2) == c);
                }
                assert(word_end(t, p + 1) == c);
            }
        } else {
            lemma_word_end_prefix(s, c, p + 1);
        }
    }
}

/// A prefix that ends no later than the span of the first `m` words holds at
/// most `m` words.
proof fn lemma_truncated_words(s: Seq<u8>, a: int, m: nat, c: int)
    requires
        0 <= a <= c <= s.len(),
        space_width(s, a) == 0,
        c <= a + words_span(s, a, m),
    ensures
        words_from(s.take(c), a) <= m,
    decreases m,
{
    let t = s.take(c);
    lemma_prefix_space_width(s, c, a);
    if a < c {
        let end = word_end(s, a + 1);
        lemma_word_end_bounds(s, a + 1);
        lemma_word_end_prefix(s, c, a + 1);
        assert(skip_spaces(t, a) == a);
        assert(words_from(t, a) == 1 + words_from(t, word_end(t, a + 1)));
        if end < c && end + space_width(s, end) <= c {
            let rest = words_span(s, end, (m - 1) as nat);
            let next = skip_spaces(s, end);
            lemma_skip_spaces_bounds(s, end);
            lemma_skip_spaces_bounds(s, end + space_width(s, end));
            lemma_prefix_space_width(s, c, end);
            if rest == 0 {
                assert(c == end + 1);
                assert(skip_spaces(t, end + 1) == end + 1);
                assert(skip_spaces(t, end) == end + 1);
                assert(words_from(t, end) == 0);
            } else if c <= next {
                lemma_truncated_spaces(s, end, c);
            } else {
                lemma_skip_spaces_prefix(s, c, end);
                lemma_prefix_space_width(s, c, next);
                assert(skip_spaces(t, next) == next);
                assert(words_from(t, end) == words_from(t, next));
                assert(words_span(s, next, (m - 1) as nat) == rest);
                lemma_truncated_words(s, next, (m - 1) as nat, c);
            }
        } else {
            assert(words_from(t, c) == 0);
        }
    }
}

/// White space starts in what is left of a text where it starts in the text.
proof fn lemma_skip_space_width(u: Seq<u8>, k: int, i: int)
    requires
        0 <= k <= u.len(),
        0 <= i,
    ensures
        space_width(u.skip(k), i) == space_width(u, k + i),
{
}

/// White space is skipped in what is left of a text as in the text.
proof fn lemma_skip_skip_spaces(u: Seq<u8>, k: int, i: int)
    requires
        0 <= k <= u.len(),
        0 <= i,
    ensures
        skip_spaces(u.skip(k), i) + k == skip_spaces(u, k + i),
    decreases u.len() - k - i,
{
    lemma_skip_space_width(u, k, i);
    let w = space_width(u, k + i);
    if w > 0 {
        lemma_skip_skip_spaces(u, k, i + w);
    }
}

/// A word ends in what is left of a text as in the text.
proof fn lemma_skip_word_end(u: Seq<u8>, k: int, i: int)
    requires
        0 <= k <= u.len(),
        0 <= i,
    ensures
        word_end(u.skip(k), i) + k == word_end(u, k + i),
    decreases u.len() - k - i,
{
    lemma_skip_space_width(u, k, i);
    if k + i < u.len() && space_width(u, k + i) == 0 {
        lemma_skip_word_end(u, k, i + 1);
    }
}

/// What is left of a text holds the words of the text from there on.
proof fn lemma_skip_words_from(u: Seq<u8>, k: int, i: int)
    requires
        0 <= k <= u.len(),
        0 <= i,
    ensures
        words_from(u.skip(k), i) == words_from(u, k + i),
    decreases u.len() - k - i,
{
    let v = u.skip(k);
    lemma_skip_skip_spaces(u, k, i);
    let start = skip_spaces(v, i);
    if i <= v.len() {
        lemma_skip_spaces_bounds(v, i);
    }
    if start < v.len() {
        lemma_skip_word_end(u, k, start + 1);
        lemma_word_end_bounds(v, start + 1);
        lemma_skip_words_from(u, k, word_end(v, start + 1));
    }
}

/// By tokens, the part that starts at `start` holds at most `max` words.
proof fn lemma_part_tokens(s: Seq<u8>, start: int, max: nat)
    requires
        0 <= start < s.len(),
        max > 0,
    ensures
        token_count(s.subrange(start, start + cut_len(s, start, max, true))) <= max,
{
    let c = start + cut_len(s, start, max, true);
    let t = s.take(c);
    let first = skip_spaces(s, start);
    lemma_cut_len_bounds(s, start, max, true);
    lemma_skip_spaces_bounds(s, start);
    assert(s.subrange(start, c) =~= t.skip(start));
    lemma_skip_words_from(t, start, 0);
    if c <= first {
        lemma_truncated_spaces(s, start, c);
    } else {
        lemma_word_end_bounds(s, first + 1);
        assert(words_span(s, start, max) == words_span(s, first, max));
        lemma_skip_spaces_prefix(s, c, start);
        lemma_prefix_space_width(s, c, first);
        assert(skip_spaces(t, first) == first);
        assert(words_from(t, start) == words_from(t, first));
        lemma_truncated_words(s, first, max, c);
    }
}

/// Parts are within the maximum. No part is empty, and none is larger than
/// the maximum: by bytes it has at most `max` bytes, by tokens at most `max`
/// words.
pub proof fn law_part_sizes(s: Seq<u8>, start: int, max: nat, count_tokens: bool, p: int)
    requires
        max > 0,
        0 <= start,
        0 <= p < parts_from(s, start, max, count_tokens).len(),
    ensures
        1 <= parts_from(s, start, max, count_tokens)[p].len(),
        !count_tokens ==> parts_from(s, start, max, count_tokens)[p].len() <= max,
        text_size(parts_from(s, start, max, count_tokens)[p], count_tokens) <= max,
    decreases s.len() - start,
{
    lemma_cut_len_bounds(s, start, max, count_tokens);
    let cut = cut_len(s, start, max, count_tokens);
    if p > 0 {
        lemma_skip_spaces_bounds(s, start + cut);
        law_part_sizes(s, skip_spaces(s, start + cut), max, count_tokens, p - 1);
    } else if count_tokens {
        lemma_part_tokens(s, start, max);
    }
}

/// The path shown for part `p` of a split file.
pub open spec fn part_label(path: Seq<char>, p: nat) -> Seq<char> {
    path + ":part"@ + decimal_digits(p)
}

/// The chunks that carry the parts of a split file: one part each, indexed by
/// the number of the part.
pub open spec fn part_chunks(path: Seq<char>, parts: Seq<Seq<u8>>) -> Seq<ChunkView> {
    Seq::new(
        parts.len(),
        |p: int|
            ChunkView {
                index: p as nat,
                records: seq![RecordView { path: part_label(path, p as nat), content: parts[p] }],
            },
    )
}

/// `words_span`, cut off at `cap`.
fn words_span_capped(s: &[u8], from: usize, max: usize, cap: usize) -> (r: usize)
    requires
        from <= s.len(),
    ensures
        r == if words_span(s@, from as int, max as nat) <= cap {
            words_span(s@, from as int, max as nat)
        } else {
            cap as nat
        },
{
    let ghost goal = words_span(s@, from as int, max as nat);
    let mut total: usize = 0;
    let mut i: usize = from;
    let mut k: usize = 0;
    while k < max
        invariant
            k <= max,
            i <= s.len(),
            total <= cap,
            goal == words_span(s@, from as int, max as nat),
            total + words_span(s@, i as int, (max - k) as nat) == goal,
        decreases max - k,
    {
        let start: usize = skip_spaces_at(s, i);
        if start >= s.len() {
            return total;
        }
        proof {
            lemma_word_end_bounds(s@, start + 1);
        }
        let end: usize = word_end_at(s, start + 1);
        let width: usize = end - start;
        if cap - total <= width {
            return cap;
        }
        total = total + width + 1;
        i = end;
        k = k + 1;
    }
    total
}

/// Number of bytes of the part that starts at `start`.
fn next_cut(s: &[u8], start: usize, max_size: usize, count_tokens: bool) -> (cut: usize)
    requires
        start < s.len(),
        max_size > 0,
    ensures
        cut == cut_len(s@, start as int, max_size as nat, count_tokens),
        1 <= cut <= s.len() - start,
{
    let left: usize = s.len() - start;
    if count_tokens {
        let span: usize = words_span_capped(s, start, max_size, left);
        if span > 0 {
            return span;
        }
    }
    if max_size <= left {
        max_size
    } else {
        left
    }
}

/// Whether splitting `content` into parts of at most `max_size` comes to an
/// end: it does but for a maximum of 0 and a content that is not white space
/// alone.
pub fn can_be_split(content: &[u8], max_size: usize) -> (b: bool)
    ensures
        b == can_split(content@, max_size as nat),
{
    max_size > 0 || skip_spaces_at(content, 0) >= content.len()
}

/// Splits a file that is larger than `max_size` into parts, each in a chunk
/// of its own that is labelled with the path and the number of the part.
pub fn split_file(path: &str, content: &[u8], max_size: usize, count_tokens: bool) -> (out: Vec<
    Chunk,
>)
    requires
        can_split(content@, max_size as nat),
    ensures
        chunks_view(out@) == part_chunks(
            path@,
            split_parts(content@, max_size as nat, count_tokens),
        ),
{
    let mut out: Vec<Chunk> = Vec::new();
    if max_size == 0 {
        if content.len() > 0 {
            let mut label: String = String::from_str(path);
            label.append(":part");
            push_decimal_digits(&mut label, 0);
            let mut records: Vec<Record> = Vec::new();
            records.push(Record { path: label, content: Vec::new() });
            let chunk = Chunk { index: 0, records };
            out.push(chunk);
            proof {
                let parts = split_parts(content@, 0, count_tokens);
                assert(parts =~= seq![Seq::<u8>::empty()]);
                assert(label@ =~= part_label(path@, 0));
                assert(chunk@.records =~= seq![
                    RecordView { path: part_label(path@, 0), content: parts[0] },
                ]);
                assert(chunks_view(out@) =~= part_chunks(path@, parts));
            }
        } else {
            assert(chunks_view(out@) =~= part_chunks(
                path@,
                split_parts(content@, 0, count_tokens),
            ));
        }
        return out;
    }
    let ghost mut done: Seq<Seq<u8>> = Seq::empty();
    let mut start: usize = 0;
    while start < content.len()
        invariant
            max_size > 0,
            start <= content.len(),
            out.len() == done.len(),
            out.len() <= start,
            done + parts_from(content@, start as int, max_size as nat, count_tokens) == split_parts(
                content@,
                max_size as nat,
                count_tokens,
            ),
            chunks_view(out@) == part_chunks(path@, done),
        decreases content.len() - start,
    {
        let cut: usize = next_cut(content, start, max_size, count_tokens);
        let part: Vec<u8> = slice_to_vec(slice_subrange(content, start, start + cut));
        let number: usize = out.len();
        let mut label: String = String::from_str(path);
        label.append(":part");
        push_decimal_digits(&mut label, number as u128);
        let mut records: Vec<Record> = Vec::new();
        records.push(Record { path: label, content: part });
        let chunk = Chunk { index: number, records };
        proof {
            let rest = parts_from(
                content@,
                skip_spaces(content@, start + cut),
                max_size as nat,
                count_tokens,
            );
            assert(done.push(part@) + rest =~= done + (seq![part@] + rest));
            assert(chunk@.records =~= seq![
                RecordView { path: part_label(path@, number as nat), content: part@ },
            ]);
            assert(label@ =~= part_label(path@, number as nat));
            let grown = chunks_view(out@.push(chunk));
            let wanted = part_chunks(path@, done.push(part@));
            assert forall|j: int| 0 <= j < grown.len() implies grown[j] == wanted[j] by {
                if j < out.len() {
                    assert(grown[j] == chunks_view(out@)[j]);
                    assert(part_chunks(path@, done)[j] == wanted[j]);
                }
            }
            assert(grown =~= wanted);
            done = done.push(part@);
        }
        out.push(chunk);
        start = skip_spaces_at(content, start + cut);
    }
    assert(done =~= split_parts(content@, max_size as nat, count_tokens));
    out
}

} // verus!
