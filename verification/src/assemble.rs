//! Chunk assembly: files come in order of ascending priority and leave as
//! chunks whose accumulated size stays within a maximum.

use crate::chunk::{
    can_be_split, can_split, chunks_view, law_part_sizes, part_chunks, part_label, records_size, records_view,
    render_chunks, render_record, render_records, split_file, split_parts, Chunk, ChunkView,
    Record, RecordView,
};
use crate::text::{measure, text_size};
use vstd::prelude::*;
use vstd::slice::slice_to_vec;
use vstd::string::StringExecFns;

verus! {

/// What the assembler holds between two files.
pub struct AsmState {
    /// The records of the chunk that is being filled.
    pub current: Seq<RecordView>,
    /// The accumulated size of `current`.
    pub size: nat,
    /// The index that the chunk being filled will be written under.
    pub next_index: nat,
    /// Set once an oversized file was met: nothing is taken after it.
    pub stopped: bool,
}

/// The state before the first file.
pub open spec fn initial_state() -> AsmState {
    AsmState { current: Seq::empty(), size: 0, next_index: 0, stopped: false }
}

/// A file is oversized when it alone is larger than the maximum.
pub open spec fn is_oversized(f: RecordView, max: nat, count_tokens: bool) -> bool {
    text_size(f.content, count_tokens) > max
}

/// The chunk being filled is closed before `f` when it holds a file already
/// and `f` would take it over the maximum.
pub open spec fn must_flush(st: AsmState, f: RecordView, max: nat, count_tokens: bool) -> bool {
    st.current.len() > 0 && st.size + text_size(f.content, count_tokens) > max
}

/// The state after file `f`.
pub open spec fn next_state(st: AsmState, f: RecordView, max: nat, count_tokens: bool) -> AsmState {
    if st.stopped {
        st
    } else if is_oversized(f, max, count_tokens) {
        AsmState { stopped: true, ..st }
    } else if must_flush(st, f, max, count_tokens) {
        AsmState {
            current: seq![f],
            size: text_size(f.content, count_tokens),
            next_index: st.next_index + 1,
            stopped: false,
        }
    } else {
        AsmState {
            current: st.current.push(f),
            size: st.size + text_size(f.content, count_tokens),
            ..st
        }
    }
}

/// The chunks that file `f` causes to be written.
///
/// An oversized file is written at once, as its parts, and stops the
/// assembly: the chunk that was being filled is not written. Any other file
/// causes at most the chunk before it to be written.
pub open spec fn emitted(st: AsmState, f: RecordView, max: nat, count_tokens: bool) -> Seq<
    ChunkView,
> {
    if st.stopped {
        Seq::empty()
    } else if is_oversized(f, max, count_tokens) {
        part_chunks(f.path, split_parts(f.content, max, count_tokens))
    } else if must_flush(st, f, max, count_tokens) {
        seq![ChunkView { index: st.next_index, records: st.current }]
    } else {
        Seq::empty()
    }
}

/// The chunk written when the files have run out.
pub open spec fn trailing(st: AsmState) -> Seq<ChunkView> {
    if !st.stopped && st.current.len() > 0 {
        seq![ChunkView { index: st.next_index, records: st.current }]
    } else {
        Seq::empty()
    }
}

/// The state after all of `files`.
pub open spec fn state_after(files: Seq<RecordView>, max: nat, count_tokens: bool) -> AsmState
    decreases files.len(),
{
    if files.len() == 0 {
        initial_state()
    } else {
        next_state(
            state_after(files.drop_last(), max, count_tokens),
            files.last(),
            max,
            count_tokens,
        )
    }
}

/// The chunks written while `files` are taken, in the order of writing.
pub open spec fn emitted_after(files: Seq<RecordView>, max: nat, count_tokens: bool) -> Seq<
    ChunkView,
>
    decreases files.len(),
{
    if files.len() == 0 {
        Seq::empty()
    } else {
        emitted_after(files.drop_last(), max, count_tokens) + emitted(
            state_after(files.drop_last(), max, count_tokens),
            files.last(),
            max,
            count_tokens,
        )
    }
}

/// All chunks written for `files`, in the order of writing.
pub open spec fn assembled(files: Seq<RecordView>, max: nat, count_tokens: bool) -> Seq<ChunkView> {
    emitted_after(files, max, count_tokens) + trailing(state_after(files, max, count_tokens))
}

/// Whether an oversized file ended the assembly of `files` early.
pub open spec fn is_truncated(files: Seq<RecordView>, max: nat, count_tokens: bool) -> bool {
    state_after(files, max, count_tokens).stopped
}

/// Whether file `f` brings the assembly to a halt: it is oversized, it is
/// the first such file, and splitting it would never come to an end, which
/// is so for a maximum of 0 and a file that is not white space alone.
pub open spec fn is_stuck_on(st: AsmState, f: RecordView, max: nat, count_tokens: bool) -> bool {
    !st.stopped && is_oversized(f, max, count_tokens) && !can_split(f.content, max)
}

/// Whether one of `files` brings the assembly to a halt.
pub open spec fn is_stuck(files: Seq<RecordView>, max: nat, count_tokens: bool) -> bool {
    exists|i: int|
        0 <= i < files.len() && is_stuck_on(
            state_after(files.take(i), max, count_tokens),
            #[trigger] files[i],
            max,
            count_tokens,
        )
}

/// The assembler: takes files one by one and hands out the chunks to write.
#[derive(Debug)]
pub struct Assembler {
    max_size: usize,
    count_tokens: bool,
    current: Vec<Record>,
    current_size: usize,
    next_index: usize,
    stopped: bool,
}

impl Assembler {
    /// The maximum size of a chunk.
    pub closed spec fn max_size(&self) -> nat {
        self.max_size as nat
    }

    /// Whether sizes are counted in tokens.
    pub closed spec fn counts_tokens(&self) -> bool {
        self.count_tokens
    }

    /// What the assembler holds.
    pub closed spec fn state(&self) -> AsmState {
        AsmState {
            current: records_view(self.current@),
            size: self.current_size as nat,
            next_index: self.next_index as nat,
            stopped: self.stopped,
        }
    }

    /// The chunk being filled is within the maximum, and an empty chunk has
    /// size 0.
    pub closed spec fn wf(&self) -> bool {
        &&& self.current_size <= self.max_size
        &&& self.current@.len() == 0 ==> self.current_size == 0
    }

    /// An assembler that has taken no file.
    pub fn new(max_size: usize, count_tokens: bool) -> (a: Assembler)
        ensures
            a.wf(),
            a.max_size() == max_size,
            a.counts_tokens() == count_tokens,
            a.state() == initial_state(),
    {
        let a = Assembler {
            max_size,
            count_tokens,
            current: Vec::new(),
            current_size: 0,
            next_index: 0,
            stopped: false,
        };
        assert(a.state().current =~= initial_state().current);
        a
    }

    /// Whether an oversized file has ended the assembly.
    pub fn is_stopped(&self) -> (b: bool)
        ensures
            b == self.state().stopped,
    {
        self.stopped
    }

    /// Number of chunks closed so far, which is the index of the next.
    pub fn next_index(&self) -> (n: usize)
        ensures
            n == self.state().next_index,
    {
        self.next_index
    }

    /// Takes the next file, if it can be taken, and returns the chunks to
    /// write because of it. A file cannot be taken where it would bring the
    /// assembly to a halt, or where the number of chunks has reached the
    /// largest number there is; the assembler is then left as it was.
    pub fn try_add(&mut self, path: &str, content: &[u8]) -> (r: Option<Vec<Chunk>>)
        requires
            old(self).wf(),
        ensures
            final(self).wf(),
            final(self).max_size() == old(self).max_size(),
            final(self).counts_tokens() == old(self).counts_tokens(),
            r is Some <==> old(self).state().next_index < usize::MAX && !is_stuck_on(
                old(self).state(),
                RecordView { path: path@, content: content@ },
                old(self).max_size(),
                old(self).counts_tokens(),
            ),
            r is None ==> final(self).state() == old(self).state(),
            r matches Some(out) ==> final(self).state() == next_state(
                old(self).state(),
                RecordView { path: path@, content: content@ },
                old(self).max_size(),
                old(self).counts_tokens(),
            ) && chunks_view(out@) == emitted(
                old(self).state(),
                RecordView { path: path@, content: content@ },
                old(self).max_size(),
                old(self).counts_tokens(),
            ),
    {
        if self.next_index == usize::MAX {
            return None;
        }
        if !self.stopped && self.max_size == 0 && measure(content, self.count_tokens) > 0
            && !can_be_split(content, 0) {
            return None;
        }
        Some(self.add(path, content))
    }

    /// Takes the next file and returns the chunks to write because of it.
    ///
    /// The file must not be one that brings the assembly to a halt: with a
    /// maximum of 0, an oversized file that is not white space alone.
    pub fn add(&mut self, path: &str, content: &[u8]) -> (out: Vec<Chunk>)
        requires
            old(self).wf(),
            old(self).state().next_index < usize::MAX,
            !is_stuck_on(
                old(self).state(),
                RecordView { path: path@, content: content@ },
                old(self).max_size(),
                old(self).counts_tokens(),
            ),
        ensures
            final(self).wf(),
            final(self).max_size() == old(self).max_size(),
            final(self).counts_tokens() == old(self).counts_tokens(),
            final(self).state() == next_state(
                old(self).state(),
                RecordView { path: path@, content: content@ },
                old(self).max_size(),
                old(self).counts_tokens(),
            ),
            chunks_view(out@) == emitted(
                old(self).state(),
                RecordView { path: path@, content: content@ },
                old(self).max_size(),
                old(self).counts_tokens(),
            ),
    {
        let ghost f = RecordView { path: path@, content: content@ };
        let mut out: Vec<Chunk> = Vec::new();
        if self.stopped {
            assert(chunks_view(out@) =~= Seq::<ChunkView>::empty());
            return out;
        }
        let size: usize = measure(content, self.count_tokens);
        if size > self.max_size {
            self.stopped = true;
            return split_file(path, content, self.max_size, self.count_tokens);
        }
        if self.current.len() > 0 && size > self.max_size - self.current_size {
            let mut records: Vec<Record> = Vec::new();
            std::mem::swap(&mut self.current, &mut records);
            let chunk = Chunk { index: self.next_index, records };
            assert(chunks_view(out@.push(chunk)) =~= seq![
                ChunkView { index: old(self).state().next_index, records: old(self).state().current },
            ]);
            out.push(chunk);
            self.next_index = self.next_index + 1;
            self.current_size = 0;
        } else {
            assert(chunks_view(out@) =~= Seq::<ChunkView>::empty());
        }
        let ghost before = records_view(self.current@);
        let record = Record { path: String::from_str(path), content: slice_to_vec(content) };
        assert(record@ == f);
        self.current.push(record);
        self.current_size = self.current_size + size;
        assert(records_view(self.current@) =~= before.push(f));
        assert(before.len() == 0 ==> before.push(f) =~= seq![f]);
        out
    }

    /// Ends the assembly and returns the chunk that was being filled, unless
    /// it is empty or an oversized file has ended the assembly before.
    pub fn finish(self) -> (out: Vec<Chunk>)
        ensures
            chunks_view(out@) == trailing(self.state()),
    {
        let mut out: Vec<Chunk> = Vec::new();
        if !self.stopped && self.current.len() > 0 {
            let chunk = Chunk { index: self.next_index, records: self.current };
            assert(chunks_view(out@.push(chunk)) =~= trailing(self.state()));
            out.push(chunk);
        } else {
            assert(chunks_view(out@) =~= trailing(self.state()));
        }
        out
    }
}

/// The outcome of assembling a list of files.
#[derive(Debug)]
pub struct Assembly {
    /// The chunks to write, in the order of writing.
    pub chunks: Vec<Chunk>,
    /// Whether an oversized file ended the assembly early.
    pub truncated: bool,
}

/// Assembles `files`, taken in the order given, into chunks of at most
/// `max_size`; nothing where one of the files brings the assembly to a halt.
pub fn try_assemble(files: &Vec<Record>, max_size: usize, count_tokens: bool) -> (r: Option<
    Assembly,
>)
    ensures
        r is Some <==> !is_stuck(records_view(files@), max_size as nat, count_tokens),
        max_size > 0 ==> r is Some,
        r matches Some(a) ==> chunks_view(a.chunks@) == assembled(
            records_view(files@),
            max_size as nat,
            count_tokens,
        ) && a.truncated == is_truncated(records_view(files@), max_size as nat, count_tokens),
{
    let ghost views = records_view(files@);
    let mut assembler = Assembler::new(max_size, count_tokens);
    let mut chunks: Vec<Chunk> = Vec::new();
    assert(chunks_view(chunks@) =~= emitted_after(views.take(0), max_size as nat, count_tokens));
    let mut i: usize = 0;
    while i < files.len()
        invariant
            i <= files.len(),
            views == records_view(files@),
            forall|j: int|
                0 <= j < i ==> !is_stuck_on(
                    state_after(views.take(j), max_size as nat, count_tokens),
                    #[trigger] views[j],
                    max_size as nat,
                    count_tokens,
                ),
            assembler.wf(),
            assembler.max_size() == max_size,
            assembler.counts_tokens() == count_tokens,
            assembler.state().next_index <= i,
            assembler.state() == state_after(views.take(i as int), max_size as nat, count_tokens),
            chunks_view(chunks@) == emitted_after(
                views.take(i as int),
                max_size as nat,
                count_tokens,
            ),
        decreases files.len() - i,
    {
        let file = &files[i];
        let ghost before = chunks_view(chunks@);
        assert(views[i as int] == file@);
        match assembler.try_add(file.path.as_str(), file.content.as_slice()) {
            Some(taken) => {
                let mut written = taken;
                let ghost added = chunks_view(written@);
                chunks.append(&mut written);
                proof {
                    assert(views.take(i + 1).drop_last() =~= views.take(i as int));
                    assert(views.take(i + 1).last() == file@);
                    assert(chunks_view(chunks@) =~= before + added);
                }
            },
            None => {
                assert(is_stuck_on(
                    state_after(views.take(i as int), max_size as nat, count_tokens),
                    views[i as int],
                    max_size as nat,
                    count_tokens,
                ));
                return None;
            },
        }
        i = i + 1;
    }
    assert(views.take(i as int) =~= views);
    let truncated = assembler.is_stopped();
    let ghost before = chunks_view(chunks@);
    let mut last = assembler.finish();
    let ghost added = chunks_view(last@);
    chunks.append(&mut last);
    assert(chunks_view(chunks@) =~= before + added);
    Some(Assembly { chunks, truncated })
}

/// Assembles `files`, taken in the order given, into chunks of at most
/// `max_size`. None of the files may bring the assembly to a halt.
pub fn assemble(files: &Vec<Record>, max_size: usize, count_tokens: bool) -> (r: Assembly)
    requires
        !is_stuck(records_view(files@), max_size as nat, count_tokens),
    ensures
        chunks_view(r.chunks@) == assembled(records_view(files@), max_size as nat, count_tokens),
        r.truncated == is_truncated(records_view(files@), max_size as nat, count_tokens),
{
    try_assemble(files, max_size, count_tokens).unwrap()
}

/// With a positive maximum no file brings the assembly to a halt.
pub proof fn law_never_stuck_with_a_maximum(files: Seq<RecordView>, max: nat, count_tokens: bool)
    requires
        max > 0,
    ensures
        !is_stuck(files, max, count_tokens),
{
}

/// Between two files the accumulated size is the sum of the sizes of the
/// records held, and within the maximum.
pub open spec fn state_wf(st: AsmState, max: nat, count_tokens: bool) -> bool {
    &&& st.size == records_size(st.current, count_tokens)
    &&& st.size <= max
}

/// One record, written or measured, is that record alone.
proof fn lemma_single_record(f: RecordView, count_tokens: bool)
    ensures
        render_records(seq![f]) == render_record(f),
        records_size(seq![f], count_tokens) == text_size(f.content, count_tokens),
{
    assert(seq![f].drop_last() =~= Seq::<RecordView>::empty());
    assert(render_records(Seq::<RecordView>::empty()) =~= Seq::<u8>::empty());
    assert(records_size(Seq::<RecordView>::empty(), count_tokens) == 0);
    assert(render_records(seq![f]) =~= render_record(f));
}

/// One chunk, written, is its records.
proof fn lemma_single_chunk(c: ChunkView)
    ensures
        render_chunks(seq![c]) == render_records(c.records),
{
    assert(seq![c].drop_last() =~= Seq::<ChunkView>::empty());
    assert(render_chunks(Seq::<ChunkView>::empty()) =~= Seq::<u8>::empty());
    assert(render_chunks(seq![c]) =~= render_records(c.records));
}

/// Every state that the assembly reaches is well formed.
pub proof fn lemma_state_wf(files: Seq<RecordView>, max: nat, count_tokens: bool)
    ensures
        state_wf(state_after(files, max, count_tokens), max, count_tokens),
    decreases files.len(),
{
    if files.len() > 0 {
        let prev = state_after(files.drop_last(), max, count_tokens);
        let f = files.last();
        lemma_state_wf(files.drop_last(), max, count_tokens);
        let next = next_state(prev, f, max, count_tokens);
        if !prev.stopped && !is_oversized(f, max, count_tokens) {
            if must_flush(prev, f, max, count_tokens) {
                lemma_single_record(f, count_tokens);
            } else {
                assert(next.current.drop_last() =~= prev.current);
            }
        }
    }
}

/// A stopped assembly was stopped by one of its files, and stays stopped.
pub proof fn lemma_stopped_is_kept(files: Seq<RecordView>, max: nat, count_tokens: bool, n: int)
    requires
        0 <= n <= files.len(),
        is_truncated(files.take(n), max, count_tokens),
    ensures
        is_truncated(files, max, count_tokens),
        assembled(files, max, count_tokens) == assembled(files.take(n), max, count_tokens),
    decreases files.len() - n,
{
    if n == files.len() {
        assert(files.take(n) =~= files);
    } else {
        assert(files.take(n + 1).drop_last() =~= files.take(n));
        assert(emitted_after(files.take(n + 1), max, count_tokens) =~= emitted_after(
            files.take(n),
            max,
            count_tokens,
        ));
        lemma_stopped_is_kept(files, max, count_tokens, n + 1);
    }
}

/// Once an oversized file has been met, the files after it add nothing: what
/// is written is what was written up to that file.
pub proof fn law_nothing_after_oversized(
    files: Seq<RecordView>,
    more: Seq<RecordView>,
    max: nat,
    count_tokens: bool,
)
    requires
        is_truncated(files, max, count_tokens),
    ensures
        is_truncated(files + more, max, count_tokens),
        assembled(files + more, max, count_tokens) == assembled(files, max, count_tokens),
{
    assert((files + more).take(files.len() as int) =~= files);
    lemma_stopped_is_kept(files + more, max, count_tokens, files.len() as int);
}

/// Writing chunks one after the other is writing the first ones, then the
/// last ones.
pub proof fn lemma_render_chunks_concat(a: Seq<ChunkView>, b: Seq<ChunkView>)
    ensures
        render_chunks(a + b) == render_chunks(a) + render_chunks(b),
    decreases b.len(),
{
    if b.len() == 0 {
        assert(a + b =~= a);
    } else {
        assert((a + b).drop_last() =~= a + b.drop_last());
        lemma_render_chunks_concat(a, b.drop_last());
    }
}

/// Where no oversized file is met: the chunks closed so far are numbered from
/// 0 in the order of writing, and together with the chunk being filled they
/// hold the files taken, in the order taken.
proof fn lemma_round_trip_so_far(files: Seq<RecordView>, max: nat, count_tokens: bool)
    requires
        !is_truncated(files, max, count_tokens),
    ensures
        render_chunks(emitted_after(files, max, count_tokens)) + render_records(
            state_after(files, max, count_tokens).current,
        ) == render_records(files),
        emitted_after(files, max, count_tokens).len() == state_after(
            files,
            max,
            count_tokens,
        ).next_index,
        forall|i: int|
            0 <= i < emitted_after(files, max, count_tokens).len() ==> (#[trigger] emitted_after(
                files,
                max,
                count_tokens,
            )[i]).index == i,
    decreases files.len(),
{
    if files.len() > 0 {
        let front = files.drop_last();
        let f = files.last();
        let prev = state_after(front, max, count_tokens);
        let next = next_state(prev, f, max, count_tokens);
        lemma_round_trip_so_far(front, max, count_tokens);
        let before = emitted_after(front, max, count_tokens);
        let now = emitted(prev, f, max, count_tokens);
        lemma_render_chunks_concat(before, now);
        if must_flush(prev, f, max, count_tokens) {
            lemma_single_chunk(now[0]);
            assert(now =~= seq![now[0]]);
            lemma_single_record(f, count_tokens);
        } else {
            assert(before + now =~= before);
            assert(next.current.drop_last() =~= prev.current);
        }
    }
}

/// Round trip. Where no oversized file is met, the chunks, written one after
/// the other in the order of their indices, are the files written one after
/// the other in the order given: each file once, after its marker line.
pub proof fn law_round_trip(files: Seq<RecordView>, max: nat, count_tokens: bool)
    requires
        !is_truncated(files, max, count_tokens),
    ensures
        render_chunks(assembled(files, max, count_tokens)) == render_records(files),
        forall|i: int|
            0 <= i < assembled(files, max, count_tokens).len() ==> (#[trigger] assembled(
                files,
                max,
                count_tokens,
            )[i]).index == i,
{
    lemma_round_trip_so_far(files, max, count_tokens);
    let st = state_after(files, max, count_tokens);
    let closed = emitted_after(files, max, count_tokens);
    lemma_render_chunks_concat(closed, trailing(st));
    if st.current.len() > 0 {
        lemma_single_chunk(trailing(st)[0]);
        assert(trailing(st) =~= seq![trailing(st)[0]]);
    } else {
        assert(render_records(st.current) =~= Seq::<u8>::empty());
    }
}

/// Whether chunk `c` is one of the parts of an oversized file.
pub open spec fn is_part_chunk(c: ChunkView, f: RecordView, max: nat, count_tokens: bool) -> bool {
    let parts = part_chunks(f.path, split_parts(f.content, max, count_tokens));
    is_oversized(f, max, count_tokens) && exists|p: int| 0 <= p < parts.len() && parts[p] == c
}

/// A part of an oversized file is a chunk of one record that is not empty
/// and within the maximum.
proof fn lemma_part_chunk_bounded(c: ChunkView, f: RecordView, max: nat, count_tokens: bool)
    requires
        max > 0,
        is_part_chunk(c, f, max, count_tokens),
    ensures
        c.records.len() == 1,
        c.records[0].content.len() >= 1,
        records_size(c.records, count_tokens) <= max,
{
    let parts = split_parts(f.content, max, count_tokens);
    let chunks = part_chunks(f.path, parts);
    let p = choose|p: int| 0 <= p < chunks.len() && chunks[p] == c;
    law_part_sizes(f.content, 0, max, count_tokens, p);
    lemma_single_record(c.records[0], count_tokens);
    assert(c.records =~= seq![c.records[0]]);
}

/// A chunk that was closed holds at least one record. It is a chunk that was
/// filled, within the maximum, or a part of an oversized file.
proof fn lemma_emitted_bounded(files: Seq<RecordView>, max: nat, count_tokens: bool, i: int)
    requires
        0 <= i < emitted_after(files, max, count_tokens).len(),
    ensures
        ({
            let c = emitted_after(files, max, count_tokens)[i];
            &&& c.records.len() >= 1
            &&& records_size(c.records, count_tokens) <= max || exists|k: int|
                0 <= k < files.len() && is_part_chunk(c, #[trigger] files[k], max, count_tokens)
        }),
    decreases files.len(),
{
    let front = files.drop_last();
    let f = files.last();
    let prev = state_after(front, max, count_tokens);
    let before = emitted_after(front, max, count_tokens);
    let c = emitted_after(files, max, count_tokens)[i];
    if i < before.len() {
        lemma_emitted_bounded(front, max, count_tokens, i);
        if records_size(c.records, count_tokens) > max {
            let k = choose|k: int|
                0 <= k < front.len() && is_part_chunk(c, #[trigger] front[k], max, count_tokens);
            assert(files[k] == front[k]);
        }
    } else {
        lemma_state_wf(front, max, count_tokens);
        if is_oversized(f, max, count_tokens) {
            let parts = part_chunks(f.path, split_parts(f.content, max, count_tokens));
            assert(parts[i - before.len()] == c);
            assert(is_part_chunk(c, files[files.len() - 1], max, count_tokens));
        }
    }
}

/// Size accounting. Every chunk written holds at least one record and is
/// within the maximum, whether an oversized file is met or not. A chunk
/// that is a part of an oversized file holds that part and nothing else.
pub proof fn law_chunk_within_max(files: Seq<RecordView>, max: nat, count_tokens: bool, i: int)
    requires
        max > 0,
        0 <= i < assembled(files, max, count_tokens).len(),
    ensures
        ({
            let c = assembled(files, max, count_tokens)[i];
            &&& c.records.len() >= 1
            &&& records_size(c.records, count_tokens) <= max
            &&& (exists|k: int|
                0 <= k < files.len() && is_part_chunk(c, #[trigger] files[k], max, count_tokens))
                ==> c.records.len() == 1
        }),
{
    let closed = emitted_after(files, max, count_tokens);
    let c = assembled(files, max, count_tokens)[i];
    lemma_state_wf(files, max, count_tokens);
    if i < closed.len() {
        lemma_emitted_bounded(files, max, count_tokens, i);
        if records_size(c.records, count_tokens) > max {
            let k = choose|k: int|
                0 <= k < files.len() && is_part_chunk(c, #[trigger] files[k], max, count_tokens);
            lemma_part_chunk_bounded(c, files[k], max, count_tokens);
        }
    }
    if exists|k: int|
        0 <= k < files.len() && is_part_chunk(c, #[trigger] files[k], max, count_tokens) {
        let k = choose|k: int|
            0 <= k < files.len() && is_part_chunk(c, #[trigger] files[k], max, count_tokens);
        lemma_part_chunk_bounded(c, files[k], max, count_tokens);
    }
}

/// Whether record `r` is file `f` as it is written: the file itself, or one
/// of its parts under the label of the part.
pub open spec fn stems_from(r: RecordView, f: RecordView, max: nat, count_tokens: bool) -> bool {
    r == f || exists|p: int|
        0 <= p < split_parts(f.content, max, count_tokens).len() && r == (RecordView {
            path: part_label(f.path, p as nat),
            content: #[trigger] split_parts(f.content, max, count_tokens)[p],
        })
}

/// The chunk being filled holds files that were taken.
proof fn lemma_current_holds_files(files: Seq<RecordView>, max: nat, count_tokens: bool, j: int)
    requires
        0 <= j < state_after(files, max, count_tokens).current.len(),
    ensures
        exists|k: int|
            0 <= k < files.len() && #[trigger] files[k] == state_after(
                files,
                max,
                count_tokens,
            ).current[j],
    decreases files.len(),
{
    let front = files.drop_last();
    let f = files.last();
    let prev = state_after(front, max, count_tokens);
    let r = state_after(files, max, count_tokens).current[j];
    if prev.stopped || is_oversized(f, max, count_tokens) || (!must_flush(
        prev,
        f,
        max,
        count_tokens,
    ) && j < prev.current.len()) {
        lemma_current_holds_files(front, max, count_tokens, j);
        let k = choose|k: int| 0 <= k < front.len() && #[trigger] front[k] == prev.current[j];
        assert(files[k] == r);
    } else {
        assert(files[files.len() - 1] == r);
    }
}

/// A record of a chunk that was closed stems from a file that was taken.
proof fn lemma_emitted_stem_from_files(
    files: Seq<RecordView>,
    max: nat,
    count_tokens: bool,
    i: int,
    j: int,
)
    requires
        0 <= i < emitted_after(files, max, count_tokens).len(),
        0 <= j < emitted_after(files, max, count_tokens)[i].records.len(),
    ensures
        exists|k: int|
            0 <= k < files.len() && stems_from(
                emitted_after(files, max, count_tokens)[i].records[j],
                #[trigger] files[k],
                max,
                count_tokens,
            ),
    decreases files.len(),
{
    let front = files.drop_last();
    let f = files.last();
    let prev = state_after(front, max, count_tokens);
    let before = emitted_after(front, max, count_tokens);
    let r = emitted_after(files, max, count_tokens)[i].records[j];
    if i < before.len() {
        lemma_emitted_stem_from_files(front, max, count_tokens, i, j);
        let k = choose|k: int|
            0 <= k < front.len() && stems_from(r, #[trigger] front[k], max, count_tokens);
        assert(stems_from(r, files[k], max, count_tokens));
    } else if is_oversized(f, max, count_tokens) {
        let parts = split_parts(f.content, max, count_tokens);
        let p = i - before.len();
        assert(part_chunks(f.path, parts)[p].records[0] == r);
        assert(r == (RecordView { path: part_label(f.path, p as nat), content: parts[p] }));
        assert(stems_from(r, files[files.len() - 1], max, count_tokens));
    } else {
        lemma_current_holds_files(front, max, count_tokens, j);
        let k = choose|k: int| 0 <= k < front.len() && #[trigger] front[k] == prev.current[j];
        assert(stems_from(r, files[k], max, count_tokens));
    }
}

/// Nothing is written that was not given. Each record of each chunk is one
/// of the files given, or a part of one of them.
pub proof fn law_records_stem_from_files(
    files: Seq<RecordView>,
    max: nat,
    count_tokens: bool,
    i: int,
    j: int,
)
    requires
        0 <= i < assembled(files, max, count_tokens).len(),
        0 <= j < assembled(files, max, count_tokens)[i].records.len(),
    ensures
        exists|k: int|
            0 <= k < files.len() && stems_from(
                assembled(files, max, count_tokens)[i].records[j],
                #[trigger] files[k],
                max,
                count_tokens,
            ),
{
    let closed = emitted_after(files, max, count_tokens);
    let r = assembled(files, max, count_tokens)[i].records[j];
    if i < closed.len() {
        lemma_emitted_stem_from_files(files, max, count_tokens, i, j);
    } else {
        lemma_current_holds_files(files, max, count_tokens, j);
        let k = choose|k: int|
            0 <= k < files.len() && #[trigger] files[k] == state_after(
                files,
                max,
                count_tokens,
            ).current[j];
        assert(stems_from(r, files[k], max, count_tokens));
    }
}

} // verus!
