//! What version control tells about a tree: the time of the last commit of
//! each path, read from a commit log.
//!
//! The log is the text that `git log --pretty=format:%ct --name-only` prints,
//! newest commit first: a line with the time of a commit in seconds, then one
//! line for each path that the commit changed.

use crate::text::{
    decode, decoded, lemma_line_end_bounds, line_end, line_end_at, next_line, trim, trimmed,
    CARRIAGE_RETURN,
};
use vstd::hash_map::StringHashMap;
use vstd::prelude::*;
use vstd::slice::slice_subrange;

verus! {

/// Whether a byte is a decimal digit.
pub open spec fn is_digit(b: u8) -> bool {
    0x30 <= b && b <= 0x39
}

/// Whether all bytes are decimal digits.
pub open spec fn all_digits(d: Seq<u8>) -> bool {
    forall|i: int| 0 <= i < d.len() ==> is_digit(#[trigger] d[i])
}

/// The number that decimal digits stand for.
pub open spec fn digits_value(d: Seq<u8>) -> nat
    decreases d.len(),
{
    if d.len() == 0 {
        0
    } else {
        digits_value(d.drop_last()) * 10 + (d.last() - 0x30) as nat
    }
}

/// A line without the plus sign that may stand before a number.
pub open spec fn unsigned_part(line: Seq<u8>) -> Seq<u8> {
    if line.len() > 0 && line[0] == 0x2Bu8 {
        line.skip(1)
    } else {
        line
    }
}

/// The time that a line states: the line is a number of at least one decimal
/// digit, with or without a plus sign before it and nothing else around it,
/// that fits in 64 bits.
pub open spec fn parse_timestamp(line: Seq<u8>) -> Option<u64> {
    let d = unsigned_part(line);
    if d.len() > 0 && all_digits(d) && digits_value(d) <= u64::MAX {
        Some(digits_value(d) as u64)
    } else {
        None
    }
}

/// More digits make no smaller number.
proof fn lemma_digits_value_grows(d: Seq<u8>, k: int)
    requires
        0 <= k <= d.len(),
        all_digits(d),
    ensures
        digits_value(d.take(k)) <= digits_value(d),
    decreases d.len() - k,
{
    if k == d.len() {
        assert(d.take(k) =~= d);
    } else {
        lemma_digits_value_grows(d, k + 1);
        assert(d.take(k + 1).drop_last() =~= d.take(k));
        assert(is_digit(d[k]));
    }
}

/// Reads the time that a line states, if it states one.
pub fn read_timestamp(line: &[u8]) -> (t: Option<u64>)
    ensures
        t == parse_timestamp(line@),
{
    let start: usize = if line.len() > 0 && line[0] == 0x2B {
        1
    } else {
        0
    };
    let ghost d = unsigned_part(line@);
    assert(d =~= line@.skip(start as int));
    if start >= line.len() {
        return None;
    }
    let mut value: u64 = 0;
    let mut i: usize = start;
    assert(d.take(0) =~= Seq::<u8>::empty());
    while i < line.len()
        invariant
            start <= i <= line.len(),
            d == line@.skip(start as int),
            d == unsigned_part(line@),
            all_digits(d.take(i - start)),
            value == digits_value(d.take(i - start)),
        decreases line.len() - i,
    {
        let b: u8 = line[i];
        assert(d[i - start] == b);
        if b < 0x30 || b > 0x39 {
            assert(!is_digit(d[i - start]));
            return None;
        }
        let digit: u64 = (b - 0x30) as u64;
        proof {
            assert(d.take(i - start + 1).drop_last() =~= d.take(i - start));
            assert(d.take(i - start + 1).last() == b);
            assert forall|k: int| 0 <= k < i - start + 1 implies is_digit(
                #[trigger] d.take(i - start + 1)[k],
            ) by {
                if k < i - start {
                    assert(d.take(i - start)[k] == d[k]);
                }
            }
        }
        if value > (u64::MAX - digit) / 10 {
            proof {
                assert(digits_value(d.take(i - start + 1)) == value * 10 + digit);
                if all_digits(d) {
                    lemma_digits_value_grows(d, i - start + 1);
                }
            }
            return None;
        }
        value = value * 10 + digit;
        i = i + 1;
    }
    assert(d.take(i - start) =~= d);
    Some(value)
}

/// What reading a log has gathered so far: the commit times found, and the
/// time of the commit whose paths are being read.
pub struct LogState {
    pub times: Map<Seq<char>, u64>,
    pub current: u64,
}

/// The line that starts at `from`, without its line ending: the line feed,
/// and a carriage return right before it.
pub open spec fn log_line(s: Seq<u8>, from: int) -> Seq<u8> {
    let end = line_end(s, from);
    if end < s.len() && from < end && s[end - 1] == CARRIAGE_RETURN {
        s.subrange(from, end - 1)
    } else {
        s.subrange(from, end)
    }
}

/// The state after one more line. A line that states a time starts a commit.
/// Any other line names a path, white space around it aside; the path gets
/// the time of the commit unless it has one already, and an empty line names
/// none.
pub open spec fn log_step(st: LogState, line: Seq<u8>) -> LogState {
    match parse_timestamp(line) {
        Some(t) => LogState { times: st.times, current: t },
        None => {
            let name = trimmed(line);
            if name.len() == 0 || st.times.contains_key(decoded(name)) {
                st
            } else {
                LogState { times: st.times.insert(decoded(name), st.current), current: st.current }
            }
        },
    }
}

/// The state after the lines from position `from` on.
pub open spec fn log_from(s: Seq<u8>, from: int, st: LogState) -> LogState
    decreases s.len() - from,
{
    if from < 0 || from >= s.len() {
        st
    } else {
        proof {
            lemma_line_end_bounds(s, from);
        }
        log_from(s, next_line(s, from), log_step(st, log_line(s, from)))
    }
}

/// The commit times that a log states: for each path the time of the first
/// commit in the log that names it, which is its most recent one. Paths named
/// before any commit get the time 0.
pub open spec fn commit_times(log: Seq<u8>) -> Map<Seq<char>, u64> {
    log_from(log, 0, LogState { times: Map::empty(), current: 0 }).times
}

/// The time of the last commit of each path of a tree, as far as the log of
/// the tree tells it.
pub struct CommitTimeIndex {
    times: StringHashMap<u64>,
}

impl View for CommitTimeIndex {
    type V = Map<Seq<char>, u64>;

    closed spec fn view(&self) -> Map<Seq<char>, u64> {
        self.times@
    }
}

impl CommitTimeIndex {
    /// The time of the last commit of a path, where one is known.
    pub fn time_of(&self, rel_str: &str) -> (t: Option<u64>)
        ensures
            t == if self@.contains_key(rel_str@) {
                Some(self@[rel_str@])
            } else {
                None
            },
    {
        match self.times.get(rel_str) {
            Some(t) => Some(*t),
            None => None,
        }
    }

    /// Number of paths with a known time.
    pub fn len(&self) -> (n: usize)
        ensures
            n == self@.len(),
    {
        self.times.len()
    }
}

/// Finds the time of the most recent commit of each path in a commit log.
pub fn get_recent_commit_times(log: &[u8]) -> (index: CommitTimeIndex)
    ensures
        index@ == commit_times(log@),
{
    let mut times: StringHashMap<u64> = StringHashMap::new();
    let mut current: u64 = 0;
    let mut from: usize = 0;
    while from < log.len()
        invariant
            from <= log.len(),
            log_from(log@, from as int, LogState { times: times@, current }).times == commit_times(
                log@,
            ),
        decreases log.len() - from,
    {
        let end: usize = line_end_at(log, from);
        let body_end: usize = if end < log.len() && from < end && log[end - 1] == CARRIAGE_RETURN {
            end - 1
        } else {
            end
        };
        let line = slice_subrange(log, from, body_end);
        assert(line@ == log_line(log@, from as int));
        match read_timestamp(line) {
            Some(t) => {
                current = t;
            },
            None => {
                let name = trim(line);
                if name.len() > 0 {
                    let key = decode(name);
                    if !times.contains_key(key.as_str()) {
                        times.insert(key, current);
                    }
                }
            },
        }
        from = if end < log.len() {
            end + 1
        } else {
            end
        };
    }
    CommitTimeIndex { times }
}

} // verus!
