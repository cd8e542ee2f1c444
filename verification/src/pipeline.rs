//! The whole run on plain values: from the files found in a tree to the
//! chunks that are written.

use crate::assemble::{
    assembled, is_stuck, is_truncated, law_records_stem_from_files, stems_from, try_assemble,
    Assembly,
};
use crate::chunk::{chunks_view, records_view, Record, RecordView};
use crate::collect::{law_ignored_never_selected, law_recency_bonus, select, selected};
use crate::config::{rules_view, strings_view, YekConfig};
use crate::order::{
    files_view, law_order_keeps_files, lemma_priority_order_exists, priority_order,
    sort_by_priority, FileEntry, FileView,
};
use crate::pattern::matches_any;
use crate::rules::{
    build_final_config, final_ignore, final_tiers, resolve_priority, tiers_view, Tier,
};
use regex::Regex;
use vstd::prelude::*;
use vstd::slice::slice_to_vec;

verus! {

/// A file as it was found in the tree, with all that was seen of it.
#[derive(Debug)]
pub struct FoundFile {
    /// Its path relative to the root.
    pub rel_path: String,
    /// Whether the ignore file of the tree leaves it out.
    pub gitignored: bool,
    /// The extension of its name, if it has one.
    pub extension: Option<String>,
    /// Its leading bytes, if they could be read.
    pub head: Option<Vec<u8>>,
    /// The time of its last commit, if one is known.
    pub commit_time: Option<u64>,
    /// Its content, if it could be read as text.
    pub content: Option<Vec<u8>>,
}

/// A found file as plain values.
pub struct FoundView {
    pub rel_path: Seq<char>,
    pub gitignored: bool,
    pub extension: Option<Seq<char>>,
    pub head: Option<Seq<u8>>,
    pub commit_time: Option<u64>,
    pub content: Option<Seq<u8>>,
}

impl View for FoundFile {
    type V = FoundView;

    open spec fn view(&self) -> FoundView {
        FoundView {
            rel_path: self.rel_path@,
            gitignored: self.gitignored,
            extension: match self.extension {
                Some(e) => Some(e@),
                None => None,
            },
            head: match self.head {
                Some(h) => Some(h@),
                None => None,
            },
            commit_time: self.commit_time,
            content: match self.content {
                Some(c) => Some(c@),
                None => None,
            },
        }
    }
}

/// The found files of a list as plain values.
pub open spec fn found_view(found: Seq<FoundFile>) -> Seq<FoundView> {
    Seq::new(found.len(), |i: int| found[i]@)
}

/// What decides which files are taken: the rule set, the binary extensions
/// of the user, and the earliest commit time that counts as recent.
pub struct Selection {
    pub ignore: Seq<Regex>,
    pub tiers: Seq<Tier>,
    pub binary_extensions: Seq<Seq<char>>,
    pub cutoff: u64,
}

/// The selection that a configuration gives.
pub open spec fn selection_of(config: Option<YekConfig>, cutoff: u64) -> Selection {
    match config {
        Some(c) => Selection {
            ignore: final_ignore(Some(strings_view(c.ignore_patterns.patterns@))),
            tiers: final_tiers(Some(rules_view(c.priority_rules@))),
            binary_extensions: strings_view(c.binary_extensions@),
            cutoff,
        },
        None => Selection {
            ignore: final_ignore(None),
            tiers: final_tiers(None),
            binary_extensions: Seq::empty(),
            cutoff,
        },
    }
}

/// Whether a found file is taken, and with which priority.
pub open spec fn priority_of(f: FoundView, by: Selection) -> Option<int> {
    selected(
        f.rel_path,
        f.gitignored,
        by.ignore,
        by.tiers,
        f.extension,
        by.binary_extensions,
        f.head,
        f.commit_time,
        by.cutoff,
    )
}

/// The candidates among the found files, in the order in which they were
/// found, each with its number in the list.
pub open spec fn candidates(found: Seq<FoundView>, by: Selection) -> Seq<FileView>
    decreases found.len(),
{
    if found.len() == 0 {
        Seq::empty()
    } else {
        let front = candidates(found.drop_last(), by);
        match priority_of(found.last(), by) {
            Some(p) => front.push(
                FileView {
                    index: (found.len() - 1) as nat,
                    rel_path: found.last().rel_path,
                    priority: p,
                },
            ),
            None => front,
        }
    }
}

/// The records of the candidates whose content could be read as text, in
/// the order of the candidates.
pub open spec fn readable(ordered: Seq<FileView>, found: Seq<FoundView>) -> Seq<RecordView>
    decreases ordered.len(),
{
    if ordered.len() == 0 {
        Seq::empty()
    } else {
        let front = readable(ordered.drop_last(), found);
        let f = ordered.last();
        if f.index < found.len() && found[f.index as int].content is Some {
            front.push(RecordView { path: f.rel_path, content: found[f.index as int].content->0 })
        } else {
            front
        }
    }
}

/// The files that are assembled: the candidates in the order of assembly,
/// those left out whose content could not be read.
pub open spec fn files_to_assemble(found: Seq<FoundView>, by: Selection) -> Seq<RecordView> {
    readable(priority_order(candidates(found, by)), found)
}

/// Serializes the files found in a tree: takes those that the rules select,
/// puts them in the order of ascending priority, and assembles those that
/// could be read as text into chunks of at most `max_size`.
///
/// It gives nothing where one of the files to assemble brings the assembly
/// to a halt, which no file does with a positive maximum.
pub fn serialize_repo(
    max_size: usize,
    count_tokens: bool,
    config: Option<&YekConfig>,
    found: &Vec<FoundFile>,
    cutoff: u64,
) -> (r: Option<Assembly>)
    ensures
        r is Some <==> !is_stuck(
            files_to_assemble(
                found_view(found@),
                selection_of(
                    match config {
                        Some(c) => Some(*c),
                        None => None,
                    },
                    cutoff,
                ),
            ),
            max_size as nat,
            count_tokens,
        ),
        max_size > 0 ==> r is Some,
        r matches Some(out) ==> chunks_view(out.chunks@) == assembled(
            files_to_assemble(
                found_view(found@),
                selection_of(
                    match config {
                        Some(c) => Some(*c),
                        None => None,
                    },
                    cutoff,
                ),
            ),
            max_size as nat,
            count_tokens,
        ) && out.truncated == is_truncated(
            files_to_assemble(
                found_view(found@),
                selection_of(
                    match config {
                        Some(c) => Some(*c),
                        None => None,
                    },
                    cutoff,
                ),
            ),
            max_size as nat,
            count_tokens,
        ),
{
    let ghost by = selection_of(
        match config {
            Some(c) => Some(*c),
            None => None,
        },
        cutoff,
    );
    let ghost views = found_view(found@);
    let rules = build_final_config(config);
    let none: Vec<String> = Vec::new();
    let user_binary: &Vec<String> = match config {
        Some(c) => &c.binary_extensions,
        None => &none,
    };
    assert(strings_view(user_binary@) =~= by.binary_extensions);
    let mut entries: Vec<FileEntry> = Vec::new();
    let mut k: usize = 0;
    assert(files_view(entries@) =~= candidates(views.take(0), by));
    while k < found.len()
        invariant
            k <= found.len(),
            views == found_view(found@),
            by.ignore == rules.ignore_patterns@,
            by.tiers == tiers_view(rules.priority_list@),
            by.binary_extensions == strings_view(user_binary@),
            by.cutoff == cutoff,
            files_view(entries@) == candidates(views.take(k as int), by),
        decreases found.len() - k,
    {
        let f = &found[k];
        let extension: Option<&str> = match &f.extension {
            Some(e) => Some(e.as_str()),
            None => None,
        };
        let head: Option<&[u8]> = match &f.head {
            Some(h) => Some(h.as_slice()),
            None => None,
        };
        let ghost before = files_view(entries@);
        proof {
            assert(views.take(k + 1).drop_last() =~= views.take(k as int));
            assert(views.take(k + 1).last() == f@);
        }
        match select(
            f.rel_path.as_str(),
            f.gitignored,
            &rules,
            extension,
            user_binary.as_slice(),
            head,
            f.commit_time,
            cutoff,
        ) {
            Some(p) => {
                let entry = FileEntry { index: k, rel_path: f.rel_path.clone(), priority: p };
                entries.push(entry);
                assert(files_view(entries@) =~= before.push(entry@));
            },
            None => {},
        }
        k = k + 1;
    }
    assert(views.take(k as int) =~= views);
    let sorted = sort_by_priority(entries);
    let ghost ordered = files_view(sorted@);
    let mut records: Vec<Record> = Vec::new();
    let mut m: usize = 0;
    assert(records_view(records@) =~= readable(ordered.take(0), views));
    while m < sorted.len()
        invariant
            m <= sorted.len(),
            views == found_view(found@),
            ordered == files_view(sorted@),
            records_view(records@) == readable(ordered.take(m as int), views),
        decreases sorted.len() - m,
    {
        let entry = &sorted[m];
        let ghost before = records_view(records@);
        proof {
            assert(ordered.take(m + 1).drop_last() =~= ordered.take(m as int));
            assert(ordered.take(m + 1).last() == entry@);
        }
        if entry.index < found.len() {
            match &found[entry.index].content {
                Some(content) => {
                    let record = Record {
                        path: entry.rel_path.clone(),
                        content: slice_to_vec(content.as_slice()),
                    };
                    records.push(record);
                    assert(records_view(records@) =~= before.push(record@));
                },
                None => {},
            }
        }
        m = m + 1;
    }
    assert(ordered.take(m as int) =~= ordered);
    try_assemble(&records, max_size, count_tokens)
}

/// Candidates follow the rules. Each candidate is a found file that neither
/// the ignore file of the tree nor an ignore expression leaves out, whatever
/// its commit time is. It is ordered by its priority by the rules, and by 50
/// more exactly where a time of its last commit is known and is not before
/// the cutoff; where none is known, by its priority by the rules alone.
pub proof fn law_candidates_follow_the_rules(found: Seq<FoundView>, by: Selection, i: int)
    requires
        0 <= i < candidates(found, by).len(),
    ensures
        ({
            let c = candidates(found, by)[i];
            let f = found[c.index as int];
            let by_rules = resolve_priority(f.rel_path, by.ignore, by.tiers);
            &&& c.index < found.len()
            &&& c.rel_path == f.rel_path
            &&& !f.gitignored
            &&& !matches_any(by.ignore, f.rel_path)
            &&& by_rules >= 0
            &&& c.priority == by_rules + (if f.commit_time matches Some(t) && t >= by.cutoff {
                50int
            } else {
                0int
            })
            &&& f.commit_time is None ==> c.priority == by_rules
        }),
{
    lemma_candidates_are_selected(found, by, i);
    let c = candidates(found, by)[i];
    let f = found[c.index as int];
    law_recency_bonus(
        f.rel_path,
        f.gitignored,
        by.ignore,
        by.tiers,
        f.extension,
        by.binary_extensions,
        f.head,
        f.commit_time,
        by.cutoff,
    );
    if f.gitignored || matches_any(by.ignore, f.rel_path) {
        law_ignored_never_selected(
            f.rel_path,
            f.gitignored,
            by.ignore,
            by.tiers,
            f.extension,
            by.binary_extensions,
            f.head,
            f.commit_time,
            by.cutoff,
        );
    }
}

/// An ignored file is no candidate. A found file that the ignore file of
/// the tree or an ignore expression leaves out is not taken, however recent
/// its last commit is.
pub proof fn law_ignored_is_no_candidate(found: Seq<FoundView>, by: Selection, k: int)
    requires
        0 <= k < found.len(),
        found[k].gitignored || matches_any(by.ignore, found[k].rel_path),
    ensures
        priority_of(found[k], by) is None,
        forall|i: int|
            0 <= i < candidates(found, by).len() ==> (#[trigger] candidates(found, by)[i]).index
                != k,
{
    assert forall|i: int| 0 <= i < candidates(found, by).len() implies (#[trigger] candidates(
        found,
        by,
    )[i]).index != k by {
        lemma_candidates_are_selected(found, by, i);
    }
}

/// Each candidate is a found file that is taken, under its path and with
/// its priority.
proof fn lemma_candidates_are_selected(found: Seq<FoundView>, by: Selection, i: int)
    requires
        0 <= i < candidates(found, by).len(),
    ensures
        ({
            let c = candidates(found, by)[i];
            &&& c.index < found.len()
            &&& c.rel_path == found[c.index as int].rel_path
            &&& priority_of(found[c.index as int], by) == Some(c.priority)
        }),
    decreases found.len(),
{
    let front = candidates(found.drop_last(), by);
    if i < front.len() {
        lemma_candidates_are_selected(found.drop_last(), by, i);
    }
}

/// Each readable record is the content of one of the files, under the path
/// of that file.
proof fn lemma_readable_from_files(ordered: Seq<FileView>, found: Seq<FoundView>, j: int)
    requires
        0 <= j < readable(ordered, found).len(),
    ensures
        exists|m: int|
            0 <= m < ordered.len() && (#[trigger] ordered[m]).index < found.len()
                && readable(ordered, found)[j] == (RecordView {
                path: ordered[m].rel_path,
                content: found[ordered[m].index as int].content->0,
            }) && found[ordered[m].index as int].content is Some,
    decreases ordered.len(),
{
    let front = readable(ordered.drop_last(), found);
    if j < front.len() {
        lemma_readable_from_files(ordered.drop_last(), found, j);
        let m = choose|m: int|
            0 <= m < ordered.drop_last().len() && (#[trigger] ordered.drop_last()[m]).index
                < found.len() && front[j] == (RecordView {
                path: ordered.drop_last()[m].rel_path,
                content: found[ordered.drop_last()[m].index as int].content->0,
            }) && found[ordered.drop_last()[m].index as int].content is Some;
        assert(ordered[m] == ordered.drop_last()[m]);
    } else {
        assert(ordered[ordered.len() - 1] == ordered.last());
    }
}

/// Only what is selected is written. Each record of each chunk stems from a
/// found file that the rules select and whose content could be read: it has
/// the content of that file under its path, or a part of it under the label
/// of the part. So a file that is ignored, binary or unreadable is never
/// written.
pub proof fn law_only_selected_files_are_written(
    found: Seq<FoundView>,
    by: Selection,
    max: nat,
    count_tokens: bool,
    i: int,
    j: int,
)
    requires
        0 <= i < assembled(files_to_assemble(found, by), max, count_tokens).len(),
        0 <= j < assembled(files_to_assemble(found, by), max, count_tokens)[i].records.len(),
    ensures
        exists|k: int|
            0 <= k < found.len() && priority_of(#[trigger] found[k], by) is Some
                && found[k].content is Some && stems_from(
                assembled(files_to_assemble(found, by), max, count_tokens)[i].records[j],
                RecordView { path: found[k].rel_path, content: found[k].content->0 },
                max,
                count_tokens,
            ),
{
    let given = candidates(found, by);
    let ordered = priority_order(given);
    let files = files_to_assemble(found, by);
    let r = assembled(files, max, count_tokens)[i].records[j];
    law_records_stem_from_files(files, max, count_tokens, i, j);
    let at = choose|at: int|
        0 <= at < files.len() && stems_from(r, #[trigger] files[at], max, count_tokens);
    lemma_readable_from_files(ordered, found, at);
    let m = choose|m: int|
        0 <= m < ordered.len() && (#[trigger] ordered[m]).index < found.len() && files[at] == (
        RecordView {
            path: ordered[m].rel_path,
            content: found[ordered[m].index as int].content->0,
        }) && found[ordered[m].index as int].content is Some;
    lemma_priority_order_exists(given);
    law_order_keeps_files(given, ordered, m);
    let c = choose|c: int| 0 <= c < given.len() && given[c] == ordered[m];
    lemma_candidates_are_selected(found, by, c);
    let k = given[c].index as int;
    assert(found[k].rel_path == ordered[m].rel_path);
    assert(priority_of(found[k], by) is Some);
}

} // verus!
