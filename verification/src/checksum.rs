//! A short checksum of the tracked files of a tree, by which an output
//! directory is named: the same tree gives the same name.

use crate::text::{
    append_bytes, digit_char, hex_digits, lemma_line_end_bounds, line_end, line_end_at, next_line,
    push_hex_digits, trim, trimmed,
};
use sha2::{Digest, Sha256};
use vstd::prelude::*;
use vstd::slice::{slice_subrange, slice_to_vec};
use vstd::string::StringExecFns;

verus! {

/// The SHA-256 digest of a byte text.
pub uninterp spec fn sha256_digest(data: Seq<u8>) -> Seq<u8>;

/// `Sha256::digest`: the SHA-256 digest of the data, which has 32 bytes and
/// depends on the data alone.
#[verifier::external_body]
pub(crate) fn sha256(data: &[u8]) -> (out: Vec<u8>)
    ensures
        out@ == sha256_digest(data@),
        out@.len() == 32,
{
    Sha256::digest(data).to_vec()
}

/// Whether `a` stands before `b`, or is `b`, in the order of byte texts: by
/// the first byte in which they differ, a text before those that extend it.
pub open spec fn lex_le(a: Seq<u8>, b: Seq<u8>) -> bool
    decreases a.len(),
{
    if a.len() == 0 {
        true
    } else if b.len() == 0 {
        false
    } else if a[0] != b[0] {
        a[0] < b[0]
    } else {
        lex_le(a.drop_first(), b.drop_first())
    }
}

/// Of two byte texts, one stands before the other or they are the same.
pub proof fn lemma_lex_le_total(a: Seq<u8>, b: Seq<u8>)
    ensures
        lex_le(a, b) || lex_le(b, a),
        lex_le(a, b) && lex_le(b, a) ==> a == b,
    decreases a.len(),
{
    if a.len() > 0 && b.len() > 0 && a[0] == b[0] {
        lemma_lex_le_total(a.drop_first(), b.drop_first());
        if lex_le(a, b) && lex_le(b, a) {
            assert(a =~= seq![a[0]] + a.drop_first());
            assert(b =~= seq![b[0]] + b.drop_first());
        }
    } else if a.len() == 0 && b.len() == 0 {
        assert(a =~= b);
    }
}

/// The order of byte texts is transitive.
pub proof fn lemma_lex_le_transitive(a: Seq<u8>, b: Seq<u8>, c: Seq<u8>)
    requires
        lex_le(a, b),
        lex_le(b, c),
    ensures
        lex_le(a, c),
    decreases a.len(),
{
    if a.len() > 0 && b.len() > 0 && c.len() > 0 && a[0] == b[0] && b[0] == c[0] {
        lemma_lex_le_transitive(a.drop_first(), b.drop_first(), c.drop_first());
    }
}

/// Compares two byte texts.
fn bytes_le(a: &[u8], b: &[u8]) -> (le: bool)
    ensures
        le == lex_le(a@, b@),
{
    let mut i: usize = 0;
    assert(a@.skip(0) =~= a@ && b@.skip(0) =~= b@);
    loop
        invariant
            i <= a.len(),
            i <= b.len(),
            lex_le(a@.skip(i as int), b@.skip(i as int)) == lex_le(a@, b@),
        decreases a.len() - i,
    {
        proof {
            assert(a@.skip(i as int).len() == a.len() - i);
            assert(b@.skip(i as int).len() == b.len() - i);
            if i < a.len() && i < b.len() {
                assert(a@.skip(i as int)[0] == a@[i as int]);
                assert(b@.skip(i as int)[0] == b@[i as int]);
                assert(a@.skip(i as int).drop_first() =~= a@.skip(i + 1));
                assert(b@.skip(i as int).drop_first() =~= b@.skip(i + 1));
            }
        }
        if i >= a.len() {
            return true;
        }
        if i >= b.len() {
            return false;
        }
        if a[i] != b[i] {
            return a[i] < b[i];
        }
        i = i + 1;
    }
}

/// The names of a list as plain values.
pub open spec fn names_view(names: Seq<Vec<u8>>) -> Seq<Seq<u8>> {
    Seq::new(names.len(), |i: int| names[i]@)
}

/// No name stands before one that it should follow.
pub open spec fn is_sorted(names: Seq<Seq<u8>>) -> bool {
    forall|i: int, j: int| 0 <= i < j < names.len() ==> lex_le(names[i], names[j])
}

/// Puts `name` into a list behind the last name that does not follow it.
pub open spec fn insert_name(sorted: Seq<Seq<u8>>, name: Seq<u8>) -> Seq<Seq<u8>>
    decreases sorted.len(),
{
    if sorted.len() == 0 {
        seq![name]
    } else if lex_le(sorted.last(), name) {
        sorted.push(name)
    } else {
        insert_name(sorted.drop_last(), name).push(sorted.last())
    }
}

/// The names in the order of byte texts.
pub open spec fn sort_names(names: Seq<Seq<u8>>) -> Seq<Seq<u8>>
    decreases names.len(),
{
    if names.len() == 0 {
        Seq::empty()
    } else {
        insert_name(sort_names(names.drop_last()), names.last())
    }
}

/// `insert_name` puts the name at the place where the scan from the end
/// stops.
proof fn lemma_insert_name_at(sorted: Seq<Seq<u8>>, name: Seq<u8>, at: int)
    requires
        0 <= at <= sorted.len(),
        forall|j: int| at <= j < sorted.len() ==> !lex_le(#[trigger] sorted[j], name),
        at > 0 ==> lex_le(sorted[at - 1], name),
    ensures
        insert_name(sorted, name) == sorted.insert(at, name),
    decreases sorted.len(),
{
    if sorted.len() == 0 {
        assert(sorted.insert(at, name) =~= seq![name]);
    } else if at == sorted.len() {
        assert(sorted.insert(at, name) =~= sorted.push(name));
    } else {
        assert(!lex_le(sorted[sorted.len() - 1], name));
        lemma_insert_name_at(sorted.drop_last(), name, at);
        assert(sorted.insert(at, name) =~= sorted.drop_last().insert(at, name).push(
            sorted.last(),
        ));
    }
}

/// Inserting keeps a sorted list sorted and adds the one name.
proof fn lemma_insert_name(sorted: Seq<Seq<u8>>, name: Seq<u8>)
    ensures
        insert_name(sorted, name).to_multiset() == sorted.to_multiset().insert(name),
        insert_name(sorted, name).len() == sorted.len() + 1,
        is_sorted(sorted) ==> is_sorted(insert_name(sorted, name)),
    decreases sorted.len(),
{
    broadcast use vstd::seq_lib::group_to_multiset_ensures;

    let out = insert_name(sorted, name);
    if sorted.len() == 0 {
        assert(sorted =~= Seq::<Seq<u8>>::empty());
        assert(out =~= sorted.push(name));
    } else if lex_le(sorted.last(), name) {
        if is_sorted(sorted) {
            assert forall|i: int, j: int| 0 <= i < j < out.len() implies lex_le(out[i], out[j]) by {
                if j == sorted.len() && i < sorted.len() - 1 {
                    lemma_lex_le_transitive(sorted[i], sorted[sorted.len() - 1], name);
                }
            }
        }
    } else {
        let front = sorted.drop_last();
        let inner = insert_name(front, name);
        lemma_insert_name(front, name);
        assert(sorted =~= front.push(sorted.last()));
        assert(out.to_multiset() =~= sorted.to_multiset().insert(name));
        if is_sorted(sorted) {
            assert(is_sorted(front));
            assert forall|i: int| 0 <= i < inner.len() implies lex_le(inner[i], sorted.last()) by {
                assert(inner.contains(inner[i]));
                assert(inner.to_multiset().count(inner[i]) > 0);
                if inner[i] != name {
                    assert(front.to_multiset().count(inner[i]) > 0);
                    assert(front.contains(inner[i]));
                    let k = choose|k: int| 0 <= k < front.len() && front[k] == inner[i];
                    assert(lex_le(sorted[k], sorted[sorted.len() - 1]));
                } else {
                    lemma_lex_le_total(sorted.last(), name);
                }
            }
        }
    }
}

/// Sorting. The sorted names are the given names, each as often as it was
/// given, in the order of byte texts.
pub proof fn law_sort_names(names: Seq<Seq<u8>>)
    ensures
        sort_names(names).to_multiset() == names.to_multiset(),
        sort_names(names).len() == names.len(),
        is_sorted(sort_names(names)),
    decreases names.len(),
{
    broadcast use vstd::seq_lib::group_to_multiset_ensures;

    if names.len() == 0 {
        assert(names =~= Seq::<Seq<u8>>::empty());
    } else {
        law_sort_names(names.drop_last());
        lemma_insert_name(sort_names(names.drop_last()), names.last());
        assert(names =~= names.drop_last().push(names.last()));
    }
}

/// Puts `name` into `out` behind the last name that does not follow it.
fn insert_sorted_name(out: &mut Vec<Vec<u8>>, name: Vec<u8>)
    ensures
        names_view(final(out)@) == insert_name(names_view(old(out)@), name@),
{
    let ghost before = names_view(out@);
    let mut at: usize = out.len();
    while at > 0 && !bytes_le(out[at - 1].as_slice(), name.as_slice())
        invariant
            at <= out.len(),
            out@ == old(out)@,
            before == names_view(out@),
            forall|j: int| at <= j < out.len() ==> !lex_le(#[trigger] before[j], name@),
        decreases at,
    {
        at = at - 1;
    }
    proof {
        lemma_insert_name_at(before, name@, at as int);
    }
    out.insert(at, name);
    assert(names_view(out@) =~= before.insert(at as int, name@));
}

/// The names that a listing holds, one on each line: each line without the
/// white space around it, empty lines left out, in the order of the lines.
pub open spec fn listed_names(listing: Seq<u8>, from: int) -> Seq<Seq<u8>>
    decreases listing.len() - from,
{
    if from < 0 || from >= listing.len() {
        Seq::empty()
    } else {
        proof {
            lemma_line_end_bounds(listing, from);
        }
        let name = trimmed(listing.subrange(from, line_end(listing, from)));
        let rest = listed_names(listing, next_line(listing, from));
        if name.len() == 0 {
            rest
        } else {
            seq![name] + rest
        }
    }
}

/// The tracked files of a tree, from the listing that version control
/// prints: the names on its lines, in the order of byte texts.
pub open spec fn tracked_names(listing: Seq<u8>) -> Seq<Seq<u8>> {
    sort_names(listed_names(listing, 0))
}

/// Reads the names of the tracked files from a listing and sorts them.
pub fn tracked_files(listing: &[u8]) -> (names: Vec<Vec<u8>>)
    ensures
        names_view(names@) == tracked_names(listing@),
{
    let mut names: Vec<Vec<u8>> = Vec::new();
    let ghost mut seen: Seq<Seq<u8>> = Seq::empty();
    let mut from: usize = 0;
    assert(names_view(names@) =~= sort_names(seen));
    while from < listing.len()
        invariant
            from <= listing.len(),
            seen + listed_names(listing@, from as int) == listed_names(listing@, 0),
            names_view(names@) == sort_names(seen),
        decreases listing.len() - from,
    {
        let end: usize = line_end_at(listing, from);
        let name = trim(slice_subrange(listing, from, end));
        let ghost rest = listed_names(listing@, next_line(listing@, from as int));
        if name.len() > 0 {
            proof {
                assert((seen.push(name@)).drop_last() =~= seen);
                assert(seen.push(name@) + rest =~= seen + (seq![name@] + rest));
            }
            insert_sorted_name(&mut names, slice_to_vec(name));
            proof {
                seen = seen.push(name@);
            }
        }
        from = if end < listing.len() {
            end + 1
        } else {
            end
        };
    }
    assert(seen =~= listed_names(listing@, 0));
    names
}

/// A tracked file and what version control printed as the hash of its
/// content.
#[derive(Debug)]
pub struct TrackedFile {
    pub name: Vec<u8>,
    pub hash: Vec<u8>,
}

/// A tracked file as plain values.
pub struct TrackedView {
    pub name: Seq<u8>,
    pub hash: Seq<u8>,
}

impl View for TrackedFile {
    type V = TrackedView;

    open spec fn view(&self) -> TrackedView {
        TrackedView { name: self.name@, hash: self.hash@ }
    }
}

/// The tracked files of a list as plain values.
pub open spec fn tracked_view(files: Seq<TrackedFile>) -> Seq<TrackedView> {
    Seq::new(files.len(), |i: int| files[i]@)
}

/// Whether `a` stands before `b`, or is `b`, in the order of tracked files:
/// by name in the order of byte texts, and files of one name by what was
/// printed as their hash.
pub open spec fn tracked_le(a: TrackedView, b: TrackedView) -> bool {
    if a.name == b.name {
        lex_le(a.hash, b.hash)
    } else {
        lex_le(a.name, b.name)
    }
}

/// Of two tracked files, one stands before the other or they are the same.
pub proof fn lemma_tracked_le_total(a: TrackedView, b: TrackedView)
    ensures
        tracked_le(a, b) || tracked_le(b, a),
        tracked_le(a, b) && tracked_le(b, a) ==> a == b,
{
    lemma_lex_le_total(a.name, b.name);
    lemma_lex_le_total(a.hash, b.hash);
}

/// The order of tracked files is transitive.
pub proof fn lemma_tracked_le_transitive(a: TrackedView, b: TrackedView, c: TrackedView)
    requires
        tracked_le(a, b),
        tracked_le(b, c),
    ensures
        tracked_le(a, c),
{
    lemma_lex_le_total(a.name, b.name);
    lemma_lex_le_total(b.name, c.name);
    if a.name == b.name && b.name == c.name {
        lemma_lex_le_transitive(a.hash, b.hash, c.hash);
    } else if a.name != b.name && b.name != c.name {
        lemma_lex_le_transitive(a.name, b.name, c.name);
    }
}

/// No tracked file stands before one that it should follow.
pub open spec fn is_sorted_by_name(files: Seq<TrackedView>) -> bool {
    forall|i: int, j: int| 0 <= i < j < files.len() ==> tracked_le(files[i], files[j])
}

/// Puts `f` into a list behind the last file that does not follow it.
pub open spec fn insert_tracked(sorted: Seq<TrackedView>, f: TrackedView) -> Seq<TrackedView>
    decreases sorted.len(),
{
    if sorted.len() == 0 {
        seq![f]
    } else if tracked_le(sorted.last(), f) {
        sorted.push(f)
    } else {
        insert_tracked(sorted.drop_last(), f).push(sorted.last())
    }
}

/// The files by name, in the order of byte texts; files of one name stand
/// by what was printed as their hash.
pub open spec fn sorted_by_name(files: Seq<TrackedView>) -> Seq<TrackedView>
    decreases files.len(),
{
    if files.len() == 0 {
        Seq::empty()
    } else {
        insert_tracked(sorted_by_name(files.drop_last()), files.last())
    }
}

/// `insert_tracked` puts the file at the place where the scan from the end
/// stops.
proof fn lemma_insert_tracked_at(sorted: Seq<TrackedView>, f: TrackedView, at: int)
    requires
        0 <= at <= sorted.len(),
        forall|j: int| at <= j < sorted.len() ==> !tracked_le(#[trigger] sorted[j], f),
        at > 0 ==> tracked_le(sorted[at - 1], f),
    ensures
        insert_tracked(sorted, f) == sorted.insert(at, f),
    decreases sorted.len(),
{
    if sorted.len() == 0 {
        assert(sorted.insert(at, f) =~= seq![f]);
    } else if at == sorted.len() {
        assert(sorted.insert(at, f) =~= sorted.push(f));
    } else {
        assert(!tracked_le(sorted[sorted.len() - 1], f));
        lemma_insert_tracked_at(sorted.drop_last(), f, at);
        assert(sorted.insert(at, f) =~= sorted.drop_last().insert(at, f).push(sorted.last()));
    }
}

/// Inserting keeps a sorted list sorted and adds the one file.
proof fn lemma_insert_tracked(sorted: Seq<TrackedView>, f: TrackedView)
    ensures
        insert_tracked(sorted, f).to_multiset() == sorted.to_multiset().insert(f),
        insert_tracked(sorted, f).len() == sorted.len() + 1,
        is_sorted_by_name(sorted) ==> is_sorted_by_name(insert_tracked(sorted, f)),
    decreases sorted.len(),
{
    broadcast use vstd::seq_lib::group_to_multiset_ensures;

    let out = insert_tracked(sorted, f);
    if sorted.len() == 0 {
        assert(sorted =~= Seq::<TrackedView>::empty());
        assert(out =~= sorted.push(f));
    } else if tracked_le(sorted.last(), f) {
        if is_sorted_by_name(sorted) {
            assert forall|i: int, j: int| 0 <= i < j < out.len() implies tracked_le(
                out[i],
                out[j],
            ) by {
                if j == sorted.len() && i < sorted.len() - 1 {
                    lemma_tracked_le_transitive(sorted[i], sorted[sorted.len() - 1], f);
                }
            }
        }
    } else {
        let front = sorted.drop_last();
        let inner = insert_tracked(front, f);
        lemma_insert_tracked(front, f);
        assert(sorted =~= front.push(sorted.last()));
        assert(out.to_multiset() =~= sorted.to_multiset().insert(f));
        if is_sorted_by_name(sorted) {
            assert(is_sorted_by_name(front));
            assert forall|i: int| 0 <= i < inner.len() implies tracked_le(
                inner[i],
                sorted.last(),
            ) by {
                assert(inner.contains(inner[i]));
                assert(inner.to_multiset().count(inner[i]) > 0);
                if inner[i] != f {
                    assert(front.to_multiset().count(inner[i]) > 0);
                    assert(front.contains(inner[i]));
                    let k = choose|k: int| 0 <= k < front.len() && front[k] == inner[i];
                    assert(tracked_le(sorted[k], sorted[sorted.len() - 1]));
                } else {
                    lemma_tracked_le_total(sorted.last(), f);
                }
            }
        }
    }
}

/// Sorting. The sorted files are the given files, each as often as it was
/// given, in the order of tracked files.
pub proof fn law_sorted_by_name(files: Seq<TrackedView>)
    ensures
        sorted_by_name(files).to_multiset() == files.to_multiset(),
        sorted_by_name(files).len() == files.len(),
        is_sorted_by_name(sorted_by_name(files)),
    decreases files.len(),
{
    broadcast use vstd::seq_lib::group_to_multiset_ensures;

    if files.len() == 0 {
        assert(files =~= Seq::<TrackedView>::empty());
    } else {
        law_sorted_by_name(files.drop_last());
        lemma_insert_tracked(sorted_by_name(files.drop_last()), files.last());
        assert(files =~= files.drop_last().push(files.last()));
    }
}

/// Two sorted lists that hold the same files, each as often, are one list.
proof fn lemma_sorted_is_determined(a: Seq<TrackedView>, b: Seq<TrackedView>)
    requires
        is_sorted_by_name(a),
        is_sorted_by_name(b),
        a.to_multiset() == b.to_multiset(),
    ensures
        a == b,
    decreases a.len(),
{
    broadcast use vstd::seq_lib::group_to_multiset_ensures;

    assert(a.to_multiset().len() == a.len());
    assert(b.to_multiset().len() == b.len());
    if a.len() == 0 {
        assert(a =~= b);
    } else {
        let x = a.last();
        let y = b.last();
        assert(a.contains(x));
        assert(b.to_multiset().count(x) > 0);
        assert(b.contains(x));
        let i = choose|i: int| 0 <= i < b.len() && b[i] == x;
        assert(tracked_le(x, y)) by {
            if i < b.len() - 1 {
                assert(tracked_le(b[i], b[b.len() - 1]));
            } else {
                lemma_tracked_le_total(x, x);
            }
        }
        assert(b.contains(y));
        assert(a.to_multiset().count(y) > 0);
        assert(a.contains(y));
        let j = choose|j: int| 0 <= j < a.len() && a[j] == y;
        assert(tracked_le(y, x)) by {
            if j < a.len() - 1 {
                assert(tracked_le(a[j], a[a.len() - 1]));
            } else {
                lemma_tracked_le_total(y, y);
            }
        }
        lemma_tracked_le_total(x, y);
        assert(x == y);
        assert(a =~= a.drop_last().push(x));
        assert(b =~= b.drop_last().push(y));
        assert(a.drop_last().to_multiset() =~= a.to_multiset().remove(x));
        assert(b.drop_last().to_multiset() =~= b.to_multiset().remove(y));
        assert(is_sorted_by_name(a.drop_last()));
        assert(is_sorted_by_name(b.drop_last()));
        lemma_sorted_is_determined(a.drop_last(), b.drop_last());
    }
}

/// The order given does not count. Two lists that hold the same tracked
/// files, each as often, are the same list once sorted, and so have the same
/// checksum.
pub proof fn law_checksum_ignores_order(a: Seq<TrackedView>, b: Seq<TrackedView>, n: nat)
    requires
        a.to_multiset() == b.to_multiset(),
    ensures
        sorted_by_name(a) == sorted_by_name(b),
        checksum_of(sorted_by_name(a), n) == checksum_of(sorted_by_name(b), n),
        forall|now_millis: nat|
            checksum_name(Some(a), n, now_millis) == checksum_name(Some(b), n, now_millis),
{
    law_sorted_by_name(a);
    law_sorted_by_name(b);
    lemma_sorted_is_determined(sorted_by_name(a), sorted_by_name(b));
}

/// Compares two tracked files.
fn tracked_file_le(a: &TrackedFile, b: &TrackedFile) -> (le: bool)
    ensures
        le == tracked_le(a@, b@),
{
    proof {
        lemma_lex_le_total(a.name@, b.name@);
    }
    let forth = bytes_le(a.name.as_slice(), b.name.as_slice());
    let back = bytes_le(b.name.as_slice(), a.name.as_slice());
    if forth && back {
        bytes_le(a.hash.as_slice(), b.hash.as_slice())
    } else {
        forth
    }
}

/// The files that a list of positions picks, in the order of the list.
pub open spec fn picked(files: Seq<TrackedView>, order: Seq<usize>) -> Seq<TrackedView> {
    Seq::new(order.len(), |k: int| files[order[k] as int])
}

/// The positions of the files in sorted order.
fn sorted_positions(files: &Vec<TrackedFile>) -> (order: Vec<usize>)
    ensures
        order.len() == files.len(),
        forall|k: int| 0 <= k < order.len() ==> (#[trigger] order@[k]) < files.len(),
        picked(tracked_view(files@), order@) == sorted_by_name(tracked_view(files@)),
{
    let ghost views = tracked_view(files@);
    let mut order: Vec<usize> = Vec::new();
    let mut i: usize = 0;
    assert(picked(views, order@) =~= sorted_by_name(views.take(0)));
    while i < files.len()
        invariant
            i <= files.len(),
            views == tracked_view(files@),
            order.len() == i,
            forall|k: int| 0 <= k < order.len() ==> (#[trigger] order@[k]) < i,
            picked(views, order@) == sorted_by_name(views.take(i as int)),
        decreases files.len() - i,
    {
        let ghost before = picked(views, order@);
        let ghost held = order@;
        let mut at: usize = order.len();
        while at > 0 && !tracked_file_le(&files[order[at - 1]], &files[i])
            invariant
                at <= order.len(),
                i < files.len(),
                order@ == held,
                views == tracked_view(files@),
                before == picked(views, order@),
                forall|k: int| 0 <= k < order.len() ==> (#[trigger] order@[k]) < i,
                forall|j: int|
                    at <= j < order.len() ==> !tracked_le(#[trigger] before[j], views[i as int]),
            decreases at,
        {
            assert(before[at - 1] == views[order@[at - 1] as int]);
            at = at - 1;
        }
        proof {
            if at > 0 {
                assert(before[at - 1] == views[order@[at - 1] as int]);
            }
            lemma_insert_tracked_at(before, views[i as int], at as int);
            assert(views.take(i + 1).drop_last() =~= views.take(i as int));
            assert(views.take(i + 1).last() == views[i as int]);
        }
        order.insert(at, i);
        proof {
            assert(order@ =~= held.insert(at as int, i));
            assert(picked(views, order@) =~= before.insert(at as int, views[i as int]));
        }
        i = i + 1;
    }
    assert(views.take(i as int) =~= views);
    order
}

/// The line of a tracked file in the text that is hashed: its name, a colon,
/// its hash without the white space around it, and a line feed.
pub open spec fn tracked_line(f: TrackedView) -> Seq<u8> {
    f.name + seq![0x3Au8] + trimmed(f.hash) + seq![0x0Au8]
}

/// The lines of the tracked files, one after the other.
pub open spec fn tracked_lines(files: Seq<TrackedView>) -> Seq<u8>
    decreases files.len(),
{
    if files.len() == 0 {
        Seq::empty()
    } else {
        tracked_lines(files.drop_last()) + tracked_line(files.last())
    }
}

/// The decimal digits of `n` as bytes.
pub open spec fn decimal_bytes(n: nat) -> Seq<u8>
    decreases n,
{
    if n < 10 {
        seq![(0x30 + n) as u8]
    } else {
        decimal_bytes(n / 10).push((0x30 + n % 10) as u8)
    }
}

/// The text that is hashed: the lines of the tracked files, then the chunk
/// size in decimal digits unless it is 0.
pub open spec fn checksum_input(files: Seq<TrackedView>, chunk_size: nat) -> Seq<u8> {
    if chunk_size == 0 {
        tracked_lines(files)
    } else {
        tracked_lines(files) + decimal_bytes(chunk_size)
    }
}

/// Two lower-case hexadecimal digits for each byte.
pub open spec fn hex_of_bytes(bytes: Seq<u8>) -> Seq<char>
    decreases bytes.len(),
{
    if bytes.len() == 0 {
        Seq::empty()
    } else {
        hex_of_bytes(bytes.drop_last()).push(digit_char(bytes.last() as int / 16)).push(
            digit_char(bytes.last() as int % 16),
        )
    }
}

/// The checksum of a list of tracked files: the first eight hexadecimal
/// digits of the SHA-256 digest of the text made of them, in their order.
pub open spec fn checksum_of(files: Seq<TrackedView>, chunk_size: nat) -> Seq<char> {
    hex_of_bytes(sha256_digest(checksum_input(files, chunk_size)).take(4))
}

/// Appends the decimal digits of `n`.
fn push_decimal_bytes(out: &mut Vec<u8>, n: usize)
    ensures
        final(out)@ == old(out)@ + decimal_bytes(n as nat),
    decreases n,
{
    if n >= 10 {
        push_decimal_bytes(out, n / 10);
    }
    let d: u8 = (n % 10) as u8;
    out.push(0x30 + d);
    assert(out@ =~= old(out)@ + decimal_bytes(n as nat));
}

/// Whether a character is a lower-case hexadecimal digit.
pub open spec fn is_hex_char(c: char) -> bool {
    ('0' <= c && c <= '9') || ('a' <= c && c <= 'f')
}

/// Whether a text is made of lower-case hexadecimal digits alone.
pub open spec fn all_hex(s: Seq<char>) -> bool {
    forall|i: int| 0 <= i < s.len() ==> is_hex_char(#[trigger] s[i])
}

/// The hexadecimal text of bytes has two digits for each byte.
pub proof fn lemma_hex_of_bytes(bytes: Seq<u8>)
    ensures
        hex_of_bytes(bytes).len() == 2 * bytes.len(),
        all_hex(hex_of_bytes(bytes)),
    decreases bytes.len(),
{
    if bytes.len() > 0 {
        lemma_hex_of_bytes(bytes.drop_last());
        let front = hex_of_bytes(bytes.drop_last());
        let high = digit_char(bytes.last() as int / 16);
        let low = digit_char(bytes.last() as int % 16);
        assert(is_hex_char(high) && is_hex_char(low));
        assert forall|i: int| 0 <= i < hex_of_bytes(bytes).len() implies is_hex_char(
            #[trigger] hex_of_bytes(bytes)[i],
        ) by {
            if i < front.len() {
                assert(hex_of_bytes(bytes)[i] == front[i]);
            }
        }
    }
}

/// The hexadecimal digits of a number are hexadecimal digits.
pub proof fn lemma_hex_digits(n: nat)
    ensures
        hex_digits(n).len() >= 1,
        all_hex(hex_digits(n)),
    decreases n,
{
    if n >= 16 {
        lemma_hex_digits(n / 16);
        let front = hex_digits(n / 16);
        assert(is_hex_char(digit_char((n % 16) as int)));
        assert forall|i: int| 0 <= i < hex_digits(n).len() implies is_hex_char(
            #[trigger] hex_digits(n)[i],
        ) by {
            if i < front.len() {
                assert(hex_digits(n)[i] == front[i]);
            }
        }
    } else {
        assert(is_hex_char(digit_char(n as int)));
    }
}

/// The powers of sixteen.
pub open spec fn pow16(k: nat) -> nat
    decreases k,
{
    if k == 0 {
        1
    } else {
        16 * pow16((k - 1) as nat)
    }
}

/// A number has more than `k` hexadecimal digits exactly from the `k`-th
/// power of sixteen on.
pub proof fn lemma_hex_digits_len(n: nat, k: nat)
    ensures
        n >= pow16(k) ==> hex_digits(n).len() >= k + 1,
        k >= 1 && n < pow16(k) ==> hex_digits(n).len() <= k,
    decreases k,
{
    if k >= 1 {
        lemma_hex_digits_len(n / 16, (k - 1) as nat);
        if k == 1 {
            assert(pow16(1) == 16) by {
                reveal_with_fuel(pow16, 2);
            }
        }
    }
}

/// The first eight characters of a text, or all of it where it has fewer.
pub open spec fn first_eight(s: Seq<char>) -> Seq<char> {
    if s.len() <= 8 {
        s
    } else {
        s.take(8)
    }
}

/// The name that stands in for a checksum: the first eight hexadecimal
/// digits of the time in milliseconds.
pub open spec fn fallback_name(now_millis: nat) -> Seq<char> {
    first_eight(hex_digits(now_millis))
}

/// The name by which the output directory of a tree is told from others: the
/// checksum of its tracked files, sorted, where they are known, and else the
/// name made from the time.
pub open spec fn checksum_name(
    files: Option<Seq<TrackedView>>,
    chunk_size: nat,
    now_millis: nat,
) -> Seq<char> {
    match files {
        Some(f) => checksum_of(sorted_by_name(f), chunk_size),
        None => fallback_name(now_millis),
    }
}

/// Computes the checksum of a tree from its tracked files, which it takes
/// in sorted order whatever the order given, and a chunk size. It has eight
/// lower-case hexadecimal digits.
pub fn repo_checksum(files: &Vec<TrackedFile>, chunk_size: usize) -> (sum: String)
    ensures
        sum@ == checksum_of(sorted_by_name(tracked_view(files@)), chunk_size as nat),
        sum@.len() == 8,
        all_hex(sum@),
{
    let ghost views = tracked_view(files@);
    let ghost sorted = sorted_by_name(views);
    let order = sorted_positions(files);
    let mut input: Vec<u8> = Vec::new();
    let mut i: usize = 0;
    assert(input@ =~= tracked_lines(sorted.take(0)));
    while i < order.len()
        invariant
            i <= order.len(),
            views == tracked_view(files@),
            forall|k: int| 0 <= k < order.len() ==> (#[trigger] order@[k]) < files.len(),
            sorted == picked(views, order@),
            input@ == tracked_lines(sorted.take(i as int)),
        decreases order.len() - i,
    {
        let ghost before = input@;
        let file = &files[order[i]];
        append_bytes(&mut input, file.name.as_slice());
        input.push(0x3A);
        append_bytes(&mut input, trim(file.hash.as_slice()));
        input.push(0x0A);
        proof {
            assert(sorted[i as int] == file@);
            assert(input@ =~= before + tracked_line(file@));
            assert(sorted.take(i + 1).drop_last() =~= sorted.take(i as int));
            assert(sorted.take(i + 1).last() == file@);
        }
        i = i + 1;
    }
    assert(sorted.take(i as int) =~= sorted);
    if chunk_size != 0 {
        push_decimal_bytes(&mut input, chunk_size);
    }
    let digest = sha256(input.as_slice());
    let mut sum = String::new();
    let mut k: usize = 0;
    assert(sum@ =~= hex_of_bytes(digest@.take(0)));
    while k < 4
        invariant
            k <= 4,
            digest@.len() == 32,
            sum@ == hex_of_bytes(digest@.take(k as int)),
        decreases 4 - k,
    {
        let b: u8 = digest[k];
        push_hex_pair(&mut sum, b);
        proof {
            assert(digest@.take(k + 1).drop_last() =~= digest@.take(k as int));
            assert(digest@.take(k + 1).last() == b);
        }
        k = k + 1;
    }
    proof {
        lemma_hex_of_bytes(digest@.take(4));
    }
    sum
}

/// Appends the two hexadecimal digits of a byte.
fn push_hex_pair(out: &mut String, b: u8)
    ensures
        final(out)@ == old(out)@.push(digit_char(b as int / 16)).push(digit_char(b as int % 16)),
{
    let high: u8 = b / 16;
    let low: u8 = b % 16;
    push_hex_digits(out, high as u128);
    push_hex_digits(out, low as u128);
    assert(out@ =~= old(out)@.push(digit_char(b as int / 16)).push(digit_char(b as int % 16)));
}

/// A name for an output directory where no checksum can be had: the first
/// eight hexadecimal digits of the time in milliseconds. It has eight digits
/// for every time from 0x10000000 milliseconds on.
pub fn fallback_timestamp(now_millis: u128) -> (name: String)
    ensures
        name@ == fallback_name(now_millis as nat),
        name@.len() <= 8,
        now_millis >= 0x1000_0000 ==> name@.len() == 8,
        all_hex(name@),
{
    let mut n: u128 = now_millis;
    while n >= 0x1_0000_0000
        invariant
            fallback_name(n as nat) == fallback_name(now_millis as nat),
            now_millis >= 0x1000_0000 ==> n >= 0x1000_0000,
        decreases n,
    {
        proof {
            assert(pow16(8) == 0x1_0000_0000 && pow16(7) == 0x1000_0000) by {
                reveal_with_fuel(pow16, 9);
            }
            lemma_hex_digits_len((n / 16) as nat, 7);
            let front = hex_digits((n / 16) as nat);
            assert(hex_digits(n as nat) == front.push(digit_char((n % 16) as int)));
            assert(first_eight(hex_digits(n as nat)) =~= first_eight(front));
        }
        n = n / 16;
    }
    proof {
        assert(pow16(8) == 0x1_0000_0000 && pow16(7) == 0x1000_0000) by {
            reveal_with_fuel(pow16, 9);
        }
        lemma_hex_digits_len(n as nat, 8);
        lemma_hex_digits_len(n as nat, 7);
        lemma_hex_digits(n as nat);
    }
    let mut name = String::new();
    push_hex_digits(&mut name, n);
    assert(name@ =~= hex_digits(n as nat));
    name
}

/// The tracked files of a list, where there is one, as plain values.
pub open spec fn option_tracked_view(files: Option<&Vec<TrackedFile>>) -> Option<Seq<TrackedView>> {
    match files {
        Some(f) => Some(tracked_view(f@)),
        None => None,
    }
}

/// Names the output directory of a tree: by the checksum of its tracked
/// files where version control could be asked, and else by the time. The
/// name is made of lower-case hexadecimal digits, eight of them unless the
/// time is taken and is below 0x10000000 milliseconds.
pub fn get_repo_checksum(files: Option<&Vec<TrackedFile>>, chunk_size: usize, now_millis: u128) -> (name:
    String)
    ensures
        name@ == checksum_name(option_tracked_view(files), chunk_size as nat, now_millis as nat),
        all_hex(name@),
        name@.len() <= 8,
        files is Some || now_millis >= 0x1000_0000 ==> name@.len() == 8,
{
    match files {
        Some(f) => repo_checksum(f, chunk_size),
        None => fallback_timestamp(now_millis),
    }
}

} // verus!
