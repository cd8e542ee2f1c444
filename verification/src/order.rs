//! The order of assembly: candidates by ascending priority, those of equal
//! priority in the order in which they were found.

use vstd::prelude::*;

verus! {

/// A file that is taken: the number under which the caller found it, its
/// path relative to the root, and its priority.
#[derive(Debug)]
pub struct FileEntry {
    pub index: usize,
    pub rel_path: String,
    pub priority: i64,
}

/// A candidate as plain values.
pub struct FileView {
    pub index: nat,
    pub rel_path: Seq<char>,
    pub priority: int,
}

impl View for FileEntry {
    type V = FileView;

    open spec fn view(&self) -> FileView {
        FileView { index: self.index as nat, rel_path: self.rel_path@, priority: self.priority as int }
    }
}

/// The candidates of a list as plain values.
pub open spec fn files_view(files: Seq<FileEntry>) -> Seq<FileView> {
    Seq::new(files.len(), |i: int| files[i]@)
}

/// No file stands before one of a lower priority.
pub open spec fn is_ascending(files: Seq<FileView>) -> bool {
    forall|i: int, j: int| 0 <= i < j < files.len() ==> files[i].priority <= files[j].priority
}

/// The files of priority `p`, in their order.
pub open spec fn of_priority(files: Seq<FileView>, p: int) -> Seq<FileView>
    decreases files.len(),
{
    if files.len() == 0 {
        Seq::empty()
    } else if files.last().priority == p {
        of_priority(files.drop_last(), p).push(files.last())
    } else {
        of_priority(files.drop_last(), p)
    }
}

/// `output` is `input` in the order of assembly: the same files, by
/// ascending priority, and for each priority in the order of `input`.
pub open spec fn is_priority_order(input: Seq<FileView>, output: Seq<FileView>) -> bool {
    &&& output.len() == input.len()
    &&& is_ascending(output)
    &&& forall|p: int| of_priority(output, p) == of_priority(input, p)
}

/// The files of one priority in two lists, one after the other, are those of
/// the first list followed by those of the second.
pub proof fn lemma_of_priority_concat(a: Seq<FileView>, b: Seq<FileView>, p: int)
    ensures
        of_priority(a + b, p) == of_priority(a, p) + of_priority(b, p),
    decreases b.len(),
{
    if b.len() == 0 {
        assert(a + b =~= a);
        assert(of_priority(a, p) + of_priority(b, p) =~= of_priority(a, p));
    } else {
        assert((a + b).drop_last() =~= a + b.drop_last());
        lemma_of_priority_concat(a, b.drop_last(), p);
        if b.last().priority == p {
            assert(of_priority(a + b, p) =~= of_priority(a, p) + of_priority(b, p));
        }
    }
}

/// A list holds no file of a priority that none of its files has.
proof fn lemma_of_priority_none(files: Seq<FileView>, p: int)
    requires
        forall|i: int| 0 <= i < files.len() ==> files[i].priority != p,
    ensures
        of_priority(files, p) == Seq::<FileView>::empty(),
    decreases files.len(),
{
    if files.len() > 0 {
        lemma_of_priority_none(files.drop_last(), p);
    }
}

/// A single file is the only file of its priority.
proof fn lemma_of_priority_single(f: FileView, p: int)
    ensures
        of_priority(seq![f], p) == if f.priority == p {
            seq![f]
        } else {
            Seq::<FileView>::empty()
        },
{
    assert(seq![f].drop_last() =~= Seq::<FileView>::empty());
    assert(of_priority(Seq::<FileView>::empty(), p) =~= Seq::<FileView>::empty());
    if f.priority == p {
        assert(of_priority(seq![f], p) =~= seq![f]);
    }
}

/// The files of `v`, last first.
fn reversed(v: Vec<FileEntry>) -> (out: Vec<FileEntry>)
    ensures
        files_view(out@) == files_view(v@).reverse(),
{
    let ghost given = files_view(v@);
    let mut rest = v;
    let mut out: Vec<FileEntry> = Vec::new();
    while rest.len() > 0
        invariant
            rest.len() + out.len() == given.len(),
            files_view(rest@) == given.take(rest.len() as int),
            forall|k: int| 0 <= k < out.len() ==> files_view(out@)[k] == given[given.len() - 1 - k],
        decreases rest.len(),
    {
        let ghost held = files_view(rest@);
        let ghost done = files_view(out@);
        let last = rest.pop().unwrap();
        assert(last@ == held[held.len() - 1]);
        out.push(last);
        proof {
            assert(files_view(rest@) =~= given.take(rest.len() as int));
            assert forall|k: int| 0 <= k < out.len() implies files_view(out@)[k] == given[given.len()
                - 1 - k] by {
                if k < done.len() {
                    assert(files_view(out@)[k] == done[k]);
                }
            }
        }
    }
    assert(files_view(out@) =~= given.reverse());
    out
}

/// Merges two lists that are each in ascending order. Of two files of equal
/// priority, the one of `left` comes first.
fn merge(left: Vec<FileEntry>, right: Vec<FileEntry>) -> (out: Vec<FileEntry>)
    requires
        is_ascending(files_view(left@)),
        is_ascending(files_view(right@)),
        left.len() + right.len() <= usize::MAX,
    ensures
        out.len() == left.len() + right.len(),
        is_ascending(files_view(out@)),
        forall|p: int|
            of_priority(files_view(out@), p) == of_priority(files_view(left@), p) + of_priority(
                files_view(right@),
                p,
            ),
{
    let ghost a_all = files_view(left@);
    let ghost b_all = files_view(right@);
    let mut a = left;
    let mut b = right;
    let mut back: Vec<FileEntry> = Vec::new();
    proof {
        assert(files_view(a@) =~= a_all.take(a.len() as int));
        assert(files_view(b@) =~= b_all.take(b.len() as int));
        assert(files_view(back@).reverse() =~= Seq::<FileView>::empty());
        assert(a_all.skip(a.len() as int) =~= Seq::<FileView>::empty());
        assert(b_all.skip(b.len() as int) =~= Seq::<FileView>::empty());
        assert forall|p: int|
            of_priority(files_view(back@).reverse(), p) == of_priority(
                a_all.skip(a.len() as int),
                p,
            ) + of_priority(b_all.skip(b.len() as int), p) by {
            assert(of_priority(Seq::<FileView>::empty(), p) + of_priority(
                Seq::<FileView>::empty(),
                p,
            ) =~= Seq::<FileView>::empty());
        }
    }
    while a.len() > 0 || b.len() > 0
        invariant
            is_ascending(a_all),
            is_ascending(b_all),
            a.len() <= a_all.len(),
            b.len() <= b_all.len(),
            files_view(a@) == a_all.take(a.len() as int),
            files_view(b@) == b_all.take(b.len() as int),
            back.len() == (a_all.len() - a.len()) + (b_all.len() - b.len()),
            forall|x: int, y: int|
                0 <= x < y < back.len() ==> files_view(back@)[x].priority >= files_view(
                    back@,
                )[y].priority,
            forall|x: int, k: int|
                0 <= x < back.len() && 0 <= k < a.len() ==> files_view(back@)[x].priority
                    >= a_all[k].priority,
            forall|x: int, k: int|
                0 <= x < back.len() && 0 <= k < b.len() ==> files_view(back@)[x].priority
                    >= b_all[k].priority,
            forall|x: int, y: int|
                a.len() <= x < a_all.len() && 0 <= y < b.len() ==> a_all[x].priority
                    > b_all[y].priority,
            forall|p: int|
                of_priority(files_view(back@).reverse(), p) == of_priority(
                    a_all.skip(a.len() as int),
                    p,
                ) + of_priority(b_all.skip(b.len() as int), p),
        decreases a.len() + b.len(),
    {
        let ghost done = files_view(back@);
        let ghost i = a.len() as int;
        let ghost j = b.len() as int;
        let from_left: bool = if b.len() == 0 {
            true
        } else if a.len() == 0 {
            false
        } else {
            a[a.len() - 1].priority > b[b.len() - 1].priority
        };
        proof {
            if a.len() > 0 {
                assert(files_view(a@)[i - 1] == a_all[i - 1]);
            }
            if b.len() > 0 {
                assert(files_view(b@)[j - 1] == b_all[j - 1]);
            }
        }
        if from_left {
            let f = a.pop().unwrap();
            assert(f@ == a_all[i - 1]);
            back.push(f);
            proof {
                let now = files_view(back@);
                assert(now =~= done.push(f@));
                assert(files_view(a@) =~= a_all.take(i - 1));
                assert(now.reverse() =~= seq![f@] + done.reverse());
                assert(a_all.skip(i - 1) =~= seq![f@] + a_all.skip(i));
                assert forall|p: int|
                    of_priority(now.reverse(), p) == of_priority(a_all.skip(i - 1), p)
                        + of_priority(b_all.skip(j), p) by {
                    lemma_of_priority_concat(seq![f@], done.reverse(), p);
                    lemma_of_priority_concat(seq![f@], a_all.skip(i), p);
                    assert(of_priority(seq![f@], p) + (of_priority(a_all.skip(i), p) + of_priority(
                        b_all.skip(j),
                        p,
                    )) =~= (of_priority(seq![f@], p) + of_priority(a_all.skip(i), p)) + of_priority(
                        b_all.skip(j),
                        p,
                    ));
                }
            }
        } else {
            let f = b.pop().unwrap();
            assert(f@ == b_all[j - 1]);
            back.push(f);
            proof {
                let now = files_view(back@);
                assert(now =~= done.push(f@));
                assert(files_view(b@) =~= b_all.take(j - 1));
                assert(now.reverse() =~= seq![f@] + done.reverse());
                assert(b_all.skip(j - 1) =~= seq![f@] + b_all.skip(j));
                assert forall|p: int|
                    of_priority(now.reverse(), p) == of_priority(a_all.skip(i), p) + of_priority(
                        b_all.skip(j - 1),
                        p,
                    ) by {
                    lemma_of_priority_concat(seq![f@], done.reverse(), p);
                    lemma_of_priority_concat(seq![f@], b_all.skip(j), p);
                    lemma_of_priority_single(f@, p);
                    if f@.priority == p {
                        assert forall|x: int| 0 <= x < a_all.skip(i).len() implies a_all.skip(
                            i,
                        )[x].priority != p by {
                            assert(a_all.skip(i)[x] == a_all[i + x]);
                        }
                        lemma_of_priority_none(a_all.skip(i), p);
                        assert(of_priority(seq![f@], p) + (Seq::<FileView>::empty() + of_priority(
                            b_all.skip(j),
                            p,
                        )) =~= Seq::<FileView>::empty() + (of_priority(seq![f@], p) + of_priority(
                            b_all.skip(j),
                            p,
                        )));
                    } else {
                        assert(Seq::<FileView>::empty() + (of_priority(a_all.skip(i), p)
                            + of_priority(b_all.skip(j), p)) =~= of_priority(a_all.skip(i), p) + (
                        Seq::<FileView>::empty() + of_priority(b_all.skip(j), p)));
                    }
                }
            }
        }
    }
    let ghost done = files_view(back@);
    let out = reversed(back);
    proof {
        assert(files_view(out@).len() == out.len());
        assert(done.reverse().len() == done.len());
        assert(a_all.len() == left.len() && b_all.len() == right.len());
        assert(a_all.skip(0) =~= a_all);
        assert(b_all.skip(0) =~= b_all);
        assert forall|x: int, y: int| 0 <= x < y < done.len() implies done.reverse()[x].priority
            <= done.reverse()[y].priority by {
            assert(done.reverse()[x] == done[done.len() - 1 - x]);
            assert(done.reverse()[y] == done[done.len() - 1 - y]);
        }
    }
    out
}

/// The order of assembly of a list of candidates.
pub open spec fn priority_order(input: Seq<FileView>) -> Seq<FileView> {
    choose|output: Seq<FileView>| is_priority_order(input, output)
}

/// Puts the candidates in the order of assembly: by ascending priority, and
/// those of equal priority in the order given.
pub fn sort_by_priority(files: Vec<FileEntry>) -> (out: Vec<FileEntry>)
    ensures
        is_priority_order(files_view(files@), files_view(out@)),
        files_view(out@) == priority_order(files_view(files@)),
{
    let ghost given = files_view(files@);
    let out = merge_sort(files);
    proof {
        lemma_order_determined(priority_order(given), files_view(out@));
    }
    out
}

/// Sorts by splitting the list in two, sorting each half and merging them.
fn merge_sort(files: Vec<FileEntry>) -> (out: Vec<FileEntry>)
    ensures
        is_priority_order(files_view(files@), files_view(out@)),
    decreases files.len(),
{
    if files.len() <= 1 {
        return files;
    }
    let ghost given = files_view(files@);
    let mid: usize = files.len() / 2;
    let mut left = files;
    let right = left.split_off(mid);
    proof {
        assert(files_view(left@) =~= given.take(mid as int));
        assert(files_view(right@) =~= given.skip(mid as int));
        assert(given =~= given.take(mid as int) + given.skip(mid as int));
    }
    let left = merge_sort(left);
    let right = merge_sort(right);
    let out = merge(left, right);
    proof {
        assert forall|p: int| of_priority(files_view(out@), p) == of_priority(given, p) by {
            lemma_of_priority_concat(given.take(mid as int), given.skip(mid as int), p);
        }
    }
    out
}

/// Ascending priority. In the order of assembly a file of lower priority
/// stands before every file of higher priority.
pub proof fn law_lower_priority_first(input: Seq<FileView>, output: Seq<FileView>, i: int, j: int)
    requires
        is_priority_order(input, output),
        0 <= i < output.len(),
        0 <= j < output.len(),
        output[i].priority < output[j].priority,
    ensures
        i < j,
{
}

/// Each file that `of_priority` gives stands in the list and has the
/// priority.
proof fn lemma_of_priority_member(files: Seq<FileView>, p: int, k: int)
    requires
        0 <= k < of_priority(files, p).len(),
    ensures
        of_priority(files, p)[k].priority == p,
        exists|i: int| 0 <= i < files.len() && files[i] == of_priority(files, p)[k],
    decreases files.len(),
{
    if files.len() > 0 {
        let front = files.drop_last();
        if k < of_priority(front, p).len() {
            lemma_of_priority_member(front, p, k);
            let i = choose|i: int| 0 <= i < front.len() && front[i] == of_priority(front, p)[k];
            assert(files[i] == of_priority(files, p)[k]);
        } else {
            assert(files[files.len() - 1] == of_priority(files, p)[k]);
        }
    }
}

/// Two lists in ascending order that hold, for each priority, the same files
/// in the same order are one list.
proof fn lemma_order_determined(a: Seq<FileView>, b: Seq<FileView>)
    requires
        a.len() == b.len(),
        is_ascending(a),
        is_ascending(b),
        forall|p: int| of_priority(a, p) == of_priority(b, p),
    ensures
        a == b,
    decreases a.len(),
{
    if a.len() == 0 {
        assert(a =~= b);
    } else {
        let m = a.last().priority;
        let n = b.last().priority;
        let in_a = of_priority(a, m);
        let in_b = of_priority(b, n);
        assert(in_a == of_priority(a.drop_last(), m).push(a.last()));
        assert(in_b == of_priority(b.drop_last(), n).push(b.last()));
        assert(m <= n) by {
            assert(of_priority(b, m) == in_a);
            lemma_of_priority_member(b, m, in_a.len() - 1);
            let i = choose|i: int| 0 <= i < b.len() && b[i] == of_priority(b, m)[in_a.len() - 1];
            assert(b[i].priority <= b[b.len() - 1].priority);
        }
        assert(n <= m) by {
            assert(of_priority(a, n) == in_b);
            lemma_of_priority_member(a, n, in_b.len() - 1);
            let i = choose|i: int| 0 <= i < a.len() && a[i] == of_priority(a, n)[in_b.len() - 1];
            assert(a[i].priority <= a[a.len() - 1].priority);
        }
        assert(in_a == in_b);
        assert(a.last() == b.last()) by {
            assert(in_a[in_a.len() - 1] == a.last());
            assert(in_b[in_b.len() - 1] == b.last());
        }
        assert forall|p: int|
            of_priority(a.drop_last(), p) == of_priority(b.drop_last(), p) by {
            assert(of_priority(a, p) == of_priority(b, p));
            if p == m {
                assert(in_a.drop_last() =~= of_priority(a.drop_last(), m));
                assert(in_b.drop_last() =~= of_priority(b.drop_last(), m));
            }
        }
        lemma_order_determined(a.drop_last(), b.drop_last());
        assert(a =~= a.drop_last().push(a.last()));
        assert(b =~= b.drop_last().push(b.last()));
    }
}

/// The order of assembly is determined. A list of candidates has one order
/// of assembly and no other.
pub proof fn law_priority_order_is_unique(input: Seq<FileView>, a: Seq<FileView>, b: Seq<FileView>)
    requires
        is_priority_order(input, a),
        is_priority_order(input, b),
    ensures
        a == b,
        a == priority_order(input),
{
    lemma_order_determined(a, b);
    lemma_order_determined(a, priority_order(input));
}

/// The order of assembly holds the candidates given and no others.
pub proof fn law_order_keeps_files(input: Seq<FileView>, output: Seq<FileView>, i: int)
    requires
        is_priority_order(input, output),
        0 <= i < output.len(),
    ensures
        exists|k: int| 0 <= k < input.len() && input[k] == output[i],
{
    let p = output[i].priority;
    lemma_in_its_class(output, i);
    let at = choose|at: int| 0 <= at < of_priority(output, p).len() && of_priority(output, p)[at]
        == output[i];
    lemma_of_priority_member(input, p, at);
}

/// Each file stands among the files of its priority.
proof fn lemma_in_its_class(files: Seq<FileView>, i: int)
    requires
        0 <= i < files.len(),
    ensures
        exists|at: int|
            0 <= at < of_priority(files, files[i].priority).len() && of_priority(
                files,
                files[i].priority,
            )[at] == files[i],
    decreases files.len(),
{
    let p = files[i].priority;
    let front = files.drop_last();
    if i == files.len() - 1 {
        let at = of_priority(front, p).len() as int;
        assert(of_priority(files, p)[at] == files[i]);
    } else {
        lemma_in_its_class(front, i);
        let at = choose|at: int|
            0 <= at < of_priority(front, p).len() && of_priority(front, p)[at] == front[i];
        assert(of_priority(files, p)[at] == files[i]);
    }
}

/// Ties keep the order of discovery. Two files of one priority stand in the
/// order of assembly as they stand among the files of this priority in the
/// list given.
pub proof fn law_ties_keep_order(input: Seq<FileView>, output: Seq<FileView>, p: int)
    requires
        is_priority_order(input, output),
    ensures
        of_priority(output, p) == of_priority(input, p),
{
}

/// Puts `f` into a list behind the last file whose priority is not above
/// its own.
spec fn insert_file(sorted: Seq<FileView>, f: FileView) -> Seq<FileView>
    decreases sorted.len(),
{
    if sorted.len() == 0 {
        seq![f]
    } else if sorted.last().priority <= f.priority {
        sorted.push(f)
    } else {
        insert_file(sorted.drop_last(), f).push(sorted.last())
    }
}

/// The order of assembly, built file by file.
spec fn insertion_order(input: Seq<FileView>) -> Seq<FileView>
    decreases input.len(),
{
    if input.len() == 0 {
        Seq::empty()
    } else {
        insert_file(insertion_order(input.drop_last()), input.last())
    }
}

proof fn lemma_insert_file(sorted: Seq<FileView>, f: FileView)
    requires
        is_ascending(sorted),
    ensures
        is_ascending(insert_file(sorted, f)),
        insert_file(sorted, f).len() == sorted.len() + 1,
        forall|p: int|
            of_priority(insert_file(sorted, f), p) == if f.priority == p {
                of_priority(sorted, p).push(f)
            } else {
                of_priority(sorted, p)
            },
        forall|i: int|
            0 <= i < insert_file(sorted, f).len() ==> (#[trigger] insert_file(sorted, f)[i]) == f
                || exists|k: int| 0 <= k < sorted.len() && sorted[k] == insert_file(sorted, f)[i],
    decreases sorted.len(),
{
    let out = insert_file(sorted, f);
    if sorted.len() == 0 {
        assert forall|p: int|
            of_priority(out, p) == if f.priority == p {
                of_priority(sorted, p).push(f)
            } else {
                of_priority(sorted, p)
            } by {
            lemma_of_priority_single(f, p);
            assert(of_priority(sorted, p) =~= Seq::<FileView>::empty());
            assert(Seq::<FileView>::empty().push(f) =~= seq![f]);
        }
    } else if sorted.last().priority <= f.priority {
        assert(out.drop_last() =~= sorted);
        assert forall|i: int| 0 <= i < out.len() implies (#[trigger] out[i]) == f || exists|k: int|
            0 <= k < sorted.len() && sorted[k] == out[i] by {
            if i < sorted.len() {
                assert(sorted[i] == out[i]);
            }
        }
    } else {
        let front = sorted.drop_last();
        let last = sorted.last();
        let inner = insert_file(front, f);
        assert(is_ascending(front));
        lemma_insert_file(front, f);
        assert(out.drop_last() =~= inner);
        assert forall|i: int, j: int| 0 <= i < j < out.len() implies out[i].priority
            <= out[j].priority by {
            if j == out.len() - 1 {
                if inner[i] != f {
                    let k = choose|k: int| 0 <= k < front.len() && front[k] == inner[i];
                    assert(sorted[k].priority <= sorted[sorted.len() - 1].priority);
                }
            } else {
                assert(inner[i].priority <= inner[j].priority);
            }
        }
        assert forall|p: int|
            of_priority(out, p) == if f.priority == p {
                of_priority(sorted, p).push(f)
            } else {
                of_priority(sorted, p)
            } by {
            assert(out.last() == last);
            assert(out.drop_last() == inner);
            assert(of_priority(inner, p) == if f.priority == p {
                of_priority(front, p).push(f)
            } else {
                of_priority(front, p)
            });
            if last.priority == p {
                assert(f.priority != p);
            }
        }
        assert forall|i: int| 0 <= i < out.len() implies (#[trigger] out[i]) == f || exists|k: int|
            0 <= k < sorted.len() && sorted[k] == out[i] by {
            if i < inner.len() {
                if inner[i] != f {
                    let k = choose|k: int| 0 <= k < front.len() && front[k] == inner[i];
                    assert(sorted[k] == out[i]);
                }
            } else {
                assert(sorted[sorted.len() - 1] == out[i]);
            }
        }
    }
}

/// Every list of candidates has an order of assembly.
pub proof fn lemma_priority_order_exists(input: Seq<FileView>)
    ensures
        is_priority_order(input, priority_order(input)),
{
    lemma_insertion_order(input);
}

proof fn lemma_insertion_order(input: Seq<FileView>)
    ensures
        is_priority_order(input, insertion_order(input)),
    decreases input.len(),
{
    if input.len() == 0 {
        assert(is_priority_order(input, insertion_order(input)));
    } else {
        lemma_insertion_order(input.drop_last());
        lemma_insert_file(insertion_order(input.drop_last()), input.last());
    }
}

} // verus!
