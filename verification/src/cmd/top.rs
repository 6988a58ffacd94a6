//! The largest directories or files under a root.

use vstd::prelude::*;
use crate::data::{metas_view, Meta, MetaView};
use crate::path::{rendered, Path, PathView};
use crate::table::{
    cells, decimal, decimal_text, human_size, human_text, list, listing, lossy_text, utf8_lossy,
};
use crate::sizes::{
    distinct, lemma_position_is, lemma_with_more_distinct, lemma_with_more_value, position,
    size_or_zero, sizes_view, with_more, with_size, SizeMap,
};

verus! {

/// Whether the size of the file at `file` counts towards `dir`: `dir` lies
/// strictly above the file and not above `root`.
pub open spec fn counts(dir: PathView, file: PathView, root: PathView) -> bool {
    dir.is_strict_ancestor_of(file) && dir.starts_with(root)
}

/// Whether `dir` is one of the `k` nearest directories above `file`.
pub open spec fn near(dir: PathView, file: PathView, k: nat) -> bool {
    dir.is_strict_ancestor_of(file) && dir.parts.len() + k >= file.parts.len()
}

/// The entries after `size` has been added for the `k` nearest directories
/// above `file`, nearest first, leaving out those that do not start with
/// `root`.
pub open spec fn credited(
    entries: Seq<(PathView, u64)>,
    file: PathView,
    size: u64,
    root: PathView,
    k: nat,
) -> Seq<(PathView, u64)>
    decreases k,
{
    if k == 0 {
        entries
    } else {
        let before = credited(entries, file, size, root, (k - 1) as nat);
        let dir = file.prefix(file.parts.len() - k);
        if dir.starts_with(root) {
            with_more(before, dir, size)
        } else {
            before
        }
    }
}

/// The sizes of directories that result from `files`: file after file, each
/// file's size is added for every directory above it that starts with
/// `root`.
pub open spec fn aggregated(files: Seq<(PathView, u64)>, root: PathView) -> Seq<(PathView, u64)>
    decreases files.len(),
{
    if files.len() == 0 {
        Seq::empty()
    } else {
        credited(
            aggregated(files.drop_last(), root),
            files.last().0,
            files.last().1,
            root,
            files.last().0.parts.len(),
        )
    }
}

/// The sum of the sizes of the files that count towards `dir`.
pub open spec fn dir_total(files: Seq<(PathView, u64)>, dir: PathView, root: PathView) -> int
    decreases files.len(),
{
    if files.len() == 0 {
        0
    } else {
        dir_total(files.drop_last(), dir, root) + if counts(dir, files.last().0, root) {
            files.last().1 as int
        } else {
            0
        }
    }
}

/// The sum of all sizes.
pub open spec fn total_size(files: Seq<(PathView, u64)>) -> int
    decreases files.len(),
{
    if files.len() == 0 {
        0
    } else {
        total_size(files.drop_last()) + files.last().1
    }
}

/// No directory's sum exceeds the sum of all sizes.
pub proof fn lemma_dir_total_bounded(files: Seq<(PathView, u64)>, dir: PathView, root: PathView)
    ensures
        0 <= dir_total(files, dir, root) <= total_size(files),
    decreases files.len(),
{
    if files.len() > 0 {
        lemma_dir_total_bounded(files.drop_last(), dir, root);
    }
}

/// The sum of the first `n` sizes and the next one stays within the sum of
/// all.
pub proof fn lemma_total_size_take(files: Seq<(PathView, u64)>, n: int)
    requires
        0 <= n < files.len(),
    ensures
        0 <= total_size(files.take(n)),
        total_size(files.take(n)) + files[n].1 <= total_size(files),
    decreases files.len(),
{
    if n == files.len() - 1 {
        assert(files.take(n) =~= files.drop_last());
        lemma_dir_total_bounded(files.drop_last(), files[0].0, files[0].0);
    } else {
        lemma_total_size_take(files.drop_last(), n);
        assert(files.drop_last().take(n) =~= files.take(n));
    }
}

/// What crediting the `k` nearest directories above a file does to what is
/// recorded for any directory: each of those that starts with `root` has
/// the file's size more, every other has what it had.
pub proof fn lemma_credited(
    entries: Seq<(PathView, u64)>,
    file: PathView,
    size: u64,
    root: PathView,
    k: nat,
    dir: PathView,
)
    requires
        k <= file.parts.len(),
        distinct(entries),
        forall|other: PathView| #[trigger] size_or_zero(entries, other) + size <= u64::MAX,
    ensures
        distinct(credited(entries, file, size, root, k)),
        size_or_zero(credited(entries, file, size, root, k), dir) == size_or_zero(entries, dir)
            + if near(dir, file, k) && dir.starts_with(root) {
            size as int
        } else {
            0
        },
        position(credited(entries, file, size, root, k), dir) is Some <==> position(entries, dir)
            is Some || (near(dir, file, k) && dir.starts_with(root)),
    decreases k,
{
    if k > 0 {
        let j = (k - 1) as nat;
        let before = credited(entries, file, size, root, j);
        let above = file.prefix(file.parts.len() - k);
        lemma_credited(entries, file, size, root, j, dir);
        lemma_credited(entries, file, size, root, j, above);
        assert(above.parts.len() == file.parts.len() - k);
        assert(!near(above, file, j));
        assert(size_or_zero(entries, above) + size <= u64::MAX);
        assert(near(dir, file, k) <==> near(dir, file, j) || dir == above) by {
            if near(dir, file, k) && !near(dir, file, j) {
                assert(dir.parts =~= above.parts);
            }
            if dir == above {
                assert(above.parts =~= file.parts.take(above.parts.len() as int));
            }
        }
        if above.starts_with(root) {
            lemma_with_more_value(before, above, size, dir);
            lemma_with_more_distinct(before, above, size);
        }
    }
}

/// Directory sums: what is recorded for a directory after all files are in
/// is the sum of the sizes of the files that lie strictly below it, provided
/// the directory starts with the root; and a directory is recorded exactly
/// when some file counts towards it.
pub proof fn lemma_aggregated(files: Seq<(PathView, u64)>, root: PathView, dir: PathView)
    requires
        total_size(files) <= u64::MAX,
    ensures
        distinct(aggregated(files, root)),
        size_or_zero(aggregated(files, root), dir) == dir_total(files, dir, root),
        position(aggregated(files, root), dir) is Some <==> exists|f: int|
            0 <= f < files.len() && counts(dir, (#[trigger] files[f]).0, root),
    decreases files.len(),
{
    if files.len() == 0 {
    } else {
        let init = files.drop_last();
        let file = files.last().0;
        let size = files.last().1;
        let before = aggregated(init, root);
        lemma_dir_total_bounded(init, dir, root);
        lemma_aggregated(init, root, dir);
        assert forall|other: PathView| #[trigger] size_or_zero(before, other) + size
            <= u64::MAX by {
            lemma_aggregated(init, root, other);
            lemma_dir_total_bounded(init, other, root);
        }
        lemma_credited(before, file, size, root, file.parts.len(), dir);
        assert(near(dir, file, file.parts.len()) == dir.is_strict_ancestor_of(file));
        if exists|f: int| 0 <= f < files.len() && counts(dir, (#[trigger] files[f]).0, root) {
            let f = choose|f: int| 0 <= f < files.len() && counts(dir, (#[trigger] files[f]).0, root);
            if f < init.len() {
                assert(counts(dir, init[f].0, root));
            }
        }
        if exists|f: int| 0 <= f < init.len() && counts(dir, (#[trigger] init[f]).0, root) {
            let f = choose|f: int| 0 <= f < init.len() && counts(dir, (#[trigger] init[f]).0, root);
            assert(counts(dir, files[f].0, root));
        }
        if counts(dir, file, root) {
            assert(counts(dir, files[files.len() - 1].0, root));
        }
    }
}

/// Adds up, for every directory above a file and not above `root`, the
/// sizes of the files below it. `root` itself is among the directories.
/// Directories come in the order in which the files first reach them.
pub fn count_dir_sizes(files: &Vec<(Path, u64)>, root_path: &Path) -> (res: SizeMap)
    requires
        total_size(sizes_view(files@)) <= u64::MAX,
    ensures
        res@ == aggregated(sizes_view(files@), root_path@),
{
    let ghost all = sizes_view(files@);
    let ghost root = root_path@;
    let mut dirs = SizeMap::new();
    let mut i: usize = 0;
    proof {
        assert(dirs@ =~= aggregated(all.take(0), root));
    }
    while i < files.len()
        invariant
            i <= files.len(),
            all == sizes_view(files@),
            root == root_path@,
            total_size(all) <= u64::MAX,
            dirs@ == aggregated(all.take(i as int), root),
        decreases files.len() - i,
    {
        let file = &files[i].0;
        let size = files[i].1;
        let ghost before = dirs@;
        let ghost seen = all.take(i as int);
        proof {
            assert(all.take(i + 1).drop_last() =~= seen);
            assert(all.take(i + 1).last() == (file@, size));
            lemma_total_size_take(all, i as int);
            assert forall|other: PathView| #[trigger] size_or_zero(before, other) + size
                <= u64::MAX by {
                lemma_aggregated(seen, root, other);
                lemma_dir_total_bounded(seen, other, root);
            }
            lemma_aggregated(seen, root, root);
        }
        let above = file.ancestors();
        let mut k: usize = 0;
        while k < above.len()
            invariant
                k <= above.len() == file@.parts.len(),
                root == root_path@,
                distinct(before),
                forall|other: PathView| #[trigger] size_or_zero(before, other) + size <= u64::MAX,
                forall|t: int|
                    0 <= t < above@.len() ==> (#[trigger] above@[t])@ == file@.prefix(
                        file@.parts.len() - 1 - t,
                    ),
                dirs@ == credited(before, file@, size, root, k as nat),
            decreases above.len() - k,
        {
            let dir = &above[k];
            proof {
                assert(dir@ == file@.prefix(file@.parts.len() - (k + 1)));
                lemma_credited(before, file@, size, root, k as nat, dir@);
                assert(!near(dir@, file@, k as nat));
            }
            if dir.starts_with(root_path) {
                dirs = dirs.add(dir, size);
            }
            k += 1;
        }
        i += 1;
    }
    proof {
        assert(all.take(files.len() as int) =~= all);
    }
    dirs
}

/// `sorted` with `item` put in after the last entry that is at least as
/// large.
pub open spec fn insert_desc(sorted: Seq<(PathView, u64)>, item: (PathView, u64)) -> Seq<
    (PathView, u64),
>
    decreases sorted.len(),
{
    if sorted.len() == 0 {
        seq![item]
    } else if sorted.last().1 >= item.1 {
        sorted.push(item)
    } else {
        insert_desc(sorted.drop_last(), item).push(sorted.last())
    }
}

/// The entries from largest to smallest. Entries of one size keep the order
/// they came in.
pub open spec fn sorted_desc(items: Seq<(PathView, u64)>) -> Seq<(PathView, u64)>
    decreases items.len(),
{
    if items.len() == 0 {
        Seq::empty()
    } else {
        insert_desc(sorted_desc(items.drop_last()), items.last())
    }
}

/// How many entries a limit lets through.
pub open spec fn limited(len: nat, report_limit: Option<usize>) -> nat {
    match report_limit {
        Some(n) => if n < len {
            n as nat
        } else {
            len
        },
        None => len,
    }
}

/// The report order: the largest entries, as many as the limit lets
/// through, with the largest of them last.
pub open spec fn ranked(items: Seq<(PathView, u64)>, report_limit: Option<usize>) -> Seq<
    (PathView, u64),
> {
    sorted_desc(items).take(limited(items.len(), report_limit) as int).reverse()
}

/// Whether sizes never rise along the entries.
pub open spec fn descending(items: Seq<(PathView, u64)>) -> bool {
    forall|i: int, j: int| 0 <= i <= j < items.len() ==> items[i].1 >= items[j].1
}

/// Putting an item in keeps the length in step, the entries the same, and a
/// falling order falling.
pub proof fn lemma_insert_desc(sorted: Seq<(PathView, u64)>, item: (PathView, u64))
    requires
        descending(sorted),
    ensures
        descending(insert_desc(sorted, item)),
        insert_desc(sorted, item).len() == sorted.len() + 1,
        insert_desc(sorted, item).to_multiset() == sorted.to_multiset().insert(item),
    decreases sorted.len(),
{
    broadcast use vstd::seq_lib::group_to_multiset_ensures;

    if sorted.len() == 0 {
        assert(seq![item] =~= Seq::<(PathView, u64)>::empty().push(item));
    } else if sorted.last().1 >= item.1 {
    } else {
        let init = sorted.drop_last();
        let last = sorted.last();
        assert(descending(init)) by {
            assert forall|i: int, j: int| 0 <= i <= j < init.len() implies init[i].1
                >= init[j].1 by {
                assert(init[i] == sorted[i] && init[j] == sorted[j]);
            }
        }
        lemma_insert_desc(init, item);
        let placed = insert_desc(init, item);
        assert(sorted =~= init.push(last));
        assert(placed.to_multiset().insert(last) =~= sorted.to_multiset().insert(item));
        assert forall|i: int, j: int| 0 <= i <= j < placed.push(last).len() implies placed.push(
            last,
        )[i].1 >= placed.push(last)[j].1 by {
            if j == placed.len() && i < j {
                let x = placed[i];
                assert(placed.to_multiset().count(x) > 0);
                if x != item {
                    assert(init.to_multiset().count(x) > 0);
                    assert(init.contains(x));
                    let t = choose|t: int| 0 <= t < init.len() && init[t] == x;
                    assert(sorted[t].1 >= sorted[sorted.len() - 1].1);
                }
            }
        }
    }
}

/// Sorting rearranges and orders: the sorted entries are the given entries,
/// each as often as given, and sizes never rise along them.
pub proof fn lemma_sorted_desc(items: Seq<(PathView, u64)>)
    ensures
        descending(sorted_desc(items)),
        sorted_desc(items).len() == items.len(),
        sorted_desc(items).to_multiset() == items.to_multiset(),
    decreases items.len(),
{
    broadcast use vstd::seq_lib::group_to_multiset_ensures;

    if items.len() > 0 {
        lemma_sorted_desc(items.drop_last());
        lemma_insert_desc(sorted_desc(items.drop_last()), items.last());
        assert(items =~= items.drop_last().push(items.last()));
    }
}

/// The report read backwards starts with the largest: without a limit, the
/// reverse of the report holds every entry given and its sizes never rise.
pub proof fn lemma_ranked_all(items: Seq<(PathView, u64)>)
    ensures
        ranked(items, None).reverse() == sorted_desc(items),
        descending(ranked(items, None).reverse()),
        ranked(items, None).to_multiset() == items.to_multiset(),
{
    lemma_sorted_desc(items);
    let sorted = sorted_desc(items);
    assert(sorted.take(sorted.len() as int) =~= sorted);
    assert(sorted.reverse().reverse() =~= sorted);
    sorted.lemma_reverse_to_multiset();
}

/// A limit cuts the report from the front: the report with a limit of `n`
/// is the end of the report without a limit, `n` entries long or the whole
/// of it if it has fewer.
pub proof fn lemma_ranked_suffix(items: Seq<(PathView, u64)>, n: usize)
    ensures
        ranked(items, Some(n)).len() == limited(items.len(), Some(n)),
        ranked(items, Some(n)) == ranked(items, None).skip(
            items.len() - limited(items.len(), Some(n)),
        ),
{
    lemma_sorted_desc(items);
    let sorted = sorted_desc(items);
    let keep = limited(items.len(), Some(n)) as int;
    assert(sorted.take(sorted.len() as int) =~= sorted);
    assert(sorted.take(keep).reverse() =~= sorted.reverse().skip(sorted.len() - keep));
}

/// Two runs of entries woven into one, from the back: the smaller of the two
/// last entries comes last, and of two equal ones that of the second run.
pub open spec fn merged(left: Seq<(PathView, u64)>, right: Seq<(PathView, u64)>) -> Seq<
    (PathView, u64),
>
    decreases left.len() + right.len(),
{
    if right.len() == 0 {
        left
    } else if left.len() == 0 {
        right
    } else if left.last().1 >= right.last().1 {
        merged(left, right.drop_last()).push(right.last())
    } else {
        merged(left.drop_last(), right).push(left.last())
    }
}

/// Putting an item into the woven runs is weaving with the item put into the
/// second run.
pub proof fn lemma_insert_merged(
    left: Seq<(PathView, u64)>,
    right: Seq<(PathView, u64)>,
    item: (PathView, u64),
)
    ensures
        insert_desc(merged(left, right), item) == merged(left, insert_desc(right, item)),
    decreases left.len() + right.len(),
{
    let grown = insert_desc(right, item);
    let woven = merged(left, right);
    if right.len() == 0 {
        assert(grown =~= seq![item]);
        assert(grown.drop_last() =~= right);
        assert(grown.last() == item);
        assert(woven == left);
        if left.len() == 0 {
            assert(merged(left, grown) == grown);
        } else if left.last().1 >= item.1 {
            assert(merged(left, grown) == merged(left, right).push(item));
        } else {
            lemma_insert_merged(left.drop_last(), right, item);
            assert(merged(left.drop_last(), right) == left.drop_last());
            assert(merged(left, grown) == merged(left.drop_last(), grown).push(left.last()));
        }
    } else if left.len() == 0 {
        assert(woven == right);
        assert(grown.len() > 0);
        assert(merged(left, grown) == grown);
    } else if right.last().1 >= item.1 {
        assert(grown == right.push(item));
        assert(grown.drop_last() =~= right);
        assert(grown.last() == item);
        if left.last().1 >= item.1 {
            assert(merged(left, grown) == woven.push(item));
            assert(woven.len() > 0);
            assert(woven.last().1 >= item.1);
        } else {
            lemma_insert_merged(left.drop_last(), right, item);
            assert(woven == merged(left.drop_last(), right).push(left.last()));
            assert(woven.drop_last() =~= merged(left.drop_last(), right));
            assert(merged(left, grown) == merged(left.drop_last(), grown).push(left.last()));
        }
    } else {
        assert(grown == insert_desc(right.drop_last(), item).push(right.last()));
        assert(grown.drop_last() =~= insert_desc(right.drop_last(), item));
        assert(grown.last() == right.last());
        if left.last().1 >= right.last().1 {
            lemma_insert_merged(left, right.drop_last(), item);
            assert(woven == merged(left, right.drop_last()).push(right.last()));
            assert(woven.drop_last() =~= merged(left, right.drop_last()));
            assert(merged(left, grown) == merged(left, grown.drop_last()).push(right.last()));
        } else {
            lemma_insert_merged(left.drop_last(), right, item);
            assert(woven == merged(left.drop_last(), right).push(left.last()));
            assert(woven.drop_last() =~= merged(left.drop_last(), right));
            assert(merged(left, grown) == merged(left.drop_last(), grown).push(left.last()));
        }
    }
}

/// Sorting two halves and weaving them is sorting the whole.
pub proof fn lemma_merged_sorted(first: Seq<(PathView, u64)>, second: Seq<(PathView, u64)>)
    ensures
        merged(sorted_desc(first), sorted_desc(second)) == sorted_desc(first + second),
    decreases second.len(),
{
    if second.len() == 0 {
        assert(first + second =~= first);
    } else {
        let init = second.drop_last();
        lemma_merged_sorted(first, init);
        lemma_insert_merged(sorted_desc(first), sorted_desc(init), second.last());
        assert((first + second).drop_last() =~= first + init);
    }
}

/// Weaves two runs into one.
fn merge(left: Vec<(Path, u64)>, right: Vec<(Path, u64)>) -> (res: Vec<(Path, u64)>)
    ensures
        sizes_view(res@) == merged(sizes_view(left@), sizes_view(right@)),
{
    let ghost goal = merged(sizes_view(left@), sizes_view(right@));
    let mut left = left;
    let mut right = right;
    let mut back: Vec<(Path, u64)> = Vec::new();
    proof {
        assert(goal =~= merged(sizes_view(left@), sizes_view(right@)) + sizes_view(
            back@,
        ).reverse());
    }
    while left.len() > 0 && right.len() > 0
        invariant
            goal == merged(sizes_view(left@), sizes_view(right@)) + sizes_view(back@).reverse(),
        decreases left.len() + right.len(),
    {
        let ghost l0 = sizes_view(left@);
        let ghost r0 = sizes_view(right@);
        let ghost b0 = sizes_view(back@);
        let take_right = left[left.len() - 1].1 >= right[right.len() - 1].1;
        let item = if take_right {
            right.pop().unwrap()
        } else {
            left.pop().unwrap()
        };
        back.push(item);
        proof {
            let moved = (item.0@, item.1);
            if take_right {
                assert(sizes_view(right@) =~= r0.drop_last());
                assert(sizes_view(left@) =~= l0);
            } else {
                assert(sizes_view(left@) =~= l0.drop_last());
                assert(sizes_view(right@) =~= r0);
            }
            assert(sizes_view(back@) =~= b0.push(moved));
            assert(merged(l0, r0) + b0.reverse() =~= merged(
                sizes_view(left@),
                sizes_view(right@),
            ) + sizes_view(back@).reverse());
        }
    }
    let mut res = if left.len() > 0 {
        left
    } else {
        right
    };
    proof {
        assert(goal =~= sizes_view(res@) + sizes_view(back@).reverse());
    }
    while back.len() > 0
        invariant
            goal == sizes_view(res@) + sizes_view(back@).reverse(),
        decreases back.len(),
    {
        let ghost r0 = sizes_view(res@);
        let ghost b0 = sizes_view(back@);
        let item = back.pop().unwrap();
        res.push(item);
        proof {
            assert(sizes_view(back@) =~= b0.drop_last());
            assert(sizes_view(res@) =~= r0.push((item.0@, item.1)));
            assert(r0 + b0.reverse() =~= sizes_view(res@) + sizes_view(back@).reverse());
        }
    }
    proof {
        assert(goal =~= sizes_view(res@));
    }
    res
}

/// Sorts entries from largest to smallest. Entries of one size keep the
/// order they came in.
fn sort_desc(items: Vec<(Path, u64)>) -> (res: Vec<(Path, u64)>)
    ensures
        sizes_view(res@) == sorted_desc(sizes_view(items@)),
    decreases items@.len(),
{
    let ghost all = sizes_view(items@);
    if items.len() < 2 {
        proof {
            if all.len() == 1 {
                assert(all.drop_last() =~= Seq::<(PathView, u64)>::empty());
                assert(sorted_desc(all.drop_last()) =~= Seq::<(PathView, u64)>::empty());
                assert(sorted_desc(all) =~= seq![all.last()]);
                assert(sorted_desc(all) =~= all);
            } else {
                assert(all.len() == 0);
                assert(sorted_desc(all) =~= all);
            }
        }
        return items;
    }
    let mut first = items;
    let mid = first.len() / 2;
    let second = first.split_off(mid);
    proof {
        assert(sizes_view(first@) + sizes_view(second@) =~= all);
        lemma_merged_sorted(sizes_view(first@), sizes_view(second@));
    }
    let first = sort_desc(first);
    let second = sort_desc(second);
    merge(first, second)
}

/// Orders entries for the report: by size, largest first, then cut to the
/// first `n` if a limit `n` is given, then turned around so that the
/// largest comes last. Entries of one size come out in the reverse of the
/// order they came in.
pub fn sort(sizes: Vec<(Path, u64)>, report_limit: Option<usize>) -> (res: Vec<(Path, u64)>)
    ensures
        sizes_view(res@) == ranked(sizes_view(sizes@), report_limit),
{
    let ghost all = sizes_view(sizes@);
    let mut sorted = sort_desc(sizes);
    proof {
        lemma_sorted_desc(all);
    }
    match report_limit {
        Some(n) => {
            if n < sorted.len() {
                let ghost whole = sorted@;
                sorted.truncate(n);
                assert(sizes_view(sorted@) =~= sizes_view(whole).take(n as int));
            } else {
                assert(sizes_view(sorted@).take(sorted@.len() as int) =~= sizes_view(sorted@));
            }
        },
        None => {
            assert(sizes_view(sorted@).take(sorted@.len() as int) =~= sizes_view(sorted@));
        },
    }
    let ghost kept = sorted@;
    let res = crate::vecs::reversed(sorted);
    proof {
        assert(sizes_view(res@) =~= sizes_view(kept).reverse());
    }
    res
}

/// Whether the sizes add up to a number that can be held.
pub fn total_fits(files: &Vec<(Path, u64)>) -> (res: bool)
    ensures
        res == (total_size(sizes_view(files@)) <= u64::MAX),
{
    let ghost all = sizes_view(files@);
    let mut sum: u64 = 0;
    let mut i: usize = 0;
    assert(all.take(0) =~= Seq::<(PathView, u64)>::empty());
    while i < files.len()
        invariant
            i <= files.len(),
            all == sizes_view(files@),
            sum == total_size(all.take(i as int)),
        decreases files.len() - i,
    {
        proof {
            assert(all.take(i + 1).drop_last() =~= all.take(i as int));
            lemma_total_size_take(all, i as int);
        }
        match sum.checked_add(files[i].1) {
            Some(more) => {
                sum = more;
            },
            None => {
                return false;
            },
        }
        i += 1;
    }
    assert(all.take(files.len() as int) =~= all);
    true
}

/// The sizes of the regular files among `metas`, by path. Where a path
/// occurs more than once the last size stands.
pub open spec fn collected(metas: Seq<MetaView>) -> Seq<(PathView, u64)>
    decreases metas.len(),
{
    if metas.len() == 0 {
        Seq::empty()
    } else {
        let before = collected(metas.drop_last());
        if metas.last().typ is Regular {
            with_size(before, metas.last().path, metas.last().size)
        } else {
            before
        }
    }
}

/// What the report lists: the files themselves, or the directories above
/// them with their sums.
pub open spec fn reported(files: Seq<(PathView, u64)>, root: PathView, report_files: bool) -> Seq<
    (PathView, u64),
> {
    if report_files {
        files
    } else {
        aggregated(files, root)
    }
}

/// The rows of the directory report: every row of the ranking names a
/// directory that starts with the root, and carries the sum of the sizes of
/// the files strictly below that directory.
pub proof fn lemma_reported_rows(
    files: Seq<(PathView, u64)>,
    root: PathView,
    report_limit: Option<usize>,
    r: int,
)
    requires
        total_size(files) <= u64::MAX,
        0 <= r < ranked(aggregated(files, root), report_limit).len(),
    ensures
        ranked(aggregated(files, root), report_limit)[r].0.starts_with(root),
        ranked(aggregated(files, root), report_limit)[r].1 == dir_total(
            files,
            ranked(aggregated(files, root), report_limit)[r].0,
            root,
        ),
{
    broadcast use vstd::seq_lib::group_to_multiset_ensures;

    let sums = aggregated(files, root);
    let sorted = sorted_desc(sums);
    let keep = limited(sums.len(), report_limit) as int;
    let row = ranked(sums, report_limit)[r];
    lemma_sorted_desc(sums);
    assert(row == sorted[keep - 1 - r]);
    assert(sorted.contains(row));
    assert(sorted.to_multiset().count(row) > 0);
    assert(sums.to_multiset().count(row) > 0);
    assert(sums.contains(row));
    let at = choose|at: int| 0 <= at < sums.len() && sums[at] == row;
    lemma_aggregated(files, root, row.0);
    assert forall|i: int| 0 <= i < at implies (#[trigger] sums[i]).0 != row.0 by {}
    lemma_position_is(sums, row.0, at);
    let f = choose|f: int| 0 <= f < files.len() && counts(row.0, (#[trigger] files[f]).0, root);
    assert(counts(row.0, files[f].0, root));
}

/// Gathers the sizes of the regular files among `metas`.
pub fn regular_files(metas: &Vec<Meta>) -> (res: SizeMap)
    ensures
        res@ == collected(metas_view(metas@)),
{
    let ghost all = metas_view(metas@);
    let mut files = SizeMap::new();
    let mut i: usize = 0;
    assert(files@ =~= collected(all.take(0)));
    while i < metas.len()
        invariant
            i <= metas.len(),
            all == metas_view(metas@),
            files@ == collected(all.take(i as int)),
        decreases metas.len() - i,
    {
        let meta = &metas[i];
        proof {
            assert(all.take(i + 1).drop_last() =~= all.take(i as int));
            assert(all.take(i + 1).last() == meta@);
        }
        if meta.is_regular_file() {
            files = files.set(&meta.path, meta.size);
        }
        i += 1;
    }
    assert(all.take(metas.len() as int) =~= all);
    files
}

/// The largest users of space among what a walk found.
///
/// Only regular files count. With `report_files` the files themselves are
/// ranked; without it, the directories above them, the root among them, each
/// with the sum of the files below it. The largest comes last.
pub fn top(metas: &Vec<Meta>, root_path: &Path, report_files: bool, report_limit: Option<usize>) -> (res:
    Vec<(Path, u64)>)
    requires
        !report_files ==> total_size(collected(metas_view(metas@))) <= u64::MAX,
    ensures
        sizes_view(res@) == ranked(
            reported(collected(metas_view(metas@)), root_path@, report_files),
            report_limit,
        ),
{
    let files = regular_files(metas);
    crate::explore(files, root_path, report_files, report_limit)
}

/// The two cells of a row of the report: the size, in units of 1024 if
/// `human` is set and in plain bytes if not, and the path.
pub open spec fn report_row(entry: (PathView, u64), human: bool) -> Seq<Seq<char>> {
    seq![
        if human {
            human_size(entry.1)
        } else {
            decimal(entry.1 as nat)
        },
        utf8_lossy(rendered(entry.0)),
    ]
}

/// The rows of the report, one for each entry, in order.
pub open spec fn report_rows(sizes: Seq<(PathView, u64)>, human: bool) -> Seq<Seq<Seq<char>>> {
    sizes.map_values(|entry: (PathView, u64)| report_row(entry, human))
}

/// The report as text: a table without borders, headed `SIZE` and `PATH`,
/// with one row for each entry in the order given. The caller prints it.
pub fn report(sizes: &Vec<(Path, u64)>, human: bool) -> (res: String)
    ensures
        res@ == listing(report_rows(sizes_view(sizes@), human)),
{
    let ghost all = sizes_view(sizes@);
    let mut rows: Vec<Vec<String>> = Vec::new();
    let mut i: usize = 0;
    while i < sizes.len()
        invariant
            i <= sizes.len(),
            all == sizes_view(sizes@),
            rows@.len() == i,
            forall|k: int| 0 <= k < i ==> cells((#[trigger] rows@[k])@) == report_row(all[k], human),
        decreases sizes.len() - i,
    {
        let size = sizes[i].1;
        let size_text = if human {
            human_text(size)
        } else {
            decimal_text(size)
        };
        let path_text = lossy_text(sizes[i].0.to_bytes().as_slice());
        let mut row: Vec<String> = Vec::new();
        row.push(size_text);
        row.push(path_text);
        assert(cells(row@) =~= report_row(all[i as int], human));
        rows.push(row);
        i += 1;
    }
    assert(rows@.map_values(|row: Vec<String>| cells(row@)) =~= report_rows(all, human));
    list(rows)
}


/// As [`top`], for any sizes: when directories are to be ranked and the
/// sizes of the files together are more than can be held, there is no
/// ranking.
pub fn try_top(metas: &Vec<Meta>, root_path: &Path, report_files: bool, report_limit: Option<usize>) -> (res:
    Option<Vec<(Path, u64)>>)
    ensures
        res is Some == (report_files || total_size(collected(metas_view(metas@))) <= u64::MAX),
        res matches Some(rows) ==> sizes_view(rows@) == ranked(
            reported(collected(metas_view(metas@)), root_path@, report_files),
            report_limit,
        ),
{
    let files = regular_files(metas);
    if !report_files && !total_fits(files.as_entries()) {
        return None;
    }
    Some(crate::explore(files, root_path, report_files, report_limit))
}

} // verus!
