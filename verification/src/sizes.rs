//! Sizes by path.
//!
//! Paths are found again through a map of the crate `dashmap`. What is
//! stated of that map here is taken on trust: it holds what was put into it
//! last under each key, and nothing else.

use vstd::prelude::*;
use crate::path::{names, Path, PathView};

verus! {

/// The map of the crate `dashmap`, taken as it is.
#[verifier::external_type_specification]
#[verifier::external_body]
#[verifier::reject_recursive_types(K)]
#[verifier::reject_recursive_types(V)]
#[verifier::reject_recursive_types(S)]
pub struct ExDashMap<K, V, S>(dashmap::DashMap<K, V, S>);

/// A path as a plain value: whether it is absolute, and its components.
pub type Key = (bool, Vec<Vec<u8>>);

/// The value of a [`Key`].
pub type KeyView = (bool, Seq<Seq<u8>>);

/// From paths to positions. Only this module can make or reach into one, so
/// nothing else holds on to what is inside while it is asked or changed.
pub struct Index {
    inner: dashmap::DashMap<Key, usize>,
}

/// What an index holds: for each path, as a plain value, a position.
pub uninterp spec fn index_entries(index: Index) -> Map<KeyView, usize>;

/// The value of a path given as a plain value.
pub open spec fn key_view(key: Key) -> KeyView {
    (key.0, names(key.1@))
}

/// The plain value under which a path is indexed.
pub open spec fn key_of(path: PathView) -> KeyView {
    (path.absolute, path.parts)
}

/// `dashmap::DashMap::new`: a map that holds nothing.
#[verifier::external_body]
fn index_new() -> (res: Index)
    ensures
        (index_entries(res) == Map::<KeyView, usize>::empty()),
{
    Index { inner: dashmap::DashMap::new() }
}

/// `dashmap::DashMap::get`: the value stored under a key equal to `key`, if
/// there is one.
#[verifier::external_body]
fn index_get(index: &Index, key: &Key) -> (res:
    Option<usize>)
    ensures
        res == if index_entries(*index).contains_key(key_view(*key)) {
            Some(index_entries(*index)[key_view(*key)])
        } else {
            None
        },
{
    index.inner.get(key).map(|slot| *slot)
}

/// `dashmap::DashMap::insert`: afterwards the map holds `value` under `key`,
/// in place of what it held under an equal key, and is otherwise unchanged.
#[verifier::external_body]
fn index_insert(
    index: &mut Index,
    key: Key,
    value: usize,
)
    ensures
        index_entries(*final(index)) == index_entries(*old(index)).insert(key_view(key), value),
{
    index.inner.insert(key, value);
}

/// The values of a list of paths with sizes.
pub open spec fn sizes_view(entries: Seq<(Path, u64)>) -> Seq<(PathView, u64)> {
    entries.map_values(|entry: (Path, u64)| (entry.0@, entry.1))
}

/// Where `path` stands in `entries`, if it does.
pub open spec fn position(entries: Seq<(PathView, u64)>, path: PathView) -> Option<int>
    decreases entries.len(),
{
    if entries.len() == 0 {
        None
    } else {
        match position(entries.drop_last(), path) {
            Some(at) => Some(at),
            None => if entries.last().0 == path {
                Some(entries.len() - 1)
            } else {
                None
            },
        }
    }
}

/// Whether no path occurs twice.
pub open spec fn distinct(entries: Seq<(PathView, u64)>) -> bool {
    forall|i: int, j: int|
        0 <= i < entries.len() && 0 <= j < entries.len() && i != j ==> (#[trigger] entries[i]).0 != (
        #[trigger] entries[j]).0
}

/// The size recorded for `path`, if there is one.
pub open spec fn size_of(entries: Seq<(PathView, u64)>, path: PathView) -> Option<u64> {
    match position(entries, path) {
        Some(at) => Some(entries[at].1),
        None => None,
    }
}

/// The size recorded for `path`, or zero.
pub open spec fn size_or_zero(entries: Seq<(PathView, u64)>, path: PathView) -> int {
    match position(entries, path) {
        Some(at) => entries[at].1 as int,
        None => 0,
    }
}

/// The entries with `size` recorded for `path`: in place of what was
/// recorded for it, or at the end if nothing was.
pub open spec fn with_size(entries: Seq<(PathView, u64)>, path: PathView, size: u64) -> Seq<
    (PathView, u64),
> {
    match position(entries, path) {
        Some(at) => entries.update(at, (path, size)),
        None => entries.push((path, size)),
    }
}

/// The entries with `size` added to what is recorded for `path`; a path not
/// seen before starts at `size`, at the end.
pub open spec fn with_more(entries: Seq<(PathView, u64)>, path: PathView, size: u64) -> Seq<
    (PathView, u64),
> {
    match position(entries, path) {
        Some(at) => entries.update(at, (path, (entries[at].1 + size) as u64)),
        None => entries.push((path, size)),
    }
}

/// A position found for a path is the first place where the path stands; no
/// position means the path stands nowhere.
pub proof fn lemma_position(entries: Seq<(PathView, u64)>, path: PathView)
    ensures
        match position(entries, path) {
            Some(at) => 0 <= at < entries.len() && entries[at].0 == path && forall|i: int|
                0 <= i < at ==> (#[trigger] entries[i]).0 != path,
            None => forall|i: int| 0 <= i < entries.len() ==> (#[trigger] entries[i]).0 != path,
        },
    decreases entries.len(),
{
    if entries.len() > 0 {
        lemma_position(entries.drop_last(), path);
        match position(entries.drop_last(), path) {
            Some(at) => {
                assert(entries.drop_last()[at] == entries[at]);
                assert forall|i: int| 0 <= i < at implies (#[trigger] entries[i]).0 != path by {
                    assert(entries.drop_last()[i] == entries[i]);
                }
            },
            None => {
                assert forall|i: int| 0 <= i < entries.len() - 1 implies (#[trigger] entries[i]).0
                    != path by {
                    assert(entries.drop_last()[i] == entries[i]);
                }
            },
        }
    }
}

/// The place where a path first stands is its position.
pub proof fn lemma_position_is(entries: Seq<(PathView, u64)>, path: PathView, at: int)
    requires
        0 <= at < entries.len(),
        entries[at].0 == path,
        forall|i: int| 0 <= i < at ==> (#[trigger] entries[i]).0 != path,
    ensures
        position(entries, path) == Some(at),
{
    lemma_position(entries, path);
}

/// A path that stands nowhere has no position.
pub proof fn lemma_position_none(entries: Seq<(PathView, u64)>, path: PathView)
    requires
        forall|i: int| 0 <= i < entries.len() ==> (#[trigger] entries[i]).0 != path,
    ensures
        position(entries, path) is None,
{
    lemma_position(entries, path);
}

/// What adding to one path does to what is recorded for any path: the one
/// path has that much more, and every other path has what it had.
pub proof fn lemma_with_more_value(
    entries: Seq<(PathView, u64)>,
    path: PathView,
    size: u64,
    other: PathView,
)
    requires
        size_or_zero(entries, path) + size <= u64::MAX,
    ensures
        size_or_zero(with_more(entries, path, size), other) == size_or_zero(entries, other) + if other
            == path {
            size as int
        } else {
            0
        },
        position(with_more(entries, path, size), other) is Some <==> position(entries, other) is Some
            || other == path,
{
    let after = with_more(entries, path, size);
    lemma_position(entries, path);
    lemma_position(entries, other);
    match position(entries, other) {
        Some(at) => {
            assert forall|i: int| 0 <= i < at implies (#[trigger] after[i]).0 != other by {
                assert(entries[i].0 != other);
            }
            lemma_position_is(after, other, at);
        },
        None => {
            if other == path {
                lemma_position_is(after, other, entries.len() as int);
            } else {
                assert forall|i: int| 0 <= i < after.len() implies (#[trigger] after[i]).0
                    != other by {
                    if i < entries.len() {
                        assert(entries[i].0 != other);
                    }
                }
                lemma_position_none(after, other);
            }
        },
    }
}

/// Recording a size keeps every path single.
pub proof fn lemma_with_size_distinct(entries: Seq<(PathView, u64)>, path: PathView, size: u64)
    requires
        distinct(entries),
    ensures
        distinct(with_size(entries, path, size)),
{
    lemma_position(entries, path);
}

/// Adding to a size keeps every path single.
pub proof fn lemma_with_more_distinct(entries: Seq<(PathView, u64)>, path: PathView, size: u64)
    requires
        distinct(entries),
    ensures
        distinct(with_more(entries, path, size)),
{
    lemma_position(entries, path);
}

/// Entries that an index knows each by its own position hold no path twice.
proof fn lemma_indexed_distinct(held: Map<KeyView, usize>, entries: Seq<(PathView, u64)>)
    requires
        forall|i: int|
            0 <= i < entries.len() ==> held.contains_key(key_of((#[trigger] entries[i]).0))
                && held[key_of(entries[i].0)] == i,
    ensures
        distinct(entries),
{
    assert forall|i: int, j: int|
        0 <= i < entries.len() && 0 <= j < entries.len() && i != j implies (#[trigger] entries[i]).0
        != (#[trigger] entries[j]).0 by {
        assert(held[key_of(entries[i].0)] == i);
        assert(held[key_of(entries[j].0)] == j);
    }
}

/// Sizes by path: each path once, in the order in which the paths were
/// first recorded.
pub struct SizeMap {
    entries: Vec<(Path, u64)>,
    index: Index,
}

impl View for SizeMap {
    type V = Seq<(PathView, u64)>;

    closed spec fn view(&self) -> Seq<(PathView, u64)> {
        sizes_view(self.entries@)
    }
}

impl SizeMap {
    /// The index knows every entry by its path and knows nothing else.
    #[verifier::type_invariant]
    closed spec fn inv(self) -> bool {
        let held = index_entries(self.index);
        let entries = sizes_view(self.entries@);
        &&& forall|i: int|
            0 <= i < entries.len() ==> held.contains_key(key_of((#[trigger] entries[i]).0))
                && held[key_of(entries[i].0)] == i
        &&& forall|key: KeyView|
            held.contains_key(key) ==> 0 <= #[trigger] held[key] < entries.len() && key_of(
                entries[held[key] as int].0,
            ) == key
    }

    /// A map that holds nothing.
    pub fn new() -> (res: SizeMap)
        ensures
            res@.len() == 0,
    {
        SizeMap { entries: Vec::new(), index: index_new() }
    }

    /// Where `path` stands, if it does.
    fn find(&self, path: &Path) -> (res: Option<usize>)
        ensures
            distinct(self@),
            match res {
                Some(at) => position(self@, path@) == Some(at as int) && at < self@.len(),
                None => position(self@, path@) is None,
            },
    {
        proof {
            use_type_invariant(self);
            lemma_position(self@, path@);
        }
        let key = path.key();
        assert(key_view(key) == key_of(path@));
        let found = index_get(&self.index, &key);
        proof {
            let held = index_entries(self.index);
            let entries = self@;
            lemma_indexed_distinct(held, entries);
            match position(entries, path@) {
                Some(at) => {
                    assert(held.contains_key(key_of(entries[at].0)));
                },
                None => {
                    if held.contains_key(key_of(path@)) {
                        let at = held[key_of(path@)] as int;
                        assert(entries[at].0 == path@);
                    }
                },
            }
        }
        found
    }

    /// The size recorded for `path`, if there is one.
    pub fn get(&self, path: &Path) -> (res: Option<u64>)
        ensures
            res == size_of(self@, path@),
    {
        match self.find(path) {
            Some(at) => Some(self.entries[at].1),
            None => None,
        }
    }

    /// How many paths have a size.
    pub fn len(&self) -> (res: usize)
        ensures
            res == self@.len(),
    {
        self.entries.len()
    }

    /// Records `size` for `path`, in place of what was recorded for it.
    pub fn set(self, path: &Path, size: u64) -> (res: SizeMap)
        ensures
            res@ == with_size(self@, path@, size),
            distinct(res@),
    {
        let found = self.find(path);
        proof {
            use_type_invariant(&self);
            lemma_with_size_distinct(self@, path@, size);
        }
        let ghost before = self@;
        let ghost held = index_entries(self.index);
        let mut entries = self.entries;
        let mut index = self.index;
        match found {
            Some(at) => {
                entries.set(at, (path.clone(), size));
                proof {
                    assert(sizes_view(entries@) =~= before.update(at as int, (path@, size)));
                    lemma_position(before, path@);
                    let after = sizes_view(entries@);
                    assert forall|i: int| 0 <= i < after.len() implies (#[trigger] after[i]).0
                        == before[i].0 by {}
                    assert forall|i: int| 0 <= i < after.len() implies held.contains_key(
                        key_of((#[trigger] after[i]).0),
                    ) && held[key_of(after[i].0)] == i by {
                        assert(held.contains_key(key_of(before[i].0)));
                    }
                    assert forall|key: KeyView| held.contains_key(key) implies 0
                        <= #[trigger] held[key] < after.len() && key_of(
                        after[held[key] as int].0,
                    ) == key by {
                        assert(after[held[key] as int].0 == before[held[key] as int].0);
                    }
                }
            },
            None => {
                let ghost at = entries.len();
                let key = path.key();
                assert(key_view(key) == key_of(path@));
                index_insert(&mut index, key, entries.len());
                entries.push((path.clone(), size));
                proof {
                    assert(sizes_view(entries@) =~= before.push((path@, size)));
                    lemma_position(before, path@);
                    let now = index_entries(index);
                    let after = sizes_view(entries@);
                    assert forall|key: KeyView| now.contains_key(key) implies 0 <= #[trigger] now[key]
                        < after.len() && key_of(after[now[key] as int].0) == key by {
                        if key != key_of(path@) {
                            assert(held.contains_key(key));
                            assert(after[held[key] as int] == before[held[key] as int]);
                        }
                    }
                    assert forall|i: int| 0 <= i < after.len() implies now.contains_key(
                        key_of((#[trigger] after[i]).0),
                    ) && now[key_of(after[i].0)] == i by {
                        if i < before.len() {
                            assert(after[i] == before[i]);
                            assert(before[i].0 != path@);
                        }
                    }
                }
            },
        }
        SizeMap { entries, index }
    }

    /// Adds `size` to what is recorded for `path`. A path not seen before
    /// starts at `size`.
    pub fn add(self, path: &Path, size: u64) -> (res: SizeMap)
        requires
            size_or_zero(self@, path@) + size <= u64::MAX,
        ensures
            res@ == with_more(self@, path@, size),
            distinct(res@),
    {
        let found = self.find(path);
        proof {
            lemma_with_more_distinct(self@, path@, size);
        }
        match found {
            Some(at) => {
                let sum = self.entries[at].1 + size;
                self.set(path, sum)
            },
            None => self.set(path, size),
        }
    }

    /// A look at the paths with their sizes, in the order in which the paths
    /// were first recorded.
    pub fn as_entries(&self) -> (res: &Vec<(Path, u64)>)
        ensures
            sizes_view(res@) == self@,
    {
        &self.entries
    }

    /// The paths with their sizes, in the order in which the paths were first
    /// recorded. No path occurs twice.
    pub fn into_entries(self) -> (res: Vec<(Path, u64)>)
        ensures
            sizes_view(res@) == self@,
            distinct(self@),
    {
        proof {
            use_type_invariant(&self);
            lemma_indexed_distinct(index_entries(self.index), self@);
        }
        self.entries
    }
}

} // verus!
