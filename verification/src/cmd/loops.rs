//! Symbolic links that lead back to where they have been.

use std::collections::{HashMap, HashSet};
use vstd::prelude::*;
use crate::data::{metas_view, paths_view, FileType, Meta, MetaView};
use crate::keys::PathSet;
use crate::path::{normalize, normalized, Path, PathView};

verus! {

broadcast use vstd::std_specs::hash::group_hash_axioms;

/// Whether the directory that holds the entry can be named: always, unless
/// the entry is a symbolic link whose path has no components.
pub open spec fn placed(meta: MetaView) -> bool {
    meta.typ is Symlink ==> meta.path.parent() is Some
}

/// Whether all of `metas` are [`placed`].
pub open spec fn all_placed(metas: Seq<MetaView>) -> bool {
    forall|i: int| 0 <= i < metas.len() ==> placed(#[trigger] metas[i])
}

/// Where a symbolic link at `src` with the stored target `dst` points, by
/// the text alone: `dst` resolved against the directory that holds the link.
pub open spec fn link_target(src: PathView, dst: PathView) -> PathView {
    normalized(src.parent()->0, dst)
}

/// A traversal in search of a cycle: the inodes it has been through, and the
/// entries it has found and not yet looked at.
///
/// The caller does the reading: it takes a [`Probe`] from [`Search::step`],
/// looks up what the probe names, and hands the findings to
/// [`Search::expand`].
pub struct Search {
    visited: HashSet<u64>,
    frontier: Vec<Meta>,
}

/// The mathematical value of a [`Search`].
pub struct SearchView {
    pub visited: Set<u64>,
    /// Found and not yet looked at; the last one is looked at next.
    pub frontier: Seq<MetaView>,
}

impl View for Search {
    type V = SearchView;

    closed spec fn view(&self) -> SearchView {
        SearchView { visited: self.visited@, frontier: metas_view(self.frontier@) }
    }
}

/// What the search needs next, or what it has found.
#[derive(Debug)]
pub enum Probe {
    /// The entry looked at has an inode that the traversal has been through
    /// before: a cycle closes on this inode.
    Found(u64),
    /// Nothing is left to look at: there is no cycle.
    Clear,
    /// The entry looked at is a symbolic link that points to `target`. The
    /// caller describes what is at `target`, without following it if it is
    /// a link again, and expands `ino` with that one entry; a target that
    /// does not exist gives no entry.
    Stat { ino: u64, target: Path },
    /// The entry looked at is the directory `dir`. The caller lists it and
    /// expands `ino` with its entries.
    List { ino: u64, dir: Path },
    /// The entry looked at leads nowhere. The search goes on.
    Again,
}

/// Starts the search for a cycle from the entry `entry`, most often a
/// symbolic link. Nothing has been visited yet.
pub fn find_cycling_inode(entry: &Meta) -> (res: Search)
    requires
        placed(entry@),
    ensures
        res@.visited == Set::<u64>::empty(),
        res@.frontier == seq![entry@],
{
    let mut frontier: Vec<Meta> = Vec::new();
    frontier.push(entry.clone());
    assert(metas_view(frontier@) =~= seq![entry@]);
    Search { visited: HashSet::new(), frontier }
}

impl Search {
    /// Every link that waits to be looked at lies in some directory.
    #[verifier::type_invariant]
    pub open spec fn inv(self) -> bool {
        all_placed(self@.frontier)
    }

    /// Looks at the next entry.
    ///
    /// With nothing left the answer is [`Probe::Clear`]. An entry whose inode
    /// was visited before gives [`Probe::Found`], whatever its type. A link
    /// or a directory not visited before gives a probe for the caller, and
    /// its inode counts as visited once the caller has expanded it. Any
    /// other entry is marked as visited at once.
    pub fn step(&mut self) -> (res: Probe)
        ensures
            old(self)@.frontier.len() == 0 ==> res is Clear && final(self)@ == old(self)@,
            old(self)@.frontier.len() > 0 ==> {
                let current = old(self)@.frontier.last();
                &&& final(self)@.frontier == old(self)@.frontier.drop_last()
                &&& if old(self)@.visited.contains(current.ino) {
                    &&& res == Probe::Found(current.ino)
                    &&& final(self)@.visited == old(self)@.visited
                } else {
                    match current.typ {
                        crate::data::FileTypeView::Symlink { dst } => {
                            &&& res matches Probe::Stat { ino, target }
                            &&& ino == current.ino
                            &&& target@ == link_target(current.path, dst)
                            &&& final(self)@.visited == old(self)@.visited
                        },
                        crate::data::FileTypeView::Directory => {
                            &&& res matches Probe::List { ino, dir }
                            &&& ino == current.ino
                            &&& dir@ == current.path
                            &&& final(self)@.visited == old(self)@.visited
                        },
                        _ => {
                            &&& res is Again
                            &&& final(self)@.visited == old(self)@.visited.insert(current.ino)
                        },
                    }
                }
            },
    {
        proof {
            use_type_invariant(&*self);
        }
        let mut frontier: Vec<Meta> = Vec::new();
        core::mem::swap(&mut frontier, &mut self.frontier);
        let ghost before = frontier@;
        let popped = frontier.pop();
        proof {
            if before.len() > 0 {
                assert(metas_view(frontier@) =~= metas_view(before).drop_last());
                assert(metas_view(before).last() == before.last()@);
                assert(placed(metas_view(before)[before.len() - 1]));
                assert forall|i: int| 0 <= i < frontier@.len() implies placed(
                    #[trigger] metas_view(frontier@)[i],
                ) by {
                    assert(placed(metas_view(before)[i]));
                }
            } else {
                assert(metas_view(frontier@) =~= metas_view(before));
            }
        }
        core::mem::swap(&mut frontier, &mut self.frontier);
        match popped {
            None => Probe::Clear,
            Some(current) => {
                if self.visited.contains(&current.ino) {
                    return Probe::Found(current.ino);
                }
                match &current.typ {
                    FileType::Symlink { dst } => {
                        let src_dir = current.path.parent().unwrap();
                        let target = normalize(&src_dir, dst);
                        Probe::Stat { ino: current.ino, target }
                    },
                    FileType::Directory => Probe::List {
                        ino: current.ino,
                        dir: current.path.clone(),
                    },
                    _ => {
                        let mut visited: HashSet<u64> = HashSet::new();
                        core::mem::swap(&mut visited, &mut self.visited);
                        visited.insert(current.ino);
                        core::mem::swap(&mut visited, &mut self.visited);
                        Probe::Again
                    },
                }
            },
        }
    }

    /// Takes in what the caller found for a probe: the entries of `found`
    /// join the search in order, so that the last of them is looked at
    /// first, and `ino` counts as visited from now on.
    pub fn expand(&mut self, ino: u64, found: Vec<Meta>)
        requires
            all_placed(metas_view(found@)),
        ensures
            final(self)@.frontier == old(self)@.frontier + metas_view(found@),
            final(self)@.visited == old(self)@.visited.insert(ino),
    {
        proof {
            use_type_invariant(&*self);
        }
        let ghost waiting = self@.frontier;
        let ghost added = metas_view(found@);
        let mut found = found;
        let mut frontier: Vec<Meta> = Vec::new();
        core::mem::swap(&mut frontier, &mut self.frontier);
        let ghost f0 = frontier@;
        let ghost n0 = found@;
        frontier.append(&mut found);
        proof {
            assert(metas_view(frontier@) =~= waiting + added);
            assert forall|i: int| 0 <= i < frontier@.len() implies placed(
                #[trigger] metas_view(frontier@)[i],
            ) by {
                if i < waiting.len() {
                    assert(placed(waiting[i]));
                } else {
                    assert(placed(added[i - waiting.len()]));
                }
            }
        }
        core::mem::swap(&mut frontier, &mut self.frontier);
        let mut visited: HashSet<u64> = HashSet::new();
        core::mem::swap(&mut visited, &mut self.visited);
        visited.insert(ino);
        core::mem::swap(&mut visited, &mut self.visited);
    }
}

/// The values of a list of links, each with the inode its cycle closes on.
pub open spec fn hits_view(hits: Seq<(Path, u64)>) -> Seq<(PathView, u64)> {
    hits.map_values(|hit: (Path, u64)| (hit.0@, hit.1))
}

/// The distinct inodes among the hits, each where it first occurs.
pub open spec fn inodes(hits: Seq<(PathView, u64)>) -> Seq<u64>
    decreases hits.len(),
{
    if hits.len() == 0 {
        Seq::empty()
    } else {
        let before = inodes(hits.drop_last());
        if before.contains(hits.last().1) {
            before
        } else {
            before.push(hits.last().1)
        }
    }
}

/// The links whose cycle closes on `ino`, in the order of the hits, each
/// once.
pub open spec fn links_of(hits: Seq<(PathView, u64)>, ino: u64) -> Seq<PathView>
    decreases hits.len(),
{
    if hits.len() == 0 {
        Seq::empty()
    } else {
        let before = links_of(hits.drop_last(), ino);
        if hits.last().1 == ino && !before.contains(hits.last().0) {
            before.push(hits.last().0)
        } else {
            before
        }
    }
}

/// The hits gathered by inode: one group for each inode, in the order in
/// which the inodes first occur.
pub open spec fn grouped(hits: Seq<(PathView, u64)>) -> Seq<(u64, Seq<PathView>)> {
    inodes(hits).map_values(|ino: u64| (ino, links_of(hits, ino)))
}

/// The values of a list of groups.
pub open spec fn cycles_view(groups: Seq<(u64, Vec<Path>)>) -> Seq<(u64, Seq<PathView>)> {
    groups.map_values(|group: (u64, Vec<Path>)| (group.0, paths_view(group.1@)))
}

/// No inode is listed twice.
pub proof fn lemma_inodes_distinct(hits: Seq<(PathView, u64)>)
    ensures
        inodes(hits).no_duplicates(),
    decreases hits.len(),
{
    if hits.len() > 0 {
        lemma_inodes_distinct(hits.drop_last());
    }
}

/// An inode that no hit names has no links.
pub proof fn lemma_links_of_absent(hits: Seq<(PathView, u64)>, ino: u64)
    requires
        !inodes(hits).contains(ino),
    ensures
        links_of(hits, ino).len() == 0,
    decreases hits.len(),
{
    if hits.len() > 0 {
        let before = inodes(hits.drop_last());
        if before.contains(ino) {
            let j = choose|j: int| 0 <= j < before.len() && before[j] == ino;
            assert(inodes(hits)[j] == ino);
        }
        if hits.last().1 == ino {
            if !before.contains(ino) {
                assert(inodes(hits)[before.len() as int] == ino);
            }
        }
        lemma_links_of_absent(hits.drop_last(), ino);
    }
}

/// Whether the map knows every inode of `inos` by its place and knows
/// nothing else.
spec fn placed_by(places: Map<u64, usize>, inos: Seq<u64>) -> bool {
    &&& forall|j: int|
        0 <= j < inos.len() ==> places.contains_key(#[trigger] inos[j]) && places[inos[j]] == j
    &&& forall|ino: u64|
        places.contains_key(ino) ==> 0 <= #[trigger] places[ino] < inos.len() && inos[places[ino] as int]
            == ino
}

/// Where `ino` stands among `inos`, if it does.
fn find_inode(places: &HashMap<u64, usize>, inos: &Vec<u64>, ino: u64) -> (res: Option<usize>)
    requires
        placed_by(places@, inos@),
    ensures
        res matches Some(j) ==> j < inos.len() && inos@[j as int] == ino,
        res is None ==> !inos@.contains(ino),
{
    match places.get(&ino) {
        Some(place) => {
            assert(places@.contains_key(ino) && places@[ino] == *place);
            Some(*place)
        },
        None => {
            assert(!places@.contains_key(ino));
            None
        },
    }
}

/// Gathers paths by the inode that comes with each. The groups come in the
/// order in which their inodes first occur, the paths of a group in the
/// order of the hits, and a path that is named twice for one inode is
/// listed once.
pub fn gather(hits: &Vec<(Path, u64)>) -> (res: Vec<(u64, Vec<Path>)>)
    ensures
        cycles_view(res@) == grouped(hits_view(hits@)),
{
    let ghost all = hits_view(hits@);
    let mut inos: Vec<u64> = Vec::new();
    let mut places: HashMap<u64, usize> = HashMap::new();
    let mut sets: Vec<PathSet> = Vec::new();
    let mut i: usize = 0;
    proof {
        assert(all.take(0) =~= Seq::<(PathView, u64)>::empty());
        assert(inos@ =~= inodes(all.take(0)));
    }
    while i < hits.len()
        invariant
            i <= hits.len(),
            all == hits_view(hits@),
            inos@ == inodes(all.take(i as int)),
            placed_by(places@, inos@),
            sets.len() == inos.len(),
            forall|j: int|
                0 <= j < sets.len() ==> (#[trigger] sets@[j])@ == links_of(
                    all.take(i as int),
                    inos@[j],
                ),
        decreases hits.len() - i,
    {
        let ghost seen = all.take(i as int);
        let ghost s0 = sets@;
        let ghost i0 = inos@;
        let link = &hits[i].0;
        let ino = hits[i].1;
        proof {
            assert(all.take(i + 1).drop_last() =~= seen);
            assert(all.take(i + 1).last() == (link@, ino));
        }
        match find_inode(&places, &inos, ino) {
            Some(j) => {
                let mut set = PathSet::new();
                core::mem::swap(&mut set, &mut sets[j]);
                assert(set@ == s0[j as int]@);
                let set = set.insert(link);
                let ghost grown = set@;
                let mut set = set;
                core::mem::swap(&mut set, &mut sets[j]);
                proof {
                    assert(sets@[j as int]@ == grown);
                    assert(forall|t: int| 0 <= t < s0.len() && t != j ==> sets@[t] == s0[t]);
                    assert forall|t: int| 0 <= t < sets.len() implies (#[trigger] sets@[t])@
                        == links_of(all.take(i + 1), inos@[t]) by {
                        assert(s0[t]@ == links_of(seen, i0[t]));
                        lemma_inodes_distinct(seen);
                        if t != j {
                            assert(i0[t] != i0[j as int]);
                        }
                    }
                }
            },
            None => {
                let set = PathSet::new().insert(link);
                proof {
                    lemma_links_of_absent(seen, ino);
                    assert(set@ =~= Seq::<PathView>::empty().push(link@));
                }
                places.insert(ino, inos.len());
                inos.push(ino);
                sets.push(set);
                proof {
                    assert forall|t: int| 0 <= t < sets.len() implies (#[trigger] sets@[t])@
                        == links_of(all.take(i + 1), inos@[t]) by {
                        if t < s0.len() {
                            assert(s0[t]@ == links_of(seen, i0[t]));
                            assert(i0.contains(i0[t]));
                        }
                    }
                }
            },
        }
        i += 1;
    }
    proof {
        assert(all.take(hits.len() as int) =~= all);
    }
    let ghost keys = inos@;
    let ghost vals = sets@;
    let total = inos.len();
    let mut rest = crate::vecs::reversed(sets);
    let mut res: Vec<(u64, Vec<Path>)> = Vec::new();
    let mut k: usize = 0;
    while k < total
        invariant
            k <= total == keys.len() == vals.len(),
            inos@ == keys,
            rest@ == vals.reverse().take(total - k),
            res@.len() == k,
            forall|t: int|
                0 <= t < k ==> (#[trigger] res@[t]).0 == keys[t] && paths_view(res@[t].1@)
                    == vals[t]@,
        decreases total - k,
    {
        let set = rest.pop().unwrap();
        assert(set == vals[k as int]);
        res.push((inos[k], set.into_vec()));
        proof {
            assert(rest@ =~= vals.reverse().take(total - (k + 1)));
        }
        k += 1;
    }
    proof {
        assert(cycles_view(res@) =~= grouped(all));
    }
    res
}

/// The values of a list of entries, each with the inode its cycle closes on.
pub open spec fn found_view(found: Seq<(Meta, u64)>) -> Seq<(MetaView, u64)> {
    found.map_values(|hit: (Meta, u64)| (hit.0@, hit.1))
}

/// The path of an entry that is a symbolic link, with the inode found for
/// it. Anything else gives nothing.
pub open spec fn link_hit(hit: (MetaView, u64)) -> Option<(PathView, u64)> {
    if hit.0.typ is Symlink {
        Some((hit.0.path, hit.1))
    } else {
        None
    }
}

/// The choice of links among what was found.
pub open spec fn link_hits() -> spec_fn((MetaView, u64)) -> Option<(PathView, u64)> {
    |hit: (MetaView, u64)| link_hit(hit)
}

/// Each path listed for an inode is the path of a hit with that inode.
pub proof fn lemma_links_of_members(hits: Seq<(PathView, u64)>, ino: u64, u: int)
    requires
        0 <= u < links_of(hits, ino).len(),
    ensures
        hits.contains((links_of(hits, ino)[u], ino)),
    decreases hits.len(),
{
    let before = links_of(hits.drop_last(), ino);
    if u < before.len() {
        assert(links_of(hits, ino)[u] == before[u]);
        lemma_links_of_members(hits.drop_last(), ino, u);
        let i = choose|i: int|
            0 <= i < hits.drop_last().len() && hits.drop_last()[i] == (before[u], ino);
        assert(hits[i] == (before[u], ino));
    } else {
        assert(hits[hits.len() - 1] == (links_of(hits, ino)[u], ino));
    }
}

/// Whether no path occurs twice among the hits.
pub open spec fn single_paths(hits: Seq<(PathView, u64)>) -> bool {
    forall|i: int, j: int|
        0 <= i < hits.len() && 0 <= j < hits.len() && i != j ==> (#[trigger] hits[i]).0 != (
        #[trigger] hits[j]).0
}

/// No link in two groups: where no path occurs twice among the hits, no
/// path is a member of two groups.
pub proof fn lemma_groups_share_no_path(hits: Seq<(PathView, u64)>, t: int, v: int, u: int, w: int)
    requires
        single_paths(hits),
        0 <= t < grouped(hits).len(),
        0 <= v < grouped(hits).len(),
        t != v,
        0 <= u < grouped(hits)[t].1.len(),
        0 <= w < grouped(hits)[v].1.len(),
    ensures
        grouped(hits)[t].1[u] != grouped(hits)[v].1[w],
{
    let first = inodes(hits)[t];
    let second = inodes(hits)[v];
    lemma_inodes_distinct(hits);
    assert(first != second);
    lemma_links_of_members(hits, first, u);
    lemma_links_of_members(hits, second, w);
    let i = choose|i: int| 0 <= i < hits.len() && hits[i] == (links_of(hits, first)[u], first);
    let j = choose|j: int| 0 <= j < hits.len() && hits[j] == (links_of(hits, second)[w], second);
    assert(i != j);
    assert(hits[i].0 != hits[j].0);
}

/// Who is in a cycle group: every member of every group is the path of a
/// symbolic link among what was found, and the group's inode is the one
/// found for that link.
pub proof fn lemma_cycle_members_are_links(found: Seq<(MetaView, u64)>, t: int, u: int)
    requires
        0 <= t < grouped(found.filter_map(link_hits())).len(),
        0 <= u < grouped(found.filter_map(link_hits()))[t].1.len(),
    ensures
        exists|i: int|
            0 <= i < found.len() && (#[trigger] found[i]).0.typ is Symlink && found[i].0.path
                == grouped(found.filter_map(link_hits()))[t].1[u] && found[i].1 == grouped(
                found.filter_map(link_hits()),
            )[t].0,
{
    let hits = found.filter_map(link_hits());
    let ino = inodes(hits)[t];
    let path = links_of(hits, ino)[u];
    lemma_links_of_members(hits, ino, u);
    found.lemma_filter_map_contains(link_hits(), (path, ino));
    let hit = choose|hit: (MetaView, u64)|
        #[trigger] found.contains(hit) && link_hits()(hit) == Some((path, ino));
    let i = choose|i: int| 0 <= i < found.len() && found[i] == hit;
    assert(found[i].0.typ is Symlink);
}

/// The cycle groups of what a walk found. Each entry comes with the inode
/// on which the traversal from it closed. Only symbolic links count; their
/// paths are gathered by inode, the groups in the order in which the inodes
/// first occur.
pub fn loops(found: &Vec<(Meta, u64)>) -> (res: Vec<(u64, Vec<Path>)>)
    ensures
        cycles_view(res@) == grouped(found_view(found@).filter_map(link_hits())),
{
    let ghost all = found_view(found@);
    let mut hits: Vec<(Path, u64)> = Vec::new();
    let mut i: usize = 0;
    assert(hits_view(hits@) =~= all.take(0).filter_map(link_hits()));
    while i < found.len()
        invariant
            i <= found.len(),
            all == found_view(found@),
            hits_view(hits@) == all.take(i as int).filter_map(link_hits()),
        decreases found.len() - i,
    {
        let ghost h0 = hits@;
        proof {
            all.lemma_filter_map_take_succ(link_hits(), i as int);
            assert(all[i as int] == (found@[i as int].0@, found@[i as int].1));
        }
        if found[i].0.is_symlink() {
            hits.push((found[i].0.path.clone(), found[i].1));
            assert(hits_view(hits@) =~= hits_view(h0) + seq![(found@[i as int].0@.path, found@[i as int].1)]);
        } else {
            assert(hits_view(hits@) =~= hits_view(h0) + Seq::empty());
        }
        i += 1;
    }
    assert(all.take(found.len() as int) =~= all);
    gather(&hits)
}

} // verus!
