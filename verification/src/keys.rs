//! Byte strings in the order in which they came, found again quickly.

use std::collections::HashMap;
use vstd::prelude::*;
use crate::data::paths_view;
use crate::path::{bytes_eq, lemma_names_push, names, parsed, rendered, Path, PathView};

verus! {

broadcast use vstd::std_specs::hash::group_hash_axioms;

/// Where a fingerprint starts.
pub const OFFSET: u64 = 0xcbf2_9ce4_8422_2325;

/// What a fingerprint is multiplied by after each byte.
pub const PRIME: u64 = 0x100_0000_01b3;

/// A fingerprint after one more byte.
pub open spec fn mixed(print: u64, byte: u8) -> u64 {
    vstd::wrapping::u64_specs::wrapping_mul(print ^ (byte as u64), PRIME)
}

/// A number made from all the bytes, by which equal byte strings are sure to
/// agree and others seldom do.
pub open spec fn fingerprint(bytes: Seq<u8>) -> u64
    decreases bytes.len(),
{
    if bytes.len() == 0 {
        OFFSET
    } else {
        mixed(fingerprint(bytes.drop_last()), bytes.last())
    }
}

/// Computes the fingerprint of `bytes`.
pub fn fingerprint_of(bytes: &[u8]) -> (res: u64)
    ensures
        res == fingerprint(bytes@),
{
    let mut print: u64 = OFFSET;
    let mut i: usize = 0;
    assert(bytes@.take(0) =~= Seq::<u8>::empty());
    while i < bytes.len()
        invariant
            i <= bytes.len(),
            print == fingerprint(bytes@.take(i as int)),
        decreases bytes.len() - i,
    {
        proof {
            assert(bytes@.take(i + 1).drop_last() =~= bytes@.take(i as int));
            assert(bytes@.take(i + 1).last() == bytes@[i as int]);
        }
        print = (print ^ (bytes[i] as u64)).wrapping_mul(PRIME);
        i += 1;
    }
    assert(bytes@.take(bytes.len() as int) =~= bytes@);
    print
}

/// A list of byte strings that can say quickly whether and where it holds a
/// given one.
#[derive(Debug)]
pub struct Keys {
    keys: Vec<Vec<u8>>,
    slots: HashMap<u64, Vec<usize>>,
}

impl View for Keys {
    type V = Seq<Seq<u8>>;

    closed spec fn view(&self) -> Seq<Seq<u8>> {
        names(self.keys@)
    }
}

impl Keys {
    /// Every key is listed under its fingerprint, and what is listed are
    /// places of keys.
    #[verifier::type_invariant]
    closed spec fn inv(self) -> bool {
        &&& forall|j: int|
            0 <= j < self.keys@.len() ==> self.slots@.contains_key(
                fingerprint(#[trigger] names(self.keys@)[j]),
            ) && self.slots@[fingerprint(names(self.keys@)[j])]@.contains(j as usize)
        &&& forall|print: u64, t: int|
            self.slots@.contains_key(print) && 0 <= t < self.slots@[print]@.len()
                ==> #[trigger] self.slots@[print]@[t] < self.keys@.len()
    }

    /// A list that holds nothing.
    pub fn new() -> (res: Keys)
        ensures
            res@.len() == 0,
    {
        Keys { keys: Vec::new(), slots: HashMap::new() }
    }

    /// A list that holds the given byte strings, in order.
    pub fn from_vec(items: Vec<Vec<u8>>) -> (res: Keys)
        ensures
            res@ == names(items@),
    {
        let ghost all = names(items@);
        let total = items.len();
        let mut rest = crate::vecs::reversed(items);
        let mut res = Keys::new();
        assert(res@ =~= all.take(0));
        while rest.len() > 0
            invariant
                rest@.len() <= total == all.len(),
                names(rest@) == all.reverse().take(rest@.len() as int),
                res@ == all.take(total - rest@.len()),
            decreases rest.len(),
        {
            let ghost r0 = rest@;
            let ghost done = total - rest@.len();
            let item = rest.pop().unwrap();
            proof {
                assert(names(r0)[r0.len() - 1] == item@);
                assert(item@ == all[done]);
                assert(names(rest@) =~= all.reverse().take(rest@.len() as int));
                assert(all.take(done + 1) =~= all.take(done).push(all[done]));
            }
            res = res.push(item);
        }
        assert(all.take(total as int) =~= all);
        res
    }

    /// How many byte strings the list holds.
    pub fn len(&self) -> (res: usize)
        ensures
            res == self@.len(),
    {
        self.keys.len()
    }

    /// A place where `id` stands in the list, if it stands anywhere.
    pub fn find(&self, id: &[u8]) -> (res: Option<usize>)
        ensures
            res matches Some(j) ==> j < self@.len() && self@[j as int] == id@,
            res is None ==> !self@.contains(id@),
    {
        proof {
            use_type_invariant(self);
        }
        let print = fingerprint_of(id);
        match self.slots.get(&print) {
            None => {
                proof {
                    assert(!self.slots@.contains_key(print));
                    if self@.contains(id@) {
                        let j = choose|j: int| 0 <= j < self@.len() && self@[j] == id@;
                        assert(self.slots@.contains_key(fingerprint(names(self.keys@)[j])));
                        assert(false);
                    }
                }
                None
            },
            Some(places) => {
                assert(self.slots@.contains_key(print) && *places == self.slots@[print]);
                let mut t: usize = 0;
                while t < places.len()
                    invariant
                        t <= places.len(),
                        self.slots@.contains_key(print),
                        *places == self.slots@[print],
                        forall|u: int|
                            0 <= u < places@.len() ==> #[trigger] places@[u] < self.keys@.len(),
                        forall|u: int|
                            0 <= u < t ==> names(self.keys@)[places@[u] as int] != id@,
                    decreases places.len() - t,
                {
                    let j = places[t];
                    if bytes_eq(self.keys[j].as_slice(), id) {
                        return Some(j);
                    }
                    t += 1;
                }
                proof {
                    if self@.contains(id@) {
                        let j = choose|j: int| 0 <= j < self@.len() && self@[j] == id@;
                        assert(j < self.keys@.len());
                        assert(self.keys.len() == self.keys@.len());
                        let place = j as usize;
                        assert(place as int == j);
                        assert(names(self.keys@)[j] == id@);
                        assert(self.slots@[fingerprint(names(self.keys@)[j])]@.contains(place));
                        assert(places@.contains(place));
                        let u = choose|u: int| 0 <= u < places@.len() && places@[u] == place;
                        assert(names(self.keys@)[places@[u] as int] != id@);
                        assert(false);
                    }
                }
                None
            },
        }
    }

    /// The list with `key` at the end.
    pub fn push(self, key: Vec<u8>) -> (res: Keys)
        ensures
            res@ == self@.push(key@),
    {
        proof {
            use_type_invariant(&self);
        }
        let print = fingerprint_of(key.as_slice());
        let mut keys = self.keys;
        let mut slots = self.slots;
        let ghost k0 = keys@;
        let ghost s0 = slots@;
        let place = keys.len();
        let mut places: Vec<usize> = match slots.remove(&print) {
            Some(places) => places,
            None => Vec::new(),
        };
        let ghost held0 = places@;
        places.push(place);
        proof {
            lemma_names_push(k0, key);
        }
        keys.push(key);
        slots.insert(print, places);
        proof {
            let now = slots@;
            assert(now[print]@ == held0.push(place));
            assert forall|j: int| 0 <= j < keys@.len() implies now.contains_key(
                fingerprint(#[trigger] names(keys@)[j]),
            ) && now[fingerprint(names(keys@)[j])]@.contains(j as usize) by {
                let f = fingerprint(names(keys@)[j]);
                if j < k0.len() {
                    assert(names(keys@)[j] == names(k0)[j]);
                    assert(s0.contains_key(f) && s0[f]@.contains(j as usize));
                    if f == print {
                        let u = choose|u: int| 0 <= u < held0.len() && held0[u] == j as usize;
                        assert(now[print]@[u] == j as usize);
                    }
                } else {
                    assert(now[print]@[held0.len() as int] == place);
                }
            }
            assert forall|f: u64, t: int|
                now.contains_key(f) && 0 <= t < now[f]@.len() implies #[trigger] now[f]@[t]
                < keys@.len() by {
                if f == print {
                    if t < held0.len() {
                        assert(s0.contains_key(print));
                        assert(s0[print]@[t] < k0.len());
                    }
                } else {
                    assert(s0.contains_key(f));
                    assert(s0[f]@[t] < k0.len());
                }
            }
        }
        Keys { keys, slots }
    }
}

/// Paths in the order in which they came, each once.
#[derive(Debug)]
pub struct PathSet {
    paths: Vec<Path>,
    texts: Keys,
}

impl View for PathSet {
    type V = Seq<PathView>;

    closed spec fn view(&self) -> Seq<PathView> {
        paths_view(self.paths@)
    }
}

impl PathSet {
    /// Each path is known by its text, and its text spells it.
    #[verifier::type_invariant]
    closed spec fn inv(self) -> bool {
        &&& self.texts@.len() == self.paths@.len()
        &&& forall|j: int|
            0 <= j < self.paths@.len() ==> (#[trigger] self.texts@[j]) == rendered(
                paths_view(self.paths@)[j],
            ) && parsed(self.texts@[j]) == paths_view(self.paths@)[j]
    }

    /// A set that holds nothing.
    pub fn new() -> (res: PathSet)
        ensures
            res@.len() == 0,
    {
        PathSet { paths: Vec::new(), texts: Keys::new() }
    }

    /// How many paths the set holds.
    pub fn len(&self) -> (res: usize)
        ensures
            res == self@.len(),
    {
        self.paths.len()
    }

    /// Whether the set holds `path`.
    pub fn contains(&self, path: &Path) -> (res: bool)
        ensures
            res == self@.contains(path@),
    {
        proof {
            use_type_invariant(self);
        }
        let text = path.to_bytes();
        let found = self.texts.find(text.as_slice());
        proof {
            let held = paths_view(self.paths@);
            match found {
                Some(j) => {
                    assert(parsed(self.texts@[j as int]) == held[j as int]);
                    assert(held[j as int] == path@);
                },
                None => {
                    if held.contains(path@) {
                        let j = choose|j: int| 0 <= j < held.len() && held[j] == path@;
                        assert(self.texts@[j] == text@);
                        assert(self.texts@.contains(text@));
                    }
                },
            }
        }
        found.is_some()
    }

    /// The set with `path` in it: at the end if it is new, where it was if
    /// it is not.
    pub fn insert(self, path: &Path) -> (res: PathSet)
        ensures
            res@ == if self@.contains(path@) {
                self@
            } else {
                self@.push(path@)
            },
    {
        if self.contains(path) {
            return self;
        }
        proof {
            use_type_invariant(&self);
        }
        let text = path.to_bytes();
        let copy = path.clone();
        let mut paths = self.paths;
        let ghost before = paths@;
        let ghost known = self.texts@;
        let texts = self.texts.push(text);
        paths.push(copy);
        proof {
            assert(paths_view(paths@) =~= paths_view(before).push(path@));
            assert forall|j: int| 0 <= j < paths@.len() implies (#[trigger] texts@[j]) == rendered(
                paths_view(paths@)[j],
            ) && parsed(texts@[j]) == paths_view(paths@)[j] by {
                if j < before.len() {
                    assert(texts@[j] == known[j]);
                    assert(paths_view(paths@)[j] == paths_view(before)[j]);
                }
            }
        }
        PathSet { paths, texts }
    }

    /// The paths, in the order in which they came.
    pub fn into_vec(self) -> (res: Vec<Path>)
        ensures
            paths_view(res@) == self@,
    {
        self.paths
    }
}

} // verus!
