//! Lexical paths: a path is its sequence of components, as the operating
//! system would split it, and nothing is ever looked up on disk.

use vstd::prelude::*;

verus! {

/// The byte that separates components.
pub const SEPARATOR: u8 = 47;

/// The byte of which the names `.` and `..` are made.
pub const DOT: u8 = 46;

/// The mathematical value of a [`Path`].
pub struct PathView {
    /// Whether the path starts at the root directory.
    pub absolute: bool,
    /// The components after the root, in order. `.` and `..` are ordinary
    /// entries here.
    pub parts: Seq<Seq<u8>>,
}

/// The name `.`.
pub open spec fn cur_dir() -> Seq<u8> {
    seq![DOT]
}

/// The name `..`.
pub open spec fn parent_dir() -> Seq<u8> {
    seq![DOT, DOT]
}

/// A component as it can come out of splitting a path: not empty, free of
/// separators.
pub open spec fn name_ok(name: Seq<u8>) -> bool {
    name.len() > 0 && !name.contains(SEPARATOR)
}

/// A name as a directory lists it: a proper component that is neither `.`
/// nor `..`.
pub open spec fn entry_name_ok(name: Seq<u8>) -> bool {
    name_ok(name) && name != cur_dir() && name != parent_dir()
}

impl PathView {
    /// Components are proper names, and `.` survives only as the very first
    /// component of a relative path.
    pub open spec fn wf(self) -> bool {
        forall|i: int|
            0 <= i < self.parts.len() ==> {
                &&& name_ok(#[trigger] self.parts[i])
                &&& self.parts[i] == cur_dir() ==> i == 0 && !self.absolute
            }
    }

    /// The path cut down to its first `n` components.
    pub open spec fn prefix(self, n: int) -> PathView {
        PathView { absolute: self.absolute, parts: self.parts.take(n) }
    }

    /// The path one level up, if there is one. Neither the root nor the empty
    /// path has a parent.
    pub open spec fn parent(self) -> Option<PathView> {
        if self.parts.len() == 0 {
            None
        } else {
            Some(self.prefix(self.parts.len() - 1))
        }
    }

    /// The last component, if it is a proper name.
    pub open spec fn file_name(self) -> Option<Seq<u8>> {
        if self.parts.len() == 0 || self.parts.last() == cur_dir() || self.parts.last()
            == parent_dir() {
            None
        } else {
            Some(self.parts.last())
        }
    }

    /// Whether `base` is a leading run of whole components of `self`. The
    /// root counts as a component, so a relative `base` matches an absolute
    /// path only when `base` is empty.
    pub open spec fn starts_with(self, base: PathView) -> bool {
        &&& base.parts.is_prefix_of(self.parts)
        &&& base.absolute ==> self.absolute
        &&& self.absolute && !base.absolute ==> base.parts.len() == 0
    }

    /// Whether `self` lies strictly above `other`: it has fewer components and
    /// they all match.
    pub open spec fn is_strict_ancestor_of(self, other: PathView) -> bool {
        &&& self.absolute == other.absolute
        &&& self.parts.len() < other.parts.len()
        &&& self.parts == other.parts.take(self.parts.len() as int)
    }

    /// The path with one more component at the end.
    pub open spec fn push(self, name: Seq<u8>) -> PathView {
        PathView { absolute: self.absolute, parts: self.parts.push(name) }
    }

    /// The path without its last component; unchanged when it has none.
    pub open spec fn pop(self) -> PathView {
        if self.parts.len() == 0 {
            self
        } else {
            self.prefix(self.parts.len() - 1)
        }
    }
}

/// What one component of the path being resolved does to the path built so
/// far: `.` leaves it alone, `..` drops its last component, a name is added.
pub open spec fn resolve_step(acc: PathView, name: Seq<u8>) -> PathView {
    if name == cur_dir() {
        acc
    } else if name == parent_dir() {
        acc.pop()
    } else {
        acc.push(name)
    }
}

/// `acc` after the components `parts` have been applied to it in order.
pub open spec fn resolve_from(acc: PathView, parts: Seq<Seq<u8>>) -> PathView
    decreases parts.len(),
{
    if parts.len() == 0 {
        acc
    } else {
        resolve_step(resolve_from(acc, parts.drop_last()), parts.last())
    }
}

/// `path` resolved against `working_dir`, by the text alone: an absolute
/// `path` starts over at the root, a relative one starts at `working_dir`.
pub open spec fn normalized(working_dir: PathView, path: PathView) -> PathView {
    resolve_from(if path.absolute { root_view() } else { working_dir }, path.parts)
}

/// The pieces of `text` between separators, empty pieces included.
pub open spec fn segments(text: Seq<u8>) -> Seq<Seq<u8>>
    decreases text.len(),
{
    if text.len() == 0 {
        seq![Seq::empty()]
    } else {
        let before = segments(text.drop_last());
        if text.last() == SEPARATOR {
            before.push(Seq::empty())
        } else {
            before.drop_last().push(before.last().push(text.last()))
        }
    }
}

/// The pieces that count as components: empty pieces vanish, and so does
/// every `.` but a leading one.
pub open spec fn components(pieces: Seq<Seq<u8>>) -> Seq<Seq<u8>>
    decreases pieces.len(),
{
    if pieces.len() == 0 {
        Seq::empty()
    } else {
        let before = components(pieces.drop_last());
        let piece = pieces.last();
        if piece.len() == 0 || (piece == cur_dir() && pieces.len() > 1) {
            before
        } else {
            before.push(piece)
        }
    }
}

/// The path that `text` spells.
pub open spec fn parsed(text: Seq<u8>) -> PathView {
    PathView {
        absolute: text.len() > 0 && text[0] == SEPARATOR,
        parts: components(segments(text)),
    }
}

/// The components with one separator between neighbours.
pub open spec fn joined(parts: Seq<Seq<u8>>) -> Seq<u8>
    decreases parts.len(),
{
    if parts.len() == 0 {
        Seq::empty()
    } else if parts.len() == 1 {
        parts[0]
    } else {
        joined(parts.drop_last()) + seq![SEPARATOR] + parts.last()
    }
}

/// The text of a path: a separator for the root, then the components.
pub open spec fn rendered(path: PathView) -> Seq<u8> {
    if path.absolute {
        seq![SEPARATOR] + joined(path.parts)
    } else {
        joined(path.parts)
    }
}

/// The root directory.
pub open spec fn root_view() -> PathView {
    PathView { absolute: true, parts: Seq::empty() }
}

/// A path held as its components.
///
/// Two paths are the same path exactly when their components agree; how many
/// separators stood between them in the text they were read from does not
/// matter.
#[derive(Debug, PartialEq, Eq, Hash)]
pub struct Path {
    absolute: bool,
    parts: Vec<Vec<u8>>,
}

/// The contents of a list of byte strings.
pub open spec fn names(parts: Seq<Vec<u8>>) -> Seq<Seq<u8>> {
    parts.map_values(|part: Vec<u8>| part@)
}

impl View for Path {
    type V = PathView;

    closed spec fn view(&self) -> PathView {
        PathView { absolute: self.absolute, parts: names(self.parts@) }
    }
}

impl Path {
    /// Every path is well formed, wherever it came from.
    #[verifier::type_invariant]
    pub open spec fn inv(self) -> bool {
        self@.wf()
    }

    /// The root directory, `/`.
    pub fn root() -> (res: Path)
        ensures
            res@ == root_view(),
    {
        let res = Path { absolute: true, parts: Vec::new() };
        assert(names(res.parts@) =~= Seq::<Seq<u8>>::empty());
        res
    }

    /// Whether the path starts at the root directory.
    pub fn is_absolute(&self) -> (res: bool)
        ensures
            res == self@.absolute,
    {
        self.absolute
    }

    /// The first `n` components, under the same root.
    pub fn prefix(&self, n: usize) -> (res: Path)
        requires
            n <= self@.parts.len(),
        ensures
            res@ == self@.prefix(n as int),
    {
        proof {
            use_type_invariant(self);
        }
        let mut parts: Vec<Vec<u8>> = Vec::new();
        let mut i: usize = 0;
        while i < n
            invariant
                i <= n <= self.parts.len(),
                parts.len() == i,
                names(parts@) == names(self.parts@).take(i as int),
            decreases n - i,
        {
            let part = self.parts[i].clone();
            assert(part@ == self.parts[i as int]@);
            proof {
                lemma_names_push(parts@, part);
            }
            parts.push(part);
            assert(names(parts@) =~= names(self.parts@).take(i + 1));
            i += 1;
        }
        Path { absolute: self.absolute, parts }
    }

    /// The path one level up. Neither the root nor the empty path has one.
    pub fn parent(&self) -> (res: Option<Path>)
        ensures
            res is Some == self@.parent() is Some,
            res is Some ==> res->0@ == self@.parent()->0,
    {
        if self.parts.len() == 0 {
            None
        } else {
            Some(self.prefix(self.parts.len() - 1))
        }
    }

    /// The last component, unless the path is empty or ends in `.` or `..`.
    pub fn file_name(&self) -> (res: Option<Vec<u8>>)
        ensures
            res is Some == self@.file_name() is Some,
            res is Some ==> res->0@ == self@.file_name()->0,
    {
        let n = self.parts.len();
        if n == 0 {
            return None;
        }
        let last = &self.parts[n - 1];
        assert(last@ == self@.parts.last());
        if is_cur_dir(last.as_slice()) || is_parent_dir(last.as_slice()) {
            None
        } else {
            Some(last.clone())
        }
    }

    /// Whether `base` is a leading run of whole components of this path.
    pub fn starts_with(&self, base: &Path) -> (res: bool)
        ensures
            res == self@.starts_with(base@),
    {
        if base.absolute && !self.absolute {
            return false;
        }
        if self.absolute && !base.absolute && base.parts.len() != 0 {
            return false;
        }
        if base.parts.len() > self.parts.len() {
            return false;
        }
        let mut i: usize = 0;
        while i < base.parts.len()
            invariant
                i <= base.parts.len() <= self.parts.len(),
                forall|k: int| 0 <= k < i ==> base@.parts[k] == self@.parts[k],
            decreases base.parts.len() - i,
        {
            if !bytes_eq(base.parts[i].as_slice(), self.parts[i].as_slice()) {
                assert(base@.parts[i as int] != self@.parts[i as int]);
                return false;
            }
            i += 1;
        }
        assert(base@.parts =~= self@.parts.subrange(0, base@.parts.len() as int));
        true
    }

    /// Whether the two paths have the same components.
    pub fn equals(&self, other: &Path) -> (res: bool)
        ensures
            res == (self@ == other@),
    {
        if self.absolute != other.absolute || self.parts.len() != other.parts.len() {
            assert(self@.absolute != other@.absolute || self@.parts.len() != other@.parts.len());
            return false;
        }
        let mut i: usize = 0;
        while i < self.parts.len()
            invariant
                i <= self.parts.len() == other.parts.len(),
                forall|k: int| 0 <= k < i ==> self@.parts[k] == other@.parts[k],
            decreases self.parts.len() - i,
        {
            if !bytes_eq(self.parts[i].as_slice(), other.parts[i].as_slice()) {
                assert(self@.parts[i as int] != other@.parts[i as int]);
                return false;
            }
            i += 1;
        }
        assert(self@.parts =~= other@.parts);
        true
    }

    /// The path with `name` added as its last component, provided `name` is
    /// a proper name: not empty, free of separators, and neither `.` nor `..`.
    pub fn join(&self, name: &[u8]) -> (res: Option<Path>)
        ensures
            res is Some == entry_name_ok(name@),
            res is Some ==> res->0@ == self@.push(name@),
    {
        if name.len() == 0 || is_cur_dir(name) || is_parent_dir(name) {
            return None;
        }
        let mut owned: Vec<u8> = Vec::new();
        let mut i: usize = 0;
        while i < name.len()
            invariant
                i <= name.len(),
                owned@ == name@.take(i as int),
                !owned@.contains(SEPARATOR),
            decreases name.len() - i,
        {
            if name[i] == SEPARATOR {
                assert(name@.contains(name@[i as int]));
                return None;
            }
            let ghost before = owned@;
            owned.push(name[i]);
            proof {
                assert(owned@ =~= name@.take(i + 1));
                assert forall|k: int| 0 <= k < owned@.len() implies owned@[k] != SEPARATOR by {
                    if k < before.len() {
                        assert(before.contains(before[k]));
                    }
                }
            }
            i += 1;
        }
        assert(name@.take(name.len() as int) =~= name@);
        let mut parts: Vec<Vec<u8>> = self.clone().parts;
        proof {
            use_type_invariant(self);
            lemma_names_push(parts@, owned);
            lemma_wf_push(self@, name@);
        }
        parts.push(owned);
        Some(Path { absolute: self.absolute, parts })
    }

    /// The directories above this path, nearest first, down to the root or,
    /// for a relative path, the empty path.
    pub fn ancestors(&self) -> (res: Vec<Path>)
        ensures
            res@.len() == self@.parts.len(),
            forall|k: int|
                0 <= k < res@.len() ==> (#[trigger] res@[k])@ == self@.prefix(
                    self@.parts.len() - 1 - k,
                ),
    {
        let n = self.parts.len();
        let mut res: Vec<Path> = Vec::new();
        let mut k: usize = 0;
        while k < n
            invariant
                k <= n == self@.parts.len(),
                res@.len() == k,
                forall|j: int|
                    0 <= j < k ==> (#[trigger] res@[j])@ == self@.prefix(n - 1 - j),
            decreases n - k,
        {
            res.push(self.prefix(n - 1 - k));
            k += 1;
        }
        res
    }

    /// Reads a path from its text. Runs of separators count as one, a
    /// trailing separator is dropped, and `.` is kept only where it leads a
    /// relative path.
    pub fn parse(text: &[u8]) -> (res: Path)
        ensures
            res@ == parsed(text@),
    {
        let absolute = text.len() > 0 && text[0] == SEPARATOR;
        let mut parts: Vec<Vec<u8>> = Vec::new();
        let mut cur: Vec<u8> = Vec::new();
        let mut first: bool = true;
        let ghost mut done: Seq<Seq<u8>> = Seq::empty();
        let mut i: usize = 0;
        assert(text@.take(0) =~= Seq::<u8>::empty());
        assert(done.push(cur@) =~= seq![Seq::<u8>::empty()]);
        while i < text.len()
            invariant
                i <= text.len(),
                segments(text@.take(i as int)) == done.push(cur@),
                names(parts@) == components(done),
                first == (done.len() == 0),
            decreases text.len() - i,
        {
            let b = text[i];
            proof {
                assert(text@.take(i + 1).drop_last() =~= text@.take(i as int));
                assert(text@.take(i + 1).last() == b);
            }
            if b == SEPARATOR {
                proof {
                    let pieces = done.push(cur@);
                    assert(pieces.drop_last() =~= done);
                    assert(pieces.last() == cur@);
                    lemma_names_push(parts@, cur);
                    assert(pieces.push(Seq::<u8>::empty()).drop_last() =~= pieces);
                }
                let keep = cur.len() > 0 && (first || !is_cur_dir(cur.as_slice()));
                let ghost before = cur@;
                if keep {
                    parts.push(cur);
                }
                cur = Vec::new();
                first = false;
                proof {
                    done = done.push(before);
                }
            } else {
                let ghost before = cur@;
                cur.push(b);
                proof {
                    let pieces = done.push(before);
                    assert(pieces.drop_last() =~= done);
                    assert(pieces.drop_last().push(pieces.last().push(b)) =~= done.push(cur@));
                }
            }
            i += 1;
        }
        proof {
            assert(text@.take(text.len() as int) =~= text@);
            let pieces = done.push(cur@);
            assert(pieces.drop_last() =~= done);
            lemma_names_push(parts@, cur);
            lemma_parsed_wf(text@);
        }
        let keep = cur.len() > 0 && (first || !is_cur_dir(cur.as_slice()));
        if keep {
            parts.push(cur);
        }
        Path { absolute, parts }
    }

    /// The text of the path: components with single separators between them,
    /// after a leading separator when the path is absolute. Read again, the
    /// text gives the same path.
    pub fn to_bytes(&self) -> (res: Vec<u8>)
        ensures
            res@ == rendered(self@),
            parsed(res@) == self@,
    {
        proof {
            use_type_invariant(self);
            lemma_parse_rendered(self@);
        }
        let mut res: Vec<u8> = Vec::new();
        if self.absolute {
            res.push(SEPARATOR);
        }
        let ghost lead = res@;
        let mut i: usize = 0;
        while i < self.parts.len()
            invariant
                i <= self.parts.len(),
                res@ == lead + joined(self@.parts.take(i as int)),
            decreases self.parts.len() - i,
        {
            if i > 0 {
                res.push(SEPARATOR);
            }
            let part = &self.parts[i];
            let mut j: usize = 0;
            let ghost start = res@;
            while j < part.len()
                invariant
                    j <= part.len(),
                    res@ == start + part@.take(j as int),
                decreases part.len() - j,
            {
                res.push(part[j]);
                assert(part@.take(j + 1) =~= part@.take(j as int).push(part@[j as int]));
                j += 1;
            }
            proof {
                assert(part@.take(part.len() as int) =~= part@);
                let upto = self@.parts.take(i + 1);
                assert(upto.drop_last() =~= self@.parts.take(i as int));
                assert(upto.last() == part@);
                if i == 0 {
                    assert(joined(upto) == part@);
                    assert(joined(self@.parts.take(0)) =~= Seq::<u8>::empty());
                    assert(res@ =~= lead + joined(upto));
                } else {
                    assert(res@ =~= lead + joined(upto));
                }
            }
            i += 1;
        }
        proof {
            assert(self@.parts.take(self.parts.len() as int) =~= self@.parts);
            assert(joined(self@.parts.take(0)) =~= Seq::<u8>::empty());
            if !self.absolute {
                assert(lead + joined(self@.parts) =~= joined(self@.parts));
            }
        }
        res
    }

    /// The path as a plain value: whether it is absolute, and its components.
    pub fn key(&self) -> (res: (bool, Vec<Vec<u8>>))
        ensures
            res.0 == self@.absolute,
            names(res.1@) == self@.parts,
    {
        let copy = self.clone();
        (copy.absolute, copy.parts)
    }

    /// The component at place `i`, counted from the first after the root.
    pub fn part(&self, i: usize) -> (res: &Vec<u8>)
        requires
            i < self@.parts.len(),
        ensures
            res@ == self@.parts[i as int],
    {
        &self.parts[i]
    }

    /// How many components follow the root.
    pub fn len(&self) -> (res: usize)
        ensures
            res == self@.parts.len(),
    {
        self.parts.len()
    }
}

impl Clone for Path {
    fn clone(&self) -> (res: Path)
        ensures
            res@ == self@,
    {
        let res = self.prefix(self.parts.len());
        assert(self@.parts.take(self@.parts.len() as int) =~= self@.parts);
        res
    }
}

/// A well-formed path stays well formed when a proper name is added, as long
/// as `.` is only ever added to the empty relative path.
pub proof fn lemma_wf_push(path: PathView, name: Seq<u8>)
    requires
        path.wf(),
        name_ok(name),
        name == cur_dir() ==> path.parts.len() == 0 && !path.absolute,
    ensures
        path.push(name).wf(),
{
    let longer = path.push(name);
    assert forall|i: int| 0 <= i < longer.parts.len() implies {
        &&& name_ok(#[trigger] longer.parts[i])
        &&& longer.parts[i] == cur_dir() ==> i == 0 && !longer.absolute
    } by {
        if i < path.parts.len() {
            assert(longer.parts[i] == path.parts[i]);
        }
    }
}

/// Every prefix of a well-formed path is well formed.
pub proof fn lemma_wf_prefix(path: PathView, n: int)
    requires
        path.wf(),
        0 <= n <= path.parts.len(),
    ensures
        path.prefix(n).wf(),
{
    let shorter = path.prefix(n);
    assert forall|i: int| 0 <= i < shorter.parts.len() implies {
        &&& name_ok(#[trigger] shorter.parts[i])
        &&& shorter.parts[i] == cur_dir() ==> i == 0 && !shorter.absolute
    } by {
        assert(shorter.parts[i] == path.parts[i]);
    }
}

/// No piece of a text holds a separator, and the first piece is empty when
/// the text starts with one.
pub proof fn lemma_segments_clean(text: Seq<u8>)
    ensures
        segments(text).len() > 0,
        forall|i: int| 0 <= i < segments(text).len() ==> !(#[trigger] segments(text)[i]).contains(
            SEPARATOR,
        ),
        text.len() > 0 && text[0] == SEPARATOR ==> segments(text)[0].len() == 0,
    decreases text.len(),
{
    if text.len() > 0 {
        let init = text.drop_last();
        let before = segments(init);
        lemma_segments_clean(init);
        assert forall|i: int| 0 <= i < segments(text).len() implies !(#[trigger] segments(
            text,
        )[i]).contains(SEPARATOR) by {
            if text.last() == SEPARATOR {
                if i < before.len() {
                    assert(segments(text)[i] == before[i]);
                }
            } else if i < before.len() - 1 {
                assert(segments(text)[i] == before[i]);
            } else {
                let grown = before.last().push(text.last());
                assert(segments(text)[i] == grown);
                assert(!before[before.len() - 1].contains(SEPARATOR));
                if grown.contains(SEPARATOR) {
                    let k = choose|k: int| 0 <= k < grown.len() && grown[k] == SEPARATOR;
                    assert(before.last()[k] == SEPARATOR);
                    assert(before.last().contains(SEPARATOR));
                }
            }
        }
        if text[0] == SEPARATOR {
            if init.len() > 0 {
                assert(init[0] == text[0]);
                assert(before.len() >= 1);
                if text.last() != SEPARATOR && before.len() == 1 {
                    // The one piece would reach back to the start, past the
                    // separator that stands there.
                    lemma_segments_count(init);
                    assert(init.contains(init[0]));
                }
            }
        }
    }
}

/// A text with a separator in it has more than one piece.
pub proof fn lemma_segments_count(text: Seq<u8>)
    requires
        text.contains(SEPARATOR),
    ensures
        segments(text).len() >= 2,
    decreases text.len(),
{
    lemma_segments_nonempty(text);
    if text.len() > 0 {
        if text.last() != SEPARATOR {
            let k = choose|k: int| 0 <= k < text.len() && text[k] == SEPARATOR;
            assert(text.drop_last()[k] == SEPARATOR);
            lemma_segments_count(text.drop_last());
        } else {
            lemma_segments_nonempty(text.drop_last());
        }
    }
}

/// What counts as a component is one of the pieces and is not empty, and a
/// `.` among the components is the first of them and the first piece.
pub proof fn lemma_components_clean(pieces: Seq<Seq<u8>>)
    ensures
        forall|i: int|
            0 <= i < components(pieces).len() ==> (#[trigger] components(pieces)[i]).len() > 0
                && pieces.contains(components(pieces)[i]),
        forall|i: int|
            0 <= i < components(pieces).len() && #[trigger] components(pieces)[i] == cur_dir()
                ==> i == 0 && pieces[0] == cur_dir(),
    decreases pieces.len(),
{
    if pieces.len() > 0 {
        let init = pieces.drop_last();
        let before = components(init);
        lemma_components_clean(init);
        assert forall|i: int| 0 <= i < components(pieces).len() implies (#[trigger] components(
            pieces,
        )[i]).len() > 0 && pieces.contains(components(pieces)[i]) by {
            if i < before.len() {
                assert(components(pieces)[i] == before[i]);
                assert(init.contains(before[i]));
                let k = choose|k: int| 0 <= k < init.len() && init[k] == before[i];
                assert(pieces[k] == before[i]);
            } else {
                assert(components(pieces)[i] == pieces[pieces.len() - 1]);
            }
        }
        assert forall|i: int|
            0 <= i < components(pieces).len() && #[trigger] components(pieces)[i]
                == cur_dir() implies i == 0 && pieces[0] == cur_dir() by {
            if i < before.len() {
                assert(components(pieces)[i] == before[i]);
                assert(init[0] == pieces[0]);
            } else {
                assert(pieces.len() == 1);
            }
        }
    }
}

/// Whatever the text, the path it spells is well formed.
pub proof fn lemma_parsed_wf(text: Seq<u8>)
    ensures
        parsed(text).wf(),
{
    let pieces = segments(text);
    let parts = components(pieces);
    lemma_segments_clean(text);
    lemma_components_clean(pieces);
    assert forall|i: int| 0 <= i < parts.len() implies {
        &&& name_ok(#[trigger] parts[i])
        &&& parts[i] == cur_dir() ==> i == 0 && !parsed(text).absolute
    } by {
        assert(pieces.contains(parts[i]));
        let k = choose|k: int| 0 <= k < pieces.len() && pieces[k] == parts[i];
        assert(!pieces[k].contains(SEPARATOR));
        if parts[i] == cur_dir() {
            assert(pieces[0] == cur_dir());
            assert(pieces[0].len() == 1);
        }
    }
}

/// Bytes without a separator, put at the end of a text, lengthen its last
/// piece.
pub proof fn lemma_segments_extend(text: Seq<u8>, more: Seq<u8>)
    requires
        !more.contains(SEPARATOR),
    ensures
        segments(text).len() > 0,
        segments(text + more) == segments(text).drop_last().push(segments(text).last() + more),
    decreases more.len(),
{
    lemma_segments_nonempty(text);
    if more.len() == 0 {
        assert(text + more =~= text);
        assert(segments(text).last() + more =~= segments(text).last());
        assert(segments(text).drop_last().push(segments(text).last()) =~= segments(text));
    } else {
        let init = more.drop_last();
        assert(!init.contains(SEPARATOR)) by {
            if init.contains(SEPARATOR) {
                let i = choose|i: int| 0 <= i < init.len() && init[i] == SEPARATOR;
                assert(more[i] == SEPARATOR);
            }
        }
        assert(more.last() != SEPARATOR) by {
            assert(more.contains(more[more.len() - 1]));
        }
        lemma_segments_extend(text, init);
        assert((text + more).drop_last() =~= text + init);
        assert((text + more).last() == more.last());
        let before = segments(text + init);
        let pieces = segments(text);
        assert(before.drop_last() =~= pieces.drop_last());
        assert(before.last() == pieces.last() + init);
        assert(init.push(more.last()) =~= more);
        assert((pieces.last() + init).push(more.last()) =~= pieces.last() + more);
        assert(segments(text + more) == before.drop_last().push(
            before.last().push(more.last()),
        ));
    }
}

/// A text always has at least one piece.
pub proof fn lemma_segments_nonempty(text: Seq<u8>)
    ensures
        segments(text).len() > 0,
    decreases text.len(),
{
    if text.len() > 0 {
        lemma_segments_nonempty(text.drop_last());
    }
}

/// The pieces of a text that ends in names joined by separators are the
/// pieces of what stands before them, the first name lengthening the last of
/// those, and then the other names.
pub proof fn lemma_segments_joined(lead: Seq<u8>, parts: Seq<Seq<u8>>)
    requires
        parts.len() >= 1,
        forall|i: int| 0 <= i < parts.len() ==> !(#[trigger] parts[i]).contains(SEPARATOR),
    ensures
        segments(lead + joined(parts)) == segments(lead).drop_last().push(
            segments(lead).last() + parts[0],
        ) + parts.skip(1),
    decreases parts.len(),
{
    if parts.len() == 1 {
        lemma_segments_extend(lead, parts[0]);
        assert(parts.skip(1) =~= Seq::<Seq<u8>>::empty());
        assert(segments(lead).drop_last().push(segments(lead).last() + parts[0]) + parts.skip(1)
            =~= segments(lead).drop_last().push(segments(lead).last() + parts[0]));
    } else {
        let init = parts.drop_last();
        let last = parts.last();
        assert forall|i: int| 0 <= i < init.len() implies !(#[trigger] init[i]).contains(
            SEPARATOR,
        ) by {
            assert(init[i] == parts[i]);
        }
        lemma_segments_joined(lead, init);
        let upto = lead + joined(init);
        let cut = upto.push(SEPARATOR);
        assert(cut.drop_last() =~= upto);
        assert(segments(cut) == segments(upto).push(Seq::empty()));
        lemma_segments_extend(cut, last);
        assert(cut + last =~= lead + joined(parts));
        assert(Seq::<u8>::empty() + last =~= last);
        assert(segments(cut).drop_last() =~= segments(upto));
        assert(init[0] == parts[0]);
        assert(segments(upto).push(last) =~= segments(lead).drop_last().push(
            segments(lead).last() + parts[0],
        ) + parts.skip(1));
    }
}

/// Pieces that are all proper names, with `.` at most in the first place, are
/// all components.
pub proof fn lemma_components_all(pieces: Seq<Seq<u8>>)
    requires
        forall|i: int|
            0 <= i < pieces.len() ==> (#[trigger] pieces[i]).len() > 0 && (pieces[i] == cur_dir()
                ==> i == 0),
    ensures
        components(pieces) == pieces,
    decreases pieces.len(),
{
    if pieces.len() == 0 {
        assert(components(pieces) =~= pieces);
    } else {
        let init = pieces.drop_last();
        assert forall|i: int| 0 <= i < init.len() implies (#[trigger] init[i]).len() > 0 && (
        init[i] == cur_dir() ==> i == 0) by {
            assert(init[i] == pieces[i]);
        }
        lemma_components_all(init);
        assert(pieces[pieces.len() - 1].len() > 0);
        assert(init.push(pieces.last()) =~= pieces);
    }
}

/// After an empty first piece, pieces that are all proper names other than
/// `.` are the components.
pub proof fn lemma_components_rooted(parts: Seq<Seq<u8>>)
    requires
        forall|i: int|
            0 <= i < parts.len() ==> (#[trigger] parts[i]).len() > 0 && parts[i] != cur_dir(),
    ensures
        components(seq![Seq::<u8>::empty()] + parts) == parts,
    decreases parts.len(),
{
    let pieces = seq![Seq::<u8>::empty()] + parts;
    if parts.len() == 0 {
        assert(pieces =~= seq![Seq::<u8>::empty()]);
        assert(pieces.drop_last() =~= Seq::<Seq<u8>>::empty());
        assert(pieces.last().len() == 0);
        assert(components(pieces.drop_last()) =~= Seq::<Seq<u8>>::empty());
        assert(components(pieces) =~= parts);
    } else {
        let init = parts.drop_last();
        assert forall|i: int| 0 <= i < init.len() implies (#[trigger] init[i]).len() > 0
            && init[i] != cur_dir() by {
            assert(init[i] == parts[i]);
        }
        lemma_components_rooted(init);
        assert(pieces.drop_last() =~= seq![Seq::<u8>::empty()] + init);
        assert(pieces.last() == parts[parts.len() - 1]);
        assert(init.push(parts.last()) =~= parts);
    }
}

/// Names joined by separators start with the first byte of the first name.
pub proof fn lemma_joined_first(parts: Seq<Seq<u8>>)
    requires
        parts.len() >= 1,
        parts[0].len() > 0,
    ensures
        joined(parts).len() > 0,
        joined(parts)[0] == parts[0][0],
    decreases parts.len(),
{
    if parts.len() > 1 {
        let init = parts.drop_last();
        assert(init[0] == parts[0]);
        lemma_joined_first(init);
    }
}

/// Reading back what was written: the text of a well-formed path spells
/// that path.
pub proof fn lemma_parse_rendered(path: PathView)
    requires
        path.wf(),
    ensures
        parsed(rendered(path)) == path,
{
    let parts = path.parts;
    let text = rendered(path);
    let nothing = Seq::<u8>::empty();
    assert(segments(nothing) =~= seq![nothing]);
    assert forall|i: int| 0 <= i < parts.len() implies !(#[trigger] parts[i]).contains(
        SEPARATOR,
    ) by {
        assert(name_ok(parts[i]));
    }
    if path.absolute {
        let lead = seq![SEPARATOR];
        assert(lead.drop_last() =~= nothing);
        assert(segments(lead) =~= seq![nothing, nothing]);
        assert(text[0] == SEPARATOR);
        assert forall|i: int| 0 <= i < parts.len() implies (#[trigger] parts[i]).len() > 0
            && parts[i] != cur_dir() by {
            assert(name_ok(parts[i]));
        }
        lemma_components_rooted(parts);
        if parts.len() == 0 {
            assert(joined(parts) =~= nothing);
            assert(text =~= lead);
            assert(segments(text) =~= seq![nothing] + seq![nothing]);
            assert(components(segments(text)) =~= parts) by {
                let pieces = seq![nothing, nothing];
                assert(pieces.drop_last() =~= seq![nothing]);
                assert(seq![nothing].drop_last() =~= Seq::<Seq<u8>>::empty());
            }
        } else {
            lemma_segments_joined(lead, parts);
            assert(nothing + parts[0] =~= parts[0]);
            assert(segments(lead).drop_last().push(parts[0]) + parts.skip(1) =~= seq![nothing]
                + parts);
        }
    } else {
        assert forall|i: int| 0 <= i < parts.len() implies (#[trigger] parts[i]).len() > 0 && (
        parts[i] == cur_dir() ==> i == 0) by {
            assert(name_ok(parts[i]));
        }
        lemma_components_all(parts);
        if parts.len() == 0 {
            assert(text =~= nothing);
            assert(components(seq![nothing]) =~= parts) by {
                assert(seq![nothing].drop_last() =~= Seq::<Seq<u8>>::empty());
            }
        } else {
            lemma_segments_joined(nothing, parts);
            assert(nothing + joined(parts) =~= joined(parts));
            assert(nothing + parts[0] =~= parts[0]);
            assert(segments(nothing).drop_last().push(parts[0]) + parts.skip(1) =~= parts);
            lemma_joined_first(parts);
            assert(name_ok(parts[0]));
            assert(parts[0].contains(parts[0][0]));
        }
    }
    assert(parsed(text).parts =~= parts);
}

/// Adding a byte string to a list adds its contents to the list's contents.
pub proof fn lemma_names_push(parts: Seq<Vec<u8>>, part: Vec<u8>)
    ensures
        names(parts.push(part)) == names(parts).push(part@),
{
    assert(names(parts.push(part)) =~= names(parts).push(part@));
}

/// The contents of a shortened list are the shortened contents.
pub proof fn lemma_names_take(parts: Seq<Vec<u8>>, n: int)
    requires
        0 <= n <= parts.len(),
    ensures
        names(parts.take(n)) == names(parts).take(n),
{
    assert(names(parts.take(n)) =~= names(parts).take(n));
}

/// Resolves `path` against `working_dir` by the text alone, without asking
/// the filesystem: an absolute `path` starts over at the root, `.` is
/// skipped, `..` drops the last component (and does nothing at the root or
/// on an empty path), any other name is appended.
pub fn normalize(working_dir: &Path, path: &Path) -> (res: Path)
    ensures
        res@ == normalized(working_dir@, path@),
{
    proof {
        use_type_invariant(path);
        use_type_invariant(working_dir);
    }
    let absolute = if path.absolute {
        true
    } else {
        working_dir.absolute
    };
    let mut parts: Vec<Vec<u8>> = if path.absolute {
        Vec::new()
    } else {
        working_dir.clone().parts
    };
    let ghost start = if path@.absolute {
        root_view()
    } else {
        working_dir@
    };
    assert(names(parts@) =~= start.parts);
    let mut i: usize = 0;
    while i < path.parts.len()
        invariant
            i <= path.parts.len(),
            path@.wf(),
            absolute == start.absolute,
            (PathView { absolute, parts: names(parts@) }).wf(),
            (PathView { absolute, parts: names(parts@) }) == resolve_from(
                start,
                path@.parts.take(i as int),
            ),
        decreases path.parts.len() - i,
    {
        let name = &path.parts[i];
        proof {
            let upto = path@.parts.take(i + 1);
            assert(upto.drop_last() =~= path@.parts.take(i as int));
            assert(upto.last() == name@);
            assert(name_ok(path@.parts[i as int]));
        }
        let ghost acc = PathView { absolute, parts: names(parts@) };
        if is_cur_dir(name.as_slice()) {
        } else if is_parent_dir(name.as_slice()) {
            let ghost before = parts@;
            if parts.len() > 0 {
                parts.pop();
                proof {
                    assert(parts@ =~= before.take(before.len() - 1));
                    lemma_names_take(before, before.len() - 1);
                    lemma_wf_prefix(acc, before.len() - 1);
                }
            }
        } else {
            let owned = name.clone();
            proof {
                lemma_names_push(parts@, owned);
                lemma_wf_push(acc, name@);
            }
            parts.push(owned);
        }
        assert((PathView { absolute, parts: names(parts@) }) == resolve_step(acc, name@));
        i += 1;
    }
    assert(path@.parts.take(path.parts.len() as int) =~= path@.parts);
    Path { absolute, parts }
}

/// Whether `name` is `.`.
pub fn is_cur_dir(name: &[u8]) -> (res: bool)
    ensures
        res == (name@ == cur_dir()),
{
    let res = name.len() == 1 && name[0] == DOT;
    assert(res == (name@ =~= cur_dir()));
    res
}

/// Whether `name` is `..`.
pub fn is_parent_dir(name: &[u8]) -> (res: bool)
    ensures
        res == (name@ == parent_dir()),
{
    let res = name.len() == 2 && name[0] == DOT && name[1] == DOT;
    assert(res == (name@ =~= parent_dir()));
    res
}

/// Whether two byte strings are the same.
pub fn bytes_eq(a: &[u8], b: &[u8]) -> (res: bool)
    ensures
        res == (a@ == b@),
{
    if a.len() != b.len() {
        return false;
    }
    let mut i: usize = 0;
    while i < a.len()
        invariant
            a.len() == b.len(),
            i <= a.len(),
            forall|k: int| 0 <= k < i ==> a@[k] == b@[k],
        decreases a.len() - i,
    {
        if a[i] != b[i] {
            return false;
        }
        i += 1;
    }
    assert(a@ =~= b@);
    true
}

} // verus!
