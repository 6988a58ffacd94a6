//! The record kept for every filesystem entry, and the walk that finds them.

use vstd::prelude::*;
use crate::error::Error;
use crate::keys::Keys;
use crate::path::{is_cur_dir, is_parent_dir, names, Path, PathView};

verus! {

/// What kind of thing an entry is.
#[derive(Debug, PartialEq, Eq)]
pub enum FileType {
    Regular,
    Directory,
    /// A symbolic link, with its target as stored in the link: possibly
    /// relative, never resolved.
    Symlink { dst: Path },
    Sock,
    Fifo,
    DevChar,
    DevBlock,
    Unknown,
}

/// The mathematical value of a [`FileType`].
pub enum FileTypeView {
    Regular,
    Directory,
    Symlink { dst: PathView },
    Sock,
    Fifo,
    DevChar,
    DevBlock,
    Unknown,
}

impl View for FileType {
    type V = FileTypeView;

    open spec fn view(&self) -> FileTypeView {
        match *self {
            FileType::Regular => FileTypeView::Regular,
            FileType::Directory => FileTypeView::Directory,
            FileType::Symlink { dst } => FileTypeView::Symlink { dst: dst@ },
            FileType::Sock => FileTypeView::Sock,
            FileType::Fifo => FileTypeView::Fifo,
            FileType::DevChar => FileTypeView::DevChar,
            FileType::DevBlock => FileTypeView::DevBlock,
            FileType::Unknown => FileTypeView::Unknown,
        }
    }
}

impl Clone for FileType {
    fn clone(&self) -> (res: FileType)
        ensures
            res@ == self@,
    {
        match self {
            FileType::Regular => FileType::Regular,
            FileType::Directory => FileType::Directory,
            FileType::Symlink { dst } => FileType::Symlink { dst: dst.clone() },
            FileType::Sock => FileType::Sock,
            FileType::Fifo => FileType::Fifo,
            FileType::DevChar => FileType::DevChar,
            FileType::DevBlock => FileType::DevBlock,
            FileType::Unknown => FileType::Unknown,
        }
    }
}

/// What the operating system reports of an entry without following it when
/// it is a link: the answers to the seven type questions, and the numbers.
#[derive(Debug, Clone, Copy, PartialEq, Eq)]
pub struct Stat {
    pub is_file: bool,
    pub is_dir: bool,
    pub is_symlink: bool,
    pub is_fifo: bool,
    pub is_socket: bool,
    pub is_char_device: bool,
    pub is_block_device: bool,
    pub size: u64,
    pub mode: u32,
    pub uid: u32,
    pub gid: u32,
    pub dev: u64,
    pub ino: u64,
    pub nlink: u64,
    pub rdev: u64,
    pub atime: i64,
    pub mtime: i64,
    pub ctime: i64,
    pub blksize: u64,
    pub blocks: u64,
}

/// The bits of a mode that are permissions.
pub const PERMISSION_BITS: u32 = 0o777;

impl Stat {
    /// Whether the entry counts as a symbolic link: it does when it answers
    /// to that and to nothing asked before it.
    pub open spec fn is_link(self) -> bool {
        !self.is_file && !self.is_dir && self.is_symlink
    }

    /// The type of the entry. The questions are asked in a fixed order and the
    /// first yes decides: regular file, directory, symbolic link, fifo, socket,
    /// character device, block device. `link` is the target read from a link.
    /// A link without a target has no type.
    pub open spec fn file_type(self, link: Option<PathView>) -> Option<FileTypeView> {
        if self.is_file {
            Some(FileTypeView::Regular)
        } else if self.is_dir {
            Some(FileTypeView::Directory)
        } else if self.is_symlink {
            match link {
                Some(dst) => Some(FileTypeView::Symlink { dst }),
                None => None,
            }
        } else if self.is_fifo {
            Some(FileTypeView::Fifo)
        } else if self.is_socket {
            Some(FileTypeView::Sock)
        } else if self.is_char_device {
            Some(FileTypeView::DevChar)
        } else if self.is_block_device {
            Some(FileTypeView::DevBlock)
        } else {
            Some(FileTypeView::Unknown)
        }
    }

    /// The record for an entry at `path` of type `typ`: every number is taken
    /// over as reported, and the permissions are the low nine bits of the mode.
    pub open spec fn describe(self, path: PathView, typ: FileTypeView) -> MetaView {
        MetaView {
            path,
            typ,
            size: self.size,
            mode: self.mode,
            perms: self.mode & PERMISSION_BITS,
            uid: self.uid,
            gid: self.gid,
            dev: self.dev,
            ino: self.ino,
            nlink: self.nlink,
            rdev: self.rdev,
            atime: self.atime,
            mtime: self.mtime,
            ctime: self.ctime,
            blksize: self.blksize,
            blocks: self.blocks,
        }
    }

    /// Whether the link's target has to be read before the entry can be
    /// described.
    pub fn needs_target(&self) -> (res: bool)
        ensures
            res == self.is_link(),
    {
        !self.is_file && !self.is_dir && self.is_symlink
    }
}

/// One filesystem entry, as found.
#[derive(Debug, PartialEq, Eq)]
pub struct Meta {
    pub path: Path,
    pub typ: FileType,
    pub size: u64,
    pub mode: u32,
    pub perms: u32,
    pub uid: u32,
    pub gid: u32,
    pub dev: u64,
    pub ino: u64,
    pub nlink: u64,
    pub rdev: u64,
    pub atime: i64,
    pub mtime: i64,
    pub ctime: i64,
    pub blksize: u64,
    pub blocks: u64,
}

/// The mathematical value of a [`Meta`].
pub struct MetaView {
    pub path: PathView,
    pub typ: FileTypeView,
    pub size: u64,
    pub mode: u32,
    pub perms: u32,
    pub uid: u32,
    pub gid: u32,
    pub dev: u64,
    pub ino: u64,
    pub nlink: u64,
    pub rdev: u64,
    pub atime: i64,
    pub mtime: i64,
    pub ctime: i64,
    pub blksize: u64,
    pub blocks: u64,
}

impl View for Meta {
    type V = MetaView;

    open spec fn view(&self) -> MetaView {
        MetaView {
            path: self.path@,
            typ: self.typ@,
            size: self.size,
            mode: self.mode,
            perms: self.perms,
            uid: self.uid,
            gid: self.gid,
            dev: self.dev,
            ino: self.ino,
            nlink: self.nlink,
            rdev: self.rdev,
            atime: self.atime,
            mtime: self.mtime,
            ctime: self.ctime,
            blksize: self.blksize,
            blocks: self.blocks,
        }
    }
}

impl Clone for Meta {
    fn clone(&self) -> (res: Meta)
        ensures
            res@ == self@,
    {
        Meta {
            path: self.path.clone(),
            typ: self.typ.clone(),
            size: self.size,
            mode: self.mode,
            perms: self.perms,
            uid: self.uid,
            gid: self.gid,
            dev: self.dev,
            ino: self.ino,
            nlink: self.nlink,
            rdev: self.rdev,
            atime: self.atime,
            mtime: self.mtime,
            ctime: self.ctime,
            blksize: self.blksize,
            blocks: self.blocks,
        }
    }
}

/// The values of a list of records.
pub open spec fn metas_view(metas: Seq<Meta>) -> Seq<MetaView> {
    metas.map_values(|meta: Meta| meta@)
}

impl Meta {
    pub fn is_symlink(&self) -> (res: bool)
        ensures
            res == (self@.typ is Symlink),
    {
        match self.typ {
            FileType::Symlink { .. } => true,
            _ => false,
        }
    }

    pub fn is_regular_file(&self) -> (res: bool)
        ensures
            res == (self@.typ is Regular),
    {
        match self.typ {
            FileType::Regular => true,
            _ => false,
        }
    }

    pub fn is_directory(&self) -> (res: bool)
        ensures
            res == (self@.typ is Directory),
    {
        match self.typ {
            FileType::Directory => true,
            _ => false,
        }
    }

    /// The record for the entry at `path`, from what was reported of it.
    /// `link` is the target read from the entry if it is a symbolic link;
    /// for any other entry it is ignored. A link whose target could not be
    /// read cannot be described.
    pub fn from_path(path: Path, stat: &Stat, link: Option<Path>) -> (res: Result<Meta, Error>)
        ensures
            res is Ok == (stat.is_link() ==> link is Some),
            res matches Ok(meta) ==> Some(meta@.typ) == stat.file_type(option_view(link))
                && meta@ == stat.describe(path@, meta@.typ),
            res matches Err(e) ==> e == Error::Walk,
    {
        Self::from_fs_metadata(path, stat, link)
    }

    /// The record for the entry called `name` in the directory `dir`. The
    /// entry's path is `dir` with `name` added; a `name` that is no proper
    /// entry name cannot be described.
    pub fn from_dir_entry(dir: &Path, name: &[u8], stat: &Stat, link: Option<Path>) -> (res:
        Result<Meta, Error>)
        ensures
            res is Ok == (crate::path::entry_name_ok(name@) && (stat.is_link() ==> link is Some)),
            res matches Ok(meta) ==> Some(meta@.typ) == stat.file_type(option_view(link))
                && meta@ == stat.describe(dir@.push(name@), meta@.typ),
            res matches Err(e) ==> e == Error::Walk,
    {
        match dir.join(name) {
            None => Err(Error::Walk),
            Some(path) => Self::from_fs_metadata(path, stat, link),
        }
    }

    fn from_fs_metadata(path: Path, stat: &Stat, link: Option<Path>) -> (res: Result<Meta, Error>)
        ensures
            res is Ok == (stat.is_link() ==> link is Some),
            res matches Ok(meta) ==> Some(meta@.typ) == stat.file_type(option_view(link))
                && meta@ == stat.describe(path@, meta@.typ),
            res matches Err(e) ==> e == Error::Walk,
    {
        let typ = if stat.is_file {
            FileType::Regular
        } else if stat.is_dir {
            FileType::Directory
        } else if stat.is_symlink {
            match link {
                Some(dst) => FileType::Symlink { dst },
                None => {
                    return Err(Error::Walk);
                },
            }
        } else if stat.is_fifo {
            FileType::Fifo
        } else if stat.is_socket {
            FileType::Sock
        } else if stat.is_char_device {
            FileType::DevChar
        } else if stat.is_block_device {
            FileType::DevBlock
        } else {
            FileType::Unknown
        };
        Ok(
            Meta {
                path,
                typ,
                size: stat.size,
                mode: stat.mode,
                perms: stat.mode & PERMISSION_BITS,
                uid: stat.uid,
                gid: stat.gid,
                dev: stat.dev,
                ino: stat.ino,
                nlink: stat.nlink,
                rdev: stat.rdev,
                atime: stat.atime,
                mtime: stat.mtime,
                ctime: stat.ctime,
                blksize: stat.blksize,
                blocks: stat.blocks,
            },
        )
    }
}

/// The value of a path that may be missing.
pub open spec fn option_view(path: Option<Path>) -> Option<PathView> {
    match path {
        Some(p) => Some(p@),
        None => None,
    }
}

/// The values of a list of paths.
pub open spec fn paths_view(paths: Seq<Path>) -> Seq<PathView> {
    paths.map_values(|path: Path| path@)
}

/// What a walk leaves out: directories by name, and anything by where its
/// path begins.
#[derive(Debug)]
pub struct SkipRules {
    /// Directories with one of these names are not entered and not reported.
    pub dirs: Keys,
    /// Entries whose path starts with one of these are not reported. Each
    /// of them is tried against every path, so they are held as a list.
    pub prefixes: Vec<Path>,
}

/// The mathematical value of [`SkipRules`].
pub struct SkipRulesView {
    pub dirs: Seq<Seq<u8>>,
    pub prefixes: Seq<PathView>,
}

impl View for SkipRules {
    type V = SkipRulesView;

    open spec fn view(&self) -> SkipRulesView {
        SkipRulesView { dirs: self.dirs@, prefixes: paths_view(self.prefixes@) }
    }
}

impl SkipRulesView {
    /// Whether some prefix rule covers `path`, component by component.
    pub open spec fn omits_prefix(self, path: PathView) -> bool {
        exists|i: int| 0 <= i < self.prefixes.len() && path.starts_with(#[trigger] self.prefixes[i])
    }

    /// Whether `name` is one of the directory names to leave out.
    pub open spec fn omits_name(self, name: Seq<u8>) -> bool {
        self.dirs.contains(name)
    }

    /// Whether the entry is left out: a prefix rule covers its path, or it is
    /// a directory whose own name is listed. The name rule never applies to
    /// anything but a directory.
    pub open spec fn omits(self, meta: MetaView) -> bool {
        ||| self.omits_prefix(meta.path)
        ||| {
            &&& meta.typ is Directory
            &&& meta.path.file_name() matches Some(name)
            &&& self.omits_name(name)
        }
    }

    /// The test for entries that stay.
    pub open spec fn keeps(self) -> spec_fn(MetaView) -> bool {
        |meta: MetaView| !self.omits(meta)
    }

    /// Whether a directory at `dir` would be left out for its name.
    pub open spec fn names_out(self, dir: PathView) -> bool {
        dir.file_name() matches Some(name) && self.omits_name(name)
    }

    /// Whether `path` lies at or below `root` and no directory from `root`
    /// down to the one that holds it has a name that is left out.
    pub open spec fn clean(self, root: PathView, path: PathView) -> bool {
        &&& path.starts_with(root)
        &&& forall|n: int|
            root.parts.len() <= n < path.parts.len() ==> !self.names_out(#[trigger] path.prefix(n))
    }

    /// Whether the entry belongs to a walk from `root`: no rule leaves it
    /// out, and the way down to it from `root` is clean.
    pub open spec fn admits(self, root: PathView, meta: MetaView) -> bool {
        !self.omits(meta) && self.clean(root, meta.path)
    }
}

/// Whether each of `found` lies directly in the directory `dir`.
pub open spec fn children_of(dir: PathView, found: Seq<MetaView>) -> bool {
    forall|i: int| 0 <= i < found.len() ==> (#[trigger] found[i]).path.parent() == Some(dir)
}

/// What lies directly in a directory that belongs to the walk lies at or
/// below the root, on a clean way.
pub proof fn lemma_child_clean(rules: SkipRulesView, root: PathView, dir: MetaView, child: PathView)
    requires
        rules.admits(root, dir),
        dir.typ is Directory,
        child.parent() == Some(dir.path),
    ensures
        rules.clean(root, child),
{
    let up = dir.path;
    let depth = up.parts.len() as int;
    assert(child.prefix(depth) == up);
    assert(up.parts =~= child.parts.take(depth));
    assert(root.parts =~= child.parts.subrange(0, root.parts.len() as int)) by {
        assert(root.parts =~= up.parts.subrange(0, root.parts.len() as int));
    }
    assert forall|n: int| root.parts.len() <= n < child.parts.len() implies !rules.names_out(
        #[trigger] child.prefix(n),
    ) by {
        if n < depth {
            assert(child.prefix(n).parts =~= up.prefix(n).parts);
            assert(!rules.names_out(up.prefix(n)));
        } else {
            assert(child.prefix(n) == up);
        }
    }
}

/// What the walk asks of its caller next.
#[derive(Debug)]
pub enum Step {
    /// Nothing is left to visit.
    Done,
    /// This entry is next in the walk and has nothing below it to list.
    Yield(Meta),
    /// This directory is next in the walk. Its entries are to be read and
    /// handed to [`Find::entries`] together with it.
    List(Meta),
}

/// A depth-first walk that never follows a symbolic link.
///
/// The walk holds the entries that are found but not yet visited. Its caller
/// does the reading: it takes the next entry with [`Find::next`], lists it if
/// it is a directory, and hands the listing back with [`Find::entries`].
#[derive(Debug)]
pub struct Find {
    frontier: Vec<Meta>,
    root: Path,
    rules: SkipRules,
}

/// The mathematical value of a [`Find`].
pub struct FindView {
    /// Found and not yet visited; the last one is visited next.
    pub frontier: Seq<MetaView>,
    /// Where the walk started.
    pub root: PathView,
    pub rules: SkipRulesView,
}

impl View for Find {
    type V = FindView;

    closed spec fn view(&self) -> FindView {
        FindView { frontier: metas_view(self.frontier@), root: self.root@, rules: self.rules@ }
    }
}

impl FindView {
    /// Nothing that waits to be visited is covered by a skip rule, and all
    /// of it lies at or below the root, with no directory on the way down
    /// that a name rule leaves out.
    pub open spec fn wf(self) -> bool {
        forall|i: int|
            0 <= i < self.frontier.len() ==> self.rules.admits(
                self.root,
                #[trigger] self.frontier[i],
            )
    }
}

impl Find {
    /// Whatever the walk holds has passed the skip rules.
    #[verifier::type_invariant]
    pub open spec fn inv(self) -> bool {
        self@.wf()
    }

    /// Starts a walk at `root`. A root that the rules leave out gives a walk
    /// that is over before it starts.
    pub fn new(root: Meta, skip_dirs: Vec<Vec<u8>>, skip_prefixes: Vec<Path>) -> (res: Find)
        ensures
            res@.rules.dirs == names(skip_dirs@),
            res@.rules.prefixes == paths_view(skip_prefixes@),
            res@.root == root@.path,
            res@.frontier == if res@.rules.omits(root@) {
                Seq::<MetaView>::empty()
            } else {
                seq![root@]
            },
            res@.wf(),
    {
        let rules = SkipRules::new(skip_dirs, skip_prefixes);
        let start = root.path.clone();
        let mut frontier: Vec<Meta> = Vec::new();
        if !rules.omits(&root) {
            proof {
                assert(root@.path.parts =~= root@.path.parts.subrange(
                    0,
                    root@.path.parts.len() as int,
                ));
                assert(rules@.clean(root@.path, root@.path));
            }
            frontier.push(root);
            assert(metas_view(frontier@) =~= seq![root@]);
        } else {
            assert(metas_view(frontier@) =~= Seq::<MetaView>::empty());
        }
        Find { frontier, root: start, rules }
    }

    /// Whether `dir` is a directory that belongs to this walk and each of
    /// `found` lies directly in it: what [`Find::entries`] asks for.
    pub fn accepts(&self, dir: &Meta, found: &Vec<Meta>) -> (res: bool)
        ensures
            res == (dir@.typ is Directory && self@.rules.admits(self@.root, dir@) && children_of(
                dir@.path,
                metas_view(found@),
            )),
    {
        if !dir.is_directory() || self.rules.omits(dir) || !self.rules.clean(
            &self.root,
            &dir.path,
        ) {
            return false;
        }
        let mut i: usize = 0;
        while i < found.len()
            invariant
                i <= found.len(),
                forall|k: int|
                    0 <= k < i ==> (#[trigger] metas_view(found@)[k]).path.parent() == Some(
                        dir@.path,
                    ),
            decreases found.len() - i,
        {
            let child = &found[i].path;
            let fits = child.len() > 0 && child.len() - 1 == dir.path.len() && child.is_absolute()
                == dir.path.is_absolute() && child.starts_with(&dir.path);
            proof {
                let c = child@;
                let d = dir@.path;
                if fits {
                    assert(c.parts.take(c.parts.len() - 1) =~= d.parts);
                } else if c.parent() == Some(d) {
                    assert(d.parts =~= c.parts.subrange(0, d.parts.len() as int));
                }
                assert(metas_view(found@)[i as int].path == c);
            }
            if !fits {
                return false;
            }
            i += 1;
        }
        true
    }

    /// Whether the rules leave `meta` out of this walk.
    pub fn est_omittendus(&self, meta: &Meta) -> (res: bool)
        ensures
            res == self@.rules.omits(meta@),
    {
        self.rules.omits(meta)
    }

    /// Whether a prefix rule covers `path`.
    pub fn est_omittendus_praefixo(&self, path: &Path) -> (res: bool)
        ensures
            res == self@.rules.omits_prefix(path@),
    {
        self.rules.omits_prefix(path)
    }

    /// Whether `name` is a directory name to leave out.
    pub fn est_omittendus_nomine(&self, name: &[u8]) -> (res: bool)
        ensures
            res == self@.rules.omits_name(name@),
    {
        self.rules.omits_name(name)
    }

    /// Takes the next entry off the walk. A directory comes back as
    /// [`Step::List`], anything else as [`Step::Yield`]; either way the entry
    /// has passed the skip rules.
    pub fn next(&mut self) -> (res: Step)
        ensures
            final(self)@.rules == old(self)@.rules,
            final(self)@.root == old(self)@.root,
            old(self)@.frontier.len() == 0 ==> res is Done && final(self)@ == old(self)@,
            old(self)@.frontier.len() > 0 ==> {
                &&& final(self)@.frontier == old(self)@.frontier.drop_last()
                &&& if old(self)@.frontier.last().typ is Directory {
                    res matches Step::List(meta) && meta@ == old(self)@.frontier.last()
                } else {
                    res matches Step::Yield(meta) && meta@ == old(self)@.frontier.last()
                }
            },
            res matches Step::Yield(meta) ==> old(self)@.rules.admits(old(self)@.root, meta@),
            res matches Step::List(meta) ==> old(self)@.rules.admits(old(self)@.root, meta@),
            final(self)@.wf(),
    {
        proof {
            use_type_invariant(&*self);
        }
        let mut frontier: Vec<Meta> = Vec::new();
        core::mem::swap(&mut frontier, &mut self.frontier);
        let ghost before = frontier@;
        let popped = frontier.pop();
        proof {
            if before.len() > 0 {
                assert(metas_view(frontier@) =~= metas_view(before).drop_last());
                assert(metas_view(before).last() == before.last()@);
            } else {
                assert(metas_view(frontier@) =~= metas_view(before));
            }
        }
        core::mem::swap(&mut frontier, &mut self.frontier);
        proof {
            use_type_invariant(&*self);
        }
        match popped {
            None => Step::Done,
            Some(meta) => {
                if meta.is_directory() {
                    Step::List(meta)
                } else {
                    Step::Yield(meta)
                }
            },
        }
    }

    /// Takes in what listing the directory `dir` gave. Each entry of `found`
    /// that the rules do not leave out joins the walk, in order, so that the
    /// last of them is visited first. `complete` says whether the whole
    /// directory could be read: if so `dir` itself is the walk's next item;
    /// if not, the failure stands in its place and `dir` is not reported.
    pub fn entries(&mut self, dir: Meta, found: Vec<Meta>, complete: bool) -> (res: Option<Meta>)
        requires
            dir@.typ is Directory,
            old(self)@.rules.admits(old(self)@.root, dir@),
            children_of(dir@.path, metas_view(found@)),
        ensures
            final(self)@.rules == old(self)@.rules,
            final(self)@.root == old(self)@.root,
            final(self)@.frontier == old(self)@.frontier + metas_view(found@).filter(
                old(self)@.rules.keeps(),
            ),
            res is Some == complete,
            res matches Some(meta) ==> meta@ == dir@,
            final(self)@.wf(),
    {
        let ghost rules = self.rules@;
        let ghost root = self.root@;
        let ghost all = metas_view(found@);
        proof {
            assert forall|k: int| 0 <= k < all.len() implies rules.clean(
                root,
                (#[trigger] all[k]).path,
            ) by {
                lemma_child_clean(rules, root, dir@, all[k].path);
            }
        }
        // Entries are taken from the back of `rest`, which holds them in
        // reverse.
        let mut rest = crate::vecs::reversed(found);
        proof {
            assert(metas_view(rest@).reverse() =~= all);
            use_type_invariant(&*self);
            assert(self@.wf());
        }
        let ghost waiting = self@.frontier;
        let mut frontier: Vec<Meta> = Vec::new();
        core::mem::swap(&mut frontier, &mut self.frontier);
        let ghost start = metas_view(frontier@);
        proof {
            assert(start == waiting);
            assert forall|i: int| 0 <= i < frontier@.len() implies rules.admits(
                root,
                #[trigger] metas_view(frontier@)[i],
            ) by {
                assert(rules.admits(root, waiting[i]));
            }
        }
        let ghost total = rest@.len();
        while rest.len() > 0
            invariant
                rules == self.rules@,
                root == self.root@,
                rest@.len() <= total == all.len(),
                forall|k: int| 0 <= k < all.len() ==> rules.clean(root, (#[trigger] all[k]).path),
                metas_view(rest@).reverse() == all.skip(total - rest@.len()),
                metas_view(frontier@) == start + all.take(total - rest@.len()).filter(
                    rules.keeps(),
                ),
                forall|i: int|
                    0 <= i < frontier@.len() ==> rules.admits(
                        root,
                        #[trigger] metas_view(frontier@)[i],
                    ),
            decreases rest.len(),
        {
            let ghost r0 = rest@;
            let ghost f0 = frontier@;
            let ghost done = total - rest@.len();
            let meta = rest.pop().unwrap();
            proof {
                assert(metas_view(r0).reverse()[0] == meta@);
                assert(all[done] == meta@);
                assert(all.take(done + 1) =~= all.take(done).push(meta@));
                all.take(done).lemma_filter_push(meta@, rules.keeps());
                assert forall|k: int| 0 <= k < rest@.len() implies metas_view(
                    rest@,
                ).reverse()[k] == all.skip(done + 1)[k] by {
                    assert(metas_view(r0).reverse()[k + 1] == all.skip(done)[k + 1]);
                }
                assert(metas_view(rest@).reverse() =~= all.skip(done + 1));
            }
            if !self.rules.omits(&meta) {
                frontier.push(meta);
                proof {
                    assert(metas_view(frontier@) =~= metas_view(f0).push(meta@));
                    assert(metas_view(frontier@) =~= start + all.take(done + 1).filter(
                        rules.keeps(),
                    ));
                }
            }
        }
        proof {
            assert(all.take(total as int) =~= all);
        }
        core::mem::swap(&mut frontier, &mut self.frontier);
        proof {
            use_type_invariant(&*self);
        }
        if complete {
            Some(dir)
        } else {
            None
        }
    }

    /// How many entries wait to be visited.
    pub fn pending(&self) -> (res: usize)
        ensures
            res == self@.frontier.len(),
    {
        self.frontier.len()
    }
}

impl SkipRules {
    /// Rules that leave out directories named in `skip_dirs` and entries
    /// under any of `skip_prefixes`.
    pub fn new(skip_dirs: Vec<Vec<u8>>, skip_prefixes: Vec<Path>) -> (res: SkipRules)
        ensures
            res@.dirs == names(skip_dirs@),
            res@.prefixes == paths_view(skip_prefixes@),
    {
        SkipRules { dirs: Keys::from_vec(skip_dirs), prefixes: skip_prefixes }
    }

    /// Whether a prefix rule covers `path`.
    pub fn omits_prefix(&self, path: &Path) -> (res: bool)
        ensures
            res == self@.omits_prefix(path@),
    {
        let mut i: usize = 0;
        while i < self.prefixes.len()
            invariant
                i <= self.prefixes.len(),
                forall|k: int| 0 <= k < i ==> !path@.starts_with(#[trigger] self@.prefixes[k]),
            decreases self.prefixes.len() - i,
        {
            if path.starts_with(&self.prefixes[i]) {
                assert(path@.starts_with(self@.prefixes[i as int]));
                return true;
            }
            i += 1;
        }
        false
    }

    /// Whether `name` is a directory name to leave out.
    pub fn omits_name(&self, name: &[u8]) -> (res: bool)
        ensures
            res == self@.omits_name(name@),
    {
        self.dirs.find(name).is_some()
    }

    /// Whether `path` lies at or below `root` with no directory on the way
    /// down that is left out for its name.
    pub fn clean(&self, root: &Path, path: &Path) -> (res: bool)
        ensures
            res == self@.clean(root@, path@),
    {
        if !path.starts_with(root) {
            return false;
        }
        let mut n: usize = root.len();
        while n < path.len()
            invariant
                root@.parts.len() <= n <= path@.parts.len(),
                forall|m: int|
                    root@.parts.len() <= m < n ==> !self@.names_out(#[trigger] path@.prefix(m)),
            decreases path@.parts.len() - n,
        {
            if n > 0 {
                let name = path.part(n - 1);
                assert(path@.prefix(n as int).parts.last() == name@);
                if !is_cur_dir(name.as_slice()) && !is_parent_dir(name.as_slice())
                    && self.omits_name(name.as_slice()) {
                    assert(self@.names_out(path@.prefix(n as int)));
                    return false;
                }
            }
            n += 1;
        }
        true
    }

    /// Whether the rules leave `meta` out.
    pub fn omits(&self, meta: &Meta) -> (res: bool)
        ensures
            res == self@.omits(meta@),
    {
        if self.omits_prefix(&meta.path) {
            return true;
        }
        if !meta.is_directory() {
            return false;
        }
        match meta.path.file_name() {
            None => false,
            Some(name) => self.omits_name(name.as_slice()),
        }
    }
}

/// Starts a walk at `root` that leaves nothing out.
pub fn find(root: Meta) -> (res: Find)
    ensures
        res@.rules.dirs.len() == 0,
        res@.rules.prefixes.len() == 0,
        res@.root == root@.path,
        res@.frontier == seq![root@],
{
    let res = Find::new(root, Vec::new(), Vec::new());
    assert(!res@.rules.omits(root@));
    res
}

/// Starts a walk at `root` that leaves out directories named in `skip_dirs`
/// and entries under any of `skip_prefixes`.
pub fn find_while_skipping(root: Meta, skip_dirs: Vec<Vec<u8>>, skip_prefixes: Vec<Path>) -> (res:
    Find)
    ensures
        res@.rules.dirs == names(skip_dirs@),
        res@.rules.prefixes == paths_view(skip_prefixes@),
        res@.root == root@.path,
        res@.frontier == if res@.rules.omits(root@) {
            Seq::<MetaView>::empty()
        } else {
            seq![root@]
        },
{
    Find::new(root, skip_dirs, skip_prefixes)
}

/// The link and target of an entry that is a symbolic link.
pub open spec fn link_of(meta: MetaView) -> Option<(PathView, PathView)> {
    match meta.typ {
        FileTypeView::Symlink { dst } => Some((meta.path, dst)),
        _ => None,
    }
}

/// The choice of links among entries.
pub open spec fn links() -> spec_fn(MetaView) -> Option<(PathView, PathView)> {
    |meta: MetaView| link_of(meta)
}

/// The values of a list of path pairs.
pub open spec fn pairs_view(pairs: Seq<(Path, Path)>) -> Seq<(PathView, PathView)> {
    pairs.map_values(|pair: (Path, Path)| (pair.0@, pair.1@))
}

/// The symbolic links among `metas`, each with its target as stored, in the
/// order in which they were found.
pub fn find_symlinks(metas: &Vec<Meta>) -> (res: Vec<(Path, Path)>)
    ensures
        pairs_view(res@) == metas_view(metas@).filter_map(links()),
{
    let ghost pick = links();
    let mut res: Vec<(Path, Path)> = Vec::new();
    let mut i: usize = 0;
    assert(pairs_view(res@) =~= metas_view(metas@).take(0).filter_map(pick));
    while i < metas.len()
        invariant
            i <= metas.len(),
            pick == links(),
            pairs_view(res@) == metas_view(metas@).take(i as int).filter_map(pick),
        decreases metas.len() - i,
    {
        let meta = &metas[i];
        let ghost r0 = res@;
        proof {
            metas_view(metas@).lemma_filter_map_take_succ(pick, i as int);
            assert(metas_view(metas@)[i as int] == meta@);
        }
        match &meta.typ {
            FileType::Symlink { dst } => {
                res.push((meta.path.clone(), dst.clone()));
                assert(pairs_view(res@) =~= pairs_view(r0) + seq![(meta@.path, dst@)]);
            },
            _ => {
                assert(pairs_view(res@) =~= pairs_view(r0) + Seq::empty());
            },
        }
        i += 1;
    }
    assert(metas_view(metas@).take(metas.len() as int) =~= metas_view(metas@));
    res
}

} // verus!
