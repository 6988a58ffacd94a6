use fx::data::{
    find, find_symlinks, find_while_skipping, FileType, Find, Meta, SkipRules, Stat, Step,
};
use fx::error::Error;
use fx::path::Path;

fn p(text: &str) -> Path {
    Path::parse(text.as_bytes())
}

fn stat() -> Stat {
    Stat {
        is_file: false,
        is_dir: false,
        is_symlink: false,
        is_fifo: false,
        is_socket: false,
        is_char_device: false,
        is_block_device: false,
        size: 42,
        mode: 0o100644,
        uid: 1000,
        gid: 100,
        dev: 7,
        ino: 99,
        nlink: 1,
        rdev: 0,
        atime: 11,
        mtime: 22,
        ctime: 33,
        blksize: 4096,
        blocks: 8,
    }
}

fn meta(path: &str, typ: FileType, size: u64, ino: u64) -> Meta {
    Meta {
        path: p(path),
        typ,
        size,
        mode: 0,
        perms: 0,
        uid: 0,
        gid: 0,
        dev: 0,
        ino,
        nlink: 1,
        rdev: 0,
        atime: 0,
        mtime: 0,
        ctime: 0,
        blksize: 0,
        blocks: 0,
    }
}

fn file(path: &str, size: u64) -> Meta {
    meta(path, FileType::Regular, size, 0)
}

fn dir(path: &str) -> Meta {
    meta(path, FileType::Directory, 0, 0)
}

fn link(path: &str, dst: &str) -> Meta {
    meta(path, FileType::Symlink { dst: p(dst) }, 0, 0)
}

#[test]
fn from_path_takes_over_every_number() {
    let s = Stat { is_file: true, ..stat() };
    let m = Meta::from_path(p("/a/f"), &s, None).unwrap();
    assert_eq!(m.path, p("/a/f"));
    assert_eq!(m.typ, FileType::Regular);
    assert_eq!(m.size, 42);
    assert_eq!(m.mode, 0o100644);
    assert_eq!(m.perms, 0o644);
    assert_eq!(m.uid, 1000);
    assert_eq!(m.gid, 100);
    assert_eq!(m.dev, 7);
    assert_eq!(m.ino, 99);
    assert_eq!(m.nlink, 1);
    assert_eq!(m.rdev, 0);
    assert_eq!(m.atime, 11);
    assert_eq!(m.mtime, 22);
    assert_eq!(m.ctime, 33);
    assert_eq!(m.blksize, 4096);
    assert_eq!(m.blocks, 8);
}

#[test]
fn perms_are_the_low_nine_bits() {
    let s = Stat { is_dir: true, mode: 0o40755, ..stat() };
    assert_eq!(Meta::from_path(p("/d"), &s, None).unwrap().perms, 0o755);
    let s = Stat { is_file: true, mode: 0o104777, ..stat() };
    let m = Meta::from_path(p("/f"), &s, None).unwrap();
    assert_eq!(m.perms, 0o777);
    assert_eq!(m.mode, 0o104777);
    let s = Stat { is_file: true, mode: 0xffff_f000, ..stat() };
    assert_eq!(Meta::from_path(p("/f"), &s, None).unwrap().perms, 0);
}

#[test]
fn classification_each_type() {
    let typ = |s: Stat| Meta::from_path(p("/x"), &s, Some(p("t"))).unwrap().typ;
    assert_eq!(typ(Stat { is_file: true, ..stat() }), FileType::Regular);
    assert_eq!(typ(Stat { is_dir: true, ..stat() }), FileType::Directory);
    assert_eq!(typ(Stat { is_symlink: true, ..stat() }), FileType::Symlink { dst: p("t") });
    assert_eq!(typ(Stat { is_fifo: true, ..stat() }), FileType::Fifo);
    assert_eq!(typ(Stat { is_socket: true, ..stat() }), FileType::Sock);
    assert_eq!(typ(Stat { is_char_device: true, ..stat() }), FileType::DevChar);
    assert_eq!(typ(Stat { is_block_device: true, ..stat() }), FileType::DevBlock);
    assert_eq!(typ(stat()), FileType::Unknown);
}

#[test]
fn classification_first_yes_decides() {
    let typ = |s: Stat| Meta::from_path(p("/x"), &s, Some(p("t"))).unwrap().typ;
    let all = Stat {
        is_file: true,
        is_dir: true,
        is_symlink: true,
        is_fifo: true,
        is_socket: true,
        is_char_device: true,
        is_block_device: true,
        ..stat()
    };
    assert_eq!(typ(all), FileType::Regular);
    assert_eq!(typ(Stat { is_file: false, ..all }), FileType::Directory);
    assert_eq!(
        typ(Stat { is_file: false, is_dir: false, ..all }),
        FileType::Symlink { dst: p("t") }
    );
    let rest = Stat { is_file: false, is_dir: false, is_symlink: false, ..all };
    assert_eq!(typ(rest), FileType::Fifo);
    assert_eq!(typ(Stat { is_fifo: false, ..rest }), FileType::Sock);
    assert_eq!(typ(Stat { is_fifo: false, is_socket: false, ..rest }), FileType::DevChar);
    assert_eq!(
        typ(Stat { is_fifo: false, is_socket: false, is_char_device: false, ..rest }),
        FileType::DevBlock
    );
}

#[test]
fn link_without_target_is_a_walk_error() {
    let s = Stat { is_symlink: true, ..stat() };
    assert!(s.needs_target());
    assert_eq!(Meta::from_path(p("/l"), &s, None), Err(Error::Walk));
    assert_eq!(
        Meta::from_path(p("/l"), &s, Some(p("../t"))).unwrap().typ,
        FileType::Symlink { dst: p("../t") }
    );
}

#[test]
fn target_is_ignored_for_what_is_no_link() {
    let s = Stat { is_file: true, is_symlink: true, ..stat() };
    assert!(!s.needs_target());
    assert_eq!(Meta::from_path(p("/f"), &s, None).unwrap().typ, FileType::Regular);
    assert_eq!(Meta::from_path(p("/f"), &s, Some(p("t"))).unwrap().typ, FileType::Regular);
    let s = Stat { is_fifo: true, ..stat() };
    assert!(!s.needs_target());
    assert_eq!(Meta::from_path(p("/f"), &s, Some(p("t"))).unwrap().typ, FileType::Fifo);
}

#[test]
fn from_dir_entry_builds_the_path() {
    let s = Stat { is_file: true, ..stat() };
    let m = Meta::from_dir_entry(&p("/a/b"), b"c", &s, None).unwrap();
    assert_eq!(m.path, p("/a/b/c"));
    assert_eq!(m.typ, FileType::Regular);
    assert_eq!(m.size, 42);
    assert_eq!(m.perms, 0o644);
    assert_eq!(Meta::from_dir_entry(&p("/a"), b"", &s, None), Err(Error::Walk));
    assert_eq!(Meta::from_dir_entry(&p("/a"), b"..", &s, None), Err(Error::Walk));
    assert_eq!(Meta::from_dir_entry(&p("/a"), b"x/y", &s, None), Err(Error::Walk));
    let l = Stat { is_symlink: true, ..stat() };
    assert_eq!(Meta::from_dir_entry(&p("/a"), b"l", &l, None), Err(Error::Walk));
    assert_eq!(
        Meta::from_dir_entry(&p("/a"), b"l", &l, Some(p("t"))).unwrap().typ,
        FileType::Symlink { dst: p("t") }
    );
}

#[test]
fn type_questions() {
    assert!(file("/f", 1).is_regular_file());
    assert!(!file("/f", 1).is_directory());
    assert!(!file("/f", 1).is_symlink());
    assert!(dir("/d").is_directory());
    assert!(!dir("/d").is_regular_file());
    assert!(link("/l", "x").is_symlink());
    assert!(!link("/l", "x").is_directory());
    let sock = meta("/s", FileType::Sock, 0, 0);
    assert!(!sock.is_regular_file() && !sock.is_directory() && !sock.is_symlink());
    assert_eq!(file("/f", 1).clone(), file("/f", 1));
}

#[test]
fn error_messages() {
    assert_eq!(Error::Walk.message(), "failed to read a directory entry");
    assert_eq!(Error::Read.message(), "failed to read file content");
    assert_eq!(Error::Hash.message(), "failed to compute a digest");
}

#[test]
fn skip_rules_by_prefix_and_by_name() {
    let rules = SkipRules::new(
        vec![b"node_modules".to_vec(), b".git".to_vec()],
        vec![p("/r/tmp"), p("/r/cache/big")],
    );
    // Prefix rules cover anything.
    assert!(rules.omits(&file("/r/tmp", 1)));
    assert!(rules.omits(&file("/r/tmp/f", 1)));
    assert!(rules.omits(&dir("/r/cache/big/x")));
    assert!(rules.omits(&link("/r/tmp/l", "x")));
    assert!(!rules.omits(&file("/r/tmpx", 1)));
    assert!(!rules.omits(&dir("/r/cache")));
    // Name rules cover directories only.
    assert!(rules.omits(&dir("/r/a/node_modules")));
    assert!(rules.omits(&dir("/r/.git")));
    assert!(!rules.omits(&file("/r/a/node_modules", 1)));
    assert!(!rules.omits(&link("/r/.git", "x")));
    assert!(!rules.omits(&dir("/r/node_modules/inner")));
    assert!(!rules.omits(&dir("/r/a")));

    assert!(rules.omits_prefix(&p("/r/tmp/deep/er")));
    assert!(!rules.omits_prefix(&p("/r")));
    assert!(rules.omits_name(b".git"));
    assert!(!rules.omits_name(b"git"));
}

#[test]
fn find_methods_agree_with_the_rules() {
    let walk = find_while_skipping(dir("/r"), vec![b"skip".to_vec()], vec![p("/r/x")]);
    assert!(walk.est_omittendus(&dir("/r/a/skip")));
    assert!(!walk.est_omittendus(&file("/r/a/skip", 1)));
    assert!(walk.est_omittendus(&file("/r/x/f", 1)));
    assert!(!walk.est_omittendus(&file("/r/y/f", 1)));
    assert!(walk.est_omittendus_praefixo(&p("/r/x")));
    assert!(!walk.est_omittendus_praefixo(&p("/r")));
    assert!(walk.est_omittendus_nomine(b"skip"));
    assert!(!walk.est_omittendus_nomine(b"other"));
}

#[test]
fn walk_of_a_single_file() {
    let mut walk = find(file("/f", 3));
    assert_eq!(walk.pending(), 1);
    match walk.next() {
        Step::Yield(m) => assert_eq!(m, file("/f", 3)),
        other => panic!("{other:?}"),
    }
    assert!(matches!(walk.next(), Step::Done));
    assert!(matches!(walk.next(), Step::Done));
}

#[test]
fn walk_skipped_root_is_over_at_once() {
    let mut walk = find_while_skipping(dir("/r/tmp"), vec![], vec![p("/r")]);
    assert_eq!(walk.pending(), 0);
    assert!(matches!(walk.next(), Step::Done));
    let mut walk = Find::new(dir("/r/skip"), vec![b"skip".to_vec()], vec![]);
    assert!(matches!(walk.next(), Step::Done));
    // The name rule does not cover a root that is a file.
    let mut walk = Find::new(file("/r/skip", 1), vec![b"skip".to_vec()], vec![]);
    assert!(matches!(walk.next(), Step::Yield(_)));
}

/// What a directory of the tree below holds.
fn listing(dir: &Path) -> Vec<Meta> {
    if *dir == p("/r") {
        vec![dir_meta("/r/keep"), dir_meta("/r/node_modules"), file("/r/top", 5), link("/r/l", "keep")]
    } else if *dir == p("/r/keep") {
        vec![file("/r/keep/f", 100), dir_meta("/r/keep/sub")]
    } else if *dir == p("/r/keep/sub") {
        vec![file("/r/keep/sub/g", 7)]
    } else if *dir == p("/r/node_modules") {
        vec![file("/r/node_modules/huge", 1_000_000_000)]
    } else {
        panic!("listed {dir:?}")
    }
}

fn dir_meta(path: &str) -> Meta {
    dir(path)
}

fn run(mut walk: Find) -> (Vec<Path>, Vec<Path>) {
    let mut yielded = Vec::new();
    let mut listed = Vec::new();
    loop {
        match walk.next() {
            Step::Done => break,
            Step::Yield(m) => yielded.push(m.path),
            Step::List(d) => {
                listed.push(d.path.clone());
                let found = listing(&d.path);
                let back = walk.entries(d, found, true).unwrap();
                yielded.push(back.path);
            }
        }
    }
    (yielded, listed)
}

#[test]
fn walk_is_depth_first_and_complete() {
    let (yielded, listed) = run(find(dir("/r")));
    assert_eq!(
        yielded,
        vec![
            p("/r"),
            p("/r/l"),
            p("/r/top"),
            p("/r/node_modules"),
            p("/r/node_modules/huge"),
            p("/r/keep"),
            p("/r/keep/sub"),
            p("/r/keep/sub/g"),
            p("/r/keep/f"),
        ]
    );
    assert_eq!(listed, vec![p("/r"), p("/r/node_modules"), p("/r/keep"), p("/r/keep/sub")]);
}

#[test]
fn walk_never_enters_a_skipped_directory() {
    let (yielded, listed) =
        run(find_while_skipping(dir("/r"), vec![b"node_modules".to_vec()], vec![]));
    assert!(!listed.contains(&p("/r/node_modules")));
    assert!(!yielded.contains(&p("/r/node_modules")));
    assert!(!yielded.contains(&p("/r/node_modules/huge")));
    assert!(yielded.contains(&p("/r/keep/f")));
    assert_eq!(yielded.len(), 7);
}

#[test]
fn walk_never_yields_under_a_skipped_prefix() {
    let (yielded, listed) = run(find_while_skipping(dir("/r"), vec![], vec![p("/r/keep/sub")]));
    for path in &yielded {
        assert!(!path.starts_with(&p("/r/keep/sub")));
    }
    assert!(!listed.contains(&p("/r/keep/sub")));
    assert!(yielded.contains(&p("/r/keep/f")));
    assert!(yielded.contains(&p("/r/node_modules/huge")));
    assert_eq!(yielded.len(), 7);
}

#[test]
fn walk_does_not_follow_links() {
    let (_, listed) = run(find(dir("/r")));
    assert!(!listed.contains(&p("/r/l")));
}

#[test]
fn failed_listing_stands_in_for_the_directory() {
    let mut walk = find(dir("/r"));
    let d = match walk.next() {
        Step::List(d) => d,
        other => panic!("{other:?}"),
    };
    // Two entries were read before the listing failed.
    let back = walk.entries(d, vec![file("/r/a", 1), file("/r/b", 2)], false);
    assert_eq!(back, None);
    // What was read is still visited, last first.
    assert_eq!(walk.pending(), 2);
    assert!(matches!(walk.next(), Step::Yield(m) if m.path == p("/r/b")));
    assert!(matches!(walk.next(), Step::Yield(m) if m.path == p("/r/a")));
    assert!(matches!(walk.next(), Step::Done));
}

#[test]
fn entries_keeps_what_passes_in_order() {
    let mut walk = find_while_skipping(dir("/r"), vec![b"skip".to_vec()], vec![p("/r/x")]);
    let d = match walk.next() {
        Step::List(d) => d,
        other => panic!("{other:?}"),
    };
    let found = vec![file("/r/a", 1), dir("/r/skip"), file("/r/x", 2), dir("/r/b"), file("/r/skip2", 3)];
    assert_eq!(walk.entries(d, found, true), Some(dir("/r")));
    assert_eq!(walk.pending(), 3);
    assert!(matches!(walk.next(), Step::Yield(m) if m.path == p("/r/skip2")));
    assert!(matches!(walk.next(), Step::List(m) if m.path == p("/r/b")));
    assert!(matches!(walk.next(), Step::Yield(m) if m.path == p("/r/a")));
    assert!(matches!(walk.next(), Step::Done));
}

#[test]
fn accepts_a_listing_of_the_directory_handed_out() {
    let mut walk = find_while_skipping(dir("/r"), vec![b"skip".to_vec()], vec![p("/r/x")]);
    let d = match walk.next() {
        Step::List(d) => d,
        other => panic!("{other:?}"),
    };
    assert!(walk.accepts(&d, &vec![]));
    assert!(walk.accepts(&d, &vec![file("/r/a", 1), dir("/r/skip"), link("/r/l", "a")]));
    // Not directly in the directory.
    assert!(!walk.accepts(&d, &vec![file("/r/a/b", 1)]));
    assert!(!walk.accepts(&d, &vec![file("/r", 1)]));
    assert!(!walk.accepts(&d, &vec![file("/q/a", 1)]));
    assert!(!walk.accepts(&d, &vec![file("r/a", 1)]));
    assert!(!walk.accepts(&d, &vec![file("/r/a", 1), file("/other/b", 1)]));
    // Not a directory of this walk.
    assert!(!walk.accepts(&file("/r", 1), &vec![]));
    assert!(!walk.accepts(&dir("/elsewhere"), &vec![]));
    assert!(!walk.accepts(&dir("/r/skip"), &vec![]));
    assert!(!walk.accepts(&dir("/r/skip/inner"), &vec![]));
    assert!(!walk.accepts(&dir("/r/x/inner"), &vec![]));
    assert!(walk.accepts(&dir("/r/keep/inner"), &vec![file("/r/keep/inner/f", 1)]));
}

#[test]
fn clean_way_down_from_the_root() {
    let rules = SkipRules::new(vec![b"skip".to_vec()], vec![]);
    assert!(rules.clean(&p("/r"), &p("/r")));
    assert!(rules.clean(&p("/r"), &p("/r/a/b")));
    // The entry's own name is not on the way down to it.
    assert!(rules.clean(&p("/r"), &p("/r/a/skip")));
    assert!(!rules.clean(&p("/r"), &p("/r/skip/a")));
    assert!(!rules.clean(&p("/r"), &p("/r/a/skip/b/c")));
    assert!(!rules.clean(&p("/r"), &p("/q/a")));
    assert!(!rules.clean(&p("/skip"), &p("/skip/a")));
    // What lies above the root does not count.
    assert!(rules.clean(&p("/skip/r"), &p("/skip/r/a")));
    assert!(rules.clean(&p("."), &p("./a/b")));
}

#[test]
fn symlinks_with_their_targets() {
    let metas = vec![
        file("/r/f", 1),
        link("/r/a", "../missing"),
        dir("/r/d"),
        link("/r/d/b", "/abs/target"),
        meta("/r/s", FileType::Sock, 0, 0),
    ];
    assert_eq!(
        find_symlinks(&metas),
        vec![(p("/r/a"), p("../missing")), (p("/r/d/b"), p("/abs/target"))]
    );
    assert_eq!(find_symlinks(&vec![file("/f", 1)]), vec![]);
    assert_eq!(find_symlinks(&vec![]), vec![]);
}
