use fx::files::{find_with_sizes, Action, Entry, Scan, ScanStep};
use fx::path::Path;

fn p(text: &str) -> Path {
    Path::parse(text.as_bytes())
}

fn entry(path: &str, is_symlink: bool, is_dir: bool, is_file: bool, len: u64) -> Entry {
    Entry { path: p(path), is_symlink, is_dir, is_file, len }
}

fn file(path: &str, len: u64) -> Entry {
    entry(path, false, false, true, len)
}

fn dir(path: &str) -> Entry {
    entry(path, false, true, false, 4096)
}

#[test]
fn links_are_asked_about_first() {
    assert_eq!(entry("/l", true, true, false, 0).action(), Action::Ignore);
    assert_eq!(entry("/l", true, false, true, 0).action(), Action::Ignore);
    assert_eq!(entry("/l", true, true, true, 0).action(), Action::Ignore);
    assert_eq!(entry("/d", false, true, true, 0).action(), Action::Descend);
    assert_eq!(entry("/d", false, true, false, 0).action(), Action::Descend);
    assert_eq!(entry("/f", false, false, true, 0).action(), Action::Record);
    assert_eq!(entry("/s", false, false, false, 0).action(), Action::Ignore);
}

fn children(dir: &Path) -> Vec<Entry> {
    if *dir == p("/r") {
        vec![dir_entry("/r/big"), dir_entry("/r/small"), entry("/r/l", true, true, false, 0)]
    } else if *dir == p("/r/big") {
        vec![file("/r/big/one", 1000), file("/r/big/two", 2000)]
    } else if *dir == p("/r/small") {
        vec![file("/r/small/one", 10), entry("/r/small/sock", false, false, false, 5)]
    } else {
        panic!("listed {dir:?}")
    }
}

fn dir_entry(path: &str) -> Entry {
    dir(path)
}

fn run(mut scan: Scan) -> (Vec<(Path, u64)>, Vec<Path>) {
    let mut listed = Vec::new();
    loop {
        match scan.step() {
            ScanStep::Done(files) => return (files.into_entries(), listed),
            ScanStep::Again(next) => scan = next,
            ScanStep::List(next, dir) => {
                let found = children(&dir);
                listed.push(dir);
                scan = next.children(found);
            }
        }
    }
}

#[test]
fn scan_of_a_tree() {
    let (files, listed) = run(find_with_sizes(dir("/r")));
    assert_eq!(
        files,
        vec![(p("/r/small/one"), 10), (p("/r/big/two"), 2000), (p("/r/big/one"), 1000)]
    );
    assert_eq!(listed, vec![p("/r"), p("/r/small"), p("/r/big")]);
}

#[test]
fn scan_of_a_single_file() {
    let (files, listed) = run(find_with_sizes(file("/f", 7)));
    assert_eq!(files, vec![(p("/f"), 7)]);
    assert!(listed.is_empty());
}

#[test]
fn scan_of_a_link_finds_nothing() {
    let (files, listed) = run(find_with_sizes(entry("/l", true, true, false, 0)));
    assert!(files.is_empty());
    assert!(listed.is_empty());
}

#[test]
fn a_path_met_twice_keeps_its_last_size() {
    let scan = find_with_sizes(dir("/r"));
    let scan = match scan.step() {
        ScanStep::List(next, dir) => {
            assert_eq!(dir, p("/r"));
            next.children(vec![file("/r/f", 1), file("/r/g", 2), file("/r/f", 3)])
        }
        _ => panic!("not a listing"),
    };
    let mut scan = scan;
    let files = loop {
        match scan.step() {
            ScanStep::Done(files) => break files,
            ScanStep::Again(next) => scan = next,
            ScanStep::List(..) => panic!("nothing to list"),
        }
    };
    // `/r/f` with 3 is looked at first, then `/r/g`, then `/r/f` with 1.
    assert_eq!(files.into_entries(), vec![(p("/r/f"), 1), (p("/r/g"), 2)]);
}
