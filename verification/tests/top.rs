use fx::cmd::top::{count_dir_sizes, regular_files, report, sort, top, total_fits, try_top};
use fx::data::{FileType, Meta};
use fx::explore;
use fx::path::Path;
use fx::sizes::SizeMap;
use fx::table::{decimal_text, list};

fn p(text: &str) -> Path {
    Path::parse(text.as_bytes())
}

fn meta(path: &str, typ: FileType, size: u64) -> Meta {
    Meta {
        path: p(path),
        typ,
        size,
        mode: 0,
        perms: 0,
        uid: 0,
        gid: 0,
        dev: 0,
        ino: 0,
        nlink: 1,
        rdev: 0,
        atime: 0,
        mtime: 0,
        ctime: 0,
        blksize: 0,
        blocks: 0,
    }
}

fn file(path: &str, size: u64) -> Meta {
    meta(path, FileType::Regular, size)
}

fn dir(path: &str) -> Meta {
    meta(path, FileType::Directory, 4096)
}

fn tree() -> Vec<Meta> {
    vec![
        dir("/root"),
        dir("/root/big"),
        file("/root/big/one", 1000),
        file("/root/big/two", 2000),
        dir("/root/small"),
        file("/root/small/one", 10),
        meta("/root/link", FileType::Symlink { dst: p("big/two") }, 7),
    ]
}

fn sizes(entries: &[(&str, u64)]) -> Vec<(Path, u64)> {
    entries.iter().map(|(path, size)| (p(path), *size)).collect()
}

#[test]
fn top_directories() {
    assert_eq!(
        top(&tree(), &p("/root"), false, Some(2)),
        sizes(&[("/root/big", 3000), ("/root", 3010)])
    );
    assert_eq!(
        top(&tree(), &p("/root"), false, None),
        sizes(&[("/root/small", 10), ("/root/big", 3000), ("/root", 3010)])
    );
}

#[test]
fn top_files() {
    assert_eq!(
        top(&tree(), &p("/root"), true, Some(2)),
        sizes(&[("/root/big/one", 1000), ("/root/big/two", 2000)])
    );
    assert_eq!(
        top(&tree(), &p("/root"), true, Some(25)),
        sizes(&[("/root/small/one", 10), ("/root/big/one", 1000), ("/root/big/two", 2000)])
    );
}

#[test]
fn try_top_gives_up_when_the_sizes_do_not_fit() {
    assert_eq!(
        try_top(&tree(), &p("/root"), false, Some(2)),
        Some(sizes(&[("/root/big", 3000), ("/root", 3010)]))
    );
    let huge = vec![file("/root/a", u64::MAX), file("/root/b", 1)];
    assert_eq!(try_top(&huge, &p("/root"), false, None), None);
    // Files are ranked without adding anything up.
    assert_eq!(
        try_top(&huge, &p("/root"), true, None),
        Some(sizes(&[("/root/b", 1), ("/root/a", u64::MAX)]))
    );
}

#[test]
fn top_counts_regular_files_only() {
    let files = regular_files(&tree());
    assert_eq!(
        files.into_entries(),
        sizes(&[("/root/big/one", 1000), ("/root/big/two", 2000), ("/root/small/one", 10)])
    );
}

#[test]
fn explore_ranks_given_sizes() {
    let files = || {
        SizeMap::new()
            .set(&p("/root/big/one"), 1000)
            .set(&p("/root/big/two"), 2000)
            .set(&p("/root/small/one"), 10)
    };
    assert_eq!(
        explore(files(), &p("/root"), false, Some(2)),
        sizes(&[("/root/big", 3000), ("/root", 3010)])
    );
    assert_eq!(
        explore(files(), &p("/root"), true, Some(1)),
        sizes(&[("/root/big/two", 2000)])
    );
    assert_eq!(explore(SizeMap::new(), &p("/root"), false, None), vec![]);
}

#[test]
fn dir_sizes_are_sums_of_what_lies_below() {
    let files = sizes(&[
        ("/r/a/x", 1),
        ("/r/a/b/y", 10),
        ("/r/a/b/z", 100),
        ("/r/c/w", 1000),
        ("/r/top", 10000),
    ]);
    let dirs = count_dir_sizes(&files, &p("/r"));
    assert_eq!(dirs.get(&p("/r")), Some(11111));
    assert_eq!(dirs.get(&p("/r/a")), Some(111));
    assert_eq!(dirs.get(&p("/r/a/b")), Some(110));
    assert_eq!(dirs.get(&p("/r/c")), Some(1000));
    // Nothing above the root, and no file.
    assert_eq!(dirs.get(&p("/")), None);
    assert_eq!(dirs.get(&p("/r/top")), None);
    assert_eq!(dirs.len(), 4);
    assert_eq!(
        dirs.into_entries(),
        sizes(&[("/r/a", 111), ("/r", 11111), ("/r/a/b", 110), ("/r/c", 1000)])
    );
}

#[test]
fn dir_sizes_leave_out_what_is_not_under_the_root() {
    let files = sizes(&[("/r/a/x", 1), ("/other/y", 10), ("/r2/z", 100)]);
    let dirs = count_dir_sizes(&files, &p("/r"));
    assert_eq!(dirs.into_entries(), sizes(&[("/r/a", 1), ("/r", 1)]));
}

#[test]
fn dir_sizes_under_a_relative_root() {
    let files = sizes(&[("./a/x", 1), ("./y", 2)]);
    let dirs = count_dir_sizes(&files, &p("."));
    assert_eq!(dirs.into_entries(), sizes(&[("./a", 1), (".", 3)]));
    // The empty root is above everything relative.
    let files = sizes(&[("a/x", 1)]);
    let dirs = count_dir_sizes(&files, &p(""));
    assert_eq!(dirs.into_entries(), sizes(&[("a", 1), ("", 1)]));
}

#[test]
fn dir_sizes_of_a_root_that_is_a_file() {
    let dirs = count_dir_sizes(&sizes(&[("/r/f", 5)]), &p("/r/f"));
    assert!(dirs.into_entries().is_empty());
}

#[test]
fn dir_sizes_up_to_the_limit() {
    let files = sizes(&[("/r/a", u64::MAX - 5), ("/r/b", 5)]);
    assert!(total_fits(&files));
    assert_eq!(count_dir_sizes(&files, &p("/r")).get(&p("/r")), Some(u64::MAX));
    assert!(!total_fits(&sizes(&[("/r/a", u64::MAX - 5), ("/r/b", 6)])));
    assert!(!total_fits(&sizes(&[("/a", u64::MAX), ("/b", 0), ("/c", 1)])));
    assert!(total_fits(&vec![]));
}

#[test]
fn sort_puts_the_largest_last() {
    let given = sizes(&[("/c", 30), ("/a", 10), ("/e", 50), ("/b", 20), ("/d", 40)]);
    assert_eq!(
        sort(given.clone(), None),
        sizes(&[("/a", 10), ("/b", 20), ("/c", 30), ("/d", 40), ("/e", 50)])
    );
    assert_eq!(sort(given.clone(), Some(2)), sizes(&[("/d", 40), ("/e", 50)]));
    assert_eq!(sort(given.clone(), Some(0)), vec![]);
    assert_eq!(sort(given.clone(), Some(5)), sort(given.clone(), None));
    assert_eq!(sort(given.clone(), Some(99)), sort(given, None));
    assert_eq!(sort(vec![], Some(3)), vec![]);
}

#[test]
fn sort_reversed_is_descending_and_limit_is_a_suffix() {
    let given: Vec<(Path, u64)> =
        (0..40u64).map(|i| (p(&format!("/f/{i}")), (i * 7919) % 13)).collect();
    let all = sort(given.clone(), None);
    assert_eq!(all.len(), given.len());
    let mut reversed = all.clone();
    reversed.reverse();
    for pair in reversed.windows(2) {
        assert!(pair[0].1 >= pair[1].1);
    }
    for entry in &given {
        assert!(all.contains(entry));
    }
    for n in [0usize, 1, 2, 13, 39, 40, 41, 1000] {
        let limited = sort(given.clone(), Some(n));
        let keep = n.min(given.len());
        assert_eq!(limited.len(), keep);
        assert_eq!(limited[..], all[all.len() - keep..]);
    }
}

#[test]
fn sort_ties_come_out_in_reverse_of_how_they_came_in() {
    let given = sizes(&[("/a", 5), ("/b", 7), ("/c", 5), ("/d", 5)]);
    assert_eq!(sort(given.clone(), None), sizes(&[("/d", 5), ("/c", 5), ("/a", 5), ("/b", 7)]));
    // With a limit the earliest of the ties are kept.
    assert_eq!(sort(given, Some(2)), sizes(&[("/a", 5), ("/b", 7)]));
}

#[test]
fn numbers_in_decimal() {
    assert_eq!(decimal_text(0), "0");
    assert_eq!(decimal_text(7), "7");
    assert_eq!(decimal_text(10), "10");
    assert_eq!(decimal_text(3010), "3010");
    assert_eq!(decimal_text(1234567890), "1234567890");
    assert_eq!(decimal_text(u64::MAX), "18446744073709551615");
    for n in [9u64, 99, 100, 101, 999_999, 1 << 40] {
        assert_eq!(decimal_text(n), n.to_string());
    }
}

fn table(rows: &[(&str, &str)]) -> String {
    let mut table = comfy_table::Table::new();
    table.load_preset(comfy_table::presets::NOTHING);
    table.set_header(["SIZE", "PATH"]);
    for (size, path) in rows {
        table.add_row(vec![size, path]);
    }
    table.to_string()
}

#[test]
fn report_in_bytes() {
    let ranked = sizes(&[("/root/big", 3000), ("/root", 3010)]);
    let text = report(&ranked, false);
    assert_eq!(text, table(&[("3000", "/root/big"), ("3010", "/root")]));
    assert_eq!(text, " SIZE  PATH      \n 3000  /root/big \n 3010  /root     ");
}

#[test]
fn report_in_units() {
    let ranked = sizes(&[("/root/small", 10), ("/root/big", 3000), ("/x", 5 << 30)]);
    let text = report(&ranked, true);
    assert_eq!(
        text,
        table(&[
            (&bytesize::ByteSize(10).to_string(), "/root/small"),
            (&bytesize::ByteSize(3000).to_string(), "/root/big"),
            (&bytesize::ByteSize(5 << 30).to_string(), "/x"),
        ])
    );
    assert!(text.contains("10 B"));
    assert!(text.contains("2.9 KiB"));
    assert!(text.contains("5.0 GiB"));
}

#[test]
fn report_of_nothing_is_the_heads() {
    assert_eq!(report(&vec![], false), table(&[]));
    assert_eq!(report(&vec![], false), " SIZE  PATH ");
}

#[test]
fn report_of_a_path_that_is_not_text() {
    let odd = Path::parse(b"/r/\xff\xfe");
    let text = report(&vec![(odd, 1)], false);
    assert_eq!(text, table(&[("1", "/r/\u{fffd}\u{fffd}")]));
}

#[test]
fn list_lays_out_rows_in_order() {
    let rows = vec![
        vec!["1".to_string(), "/a".to_string()],
        vec!["22".to_string(), "/bb".to_string()],
    ];
    assert_eq!(list(rows), table(&[("1", "/a"), ("22", "/bb")]));
}
