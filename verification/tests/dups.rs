use fx::cmd::dups::{
    candidates, groupers, mark_of, order, read, read_head, read_mid, refine, refine_group, render,
    shapes_match, size_marks, Dups, Order, Pass, ReadPlan, ReadStep, Sample,
};
use fx::data::{FileType, Meta};
use fx::error::Error;
use fx::hash::{step, Algorithm, HashStep, ReadEvent, Stream};
use fx::path::Path;

fn p(text: &str) -> Path {
    Path::parse(text.as_bytes())
}

fn meta(path: &str, typ: FileType, size: u64) -> Meta {
    Meta {
        path: p(path),
        typ,
        size,
        mode: 0,
        perms: 0,
        uid: 0,
        gid: 0,
        dev: 0,
        ino: 0,
        nlink: 1,
        rdev: 0,
        atime: 0,
        mtime: 0,
        ctime: 0,
        blksize: 0,
        blocks: 0,
    }
}

fn file(path: &str, size: u64) -> Meta {
    meta(path, FileType::Regular, size)
}

fn id(bytes: &[u8]) -> Option<Vec<u8>> {
    Some(bytes.to_vec())
}

/// Files by name, with their content, and counters for what was done.
struct Disk {
    files: Vec<(String, Vec<u8>)>,
    sample_reads: usize,
    hash_reads: usize,
}

impl Disk {
    fn new(files: &[(&str, &[u8])]) -> Disk {
        Disk {
            files: files.iter().map(|(n, c)| (format!("/root/{n}"), c.to_vec())).collect(),
            sample_reads: 0,
            hash_reads: 0,
        }
    }

    fn metas(&self) -> Vec<Meta> {
        self.files.iter().map(|(n, c)| file(n, c.len() as u64)).collect()
    }

    fn content(&self, path: &Path) -> Vec<u8> {
        let name = String::from_utf8(path.to_bytes()).unwrap();
        self.files.iter().find(|(n, _)| *n == name).unwrap().1.clone()
    }

    /// Reads a sample as planned, in reads of at most three bytes.
    fn sample(&mut self, path: &Path, plan: ReadPlan) -> Option<Vec<u8>> {
        let content = self.content(path);
        let mut at = (plan.offset as usize).min(content.len());
        let mut state = Sample::start(plan.amount);
        loop {
            match state {
                ReadStep::Done(buf) => return Some(buf),
                ReadStep::Failed(_) => return None,
                ReadStep::More(sample) => {
                    self.sample_reads += 1;
                    let want = sample.wanted().min(3);
                    let end = (at + want).min(content.len());
                    let event = if at == end {
                        ReadEvent::Eof
                    } else {
                        ReadEvent::Data(content[at..end].to_vec())
                    };
                    at = end;
                    state = read(sample, event);
                }
            }
        }
    }

    /// Digests the whole content, read `chunk` bytes at a time.
    fn digest(&mut self, path: &Path, algorithm: Algorithm, chunk: usize) -> Option<Vec<u8>> {
        let content = self.content(path);
        let mut at = 0;
        let mut stream = Stream::new(algorithm);
        loop {
            self.hash_reads += 1;
            let end = (at + chunk).min(content.len());
            let event = ReadEvent::Data(content[at..end].to_vec());
            at = end;
            match step(stream, event) {
                HashStep::More(next) => stream = next,
                HashStep::Done(bytes) => return Some(bytes),
                HashStep::Failed(_) => return None,
            }
        }
    }

    fn marks(&mut self, pass: Pass, groups: &Vec<Vec<Meta>>) -> Vec<Vec<Option<Vec<u8>>>> {
        if let Pass::Size = pass {
            return size_marks(groups);
        }
        let mut all = Vec::new();
        for group in groups {
            let mut ids = Vec::new();
            for m in group {
                ids.push(match pass {
                    Pass::Size => unreachable!(),
                    Pass::HeadSample(n) => {
                        read_head(m, n).ok().and_then(|plan| self.sample(&m.path, plan))
                    }
                    Pass::MidSample(n) => {
                        read_mid(m, n).ok().and_then(|plan| self.sample(&m.path, plan))
                    }
                    Pass::Xxh(c) => self.digest(&m.path, Algorithm::Xxh, c),
                    Pass::Blake3(c) => self.digest(&m.path, Algorithm::Blake3, c),
                    Pass::Sha512(c) => self.digest(&m.path, Algorithm::Sha512, c),
                });
            }
            all.push(ids);
        }
        all
    }

    fn dups(&mut self, sample: usize, chunk: usize, blake3: bool, sha: bool) -> Vec<Vec<String>> {
        let mut search = Dups::new(&self.metas(), sample, chunk, blake3, sha);
        while let Some(pass) = search.pass() {
            let marks = self.marks(pass, search.groups());
            assert!(search.advance(&marks));
        }
        names(&search.finish())
    }
}

/// The groups by the last component of their members, sorted so that the
/// order of groups and members does not matter.
fn names(groups: &Vec<Vec<Meta>>) -> Vec<Vec<String>> {
    let mut all: Vec<Vec<String>> = groups
        .iter()
        .map(|group| {
            let mut names: Vec<String> = group
                .iter()
                .map(|m| String::from_utf8(m.path.file_name().unwrap()).unwrap())
                .collect();
            names.sort();
            names
        })
        .collect();
    all.sort();
    all
}

fn strs(groups: &[&[&str]]) -> Vec<Vec<String>> {
    groups.iter().map(|g| g.iter().map(|s| s.to_string()).collect()).collect()
}

#[test]
fn dups_1() {
    let mut disk = Disk::new(&[
        ("empty_1", b""),
        ("empty_2", b""),
        ("empty_3", b""),
        ("foo_1", b"foo\n"),
        ("foo_2", b"foo\n"),
        ("bar_1", b"bar\n"),
        ("bar_2", b"bar\n"),
        ("baz_unique", b"baz\n"),
    ]);
    let groups_expected = vec![vec!["bar_1", "bar_2"], vec!["foo_1", "foo_2"]];
    let groups_actual = disk.dups(8192, 8192, false, false);
    assert_eq!(groups_expected, groups_actual);
}

#[test]
fn dups_with_the_cryptographic_passes() {
    let mut disk = Disk::new(&[
        ("foo_1", b"foo\n"),
        ("foo_2", b"foo\n"),
        ("bar_1", b"bar\n"),
        ("bar_2", b"bar\n"),
        ("baz_unique", b"baz\n"),
        ("long_1", b"0123456789abcdefghij"),
        ("long_2", b"0123456789abcdefghij"),
        ("long_3", b"0123456789abcdefghiJ"),
    ]);
    let expected = strs(&[&["bar_1", "bar_2"], &["foo_1", "foo_2"], &["long_1", "long_2"]]);
    assert_eq!(disk.dups(4, 5, true, true), expected);
    assert_eq!(disk.dups(8192, 8192, true, false), expected);
    assert_eq!(disk.dups(1, 1, false, true), expected);
}

#[test]
fn equal_size_different_head_never_reaches_a_hash() {
    let mut disk = Disk::new(&[("a", b"Xsame tail"), ("b", b"Ysame tail")]);
    let mut search = Dups::new(&disk.metas(), 4, 4, true, true);

    assert_eq!(search.pass(), Some(Pass::Size));
    let marks = disk.marks(Pass::Size, search.groups());
    assert!(search.advance(&marks));
    assert_eq!(names(search.groups()), strs(&[&["a", "b"]]));
    assert_eq!(disk.sample_reads, 0);

    assert_eq!(search.pass(), Some(Pass::HeadSample(4)));
    let marks = disk.marks(Pass::HeadSample(4), search.groups());
    assert!(search.advance(&marks));
    assert!(search.groups().is_empty());

    while let Some(pass) = search.pass() {
        let marks = disk.marks(pass, search.groups());
        assert!(search.advance(&marks));
    }
    assert!(search.finish().is_empty());
    assert_eq!(disk.hash_reads, 0);
}

#[test]
fn files_that_differ_late_are_told_apart_by_the_digest() {
    // Same size, same head, same middle sample; the last byte differs.
    let mut disk = Disk::new(&[("a", b"0123456789"), ("b", b"0123456789"), ("c", b"012345678X")]);
    assert_eq!(disk.dups(4, 3, false, false), strs(&[&["a", "b"]]));
    assert!(disk.hash_reads > 0);
}

#[test]
fn marks_of_content_in_memory() {
    assert_eq!(mark_of(Pass::Size, b"foo\n"), vec![4, 0, 0, 0, 0, 0, 0, 0]);
    assert_eq!(mark_of(Pass::Size, b""), vec![0; 8]);
    assert_eq!(mark_of(Pass::HeadSample(4), b"abcdefgh"), b"abcd".to_vec());
    assert_eq!(mark_of(Pass::HeadSample(3), b"ab"), b"ab".to_vec());
    assert_eq!(mark_of(Pass::HeadSample(0), b"ab"), Vec::<u8>::new());
    assert_eq!(mark_of(Pass::MidSample(2), b"0123456789"), b"23".to_vec());
    assert_eq!(mark_of(Pass::MidSample(1), b"0123456789"), b"5".to_vec());
    assert_eq!(mark_of(Pass::MidSample(4), b"012345"), b"0123".to_vec());
    assert_eq!(mark_of(Pass::MidSample(8), b"012"), b"012".to_vec());
    assert_eq!(mark_of(Pass::MidSample(8), b""), Vec::<u8>::new());
    assert_eq!(
        mark_of(Pass::Xxh(5), b"foo\n"),
        fx::hash::xxh(&vec![b"foo\n".to_vec()]).to_le_bytes().to_vec()
    );
    assert_eq!(mark_of(Pass::Blake3(5), b"foo\n"), fx::hash::blake3(&vec![b"foo\n".to_vec()]));
    assert_eq!(mark_of(Pass::Sha512(5), b"foo\n"), fx::hash::sha2_512(&vec![b"foo\n".to_vec()]));
}

#[test]
fn marks_read_in_pieces_are_the_marks_of_the_content() {
    let mut disk = Disk::new(&[("a", b"0123456789abcdefghij"), ("b", b"xy"), ("c", b"")]);
    let groups = vec![disk.metas()];
    for pass in groupers(4, 3, true, true) {
        let read = disk.marks(pass, &groups);
        for (m, id) in groups[0].iter().zip(&read[0]) {
            assert_eq!(id.as_ref(), Some(&mark_of(pass, &disk.content(&m.path))));
        }
    }
}

#[test]
fn a_file_with_a_twin_is_in_one_group_with_it() {
    let mut disk = Disk::new(&[
        ("a1", b"same content"),
        ("b", b"other content, longer"),
        ("a2", b"same content"),
        ("c", b"same contenT"),
        ("a3", b"same content"),
    ]);
    let groups = disk.dups(5, 4, true, true);
    let with_a1: Vec<_> = groups.iter().filter(|g| g.contains(&"a1".to_string())).collect();
    assert_eq!(with_a1.len(), 1);
    assert_eq!(with_a1[0], &vec!["a1".to_string(), "a2".to_string(), "a3".to_string()]);
    assert_eq!(groups.len(), 1);
}

#[test]
fn a_file_told_apart_by_any_pass_is_in_no_group() {
    // `late` agrees with the others in size and both samples and differs in
    // the last byte; `short` differs in size; `head` differs in the first byte.
    let mut disk = Disk::new(&[
        ("a1", b"0123456789"),
        ("late", b"012345678X"),
        ("short", b"012345678"),
        ("a2", b"0123456789"),
        ("head", b"X123456789"),
        ("dir_like_empty", b""),
    ]);
    let groups = disk.dups(3, 4, true, true);
    assert_eq!(groups, strs(&[&["a1", "a2"]]));
    for name in ["late", "short", "head", "dir_like_empty"] {
        assert!(groups.iter().all(|g| !g.contains(&name.to_string())));
    }
}

#[test]
fn order_for_each_pass() {
    let m = file("/f", 100);
    assert!(matches!(order(Pass::Size, &m), Ok(Order::Mark(b)) if b == vec![100, 0, 0, 0, 0, 0, 0, 0]));
    assert!(matches!(
        order(Pass::HeadSample(10), &m),
        Ok(Order::Sample(ReadPlan { offset: 0, amount: 10 }))
    ));
    assert!(matches!(
        order(Pass::MidSample(10), &m),
        Ok(Order::Sample(ReadPlan { offset: 5, amount: 10 }))
    ));
    assert!(matches!(order(Pass::Xxh(7), &m), Ok(Order::Digest(Algorithm::Xxh, 7))));
    assert!(matches!(order(Pass::Blake3(8), &m), Ok(Order::Digest(Algorithm::Blake3, 8))));
    assert!(matches!(order(Pass::Sha512(9), &m), Ok(Order::Digest(Algorithm::Sha512, 9))));
    if (usize::MAX as u128) < (u64::MAX as u128) {
        let big = file("/f", u64::MAX);
        assert!(matches!(order(Pass::HeadSample(10), &big), Err(Error::Read)));
        assert!(matches!(order(Pass::MidSample(10), &big), Err(Error::Read)));
    }
}

#[test]
fn pipeline_order() {
    assert_eq!(
        groupers(100, 200, false, false),
        vec![Pass::Size, Pass::HeadSample(100), Pass::MidSample(100), Pass::Xxh(200)]
    );
    assert_eq!(
        groupers(1, 2, true, false),
        vec![Pass::Size, Pass::HeadSample(1), Pass::MidSample(1), Pass::Xxh(2), Pass::Blake3(2)]
    );
    assert_eq!(
        groupers(1, 2, false, true),
        vec![Pass::Size, Pass::HeadSample(1), Pass::MidSample(1), Pass::Xxh(2), Pass::Sha512(2)]
    );
    assert_eq!(
        groupers(8192, 8192, true, true),
        vec![
            Pass::Size,
            Pass::HeadSample(8192),
            Pass::MidSample(8192),
            Pass::Xxh(8192),
            Pass::Blake3(8192),
            Pass::Sha512(8192),
        ]
    );
}

#[test]
fn head_sample_plan() {
    assert_eq!(read_head(&file("/f", 100), 10), Ok(ReadPlan { offset: 0, amount: 10 }));
    assert_eq!(read_head(&file("/f", 7), 10), Ok(ReadPlan { offset: 0, amount: 7 }));
    assert_eq!(read_head(&file("/f", 10), 10), Ok(ReadPlan { offset: 0, amount: 10 }));
    assert_eq!(read_head(&file("/f", 0), 10), Ok(ReadPlan { offset: 0, amount: 0 }));
    assert_eq!(read_head(&file("/f", 5), 0), Ok(ReadPlan { offset: 0, amount: 0 }));
}

#[test]
fn mid_sample_plan() {
    // The offset is half of how often the sample size goes into the size.
    assert_eq!(read_mid(&file("/f", 100), 10), Ok(ReadPlan { offset: 5, amount: 10 }));
    assert_eq!(read_mid(&file("/f", 1_000_000), 8192), Ok(ReadPlan { offset: 61, amount: 8192 }));
    assert_eq!(read_mid(&file("/f", 19), 10), Ok(ReadPlan { offset: 0, amount: 10 }));
    assert_eq!(read_mid(&file("/f", 20), 10), Ok(ReadPlan { offset: 1, amount: 10 }));
    assert_eq!(read_mid(&file("/f", 7), 10), Ok(ReadPlan { offset: 0, amount: 7 }));
    assert_eq!(read_mid(&file("/f", 0), 1), Ok(ReadPlan { offset: 0, amount: 0 }));
    assert_eq!(read_mid(&file("/f", 9), 1), Ok(ReadPlan { offset: 4, amount: 1 }));
}

#[test]
fn sample_plan_for_a_file_too_large_to_address() {
    if (usize::MAX as u128) < (u64::MAX as u128) {
        assert_eq!(read_head(&file("/f", u64::MAX), 10), Err(Error::Read));
        assert_eq!(read_mid(&file("/f", u64::MAX), 10), Err(Error::Read));
    } else {
        assert_eq!(
            read_head(&file("/f", u64::MAX), 10),
            Ok(ReadPlan { offset: 0, amount: 10 })
        );
        assert_eq!(
            read_mid(&file("/f", u64::MAX), 10),
            Ok(ReadPlan { offset: u64::MAX / 10 / 2, amount: 10 })
        );
    }
}

fn more(step: ReadStep) -> Sample {
    match step {
        ReadStep::More(sample) => sample,
        other => panic!("{other:?}"),
    }
}

fn done(step: ReadStep) -> Vec<u8> {
    match step {
        ReadStep::Done(buf) => buf,
        other => panic!("{other:?}"),
    }
}

#[test]
fn sample_of_nothing_needs_no_read() {
    assert_eq!(done(Sample::start(0)), Vec::<u8>::new());
}

#[test]
fn sample_filled_in_pieces() {
    let s = more(Sample::start(5));
    assert_eq!(s.wanted(), 5);
    let s = more(read(s, ReadEvent::Data(b"ab".to_vec())));
    assert_eq!(s.wanted(), 3);
    let s = more(read(s, ReadEvent::Data(b"c".to_vec())));
    assert_eq!(s.wanted(), 2);
    assert_eq!(done(read(s, ReadEvent::Data(b"de".to_vec()))), b"abcde".to_vec());
}

#[test]
fn sample_filled_at_once() {
    let s = more(Sample::start(3));
    assert_eq!(done(read(s, ReadEvent::Data(b"xyz".to_vec()))), b"xyz".to_vec());
}

#[test]
fn sample_cut_short_is_padded_with_zeros() {
    let s = more(Sample::start(6));
    let s = more(read(s, ReadEvent::Data(b"ab".to_vec())));
    assert_eq!(done(read(s, ReadEvent::Eof)), vec![b'a', b'b', 0, 0, 0, 0]);
    let s = more(Sample::start(3));
    assert_eq!(done(read(s, ReadEvent::Eof)), vec![0, 0, 0]);
    // A read that gave nothing is the end of the file.
    let s = more(Sample::start(2));
    let s = more(read(s, ReadEvent::Data(b"q".to_vec())));
    assert_eq!(done(read(s, ReadEvent::Data(vec![]))), vec![b'q', 0]);
}

#[test]
fn sample_interrupted_read_is_tried_again() {
    let s = more(Sample::start(2));
    let s = more(read(s, ReadEvent::Interrupted));
    assert_eq!(s.wanted(), 2);
    let s = more(read(s, ReadEvent::Data(b"a".to_vec())));
    let s = more(read(s, ReadEvent::Interrupted));
    assert_eq!(s.wanted(), 1);
    assert_eq!(done(read(s, ReadEvent::Data(b"b".to_vec()))), b"ab".to_vec());
}

#[test]
fn sample_failed_read_is_a_read_error() {
    let s = more(Sample::start(2));
    assert!(matches!(read(s, ReadEvent::Failed), ReadStep::Failed(Error::Read)));
}

#[test]
fn sample_takes_no_more_than_it_lacks() {
    let s = more(Sample::start(3));
    assert_eq!(done(read(s, ReadEvent::Data(b"abcdef".to_vec()))), b"abc".to_vec());
}

#[test]
fn candidates_are_regular_and_not_empty() {
    let metas = vec![
        file("/a", 1),
        file("/empty", 0),
        meta("/d", FileType::Directory, 4096),
        meta("/l", FileType::Symlink { dst: p("a") }, 1),
        file("/b", 2),
        meta("/s", FileType::Sock, 5),
    ];
    assert_eq!(candidates(&metas), vec![file("/a", 1), file("/b", 2)]);
    assert_eq!(candidates(&vec![]), vec![]);
}

#[test]
fn size_marks_are_eight_bytes_lowest_first() {
    let groups = vec![vec![file("/a", 1), file("/b", 0x0102030405060708)], vec![], vec![file("/c", 256)]];
    assert_eq!(
        size_marks(&groups),
        vec![
            vec![id(&[1, 0, 0, 0, 0, 0, 0, 0]), id(&[8, 7, 6, 5, 4, 3, 2, 1])],
            vec![],
            vec![id(&[0, 1, 0, 0, 0, 0, 0, 0])],
        ]
    );
}

#[test]
fn refine_group_splits_by_mark() {
    let group = vec![file("/a", 1), file("/b", 1), file("/c", 1), file("/d", 1), file("/e", 1)];
    let marks = vec![id(b"x"), id(b"y"), id(b"x"), id(b"z"), id(b"y")];
    assert_eq!(
        refine_group(&group, &marks),
        vec![vec![file("/a", 1), file("/c", 1)], vec![file("/b", 1), file("/e", 1)]]
    );
}

#[test]
fn refine_drops_singletons_and_failures() {
    let group = vec![file("/a", 1), file("/b", 1), file("/c", 1), file("/d", 1)];
    // `/b` could not be read; `/d` is alone with its mark.
    let marks = vec![id(b"x"), None, id(b"x"), id(b"w")];
    assert_eq!(refine_group(&group, &marks), vec![vec![file("/a", 1), file("/c", 1)]]);
    // Two failures do not make a group.
    let marks = vec![None, None, id(b"x"), id(b"w")];
    assert_eq!(refine_group(&group, &marks), Vec::<Vec<Meta>>::new());
    assert_eq!(refine_group(&vec![], &vec![]), Vec::<Vec<Meta>>::new());
}

#[test]
fn refine_marks_are_compared_whole() {
    let group = vec![file("/a", 1), file("/b", 1), file("/c", 1)];
    let marks = vec![id(b"ab"), id(b"a"), id(b"ab")];
    assert_eq!(refine_group(&group, &marks), vec![vec![file("/a", 1), file("/c", 1)]]);
    let marks = vec![id(b""), id(b""), id(b"\0")];
    assert_eq!(refine_group(&group, &marks), vec![vec![file("/a", 1), file("/b", 1)]]);
}

#[test]
fn refine_never_merges_groups() {
    let groups = vec![vec![file("/a", 1), file("/b", 1)], vec![file("/c", 2), file("/d", 2)]];
    let marks = vec![vec![id(b"x"), id(b"x")], vec![id(b"x"), id(b"x")]];
    assert_eq!(refine(&groups, &marks), groups);
    let marks = vec![vec![id(b"x"), id(b"y")], vec![id(b"x"), id(b"y")]];
    assert_eq!(refine(&groups, &marks), Vec::<Vec<Meta>>::new());
}

/// The mark that the tests below give to a file: its size modulo three.
fn modulo_mark(m: &Meta) -> Option<Vec<u8>> {
    if m.size == 0 {
        None
    } else {
        Some(vec![(m.size % 3) as u8])
    }
}

fn mark_all(groups: &Vec<Vec<Meta>>) -> Vec<Vec<Option<Vec<u8>>>> {
    groups.iter().map(|g| g.iter().map(modulo_mark).collect()).collect()
}

fn sample_groups() -> Vec<Vec<Meta>> {
    vec![
        (0..10).map(|i| file(&format!("/a/{i}"), i)).collect(),
        vec![file("/b/1", 4), file("/b/2", 5), file("/b/3", 6)],
        vec![file("/c/1", 3), file("/c/2", 9), file("/c/3", 0), file("/c/4", 0)],
    ]
}

#[test]
fn refine_twice_is_refine_once() {
    let groups = sample_groups();
    let once = refine(&groups, &mark_all(&groups));
    let twice = refine(&once, &mark_all(&once));
    assert_eq!(once, twice);
    assert_eq!(
        once,
        vec![
            vec![file("/a/1", 1), file("/a/4", 4), file("/a/7", 7)],
            vec![file("/a/2", 2), file("/a/5", 5), file("/a/8", 8)],
            vec![file("/a/3", 3), file("/a/6", 6), file("/a/9", 9)],
            vec![file("/c/1", 3), file("/c/2", 9)],
        ]
    );
}

#[test]
fn refine_puts_out_only_what_was_put_in() {
    let groups = sample_groups();
    let out = refine(&groups, &mark_all(&groups));
    for group_out in &out {
        assert!(groups.iter().any(|g| group_out.iter().all(|m| g.contains(m))));
    }
    let before: usize = groups.iter().map(|g| g.len()).sum();
    let after: usize = out.iter().map(|g| g.len()).sum();
    assert!(after <= before);
}

#[test]
fn refine_members_of_a_group_agree() {
    let groups = sample_groups();
    for group in refine(&groups, &mark_all(&groups)) {
        assert!(group.len() >= 2);
        let first = modulo_mark(&group[0]);
        assert!(first.is_some());
        assert!(group.iter().all(|m| modulo_mark(m) == first));
    }
}

#[test]
fn refine_keeps_a_member_exactly_when_another_shares_its_mark() {
    let groups = sample_groups();
    let out = refine(&groups, &mark_all(&groups));
    for group in &groups {
        for m in group {
            let shared = modulo_mark(m).is_some()
                && group.iter().any(|o| o.path != m.path && modulo_mark(o) == modulo_mark(m));
            let times = out.iter().filter(|g| g.contains(m)).count();
            assert_eq!(times, if shared { 1 } else { 0 });
        }
    }
}

#[test]
fn shapes() {
    let groups = vec![vec![file("/a", 1), file("/b", 1)], vec![]];
    assert!(shapes_match(&groups, &vec![vec![None, id(b"x")], vec![]]));
    assert!(!shapes_match(&groups, &vec![vec![None], vec![]]));
    assert!(!shapes_match(&groups, &vec![vec![None, None]]));
    assert!(!shapes_match(&groups, &vec![vec![None, None], vec![None]]));
    assert!(shapes_match(&vec![], &vec![]));
}

#[test]
fn search_starts_with_one_group_of_candidates() {
    let metas = vec![file("/a", 3), file("/e", 0), meta("/d", FileType::Directory, 9), file("/b", 3)];
    let search = Dups::new(&metas, 10, 20, false, false);
    assert_eq!(search.groups(), &vec![vec![file("/a", 3), file("/b", 3)]]);
    assert_eq!(search.pass(), Some(Pass::Size));
    let search = Dups::new(&vec![], 10, 20, false, false);
    assert_eq!(search.groups(), &vec![vec![]]);
}

#[test]
fn search_refuses_marks_of_the_wrong_shape() {
    let metas = vec![file("/a", 3), file("/b", 3)];
    let mut search = Dups::new(&metas, 10, 20, false, false);
    assert!(!search.advance(&vec![vec![id(b"x")]]));
    assert!(!search.advance(&vec![]));
    assert_eq!(search.pass(), Some(Pass::Size));
    assert_eq!(search.groups(), &vec![metas.clone()]);
    assert!(search.advance(&vec![vec![id(b"x"), id(b"x")]]));
    assert_eq!(search.pass(), Some(Pass::HeadSample(10)));
}

#[test]
fn search_runs_each_pass_once() {
    let metas = vec![file("/a", 3), file("/b", 3)];
    let mut search = Dups::new(&metas, 10, 20, true, false);
    let same = vec![vec![id(b"x"), id(b"x")]];
    let mut seen = Vec::new();
    while let Some(pass) = search.pass() {
        seen.push(pass);
        assert!(search.advance(&same));
    }
    assert_eq!(seen, groupers(10, 20, true, false));
    assert!(!search.advance(&same));
    assert_eq!(search.pass(), None);
    assert_eq!(search.finish(), vec![metas]);
}

#[test]
fn render_groups_with_line_feeds() {
    let groups = vec![
        vec![b"/r/foo_1".to_vec(), b"/r/foo_2".to_vec()],
        vec![b"/r/bar_1".to_vec(), b"/r/bar_2".to_vec()],
    ];
    assert_eq!(
        render(&groups, false),
        b"/r/foo_1\n/r/foo_2\n\n/r/bar_1\n/r/bar_2\n\n".to_vec()
    );
    assert_eq!(render(&vec![], false), Vec::<u8>::new());
}

#[test]
fn render_groups_with_zero_bytes() {
    let groups = vec![vec![b"a".to_vec(), b"b".to_vec()], vec![b"c".to_vec(), b"d".to_vec()]];
    assert_eq!(render(&groups, true), b"a\0b\0\0c\0d\0\0".to_vec());
}
