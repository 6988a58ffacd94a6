use fx::keys::{fingerprint_of, Keys, PathSet};
use fx::path::Path;

fn p(text: &str) -> Path {
    Path::parse(text.as_bytes())
}

#[test]
fn fingerprints() {
    // FNV-1a, 64 bits.
    assert_eq!(fingerprint_of(b""), 0xcbf2_9ce4_8422_2325);
    assert_eq!(fingerprint_of(b"a"), 0xaf63_dc4c_8601_ec8c);
    assert_eq!(fingerprint_of(b"foobar"), 0x8594_4171_f739_67e8);
    assert_eq!(fingerprint_of(b"abc"), fingerprint_of(b"abc"));
    assert_ne!(fingerprint_of(b"abc"), fingerprint_of(b"abd"));
    assert_ne!(fingerprint_of(b"\0"), fingerprint_of(b""));
}

#[test]
fn empty_list_finds_nothing() {
    let keys = Keys::new();
    assert_eq!(keys.len(), 0);
    assert_eq!(keys.find(b""), None);
    assert_eq!(keys.find(b"x"), None);
}

#[test]
fn find_gives_the_place() {
    let keys = Keys::new().push(b"x".to_vec()).push(b"".to_vec()).push(b"xy".to_vec());
    assert_eq!(keys.len(), 3);
    assert_eq!(keys.find(b"x"), Some(0));
    assert_eq!(keys.find(b""), Some(1));
    assert_eq!(keys.find(b"xy"), Some(2));
    assert_eq!(keys.find(b"y"), None);
    assert_eq!(keys.find(b"xyz"), None);
}

#[test]
fn many_keys() {
    let mut keys = Keys::new();
    for i in 0..2000u64 {
        keys = keys.push(i.to_le_bytes().to_vec());
    }
    assert_eq!(keys.len(), 2000);
    for i in 0..2000u64 {
        assert_eq!(keys.find(&i.to_le_bytes()), Some(i as usize));
    }
    assert_eq!(keys.find(&2000u64.to_le_bytes()), None);
}

#[test]
fn a_key_pushed_twice_is_found_once() {
    let keys = Keys::new().push(b"a".to_vec()).push(b"b".to_vec()).push(b"a".to_vec());
    assert_eq!(keys.len(), 3);
    let place = keys.find(b"a").unwrap();
    assert!(place == 0 || place == 2);
}

#[test]
fn from_vec_keeps_the_order() {
    let keys = Keys::from_vec(vec![b"b".to_vec(), b"a".to_vec(), b"c".to_vec()]);
    assert_eq!(keys.len(), 3);
    assert_eq!(keys.find(b"b"), Some(0));
    assert_eq!(keys.find(b"a"), Some(1));
    assert_eq!(keys.find(b"c"), Some(2));
    assert_eq!(keys.find(b"d"), None);
    assert_eq!(Keys::from_vec(vec![]).len(), 0);
}

#[test]
fn path_set_holds_each_path_once() {
    let set = PathSet::new();
    assert_eq!(set.len(), 0);
    assert!(!set.contains(&p("/a")));
    let set = set.insert(&p("/a")).insert(&p("/b")).insert(&p("/a//")).insert(&p("a"));
    assert_eq!(set.len(), 3);
    assert!(set.contains(&p("/a")));
    assert!(set.contains(&p("/b/")));
    assert!(set.contains(&p("a")));
    assert!(!set.contains(&p("b")));
    assert!(!set.contains(&p("/a/b")));
    assert_eq!(set.into_vec(), vec![p("/a"), p("/b"), p("a")]);
}
