use fx::error::Error;
use fx::hash::{blake3, sha2_512, step, xxh, Algorithm, HashStep, ReadEvent, Stream};

fn hex(bytes: &[u8]) -> String {
    bytes.iter().map(|b| format!("{b:02x}")).collect()
}

fn chunks(parts: &[&[u8]]) -> Vec<Vec<u8>> {
    parts.iter().map(|p| p.to_vec()).collect()
}

fn more(step: HashStep) -> Stream {
    match step {
        HashStep::More(stream) => stream,
        _ => panic!("not more"),
    }
}

fn done(step: HashStep) -> Vec<u8> {
    match step {
        HashStep::Done(bytes) => bytes,
        _ => panic!("not done"),
    }
}

#[test]
fn digests_of_nothing() {
    assert_eq!(xxh(&vec![]), 0x2d06800538d394c2);
    assert_eq!(
        hex(&blake3(&vec![])),
        "af1349b9f5f9a1a6a0404dea36dcc9499bcb25c9adc112b7cc9a93cae41f3262"
    );
    assert_eq!(
        hex(&sha2_512(&vec![])),
        "cf83e1357eefb8bdf1542850d66d8007d620e4050b5715dc83f4a921d36ce9ce\
         47d0d13c5d85f2b0ff8318d2877eec2f63b931bd47417a81a538327af927da3e"
    );
}

#[test]
fn digests_of_abc() {
    assert_eq!(
        hex(&sha2_512(&chunks(&[b"abc"]))),
        "ddaf35a193617abacc417349ae20413112e6fa4e89a97ea20a9eeee64b55d39a\
         2192992a274fc1a836ba3c23a3feebbd454d4423643ce80e2a9ac94fa54ca49f"
    );
    assert_eq!(
        hex(&blake3(&chunks(&[b"abc"]))),
        "6437b3ac38465133ffb63b75273a8db548c558465d79db03fd359c6cd5bd9d85"
    );
    assert_eq!(xxh(&chunks(&[b"abc"])), twox_hash::XxHash3_64::oneshot(b"abc"));
    assert_ne!(xxh(&chunks(&[b"abc"])), xxh(&vec![]));
}

#[test]
fn digests_do_not_depend_on_how_the_content_is_cut() {
    let whole: Vec<u8> = (0..5000u32).map(|i| (i * 7 + i / 256) as u8).collect();
    let cuts: Vec<Vec<Vec<u8>>> = vec![
        vec![whole.clone()],
        whole.chunks(1).map(|c| c.to_vec()).collect(),
        whole.chunks(63).map(|c| c.to_vec()).collect(),
        whole.chunks(1024).map(|c| c.to_vec()).collect(),
        vec![vec![], whole[..17].to_vec(), vec![], whole[17..].to_vec(), vec![]],
    ];
    for cut in &cuts {
        assert_eq!(xxh(cut), twox_hash::XxHash3_64::oneshot(&whole));
        assert_eq!(blake3(cut), ::blake3::hash(&whole).as_bytes().to_vec());
        assert_eq!(sha2_512(cut), <sha2::Sha512 as sha2::Digest>::digest(&whole).to_vec());
    }
}

#[test]
fn digest_lengths() {
    assert_eq!(Stream::new(Algorithm::Xxh).finish().len(), 8);
    assert_eq!(Stream::new(Algorithm::Blake3).finish().len(), 32);
    assert_eq!(Stream::new(Algorithm::Sha512).finish().len(), 64);
}

#[test]
fn stream_digest_of_xxh_is_eight_bytes_lowest_first() {
    let expected = twox_hash::XxHash3_64::oneshot(b"hello world").to_le_bytes().to_vec();
    let stream = Stream::new(Algorithm::Xxh).update(b"hello ").update(b"world");
    assert_eq!(stream.finish(), expected);
    assert_eq!(Stream::new(Algorithm::Xxh).finish(), xxh(&vec![]).to_le_bytes().to_vec());
}

#[test]
fn stream_matches_the_one_piece_functions() {
    let parts = chunks(&[b"foo", b"", b"bar", b"baz\n"]);
    for (algorithm, expected) in [
        (Algorithm::Xxh, xxh(&parts).to_le_bytes().to_vec()),
        (Algorithm::Blake3, blake3(&parts)),
        (Algorithm::Sha512, sha2_512(&parts)),
    ] {
        let mut stream = Stream::new(algorithm);
        for part in &parts {
            stream = stream.update(part);
        }
        assert_eq!(stream.finish(), expected);
    }
}

#[test]
fn step_feeds_until_the_end() {
    for algorithm in [Algorithm::Xxh, Algorithm::Blake3, Algorithm::Sha512] {
        let s = Stream::new(algorithm);
        let s = more(step(s, ReadEvent::Data(b"foo".to_vec())));
        let s = more(step(s, ReadEvent::Interrupted));
        let s = more(step(s, ReadEvent::Data(b"\n".to_vec())));
        let by_eof = done(step(s, ReadEvent::Eof));

        let s = Stream::new(algorithm);
        let s = more(step(s, ReadEvent::Data(b"foo\n".to_vec())));
        let by_empty_read = done(step(s, ReadEvent::Data(vec![])));

        assert_eq!(by_eof, by_empty_read);
        assert_eq!(by_eof, Stream::new(algorithm).update(b"foo\n").finish());
        assert_ne!(by_eof, Stream::new(algorithm).finish());
    }
}

#[test]
fn step_on_an_empty_file() {
    assert_eq!(
        done(step(Stream::new(Algorithm::Xxh), ReadEvent::Eof)),
        0x2d06800538d394c2u64.to_le_bytes().to_vec()
    );
    assert_eq!(done(step(Stream::new(Algorithm::Blake3), ReadEvent::Data(vec![]))), blake3(&vec![]));
}

#[test]
fn step_failed_read_is_a_hash_error() {
    for algorithm in [Algorithm::Xxh, Algorithm::Blake3, Algorithm::Sha512] {
        let s = more(step(Stream::new(algorithm), ReadEvent::Data(b"x".to_vec())));
        assert!(matches!(step(s, ReadEvent::Failed), HashStep::Failed(Error::Hash)));
    }
}

#[test]
fn different_content_different_digest() {
    let a = chunks(&[b"foo\n"]);
    let b = chunks(&[b"bar\n"]);
    assert_ne!(xxh(&a), xxh(&b));
    assert_ne!(blake3(&a), blake3(&b));
    assert_ne!(sha2_512(&a), sha2_512(&b));
}
