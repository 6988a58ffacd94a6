//! Digests of file content, fed piece by piece.
//!
//! The digests themselves are computed by the crates `twox_hash`, `blake3`
//! and `sha2`. What is stated of them here is taken on trust: a state
//! remembers what was fed to it, in order, and the digest of a state is the
//! digest of those bytes taken as one piece. A state can only be made here,
//! plain: without seed, secret, key or offset.

use vstd::prelude::*;
use vstd::bytes::{spec_u64_to_le_bytes, u64_to_le_bytes};
use crate::error::Error;
use crate::path::names;

verus! {

/// The XXH3 state of the crate `twox_hash`, taken as it is.
#[verifier::external_type_specification]
#[verifier::external_body]
pub struct ExXxHash3(twox_hash::XxHash3_64);

/// The state of the crate `blake3`, taken as it is.
#[verifier::external_type_specification]
#[verifier::external_body]
pub struct ExBlake3(::blake3::Hasher);

/// An XXH3 state that was made with the default seed and secret. Only this
/// module can make or reach into one.
pub struct XxhState {
    inner: twox_hash::XxHash3_64,
}

/// A BLAKE3 state that was made for the plain hash function: no key, no
/// context, no offset. Only this module can make or reach into one.
pub struct Blake3State {
    inner: ::blake3::Hasher,
}

/// A SHA-512 state of the crate `sha2`. Its type is an instance of several
/// generic types of that crate and of others, so it is kept behind this
/// one, closed.
#[verifier::external_body]
pub struct Sha512State {
    inner: sha2::Sha512,
}

/// The 64-bit XXH3 digest of `data`, with the default seed and secret.
pub uninterp spec fn xxh3_64(data: Seq<u8>) -> u64;

/// The bytes written to an XXH3 state since it was made.
pub uninterp spec fn xxh3_written(state: XxhState) -> Seq<u8>;

/// The BLAKE3 digest of `data`: 32 bytes.
pub uninterp spec fn blake3_hash(data: Seq<u8>) -> Seq<u8>;

/// The bytes fed to a BLAKE3 state since it was made.
pub uninterp spec fn blake3_fed(state: Blake3State) -> Seq<u8>;

/// The SHA-512 digest of `data`: 64 bytes.
pub uninterp spec fn sha512_hash(data: Seq<u8>) -> Seq<u8>;

/// The bytes fed to a SHA-512 state since it was made.
pub uninterp spec fn sha512_fed(state: Sha512State) -> Seq<u8>;

/// `twox_hash::XxHash3_64::new`: a state with the default seed and secret,
/// to which nothing was written.
#[verifier::external_body]
fn xxh3_new() -> (res: XxhState)
    ensures
        xxh3_written(res).len() == 0,
{
    XxhState { inner: twox_hash::XxHash3_64::new() }
}

/// `write` of `std::hash::Hasher` for `twox_hash::XxHash3_64`: the bytes of
/// `chunk` are written after those written before.
#[verifier::external_body]
fn xxh3_write(state: &mut XxhState, chunk: &[u8])
    ensures
        xxh3_written(*final(state)) == xxh3_written(*old(state)) + chunk@,
{
    std::hash::Hasher::write(&mut state.inner, chunk)
}

/// `finish` of `std::hash::Hasher` for `twox_hash::XxHash3_64`: the digest
/// of all bytes written, as if they had been hashed in one piece.
#[verifier::external_body]
fn xxh3_finish(state: &XxhState) -> (res: u64)
    ensures
        res == xxh3_64(xxh3_written(*state)),
{
    std::hash::Hasher::finish(&state.inner)
}

/// `blake3::Hasher::new`: a state for the plain hash function, to which
/// nothing was fed.
#[verifier::external_body]
fn blake3_new() -> (res: Blake3State)
    ensures
        blake3_fed(res).len() == 0,
{
    Blake3State { inner: ::blake3::Hasher::new() }
}

/// `blake3::Hasher::update`: the bytes of `chunk` are fed after those fed
/// before.
#[verifier::external_body]
fn blake3_update(state: &mut Blake3State, chunk: &[u8])
    ensures
        blake3_fed(*final(state)) == blake3_fed(*old(state)) + chunk@,
{
    state.inner.update(chunk);
}

/// `blake3::Hasher::finalize`: the digest of all bytes fed, as if they had
/// been hashed in one piece, as its 32 bytes.
#[verifier::external_body]
fn blake3_finalize(state: &Blake3State) -> (res: Vec<u8>)
    ensures
        res@ == blake3_hash(blake3_fed(*state)),
        res@.len() == 32,
{
    state.inner.finalize().as_bytes().to_vec()
}

/// `new` of `sha2::Digest` for `sha2::Sha512`: a state to which nothing was
/// fed.
#[verifier::external_body]
fn sha512_new() -> (res: Sha512State)
    ensures
        sha512_fed(res).len() == 0,
{
    Sha512State { inner: sha2::Digest::new() }
}

/// `update` of `sha2::Digest` for `sha2::Sha512`: the bytes of `chunk` are
/// fed after those fed before.
#[verifier::external_body]
fn sha512_update(state: &mut Sha512State, chunk: &[u8])
    ensures
        sha512_fed(*final(state)) == sha512_fed(*old(state)) + chunk@,
{
    sha2::Digest::update(&mut state.inner, chunk);
}

/// `finalize` of `sha2::Digest` for `sha2::Sha512`: the digest of all bytes
/// fed, as if they had been hashed in one piece, as its 64 bytes.
#[verifier::external_body]
fn sha512_finalize(state: Sha512State) -> (res: Vec<u8>)
    ensures
        res@ == sha512_hash(sha512_fed(state)),
        res@.len() == 64,
{
    sha2::Digest::finalize(state.inner).to_vec()
}

/// The digests on offer.
#[derive(Debug, Clone, Copy, PartialEq, Eq, Structural)]
pub enum Algorithm {
    /// XXH3 with 64 bits. Fast, and no defence against forgery.
    Xxh,
    Blake3,
    Sha512,
}

/// The digest of `data` as bytes. The 64 bits of XXH3 come as eight bytes,
/// lowest first.
pub open spec fn digest(algorithm: Algorithm, data: Seq<u8>) -> Seq<u8> {
    match algorithm {
        Algorithm::Xxh => spec_u64_to_le_bytes(xxh3_64(data)),
        Algorithm::Blake3 => blake3_hash(data),
        Algorithm::Sha512 => sha512_hash(data),
    }
}

/// How many bytes a digest has.
pub open spec fn digest_len(algorithm: Algorithm) -> nat {
    match algorithm {
        Algorithm::Xxh => 8,
        Algorithm::Blake3 => 32,
        Algorithm::Sha512 => 64,
    }
}

/// The pieces put together in order.
pub open spec fn concat(chunks: Seq<Seq<u8>>) -> Seq<u8>
    decreases chunks.len(),
{
    if chunks.len() == 0 {
        Seq::empty()
    } else {
        concat(chunks.drop_last()) + chunks.last()
    }
}

/// A digest in the making.
pub enum Stream {
    Xxh(XxhState),
    Blake3(Blake3State),
    Sha512(Sha512State),
}

/// What one attempt to read gave.
#[derive(Debug)]
pub enum ReadEvent {
    /// These bytes were read.
    Data(Vec<u8>),
    /// The file has ended.
    Eof,
    /// The attempt was interrupted before anything was read.
    Interrupted,
    /// The attempt failed for good.
    Failed,
}

/// What comes after one attempt to read.
pub enum HashStep {
    /// More is wanted: read again.
    More(Stream),
    /// The content has ended. This is its digest.
    Done(Vec<u8>),
    /// The digest cannot be had.
    Failed(Error),
}

impl Stream {
    /// Which digest this is.
    pub open spec fn algorithm(self) -> Algorithm {
        match self {
            Stream::Xxh(_) => Algorithm::Xxh,
            Stream::Blake3(_) => Algorithm::Blake3,
            Stream::Sha512(_) => Algorithm::Sha512,
        }
    }

    /// The bytes fed so far.
    pub open spec fn fed(self) -> Seq<u8> {
        match self {
            Stream::Xxh(state) => xxh3_written(state),
            Stream::Blake3(state) => blake3_fed(state),
            Stream::Sha512(state) => sha512_fed(state),
        }
    }

    /// Starts a digest. Nothing is fed yet.
    pub fn new(algorithm: Algorithm) -> (res: Stream)
        ensures
            res.algorithm() == algorithm,
            res.fed() == Seq::<u8>::empty(),
    {
        let res = match algorithm {
            Algorithm::Xxh => Stream::Xxh(xxh3_new()),
            Algorithm::Blake3 => Stream::Blake3(blake3_new()),
            Algorithm::Sha512 => Stream::Sha512(sha512_new()),
        };
        assert(res.fed() =~= Seq::<u8>::empty());
        res
    }

    /// Feeds `chunk` after what was fed before.
    pub fn update(self, chunk: &[u8]) -> (res: Stream)
        ensures
            res.algorithm() == self.algorithm(),
            res.fed() == self.fed() + chunk@,
    {
        match self {
            Stream::Xxh(state) => {
                let mut state = state;
                xxh3_write(&mut state, chunk);
                Stream::Xxh(state)
            },
            Stream::Blake3(state) => {
                let mut state = state;
                blake3_update(&mut state, chunk);
                Stream::Blake3(state)
            },
            Stream::Sha512(state) => {
                let mut state = state;
                sha512_update(&mut state, chunk);
                Stream::Sha512(state)
            },
        }
    }

    /// The digest of all that was fed.
    pub fn finish(self) -> (res: Vec<u8>)
        ensures
            res@ == digest(self.algorithm(), self.fed()),
            res@.len() == digest_len(self.algorithm()),
    {
        match self {
            Stream::Xxh(state) => u64_to_le_bytes(xxh3_finish(&state)),
            Stream::Blake3(state) => blake3_finalize(&state),
            Stream::Sha512(state) => sha512_finalize(state),
        }
    }
}

/// Takes in what one read gave and says what comes next. Bytes that were
/// read are fed to the digest. The end of the file, or a read that gave no
/// bytes, completes the digest. An interrupted read is tried again. Any
/// other failure ends the digest.
pub fn step(hasher: Stream, event: ReadEvent) -> (res: HashStep)
    ensures
        match event {
            ReadEvent::Data(data) => if data@.len() == 0 {
                res matches HashStep::Done(bytes) && bytes@ == digest(
                    hasher.algorithm(),
                    hasher.fed(),
                ) && bytes@.len() == digest_len(hasher.algorithm())
            } else {
                res matches HashStep::More(next) && next.algorithm() == hasher.algorithm()
                    && next.fed() == hasher.fed() + data@
            },
            ReadEvent::Eof => res matches HashStep::Done(bytes) && bytes@ == digest(
                hasher.algorithm(),
                hasher.fed(),
            ) && bytes@.len() == digest_len(hasher.algorithm()),
            ReadEvent::Interrupted => res matches HashStep::More(next) && next == hasher,
            ReadEvent::Failed => res matches HashStep::Failed(e) && e == Error::Hash,
        },
{
    match event {
        ReadEvent::Data(data) => {
            if data.len() == 0 {
                HashStep::Done(hasher.finish())
            } else {
                HashStep::More(hasher.update(data.as_slice()))
            }
        },
        ReadEvent::Eof => HashStep::Done(hasher.finish()),
        ReadEvent::Interrupted => HashStep::More(hasher),
        ReadEvent::Failed => HashStep::Failed(Error::Hash),
    }
}

/// Feeds all of `chunks`, in order.
fn feed(hasher: Stream, chunks: &Vec<Vec<u8>>) -> (res: Stream)
    ensures
        res.algorithm() == hasher.algorithm(),
        res.fed() == hasher.fed() + concat(names(chunks@)),
{
    let ghost all = names(chunks@);
    let ghost start = hasher.fed();
    let ghost algorithm = hasher.algorithm();
    let mut hasher = hasher;
    let mut i: usize = 0;
    assert(start =~= start + concat(all.take(0)));
    while i < chunks.len()
        invariant
            i <= chunks.len(),
            all == names(chunks@),
            hasher.algorithm() == algorithm,
            hasher.fed() == start + concat(all.take(i as int)),
        decreases chunks.len() - i,
    {
        hasher = hasher.update(chunks[i].as_slice());
        proof {
            assert(all.take(i + 1).drop_last() =~= all.take(i as int));
            assert(all.take(i + 1).last() == chunks@[i as int]@);
            assert(hasher.fed() =~= start + concat(all.take(i + 1)));
        }
        i += 1;
    }
    assert(all.take(chunks.len() as int) =~= all);
    hasher
}

/// The 64-bit XXH3 digest of content that comes in pieces.
pub fn xxh(chunks: &Vec<Vec<u8>>) -> (res: u64)
    ensures
        res == xxh3_64(concat(names(chunks@))),
{
    let mut state = xxh3_new();
    let ghost all = names(chunks@);
    let mut i: usize = 0;
    assert(xxh3_written(state) =~= concat(all.take(0)));
    while i < chunks.len()
        invariant
            i <= chunks.len(),
            all == names(chunks@),
            xxh3_written(state) == concat(all.take(i as int)),
        decreases chunks.len() - i,
    {
        xxh3_write(&mut state, chunks[i].as_slice());
        proof {
            assert(all.take(i + 1).drop_last() =~= all.take(i as int));
            assert(all.take(i + 1).last() == chunks@[i as int]@);
        }
        i += 1;
    }
    assert(all.take(chunks.len() as int) =~= all);
    xxh3_finish(&state)
}

/// The BLAKE3 digest of content that comes in pieces.
pub fn blake3(chunks: &Vec<Vec<u8>>) -> (res: Vec<u8>)
    ensures
        res@ == blake3_hash(concat(names(chunks@))),
        res@.len() == 32,
{
    let hasher = feed(Stream::new(Algorithm::Blake3), chunks);
    assert(hasher.fed() =~= concat(names(chunks@)));
    hasher.finish()
}

/// The SHA-512 digest of content that comes in pieces.
pub fn sha2_512(chunks: &Vec<Vec<u8>>) -> (res: Vec<u8>)
    ensures
        res@ == sha512_hash(concat(names(chunks@))),
        res@.len() == 64,
{
    let hasher = feed(Stream::new(Algorithm::Sha512), chunks);
    assert(hasher.fed() =~= concat(names(chunks@)));
    hasher.finish()
}

} // verus!
