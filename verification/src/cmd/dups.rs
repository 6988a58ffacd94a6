//! Duplicate detection: a set of files is split again and again, each time
//! by a costlier mark of their content, and only groups of two or more
//! survive a pass.

pub mod refiner;
pub mod sampler;

pub use refiner::{refine, refine_group};
pub use sampler::{read, read_head, read_mid, ReadPlan, ReadStep, Sample};

use vstd::prelude::*;
use vstd::bytes::{spec_u64_to_le_bytes, u64_to_le_bytes};
use crate::cmd::dups::refiner::{
    all_ids_view, apart, groups_view, holds_both, id_view, ids_view, in_no_group,
    lemma_outsider_in_no_group, lemma_told_apart_in_no_group, lemma_twins_in_one_group, marks,
    refined, refined_through, same_shape, Id,
};
use crate::cmd::dups::sampler::zeros;
use crate::hash::{digest, ReadEvent, Stream};
use crate::cmd::dups::sampler::sample_amount;
use crate::data::{metas_view, Meta, MetaView};
use crate::error::Error;
use crate::hash::Algorithm;
use crate::path::names;
use crate::vecs::extend;

verus! {

/// One stage of the pipeline: what is taken from a file to tell it from
/// others.
#[derive(Debug, Clone, Copy, PartialEq, Eq, Structural)]
pub enum Pass {
    /// The size, as eight bytes, lowest first. Needs no reading.
    Size,
    /// Bytes from the start of the file, at most this many.
    HeadSample(usize),
    /// Bytes from further in, at most this many.
    MidSample(usize),
    /// The 64-bit XXH3 digest of the content, read this many bytes at a time.
    Xxh(usize),
    /// The BLAKE3 digest of the content, read this many bytes at a time.
    Blake3(usize),
    /// The SHA-512 digest of the content, read this many bytes at a time.
    Sha512(usize),
}

/// The passes in the order in which they run: cheap ones first, the two
/// cryptographic digests last and only on request.
pub open spec fn pipeline(
    sample_size: usize,
    chunk_size: usize,
    enable_blake3_pass: bool,
    enable_sha2_512_pass: bool,
) -> Seq<Pass> {
    seq![
        Pass::Size,
        Pass::HeadSample(sample_size),
        Pass::MidSample(sample_size),
        Pass::Xxh(chunk_size),
    ] + if enable_blake3_pass {
        seq![Pass::Blake3(chunk_size)]
    } else {
        Seq::empty()
    } + if enable_sha2_512_pass {
        seq![Pass::Sha512(chunk_size)]
    } else {
        Seq::empty()
    }
}

/// Builds the pipeline of passes.
pub fn groupers(
    sample_size: usize,
    chunk_size: usize,
    enable_blake3_pass: bool,
    enable_sha2_512_pass: bool,
) -> (res: Vec<Pass>)
    ensures
        res@ == pipeline(sample_size, chunk_size, enable_blake3_pass, enable_sha2_512_pass),
{
    let mut groupers: Vec<Pass> = Vec::new();
    groupers.push(Pass::Size);
    groupers.push(Pass::HeadSample(sample_size));
    groupers.push(Pass::MidSample(sample_size));
    groupers.push(Pass::Xxh(chunk_size));
    if enable_blake3_pass {
        groupers.push(Pass::Blake3(chunk_size));
    }
    if enable_sha2_512_pass {
        groupers.push(Pass::Sha512(chunk_size));
    }
    assert(groupers@ =~= pipeline(
        sample_size,
        chunk_size,
        enable_blake3_pass,
        enable_sha2_512_pass,
    ));
    groupers
}

/// The sample of `amount` bytes that starts `offset` bytes into `content`:
/// what the content has there, and zeros where it has ended.
pub open spec fn sample_of(content: Seq<u8>, offset: int, amount: int) -> Seq<u8> {
    let rest = if 0 <= offset <= content.len() {
        content.skip(offset)
    } else {
        Seq::empty()
    };
    if rest.len() >= amount {
        rest.take(amount)
    } else {
        rest + zeros((amount - rest.len()) as nat)
    }
}

/// The mark that a pass gives to a file with this content, when all of it
/// can be read.
pub open spec fn content_mark(pass: Pass, content: Seq<u8>) -> Seq<u8> {
    let size = content.len() as int;
    match pass {
        Pass::Size => spec_u64_to_le_bytes(size as u64),
        Pass::HeadSample(sample_size) => sample_of(
            content,
            0,
            if size <= sample_size {
                size
            } else {
                sample_size as int
            },
        ),
        Pass::MidSample(sample_size) => sample_of(
            content,
            size / (sample_size as int) / 2,
            if size <= sample_size {
                size
            } else {
                sample_size as int
            },
        ),
        Pass::Xxh(_) => digest(Algorithm::Xxh, content),
        Pass::Blake3(_) => digest(Algorithm::Blake3, content),
        Pass::Sha512(_) => digest(Algorithm::Sha512, content),
    }
}

/// The marks of a run of passes over files whose content `bytes` tells, when
/// every read succeeds.
pub open spec fn marks_by_content(passes: Seq<Pass>, bytes: spec_fn(MetaView) -> Seq<u8>) -> Seq<
    spec_fn(MetaView) -> Id,
> {
    Seq::new(passes.len(), |k: int| |meta: MetaView| Some(content_mark(passes[k], bytes(meta))))
}

/// Duplicates are reported, once and together: when every file occurs once
/// and every read succeeds, a file whose content another file of its group
/// shares is, after any run of passes, a member of exactly one group, and
/// that other file is a member of the same group.
pub proof fn lemma_duplicates_reported(
    passes: Seq<Pass>,
    bytes: spec_fn(MetaView) -> Seq<u8>,
    groups: Seq<Seq<MetaView>>,
    g: int,
    file: MetaView,
    twin: MetaView,
)
    requires
        apart(groups),
        0 <= g < groups.len(),
        holds_both(groups[g], file, twin),
        file != twin,
        bytes(file) == bytes(twin),
    ensures
        exists|t: int|
            0 <= t < refined_through(marks_by_content(passes, bytes), groups).len() && holds_both(
                #[trigger] refined_through(marks_by_content(passes, bytes), groups)[t],
                file,
                twin,
            ) && forall|v: int|
                0 <= v < refined_through(marks_by_content(passes, bytes), groups).len() && (
                #[trigger] refined_through(marks_by_content(passes, bytes), groups)[v]).contains(
                    file,
                ) ==> v == t,
{
    lemma_twins_in_one_group(marks_by_content(passes, bytes), groups, g, file, twin);
}

/// What is no candidate is not reported: a file that is not regular, or is
/// empty, is a member of no group after any run that starts from the
/// candidates among `metas`.
pub proof fn lemma_only_candidates_reported(
    passes: Seq<spec_fn(MetaView) -> Id>,
    metas: Seq<MetaView>,
    file: MetaView,
)
    requires
        !is_candidate()(file),
    ensures
        in_no_group(refined_through(passes, seq![metas.filter(is_candidate())]), file),
{
    let start = seq![metas.filter(is_candidate())];
    assert forall|t: int| 0 <= t < start.len() implies !(#[trigger] start[t]).contains(file) by {
        if start[t].contains(file) {
            let kept = metas.filter(is_candidate());
            let a = choose|a: int| 0 <= a < kept.len() && kept[a] == file;
            metas.lemma_filter_pred(is_candidate(), a);
        }
    }
    lemma_outsider_in_no_group(passes, start, file);
}

/// A file with content of its own is not reported: when every file occurs
/// once and every read succeeds, a file whose mark under some pass of the
/// run differs from that of every other file is, after the run, a member
/// of no group.
pub proof fn lemma_unique_not_reported(
    passes: Seq<Pass>,
    bytes: spec_fn(MetaView) -> Seq<u8>,
    groups: Seq<Seq<MetaView>>,
    k: int,
    file: MetaView,
)
    requires
        apart(groups),
        0 <= k < passes.len(),
        forall|g: int, i: int|
            0 <= g < groups.len() && 0 <= i < groups[g].len() && #[trigger] groups[g][i] != file
                ==> content_mark(passes[k], bytes(groups[g][i])) != content_mark(
                passes[k],
                bytes(file),
            ),
    ensures
        in_no_group(refined_through(marks_by_content(passes, bytes), groups), file),
{
    lemma_told_apart_in_no_group(marks_by_content(passes, bytes), groups, k, file);
}

/// Reads a sample out of content held in memory, the way it is read from a
/// file: one read for what is there, and the end of the file after it.
fn sample_from(content: &[u8], offset: usize, amount: usize) -> (res: Vec<u8>)
    requires
        offset <= content@.len(),
    ensures
        res@ == sample_of(content@, offset as int, amount as int),
{
    let left = content.len() - offset;
    let n = if left < amount {
        left
    } else {
        amount
    };
    let ghost rest = content@.skip(offset as int);
    match Sample::start(amount) {
        ReadStep::More(sample) => {
            if n == 0 {
                match read(sample, ReadEvent::Eof) {
                    ReadStep::Done(buf) => {
                        assert(buf@ =~= rest + zeros(amount as nat));
                        buf
                    },
                    _ => Vec::new(),
                }
            } else {
                let data = vstd::slice::slice_to_vec(
                    vstd::slice::slice_subrange(content, offset, offset + n),
                );
                assert(data@ =~= rest.take(n as int));
                match read(sample, ReadEvent::Data(data)) {
                    ReadStep::Done(buf) => {
                        assert(buf@ =~= rest.take(amount as int));
                        buf
                    },
                    ReadStep::More(next) => {
                        assert(rest.take(n as int) =~= rest);
                        match read(next, ReadEvent::Eof) {
                            ReadStep::Done(buf) => {
                                assert(buf@ =~= rest + zeros((amount - n) as nat));
                                buf
                            },
                            _ => Vec::new(),
                        }
                    },
                    _ => Vec::new(),
                }
            }
        },
        ReadStep::Done(buf) => {
            assert(buf@ =~= rest.take(0));
            buf
        },
        _ => Vec::new(),
    }
}

/// The mark that a pass gives to content held in memory: what the reads and
/// digests of that pass come to when nothing fails.
pub fn mark_of(pass: Pass, content: &[u8]) -> (res: Vec<u8>)
    requires
        pass matches Pass::MidSample(sample_size) ==> sample_size > 0,
    ensures
        res@ == content_mark(pass, content@),
{
    let size = content.len();
    match pass {
        Pass::Size => u64_to_le_bytes(size as u64),
        Pass::HeadSample(sample_size) => sample_from(
            content,
            0,
            if size <= sample_size {
                size
            } else {
                sample_size
            },
        ),
        Pass::MidSample(sample_size) => sample_from(
            content,
            size / sample_size / 2,
            if size <= sample_size {
                size
            } else {
                sample_size
            },
        ),
        Pass::Xxh(_) => Stream::new(Algorithm::Xxh).update(content).finish(),
        Pass::Blake3(_) => Stream::new(Algorithm::Blake3).update(content).finish(),
        Pass::Sha512(_) => Stream::new(Algorithm::Sha512).update(content).finish(),
    }
}

/// What is to be done to have the mark of one file in one pass.
#[derive(Debug)]
pub enum Order {
    /// Nothing is to be read. This is the mark.
    Mark(Vec<u8>),
    /// The sample at this place is to be read. It is the mark.
    Sample(ReadPlan),
    /// The whole content is to be read, this many bytes at a time, and fed
    /// to this digest. The digest is the mark.
    Digest(Algorithm, usize),
}

/// Says what is to be done to have the mark of `meta` in `pass`: nothing for
/// the size, a planned read for a sample, a full read for a digest. A sample
/// of a file too large to be addressed on this machine cannot be planned.
pub fn order(pass: Pass, meta: &Meta) -> (res: Result<Order, Error>)
    requires
        pass matches Pass::MidSample(sample_size) ==> sample_size > 0,
    ensures
        match pass {
            Pass::Size => res matches Ok(Order::Mark(bytes)) && bytes@ == spec_u64_to_le_bytes(
                meta.size,
            ),
            Pass::HeadSample(sample_size) => {
                &&& res is Ok == (meta.size <= usize::MAX)
                &&& res matches Ok(made) ==> made matches Order::Sample(plan) && plan.offset == 0
                    && plan.amount == sample_amount(meta.size, sample_size)
                &&& res matches Err(e) ==> e == Error::Read
            },
            Pass::MidSample(sample_size) => {
                &&& res is Ok == (meta.size <= usize::MAX)
                &&& res matches Ok(made) ==> made matches Order::Sample(plan) && plan.offset
                    == meta.size / (sample_size as u64) / 2 && plan.amount == sample_amount(
                    meta.size,
                    sample_size,
                )
                &&& res matches Err(e) ==> e == Error::Read
            },
            Pass::Xxh(chunk_size) => res matches Ok(Order::Digest(algorithm, size)) && algorithm
                == Algorithm::Xxh && size == chunk_size,
            Pass::Blake3(chunk_size) => res matches Ok(Order::Digest(algorithm, size))
                && algorithm == Algorithm::Blake3 && size == chunk_size,
            Pass::Sha512(chunk_size) => res matches Ok(Order::Digest(algorithm, size))
                && algorithm == Algorithm::Sha512 && size == chunk_size,
        },
{
    match pass {
        Pass::Size => Ok(Order::Mark(u64_to_le_bytes(meta.size))),
        Pass::HeadSample(sample_size) => match read_head(meta, sample_size) {
            Ok(plan) => Ok(Order::Sample(plan)),
            Err(e) => Err(e),
        },
        Pass::MidSample(sample_size) => match read_mid(meta, sample_size) {
            Ok(plan) => Ok(Order::Sample(plan)),
            Err(e) => Err(e),
        },
        Pass::Xxh(chunk_size) => Ok(Order::Digest(Algorithm::Xxh, chunk_size)),
        Pass::Blake3(chunk_size) => Ok(Order::Digest(Algorithm::Blake3, chunk_size)),
        Pass::Sha512(chunk_size) => Ok(Order::Digest(Algorithm::Sha512, chunk_size)),
    }
}

/// The test for a file that can have a duplicate worth reporting: a regular
/// file that is not empty.
pub open spec fn is_candidate() -> spec_fn(MetaView) -> bool {
    |meta: MetaView| meta.typ is Regular && meta.size > 0
}

/// The regular files of positive size among `metas`, in order.
pub fn candidates(metas: &Vec<Meta>) -> (res: Vec<Meta>)
    ensures
        metas_view(res@) == metas_view(metas@).filter(is_candidate()),
{
    let ghost all = metas_view(metas@);
    let mut res: Vec<Meta> = Vec::new();
    let mut i: usize = 0;
    proof {
        reveal(Seq::filter);
        assert(metas_view(res@) =~= all.take(0).filter(is_candidate()));
    }
    while i < metas.len()
        invariant
            i <= metas.len(),
            all == metas_view(metas@),
            metas_view(res@) == all.take(i as int).filter(is_candidate()),
        decreases metas.len() - i,
    {
        let meta = &metas[i];
        let ghost r0 = res@;
        proof {
            assert(all.take(i + 1) =~= all.take(i as int).push(meta@));
            all.take(i as int).lemma_filter_push(meta@, is_candidate());
        }
        if meta.is_regular_file() && meta.size > 0 {
            res.push(meta.clone());
            assert(metas_view(res@) =~= metas_view(r0).push(meta@));
        }
        i += 1;
    }
    assert(all.take(metas.len() as int) =~= all);
    res
}

/// The mark of the first pass: the size of the file as eight bytes, lowest
/// first.
pub open spec fn size_mark() -> spec_fn(MetaView) -> Id {
    |meta: MetaView| Some(spec_u64_to_le_bytes(meta.size))
}

/// The marks of the first pass for every member of every group.
pub fn size_marks(groups: &Vec<Vec<Meta>>) -> (res: Vec<Vec<Option<Vec<u8>>>>)
    ensures
        same_shape(groups_view(groups@), all_ids_view(res@)),
        all_ids_view(res@) == marks(size_mark(), groups_view(groups@)),
{
    let mut res: Vec<Vec<Option<Vec<u8>>>> = Vec::new();
    let mut g: usize = 0;
    while g < groups.len()
        invariant
            g <= groups.len(),
            res@.len() == g,
            forall|k: int|
                0 <= k < g ==> ids_view((#[trigger] res@[k])@) == metas_view(
                    groups@[k]@,
                ).map_values(size_mark()),
        decreases groups.len() - g,
    {
        let group = &groups[g];
        let mut ids: Vec<Option<Vec<u8>>> = Vec::new();
        let mut i: usize = 0;
        while i < group.len()
            invariant
                i <= group.len(),
                ids@.len() == i,
                forall|k: int|
                    0 <= k < i ==> id_view(#[trigger] ids@[k]) == Some(
                        spec_u64_to_le_bytes(group@[k].size),
                    ),
            decreases group.len() - i,
        {
            ids.push(Some(u64_to_le_bytes(group[i].size)));
            i += 1;
        }
        assert(ids_view(ids@) =~= metas_view(group@).map_values(size_mark()));
        res.push(ids);
        g += 1;
    }
    proof {
        assert(all_ids_view(res@) =~= marks(size_mark(), groups_view(groups@)));
    }
    res
}

/// Whether there is one list of marks for each group and one entry in it
/// for each member.
pub fn shapes_match(groups: &Vec<Vec<Meta>>, marks: &Vec<Vec<Option<Vec<u8>>>>) -> (res: bool)
    ensures
        res == same_shape(groups_view(groups@), all_ids_view(marks@)),
{
    if groups.len() != marks.len() {
        return false;
    }
    let mut g: usize = 0;
    while g < groups.len()
        invariant
            g <= groups.len() == marks.len(),
            forall|k: int| 0 <= k < g ==> (#[trigger] groups@[k])@.len() == marks@[k]@.len(),
        decreases groups.len() - g,
    {
        if groups[g].len() != marks[g].len() {
            assert(groups_view(groups@)[g as int].len() != all_ids_view(marks@)[g as int].len());
            return false;
        }
        g += 1;
    }
    assert forall|k: int| 0 <= k < groups_view(groups@).len() implies (#[trigger] groups_view(
        groups@,
    )[k]).len() == all_ids_view(marks@)[k].len() by {
        assert(groups@[k]@.len() == marks@[k]@.len());
    }
    true
}

/// A search for duplicates in progress: the groups as the passes run so far
/// left them, and the passes still to run.
///
/// The caller does the reading. It asks which pass is next, computes the
/// marks of that pass for the members of the current groups, and hands them
/// in with [`Dups::advance`]. Files that an early pass has set apart are
/// never read by a later one.
#[derive(Debug)]
pub struct Dups {
    groups: Vec<Vec<Meta>>,
    passes: Vec<Pass>,
    done: usize,
}

/// The mathematical value of a [`Dups`].
pub struct DupsView {
    pub groups: Seq<Seq<MetaView>>,
    pub passes: Seq<Pass>,
    /// How many of the passes have run.
    pub done: nat,
}

impl View for Dups {
    type V = DupsView;

    closed spec fn view(&self) -> DupsView {
        DupsView { groups: groups_view(self.groups@), passes: self.passes@, done: self.done as nat }
    }
}

impl Dups {
    /// No more passes have run than there are.
    #[verifier::type_invariant]
    pub open spec fn inv(self) -> bool {
        self@.done <= self@.passes.len()
    }

    /// Starts a search among `metas`. Its one group holds the regular files
    /// of positive size; all passes are still to run.
    pub fn new(
        metas: &Vec<Meta>,
        sample_size: usize,
        chunk_size: usize,
        enable_blake3_pass: bool,
        enable_sha2_512_pass: bool,
    ) -> (res: Dups)
        ensures
            res@.groups == seq![metas_view(metas@).filter(is_candidate())],
            res@.passes == pipeline(
                sample_size,
                chunk_size,
                enable_blake3_pass,
                enable_sha2_512_pass,
            ),
            res@.done == 0,
    {
        let mut groups: Vec<Vec<Meta>> = Vec::new();
        groups.push(candidates(metas));
        assert(groups_view(groups@) =~= seq![metas_view(metas@).filter(is_candidate())]);
        let passes = groupers(sample_size, chunk_size, enable_blake3_pass, enable_sha2_512_pass);
        Dups { groups, passes, done: 0 }
    }

    /// The pass to run next, if any is left.
    pub fn pass(&self) -> (res: Option<Pass>)
        ensures
            res == if self@.done < self@.passes.len() {
                Some(self@.passes[self@.done as int])
            } else {
                None
            },
    {
        if self.done < self.passes.len() {
            Some(self.passes[self.done])
        } else {
            None
        }
    }

    /// The groups as they stand.
    pub fn groups(&self) -> (res: &Vec<Vec<Meta>>)
        ensures
            groups_view(res@) == self@.groups,
    {
        &self.groups
    }

    /// Runs the next pass with the marks computed for it. Nothing happens,
    /// and `false` comes back, when no pass is left or when `marks` does not
    /// have one entry for each member of each group.
    pub fn advance(&mut self, marks: &Vec<Vec<Option<Vec<u8>>>>) -> (res: bool)
        ensures
            res == (old(self)@.done < old(self)@.passes.len() && same_shape(
                old(self)@.groups,
                all_ids_view(marks@),
            )),
            !res ==> final(self)@ == old(self)@,
            res ==> final(self)@ == (DupsView {
                groups: refined(old(self)@.groups, all_ids_view(marks@)),
                passes: old(self)@.passes,
                done: old(self)@.done + 1,
            }),
    {
        if self.done >= self.passes.len() || !shapes_match(&self.groups, marks) {
            return false;
        }
        let next = refine(&self.groups, marks);
        self.groups = next;
        self.done = self.done + 1;
        true
    }

    /// Ends the search and hands out the groups as they stand.
    pub fn finish(self) -> (res: Vec<Vec<Meta>>)
        ensures
            groups_view(res@) == self@.groups,
    {
        self.groups
    }
}

/// The byte that ends a record: a line feed, or a zero byte on request.
pub open spec fn separator(null_line_sep: bool) -> u8 {
    if null_line_sep {
        0u8
    } else {
        10u8
    }
}

/// The records of one group, each followed by `sep`.
pub open spec fn rendered_lines(lines: Seq<Seq<u8>>, sep: u8) -> Seq<u8>
    decreases lines.len(),
{
    if lines.len() == 0 {
        Seq::empty()
    } else {
        rendered_lines(lines.drop_last(), sep) + lines.last() + seq![sep]
    }
}

/// The report of a list of groups: the records of each group, and one more
/// `sep` after each group.
pub open spec fn rendered_groups(groups: Seq<Seq<Seq<u8>>>, sep: u8) -> Seq<u8>
    decreases groups.len(),
{
    if groups.len() == 0 {
        Seq::empty()
    } else {
        rendered_groups(groups.drop_last(), sep) + rendered_lines(groups.last(), sep) + seq![sep]
    }
}

/// The values of the records of a list of groups.
pub open spec fn texts_view(groups: Seq<Vec<Vec<u8>>>) -> Seq<Seq<Seq<u8>>> {
    groups.map_values(|group: Vec<Vec<u8>>| names(group@))
}

/// The report of the groups found. Each member's path, written out
/// beforehand by the caller, is one record; after the last record of each
/// group an empty record follows. Records end in a line feed, or in a zero
/// byte if `null_line_sep` is set.
pub fn render(groups: &Vec<Vec<Vec<u8>>>, null_line_sep: bool) -> (res: Vec<u8>)
    ensures
        res@ == rendered_groups(texts_view(groups@), separator(null_line_sep)),
{
    let sep: u8 = if null_line_sep {
        0u8
    } else {
        10u8
    };
    let ghost all = texts_view(groups@);
    let mut out: Vec<u8> = Vec::new();
    let mut g: usize = 0;
    assert(out@ =~= rendered_groups(all.take(0), sep));
    while g < groups.len()
        invariant
            g <= groups.len(),
            all == texts_view(groups@),
            out@ == rendered_groups(all.take(g as int), sep),
        decreases groups.len() - g,
    {
        let group = &groups[g];
        let ghost lines = names(group@);
        let ghost start = out@;
        let mut i: usize = 0;
        assert(out@ =~= start + rendered_lines(lines.take(0), sep));
        while i < group.len()
            invariant
                i <= group.len(),
                lines == names(group@),
                out@ == start + rendered_lines(lines.take(i as int), sep),
            decreases group.len() - i,
        {
            extend(&mut out, group[i].as_slice());
            out.push(sep);
            proof {
                assert(lines.take(i + 1).drop_last() =~= lines.take(i as int));
                assert(lines.take(i + 1).last() == group@[i as int]@);
                assert(out@ =~= start + rendered_lines(lines.take(i + 1), sep));
            }
            i += 1;
        }
        out.push(sep);
        proof {
            assert(lines.take(group.len() as int) =~= lines);
            assert(all.take(g + 1).drop_last() =~= all.take(g as int));
            assert(all.take(g + 1).last() == lines);
            assert(out@ =~= rendered_groups(all.take(g + 1), sep));
        }
        g += 1;
    }
    assert(all.take(groups.len() as int) =~= all);
    out
}

} // verus!
