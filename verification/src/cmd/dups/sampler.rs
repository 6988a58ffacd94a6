//! Samples: a bounded piece of a file's content, read in as many reads as
//! it takes.

use vstd::prelude::*;
use crate::data::Meta;
use crate::error::Error;
use crate::hash::ReadEvent;

verus! {

/// Where to read a sample and how much of it.
#[derive(Debug, Clone, Copy, PartialEq, Eq, Structural)]
pub struct ReadPlan {
    /// How far from the start of the file the sample begins.
    pub offset: u64,
    /// How many bytes the sample has.
    pub amount: usize,
}

/// The smaller of a file size and a sample size.
pub open spec fn sample_amount(size: u64, sample_size: usize) -> int {
    if size <= sample_size {
        size as int
    } else {
        sample_size as int
    }
}

/// The plan for a sample from the head of a file: from the very start, the
/// whole file or `sample_size` bytes, whichever is less. A file too large to
/// be addressed on this machine has no plan.
pub fn read_head(meta: &Meta, sample_size: usize) -> (res: Result<ReadPlan, Error>)
    ensures
        res is Ok == (meta.size <= usize::MAX),
        res matches Ok(plan) ==> plan.offset == 0 && plan.amount == sample_amount(
            meta.size,
            sample_size,
        ),
        res matches Err(e) ==> e == Error::Read,
{
    if meta.size > usize::MAX as u64 {
        return Err(Error::Read);
    }
    let total = meta.size as usize;
    let amount = if total < sample_size {
        total
    } else {
        sample_size
    };
    Ok(ReadPlan { offset: 0, amount })
}

/// The plan for a sample from further into a file: the whole file or
/// `sample_size` bytes, whichever is less, starting at half of how many
/// times the sample size goes into the file size. For a file of less than
/// two samples that is the start of the file.
pub fn read_mid(meta: &Meta, sample_size: usize) -> (res: Result<ReadPlan, Error>)
    requires
        sample_size > 0,
    ensures
        res is Ok == (meta.size <= usize::MAX),
        res matches Ok(plan) ==> plan.offset == meta.size / (sample_size as u64) / 2 && plan.amount
            == sample_amount(meta.size, sample_size),
        res matches Err(e) ==> e == Error::Read,
{
    let offset = meta.size / (sample_size as u64) / 2;
    if meta.size > usize::MAX as u64 {
        return Err(Error::Read);
    }
    let total = meta.size as usize;
    let amount = if total < sample_size {
        total
    } else {
        sample_size
    };
    Ok(ReadPlan { offset, amount })
}

/// `n` zero bytes.
pub open spec fn zeros(n: nat) -> Seq<u8> {
    Seq::new(n, |i: int| 0u8)
}

/// A sample that is being read: a buffer of the planned size, filled from
/// the front, zero where nothing was read yet.
#[derive(Debug)]
pub struct Sample {
    buf: Vec<u8>,
    filled: usize,
}

/// The mathematical value of a [`Sample`].
pub struct SampleView {
    pub buf: Seq<u8>,
    pub filled: nat,
}

impl View for Sample {
    type V = SampleView;

    closed spec fn view(&self) -> SampleView {
        SampleView { buf: self.buf@, filled: self.filled as nat }
    }
}

impl SampleView {
    /// The read part ends inside the buffer, room is left, and what follows
    /// the read part is zero.
    pub open spec fn wf(self) -> bool {
        &&& self.filled < self.buf.len()
        &&& forall|i: int| self.filled <= i < self.buf.len() ==> self.buf[i] == 0
    }

    /// How many bytes are still to be read.
    pub open spec fn wanted(self) -> nat {
        (self.buf.len() - self.filled) as nat
    }

    /// How many of `data` fit.
    pub open spec fn taken(self, data: Seq<u8>) -> nat {
        if data.len() <= self.wanted() {
            data.len()
        } else {
            self.wanted()
        }
    }

    /// The sample after `data` was read: it goes where the read part ended,
    /// cut off at the end of the buffer.
    pub open spec fn accept(self, data: Seq<u8>) -> SampleView {
        let n = self.taken(data);
        SampleView {
            buf: self.buf.take(self.filled as int) + data.take(n as int) + zeros(
                (self.wanted() - n) as nat,
            ),
            filled: self.filled + n,
        }
    }
}

/// What comes after one attempt to read.
#[derive(Debug)]
pub enum ReadStep {
    /// More is wanted: read again, up to as many bytes as the sample lacks.
    More(Sample),
    /// The sample is ready. It has the planned length whatever was read.
    Done(Vec<u8>),
    /// The sample cannot be had.
    Failed(Error),
}

impl Sample {
    /// A sample in the making always lacks something.
    #[verifier::type_invariant]
    pub open spec fn inv(self) -> bool {
        self@.wf()
    }

    /// Starts a sample of `amount` bytes. A sample of nothing is ready at
    /// once, without a read.
    pub fn start(amount: usize) -> (res: ReadStep)
        ensures
            amount == 0 ==> (res matches ReadStep::Done(buf) && buf@.len() == 0),
            amount > 0 ==> (res matches ReadStep::More(sample) && sample@ == (SampleView {
                buf: zeros(amount as nat),
                filled: 0,
            })),
    {
        let mut buf: Vec<u8> = Vec::new();
        let mut i: usize = 0;
        while i < amount
            invariant
                i <= amount,
                buf@ == zeros(i as nat),
            decreases amount - i,
        {
            buf.push(0u8);
            assert(buf@ =~= zeros((i + 1) as nat));
            i += 1;
        }
        if amount == 0 {
            ReadStep::Done(buf)
        } else {
            ReadStep::More(Sample { buf, filled: 0 })
        }
    }

    /// How many bytes to ask for in the next read.
    pub fn wanted(&self) -> (res: usize)
        ensures
            res == self@.wanted(),
            res > 0,
    {
        proof {
            use_type_invariant(self);
        }
        self.buf.len() - self.filled
    }
}

/// Takes in what one read gave and says what comes next.
///
/// Bytes that were read go into the sample; with the last byte in, the sample
/// is ready. At the end of the file the sample is ready as it is, and what
/// is missing stays zero. A read that gave no bytes counts as the end of the
/// file. An interrupted read is tried again. Any other failure ends the
/// sample.
pub fn read(sample: Sample, event: ReadEvent) -> (res: ReadStep)
    ensures
        match event {
            ReadEvent::Data(data) => if data@.len() == 0 {
                res matches ReadStep::Done(buf) && buf@ == sample@.buf
            } else if sample@.accept(data@).filled == sample@.buf.len() {
                res matches ReadStep::Done(buf) && buf@ == sample@.accept(data@).buf
            } else {
                res matches ReadStep::More(next) && next@ == sample@.accept(data@)
            },
            ReadEvent::Eof => res matches ReadStep::Done(buf) && buf@ == sample@.buf,
            ReadEvent::Interrupted => res matches ReadStep::More(next) && next@ == sample@,
            ReadEvent::Failed => res matches ReadStep::Failed(e) && e == Error::Read,
        },
        res matches ReadStep::Done(buf) ==> buf@.len() == sample@.buf.len(),
{
    proof {
        use_type_invariant(&sample);
    }
    match event {
        ReadEvent::Eof => ReadStep::Done(sample.buf),
        ReadEvent::Interrupted => ReadStep::More(sample),
        ReadEvent::Failed => ReadStep::Failed(Error::Read),
        ReadEvent::Data(data) => {
            if data.len() == 0 {
                return ReadStep::Done(sample.buf);
            }
            let ghost old = sample@;
            let start = sample.filled;
            let mut buf = sample.buf;
            let wanted = buf.len() - start;
            let n = if data.len() <= wanted {
                data.len()
            } else {
                wanted
            };
            let mut j: usize = 0;
            while j < n
                invariant
                    j <= n <= wanted,
                    n <= data.len(),
                    start + wanted == buf.len() == old.buf.len(),
                    buf@ == old.buf.take(start as int) + data@.take(j as int) + zeros(
                        (wanted - j) as nat,
                    ),
                decreases n - j,
            {
                buf.set(start + j, data[j]);
                assert(buf@ =~= old.buf.take(start as int) + data@.take(j + 1) + zeros(
                    (wanted - (j + 1)) as nat,
                ));
                j += 1;
            }
            let filled = start + n;
            if filled == buf.len() {
                ReadStep::Done(buf)
            } else {
                ReadStep::More(Sample { buf, filled })
            }
        },
    }
}

} // verus!
