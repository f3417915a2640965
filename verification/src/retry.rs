//! The decisions of a byte source that rides out transient read failures.
//!
//! The source itself is read elsewhere. After every read its outcome is
//! handed to `ResilientSource::step`, which says what to do next: hand the
//! bytes on, stop, rewind and read again, or fail.

use vstd::prelude::*;
use crate::error::{ReadFailure, VcfError};

verus! {

/// How often one read is tried again before its failure is final.
pub const MAX_RETRIES: usize = 3;

/// What a read of the underlying source gave.
#[derive(Clone, Copy, Debug, PartialEq, Eq)]
pub enum ReadOutcome {
    /// The read gave this many bytes; zero bytes are the end of the source,
    /// or a spurious empty read.
    Read(usize),
    /// The read failed.
    Failed(ReadFailure),
}

/// What to do after a read.
#[derive(Clone, Copy, Debug, PartialEq, Eq)]
pub enum ReadStep {
    /// Hand this many bytes on to the reader.
    Deliver(usize),
    /// The source has ended.
    EndOfStream,
    /// Rewind the source to this offset and read again.
    Retry(u64),
    /// Give up with this error.
    Fail(VcfError),
}

/// The state of a resilient source between reads.
#[derive(Clone, Copy, Debug, PartialEq, Eq)]
pub struct ResilientSource {
    /// The number of bytes handed on so far: the offset known to be good.
    pub offset: u64,
    /// How often the read at `offset` was tried again.
    pub retries: usize,
    /// The length of the source, where it can seek and so knows its length.
    pub length: Option<u64>,
}

impl ResilientSource {
    /// The invariant of the state: no read is tried again more often than allowed.
    pub open spec fn wf(self) -> bool {
        self.retries <= MAX_RETRIES
    }

    /// Whether an outcome is transient in this state: an interrupted read, or
    /// an empty read of a seekable source before its end.
    pub open spec fn is_transient(self, outcome: ReadOutcome) -> bool {
        match outcome {
            ReadOutcome::Failed(ReadFailure::Interrupted) => true,
            ReadOutcome::Read(n) => n == 0 && self.length.is_some() && self.offset
                < self.length.unwrap(),
            _ => false,
        }
    }

    /// What to do after a read with the given outcome. A transient outcome is
    /// answered by a retry from the good offset while retries are left; with
    /// none left an interrupted read fails as it is, and a spurious empty
    /// read fails as an unexpected end. Any other failure is passed on at once.
    pub open spec fn decision(self, outcome: ReadOutcome) -> ReadStep {
        if self.is_transient(outcome) {
            if self.retries < MAX_RETRIES {
                ReadStep::Retry(self.offset)
            } else {
                match outcome {
                    ReadOutcome::Failed(failure) => ReadStep::Fail(VcfError::Io(failure)),
                    ReadOutcome::Read(_) => ReadStep::Fail(VcfError::Io(ReadFailure::UnexpectedEnd)),
                }
            }
        } else {
            match outcome {
                ReadOutcome::Read(n) => if n == 0 {
                    ReadStep::EndOfStream
                } else {
                    ReadStep::Deliver(n)
                },
                ReadOutcome::Failed(failure) => ReadStep::Fail(VcfError::Io(failure)),
            }
        }
    }

    /// The state after a read with the given outcome: a retry is counted,
    /// delivered bytes move the good offset, and anything but a retry starts
    /// the count of retries anew.
    pub open spec fn after(self, outcome: ReadOutcome) -> ResilientSource {
        match self.decision(outcome) {
            ReadStep::Retry(_) => ResilientSource {
                offset: self.offset,
                retries: (self.retries + 1) as usize,
                length: self.length,
            },
            ReadStep::Deliver(n) => ResilientSource {
                offset: (self.offset + n) as u64,
                retries: 0,
                length: self.length,
            },
            _ => ResilientSource { offset: self.offset, retries: 0, length: self.length },
        }
    }

    /// A source at its start; `length` is its length if it can seek.
    pub fn new(length: Option<u64>) -> (out: ResilientSource)
        ensures
            out.wf(),
            out == (ResilientSource { offset: 0, retries: 0, length }),
    {
        ResilientSource { offset: 0, retries: 0, length }
    }

    /// Takes the outcome of a read and decides what to do next.
    pub fn step(&mut self, outcome: ReadOutcome) -> (out: ReadStep)
        requires
            old(self).wf(),
            outcome matches ReadOutcome::Read(n) ==> old(self).offset + n <= u64::MAX,
        ensures
            final(self).wf(),
            out == old(self).decision(outcome),
            *final(self) == old(self).after(outcome),
    {
        let transient = match outcome {
            ReadOutcome::Failed(ReadFailure::Interrupted) => true,
            ReadOutcome::Failed(_) => false,
            ReadOutcome::Read(n) => n == 0 && match self.length {
                Some(length) => self.offset < length,
                None => false,
            },
        };
        if transient && self.retries < MAX_RETRIES {
            self.retries = self.retries + 1;
            return ReadStep::Retry(self.offset);
        }
        self.retries = 0;
        match outcome {
            ReadOutcome::Failed(failure) => ReadStep::Fail(VcfError::Io(failure)),
            ReadOutcome::Read(n) => {
                if transient {
                    ReadStep::Fail(VcfError::Io(ReadFailure::UnexpectedEnd))
                } else if n == 0 {
                    ReadStep::EndOfStream
                } else {
                    self.offset = self.offset + n as u64;
                    ReadStep::Deliver(n)
                }
            },
        }
    }
}

/// The state after a run of reads with the given outcomes.
pub open spec fn after_all(start: ResilientSource, outcomes: Seq<ReadOutcome>) -> ResilientSource
    decreases outcomes.len(),
{
    if outcomes.len() == 0 {
        start
    } else {
        after_all(start, outcomes.drop_last()).after(outcomes.last())
    }
}

/// Retries are bounded: however the reads turn out, more than
/// `MAX_RETRIES` retries never follow one another. After `MAX_RETRIES`
/// transient outcomes in a row the next one is answered by a failure.
pub proof fn lemma_retries_are_bounded(start: ResilientSource, outcomes: Seq<ReadOutcome>, k: int)
    requires
        start.wf(),
        0 <= k,
        k + MAX_RETRIES + 1 <= outcomes.len(),
        forall|i: int|
            k <= i < k + MAX_RETRIES ==> after_all(start, outcomes.take(i)).decision(
                #[trigger] outcomes[i],
            ) is Retry,
    ensures
        !(after_all(start, outcomes.take(k + MAX_RETRIES)).decision(outcomes[k + MAX_RETRIES])
            is Retry),
{
    lemma_after_all_wf(start, outcomes.take(k));
    let s0 = after_all(start, outcomes.take(k));
    let s1 = after_all(start, outcomes.take(k + 1));
    let s2 = after_all(start, outcomes.take(k + 2));
    let s3 = after_all(start, outcomes.take(k + 3));
    assert(outcomes.take(k + 1).drop_last() =~= outcomes.take(k));
    assert(outcomes.take(k + 2).drop_last() =~= outcomes.take(k + 1));
    assert(outcomes.take(k + 3).drop_last() =~= outcomes.take(k + 2));
    assert(s0.decision(outcomes[k]) is Retry);
    assert(s1 == s0.after(outcomes[k]));
    assert(s1.decision(outcomes[k + 1]) is Retry);
    assert(s2 == s1.after(outcomes[k + 1]));
    assert(s2.decision(outcomes[k + 2]) is Retry);
    assert(s3 == s2.after(outcomes[k + 2]));
    assert(s3.retries >= MAX_RETRIES);
}

/// Every step keeps the invariant.
pub proof fn lemma_after_all_wf(start: ResilientSource, outcomes: Seq<ReadOutcome>)
    requires
        start.wf(),
    ensures
        after_all(start, outcomes).wf(),
    decreases outcomes.len(),
{
    if outcomes.len() > 0 {
        lemma_after_all_wf(start, outcomes.drop_last());
    }
}

} // verus!
