//! A second construction interface for the file description: the same
//! sorted cover of a file by byte-runs under another pair of names, with
//! an error enum of its own.

use vstd::prelude::*;

use crate::file_description::{
    all_runs_positive, br_leq_fn, built_runs, runs_total_len, validate, ByteRun, FileDescription,
    FileDescriptionError, FileDescriptionPos,
};

verus! {

/// A positioned reader over a `ByteRunsRef` is the positioned reader over
/// its description.
pub type ByteRunsRefPos<'a> = FileDescriptionPos<'a>;

/// The structural construction errors, mirroring those of the file
/// description.
#[derive(Debug, Clone, Copy, PartialEq, Eq, Structural)]
pub enum ByteRunsRefError {
    Overlap(ByteRun, ByteRun),
    Gap(ByteRun, ByteRun),
    PreGap(ByteRun),
    Empty,
    Trailing(ByteRun, u64),
    Missing(u64, u64),
}

/// This interface's spelling of each construction error.
pub open spec fn to_ref_error(e: FileDescriptionError) -> ByteRunsRefError {
    match e {
        FileDescriptionError::Overlap(x, y) => ByteRunsRefError::Overlap(x, y),
        FileDescriptionError::Gap(x, y) => ByteRunsRefError::Gap(x, y),
        FileDescriptionError::PreGap(x) => ByteRunsRefError::PreGap(x),
        FileDescriptionError::Empty => ByteRunsRefError::Empty,
        FileDescriptionError::Trailing(x, s) => ByteRunsRefError::Trailing(x, s),
        FileDescriptionError::Missing(s, c) => ByteRunsRefError::Missing(s, c),
    }
}

/// A validated cover of a file by byte-runs.
#[derive(Debug, Clone)]
pub struct ByteRunsRef {
    inner: FileDescription,
}

impl ByteRunsRef {
    /// The underlying file description.
    pub closed spec fn inner_spec(self) -> FileDescription {
        self.inner
    }

    pub open spec fn wf(self) -> bool {
        self.inner_spec().wf()
    }

    pub open spec fn runs_seq(self) -> Seq<ByteRun> {
        self.inner_spec().runs_seq()
    }

    pub open spec fn size_spec(self) -> u64 {
        self.inner_spec().size_spec()
    }

    /// Build the cover exactly as `FileDescription::new` does, reporting
    /// each of its errors under this interface's spelling.
    pub fn new(size: u64, runs: Vec<ByteRun>) -> (r: Result<ByteRunsRef, ByteRunsRefError>)
        requires
            all_runs_positive(runs@),
            runs_total_len(runs@) <= u64::MAX,
            forall|i: int|
                0 <= i < runs@.len() ==> (#[trigger] runs@[i]).disk_pos + runs@[i].len
                    <= u64::MAX,
        ensures
            ({
                let ss = runs@.sort_by(br_leq_fn());
                match r {
                    Ok(b) => validate(size, ss) is None && b.wf() && b.size_spec() == size
                        && b.runs_seq() == built_runs(size, ss),
                    Err(e) => validate(size, ss) matches Some(e0) && e == to_ref_error(e0),
                }
            }),
    {
        match FileDescription::new(size, runs) {
            Ok(fd) => Ok(ByteRunsRef { inner: fd }),
            Err(e) => match e {
                FileDescriptionError::Overlap(x, y) => Err(ByteRunsRefError::Overlap(x, y)),
                FileDescriptionError::Gap(x, y) => Err(ByteRunsRefError::Gap(x, y)),
                FileDescriptionError::PreGap(x) => Err(ByteRunsRefError::PreGap(x)),
                FileDescriptionError::Empty => Err(ByteRunsRefError::Empty),
                FileDescriptionError::Trailing(x, s) => Err(ByteRunsRefError::Trailing(x, s)),
                FileDescriptionError::Missing(s, c) => Err(ByteRunsRefError::Missing(s, c)),
            },
        }
    }

    pub fn size(&self) -> (s: u64)
        ensures
            s == self.size_spec(),
    {
        self.inner.size()
    }

    /// A read-only view of the stored byte-runs.
    pub fn as_ref(&self) -> (r: &Vec<ByteRun>)
        ensures
            r@ == self.runs_seq(),
    {
        self.inner.as_ref()
    }

    /// The underlying file description.
    pub fn as_file_description(&self) -> (fd: &FileDescription)
        ensures
            *fd == self.inner_spec(),
    {
        &self.inner
    }

    /// A positioned reader at file offset `pos`.
    pub fn at_pos<'a>(&'a self, pos: u64) -> (c: ByteRunsRefPos<'a>)
        requires
            self.wf(),
        ensures
            c.is_at(self.inner_spec(), pos),
    {
        self.inner.at_pos(pos)
    }
}

} // verus!
