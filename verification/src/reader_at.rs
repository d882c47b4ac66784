//! A random-access byte source over a file description and a disk source:
//! each read positions a fresh cursor, then gathers bytes run by run,
//! tolerating short reads from the source.

use vstd::prelude::*;

use crate::byte_runs::ByteRunsRef;
use crate::file_description::FileDescription;
use crate::reader::{file_bytes, runs_on_disk, ReadAt};

verus! {

/// Read up to `count` bytes of the described file starting at file offset
/// `offset`: exactly the file's bytes there, short only at end of file.
pub fn read_file_at<R: ReadAt>(fd: &FileDescription, src: &R, offset: u64, count: usize) -> (r:
    Vec<u8>)
    requires
        fd.wf(),
        runs_on_disk(*fd, src.contents()),
    ensures
        r@.len() == vstd::math::min(
            count as int,
            vstd::math::max(fd.size_spec() - offset, 0),
        ),
        offset + r@.len() <= fd.size_spec() ==> r@ == file_bytes(*fd, src.contents()).subrange(
            offset as int,
            offset + r@.len(),
        ),
    {
    let ghost disk = src.contents();
    let sz = fd.size();
    if offset >= sz {
        proof {
            if offset <= fd.size_spec() {
                assert(file_bytes(*fd, disk).subrange(offset as int, offset as int) =~= Seq::<
                    u8,
                >::empty());
            }
        }
        return Vec::new();
    }
    let remaining = sz - offset;
    let target: usize = if remaining < count as u64 {
        remaining as usize
    } else {
        count
    };
    let mut reader = crate::reader::ByteRunsReader::new(src, fd.at_pos(offset));
    let mut out: Vec<u8> = Vec::new();
    proof {
        assert(file_bytes(*fd, disk).subrange(offset as int, offset as int) =~= Seq::<
            u8,
        >::empty());
    }
    while out.len() < target
        invariant
            fd.wf(),
            runs_on_disk(*fd, disk),
            reader.inner_spec() == src,
            (*reader.inner_spec()).contents() == disk,
            reader.describer_spec().wf(),
            reader.describer_spec().desc_spec() == *fd,
            out@.len() <= target,
            target <= count,
            offset + target <= fd.size_spec(),
            reader.describer_spec().pos_spec() == offset + out@.len(),
            out@ == file_bytes(*fd, disk).subrange(offset as int, offset + out@.len()),
        decreases target - out@.len(),
    {
        let want = target - out.len();
        let mut chunk = reader.read_step(want);
        proof {
            assert(chunk@.len() >= 1);
            assert(out@ + chunk@ =~= file_bytes(*fd, disk).subrange(
                offset as int,
                offset + out@.len() + chunk@.len(),
            ));
        }
        out.append(&mut chunk);
    }
    out
}

/// The random-access reader: a description together with the disk source.
pub struct ByteRunsReaderAt<R, D> {
    describer: D,
    inner: R,
}

impl<R, D> ByteRunsReaderAt<R, D> {
    pub closed spec fn describer_spec(self) -> D {
        self.describer
    }

    pub closed spec fn inner_spec(self) -> R {
        self.inner
    }

    pub fn new(reader: R, describer: D) -> (r: ByteRunsReaderAt<R, D>)
        ensures
            r.describer_spec() == describer,
            r.inner_spec() == reader,
    {
        ByteRunsReaderAt { describer, inner: reader }
    }
}

impl<R: ReadAt> ByteRunsReaderAt<R, FileDescription> {
    /// Read up to `count` bytes at `offset` of the described file.
    pub fn read_at(&self, offset: u64, count: usize) -> (r: Vec<u8>)
        requires
            self.describer_spec().wf(),
            runs_on_disk(self.describer_spec(), self.inner_spec().contents()),
        ensures
            r@.len() == vstd::math::min(
                count as int,
                vstd::math::max(self.describer_spec().size_spec() - offset, 0),
            ),
            offset + r@.len() <= self.describer_spec().size_spec() ==> r@ == file_bytes(
                self.describer_spec(),
                self.inner_spec().contents(),
            ).subrange(offset as int, offset + r@.len()),
    {
        read_file_at(&self.describer, &self.inner, offset, count)
    }
}

impl<R: ReadAt> ByteRunsReaderAt<R, ByteRunsRef> {
    /// Read up to `count` bytes at `offset` of the described file.
    pub fn read_at(&self, offset: u64, count: usize) -> (r: Vec<u8>)
        requires
            self.describer_spec().wf(),
            runs_on_disk(self.describer_spec().inner_spec(), self.inner_spec().contents()),
        ensures
            r@.len() == vstd::math::min(
                count as int,
                vstd::math::max(self.describer_spec().size_spec() - offset, 0),
            ),
            offset + r@.len() <= self.describer_spec().size_spec() ==> r@ == file_bytes(
                self.describer_spec().inner_spec(),
                self.inner_spec().contents(),
            ).subrange(offset as int, offset + r@.len()),
    {
        read_file_at(self.describer.as_file_description(), &self.inner, offset, count)
    }
}

} // verus!
