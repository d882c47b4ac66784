//! A sequential byte source over a file description and a random-access
//! disk source: logical reads are translated into disk reads through a
//! positioned reader, tolerating short reads from the source.

use vstd::prelude::*;

use crate::file_description::{
    run_containing, ByteRun, FileDescription, FileDescriptionPos, SeekError,
};

verus! {

/// A random-access source of disk bytes: any object supporting positioned
/// reads. A read may be short, but while the position is in range it hands
/// back at least one byte, and what it hands back are exactly the bytes at
/// that position.
pub trait ReadAt {
    /// The bytes the source holds.
    spec fn contents(&self) -> Seq<u8>;

    fn read_at(&self, pos: u64, max: usize) -> (r: Vec<u8>)
        ensures
            r@.len() <= max,
            pos < self.contents().len() && max > 0 ==> r@.len() >= 1,
            r@.len() > 0 ==> pos + r@.len() <= self.contents().len() && r@
                == self.contents().subrange(pos as int, pos + r@.len()),
    ;
}

impl<'x, R: ReadAt> ReadAt for &'x R {
    open spec fn contents(&self) -> Seq<u8> {
        (**self).contents()
    }

    fn read_at(&self, pos: u64, max: usize) -> (r: Vec<u8>) {
        (**self).read_at(pos, max)
    }
}

/// An in-memory disk source over a byte vector, answering each read with at
/// most `chunk` bytes: with a small `chunk` it behaves like a source that
/// performs arbitrary short reads.
pub struct SliceSource {
    data: Vec<u8>,
    chunk: usize,
}

impl SliceSource {
    pub closed spec fn data_spec(self) -> Seq<u8> {
        self.data@
    }

    pub fn new(data: Vec<u8>) -> (s: SliceSource)
        ensures
            s.contents() == data@,
    {
        SliceSource { data, chunk: usize::MAX }
    }

    /// A source that hands back at most `chunk` bytes per read.
    pub fn with_chunk(data: Vec<u8>, chunk: usize) -> (s: SliceSource)
        requires
            chunk >= 1,
        ensures
            s.contents() == data@,
    {
        SliceSource { data, chunk }
    }
}

impl ReadAt for SliceSource {
    open spec fn contents(&self) -> Seq<u8> {
        self.data_spec()
    }

    fn read_at(&self, pos: u64, max: usize) -> (r: Vec<u8>) {
        let len = self.data.len();
        if pos >= len as u64 {
            return Vec::new();
        }
        let pos_us = pos as usize;
        let avail = len - pos_us;
        let mut want = if max < self.chunk {
            max
        } else {
            self.chunk
        };
        if avail < want {
            want = avail;
        }
        if want == 0 && max > 0 {
            want = 1;
        }
        let mut out: Vec<u8> = Vec::new();
        let mut i: usize = 0;
        while i < want
            invariant
                i <= want,
                pos_us == pos,
                pos_us + want <= len,
                len == self.data@.len(),
                out@ == self.data@.subrange(pos_us as int, pos_us + i),
            decreases want - i,
        {
            out.push(self.data[pos_us + i]);
            proof {
                assert(out@ =~= self.data@.subrange(pos_us as int, pos_us + i + 1));
            }
            i = i + 1;
        }
        out
    }
}

/// Every run's disk range lies inside the disk contents.
pub open spec fn runs_on_disk(fd: FileDescription, disk: Seq<u8>) -> bool {
    forall|i: int|
        0 <= i < fd.runs_seq().len() ==> (#[trigger] fd.runs_seq()[i]).disk_pos
            + fd.runs_seq()[i].len <= disk.len()
}

/// The bytes of the described file: byte `p` of the file is the disk byte at
/// the position `p` maps to through the run containing it.
pub open spec fn file_bytes(fd: FileDescription, disk: Seq<u8>) -> Seq<u8> {
    Seq::new(
        fd.size_spec() as nat,
        |p: int|
            {
                let runs = fd.runs_seq();
                let i = run_containing(runs, p as u64);
                disk[runs[i].disk_pos + (p - runs[i].file_offset)]
            },
    )
}

/// Every file offset below the size lies in some run.
pub proof fn lemma_exists_containing(fd: FileDescription, p: u64, i: int)
    requires
        fd.wf(),
        0 <= i < fd.runs_seq().len(),
        p < fd.runs_seq()[i].file_offset + fd.runs_seq()[i].len,
    ensures
        exists|j: int|
            0 <= j < fd.runs_seq().len() && (#[trigger] fd.runs_seq()[j]).file_offset <= p
                < fd.runs_seq()[j].file_offset + fd.runs_seq()[j].len,
    decreases i,
{
    let runs = fd.runs_seq();
    if p >= runs[i].file_offset {
    } else {
        assert(i > 0) by {
            assert(runs[0].file_offset == 0);
        }
        assert(runs[(i - 1) + 1].file_offset == runs[i - 1].file_offset + runs[i - 1].len);
        lemma_exists_containing(fd, p, i - 1);
    }
}

/// The reader: a positioned reader over a description together with the
/// random-access source the disk bytes come from.
pub struct ByteRunsReader<R, D> {
    describer: D,
    inner: R,
}

impl<R, D> ByteRunsReader<R, D> {
    pub closed spec fn describer_spec(self) -> D {
        self.describer
    }

    pub closed spec fn inner_spec(self) -> R {
        self.inner
    }

    pub fn new(reader: R, describer: D) -> (r: ByteRunsReader<R, D>)
        ensures
            r.describer_spec() == describer,
            r.inner_spec() == reader,
    {
        ByteRunsReader { describer, inner: reader }
    }
}

impl<'a, R: ReadAt> ByteRunsReader<R, FileDescriptionPos<'a>> {
    /// One sequential read of up to `max` bytes: reads from the disk range
    /// of the current run, advances the cursor by however many bytes the
    /// source actually handed back, and returns them. At end of file it
    /// returns no bytes.
    pub fn read_step(&mut self, max: usize) -> (r: Vec<u8>)
        requires
            old(self).describer_spec().wf(),
            runs_on_disk(old(self).describer_spec().desc_spec(), old(self).inner_spec().contents()),
        ensures
            final(self).inner_spec() == old(self).inner_spec(),
            final(self).describer_spec().wf(),
            final(self).describer_spec().desc_spec() == old(self).describer_spec().desc_spec(),
            final(self).describer_spec().pos_spec() == old(self).describer_spec().pos_spec()
                + r@.len(),
            r@.len() <= max,
            old(self).describer_spec().pos_spec() + r@.len() <= old(self).describer_spec().desc_spec().size_spec() || r@.len() == 0,
            old(self).describer_spec().pos_spec() + r@.len() <= old(
                self,
            ).describer_spec().desc_spec().size_spec() ==> r@ == file_bytes(
                old(self).describer_spec().desc_spec(),
                old(self).inner_spec().contents(),
            ).subrange(
                old(self).describer_spec().pos_spec() as int,
                old(self).describer_spec().pos_spec() + r@.len(),
            ),
            old(self).describer_spec().pos_spec() < old(self).describer_spec().desc_spec().size_spec() && max > 0 ==> r@.len() >= 1,
            old(self).describer_spec().pos_spec() >= old(self).describer_spec().desc_spec().size_spec() ==> r@.len() == 0 && *final(self) == *old(self),
    {
        let ghost fd = self.describer.desc_spec();
        let ghost disk = self.inner.contents();
        let ghost pos0 = self.describer.pos_spec();
        let desc = self.describer.desc_read();
        if desc.len == 0 {
            proof {
                let c = self.describer;
                let runs = fd.runs_seq();
                if c.cur_run_spec() < runs.len() {
                    assert(c.offset_spec() == runs[c.cur_run_spec()].len);
                    crate::file_description::lemma_run_end_le_size(
                        runs,
                        fd.size_spec(),
                        c.cur_run_spec(),
                    );
                }
                assert(pos0 >= fd.size_spec());
                if pos0 <= fd.size_spec() {
                    assert(file_bytes(fd, disk).subrange(pos0 as int, pos0 as int) =~= Seq::<
                        u8,
                    >::empty());
                }
            }
            return Vec::new();
        }
        proof {
            // The cursor sits strictly inside a run.
            let c = self.describer;
            let runs = fd.runs_seq();
            assert(c.cur_run_spec() < runs.len());
            crate::file_description::lemma_run_end_le_size(runs, fd.size_spec(), c.cur_run_spec());
        }
        let want: usize = if desc.len < max as u64 {
            desc.len as usize
        } else {
            max
        };
        if want == 0 {
            proof {
                if pos0 <= fd.size_spec() {
                    assert(file_bytes(fd, disk).subrange(pos0 as int, pos0 as int) =~= Seq::<
                        u8,
                    >::empty());
                }
            }
            return Vec::new();
        }
        let data = self.inner.read_at(desc.disk_pos, want);
        let n = data.len();
        proof {
            let c = self.describer;
            let runs = fd.runs_seq();
            let cur = c.cur_run_spec();
            assert(runs[cur].disk_pos + runs[cur].len <= disk.len());
            assert(n <= runs[cur].len - c.offset_spec());
        }
        self.describer.adv(n);
        proof {
            let c0 = old(self).describer_spec();
            let runs = fd.runs_seq();
            let cur = c0.cur_run_spec();
            let dp = runs[cur].disk_pos + c0.offset_spec();
            assert(data@.len() > 0 ==> data@ == disk.subrange(dp as int, dp + data@.len()));
            assert forall|k: int| 0 <= k < n implies file_bytes(fd, disk)[pos0 + k] == data@[k] by {
                let p = (pos0 + k) as u64;
                assert(runs[cur].file_offset <= p < runs[cur].file_offset + runs[cur].len);
                let i = run_containing(runs, p);
                assert(0 <= i < runs.len() && runs[i].file_offset <= p < runs[i].file_offset
                    + runs[i].len) by {
                    lemma_exists_containing(fd, p, cur);
                }
                crate::file_description::lemma_run_containing_unique(
                    runs,
                    fd.size_spec(),
                    p,
                    i,
                    cur,
                );
                assert(file_bytes(fd, disk)[pos0 + k] == disk[runs[cur].disk_pos + (p
                    - runs[cur].file_offset)]);
                assert(runs[cur].disk_pos + (p - runs[cur].file_offset) == dp + k);
            }
            assert(data@ =~= file_bytes(fd, disk).subrange(pos0 as int, pos0 + n));
        }
        data
    }

    /// Read the rest of the stream: the described file's bytes from the
    /// current position to its end, whatever short reads the source
    /// performs along the way.
    pub fn read_to_end(&mut self) -> (r: Vec<u8>)
        requires
            old(self).describer_spec().wf(),
            runs_on_disk(old(self).describer_spec().desc_spec(), old(self).inner_spec().contents()),
        ensures
            final(self).inner_spec() == old(self).inner_spec(),
            final(self).describer_spec().wf(),
            final(self).describer_spec().desc_spec() == old(self).describer_spec().desc_spec(),
            final(self).describer_spec().pos_spec() == vstd::math::max(
                old(self).describer_spec().pos_spec() as int,
                old(self).describer_spec().desc_spec().size_spec() as int,
            ),
            r@ == ({
                let fd = old(self).describer_spec().desc_spec();
                let pos0 = old(self).describer_spec().pos_spec();
                if pos0 <= fd.size_spec() {
                    file_bytes(fd, old(self).inner_spec().contents()).subrange(
                        pos0 as int,
                        fd.size_spec() as int,
                    )
                } else {
                    Seq::<u8>::empty()
                }
            }),
    {
        let ghost fd = self.describer.desc_spec();
        let ghost disk = self.inner.contents();
        let ghost pos0 = self.describer.pos_spec();
        let sz = self.describer.desc().size();
        let p_start = self.describer.pos();
        if p_start >= sz {
            proof {
                if pos0 <= fd.size_spec() {
                    assert(file_bytes(fd, disk).subrange(pos0 as int, fd.size_spec() as int)
                        =~= Seq::<u8>::empty());
                }
            }
            return Vec::new();
        }
        let mut out: Vec<u8> = Vec::new();
        while self.describer.pos() < sz
            invariant
                self.describer_spec().wf(),
                self.describer_spec().desc_spec() == fd,
                fd == old(self).describer_spec().desc_spec(),
                self.inner_spec() == old(self).inner_spec(),
                disk == self.inner_spec().contents(),
                runs_on_disk(fd, disk),
                sz == fd.size_spec(),
                pos0 <= self.describer_spec().pos_spec() <= sz,
                out@ == file_bytes(fd, disk).subrange(
                    pos0 as int,
                    self.describer_spec().pos_spec() as int,
                ),
            decreases sz - self.describer_spec().pos_spec(),
        {
            let ghost p_before = self.describer_spec().pos_spec();
            let mut chunk = self.read_step(usize::MAX);
            proof {
                assert(chunk@.len() >= 1);
                assert(out@ + chunk@ =~= file_bytes(fd, disk).subrange(
                    pos0 as int,
                    p_before + chunk@.len(),
                ));
            }
            out.append(&mut chunk);
        }
        proof {
            assert(self.describer_spec().pos_spec() == sz);
        }
        out
    }

    /// Relocate the stream to an absolute file offset.
    pub fn seek_from_start(&mut self, x: u64) -> (r: u64)
        requires
            old(self).describer_spec().wf(),
        ensures
            r == x,
            final(self).inner_spec() == old(self).inner_spec(),
            final(self).describer_spec().is_at(old(self).describer_spec().desc_spec(), x),
    {
        self.describer.seek_from_start(x)
    }

    /// Relocate the stream relative to the current position.
    pub fn seek_from_current(&mut self, offset: i64) -> (r: Result<u64, SeekError>)
        requires
            old(self).describer_spec().wf(),
        ensures
            final(self).inner_spec() == old(self).inner_spec(),
            match r {
                Ok(x) => x == old(self).describer_spec().pos_spec() + offset && final(self).describer_spec().is_at(old(self).describer_spec().desc_spec(), x),
                Err(SeekError::BadSeek) => *final(self) == *old(self),
            },
    {
        self.describer.seek_from_current(offset)
    }
}

/// Read round-trip: the file's bytes are the concatenation of its runs'
/// disk ranges in file-offset order.
pub open spec fn concat_runs(runs: Seq<ByteRun>, disk: Seq<u8>) -> Seq<u8>
    decreases runs.len(),
{
    if runs.len() == 0 {
        Seq::empty()
    } else {
        concat_runs(runs.drop_last(), disk) + disk.subrange(
            runs.last().disk_pos as int,
            runs.last().disk_pos + runs.last().len,
        )
    }
}

/// Reading the whole stream yields the concatenation of the disk segments
/// in file-offset order: the byte sequence `read_to_end` returns from the
/// start equals `concat_runs` of the description's runs.
pub proof fn lemma_read_round_trip(fd: FileDescription, disk: Seq<u8>)
    requires
        fd.wf(),
        runs_on_disk(fd, disk),
    ensures
        file_bytes(fd, disk) =~= concat_runs(fd.runs_seq(), disk),
{
    lemma_concat_prefix(fd, disk, fd.runs_seq().len() as int);
    assert(fd.runs_seq().take(fd.runs_seq().len() as int) =~= fd.runs_seq());
    let last = fd.runs_seq().len() - 1;
    assert(fd.runs_seq()[last as int].file_offset + fd.runs_seq()[last as int].len
        == fd.size_spec());
    assert(file_bytes(fd, disk) =~= file_bytes(fd, disk).subrange(0, fd.size_spec() as int));
}

/// The concatenation of the first `i` runs' disk ranges equals the file
/// bytes up to the end of run `i - 1`.
proof fn lemma_concat_prefix(fd: FileDescription, disk: Seq<u8>, i: int)
    requires
        fd.wf(),
        runs_on_disk(fd, disk),
        0 <= i <= fd.runs_seq().len(),
    ensures
        concat_runs(fd.runs_seq().take(i), disk) =~= file_bytes(fd, disk).subrange(
            0,
            if i == 0 {
                0
            } else {
                fd.runs_seq()[i - 1].file_offset + fd.runs_seq()[i - 1].len
            },
        ),
    decreases i,
{
    let runs = fd.runs_seq();
    if i == 0 {
        assert(runs.take(0) =~= Seq::<ByteRun>::empty());
        assert(file_bytes(fd, disk).subrange(0, 0) =~= Seq::<u8>::empty());
    } else {
        lemma_concat_prefix(fd, disk, i - 1);
        let prev_end: int = if i == 1 {
            0
        } else {
            runs[i - 2].file_offset + runs[i - 2].len
        };
        assert(runs[i - 1].file_offset == prev_end) by {
            if i == 1 {
                assert(runs[0].file_offset == 0);
            } else {
                assert(runs[(i - 2) + 1].file_offset == runs[i - 2].file_offset + runs[i
                    - 2].len);
            }
        }
        crate::file_description::lemma_run_end_le_size(runs, fd.size_spec(), i - 1);
        assert(runs.take(i).drop_last() =~= runs.take(i - 1));
        assert(runs.take(i).last() == runs[i - 1]);
        let cur = runs[i - 1];
        let cur_end = cur.file_offset + cur.len;
        assert forall|p: int| prev_end <= p < cur_end implies file_bytes(fd, disk)[p]
            == disk[cur.disk_pos + (p - cur.file_offset)] by {
            let pu = p as u64;
            assert(cur.file_offset <= pu < cur.file_offset + cur.len);
            let j = run_containing(runs, pu);
            assert(0 <= j < runs.len() && runs[j].file_offset <= pu < runs[j].file_offset
                + runs[j].len) by {
                lemma_exists_containing(fd, pu, i - 1);
            }
            crate::file_description::lemma_run_containing_unique(
                runs,
                fd.size_spec(),
                pu,
                j,
                i - 1,
            );
        }
        assert(concat_runs(runs.take(i), disk) =~= file_bytes(fd, disk).subrange(0, cur_end));
    }
}

} // verus!
