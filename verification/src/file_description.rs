//! The description of one recovered file: a collection of byte-runs mapping
//! ranges of the file to ranges of the disk.
//!
//! A byte-run maps `len` bytes at file offset `file_offset` to the disk
//! positions starting at `disk_pos`. A file description owns a sorted,
//! gap-free, non-overlapping cover of `[0, size)` by byte-runs; construction
//! consumes an unordered collection, sorts it, validates the cover and trims
//! the last run to the declared size. Positioned readers over a description
//! translate file offsets into disk positions and support sequential
//! advancing and seeking.

use vstd::prelude::*;
use vstd::relations::{sorted_by, total_ordering};

use crate::segment_array_tree::SegmentArray;
use crate::segment_tree::Segment;
use vstd::seq_lib::group_to_multiset_ensures;
use vstd::seq_lib::lemma_sorted_unique;

verus! {

/// One contiguous mapping of `len` bytes from file offset `file_offset` to
/// the disk positions starting at `disk_pos`.
#[derive(PartialEq, Eq, PartialOrd, Ord, Debug, Clone, Copy, Structural)]
pub struct ByteRun {
    pub file_offset: u64,
    pub disk_pos: u64,
    pub len: u64,
}

/// The total order on byte-runs: by file offset, then disk position, then
/// length.
pub open spec fn br_le(a: ByteRun, b: ByteRun) -> bool {
    if a.file_offset != b.file_offset {
        a.file_offset < b.file_offset
    } else if a.disk_pos != b.disk_pos {
        a.disk_pos < b.disk_pos
    } else {
        a.len <= b.len
    }
}

/// The order as a relation value, as the sorting specification expects it.
pub open spec fn br_leq_fn() -> spec_fn(ByteRun, ByteRun) -> bool {
    |a: ByteRun, b: ByteRun| br_le(a, b)
}

pub proof fn lemma_br_le_total()
    ensures
        total_ordering(br_leq_fn()),
{
    let leq = br_leq_fn();
    assert forall|a: ByteRun, b: ByteRun| #[trigger] leq(a, b) && #[trigger] leq(b, a) implies a
        == b by {}
    assert(vstd::relations::reflexive(leq)) by {
        assert(forall|a: ByteRun| #[trigger] leq(a, a));
    }
    assert(vstd::relations::transitive(leq)) by {
        assert(forall|a: ByteRun, b: ByteRun, c: ByteRun|
            #[trigger] leq(a, b) && #[trigger] leq(b, c) ==> leq(a, c));
    }
    assert(vstd::relations::strongly_connected(leq)) by {
        assert(forall|a: ByteRun, b: ByteRun| #[trigger] leq(a, b) || #[trigger] leq(b, a));
    }
}

fn br_le_run(a: &ByteRun, b: &ByteRun) -> (r: bool)
    ensures
        r == br_le(*a, *b),
{
    if a.file_offset != b.file_offset {
        a.file_offset < b.file_offset
    } else if a.disk_pos != b.disk_pos {
        a.disk_pos < b.disk_pos
    } else {
        a.len <= b.len
    }
}

/// The sum of the lengths of a sequence of byte-runs.
pub open spec fn runs_total_len(s: Seq<ByteRun>) -> int
    decreases s.len(),
{
    if s.len() == 0 {
        0
    } else {
        runs_total_len(s.drop_last()) + s.last().len
    }
}

proof fn lemma_total_len_nonneg(s: Seq<ByteRun>)
    ensures
        runs_total_len(s) >= 0,
    decreases s.len(),
{
    if s.len() > 0 {
        lemma_total_len_nonneg(s.drop_last());
    }
}

proof fn lemma_total_len_remove(s: Seq<ByteRun>, i: int)
    requires
        0 <= i < s.len(),
    ensures
        runs_total_len(s.remove(i)) == runs_total_len(s) - s[i].len,
    decreases s.len(),
{
    if i == s.len() - 1 {
        assert(s.remove(i) =~= s.drop_last());
    } else {
        assert(s.remove(i).drop_last() =~= s.drop_last().remove(i));
        assert(s.remove(i).last() == s.last());
        lemma_total_len_remove(s.drop_last(), i);
    }
}

proof fn lemma_total_len_take(s: Seq<ByteRun>, i: int)
    requires
        0 <= i < s.len(),
    ensures
        runs_total_len(s.take(i + 1)) == runs_total_len(s.take(i)) + s[i].len,
    decreases s.len(),
{
    assert(s.take(i + 1).drop_last() =~= s.take(i));
    assert(s.take(i + 1).last() == s[i]);
}

/// Two sequences holding the same runs have the same total length.
proof fn lemma_total_len_perm(s1: Seq<ByteRun>, s2: Seq<ByteRun>)
    requires
        s1.to_multiset() == s2.to_multiset(),
    ensures
        runs_total_len(s1) == runs_total_len(s2),
    decreases s1.len(),
{
    broadcast use group_to_multiset_ensures;

    if s1.len() == 0 {
        assert(s1.to_multiset().len() == 0);
        assert(s2.len() == 0);
    } else {
        let x = s1.last();
        assert(s1.contains(x));
        assert(s1.to_multiset().count(x) > 0);
        assert(s2.contains(x));
        let idx = choose|idx: int| 0 <= idx < s2.len() && s2[idx] == x;
        let s2r = s2.remove(idx);
        assert(s2r.to_multiset() =~= s2.to_multiset().remove(x));
        assert(s1.remove(s1.len() - 1) =~= s1.drop_last());
        assert(s1.drop_last().to_multiset() =~= s1.to_multiset().remove(x));
        lemma_total_len_perm(s1.drop_last(), s2r);
        lemma_total_len_remove(s2, idx);
    }
}

/// A sequence with the same runs as another keeps any property of its runs.
proof fn lemma_perm_preserves_membership(s1: Seq<ByteRun>, s2: Seq<ByteRun>, i: int)
    requires
        s1.to_multiset() == s2.to_multiset(),
        0 <= i < s2.len(),
    ensures
        exists|j: int| 0 <= j < s1.len() && s1[j] == s2[i],
{
    broadcast use group_to_multiset_ensures;

    assert(s2.contains(s2[i]));
    assert(s2.to_multiset().count(s2[i]) > 0);
    assert(s1.contains(s2[i]));
}

proof fn lemma_to_multiset_insert(s: Seq<ByteRun>, i: int, x: ByteRun)
    requires
        0 <= i <= s.len(),
    ensures
        s.insert(i, x).to_multiset() =~= s.to_multiset().insert(x),
{
    broadcast use group_to_multiset_ensures;
    broadcast use vstd::multiset::group_multiset_axioms;

    let t = s.insert(i, x);
    assert(t.remove(i) =~= s);
    assert(t.remove(i).to_multiset() =~= t.to_multiset().remove(t[i]));
    assert(t[i] == x);
    assert(t.contains(x));
    assert(t.to_multiset().count(x) > 0);
    assert(t.to_multiset() =~= t.to_multiset().remove(x).insert(x));
}

/// Position where `x` belongs in the sorted prefix `runs[0..i]`.
fn insert_pos(runs: &Vec<ByteRun>, i: usize, x: &ByteRun) -> (j: usize)
    requires
        i <= runs@.len(),
    ensures
        j <= i,
        forall|f: int| 0 <= f < j ==> br_le(runs@[f], *x),
        (j as int) < (i as int) ==> !br_le(runs@[j as int], *x),
{
    let mut j: usize = 0;
    while j < i
        invariant
            j <= i <= runs@.len(),
            forall|f: int| 0 <= f < j ==> br_le(runs@[f], *x),
        decreases i - j,
    {
        if !br_le_run(&runs[j], x) {
            return j;
        }
        j = j + 1;
    }
    j
}

/// Sort the runs by the total order; the result is the canonical sorted
/// permutation of the input.
fn sort_runs(runs: &mut Vec<ByteRun>)
    ensures
        final(runs)@ == old(runs)@.sort_by(br_leq_fn()),
{
    let ghost orig = runs@;
    let mut i: usize = 1;
    while i < runs.len()
        invariant
            1 <= i,
            runs@.len() == orig.len(),
            runs@.to_multiset() == orig.to_multiset(),
            sorted_by(runs@.take(vstd::math::min(i as int, orig.len() as int)), br_leq_fn()),
        decreases runs@.len() - i,
    {
        let ghost pre = runs@;
        let x = runs.remove(i);
        let j = insert_pos(&runs, i, &x);
        runs.insert(j, x);
        proof {
            broadcast use group_to_multiset_ensures;

            assert(pre.remove(i as int).to_multiset() =~= pre.to_multiset().remove(x));
            lemma_to_multiset_insert(pre.remove(i as int), j as int, x);
            assert(runs@.to_multiset() =~= pre.to_multiset());
            let now = runs@;
            let mid = pre.remove(i as int);
            assert(forall|f: int| 0 <= f < i ==> mid[f] == pre[f]);
            assert forall|f: int, g: int| 0 <= f < g < i + 1 implies br_le(now[f], now[g]) by {
                let leq = br_leq_fn();
                if g < j {
                    assert(leq(pre[f], pre[g]));
                } else if g == j {
                    assert(now[g] == x);
                    assert(leq(pre[f], x));
                } else {
                    // now[g] is mid[g - 1] = pre[g - 1], at or past the
                    // insertion point, so x precedes it in the order.
                    assert(now[g] == pre[g - 1]);
                    assert(!br_le(pre[j as int], x) || j == i);
                    if f < j {
                        assert(leq(pre[f], pre[g - 1]));
                    } else if f == j {
                        assert(now[f] == x);
                        if j < i {
                            assert(!br_le(pre[j as int], x));
                            assert(br_le(x, pre[j as int]));
                            if j < g - 1 {
                                assert(leq(pre[j as int], pre[g - 1]));
                            }
                        }
                    } else {
                        assert(now[f] == pre[f - 1]);
                        assert(leq(pre[f - 1], pre[g - 1]));
                    }
                }
            }
            assert(runs@.take(vstd::math::min(i as int + 1, orig.len() as int)) =~= runs@.take(
                i as int + 1,
            ));
        }
        i = i + 1;
    }
    proof {
        broadcast use group_to_multiset_ensures;

        lemma_br_le_total();
        orig.lemma_sort_by_ensures(br_leq_fn());
        if orig.len() == 0 {
            assert(orig.sort_by(br_leq_fn()).to_multiset() =~= orig.to_multiset());
            assert(orig.sort_by(br_leq_fn()).to_multiset().len() == 0);
            assert(runs@ =~= orig.sort_by(br_leq_fn()));
        } else {
            assert(runs@.take(vstd::math::min(i as int, orig.len() as int)) =~= runs@);
            lemma_sorted_unique(runs@, orig.sort_by(br_leq_fn()), br_leq_fn());
            assert(runs@ =~= orig.sort_by(br_leq_fn()));
        }
    }
}

/// The structural errors of constructing a file description, each naming the
/// offending runs of the sorted input.
#[derive(Debug, Clone, Copy, PartialEq, Eq, Structural)]
pub enum FileDescriptionError {
    /// Two consecutive sorted runs overlap in file space.
    Overlap(ByteRun, ByteRun),
    /// Two consecutive sorted runs leave a gap in file space.
    Gap(ByteRun, ByteRun),
    /// The first sorted run does not start at file offset zero.
    PreGap(ByteRun),
    /// No runs were given.
    Empty,
    /// A run begins at or past the declared size.
    Trailing(ByteRun, u64),
    /// The runs cover less than the declared size.
    Missing(u64, u64),
}

/// The validation outcome for the sorted runs from position `i` on, with
/// `off` bytes of file space covered so far: the first error in scan order,
/// if any.
pub open spec fn validate_from(size: u64, ss: Seq<ByteRun>, i: int, off: int) -> Option<
    FileDescriptionError,
>
    decreases ss.len() - i,
{
    if i < 1 || i >= ss.len() {
        if size > off {
            Some(FileDescriptionError::Missing(size, off as u64))
        } else {
            None
        }
    } else {
        if off >= size {
            Some(FileDescriptionError::Trailing(ss[i], size))
        } else if ss[i].file_offset > off {
            Some(FileDescriptionError::Gap(ss[i - 1], ss[i]))
        } else if ss[i].file_offset < off {
            Some(FileDescriptionError::Overlap(ss[i - 1], ss[i]))
        } else {
            validate_from(size, ss, i + 1, off + ss[i].len)
        }
    }
}

/// The validation outcome for a sorted run sequence.
pub open spec fn validate(size: u64, ss: Seq<ByteRun>) -> Option<FileDescriptionError> {
    if ss.len() == 0 {
        Some(FileDescriptionError::Empty)
    } else if ss[0].file_offset != 0 {
        Some(FileDescriptionError::PreGap(ss[0]))
    } else if ss[0].file_offset >= size {
        Some(FileDescriptionError::Trailing(ss[0], size))
    } else {
        validate_from(size, ss, 1, ss[0].len as int)
    }
}

/// The runs a successful construction stores: the sorted input with the last
/// run trimmed by the excess of the covered length over the declared size.
pub open spec fn built_runs(size: u64, ss: Seq<ByteRun>) -> Seq<ByteRun> {
    let last = ss.len() - 1;
    let excess = runs_total_len(ss) - size;
    ss.update(
        last,
        ByteRun {
            file_offset: ss[last].file_offset,
            disk_pos: ss[last].disk_pos,
            len: (ss[last].len - excess) as u64,
        },
    )
}

/// A sorted, gap-free, non-overlapping cover of `[0, size)` by byte-runs
/// with strictly positive lengths, where every run's disk range stays
/// within the address space.
pub open spec fn valid_cover(runs: Seq<ByteRun>, size: u64) -> bool {
    &&& runs.len() >= 1
    &&& runs[0].file_offset == 0
    &&& (forall|i: int|
        0 <= i < runs.len() - 1 ==> (#[trigger] runs[i + 1]).file_offset == runs[i].file_offset
            + runs[i].len)
    &&& runs.last().file_offset + runs.last().len == size
    &&& all_runs_positive(runs)
    &&& (forall|i: int|
        0 <= i < runs.len() ==> (#[trigger] runs[i]).disk_pos + runs[i].len <= u64::MAX)
}

/// An immutable, validated file description.
#[derive(Debug, Clone)]
pub struct FileDescription {
    runs: Vec<ByteRun>,
    size: u64,
}

impl FileDescription {
    /// The stored byte-runs, sorted by file offset.
    pub closed spec fn runs_seq(self) -> Seq<ByteRun> {
        self.runs@
    }

    /// The logical size of the described file.
    pub closed spec fn size_spec(self) -> u64 {
        self.size
    }

    /// The invariant every constructed description satisfies.
    pub open spec fn wf(self) -> bool {
        valid_cover(self.runs_seq(), self.size_spec())
    }

    /// Build a description of `size` bytes from an unordered collection of
    /// runs: sorts them, validates that they cover `[0, size)` exactly
    /// (gap-free, non-overlapping, starting at zero), and trims the last
    /// run's length down to the declared size.
    #[verifier::loop_isolation(false)]
    pub fn new(size: u64, runs: Vec<ByteRun>) -> (r: Result<FileDescription, FileDescriptionError>)
        requires
            all_runs_positive(runs@),
            runs_total_len(runs@) <= u64::MAX,
            forall|i: int|
                0 <= i < runs@.len() ==> (#[trigger] runs@[i]).disk_pos + runs@[i].len
                    <= u64::MAX,
        ensures
            ({
                let ss = runs@.sort_by(br_leq_fn());
                match r {
                    Ok(fd) => validate(size, ss) is None && fd.wf() && fd.size_spec() == size
                        && fd.runs_seq() == built_runs(size, ss),
                    Err(e) => validate(size, ss) == Some(e),
                }
            }),
    {
        let ghost orig = runs@;
        let mut runs = runs;
        if runs.len() == 0 {
            proof {
                broadcast use group_to_multiset_ensures;

                lemma_br_le_total();
                orig.lemma_sort_by_ensures(br_leq_fn());
                assert(orig.sort_by(br_leq_fn()).to_multiset().len() == 0);
            }
            return Err(FileDescriptionError::Empty);
        }
        sort_runs(&mut runs);
        let ghost ss = runs@;
        proof {
            broadcast use group_to_multiset_ensures;

            lemma_br_le_total();
            orig.lemma_sort_by_ensures(br_leq_fn());
            assert(ss.to_multiset() == orig.to_multiset());
            assert(ss.len() == ss.to_multiset().len());
            assert(orig.len() == orig.to_multiset().len());
            assert(ss.len() == orig.len());
            lemma_total_len_perm(orig, ss);
            assert forall|i: int| 0 <= i < ss.len() implies (#[trigger] ss[i]).disk_pos
                + ss[i].len <= u64::MAX && ss[i].len > 0 by {
                lemma_perm_preserves_membership(orig, ss, i);
                let j = choose|j: int| 0 <= j < orig.len() && orig[j] == ss[i];
            }
            lemma_total_len_nonneg(ss);
        }
        if runs[0].file_offset != 0 {
            return Err(FileDescriptionError::PreGap(runs[0]));
        }
        if runs[0].file_offset >= size {
            return Err(FileDescriptionError::Trailing(runs[0], size));
        }
        let n = runs.len();
        let mut off: u64 = runs[0].len;
        proof {
            assert(ss.take(1).drop_last() =~= Seq::<ByteRun>::empty());
            assert(ss.take(1).last() == ss[0]);
            assert(runs_total_len(Seq::<ByteRun>::empty()) == 0);
            assert(runs_total_len(ss.take(1)) == ss[0].len);
            assert(ss.take(0) =~= Seq::<ByteRun>::empty());
            assert(ss.take(n as int) =~= ss);
            assert(size > 0);
        }
        let mut i: usize = 1;
        while i < n
            invariant
                1 <= i <= n,
                n == ss.len(),
                runs@ == ss,
                ss == orig.sort_by(br_leq_fn()),
                runs_total_len(ss) <= u64::MAX,
                off == runs_total_len(ss.take(i as int)),
                runs_total_len(ss.take(i as int - 1)) < size,
                ss[0].file_offset == 0,
                ss[i - 1].file_offset + ss[i - 1].len == off,
                forall|f: int|
                    0 <= f < i - 1 ==> (#[trigger] ss[f + 1]).file_offset == ss[f].file_offset
                        + ss[f].len,
                validate(size, ss) == validate_from(size, ss, i as int, off as int),
            decreases n - i,
        {
            proof {
                // The covered prefix never exceeds the total.
                lemma_take_total_le(ss, i as int + 1);
                lemma_total_len_take(ss, i as int);
            }
            let br2 = runs[i];
            if off >= size {
                return Err(FileDescriptionError::Trailing(br2, size));
            }
            if br2.file_offset > off {
                proof {
                    assert(validate_from(size, ss, i as int, off as int) == Some(
                        FileDescriptionError::Gap(ss[i as int - 1], ss[i as int]),
                    ));
                }
                return Err(FileDescriptionError::Gap(runs[i - 1], br2));
            }
            if br2.file_offset < off {
                proof {
                    assert(validate_from(size, ss, i as int, off as int) == Some(
                        FileDescriptionError::Overlap(ss[i as int - 1], ss[i as int]),
                    ));
                }
                return Err(FileDescriptionError::Overlap(runs[i - 1], br2));
            }
            off = off + br2.len;
            i = i + 1;
        }
        if size > off {
            return Err(FileDescriptionError::Missing(size, off));
        }
        proof {
            assert(ss.take(n as int) =~= ss);
            assert(off == runs_total_len(ss));
            lemma_total_len_take(ss, n as int - 1);
            // The excess is strictly below the last run's length, so the
            // trimmed run keeps a positive length.
            assert(runs_total_len(ss.take(n as int - 1)) < size);
            assert(ss[n - 1].file_offset == runs_total_len(ss.take(n as int - 1)));
        }
        let last = n - 1;
        let old_last = runs[last];
        let excess = off - size;
        runs[last] = ByteRun {
            file_offset: old_last.file_offset,
            disk_pos: old_last.disk_pos,
            len: old_last.len - excess,
        };
        let fd = FileDescription { runs, size };
        proof {
            assert(fd.runs@ =~= built_runs(size, ss));
            assert(fd.runs@.len() == n);
            assert forall|f: int| 0 <= f < n - 1 implies (#[trigger] fd.runs@[f + 1]).file_offset
                == fd.runs@[f].file_offset + fd.runs@[f].len by {
                assert(ss[f + 1].file_offset == ss[f].file_offset + ss[f].len);
            }
            assert(fd.runs@.last().file_offset + fd.runs@.last().len == size) by {
                assert(runs_total_len(ss) == runs_total_len(ss.take(n as int - 1)) + ss.last().len);
            }
            assert(fd.wf());
        }
        Ok(fd)
    }

    /// The declared size of the described file.
    pub fn size(&self) -> (s: u64)
        ensures
            s == self.size_spec(),
    {
        self.size
    }

    /// A read-only view of the stored byte-runs.
    pub fn as_ref(&self) -> (r: &Vec<ByteRun>)
        ensures
            r@ == self.runs_seq(),
    {
        &self.runs
    }
}

/// Every run's length is strictly positive.
pub open spec fn all_runs_positive(runs: Seq<ByteRun>) -> bool {
    forall|i: int| 0 <= i < runs.len() ==> (#[trigger] runs[i]).len > 0
}

/// The run whose file-space range contains the offset `p`.
pub open spec fn run_containing(runs: Seq<ByteRun>, p: u64) -> int {
    choose|i: int|
        0 <= i < runs.len() && (#[trigger] runs[i]).file_offset <= p < runs[i].file_offset
            + runs[i].len
}

/// File offsets of a valid cover are monotone.
pub proof fn lemma_fo_monotone(runs: Seq<ByteRun>, size: u64, i: int, j: int)
    requires
        valid_cover(runs, size),
        0 <= i <= j < runs.len(),
    ensures
        runs[i].file_offset <= runs[j].file_offset,
    decreases j - i,
{
    if i < j {
        lemma_fo_monotone(runs, size, i + 1, j);
        assert(runs[i + 1].file_offset == runs[i].file_offset + runs[i].len);
    }
}

/// Every run of a valid cover ends at or before the declared size.
pub proof fn lemma_run_end_le_size(runs: Seq<ByteRun>, size: u64, i: int)
    requires
        valid_cover(runs, size),
        0 <= i < runs.len(),
    ensures
        runs[i].file_offset + runs[i].len <= size,
    decreases runs.len() - i,
{
    if i == runs.len() - 1 {
    } else {
        lemma_run_end_le_size(runs, size, i + 1);
        assert(runs[i + 1].file_offset == runs[i].file_offset + runs[i].len);
        lemma_total_len_nonneg(runs);
    }
}

/// At most one run of a valid cover contains any given offset, provided the
/// runs' lengths are positive.
pub proof fn lemma_run_containing_unique(runs: Seq<ByteRun>, size: u64, p: u64, i: int, j: int)
    requires
        valid_cover(runs, size),
        0 <= i < runs.len(),
        0 <= j < runs.len(),
        runs[i].file_offset <= p < runs[i].file_offset + runs[i].len,
        runs[j].file_offset <= p < runs[j].file_offset + runs[j].len,
    ensures
        i == j,
{
    if i < j {
        assert(runs[i + 1].file_offset == runs[i].file_offset + runs[i].len);
        lemma_fo_monotone(runs, size, i + 1, j);
    }
    if j < i {
        assert(runs[j + 1].file_offset == runs[j].file_offset + runs[j].len);
        lemma_fo_monotone(runs, size, j + 1, i);
    }
}

/// The covered prefix of a run sequence never exceeds its total length.
proof fn lemma_take_total_le(ss: Seq<ByteRun>, i: int)
    requires
        0 <= i <= ss.len(),
    ensures
        runs_total_len(ss.take(i)) <= runs_total_len(ss),
    decreases ss.len() - i,
{
    if i == ss.len() {
        assert(ss.take(i) =~= ss);
    } else {
        lemma_total_len_take(ss, i);
        lemma_take_total_le(ss, i + 1);
    }
}

impl FileDescription {
    /// A positioned reader over this description, placed at file offset
    /// `pos`. Offsets past the size are legal and land at end of file.
    #[verifier::loop_isolation(false)]
    pub fn at_pos<'a>(&'a self, pos: u64) -> (c: FileDescriptionPos<'a>)
        requires
            self.wf(),
        ensures
            c.is_at(*self, pos),
    {
        if pos > self.size {
            FileDescriptionPos { desc: self, pos, cur_run: self.runs.len(), offset_in_run: 0 }
        } else {
            // The last run whose file offset is at or below `pos`.
            let mut lo: usize = 0;
            let mut hi: usize = self.runs.len();
            proof {
                lemma_total_len_nonneg(self.runs@);
            }
            while lo < hi
                invariant
                    lo <= hi <= self.runs@.len(),
                    forall|f: int| 0 <= f < lo ==> self.runs@[f].file_offset <= pos,
                    forall|f: int| hi <= f < self.runs@.len() ==> self.runs@[f].file_offset > pos,
                decreases hi - lo,
            {
                let mid = lo + (hi - lo) / 2;
                if self.runs[mid].file_offset <= pos {
                    proof {
                        assert forall|f: int| 0 <= f < mid + 1 implies self.runs@[f].file_offset
                            <= pos by {
                            lemma_fo_monotone(self.runs@, self.size, f, mid as int);
                        }
                    }
                    lo = mid + 1;
                } else {
                    proof {
                        assert forall|f: int|
                            mid <= f < self.runs@.len() implies self.runs@[f].file_offset
                            > pos by {
                            lemma_fo_monotone(self.runs@, self.size, mid as int, f);
                        }
                    }
                    hi = mid;
                }
            }
            proof {
                assert(self.runs@[0].file_offset == 0);
                assert(lo >= 1);
            }
            let cur = lo - 1;
            let offset = pos - self.runs[cur].file_offset;
            proof {
                if cur + 1 == self.runs@.len() {
                    assert(self.runs@[cur as int].file_offset + self.runs@[cur as int].len
                        == self.size);
                } else {
                    assert(self.runs@[cur as int + 1].file_offset == self.runs@[
                        cur as int
                    ].file_offset + self.runs@[cur as int].len);
                }
            }
            FileDescriptionPos { desc: self, pos, cur_run: cur, offset_in_run: offset }
        }
    }
}

/// The error of a relative seek whose target falls outside the address
/// space.
#[derive(Debug, Clone, Copy, PartialEq, Eq, Structural)]
pub enum SeekError {
    BadSeek,
}

/// A cursor over a borrowed file description: the current file offset
/// together with the run containing it and the offset inside that run.
#[derive(Debug)]
pub struct FileDescriptionPos<'a> {
    desc: &'a FileDescription,
    pos: u64,
    cur_run: usize,
    offset_in_run: u64,
}

impl<'a> FileDescriptionPos<'a> {
    /// The borrowed description.
    pub closed spec fn desc_spec(self) -> FileDescription {
        *self.desc
    }

    /// The current file offset.
    pub closed spec fn pos_spec(self) -> u64 {
        self.pos
    }

    /// The index of the current run; the run count when at end of file.
    pub closed spec fn cur_run_spec(self) -> int {
        self.cur_run as int
    }

    /// The offset of the position inside the current run.
    pub closed spec fn offset_spec(self) -> u64 {
        self.offset_in_run
    }

    /// The cursor invariant: either past every run at or beyond the size,
    /// or inside a run with the position split consistently.
    pub open spec fn wf(self) -> bool {
        let fd = self.desc_spec();
        let runs = fd.runs_seq();
        &&& fd.wf()
        &&& self.pos_spec() > fd.size_spec() ==> (self.cur_run_spec() == runs.len()
            && self.offset_spec() == 0)
        &&& self.pos_spec() <= fd.size_spec() ==> {
            ||| (self.cur_run_spec() == runs.len() && self.pos_spec() == fd.size_spec()
                && self.offset_spec() == 0)
            ||| {
                &&& 0 <= self.cur_run_spec() < runs.len()
                &&& runs[self.cur_run_spec()].file_offset <= self.pos_spec()
                &&& self.offset_spec() == self.pos_spec() - runs[self.cur_run_spec()].file_offset
                &&& self.offset_spec() <= runs[self.cur_run_spec()].len
                &&& (self.offset_spec() == runs[self.cur_run_spec()].len ==> self.pos_spec()
                    == fd.size_spec())
            }
        }
    }

    /// The cursor stands freshly positioned at `p` over `fd`: within the
    /// last run whose file offset is at or below `p`, or past all runs when
    /// `p` exceeds the size.
    pub open spec fn is_at(self, fd: FileDescription, p: u64) -> bool {
        &&& self.desc_spec() == fd
        &&& self.pos_spec() == p
        &&& self.wf()
        &&& if p > fd.size_spec() {
            self.cur_run_spec() == fd.runs_seq().len()
        } else {
            let c = self.cur_run_spec();
            let runs = fd.runs_seq();
            &&& 0 <= c < runs.len()
            &&& runs[c].file_offset <= p
            &&& (c == runs.len() - 1 || runs[c + 1].file_offset > p)
        }
    }

    /// What a read at the current position would cover: the rest of the
    /// current run from the position on, or a zero-length sentinel at end
    /// of file.
    pub open spec fn describe_spec(self) -> ByteRun {
        let runs = self.desc_spec().runs_seq();
        if self.cur_run_spec() < runs.len() {
            ByteRun {
                file_offset: self.pos_spec(),
                disk_pos: (runs[self.cur_run_spec()].disk_pos + self.offset_spec()) as u64,
                len: (runs[self.cur_run_spec()].len - self.offset_spec()) as u64,
            }
        } else {
            ByteRun { file_offset: self.pos_spec(), disk_pos: 0, len: 0 }
        }
    }

    /// A cursor at the start of the description.
    pub fn from(desc: &'a FileDescription) -> (c: FileDescriptionPos<'a>)
        requires
            desc.wf(),
        ensures
            c.is_at(*desc, 0),
    {
        desc.at_pos(0)
    }

    /// The borrowed description.
    pub fn desc(&self) -> (d: &'a FileDescription)
        ensures
            *d == self.desc_spec(),
    {
        self.desc
    }

    pub fn pos(&self) -> (p: u64)
        ensures
            p == self.pos_spec(),
    {
        self.pos
    }

    pub fn cur_run(&self) -> (c: usize)
        ensures
            c == self.cur_run_spec(),
    {
        self.cur_run
    }

    pub fn offset_in_run(&self) -> (o: u64)
        ensures
            o == self.offset_spec(),
    {
        self.offset_in_run
    }

    /// Report, without advancing, the byte-run from the current position to
    /// the end of the current run (zero-length at end of file).
    pub fn desc_read(&self) -> (r: ByteRun)
        requires
            self.wf(),
        ensures
            r == self.describe_spec(),
    {
        if self.cur_run != self.desc.runs.len() {
            proof {
                assert(self.desc.runs@[self.cur_run as int].disk_pos + self.desc.runs@[
                    self.cur_run as int
                ].len <= u64::MAX);
            }
            ByteRun {
                file_offset: self.pos,
                disk_pos: self.desc.runs[self.cur_run].disk_pos + self.offset_in_run,
                len: self.desc.runs[self.cur_run].len - self.offset_in_run,
            }
        } else {
            ByteRun { file_offset: self.pos, disk_pos: 0, len: 0 }
        }
    }

    /// Advance the cursor by `n` bytes, at most to the end of the current
    /// run; advancing exactly to the end moves to the next run. At end of
    /// file the reported length is zero, so only `n == 0` is allowed, and
    /// nothing changes.
    pub fn adv(&mut self, n: usize)
        requires
            old(self).wf(),
            n as int <= old(self).describe_spec().len,
        ensures
            final(self).wf(),
            final(self).desc_spec() == old(self).desc_spec(),
            final(self).pos_spec() == old(self).pos_spec() + n,
            ({
                if old(self).cur_run_spec() == old(self).desc_spec().runs_seq().len() {
                    *final(self) == *old(self)
                } else if (n as int) < old(self).desc_spec().runs_seq()[old(self).cur_run_spec()].len - old(self).offset_spec() {
                    final(self).cur_run_spec() == old(self).cur_run_spec() && final(self).offset_spec() == old(self).offset_spec() + n
                } else {
                    final(self).cur_run_spec() == old(self).cur_run_spec() + 1 && final(self).offset_spec() == 0
                }
            }),
    {
        let nruns = self.desc.runs.len();
        if self.cur_run == nruns {
            return;
        }
        proof {
            let fd = self.desc_spec();
            let c = self.cur_run_spec();
            lemma_run_end_le_size(fd.runs_seq(), fd.size_spec(), c);
            if c + 1 < fd.runs_seq().len() {
                assert(fd.runs_seq()[c + 1].file_offset == fd.runs_seq()[c].file_offset
                    + fd.runs_seq()[c].len);
            }
            assert(self.cur_run < nruns);
        }
        let n64 = n as u64;
        let rem = self.desc.runs[self.cur_run].len - self.offset_in_run;
        if n64 < rem {
            self.pos = self.pos + n64;
            self.offset_in_run = self.offset_in_run + n64;
        } else {
            self.pos = self.pos + rem;
            self.cur_run = self.cur_run + 1;
            self.offset_in_run = 0;
        }
    }

    /// Relocate to the absolute file offset `x`.
    pub fn seek_from_start(&mut self, x: u64) -> (r: u64)
        requires
            old(self).wf(),
        ensures
            r == x,
            final(self).is_at(old(self).desc_spec(), x),
    {
        let d = self.desc;
        *self = d.at_pos(x);
        x
    }

    /// Relocate relative to the current position; a target outside
    /// `[0, u64::MAX]` fails without moving.
    pub fn seek_from_current(&mut self, offset: i64) -> (r: Result<u64, SeekError>)
        requires
            old(self).wf(),
        ensures
            match r {
                Ok(x) => x == old(self).pos_spec() + offset && final(self).is_at(
                    old(self).desc_spec(),
                    x,
                ),
                Err(SeekError::BadSeek) => (old(self).pos_spec() + offset < 0 || old(self).pos_spec() + offset > u64::MAX) && *final(self) == *old(self),
            },
    {
        match self.pos.checked_add_signed(offset) {
            Some(x) => {
                let d = self.desc;
                *self = d.at_pos(x);
                Ok(x)
            },
            None => Err(SeekError::BadSeek),
        }
    }

    /// Relocate relative to the end of the description.
    pub fn seek_from_end(&mut self, offset: i64) -> (r: Result<u64, SeekError>)
        requires
            old(self).wf(),
        ensures
            match r {
                Ok(x) => x == old(self).desc_spec().size_spec() + offset && final(self).is_at(
                    old(self).desc_spec(),
                    x,
                ),
                Err(SeekError::BadSeek) => (old(self).desc_spec().size_spec() + offset < 0 || old(self).desc_spec().size_spec() + offset > u64::MAX) && *final(self) == *old(self),
            },
    {
        let base = self.desc.size;
        match base.checked_add_signed(offset) {
            Some(x) => {
                let d = self.desc;
                *self = d.at_pos(x);
                Ok(x)
            },
            None => Err(SeekError::BadSeek),
        }
    }
}

/// A cursor over some description of scattered file contents: it reports
/// the byte-run from its position to the end of the current run and
/// advances within it.
pub trait DescRead {
    /// The state in which the cursor operations are meaningful.
    spec fn ok(&self) -> bool;

    /// What a read at the cursor would cover.
    spec fn read_result(&self) -> ByteRun;

    fn desc_read(&self) -> (r: ByteRun)
        requires
            self.ok(),
        ensures
            r == self.read_result(),
    ;

    fn adv(&mut self, n: usize)
        requires
            old(self).ok(),
            n as int <= old(self).read_result().len,
        ensures
            final(self).ok(),
    ;
}

impl<'a> DescRead for FileDescriptionPos<'a> {
    open spec fn ok(&self) -> bool {
        self.wf()
    }

    open spec fn read_result(&self) -> ByteRun {
        self.describe_spec()
    }

    fn desc_read(&self) -> (r: ByteRun) {
        let me: &FileDescriptionPos<'a> = self;
        me.desc_read()
    }

    fn adv(&mut self, n: usize) {
        let me: &mut FileDescriptionPos<'a> = self;
        me.adv(n)
    }
}

/// Construction invariants: every accepted description's runs are sorted by
/// the total order, start at file offset zero, are gap-free and
/// non-overlapping with strictly positive lengths, and their lengths sum
/// exactly to the size.
pub proof fn lemma_construction_invariants(fd: FileDescription)
    requires
        fd.wf(),
    ensures
        fd.runs_seq().len() >= 1,
        fd.runs_seq()[0].file_offset == 0,
        forall|i: int|
            0 <= i < fd.runs_seq().len() - 1 ==> (#[trigger] fd.runs_seq()[i + 1]).file_offset
                == fd.runs_seq()[i].file_offset + fd.runs_seq()[i].len,
        all_runs_positive(fd.runs_seq()),
        runs_total_len(fd.runs_seq()) == fd.size_spec(),
        sorted_by(fd.runs_seq(), br_leq_fn()),
{
    lemma_cover_total(fd.runs_seq(), fd.size_spec());
    let runs = fd.runs_seq();
    assert forall|i: int, j: int| 0 <= i < j < runs.len() implies br_leq_fn()(
        runs[i],
        runs[j],
    ) by {
        lemma_fo_monotone(runs, fd.size_spec(), i + 1, j);
        assert(runs[i + 1].file_offset == runs[i].file_offset + runs[i].len);
        assert(runs[i].file_offset < runs[j].file_offset);
    }
}

/// Seek consistency: a freshly positioned cursor at any `p` within the file
/// describes a read starting exactly at `p`, at the disk position of `p`
/// inside the unique run containing it, extending to that run's end; at the
/// size it describes a zero-length read.
pub proof fn lemma_seek_consistency(fd: FileDescription, c: FileDescriptionPos, p: u64)
    requires
        fd.wf(),
        c.is_at(fd, p),
        p <= fd.size_spec(),
    ensures
        c.describe_spec().file_offset == p,
        p < fd.size_spec() ==> {
            let i = run_containing(fd.runs_seq(), p);
            let runs = fd.runs_seq();
            &&& 0 <= i < runs.len()
            &&& runs[i].file_offset <= p < runs[i].file_offset + runs[i].len
            &&& c.describe_spec().disk_pos == runs[i].disk_pos + (p - runs[i].file_offset)
            &&& c.describe_spec().len == runs[i].file_offset + runs[i].len - p
        },
        p == fd.size_spec() ==> c.describe_spec().len == 0,
{
    let runs = fd.runs_seq();
    let cur = c.cur_run_spec();
    if cur < runs.len() {
        lemma_run_end_le_size(runs, fd.size_spec(), cur);
        if p < fd.size_spec() {
            // The cursor's run strictly contains the position.
            if c.offset_spec() == runs[cur].len {
                if cur == runs.len() - 1 {
                    assert(p == fd.size_spec());
                } else {
                    assert(runs[cur + 1].file_offset == runs[cur].file_offset + runs[cur].len);
                    assert(runs[cur + 1].file_offset > p);
                    assert(false);
                }
            }
            assert(runs[cur].file_offset <= p < runs[cur].file_offset + runs[cur].len);
            let i = run_containing(runs, p);
            assert(0 <= i < runs.len() && runs[i].file_offset <= p < runs[i].file_offset
                + runs[i].len);
            lemma_run_containing_unique(runs, fd.size_spec(), p, i, cur);
        }
    } else {
        assert(p == fd.size_spec());
    }
}

impl SegmentArray for FileDescription {
    /// The disk segments induced by the runs, in file-offset order.
    open spec fn seg_seq(&self) -> Seq<(u64, u64)> {
        self.runs_seq().map(|i: int, br: ByteRun| (br.disk_pos, (br.disk_pos + br.len) as u64))
    }

    open spec fn seg_wf(&self) -> bool {
        self.wf()
    }

    /// Payload equality of items is equality of the whole byte-runs.
    open spec fn item_eq_spec(&self, i: int, other: &Self, j: int) -> bool {
        self.runs_seq()[i] == other.runs_seq()[j]
    }

    proof fn lemma_item_eq(&self, i: int, other: &Self, j: int) {
        assert(self.seg_seq()[i] == ((self.runs_seq()[i].disk_pos, (self.runs_seq()[i].disk_pos
            + self.runs_seq()[i].len) as u64)));
        assert(other.seg_seq()[j] == ((other.runs_seq()[j].disk_pos, (other.runs_seq()[j].disk_pos
            + other.runs_seq()[j].len) as u64)));
    }

    fn seg_count(&self) -> (n: usize) {
        self.runs.len()
    }

    fn seg_at(&self, i: usize) -> (s: Segment) {
        proof {
            assert(self.runs@[i as int].disk_pos + self.runs@[i as int].len <= u64::MAX);
            assert(self.seg_seq()[i as int] == ((self.runs_seq()[i as int].disk_pos, (
            self.runs_seq()[i as int].disk_pos + self.runs_seq()[i as int].len) as u64)));
        }
        let br = self.runs[i];
        Segment { start: br.disk_pos, end: br.disk_pos + br.len }
    }

    fn item_eq(&self, i: usize, other: &Self, j: usize) -> (b: bool) {
        let a = self.runs[i];
        let b2 = other.runs[j];
        a.file_offset == b2.file_offset && a.disk_pos == b2.disk_pos && a.len == b2.len
    }
}

/// The file offset of each run of a valid cover equals the total length of
/// the runs before it.
pub proof fn lemma_cover_offset_at(runs: Seq<ByteRun>, size: u64, i: int)
    requires
        valid_cover(runs, size),
        0 <= i < runs.len(),
    ensures
        runs[i].file_offset == runs_total_len(runs.take(i)),
    decreases i,
{
    if i == 0 {
        assert(runs.take(0) =~= Seq::<ByteRun>::empty());
    } else {
        lemma_cover_offset_at(runs, size, i - 1);
        lemma_total_len_take(runs, i - 1);
        assert(runs[i].file_offset == runs[i - 1].file_offset + runs[i - 1].len);
    }
}

/// The run lengths of a valid cover sum exactly to its size.
pub proof fn lemma_cover_total(runs: Seq<ByteRun>, size: u64)
    requires
        valid_cover(runs, size),
    ensures
        runs_total_len(runs) == size,
{
    let n = runs.len() as int;
    lemma_cover_offset_at(runs, size, n - 1);
    lemma_total_len_take(runs, n - 1);
    assert(runs.take(n) =~= runs);
}

} // verus!
