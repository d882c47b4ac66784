//! A multiplexer of whole segment arrays over the interval container.
//!
//! A segment array is any record exposing an ordered sequence of proper,
//! pairwise disjoint disk segments with payload-level equality of its items.
//! The tree stores such arrays in a vector and registers every segment of a
//! stored array in an embedded `SegmentTree` under the array's index. Two
//! stored arrays may relate only by one being a segment-level extension of
//! the other, and only the longest variant of each compatibility class is
//! retained.

use vstd::prelude::*;

use crate::segment_tree::{segs_overlap, Entry, Segment, SegmentTree, SegmentTreeError};

verus! {

/// The capabilities the tree needs from a description: an ordered view of
/// proper disk segments, and payload-level equality of items, which must
/// refine segment equality and be reflexive.
pub trait SegmentArray: Sized {
    /// The ordered view of the disk segments, as `(start, end)` pairs.
    spec fn seg_seq(&self) -> Seq<(u64, u64)>;

    /// The state under which the executable views below are meaningful.
    spec fn seg_wf(&self) -> bool;

    /// Payload-level equality of item `i` of `self` and item `j` of `other`.
    spec fn item_eq_spec(&self, i: int, other: &Self, j: int) -> bool;

    /// Payload equality implies segment equality, and an item is always
    /// payload-equal to itself.
    proof fn lemma_item_eq(&self, i: int, other: &Self, j: int)
        requires
            0 <= i < self.seg_seq().len(),
            0 <= j < other.seg_seq().len(),
        ensures
            self.item_eq_spec(i, other, j) ==> self.seg_seq()[i] == other.seg_seq()[j],
            self.item_eq_spec(i, self, i),
    ;

    fn seg_count(&self) -> (n: usize)
        requires
            self.seg_wf(),
        ensures
            n == self.seg_seq().len(),
    ;

    fn seg_at(&self, i: usize) -> (s: Segment)
        requires
            self.seg_wf(),
            i < self.seg_seq().len(),
        ensures
            s.start == self.seg_seq()[i as int].0,
            s.end == self.seg_seq()[i as int].1,
    ;

    fn item_eq(&self, i: usize, other: &Self, j: usize) -> (b: bool)
        requires
            self.seg_wf(),
            other.seg_wf(),
            i < self.seg_seq().len(),
            j < other.seg_seq().len(),
        ensures
            b == self.item_eq_spec(i as int, other, j as int),
    ;
}

/// Every segment is proper and no two distinct segments of the array share
/// a point.
pub open spec fn valid_seg_array(s: Seq<(u64, u64)>) -> bool {
    &&& (forall|i: int| 0 <= i < s.len() ==> (#[trigger] s[i]).0 < s[i].1)
    &&& (forall|i: int, j: int|
        0 <= i < s.len() && 0 <= j < s.len() && i != j ==> !segs_overlap(
            (#[trigger] s[i]).0,
            s[i].1,
            (#[trigger] s[j]).0,
            s[j].1,
        ))
}

/// The first `n` items of `a` and `b` are payload-equal.
pub open spec fn prefix_compatible<M: SegmentArray>(a: &M, b: &M, n: int) -> bool {
    forall|j: int| 0 <= j < n ==> a.item_eq_spec(j, b, j)
}

#[derive(Debug, Clone, Copy, PartialEq, Eq, Structural)]
pub enum SegmentArrayTreeError {
    /// A segment of the argument partially intersects a segment owned by the
    /// stored array at this index.
    IntersectingSegment(usize),
    /// The argument overlaps two disjoint stored arrays, at least at these
    /// two indexes.
    OverlappingSegmentArrays(usize, usize),
    /// The argument overlaps the stored array at this index without one
    /// being a segment-level extension of the other.
    IncompatibleSegmentArrays(usize),
}

/// Every stored-array index an error carries lies below `n`.
pub open spec fn error_in_range(e: SegmentArrayTreeError, n: int) -> bool {
    match e {
        SegmentArrayTreeError::IntersectingSegment(k) => (k as int) < n,
        SegmentArrayTreeError::OverlappingSegmentArrays(k1, k2) => (k1 as int) < n && (k2 as int)
            < n,
        SegmentArrayTreeError::IncompatibleSegmentArrays(k) => (k as int) < n,
    }
}

#[derive(Debug, Clone, PartialEq, Eq)]
pub enum AddStatus<M> {
    /// The segment array was added; it intersected no stored one.
    Added,
    /// The tree already contained an equal or longer variant; here is the
    /// argument back.
    AlreadyContained(M),
    /// The segment array extended a stored one, which is handed back.
    Replaced(M),
}

#[derive(Debug, Clone)]
pub struct SegmentArrayTree<M> {
    tree: SegmentTree<usize>,
    segment_arrays: Vec<M>,
}

impl<M: SegmentArray> SegmentArrayTree<M> {
    /// The stored arrays, in insertion order.
    pub closed spec fn arrays(self) -> Seq<M> {
        self.segment_arrays@
    }

    /// The segment `[s, e)` is registered in the embedded interval container.
    pub closed spec fn stores(self, s: u64, e: u64) -> bool {
        self.tree.has_seg(s, e)
    }

    /// The index of the stored array owning the registered segment `[s, e)`.
    pub closed spec fn owner_of(self, s: u64, e: u64) -> usize {
        self.tree.seg_val(s, e)
    }

    /// Item `j` of the stored array `k`, as a segment.
    pub closed spec fn arr_seg(self, k: int, j: int) -> (u64, u64) {
        self.segment_arrays@[k].seg_seq()[j]
    }

    /// The invariant: registered segments and stored arrays index each
    /// other. Every registered segment belongs to the array it names, and
    /// every segment of every stored array is registered under that array's
    /// index; stored arrays are well formed with proper disjoint segments.
    pub closed spec fn inv(self) -> bool {
        &&& self.tree.wf()
        &&& (forall|s: u64, e: u64| #[trigger]
            self.tree.has_seg(s, e) ==> {
                let k = self.tree.seg_val(s, e) as int;
                &&& 0 <= k < self.segment_arrays@.len()
                &&& exists|j: int|
                    0 <= j < self.segment_arrays@[k].seg_seq().len() && self.arr_seg(k, j) == (
                    s,
                    e,
                )
            })
        &&& (forall|k: int, j: int|
            0 <= k < self.segment_arrays@.len() && 0 <= j
                < self.segment_arrays@[k].seg_seq().len() ==> {
                let se = #[trigger] self.arr_seg(k, j);
                self.tree.has_seg(se.0, se.1) && self.tree.seg_val(se.0, se.1) == k
            })
        &&& (forall|k: int|
            0 <= k < self.segment_arrays@.len() ==> (#[trigger] self.segment_arrays@[k]).seg_wf()
                && valid_seg_array(self.segment_arrays@[k].seg_seq()))
    }

    /// The stored segment containing the point `p`.
    pub closed spec fn containing_seg(self, p: u64) -> (u64, u64) {
        choose|se: (u64, u64)| self.tree.has_seg(se.0, se.1) && se.0 <= p < se.1
    }

    /// The intersection witness that classifying `[s, e)` reports.
    pub closed spec fn witness_of(self, s: u64, e: u64) -> u64 {
        if self.tree.covers(s) {
            s
        } else {
            choose|a: u64| self.tree.is_min_start_in(s, e, a)
        }
    }

    /// The owner index reported for a partial intersection of `[s, e)`.
    pub closed spec fn intersect_owner(self, s: u64, e: u64) -> usize {
        let se = self.containing_seg(self.witness_of(s, e));
        self.tree.seg_val(se.0, se.1)
    }

    /// The outcome of scanning the segments of a query array from position
    /// `i` with accumulated candidate `acc`: the single stored index that
    /// every registered segment of the query resolves to, or the first
    /// conflict.
    pub closed spec fn search_from(
        self,
        segs: Seq<(u64, u64)>,
        i: int,
        acc: Option<usize>,
    ) -> Result<Option<usize>, SegmentArrayTreeError>
        decreases segs.len() - i,
    {
        if i < 0 || i >= segs.len() {
            Ok(acc)
        } else {
            let s = segs[i].0;
            let e = segs[i].1;
            if self.tree.has_seg(s, e) {
                let k = self.tree.seg_val(s, e);
                match acc {
                    Some(a) => if a != k {
                        Err(SegmentArrayTreeError::OverlappingSegmentArrays(a, k))
                    } else {
                        self.search_from(segs, i + 1, acc)
                    },
                    None => self.search_from(segs, i + 1, Some(k)),
                }
            } else if !self.tree.intersects(s, e) {
                self.search_from(segs, i + 1, acc)
            } else {
                Err(SegmentArrayTreeError::IntersectingSegment(self.intersect_owner(s, e)))
            }
        }
    }

    /// The outcome of classifying a whole query array.
    pub closed spec fn search_spec(self, segs: Seq<(u64, u64)>) -> Result<
        Option<usize>,
        SegmentArrayTreeError,
    > {
        self.search_from(segs, 0, None)
    }

    pub fn new() -> (t: SegmentArrayTree<M>)
        ensures
            t.inv(),
            t.arrays() =~= Seq::<M>::empty(),
            forall|s: u64, e: u64| !t.stores(s, e),
    {
        SegmentArrayTree { tree: SegmentTree::new(), segment_arrays: Vec::new() }
    }

    /// When a scan concluded without a candidate, no scanned segment was
    /// registered or intersecting.
    proof fn lemma_search_none(self, segs: Seq<(u64, u64)>, i: int, f: int)
        requires
            0 <= i <= f < segs.len(),
            self.search_from(segs, i, None) == Ok::<Option<usize>, SegmentArrayTreeError>(None),
        ensures
            !self.tree.has_seg(segs[f].0, segs[f].1),
            !self.tree.intersects(segs[f].0, segs[f].1),
        decreases f - i,
    {
        if self.tree.has_seg(segs[i].0, segs[i].1) {
            self.lemma_search_some_stays(segs, i + 1, self.tree.seg_val(segs[i].0, segs[i].1));
            assert(false);
        }
        if i < f {
            self.lemma_search_none(segs, i + 1, f);
        }
    }

    /// A scan that already holds a candidate never returns to none.
    proof fn lemma_search_some_stays(self, segs: Seq<(u64, u64)>, i: int, k: usize)
        requires
            self.search_from(segs, i, Some(k)).is_ok(),
        ensures
            self.search_from(segs, i, Some(k)) == Ok::<Option<usize>, SegmentArrayTreeError>(Some(k)),
        decreases segs.len() - i,
    {
        if 0 <= i < segs.len() {
            self.lemma_search_some_stays(segs, i + 1, k);
        }
    }

    /// When a scan concluded with candidate `k`, every scanned segment is
    /// either registered to `k` or intersects nothing.
    proof fn lemma_search_some(self, segs: Seq<(u64, u64)>, i: int, acc: Option<usize>, k: usize, f: int)
        requires
            0 <= i <= f < segs.len(),
            acc == Option::<usize>::None || acc == Some(k),
            self.search_from(segs, i, acc) == Ok::<Option<usize>, SegmentArrayTreeError>(Some(k)),
        ensures
            (self.tree.has_seg(segs[f].0, segs[f].1) && self.tree.seg_val(segs[f].0, segs[f].1)
                == k) || !self.tree.intersects(segs[f].0, segs[f].1),
        decreases f - i,
    {
        let s = segs[i].0;
        let e = segs[i].1;
        if self.tree.has_seg(s, e) {
            let k2 = self.tree.seg_val(s, e);
            self.lemma_search_some_stays(segs, i + 1, k2);
            assert(k2 == k);
            if i < f {
                self.lemma_search_some(segs, i + 1, Some(k), k, f);
            }
        } else {
            if i < f {
                self.lemma_search_some(segs, i + 1, acc, k, f);
            }
        }
    }

    /// With no registered segment, a scan keeps its accumulator.
    proof fn lemma_search_vacuous(self, segs: Seq<(u64, u64)>, i: int, acc: Option<usize>)
        requires
            0 <= i <= segs.len(),
            forall|s: u64, e: u64| !#[trigger] self.tree.has_seg(s, e),
        ensures
            self.search_from(segs, i, acc) == Ok::<Option<usize>, SegmentArrayTreeError>(acc),
        decreases segs.len() - i,
    {
        if i < segs.len() {
            assert(!self.tree.intersects(segs[i].0, segs[i].1)) by {
                if self.tree.intersects(segs[i].0, segs[i].1) {
                    let (s, e) = choose|s: u64, e: u64|
                        self.tree.has_seg(s, e) && segs_overlap(s, e, segs[i].0, segs[i].1);
                    assert(self.tree.has_seg(s, e));
                }
            }
            self.lemma_search_vacuous(segs, i + 1, acc);
        }
    }

    /// A tree storing nothing classifies every query array as fresh:
    /// together with the contract of `add`, the first add on a new tree
    /// returns `Added`.
    pub proof fn lemma_search_fresh(self, segs: Seq<(u64, u64)>)
        requires
            self.inv(),
            self.arrays().len() == 0,
        ensures
            self.search_spec(segs) == Ok::<Option<usize>, SegmentArrayTreeError>(None),
    {
        assert forall|s: u64, e: u64| !#[trigger] self.tree.has_seg(s, e) by {
            if self.tree.has_seg(s, e) {
                assert(0 <= (self.tree.seg_val(s, e) as int) < self.segment_arrays@.len());
            }
        }
        self.lemma_search_vacuous(segs, 0, None);
    }

    /// Classify the argument against the stored arrays: `None` when nothing
    /// intersects, the single stored index every registered segment resolves
    /// to, or the first conflict found in segment order.
    pub fn search_intersecting(&self, seg_arr: &M) -> (r: Result<
        Option<usize>,
        SegmentArrayTreeError,
    >)
        requires
            self.inv(),
            seg_arr.seg_wf(),
            valid_seg_array(seg_arr.seg_seq()),
        ensures
            r == self.search_spec(seg_arr.seg_seq()),
            match r {
                Ok(Some(k)) => (k as int) < self.arrays().len(),
                Ok(None) => true,
                Err(e) => error_in_range(e, self.arrays().len() as int),
            },
    {
        let ghost segs = seg_arr.seg_seq();
        let n = seg_arr.seg_count();
        let mut idx: Option<usize> = None;
        let mut i: usize = 0;
        while i < n
            invariant
                self.inv(),
                seg_arr.seg_wf(),
                valid_seg_array(segs),
                segs == seg_arr.seg_seq(),
                n == segs.len(),
                i <= n,
                idx matches Some(a) ==> (a as int) < self.segment_arrays@.len(),
                self.search_spec(segs) == self.search_from(segs, i as int, idx),
            decreases n - i,
        {
            let seg = seg_arr.seg_at(i);
            let ghost s = seg.start;
            let ghost e = seg.end;
            match self.tree.get_segment(&seg) {
                Ok(None) => {
                    proof {
                        if self.tree.has_seg(s, e) {
                            self.tree.lemma_has_seg_proper(s, e);
                            assert(segs_overlap(s, e, s, e));
                        }
                        assert(self.search_from(segs, i as int, idx) == self.search_from(
                            segs,
                            i as int + 1,
                            idx,
                        ));
                    }
                    i = i + 1;
                },
                Ok(Some(x)) => {
                    let x = *x;
                    proof {
                        assert((x as int) < self.segment_arrays@.len());
                    }
                    match idx {
                        Some(a) => {
                            if a != x {
                                return Err(SegmentArrayTreeError::OverlappingSegmentArrays(a, x));
                            }
                        },
                        None => {
                            idx = Some(x);
                        },
                    }
                    proof {
                        assert(self.search_spec(segs) == self.search_from(
                            segs,
                            i as int + 1,
                            Some(x),
                        ));
                    }
                    i = i + 1;
                },
                Err(SegmentTreeError::Intersect(point)) => {
                    proof {
                        self.lemma_witness_covered(s, e, point);
                    }
                    match self.tree.get_containing_segment(&point) {
                        Some((cseg, owner)) => {
                            proof {
                                let wse = self.containing_seg(point);
                                assert(self.tree.has_seg(wse.0, wse.1) && wse.0 <= point
                                    < wse.1);
                                self.tree.lemma_containing_unique(
                                    point,
                                    cseg.start,
                                    cseg.end,
                                    wse.0,
                                    wse.1,
                                );
                                assert(*owner == self.intersect_owner(s, e));
                                assert((*owner as int) < self.segment_arrays@.len());
                            }
                            return Err(SegmentArrayTreeError::IntersectingSegment(*owner));
                        },
                        None => {
                            return vstd::pervasive::unreached();
                        },
                    }
                },
            }
        }
        Ok(idx)
    }


    /// The witness reported for a partial intersection lies inside a stored
    /// segment and equals the witness the specification names.
    proof fn lemma_witness_covered(self, s: u64, e: u64, w: u64)
        requires
            self.tree.wf(),
            s < e,
            self.tree.intersects(s, e),
            !self.tree.has_seg(s, e),
            self.tree.reports_witness(s, e, w),
        ensures
            self.tree.covers(w),
            w == self.witness_of(s, e),
    {
        if self.tree.covers(s) {
        } else {
            assert(self.tree.is_min_start_in(s, e, w));
            let a0 = choose|a: u64| self.tree.is_min_start_in(s, e, a);
            assert(self.tree.is_min_start_in(s, e, a0)) by {
                assert(self.tree.is_min_start_in(s, e, w));
            }
            assert(a0 <= w && w <= a0);
            let we = choose|we: u64| self.tree.has_seg(w, we);
            assert(self.tree.has_seg(w, we));
            self.tree.lemma_has_seg_proper(w, we);
            assert(self.tree.covers(w));
        }
    }

    /// A scan that produced a candidate saw at least one registered segment
    /// owned by it.
    proof fn lemma_search_some_exists(self, segs: Seq<(u64, u64)>, i: int, k: usize)
        requires
            0 <= i <= segs.len(),
            self.search_from(segs, i, None) == Ok::<Option<usize>, SegmentArrayTreeError>(
                Some(k),
            ),
        ensures
            exists|f: int|
                0 <= f < segs.len() && self.tree.has_seg((#[trigger] segs[f]).0, segs[f].1)
                    && self.tree.seg_val(segs[f].0, segs[f].1) == k,
        decreases segs.len() - i,
    {
        assert(i < segs.len());
        let s = segs[i].0;
        let e = segs[i].1;
        if self.tree.has_seg(s, e) {
            let k2 = self.tree.seg_val(s, e);
            self.lemma_search_some_stays(segs, i + 1, k2);
            assert(segs[i].0 == s && segs[i].1 == e);
        } else {
            self.lemma_search_some_exists(segs, i + 1, k);
        }
    }

    /// Scanning segments that are all registered to `k` keeps the candidate.
    proof fn lemma_search_owned(self, segs: Seq<(u64, u64)>, i: int, k: usize)
        requires
            0 <= i <= segs.len(),
            forall|f: int|
                i <= f < segs.len() ==> self.tree.has_seg((#[trigger] segs[f]).0, segs[f].1)
                    && self.tree.seg_val(segs[f].0, segs[f].1) == k,
        ensures
            self.search_from(segs, i, Some(k)) == Ok::<Option<usize>, SegmentArrayTreeError>(
                Some(k),
            ),
        decreases segs.len() - i,
    {
        if i < segs.len() {
            self.lemma_search_owned(segs, i + 1, k);
        }
    }

    /// Register every segment of the stored array `k` in the interval
    /// container under `k`: segments already registered (necessarily to `k`)
    /// are kept, the rest are inserted. Nothing else changes.
    fn register_segments(&mut self, k: usize)
        requires
            old(self).tree.wf(),
            (k as int) < old(self).segment_arrays@.len(),
            old(self).segment_arrays@[k as int].seg_wf(),
            valid_seg_array(old(self).segment_arrays@[k as int].seg_seq()),
            forall|j: int|
                0 <= j < old(self).segment_arrays@[k as int].seg_seq().len() ==> {
                    let se = #[trigger] old(self).arr_seg(k as int, j);
                    (old(self).tree.has_seg(se.0, se.1) && old(self).tree.seg_val(se.0, se.1)
                        == k) || !old(self).tree.intersects(se.0, se.1)
                },
        ensures
            final(self).tree.wf(),
            final(self).segment_arrays@ == old(self).segment_arrays@,
            forall|s: u64, e: u64| #[trigger]
                final(self).tree.has_seg(s, e) ==> old(self).tree.has_seg(s, e) || seg_in(
                    old(self).segment_arrays@[k as int].seg_seq(),
                    s,
                    e,
                ),
            forall|s: u64, e: u64| #[trigger]
                old(self).tree.has_seg(s, e) ==> final(self).tree.has_seg(s, e) && final(self).tree.seg_val(s, e) == old(self).tree.seg_val(s, e),
            forall|s: u64, e: u64| #[trigger]
                seg_in(old(self).segment_arrays@[k as int].seg_seq(), s, e) ==> final(self).tree.has_seg(s, e) && final(self).tree.seg_val(s, e) == k,
    {
        let ghost t0 = *self;
        let ghost segsk = old(self).segment_arrays@[k as int].seg_seq();
        proof {
            assert forall|jj: int| 0 <= jj < segsk.len() implies {
                let se = #[trigger] segsk[jj];
                (t0.tree.has_seg(se.0, se.1) && t0.tree.seg_val(se.0, se.1) == k)
                    || !t0.tree.intersects(se.0, se.1)
            } by {
                assert(t0.arr_seg(k as int, jj) == segsk[jj]);
            }
        }
        let count = self.segment_arrays[k].seg_count();
        let mut j: usize = 0;
        while j < count
            invariant
                self.tree.wf(),
                self.segment_arrays@ == t0.segment_arrays@,
                (k as int) < t0.segment_arrays@.len(),
                t0.segment_arrays@[k as int].seg_wf(),
                valid_seg_array(segsk),
                segsk == t0.segment_arrays@[k as int].seg_seq(),
                count == segsk.len(),
                j <= count,
                forall|jj: int|
                    0 <= jj < segsk.len() ==> {
                        let se = #[trigger] segsk[jj];
                        (t0.tree.has_seg(se.0, se.1) && t0.tree.seg_val(se.0, se.1) == k)
                            || !t0.tree.intersects(se.0, se.1)
                    },
                forall|s: u64, e: u64| #[trigger]
                    self.tree.has_seg(s, e) ==> t0.tree.has_seg(s, e) || (exists|f: int|
                        0 <= f < j && #[trigger] segsk[f] == (s, e)),
                forall|s: u64, e: u64| #[trigger]
                    t0.tree.has_seg(s, e) ==> self.tree.has_seg(s, e) && self.tree.seg_val(s, e)
                        == t0.tree.seg_val(s, e),
                forall|f: int|
                    0 <= f < j ==> self.tree.has_seg((#[trigger] segsk[f]).0, segsk[f].1)
                        && self.tree.seg_val(segsk[f].0, segsk[f].1) == k,
            decreases count - j,
        {
            let seg = self.segment_arrays[k].seg_at(j);
            let ghost s = seg.start;
            let ghost e = seg.end;
            proof {
                assert(segsk[j as int].0 == s && segsk[j as int].1 == e);
                assert(s < e);
                if !self.tree.has_seg(s, e) {
                    // Not registered yet: nothing in the container
                    // intersects it, neither an old segment nor one inserted
                    // in an earlier round.
                    assert forall|a: u64, b: u64| #[trigger]
                        self.tree.has_seg(a, b) implies !segs_overlap(a, b, s, e) by {
                        if t0.tree.has_seg(a, b) {
                            if segs_overlap(a, b, s, e) {
                                assert(t0.tree.intersects(s, e));
                                assert(t0.tree.has_seg(s, e) && t0.tree.seg_val(s, e) == k);
                                assert(self.tree.has_seg(s, e));
                                assert(false);
                            }
                        } else {
                            let f = choose|f: int| 0 <= f < j && #[trigger] segsk[f] == (a, b);
                            assert(!segs_overlap(
                                segsk[f].0,
                                segsk[f].1,
                                segsk[j as int].0,
                                segsk[j as int].1,
                            ));
                        }
                    }
                    assert(!self.tree.intersects(s, e));
                } else {
                    // Already registered: it must be owned by `k`, as an old
                    // registered segment of `k` or one inserted here.
                    if t0.tree.has_seg(s, e) {
                        assert(t0.tree.intersects(s, e)) by {
                            assert(segs_overlap(s, e, s, e));
                        }
                        assert(self.tree.seg_val(s, e) == k);
                    } else {
                        let f = choose|f: int| 0 <= f < j && #[trigger] segsk[f] == (s, e);
                        assert(self.tree.seg_val(s, e) == k);
                    }
                }
            }
            match self.tree.entry_segment(seg) {
                Ok(Entry::Vacant(v)) => {
                    v.insert(&mut self.tree, k);
                },
                Ok(Entry::Occupied(_)) => {},
                Err(_) => {
                    proof {
                        if self.tree.has_seg(s, e) {
                            assert(false);
                        }
                        assert(false);
                    }
                },
            }
            j = j + 1;
        }
    }

    /// Add a segment array. On any conflict the argument is returned beside
    /// the error and nothing changes. Otherwise the array is appended when
    /// nothing intersects it; against the single compatible stored array it
    /// either replaces a shorter variant (which is handed back) or is handed
    /// back itself as already contained.
    pub fn add(&mut self, seg_arr: M) -> (r: Result<AddStatus<M>, (M, SegmentArrayTreeError)>)
        requires
            old(self).inv(),
            seg_arr.seg_wf(),
            valid_seg_array(seg_arr.seg_seq()),
        ensures
            final(self).inv(),
            match r {
                Ok(AddStatus::Added) => old(self).search_spec(seg_arr.seg_seq()) == Ok::<
                    Option<usize>,
                    SegmentArrayTreeError,
                >(None) && final(self).arrays() =~= old(self).arrays().push(seg_arr)
                    && Self::registered(
                    *old(self),
                    *final(self),
                    seg_arr.seg_seq(),
                    old(self).arrays().len() as usize,
                ),
                Ok(AddStatus::AlreadyContained(m)) => m == seg_arr && *final(self) == *old(self)
                    && (match old(self).search_spec(seg_arr.seg_seq()) {
                    Ok(Some(k)) => prefix_compatible(
                        &seg_arr,
                        &old(self).arrays()[k as int],
                        seg_arr.seg_seq().len() as int,
                    ) && seg_arr.seg_seq().len() <= old(self).arrays()[
                        k as int
                    ].seg_seq().len(),
                    _ => false,
                }),
                Ok(AddStatus::Replaced(m_old)) => (match old(self).search_spec(
                    seg_arr.seg_seq(),
                ) {
                    Ok(Some(k)) => m_old == old(self).arrays()[k as int] && prefix_compatible(
                        &seg_arr,
                        &m_old,
                        m_old.seg_seq().len() as int,
                    ) && seg_arr.seg_seq().len() > m_old.seg_seq().len() && final(self).arrays()
                        =~= old(self).arrays().update(k as int, seg_arr) && Self::registered(
                        *old(self),
                        *final(self),
                        seg_arr.seg_seq(),
                        k,
                    ),
                    _ => false,
                }),
                Err((m, err)) => m == seg_arr && *final(self) == *old(self) && error_in_range(
                    err,
                    old(self).arrays().len() as int,
                ) && (match old(self).search_spec(seg_arr.seg_seq()) {
                    Err(e0) => err == e0,
                    Ok(Some(k)) => err == SegmentArrayTreeError::IncompatibleSegmentArrays(k)
                        && !prefix_compatible(
                        &seg_arr,
                        &old(self).arrays()[k as int],
                        vstd::math::min(
                            seg_arr.seg_seq().len() as int,
                            old(self).arrays()[k as int].seg_seq().len() as int,
                        ),
                    ),
                    Ok(None) => false,
                }),
            },
    {
        let ghost t0 = *self;
        let ghost segs = seg_arr.seg_seq();
        let idx = match self.search_intersecting(&seg_arr) {
            Ok(i) => i,
            Err(e) => {
                return Err((seg_arr, e));
            },
        };
        match idx {
            None => {
                let ghost garr = seg_arr;
                let m = self.segment_arrays.len();
                self.segment_arrays.push(seg_arr);
                proof {
                    assert(self.tree == t0.tree);
                }
                proof {
                    assert forall|j: int| 0 <= j < segs.len() implies {
                        let se = #[trigger] self.arr_seg(m as int, j);
                        (self.tree.has_seg(se.0, se.1) && self.tree.seg_val(se.0, se.1) == m)
                            || !self.tree.intersects(se.0, se.1)
                    } by {
                        assert(self.arr_seg(m as int, j) == segs[j]);
                        t0.lemma_search_none(segs, 0, j);
                    }
                }
                self.register_segments(m);
                proof {
                    self.lemma_added_inv(t0, segs, m as int);
                    assert(self.arrays() =~= t0.arrays().push(garr));
                    assert forall|s: u64, e: u64| #[trigger]
                        self.stores(s, e) implies t0.stores(s, e) || seg_in(segs, s, e) by {
                        assert(self.tree.has_seg(s, e));
                    }
                    assert forall|s: u64, e: u64| #[trigger]
                        t0.stores(s, e) implies self.stores(s, e) && self.owner_of(s, e)
                            == t0.owner_of(s, e) by {
                        assert(t0.tree.has_seg(s, e));
                    }
                    assert forall|s: u64, e: u64| #[trigger]
                        seg_in(segs, s, e) implies self.stores(s, e) && self.owner_of(s, e)
                            == m by {
                        assert(seg_in(garr.seg_seq(), s, e));
                    }
                    assert(Self::registered(t0, *self, segs, m));
                }
                Ok(AddStatus::Added)
            },
            Some(x) => {
                proof {
                    t0.lemma_search_some_exists(segs, 0, x);
                    let f = choose|f: int|
                        0 <= f < segs.len() && t0.tree.has_seg((#[trigger] segs[f]).0, segs[f].1)
                            && t0.tree.seg_val(segs[f].0, segs[f].1) == x;
                    assert((x as int) < t0.segment_arrays@.len());
                }
                let n_new = seg_arr.seg_count();
                let n_old = self.segment_arrays[x].seg_count();
                let lim = if n_new < n_old {
                    n_new
                } else {
                    n_old
                };
                let mut j: usize = 0;
                while j < lim
                    invariant
                        self.inv(),
                        *self == t0,
                        seg_arr.seg_wf(),
                        segs == seg_arr.seg_seq(),
                        (x as int) < t0.segment_arrays@.len(),
                        n_new == segs.len(),
                        n_old == t0.segment_arrays@[x as int].seg_seq().len(),
                        lim == vstd::math::min(n_new as int, n_old as int),
                        j <= lim,
                        t0.search_spec(segs) == Ok::<Option<usize>, SegmentArrayTreeError>(
                            Some(x),
                        ),
                        forall|jj: int|
                            0 <= jj < j ==> seg_arr.item_eq_spec(
                                jj,
                                &t0.segment_arrays@[x as int],
                                jj,
                            ),
                    decreases lim - j,
                {
                    if !seg_arr.item_eq(j, &self.segment_arrays[x], j) {
                        proof {
                            assert(!seg_arr.item_eq_spec(
                                j as int,
                                &t0.segment_arrays@[x as int],
                                j as int,
                            ));
                            assert(!prefix_compatible(
                                &seg_arr,
                                &t0.segment_arrays@[x as int],
                                vstd::math::min(
                                    seg_arr.seg_seq().len() as int,
                                    t0.segment_arrays@[x as int].seg_seq().len() as int,
                                ),
                            ));
                        }
                        return Err((seg_arr, SegmentArrayTreeError::IncompatibleSegmentArrays(x)));
                    }
                    j = j + 1;
                }
                if n_new > n_old {
                    let mut seg_arr = seg_arr;
                    let slot = &mut self.segment_arrays[x];
                    core::mem::swap(&mut seg_arr, slot);
                    proof {
                        assert(self.segment_arrays@ =~= t0.segment_arrays@.update(
                            x as int,
                            *slot,
                        ));
                        assert(self.tree == t0.tree);
                    }
                    proof {
                        // Every segment of the new array is either already
                        // registered to `x` or intersects nothing.
                        assert forall|j2: int| 0 <= j2 < segs.len() implies {
                            let se = #[trigger] self.arr_seg(x as int, j2);
                            (self.tree.has_seg(se.0, se.1) && self.tree.seg_val(se.0, se.1) == x)
                                || !self.tree.intersects(se.0, se.1)
                        } by {
                            assert(self.arr_seg(x as int, j2) == segs[j2]);
                            t0.lemma_search_some(segs, 0, None, x, j2);
                        }
                    }
                    self.register_segments(x);
                    proof {
                        self.lemma_replaced_inv(t0, &seg_arr, segs, x as int);
                    }
                    Ok(AddStatus::Replaced(seg_arr))
                } else {
                    Ok(AddStatus::AlreadyContained(seg_arr))
                }
            },
        }
    }

    /// The tree-level effect of registering the segments `segs` under `k`:
    /// exactly those segments appear, owned by `k`, and every previously
    /// registered segment keeps its owner.
    pub open spec fn registered(
        pre: SegmentArrayTree<M>,
        post: SegmentArrayTree<M>,
        segs: Seq<(u64, u64)>,
        k: usize,
    ) -> bool {
        &&& (forall|s: u64, e: u64| #[trigger]
            post.stores(s, e) ==> pre.stores(s, e) || seg_in(segs, s, e))
        &&& (forall|s: u64, e: u64| #[trigger]
            pre.stores(s, e) ==> post.stores(s, e) && post.owner_of(s, e) == pre.owner_of(s, e))
        &&& (forall|s: u64, e: u64| #[trigger]
            seg_in(segs, s, e) ==> post.stores(s, e) && post.owner_of(s, e) == k)
    }

    /// Invariant restoration after appending a fresh array.
    proof fn lemma_added_inv(self, t0: SegmentArrayTree<M>, segs: Seq<(u64, u64)>, m: int)
        requires
            t0.inv(),
            self.tree.wf(),
            m == t0.segment_arrays@.len(),
            self.segment_arrays@ == t0.segment_arrays@.push(self.segment_arrays@[m]),
            self.segment_arrays@.len() == m + 1,
            self.segment_arrays@[m].seg_wf(),
            valid_seg_array(segs),
            segs == self.segment_arrays@[m].seg_seq(),
            forall|s: u64, e: u64| #[trigger]
                self.tree.has_seg(s, e) ==> t0.tree.has_seg(s, e) || seg_in(segs, s, e),
            forall|s: u64, e: u64| #[trigger]
                t0.tree.has_seg(s, e) ==> self.tree.has_seg(s, e) && self.tree.seg_val(s, e)
                    == t0.tree.seg_val(s, e),
            forall|s: u64, e: u64| #[trigger]
                seg_in(segs, s, e) ==> self.tree.has_seg(s, e) && self.tree.seg_val(s, e) == m,
        ensures
            self.inv(),
    {
        assert forall|s: u64, e: u64| #[trigger] self.tree.has_seg(s, e) implies {
            let k = self.tree.seg_val(s, e) as int;
            &&& 0 <= k < self.segment_arrays@.len()
            &&& exists|j: int|
                0 <= j < self.segment_arrays@[k].seg_seq().len() && self.arr_seg(k, j) == (s, e)
        } by {
            if t0.tree.has_seg(s, e) {
                let k = t0.tree.seg_val(s, e) as int;
                assert(0 <= k < t0.segment_arrays@.len());
                let j = choose|j: int|
                    0 <= j < t0.segment_arrays@[k].seg_seq().len() && t0.arr_seg(k, j) == (s, e);
                assert(self.segment_arrays@[k] == t0.segment_arrays@[k]);
                assert(self.arr_seg(k, j) == (s, e));
            } else {
                assert(seg_in(segs, s, e));
                let j = choose|j: int| 0 <= j < segs.len() && #[trigger] segs[j] == (s, e);
                assert(self.arr_seg(m, j) == (s, e));
                assert(self.tree.seg_val(s, e) == m);
            }
        }
        assert forall|k: int, j: int|
            0 <= k < self.segment_arrays@.len() && 0 <= j
                < self.segment_arrays@[k].seg_seq().len() implies {
            let se = #[trigger] self.arr_seg(k, j);
            self.tree.has_seg(se.0, se.1) && self.tree.seg_val(se.0, se.1) == k
        } by {
            if k < m {
                assert(self.segment_arrays@[k] == t0.segment_arrays@[k]);
                assert(t0.arr_seg(k, j) == self.arr_seg(k, j));
                let se = t0.arr_seg(k, j);
                assert(t0.tree.has_seg(se.0, se.1) && t0.tree.seg_val(se.0, se.1) == k);
            } else {
                assert(k == m);
                assert(self.arr_seg(k, j) == segs[j]);
                assert(seg_in(segs, segs[j].0, segs[j].1)) by {
                    assert(segs[j] == (segs[j].0, segs[j].1));
                }
            }
        }
        assert forall|k: int| 0 <= k < self.segment_arrays@.len() implies (
        #[trigger] self.segment_arrays@[k]).seg_wf() && valid_seg_array(
            self.segment_arrays@[k].seg_seq(),
        ) by {
            if k < m {
                assert(self.segment_arrays@[k] == t0.segment_arrays@[k]);
            }
        }
    }

    /// Invariant restoration after replacing the array at `x` with a longer
    /// compatible extension.
    proof fn lemma_replaced_inv(
        self,
        t0: SegmentArrayTree<M>,
        m_old: &M,
        segs: Seq<(u64, u64)>,
        x: int,
    )
        requires
            t0.inv(),
            self.tree.wf(),
            0 <= x < t0.segment_arrays@.len(),
            *m_old == t0.segment_arrays@[x],
            self.segment_arrays@ == t0.segment_arrays@.update(x, self.segment_arrays@[x]),
            self.segment_arrays@.len() == t0.segment_arrays@.len(),
            self.segment_arrays@[x].seg_wf(),
            valid_seg_array(segs),
            segs == self.segment_arrays@[x].seg_seq(),
            m_old.seg_seq().len() <= segs.len(),
            prefix_compatible(&self.segment_arrays@[x], m_old, m_old.seg_seq().len() as int),
            forall|s: u64, e: u64| #[trigger]
                self.tree.has_seg(s, e) ==> t0.tree.has_seg(s, e) || seg_in(segs, s, e),
            forall|s: u64, e: u64| #[trigger]
                t0.tree.has_seg(s, e) ==> self.tree.has_seg(s, e) && self.tree.seg_val(s, e)
                    == t0.tree.seg_val(s, e),
            forall|s: u64, e: u64| #[trigger]
                seg_in(segs, s, e) ==> self.tree.has_seg(s, e) && self.tree.seg_val(s, e) == x,
        ensures
            self.inv(),
    {
        let arr_new = self.segment_arrays@[x];
        assert forall|j: int| 0 <= j < m_old.seg_seq().len() implies arr_new.seg_seq()[j]
            == m_old.seg_seq()[j] by {
            arr_new.lemma_item_eq(j, m_old, j);
        }
        assert forall|s: u64, e: u64| #[trigger] self.tree.has_seg(s, e) implies {
            let k = self.tree.seg_val(s, e) as int;
            &&& 0 <= k < self.segment_arrays@.len()
            &&& exists|j: int|
                0 <= j < self.segment_arrays@[k].seg_seq().len() && self.arr_seg(k, j) == (s, e)
        } by {
            if t0.tree.has_seg(s, e) {
                let k = t0.tree.seg_val(s, e) as int;
                assert(0 <= k < t0.segment_arrays@.len());
                let j = choose|j: int|
                    0 <= j < t0.segment_arrays@[k].seg_seq().len() && t0.arr_seg(k, j) == (s, e);
                if k != x {
                    assert(self.segment_arrays@[k] == t0.segment_arrays@[k]);
                    assert(self.arr_seg(k, j) == (s, e));
                } else {
                    // A registered segment of the old variant is the same
                    // segment of the compatible prefix of the new one.
                    assert(m_old.seg_seq()[j] == (s, e));
                    assert(arr_new.seg_seq()[j] == (s, e));
                    assert(self.arr_seg(x, j) == (s, e));
                }
            } else {
                assert(seg_in(segs, s, e));
                let j = choose|j: int| 0 <= j < segs.len() && #[trigger] segs[j] == (s, e);
                assert(self.arr_seg(x, j) == (s, e));
                assert(self.tree.seg_val(s, e) == x);
            }
        }
        assert forall|k: int, j: int|
            0 <= k < self.segment_arrays@.len() && 0 <= j
                < self.segment_arrays@[k].seg_seq().len() implies {
            let se = #[trigger] self.arr_seg(k, j);
            self.tree.has_seg(se.0, se.1) && self.tree.seg_val(se.0, se.1) == k
        } by {
            if k != x {
                assert(self.segment_arrays@[k] == t0.segment_arrays@[k]);
                assert(t0.arr_seg(k, j) == self.arr_seg(k, j));
                let se = t0.arr_seg(k, j);
                assert(t0.tree.has_seg(se.0, se.1) && t0.tree.seg_val(se.0, se.1) == k);
            } else {
                assert(self.arr_seg(k, j) == segs[j]);
                assert(seg_in(segs, segs[j].0, segs[j].1)) by {
                    assert(segs[j] == (segs[j].0, segs[j].1));
                }
            }
        }
        assert forall|k: int| 0 <= k < self.segment_arrays@.len() implies (
        #[trigger] self.segment_arrays@[k]).seg_wf() && valid_seg_array(
            self.segment_arrays@[k].seg_seq(),
        ) by {
            if k != x {
                assert(self.segment_arrays@[k] == t0.segment_arrays@[k]);
            }
        }
    }

    /// Borrow the stored array at `idx`.
    pub fn get_by_idx(&self, idx: usize) -> (m: &M)
        requires
            (idx as int) < self.arrays().len(),
        ensures
            *m == self.arrays()[idx as int],
    {
        &self.segment_arrays[idx]
    }

    /// The stored arrays, in insertion order.
    pub fn iter(&self) -> (v: &Vec<M>)
        ensures
            v@ == self.arrays(),
    {
        &self.segment_arrays
    }

    /// Idempotence of adding: an array stored at `k` — as every freshly
    /// added array is — classifies back to the candidate `k`, and is
    /// payload-compatible with itself over its whole length. By the contract
    /// of `add`, adding it again therefore returns `AlreadyContained`, and
    /// adding a strictly longer compatible extension returns `Replaced`.
    pub proof fn lemma_stored_array_redetected(self, k: int)
        requires
            self.inv(),
            0 <= k < self.arrays().len(),
            self.arrays()[k].seg_seq().len() > 0,
        ensures
            self.search_spec(self.arrays()[k].seg_seq()) == Ok::<
                Option<usize>,
                SegmentArrayTreeError,
            >(Some(k as usize)),
            prefix_compatible(
                &self.arrays()[k],
                &self.arrays()[k],
                self.arrays()[k].seg_seq().len() as int,
            ),
    {
        let segs = self.segment_arrays@[k].seg_seq();
        assert forall|f: int| 0 <= f < segs.len() implies self.tree.has_seg(
            (#[trigger] segs[f]).0,
            segs[f].1,
        ) && self.tree.seg_val(segs[f].0, segs[f].1) == k by {
            assert(self.arr_seg(k, f) == segs[f]);
        }
        self.lemma_search_owned(segs, 1, k as usize);
        assert(self.search_from(segs, 0, None) == self.search_from(segs, 1, Some(k as usize)));
        let arr = self.segment_arrays@[k];
        assert forall|j: int| 0 <= j < segs.len() implies arr.item_eq_spec(j, &arr, j) by {
            arr.lemma_item_eq(j, &arr, j);
        }
    }
}

/// The segment `[s, e)` occurs in the sequence.
pub open spec fn seg_in(segs: Seq<(u64, u64)>, s: u64, e: u64) -> bool {
    exists|j: int| 0 <= j < segs.len() && #[trigger] segs[j] == (s, e)
}

/// Check that a segment array's view is usable by the tree: every segment
/// proper and no two sharing a point. Callers that cannot establish this
/// statically test it with this function before adding.
pub fn segs_are_valid<M: SegmentArray>(m: &M) -> (b: bool)
    requires
        m.seg_wf(),
    ensures
        b == valid_seg_array(m.seg_seq()),
{
    let ghost segs = m.seg_seq();
    let n = m.seg_count();
    let mut i: usize = 0;
    while i < n
        invariant
            m.seg_wf(),
            segs == m.seg_seq(),
            n == segs.len(),
            i <= n,
            forall|f: int| 0 <= f < i ==> (#[trigger] segs[f]).0 < segs[f].1,
            forall|f: int, g: int|
                0 <= f < i && 0 <= g < f ==> !segs_overlap(
                    (#[trigger] segs[f]).0,
                    segs[f].1,
                    (#[trigger] segs[g]).0,
                    segs[g].1,
                ),
        decreases n - i,
    {
        let si = m.seg_at(i);
        if si.start >= si.end {
            return false;
        }
        let mut g: usize = 0;
        while g < i
            invariant
                m.seg_wf(),
                segs == m.seg_seq(),
                n == segs.len(),
                g <= i < n,
                si.start == segs[i as int].0 && si.end == segs[i as int].1,
                forall|f: int|
                    0 <= f < g ==> !segs_overlap(
                        (#[trigger] segs[i as int]).0,
                        segs[i as int].1,
                        (#[trigger] segs[f]).0,
                        segs[f].1,
                    ),
            decreases i - g,
        {
            let sg = m.seg_at(g);
            if si.start < sg.end && sg.start < si.end {
                return false;
            }
            g = g + 1;
        }
        i = i + 1;
    }
    proof {
        assert forall|f: int, g: int|
            0 <= f < segs.len() && 0 <= g < segs.len() && f != g implies !segs_overlap(
            (#[trigger] segs[f]).0,
            segs[f].1,
            (#[trigger] segs[g]).0,
            segs[g].1,
        ) by {
            if f < g {
                assert(!segs_overlap(segs[g].0, segs[g].1, segs[f].0, segs[f].1));
            }
        }
    }
    true
}

/// Errors of the reduced multiplexer variant: the raw interval container
/// error with its witness point, or a bare conflict kind.
#[derive(Debug, Clone, Copy, PartialEq, Eq, Structural)]
pub enum FileDescriptionTreeError {
    SegmentTreeError(SegmentTreeError),
    OverlappingFileDecriptions,
    IncompatibleFileDescriptions,
}

/// A reduced variant of the segment-array multiplexer: the same storage
/// and replacement policy, with errors that carry the raw intersection
/// witness instead of owner indexes, and a single `Option` result folding
/// the contained and replaced outcomes.
#[derive(Debug, Clone)]
pub struct FileDescriptionTree<M> {
    inner: SegmentArrayTree<M>,
}

impl<M: SegmentArray> FileDescriptionTree<M> {
    /// The underlying segment-array tree.
    pub closed spec fn inner_spec(self) -> SegmentArrayTree<M> {
        self.inner
    }

    pub open spec fn inv(self) -> bool {
        self.inner_spec().inv()
    }

    pub open spec fn arrays(self) -> Seq<M> {
        self.inner_spec().arrays()
    }

    /// The scan outcome, with this variant's error vocabulary.
    pub closed spec fn search_from(
        t: SegmentArrayTree<M>,
        segs: Seq<(u64, u64)>,
        i: int,
        acc: Option<usize>,
    ) -> Result<Option<usize>, FileDescriptionTreeError>
        decreases segs.len() - i,
    {
        if i < 0 || i >= segs.len() {
            Ok(acc)
        } else {
            let s = segs[i].0;
            let e = segs[i].1;
            if t.tree.has_seg(s, e) {
                let k = t.tree.seg_val(s, e);
                match acc {
                    Some(a) => if a != k {
                        Err(FileDescriptionTreeError::OverlappingFileDecriptions)
                    } else {
                        Self::search_from(t, segs, i + 1, acc)
                    },
                    None => Self::search_from(t, segs, i + 1, Some(k)),
                }
            } else if !t.tree.intersects(s, e) {
                Self::search_from(t, segs, i + 1, acc)
            } else {
                Err(
                    FileDescriptionTreeError::SegmentTreeError(
                        SegmentTreeError::Intersect(t.witness_of(s, e)),
                    ),
                )
            }
        }
    }

    pub closed spec fn search_spec(t: SegmentArrayTree<M>, segs: Seq<(u64, u64)>) -> Result<
        Option<usize>,
        FileDescriptionTreeError,
    > {
        Self::search_from(t, segs, 0, None)
    }

    /// A scan that concluded without error agrees with the segment-array
    /// tree's own scan.
    proof fn lemma_search_agrees(
        t: SegmentArrayTree<M>,
        segs: Seq<(u64, u64)>,
        i: int,
        acc: Option<usize>,
        v: Option<usize>,
    )
        requires
            Self::search_from(t, segs, i, acc) == Ok::<Option<usize>, FileDescriptionTreeError>(
                v,
            ),
        ensures
            t.search_from(segs, i, acc) == Ok::<Option<usize>, SegmentArrayTreeError>(v),
        decreases segs.len() - i,
    {
        if 0 <= i < segs.len() {
            let s = segs[i].0;
            let e = segs[i].1;
            if t.tree.has_seg(s, e) {
                let k = t.tree.seg_val(s, e);
                match acc {
                    Some(a) => {
                        Self::lemma_search_agrees(t, segs, i + 1, acc, v);
                    },
                    None => {
                        Self::lemma_search_agrees(t, segs, i + 1, Some(k), v);
                    },
                }
            } else {
                Self::lemma_search_agrees(t, segs, i + 1, acc, v);
            }
        }
    }

    pub fn new() -> (t: FileDescriptionTree<M>)
        ensures
            t.inv(),
            t.arrays() =~= Seq::<M>::empty(),
    {
        FileDescriptionTree { inner: SegmentArrayTree::new() }
    }

    /// Add a description: append it when nothing intersects, replace the
    /// single shorter compatible stored variant (handing the old one back),
    /// or hand the argument back when an equal or longer variant is stored.
    /// On a conflict nothing changes and the error carries the raw witness.
    pub fn add(&mut self, desc: M) -> (r: Result<Option<M>, FileDescriptionTreeError>)
        requires
            old(self).inv(),
            desc.seg_wf(),
            valid_seg_array(desc.seg_seq()),
        ensures
            final(self).inv(),
            match r {
                Ok(None) => Self::search_spec(old(self).inner_spec(), desc.seg_seq()) == Ok::<
                    Option<usize>,
                    FileDescriptionTreeError,
                >(None) && final(self).arrays() =~= old(self).arrays().push(desc)
                    && SegmentArrayTree::<M>::registered(
                    old(self).inner_spec(),
                    final(self).inner_spec(),
                    desc.seg_seq(),
                    old(self).arrays().len() as usize,
                ),
                Ok(Some(m)) => (match Self::search_spec(old(self).inner_spec(), desc.seg_seq()) {
                    Ok(Some(k)) => {
                        let stored = old(self).arrays()[k as int];
                        &&& prefix_compatible(
                            &desc,
                            &stored,
                            vstd::math::min(
                                desc.seg_seq().len() as int,
                                stored.seg_seq().len() as int,
                            ),
                        )
                        &&& if desc.seg_seq().len() > stored.seg_seq().len() {
                            &&& m == stored
                            &&& final(self).arrays() =~= old(self).arrays().update(k as int, desc)
                            &&& SegmentArrayTree::<M>::registered(
                                old(self).inner_spec(),
                                final(self).inner_spec(),
                                desc.seg_seq(),
                                k,
                            )
                        } else {
                            m == desc && *final(self) == *old(self)
                        }
                    },
                    _ => false,
                }),
                Err(e) => *final(self) == *old(self) && (match Self::search_spec(
                    old(self).inner_spec(),
                    desc.seg_seq(),
                ) {
                    Err(e0) => e == e0,
                    Ok(Some(k)) => e == FileDescriptionTreeError::IncompatibleFileDescriptions
                        && !prefix_compatible(
                        &desc,
                        &old(self).arrays()[k as int],
                        vstd::math::min(
                            desc.seg_seq().len() as int,
                            old(self).arrays()[k as int].seg_seq().len() as int,
                        ),
                    ),
                    Ok(None) => false,
                }),
            },
    {
        let ghost t0 = self.inner;
        let ghost segs = desc.seg_seq();
        let n = desc.seg_count();
        let mut idx: Option<usize> = None;
        let mut i: usize = 0;
        while i < n
            invariant
                self.inner.inv(),
                self.inner == t0,
                desc.seg_wf(),
                valid_seg_array(segs),
                segs == desc.seg_seq(),
                n == segs.len(),
                i <= n,
                Self::search_spec(t0, segs) == Self::search_from(t0, segs, i as int, idx),
            decreases n - i,
        {
            let seg = desc.seg_at(i);
            let ghost s = seg.start;
            let ghost e = seg.end;
            match self.inner.tree.get_segment(&seg) {
                Ok(None) => {
                    proof {
                        if self.inner.tree.has_seg(s, e) {
                            self.inner.tree.lemma_has_seg_proper(s, e);
                            assert(segs_overlap(s, e, s, e));
                        }
                    }
                    i = i + 1;
                },
                Ok(Some(x)) => {
                    let x = *x;
                    match idx {
                        Some(a) => {
                            if a != x {
                                return Err(FileDescriptionTreeError::OverlappingFileDecriptions);
                            }
                        },
                        None => {
                            idx = Some(x);
                        },
                    }
                    proof {
                        assert(Self::search_spec(t0, segs) == Self::search_from(
                            t0,
                            segs,
                            i as int + 1,
                            Some(x),
                        ));
                    }
                    i = i + 1;
                },
                Err(SegmentTreeError::Intersect(point)) => {
                    proof {
                        self.inner.lemma_witness_covered(s, e, point);
                    }
                    return Err(
                        FileDescriptionTreeError::SegmentTreeError(
                            SegmentTreeError::Intersect(point),
                        ),
                    );
                },
            }
        }
        proof {
            Self::lemma_search_agrees(t0, segs, 0, None, idx);
        }
        match idx {
            None => {
                let ghost garr = desc;
                let m = self.inner.segment_arrays.len();
                self.inner.segment_arrays.push(desc);
                proof {
                    assert(self.inner.tree == t0.tree);
                    assert forall|j: int| 0 <= j < segs.len() implies {
                        let se = #[trigger] self.inner.arr_seg(m as int, j);
                        (self.inner.tree.has_seg(se.0, se.1) && self.inner.tree.seg_val(
                            se.0,
                            se.1,
                        ) == m) || !self.inner.tree.intersects(se.0, se.1)
                    } by {
                        assert(self.inner.arr_seg(m as int, j) == segs[j]);
                        t0.lemma_search_none(segs, 0, j);
                    }
                }
                self.inner.register_segments(m);
                proof {
                    self.inner.lemma_added_inv(t0, segs, m as int);
                    assert(self.inner.segment_arrays@ =~= t0.segment_arrays@.push(garr));
                    assert forall|s: u64, e: u64| #[trigger]
                        self.inner.stores(s, e) implies t0.stores(s, e) || seg_in(segs, s, e) by {
                        assert(self.inner.tree.has_seg(s, e));
                    }
                    assert forall|s: u64, e: u64| #[trigger]
                        t0.stores(s, e) implies self.inner.stores(s, e) && self.inner.owner_of(
                        s,
                        e,
                    ) == t0.owner_of(s, e) by {
                        assert(t0.tree.has_seg(s, e));
                    }
                    assert forall|s: u64, e: u64| #[trigger]
                        seg_in(segs, s, e) implies self.inner.stores(s, e) && self.inner.owner_of(
                        s,
                        e,
                    ) == m by {
                        assert(seg_in(garr.seg_seq(), s, e));
                    }
                    assert(SegmentArrayTree::<M>::registered(t0, self.inner, segs, m));
                }
                Ok(None)
            },
            Some(x) => {
                proof {
                    t0.lemma_search_some_exists(segs, 0, x);
                    let f = choose|f: int|
                        0 <= f < segs.len() && t0.tree.has_seg((#[trigger] segs[f]).0, segs[f].1)
                            && t0.tree.seg_val(segs[f].0, segs[f].1) == x;
                    assert((x as int) < t0.segment_arrays@.len());
                }
                let n_new = desc.seg_count();
                let n_old = self.inner.segment_arrays[x].seg_count();
                let lim = if n_new < n_old {
                    n_new
                } else {
                    n_old
                };
                let mut j: usize = 0;
                while j < lim
                    invariant
                        self.inner.inv(),
                        self.inner == t0,
                        desc.seg_wf(),
                        segs == desc.seg_seq(),
                        (x as int) < t0.segment_arrays@.len(),
                        n_new == segs.len(),
                        n_old == t0.segment_arrays@[x as int].seg_seq().len(),
                        lim == vstd::math::min(n_new as int, n_old as int),
                        j <= lim,
                        Self::search_spec(t0, segs) == Ok::<
                            Option<usize>,
                            FileDescriptionTreeError,
                        >(Some(x)),
                        forall|jj: int|
                            0 <= jj < j ==> desc.item_eq_spec(
                                jj,
                                &t0.segment_arrays@[x as int],
                                jj,
                            ),
                    decreases lim - j,
                {
                    if !desc.item_eq(j, &self.inner.segment_arrays[x], j) {
                        proof {
                            assert(!desc.item_eq_spec(
                                j as int,
                                &t0.segment_arrays@[x as int],
                                j as int,
                            ));
                        }
                        return Err(FileDescriptionTreeError::IncompatibleFileDescriptions);
                    }
                    j = j + 1;
                }
                if n_new > n_old {
                    let mut desc = desc;
                    let slot = &mut self.inner.segment_arrays[x];
                    core::mem::swap(&mut desc, slot);
                    proof {
                        assert(self.inner.segment_arrays@ =~= t0.segment_arrays@.update(
                            x as int,
                            *slot,
                        ));
                        assert(self.inner.tree == t0.tree);
                    }
                    proof {
                        assert forall|j2: int| 0 <= j2 < segs.len() implies {
                            let se = #[trigger] self.inner.arr_seg(x as int, j2);
                            (self.inner.tree.has_seg(se.0, se.1) && self.inner.tree.seg_val(
                                se.0,
                                se.1,
                            ) == x) || !self.inner.tree.intersects(se.0, se.1)
                        } by {
                            assert(self.inner.arr_seg(x as int, j2) == segs[j2]);
                            t0.lemma_search_some(segs, 0, None, x, j2);
                        }
                    }
                    self.inner.register_segments(x);
                    proof {
                        self.inner.lemma_replaced_inv(t0, &desc, segs, x as int);
                        assert forall|s: u64, e: u64| #[trigger]
                            self.inner.stores(s, e) implies t0.stores(s, e) || seg_in(
                            segs,
                            s,
                            e,
                        ) by {
                            assert(self.inner.tree.has_seg(s, e));
                        }
                        assert forall|s: u64, e: u64| #[trigger]
                            t0.stores(s, e) implies self.inner.stores(s, e)
                            && self.inner.owner_of(s, e) == t0.owner_of(s, e) by {
                            assert(t0.tree.has_seg(s, e));
                        }
                        assert forall|s: u64, e: u64| #[trigger]
                            seg_in(segs, s, e) implies self.inner.stores(s, e)
                            && self.inner.owner_of(s, e) == x by {}
                        assert(SegmentArrayTree::<M>::registered(t0, self.inner, segs, x));
                    }
                    Ok(Some(desc))
                } else {
                    Ok(Some(desc))
                }
            },
        }
    }
}

/// One segment with an auxiliary payload tag; payload equality compares the
/// whole record.
#[derive(Clone, Copy, PartialEq, Eq, Debug, Structural)]
pub struct TaggedSegment {
    pub start: u64,
    pub end: u64,
    pub tag: u64,
}

/// The simplest segment array: a vector of tagged segments plus an
/// identifying number, enough to exercise the tree without a full file
/// description.
#[derive(Clone, Debug, PartialEq, Eq)]
pub struct TaggedSegmentArray {
    pub segs: Vec<TaggedSegment>,
    pub num: u64,
}

impl SegmentArray for TaggedSegmentArray {
    open spec fn seg_seq(&self) -> Seq<(u64, u64)> {
        self.segs@.map(|i: int, t: TaggedSegment| (t.start, t.end))
    }

    open spec fn seg_wf(&self) -> bool {
        true
    }

    open spec fn item_eq_spec(&self, i: int, other: &Self, j: int) -> bool {
        self.segs@[i] == other.segs@[j]
    }

    proof fn lemma_item_eq(&self, i: int, other: &Self, j: int) {
    }

    fn seg_count(&self) -> (n: usize) {
        self.segs.len()
    }

    fn seg_at(&self, i: usize) -> (s: Segment) {
        let t = self.segs[i];
        Segment { start: t.start, end: t.end }
    }

    fn item_eq(&self, i: usize, other: &Self, j: usize) -> (b: bool) {
        let a = self.segs[i];
        let b = other.segs[j];
        a.start == b.start && a.end == b.end && a.tag == b.tag
    }
}

} // verus!
