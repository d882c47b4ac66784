//! An interval container keyed by half-open segments `[start, end)`.
//!
//! The container stores a finite set of pairwise disjoint segments, each
//! carrying a payload. Two touching segments (one ending where the next
//! starts) are allowed. The representation is a single ordered sequence of
//! anchors, one per distinct segment endpoint: a `Start` anchor opens a
//! segment, an `End` anchor closes one and carries its payload, and an
//! `EndStart` anchor stands at a point where one segment ends and another
//! begins, carrying the payload of the segment that ends there.

use vstd::prelude::*;

verus! {

/// A half-open interval `[start, end)` of disk positions.
#[derive(Clone, Copy, PartialEq, Eq, PartialOrd, Ord, Hash, Debug, Structural)]
pub struct Segment {
    pub start: u64,
    pub end: u64,
}

impl Segment {
    /// A segment is always proper: its start lies strictly below its end.
    pub fn new(start: u64, end: u64) -> (s: Segment)
        requires
            start < end,
        ensures
            s.start == start,
            s.end == end,
    {
        Segment { start, end }
    }
}

/// Two half-open intervals share at least one point.
pub open spec fn segs_overlap(a_start: u64, a_end: u64, b_start: u64, b_end: u64) -> bool {
    a_start < b_end && b_start < a_end
}

/// The error of every query: the requested segment partially intersects a
/// stored one, and the carried key is a witness point inside the overlap
/// region that lies within some stored segment.
#[derive(Clone, Copy, PartialEq, Eq, Debug, Structural)]
pub enum SegmentTreeError {
    Intersect(u64),
}

/// One anchor of the ordered endpoint sequence.
#[derive(Clone, Debug)]
enum SegmentValue<V> {
    /// A segment starts here.
    Start,
    /// A segment ends here; its payload is stored at this anchor.
    End(V),
    /// One segment ends here (payload stored) and another starts here.
    EndStart(V),
}

/// The interval container: an ordered sequence of anchors.
#[derive(Clone, Debug)]
pub struct SegmentTree<V> {
    nodes: Vec<(u64, SegmentValue<V>)>,
}

impl<V> SegmentTree<V> {
    spec fn n(self) -> int {
        self.nodes@.len() as int
    }

    spec fn key(self, i: int) -> u64 {
        self.nodes@[i].0
    }

    spec fn opens(self, i: int) -> bool {
        self.nodes@[i].1 is Start || self.nodes@[i].1 is EndStart
    }

    spec fn closes(self, i: int) -> bool {
        self.nodes@[i].1 is End || self.nodes@[i].1 is EndStart
    }

    spec fn val_at(self, i: int) -> V {
        match self.nodes@[i].1 {
            SegmentValue::End(v) => v,
            SegmentValue::EndStart(v) => v,
            SegmentValue::Start => vstd::pervasive::arbitrary(),
        }
    }

    spec fn keys_sorted(self) -> bool {
        forall|i: int, j: int|
            #![trigger self.key(i), self.key(j)]
            0 <= i < j < self.n() ==> self.key(i) < self.key(j)
    }

    /// The representation invariant: anchors are strictly ordered by key,
    /// the first anchor (if any) only opens, the last only closes, and the
    /// anchors alternate so that an anchor closes a segment exactly when its
    /// predecessor opened one.
    pub closed spec fn wf(self) -> bool {
        &&& self.keys_sorted()
        &&& (self.n() > 0 ==> self.nodes@[0].1 is Start)
        &&& (self.n() > 0 ==> self.nodes@[self.n() - 1].1 is End)
        &&& (forall|i: int| 1 <= i < self.n() ==> (#[trigger] self.closes(i) <==> self.opens(i - 1)))
    }

    /// Anchor `i` closes the stored segment `[s, e)`.
    spec fn seg_at_idx(self, i: int, s: u64, e: u64) -> bool {
        &&& 1 <= i < self.n()
        &&& self.closes(i)
        &&& self.key(i - 1) == s
        &&& self.key(i) == e
    }

    /// The segment `[s, e)` is stored in the container.
    pub closed spec fn has_seg(self, s: u64, e: u64) -> bool {
        exists|i: int| self.seg_at_idx(i, s, e)
    }

    /// The payload of the stored segment `[s, e)`.
    pub closed spec fn seg_val(self, s: u64, e: u64) -> V {
        self.val_at(choose|i: int| self.seg_at_idx(i, s, e))
    }

    /// Some stored segment contains the point `p`.
    pub open spec fn covers(self, p: u64) -> bool {
        exists|s: u64, e: u64| self.has_seg(s, e) && s <= p < e
    }

    /// Some stored segment shares a point with the query `[qs, qe)`.
    pub open spec fn intersects(self, qs: u64, qe: u64) -> bool {
        exists|s: u64, e: u64| self.has_seg(s, e) && segs_overlap(s, e, qs, qe)
    }

    /// Some stored segment starts at `a`.
    pub open spec fn starts_at(self, a: u64) -> bool {
        exists|e: u64| self.has_seg(a, e)
    }

    /// `a` is the least start of a stored segment strictly inside `(qs, qe)`.
    pub open spec fn is_min_start_in(self, qs: u64, qe: u64, a: u64) -> bool {
        &&& self.starts_at(a)
        &&& qs < a < qe
        &&& forall|b: u64| #[trigger] self.starts_at(b) && qs < b < qe ==> a <= b
    }

    /// The intersection witness reported by every classifying query: the
    /// query's own start when a stored segment contains it, and otherwise
    /// the first stored start strictly inside the query.
    pub open spec fn reports_witness(self, qs: u64, qe: u64, w: u64) -> bool {
        if self.covers(qs) {
            w == qs
        } else {
            self.is_min_start_in(qs, qe, w)
        }
    }

    pub fn new() -> (t: SegmentTree<V>)
        ensures
            t.wf(),
            forall|s: u64, e: u64| !t.has_seg(s, e),
    {
        let t = SegmentTree { nodes: Vec::new() };
        proof {
            assert forall|s: u64, e: u64| !t.has_seg(s, e) by {
                assert(forall|i: int| !t.seg_at_idx(i, s, e));
            }
        }
        t
    }

    /// Index of the first anchor whose key exceeds `p` (the anchor count when
    /// there is none).
    fn upper_bound(&self, p: u64) -> (j: usize)
        requires
            self.keys_sorted(),
        ensures
            j <= self.nodes@.len(),
            forall|i: int| 0 <= i < j ==> self.key(i) <= p,
            forall|i: int| j <= i < self.n() ==> self.key(i) > p,
    {
        let mut lo: usize = 0;
        let mut hi: usize = self.nodes.len();
        while lo < hi
            invariant
                lo <= hi <= self.nodes@.len(),
                self.keys_sorted(),
                forall|i: int| 0 <= i < lo ==> self.key(i) <= p,
                forall|i: int| hi <= i < self.n() ==> self.key(i) > p,
            decreases hi - lo,
        {
            let mid = lo + (hi - lo) / 2;
            if self.nodes[mid].0 <= p {
                proof {
                    assert forall|i: int| 0 <= i < mid + 1 implies self.key(i) <= p by {
                        if i < mid {
                            assert(self.key(i) < self.key(mid as int));
                        }
                    }
                }
                lo = mid + 1;
            } else {
                proof {
                    assert forall|i: int| mid <= i < self.n() implies self.key(i) > p by {
                        if i > mid {
                            assert(self.key(mid as int) < self.key(i));
                        }
                    }
                }
                hi = mid;
            }
        }
        lo
    }

    /// Index of the first anchor whose key is at least `p`.
    fn lower_bound(&self, p: u64) -> (j: usize)
        requires
            self.keys_sorted(),
        ensures
            j <= self.nodes@.len(),
            forall|i: int| 0 <= i < j ==> self.key(i) < p,
            forall|i: int| j <= i < self.n() ==> self.key(i) >= p,
    {
        let mut lo: usize = 0;
        let mut hi: usize = self.nodes.len();
        while lo < hi
            invariant
                lo <= hi <= self.nodes@.len(),
                self.keys_sorted(),
                forall|i: int| 0 <= i < lo ==> self.key(i) < p,
                forall|i: int| hi <= i < self.n() ==> self.key(i) >= p,
            decreases hi - lo,
        {
            let mid = lo + (hi - lo) / 2;
            if self.nodes[mid].0 < p {
                proof {
                    assert forall|i: int| 0 <= i < mid + 1 implies self.key(i) < p by {
                        if i < mid {
                            assert(self.key(i) < self.key(mid as int));
                        }
                    }
                }
                lo = mid + 1;
            } else {
                proof {
                    assert forall|i: int| mid <= i < self.n() implies self.key(i) >= p by {
                        if i > mid {
                            assert(self.key(mid as int) < self.key(i));
                        }
                    }
                }
                hi = mid;
            }
        }
        lo
    }

    /// Two anchors with equal keys are the same anchor.
    proof fn lemma_key_unique(self, i: int, j: int)
        requires
            self.keys_sorted(),
            0 <= i < self.n(),
            0 <= j < self.n(),
            self.key(i) == self.key(j),
        ensures
            i == j,
    {
        if i < j {
            assert(self.key(i) < self.key(j));
        }
        if j < i {
            assert(self.key(j) < self.key(i));
        }
    }

    /// The closing anchor of a stored segment determines its payload.
    proof fn lemma_seg_val_at(self, i: int, s: u64, e: u64)
        requires
            self.keys_sorted(),
            self.seg_at_idx(i, s, e),
        ensures
            self.has_seg(s, e),
            self.seg_val(s, e) == self.val_at(i),
    {
        assert(self.has_seg(s, e));
        let j = choose|j: int| self.seg_at_idx(j, s, e);
        self.lemma_key_unique(i, j);
    }

    /// An opening anchor is followed by the closing anchor of the segment it
    /// opens.
    proof fn lemma_opens_next(self, i: int)
        requires
            self.wf(),
            0 <= i < self.n(),
            self.opens(i),
        ensures
            i + 1 < self.n(),
            self.seg_at_idx(i + 1, self.key(i), self.key(i + 1)),
    {
        if i == self.n() - 1 {
            assert(self.nodes@[self.n() - 1].1 is End);
        }
        assert(self.closes(i + 1));
    }

    /// Characterizes coverage of a point `p` by the anchor `j` found by
    /// `upper_bound`: `p` lies inside a stored segment exactly when the
    /// first anchor past `p` closes one.
    proof fn lemma_cover_at_ub(self, p: u64, j: int)
        requires
            self.wf(),
            0 <= j <= self.n(),
            forall|i: int| 0 <= i < j ==> self.key(i) <= p,
            forall|i: int| j <= i < self.n() ==> self.key(i) > p,
        ensures
            self.covers(p) <==> (j < self.n() && self.closes(j)),
            (j < self.n() && self.closes(j)) ==> self.seg_at_idx(j, self.key(j - 1), self.key(j))
                && self.key(j - 1) <= p < self.key(j),
    {
        if j < self.n() && self.closes(j) {
            if j == 0 {
                assert(self.nodes@[0].1 is Start);
                assert(false);
            }
            assert(self.seg_at_idx(j, self.key(j - 1), self.key(j)));
            self.lemma_seg_val_at(j, self.key(j - 1), self.key(j));
            assert(self.key(j - 1) <= p < self.key(j));
            assert(self.covers(p));
        }
        if self.covers(p) {
            let (s, e) = choose|s: u64, e: u64| self.has_seg(s, e) && s <= p < e;
            let i = choose|i: int| self.seg_at_idx(i, s, e);
            assert(self.seg_at_idx(i, s, e));
            // key(i) == e > p, so i is not below j; key(i-1) == s <= p, so
            // i - 1 is below j. Hence i == j.
            if i < j {
                assert(self.key(i) <= p);
            }
            if i - 1 >= j {
                assert(self.key(i - 1) > p);
            }
            assert(i == j);
        }
    }

    /// Classify the query `[seg.start, seg.end)` against the stored segments:
    /// the payload when the exact segment is stored, nothing when no stored
    /// segment shares a point with it, and an intersection witness otherwise.
    pub fn get_segment(&self, seg: &Segment) -> (r: Result<Option<&V>, SegmentTreeError>)
        requires
            self.wf(),
            seg.start < seg.end,
        ensures
            match r {
                Ok(Some(v)) => self.has_seg(seg.start, seg.end) && *v == self.seg_val(
                    seg.start,
                    seg.end,
                ),
                Ok(None) => !self.intersects(seg.start, seg.end),
                Err(SegmentTreeError::Intersect(w)) => self.intersects(seg.start, seg.end)
                    && !self.has_seg(seg.start, seg.end) && self.reports_witness(
                    seg.start,
                    seg.end,
                    w,
                ),
            },
    {
        let j = self.upper_bound(seg.start);
        proof {
            self.lemma_cover_at_ub(seg.start, j as int);
        }
        if j < self.nodes.len() && (match &self.nodes[j].1 {
            SegmentValue::Start => false,
            _ => true,
        }) {
            // A stored segment [key(j-1), key(j)) contains the query start.
            if self.nodes[j - 1].0 == seg.start && self.nodes[j].0 == seg.end {
                proof {
                    self.lemma_seg_val_at(j as int, seg.start, seg.end);
                }
                let v: &V = match &self.nodes[j].1 {
                    SegmentValue::End(v) => v,
                    SegmentValue::EndStart(v) => v,
                    SegmentValue::Start => vstd::pervasive::unreached(),
                };
                Ok(Some(v))
            } else {
                proof {
                    let ga = self.key(j - 1);
                    let gb = self.key(j as int);
                    self.lemma_seg_val_at(j as int, ga, gb);
                    assert(segs_overlap(ga, gb, seg.start, seg.end));
                    assert(self.intersects(seg.start, seg.end));
                    if self.has_seg(seg.start, seg.end) {
                        let i = choose|i: int| self.seg_at_idx(i, seg.start, seg.end);
                        // Its closing anchor would also be the first anchor
                        // past the query start, contradicting the mismatch.
                        if i < j {
                            assert(self.key(i) <= seg.start);
                        }
                        if i - 1 >= j {
                            assert(self.key(i - 1) > seg.start);
                        }
                        assert(i == j);
                        assert(false);
                    }
                }
                Err(SegmentTreeError::Intersect(seg.start))
            }
        } else {
            // No stored segment contains the query start.
            if j < self.nodes.len() && self.nodes[j].0 < seg.end {
                proof {
                    // The anchor at j is a Start strictly inside the query:
                    // the segment it opens is the least start inside.
                    self.lemma_opens_next(j as int);
                    let a = self.key(j as int);
                    let b = self.key(j + 1);
                    self.lemma_seg_val_at(j + 1, a, b);
                    assert(self.starts_at(a));
                    assert(segs_overlap(a, b, seg.start, seg.end));
                    assert(self.intersects(seg.start, seg.end));
                    assert forall|c: u64| #[trigger] self.starts_at(c) && seg.start < c < seg.end
                        implies a <= c by {
                        let ce = choose|ce: u64| self.has_seg(c, ce);
                        let ci = choose|ci: int| self.seg_at_idx(ci, c, ce);
                        if ci - 1 < j {
                            assert(self.key(ci - 1) <= seg.start);
                        }
                        assert(self.key(ci - 1) >= self.key(j as int));
                    }
                    assert(self.is_min_start_in(seg.start, seg.end, a));
                    if self.has_seg(seg.start, seg.end) {
                        assert(self.covers(seg.start));
                    }
                }
                Err(SegmentTreeError::Intersect(self.nodes[j].0))
            } else {
                proof {
                    assert forall|s: u64, e: u64| self.has_seg(s, e) implies !segs_overlap(
                        s,
                        e,
                        seg.start,
                        seg.end,
                    ) by {
                        if segs_overlap(s, e, seg.start, seg.end) {
                            let i = choose|i: int| self.seg_at_idx(i, s, e);
                            assert(self.seg_at_idx(i, s, e));
                            // e > start, so the closing anchor is at or past
                            // j; s < end <= key(j), so the opening anchor is
                            // below j; hence i == j closes, contradiction.
                            if i < j {
                                assert(self.key(i) <= seg.start);
                            }
                            assert(i >= j);
                            if j < self.n() {
                                if i - 1 >= j {
                                    assert(self.key(i - 1) >= self.key(j as int));
                                    assert(self.key(i - 1) >= seg.end);
                                }
                                assert(i - 1 < j);
                                assert(i == j);
                                assert(self.closes(j as int));
                                assert(false);
                            } else {
                                assert(i < self.n());
                                assert(false);
                            }
                        }
                    }
                    assert(!self.intersects(seg.start, seg.end));
                }
                Ok(None)
            }
        }
    }

    /// Like `get_segment`, reporting only whether the exact segment is stored.
    pub fn contains_segment(&self, seg: &Segment) -> (r: Result<bool, SegmentTreeError>)
        requires
            self.wf(),
            seg.start < seg.end,
        ensures
            match r {
                Ok(true) => self.has_seg(seg.start, seg.end),
                Ok(false) => !self.intersects(seg.start, seg.end),
                Err(SegmentTreeError::Intersect(w)) => self.intersects(seg.start, seg.end)
                    && !self.has_seg(seg.start, seg.end) && self.reports_witness(
                    seg.start,
                    seg.end,
                    w,
                ),
            },
    {
        match self.get_segment(seg) {
            Ok(Some(_)) => Ok(true),
            Ok(None) => Ok(false),
            Err(e) => Err(e),
        }
    }

    /// The unique stored segment containing `point`, if any. A point equal to
    /// a stored segment's end is not inside it; it is inside the right-hand
    /// neighbour exactly when one starts there.
    pub fn get_containing_segment(&self, point: &u64) -> (r: Option<(Segment, &V)>)
        requires
            self.wf(),
        ensures
            match r {
                Some((seg, v)) => self.has_seg(seg.start, seg.end) && seg.start <= *point
                    < seg.end && *v == self.seg_val(seg.start, seg.end),
                None => !self.covers(*point),
            },
    {
        let j = self.upper_bound(*point);
        proof {
            self.lemma_cover_at_ub(*point, j as int);
        }
        if j < self.nodes.len() && (match &self.nodes[j].1 {
            SegmentValue::Start => false,
            _ => true,
        }) {
            proof {
                self.lemma_seg_val_at(j as int, self.key(j - 1), self.key(j as int));
            }
            let v: &V = match &self.nodes[j].1 {
                SegmentValue::End(v) => v,
                SegmentValue::EndStart(v) => v,
                SegmentValue::Start => vstd::pervasive::unreached(),
            };
            Some((Segment { start: self.nodes[j - 1].0, end: self.nodes[j].0 }, v))
        } else {
            None
        }
    }

    /// Consequences of a query `[s, e)` not intersecting any stored segment:
    /// no anchor lies strictly inside it, an anchor at its start can only be
    /// an `End`, and an anchor at its end can only be a `Start`.
    proof fn lemma_vacant_boundary(self, s: u64, e: u64)
        requires
            self.wf(),
            s < e,
            !self.intersects(s, e),
        ensures
            !self.covers(s),
            forall|f: int| 0 <= f < self.n() ==> !(s < #[trigger] self.key(f) < e),
            forall|f: int| 0 <= f < self.n() && #[trigger] self.key(f) == s ==> self.nodes@[f].1
                is End,
            forall|f: int| 0 <= f < self.n() && #[trigger] self.key(f) == e ==> self.nodes@[f].1
                is Start,
    {
        if self.covers(s) {
            let (a, b) = choose|a: u64, b: u64| self.has_seg(a, b) && a <= s < b;
            assert(segs_overlap(a, b, s, e));
        }
        assert forall|f: int| 0 <= f < self.n() implies !(s < #[trigger] self.key(f) < e) by {
            if s < self.key(f) < e {
                if self.opens(f) {
                    self.lemma_opens_next(f);
                    self.lemma_seg_val_at(f + 1, self.key(f), self.key(f + 1));
                    assert(segs_overlap(self.key(f), self.key(f + 1), s, e));
                } else {
                    assert(self.closes(f));
                    if f == 0 {
                        assert(self.nodes@[0].1 is Start);
                    }
                    assert(self.opens(f - 1));
                    self.lemma_seg_val_at(f, self.key(f - 1), self.key(f));
                    assert(segs_overlap(self.key(f - 1), self.key(f), s, e));
                }
            }
        }
        assert forall|f: int| 0 <= f < self.n() && #[trigger] self.key(f) == s implies self.nodes@[f].1
            is End by {
            if self.opens(f) {
                self.lemma_opens_next(f);
                self.lemma_seg_val_at(f + 1, self.key(f), self.key(f + 1));
                assert(segs_overlap(s, self.key(f + 1), s, e));
            }
        }
        assert forall|f: int| 0 <= f < self.n() && #[trigger] self.key(f) == e implies self.nodes@[f].1
            is Start by {
            if self.closes(f) {
                if f == 0 {
                    assert(self.nodes@[0].1 is Start);
                }
                assert(self.opens(f - 1));
                self.lemma_seg_val_at(f, self.key(f - 1), self.key(f));
                assert(segs_overlap(self.key(f - 1), e, s, e));
            }
        }
    }

    /// How inserting the two anchors of a vacant segment `[s, e)` transforms
    /// the stored set: the new segment appears with its payload and every
    /// other segment and payload is kept. `t0` is the container before, `t1`
    /// after; `i` is the anchor position of `s`; `sp` and `ep` say whether an
    /// anchor already stood at `s` (promoted `End -> EndStart`) or at `e`
    /// (promoted `Start -> EndStart`).
    #[verifier::rlimit(100)]
    proof fn lemma_insert_view(
        t0: SegmentTree<V>,
        t1: SegmentTree<V>,
        s: u64,
        e: u64,
        value: V,
        i: int,
        sp: bool,
        ep: bool,
    )
        requires
            t0.wf(),
            s < e,
            !t0.intersects(s, e),
            0 <= i <= t0.n(),
            forall|f: int| 0 <= f < i ==> t0.key(f) < s,
            forall|f: int| i <= f < t0.n() ==> t0.key(f) >= s,
            sp <==> (i < t0.n() && t0.key(i) == s),
            ep <==> ({
                let m0: int = if sp { 1 } else { 0 };
                i + m0 < t0.n() && t0.key(i + m0) == e
            }),
            t1.nodes@ =~= ({
                let m0: int = if sp { 1 } else { 0 };
                let m1: int = if ep { 1 } else { 0 };
                let sx = if sp {
                    (s, SegmentValue::EndStart(t0.val_at(i)))
                } else {
                    (s, SegmentValue::<V>::Start)
                };
                let ex = if ep {
                    (e, SegmentValue::EndStart(value))
                } else {
                    (e, SegmentValue::End(value))
                };
                t0.nodes@.subrange(0, i) + seq![sx, ex] + t0.nodes@.subrange(i + m0 + m1, t0.n())
            }),
        ensures
            t1.wf(),
            t1.has_seg(s, e),
            t1.seg_val(s, e) == value,
            forall|a: u64, b: u64| #[trigger]
                t1.has_seg(a, b) ==> t0.has_seg(a, b) || (a == s && b == e),
            forall|a: u64, b: u64| #[trigger]
                t0.has_seg(a, b) ==> t1.has_seg(a, b) && t1.seg_val(a, b) == t0.seg_val(a, b),
    {
        t0.lemma_vacant_boundary(s, e);
        let m0: int = if sp { 1 } else { 0 };
        let m1: int = if ep { 1 } else { 0 };
        let n0 = t0.n();
        let n1 = t1.n();
        assert(n1 == n0 + 2 - m0 - m1);

        // Pointwise shape of the new anchor sequence.
        assert(forall|f: int| 0 <= f < i ==> t1.nodes@[f] == t0.nodes@[f]);
        assert(t1.key(i) == s);
        assert(t1.key(i + 1) == e);
        assert(t1.closes(i) == sp);
        assert(t1.opens(i));
        assert(t1.closes(i + 1));
        assert(t1.opens(i + 1) == ep);
        assert(forall|f: int| i + 2 <= f < n1 ==> t1.nodes@[f] == t0.nodes@[f - 2 + m0 + m1]);

        // No anchor of `t0` carries key `s` unless `sp`, nor `e` unless `ep`.
        assert forall|f: int| 0 <= f < n0 && !sp implies #[trigger] t0.key(f) != s by {
            if t0.key(f) == s {
                if f < i {
                } else if f > i {
                    assert(t0.key(i) < t0.key(f));
                    assert(t0.key(i) >= s);
                }
            }
        }
        assert forall|f: int| 0 <= f < n0 && !ep implies #[trigger] t0.key(f) != e by {
            if t0.key(f) == e {
                assert(f >= i);
                if sp {
                    if f == i {
                        assert(t0.key(i) == s);
                    } else {
                        assert(i + 1 <= f);
                        if f > i + 1 {
                            assert(t0.key(i + 1) < t0.key(f));
                            assert(t0.key(i + 1) > s);
                        }
                    }
                } else {
                    if f > i {
                        assert(t0.key(i) < t0.key(f));
                        assert(t0.key(i) > s);
                    }
                }
            }
        }
        // Every anchor of `t0` taken into the suffix has key above `e`.
        assert forall|f: int| i + m0 + m1 <= f < n0 implies #[trigger] t0.key(f) > e by {
            if sp {
                assert(t0.key(i) == s);
                assert(t0.key(f) >= t0.key(i + m1));
            }
            if f > i + m0 + m1 {
                assert(t0.key(i + m0 + m1) < t0.key(f));
            }
            if ep {
                assert(t0.key(i + m0) == e);
                assert(t0.key(f) > t0.key(i + m0));
            } else {
                assert(t0.key(f) >= s);
                assert(t0.key(f) != s || f == i);
                if t0.key(f) == s {
                    assert(sp && f == i);
                    assert(f >= i + m0);
                }
                assert(t0.key(f) > s);
                assert(!(s < t0.key(f) < e));
                assert(t0.key(f) != e);
            }
        }

        // Keys remain strictly sorted.
        assert forall|f1: int, f2: int|
            #![trigger t1.key(f1), t1.key(f2)]
            0 <= f1 < f2 < n1 implies t1.key(f1) < t1.key(f2) by {
            let g1 = f1 - 2 + m0 + m1;
            let g2 = f2 - 2 + m0 + m1;
            if f1 < i {
                assert(t1.key(f1) == t0.key(f1));
                assert(t0.key(f1) < s);
                if f2 < i {
                    assert(t0.key(f1) < t0.key(f2));
                } else if f2 == i {
                } else if f2 == i + 1 {
                } else {
                    assert(t1.key(f2) == t0.key(g2));
                    assert(t0.key(g2) > e);
                }
            } else if f1 == i {
                if f2 == i + 1 {
                } else {
                    assert(t1.key(f2) == t0.key(g2));
                    assert(t0.key(g2) > e);
                }
            } else if f1 == i + 1 {
                assert(t1.key(f2) == t0.key(g2));
                assert(t0.key(g2) > e);
            } else {
                assert(t1.key(f1) == t0.key(g1));
                assert(t1.key(f2) == t0.key(g2));
                assert(t0.key(g1) < t0.key(g2));
            }
        }

        // The boundary anchors next to the spliced pair.
        if i >= 1 {
            assert(t1.nodes@[i - 1] == t0.nodes@[i - 1]);
            if !sp {
                // The predecessor cannot open a segment: that segment would
                // cover `s`.
                if t0.opens(i - 1) {
                    t0.lemma_opens_next(i - 1);
                    t0.lemma_seg_val_at(i, t0.key(i - 1), t0.key(i));
                    assert(t0.key(i) >= s);
                    assert(t0.key(i) != s);
                    assert(segs_overlap(t0.key(i - 1), t0.key(i), s, e));
                }
                assert(!t0.opens(i - 1));
            } else {
                assert(t0.closes(i));
                assert(t0.opens(i - 1));
            }
        }
        if i + 2 < n1 {
            let g = i + m0 + m1;
            assert(t1.nodes@[i + 2] == t0.nodes@[g]);
            if ep {
                assert(t0.nodes@[g - 1].1 is Start);
                assert(t0.opens(g - 1));
                assert(t0.closes(g));
            } else {
                if t0.closes(g) {
                    assert(g >= 1 || t0.nodes@[0].1 is Start);
                    assert(t0.opens(g - 1));
                    if sp {
                        assert(g - 1 == i);
                        assert(t0.nodes@[i].1 is End);
                        assert(false);
                    } else {
                        assert(g - 1 == i - 1);
                        if i == 0 {
                            assert(t0.nodes@[0].1 is Start);
                            assert(false);
                        } else {
                            t0.lemma_opens_next(i - 1);
                            t0.lemma_seg_val_at(i, t0.key(i - 1), t0.key(i));
                            assert(t0.key(i) != s);
                            assert(segs_overlap(t0.key(i - 1), t0.key(i), s, e));
                            assert(false);
                        }
                    }
                }
                assert(!t0.closes(g));
            }
        }

        // Endpoint anchors of the new sequence.
        if i > 0 {
            assert(t1.nodes@[0] == t0.nodes@[0]);
        } else {
            if sp {
                assert(t0.nodes@[0].1 is End);
                assert(t0.nodes@[0].1 is Start);
            }
            assert(t1.nodes@[0].1 is Start);
        }
        if i + m0 + m1 < n0 {
            assert(t1.nodes@[n1 - 1] == t0.nodes@[n0 - 1]);
            assert(n0 - 1 >= i + m0 + m1);
        } else {
            // The suffix is empty; with `ep` the anchor at `e` could not be
            // the last anchor of `t0` (it is a `Start`), so `ep` is false and
            // the new last anchor is the fresh `End` at `e`.
            if ep {
                assert(t0.nodes@[i + m0].1 is Start);
                assert(i + m0 == n0 - 1);
                assert(t0.nodes@[n0 - 1].1 is End);
                assert(false);
            }
            assert(t1.nodes@[n1 - 1] == (e, SegmentValue::<V>::End(value)));
        }

        // Alternation.
        assert forall|f: int| 1 <= f < n1 implies (#[trigger] t1.closes(f) <==> t1.opens(f - 1)) by {
            let g = f - 2 + m0 + m1;
            if f < i {
                assert(t1.nodes@[f] == t0.nodes@[f]);
                assert(t1.nodes@[f - 1] == t0.nodes@[f - 1]);
                assert(t0.closes(f) <==> t0.opens(f - 1));
            } else if f == i {
                // closes'(i) == sp and opens'(i-1) == sp was shown above.
            } else if f == i + 1 {
                // Both sides hold: the `e` anchor closes, the `s` anchor opens.
            } else if f == i + 2 {
                // closes'(i+2) == closes_old(g) == ep == opens'(i+1).
            } else {
                assert(t1.nodes@[f] == t0.nodes@[g]);
                assert(t1.nodes@[f - 1] == t0.nodes@[g - 1]);
                assert(g - 1 >= i + m0 + m1);
                assert(t0.closes(g) <==> t0.opens(g - 1));
            }
        }
        assert(t1.wf());

        // The new segment is stored with its payload.
        assert(t1.seg_at_idx(i + 1, s, e));
        t1.lemma_seg_val_at(i + 1, s, e);
        assert(t1.val_at(i + 1) == value);

        // Every new segment is an old one or the inserted one.
        assert forall|a: u64, b: u64| #[trigger]
            t1.has_seg(a, b) implies t0.has_seg(a, b) || (a == s && b == e) by {
            let f = choose|f: int| t1.seg_at_idx(f, a, b);
            let g = f - 2 + m0 + m1;
            if f < i {
                assert(t0.seg_at_idx(f, a, b));
            } else if f == i {
                // Only when `sp`: the promoted anchor still closes the old
                // segment ending at `s`.
                assert(sp);
                assert(t0.seg_at_idx(i, a, b));
            } else if f == i + 1 {
            } else if f == i + 2 {
                assert(t1.closes(f));
                assert(ep);
                assert(t1.key(i + 1) == e);
                assert(t0.key(g - 1) == e);
                assert(t0.seg_at_idx(g, a, b));
            } else {
                assert(t1.nodes@[f] == t0.nodes@[g]);
                assert(t1.nodes@[f - 1] == t0.nodes@[g - 1]);
                assert(t0.seg_at_idx(g, a, b));
            }
        }

        // Every old segment survives with its payload.
        assert forall|a: u64, b: u64| #[trigger]
            t0.has_seg(a, b) implies t1.has_seg(a, b) && t1.seg_val(a, b) == t0.seg_val(a, b) by {
            let c = choose|c: int| t0.seg_at_idx(c, a, b);
            t0.lemma_seg_val_at(c, a, b);
            if c < i {
                assert(t1.seg_at_idx(c, a, b));
                t1.lemma_seg_val_at(c, a, b);
            } else if c == i {
                assert(sp);
                assert(t1.seg_at_idx(i, a, b));
                t1.lemma_seg_val_at(i, a, b);
            } else if c == i + m0 && ep {
                // The anchor at `e` is a `Start`; it closes nothing.
                assert(t0.nodes@[i + m0].1 is Start);
                assert(false);
            } else {
                assert(c >= i + m0 + m1);
                let f = c + 2 - m0 - m1;
                assert(t1.nodes@[f] == t0.nodes@[c]);
                if c == i + m0 + m1 {
                    if ep {
                        assert(t0.key(c - 1) == e);
                        assert(t1.key(f - 1) == e);
                        assert(t1.seg_at_idx(f, a, b));
                    } else {
                        // Shown above: the first suffix anchor closes nothing
                        // in this case.
                        assert(t0.opens(c - 1));
                        if sp {
                            assert(c - 1 == i);
                            assert(t0.nodes@[i].1 is End);
                            assert(false);
                        } else {
                            assert(c - 1 == i - 1 || c == 0);
                            if c == 0 {
                                assert(t0.nodes@[0].1 is Start);
                                assert(false);
                            } else {
                                t0.lemma_opens_next(i - 1);
                                t0.lemma_seg_val_at(i, t0.key(i - 1), t0.key(i));
                                assert(t0.key(i) != s);
                                assert(segs_overlap(t0.key(i - 1), t0.key(i), s, e));
                                assert(false);
                            }
                        }
                    }
                } else {
                    assert(t1.nodes@[f - 1] == t0.nodes@[c - 1]);
                    assert(t1.seg_at_idx(f, a, b));
                }
                t1.lemma_seg_val_at(f, a, b);
            }
        }
    }

    /// Insert the segment `[s, e)` with its payload; the segment must not
    /// intersect any stored one (touching is allowed). Every other stored
    /// segment and payload is kept.
    fn insert_anchors(&mut self, s: u64, e: u64, value: V)
        requires
            old(self).wf(),
            s < e,
            !old(self).intersects(s, e),
        ensures
            final(self).wf(),
            final(self).has_seg(s, e),
            final(self).seg_val(s, e) == value,
            forall|a: u64, b: u64| #[trigger]
                final(self).has_seg(a, b) ==> old(self).has_seg(a, b) || (a == s && b == e),
            forall|a: u64, b: u64| #[trigger]
                old(self).has_seg(a, b) ==> final(self).has_seg(a, b) && final(self).seg_val(a, b)
                    == old(self).seg_val(a, b),
    {
        let ghost t0 = *self;
        let ghost gvalue = value;
        proof {
            t0.lemma_vacant_boundary(s, e);
        }
        let i = self.lower_bound(s);
        let ghost gi = i as int;
        let s_present = i < self.nodes.len() && self.nodes[i].0 == s;
        proof {
            if s_present {
                assert(t0.key(gi) == s);
                assert(t0.nodes@[gi].1 is End);
            } else {
                assert forall|f: int| gi <= f < t0.n() implies #[trigger] t0.key(f) > s by {
                    assert(t0.key(f) >= s);
                    if t0.key(f) == s {
                        if f > gi {
                            assert(t0.key(gi) < t0.key(f));
                        }
                        assert(false);
                    }
                }
            }
        }
        if s_present {
            let node = self.nodes.remove(i);
            let v0 = match node.1 {
                SegmentValue::End(v) => v,
                SegmentValue::Start => vstd::pervasive::unreached(),
                SegmentValue::EndStart(_) => vstd::pervasive::unreached(),
            };
            self.nodes.insert(i, (s, SegmentValue::EndStart(v0)));
            proof {
                assert(self.nodes@ =~= t0.nodes@.update(gi, (s, SegmentValue::EndStart(t0.val_at(
                    gi,
                )))));
            }
        } else {
            self.nodes.insert(i, (s, SegmentValue::Start));
        }
        proof {
            // The intermediate sequence is still sorted by key.
            assert forall|f1: int, f2: int|
                #![trigger self.key(f1), self.key(f2)]
                0 <= f1 < f2 < self.n() implies self.key(f1) < self.key(f2) by {
                if s_present {
                    assert(t0.key(f1) < t0.key(f2));
                } else {
                    if f1 < gi && f2 > gi {
                        assert(t0.key(f1) < s);
                        assert(t0.key(f2 - 1) > s);
                    } else if f1 < gi && f2 == gi {
                    } else if f1 == gi {
                        assert(t0.key(f2 - 1) > s);
                    } else if f2 > f1 {
                        if f1 > gi || f2 <= gi {
                            assert(t0.key(if f1 > gi {
                                f1 - 1
                            } else {
                                f1
                            }) < t0.key(if f2 > gi {
                                f2 - 1
                            } else {
                                f2
                            }));
                        }
                    }
                }
            }
        }
        let i2 = self.lower_bound(e);
        proof {
            // The anchor at `s` sits at `i`, and nothing lies strictly
            // between `s` and `e`, so the insertion point for `e` is `i + 1`.
            assert(self.key(gi) == s);
            assert(i2 > i);
            if gi + 1 < self.n() {
                let h = if s_present {
                    gi + 1
                } else {
                    gi
                };
                assert(self.key(gi + 1) == t0.key(h + 1 - 1) || self.key(gi + 1) == t0.key(h));
                assert(self.key(gi + 1) > s);
                assert(!(s < self.key(gi + 1) < e) ==> self.key(gi + 1) >= e);
                assert(self.key(gi + 1) >= e);
            }
            assert(i2 == i + 1);
        }
        let e_present = i2 < self.nodes.len() && self.nodes[i2].0 == e;
        if e_present {
            proof {
                let h = if s_present {
                    gi + 1
                } else {
                    gi
                };
                assert(self.nodes@[gi + 1] == t0.nodes@[h]);
                assert(t0.key(h) == e);
                assert(t0.nodes@[h].1 is Start);
            }
            let node = self.nodes.remove(i2);
            match node.1 {
                SegmentValue::Start => {},
                SegmentValue::End(_) => vstd::pervasive::unreached(),
                SegmentValue::EndStart(_) => vstd::pervasive::unreached(),
            }
            self.nodes.insert(i2, (e, SegmentValue::EndStart(value)));
        } else {
            self.nodes.insert(i2, (e, SegmentValue::End(value)));
        }
        proof {
            let m0: int = if s_present {
                1
            } else {
                0
            };
            let m1: int = if e_present {
                1
            } else {
                0
            };
            let sx = if s_present {
                (s, SegmentValue::EndStart(t0.val_at(gi)))
            } else {
                (s, SegmentValue::<V>::Start)
            };
            let ex = if e_present {
                (e, SegmentValue::EndStart(gvalue))
            } else {
                (e, SegmentValue::End(gvalue))
            };
            assert(self.nodes@ =~= t0.nodes@.subrange(0, gi) + seq![sx, ex] + t0.nodes@.subrange(
                gi + m0 + m1,
                t0.n(),
            ));
            Self::lemma_insert_view(t0, *self, s, e, gvalue, gi, s_present, e_present);
        }
    }

    /// How removing the two anchors of the stored segment `[s, e)` transforms
    /// the stored set. `c` is the index of its closing anchor; `sp` and `ep`
    /// say whether its boundary anchors were shared with neighbours (demoted
    /// `EndStart -> End` at `s`, `EndStart -> Start` at `e`) rather than
    /// deleted.
    #[verifier::rlimit(100)]
    proof fn lemma_remove_view(
        t0: SegmentTree<V>,
        t1: SegmentTree<V>,
        s: u64,
        e: u64,
        c: int,
        sp: bool,
        ep: bool,
    )
        requires
            t0.wf(),
            t0.seg_at_idx(c, s, e),
            sp <==> t0.nodes@[c - 1].1 is EndStart,
            ep <==> t0.nodes@[c].1 is EndStart,
            t1.nodes@ =~= ({
                let sslot = if sp {
                    seq![(s, SegmentValue::End(t0.val_at(c - 1)))]
                } else {
                    Seq::<(u64, SegmentValue<V>)>::empty()
                };
                let eslot = if ep {
                    seq![(e, SegmentValue::<V>::Start)]
                } else {
                    Seq::<(u64, SegmentValue<V>)>::empty()
                };
                t0.nodes@.subrange(0, c - 1) + sslot + eslot + t0.nodes@.subrange(c + 1, t0.n())
            }),
        ensures
            t1.wf(),
            !t1.has_seg(s, e),
            forall|a: u64, b: u64| #[trigger]
                t1.has_seg(a, b) ==> t0.has_seg(a, b) && !(a == s && b == e) && t1.seg_val(a, b)
                    == t0.seg_val(a, b),
            forall|a: u64, b: u64|
                #[trigger] t0.has_seg(a, b) && !(a == s && b == e) ==> t1.has_seg(a, b),
    {
        let d1: int = if sp {
            1
        } else {
            0
        };
        let d2: int = if ep {
            1
        } else {
            0
        };
        let n0 = t0.n();
        let n1 = t1.n();
        assert(n1 == n0 - 2 + d1 + d2);
        assert(t0.opens(c - 1));
        assert(s < e);

        // Pointwise shape.
        assert(forall|f: int| 0 <= f < c - 1 ==> t1.nodes@[f] == t0.nodes@[f]);
        if sp {
            assert(t1.nodes@[c - 1] == (s, SegmentValue::End(t0.val_at(c - 1))));
        }
        if ep {
            assert(t1.nodes@[c - 1 + d1] == (e, SegmentValue::<V>::Start));
        }
        assert(forall|f: int|
            c - 1 + d1 + d2 <= f < n1 ==> t1.nodes@[f] == t0.nodes@[f + 2 - d1 - d2]);

        // Neighbour facts.
        if !sp {
            assert(t0.nodes@[c - 1].1 is Start);
            assert(!t0.closes(c - 1));
            if c - 2 >= 0 {
                assert(!t0.opens(c - 2));
            }
        } else {
            assert(t0.closes(c - 1));
            if c - 2 >= 0 {
                assert(t0.opens(c - 2));
            } else {
                assert(t0.nodes@[0].1 is Start);
                assert(false);
            }
        }
        if c + 1 < n0 {
            assert(t0.closes(c + 1) <==> t0.opens(c));
            assert(t0.opens(c) == ep);
        } else {
            // The closing anchor of the removed segment is last: it must be
            // a plain `End`.
            assert(t0.nodes@[n0 - 1].1 is End);
            assert(!ep);
        }

        // Sortedness.
        assert forall|f1: int, f2: int|
            #![trigger t1.key(f1), t1.key(f2)]
            0 <= f1 < f2 < n1 implies t1.key(f1) < t1.key(f2) by {
            let k1 = if f1 < c - 1 {
                f1
            } else if sp && f1 == c - 1 {
                c - 1
            } else if ep && f1 == c - 1 + d1 {
                c
            } else {
                f1 + 2 - d1 - d2
            };
            let k2 = if f2 < c - 1 {
                f2
            } else if sp && f2 == c - 1 {
                c - 1
            } else if ep && f2 == c - 1 + d1 {
                c
            } else {
                f2 + 2 - d1 - d2
            };
            assert(t1.key(f1) == t0.key(k1));
            assert(t1.key(f2) == t0.key(k2));
            assert(k1 < k2);
        }

        // Endpoints.
        if n1 > 0 {
            if c - 1 > 0 {
                assert(t1.nodes@[0] == t0.nodes@[0]);
            } else {
                assert(!sp);
                if ep {
                    assert(t1.nodes@[0].1 is Start);
                } else {
                    assert(t1.nodes@[0] == t0.nodes@[c + 1]);
                    assert(!t0.closes(c + 1));
                    assert(t0.nodes@[c + 1].1 is Start);
                }
            }
            if c + 1 < n0 {
                assert(t1.nodes@[n1 - 1] == t0.nodes@[n0 - 1]);
            } else {
                assert(!ep);
                if sp {
                    assert(t1.nodes@[n1 - 1] == (s, SegmentValue::End(t0.val_at(c - 1))));
                } else {
                    assert(t1.nodes@[n1 - 1] == t0.nodes@[c - 2]);
                    assert(!t0.opens(c - 2));
                    assert(t0.nodes@[c - 2].1 is End);
                }
            }
        }

        // Alternation.
        assert forall|f: int| 1 <= f < n1 implies (#[trigger] t1.closes(f) <==> t1.opens(f - 1)) by {
            if f < c - 1 {
                assert(t1.nodes@[f] == t0.nodes@[f]);
                assert(t1.nodes@[f - 1] == t0.nodes@[f - 1]);
                assert(t0.closes(f) <==> t0.opens(f - 1));
                assert(t1.closes(f) <==> t1.opens(f - 1));
            } else if sp && f == c - 1 {
                assert(t1.nodes@[f - 1] == t0.nodes@[f - 1]);
                assert(t0.closes(c - 1) <==> t0.opens(c - 2));
                assert(t1.closes(f) <==> t1.opens(f - 1));
            } else if ep && f == c - 1 + d1 {
                // The demoted `Start` at `e` closes nothing; its predecessor
                // opens nothing.
                if sp {
                    assert(!t1.opens(f - 1));
                } else {
                    assert(t1.nodes@[f - 1] == t0.nodes@[c - 2]);
                    assert(!t0.opens(c - 2));
                }
                assert(t1.closes(f) <==> t1.opens(f - 1));
            } else if f == c - 1 + d1 + d2 {
                // First suffix anchor.
                assert(t1.nodes@[f] == t0.nodes@[c + 1]);
                assert(t0.closes(c + 1) == ep);
                if ep {
                    assert(t1.opens(f - 1));
                } else if sp {
                    assert(!t1.opens(f - 1));
                } else if c - 2 >= 0 {
                    assert(t1.nodes@[f - 1] == t0.nodes@[c - 2]);
                    assert(!t0.opens(c - 2));
                }
                assert(t1.closes(f) <==> t1.opens(f - 1));
            } else {
                assert(f > c - 1 + d1 + d2);
                assert(t1.nodes@[f] == t0.nodes@[f + 2 - d1 - d2]);
                assert(t1.nodes@[f - 1] == t0.nodes@[f + 1 - d1 - d2]);
                assert(f + 1 - d1 - d2 >= c + 1);
                assert(t0.closes(f + 2 - d1 - d2) <==> t0.opens(f + 1 - d1 - d2));
                assert(t1.closes(f) <==> t1.opens(f - 1));
            }
        }
        assert(t1.wf());

        // Forward: every surviving segment is an old one other than `[s, e)`.
        assert forall|a: u64, b: u64| #[trigger]
            t1.has_seg(a, b) implies t0.has_seg(a, b) && !(a == s && b == e) && t1.seg_val(a, b)
                == t0.seg_val(a, b) by {
            let f = choose|f: int| t1.seg_at_idx(f, a, b);
            if f < c - 1 {
                assert(t0.seg_at_idx(f, a, b));
                t0.lemma_seg_val_at(f, a, b);
                t1.lemma_seg_val_at(f, a, b);
                if a == s && b == e {
                    t0.lemma_key_unique(f, c);
                }
            } else if sp && f == c - 1 {
                assert(t0.seg_at_idx(c - 1, a, b));
                t0.lemma_seg_val_at(c - 1, a, b);
                t1.lemma_seg_val_at(f, a, b);
                assert(b == s);
                assert(!(a == s && b == e));
            } else if ep && f == c - 1 + d1 {
                assert(!t1.closes(f));
                assert(false);
            } else {
                let g = f + 2 - d1 - d2;
                assert(t1.nodes@[f] == t0.nodes@[g]);
                if g == c + 1 {
                    assert(t0.closes(c + 1) == ep);
                    if ep {
                        assert(t1.key(f - 1) == e);
                        assert(t0.key(g - 1) == e);
                        assert(t0.seg_at_idx(g, a, b));
                    } else {
                        assert(!t1.closes(f));
                        assert(false);
                    }
                } else {
                    assert(t1.nodes@[f - 1] == t0.nodes@[g - 1]);
                    assert(t0.seg_at_idx(g, a, b));
                }
                t0.lemma_seg_val_at(g, a, b);
                t1.lemma_seg_val_at(f, a, b);
                if a == s && b == e {
                    t0.lemma_key_unique(g, c);
                }
            }
        }

        // Backward: every other old segment survives.
        assert forall|a: u64, b: u64|
            #[trigger] t0.has_seg(a, b) && !(a == s && b == e) implies t1.has_seg(a, b) by {
            let g = choose|g: int| t0.seg_at_idx(g, a, b);
            if g == c {
                t0.lemma_key_unique(g, c);
                assert(false);
            } else if g < c - 1 {
                assert(t1.seg_at_idx(g, a, b));
            } else if g == c - 1 {
                assert(t0.closes(c - 1));
                assert(sp);
                assert(t1.seg_at_idx(c - 1, a, b));
            } else {
                assert(g >= c + 1);
                let f = g - 2 + d1 + d2;
                assert(t1.nodes@[f] == t0.nodes@[g]);
                if g == c + 1 {
                    assert(ep);
                    assert(t1.key(f - 1) == e);
                    assert(t1.seg_at_idx(f, a, b));
                } else {
                    assert(t1.nodes@[f - 1] == t0.nodes@[g - 1]);
                    assert(t1.seg_at_idx(f, a, b));
                }
            }
        }

    }

    /// Remove the stored segment `[s, e)` and return its payload; every
    /// other stored segment and payload is kept.
    fn remove_anchors(&mut self, s: u64, e: u64) -> (r: V)
        requires
            old(self).wf(),
            old(self).has_seg(s, e),
        ensures
            final(self).wf(),
            r == old(self).seg_val(s, e),
            !final(self).has_seg(s, e),
            forall|a: u64, b: u64| #[trigger]
                final(self).has_seg(a, b) ==> old(self).has_seg(a, b) && !(a == s && b == e)
                    && final(self).seg_val(a, b) == old(self).seg_val(a, b),
            forall|a: u64, b: u64|
                #[trigger] old(self).has_seg(a, b) && !(a == s && b == e) ==> final(self).has_seg(
                    a,
                    b,
                ),
    {
        let ghost t0 = *self;
        let ghost c = choose|c: int| t0.seg_at_idx(c, s, e);
        proof {
            t0.lemma_seg_val_at(c, s, e);
            assert(t0.opens(c - 1));
            assert(s < e);
        }
        let i = self.lower_bound(s);
        let ghost gi = i as int;
        proof {
            if gi < c - 1 {
                assert(t0.key(gi) >= s);
                assert(t0.key(gi) < t0.key(c - 1));
                assert(false);
            }
            if gi > c - 1 {
                assert(t0.key(c - 1) < s);
                assert(false);
            }
            assert(gi == c - 1);
        }
        let ghost sp = t0.nodes@[c - 1].1 is EndStart;
        let s_shared = match &self.nodes[i].1 {
            SegmentValue::EndStart(_) => true,
            _ => false,
        };
        if s_shared {
            let node = self.nodes.remove(i);
            let v0 = match node.1 {
                SegmentValue::EndStart(v) => v,
                SegmentValue::Start => vstd::pervasive::unreached(),
                SegmentValue::End(_) => vstd::pervasive::unreached(),
            };
            self.nodes.insert(i, (s, SegmentValue::End(v0)));
            proof {
                assert(self.nodes@ =~= t0.nodes@.update(c - 1, (s, SegmentValue::End(t0.val_at(
                    c - 1,
                )))));
            }
        } else {
            proof {
                assert(t0.nodes@[c - 1].1 is Start);
            }
            let node = self.nodes.remove(i);
            proof {
                assert(self.nodes@ =~= t0.nodes@.remove(c - 1));
            }
        }
        proof {
            // Still sorted: keys are a subsequence of the old keys.
            assert forall|f1: int, f2: int|
                #![trigger self.key(f1), self.key(f2)]
                0 <= f1 < f2 < self.n() implies self.key(f1) < self.key(f2) by {
                if sp {
                    assert(t0.key(f1) < t0.key(f2));
                } else {
                    let k1 = if f1 < c - 1 {
                        f1
                    } else {
                        f1 + 1
                    };
                    let k2 = if f2 < c - 1 {
                        f2
                    } else {
                        f2 + 1
                    };
                    assert(self.key(f1) == t0.key(k1));
                    assert(self.key(f2) == t0.key(k2));
                    assert(t0.key(k1) < t0.key(k2));
                }
            }
        }
        let i2 = self.lower_bound(e);
        let ghost d1: int = if sp {
            1
        } else {
            0
        };
        proof {
            // The anchor at `e` now sits at `c - 1 + d1`.
            let epos = c - 1 + d1;
            assert(self.nodes@[epos] == t0.nodes@[c]);
            assert(self.key(epos) == e);
            if epos > 0 {
                if sp {
                    assert(self.key(epos - 1) == s);
                } else {
                    assert(self.key(epos - 1) == t0.key(c - 2));
                    assert(t0.key(c - 2) < t0.key(c - 1));
                }
                assert(self.key(epos - 1) < e);
            }
            if i2 as int <= epos - 1 {
                assert(self.key(epos - 1) >= e);
                assert(false);
            }
            if i2 as int > epos {
                assert(self.key(epos) < e);
                assert(false);
            }
            assert(i2 as int == epos);
        }
        let ghost ep = t0.nodes@[c].1 is EndStart;
        let node = self.nodes.remove(i2);
        let r = match node.1 {
            SegmentValue::End(v) => v,
            SegmentValue::EndStart(v) => {
                self.nodes.insert(i2, (e, SegmentValue::Start));
                v
            },
            SegmentValue::Start => vstd::pervasive::unreached(),
        };
        proof {
            let sslot = if sp {
                seq![(s, SegmentValue::End(t0.val_at(c - 1)))]
            } else {
                Seq::<(u64, SegmentValue<V>)>::empty()
            };
            let eslot = if ep {
                seq![(e, SegmentValue::<V>::Start)]
            } else {
                Seq::<(u64, SegmentValue<V>)>::empty()
            };
            assert(self.nodes@ =~= t0.nodes@.subrange(0, c - 1) + sslot + eslot
                + t0.nodes@.subrange(c + 1, t0.n()));
            Self::lemma_remove_view(t0, *self, s, e, c, sp, ep);
            assert(r == t0.val_at(c));
        }
        r
    }

    /// Replace the payload of the stored segment `[s, e)`, returning the
    /// previous payload. The stored segments themselves are unchanged.
    fn replace_value(&mut self, s: u64, e: u64, value: V) -> (r: V)
        requires
            old(self).wf(),
            old(self).has_seg(s, e),
        ensures
            final(self).wf(),
            r == old(self).seg_val(s, e),
            final(self).seg_val(s, e) == value,
            forall|a: u64, b: u64| #[trigger]
                final(self).has_seg(a, b) <==> #[trigger] old(self).has_seg(a, b),
            forall|a: u64, b: u64|
                #[trigger] old(self).has_seg(a, b) && !(a == s && b == e) ==> final(self).seg_val(
                    a,
                    b,
                ) == old(self).seg_val(a, b),
    {
        let ghost t0 = *self;
        let ghost c = choose|c: int| t0.seg_at_idx(c, s, e);
        proof {
            t0.lemma_seg_val_at(c, s, e);
        }
        let i2 = self.lower_bound(e);
        proof {
            if (i2 as int) < c {
                assert(t0.key(i2 as int) >= e);
                if (i2 as int) < c {
                    assert(t0.key(i2 as int) < t0.key(c));
                }
                assert(false);
            }
            if (i2 as int) > c {
                assert(t0.key(c) < e);
                assert(false);
            }
            assert(i2 as int == c);
        }
        let node = self.nodes.remove(i2);
        let (r, fresh) = match node.1 {
            SegmentValue::End(v) => (v, SegmentValue::End(value)),
            SegmentValue::EndStart(v) => (v, SegmentValue::EndStart(value)),
            SegmentValue::Start => vstd::pervasive::unreached(),
        };
        self.nodes.insert(i2, (e, fresh));
        proof {
            let t1 = *self;
            assert(t1.nodes@ =~= t0.nodes@.update(c, (e, t1.nodes@[c].1)));
            // Keys and anchor roles are unchanged, so the stored segments are
            // unchanged as well; only the payload at `c` differs.
            assert(forall|f: int| 0 <= f < t0.n() ==> t1.key(f) == t0.key(f));
            assert(forall|f: int|
                0 <= f < t0.n() ==> ((#[trigger] t1.closes(f) <==> t0.closes(f)) && (t1.opens(f)
                    <==> t0.opens(f))));
            assert(forall|f: int| 0 <= f < t0.n() && f != c ==> t1.val_at(f) == t0.val_at(f));
            assert forall|f1: int, f2: int|
                #![trigger t1.key(f1), t1.key(f2)]
                0 <= f1 < f2 < t1.n() implies t1.key(f1) < t1.key(f2) by {
                assert(t0.key(f1) < t0.key(f2));
            }
            assert(t1.nodes@[0].1 is Start <== t0.nodes@[0].1 is Start && t0.n() > 0);
            assert(t1.wf());
            assert(forall|f: int, a: u64, b: u64|
                #[trigger] t1.seg_at_idx(f, a, b) <==> #[trigger] t0.seg_at_idx(f, a, b));
            assert forall|a: u64, b: u64| #[trigger]
                t1.has_seg(a, b) <==> #[trigger] t0.has_seg(a, b) by {
                if t1.has_seg(a, b) {
                    let f = choose|f: int| t1.seg_at_idx(f, a, b);
                    assert(t0.seg_at_idx(f, a, b));
                }
                if t0.has_seg(a, b) {
                    let f = choose|f: int| t0.seg_at_idx(f, a, b);
                    assert(t1.seg_at_idx(f, a, b));
                }
            }
            assert(t1.seg_at_idx(c, s, e));
            t1.lemma_seg_val_at(c, s, e);
            assert forall|a: u64, b: u64|
                #[trigger] t0.has_seg(a, b) && !(a == s && b == e) implies t1.seg_val(a, b)
                    == t0.seg_val(a, b) by {
                let f = choose|f: int| t0.seg_at_idx(f, a, b);
                t0.lemma_seg_val_at(f, a, b);
                if f == c {
                    t0.lemma_key_unique(f, c);
                    assert(a == s && b == e);
                }
                assert(t1.seg_at_idx(f, a, b));
                t1.lemma_seg_val_at(f, a, b);
            }
        }
        r
    }

    /// Insert `seg` with `value`: stores it when the spot is free, replaces
    /// and returns the previous payload when the exact segment is stored,
    /// and hands `value` back beside the error when `seg` partially
    /// intersects a stored segment.
    pub fn insert_segment(&mut self, seg: Segment, value: V) -> (r: Result<
        Option<V>,
        (V, SegmentTreeError),
    >)
        requires
            old(self).wf(),
            seg.start < seg.end,
        ensures
            final(self).wf(),
            match r {
                Ok(None) => !old(self).intersects(seg.start, seg.end) && final(self).has_seg(
                    seg.start,
                    seg.end,
                ) && final(self).seg_val(seg.start, seg.end) == value && (forall|a: u64, b: u64| #[trigger]
                    final(self).has_seg(a, b) ==> old(self).has_seg(a, b) || (a == seg.start && b
                        == seg.end)) && (forall|a: u64, b: u64| #[trigger]
                    old(self).has_seg(a, b) ==> final(self).has_seg(a, b) && final(self).seg_val(
                        a,
                        b,
                    ) == old(self).seg_val(a, b)),
                Ok(Some(v_old)) => old(self).has_seg(seg.start, seg.end) && v_old == old(
                    self,
                ).seg_val(seg.start, seg.end) && final(self).seg_val(seg.start, seg.end) == value
                    && (forall|a: u64, b: u64| #[trigger]
                    final(self).has_seg(a, b) <==> #[trigger] old(self).has_seg(a, b)) && (forall|
                    a: u64,
                    b: u64,
                |
                    #[trigger] old(self).has_seg(a, b) && !(a == seg.start && b == seg.end)
                        ==> final(self).seg_val(a, b) == old(self).seg_val(a, b)),
                Err((v, SegmentTreeError::Intersect(w))) => v == value && *final(self) == *old(self)
                    && old(self).intersects(seg.start, seg.end) && !old(self).has_seg(
                    seg.start,
                    seg.end,
                ) && old(self).reports_witness(seg.start, seg.end, w),
            },
    {
        match self.contains_segment(&seg) {
            Ok(true) => {
                let v_old = self.replace_value(seg.start, seg.end, value);
                Ok(Some(v_old))
            },
            Ok(false) => {
                self.insert_anchors(seg.start, seg.end, value);
                Ok(None)
            },
            Err(e) => Err((value, e)),
        }
    }

    /// Remove `seg`: returns its payload when it is stored exactly, nothing
    /// when no stored segment intersects it, and the intersection witness
    /// otherwise. Every other stored segment is kept.
    pub fn remove_segment(&mut self, seg: &Segment) -> (r: Result<Option<V>, SegmentTreeError>)
        requires
            old(self).wf(),
            seg.start < seg.end,
        ensures
            final(self).wf(),
            match r {
                Ok(Some(v)) => old(self).has_seg(seg.start, seg.end) && v == old(self).seg_val(
                    seg.start,
                    seg.end,
                ) && !final(self).has_seg(seg.start, seg.end) && (forall|a: u64, b: u64| #[trigger]
                    final(self).has_seg(a, b) ==> old(self).has_seg(a, b) && !(a == seg.start && b
                        == seg.end) && final(self).seg_val(a, b) == old(self).seg_val(a, b)) && (
                forall|a: u64, b: u64|
                    #[trigger] old(self).has_seg(a, b) && !(a == seg.start && b == seg.end)
                        ==> final(self).has_seg(a, b)),
                Ok(None) => !old(self).intersects(seg.start, seg.end) && *final(self) == *old(self),
                Err(SegmentTreeError::Intersect(w)) => *final(self) == *old(self) && old(
                    self,
                ).intersects(seg.start, seg.end) && !old(self).has_seg(seg.start, seg.end) && old(
                    self,
                ).reports_witness(seg.start, seg.end, w),
            },
    {
        match self.contains_segment(seg) {
            Ok(true) => Ok(Some(self.remove_anchors(seg.start, seg.end))),
            Ok(false) => Ok(None),
            Err(e) => Err(e),
        }
    }

    /// Every stored segment is proper.
    pub proof fn lemma_has_seg_proper(self, s: u64, e: u64)
        requires
            self.wf(),
            self.has_seg(s, e),
        ensures
            s < e,
    {
        let c = choose|c: int| self.seg_at_idx(c, s, e);
        assert(self.key(c - 1) < self.key(c));
    }

    /// No two distinct stored segments share a point; touching is allowed.
    pub proof fn lemma_stored_disjoint(self, a: u64, b: u64, c: u64, d: u64)
        requires
            self.wf(),
            self.has_seg(a, b),
            self.has_seg(c, d),
            !(a == c && b == d),
        ensures
            !segs_overlap(a, b, c, d),
    {
        let i = choose|i: int| self.seg_at_idx(i, a, b);
        let j = choose|j: int| self.seg_at_idx(j, c, d);
        if i == j {
            assert(a == c && b == d);
        } else if i < j {
            // b == key(i) <= key(j - 1) == c, so [a, b) lies left of [c, d).
            if i < j - 1 {
                assert(self.key(i) < self.key(j - 1));
            }
            assert(self.key(i) <= self.key(j - 1));
        } else {
            if j < i - 1 {
                assert(self.key(j) < self.key(i - 1));
            }
            assert(self.key(j) <= self.key(i - 1));
        }
    }

    /// At most one stored segment contains any given point.
    pub proof fn lemma_containing_unique(self, p: u64, a: u64, b: u64, c: u64, d: u64)
        requires
            self.wf(),
            self.has_seg(a, b),
            self.has_seg(c, d),
            a <= p < b,
            c <= p < d,
        ensures
            a == c && b == d,
    {
        if !(a == c && b == d) {
            self.lemma_stored_disjoint(a, b, c, d);
            assert(segs_overlap(a, b, c, d));
        }
    }

    /// Exact lookup is sharp: any query that strictly overlaps a stored
    /// segment without being it — a proper sub-segment, a proper
    /// super-segment, or any other partial overlap — classifies as an
    /// intersection, never as present or absent.
    pub proof fn lemma_overlapping_query_intersects(self, s: u64, e: u64, qs: u64, qe: u64)
        requires
            self.wf(),
            self.has_seg(s, e),
            segs_overlap(s, e, qs, qe),
            !(qs == s && qe == e),
        ensures
            self.intersects(qs, qe),
            !self.has_seg(qs, qe),
    {
        if self.has_seg(qs, qe) {
            self.lemma_stored_disjoint(s, e, qs, qe);
        }
    }

    /// Classify `seg` into an entry handle: `Occupied` when the exact
    /// segment is stored, `Vacant` when nothing intersects it, and the
    /// intersection witness otherwise. The handle records the segment; the
    /// operations on it take the container again and demand that its state
    /// still matches the classification.
    pub fn entry_segment(&self, seg: Segment) -> (r: Result<Entry, SegmentTreeError>)
        requires
            self.wf(),
            seg.start < seg.end,
        ensures
            match r {
                Ok(Entry::Occupied(o)) => o.seg_spec() == seg && self.has_seg(seg.start, seg.end),
                Ok(Entry::Vacant(v)) => v.seg_spec() == seg && !self.intersects(
                    seg.start,
                    seg.end,
                ),
                Err(SegmentTreeError::Intersect(w)) => self.intersects(seg.start, seg.end)
                    && !self.has_seg(seg.start, seg.end) && self.reports_witness(
                    seg.start,
                    seg.end,
                    w,
                ),
            },
    {
        match self.contains_segment(&seg) {
            Ok(true) => Ok(Entry::Occupied(OccupiedEntry { seg })),
            Ok(false) => Ok(Entry::Vacant(VacantEntry { seg })),
            Err(e) => Err(e),
        }
    }
}

/// A classified handle for one segment of a `SegmentTree`, as handed out by
/// `entry_segment`.
#[derive(Debug)]
pub enum Entry {
    Vacant(VacantEntry),
    Occupied(OccupiedEntry),
}

/// A handle for a segment that no stored segment intersects.
#[derive(Debug)]
pub struct VacantEntry {
    seg: Segment,
}

/// A handle for a segment that is stored exactly.
#[derive(Debug)]
pub struct OccupiedEntry {
    seg: Segment,
}

impl Entry {
    pub open spec fn seg_spec(self) -> Segment {
        match self {
            Entry::Vacant(v) => v.seg_spec(),
            Entry::Occupied(o) => o.seg_spec(),
        }
    }

    pub fn key(&self) -> (k: &Segment)
        ensures
            *k == self.seg_spec(),
    {
        match self {
            Entry::Occupied(o) => o.key(),
            Entry::Vacant(v) => v.key(),
        }
    }

    /// Store `default` when the entry is vacant; keep the stored payload
    /// when it is occupied.
    pub fn or_insert<V>(self, tree: &mut SegmentTree<V>, default: V)
        requires
            old(tree).wf(),
            self.seg_spec().start < self.seg_spec().end,
            match self {
                Entry::Vacant(_) => !old(tree).intersects(
                    self.seg_spec().start,
                    self.seg_spec().end,
                ),
                Entry::Occupied(_) => old(tree).has_seg(self.seg_spec().start, self.seg_spec().end),
            },
        ensures
            final(tree).wf(),
            final(tree).has_seg(self.seg_spec().start, self.seg_spec().end),
            match self {
                Entry::Vacant(_) => final(tree).seg_val(self.seg_spec().start, self.seg_spec().end)
                    == default && (forall|a: u64, b: u64| #[trigger]
                    final(tree).has_seg(a, b) ==> old(tree).has_seg(a, b) || (a
                        == self.seg_spec().start && b == self.seg_spec().end)) && (forall|
                    a: u64,
                    b: u64,
                | #[trigger]
                    old(tree).has_seg(a, b) ==> final(tree).has_seg(a, b) && final(tree).seg_val(
                        a,
                        b,
                    ) == old(tree).seg_val(a, b)),
                Entry::Occupied(_) => *final(tree) == *old(tree),
            },
    {
        match self {
            Entry::Vacant(v) => v.insert(tree, default),
            Entry::Occupied(_) => {},
        }
    }
}

impl VacantEntry {
    pub closed spec fn seg_spec(self) -> Segment {
        self.seg
    }

    pub fn key(&self) -> (k: &Segment)
        ensures
            *k == self.seg_spec(),
    {
        &self.seg
    }

    pub fn into_key(self) -> (k: Segment)
        ensures
            k == self.seg_spec(),
    {
        self.seg
    }

    /// Store the vacant segment with `value`. Inserting while the segment
    /// only touches stored ones at their endpoints is legal.
    pub fn insert<V>(self, tree: &mut SegmentTree<V>, value: V)
        requires
            old(tree).wf(),
            self.seg_spec().start < self.seg_spec().end,
            !old(tree).intersects(self.seg_spec().start, self.seg_spec().end),
        ensures
            final(tree).wf(),
            final(tree).has_seg(self.seg_spec().start, self.seg_spec().end),
            final(tree).seg_val(self.seg_spec().start, self.seg_spec().end) == value,
            forall|a: u64, b: u64| #[trigger]
                final(tree).has_seg(a, b) ==> old(tree).has_seg(a, b) || (a
                    == self.seg_spec().start && b == self.seg_spec().end),
            forall|a: u64, b: u64| #[trigger]
                old(tree).has_seg(a, b) ==> final(tree).has_seg(a, b) && final(tree).seg_val(a, b)
                    == old(tree).seg_val(a, b),
    {
        tree.insert_anchors(self.seg.start, self.seg.end, value);
    }
}

impl OccupiedEntry {
    pub closed spec fn seg_spec(self) -> Segment {
        self.seg
    }

    pub fn key(&self) -> (k: &Segment)
        ensures
            *k == self.seg_spec(),
    {
        &self.seg
    }

    /// Borrow the payload of the occupied segment.
    pub fn get<'a, V>(&self, tree: &'a SegmentTree<V>) -> (v: &'a V)
        requires
            tree.wf(),
            self.seg_spec().start < self.seg_spec().end,
            tree.has_seg(self.seg_spec().start, self.seg_spec().end),
        ensures
            *v == tree.seg_val(self.seg_spec().start, self.seg_spec().end),
    {
        match tree.get_segment(&self.seg) {
            Ok(Some(v)) => v,
            Ok(None) => {
                proof {
                    assert(segs_overlap(self.seg.start, self.seg.end, self.seg.start, self.seg.end));
                }
                vstd::pervasive::unreached()
            },
            Err(_) => vstd::pervasive::unreached(),
        }
    }

    /// Replace the payload of the occupied segment, returning the previous
    /// one.
    pub fn insert<V>(&self, tree: &mut SegmentTree<V>, value: V) -> (r: V)
        requires
            old(tree).wf(),
            old(tree).has_seg(self.seg_spec().start, self.seg_spec().end),
        ensures
            final(tree).wf(),
            r == old(tree).seg_val(self.seg_spec().start, self.seg_spec().end),
            final(tree).seg_val(self.seg_spec().start, self.seg_spec().end) == value,
            forall|a: u64, b: u64| #[trigger]
                final(tree).has_seg(a, b) <==> #[trigger] old(tree).has_seg(a, b),
            forall|a: u64, b: u64|
                #[trigger] old(tree).has_seg(a, b) && !(a == self.seg_spec().start && b
                    == self.seg_spec().end) ==> final(tree).seg_val(a, b) == old(tree).seg_val(
                    a,
                    b,
                ),
    {
        tree.replace_value(self.seg.start, self.seg.end, value)
    }

    /// Remove the occupied segment, returning its payload.
    pub fn remove<V>(self, tree: &mut SegmentTree<V>) -> (r: V)
        requires
            old(tree).wf(),
            old(tree).has_seg(self.seg_spec().start, self.seg_spec().end),
        ensures
            final(tree).wf(),
            r == old(tree).seg_val(self.seg_spec().start, self.seg_spec().end),
            !final(tree).has_seg(self.seg_spec().start, self.seg_spec().end),
            forall|a: u64, b: u64| #[trigger]
                final(tree).has_seg(a, b) ==> old(tree).has_seg(a, b) && !(a
                    == self.seg_spec().start && b == self.seg_spec().end) && final(tree).seg_val(
                    a,
                    b,
                ) == old(tree).seg_val(a, b),
            forall|a: u64, b: u64|
                #[trigger] old(tree).has_seg(a, b) && !(a == self.seg_spec().start && b
                    == self.seg_spec().end) ==> final(tree).has_seg(a, b),
    {
        tree.remove_anchors(self.seg.start, self.seg.end)
    }

    /// Remove the occupied segment, returning it together with its payload.
    pub fn remove_entry<V>(self, tree: &mut SegmentTree<V>) -> (r: (Segment, V))
        requires
            old(tree).wf(),
            old(tree).has_seg(self.seg_spec().start, self.seg_spec().end),
        ensures
            final(tree).wf(),
            r.0 == self.seg_spec(),
            r.1 == old(tree).seg_val(self.seg_spec().start, self.seg_spec().end),
            !final(tree).has_seg(self.seg_spec().start, self.seg_spec().end),
            forall|a: u64, b: u64| #[trigger]
                final(tree).has_seg(a, b) ==> old(tree).has_seg(a, b) && !(a
                    == self.seg_spec().start && b == self.seg_spec().end) && final(tree).seg_val(
                    a,
                    b,
                ) == old(tree).seg_val(a, b),
            forall|a: u64, b: u64|
                #[trigger] old(tree).has_seg(a, b) && !(a == self.seg_spec().start && b
                    == self.seg_spec().end) ==> final(tree).has_seg(a, b),
    {
        let v = tree.remove_anchors(self.seg.start, self.seg.end);
        (self.seg, v)
    }
}

} // verus!
