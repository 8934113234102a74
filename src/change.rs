//! A single edit of a sequence: a span of the original replaced by other bytes, with the
//! alignment of the replacement against the span it covers.

use vstd::prelude::*;
use crate::alignment::{align, aligns, count_edits, count_other, global_alignment_ops, DEL, INS};
use crate::bytes::{append_bytes, clip, clipped};

verus! {

/// Mathematical model of a [`Change`].
pub struct ChangeView {
    pub begin: int,
    pub end: int,
    pub seq: Seq<u8>,
    pub cigar: Seq<u8>,
    pub edit: int,
}

impl ChangeView {
    /// End of the change in the edited sequence.
    pub open spec fn end_err(self) -> int {
        self.begin + self.seq.len()
    }

    /// The span is not reversed and both of its ends are machine positions.
    pub open spec fn wf(self) -> bool {
        &&& 0 <= self.begin <= self.end <= usize::MAX
        &&& self.end_err() <= usize::MAX
    }

    /// `other` ends, in the original and in the edited sequence, no later than `self`.
    pub open spec fn contains(self, other: ChangeView) -> bool {
        other.end <= self.end && other.end_err() <= self.end_err()
    }

    /// `other` is not contained in `self` but starts before one of its ends.
    pub open spec fn overlaps(self, other: ChangeView) -> bool {
        !self.contains(other) && (other.begin < self.end_err() || other.begin < self.end)
    }

    /// The bytes of `other` that `self` appends when it absorbs `other`.
    pub open spec fn absorbed_seq(self, other: ChangeView) -> Seq<u8> {
        if other.begin < self.end_err() {
            let ovl = self.end_err() - other.begin;
            if ovl < other.seq.len() {
                other.seq.subrange(ovl, other.seq.len() as int)
            } else {
                Seq::empty()
            }
        } else {
            other.seq
        }
    }

    /// The end in the original that `self` takes when it absorbs `other`. When `other` starts
    /// within the edited span of `self`, the end moves by `other.end - other.begin - ovl`
    /// (with `ovl = self.end_err() - other.begin` bytes of overlap), which lowers it when
    /// `other` ends before `self` in the edited sequence; it never goes below `self.begin`,
    /// nor past the largest machine position. Otherwise the end is that of the replacement of
    /// `other` placed at its start.
    pub open spec fn absorbed_end(self, other: ChangeView) -> int {
        if other.begin < self.end_err() {
            let e = self.end + other.end - self.end_err();
            if e < self.begin {
                self.begin
            } else if e > usize::MAX {
                usize::MAX as int
            } else {
                e
            }
        } else {
            other.begin + other.seq.len()
        }
    }

    /// `self` after absorbing `other`: the absorbed bytes are appended, the end moves, and the
    /// whole replacement is aligned afresh against its new span of `raw`.
    pub open spec fn merged(self, other: ChangeView, raw: Seq<u8>) -> ChangeView {
        ChangeView {
            begin: self.begin,
            end: self.absorbed_end(other),
            seq: self.seq + self.absorbed_seq(other),
            cigar: self.cigar,
            edit: self.edit,
        }.aligned(raw)
    }

    /// The alignment and edit distance are those of the replacement against its span of
    /// `raw` (clipped to the end of `raw`): the alignment pairs the two (see [`aligns`]), its
    /// columns other than `D` are the replacement's bytes, those other than `I` the span's,
    /// and the edit distance counts the columns that are not matches.
    pub open spec fn is_aligned(self, raw: Seq<u8>) -> bool {
        let span = clip(raw, self.begin, self.end);
        &&& self.cigar == global_alignment_ops(self.seq, span)
        &&& self.edit == count_edits(self.cigar)
        &&& count_other(self.cigar, DEL) == self.seq.len()
        &&& count_other(self.cigar, INS) == span.len()
        &&& aligns(self.cigar, self.seq, span)
    }

    /// `self` aligned afresh against its span of `raw` (clipped to the end of `raw`).
    pub open spec fn aligned(self, raw: Seq<u8>) -> ChangeView {
        let ops = global_alignment_ops(self.seq, clip(raw, self.begin, self.end));
        ChangeView { cigar: ops, edit: count_edits(ops) as int, ..self }
    }
}

/// A change in a sequence: `original[begin..end]` is replaced by `seq`; `cigar` aligns `seq`
/// against that span and `edit_distance` counts its non-match columns.
#[derive(Debug, Clone, PartialEq, Eq)]
pub struct Change {
    pub begin: usize,
    pub end: usize,
    pub seq: Vec<u8>,
    pub cigar: Vec<u8>,
    pub edit_distance: u64,
}

impl View for Change {
    type V = ChangeView;

    open spec fn view(&self) -> ChangeView {
        ChangeView {
            begin: self.begin as int,
            end: self.end as int,
            seq: self.seq@,
            cigar: self.cigar@,
            edit: self.edit_distance as int,
        }
    }
}

impl Change {
    /// A change with no alignment yet (empty cigar, zero edit distance).
    pub fn new(begin: usize, end: usize, seq: Vec<u8>) -> (r: Change)
        requires
            begin <= end,
            begin + seq@.len() <= usize::MAX,
        ensures
            r@ == (ChangeView { begin: begin as int, end: end as int, seq: seq@, cigar: Seq::empty(), edit: 0 }),
            r@.wf(),
    {
        Change { begin, end, seq, cigar: Vec::new(), edit_distance: 0 }
    }

    /// A change aligned against `original`.
    pub fn from_seq(begin: usize, end: usize, seq: Vec<u8>, original: &[u8]) -> (r: Change)
        requires
            begin <= end,
            begin + seq@.len() <= usize::MAX,
        ensures
            r@ == (ChangeView { begin: begin as int, end: end as int, seq: seq@, cigar: Seq::empty(), edit: 0 }).aligned(original@),
            r@.is_aligned(original@),
            r@.wf(),
    {
        let mut r = Change::new(begin, end, seq);
        r.update_align(original);
        r
    }

    /// Start of the change.
    pub fn begin(&self) -> (r: usize)
        ensures
            r == self.begin,
    {
        self.begin
    }

    /// End of the change in the original sequence.
    pub fn end_raw(&self) -> (r: usize)
        ensures
            r == self.end,
    {
        self.end
    }

    /// End of the change in the edited sequence.
    pub fn end_err(&self) -> (r: usize)
        requires
            self@.wf(),
        ensures
            r == self@.end_err(),
    {
        self.begin + self.seq.len()
    }

    /// The replacement bytes.
    pub fn seq(&self) -> (r: &Vec<u8>)
        ensures
            r@ == self.seq@,
    {
        &self.seq
    }

    /// Alignment of the replacement against the span it covers.
    pub fn cigar(&self) -> (r: &Vec<u8>)
        ensures
            r@ == self.cigar@,
    {
        &self.cigar
    }

    /// Edit distance of the change.
    pub fn edit(&self) -> (r: u64)
        ensures
            r == self.edit_distance,
    {
        self.edit_distance
    }

    /// True when `other` ends, in the original and in the edited sequence, no later than `self`.
    pub fn contain(&self, other: &Change) -> (r: bool)
        requires
            self@.wf(),
            other@.wf(),
        ensures
            r == self@.contains(other@),
    {
        other.end <= self.end && other.end_err() <= self.end_err()
    }

    /// True when `other` is not contained in `self` but starts before one of its ends.
    pub fn overlap(&self, other: &Change) -> (r: bool)
        requires
            self@.wf(),
            other@.wf(),
        ensures
            r == self@.overlaps(other@),
    {
        if self.contain(other) {
            false
        } else {
            other.begin < self.end_err() || other.begin < self.end
        }
    }

    /// Absorbs `other` when the two overlap: the bytes of `other` past the end of `self` are
    /// appended, the end moves, and the whole replacement is aligned afresh against its new
    /// span of `raw`. Returns the change in edit distance.
    pub fn merge(&mut self, other: &Change, raw: &[u8]) -> (r: i128)
        requires
            old(self)@.wf(),
            other@.wf(),
        ensures
            old(self)@.overlaps(other@) ==> final(self)@ == old(self)@.merged(other@, raw@)
                && final(self)@.is_aligned(raw@),
            !old(self)@.overlaps(other@) ==> final(self)@ == old(self)@,
            r == final(self)@.edit - old(self)@.edit,
            final(self)@.wf(),
    {
        if !self.overlap(other) {
            return 0;
        }
        let old_edit = self.edit_distance;
        let self_err = self.end_err();
        let olen = other.seq.len();
        let (part, new_end) = if other.begin < self_err {
            let ovl = self_err - other.begin;
            let part = if ovl < olen {
                vstd::slice::slice_subrange(other.seq.as_slice(), ovl, olen)
            } else {
                vstd::slice::slice_subrange(other.seq.as_slice(), olen, olen)
            };
            let new_end = if other.end >= self_err {
                let ext = other.end - self_err;
                if self.end <= usize::MAX - ext { self.end + ext } else { usize::MAX }
            } else {
                let drop = self_err - other.end;
                if self.end - self.begin >= drop { self.end - drop } else { self.begin }
            };
            (part, new_end)
        } else {
            (other.seq.as_slice(), other.begin + olen)
        };
        proof {
            assert(part@ == old(self)@.absorbed_seq(other@));
        }
        append_bytes(&mut self.seq, part);
        self.end = new_end;
        self.update_align(raw);
        self.edit_distance as i128 - old_edit as i128
    }

    /// Aligns the replacement afresh against its span of `original` (clipped to its end).
    pub fn update_align(&mut self, original: &[u8])
        requires
            old(self)@.wf(),
        ensures
            final(self)@ == old(self)@.aligned(original@),
            final(self)@.is_aligned(original@),
            final(self)@.wf(),
    {
        let segment = clipped(original, self.begin, self.end);
        let (edit, ops) = align(self.seq.as_slice(), segment);
        self.cigar = ops;
        self.edit_distance = edit;
    }
}

} // verus!
