//! Error injection: structural glitches and point errors gathered into a change set until an
//! edit budget is met, then linearized into the edited sequence and its alignment.

use vstd::prelude::*;
use crate::change::{Change, ChangeView};
use crate::alignment::{aligns, count_edits, count_other, is_op, DEL, INS};
use crate::changeset::{
    lemma_empty_round_trip, lemma_linearization_aligns, lemma_linearization_columns,
    lemma_linearization_takes_all, linearized,
    match_run, sat, set_aligned, set_wf, sum_edits, ChangeSet,
};

verus! {

/// Kind of a single point error.
#[derive(Debug, Clone, Copy, PartialEq, Eq)]
pub enum PointEdit {
    Substitution,
    Insertion,
    Deletion,
}

/// `kmer` with one point error at `pos`: `base` replaces the byte there, or is inserted
/// before it, or the byte is removed.
pub open spec fn spec_point_edit(kmer: Seq<u8>, pos: int, kind: PointEdit, base: u8) -> Seq<u8> {
    match kind {
        PointEdit::Substitution => kmer.update(pos, base),
        PointEdit::Insertion => kmer.insert(pos, base),
        PointEdit::Deletion => kmer.remove(pos),
    }
}

/// Applies one point error to `kmer` at `pos` (see [`spec_point_edit`]).
pub fn point_edit(kmer: &[u8], pos: usize, kind: PointEdit, base: u8) -> (r: Vec<u8>)
    requires
        pos < kmer@.len(),
    ensures
        r@ == spec_point_edit(kmer@, pos as int, kind, base),
{
    let mut r: Vec<u8> = Vec::new();
    let mut i: usize = 0;
    while i < pos
        invariant
            i <= pos < kmer@.len(),
            r@ == kmer@.subrange(0, i as int),
        decreases pos - i,
    {
        r.push(kmer[i]);
        i = i + 1;
        proof {
            assert(r@ =~= kmer@.subrange(0, i as int));
        }
    }
    match kind {
        PointEdit::Substitution => {
            r.push(base);
        },
        PointEdit::Insertion => {
            r.push(base);
            r.push(kmer[pos]);
        },
        PointEdit::Deletion => {},
    }
    let ghost head = r@;
    let n = kmer.len();
    let mut j: usize = pos + 1;
    while j < kmer.len()
        invariant
            pos < j <= kmer@.len(),
            r@ == head + kmer@.subrange(pos + 1, j as int),
        decreases kmer@.len() - j,
    {
        r.push(kmer[j]);
        j = j + 1;
        proof {
            assert(r@ =~= head + kmer@.subrange(pos + 1, j as int));
        }
    }
    proof {
        let t = kmer@.subrange(pos + 1, kmer@.len() as int);
        match kind {
            PointEdit::Substitution => {
                assert(r@ =~= spec_point_edit(kmer@, pos as int, kind, base));
            },
            PointEdit::Insertion => {
                assert(r@ =~= spec_point_edit(kmer@, pos as int, kind, base));
            },
            PointEdit::Deletion => {
                assert(r@ =~= spec_point_edit(kmer@, pos as int, kind, base));
            },
        }
    }
    r
}

/// A random point error in `kmer`: a position, a kind among substitution, insertion and
/// deletion, and for a substitution a nucleotide other than the one there (see
/// [`crate::random_base_diff`]), for an insertion any nucleotide, each drawn uniformly.
pub fn random_error(kmer: &[u8], rng: &mut rand::rngs::StdRng) -> (r: Vec<u8>)
    requires
        kmer@.len() > 0,
    ensures
        exists|pos: int, kind: PointEdit, base: u8| 0 <= pos < kmer@.len()
            && r@ == spec_point_edit(kmer@, pos, kind, base)
            && (kind == PointEdit::Substitution ==> base != kmer@[pos] && crate::is_nuc(base))
            && (kind == PointEdit::Insertion ==> crate::is_nuc(base)),
{
    let pos = crate::draw_inclusive(rng, 0, kmer.len() - 1);
    let kind = crate::draw_inclusive_u32(rng, 1, 3);
    if kind == 1 {
        let base = crate::random_base_diff(kmer[pos], rng);
        point_edit(kmer, pos, PointEdit::Substitution, base)
    } else if kind == 2 {
        let base = crate::random_base(rng);
        point_edit(kmer, pos, PointEdit::Insertion, base)
    } else {
        point_edit(kmer, pos, PointEdit::Deletion, 0)
    }
}

/// Start of a glitch drawn `gap` bytes after `position`, when the glitch, which consumes
/// `consumed` bytes of the original and inserts `inserted` bytes, fits: it must not run past
/// the end of the original, and its end in the edited sequence must be a machine position.
pub open spec fn glitch_start(position: int, gap: int, consumed: int, inserted: int, raw_len: int) -> Option<int> {
    let start = position + gap;
    if start + consumed <= raw_len && start + inserted <= usize::MAX {
        Some(start)
    } else {
        None
    }
}

/// Places a drawn glitch: `None` when it does not fit (see [`glitch_start`]), which ends the
/// drawing of glitches; else its start, the cursor for the next draw, and the change that
/// replaces `consumed` bytes from there by `seq`.
pub fn place_glitch(position: usize, gap: usize, consumed: usize, seq: Vec<u8>, raw_len: usize) -> (r: Option<(usize, Change)>)
    ensures
        glitch_start(position as int, gap as int, consumed as int, seq@.len() as int, raw_len as int) is None
            ==> r is None,
        glitch_start(position as int, gap as int, consumed as int, seq@.len() as int, raw_len as int) matches Some(s)
            ==> (r matches Some(p) && p.0 == s && p.1@ == (ChangeView {
                begin: s,
                end: s + consumed,
                seq: seq@,
                cigar: Seq::empty(),
                edit: 0,
            })),
{
    if gap > raw_len || position > raw_len - gap {
        return None;
    }
    let start = position + gap;
    if consumed > raw_len - start || seq.len() > usize::MAX - start {
        return None;
    }
    Some((start, Change::new(start, start + consumed, seq)))
}

/// State of the point-error scan over one original sequence.
pub struct ErrorInjector {
    pub changes: ChangeSet,
    pub k: usize,
    pub budget: u64,
    pub pos: usize,
}

impl ErrorInjector {
    /// The changes are well formed.
    pub open spec fn inv(&self) -> bool {
        set_wf(self.changes@)
    }

    /// Every change is aligned against its span of `raw`.
    pub open spec fn aligned_to(&self, raw: Seq<u8>) -> bool {
        set_aligned(self.changes@, raw)
    }

    /// The scan is over at the current position: no full `k`-window starts there, or the
    /// edits made reach the budget, or what is left of the original cannot hold the edits
    /// still owed.
    pub open spec fn scan_done(&self, raw_len: int) -> bool {
        let total = sum_edits(self.changes@);
        ||| self.pos + self.k >= raw_len
        ||| total >= self.budget
        ||| (raw_len - self.pos) + total < self.budget
    }

    /// A scan with no change yet, for `k`-windows and an edit budget of `budget` (the smallest
    /// whole number of edits that reaches the fractional target).
    pub fn new(k: usize, budget: u64) -> (r: ErrorInjector)
        ensures
            r.changes@ == Seq::<ChangeView>::empty(),
            r.k == k,
            r.budget == budget,
            r.pos == 0,
            r.inv(),
            forall|raw: Seq<u8>| r.aligned_to(raw),
    {
        ErrorInjector { changes: ChangeSet::new(), k, budget, pos: 0 }
    }

    /// Feeds a glitch into the changes.
    pub fn add_glitch(&mut self, glitch: Change, raw: &[u8])
        requires
            old(self).inv(),
            glitch@.wf(),
        ensures
            final(self).changes@ == crate::changeset::spec_add(old(self).changes@, glitch@, raw@),
            old(self).aligned_to(raw@) ==> final(self).aligned_to(raw@),
            final(self).k == old(self).k,
            final(self).budget == old(self).budget,
            final(self).pos == old(self).pos,
            final(self).inv(),
    {
        self.changes.add_change(glitch, raw);
    }

    /// The position at which a point error may be drawn next, or `None` once the scan is over.
    pub fn next_position(&self, raw_len: usize) -> (r: Option<usize>)
        ensures
            r == if self.scan_done(raw_len as int) { None } else { Some(self.pos) },
    {
        if self.k >= raw_len || self.pos >= raw_len - self.k {
            return None;
        }
        let total = self.changes.total_edit();
        if total >= self.budget {
            return None;
        }
        if ((raw_len - self.pos) as u64) < self.budget - total {
            return None;
        }
        Some(self.pos)
    }

    /// Moves past the current position; when an error was drawn there, the `k`-window at the
    /// position is replaced by `kmer` first.
    pub fn advance(&mut self, kmer: Option<Vec<u8>>, raw: &[u8])
        requires
            old(self).inv(),
            !old(self).scan_done(raw@.len() as int),
            kmer matches Some(v) ==> old(self).pos + v@.len() <= usize::MAX,
        ensures
            kmer is None ==> final(self).changes@ == old(self).changes@,
            kmer matches Some(v) ==> final(self).changes@ == crate::changeset::spec_add(
                old(self).changes@,
                ChangeView {
                    begin: old(self).pos as int,
                    end: old(self).pos + old(self).k,
                    seq: v@,
                    cigar: Seq::empty(),
                    edit: 0,
                },
                raw@,
            ),
            final(self).k == old(self).k,
            final(self).budget == old(self).budget,
            final(self).pos == old(self).pos + 1,
            final(self).inv(),
            old(self).aligned_to(raw@) ==> final(self).aligned_to(raw@),
    {
        let n = raw.len();
        if let Some(v) = kmer {
            let change = Change::new(self.pos, self.pos + self.k, v);
            self.changes.add_change(change, raw);
        }
        self.pos = self.pos + 1;
    }

    /// The edited sequence, its alignment against `raw`, and the sum of the edit distances
    /// of the changes made. When the changes are aligned against `raw`, the alignment pairs
    /// the edited sequence with `raw` (see [`aligns`]): it holds only `=`, `X`, `I` and `D`,
    /// its columns other than `D` are the edited bytes, those other than `I` the bytes of
    /// `raw`, and the sum is its number of non-match columns (saturated at the largest `u64`).
    pub fn finish(&self, raw: &[u8]) -> (r: (Vec<u8>, Vec<u8>, u64))
        ensures
            r.0@ == linearized(self.changes@, raw@).0,
            r.1@ == linearized(self.changes@, raw@).1,
            r.2 == sum_edits(self.changes@),
            self.inv() && self.aligned_to(raw@) ==> count_other(r.1@, DEL) == r.0@.len()
                && count_other(r.1@, INS) == raw@.len()
                && r.2 == sat(count_edits(r.1@) as int)
                && aligns(r.1@, r.0@, raw@)
                && (forall|i: int| 0 <= i < r.1@.len() ==> is_op(#[trigger] r.1@[i])),
    {
        let (err, cigar, _) = self.changes.linearize(raw);
        proof {
            if self.inv() && self.aligned_to(raw@) {
                lemma_linearization_columns(self.changes@, raw@);
                lemma_linearization_aligns(self.changes@, raw@);
                lemma_linearization_takes_all(self.changes@, raw@);
            }
        }
        (err, cigar, self.changes.total_edit())
    }
}

/// With a budget of no edit and no glitch, the scan is over before any point error is
/// drawn, and the result is the original, aligned by match columns alone, with no edit.
pub proof fn lemma_exact_identity(inj: ErrorInjector, raw: Seq<u8>)
    requires
        inj.changes@ == Seq::<ChangeView>::empty(),
        inj.budget == 0,
    ensures
        inj.scan_done(raw.len() as int),
        linearized(inj.changes@, raw).0 == raw,
        linearized(inj.changes@, raw).1 == match_run(raw.len() as int),
        sum_edits(inj.changes@) == 0,
{
    lemma_empty_round_trip(raw);
}

} // verus!
