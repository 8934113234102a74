//! An ordered collection of non-overlapping changes, kept consistent as changes are added,
//! and its linearization into an edited sequence and its alignment.

use vstd::prelude::*;
use crate::alignment::{
    aligns, count_edits, count_other, is_op, lemma_aligns_concat, lemma_aligns_counts,
    lemma_counts_concat, DEL, INS, MATCH,
};
use crate::bytes::{append_bytes, append_repeat, clip, clipped};
use crate::change::{Change, ChangeView};

verus! {

/// `a` ends, in the original and in the edited sequence, at or before the start of `b`.
pub open spec fn separated(a: ChangeView, b: ChangeView) -> bool {
    a.end <= b.begin && a.end_err() <= b.begin
}

/// Every change is well formed and each one is separated from the next.
pub open spec fn set_wf(s: Seq<ChangeView>) -> bool {
    &&& forall|i: int| 0 <= i < s.len() ==> (#[trigger] s[i]).wf()
    &&& forall|i: int| 0 <= i < s.len() - 1 ==> separated(#[trigger] s[i], s[i + 1])
}

/// Every change is aligned against its span of `raw` (see [`ChangeView::is_aligned`]).
pub open spec fn set_aligned(s: Seq<ChangeView>, raw: Seq<u8>) -> bool {
    forall|i: int| 0 <= i < s.len() ==> (#[trigger] s[i]).is_aligned(raw)
}

/// Removing a change keeps the others aligned.
proof fn lemma_aligned_remove(s: Seq<ChangeView>, i: int, raw: Seq<u8>)
    requires
        0 <= i < s.len(),
    ensures
        set_aligned(s, raw) ==> set_aligned(s.remove(i), raw),
{
    if set_aligned(s, raw) {
        let t = s.remove(i);
        assert forall|j: int| 0 <= j < t.len() implies (#[trigger] t[j]).is_aligned(raw) by {
            if j < i {
                assert(t[j] == s[j]);
            } else {
                assert(t[j] == s[j + 1]);
            }
        }
    }
}

/// Number of changes that start at or before `b`.
pub open spec fn count_le(s: Seq<ChangeView>, b: int) -> int
    decreases s.len(),
{
    if s.len() == 0 {
        0
    } else {
        count_le(s.drop_last(), b) + if s.last().begin <= b { 1int } else { 0int }
    }
}

/// `e` absorbs the changes at the head of `rest` until it is separated from the next one:
/// those it contains are dropped, those it overlaps are merged into it.
pub open spec fn cascade(e: ChangeView, rest: Seq<ChangeView>, raw: Seq<u8>) -> Seq<ChangeView>
    decreases rest.len(),
{
    if rest.len() == 0 {
        seq![e]
    } else if separated(e, rest[0]) {
        seq![e] + rest
    } else if e.contains(rest[0]) {
        cascade(e, rest.drop_first(), raw)
    } else {
        cascade(e.merged(rest[0], raw), rest.drop_first(), raw)
    }
}

/// The collection after adding `c`. `c` is dropped when the change at or before its start
/// contains it, or when the change after its start, which `c` reaches, contains it (both
/// ends no later); containment is checked first. Else it is merged into the change at or
/// before its start when they overlap, or aligned and inserted. Then the changes that follow
/// are absorbed until the collection is separated again.
pub open spec fn spec_add(s: Seq<ChangeView>, c: ChangeView, raw: Seq<u8>) -> Seq<ChangeView> {
    let p = count_le(s, c.begin);
    if p > 0 && s[p - 1].contains(c) {
        s
    } else if p < s.len() && !separated(c, s[p]) && s[p].contains(c) {
        s
    } else if p > 0 && s[p - 1].overlaps(c) {
        s.take(p - 1) + cascade(s[p - 1].merged(c, raw), s.skip(p), raw)
    } else {
        s.take(p) + cascade(c.aligned(raw), s.skip(p), raw)
    }
}

/// `a + b`, saturated at the largest `u64`.
pub open spec fn sat_add(a: int, b: int) -> int {
    if a + b <= u64::MAX { a + b } else { u64::MAX as int }
}

/// Sum of the edit distances of the changes, saturated at the largest `u64`.
pub open spec fn sum_edits(s: Seq<ChangeView>) -> int
    decreases s.len(),
{
    if s.len() == 0 {
        0
    } else {
        sat_add(sum_edits(s.drop_last()), s.last().edit)
    }
}

/// Progress of a linearization: edited bytes, alignment, edit distance and position in the
/// original so far.
pub struct Linear {
    pub err: Seq<u8>,
    pub cigar: Seq<u8>,
    pub edit: int,
    pub pos: int,
}

/// `n` match columns.
pub open spec fn match_run(n: int) -> Seq<u8> {
    Seq::new(n as nat, |_i: int| MATCH)
}

/// One change of a linearization: skipped when it starts behind the cursor, else the
/// untouched gap is copied with match columns and the change's bytes and alignment follow.
pub open spec fn lin_step(l: Linear, c: ChangeView, raw: Seq<u8>) -> Linear {
    if c.begin < l.pos {
        l
    } else {
        let gap = clip(raw, l.pos, c.begin);
        Linear {
            err: l.err + gap + c.seq,
            cigar: l.cigar + match_run(gap.len() as int) + c.cigar,
            edit: sat_add(l.edit, c.edit),
            pos: c.end,
        }
    }
}

/// Linearization of the changes of `s`, in order.
pub open spec fn lin_prefix(s: Seq<ChangeView>, raw: Seq<u8>) -> Linear
    decreases s.len(),
{
    if s.len() == 0 {
        Linear { err: Seq::empty(), cigar: Seq::empty(), edit: 0, pos: 0 }
    } else {
        lin_step(lin_prefix(s.drop_last(), raw), s.last(), raw)
    }
}

/// Edited sequence, its alignment against `raw` and the edit distance that the changes of
/// `s` give: the untouched suffix of `raw` closes the edited sequence.
pub open spec fn linearized(s: Seq<ChangeView>, raw: Seq<u8>) -> (Seq<u8>, Seq<u8>, int) {
    let l = lin_prefix(s, raw);
    let tail = clip(raw, l.pos, raw.len() as int);
    (l.err + tail, l.cigar + match_run(tail.len() as int), l.edit)
}

/// Changes of a well-formed collection are ordered: each ends before any later one starts.
pub proof fn lemma_ordered(s: Seq<ChangeView>, i: int, j: int)
    requires
        set_wf(s),
        0 <= i < j < s.len(),
    ensures
        s[i].end <= s[j].begin,
        s[i].end_err() <= s[j].begin,
        s[i].begin <= s[j].begin,
    decreases j - i,
{
    if j > i + 1 {
        lemma_ordered(s, i, j - 1);
        assert(s[j - 1].wf());
        assert(separated(s[j - 1], s[j]));
    } else {
        assert(separated(s[i], s[i + 1]));
    }
    assert(s[i].wf());
}

/// In an ordered collection, the changes before index `p` start at or before `b` and the
/// others after it: `p` is the number of changes that start at or before `b`.
proof fn lemma_count_le(s: Seq<ChangeView>, b: int, p: int)
    requires
        0 <= p <= s.len(),
        forall|j: int| 0 <= j < p ==> (#[trigger] s[j]).begin <= b,
        forall|j: int| p <= j < s.len() ==> (#[trigger] s[j]).begin > b,
    ensures
        count_le(s, b) == p,
    decreases s.len(),
{
    if s.len() > 0 {
        let t = s.drop_last();
        if p == s.len() {
            assert forall|j: int| 0 <= j < p - 1 implies (#[trigger] t[j]).begin <= b by {
                assert(t[j] == s[j]);
            }
            lemma_count_le(t, b, p - 1);
            assert(s.last() == s[s.len() - 1]);
        } else {
            assert forall|j: int| 0 <= j < p implies (#[trigger] t[j]).begin <= b by {
                assert(t[j] == s[j]);
            }
            assert forall|j: int| p <= j < t.len() implies (#[trigger] t[j]).begin > b by {
                assert(t[j] == s[j]);
            }
            lemma_count_le(t, b, p);
            assert(s.last() == s[s.len() - 1]);
        }
    }
}

/// A well-formed change that absorbs another stays well formed.
proof fn lemma_merged_wf(e: ChangeView, o: ChangeView, raw: Seq<u8>)
    requires
        e.wf(),
        o.wf(),
    ensures
        e.merged(o, raw).wf(),
        e.merged(o, raw).begin == e.begin,
{
}

/// Absorbing the head of a well-formed collection gives a well-formed collection that
/// starts where `e` starts.
proof fn lemma_cascade(e: ChangeView, rest: Seq<ChangeView>, raw: Seq<u8>)
    requires
        e.wf(),
        set_wf(rest),
    ensures
        set_wf(cascade(e, rest, raw)),
        cascade(e, rest, raw).len() >= 1,
        cascade(e, rest, raw)[0].begin == e.begin,
    decreases rest.len(),
{
    if rest.len() == 0 {
    } else if separated(e, rest[0]) {
        let r = seq![e] + rest;
        assert forall|i: int| 0 <= i < r.len() implies (#[trigger] r[i]).wf() by {
            if i > 0 {
                assert(r[i] == rest[i - 1]);
            }
        }
        assert forall|i: int| 0 <= i < r.len() - 1 implies separated(#[trigger] r[i], r[i + 1]) by {
            if i > 0 {
                assert(r[i] == rest[i - 1]);
                assert(r[i + 1] == rest[i]);
            }
        }
    } else {
        let t = rest.drop_first();
        assert forall|i: int| 0 <= i < t.len() implies (#[trigger] t[i]).wf() by {
            assert(t[i] == rest[i + 1]);
        }
        assert forall|i: int| 0 <= i < t.len() - 1 implies separated(#[trigger] t[i], t[i + 1]) by {
            assert(t[i] == rest[i + 1]);
            assert(t[i + 1] == rest[i + 2]);
        }
        assert(rest[0].wf());
        if e.contains(rest[0]) {
            lemma_cascade(e, t, raw);
        } else {
            lemma_merged_wf(e, rest[0], raw);
            lemma_cascade(e.merged(rest[0], raw), t, raw);
        }
    }
}

/// Where a position falls in a well-formed collection: the changes before `count_le` start
/// at or before it, the others after it.
pub proof fn lemma_count_le_bounds(s: Seq<ChangeView>, b: int)
    requires
        set_wf(s),
    ensures
        0 <= count_le(s, b) <= s.len(),
        forall|j: int| 0 <= j < count_le(s, b) ==> (#[trigger] s[j]).begin <= b,
        forall|j: int| count_le(s, b) <= j < s.len() ==> (#[trigger] s[j]).begin > b,
    decreases s.len(),
{
    if s.len() > 0 {
        let t = s.drop_last();
        lemma_sub_wf(s, 0, s.len() - 1);
        assert(t =~= s.subrange(0, s.len() - 1));
        lemma_count_le_bounds(t, b);
        let q = count_le(t, b);
        let n = s.len() - 1;
        assert(count_le(s, b) == q + if s[n].begin <= b { 1int } else { 0int });
        if s[n].begin <= b && q < n {
            assert(t[n - 1].begin > b);
            lemma_ordered(s, n - 1, n);
            assert(false);
        }
        assert forall|j: int| 0 <= j < count_le(s, b) implies (#[trigger] s[j]).begin <= b by {
            if j < n {
                assert(t[j] == s[j]);
            }
        }
        assert forall|j: int| count_le(s, b) <= j < s.len() implies (#[trigger] s[j]).begin > b by {
            if j < n {
                assert(t[j] == s[j]);
            }
        }
    }
}

/// A slice of a well-formed collection is well formed.
pub proof fn lemma_sub_wf(s: Seq<ChangeView>, lo: int, hi: int)
    requires
        set_wf(s),
        0 <= lo <= hi <= s.len(),
    ensures
        set_wf(s.subrange(lo, hi)),
{
    let t = s.subrange(lo, hi);
    assert forall|i: int| 0 <= i < t.len() implies (#[trigger] t[i]).wf() by {
        assert(t[i] == s[lo + i]);
    }
    assert forall|i: int| 0 <= i < t.len() - 1 implies separated(#[trigger] t[i], t[i + 1]) by {
        assert(t[i] == s[lo + i]);
        assert(t[i + 1] == s[lo + i + 1]);
    }
}

/// Two well-formed collections, the first separated from the second, join into one.
pub proof fn lemma_concat_wf(a: Seq<ChangeView>, b: Seq<ChangeView>)
    requires
        set_wf(a),
        set_wf(b),
        a.len() > 0 && b.len() > 0 ==> separated(a.last(), b[0]),
    ensures
        set_wf(a + b),
{
    let r = a + b;
    assert forall|i: int| 0 <= i < r.len() implies (#[trigger] r[i]).wf() by {
        if i < a.len() {
            assert(r[i] == a[i]);
        } else {
            assert(r[i] == b[i - a.len()]);
        }
    }
    assert forall|i: int| 0 <= i < r.len() - 1 implies separated(#[trigger] r[i], r[i + 1]) by {
        if i + 1 < a.len() {
            assert(r[i] == a[i]);
            assert(r[i + 1] == a[i + 1]);
        } else if i + 1 == a.len() {
            assert(r[i] == a.last());
            assert(r[i + 1] == b[0]);
        } else {
            assert(r[i] == b[i - a.len()]);
            assert(r[i + 1] == b[i + 1 - a.len()]);
        }
    }
}

/// The adjacency invariant survives any addition: adding a well-formed change to a
/// well-formed collection gives a well-formed collection.
pub proof fn lemma_add_keeps_adjacency(s: Seq<ChangeView>, c: ChangeView, raw: Seq<u8>)
    requires
        set_wf(s),
        c.wf(),
    ensures
        set_wf(spec_add(s, c, raw)),
{
    lemma_count_le_bounds(s, c.begin);
    let p = count_le(s, c.begin);
    if p > 0 && s[p - 1].contains(c) {
    } else if p > 0 && s[p - 1].overlaps(c) {
        assert(s[p - 1].wf());
        let m = s[p - 1].merged(c, raw);
        lemma_merged_wf(s[p - 1], c, raw);
        lemma_sub_wf(s, p, s.len() as int);
        lemma_sub_wf(s, 0, p - 1);
        lemma_cascade(m, s.skip(p), raw);
        let pre = s.take(p - 1);
        if p > 1 {
            assert(pre.last() == s[p - 2]);
            assert(separated(s[p - 2], s[p - 1]));
        }
        lemma_concat_wf(pre, cascade(m, s.skip(p), raw));
    } else {
        let a = c.aligned(raw);
        lemma_sub_wf(s, p, s.len() as int);
        lemma_sub_wf(s, 0, p);
        lemma_cascade(a, s.skip(p), raw);
        let pre = s.take(p);
        if p > 0 {
            assert(pre.last() == s[p - 1]);
        }
        lemma_concat_wf(pre, cascade(a, s.skip(p), raw));
    }
}

/// Changes sorted by start, each separated from the next.
#[derive(Debug, Clone, PartialEq, Eq)]
pub struct ChangeSet {
    pub changes: Vec<Change>,
}

impl View for ChangeSet {
    type V = Seq<ChangeView>;

    open spec fn view(&self) -> Seq<ChangeView> {
        self.changes@.map_values(|c: Change| c@)
    }
}

impl ChangeSet {
    /// An empty collection.
    pub fn new() -> (r: ChangeSet)
        ensures
            r@ == Seq::<ChangeView>::empty(),
            set_wf(r@),
    {
        let r = ChangeSet { changes: Vec::new() };
        assert(r@ =~= Seq::<ChangeView>::empty());
        r
    }

    /// Number of changes held.
    pub fn len(&self) -> (r: usize)
        ensures
            r == self@.len(),
    {
        self.changes.len()
    }

    /// The changes, in order.
    pub fn changes(&self) -> (r: &Vec<Change>)
        ensures
            r@.map_values(|c: Change| c@) == self@,
    {
        &self.changes
    }

    /// Number of changes that start at or before `b`, by binary search.
    fn insertion_point(&self, b: usize) -> (p: usize)
        requires
            set_wf(self@),
        ensures
            p == count_le(self@, b as int),
    {
        let ghost s = self@;
        let mut lo: usize = 0;
        let mut hi: usize = self.changes.len();
        while lo < hi
            invariant
                s == self@,
                set_wf(s),
                0 <= lo <= hi <= s.len(),
                forall|j: int| 0 <= j < lo ==> (#[trigger] s[j]).begin <= b,
                forall|j: int| hi <= j < s.len() ==> (#[trigger] s[j]).begin > b,
            decreases hi - lo,
        {
            let mid = lo + (hi - lo) / 2;
            assert(s[mid as int] == self.changes@[mid as int]@);
            if self.changes[mid].begin <= b {
                assert forall|j: int| 0 <= j < mid + 1 implies (#[trigger] s[j]).begin <= b by {
                    if j < mid {
                        lemma_ordered(s, j, mid as int);
                    }
                }
                lo = mid + 1;
            } else {
                assert forall|j: int| mid <= j < s.len() implies (#[trigger] s[j]).begin > b by {
                    if j > mid {
                        lemma_ordered(s, mid as int, j);
                    }
                }
                hi = mid;
            }
        }
        proof {
            lemma_count_le(s, b as int, lo as int);
        }
        lo
    }

    /// Adds `change` (see [`spec_add`]) and returns the change in the total edit distance
    /// of the collection (see [`sum_edits`]).
    pub fn add_change(&mut self, change: Change, raw: &[u8]) -> (r: i128)
        requires
            set_wf(old(self)@),
            change@.wf(),
        ensures
            final(self)@ == spec_add(old(self)@, change@, raw@),
            r == sum_edits(final(self)@) - sum_edits(old(self)@),
            set_wf(final(self)@),
            set_aligned(old(self)@, raw@) ==> set_aligned(final(self)@, raw@),
    {
        let before = self.total_edit();
        self.insert_change(change, raw);
        let after = self.total_edit();
        after as i128 - before as i128
    }

    /// Adds `change` (see [`spec_add`]).
    fn insert_change(&mut self, change: Change, raw: &[u8])
        requires
            set_wf(old(self)@),
            change@.wf(),
        ensures
            final(self)@ == spec_add(old(self)@, change@, raw@),
            set_wf(final(self)@),
            set_aligned(old(self)@, raw@) ==> set_aligned(final(self)@, raw@),
    {
        let ghost s = self@;
        proof {
            lemma_add_keeps_adjacency(s, change@, raw@);
            lemma_count_le_bounds(s, change.begin as int);
        }
        let p = self.insertion_point(change.begin);
        if p > 0 {
            proof {
                assert(s[p - 1] == self.changes@[p - 1]@);
                assert(s[p - 1].wf());
            }
            if self.changes[p - 1].contain(&change) {
                return;
            }
        }
        if p < self.changes.len() {
            proof {
                assert(s[p as int] == self.changes@[p as int]@);
                assert(s[p as int].wf());
            }
            let next = &self.changes[p];
            let reaches = !(next.begin >= change.end && next.begin >= change.end_err());
            if reaches && next.contain(&change) {
                return;
            }
        }
        if p > 0 {
            if self.changes[p - 1].overlap(&change) {
                let mut e = self.changes.remove(p - 1);
                e.merge(&change, raw);
                proof {
                    assert(self@ =~= s.remove(p - 1));
                    lemma_aligned_remove(s, p - 1, raw@);
                    assert(self@ =~= s.take(p - 1) + s.skip(p as int));
                    assert(self@.take(p - 1) =~= s.take(p - 1));
                    assert(self@.skip(p - 1) =~= s.skip(p as int));
                    lemma_sub_wf(s, p as int, s.len() as int);
                }
                self.settle(e, p - 1, raw);
                return;
            }
        }
        let mut e = change;
        e.update_align(raw);
        proof {
            lemma_sub_wf(s, p as int, s.len() as int);
        }
        self.settle(e, p, raw);
    }

    /// Sum of the edit distances of the changes (saturated at the largest `u64`).
    pub fn total_edit(&self) -> (r: u64)
        ensures
            r == sum_edits(self@),
    {
        let mut total: u64 = 0;
        let mut i: usize = 0;
        while i < self.changes.len()
            invariant
                i <= self@.len(),
                total == sum_edits(self@.take(i as int)),
            decreases self@.len() - i,
        {
            proof {
                assert(self@.take(i + 1).drop_last() =~= self@.take(i as int));
                assert(self@[i as int] == self.changes@[i as int]@);
            }
            let e = self.changes[i].edit_distance;
            total = if total <= u64::MAX - e { total + e } else { u64::MAX };
            i = i + 1;
        }
        proof {
            assert(self@.take(i as int) =~= self@);
        }
        total
    }

    /// The edited sequence, its alignment against `raw` and its edit distance: changes are
    /// walked by increasing start, the untouched gaps of `raw` are copied with match columns,
    /// a change that starts behind the cursor is skipped, and the rest of `raw` closes it.
    pub fn linearize(&self, raw: &[u8]) -> (r: (Vec<u8>, Vec<u8>, u64))
        ensures
            (r.0@, r.1@, r.2 as int) == linearized(self@, raw@),
    {
        let mut err: Vec<u8> = Vec::new();
        let mut cig: Vec<u8> = Vec::new();
        let mut edit: u64 = 0;
        let mut pos: usize = 0;
        let mut i: usize = 0;
        while i < self.changes.len()
            invariant
                i <= self@.len(),
                lin_prefix(self@.take(i as int), raw@)
                    == (Linear { err: err@, cigar: cig@, edit: edit as int, pos: pos as int }),
            decreases self@.len() - i,
        {
            proof {
                assert(self@.take(i + 1).drop_last() =~= self@.take(i as int));
                assert(self@[i as int] == self.changes@[i as int]@);
            }
            let c = &self.changes[i];
            if c.begin >= pos {
                let gap = clipped(raw, pos, c.begin);
                append_bytes(&mut err, gap);
                append_repeat(&mut cig, MATCH, gap.len());
                append_bytes(&mut err, c.seq.as_slice());
                append_bytes(&mut cig, c.cigar.as_slice());
                edit = if edit <= u64::MAX - c.edit_distance {
                    edit + c.edit_distance
                } else {
                    u64::MAX
                };
                pos = c.end;
                proof {
                    assert(err@ =~= lin_step(lin_prefix(self@.take(i as int), raw@), c@, raw@).err);
                    assert(cig@ =~= lin_step(lin_prefix(self@.take(i as int), raw@), c@, raw@).cigar);
                }
            }
            i = i + 1;
        }
        proof {
            assert(self@.take(i as int) =~= self@);
        }
        let tail = clipped(raw, pos, raw.len());
        append_bytes(&mut err, tail);
        append_repeat(&mut cig, MATCH, tail.len());
        (err, cig, edit)
    }

    /// Places `e` at index `idx`, where it replaces nothing, and lets it absorb the changes
    /// that follow until it is separated from the next one.
    fn settle(&mut self, e: Change, idx: usize, raw: &[u8])
        requires
            idx <= old(self)@.len(),
            e@.wf(),
            set_wf(old(self)@.skip(idx as int)),
        ensures
            final(self)@ == old(self)@.take(idx as int) + cascade(e@, old(self)@.skip(idx as int), raw@),
            set_aligned(old(self)@, raw@) && e@.is_aligned(raw@) ==> set_aligned(final(self)@, raw@),
    {
        let ghost pre = old(self)@.take(idx as int);
        let ghost goal = cascade(e@, old(self)@.skip(idx as int), raw@);
        let ghost keep = set_aligned(old(self)@, raw@) && e@.is_aligned(raw@);
        let mut e = e;
        while self.absorbs_next(idx, &e)
            invariant
                idx <= self@.len(),
                e@.wf(),
                self@.take(idx as int) == pre,
                set_wf(self@.skip(idx as int)),
                cascade(e@, self@.skip(idx as int), raw@) == goal,
                keep ==> set_aligned(self@, raw@) && e@.is_aligned(raw@),
            decreases self@.len(),
        {
            let ghost rest = self@.skip(idx as int);
            let ghost whole = self@;
            let next = self.changes.remove(idx);
            proof {
                assert(self@ =~= whole.remove(idx as int));
                lemma_aligned_remove(whole, idx as int, raw@);
                if keep {
                    assert(whole[idx as int] == next@);
                }
            }
            proof {
                assert(rest[0] == next@);
                assert(self@ =~= pre + rest.drop_first());
                assert(self@.take(idx as int) =~= pre);
                assert(self@.skip(idx as int) =~= rest.drop_first());
                lemma_sub_wf(rest, 1, rest.len() as int);
                assert(rest.drop_first() =~= rest.subrange(1, rest.len() as int));
                assert(next@.wf());
            }
            if !e.contain(&next) {
                e.merge(&next, raw);
            }
        }
        let ghost rest = self@.skip(idx as int);
        let ghost before = self@;
        self.changes.insert(idx, e);
        proof {
            if keep {
                assert forall|i: int| 0 <= i < self@.len() implies (#[trigger] self@[i]).is_aligned(raw@) by {
                    if i < idx {
                        assert(self@[i] == before[i]);
                    } else if i > idx {
                        assert(self@[i] == before[i - 1]);
                    }
                }
            }
            assert(goal == seq![e@] + rest);
            assert(self@ =~= before.take(idx as int) + (seq![e@] + rest));
        }
    }

    /// True when a change follows index `idx - 1` at `idx` and `e` is not separated from it.
    fn absorbs_next(&self, idx: usize, e: &Change) -> (r: bool)
        requires
            idx <= self@.len(),
            e@.wf(),
        ensures
            r == (idx < self@.len() && !separated(e@, self@[idx as int])),
    {
        if idx < self.changes.len() {
            let next = &self.changes[idx];
            !(next.begin >= e.end && next.begin >= e.end_err())
        } else {
            false
        }
    }
}

/// The collection after adding each change of `cs` in turn.
pub open spec fn add_all(s: Seq<ChangeView>, cs: Seq<ChangeView>, raw: Seq<u8>) -> Seq<ChangeView>
    decreases cs.len(),
{
    if cs.len() == 0 {
        s
    } else {
        add_all(spec_add(s, cs[0], raw), cs.drop_first(), raw)
    }
}

/// Whatever well-formed changes are added, in whatever order, to a well-formed collection
/// (an empty one among them), the collection stays sorted with each change separated from
/// the next.
pub proof fn lemma_add_all_keeps_adjacency(s: Seq<ChangeView>, cs: Seq<ChangeView>, raw: Seq<u8>)
    requires
        set_wf(s),
        forall|i: int| 0 <= i < cs.len() ==> (#[trigger] cs[i]).wf(),
    ensures
        set_wf(add_all(s, cs, raw)),
    decreases cs.len(),
{
    if cs.len() > 0 {
        assert(cs[0].wf());
        lemma_add_keeps_adjacency(s, cs[0], raw);
        let t = cs.drop_first();
        assert forall|i: int| 0 <= i < t.len() implies (#[trigger] t[i]).wf() by {
            assert(t[i] == cs[i + 1]);
        }
        lemma_add_all_keeps_adjacency(spec_add(s, cs[0], raw), t, raw);
    }
}

/// Linearizing an empty collection gives back the original, aligned by match columns
/// alone, with no edit.
pub proof fn lemma_empty_round_trip(raw: Seq<u8>)
    ensures
        linearized(Seq::empty(), raw) == (raw, match_run(raw.len() as int), 0int),
{
    assert(clip(raw, 0, raw.len() as int) =~= raw);
    assert(Seq::<u8>::empty() + raw =~= raw);
    assert(Seq::<u8>::empty() + match_run(raw.len() as int) =~= match_run(raw.len() as int));
}

/// Adding a change that starts within an existing change and ends, in the original and in
/// the edited sequence, no later than it leaves the collection unchanged.
pub proof fn lemma_contained_add_is_noop(s: Seq<ChangeView>, c: ChangeView, raw: Seq<u8>, i: int)
    requires
        set_wf(s),
        c.wf(),
        0 <= i < s.len(),
        s[i].begin <= c.begin,
        s[i].contains(c),
    ensures
        spec_add(s, c, raw) == s,
{
    lemma_count_le_bounds(s, c.begin);
    let p = count_le(s, c.begin);
    assert(s[i].begin <= c.begin);
    if p - 1 > i {
        lemma_ordered(s, i, p - 1);
    }
}

/// In a well-formed collection no change starts behind the cursor: the linearization takes
/// every change, ends its walk at the end of the last one, and counts every edit.
pub proof fn lemma_linearization_takes_all(s: Seq<ChangeView>, raw: Seq<u8>)
    requires
        set_wf(s),
    ensures
        lin_prefix(s, raw).edit == sum_edits(s),
        linearized(s, raw).2 == sum_edits(s),
        s.len() > 0 ==> lin_prefix(s, raw).pos == s.last().end,
        s.len() == 0 ==> lin_prefix(s, raw).pos == 0,
    decreases s.len(),
{
    if s.len() > 0 {
        let t = s.drop_last();
        lemma_sub_wf(s, 0, s.len() - 1);
        assert(t =~= s.subrange(0, s.len() - 1));
        lemma_linearization_takes_all(t, raw);
        assert(s.last() == s[s.len() - 1]);
        assert(s[s.len() - 1].wf());
        if t.len() > 0 {
            assert(t.last() == s[s.len() - 2]);
            assert(separated(s[s.len() - 2], s[s.len() - 1]));
        }
    }
}

/// `n` saturated at the largest `u64`.
pub open spec fn sat(n: int) -> int {
    if n <= u64::MAX { n } else { u64::MAX as int }
}

/// Match columns consume one byte of each side and are no edit.
proof fn lemma_match_run_counts(n: int)
    requires
        n >= 0,
    ensures
        count_other(match_run(n), DEL) == n,
        count_other(match_run(n), INS) == n,
        count_edits(match_run(n)) == 0,
    decreases n,
{
    if n > 0 {
        lemma_match_run_counts(n - 1);
        assert(match_run(n).drop_last() =~= match_run(n - 1));
        assert(match_run(n).last() == MATCH);
    } else {
        assert(match_run(n) =~= Seq::<u8>::empty());
    }
}

/// Columns of a linearization so far: those other than `D` are the edited bytes, those other
/// than `I` the original up to the cursor, and the edit distance counts the non-match columns.
proof fn lemma_lin_prefix_columns(s: Seq<ChangeView>, raw: Seq<u8>)
    requires
        set_wf(s),
        set_aligned(s, raw),
    ensures
        count_other(lin_prefix(s, raw).cigar, DEL) == lin_prefix(s, raw).err.len(),
        count_other(lin_prefix(s, raw).cigar, INS) == clip(raw, 0, lin_prefix(s, raw).pos).len(),
        lin_prefix(s, raw).edit == sat(count_edits(lin_prefix(s, raw).cigar) as int),
        lin_prefix(s, raw).pos >= 0,
    decreases s.len(),
{
    if s.len() > 0 {
        let t = s.drop_last();
        lemma_sub_wf(s, 0, s.len() - 1);
        assert(t =~= s.subrange(0, s.len() - 1));
        assert forall|i: int| 0 <= i < t.len() implies (#[trigger] t[i]).is_aligned(raw) by {
            assert(t[i] == s[i]);
        }
        lemma_lin_prefix_columns(t, raw);
        lemma_linearization_takes_all(t, raw);
        let c = s.last();
        assert(c == s[s.len() - 1]);
        assert(c.wf());
        assert(c.is_aligned(raw));
        if t.len() > 0 {
            assert(t.last() == s[s.len() - 2]);
            assert(separated(s[s.len() - 2], s[s.len() - 1]));
        }
        let l = lin_prefix(t, raw);
        assert(c.begin >= l.pos);
        let gap = clip(raw, l.pos, c.begin);
        lemma_match_run_counts(gap.len() as int);
        lemma_counts_concat(l.cigar, match_run(gap.len() as int), DEL);
        lemma_counts_concat(l.cigar + match_run(gap.len() as int), c.cigar, DEL);
        lemma_counts_concat(l.cigar, match_run(gap.len() as int), INS);
        lemma_counts_concat(l.cigar + match_run(gap.len() as int), c.cigar, INS);
        assert(l.cigar + match_run(gap.len() as int) + c.cigar == lin_prefix(s, raw).cigar);
    }
}

/// A linearization of aligned, well-formed changes is an alignment of the edited sequence
/// against the original: the columns other than `D` are the edited bytes, those other than
/// `I` the original's, and its edit distance counts the non-match columns.
pub proof fn lemma_linearization_columns(s: Seq<ChangeView>, raw: Seq<u8>)
    requires
        set_wf(s),
        set_aligned(s, raw),
    ensures
        count_other(linearized(s, raw).1, DEL) == linearized(s, raw).0.len(),
        count_other(linearized(s, raw).1, INS) == raw.len(),
        linearized(s, raw).2 == sat(count_edits(linearized(s, raw).1) as int),
{
    lemma_lin_prefix_columns(s, raw);
    let l = lin_prefix(s, raw);
    let tail = clip(raw, l.pos, raw.len() as int);
    lemma_match_run_counts(tail.len() as int);
    lemma_counts_concat(l.cigar, match_run(tail.len() as int), DEL);
    lemma_counts_concat(l.cigar, match_run(tail.len() as int), INS);
}

/// Match columns align a sequence with itself.
proof fn lemma_match_run_aligns(x: Seq<u8>)
    ensures
        aligns(match_run(x.len() as int), x, x),
    decreases x.len(),
{
    if x.len() > 0 {
        lemma_match_run_aligns(x.drop_last());
        assert(match_run(x.len() as int).drop_last() =~= match_run(x.drop_last().len() as int));
        assert(match_run(x.len() as int).last() == MATCH);
    } else {
        assert(match_run(0) =~= Seq::<u8>::empty());
    }
}

/// Consecutive clipped spans of `raw` join into one.
proof fn lemma_clip_concat(raw: Seq<u8>, a: int, b: int, c: int)
    requires
        0 <= a <= b <= c,
    ensures
        clip(raw, a, b) + clip(raw, b, c) == clip(raw, a, c),
{
    assert(clip(raw, a, b) + clip(raw, b, c) =~= clip(raw, a, c));
}

/// A linearization so far aligns the edited bytes against the original up to the cursor.
proof fn lemma_lin_prefix_aligns(s: Seq<ChangeView>, raw: Seq<u8>)
    requires
        set_wf(s),
        set_aligned(s, raw),
    ensures
        aligns(lin_prefix(s, raw).cigar, lin_prefix(s, raw).err, clip(raw, 0, lin_prefix(s, raw).pos)),
        lin_prefix(s, raw).pos >= 0,
    decreases s.len(),
{
    if s.len() == 0 {
        assert(clip(raw, 0, 0) =~= Seq::<u8>::empty());
    } else {
        let t = s.drop_last();
        lemma_sub_wf(s, 0, s.len() - 1);
        assert(t =~= s.subrange(0, s.len() - 1));
        assert forall|i: int| 0 <= i < t.len() implies (#[trigger] t[i]).is_aligned(raw) by {
            assert(t[i] == s[i]);
        }
        lemma_lin_prefix_aligns(t, raw);
        lemma_linearization_takes_all(t, raw);
        let c = s.last();
        assert(c == s[s.len() - 1]);
        assert(c.wf());
        assert(c.is_aligned(raw));
        if t.len() > 0 {
            assert(t.last() == s[s.len() - 2]);
            assert(separated(s[s.len() - 2], s[s.len() - 1]));
        }
        let l = lin_prefix(t, raw);
        assert(0 <= l.pos <= c.begin);
        let gap = clip(raw, l.pos, c.begin);
        let span = clip(raw, c.begin, c.end);
        lemma_match_run_aligns(gap);
        lemma_aligns_concat(l.cigar, l.err, clip(raw, 0, l.pos), match_run(gap.len() as int), gap, gap);
        lemma_aligns_concat(
            l.cigar + match_run(gap.len() as int),
            l.err + gap,
            clip(raw, 0, l.pos) + gap,
            c.cigar,
            c.seq,
            span,
        );
        lemma_clip_concat(raw, 0, l.pos, c.begin);
        lemma_clip_concat(raw, 0, c.begin, c.end);
    }
}

/// The alignment of a linearization of aligned, well-formed changes pairs the edited
/// sequence with the original (see [`aligns`]); it holds only `=`, `X`, `I` and `D`.
pub proof fn lemma_linearization_aligns(s: Seq<ChangeView>, raw: Seq<u8>)
    requires
        set_wf(s),
        set_aligned(s, raw),
    ensures
        aligns(linearized(s, raw).1, linearized(s, raw).0, raw),
        forall|i: int| 0 <= i < linearized(s, raw).1.len() ==> is_op(#[trigger] linearized(s, raw).1[i]),
{
    lemma_lin_prefix_aligns(s, raw);
    let l = lin_prefix(s, raw);
    let tail = clip(raw, l.pos, raw.len() as int);
    lemma_match_run_aligns(tail);
    lemma_aligns_concat(l.cigar, l.err, clip(raw, 0, l.pos), match_run(tail.len() as int), tail, tail);
    if l.pos <= raw.len() {
        lemma_clip_concat(raw, 0, l.pos, raw.len() as int);
    } else {
        assert(tail =~= Seq::<u8>::empty());
        assert(clip(raw, 0, l.pos) + tail =~= clip(raw, 0, raw.len() as int));
    }
    assert(clip(raw, 0, raw.len() as int) =~= raw);
    lemma_aligns_counts(linearized(s, raw).1, linearized(s, raw).0, raw);
}

} // verus!
