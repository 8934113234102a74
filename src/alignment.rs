//! Pairwise alignment of a query against a target, as a per-column operation string.

use vstd::prelude::*;

verus! {

/// Operation string that bio's global aligner produces for `query` against `target`,
/// scoring one per match and zero for mismatches and gaps.
pub uninterp spec fn global_alignment_ops(query: Seq<u8>, target: Seq<u8>) -> Seq<u8>;

/// Match column (`=`).
pub const MATCH: u8 = 61;
/// Substitution column (`X`).
pub const SUBST: u8 = 88;
/// Insertion column (`I`): a byte of the query absent from the target.
pub const INS: u8 = 73;
/// Deletion column (`D`): a byte of the target absent from the query.
pub const DEL: u8 = 68;

/// An alignment column operation: match, substitution, insertion or deletion.
pub open spec fn is_op(b: u8) -> bool {
    b == MATCH || b == SUBST || b == INS || b == DEL
}

/// Number of columns of `ops` that are not matches.
pub open spec fn count_edits(ops: Seq<u8>) -> nat
    decreases ops.len(),
{
    if ops.len() == 0 {
        0
    } else {
        count_edits(ops.drop_last()) + if ops.last() == MATCH { 0nat } else { 1nat }
    }
}

/// Number of columns of `ops` that are not `op`.
pub open spec fn count_other(ops: Seq<u8>, op: u8) -> nat
    decreases ops.len(),
{
    if ops.len() == 0 {
        0
    } else {
        count_other(ops.drop_last(), op) + if ops.last() == op { 0nat } else { 1nat }
    }
}

/// Column counts add up over a concatenation.
pub proof fn lemma_counts_concat(a: Seq<u8>, b: Seq<u8>, op: u8)
    ensures
        count_other(a + b, op) == count_other(a, op) + count_other(b, op),
        count_edits(a + b) == count_edits(a) + count_edits(b),
    decreases b.len(),
{
    if b.len() > 0 {
        lemma_counts_concat(a, b.drop_last(), op);
        assert((a + b).drop_last() =~= a + b.drop_last());
        assert((a + b).last() == b.last());
    } else {
        assert(a + b =~= a);
    }
}

/// `ops` is an alignment of `q` against `t`: read in order, `=` pairs a byte of each that
/// are equal, `X` a byte of each that differ, `I` takes a byte of `q` alone, `D` a byte of
/// `t` alone, and both sequences are used up.
pub open spec fn aligns(ops: Seq<u8>, q: Seq<u8>, t: Seq<u8>) -> bool
    decreases ops.len(),
{
    if ops.len() == 0 {
        q.len() == 0 && t.len() == 0
    } else {
        let o = ops.last();
        if o == MATCH {
            q.len() > 0 && t.len() > 0 && q.last() == t.last()
                && aligns(ops.drop_last(), q.drop_last(), t.drop_last())
        } else if o == SUBST {
            q.len() > 0 && t.len() > 0 && q.last() != t.last()
                && aligns(ops.drop_last(), q.drop_last(), t.drop_last())
        } else if o == INS {
            q.len() > 0 && aligns(ops.drop_last(), q.drop_last(), t)
        } else if o == DEL {
            t.len() > 0 && aligns(ops.drop_last(), q, t.drop_last())
        } else {
            false
        }
    }
}

/// An alignment holds only the four operations; its columns other than `D` are the bytes of
/// `q`, those other than `I` the bytes of `t`.
pub proof fn lemma_aligns_counts(ops: Seq<u8>, q: Seq<u8>, t: Seq<u8>)
    requires
        aligns(ops, q, t),
    ensures
        forall|i: int| 0 <= i < ops.len() ==> is_op(#[trigger] ops[i]),
        count_other(ops, DEL) == q.len(),
        count_other(ops, INS) == t.len(),
    decreases ops.len(),
{
    if ops.len() > 0 {
        let o = ops.last();
        if o == MATCH || o == SUBST {
            lemma_aligns_counts(ops.drop_last(), q.drop_last(), t.drop_last());
        } else if o == INS {
            lemma_aligns_counts(ops.drop_last(), q.drop_last(), t);
        } else {
            lemma_aligns_counts(ops.drop_last(), q, t.drop_last());
        }
        assert forall|i: int| 0 <= i < ops.len() implies is_op(#[trigger] ops[i]) by {
            if i < ops.len() - 1 {
                assert(ops[i] == ops.drop_last()[i]);
            }
        }
    }
}

/// Alignments of consecutive pieces join into an alignment of the joined sequences.
pub proof fn lemma_aligns_concat(a: Seq<u8>, qa: Seq<u8>, ta: Seq<u8>, b: Seq<u8>, qb: Seq<u8>, tb: Seq<u8>)
    requires
        aligns(a, qa, ta),
        aligns(b, qb, tb),
    ensures
        aligns(a + b, qa + qb, ta + tb),
    decreases b.len(),
{
    if b.len() == 0 {
        assert(a + b =~= a);
        assert(qa + qb =~= qa);
        assert(ta + tb =~= ta);
    } else {
        let o = b.last();
        assert((a + b).drop_last() =~= a + b.drop_last());
        assert((a + b).last() == o);
        if o == MATCH || o == SUBST {
            lemma_aligns_concat(a, qa, ta, b.drop_last(), qb.drop_last(), tb.drop_last());
            assert((qa + qb).drop_last() =~= qa + qb.drop_last());
            assert((ta + tb).drop_last() =~= ta + tb.drop_last());
            assert((qa + qb).last() == qb.last());
            assert((ta + tb).last() == tb.last());
        } else if o == INS {
            lemma_aligns_concat(a, qa, ta, b.drop_last(), qb.drop_last(), tb);
            assert((qa + qb).drop_last() =~= qa + qb.drop_last());
        } else {
            lemma_aligns_concat(a, qa, ta, b.drop_last(), qb, tb.drop_last());
            assert((ta + tb).drop_last() =~= ta + tb.drop_last());
        }
    }
}

/// Relies on bio's `Aligner::global`: a global alignment of `query` against `target`, whose
/// operations are mapped one for one to `=`, `X`, `I` and `D` (clip operations, which a global
/// alignment does not produce, would keep the bytes they skip: `I` for the query, `D` for
/// the target). A global alignment covers both sequences, and bio marks a column a match
/// when its two bytes are equal, a substitution otherwise.
#[verifier::external_body]
fn global_ops(query: &[u8], target: &[u8]) -> (r: Vec<u8>)
    ensures
        r@ == global_alignment_ops(query@, target@),
        aligns(r@, query@, target@),
{
    let mut aligner = bio::alignment::pairwise::Aligner::with_capacity(
        target.len(), query.len(), 0, 0, |a: u8, b: u8| if a == b { 1i32 } else { 0i32 });
    let mut ops = Vec::new();
    for op in aligner.global(query, target).operations {
        match op {
            bio::alignment::AlignmentOperation::Xclip(len) => ops.extend(vec![INS; len]),
            bio::alignment::AlignmentOperation::Yclip(len) => ops.extend(vec![DEL; len]),
            bio::alignment::AlignmentOperation::Subst => ops.push(SUBST),
            bio::alignment::AlignmentOperation::Ins => ops.push(INS),
            bio::alignment::AlignmentOperation::Del => ops.push(DEL),
            bio::alignment::AlignmentOperation::Match => ops.push(MATCH),
        }
    }
    ops
}

/// Aligns `query` against `target`: the edit distance (columns that are not matches) and
/// the operation string.
pub fn align(query: &[u8], target: &[u8]) -> (r: (u64, Vec<u8>))
    ensures
        r.1@ == global_alignment_ops(query@, target@),
        r.0 == count_edits(r.1@),
        forall|i: int| 0 <= i < r.1@.len() ==> is_op(#[trigger] r.1@[i]),
        count_other(r.1@, DEL) == query@.len(),
        count_other(r.1@, INS) == target@.len(),
        aligns(r.1@, query@, target@),
{
    let ops = global_ops(query, target);
    proof {
        lemma_aligns_counts(ops@, query@, target@);
    }
    let mut edits: u64 = 0;
    let mut i: usize = 0;
    while i < ops.len()
        invariant
            i <= ops@.len(),
            edits == count_edits(ops@.subrange(0, i as int)),
            edits <= i,
        decreases ops@.len() - i,
    {
        proof {
            assert(ops@.subrange(0, i as int + 1).drop_last() =~= ops@.subrange(0, i as int));
        }
        if ops[i] != MATCH {
            edits = edits + 1;
        }
        i = i + 1;
    }
    proof {
        assert(ops@.subrange(0, i as int) =~= ops@);
    }
    (edits, ops)
}

} // verus!
