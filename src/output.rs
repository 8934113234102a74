//! Batching of the bases to produce and the trimming of reads for output.

use vstd::prelude::*;

verus! {

/// Bases to produce in the next batch: what is left of `total`, at most `limit`.
pub fn next_batch(total: u64, produced: u64, limit: u64) -> (r: u64)
    requires
        produced <= total,
    ensures
        r == if limit < total - produced { limit as int } else { total - produced },
{
    let left = total - produced;
    if limit < left {
        limit
    } else {
        left
    }
}

/// Bases still to produce once `produced` more were: none when they reach the target.
pub fn consume_target(target: u64, produced: u64) -> (r: u64)
    ensures
        r == if produced < target { target - produced } else { 0 },
{
    if produced < target {
        target - produced
    } else {
        0
    }
}

/// A read without the `k` random bases added at each end, with its quality trimmed alike:
/// `None` when the read holds no more than those bases or its quality is shorter than it.
pub fn trim_flanks(seq: &[u8], qual: &[u8], k: usize) -> (r: Option<(Vec<u8>, Vec<u8>)>)
    ensures
        (seq@.len() <= 2 * k || qual@.len() < seq@.len()) ==> r is None,
        !(seq@.len() <= 2 * k || qual@.len() < seq@.len()) ==> (r matches Some(p)
            && p.0@ == seq@.subrange(k as int, seq@.len() - k)
            && p.1@ == qual@.subrange(k as int, seq@.len() - k)),
{
    if k > seq.len() / 2 || seq.len() - k <= k || qual.len() < seq.len() {
        return None;
    }
    let end = seq.len() - k;
    let s = vstd::slice::slice_to_vec(vstd::slice::slice_subrange(seq, k, end));
    let q = vstd::slice::slice_to_vec(vstd::slice::slice_subrange(qual, k, end));
    Some((s, q))
}

} // verus!
