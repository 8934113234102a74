//! Long-read simulation: error injection, alignment bookkeeping and quality assignment.

pub mod alignment;
pub mod bytes;
pub mod change;
pub mod changeset;
pub mod cli;
pub mod description;
pub mod error;
pub mod fragments;
pub mod injector;
pub mod output;
pub mod quality;

use vstd::prelude::*;
use rand::Rng;

verus! {

/// rand's seeded generator, carried opaque: only `draw_inclusive` reads from it.
#[verifier::external_type_specification]
#[verifier::external_body]
pub struct ExStdRng(rand::rngs::StdRng);

/// Relies on rand's `Rng::gen_range` over an inclusive range: a value within it.
#[verifier::external_body]
pub(crate) fn draw_inclusive(rng: &mut rand::rngs::StdRng, lo: usize, hi: usize) -> (r: usize)
    requires
        lo <= hi,
    ensures
        lo <= r <= hi,
{
    rng.gen_range(lo..=hi)
}

/// Relies on rand's `Rng::gen_range` over an inclusive range of `u32`: a value within it
/// (a `u32` range draws its own stream of numbers, unlike a `usize` one).
#[verifier::external_body]
pub(crate) fn draw_inclusive_u32(rng: &mut rand::rngs::StdRng, lo: u32, hi: u32) -> (r: u32)
    requires
        lo <= hi,
    ensures
        lo <= r <= hi,
{
    rng.gen_range(lo..=hi)
}

/// Draws that `random_base_diff` makes before it falls back to a fixed choice.
pub const MAX_BASE_DRAWS: usize = 1000;

/// The four nucleotides, in drawing order: `A`, `C`, `T`, `G`.
pub open spec fn nucs() -> Seq<u8> {
    seq![65u8, 67u8, 84u8, 71u8]
}

/// `b` is one of the four nucleotides.
pub open spec fn is_nuc(b: u8) -> bool {
    b == 65 || b == 67 || b == 84 || b == 71
}

/// The nucleotide at index `i` (0 to 3) of the drawing order.
pub fn nuc_at(i: usize) -> (r: u8)
    requires
        i < 4,
    ensures
        r == nucs()[i as int],
        is_nuc(r),
{
    if i == 0 {
        65
    } else if i == 1 {
        67
    } else if i == 2 {
        84
    } else {
        71
    }
}

/// A nucleotide drawn uniformly.
pub fn random_base(rng: &mut rand::rngs::StdRng) -> (r: u8)
    ensures
        is_nuc(r),
{
    nuc_at(draw_inclusive(rng, 0, 3))
}

/// A nucleotide other than `nuc`: nucleotides are drawn uniformly until one differs (so the
/// result is uniform among the others), at most `MAX_BASE_DRAWS` times; should every draw
/// equal `nuc`, the first nucleotide of the drawing order that differs is taken.
pub fn random_base_diff(nuc: u8, rng: &mut rand::rngs::StdRng) -> (r: u8)
    ensures
        is_nuc(r),
        r != nuc,
{
    let mut draws: usize = 0;
    while draws < MAX_BASE_DRAWS
        invariant
            draws <= MAX_BASE_DRAWS,
        decreases MAX_BASE_DRAWS - draws,
    {
        let b = random_base(rng);
        if b != nuc {
            return b;
        }
        draws = draws + 1;
    }
    if nuc_at(0) != nuc {
        nuc_at(0)
    } else {
        nuc_at(1)
    }
}

/// `length` nucleotides drawn uniformly.
pub fn random_seq(length: usize, rng: &mut rand::rngs::StdRng) -> (r: Vec<u8>)
    ensures
        r@.len() == length,
        forall|i: int| 0 <= i < length ==> is_nuc(#[trigger] r@[i]),
{
    let mut r: Vec<u8> = Vec::new();
    let mut i: usize = 0;
    while i < length
        invariant
            i <= length,
            r@.len() == i,
            forall|j: int| 0 <= j < i ==> is_nuc(#[trigger] r@[j]),
        decreases length - i,
    {
        let b = random_base(rng);
        r.push(b);
        i = i + 1;
    }
    r
}

} // verus!
