//! References and the spans of them that fragments cover.

use vstd::prelude::*;
use crate::bytes::{append_bytes, clip, clipped};
use crate::description::{Origin, ReadType};
use crate::error::Cli;
use crate::{draw_inclusive, is_nuc, random_seq};

verus! {

/// Complement of an upper-case IUPAC nucleotide code: `A`/`T`, `C`/`G`, `R`/`Y`, `K`/`M`,
/// `B`/`V` and `D`/`H` swap; any other byte is its own complement.
pub open spec fn upper_complement(b: u8) -> u8 {
    if b == 65 { 84u8 } else if b == 84 { 65u8 }
    else if b == 67 { 71u8 } else if b == 71 { 67u8 }
    else if b == 82 { 89u8 } else if b == 89 { 82u8 }
    else if b == 75 { 77u8 } else if b == 77 { 75u8 }
    else if b == 66 { 86u8 } else if b == 86 { 66u8 }
    else if b == 68 { 72u8 } else if b == 72 { 68u8 }
    else { b }
}

/// Complement of a nucleotide code, as bio's IUPAC table gives it: upper-case codes as in
/// [`upper_complement`], lower-case codes alike with their case kept, other bytes unchanged.
pub open spec fn dna_complement(b: u8) -> u8 {
    if 97 <= b <= 122 && upper_complement((b - 32) as u8) != (b - 32) as u8 {
        (upper_complement((b - 32) as u8) + 32) as u8
    } else {
        upper_complement(b)
    }
}

/// Relies on bio's `dna::revcomp`: the bytes in reverse order, each replaced by its
/// complement.
#[verifier::external_body]
fn reverse_complement(seq: &[u8]) -> (r: Vec<u8>)
    ensures
        r@.len() == seq@.len(),
        forall|i: int| 0 <= i < r@.len() ==> #[trigger] r@[i] == dna_complement(seq@[seq@.len() - 1 - i]),
{
    bio::alphabets::dna::revcomp(seq)
}

/// A reference sequence, its reverse complement, and whether it is circular.
#[derive(Debug, PartialEq, Eq)]
pub struct Reference {
    pub id: String,
    pub seq: Vec<u8>,
    pub revcomp: Vec<u8>,
    pub circular: bool,
}

impl Reference {
    /// A reference; its reverse complement is computed here.
    pub fn new(id: String, seq: Vec<u8>, circular: bool) -> (r: Reference)
        ensures
            r.id@ == id@,
            r.seq@ == seq@,
            r.circular == circular,
            r.revcomp@.len() == seq@.len(),
            forall|i: int| 0 <= i < seq@.len() ==> #[trigger] r.revcomp@[i] == dna_complement(seq@[seq@.len() - 1 - i]),
    {
        let revcomp = reverse_complement(seq.as_slice());
        Reference { id, seq, revcomp, circular }
    }
}

/// A fragment of `frag_len` bases can be drawn from a reference of `ref_len` bases unless it
/// is at least as long as the reference and the reference is linear.
pub fn fragment_is_possible(frag_len: usize, ref_len: usize, circular: bool) -> (r: bool)
    ensures
        r == (frag_len < ref_len || circular),
{
    if frag_len >= ref_len {
        circular
    } else {
        true
    }
}

/// Span of a fragment of `length` bases drawn at `try_begin`: start, end and realized
/// length. On a circular reference the end wraps around modulo the reference length (it is
/// then before the start, or equal to it); on a linear one a span past the end is clipped to
/// the end and the clipped length is reported.
pub open spec fn spec_span(try_begin: int, length: int, ref_len: int, circular: bool) -> (int, int, int) {
    if try_begin + length < ref_len {
        (try_begin, try_begin + length, length)
    } else if circular {
        (try_begin, (try_begin + length) % ref_len, length)
    } else {
        (try_begin, ref_len, ref_len - try_begin)
    }
}

/// Span of a fragment of `length` bases drawn at `try_begin` (see [`spec_span`]).
pub fn fragment_span(try_begin: usize, length: usize, ref_len: usize, circular: bool) -> (r: (usize, usize, usize))
    requires
        try_begin < ref_len,
    ensures
        (r.0 as int, r.1 as int, r.2 as int) == spec_span(try_begin as int, length as int, ref_len as int, circular),
{
    if length < ref_len - try_begin {
        (try_begin, try_begin + length, length)
    } else if circular {
        let rest = length % ref_len;
        let end = if rest < ref_len - try_begin { try_begin + rest } else { rest - (ref_len - try_begin) };
        proof {
            let q = length as int / ref_len as int;
            assert(length as int == q * ref_len + rest) by (nonlinear_arith)
                requires ref_len > 0, rest == length as int % ref_len as int, q == length as int / ref_len as int;
            assert((try_begin + length) % (ref_len as int) == end) by (nonlinear_arith)
                requires
                    ref_len > 0,
                    length as int == q * ref_len + rest,
                    0 <= rest < ref_len,
                    0 <= try_begin < ref_len,
                    end == if rest < ref_len - try_begin { try_begin + rest } else { rest - (ref_len - try_begin) },
            {
                let t = try_begin + rest;
                if t < ref_len {
                    vstd::arithmetic::div_mod::lemma_mod_multiples_vanish(q, t, ref_len as int);
                    vstd::arithmetic::div_mod::lemma_small_mod(t as nat, ref_len as nat);
                } else {
                    vstd::arithmetic::div_mod::lemma_mod_multiples_vanish(q + 1, t - ref_len, ref_len as int);
                    vstd::arithmetic::div_mod::lemma_small_mod((t - ref_len) as nat, ref_len as nat);
                }
            }
        }
        (try_begin, end, length)
    } else {
        (try_begin, ref_len, ref_len - try_begin)
    }
}

/// Bytes of a reference span: the strand's sequence from `start` to `end`, wrapping around
/// a circular reference when `end` is before `start`, nothing for such a span of a linear
/// one; bounds past the end are clipped.
pub open spec fn real_fragment(origin: Origin, reference: Reference) -> Seq<u8> {
    let local = if origin.strand == '+' { reference.seq@ } else { reference.revcomp@ };
    if origin.start < origin.end {
        clip(local, origin.start as int, origin.end as int)
    } else if reference.circular {
        clip(local, origin.start as int, local.len() as int) + clip(local, 0, origin.end as int)
    } else {
        Seq::empty()
    }
}

/// Appends the bytes of a reference span (see [`real_fragment`]).
pub fn add_real_fragment(raw_fragment: &mut Vec<u8>, origin: &Origin, reference: &Reference)
    ensures
        final(raw_fragment)@ == old(raw_fragment)@ + real_fragment(*origin, *reference),
{
    let local = if origin.strand == '+' { reference.seq.as_slice() } else { reference.revcomp.as_slice() };
    if origin.start < origin.end {
        append_bytes(raw_fragment, clipped(local, origin.start, origin.end));
    } else if reference.circular {
        append_bytes(raw_fragment, clipped(local, origin.start, local.len()));
        append_bytes(raw_fragment, clipped(local, 0, origin.end));
    } else {
        proof {
            assert(old(raw_fragment)@ + Seq::<u8>::empty() =~= old(raw_fragment)@);
        }
    }
}

/// `unit` repeated `n` times.
pub open spec fn repeated(unit: Seq<u8>, n: nat) -> Seq<u8>
    decreases n,
{
    if n == 0 {
        Seq::empty()
    } else {
        repeated(unit, (n - 1) as nat) + unit
    }
}

/// Appends `unit` repeated as many whole times as fit in `length` bases.
pub fn add_repeats(raw_fragment: &mut Vec<u8>, length: usize, unit: &[u8])
    requires
        unit@.len() > 0,
    ensures
        final(raw_fragment)@ == old(raw_fragment)@ + repeated(unit@, (length as nat / unit@.len()) as nat),
{
    let times = length / unit.len();
    let mut i: usize = 0;
    while i < times
        invariant
            i <= times,
            raw_fragment@ == old(raw_fragment)@ + repeated(unit@, i as nat),
        decreases times - i,
    {
        append_bytes(raw_fragment, unit);
        i = i + 1;
        proof {
            assert(raw_fragment@ =~= old(raw_fragment)@ + repeated(unit@, i as nat));
        }
    }
}

/// Appends a low-complexity junk sequence of at most `length` bases: a random unit of one
/// to five nucleotides, repeated as many whole times as fit.
pub fn add_junk(raw_fragment: &mut Vec<u8>, length: usize, rng: &mut rand::rngs::StdRng)
    ensures
        exists|unit: Seq<u8>| 1 <= unit.len() <= 5
            && (forall|i: int| 0 <= i < unit.len() ==> is_nuc(#[trigger] unit[i]))
            && final(raw_fragment)@ == old(raw_fragment)@ + repeated(unit, (length as nat / unit.len()) as nat),
{
    let n = draw_inclusive(rng, 1, 5);
    let unit = random_seq(n, rng);
    add_repeats(raw_fragment, length, unit.as_slice());
}

/// Appends `length` random nucleotides.
pub fn add_random(raw_fragment: &mut Vec<u8>, length: usize, rng: &mut rand::rngs::StdRng)
    ensures
        final(raw_fragment)@.len() == old(raw_fragment)@.len() + length,
        final(raw_fragment)@.take(old(raw_fragment)@.len() as int) == old(raw_fragment)@,
        forall|i: int| old(raw_fragment)@.len() <= i < final(raw_fragment)@.len() ==> is_nuc(#[trigger] final(raw_fragment)@[i]),
{
    let bases = random_seq(length, rng);
    let ghost before = raw_fragment@;
    append_bytes(raw_fragment, bases.as_slice());
    proof {
        assert(raw_fragment@.take(before.len() as int) =~= before);
        assert forall|i: int| before.len() <= i < raw_fragment@.len() implies is_nuc(#[trigger] raw_fragment@[i]) by {
            assert(raw_fragment@[i] == bases@[i - before.len()]);
        }
    }
}

/// Appends the bytes of a fragment: a reference span for a real read (see
/// [`real_fragment`]), else a junk or random sequence of `origin.end` bases.
pub fn add_fragment(raw_fragment: &mut Vec<u8>, origin: &Origin, reference: &Reference, rng: &mut rand::rngs::StdRng)
    ensures
        origin.read_type == ReadType::Real ==> final(raw_fragment)@ == old(raw_fragment)@ + real_fragment(*origin, *reference),
        origin.read_type == ReadType::Junk ==> exists|unit: Seq<u8>| 1 <= unit.len() <= 5
            && (forall|i: int| 0 <= i < unit.len() ==> is_nuc(#[trigger] unit[i]))
            && final(raw_fragment)@ == old(raw_fragment)@ + repeated(unit, (origin.end as nat / unit.len()) as nat),
        origin.read_type == ReadType::Random ==> final(raw_fragment)@.len() == old(raw_fragment)@.len() + origin.end
            && forall|i: int| old(raw_fragment)@.len() <= i < final(raw_fragment)@.len() ==> is_nuc(#[trigger] final(raw_fragment)@[i]),
        old(raw_fragment)@ == final(raw_fragment)@.take(old(raw_fragment)@.len() as int),
{
    match origin.read_type {
        ReadType::Junk => {
            add_junk(raw_fragment, origin.end, rng);
            proof {
                let unit = choose|unit: Seq<u8>| 1 <= unit.len() <= 5
                    && (forall|i: int| 0 <= i < unit.len() ==> is_nuc(#[trigger] unit[i]))
                    && raw_fragment@ == old(raw_fragment)@ + repeated(unit, (origin.end as nat / unit.len()) as nat);
                assert(raw_fragment@.take(old(raw_fragment)@.len() as int) =~= old(raw_fragment)@);
            }
        },
        ReadType::Random => add_random(raw_fragment, origin.end, rng),
        ReadType::Real => {
            add_real_fragment(raw_fragment, origin, reference);
            proof {
                assert(raw_fragment@.take(old(raw_fragment)@.len() as int) =~= old(raw_fragment)@);
            }
        },
    }
}

/// The raw read before error injection: random flanking bases, the start adapter, the
/// fragment, what joins a chimeric second fragment (adapter bytes at the junction) and that
/// fragment (both empty for a read of one fragment), the end adapter, and random flanking
/// bases again.
pub fn assemble_read(
    start_flank: &[u8],
    start_adapter: &[u8],
    fragment: &[u8],
    junction: &[u8],
    second: &[u8],
    end_adapter: &[u8],
    end_flank: &[u8],
) -> (r: Vec<u8>)
    ensures
        r@ == start_flank@ + start_adapter@ + fragment@ + junction@ + second@ + end_adapter@ + end_flank@,
{
    let mut r: Vec<u8> = Vec::new();
    append_bytes(&mut r, start_flank);
    append_bytes(&mut r, start_adapter);
    append_bytes(&mut r, fragment);
    append_bytes(&mut r, junction);
    append_bytes(&mut r, second);
    append_bytes(&mut r, end_adapter);
    append_bytes(&mut r, end_flank);
    proof {
        assert(Seq::<u8>::empty() + start_flank@ =~= start_flank@);
    }
    r
}

/// Quality byte that pads a quality string shorter than its sequence (`!`).
pub const QUALITY_PAD: u8 = 33;

/// Brings `quality` to `len` bytes: truncated when longer, padded with `!` when shorter.
pub fn fit_quality(quality: &mut Vec<u8>, len: usize)
    ensures
        len <= old(quality)@.len() ==> final(quality)@ == old(quality)@.take(len as int),
        len > old(quality)@.len() ==> final(quality)@ == old(quality)@
            + Seq::new((len - old(quality)@.len()) as nat, |_i: int| QUALITY_PAD),
{
    if len <= quality.len() {
        quality.truncate(len);
    } else {
        let missing = len - quality.len();
        crate::bytes::append_repeat(quality, QUALITY_PAD, missing);
    }
}

/// Sum of `lengths`.
pub open spec fn sum_lengths(lengths: Seq<u64>) -> int
    decreases lengths.len(),
{
    if lengths.len() == 0 {
        0
    } else {
        sum_lengths(lengths.drop_last()) + lengths.last()
    }
}

/// The bases of the drawn `lengths` that a reference of `ref_len` bases can give: on a
/// circular reference the lengths that fit in it, on a linear one each length clipped to it.
pub open spec fn passing_lengths(lengths: Seq<u64>, ref_len: u64, circular: bool) -> int
    decreases lengths.len(),
{
    if lengths.len() == 0 {
        0
    } else {
        let x = lengths.last();
        passing_lengths(lengths.drop_last(), ref_len, circular) + if circular {
            if x <= ref_len { x as int } else { 0int }
        } else {
            if x <= ref_len { x as int } else { ref_len as int }
        }
    }
}

/// How a reference's depth weight is corrected for a sample of drawn fragment lengths: by
/// the ratio of the total length to the passing length (see [`passing_lengths`]), returned
/// as that pair. A linear reference is always corrected; a circular one only when small
/// plasmids are not to be lost, and then no passing length is an error.
pub fn depth_adjustment(lengths: &[u64], ref_len: u64, circular: bool, small_plasmid_bias: bool) -> (r: Result<Option<(u128, u128)>, Cli>)
    requires
        lengths@.len() <= u64::MAX,
    ensures
        circular && small_plasmid_bias ==> r == Ok::<Option<(u128, u128)>, Cli>(None),
        circular && !small_plasmid_bias && passing_lengths(lengths@, ref_len, true) == 0
            ==> r == Err::<Option<(u128, u128)>, Cli>(Cli::SmallPlasmidBias),
        (!circular || (!small_plasmid_bias && passing_lengths(lengths@, ref_len, true) != 0))
            ==> (r matches Ok(Some(p)) && p.0 == sum_lengths(lengths@)
                && p.1 == passing_lengths(lengths@, ref_len, circular)),
{
    if circular && small_plasmid_bias {
        return Ok(None);
    }
    let mut total: u128 = 0;
    let mut passing: u128 = 0;
    let mut i: usize = 0;
    while i < lengths.len()
        invariant
            i <= lengths@.len() <= u64::MAX,
            total == sum_lengths(lengths@.take(i as int)),
            passing == passing_lengths(lengths@.take(i as int), ref_len, circular),
            total <= i * (u64::MAX as int),
            passing <= i * (u64::MAX as int),
        decreases lengths@.len() - i,
    {
        proof {
            assert(lengths@.take(i + 1).drop_last() =~= lengths@.take(i as int));
            assert(lengths@.take(i + 1).last() == lengths@[i as int]);
            assert((i + 1) * (u64::MAX as int) == i * (u64::MAX as int) + u64::MAX) by (nonlinear_arith);
            assert(i * (u64::MAX as int) <= (u64::MAX as int) * (u64::MAX as int)) by (nonlinear_arith)
                requires i <= u64::MAX;
        }
        let x = lengths[i];
        total = total + x as u128;
        let add: u64 = if x <= ref_len { x } else if circular { 0 } else { ref_len };
        passing = passing + add as u128;
        i = i + 1;
    }
    proof {
        assert(lengths@.take(i as int) =~= lengths@);
    }
    if circular && passing == 0 {
        return Err(Cli::SmallPlasmidBias);
    }
    Ok(Some((total, passing)))
}

} // verus!
