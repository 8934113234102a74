//! Small byte-sequence helpers shared by the simulation modules.

use vstd::prelude::*;

verus! {

/// `raw[lo..hi]`, with both bounds clipped to the end of `raw` (and `hi` raised to `lo`).
pub open spec fn clip(raw: Seq<u8>, lo: int, hi: int) -> Seq<u8> {
    let l = if lo < raw.len() { lo } else { raw.len() as int };
    let h = if hi < lo { l } else if hi < raw.len() { hi } else { raw.len() as int };
    raw.subrange(l, h)
}

/// Appends the bytes of `src` to `dst`.
pub fn append_bytes(dst: &mut Vec<u8>, src: &[u8])
    ensures
        final(dst)@ == old(dst)@ + src@,
{
    let mut i: usize = 0;
    while i < src.len()
        invariant
            i <= src@.len(),
            dst@ == old(dst)@ + src@.subrange(0, i as int),
        decreases src@.len() - i,
    {
        dst.push(src[i]);
        i = i + 1;
        proof {
            assert(dst@ =~= old(dst)@ + src@.subrange(0, i as int));
        }
    }
    proof {
        assert(src@.subrange(0, i as int) =~= src@);
    }
}

/// Appends `n` copies of `b` to `dst`.
pub fn append_repeat(dst: &mut Vec<u8>, b: u8, n: usize)
    ensures
        final(dst)@ == old(dst)@ + Seq::new(n as nat, |_i: int| b),
{
    let mut i: usize = 0;
    while i < n
        invariant
            i <= n,
            dst@ == old(dst)@ + Seq::new(i as nat, |_i: int| b),
        decreases n - i,
    {
        dst.push(b);
        i = i + 1;
        proof {
            assert(dst@ =~= old(dst)@ + Seq::new(i as nat, |_i: int| b));
        }
    }
}

/// `raw[lo..hi]` with both bounds clipped to the end of `raw`.
pub fn clipped<'a>(raw: &'a [u8], lo: usize, hi: usize) -> (r: &'a [u8])
    ensures
        r@ == clip(raw@, lo as int, hi as int),
{
    let l = if lo < raw.len() { lo } else { raw.len() };
    let h = if hi < lo { l } else if hi < raw.len() { hi } else { raw.len() };
    vstd::slice::slice_subrange(raw, l, h)
}

} // verus!
