//! Provenance of a read: where its fragment comes from.

use vstd::prelude::*;
use vstd::string::StringExecFns;

verus! {

/// Category of a read.
#[derive(Debug, Clone, Copy, PartialEq, Eq)]
pub enum ReadType {
    Real,
    Junk,
    Random,
}

/// Where a fragment comes from: a span of a reference, on a strand, or a junk or random
/// sequence of `end` bases.
#[derive(Debug, Clone, PartialEq, Eq)]
pub struct Origin {
    pub ref_id: String,
    pub strand: char,
    pub start: usize,
    pub end: usize,
    pub read_type: ReadType,
}

/// Character of a decimal digit.
pub open spec fn digit_char(d: nat) -> char {
    if d == 0 { '0' } else if d == 1 { '1' } else if d == 2 { '2' } else if d == 3 { '3' }
    else if d == 4 { '4' } else if d == 5 { '5' } else if d == 6 { '6' } else if d == 7 { '7' }
    else if d == 8 { '8' } else { '9' }
}

/// Decimal writing of `n`, without leading zeros.
pub open spec fn decimal_text(n: nat) -> Seq<char>
    decreases n,
{
    if n < 10 {
        seq![digit_char(n)]
    } else {
        decimal_text(n / 10).push(digit_char(n % 10))
    }
}

/// Text of a reference span: `id,<strand>strand,<start>-<end>`.
pub open spec fn real_text(ref_id: Seq<char>, strand: char, start: nat, end: nat) -> Seq<char> {
    ref_id + seq![',', strand] + seq!['s', 't', 'r', 'a', 'n', 'd', ','] + decimal_text(start)
        + seq!['-'] + decimal_text(end)
}

/// Relies on `String::push`: `c` is appended.
#[verifier::external_body]
fn push_char(s: &mut String, c: char)
    ensures
        final(s)@ == old(s)@.push(c),
{
    s.push(c)
}

/// The character of decimal digit `d`.
fn digit(d: usize) -> (r: char)
    requires
        d < 10,
    ensures
        r == digit_char(d as nat),
{
    if d == 0 { '0' } else if d == 1 { '1' } else if d == 2 { '2' } else if d == 3 { '3' }
    else if d == 4 { '4' } else if d == 5 { '5' } else if d == 6 { '6' } else if d == 7 { '7' }
    else if d == 8 { '8' } else { '9' }
}

/// Appends `n` written in decimal without leading zeros.
fn push_decimal(s: &mut String, n: usize)
    ensures
        final(s)@ == old(s)@ + decimal_text(n as nat),
    decreases n,
{
    if n >= 10 {
        push_decimal(s, n / 10);
    }
    push_char(s, digit(n % 10));
    proof {
        if n < 10 {
            assert(old(s)@.push(digit_char(n as nat)) =~= old(s)@ + decimal_text(n as nat));
        } else {
            assert(old(s)@ + decimal_text((n / 10) as nat) + seq![digit_char((n % 10) as nat)]
                =~= old(s)@ + decimal_text(n as nat));
        }
    }
}

/// Text of a reference span (see [`real_text`]).
fn format_real(ref_id: &str, strand: char, start: usize, end: usize) -> (r: String)
    ensures
        r@ == real_text(ref_id@, strand, start as nat, end as nat),
{
    let mut r = ref_id.to_owned();
    push_char(&mut r, ',');
    push_char(&mut r, strand);
    r.append("strand,");
    push_decimal(&mut r, start);
    push_char(&mut r, '-');
    push_decimal(&mut r, end);
    proof {
        reveal_strlit("strand,");
        assert(r@ =~= real_text(ref_id@, strand, start as nat, end as nat));
    }
    r
}

impl Origin {
    /// A span `start..end` of reference `ref_id` on `strand`.
    pub fn reference(ref_id: String, strand: char, start: usize, end: usize) -> (r: Origin)
        ensures
            r.ref_id@ == ref_id@,
            r.strand == strand,
            r.start == start,
            r.end == end,
            r.read_type == ReadType::Real,
    {
        Origin { ref_id, strand, start, end, read_type: ReadType::Real }
    }

    /// A junk sequence of `length` bases.
    pub fn junk(length: usize) -> (r: Origin)
        ensures
            r.ref_id@ == Seq::<char>::empty(),
            r.strand == '*',
            r.start == 0,
            r.end == length,
            r.read_type == ReadType::Junk,
    {
        Origin { ref_id: String::new(), strand: '*', start: 0, end: length, read_type: ReadType::Junk }
    }

    /// A random sequence of `length` bases.
    pub fn random(length: usize) -> (r: Origin)
        ensures
            r.ref_id@ == Seq::<char>::empty(),
            r.strand == '*',
            r.start == 0,
            r.end == length,
            r.read_type == ReadType::Random,
    {
        Origin { ref_id: String::new(), strand: '*', start: 0, end: length, read_type: ReadType::Random }
    }

    /// Text of the origin: `junk_seq`, `random_seq`, or `id,<strand>strand,<start>-<end>`.
    pub fn to_string(&self) -> (r: String)
        ensures
            self.read_type == ReadType::Junk ==> r@ == seq!['j', 'u', 'n', 'k', '_', 's', 'e', 'q'],
            self.read_type == ReadType::Random ==> r@ == seq!['r', 'a', 'n', 'd', 'o', 'm', '_', 's', 'e', 'q'],
            self.read_type == ReadType::Real ==> r@ == real_text(self.ref_id@, self.strand, self.start as nat, self.end as nat),
    {
        match self.read_type {
            ReadType::Junk => {
                let r = "junk_seq".to_owned();
                proof {
                    reveal_strlit("junk_seq");
                    assert(r@ =~= seq!['j', 'u', 'n', 'k', '_', 's', 'e', 'q']);
                }
                r
            },
            ReadType::Random => {
                let r = "random_seq".to_owned();
                proof {
                    reveal_strlit("random_seq");
                    assert(r@ =~= seq!['r', 'a', 'n', 'd', 'o', 'm', '_', 's', 'e', 'q']);
                }
                r
            },
            ReadType::Real => format_real(self.ref_id.as_str(), self.strand, self.start, self.end),
        }
    }
}

} // verus!
