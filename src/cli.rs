//! Values of the command line: verbosity, quantities of bases and number pairs and triples.

use vstd::prelude::*;
use crate::error::Cli;
use vstd::string::StringSliceAdditionalSpecFns;

verus! {

/// log's `Level`, a field-less enum whose five variants verified code names and compares.
#[verifier::external_type_specification]
pub struct ExLevel(log::Level);

/// Log level for a verbosity count (the number of `v` flags): none up to zero, then error,
/// warn, info, debug, and trace from five on.
pub fn i82level(level: i8) -> (r: Option<log::Level>)
    ensures
        level <= 0 ==> r is None,
        level == 1 ==> r == Some(log::Level::Error),
        level == 2 ==> r == Some(log::Level::Warn),
        level == 3 ==> r == Some(log::Level::Info),
        level == 4 ==> r == Some(log::Level::Debug),
        level >= 5 ==> r == Some(log::Level::Trace),
{
    if level <= 0 {
        None
    } else if level == 1 {
        Some(log::Level::Error)
    } else if level == 2 {
        Some(log::Level::Warn)
    } else if level == 3 {
        Some(log::Level::Info)
    } else if level == 4 {
        Some(log::Level::Debug)
    } else {
        Some(log::Level::Trace)
    }
}

/// ASCII `,`.
pub const COMMA: u8 = 44;
/// ASCII `+`.
pub const PLUS: u8 = 43;
/// ASCII `0`.
pub const ZERO: u8 = 48;
/// ASCII `9`.
pub const NINE: u8 = 57;
/// ASCII `x`: a quantity given as a coverage.
pub const SUFFIX_COVERAGE: u8 = 120;
/// ASCII `K`: thousands of bases.
pub const SUFFIX_KILO: u8 = 75;
/// ASCII `M`: millions of bases.
pub const SUFFIX_MEGA: u8 = 77;
/// ASCII `G`: billions of bases.
pub const SUFFIX_GIGA: u8 = 71;

/// Every byte of `s` is an ASCII digit.
pub open spec fn all_digits(s: Seq<u8>) -> bool {
    forall|i: int| 0 <= i < s.len() ==> ZERO <= #[trigger] s[i] <= NINE
}

/// Value of a string of ASCII digits.
pub open spec fn digits_value(s: Seq<u8>) -> int
    decreases s.len(),
{
    if s.len() == 0 {
        0
    } else {
        digits_value(s.drop_last()) * 10 + (s.last() - ZERO)
    }
}

/// The unsigned decimal that `s` spells: an optional `+`, then at least one digit, with a
/// value that fits in a `u64`.
pub open spec fn decimal(s: Seq<u8>) -> Option<u64> {
    let d = if s.len() > 0 && s[0] == PLUS { s.drop_first() } else { s };
    if d.len() > 0 && all_digits(d) && digits_value(d) <= u64::MAX {
        Some(digits_value(d) as u64)
    } else {
        None
    }
}

/// Adding digits never lowers the value.
proof fn lemma_digits_grow(s: Seq<u8>, i: int)
    requires
        0 <= i <= s.len(),
        all_digits(s),
    ensures
        digits_value(s.take(i)) <= digits_value(s),
        digits_value(s.take(i)) >= 0,
    decreases s.len() - i,
{
    if i < s.len() {
        lemma_digits_grow(s, i + 1);
        assert(s.take(i + 1).drop_last() =~= s.take(i));
        assert(s.take(i + 1).last() == s[i]);
    } else {
        assert(s.take(i) =~= s);
    }
    lemma_digits_nonneg(s.take(i));
}

/// The value of digits is not negative.
proof fn lemma_digits_nonneg(s: Seq<u8>)
    requires
        all_digits(s),
    ensures
        digits_value(s) >= 0,
    decreases s.len(),
{
    if s.len() > 0 {
        assert(all_digits(s.drop_last()));
        lemma_digits_nonneg(s.drop_last());
        assert(s.last() == s[s.len() - 1]);
    }
}

/// Reads `b[lo..hi]` as an unsigned decimal (see [`decimal`]).
pub fn parse_decimal(b: &[u8], lo: usize, hi: usize) -> (r: Option<u64>)
    requires
        lo <= hi <= b@.len(),
    ensures
        r == decimal(b@.subrange(lo as int, hi as int)),
{
    let ghost s = b@.subrange(lo as int, hi as int);
    let start = if lo < hi && b[lo] == PLUS { lo + 1 } else { lo };
    let ghost d = b@.subrange(start as int, hi as int);
    proof {
        if lo < hi && b[lo as int] == PLUS {
            assert(d =~= s.drop_first());
        } else {
            assert(d =~= s);
        }
    }
    if start == hi {
        return None;
    }
    let mut value: u64 = 0;
    let mut i: usize = start;
    while i < hi
        invariant
            lo <= start <= i <= hi <= b@.len(),
            d == b@.subrange(start as int, hi as int),
            s == b@.subrange(lo as int, hi as int),
            d == (if s.len() > 0 && s[0] == PLUS { s.drop_first() } else { s }),
            all_digits(d.take(i - start)),
            value == digits_value(d.take(i - start)),
        decreases hi - i,
    {
        let c = b[i];
        proof {
            assert(d[i - start] == c);
        }
        if c < ZERO || c > NINE {
            proof {
                assert(!all_digits(d));
            }
            return None;
        }
        let digit = (c - ZERO) as u64;
        proof {
            assert(d.take(i - start + 1).drop_last() =~= d.take(i - start));
            assert(d.take(i - start + 1).last() == c);
            assert(all_digits(d.take(i - start + 1)));
        }
        if value > (u64::MAX - digit) / 10 {
            proof {
                assert(value * 10 + digit > u64::MAX) by (nonlinear_arith)
                    requires value > (u64::MAX - digit) / 10, digit <= 9;
                if all_digits(d) {
                    lemma_digits_grow(d, i - start + 1);
                }
            }
            return None;
        }
        value = value * 10 + digit;
        i = i + 1;
    }
    proof {
        assert(d.take(i - start) =~= d);
    }
    Some(value)
}

/// Fields of `s` between commas, as `str::split(',')` gives them.
pub open spec fn split_commas(s: Seq<u8>) -> Seq<Seq<u8>>
    decreases s.len(),
{
    if s.len() == 0 {
        seq![Seq::empty()]
    } else {
        let t = split_commas(s.drop_last());
        if s.last() == COMMA {
            t.push(Seq::empty())
        } else {
            t.update(t.len() - 1, t.last().push(s.last()))
        }
    }
}

/// There is always at least one field.
proof fn lemma_split_nonempty(s: Seq<u8>)
    ensures
        split_commas(s).len() >= 1,
    decreases s.len(),
{
    if s.len() > 0 {
        lemma_split_nonempty(s.drop_last());
    }
}

/// Bounds `[lo, hi)` of each comma-separated field of `b`.
fn split_fields(b: &[u8]) -> (r: Vec<(usize, usize)>)
    ensures
        r@.len() == split_commas(b@).len(),
        forall|j: int| 0 <= j < r@.len() ==> {
            let (lo, hi) = #[trigger] r@[j];
            lo <= hi <= b@.len() && b@.subrange(lo as int, hi as int) == split_commas(b@)[j]
        },
{
    let mut r: Vec<(usize, usize)> = Vec::new();
    let mut lo: usize = 0;
    let mut i: usize = 0;
    while i < b.len()
        invariant
            lo <= i <= b@.len(),
            r@.len() + 1 == split_commas(b@.take(i as int)).len(),
            forall|j: int| 0 <= j < r@.len() ==> {
                let (l, h) = #[trigger] r@[j];
                l <= h <= b@.len() && b@.subrange(l as int, h as int) == split_commas(b@.take(i as int))[j]
            },
            b@.subrange(lo as int, i as int) == split_commas(b@.take(i as int)).last(),
        decreases b@.len() - i,
    {
        proof {
            assert(b@.take(i + 1).drop_last() =~= b@.take(i as int));
            assert(b@.take(i + 1).last() == b@[i as int]);
            lemma_split_nonempty(b@.take(i as int));
        }
        if b[i] == COMMA {
            r.push((lo, i));
            lo = i + 1;
            proof {
                assert(b@.subrange(lo as int, i + 1) =~= Seq::<u8>::empty());
            }
        } else {
            proof {
                assert(b@.subrange(lo as int, i + 1) =~= b@.subrange(lo as int, i as int).push(b@[i as int]));
            }
        }
        i = i + 1;
    }
    r.push((lo, i));
    proof {
        assert(b@.take(i as int) =~= b@);
        lemma_split_nonempty(b@);
    }
    r
}

/// Quantity of bases to produce: a coverage of the reference, or an absolute number.
#[derive(Debug, PartialEq, Eq)]
pub struct Quantity {
    pub coverage: u64,
    pub base: Option<u64>,
}

/// `n * factor` as a number of bases, when it fits in a `u64`.
pub open spec fn scaled(n: u64, factor: int) -> Result<Quantity, Cli> {
    if n * factor <= u64::MAX {
        Ok(Quantity { coverage: 0, base: Some((n * factor) as u64) })
    } else {
        Err(Cli::CantParseQuantity)
    }
}

/// The quantity that `b` spells: digits followed by `x` (a coverage), by `K`, `M` or `G`
/// (thousands, millions or billions of bases) or by nothing (bases).
pub open spec fn spec_quantity(b: Seq<u8>) -> Result<Quantity, Cli> {
    let last = if b.len() > 0 { b.last() } else { 0u8 };
    let rest = b.drop_last();
    if b.len() > 0 && last == SUFFIX_COVERAGE {
        match decimal(rest) {
            Some(n) => Ok(Quantity { coverage: n, base: None }),
            None => Err(Cli::CantParseQuantity),
        }
    } else if b.len() > 0 && (last == SUFFIX_GIGA || last == SUFFIX_MEGA || last == SUFFIX_KILO) {
        match decimal(rest) {
            Some(n) => scaled(n, if last == SUFFIX_GIGA { 1_000_000_000 } else if last == SUFFIX_MEGA { 1_000_000 } else { 1_000 }),
            None => Err(Cli::CantParseQuantity),
        }
    } else {
        match decimal(b) {
            Some(n) => Ok(Quantity { coverage: 0, base: Some(n) }),
            None => Err(Cli::CantParseQuantity),
        }
    }
}

impl Quantity {
    /// Reads a quantity (see [`spec_quantity`]).
    pub fn parse(s: &str) -> (r: Result<Quantity, Cli>)
        ensures
            r == spec_quantity(s.spec_bytes()),
    {
        let b = s.as_bytes();
        let n = b.len();
        if n > 0 {
            let last = b[n - 1];
            proof {
                assert(b@.subrange(0, n - 1) =~= b@.drop_last());
            }
            if last == SUFFIX_COVERAGE {
                return match parse_decimal(b, 0, n - 1) {
                    Some(v) => Ok(Quantity { coverage: v, base: None }),
                    None => Err(Cli::CantParseQuantity),
                };
            }
            if last == SUFFIX_GIGA || last == SUFFIX_MEGA || last == SUFFIX_KILO {
                let factor: u64 = if last == SUFFIX_GIGA {
                    1_000_000_000
                } else if last == SUFFIX_MEGA {
                    1_000_000
                } else {
                    1_000
                };
                return match parse_decimal(b, 0, n - 1) {
                    Some(v) => match v.checked_mul(factor) {
                        Some(m) => Ok(Quantity { coverage: 0, base: Some(m) }),
                        None => Err(Cli::CantParseQuantity),
                    },
                    None => Err(Cli::CantParseQuantity),
                };
            }
        }
        proof {
            assert(b@.subrange(0, n as int) =~= b@);
        }
        match parse_decimal(b, 0, n) {
            Some(v) => Ok(Quantity { coverage: 0, base: Some(v) }),
            None => Err(Cli::CantParseQuantity),
        }
    }

    /// Number of bases: the absolute number when one was given, else `genome_length` times
    /// the coverage.
    pub fn number_of_base(&self, genome_length: u64) -> (r: u64)
        requires
            self.base is None ==> genome_length * self.coverage <= u64::MAX,
        ensures
            r == match self.base {
                Some(n) => n as int,
                None => genome_length * self.coverage,
            },
    {
        match self.base {
            Some(n) => n,
            None => genome_length * self.coverage,
        }
    }
}

impl std::str::FromStr for Quantity {
    type Err = Cli;

    fn from_str(s: &str) -> Result<Quantity, Cli> {
        Quantity::parse(s)
    }
}

/// A pair of numbers, written `a,b`.
#[derive(Debug, PartialEq, Eq)]
pub struct Duo(pub u64, pub u64);

/// A triple of numbers, written `a,b,c`.
#[derive(Debug, PartialEq, Eq)]
pub struct Trio(pub u64, pub u64, pub u64);

/// The pair that `b` spells: exactly two comma-separated decimals.
pub open spec fn spec_duo(b: Seq<u8>) -> Result<Duo, Cli> {
    let f = split_commas(b);
    if f.len() == 2 && decimal(f[0]) is Some && decimal(f[1]) is Some {
        Ok(Duo(decimal(f[0])->Some_0, decimal(f[1])->Some_0))
    } else {
        Err(Cli::CantParseDuo)
    }
}

/// The triple that `b` spells: exactly three comma-separated decimals.
pub open spec fn spec_trio(b: Seq<u8>) -> Result<Trio, Cli> {
    let f = split_commas(b);
    if f.len() == 3 && decimal(f[0]) is Some && decimal(f[1]) is Some && decimal(f[2]) is Some {
        Ok(Trio(decimal(f[0])->Some_0, decimal(f[1])->Some_0, decimal(f[2])->Some_0))
    } else {
        Err(Cli::CantParseTrio)
    }
}

impl Duo {
    /// Reads a pair (see [`spec_duo`]).
    pub fn parse(s: &str) -> (r: Result<Duo, Cli>)
        ensures
            r == spec_duo(s.spec_bytes()),
    {
        let b = s.as_bytes();
        let f = split_fields(b);
        if f.len() != 2 {
            return Err(Cli::CantParseDuo);
        }
        let (l0, h0) = f[0];
        let (l1, h1) = f[1];
        match (parse_decimal(b, l0, h0), parse_decimal(b, l1, h1)) {
            (Some(a), Some(c)) => Ok(Duo(a, c)),
            _ => Err(Cli::CantParseDuo),
        }
    }
}

impl std::str::FromStr for Duo {
    type Err = Cli;

    fn from_str(s: &str) -> Result<Duo, Cli> {
        Duo::parse(s)
    }
}

impl Trio {
    /// Reads a triple (see [`spec_trio`]).
    pub fn parse(s: &str) -> (r: Result<Trio, Cli>)
        ensures
            r == spec_trio(s.spec_bytes()),
    {
        let b = s.as_bytes();
        let f = split_fields(b);
        if f.len() != 3 {
            return Err(Cli::CantParseTrio);
        }
        let (l0, h0) = f[0];
        let (l1, h1) = f[1];
        let (l2, h2) = f[2];
        match (parse_decimal(b, l0, h0), parse_decimal(b, l1, h1), parse_decimal(b, l2, h2)) {
            (Some(a), Some(c), Some(d)) => Ok(Trio(a, c, d)),
            _ => Err(Cli::CantParseTrio),
        }
    }
}

impl std::str::FromStr for Trio {
    type Err = Cli;

    fn from_str(s: &str) -> Result<Trio, Cli> {
        Trio::parse(s)
    }
}

} // verus!
