//! Error kinds of the library.

use vstd::prelude::*;

verus! {

/// Errors of command-line values.
#[derive(Debug, Clone, Copy, PartialEq, Eq)]
pub enum Cli {
    /// A quantity does not read as digits followed by an optional `K`, `M`, `G` or `x`.
    CantParseQuantity,
    /// A value does not read as two comma-separated numbers.
    CantParseDuo,
    /// A value does not read as three comma-separated numbers.
    CantParseTrio,
    /// A model path cannot be found.
    CantFoundModelPath,
    /// A circular reference is shorter than every drawn fragment length.
    SmallPlasmidBias,
}

/// Errors of models.
#[derive(Debug, Clone, Copy, PartialEq, Eq)]
pub enum Model {
    /// An error model cannot be read.
    ErrorParsing,
    /// A quality model cannot be read.
    QualityParsing,
    /// A quality model lacks one of the one-column contexts `=`, `X` and `I`.
    QualityNotMinimalCigarString,
    /// A cigar context has an even length.
    QualityCigarLenNotOdd,
    /// A length model parameter is not above zero.
    LengthParamMustBeUpperThan0,
}

} // verus!
