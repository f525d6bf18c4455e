use vstd::prelude::*;

verus! {

/// Recoverable failures of the monetary engine.
///
/// `InvalidAmount` marks a malformed amount string, `InvalidRatio` an
/// empty or non-positive allocation ratio, and `InvalidCurrency` a
/// currency mismatch at an exchange-rate conversion.
#[derive(Clone, Copy, Debug, PartialEq, Eq, Structural)]
pub enum MoneyError {
    InvalidAmount,
    InvalidRatio,
    InvalidCurrency,
}

} // verus!
