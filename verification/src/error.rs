//! Errors of the library.
use vstd::prelude::*;

verus! {

/// Why a computation could not produce its result.
#[derive(Debug, Clone)]
pub enum QuantError {
    /// A strategy failed to decide on a signal; the text says why.
    Strategy(String),
    /// A balance, quantity or price left the range of the fixed-point type.
    Overflow,
}

} // verus!
