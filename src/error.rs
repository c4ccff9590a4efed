use vstd::prelude::*;

verus! {

/// A construction parameter that the simulation cannot work with.
#[derive(Debug, Copy, Clone, PartialEq, Eq, Structural)]
pub enum ConfigurationError {
    /// The field must have at least one row and one column.
    ZeroFieldSize,
    /// The glider needs a field of at least three by three cells.
    FieldTooSmallForGlider,
    /// The clock must advance at a positive rate.
    ZeroUpdateRate,
}

/// A read or write of a cell outside the field.
#[derive(Debug, Copy, Clone, PartialEq, Eq, Structural)]
pub struct OutOfBounds {
    pub row: usize,
    pub column: usize,
    pub width: usize,
}

} // verus!
