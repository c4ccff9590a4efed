use vstd::prelude::*;

pub mod clock;
pub mod error;
pub mod field;
pub mod gameplay;
pub mod gameplay_params;
pub mod glider;
pub mod grid;

verus! {

} // verus!
