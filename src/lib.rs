//! Saturation search for maximal antichains of lines of symbol sets.
pub mod bitarray;
pub mod combination;
pub mod line;
pub mod line_superiority;
pub mod saturation;

use vstd::prelude::*;

verus! {

} // verus!
