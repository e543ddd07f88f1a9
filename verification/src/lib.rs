//! Synthesis of combinational multiplier adder networks.
//!
//! Given two unsigned operands of equal width, and optionally a constant or
//! run-time addend, the crate builds the partial-product bit matrix and
//! compresses it column by column with half- and full-adder cells, following
//! Dadda's descending sequence of target heights, until no reducible column
//! holds more than two bit sources; a request whose final column still ends
//! taller than two is rejected outright, never truncated.  The result is a
//! structural intermediate
//! representation: the two cell lists in allocation order and the final two
//! rows, ready for a carry-propagate addition by a rendering backend.

pub mod builder;
pub mod ir;
pub mod numeric;
pub mod reduce;
pub mod rows;
pub mod value;
