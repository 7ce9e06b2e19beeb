//! Why an address or a parameter was turned down.

use vstd::prelude::*;

verus! {

/// The ways in which input is rejected before any field is read.
#[derive(Clone, Copy, Debug, PartialEq, Eq, Structural)]
pub enum LaddrError {
    /// The text is not an address literal: a wrong prefix, a character that
    /// is no digit, or no digit at all.
    MalformedLiteral,
    /// The text is a number, but one too large for the address.
    NumericOverflow,
    /// The width asked for the offset field does not fit in the content
    /// region; the rejected width is carried along.
    InvalidOffsetBits { offset_bits: usize },
}

} // verus!
