//! The ways in which reading a graph can fail.

use vstd::prelude::*;

verus! {

/// Why an input was rejected.
#[derive(Clone, Copy, Debug, PartialEq, Eq, Structural)]
pub enum ReadError {
    /// A header or edge line has the wrong number of words, or its keyword is wrong.
    Format,
    /// A count or a node identifier is not an unsigned decimal number of 64 bits.
    Parse,
    /// The number of edge lines does not agree with the count the header declares.
    CountMismatch,
    /// The edges name more distinct nodes than the header declares.
    NodeOverflow,
    /// The input could not be read as text.
    Stream,
}

} // verus!
