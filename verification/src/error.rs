//! What can go wrong while bytes are turned into proofs and back.

use vstd::prelude::*;

verus! {

/// Why a buffer was refused as a proof, an item or a list of leaf records,
/// or why a value could not be written.
#[derive(Clone, Copy, Debug, PartialEq, Eq, Structural)]
pub enum DecodeError {
    /// The buffer ends before a header, or before the payload that a length
    /// field declares.
    UnexpectedEof,
    /// A payload is longer than a two-byte length field can declare.
    ItemTooLarge,
    /// The root witness is not exactly one digest long.
    BadRootLength,
    /// Leaf positions are not strictly ascending.
    LeavesOutOfOrder,
}

} // verus!
