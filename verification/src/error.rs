//! What can go wrong when pages and addresses are encoded and decoded.

use vstd::prelude::*;

verus! {

/// One of the four coordinates of a page.
#[derive(Debug, Clone, Copy, PartialEq, Eq, Structural)]
pub enum Field {
    Wall,
    Shelf,
    Volume,
    Page,
}

/// The reason an operation was refused.
#[derive(Debug, Clone, Copy, PartialEq, Eq, Structural)]
pub enum Error {
    /// A text holds a character that its alphabet does not.
    InvalidCharacter,
    /// A coordinate is larger than `bound`, the largest value of its field.
    CoordinateOutOfRange { field: Field, bound: u32 },
    /// A written address does not have exactly five fields.
    MalformedAddress,
    /// A coordinate of a written address is not a number.
    NotANumber,
}

} // verus!
