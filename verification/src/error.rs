//! What a backing allocator can report.

use vstd::prelude::*;
use vstd::string::*;
use crate::text::{decimal, push_decimal};

verus! {

/// The failures of a backing allocator.
#[derive(Clone, Copy, Debug, PartialEq, Eq, Structural)]
pub enum Error {
    /// The request could not be satisfied.
    AllocError,
    /// A block was to grow from the first size to the second, which is smaller.
    GrowError(usize, usize),
    /// A block was to shrink from the first size to the second, which is larger.
    ShrinkError(usize, usize),
}

impl Error {
    /// The text of the error, for a log.
    pub open spec fn message(&self) -> Seq<char> {
        match *self {
            Error::AllocError => "memory allocation failed"@,
            Error::GrowError(old_size, new_size) => "old size "@ + decimal(old_size as nat)
                + " is larger than new size "@ + decimal(new_size as nat),
            Error::ShrinkError(old_size, new_size) => "old size "@ + decimal(old_size as nat)
                + " is smaller than new size "@ + decimal(new_size as nat),
        }
    }

    /// Renders the error as text.
    pub fn to_string(&self) -> (s: String)
        ensures
            s@ == self.message(),
    {
        match *self {
            Error::AllocError => String::from_str("memory allocation failed"),
            Error::GrowError(old_size, new_size) => {
                let mut s = String::from_str("old size ");
                push_decimal(&mut s, old_size);
                s.append(" is larger than new size ");
                push_decimal(&mut s, new_size);
                s
            },
            Error::ShrinkError(old_size, new_size) => {
                let mut s = String::from_str("old size ");
                push_decimal(&mut s, old_size);
                s.append(" is smaller than new size ");
                push_decimal(&mut s, new_size);
                s
            },
        }
    }
}

} // verus!
