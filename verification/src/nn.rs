//! The error surface of the layered feed-forward demo network. The demo's
//! float arithmetic lives outside the library; the error it reports on bad
//! input, and the text for that error, are defined here.

use vstd::prelude::*;

verus! {

broadcast use vstd::string::to_string_from_display_ensures_for_str;

/// Why a feed-forward calculation was rejected.
#[derive(Debug, Clone, Copy, PartialEq, Eq, Structural)]
pub enum Error {
    /// The input vector's length differs from the first layer's weight
    /// count.
    InputLengthMismatch,
}

impl Error {
    /// A human-readable description of the error.
    pub fn print(&self) -> (r: String)
        ensures
            r@ == "Input length mismatched expected length."@,
    {
        "Input length mismatched expected length.".to_string()
    }
}

} // verus!
