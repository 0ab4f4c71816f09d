//! The two ways in which the search ends without a factor, and their wording.
use crate::decimal::{append_decimal, decimal_text};
use vstd::prelude::*;
use vstd::string::*;

verus! {

/// Why no factor was found. Either way the smoothness bound was wrong for the
/// number, and another bound may succeed.
#[derive(Debug, Clone, Copy, PartialEq, Eq, Structural)]
pub enum FactorError {
    /// The final candidate was one: the bound covers no prime factor.
    BoundTooSmall,
    /// A candidate was the number itself: the bound covers every prime factor
    /// at once. It holds the prime that was examined last before the check.
    BoundTooLarge(usize),
}

/// The text that ends with a bound too small.
pub open spec fn too_small_text() -> Seq<char> {
    "No factors found, b is too small"@
}

/// The text that ends with a bound too large.
pub open spec fn too_large_text() -> Seq<char> {
    "No factors found, b is too large"@
}

/// What follows that text, before the prime examined last.
pub open spec fn last_prime_text() -> Seq<char> {
    ". Last prime checked was "@
}

impl FactorError {
    /// The wording of the error, as a sequence of characters.
    pub open spec fn text(self) -> Seq<char> {
        match self {
            FactorError::BoundTooSmall => too_small_text(),
            FactorError::BoundTooLarge(p) => too_large_text() + last_prime_text() + decimal_text(
                p as nat,
            ),
        }
    }

    /// The wording of the error.
    pub fn message(&self) -> (r: String)
        ensures
            r@ == self.text(),
    {
        match self {
            FactorError::BoundTooSmall => String::from_str("No factors found, b is too small"),
            FactorError::BoundTooLarge(p) => {
                let head = String::from_str("No factors found, b is too large").concat(
                    ". Last prime checked was ",
                );
                append_decimal(head, *p)
            },
        }
    }
}

} // verus!
