use vstd::prelude::*;

verus! {

/// What can go wrong when building a regular expression.
#[derive(PartialEq, Eq, Structural, Debug, Clone, Copy)]
pub enum RegexError {
    NotMatched {},
    InvalidRegex {},
    InternallyFailed {},
    NotEnoughHeap {},
}

} // verus!
