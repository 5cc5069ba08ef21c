//! A plain error type carrying a message.

use vstd::prelude::*;

verus! {

/// An error with a free-form description.
#[derive(Debug, Clone)]
pub struct UnexpectedError {
    pub t: String,
}

impl UnexpectedError {
    pub fn new(t: &str) -> (r: Self)
        ensures
            r.t@ == t@,
    {
        Self { t: t.to_owned() }
    }

    /// The description, for callers that print the error.
    pub fn message(&self) -> (r: String)
        ensures
            r@ == self.t@,
    {
        self.t.clone()
    }
}

} // verus!
