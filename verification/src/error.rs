//! The error type reported by storage-facing operations.

use vstd::prelude::*;

verus! {

/// A human-readable error, carried up to the caller of a storage operation.
#[derive(Debug, Clone, PartialEq)]
pub struct KarmaError {
    descr: String,
}

impl View for KarmaError {
    type V = Seq<char>;

    closed spec fn view(&self) -> Seq<char> {
        self.descr@
    }
}

impl KarmaError {
    pub fn new(descr: &str) -> (r: KarmaError)
        ensures
            r@ == descr@,
    {
        KarmaError { descr: descr.to_owned() }
    }

    pub fn description(&self) -> (r: &str)
        ensures
            r@ == self@,
    {
        self.descr.as_str()
    }
}

} // verus!
