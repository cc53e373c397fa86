use vstd::prelude::*;

verus! {

/// Decides whether a candidate nonce solves the search problem.
pub trait Checker {
    /// The results that solve the problem.
    spec fn accepts(&self, result: Seq<u8>) -> bool;

    fn check_nonce(&self, result: Vec<u8>) -> (r: bool)
        ensures
            r == self.accepts(result@),
    ;
}

} // verus!
