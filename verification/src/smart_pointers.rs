//! Exercises for the standard library's smart pointers.  Everything they
//! show is observable behaviour, so it lives in this crate's test suite;
//! the entry point itself has nothing left to do.

use vstd::prelude::*;

verus! {

/// Entry point of the smart-pointer exercises; see the test suite for the
/// exercises themselves.
pub fn run() {
}

} // verus!
