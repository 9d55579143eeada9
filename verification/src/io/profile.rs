//! What loading a profile document can report.
use vstd::prelude::*;

verus! {

/// The failure of a profile load: the path did not name a readable file.
#[derive(Debug, Clone, Copy, PartialEq, Eq, Structural)]
pub enum Error {
    NotAFile,
}

} // verus!
