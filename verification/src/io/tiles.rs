//! What loading a tile document can report.
use vstd::prelude::*;

verus! {

/// The failures of a tile load: unreadable files, malformed documents,
/// and entities missing their required fields.
#[derive(Debug, Clone)]
pub enum Error {
    NotAFile(String),
    InvalidFile(String),
    NotJson,
    MissingID,
    MissingLatitude,
    MissingLongitude,
    MissingNodes,
}

} // verus!
