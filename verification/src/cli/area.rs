//! The named areas a batch can cover.
use vstd::prelude::*;

verus! {

/// A named region of the map to run a task over.
#[derive(Debug, Clone, Copy, PartialEq, Eq, Structural)]
pub enum Areas {
    Belgium,
    London,
    Pyrenees,
    Dummy,
}

impl Areas {
    /// Parses an area name; every other string is refused.
    pub fn from_str(s: &str) -> (r: Option<Areas>)
        ensures
            r == (if s@ == "belgium"@ {
                Option::Some(Areas::Belgium)
            } else if s@ == "london"@ {
                Option::Some(Areas::London)
            } else if s@ == "pyrenees"@ {
                Option::Some(Areas::Pyrenees)
            } else if s@ == "dummy"@ {
                Option::Some(Areas::Dummy)
            } else {
                Option::None
            }),
    {
        let owned = s.to_owned();
        if owned == "belgium".to_owned() {
            Option::Some(Areas::Belgium)
        } else if owned == "london".to_owned() {
            Option::Some(Areas::London)
        } else if owned == "pyrenees".to_owned() {
            Option::Some(Areas::Pyrenees)
        } else if owned == "dummy".to_owned() {
            Option::Some(Areas::Dummy)
        } else {
            Option::None
        }
    }
}

} // verus!
