//! The travel profiles the command line can select.
use vstd::prelude::*;

verus! {

/// A travel mode whose rule document drives a task.
#[derive(Debug, Clone, Copy, PartialEq, Eq, Structural)]
pub enum Profiles {
    Car,
    Bicycle,
    Pedestrian,
}

impl Profiles {
    /// Parses a profile name; every other string is refused.
    pub fn from_str(s: &str) -> (r: Option<Profiles>)
        ensures
            r == (if s@ == "car"@ {
                Option::Some(Profiles::Car)
            } else if s@ == "bicycle"@ {
                Option::Some(Profiles::Bicycle)
            } else if s@ == "pedestrian"@ {
                Option::Some(Profiles::Pedestrian)
            } else {
                Option::None
            }),
    {
        let owned = s.to_owned();
        if owned == "car".to_owned() {
            Option::Some(Profiles::Car)
        } else if owned == "bicycle".to_owned() {
            Option::Some(Profiles::Bicycle)
        } else if owned == "pedestrian".to_owned() {
            Option::Some(Profiles::Pedestrian)
        } else {
            Option::None
        }
    }
}

} // verus!
