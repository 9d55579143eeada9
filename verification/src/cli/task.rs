//! The tasks the command line can run.
use vstd::prelude::*;

verus! {

/// One of the offline preparation tasks.
#[derive(Debug, Clone, Copy, PartialEq, Eq, Structural)]
pub enum Task {
    ReduceProfile,
    ReduceTransit,
    ReducePaddedTransit,
    ReduceBinary,
    Merge,
    FetchTiles,
}

impl Task {
    /// Parses a task name; every other string is refused.
    pub fn from_str(s: &str) -> (r: Option<Task>)
        ensures
            r == (if s@ == "reduce_profile"@ {
                Option::Some(Task::ReduceProfile)
            } else if s@ == "reduce_transit"@ {
                Option::Some(Task::ReduceTransit)
            } else if s@ == "reduce_padded_transit"@ {
                Option::Some(Task::ReducePaddedTransit)
            } else if s@ == "reduce_binary"@ {
                Option::Some(Task::ReduceBinary)
            } else if s@ == "merge"@ {
                Option::Some(Task::Merge)
            } else if s@ == "fetch_tiles"@ {
                Option::Some(Task::FetchTiles)
            } else {
                Option::None
            }),
    {
        let owned = s.to_owned();
        if owned == "reduce_profile".to_owned() {
            Option::Some(Task::ReduceProfile)
        } else if owned == "reduce_transit".to_owned() {
            Option::Some(Task::ReduceTransit)
        } else if owned == "reduce_padded_transit".to_owned() {
            Option::Some(Task::ReducePaddedTransit)
        } else if owned == "reduce_binary".to_owned() {
            Option::Some(Task::ReduceBinary)
        } else if owned == "merge".to_owned() {
            Option::Some(Task::Merge)
        } else if owned == "fetch_tiles".to_owned() {
            Option::Some(Task::FetchTiles)
        } else {
            Option::None
        }
    }

    /// The task's command-line name.
    pub fn label(&self) -> (r: String)
        ensures
            self is ReduceProfile ==> r@ == "reduce_profile"@,
            self is ReduceTransit ==> r@ == "reduce_transit"@,
            self is ReducePaddedTransit ==> r@ == "reduce_padded_transit"@,
            self is ReduceBinary ==> r@ == "reduce_binary"@,
            self is Merge ==> r@ == "merge"@,
            self is FetchTiles ==> r@ == "fetch_tiles"@,
    {
        match self {
            Task::ReduceProfile => "reduce_profile".to_owned(),
            Task::ReduceTransit => "reduce_transit".to_owned(),
            Task::ReducePaddedTransit => "reduce_padded_transit".to_owned(),
            Task::ReduceBinary => "reduce_binary".to_owned(),
            Task::Merge => "merge".to_owned(),
            Task::FetchTiles => "fetch_tiles".to_owned(),
        }
    }
}

} // verus!
