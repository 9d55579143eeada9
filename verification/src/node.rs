//! A tagged point of the road network.
use vstd::prelude::*;
use crate::idmap::IdMap;
use crate::coords::Bbox;

verus! {

/// A node of the network: an opaque string id, coordinates in
/// microdegrees, the recognized tags, and the verbatim unrecognized ones.
pub struct Node {
    pub id: String,
    pub lat: i64,
    pub long: i64,
    pub tags: IdMap<String>,
    pub undefined_tags: Vec<String>,
}

impl Node {
    pub open spec fn wf(&self) -> bool {
        self.tags.wf()
    }

    pub fn new(
        id: String,
        lat: i64,
        long: i64,
        tags: IdMap<String>,
        undefined_tags: Vec<String>,
    ) -> (r: Node)
        ensures
            r.id == id && r.lat == lat && r.long == long && r.tags == tags && r.undefined_tags
                == undefined_tags,
    {
        Node { id, lat, long, tags, undefined_tags }
    }

    /// Whether this node lies outside `bounds`: it then borders a
    /// neighboring tile and counts as a boundary node.
    pub open spec fn spec_outside(&self, bounds: &Bbox) -> bool {
        !bounds.spec_contains(self.lat, self.long)
    }

    #[verifier::when_used_as_spec(spec_outside)]
    pub fn outside(&self, bounds: &Bbox) -> (r: bool)
        ensures
            r == self.spec_outside(bounds),
    {
        !bounds.contains(self.lat, self.long)
    }

    /// A copy of this node, field for field.
    pub fn clone_node(&self) -> (r: Node)
        ensures
            r.id == self.id,
            r.lat == self.lat,
            r.long == self.long,
            r.tags.entries@ == self.tags.entries@,
            r.undefined_tags@ == self.undefined_tags@,
    {
        Node {
            id: self.id.clone(),
            lat: self.lat,
            long: self.long,
            tags: self.tags.clone_tags(),
            undefined_tags: crate::transit::clone_strings(&self.undefined_tags),
        }
    }

    pub fn get_id(&self) -> (r: &String)
        ensures
            r == &self.id,
    {
        &self.id
    }

    pub fn get_lat(&self) -> (r: i64)
        ensures
            r == self.lat,
    {
        self.lat
    }

    pub fn get_long(&self) -> (r: i64)
        ensures
            r == self.long,
    {
        self.long
    }

    pub fn get_tags(&self) -> (r: &IdMap<String>)
        ensures
            r == &self.tags,
    {
        &self.tags
    }

    pub fn get_undefined_tags(&self) -> (r: &Vec<String>)
        ensures
            r == &self.undefined_tags,
    {
        &self.undefined_tags
    }
}

} // verus!
