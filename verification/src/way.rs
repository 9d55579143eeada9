//! Ways, their directed segments, and the weighted segments fed to the
//! graph.
use vstd::prelude::*;
use crate::idmap::IdMap;

verus! {

/// A directed edge between two consecutive nodes of a way.
#[derive(Debug)]
pub struct Segment {
    pub from: String,
    pub to: String,
}

impl Segment {
    pub fn new(from: String, to: String) -> (r: Segment)
        ensures
            r.from == from && r.to == to,
    {
        Segment { from, to }
    }
}

/// A segment together with its traversal cost in milliseconds.
#[derive(Debug)]
pub struct WeightedSegment {
    pub segment: Segment,
    pub weight: u64,
}

impl WeightedSegment {
    pub fn new(segment: Segment, weight: u64) -> (r: WeightedSegment)
        ensures
            r.segment == segment && r.weight == weight,
    {
        WeightedSegment { segment, weight }
    }
}

/// The id contents of a sequence of id strings.
pub open spec fn ids_view(nodes: Seq<String>) -> Seq<Seq<char>> {
    nodes.map(|i: int, n: String| n@)
}

/// The ordered consecutive pairs of a node sequence: one directed
/// segment from each node to its successor.
pub open spec fn spec_segments(nodes: Seq<Seq<char>>) -> Seq<(Seq<char>, Seq<char>)> {
    Seq::new((nodes.len() - 1) as nat, |i: int| (nodes[i], nodes[i + 1]))
}

/// An ordered chain of nodes: the id, the node-id sequence, an optional
/// parallel per-segment distance array in meters (present only after
/// contraction), an optional maximum-speed override, the recognized tags
/// and the verbatim unrecognized ones.
pub struct Way {
    pub id: String,
    pub nodes: Vec<String>,
    pub distances: Option<Vec<u64>>,
    pub max_speed: Option<u64>,
    pub tags: IdMap<String>,
    pub undefined_tags: Vec<String>,
}

impl Way {
    pub open spec fn wf(&self) -> bool {
        self.tags.wf()
    }

    pub fn new(
        id: String,
        nodes: Vec<String>,
        distances: Option<Vec<u64>>,
        max_speed: Option<u64>,
        tags: IdMap<String>,
        undefined_tags: Vec<String>,
    ) -> (r: Way)
        ensures
            r.id == id && r.nodes == nodes && r.distances == distances && r.max_speed == max_speed
                && r.tags == tags && r.undefined_tags == undefined_tags,
    {
        Way { id, nodes, distances, max_speed, tags, undefined_tags }
    }

    /// Derives the way's directed segments: for a way of `n` nodes,
    /// exactly `n - 1` ordered consecutive pairs.
    pub fn get_segments(&self) -> (r: Vec<Segment>)
        requires
            self.nodes@.len() >= 1,
        ensures
            r@.len() == self.nodes@.len() - 1,
            forall|i: int|
                0 <= i < r@.len() ==> ((#[trigger] r@[i]).from@, r@[i].to@) == spec_segments(
                    ids_view(self.nodes@),
                )[i],
    {
        let mut result: Vec<Segment> = Vec::new();
        let mut i: usize = 0;
        while i < self.nodes.len() - 1
            invariant
                self.nodes@.len() >= 1,
                0 <= i <= self.nodes@.len() - 1,
                result@.len() == i,
                forall|j: int|
                    0 <= j < i ==> ((#[trigger] result@[j]).from@, result@[j].to@) == spec_segments(
                        ids_view(self.nodes@),
                    )[j],
            decreases self.nodes@.len() - 1 - i,
        {
            result.push(Segment::new(self.nodes[i].clone(), self.nodes[i + 1].clone()));
            i = i + 1;
        }
        result
    }

    /// A copy of this way, field for field.
    pub fn clone_way(&self) -> (r: Way)
        ensures
            r.id == self.id,
            r.nodes@ == self.nodes@,
            match self.distances {
                Option::Some(d) => r.distances matches Option::Some(d2) && d2@ == d@,
                Option::None => r.distances is None,
            },
            r.max_speed == self.max_speed,
            r.tags.entries@ == self.tags.entries@,
            r.undefined_tags@ == self.undefined_tags@,
    {
        let distances = match &self.distances {
            Option::Some(d) => Option::Some(copy_u64s(d)),
            Option::None => Option::None,
        };
        Way {
            id: self.id.clone(),
            nodes: crate::transit::clone_strings(&self.nodes),
            distances,
            max_speed: self.max_speed,
            tags: self.tags.clone_tags(),
            undefined_tags: crate::transit::clone_strings(&self.undefined_tags),
        }
    }

    pub fn get_id(&self) -> (r: &String)
        ensures
            r == &self.id,
    {
        &self.id
    }

    pub fn get_nodes(&self) -> (r: &Vec<String>)
        ensures
            r == &self.nodes,
    {
        &self.nodes
    }

    pub fn get_distances(&self) -> (r: &Option<Vec<u64>>)
        ensures
            r == &self.distances,
    {
        &self.distances
    }

    pub fn get_max_speed(&self) -> (r: &Option<u64>)
        ensures
            r == &self.max_speed,
    {
        &self.max_speed
    }

    pub fn get_tags(&self) -> (r: &IdMap<String>)
        ensures
            r == &self.tags,
    {
        &self.tags
    }

    pub fn get_undefined_tags(&self) -> (r: &Vec<String>)
        ensures
            r == &self.undefined_tags,
    {
        &self.undefined_tags
    }
}

/// A copy of a distance array.
pub fn copy_u64s(v: &Vec<u64>) -> (r: Vec<u64>)
    ensures
        r@ == v@,
{
    let mut r: Vec<u64> = Vec::new();
    let mut i: usize = 0;
    while i < v.len()
        invariant
            0 <= i <= v@.len(),
            r@ == v@.subrange(0, i as int),
        decreases v@.len() - i,
    {
        r.push(v[i]);
        proof {
            assert(r@ =~= v@.subrange(0, i + 1));
        }
        i = i + 1;
    }
    proof {
        assert(r@ =~= v@);
    }
    r
}

/// Reversing a way and re-deriving its segments yields the same pairs,
/// in reverse order and each with its endpoints swapped.
pub proof fn lemma_segments_of_reversed(nodes: Seq<Seq<char>>)
    requires
        nodes.len() >= 2,
    ensures
        spec_segments(nodes.reverse()).len() == spec_segments(nodes).len(),
        forall|i: int|
            0 <= i < spec_segments(nodes).len() ==> #[trigger] spec_segments(nodes.reverse())[i]
                == {
                let s = spec_segments(nodes)[spec_segments(nodes).len() - 1 - i];
                (s.1, s.0)
            },
{
    let n = nodes.len() as int;
    assert forall|i: int| 0 <= i < n - 1 implies #[trigger] spec_segments(nodes.reverse())[i] == {
        let s = spec_segments(nodes)[n - 2 - i];
        (s.1, s.0)
    } by {
        assert(nodes.reverse()[i] == nodes[n - 1 - i]);
        assert(nodes.reverse()[i + 1] == nodes[n - 2 - i]);
    }
}

} // verus!
