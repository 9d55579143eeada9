//! Tiles: the unit of the partitioned road network, and the derivation
//! of weighted segments from a tile under a profile.
use vstd::prelude::*;
use crate::coords::TileCoordinate;
use crate::idmap::IdMap;
use crate::node::Node;
use crate::profile::Profile;
use crate::way::{Segment, Way, WeightedSegment};

verus! {

/// The unrecoverable condition of one tile: a way of the tile references
/// a node id that the tile's node map does not hold.
#[derive(Debug, Clone, Copy, PartialEq, Eq, Structural)]
pub enum TileError {
    CorruptedTile,
}

/// A tile: its grid coordinate, its nodes keyed by node id, and its ways
/// keyed by way id.
pub struct Tile {
    pub coordinate: TileCoordinate,
    pub nodes: IdMap<Node>,
    pub ways: IdMap<Way>,
}

/// The output shape of every reduction, merge or contraction step: a
/// tile under its own coordinate, which may be a parent zoom on merge.
pub struct DerivedTile {
    pub coordinate: TileCoordinate,
    pub nodes: IdMap<Node>,
    pub ways: IdMap<Way>,
}

impl DerivedTile {
    pub open spec fn wf(&self) -> bool {
        &&& self.nodes.wf()
        &&& self.ways.wf()
    }

    pub fn new(coordinate: TileCoordinate, nodes: IdMap<Node>, ways: IdMap<Way>) -> (r:
        DerivedTile)
        ensures
            r.coordinate == coordinate && r.nodes == nodes && r.ways == ways,
    {
        DerivedTile { coordinate, nodes, ways }
    }

    pub fn get_coordinate(&self) -> (r: &TileCoordinate)
        ensures
            r == &self.coordinate,
    {
        &self.coordinate
    }

    pub fn get_nodes(&self) -> (r: &IdMap<Node>)
        ensures
            r == &self.nodes,
    {
        &self.nodes
    }

    pub fn get_ways(&self) -> (r: &IdMap<Way>)
        ensures
            r == &self.ways,
    {
        &self.ways
    }
}

/// Per-segment distances for every way of a tile, in meters: entry `i`
/// carries one distance per consecutive node pair of the tile's `i`-th
/// way. Great-circle distance is computed by the caller; the library
/// only consumes it.
pub struct WayDistances {
    pub per_way: Vec<Vec<u64>>,
}

impl WayDistances {
    /// Whether these distances line up with the ways of `tile`.
    pub open spec fn spec_matches(&self, tile: &Tile) -> bool {
        &&& self.per_way@.len() == tile.ways.entries@.len()
        &&& forall|i: int|
            0 <= i < self.per_way@.len() ==> (#[trigger] self.per_way@[i])@.len()
                == tile.ways.entries@[i].1.nodes@.len() - 1
    }
}

impl Tile {
    /// Keys match the ids of their nodes and ways, every way chains at
    /// least two nodes, and all tag maps are well-formed.
    pub open spec fn wf(&self) -> bool {
        &&& self.nodes.wf()
        &&& self.ways.wf()
        &&& forall|i: int|
            0 <= i < self.nodes.entries@.len() ==> {
                &&& (#[trigger] self.nodes.entries@[i]).1.wf()
                &&& self.nodes.entries@[i].0@ == self.nodes.entries@[i].1.id@
            }
        &&& forall|i: int|
            0 <= i < self.ways.entries@.len() ==> {
                &&& (#[trigger] self.ways.entries@[i]).1.wf()
                &&& self.ways.entries@[i].0@ == self.ways.entries@[i].1.id@
                &&& self.ways.entries@[i].1.nodes@.len() >= 2
            }
    }

    pub fn new(coordinate: TileCoordinate, nodes: IdMap<Node>, ways: IdMap<Way>) -> (r: Tile)
        ensures
            r.coordinate == coordinate && r.nodes == nodes && r.ways == ways,
    {
        Tile { coordinate, nodes, ways }
    }

    pub fn get_coordinate(&self) -> (r: &TileCoordinate)
        ensures
            r == &self.coordinate,
    {
        &self.coordinate
    }

    pub fn get_nodes(&self) -> (r: &IdMap<Node>)
        ensures
            r == &self.nodes,
    {
        &self.nodes
    }

    pub fn get_ways(&self) -> (r: &IdMap<Way>)
        ensures
            r == &self.ways,
    {
        &self.ways
    }

    /// Whether some accessible way of the tile references a node id the
    /// tile does not hold.
    pub open spec fn spec_corrupted(&self, p: Profile) -> bool {
        exists|wi: int, j: int|
            #![trigger self.ways.entries@[wi].1.nodes@[j]]
            {
                &&& 0 <= wi < self.ways.entries@.len()
                &&& p.spec_has_access(&self.ways.entries@[wi].1)
                &&& 0 <= j < self.ways.entries@[wi].1.nodes@.len()
                &&& !self.nodes.spec_has(self.ways.entries@[wi].1.nodes@[j]@)
            }
    }
}

/// The weighted segments one way contributes, from its pair `i` on: per
/// consecutive node pair, a forward segment costed toward its end node
/// and — unless the way is one-way — a reversed segment costed toward
/// its start node, both dropped entirely when either endpoint is an
/// obstacle.
pub open spec fn spec_way_segments(
    p: Profile,
    nmap: IdMap<Node>,
    way: Way,
    wd: Seq<u64>,
    i: int,
) -> Seq<WeightedSegment>
    decreases way.nodes@.len() - i,
{
    if i < 0 || i >= way.nodes@.len() - 1 {
        Seq::empty()
    } else {
        let rest = spec_way_segments(p, nmap, way, wd, i + 1);
        let from_id = way.nodes@[i];
        let to_id = way.nodes@[i + 1];
        let from_node = nmap.spec_get(from_id@);
        let to_node = nmap.spec_get(to_id@);
        if p.spec_is_obstacle(&from_node) || p.spec_is_obstacle(&to_node) {
            rest
        } else {
            let fwd = WeightedSegment {
                segment: Segment { from: from_id, to: to_id },
                weight: p.spec_cost(&to_node, &way, wd[i]),
            };
            if p.spec_is_one_way(&way) {
                seq![fwd] + rest
            } else {
                let rev = WeightedSegment {
                    segment: Segment { from: to_id, to: from_id },
                    weight: p.spec_cost(&from_node, &way, wd[i]),
                };
                seq![rev, fwd] + rest
            }
        }
    }
}

/// The weighted segments of a whole tile, from its way `wi` on: the
/// concatenation, in way order, of each accessible way's segments.
pub open spec fn spec_tile_segments(p: Profile, t: Tile, wds: WayDistances, wi: int) -> Seq<
    WeightedSegment,
>
    decreases t.ways.entries@.len() - wi,
{
    if wi < 0 || wi >= t.ways.entries@.len() {
        Seq::empty()
    } else {
        let way = t.ways.entries@[wi].1;
        let own = if p.spec_has_access(&way) {
            spec_way_segments(p, t.nodes, way, wds.per_way@[wi]@, 0)
        } else {
            Seq::empty()
        };
        own + spec_tile_segments(p, t, wds, wi + 1)
    }
}

/// In the absence of obstacles, a two-way way yields exactly two
/// directed segments per consecutive node pair, a one-way way exactly
/// one.
pub proof fn lemma_way_segment_count(
    p: Profile,
    nmap: IdMap<Node>,
    way: Way,
    wd: Seq<u64>,
    i: int,
)
    requires
        0 <= i <= way.nodes@.len() - 1,
        forall|j: int|
            0 <= j < way.nodes@.len() ==> !p.spec_is_obstacle(
                &nmap.spec_get((#[trigger] way.nodes@[j])@),
            ),
    ensures
        spec_way_segments(p, nmap, way, wd, i).len() == (if p.spec_is_one_way(&way) {
            1int
        } else {
            2int
        }) * (way.nodes@.len() - 1 - i),
    decreases way.nodes@.len() - i,
{
    if i < way.nodes@.len() - 1 {
        lemma_way_segment_count(p, nmap, way, wd, i + 1);
    }
}

impl Tile {
    /// Derives the directed weighted segments of the tile under
    /// `profile`, with `dists` giving each consecutive pair's distance
    /// in meters: exactly the segments of [`spec_tile_segments`], or the
    /// corrupted-tile error exactly when an accessible way references a
    /// missing node.
    pub fn get_weighted_segments(&self, profile: &Profile, dists: &WayDistances) -> (r: Result<
        Vec<WeightedSegment>,
        TileError,
    >)
        requires
            self.wf(),
            profile.wf(),
            dists.spec_matches(self),
        ensures
            match r {
                Result::Ok(v) => {
                    &&& !self.spec_corrupted(*profile)
                    &&& v@ == spec_tile_segments(*profile, *self, *dists, 0)
                    &&& forall|k: int| 0 <= k < v@.len() ==> (#[trigger] v@[k]).weight >= 1
                },
                Result::Err(e) => self.spec_corrupted(*profile) && e == TileError::CorruptedTile,
            },
    {
        let mut result: Vec<WeightedSegment> = Vec::new();
        let ghost full = spec_tile_segments(*profile, *self, *dists, 0);
        let mut wi: usize = 0;
        while wi < self.ways.len()
            invariant
                self.wf(),
                profile.wf(),
                dists.spec_matches(self),
                0 <= wi <= self.ways.entries@.len(),
                full == spec_tile_segments(*profile, *self, *dists, 0),
                result@ + spec_tile_segments(*profile, *self, *dists, wi as int) == full,
                forall|k: int| 0 <= k < result@.len() ==> (#[trigger] result@[k]).weight >= 1,
                forall|wj: int, j: int|
                    #![trigger self.ways.entries@[wj].1.nodes@[j]]
                    0 <= wj < wi && profile.spec_has_access(&self.ways.entries@[wj].1) && 0 <= j
                        < self.ways.entries@[wj].1.nodes@.len() ==> self.nodes.spec_has(
                        self.ways.entries@[wj].1.nodes@[j]@,
                    ),
            decreases self.ways.entries@.len() - wi,
        {
            let way = &self.ways.at(wi).1;
            if profile.has_access(way) {
                let ghost way_full = spec_way_segments(
                    *profile,
                    self.nodes,
                    self.ways.entries@[wi as int].1,
                    dists.per_way@[wi as int]@,
                    0,
                );
                let mut i: usize = 0;
                while i < way.nodes.len() - 1
                    invariant
                        self.wf(),
                        profile.wf(),
                        dists.spec_matches(self),
                        0 <= wi < self.ways.entries@.len(),
                        way == &self.ways.entries@[wi as int].1,
                        way.nodes@.len() >= 2,
                        profile.spec_has_access(way),
                        0 <= i <= way.nodes@.len() - 1,
                        way_full == spec_way_segments(
                            *profile,
                            self.nodes,
                            self.ways.entries@[wi as int].1,
                            dists.per_way@[wi as int]@,
                            0,
                        ),
                        full == spec_tile_segments(*profile, *self, *dists, 0),
                        result@ + spec_way_segments(
                            *profile,
                            self.nodes,
                            self.ways.entries@[wi as int].1,
                            dists.per_way@[wi as int]@,
                            i as int,
                        ) + spec_tile_segments(*profile, *self, *dists, wi as int + 1) == full,
                        forall|k: int|
                            0 <= k < result@.len() ==> (#[trigger] result@[k]).weight >= 1,
                        forall|j: int| 0 <= j < i ==> self.nodes.spec_has((#[trigger] way.nodes@[j])@),
                        i > 0 ==> self.nodes.spec_has(way.nodes@[i as int]@),
                        forall|wj: int, j: int|
                            #![trigger self.ways.entries@[wj].1.nodes@[j]]
                            0 <= wj < wi && profile.spec_has_access(&self.ways.entries@[wj].1)
                                && 0 <= j < self.ways.entries@[wj].1.nodes@.len()
                                ==> self.nodes.spec_has(self.ways.entries@[wj].1.nodes@[j]@),
                    decreases way.nodes@.len() - 1 - i,
                {
                    let from_idx = match self.nodes.find(&way.nodes[i]) {
                        Option::Some(idx) => idx,
                        Option::None => {
                            proof {
                                assert(self.spec_corrupted(*profile));
                            }
                            return Result::Err(TileError::CorruptedTile);
                        },
                    };
                    let to_idx = match self.nodes.find(&way.nodes[i + 1]) {
                        Option::Some(idx) => idx,
                        Option::None => {
                            proof {
                                assert(self.spec_corrupted(*profile));
                            }
                            return Result::Err(TileError::CorruptedTile);
                        },
                    };
                    let from_node = &self.nodes.at(from_idx).1;
                    let to_node = &self.nodes.at(to_idx).1;
                    let distance = dists.per_way[wi][i];

                    if !(profile.is_obstacle(from_node) || profile.is_obstacle(to_node)) {
                        if !profile.is_one_way(way) {
                            let backward_cost = profile.get_cost(from_node, way, distance);
                            let reverse_edge = Segment::new(
                                way.nodes[i + 1].clone(),
                                way.nodes[i].clone(),
                            );
                            result.push(WeightedSegment::new(reverse_edge, backward_cost));
                        }
                        let forward_cost = profile.get_cost(to_node, way, distance);
                        let edge = Segment::new(way.nodes[i].clone(), way.nodes[i + 1].clone());
                        result.push(WeightedSegment::new(edge, forward_cost));
                    }
                    i = i + 1;
                }
                proof {
                    assert(spec_way_segments(
                        *profile,
                        self.nodes,
                        self.ways.entries@[wi as int].1,
                        dists.per_way@[wi as int]@,
                        i as int,
                    ) =~= Seq::<WeightedSegment>::empty());
                    assert(spec_tile_segments(*profile, *self, *dists, wi as int)
                        == spec_way_segments(
                        *profile,
                        self.nodes,
                        self.ways.entries@[wi as int].1,
                        dists.per_way@[wi as int]@,
                        0,
                    ) + spec_tile_segments(*profile, *self, *dists, wi as int + 1));
                }
            } else {
                proof {
                    assert(spec_tile_segments(*profile, *self, *dists, wi as int)
                        =~= Seq::<WeightedSegment>::empty() + spec_tile_segments(
                        *profile,
                        *self,
                        *dists,
                        wi as int + 1,
                    ));
                }
            }
            wi = wi + 1;
        }
        proof {
            assert(spec_tile_segments(*profile, *self, *dists, wi as int)
                =~= Seq::<WeightedSegment>::empty());
            assert(result@ =~= full);
            assert(!self.spec_corrupted(*profile)) by {
                if self.spec_corrupted(*profile) {
                    let (wj, j) = choose|wj: int, j: int|
                        #![trigger self.ways.entries@[wj].1.nodes@[j]]
                        {
                            &&& 0 <= wj < self.ways.entries@.len()
                            &&& profile.spec_has_access(&self.ways.entries@[wj].1)
                            &&& 0 <= j < self.ways.entries@[wj].1.nodes@.len()
                            &&& !self.nodes.spec_has(self.ways.entries@[wj].1.nodes@[j]@)
                        };
                }
            }
        }
        Result::Ok(result)
    }
}

} // verus!
