//! The packed routing-graph form of one tile: locations, dense labels,
//! and directed weighted edges.
use vstd::prelude::*;
use crate::idmap::IdMap;
use crate::node::Node;
use crate::profile::Profile;
use crate::tile::{spec_tile_segments, spec_way_segments, Tile, TileError, WayDistances};
use crate::way::Way;

verus! {

/// A node's location: its id and its coordinates in microdegrees.
pub struct Location {
    pub id: String,
    pub lat: i64,
    pub long: i64,
}

/// One directed edge between dense labels, weighted in milliseconds.
#[derive(Debug, Clone, Copy, PartialEq, Eq, Structural)]
pub struct DirectedEdge {
    pub from: usize,
    pub to: usize,
    pub weight: u64,
}

impl DirectedEdge {
    pub fn new(from: usize, to: usize, weight: u64) -> (r: DirectedEdge)
        ensures
            r.from == from && r.to == to && r.weight == weight,
    {
        DirectedEdge { from, to, weight }
    }
}

/// The packed form: one location per node, the id-to-label map, and the
/// directed edges between labels.
pub struct WeightedTile {
    pub locations: Vec<Location>,
    pub labels: IdMap<usize>,
    pub edges: Vec<DirectedEdge>,
}

impl WeightedTile {
    pub fn new(locations: Vec<Location>, labels: IdMap<usize>, edges: Vec<DirectedEdge>) -> (r:
        WeightedTile)
        ensures
            r.locations == locations && r.labels == labels && r.edges == edges,
    {
        WeightedTile { locations, labels, edges }
    }
}

/// Whether segment `s` runs between two consecutive nodes of an
/// accessible way of the tile, in one direction or the other.
pub open spec fn seg_from_way(p: Profile, t: Tile, s: crate::way::WeightedSegment) -> bool {
    exists|w: int, j: int|
        #![trigger t.ways.entries@[w].1.nodes@[j]]
        {
            &&& 0 <= w < t.ways.entries@.len()
            &&& p.spec_has_access(&t.ways.entries@[w].1)
            &&& 0 <= j < t.ways.entries@[w].1.nodes@.len() - 1
            &&& ((s.segment.from == t.ways.entries@[w].1.nodes@[j] && s.segment.to
                == t.ways.entries@[w].1.nodes@[j + 1]) || (s.segment.from == t.ways.entries@[
            w].1.nodes@[j + 1] && s.segment.to == t.ways.entries@[w].1.nodes@[j]))
        }
}

/// Every segment a way yields runs between two consecutive nodes of the
/// way, in one direction or the other.
proof fn lemma_way_segment_endpoints(
    p: Profile,
    nmap: IdMap<Node>,
    way: Way,
    wd: Seq<u64>,
    i: int,
)
    ensures
        forall|k: int|
            0 <= k < spec_way_segments(p, nmap, way, wd, i).len() ==> exists|j: int|
                #![trigger way.nodes@[j]]
                i <= j < way.nodes@.len() - 1 && {
                    let s = #[trigger] spec_way_segments(p, nmap, way, wd, i)[k];
                    (s.segment.from == way.nodes@[j] && s.segment.to == way.nodes@[j + 1]) || (
                    s.segment.from == way.nodes@[j + 1] && s.segment.to == way.nodes@[j])
                },
    decreases way.nodes@.len() - i,
{
    if i >= 0 && i < way.nodes@.len() - 1 {
        lemma_way_segment_endpoints(p, nmap, way, wd, i + 1);
        let own = spec_way_segments(p, nmap, way, wd, i);
        let rest = spec_way_segments(p, nmap, way, wd, i + 1);
        assert forall|k: int| 0 <= k < own.len() implies exists|j: int|
            #![trigger way.nodes@[j]]
            i <= j < way.nodes@.len() - 1 && {
                let s = #[trigger] own[k];
                (s.segment.from == way.nodes@[j] && s.segment.to == way.nodes@[j + 1]) || (
                s.segment.from == way.nodes@[j + 1] && s.segment.to == way.nodes@[j])
            } by {
            let lead = own.len() - rest.len();
            if k >= lead {
                assert(own[k] == rest[k - lead]);
            }
        }
    }
}

/// Every segment a tile yields comes from consecutive nodes of one of
/// its accessible ways.
proof fn lemma_tile_segment_endpoints(p: Profile, t: Tile, wds: WayDistances, wi: int)
    ensures
        forall|k: int|
            #![trigger spec_tile_segments(p, t, wds, wi)[k]]
            0 <= k < spec_tile_segments(p, t, wds, wi).len() ==> seg_from_way(
                p,
                t,
                spec_tile_segments(p, t, wds, wi)[k],
            ),
    decreases t.ways.entries@.len() - wi,
{
    if wi >= 0 && wi < t.ways.entries@.len() {
        lemma_tile_segment_endpoints(p, t, wds, wi + 1);
        let way = t.ways.entries@[wi].1;
        let whole = spec_tile_segments(p, t, wds, wi);
        let rest = spec_tile_segments(p, t, wds, wi + 1);
        let own_len = whole.len() - rest.len();
        if p.spec_has_access(&way) {
            lemma_way_segment_endpoints(p, t.nodes, way, wds.per_way@[wi]@, 0);
        }
        assert forall|k: int| #![trigger whole[k]] 0 <= k < whole.len() implies seg_from_way(
            p,
            t,
            whole[k],
        ) by {
            if k < own_len {
                let own = spec_way_segments(p, t.nodes, way, wds.per_way@[wi]@, 0);
                assert(whole[k] == own[k]);
                let j = choose|j: int|
                    #![trigger way.nodes@[j]]
                    0 <= j < way.nodes@.len() - 1 && {
                        let s = own[k];
                        (s.segment.from == way.nodes@[j] && s.segment.to == way.nodes@[j + 1]) || (
                        s.segment.from == way.nodes@[j + 1] && s.segment.to == way.nodes@[j])
                    };
                assert(t.ways.entries@[wi].1.nodes@[j] == way.nodes@[j]);
            } else {
                assert(whole[k] == rest[k - own_len]);
            }
        }
    }
}

/// Builds the packed form of one tile under `profile`: one location and
/// one dense label per node, in node order, and one directed edge per
/// weighted segment of the tile, its endpoints replaced by their labels.
/// Fails exactly on a corrupted tile.
pub fn create_binary_tile(tile: &Tile, profile: &Profile, dists: &WayDistances) -> (r: Result<
    WeightedTile,
    TileError,
>)
    requires
        tile.wf(),
        profile.wf(),
        dists.spec_matches(tile),
    ensures
        match r {
            Result::Ok(wt) => {
                let segs = spec_tile_segments(*profile, *tile, *dists, 0);
                &&& !tile.spec_corrupted(*profile)
                &&& wt.labels.wf()
                &&& wt.labels.spec_len() == tile.nodes.spec_len()
                &&& wt.locations@.len() == tile.nodes.spec_len()
                &&& forall|k: int|
                    0 <= k < tile.nodes.entries@.len() ==> {
                        &&& (#[trigger] wt.labels.entries@[k]).0@ == tile.nodes.entries@[k].0@
                        &&& wt.labels.entries@[k].1 == k
                        &&& wt.locations@[k].id@ == tile.nodes.entries@[k].0@
                        &&& wt.locations@[k].lat == tile.nodes.entries@[k].1.lat
                        &&& wt.locations@[k].long == tile.nodes.entries@[k].1.long
                    }
                &&& wt.edges@.len() == segs.len()
                &&& forall|e: int|
                    0 <= e < wt.edges@.len() ==> {
                        &&& (#[trigger] wt.edges@[e]).weight == segs[e].weight
                        &&& (wt.edges@[e].from as int) < tile.nodes.entries@.len()
                        &&& (wt.edges@[e].to as int) < tile.nodes.entries@.len()
                        &&& tile.nodes.entries@[wt.edges@[e].from as int].0@
                            == segs[e].segment.from@
                        &&& tile.nodes.entries@[wt.edges@[e].to as int].0@ == segs[e].segment.to@
                    }
            },
            Result::Err(e) => tile.spec_corrupted(*profile) && e == TileError::CorruptedTile,
        },
{
    let segments = match tile.get_weighted_segments(profile, dists) {
        Result::Ok(s) => s,
        Result::Err(e) => {
            return Result::Err(e);
        },
    };

    let mut locations: Vec<Location> = Vec::new();
    let mut labels: IdMap<usize> = IdMap::new();
    let mut k: usize = 0;
    while k < tile.nodes.len()
        invariant
            tile.wf(),
            0 <= k <= tile.nodes.entries@.len(),
            labels.wf(),
            labels.entries@.len() == k,
            locations@.len() == k,
            forall|k2: int|
                0 <= k2 < k ==> {
                    &&& (#[trigger] labels.entries@[k2]).0@ == tile.nodes.entries@[k2].0@
                    &&& labels.entries@[k2].1 == k2
                    &&& locations@[k2].id@ == tile.nodes.entries@[k2].0@
                    &&& locations@[k2].lat == tile.nodes.entries@[k2].1.lat
                    &&& locations@[k2].long == tile.nodes.entries@[k2].1.long
                },
        decreases tile.nodes.entries@.len() - k,
    {
        let entry = tile.nodes.at(k);
        proof {
            if labels.spec_has(entry.0@) {
                let j = crate::idmap::key_index(labels.entries@, entry.0@);
                assert(0 <= j < labels.entries@.len() && labels.entries@[j].0@ == entry.0@);
                assert(tile.nodes.entries@[j].0@ == tile.nodes.entries@[k as int].0@);
                assert(false);
            }
        }
        labels.insert(entry.0.clone(), k);
        proof {
            assert(labels.entries@[k as int].0@ == tile.nodes.entries@[k as int].0@);
        }
        locations.push(
            Location { id: entry.0.clone(), lat: entry.1.lat, long: entry.1.long },
        );
        k = k + 1;
    }

    let ghost segs = spec_tile_segments(*profile, *tile, *dists, 0);
    proof {
        lemma_tile_segment_endpoints(*profile, *tile, *dists, 0);
    }

    let mut edges: Vec<DirectedEdge> = Vec::new();
    let mut e: usize = 0;
    while e < segments.len()
        invariant
            tile.wf(),
            profile.wf(),
            segments@ == segs,
            !tile.spec_corrupted(*profile),
            forall|k2: int|
                #![trigger segs[k2]]
                0 <= k2 < segs.len() ==> seg_from_way(*profile, *tile, segs[k2]),
            0 <= e <= segs.len(),
            edges@.len() == e,
            forall|e2: int|
                0 <= e2 < e ==> {
                    &&& (#[trigger] edges@[e2]).weight == segs[e2].weight
                    &&& (edges@[e2].from as int) < tile.nodes.entries@.len()
                    &&& (edges@[e2].to as int) < tile.nodes.entries@.len()
                    &&& tile.nodes.entries@[edges@[e2].from as int].0@ == segs[e2].segment.from@
                    &&& tile.nodes.entries@[edges@[e2].to as int].0@ == segs[e2].segment.to@
                },
        decreases segs.len() - e,
    {
        proof {
            let s = segs[e as int];
            assert(seg_from_way(*profile, *tile, s));
            let (w, j) = choose|w: int, j: int|
                #![trigger tile.ways.entries@[w].1.nodes@[j]]
                {
                    &&& 0 <= w < tile.ways.entries@.len()
                    &&& profile.spec_has_access(&tile.ways.entries@[w].1)
                    &&& 0 <= j < tile.ways.entries@[w].1.nodes@.len() - 1
                    &&& ((s.segment.from == tile.ways.entries@[w].1.nodes@[j] && s.segment.to
                        == tile.ways.entries@[w].1.nodes@[j + 1]) || (s.segment.from
                        == tile.ways.entries@[w].1.nodes@[j + 1] && s.segment.to
                        == tile.ways.entries@[w].1.nodes@[j]))
                };
            assert(tile.nodes.spec_has(s.segment.from@));
            assert(tile.nodes.spec_has(s.segment.to@));
        }
        let from_label = match tile.nodes.find(&segments[e].segment.from) {
            Option::Some(idx) => idx,
            Option::None => {
                return Result::Err(TileError::CorruptedTile);
            },
        };
        let to_label = match tile.nodes.find(&segments[e].segment.to) {
            Option::Some(idx) => idx,
            Option::None => {
                return Result::Err(TileError::CorruptedTile);
            },
        };
        edges.push(DirectedEdge::new(from_label, to_label, segments[e].weight));
        e = e + 1;
    }

    Result::Ok(WeightedTile::new(locations, labels, edges))
}

} // verus!
