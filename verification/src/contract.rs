//! Node contraction: collapsing the non-decision nodes of a way into
//! distance-annotated shortcuts, preserving total distance exactly.
use vstd::prelude::*;
use crate::coords::Bbox;
use crate::idmap::{IdMap, IdSet};
use crate::node::Node;
use crate::tile::{Tile, TileError, WayDistances};
use crate::transit::{clone_strings, get_edge_nodes};
use crate::way::Way;

verus! {

/// How often the id occurs among the first `upto` nodes of `s`.
pub open spec fn count_occurrences(s: Seq<String>, upto: int, id: Seq<char>) -> int
    decreases upto,
{
    if upto <= 0 || upto > s.len() {
        0
    } else {
        count_occurrences(s, upto - 1, id) + if s[upto - 1]@ == id {
            1int
        } else {
            0int
        }
    }
}

/// The way-membership degree of an id over the first `upto` ways: how
/// often it occurs in their node lists, multiple occurrences in one way
/// counted separately.
pub open spec fn spec_degree(ways: Seq<(String, Way)>, upto: int, id: Seq<char>) -> int
    decreases upto,
{
    if upto <= 0 || upto > ways.len() {
        0
    } else {
        spec_degree(ways, upto - 1, id) + count_occurrences(
            ways[upto - 1].1.nodes@,
            ways[upto - 1].1.nodes@.len() as int,
            id,
        )
    }
}

/// The degree map agrees with [`spec_degree`] over the whole way list,
/// saturating at the integer limit.
pub open spec fn degrees_match(ways: Seq<(String, Way)>, m: IdMap<u64>) -> bool {
    forall|id: Seq<char>|
        #![trigger m.spec_has(id)]
        {
            &&& (m.spec_has(id) <==> spec_degree(ways, ways.len() as int, id) > 0)
            &&& (m.spec_has(id) ==> m.spec_get(id) == crate::profile::sat64(
                spec_degree(ways, ways.len() as int, id),
            ))
        }
}

/// Counts, for every node id, in how many way positions it occurs.
pub fn get_node_degrees(tile: &Tile) -> (r: IdMap<u64>)
    requires
        tile.wf(),
    ensures
        r.wf(),
        degrees_match(tile.ways.entries@, r),
{
    let mut result: IdMap<u64> = IdMap::new();
    let mut wi: usize = 0;
    while wi < tile.ways.len()
        invariant
            tile.wf(),
            0 <= wi <= tile.ways.entries@.len(),
            result.wf(),
            forall|id: Seq<char>|
                #![trigger result.spec_has(id)]
                {
                    &&& (result.spec_has(id) <==> spec_degree(tile.ways.entries@, wi as int, id)
                        > 0)
                    &&& (result.spec_has(id) ==> result.spec_get(id) == crate::profile::sat64(
                        spec_degree(tile.ways.entries@, wi as int, id),
                    ))
                },
        decreases tile.ways.entries@.len() - wi,
    {
        let way = &tile.ways.at(wi).1;
        let mut j: usize = 0;
        while j < way.nodes.len()
            invariant
                tile.wf(),
                0 <= wi < tile.ways.entries@.len(),
                way == &tile.ways.entries@[wi as int].1,
                0 <= j <= way.nodes@.len(),
                result.wf(),
                forall|id: Seq<char>|
                    #![trigger result.spec_has(id)]
                    {
                        &&& (result.spec_has(id) <==> spec_degree(
                            tile.ways.entries@,
                            wi as int,
                            id,
                        ) + count_occurrences(way.nodes@, j as int, id) > 0)
                        &&& (result.spec_has(id) ==> result.spec_get(id)
                            == crate::profile::sat64(
                            spec_degree(tile.ways.entries@, wi as int, id) + count_occurrences(
                                way.nodes@,
                                j as int,
                                id,
                            ),
                        ))
                    },
            decreases way.nodes@.len() - j,
        {
            let node_id = way.nodes[j].clone();
            let old_count: u64 = match result.find(&node_id) {
                Option::Some(idx) => result.at(idx).1,
                Option::None => 0,
            };
            let new_count = if old_count < u64::MAX {
                old_count + 1
            } else {
                old_count
            };
            result.insert(node_id, new_count);
            proof {
                lemma_count_nonneg(way.nodes@, j as int, way.nodes@[j as int]@);
                lemma_degree_nonneg(tile.ways.entries@, wi as int, way.nodes@[j as int]@);
                assert forall|id: Seq<char>|
                    id != way.nodes@[j as int]@ implies count_occurrences(way.nodes@, j + 1, id)
                    == count_occurrences(way.nodes@, j as int, id) by {}
            }
            j = j + 1;
        }
        proof {
            assert(count_occurrences(way.nodes@, way.nodes@.len() as int, way.nodes@[0]@)
                == count_occurrences(way.nodes@, way.nodes@.len() as int, way.nodes@[0]@));
            assert forall|id: Seq<char>|
                spec_degree(tile.ways.entries@, wi + 1, id) == spec_degree(
                tile.ways.entries@,
                wi as int,
                id,
            ) + count_occurrences(way.nodes@, way.nodes@.len() as int, id) by {}
        }
        wi = wi + 1;
    }
    result
}

proof fn lemma_count_nonneg(s: Seq<String>, upto: int, id: Seq<char>)
    ensures
        count_occurrences(s, upto, id) >= 0,
    decreases upto,
{
    if 0 < upto <= s.len() {
        lemma_count_nonneg(s, upto - 1, id);
    }
}

proof fn lemma_degree_nonneg(ways: Seq<(String, Way)>, upto: int, id: Seq<char>)
    ensures
        spec_degree(ways, upto, id) >= 0,
    decreases upto,
{
    if 0 < upto <= ways.len() {
        lemma_degree_nonneg(ways, upto - 1, id);
        lemma_count_nonneg(ways[upto - 1].1.nodes@, ways[upto - 1].1.nodes@.len() as int, id);
    }
}

/// Whether the node with id contents `id` lies outside `bounds`.
pub open spec fn spec_boundary(tile: &Tile, bounds: &Bbox, id: Seq<char>) -> bool {
    exists|j: int|
        0 <= j < tile.nodes.entries@.len() && (#[trigger] tile.nodes.entries@[j]).0@ == id
            && tile.nodes.entries@[j].1.spec_outside(bounds)
}

/// Whether position `i` of `way` must stay addressable after
/// contraction: a boundary node, a node used by more than one way
/// position, a way endpoint, a neighbor of a boundary node, or a node
/// tagged as a road feature that rules may reference.
pub open spec fn spec_useful_at(tile: &Tile, bounds: &Bbox, way: Way, i: int) -> bool {
    let id = way.nodes@[i]@;
    let node = tile.nodes.spec_get(id);
    ||| spec_boundary(tile, bounds, id)
    ||| spec_degree(tile.ways.entries@, tile.ways.entries@.len() as int, id) > 1
    ||| (i > 0 && spec_boundary(tile, bounds, way.nodes@[i - 1]@))
    ||| (i < way.nodes@.len() - 1 && spec_boundary(tile, bounds, way.nodes@[i + 1]@))
    ||| i == 0
    ||| i == way.nodes@.len() - 1
    ||| node.tags.spec_has("osm:highway"@)
    ||| node.tags.spec_has("osm:barrier"@)
    ||| node.tags.spec_has("osm:crossing"@)
}

/// Whether `id` stands at a decision-relevant position of some way of
/// the tile.
pub open spec fn spec_useful(tile: &Tile, bounds: &Bbox, id: Seq<char>) -> bool {
    exists|wi: int, i: int|
        #![trigger tile.ways.entries@[wi].1.nodes@[i]]
        {
            &&& 0 <= wi < tile.ways.entries@.len()
            &&& 0 <= i < tile.ways.entries@[wi].1.nodes@.len()
            &&& tile.ways.entries@[wi].1.nodes@[i]@ == id
            &&& spec_useful_at(tile, bounds, tile.ways.entries@[wi].1, i)
        }
}

/// Whether some way of the tile references a node id the tile's node
/// map does not hold, regardless of access.
pub open spec fn spec_dangling_ref(tile: &Tile) -> bool {
    exists|wi: int, j: int|
        #![trigger tile.ways.entries@[wi].1.nodes@[j]]
        {
            &&& 0 <= wi < tile.ways.entries@.len()
            &&& 0 <= j < tile.ways.entries@[wi].1.nodes@.len()
            &&& !tile.nodes.spec_has(tile.ways.entries@[wi].1.nodes@[j]@)
        }
}

/// The decision-relevant nodes of the tile: exactly the ids that some
/// way position makes useful. Fails exactly when a way references a
/// missing node.
pub fn get_useful_nodes(tile: &Tile, bounds: &Bbox) -> (r: Result<IdSet, TileError>)
    requires
        tile.wf(),
    ensures
        match r {
            Result::Ok(set) => {
                &&& set.wf()
                &&& !spec_dangling_ref(tile)
                &&& forall|id: Seq<char>| set.spec_has(id) <==> spec_useful(tile, bounds, id)
            },
            Result::Err(e) => spec_dangling_ref(tile) && e == TileError::CorruptedTile,
        },
{
    let degrees = get_node_degrees(tile);
    let oob = get_edge_nodes(tile, bounds);
    let highway_key: String = "osm:highway".to_owned();
    let barrier_key: String = "osm:barrier".to_owned();
    let crossing_key: String = "osm:crossing".to_owned();

    let mut result = IdSet::new();
    let mut wi: usize = 0;
    while wi < tile.ways.len()
        invariant
            tile.wf(),
            degrees.wf(),
            degrees_match(tile.ways.entries@, degrees),
            oob.wf(),
            forall|id: Seq<char>| oob.spec_has(id) <==> spec_boundary(tile, bounds, id),
            highway_key@ == "osm:highway"@,
            barrier_key@ == "osm:barrier"@,
            crossing_key@ == "osm:crossing"@,
            0 <= wi <= tile.ways.entries@.len(),
            result.wf(),
            forall|id: Seq<char>| result.spec_has(id) ==> spec_useful(tile, bounds, id),
            forall|wj: int, i: int|
                #![trigger tile.ways.entries@[wj].1.nodes@[i]]
                (0 <= wj < wi && 0 <= i < tile.ways.entries@[wj].1.nodes@.len() && spec_useful_at(
                    tile,
                    bounds,
                    tile.ways.entries@[wj].1,
                    i,
                )) ==> result.spec_has(tile.ways.entries@[wj].1.nodes@[i]@),
            forall|wj: int, j: int|
                #![trigger tile.ways.entries@[wj].1.nodes@[j]]
                (0 <= wj < wi && 0 <= j < tile.ways.entries@[wj].1.nodes@.len())
                    ==> tile.nodes.spec_has(tile.ways.entries@[wj].1.nodes@[j]@),
        decreases tile.ways.entries@.len() - wi,
    {
        let way = &tile.ways.at(wi).1;
        let n_way = way.nodes.len();
        let mut i: usize = 0;
        while i < n_way
            invariant
                tile.wf(),
                degrees.wf(),
                degrees_match(tile.ways.entries@, degrees),
                oob.wf(),
                forall|id: Seq<char>| oob.spec_has(id) <==> spec_boundary(tile, bounds, id),
                highway_key@ == "osm:highway"@,
                barrier_key@ == "osm:barrier"@,
                crossing_key@ == "osm:crossing"@,
                0 <= wi < tile.ways.entries@.len(),
                way == &tile.ways.entries@[wi as int].1,
                n_way == way.nodes@.len(),
                0 <= i <= n_way,
                result.wf(),
                forall|id: Seq<char>| result.spec_has(id) ==> spec_useful(tile, bounds, id),
                forall|wj: int, i2: int|
                    #![trigger tile.ways.entries@[wj].1.nodes@[i2]]
                    (0 <= wj < wi && 0 <= i2 < tile.ways.entries@[wj].1.nodes@.len()
                        && spec_useful_at(tile, bounds, tile.ways.entries@[wj].1, i2))
                        ==> result.spec_has(tile.ways.entries@[wj].1.nodes@[i2]@),
                forall|i2: int|
                    (0 <= i2 < i && spec_useful_at(tile, bounds, tile.ways.entries@[wi as int].1, i2))
                        ==> result.spec_has((#[trigger] way.nodes@[i2])@),
                forall|wj: int, j: int|
                    #![trigger tile.ways.entries@[wj].1.nodes@[j]]
                    (0 <= wj < wi && 0 <= j < tile.ways.entries@[wj].1.nodes@.len())
                        ==> tile.nodes.spec_has(tile.ways.entries@[wj].1.nodes@[j]@),
                forall|j: int|
                    0 <= j < i ==> tile.nodes.spec_has((#[trigger] way.nodes@[j])@),
            decreases n_way - i,
        {
            let node_idx = match tile.nodes.find(&way.nodes[i]) {
                Option::Some(idx) => idx,
                Option::None => {
                    proof {
                        assert(tile.ways.entries@[wi as int].1.nodes@[i as int]@
                            == way.nodes@[i as int]@);
                        assert(spec_dangling_ref(tile));
                    }
                    return Result::Err(TileError::CorruptedTile);
                },
            };
            let node = &tile.nodes.at(node_idx).1;
            let degree: u64 = match degrees.find(&way.nodes[i]) {
                Option::Some(idx) => degrees.at(idx).1,
                Option::None => 0,
            };
            let mut useful = oob.contains(&way.nodes[i]);
            if !useful && degree > 1 {
                useful = true;
            }
            if !useful && i > 0 {
                if oob.contains(&way.nodes[i - 1]) {
                    useful = true;
                }
            }
            if !useful && i < n_way - 1 {
                if oob.contains(&way.nodes[i + 1]) {
                    useful = true;
                }
            }
            if !useful && (i == 0 || i == n_way - 1) {
                useful = true;
            }
            if !useful && node.tags.contains_key(&highway_key) {
                useful = true;
            }
            if !useful && node.tags.contains_key(&barrier_key) {
                useful = true;
            }
            if !useful && node.tags.contains_key(&crossing_key) {
                useful = true;
            }
            proof {
                assert(tile.nodes.spec_get(way.nodes@[i as int]@) == tile.nodes.entries@[
                node_idx as int].1);
                assert(crate::profile::sat64(
                    spec_degree(
                        tile.ways.entries@,
                        tile.ways.entries@.len() as int,
                        way.nodes@[i as int]@,
                    ),
                ) > 1 <==> spec_degree(
                    tile.ways.entries@,
                    tile.ways.entries@.len() as int,
                    way.nodes@[i as int]@,
                ) > 1);
                assert(useful == spec_useful_at(
                    tile,
                    bounds,
                    tile.ways.entries@[wi as int].1,
                    i as int,
                ));
            }
            if useful {
                result.insert(way.nodes[i].clone());
                proof {
                    assert(tile.ways.entries@[wi as int].1.nodes@[i as int]@
                        == way.nodes@[i as int]@);
                    assert(spec_useful(tile, bounds, way.nodes@[i as int]@));
                }
            }
            i = i + 1;
        }
        wi = wi + 1;
    }
    proof {
        assert forall|id: Seq<char>| spec_useful(tile, bounds, id) implies result.spec_has(
            id,
        ) by {
            let (wj, i2) = choose|wj: int, i2: int|
                #![trigger tile.ways.entries@[wj].1.nodes@[i2]]
                {
                    &&& 0 <= wj < tile.ways.entries@.len()
                    &&& 0 <= i2 < tile.ways.entries@[wj].1.nodes@.len()
                    &&& tile.ways.entries@[wj].1.nodes@[i2]@ == id
                    &&& spec_useful_at(tile, bounds, tile.ways.entries@[wj].1, i2)
                };
        }
        assert(!spec_dangling_ref(tile)) by {
            if spec_dangling_ref(tile) {
                let (wj, j) = choose|wj: int, j: int|
                    #![trigger tile.ways.entries@[wj].1.nodes@[j]]
                    {
                        &&& 0 <= wj < tile.ways.entries@.len()
                        &&& 0 <= j < tile.ways.entries@[wj].1.nodes@.len()
                        &&& !tile.nodes.spec_has(tile.ways.entries@[wj].1.nodes@[j]@)
                    };
            }
        }
    }
    Result::Ok(result)
}

/// The nodes contraction keeps of a way, from position `i` on: every
/// position whose id the useful set holds. Position zero is always kept
/// separately.
pub open spec fn spec_retained(nodes: Seq<String>, useful: IdSet, i: int) -> Seq<String>
    decreases nodes.len() - i,
{
    if i < 1 || i >= nodes.len() {
        Seq::empty()
    } else if useful.spec_has(nodes[i]@) {
        seq![nodes[i]] + spec_retained(nodes, useful, i + 1)
    } else {
        spec_retained(nodes, useful, i + 1)
    }
}

/// The positions contraction keeps of a way, from position `i` on:
/// every position whose id the useful set holds.
pub open spec fn retained_positions(nodes: Seq<String>, useful: IdSet, i: int) -> Seq<int>
    decreases nodes.len() - i,
{
    if i < 1 || i >= nodes.len() {
        Seq::empty()
    } else if useful.spec_has(nodes[i]@) {
        seq![i] + retained_positions(nodes, useful, i + 1)
    } else {
        retained_positions(nodes, useful, i + 1)
    }
}

/// The retained positions among positions `i` (at least one) up to `j`.
pub open spec fn retained_positions_upto(nodes: Seq<String>, useful: IdSet, i: int, j: int) -> Seq<
    int,
>
    decreases j - i,
{
    if i < 1 || i >= j || j > nodes.len() {
        Seq::empty()
    } else if useful.spec_has(nodes[i]@) {
        seq![i] + retained_positions_upto(nodes, useful, i + 1, j)
    } else {
        retained_positions_upto(nodes, useful, i + 1, j)
    }
}

proof fn lemma_positions_upto_step_one(nodes: Seq<String>, useful: IdSet, i: int, j: int)
    requires
        1 <= i <= j < nodes.len(),
    ensures
        retained_positions_upto(nodes, useful, i, j + 1) == if useful.spec_has(nodes[j]@) {
            retained_positions_upto(nodes, useful, i, j) + seq![j]
        } else {
            retained_positions_upto(nodes, useful, i, j)
        },
    decreases j - i,
{
    if i == j {
        assert(retained_positions_upto(nodes, useful, i, j) =~= Seq::<int>::empty());
        if useful.spec_has(nodes[j]@) {
            assert(retained_positions_upto(nodes, useful, j + 1, j + 1) =~= Seq::<int>::empty());
            assert(retained_positions_upto(nodes, useful, i, j + 1) =~= retained_positions_upto(
                nodes,
                useful,
                i,
                j,
            ) + seq![j]);
        } else {
            assert(retained_positions_upto(nodes, useful, j + 1, j + 1) =~= Seq::<int>::empty());
            assert(retained_positions_upto(nodes, useful, i, j + 1) =~= retained_positions_upto(
                nodes,
                useful,
                i,
                j,
            ));
        }
    } else {
        lemma_positions_upto_step_one(nodes, useful, i + 1, j);
        if useful.spec_has(nodes[i]@) {
            if useful.spec_has(nodes[j]@) {
                assert(seq![i] + (retained_positions_upto(nodes, useful, i + 1, j) + seq![j])
                    =~= (seq![i] + retained_positions_upto(nodes, useful, i + 1, j)) + seq![j]);
            }
        }
    }
}

proof fn lemma_positions_upto_full(nodes: Seq<String>, useful: IdSet, i: int)
    requires
        1 <= i,
    ensures
        retained_positions_upto(nodes, useful, i, nodes.len() as int) == retained_positions(
            nodes,
            useful,
            i,
        ),
    decreases nodes.len() - i,
{
    if i < nodes.len() {
        lemma_positions_upto_full(nodes, useful, i + 1);
    } else {
        assert(retained_positions_upto(nodes, useful, i, nodes.len() as int)
            =~= retained_positions(nodes, useful, i));
    }
}

/// The sum of the `upto` first per-segment distances.
pub open spec fn sum_prefix(s: Seq<u64>, upto: int) -> int
    decreases upto,
{
    if upto <= 0 || upto > s.len() {
        0
    } else {
        sum_prefix(s, upto - 1) + s[upto - 1]
    }
}

proof fn lemma_sum_prefix_mono(s: Seq<u64>, a: int, b: int)
    requires
        0 <= a <= b <= s.len(),
    ensures
        sum_prefix(s, a) <= sum_prefix(s, b),
    decreases b - a,
{
    if a < b {
        lemma_sum_prefix_mono(s, a, b - 1);
    }
}

/// Contracts one way to its decision-relevant nodes: the first node,
/// then every node the useful set holds, with one distance entry per
/// retained segment. The distances of the elided nodes are accumulated
/// into the following retained segment, so the distance array sums to
/// exactly the sum of the way's per-segment distances.
pub fn contract_way(way: &Way, useful: &IdSet, seg_dist: &Vec<u64>) -> (r: Way)
    requires
        useful.wf(),
        way.nodes@.len() >= 1,
        seg_dist@.len() == way.nodes@.len() - 1,
        sum_prefix(seg_dist@, seg_dist@.len() as int) <= u64::MAX,
        useful.spec_has(way.nodes@[way.nodes@.len() - 1]@),
    ensures
        r.id == way.id,
        r.nodes@ == seq![way.nodes@[0]] + spec_retained(way.nodes@, *useful, 1),
        r.max_speed == way.max_speed,
        r.tags.entries@ == way.tags.entries@,
        r.undefined_tags@ == way.undefined_tags@,
        ({
            let ps = seq![0int] + retained_positions(way.nodes@, *useful, 1);
            &&& r.nodes@.len() == ps.len()
            &&& forall|k: int| 0 <= k < ps.len() ==> r.nodes@[k] == way.nodes@[#[trigger] ps[k]]
            &&& forall|k: int| 0 <= k < ps.len() ==> 0 <= #[trigger] ps[k] < way.nodes@.len()
            &&& forall|k: int| 0 <= k < ps.len() - 1 ==> #[trigger] ps[k] < ps[k + 1]
            &&& match r.distances {
                Option::Some(d) => {
                    &&& d@.len() == r.nodes@.len() - 1
                    &&& sum_prefix(d@, d@.len() as int) == sum_prefix(
                        seg_dist@,
                        seg_dist@.len() as int,
                    )
                    &&& forall|k: int|
                        0 <= k < d@.len() ==> #[trigger] d@[k] == sum_prefix(seg_dist@, ps[k + 1])
                            - sum_prefix(seg_dist@, ps[k])
                },
                Option::None => false,
            }
        }),
{
    let mut nodes: Vec<String> = Vec::new();
    let mut distances: Vec<u64> = Vec::new();
    nodes.push(way.nodes[0].clone());
    let mut distance_since: u64 = 0;
    let ghost total = sum_prefix(seg_dist@, seg_dist@.len() as int);
    let ghost mut ps: Seq<int> = seq![0int];
    let ghost mut last_pos: int = 0;

    let mut i: usize = 1;
    while i < way.nodes.len()
        invariant
            useful.wf(),
            way.nodes@.len() >= 1,
            seg_dist@.len() == way.nodes@.len() - 1,
            total == sum_prefix(seg_dist@, seg_dist@.len() as int),
            total <= u64::MAX,
            1 <= i <= way.nodes@.len(),
            nodes@ == seq![way.nodes@[0]] + spec_retained_upto(way.nodes@, *useful, 1, i as int),
            ps == seq![0int] + retained_positions_upto(way.nodes@, *useful, 1, i as int),
            ps.len() == nodes@.len(),
            forall|k: int| 0 <= k < ps.len() ==> nodes@[k] == way.nodes@[#[trigger] ps[k]],
            forall|k: int| 0 <= k < ps.len() ==> 0 <= #[trigger] ps[k] < i,
            forall|k: int| 0 <= k < ps.len() - 1 ==> #[trigger] ps[k] < ps[k + 1],
            last_pos == ps[ps.len() - 1],
            distances@.len() == nodes@.len() - 1,
            sum_prefix(distances@, distances@.len() as int) + distance_since == sum_prefix(
                seg_dist@,
                i - 1,
            ),
            distance_since == sum_prefix(seg_dist@, i - 1) - sum_prefix(seg_dist@, last_pos),
            forall|k: int|
                0 <= k < distances@.len() ==> #[trigger] distances@[k] == sum_prefix(
                    seg_dist@,
                    ps[k + 1],
                ) - sum_prefix(seg_dist@, ps[k]),
            (i > 1 && useful.spec_has(way.nodes@[i - 1]@)) ==> distance_since == 0,
        decreases way.nodes@.len() - i,
    {
        proof {
            lemma_sum_prefix_mono(seg_dist@, i as int, seg_dist@.len() as int);
            lemma_sum_prefix_nonneg(seg_dist@, i - 1);
            lemma_sum_prefix_nonneg(distances@, distances@.len() as int);
            lemma_sum_prefix_mono(seg_dist@, last_pos, i - 1);
            lemma_sum_prefix_nonneg(seg_dist@, last_pos);
        }
        distance_since = distance_since + seg_dist[i - 1];
        if useful.contains(&way.nodes[i]) {
            nodes.push(way.nodes[i].clone());
            let ghost d0 = distances@;
            distances.push(distance_since);
            proof {
                assert(sum_prefix(distances@, distances@.len() as int) == sum_prefix(
                    d0,
                    d0.len() as int,
                ) + distance_since) by {
                    assert(distances@.subrange(0, d0.len() as int) =~= d0);
                    lemma_sum_prefix_push(d0, distances@);
                }
                let ghost ps0 = ps;
                ps = ps.push(i as int);
                assert(ps =~= (seq![0int] + retained_positions_upto(
                    way.nodes@,
                    *useful,
                    1,
                    i as int,
                )).push(i as int));
                last_pos = i as int;
            }
            distance_since = 0;
        }
        proof {
            lemma_retained_upto_step(way.nodes@, *useful, i as int);
            lemma_positions_upto_step_one(way.nodes@, *useful, 1, i as int);
            if useful.spec_has(way.nodes@[i as int]@) {
                assert(ps =~= seq![0int] + retained_positions_upto(
                    way.nodes@,
                    *useful,
                    1,
                    i + 1,
                ));
            }
        }
        i = i + 1;
    }
    proof {
        lemma_retained_upto_full(way.nodes@, *useful, 1);
        lemma_positions_upto_full(way.nodes@, *useful, 1);
    }
    Way::new(
        way.id.clone(),
        nodes,
        Option::Some(distances),
        way.max_speed,
        way.tags.clone_tags(),
        clone_strings(&way.undefined_tags),
    )
}

/// The retained nodes among positions `i` (at least one) up to `j`.
pub open spec fn spec_retained_upto(nodes: Seq<String>, useful: IdSet, i: int, j: int) -> Seq<
    String,
>
    decreases j - i,
{
    if i < 1 || i >= j || j > nodes.len() {
        Seq::empty()
    } else if useful.spec_has(nodes[i]@) {
        seq![nodes[i]] + spec_retained_upto(nodes, useful, i + 1, j)
    } else {
        spec_retained_upto(nodes, useful, i + 1, j)
    }
}

proof fn lemma_retained_upto_step(nodes: Seq<String>, useful: IdSet, j: int)
    requires
        1 <= j < nodes.len(),
    ensures
        forall|i: int|
            1 <= i <= j ==> #[trigger] spec_retained_upto(nodes, useful, i, j + 1)
                == if useful.spec_has(nodes[j]@) {
                spec_retained_upto(nodes, useful, i, j) + seq![nodes[j]]
            } else {
                spec_retained_upto(nodes, useful, i, j)
            },
    decreases nodes.len() - j,
{
    assert forall|i: int| 1 <= i <= j implies #[trigger] spec_retained_upto(
        nodes,
        useful,
        i,
        j + 1,
    ) == if useful.spec_has(nodes[j]@) {
        spec_retained_upto(nodes, useful, i, j) + seq![nodes[j]]
    } else {
        spec_retained_upto(nodes, useful, i, j)
    } by {
        lemma_retained_upto_step_one(nodes, useful, i, j);
    }
}

proof fn lemma_retained_upto_step_one(nodes: Seq<String>, useful: IdSet, i: int, j: int)
    requires
        1 <= i <= j < nodes.len(),
    ensures
        spec_retained_upto(nodes, useful, i, j + 1) == if useful.spec_has(nodes[j]@) {
            spec_retained_upto(nodes, useful, i, j) + seq![nodes[j]]
        } else {
            spec_retained_upto(nodes, useful, i, j)
        },
    decreases j - i,
{
    if i == j {
        assert(spec_retained_upto(nodes, useful, i, j) =~= Seq::<String>::empty());
        if useful.spec_has(nodes[j]@) {
            assert(spec_retained_upto(nodes, useful, j + 1, j + 1) =~= Seq::<String>::empty());
            assert(spec_retained_upto(nodes, useful, i, j + 1) =~= spec_retained_upto(
                nodes,
                useful,
                i,
                j,
            ) + seq![nodes[j]]);
        } else {
            assert(spec_retained_upto(nodes, useful, j + 1, j + 1) =~= Seq::<String>::empty());
            assert(spec_retained_upto(nodes, useful, i, j + 1) =~= spec_retained_upto(
                nodes,
                useful,
                i,
                j,
            ));
        }
    } else {
        lemma_retained_upto_step_one(nodes, useful, i + 1, j);
        if useful.spec_has(nodes[i]@) {
            if useful.spec_has(nodes[j]@) {
                assert(seq![nodes[i]] + (spec_retained_upto(nodes, useful, i + 1, j) + seq![
                    nodes[j],
                ]) =~= (seq![nodes[i]] + spec_retained_upto(nodes, useful, i + 1, j)) + seq![
                    nodes[j],
                ]);
            }
        }
    }
}

proof fn lemma_retained_upto_full(nodes: Seq<String>, useful: IdSet, i: int)
    requires
        1 <= i,
    ensures
        spec_retained_upto(nodes, useful, i, nodes.len() as int) == spec_retained(
            nodes,
            useful,
            i,
        ),
    decreases nodes.len() - i,
{
    if i < nodes.len() {
        lemma_retained_upto_full(nodes, useful, i + 1);
    } else {
        assert(spec_retained_upto(nodes, useful, i, nodes.len() as int) =~= spec_retained(
            nodes,
            useful,
            i,
        ));
    }
}

proof fn lemma_sum_prefix_nonneg(s: Seq<u64>, upto: int)
    ensures
        sum_prefix(s, upto) >= 0,
    decreases upto,
{
    if 0 < upto <= s.len() {
        lemma_sum_prefix_nonneg(s, upto - 1);
    }
}

proof fn lemma_sum_prefix_push(d0: Seq<u64>, d1: Seq<u64>)
    requires
        d1.len() == d0.len() + 1,
        d1.subrange(0, d0.len() as int) == d0,
    ensures
        sum_prefix(d1, d1.len() as int) == sum_prefix(d0, d0.len() as int) + d1[d0.len() as int],
    decreases d0.len(),
{
    lemma_sum_prefix_eq(d1, d0, d0.len() as int);
}

proof fn lemma_sum_prefix_eq(d1: Seq<u64>, d0: Seq<u64>, upto: int)
    requires
        0 <= upto <= d0.len(),
        d0.len() <= d1.len(),
        forall|k: int| 0 <= k < d0.len() ==> d1[k] == d0[k],
    ensures
        sum_prefix(d1, upto) == sum_prefix(d0, upto),
    decreases upto,
{
    if upto > 0 {
        lemma_sum_prefix_eq(d1, d0, upto - 1);
    }
}

/// Contracts a whole tile: keeps exactly the decision-relevant nodes and
/// replaces every way by its contracted form, each with its exact total
/// distance. Fails exactly when a way references a missing node.
pub fn create_contracted_tile(tile: &Tile, bounds: &Bbox, dists: &WayDistances) -> (r: Result<
    Tile,
    TileError,
>)
    requires
        tile.wf(),
        dists.spec_matches(tile),
        forall|wi: int|
            0 <= wi < dists.per_way@.len() ==> sum_prefix(
                (#[trigger] dists.per_way@[wi])@,
                dists.per_way@[wi]@.len() as int,
            ) <= u64::MAX,
    ensures
        match r {
            Result::Ok(t) => {
                &&& t.coordinate == tile.coordinate
                &&& t.nodes.wf()
                &&& t.ways.wf()
                &&& forall|id: Seq<char>|
                    t.nodes.spec_has(id) ==> tile.nodes.spec_has(id) && spec_useful(
                        tile,
                        bounds,
                        id,
                    )
                &&& forall|id: Seq<char>| t.ways.spec_has(id) ==> tile.ways.spec_has(id)
                &&& forall|wi: int|
                    #![trigger tile.ways.entries@[wi]]
                    0 <= wi < tile.ways.entries@.len() ==> {
                        let key = tile.ways.entries@[wi].0@;
                        let w0 = tile.ways.entries@[wi].1;
                        let w = t.ways.spec_get(key);
                        &&& t.ways.spec_has(key)
                        &&& w.nodes@[0] == w0.nodes@[0]
                        &&& match w.distances {
                            Option::Some(d) => d@.len() == w.nodes@.len() - 1 && sum_prefix(
                                d@,
                                d@.len() as int,
                            ) == sum_prefix(
                                dists.per_way@[wi]@,
                                dists.per_way@[wi]@.len() as int,
                            ),
                            Option::None => false,
                        }
                    }
            },
            Result::Err(e) => spec_dangling_ref(tile) && e == TileError::CorruptedTile,
        },
{
    let useful = match get_useful_nodes(tile, bounds) {
        Result::Ok(u) => u,
        Result::Err(e) => {
            return Result::Err(e);
        },
    };

    let mut reduced_nodes: IdMap<Node> = IdMap::new();
    let mut i: usize = 0;
    while i < tile.nodes.len()
        invariant
            tile.wf(),
            useful.wf(),
            forall|id: Seq<char>| useful.spec_has(id) <==> spec_useful(tile, bounds, id),
            0 <= i <= tile.nodes.entries@.len(),
            reduced_nodes.wf(),
            forall|id: Seq<char>|
                reduced_nodes.spec_has(id) ==> tile.nodes.spec_has(id) && spec_useful(
                    tile,
                    bounds,
                    id,
                ),
        decreases tile.nodes.entries@.len() - i,
    {
        let entry = tile.nodes.at(i);
        if useful.contains(&entry.0) {
            reduced_nodes.insert(entry.0.clone(), entry.1.clone_node());
            proof {
                assert(tile.nodes.entries@[i as int].0@ == entry.0@);
            }
        }
        i = i + 1;
    }

    let mut reduced_ways: IdMap<Way> = IdMap::new();
    let mut wi: usize = 0;
    while wi < tile.ways.len()
        invariant
            tile.wf(),
            dists.spec_matches(tile),
            forall|wj: int|
                0 <= wj < dists.per_way@.len() ==> sum_prefix(
                    (#[trigger] dists.per_way@[wj])@,
                    dists.per_way@[wj]@.len() as int,
                ) <= u64::MAX,
            useful.wf(),
            forall|id: Seq<char>| useful.spec_has(id) <==> spec_useful(tile, bounds, id),
            0 <= wi <= tile.ways.entries@.len(),
            reduced_ways.wf(),
            forall|id: Seq<char>| reduced_ways.spec_has(id) ==> tile.ways.spec_has(id),
            forall|id: Seq<char>|
                reduced_ways.spec_has(id) ==> exists|wj: int|
                    #![trigger tile.ways.entries@[wj]]
                    0 <= wj < wi && tile.ways.entries@[wj].0@ == id,
            forall|wj: int|
                #![trigger tile.ways.entries@[wj]]
                0 <= wj < wi ==> {
                    let key = tile.ways.entries@[wj].0@;
                    let w0 = tile.ways.entries@[wj].1;
                    let w = reduced_ways.spec_get(key);
                    &&& reduced_ways.spec_has(key)
                    &&& w.nodes@[0] == w0.nodes@[0]
                    &&& match w.distances {
                        Option::Some(d) => d@.len() == w.nodes@.len() - 1 && sum_prefix(
                            d@,
                            d@.len() as int,
                        ) == sum_prefix(
                            dists.per_way@[wj]@,
                            dists.per_way@[wj]@.len() as int,
                        ),
                        Option::None => false,
                    }
                },
        decreases tile.ways.entries@.len() - wi,
    {
        let way_id = tile.ways.at(wi).0.clone();
        let way = &tile.ways.at(wi).1;
        proof {
            let n = way.nodes@.len() as int;
            assert(tile.ways.entries@[wi as int].1.nodes@[n - 1]@ == way.nodes@[n - 1]@);
            assert(spec_useful_at(tile, bounds, tile.ways.entries@[wi as int].1, n - 1));
            assert(spec_useful(tile, bounds, way.nodes@[n - 1]@));
        }
        let new_way = contract_way(way, &useful, &dists.per_way[wi]);
        proof {
            assert(!reduced_ways.spec_has(way_id@)) by {
                if reduced_ways.spec_has(way_id@) {
                    let wj = choose|wj: int|
                        #![trigger tile.ways.entries@[wj]]
                        0 <= wj < wi && tile.ways.entries@[wj].0@ == way_id@;
                    assert(tile.ways.entries@[wj].0@ == tile.ways.entries@[wi as int].0@);
                }
            }
        }
        let ghost rw0 = reduced_ways;
        reduced_ways.insert(way_id.clone(), new_way);
        proof {
            assert(tile.ways.entries@[wi as int].0@ == way_id@);
            assert(reduced_ways.spec_get(way_id@) == new_way);
            assert forall|id: Seq<char>| reduced_ways.spec_has(id) implies exists|wj: int|
                #![trigger tile.ways.entries@[wj]]
                0 <= wj < wi + 1 && tile.ways.entries@[wj].0@ == id by {
                if id == way_id@ {
                    assert(0 <= wi < wi + 1 && tile.ways.entries@[wi as int].0@ == id);
                } else {
                    assert(rw0.spec_has(id));
                    let wj = choose|wj: int|
                        #![trigger tile.ways.entries@[wj]]
                        0 <= wj < wi && tile.ways.entries@[wj].0@ == id;
                    assert(0 <= wj < wi + 1 && tile.ways.entries@[wj].0@ == id);
                }
            }
        }
        wi = wi + 1;
    }

    Result::Ok(Tile::new(tile.coordinate, reduced_nodes, reduced_ways))
}

} // verus!
