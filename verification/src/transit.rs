//! Transit reduction: keeping only the nodes and ways that shortest
//! paths between a tile's boundary nodes can visit.
use vstd::prelude::*;
use crate::coords::{is_union_box, Bbox, union_bbox};
use crate::graph::{lemma_covers_monotone, Graph, INFINITY};
use crate::idmap::{IdMap, IdSet};
use crate::node::Node;
use crate::profile::Profile;
use crate::tile::{spec_tile_segments, DerivedTile, Tile, TileError, WayDistances};
use crate::way::Way;

verus! {

/// The boundary nodes of `tile`: exactly the nodes whose coordinates
/// fall outside `bounds`, so they are shared with a neighboring tile.
pub fn get_edge_nodes(tile: &Tile, bounds: &Bbox) -> (r: IdSet)
    requires
        tile.wf(),
    ensures
        r.wf(),
        forall|id: Seq<char>|
            r.spec_has(id) <==> exists|i: int|
                0 <= i < tile.nodes.entries@.len() && (#[trigger] tile.nodes.entries@[i]).0@ == id
                    && tile.nodes.entries@[i].1.spec_outside(bounds),
{
    let mut r = IdSet::new();
    let mut i: usize = 0;
    while i < tile.nodes.len()
        invariant
            tile.wf(),
            0 <= i <= tile.nodes.entries@.len(),
            r.wf(),
            forall|id: Seq<char>|
                r.spec_has(id) <==> exists|j: int|
                    0 <= j < i && (#[trigger] tile.nodes.entries@[j]).0@ == id
                        && tile.nodes.entries@[j].1.spec_outside(bounds),
        decreases tile.nodes.entries@.len() - i,
    {
        let entry = tile.nodes.at(i);
        if entry.1.outside(bounds) {
            r.insert(entry.0.clone());
            proof {
                assert(tile.nodes.entries@[i as int].0@ == entry.0@);
            }
        }
        proof {
            assert forall|id: Seq<char>|
                r.spec_has(id) <==> exists|j: int|
                    0 <= j < i + 1 && (#[trigger] tile.nodes.entries@[j]).0@ == id
                        && tile.nodes.entries@[j].1.spec_outside(bounds) by {
                if r.spec_has(id) {
                    if id != tile.nodes.entries@[i as int].0@
                        || !tile.nodes.entries@[i as int].1.spec_outside(bounds) {
                        assert(exists|j: int|
                            0 <= j < i && (#[trigger] tile.nodes.entries@[j]).0@ == id
                                && tile.nodes.entries@[j].1.spec_outside(bounds));
                    }
                }
                if exists|j: int|
                    0 <= j < i + 1 && (#[trigger] tile.nodes.entries@[j]).0@ == id
                        && tile.nodes.entries@[j].1.spec_outside(bounds) {
                    let j = choose|j: int|
                        0 <= j < i + 1 && (#[trigger] tile.nodes.entries@[j]).0@ == id
                            && tile.nodes.entries@[j].1.spec_outside(bounds);
                    if j < i {
                        assert(r.spec_has(id));
                    }
                }
            }
        }
        i = i + 1;
    }
    r
}

/// Every id of `items` other than position `i`, up to position `j`, is
/// present in `others`.
/// Whether the id at position `j2` of `items` occurs in `others`.
pub open spec fn covered(items: Seq<String>, others: Seq<String>, j2: int) -> bool {
    exists|k: int| 0 <= k < others.len() && items[j2]@ == (#[trigger] others[k])@
}

pub open spec fn others_cover(items: Seq<String>, others: Seq<String>, i: int, j: int) -> bool {
    forall|j2: int| #![trigger covered(items, others, j2)]
        0 <= j2 < j && j2 != i ==> covered(items, others, j2)
}

/// Skipping the excluded position extends the cover by one step.
proof fn lemma_others_cover_skip(items: Seq<String>, others: Seq<String>, i: int, j: int)
    requires
        others_cover(items, others, i, j),
        j == i,
    ensures
        others_cover(items, others, i, j + 1),
{
    assert forall|j2: int| #![trigger covered(items, others, j2)]
        0 <= j2 < j + 1 && j2 != i implies covered(items, others, j2) by {
        lemma_others_cover_instance(items, others, i, j, j2);
    }
}

proof fn lemma_others_cover_instance(
    items: Seq<String>,
    others: Seq<String>,
    i: int,
    j: int,
    j2: int,
)
    requires
        others_cover(items, others, i, j),
        0 <= j2 < j,
        j2 != i,
    ensures
        covered(items, others, j2),
{
}

/// The union over every ordered pair of boundary nodes of the nodes on
/// the found shortest path between them. The result holds only ids the
/// graph labeled; it holds every labeled boundary node as soon as a
/// second one is labeled; and for every ordered pair of distinct labeled
/// boundary nodes, either a whole cheapest walk between them survives in
/// the result, or every walk between them costs at least `INFINITY`.
pub fn necessary_node_set(graph: &Graph, edge_nodes: &IdSet) -> (r: IdSet)
    requires
        graph.wf(),
        edge_nodes.wf(),
    ensures
        r.wf(),
        forall|id: Seq<char>| r.spec_has(id) ==> graph.spec_has_node(id),
        forall|i: int|
            #![trigger edge_nodes.items@[i]]
            (0 <= i < edge_nodes.items@.len() && graph.spec_has_node(edge_nodes.items@[i]@)
                && (exists|j: int|
                0 <= j < edge_nodes.items@.len() && j != i && graph.spec_has_node(
                    (#[trigger] edge_nodes.items@[j])@,
                ))) ==> r.spec_has(edge_nodes.items@[i]@),
        forall|i: int, j: int|
            #![trigger edge_nodes.items@[i], edge_nodes.items@[j]]
            (0 <= i < edge_nodes.items@.len() && 0 <= j < edge_nodes.items@.len() && i != j
                && graph.spec_has_node(edge_nodes.items@[i]@) && graph.spec_has_node(
                edge_nodes.items@[j]@,
            )) ==> (graph.set_covers_shortest(
                graph.spec_label(edge_nodes.items@[i]@),
                graph.spec_label(edge_nodes.items@[j]@),
                r,
            ) || graph.walk_minimal(
                graph.spec_label(edge_nodes.items@[i]@),
                graph.spec_label(edge_nodes.items@[j]@),
                INFINITY as int,
            )),
{
    let mut result = IdSet::new();
    let mut i: usize = 0;
    while i < edge_nodes.len()
        invariant
            graph.wf(),
            edge_nodes.wf(),
            0 <= i <= edge_nodes.items@.len(),
            result.wf(),
            forall|id: Seq<char>| result.spec_has(id) ==> graph.spec_has_node(id),
            forall|i2: int|
                #![trigger edge_nodes.items@[i2]]
                (0 <= i2 < i && graph.spec_has_node(edge_nodes.items@[i2]@) && (exists|j: int|
                    0 <= j < edge_nodes.items@.len() && j != i2 && graph.spec_has_node(
                        (#[trigger] edge_nodes.items@[j])@,
                    ))) ==> result.spec_has(edge_nodes.items@[i2]@),
            forall|i2: int, j: int|
                #![trigger edge_nodes.items@[i2], edge_nodes.items@[j]]
                (0 <= i2 < i && graph.spec_has_node(edge_nodes.items@[i2]@) && 0 <= j
                    < edge_nodes.items@.len() && j != i2 && graph.spec_has_node(
                    edge_nodes.items@[j]@,
                )) ==> result.spec_has(edge_nodes.items@[j]@),
            forall|i2: int, j2: int|
                #![trigger edge_nodes.items@[i2], edge_nodes.items@[j2]]
                (0 <= i2 < i && 0 <= j2 < edge_nodes.items@.len() && i2 != j2
                    && graph.spec_has_node(edge_nodes.items@[i2]@) && graph.spec_has_node(
                    edge_nodes.items@[j2]@,
                )) ==> (graph.set_covers_shortest(
                    graph.spec_label(edge_nodes.items@[i2]@),
                    graph.spec_label(edge_nodes.items@[j2]@),
                    result,
                ) || graph.walk_minimal(
                    graph.spec_label(edge_nodes.items@[i2]@),
                    graph.spec_label(edge_nodes.items@[j2]@),
                    INFINITY as int,
                )),
        decreases edge_nodes.items@.len() - i,
    {
        let ghost r_start = result;
        let first_node = edge_nodes.at(i);
        let mut others: Vec<String> = Vec::new();
        let mut j: usize = 0;
        while j < edge_nodes.len()
            invariant
                edge_nodes.wf(),
                0 <= i < edge_nodes.items@.len(),
                0 <= j <= edge_nodes.items@.len(),
                others_cover(edge_nodes.items@, others@, i as int, j as int),
            decreases edge_nodes.items@.len() - j,
        {
            if j != i {
                let ghost others0 = others@;
                others.push(edge_nodes.at(j).clone());
                proof {
                    assert(others@[others0.len() as int] == edge_nodes.items@[j as int]);
                    assert(others_cover(edge_nodes.items@, others@, i as int, j + 1)) by {
                        assert forall|j2: int|
                            #![trigger covered(edge_nodes.items@, others@, j2)]
                            0 <= j2 < j + 1 && j2 != i implies covered(
                            edge_nodes.items@,
                            others@,
                            j2,
                        ) by {
                            if j2 < j {
                                lemma_others_cover_instance(
                                    edge_nodes.items@,
                                    others0,
                                    i as int,
                                    j as int,
                                    j2,
                                );
                                let k = choose|k: int|
                                    0 <= k < others0.len() && edge_nodes.items@[j2]@ == (
                                #[trigger] others0[k])@;
                                assert(others@[k] == others0[k]);
                                assert(edge_nodes.items@[j2]@ == others@[k]@);
                            } else {
                                assert(others@[others0.len() as int]@ == edge_nodes.items@[j2]@);
                            }
                        }
                    }
                }
            } else {
                proof {
                    lemma_others_cover_skip(edge_nodes.items@, others@, i as int, j as int);
                }
            }
            j = j + 1;
        }
        graph.necessary_nodes(first_node, &others, &mut result);
        proof {
            assert forall|i2: int, j2: int|
                #![trigger edge_nodes.items@[i2], edge_nodes.items@[j2]]
                (0 <= i2 < i + 1 && 0 <= j2 < edge_nodes.items@.len() && i2 != j2
                    && graph.spec_has_node(edge_nodes.items@[i2]@) && graph.spec_has_node(
                    edge_nodes.items@[j2]@,
                )) implies (graph.set_covers_shortest(
                graph.spec_label(edge_nodes.items@[i2]@),
                graph.spec_label(edge_nodes.items@[j2]@),
                result,
            ) || graph.walk_minimal(
                graph.spec_label(edge_nodes.items@[i2]@),
                graph.spec_label(edge_nodes.items@[j2]@),
                INFINITY as int,
            )) by {
                if i2 < i {
                    if graph.set_covers_shortest(
                        graph.spec_label(edge_nodes.items@[i2]@),
                        graph.spec_label(edge_nodes.items@[j2]@),
                        r_start,
                    ) {
                        lemma_covers_monotone(
                            graph,
                            graph.spec_label(edge_nodes.items@[i2]@),
                            graph.spec_label(edge_nodes.items@[j2]@),
                            r_start,
                            result,
                        );
                    }
                } else {
                    lemma_others_cover_instance(
                        edge_nodes.items@,
                        others@,
                        i as int,
                        edge_nodes.items@.len() as int,
                        j2,
                    );
                    let k = choose|k: int|
                        0 <= k < others@.len() && edge_nodes.items@[j2]@ == (
                    #[trigger] others@[k])@;
                    assert(graph.spec_has_node(others@[k]@));
                    assert(graph.set_covers_shortest(
                        graph.spec_label(first_node@),
                        graph.spec_label(others@[k]@),
                        result,
                    ) || graph.walk_minimal(
                        graph.spec_label(first_node@),
                        graph.spec_label(others@[k]@),
                        INFINITY as int,
                    ));
                }
            }
            assert forall|i2: int, j2: int|
                #![trigger edge_nodes.items@[i2], edge_nodes.items@[j2]]
                (0 <= i2 < i + 1 && graph.spec_has_node(edge_nodes.items@[i2]@) && 0 <= j2
                    < edge_nodes.items@.len() && j2 != i2 && graph.spec_has_node(
                    edge_nodes.items@[j2]@,
                )) implies result.spec_has(edge_nodes.items@[j2]@) by {
                if i2 == i {
                    lemma_others_cover_instance(
                        edge_nodes.items@,
                        others@,
                        i as int,
                        edge_nodes.items@.len() as int,
                        j2,
                    );
                    let k = choose|k: int|
                        0 <= k < others@.len() && edge_nodes.items@[j2]@ == (
                    #[trigger] others@[k])@;
                    assert(graph.spec_has_node(others@[k]@));
                    assert(result.spec_has(others@[k]@));
                }
            }
            assert forall|i2: int|
                #![trigger edge_nodes.items@[i2]]
                (0 <= i2 < i + 1 && graph.spec_has_node(edge_nodes.items@[i2]@) && (exists|j2: int|
                    0 <= j2 < edge_nodes.items@.len() && j2 != i2 && graph.spec_has_node(
                        (#[trigger] edge_nodes.items@[j2])@,
                    ))) implies result.spec_has(edge_nodes.items@[i2]@) by {
                if i2 == i {
                    let j2 = choose|j2: int|
                        0 <= j2 < edge_nodes.items@.len() && j2 != i2 && graph.spec_has_node(
                            (#[trigger] edge_nodes.items@[j2])@,
                        );
                    lemma_others_cover_instance(
                        edge_nodes.items@,
                        others@,
                        i as int,
                        edge_nodes.items@.len() as int,
                        j2,
                    );
                    let k = choose|k: int|
                        0 <= k < others@.len() && edge_nodes.items@[j2]@ == (
                    #[trigger] others@[k])@;
                    assert(graph.spec_has_node(others@[k]@));
                    assert(result.spec_has(edge_nodes.items@[i as int]@));
                }
            }
        }
        i = i + 1;
    }
    result
}

/// Keeps of `way` the inclusive range from the first to the last node
/// that `necessary` holds: `Some((f, l))` with `f < l` when at least two
/// distinct positions survive, `None` otherwise.
pub fn way_slice_range(way: &Way, necessary: &IdSet) -> (r: Option<(usize, usize)>)
    requires
        necessary.wf(),
    ensures
        match r {
            Option::Some(fl) => {
                &&& fl.0 < fl.1 < way.nodes@.len()
                &&& necessary.spec_has(way.nodes@[fl.0 as int]@)
                &&& necessary.spec_has(way.nodes@[fl.1 as int]@)
                &&& forall|j: int|
                    0 <= j < fl.0 ==> !necessary.spec_has((#[trigger] way.nodes@[j])@)
                &&& forall|j: int|
                    fl.1 < j < way.nodes@.len() ==> !necessary.spec_has(
                        (#[trigger] way.nodes@[j])@,
                    )
            },
            Option::None => forall|a: int, b: int|
                0 <= a < b < way.nodes@.len() ==> !(necessary.spec_has(
                    (#[trigger] way.nodes@[a])@,
                ) && necessary.spec_has((#[trigger] way.nodes@[b])@)),
        },
{
    let n_way = way.nodes.len();
    let mut first: usize = n_way;
    let mut last: usize = 0;
    let mut i: usize = 0;
    while i < n_way
        invariant
            necessary.wf(),
            n_way == way.nodes@.len(),
            0 <= i <= n_way,
            first <= n_way,
            first == n_way ==> forall|j: int|
                0 <= j < i ==> !necessary.spec_has((#[trigger] way.nodes@[j])@),
            first < n_way ==> {
                &&& first < i
                &&& first <= last < i
                &&& necessary.spec_has(way.nodes@[first as int]@)
                &&& necessary.spec_has(way.nodes@[last as int]@)
                &&& forall|j: int|
                    0 <= j < first ==> !necessary.spec_has((#[trigger] way.nodes@[j])@)
                &&& forall|j: int|
                    last < j < i ==> !necessary.spec_has((#[trigger] way.nodes@[j])@)
            },
        decreases n_way - i,
    {
        if necessary.contains(&way.nodes[i]) {
            if first == n_way {
                first = i;
            }
            last = i;
        }
        i = i + 1;
    }
    if first < n_way && last > first {
        Some((first, last))
    } else {
        proof {
            if first < n_way {
                assert forall|a: int, b: int|
                    0 <= a < b < way.nodes@.len() implies !(necessary.spec_has(
                    (#[trigger] way.nodes@[a])@,
                ) && necessary.spec_has((#[trigger] way.nodes@[b])@)) by {
                    if necessary.spec_has(way.nodes@[a]@) && necessary.spec_has(way.nodes@[b]@) {
                        assert(a == first as int && b == first as int);
                    }
                }
            }
        }
        None
    }
}

/// Whether at least two distinct positions of `nodes` carry ids the set
/// holds: the way survives slicing.
pub open spec fn has_two_necessary(nodes: Seq<String>, n: IdSet) -> bool {
    exists|a: int, b: int|
        #![trigger nodes[a], nodes[b]]
        0 <= a < b < nodes.len() && n.spec_has(nodes[a]@) && n.spec_has(nodes[b]@)
}

/// Whether `w` is exactly `w0` cut to the inclusive span from the first
/// to the last position whose id the set holds, with the distances
/// cleared and all other metadata carried over.
pub open spec fn is_exact_slice(w: Way, w0: Way, n: IdSet) -> bool {
    exists|f: int, l: int|
        #![trigger w0.nodes@.subrange(f, l + 1)]
        {
            &&& 0 <= f < l < w0.nodes@.len()
            &&& n.spec_has(w0.nodes@[f]@)
            &&& n.spec_has(w0.nodes@[l]@)
            &&& forall|p: int| 0 <= p < f ==> !n.spec_has((#[trigger] w0.nodes@[p])@)
            &&& forall|p: int| l < p < w0.nodes@.len() ==> !n.spec_has((#[trigger] w0.nodes@[p])@)
            &&& w.nodes@ == w0.nodes@.subrange(f, l + 1)
            &&& w.id@ == w0.id@
            &&& w.distances is None
            &&& w.max_speed == w0.max_speed
            &&& w.tags.entries@ == w0.tags.entries@
            &&& w.undefined_tags@ == w0.undefined_tags@
        }
}

/// Whether some way of the map references a node with this id.
pub open spec fn ways_reference(ways: IdMap<Way>, id: Seq<char>) -> bool {
    exists|wi: int, p: int|
        #![trigger ways.entries@[wi].1.nodes@[p]]
        0 <= wi < ways.entries@.len() && 0 <= p < ways.entries@[wi].1.nodes@.len()
            && ways.entries@[wi].1.nodes@[p]@ == id
}

/// Slices every way of `tile` to the span its necessary nodes cover: a
/// way is kept iff two distinct positions of it are necessary, each kept
/// way is exactly its first-to-last necessary span, and the retained
/// nodes are exactly those the surviving slices reference.
fn reduce_ways(tile: &Tile, necessary: &IdSet) -> (r: Result<(IdMap<Node>, IdMap<Way>), TileError>)
    requires
        tile.wf(),
        necessary.wf(),
    ensures
        match r {
            Result::Ok(nw) => {
                &&& nw.0.wf()
                &&& nw.1.wf()
                &&& forall|id: Seq<char>| nw.0.spec_has(id) ==> tile.nodes.spec_has(id)
                &&& forall|id: Seq<char>| nw.1.spec_has(id) ==> tile.ways.spec_has(id)
                &&& forall|wi: int|
                    #![trigger tile.ways.entries@[wi]]
                    0 <= wi < tile.ways.entries@.len() ==> {
                        &&& (nw.1.spec_has(tile.ways.entries@[wi].0@) <==> has_two_necessary(
                            tile.ways.entries@[wi].1.nodes@,
                            *necessary,
                        ))
                        &&& (has_two_necessary(tile.ways.entries@[wi].1.nodes@, *necessary)
                            ==> is_exact_slice(
                            nw.1.spec_get(tile.ways.entries@[wi].0@),
                            tile.ways.entries@[wi].1,
                            *necessary,
                        ))
                    }
                &&& forall|id: Seq<char>|
                    #![trigger nw.0.spec_has(id)]
                    nw.0.spec_has(id) <==> ways_reference(nw.1, id)
            },
            Result::Err(e) => e == TileError::CorruptedTile && crate::contract::spec_dangling_ref(
                tile,
            ),
        },
{
    let mut reduced_nodes: IdMap<Node> = IdMap::new();
    let mut reduced_ways: IdMap<Way> = IdMap::new();
    let mut wi: usize = 0;
    while wi < tile.ways.len()
        invariant
            tile.wf(),
            necessary.wf(),
            0 <= wi <= tile.ways.entries@.len(),
            reduced_nodes.wf(),
            reduced_ways.wf(),
            forall|id: Seq<char>| reduced_nodes.spec_has(id) ==> tile.nodes.spec_has(id),
            forall|id: Seq<char>| reduced_ways.spec_has(id) ==> tile.ways.spec_has(id),
            forall|id: Seq<char>|
                reduced_ways.spec_has(id) ==> exists|wj: int|
                    #![trigger tile.ways.entries@[wj]]
                    0 <= wj < wi && tile.ways.entries@[wj].0@ == id,
            forall|wj: int|
                #![trigger tile.ways.entries@[wj]]
                0 <= wj < wi ==> {
                    &&& (reduced_ways.spec_has(tile.ways.entries@[wj].0@) <==> has_two_necessary(
                        tile.ways.entries@[wj].1.nodes@,
                        *necessary,
                    ))
                    &&& (has_two_necessary(tile.ways.entries@[wj].1.nodes@, *necessary)
                        ==> is_exact_slice(
                        reduced_ways.spec_get(tile.ways.entries@[wj].0@),
                        tile.ways.entries@[wj].1,
                        *necessary,
                    ))
                },
            forall|id: Seq<char>|
                #![trigger reduced_nodes.spec_has(id)]
                reduced_nodes.spec_has(id) <==> ways_reference(reduced_ways, id),
        decreases tile.ways.entries@.len() - wi,
    {
        let way_id = tile.ways.at(wi).0.clone();
        let way = &tile.ways.at(wi).1;
        let ghost rw_before = reduced_ways;
        match way_slice_range(way, necessary) {
            Option::Some((first, last)) => {
                let n_way = way.nodes.len();
                let mut nodes: Vec<String> = Vec::new();
                let mut j: usize = first;
                while j <= last
                    invariant
                        tile.wf(),
                        necessary.wf(),
                        0 <= wi < tile.ways.entries@.len(),
                        way == &tile.ways.entries@[wi as int].1,
                        first <= j <= last + 1,
                        first < last,
                        last < n_way,
                        n_way == way.nodes@.len(),
                        reduced_nodes.wf(),
                        reduced_ways == rw_before,
                        forall|id: Seq<char>|
                            reduced_nodes.spec_has(id) ==> tile.nodes.spec_has(id),
                        nodes@.len() == j - first,
                        forall|k: int|
                            0 <= k < nodes@.len() ==> (#[trigger] nodes@[k]) == way.nodes@[first
                                + k],
                        forall|id: Seq<char>|
                            #![trigger reduced_nodes.spec_has(id)]
                            reduced_nodes.spec_has(id) <==> (ways_reference(reduced_ways, id)
                                || exists|p: int|
                                first <= p < j && (#[trigger] way.nodes@[p])@ == id),
                    decreases last + 1 - j,
                {
                    let node_id = way.nodes[j].clone();
                    match tile.nodes.find(&node_id) {
                        Option::Some(idx) => {
                            let node = tile.nodes.at(idx).1.clone_node();
                            let ghost rn0 = reduced_nodes;
                            reduced_nodes.insert(node_id.clone(), node);
                            proof {
                                assert forall|id: Seq<char>|
                                    #![trigger reduced_nodes.spec_has(id)]
                                    reduced_nodes.spec_has(id) <==> (ways_reference(
                                    reduced_ways,
                                    id,
                                ) || exists|p: int|
                                    first <= p < j + 1 && (#[trigger] way.nodes@[p])@
                                        == id) by {
                                    if id == way.nodes@[j as int]@ {
                                        assert(first <= j < j + 1 && (way.nodes@[j as int])@
                                            == id);
                                    } else {
                                        assert(reduced_nodes.spec_has(id) == rn0.spec_has(id));
                                        if exists|p: int|
                                            first <= p < j + 1 && (#[trigger] way.nodes@[p])@
                                                == id {
                                            let p = choose|p: int|
                                                first <= p < j + 1 && (
                                                #[trigger] way.nodes@[p])@ == id;
                                            assert(p < j);
                                        }
                                    }
                                }
                            }
                        },
                        Option::None => {
                            proof {
                                assert(tile.ways.entries@[wi as int].1.nodes@[j as int]@
                                    == way.nodes@[j as int]@);
                                assert(crate::contract::spec_dangling_ref(tile));
                            }
                            return Result::Err(TileError::CorruptedTile);
                        },
                    }
                    nodes.push(node_id);
                    j = j + 1;
                }
                let new_way = Way::new(
                    way_id.clone(),
                    nodes,
                    Option::None,
                    way.max_speed,
                    way.tags.clone_tags(),
                    clone_strings(&way.undefined_tags),
                );
                proof {
                    assert(tile.ways.entries@[wi as int].0@ == way_id@);
                    let ki = crate::idmap::key_index(tile.ways.entries@, way_id@);
                    assert(0 <= ki < tile.ways.entries@.len() && tile.ways.entries@[ki].0@
                        == way_id@);
                    assert(ki == wi as int);
                    assert(tile.ways.spec_get(way_id@) == tile.ways.entries@[wi as int].1);
                    assert(new_way.nodes@ =~= way.nodes@.subrange(first as int, last + 1));
                    assert(new_way.id@ == tile.ways.entries@[wi as int].1.id@);
                    assert(is_exact_slice(new_way, tile.ways.spec_get(way_id@), *necessary));
                    assert(has_two_necessary(way.nodes@, *necessary)) by {
                        assert(way.nodes@[first as int] == way.nodes@[first as int]
                            && way.nodes@[last as int] == way.nodes@[last as int]);
                    }
                    assert(!reduced_ways.spec_has(way_id@)) by {
                        if reduced_ways.spec_has(way_id@) {
                            let wj = choose|wj: int|
                                #![trigger tile.ways.entries@[wj]]
                                0 <= wj < wi && tile.ways.entries@[wj].0@ == way_id@;
                            assert(tile.ways.entries@[wj].0@ == tile.ways.entries@[wi as int].0@);
                        }
                    }
                }
                reduced_ways.insert(way_id, new_way);
                proof {
                    assert(reduced_ways.spec_get(tile.ways.entries@[wi as int].0@) == new_way);
                    assert forall|id: Seq<char>|
                        reduced_ways.spec_has(id) implies exists|wj: int|
                        #![trigger tile.ways.entries@[wj]]
                        0 <= wj < wi + 1 && tile.ways.entries@[wj].0@ == id by {
                        if id == tile.ways.entries@[wi as int].0@ {
                            assert(0 <= wi < wi + 1 && tile.ways.entries@[wi as int].0@ == id);
                        } else {
                            assert(rw_before.spec_has(id));
                            let wj = choose|wj: int|
                                #![trigger tile.ways.entries@[wj]]
                                0 <= wj < wi && tile.ways.entries@[wj].0@ == id;
                            assert(0 <= wj < wi + 1 && tile.ways.entries@[wj].0@ == id);
                        }
                    }
                    assert forall|id: Seq<char>|
                        #![trigger reduced_nodes.spec_has(id)]
                        reduced_nodes.spec_has(id) <==> ways_reference(reduced_ways, id) by {
                        lemma_ways_reference_push(
                            rw_before,
                            reduced_ways,
                            new_way,
                            id,
                        );
                        if reduced_nodes.spec_has(id) {
                            if !ways_reference(rw_before, id) {
                                let p = choose|p: int|
                                    first <= p < last + 1 && (#[trigger] way.nodes@[p])@ == id;
                                assert(new_way.nodes@[p - first]@ == id);
                                assert(reduced_ways.entries@[rw_before.entries@.len() as int
                                ].1.nodes@[p - first]@ == id);
                            }
                        }
                        if ways_reference(reduced_ways, id) && !ways_reference(rw_before, id) {
                            let (wi2, p) = choose|wi2: int, p: int|
                                #![trigger reduced_ways.entries@[wi2].1.nodes@[p]]
                                0 <= wi2 < reduced_ways.entries@.len() && 0 <= p
                                    < reduced_ways.entries@[wi2].1.nodes@.len()
                                    && reduced_ways.entries@[wi2].1.nodes@[p]@ == id;
                            assert(wi2 == rw_before.entries@.len() as int);
                            assert(new_way.nodes@[p] == way.nodes@[first + p]);
                            assert(first <= first + p < last + 1 && (way.nodes@[first + p])@
                                == id);
                        }
                    }
                }
            },
            Option::None => {
                proof {
                    assert(!has_two_necessary(way.nodes@, *necessary)) by {
                        if has_two_necessary(way.nodes@, *necessary) {
                            let (a, b) = choose|a: int, b: int|
                                #![trigger way.nodes@[a], way.nodes@[b]]
                                0 <= a < b < way.nodes@.len() && necessary.spec_has(
                                    way.nodes@[a]@,
                                ) && necessary.spec_has(way.nodes@[b]@);
                        }
                    }
                    assert(!reduced_ways.spec_has(tile.ways.entries@[wi as int].0@)) by {
                        if reduced_ways.spec_has(tile.ways.entries@[wi as int].0@) {
                            let wj = choose|wj: int|
                                #![trigger tile.ways.entries@[wj]]
                                0 <= wj < wi && tile.ways.entries@[wj].0@ == tile.ways.entries@[
                                wi as int].0@;
                        }
                    }
                }
            },
        }
        wi = wi + 1;
    }
    Result::Ok((reduced_nodes, reduced_ways))
}

/// Appending one way to the map extends exactly by that way's node
/// references.
pub proof fn lemma_ways_reference_push(m0: IdMap<Way>, m1: IdMap<Way>, w: Way, id: Seq<char>)
    requires
        m1.entries@.len() == m0.entries@.len() + 1,
        forall|k: int| 0 <= k < m0.entries@.len() ==> m1.entries@[k] == m0.entries@[k],
        m1.entries@[m0.entries@.len() as int].1 == w,
    ensures
        ways_reference(m1, id) <==> (ways_reference(m0, id) || exists|p: int|
            0 <= p < w.nodes@.len() && (#[trigger] w.nodes@[p])@ == id),
{
    if ways_reference(m0, id) {
        let (wi, p) = choose|wi: int, p: int|
            #![trigger m0.entries@[wi].1.nodes@[p]]
            0 <= wi < m0.entries@.len() && 0 <= p < m0.entries@[wi].1.nodes@.len()
                && m0.entries@[wi].1.nodes@[p]@ == id;
        assert(m1.entries@[wi].1.nodes@[p]@ == id);
    }
    if exists|p: int| 0 <= p < w.nodes@.len() && (#[trigger] w.nodes@[p])@ == id {
        let p = choose|p: int| 0 <= p < w.nodes@.len() && (#[trigger] w.nodes@[p])@ == id;
        assert(m1.entries@[m0.entries@.len() as int].1.nodes@[p]@ == id);
    }
    if ways_reference(m1, id) {
        let (wi, p) = choose|wi: int, p: int|
            #![trigger m1.entries@[wi].1.nodes@[p]]
            0 <= wi < m1.entries@.len() && 0 <= p < m1.entries@[wi].1.nodes@.len()
                && m1.entries@[wi].1.nodes@[p]@ == id;
        if wi < m0.entries@.len() {
            assert(m0.entries@[wi].1.nodes@[p]@ == id);
        } else {
            assert(w.nodes@[p]@ == id);
        }
    }
}

/// A copy of a string list.
pub fn clone_strings(v: &Vec<String>) -> (r: Vec<String>)
    ensures
        r@ == v@,
{
    let mut r: Vec<String> = Vec::new();
    let mut i: usize = 0;
    while i < v.len()
        invariant
            0 <= i <= v@.len(),
            r@ == v@.subrange(0, i as int),
        decreases v@.len() - i,
    {
        r.push(v[i].clone());
        proof {
            assert(r@ =~= v@.subrange(0, i + 1));
        }
        i = i + 1;
    }
    proof {
        assert(r@ =~= v@);
    }
    r
}

/// Whether `g` is exactly the graph of the tile's weighted segments:
/// its nodes are the segments' endpoints, its edges the segments.
pub open spec fn transit_graph_exact(p: &Profile, t: &Tile, wds: &WayDistances, g: Graph) -> bool {
    let segs = spec_tile_segments(*p, *t, *wds, 0);
    &&& g.wf()
    &&& forall|x: Seq<char>|
        #![trigger g.spec_has_node(x)]
        g.spec_has_node(x) <==> exists|k: int|
            0 <= k < segs.len() && ((#[trigger] segs[k]).segment.from@ == x
                || segs[k].segment.to@ == x)
    &&& forall|a: Seq<char>, b: Seq<char>, w: u64|
        #![trigger g.spec_edge_ids(a, b, w)]
        g.spec_edge_ids(a, b, w) <==> exists|k: int|
            0 <= k < segs.len() && ((#[trigger] segs[k]).segment.from@ == a
                && segs[k].segment.to@ == b && segs[k].weight == w)
}

/// Whether `g` contains at least the graph of the tile's weighted
/// segments: all their endpoints labeled, all of them edges. A padded
/// graph also holds the loaded neighbors' segments.
pub open spec fn transit_graph_holds(p: &Profile, t: &Tile, wds: &WayDistances, g: Graph) -> bool {
    let segs = spec_tile_segments(*p, *t, *wds, 0);
    &&& g.wf()
    &&& forall|k: int|
        0 <= k < segs.len() ==> g.spec_has_node((#[trigger] segs[k]).segment.from@)
            && g.spec_has_node(segs[k].segment.to@) && g.spec_edge_ids(
            segs[k].segment.from@,
            segs[k].segment.to@,
            segs[k].weight,
        )
}

/// The properties the boundary-pair extraction guarantees of a
/// necessary-node set `n` over graph `g`: only graph nodes; every
/// boundary node of the tile that the graph labels, as soon as a second
/// one exists; and per ordered pair of distinct labeled boundary nodes,
/// a whole cheapest walk inside `n`, or no walk below `INFINITY`.
pub open spec fn necessary_set_ok(t: &Tile, bounds: &Bbox, g: Graph, n: IdSet) -> bool {
    &&& n.wf()
    &&& forall|id: Seq<char>| n.spec_has(id) ==> g.spec_has_node(id)
    &&& forall|id1: Seq<char>, id2: Seq<char>|
        #![trigger crate::contract::spec_boundary(t, bounds, id1), crate::contract::spec_boundary(t, bounds, id2)]
        (crate::contract::spec_boundary(t, bounds, id1) && crate::contract::spec_boundary(
            t,
            bounds,
            id2,
        ) && id1 != id2 && g.spec_has_node(id1) && g.spec_has_node(id2)) ==> (n.spec_has(id1)
            && (g.set_covers_shortest(g.spec_label(id1), g.spec_label(id2), n)
            || g.walk_minimal(g.spec_label(id1), g.spec_label(id2), INFINITY as int)))
}

/// The output of a transit reduction is determined by its necessary set
/// `n`: a way survives iff two distinct positions of it are necessary,
/// each survivor is exactly its first-to-last necessary span, and the
/// node map holds exactly what the survivors reference.
pub open spec fn reduction_output_ok(t: &Tile, n: IdSet, d: DerivedTile) -> bool {
    &&& forall|wi: int|
        #![trigger t.ways.entries@[wi]]
        0 <= wi < t.ways.entries@.len() ==> {
            &&& (d.ways.spec_has(t.ways.entries@[wi].0@) <==> has_two_necessary(
                t.ways.entries@[wi].1.nodes@,
                n,
            ))
            &&& (has_two_necessary(t.ways.entries@[wi].1.nodes@, n) ==> is_exact_slice(
                d.ways.spec_get(t.ways.entries@[wi].0@),
                t.ways.entries@[wi].1,
                n,
            ))
        }
    &&& forall|id: Seq<char>|
        #![trigger d.nodes.spec_has(id)]
        d.nodes.spec_has(id) <==> ways_reference(d.ways, id)
}

/// Reduces one tile to its transit skeleton: builds the weighted graph
/// of the tile under `profile`, finds the nodes that shortest paths
/// between the tile's boundary nodes visit, and keeps of every way only
/// the span its necessary nodes cover. Fails exactly on a corrupted
/// tile, never on an unreachable boundary pair: there is a necessary
/// set, drawn from the graph of the tile's segments and covering a
/// cheapest walk between every pair of labeled boundary nodes, that
/// determines the output exactly.
pub fn create_transit_tile(
    tile: &Tile,
    bounds: &Bbox,
    profile: &Profile,
    dists: &WayDistances,
) -> (r: Result<DerivedTile, TileError>)
    requires
        tile.wf(),
        profile.wf(),
        dists.spec_matches(tile),
    ensures
        match r {
            Result::Ok(d) => {
                &&& !tile.spec_corrupted(*profile)
                &&& d.wf()
                &&& d.coordinate == tile.coordinate
                &&& forall|id: Seq<char>| d.nodes.spec_has(id) ==> tile.nodes.spec_has(id)
                &&& forall|id: Seq<char>| d.ways.spec_has(id) ==> tile.ways.spec_has(id)
                &&& exists|g: Graph, n: IdSet|
                    {
                        &&& transit_graph_exact(profile, tile, dists, g)
                        &&& #[trigger] necessary_set_ok(tile, bounds, g, n)
                        &&& reduction_output_ok(tile, n, d)
                    }
            },
            Result::Err(e) => e == TileError::CorruptedTile && crate::contract::spec_dangling_ref(
                tile,
            ),
        },
        tile.spec_corrupted(*profile) ==> r is Err,
{
    let segments = match tile.get_weighted_segments(profile, dists) {
        Result::Ok(s) => s,
        Result::Err(e) => {
            proof {
                lemma_corrupted_is_dangling(tile, profile);
            }
            return Result::Err(e);
        },
    };
    let graph = Graph::new(segments);
    let edge_nodes = get_edge_nodes(tile, bounds);
    let necessary = necessary_node_set(&graph, &edge_nodes);
    let (reduced_nodes, reduced_ways) = match reduce_ways(tile, &necessary) {
        Result::Ok(nw) => nw,
        Result::Err(e) => {
            return Result::Err(e);
        },
    };
    proof {
        lemma_boundary_pairs_in_set(tile, bounds, &graph, &edge_nodes, necessary);
        assert(necessary_set_ok(tile, bounds, graph, necessary));
    }
    Result::Ok(DerivedTile::new(tile.coordinate, reduced_nodes, reduced_ways))
}

/// A corrupted tile in particular references a missing node.
proof fn lemma_corrupted_is_dangling(tile: &Tile, profile: &Profile)
    requires
        tile.spec_corrupted(*profile),
    ensures
        crate::contract::spec_dangling_ref(tile),
{
    let (wi, j) = choose|wi: int, j: int|
        #![trigger tile.ways.entries@[wi].1.nodes@[j]]
        {
            &&& 0 <= wi < tile.ways.entries@.len()
            &&& profile.spec_has_access(&tile.ways.entries@[wi].1)
            &&& 0 <= j < tile.ways.entries@[wi].1.nodes@.len()
            &&& !tile.nodes.spec_has(tile.ways.entries@[wi].1.nodes@[j]@)
        };
}

/// Converts the positional guarantees of the boundary-pair extraction
/// into the id-level clauses of [`necessary_set_ok`], given an edge set
/// that holds every boundary node of the tile.
proof fn lemma_boundary_pairs_in_set(
    tile: &Tile,
    bounds: &Bbox,
    graph: &Graph,
    edge_nodes: &IdSet,
    n: IdSet,
)
    requires
        edge_nodes.wf(),
        n.wf(),
        forall|id: Seq<char>|
            crate::contract::spec_boundary(tile, bounds, id) ==> edge_nodes.spec_has(id),
        forall|id: Seq<char>| n.spec_has(id) ==> graph.spec_has_node(id),
        forall|i: int|
            #![trigger edge_nodes.items@[i]]
            (0 <= i < edge_nodes.items@.len() && graph.spec_has_node(edge_nodes.items@[i]@)
                && (exists|j: int|
                0 <= j < edge_nodes.items@.len() && j != i && graph.spec_has_node(
                    (#[trigger] edge_nodes.items@[j])@,
                ))) ==> n.spec_has(edge_nodes.items@[i]@),
        forall|i: int, j: int|
            #![trigger edge_nodes.items@[i], edge_nodes.items@[j]]
            (0 <= i < edge_nodes.items@.len() && 0 <= j < edge_nodes.items@.len() && i != j
                && graph.spec_has_node(edge_nodes.items@[i]@) && graph.spec_has_node(
                edge_nodes.items@[j]@,
            )) ==> (graph.set_covers_shortest(
                graph.spec_label(edge_nodes.items@[i]@),
                graph.spec_label(edge_nodes.items@[j]@),
                n,
            ) || graph.walk_minimal(
                graph.spec_label(edge_nodes.items@[i]@),
                graph.spec_label(edge_nodes.items@[j]@),
                INFINITY as int,
            )),
    ensures
        necessary_set_ok(tile, bounds, *graph, n),
{
    assert forall|id1: Seq<char>, id2: Seq<char>|
        #![trigger crate::contract::spec_boundary(tile, bounds, id1), crate::contract::spec_boundary(tile, bounds, id2)]
        (crate::contract::spec_boundary(tile, bounds, id1) && crate::contract::spec_boundary(
            tile,
            bounds,
            id2,
        ) && id1 != id2 && graph.spec_has_node(id1) && graph.spec_has_node(id2)) implies (
    n.spec_has(id1) && (graph.set_covers_shortest(graph.spec_label(id1), graph.spec_label(id2), n)
        || graph.walk_minimal(
        graph.spec_label(id1),
        graph.spec_label(id2),
        INFINITY as int,
    ))) by {
        assert(edge_nodes.spec_has(id1));
        assert(edge_nodes.spec_has(id2));
        let i = choose|i: int|
            0 <= i < edge_nodes.items@.len() && (#[trigger] edge_nodes.items@[i])@ == id1;
        let j = choose|j: int|
            0 <= j < edge_nodes.items@.len() && (#[trigger] edge_nodes.items@[j])@ == id2;
        assert(i != j);
        assert(graph.spec_has_node(edge_nodes.items@[i]@));
        assert(graph.spec_has_node(edge_nodes.items@[j]@));
        assert(n.spec_has(edge_nodes.items@[i]@));
    }
}

/// Padded transit reduction: like [`create_transit_tile`], but the graph
/// also spans the loaded neighbor tiles and the boundary is the union
/// box of the whole padding ring, so detours leaving and re-entering the
/// tile are still found. Neighbors are best-effort: a corrupted neighbor
/// contributes nothing instead of failing the tile.
pub fn create_indirect_transit_tile(
    tile: &Tile,
    dists: &WayDistances,
    neighbors: &Vec<Tile>,
    neighbor_dists: &Vec<WayDistances>,
    ring_bboxes: &Vec<Bbox>,
    profile: &Profile,
) -> (r: Result<DerivedTile, TileError>)
    requires
        tile.wf(),
        profile.wf(),
        dists.spec_matches(tile),
        neighbors@.len() == neighbor_dists@.len(),
        forall|i: int|
            0 <= i < neighbors@.len() ==> (#[trigger] neighbors@[i]).wf() && neighbor_dists@[
            i].spec_matches(&neighbors@[i]),
        ring_bboxes@.len() >= 1,
    ensures
        match r {
            Result::Ok(d) => {
                &&& !tile.spec_corrupted(*profile)
                &&& d.wf()
                &&& d.coordinate == tile.coordinate
                &&& forall|id: Seq<char>| d.nodes.spec_has(id) ==> tile.nodes.spec_has(id)
                &&& forall|id: Seq<char>| d.ways.spec_has(id) ==> tile.ways.spec_has(id)
                &&& exists|g: Graph, n: IdSet, b: Bbox|
                    {
                        &&& is_union_box(ring_bboxes@, b)
                        &&& transit_graph_holds(profile, tile, dists, g)
                        &&& #[trigger] necessary_set_ok(tile, &b, g, n)
                        &&& reduction_output_ok(tile, n, d)
                    }
            },
            Result::Err(e) => e == TileError::CorruptedTile && crate::contract::spec_dangling_ref(
                tile,
            ),
        },
        tile.spec_corrupted(*profile) ==> r is Err,
{
    let segments = match tile.get_weighted_segments(profile, dists) {
        Result::Ok(s) => s,
        Result::Err(e) => {
            proof {
                lemma_corrupted_is_dangling(tile, profile);
            }
            return Result::Err(e);
        },
    };
    let ghost base_segs = segments@;
    let mut graph = Graph::new(segments);
    proof {
        assert(transit_graph_holds(profile, tile, dists, graph)) by {
            let segs = spec_tile_segments(*profile, *tile, *dists, 0);
            assert forall|k: int|
                0 <= k < segs.len() implies graph.spec_has_node(
                (#[trigger] segs[k]).segment.from@,
            ) && graph.spec_has_node(segs[k].segment.to@) && graph.spec_edge_ids(
                segs[k].segment.from@,
                segs[k].segment.to@,
                segs[k].weight,
            ) by {
                assert(base_segs[k] == segs[k]);
            }
        }
    }

    let mut ni: usize = 0;
    while ni < neighbors.len()
        invariant
            profile.wf(),
            tile.wf(),
            dists.spec_matches(tile),
            graph.wf(),
            transit_graph_holds(profile, tile, dists, graph),
            neighbors@.len() == neighbor_dists@.len(),
            forall|i: int|
                0 <= i < neighbors@.len() ==> (#[trigger] neighbors@[i]).wf() && neighbor_dists@[
                i].spec_matches(&neighbors@[i]),
            0 <= ni <= neighbors@.len(),
        decreases neighbors@.len() - ni,
    {
        let ghost g0 = graph;
        match neighbors[ni].get_weighted_segments(profile, &neighbor_dists[ni]) {
            Result::Ok(s) => {
                graph.add_edges(s);
                proof {
                    assert(transit_graph_holds(profile, tile, dists, graph)) by {
                        let segs = spec_tile_segments(*profile, *tile, *dists, 0);
                        assert forall|k: int|
                            0 <= k < segs.len() implies graph.spec_has_node(
                            (#[trigger] segs[k]).segment.from@,
                        ) && graph.spec_has_node(segs[k].segment.to@) && graph.spec_edge_ids(
                            segs[k].segment.from@,
                            segs[k].segment.to@,
                            segs[k].weight,
                        ) by {
                            assert(g0.spec_has_node(segs[k].segment.from@));
                            assert(g0.spec_has_node(segs[k].segment.to@));
                            assert(g0.spec_edge_ids(
                                segs[k].segment.from@,
                                segs[k].segment.to@,
                                segs[k].weight,
                            ));
                        }
                    }
                }
            },
            Result::Err(_) => {},
        }
        ni = ni + 1;
    }

    let bounds = union_bbox(ring_bboxes);

    let mut edge_nodes = get_edge_nodes(tile, &bounds);
    proof {
        assert forall|id: Seq<char>|
            crate::contract::spec_boundary(tile, &bounds, id) implies edge_nodes.spec_has(
            id,
        ) by {
            let j = choose|j: int|
                0 <= j < tile.nodes.entries@.len() && (#[trigger] tile.nodes.entries@[j]).0@ == id
                    && tile.nodes.entries@[j].1.spec_outside(&bounds);
            assert(tile.nodes.entries@[j].0@ == id && tile.nodes.entries@[j].1.spec_outside(
                &bounds,
            ));
        }
    }
    let mut ni: usize = 0;
    while ni < neighbors.len()
        invariant
            tile.wf(),
            edge_nodes.wf(),
            forall|i: int| 0 <= i < neighbors@.len() ==> (#[trigger] neighbors@[i]).wf(),
            0 <= ni <= neighbors@.len(),
            forall|id: Seq<char>|
                crate::contract::spec_boundary(tile, &bounds, id) ==> edge_nodes.spec_has(id),
        decreases neighbors@.len() - ni,
    {
        let neighbor_edges = get_edge_nodes(&neighbors[ni], &bounds);
        let mut k: usize = 0;
        while k < neighbor_edges.len()
            invariant
                tile.wf(),
                edge_nodes.wf(),
                0 <= k <= neighbor_edges.items@.len(),
                forall|id: Seq<char>|
                    crate::contract::spec_boundary(tile, &bounds, id) ==> edge_nodes.spec_has(id),
            decreases neighbor_edges.items@.len() - k,
        {
            edge_nodes.insert(neighbor_edges.at(k).clone());
            k = k + 1;
        }
        ni = ni + 1;
    }

    let necessary = necessary_node_set(&graph, &edge_nodes);
    let (reduced_nodes, reduced_ways) = match reduce_ways(tile, &necessary) {
        Result::Ok(nw) => nw,
        Result::Err(e) => {
            return Result::Err(e);
        },
    };
    proof {
        lemma_boundary_pairs_in_set(tile, &bounds, &graph, &edge_nodes, necessary);
        assert(necessary_set_ok(tile, &bounds, graph, necessary));
    }
    Result::Ok(DerivedTile::new(tile.coordinate, reduced_nodes, reduced_ways))
}

} // verus!
