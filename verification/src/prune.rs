//! Tag pruning: reducing a tile to the ways a profile can use, each
//! keeping only the tags the profile's rules can ever look at.
use vstd::prelude::*;
use crate::idmap::{IdMap, IdSet};
use crate::node::Node;
use crate::profile::Profile;
use crate::tile::{DerivedTile, Tile, TileError};
use crate::way::Way;

verus! {

/// Whether a pruned way keeps the tag pair: both its key and its value
/// are concepts some rule references, or it is the way's name.
pub open spec fn spec_keep_tag(p: &Profile, k: Seq<char>, v: Seq<char>) -> bool {
    (p.spec_uses_concept(k) && p.spec_uses_concept(v)) || k == "osm:name"@
}

/// Keeps of `tags` exactly the pairs that [`spec_keep_tag`] admits.
fn filter_tags(profile: &Profile, concepts: &IdSet, tags: &IdMap<String>) -> (r: IdMap<String>)
    requires
        concepts.wf(),
        forall|uri: Seq<char>| concepts.spec_has(uri) <==> profile.spec_uses_concept(uri),
        tags.wf(),
    ensures
        r.wf(),
        forall|j: int|
            0 <= j < r.entries@.len() ==> spec_keep_tag(
                profile,
                (#[trigger] r.entries@[j]).0@,
                r.entries@[j].1@,
            ) && exists|j0: int|
                0 <= j0 < tags.entries@.len() && (#[trigger] tags.entries@[j0]).0@
                    == r.entries@[j].0@ && tags.entries@[j0].1@ == r.entries@[j].1@,
        forall|j0: int|
            0 <= j0 < tags.entries@.len() && spec_keep_tag(
                profile,
                (#[trigger] tags.entries@[j0]).0@,
                tags.entries@[j0].1@,
            ) ==> r.spec_has(tags.entries@[j0].0@) && r.spec_get(tags.entries@[j0].0@)@
                == tags.entries@[j0].1@,
{
    let mut r: IdMap<String> = IdMap::new();
    let mut j: usize = 0;
    while j < tags.len()
        invariant
            concepts.wf(),
            forall|uri: Seq<char>| concepts.spec_has(uri) <==> profile.spec_uses_concept(uri),
            tags.wf(),
            0 <= j <= tags.entries@.len(),
            r.wf(),
            forall|j2: int|
                0 <= j2 < r.entries@.len() ==> spec_keep_tag(
                    profile,
                    (#[trigger] r.entries@[j2]).0@,
                    r.entries@[j2].1@,
                ) && exists|j0: int|
                    0 <= j0 < j && (#[trigger] tags.entries@[j0]).0@ == r.entries@[j2].0@
                        && tags.entries@[j0].1@ == r.entries@[j2].1@,
            forall|j0: int|
                0 <= j0 < j && spec_keep_tag(
                    profile,
                    (#[trigger] tags.entries@[j0]).0@,
                    tags.entries@[j0].1@,
                ) ==> r.spec_has(tags.entries@[j0].0@) && r.spec_get(tags.entries@[j0].0@)@
                    == tags.entries@[j0].1@,
        decreases tags.entries@.len() - j,
    {
        let entry = tags.at(j);
        let name_key: String = "osm:name".to_owned();
        let keep = (concepts.contains(&entry.0) && concepts.contains(&entry.1)) || entry.0
            == name_key;
        if keep {
            let ghost r0 = r;
            proof {
                assert(!r.spec_has(entry.0@)) by {
                    if r.spec_has(entry.0@) {
                        let j2 = choose|j2: int|
                            0 <= j2 < r.entries@.len() && r.entries@[j2].0@ == entry.0@;
                        let j0 = choose|j0: int|
                            0 <= j0 < j && (#[trigger] tags.entries@[j0]).0@ == r.entries@[j2].0@
                                && tags.entries@[j0].1@ == r.entries@[j2].1@;
                        assert(tags.entries@[j0].0@ == tags.entries@[j as int].0@);
                    }
                }
            }
            r.insert(entry.0.clone(), entry.1.clone());
            proof {
                assert(r.entries@ == r0.entries@.push((entry.0, entry.1)));
                assert forall|j2: int| 0 <= j2 < r.entries@.len() implies spec_keep_tag(
                    profile,
                    (#[trigger] r.entries@[j2]).0@,
                    r.entries@[j2].1@,
                ) && exists|j0: int|
                    0 <= j0 < j + 1 && (#[trigger] tags.entries@[j0]).0@ == r.entries@[j2].0@
                        && tags.entries@[j0].1@ == r.entries@[j2].1@ by {
                    if j2 < r0.entries@.len() {
                        assert(r.entries@[j2] == r0.entries@[j2]);
                    } else {
                        assert(r.entries@[j2].0@ == tags.entries@[j as int].0@ && r.entries@[
                        j2].1@ == tags.entries@[j as int].1@);
                    }
                }
            }
        }
        j = j + 1;
    }
    r
}

/// How a pruned way relates to its original: same nodes and speed, no
/// distances, no unrecognized tags, and its tag map holds exactly the
/// original pairs the keep-predicate admits.
pub open spec fn pruned_way_ok(p: &Profile, w: Way, w0: Way) -> bool {
    &&& w.id@ == w0.id@
    &&& w.nodes@ == w0.nodes@
    &&& w.max_speed == w0.max_speed
    &&& w.distances is None
    &&& w.undefined_tags@.len() == 0
    &&& forall|j: int|
        0 <= j < w.tags.entries@.len() ==> spec_keep_tag(
            p,
            (#[trigger] w.tags.entries@[j]).0@,
            w.tags.entries@[j].1@,
        ) && exists|j0: int|
            0 <= j0 < w0.tags.entries@.len() && (#[trigger] w0.tags.entries@[j0]).0@
                == w.tags.entries@[j].0@ && w0.tags.entries@[j0].1@ == w.tags.entries@[j].1@
    &&& forall|j0: int|
        0 <= j0 < w0.tags.entries@.len() && spec_keep_tag(
            p,
            (#[trigger] w0.tags.entries@[j0]).0@,
            w0.tags.entries@[j0].1@,
        ) ==> w.tags.spec_has(w0.tags.entries@[j0].0@) && w.tags.spec_get(
            w0.tags.entries@[j0].0@,
        )@ == w0.tags.entries@[j0].1@
}

/// Prunes one tile for one profile: keeps exactly the accessible ways,
/// each with only the tags the profile can reference (plus its name),
/// and exactly the nodes those ways chain. Fails exactly on a corrupted
/// tile.
pub fn create_profile_tile(tile: &Tile, profile: &Profile) -> (r: Result<DerivedTile, TileError>)
    requires
        tile.wf(),
        profile.wf(),
    ensures
        match r {
            Result::Ok(d) => {
                &&& !tile.spec_corrupted(*profile)
                &&& d.wf()
                &&& d.coordinate == tile.coordinate
                &&& forall|id: Seq<char>| d.nodes.spec_has(id) ==> tile.nodes.spec_has(id)
                &&& forall|id: Seq<char>|
                    d.ways.spec_has(id) ==> tile.ways.spec_has(id) && profile.spec_has_access(
                        &tile.ways.spec_get(id),
                    )
                &&& forall|wi: int|
                    #![trigger tile.ways.entries@[wi]]
                    0 <= wi < tile.ways.entries@.len() ==> (d.ways.spec_has(
                        tile.ways.entries@[wi].0@,
                    ) <==> profile.spec_has_access(&tile.ways.entries@[wi].1))
                &&& forall|id: Seq<char>|
                    d.ways.spec_has(id) ==> pruned_way_ok(
                        profile,
                        #[trigger] d.ways.spec_get(id),
                        tile.ways.spec_get(id),
                    )
                &&& forall|id: Seq<char>|
                    #![trigger d.nodes.spec_has(id)]
                    d.nodes.spec_has(id) <==> crate::transit::ways_reference(d.ways, id)
            },
            Result::Err(e) => tile.spec_corrupted(*profile) && e == TileError::CorruptedTile,
        },
{
    let concepts = profile.get_used_concepts();
    let mut reduced_ways: IdMap<Way> = IdMap::new();
    let mut reduced_nodes: IdMap<Node> = IdMap::new();

    let mut wi: usize = 0;
    while wi < tile.ways.len()
        invariant
            tile.wf(),
            profile.wf(),
            concepts.wf(),
            forall|uri: Seq<char>| concepts.spec_has(uri) <==> profile.spec_uses_concept(uri),
            0 <= wi <= tile.ways.entries@.len(),
            reduced_ways.wf(),
            reduced_nodes.wf(),
            forall|id: Seq<char>| reduced_nodes.spec_has(id) ==> tile.nodes.spec_has(id),
            forall|id: Seq<char>|
                reduced_ways.spec_has(id) ==> tile.ways.spec_has(id) && profile.spec_has_access(
                    &tile.ways.spec_get(id),
                ),
            forall|id: Seq<char>|
                reduced_ways.spec_has(id) ==> pruned_way_ok(
                    profile,
                    #[trigger] reduced_ways.spec_get(id),
                    tile.ways.spec_get(id),
                ),
            forall|id: Seq<char>|
                reduced_ways.spec_has(id) ==> exists|wj: int|
                    #![trigger tile.ways.entries@[wj]]
                    0 <= wj < wi && tile.ways.entries@[wj].0@ == id,
            forall|wj: int|
                #![trigger tile.ways.entries@[wj]]
                0 <= wj < wi ==> (reduced_ways.spec_has(tile.ways.entries@[wj].0@)
                    <==> profile.spec_has_access(&tile.ways.entries@[wj].1)),
            forall|id: Seq<char>|
                #![trigger reduced_nodes.spec_has(id)]
                reduced_nodes.spec_has(id) <==> crate::transit::ways_reference(reduced_ways, id),
            forall|wj: int, j: int|
                #![trigger tile.ways.entries@[wj].1.nodes@[j]]
                (0 <= wj < wi && profile.spec_has_access(&tile.ways.entries@[wj].1) && 0 <= j
                    < tile.ways.entries@[wj].1.nodes@.len()) ==> tile.nodes.spec_has(
                    tile.ways.entries@[wj].1.nodes@[j]@,
                ),
        decreases tile.ways.entries@.len() - wi,
    {
        let way_id = tile.ways.at(wi).0.clone();
        let way = &tile.ways.at(wi).1;
        let ghost rw_before = reduced_ways;
        if profile.has_access(way) {
            let mut nj: usize = 0;
            while nj < way.nodes.len()
                invariant
                    tile.wf(),
                    0 <= wi < tile.ways.entries@.len(),
                    way == &tile.ways.entries@[wi as int].1,
                    profile.spec_has_access(way),
                    0 <= nj <= way.nodes@.len(),
                    reduced_nodes.wf(),
                    reduced_ways == rw_before,
                    forall|id: Seq<char>| reduced_nodes.spec_has(id) ==> tile.nodes.spec_has(id),
                    forall|j: int|
                        0 <= j < nj ==> tile.nodes.spec_has((#[trigger] way.nodes@[j])@),
                    forall|id: Seq<char>|
                        #![trigger reduced_nodes.spec_has(id)]
                        reduced_nodes.spec_has(id) <==> (crate::transit::ways_reference(
                            reduced_ways,
                            id,
                        ) || exists|p: int|
                            0 <= p < nj && (#[trigger] way.nodes@[p])@ == id),
                decreases way.nodes@.len() - nj,
            {
                match tile.nodes.find(&way.nodes[nj]) {
                    Option::Some(idx) => {
                        let ghost rn0 = reduced_nodes;
                        reduced_nodes.insert(
                            way.nodes[nj].clone(),
                            tile.nodes.at(idx).1.clone_node(),
                        );
                        proof {
                            assert forall|id: Seq<char>|
                                #![trigger reduced_nodes.spec_has(id)]
                                reduced_nodes.spec_has(id) <==> (crate::transit::ways_reference(
                                reduced_ways,
                                id,
                            ) || exists|p: int|
                                0 <= p < nj + 1 && (#[trigger] way.nodes@[p])@ == id) by {
                                if id == way.nodes@[nj as int]@ {
                                    assert(0 <= nj < nj + 1 && (way.nodes@[nj as int])@ == id);
                                } else {
                                    assert(reduced_nodes.spec_has(id) == rn0.spec_has(id));
                                    if exists|p: int|
                                        0 <= p < nj + 1 && (#[trigger] way.nodes@[p])@ == id {
                                        let p = choose|p: int|
                                            0 <= p < nj + 1 && (#[trigger] way.nodes@[p])@ == id;
                                        assert(p < nj);
                                    }
                                }
                            }
                        }
                    },
                    Option::None => {
                        proof {
                            assert(tile.ways.entries@[wi as int].1.nodes@[nj as int]@
                                == way.nodes@[nj as int]@);
                            assert(tile.spec_corrupted(*profile));
                        }
                        return Result::Err(TileError::CorruptedTile);
                    },
                }
                nj = nj + 1;
            }

            let new_tags = filter_tags(profile, &concepts, &way.tags);
            let new_way = Way::new(
                way_id.clone(),
                crate::transit::clone_strings(&way.nodes),
                Option::None,
                way.max_speed,
                new_tags,
                Vec::new(),
            );
            proof {
                assert(tile.ways.entries@[wi as int].0@ == way_id@);
                let ki = crate::idmap::key_index(tile.ways.entries@, way_id@);
                assert(0 <= ki < tile.ways.entries@.len() && tile.ways.entries@[ki].0@
                    == way_id@);
                assert(ki == wi as int);
                assert(tile.ways.spec_get(way_id@) == tile.ways.entries@[wi as int].1);
                assert(new_way.nodes@ == way.nodes@);
                assert(new_way.id@ == tile.ways.entries@[wi as int].1.id@);
                assert(pruned_way_ok(profile, new_way, tile.ways.spec_get(way_id@)));
                assert(!reduced_ways.spec_has(way_id@)) by {
                    if reduced_ways.spec_has(way_id@) {
                        let wj = choose|wj: int|
                            #![trigger tile.ways.entries@[wj]]
                            0 <= wj < wi && tile.ways.entries@[wj].0@ == way_id@;
                        assert(tile.ways.entries@[wj].0@ == tile.ways.entries@[wi as int].0@);
                    }
                }
            }
            reduced_ways.insert(way_id, new_way);
            proof {
                assert(reduced_ways.spec_get(tile.ways.entries@[wi as int].0@) == new_way);
                assert forall|id: Seq<char>|
                    reduced_ways.spec_has(id) implies exists|wj: int|
                    #![trigger tile.ways.entries@[wj]]
                    0 <= wj < wi + 1 && tile.ways.entries@[wj].0@ == id by {
                    if id == tile.ways.entries@[wi as int].0@ {
                        assert(0 <= wi < wi + 1 && tile.ways.entries@[wi as int].0@ == id);
                    } else {
                        assert(rw_before.spec_has(id));
                        let wj = choose|wj: int|
                            #![trigger tile.ways.entries@[wj]]
                            0 <= wj < wi && tile.ways.entries@[wj].0@ == id;
                        assert(0 <= wj < wi + 1 && tile.ways.entries@[wj].0@ == id);
                    }
                }
                assert forall|id: Seq<char>|
                    #![trigger reduced_nodes.spec_has(id)]
                    reduced_nodes.spec_has(id) <==> crate::transit::ways_reference(
                    reduced_ways,
                    id,
                ) by {
                    crate::transit::lemma_ways_reference_push(
                        rw_before,
                        reduced_ways,
                        new_way,
                        id,
                    );
                    if reduced_nodes.spec_has(id) {
                        if !crate::transit::ways_reference(rw_before, id) {
                            let p = choose|p: int|
                                0 <= p < way.nodes@.len() && (#[trigger] way.nodes@[p])@ == id;
                            assert(new_way.nodes@[p]@ == id);
                        }
                    }
                    if crate::transit::ways_reference(reduced_ways, id)
                        && !crate::transit::ways_reference(rw_before, id) {
                        let p = choose|p: int|
                            0 <= p < new_way.nodes@.len() && (#[trigger] new_way.nodes@[p])@
                                == id;
                        assert(way.nodes@[p]@ == id);
                        assert(0 <= p < way.nodes@.len() && (way.nodes@[p])@ == id);
                    }
                }
            }
        } else {
            proof {
                assert(!reduced_ways.spec_has(tile.ways.entries@[wi as int].0@)) by {
                    if reduced_ways.spec_has(tile.ways.entries@[wi as int].0@) {
                        let wj = choose|wj: int|
                            #![trigger tile.ways.entries@[wj]]
                            0 <= wj < wi && tile.ways.entries@[wj].0@ == tile.ways.entries@[
                            wi as int].0@;
                    }
                }
            }
        }
        wi = wi + 1;
    }

    proof {
        assert(!tile.spec_corrupted(*profile)) by {
            if tile.spec_corrupted(*profile) {
                let (wj, j) = choose|wj: int, j: int|
                    #![trigger tile.ways.entries@[wj].1.nodes@[j]]
                    {
                        &&& 0 <= wj < tile.ways.entries@.len()
                        &&& profile.spec_has_access(&tile.ways.entries@[wj].1)
                        &&& 0 <= j < tile.ways.entries@[wj].1.nodes@.len()
                        &&& !tile.nodes.spec_has(tile.ways.entries@[wj].1.nodes@[j]@)
                    };
            }
        }
    }
    Result::Ok(DerivedTile::new(tile.coordinate, reduced_nodes, reduced_ways))
}

} // verus!
