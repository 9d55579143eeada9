//! Way-chain stitching: reassembling way fragments split across tile
//! boundaries when sibling tiles are merged into a coarser zoom.
use vstd::prelude::*;
use crate::coords::TileCoordinate;
use crate::idmap::{IdMap, IdSet, seq_has_id};
use crate::node::Node;
use crate::tile::{DerivedTile, Tile};
use crate::way::Way;

verus! {

/// The accumulated fragments of one way id: a successor map over node
/// ids, the nodes seen as some fragment's first node, and the nodes seen
/// as some fragment's non-first node.
pub struct WayProxy {
    pub chains: IdMap<String>,
    pub first_candidates: IdSet,
    pub not_first: IdSet,
}

/// Whether the proxy's head candidates minus its non-head nodes leave at
/// most one node: more than one indicates a still-missing connecting
/// fragment.
pub open spec fn at_most_one_head(p: &WayProxy) -> bool {
    forall|i: int, j: int|
        #![trigger p.first_candidates.items@[i], p.first_candidates.items@[j]]
        (0 <= i < j < p.first_candidates.items@.len() && !p.not_first.spec_has(
            p.first_candidates.items@[i]@,
        )) ==> p.not_first.spec_has(p.first_candidates.items@[j]@)
}

impl WayProxy {
    pub open spec fn wf(&self) -> bool {
        &&& self.chains.wf()
        &&& self.first_candidates.wf()
        &&& self.not_first.wf()
    }

    pub fn new() -> (r: WayProxy)
        ensures
            r.wf(),
            r.chains.spec_len() == 0,
            r.first_candidates.spec_len() == 0,
            r.not_first.spec_len() == 0,
    {
        WayProxy {
            chains: IdMap::new(),
            first_candidates: IdSet::new(),
            not_first: IdSet::new(),
        }
    }

    /// Folds one fragment in: every consecutive pair feeds the successor
    /// map, its start joins the head candidates, its end the non-heads.
    pub fn add_way(&mut self, way: &Way)
        requires
            old(self).wf(),
        ensures
            final(self).wf(),
            forall|id: Seq<char>|
                old(self).chains.spec_has(id) ==> final(self).chains.spec_has(id),
            forall|id: Seq<char>|
                old(self).first_candidates.spec_has(id)
                    ==> final(self).first_candidates.spec_has(id),
            forall|id: Seq<char>|
                old(self).not_first.spec_has(id) ==> final(self).not_first.spec_has(id),
            forall|i: int|
                0 <= i < way.nodes@.len() - 1 ==> final(self).first_candidates.spec_has(
                    (#[trigger] way.nodes@[i])@,
                ) && final(self).chains.spec_has(way.nodes@[i]@),
            forall|i: int|
                1 <= i < way.nodes@.len() ==> final(self).not_first.spec_has(
                    (#[trigger] way.nodes@[i])@,
                ),
            forall|id: Seq<char>|
                final(self).first_candidates.spec_has(id)
                    ==> old(self).first_candidates.spec_has(id) || exists|i: int|
                    0 <= i < way.nodes@.len() - 1 && (#[trigger] way.nodes@[i])@ == id,
            forall|id: Seq<char>|
                final(self).not_first.spec_has(id) ==> old(self).not_first.spec_has(id) || exists|
                    i: int,
                |
                    1 <= i < way.nodes@.len() && (#[trigger] way.nodes@[i])@ == id,
            forall|id: Seq<char>|
                final(self).chains.spec_has(id) ==> (old(self).chains.spec_has(id)
                    && final(self).chains.spec_get(id) == old(self).chains.spec_get(id)) || exists|
                    i: int,
                |
                    0 <= i < way.nodes@.len() - 1 && (#[trigger] way.nodes@[i])@ == id
                        && final(self).chains.spec_get(id)@ == way.nodes@[i + 1]@,
            forall|i: int|
                #![trigger way.nodes@[i]]
                (0 <= i < way.nodes@.len() - 1 && (forall|i2: int|
                    i < i2 < way.nodes@.len() - 1 ==> (#[trigger] way.nodes@[i2])@
                        != way.nodes@[i]@)) ==> final(self).chains.spec_get(way.nodes@[i]@)@
                    == way.nodes@[i + 1]@,
            forall|id: Seq<char>|
                (forall|i: int|
                    0 <= i < way.nodes@.len() - 1 ==> (#[trigger] way.nodes@[i])@ != id) ==> (
                final(self).chains.spec_has(id) == old(self).chains.spec_has(id) && (old(
                    self,
                ).chains.spec_has(id) ==> final(self).chains.spec_get(id) == old(
                    self,
                ).chains.spec_get(id))),
    {
        let ghost p0 = *old(self);
        let n_way = way.nodes.len();
        if n_way == 0 {
            return ;
        }
        let mut i: usize = 0;
        while i < n_way - 1
            invariant
                self.wf(),
                n_way == way.nodes@.len(),
                n_way >= 1,
                0 <= i <= n_way - 1,
                forall|id: Seq<char>| p0.chains.spec_has(id) ==> self.chains.spec_has(id),
                forall|id: Seq<char>|
                    p0.first_candidates.spec_has(id) ==> self.first_candidates.spec_has(id),
                forall|id: Seq<char>| p0.not_first.spec_has(id) ==> self.not_first.spec_has(id),
                forall|i2: int|
                    0 <= i2 < i ==> self.first_candidates.spec_has((#[trigger] way.nodes@[i2])@)
                        && self.chains.spec_has(way.nodes@[i2]@),
                forall|i2: int|
                    1 <= i2 < i + 1 && i2 < way.nodes@.len() && i > 0 ==> self.not_first.spec_has(
                        (#[trigger] way.nodes@[i2])@,
                    ),
                forall|id: Seq<char>|
                    self.first_candidates.spec_has(id) ==> p0.first_candidates.spec_has(id)
                        || exists|i2: int|
                        0 <= i2 < i && (#[trigger] way.nodes@[i2])@ == id,
                forall|id: Seq<char>|
                    self.not_first.spec_has(id) ==> p0.not_first.spec_has(id) || exists|i2: int|
                        1 <= i2 < i + 1 && i2 < way.nodes@.len() && (#[trigger] way.nodes@[i2])@
                            == id,
                forall|id: Seq<char>|
                    self.chains.spec_has(id) ==> (p0.chains.spec_has(id) && self.chains.spec_get(
                        id,
                    ) == p0.chains.spec_get(id)) || exists|i2: int|
                        0 <= i2 < i && (#[trigger] way.nodes@[i2])@ == id && self.chains.spec_get(
                            id,
                        )@ == way.nodes@[i2 + 1]@,
                forall|i2: int|
                    #![trigger way.nodes@[i2]]
                    (0 <= i2 < i && (forall|i3: int|
                        i2 < i3 < i ==> (#[trigger] way.nodes@[i3])@ != way.nodes@[i2]@))
                        ==> self.chains.spec_get(way.nodes@[i2]@)@ == way.nodes@[i2 + 1]@,
                forall|id: Seq<char>|
                    (forall|i2: int| 0 <= i2 < i ==> (#[trigger] way.nodes@[i2])@ != id) ==> (
                    self.chains.spec_has(id) == p0.chains.spec_has(id) && (p0.chains.spec_has(id)
                        ==> self.chains.spec_get(id) == p0.chains.spec_get(id))),
            decreases way.nodes@.len() - i,
        {
            let from = way.nodes[i].clone();
            let to = way.nodes[i + 1].clone();
            self.chains.insert(from.clone(), to.clone());
            self.first_candidates.insert(from);
            self.not_first.insert(to);
            proof {
                assert(self.chains.spec_get(way.nodes@[i as int]@)@ == way.nodes@[i + 1]@);
                assert forall|i2: int|
                    #![trigger way.nodes@[i2]]
                    (0 <= i2 < i + 1 && (forall|i3: int|
                        i2 < i3 < i + 1 ==> (#[trigger] way.nodes@[i3])@ != way.nodes@[i2]@))
                        implies self.chains.spec_get(way.nodes@[i2]@)@ == way.nodes@[i2
                    + 1]@ by {
                    if i2 < i {
                        assert(way.nodes@[i as int]@ != way.nodes@[i2]@);
                    }
                }
                assert forall|id: Seq<char>|
                    self.chains.spec_has(id) implies (p0.chains.spec_has(id)
                    && self.chains.spec_get(id) == p0.chains.spec_get(id)) || exists|i2: int|
                    0 <= i2 < i + 1 && (#[trigger] way.nodes@[i2])@ == id && self.chains.spec_get(
                        id,
                    )@ == way.nodes@[i2 + 1]@ by {
                    if id == way.nodes@[i as int]@ {
                        assert(0 <= i < i + 1 && (way.nodes@[i as int])@ == id
                            && self.chains.spec_get(id)@ == way.nodes@[i as int + 1]@);
                    }
                }
            }
            i = i + 1;
        }
    }

    /// Consistency of the accumulated fragments: `Ok` iff the head
    /// candidates minus the non-heads leave at most one node. The error
    /// carries the union of both sets: the nodes implicating missing
    /// fragments.
    pub fn check_integrity(&self) -> (r: Result<(), Vec<String>>)
        requires
            self.wf(),
        ensures
            match r {
                Result::Ok(u) => at_most_one_head(self),
                Result::Err(v) => !at_most_one_head(self) && forall|id: Seq<char>|
                    seq_has_id(v@, id) <==> (self.first_candidates.spec_has(id)
                        || self.not_first.spec_has(id)),
            },
    {
        let mut heads: usize = 0;
        let mut i: usize = 0;
        while i < self.first_candidates.len()
            invariant
                self.wf(),
                0 <= i <= self.first_candidates.items@.len(),
                heads <= i,
                heads >= 1 ==> exists|a: int|
                    0 <= a < i && !self.not_first.spec_has(
                        (#[trigger] self.first_candidates.items@[a])@,
                    ),
                heads >= 2 ==> exists|a: int, b: int|
                    #![trigger self.first_candidates.items@[a], self.first_candidates.items@[b]]
                    0 <= a < b < i && !self.not_first.spec_has(self.first_candidates.items@[a]@)
                        && !self.not_first.spec_has(self.first_candidates.items@[b]@),
                heads == 0 ==> forall|a: int|
                    0 <= a < i ==> self.not_first.spec_has(
                        (#[trigger] self.first_candidates.items@[a])@,
                    ),
                heads == 1 ==> forall|a: int, b: int|
                    #![trigger self.first_candidates.items@[a], self.first_candidates.items@[b]]
                    (0 <= a < b < i && !self.not_first.spec_has(
                        self.first_candidates.items@[a]@,
                    )) ==> self.not_first.spec_has(self.first_candidates.items@[b]@),
            decreases self.first_candidates.items@.len() - i,
        {
            if !self.not_first.contains(self.first_candidates.at(i)) {
                if heads < usize::MAX {
                    heads = heads + 1;
                }
            }
            i = i + 1;
        }
        if heads > 1 {
            let mut union: IdSet = IdSet::new();
            let mut k: usize = 0;
            while k < self.first_candidates.len()
                invariant
                    self.wf(),
                    union.wf(),
                    0 <= k <= self.first_candidates.items@.len(),
                    forall|id: Seq<char>|
                        union.spec_has(id) ==> self.first_candidates.spec_has(id),
                    forall|a: int|
                        0 <= a < k ==> union.spec_has(
                            (#[trigger] self.first_candidates.items@[a])@,
                        ),
                decreases self.first_candidates.items@.len() - k,
            {
                union.insert(self.first_candidates.at(k).clone());
                k = k + 1;
            }
            let mut k: usize = 0;
            while k < self.not_first.len()
                invariant
                    self.wf(),
                    union.wf(),
                    0 <= k <= self.not_first.items@.len(),
                    forall|id: Seq<char>|
                        union.spec_has(id) ==> self.first_candidates.spec_has(id)
                            || self.not_first.spec_has(id),
                    forall|a: int|
                        0 <= a < self.first_candidates.items@.len() ==> union.spec_has(
                            (#[trigger] self.first_candidates.items@[a])@,
                        ),
                    forall|a: int|
                        0 <= a < k ==> union.spec_has((#[trigger] self.not_first.items@[a])@),
                decreases self.not_first.items@.len() - k,
            {
                union.insert(self.not_first.at(k).clone());
                k = k + 1;
            }
            proof {
                assert forall|id: Seq<char>|
                    seq_has_id(union.items@, id) <==> (self.first_candidates.spec_has(id)
                        || self.not_first.spec_has(id)) by {
                    assert(seq_has_id(union.items@, id) == union.spec_has(id));
                    if self.first_candidates.spec_has(id) {
                        let a = choose|a: int|
                            0 <= a < self.first_candidates.items@.len()
                                && self.first_candidates.items@[a]@ == id;
                        assert(union.spec_has(self.first_candidates.items@[a]@));
                    }
                    if self.not_first.spec_has(id) {
                        let a = choose|a: int|
                            0 <= a < self.not_first.items@.len() && self.not_first.items@[a]@
                                == id;
                        assert(union.spec_has(self.not_first.items@[a]@));
                    }
                }
            }
            proof {
                let (a, b) = choose|a: int, b: int|
                    #![trigger self.first_candidates.items@[a], self.first_candidates.items@[b]]
                    0 <= a < b < self.first_candidates.items@.len() && !self.not_first.spec_has(
                        self.first_candidates.items@[a]@,
                    ) && !self.not_first.spec_has(self.first_candidates.items@[b]@);
                assert(!at_most_one_head(self));
            }
            return Result::Err(union.items);
        }
        Result::Ok(())
    }

    /// Reconstructs the chain: starting from the unique head (or the
    /// first candidate for closed chains), repeatedly follows and
    /// consumes successor entries until none remains. Every step of the
    /// result follows the entry successor map; exactly the entries along
    /// the chain are consumed; the head candidates and non-heads are
    /// untouched; the result is empty iff there is no candidate.
    pub fn get_node_ids(&mut self) -> (r: Vec<String>)
        requires
            old(self).wf(),
        ensures
            final(self).wf(),
            final(self).first_candidates == old(self).first_candidates,
            final(self).not_first == old(self).not_first,
            forall|k: int|
                0 <= k < r@.len() - 1 ==> old(self).chains.spec_has((#[trigger] r@[k])@)
                    && old(self).chains.spec_get(r@[k]@)@ == r@[k + 1]@,
            (r@.len() == 0) <==> (old(self).first_candidates.spec_len() == 0),
            r@.len() >= 1 ==> !final(self).chains.spec_has(r@[r@.len() - 1]@),
            r@.len() >= 1 ==> old(self).first_candidates.spec_has(r@[0]@),
            (exists|a: int|
                0 <= a < old(self).first_candidates.items@.len() && !old(self).not_first.spec_has(
                    (#[trigger] old(self).first_candidates.items@[a])@,
                )) ==> (r@.len() >= 1 && !old(self).not_first.spec_has(r@[0]@)),
            (old(self).first_candidates.spec_len() > 0 && (forall|a: int|
                0 <= a < old(self).first_candidates.items@.len() ==> old(self).not_first.spec_has(
                    (#[trigger] old(self).first_candidates.items@[a])@,
                ))) ==> r@[0]@ == old(self).first_candidates.items@[0]@,
            forall|id: Seq<char>|
                #![trigger final(self).chains.spec_has(id)]
                final(self).chains.spec_has(id) <==> (old(self).chains.spec_has(id) && !(exists|
                    p: int,
                |
                    0 <= p < r@.len() - 1 && (#[trigger] r@[p])@ == id)),
            forall|id: Seq<char>|
                final(self).chains.spec_has(id) ==> final(self).chains.spec_get(id) == old(
                    self,
                ).chains.spec_get(id),
    {
        let ghost c0 = self.chains;
        let mut result: Vec<String> = Vec::new();

        let mut start: Option<String> = Option::None;
        let mut i: usize = 0;
        while i < self.first_candidates.len()
            invariant
                self.wf(),
                *self == *old(self),
                0 <= i <= self.first_candidates.items@.len(),
                match start {
                    Option::Some(st) => self.first_candidates.spec_has(st@)
                        && !self.not_first.spec_has(st@),
                    Option::None => forall|a: int|
                        0 <= a < i ==> self.not_first.spec_has(
                            (#[trigger] self.first_candidates.items@[a])@,
                        ),
                },
            decreases self.first_candidates.items@.len() - i,
        {
            if start.is_none() && !self.not_first.contains(self.first_candidates.at(i)) {
                start = Option::Some(self.first_candidates.at(i).clone());
                proof {
                    assert(self.first_candidates.spec_has(
                        self.first_candidates.items@[i as int]@,
                    ));
                }
            }
            i = i + 1;
        }
        let ghost had_head = start is Some;
        let mut current: String = match start {
            Option::Some(st) => st,
            Option::None => {
                if self.first_candidates.len() == 0 {
                    proof {
                        assert forall|id: Seq<char>|
                            #![trigger self.chains.spec_has(id)]
                            self.chains.spec_has(id) implies (c0.spec_has(id) && !(exists|p: int|
                            0 <= p < 0 - 1 && (#[trigger] Seq::<String>::empty()[p])@
                                == id)) by {}
                    }
                    return result;
                }
                self.first_candidates.at(0).clone()
            },
        };

        result.push(current.clone());
        loop
            invariant
                self.wf(),
                self.first_candidates == old(self).first_candidates,
                self.not_first == old(self).not_first,
                result@.len() >= 1,
                result@[result@.len() - 1]@ == current@,
                result@[0]@ == result@[0]@,
                old(self).first_candidates.spec_has(result@[0]@),
                had_head ==> !old(self).not_first.spec_has(result@[0]@),
                !had_head ==> result@[0]@ == old(self).first_candidates.items@[0]@,
                forall|id: Seq<char>|
                    self.chains.spec_has(id) ==> c0.spec_has(id) && self.chains.spec_get(id)
                        == c0.spec_get(id),
                forall|id: Seq<char>|
                    #![trigger self.chains.spec_has(id)]
                    self.chains.spec_has(id) <==> (c0.spec_has(id) && !(exists|p: int|
                        0 <= p < result@.len() - 1 && (#[trigger] result@[p])@ == id)),
                forall|k: int|
                    0 <= k < result@.len() - 1 ==> c0.spec_has((#[trigger] result@[k])@)
                        && c0.spec_get(result@[k]@)@ == result@[k + 1]@,
            ensures
                !self.chains.spec_has(result@[result@.len() - 1]@),
            decreases self.chains.spec_len(),
        {
            let ghost res0 = result@;
            let ghost cur0 = current@;
            let next = match self.chains.remove(&current) {
                Option::Some(n) => n,
                Option::None => {
                    break ;
                },
            };
            result.push(next.clone());
            current = next;
            proof {
                assert forall|id: Seq<char>|
                    #![trigger self.chains.spec_has(id)]
                    self.chains.spec_has(id) <==> (c0.spec_has(id) && !(exists|p: int|
                        0 <= p < result@.len() - 1 && (#[trigger] result@[p])@ == id)) by {
                    if id == cur0 {
                        assert(result@[res0.len() - 1]@ == cur0);
                    } else {
                        if exists|p: int|
                            0 <= p < result@.len() - 1 && (#[trigger] result@[p])@ == id {
                            let p = choose|p: int|
                                0 <= p < result@.len() - 1 && (#[trigger] result@[p])@ == id;
                            assert(p < res0.len() - 1 || p == res0.len() - 1);
                            if p < res0.len() - 1 {
                                assert(res0[p]@ == id);
                            }
                        }
                        if exists|p: int| 0 <= p < res0.len() - 1 && (#[trigger] res0[p])@ == id {
                            let p = choose|p: int|
                                0 <= p < res0.len() - 1 && (#[trigger] res0[p])@ == id;
                            assert(result@[p]@ == id);
                        }
                    }
                }
            }
        }
        result
    }
}

/// Whether some tile of `index` holds a way with this id.
pub open spec fn index_has_way(index: Seq<Tile>, id: Seq<char>) -> bool {
    exists|t: int| 0 <= t < index.len() && (#[trigger] index[t]).ways.spec_has(id)
}

/// Whether some tile of `index` holds a node with this id.
pub open spec fn index_has_node(index: Seq<Tile>, id: Seq<char>) -> bool {
    exists|t: int| 0 <= t < index.len() && (#[trigger] index[t]).nodes.spec_has(id)
}

/// Whether consecutive pair (`a`, `b`) occurs in some fragment of the
/// way with this id held by some tile of the index.
pub open spec fn fragment_pair(index: Seq<Tile>, id: Seq<char>, a: Seq<char>, b: Seq<char>) -> bool {
    exists|t: int, wi: int, p: int|
        #![trigger index[t].ways.entries@[wi].1.nodes@[p]]
        {
            &&& 0 <= t < index.len()
            &&& 0 <= wi < index[t].ways.entries@.len()
            &&& index[t].ways.entries@[wi].0@ == id
            &&& 0 <= p < index[t].ways.entries@[wi].1.nodes@.len() - 1
            &&& index[t].ways.entries@[wi].1.nodes@[p]@ == a
            &&& index[t].ways.entries@[wi].1.nodes@[p + 1]@ == b
        }
}

/// Every consecutive pair of `nodes` occurs in some fragment of the way
/// with this id.
pub open spec fn chain_follows_fragments(index: Seq<Tile>, id: Seq<char>, nodes: Seq<String>) -> bool {
    forall|k: int|
        0 <= k < nodes.len() - 1 ==> fragment_pair(index, id, (#[trigger] nodes[k])@, nodes[k + 1]@)
}

/// Whether `w` carries the metadata of some fragment of the way with
/// this id.
pub open spec fn metadata_from_fragment(index: Seq<Tile>, id: Seq<char>, w: Way) -> bool {
    exists|t: int, wi: int|
        #![trigger index[t].ways.entries@[wi]]
        {
            &&& 0 <= t < index.len()
            &&& 0 <= wi < index[t].ways.entries@.len()
            &&& index[t].ways.entries@[wi].0@ == id
            &&& w.max_speed == index[t].ways.entries@[wi].1.max_speed
            &&& w.tags.entries@ == index[t].ways.entries@[wi].1.tags.entries@
            &&& w.undefined_tags@ == index[t].ways.entries@[wi].1.undefined_tags@
        }
}

/// Whether tile `t` of the index is the one the merge loads: it bears a
/// source coordinate and no earlier tile bears the same coordinate.
pub open spec fn first_tile_at(index: Seq<Tile>, coords: Seq<TileCoordinate>, t: int) -> bool {
    &&& 0 <= t < index.len()
    &&& exists|sc: int| 0 <= sc < coords.len() && index[t].coordinate == (#[trigger] coords[sc])
    &&& forall|t2: int| 0 <= t2 < t ==> (#[trigger] index[t2]).coordinate != index[t].coordinate
}

/// A proxy accumulated from fragments of the way with this id: it has a
/// head candidate, and every successor entry is a consecutive pair of
/// some fragment.
pub open spec fn proxy_from_fragments(index: Seq<Tile>, id: Seq<char>, p: WayProxy) -> bool {
    &&& p.wf()
    &&& p.first_candidates.spec_len() >= 1
    &&& forall|a: Seq<char>|
        #![trigger p.chains.spec_has(a)]
        p.chains.spec_has(a) ==> fragment_pair(index, id, a, p.chains.spec_get(a)@)
}

/// The position of the first tile with the given coordinate, if the
/// index holds one.
pub fn find_tile(index: &Vec<Tile>, coord: &TileCoordinate) -> (r: Option<usize>)
    ensures
        match r {
            Option::Some(t) => t < index@.len() && index@[t as int].coordinate == *coord
                && forall|t2: int| 0 <= t2 < t ==> (#[trigger] index@[t2]).coordinate != *coord,
            Option::None => forall|t2: int|
                0 <= t2 < index@.len() ==> (#[trigger] index@[t2]).coordinate != *coord,
        },
{
    let mut t: usize = 0;
    while t < index.len()
        invariant
            0 <= t <= index@.len(),
            forall|t2: int| 0 <= t2 < t ==> (#[trigger] index@[t2]).coordinate != *coord,
        decreases index@.len() - t,
    {
        if index[t].coordinate == *coord {
            return Option::Some(t);
        }
        t = t + 1;
    }
    Option::None
}

/// Whether `coords` holds `c`.
fn coords_contain(coords: &Vec<TileCoordinate>, c: &TileCoordinate) -> (r: bool)
    ensures
        r == coords@.contains(*c),
{
    let mut t: usize = 0;
    while t < coords.len()
        invariant
            0 <= t <= coords@.len(),
            forall|a: int| 0 <= a < t ==> coords@[a] != *c,
        decreases coords@.len() - t,
    {
        if coords[t] == *c {
            proof {
                assert(coords@[t as int] == *c);
            }
            return true;
        }
        t = t + 1;
    }
    false
}

/// Combines sibling tiles into one tile at `target_coord`, reassembling
/// the ways that tile splitting fragmented. Per way id the fragments of
/// every loaded source tile are folded into a successor map; while the
/// map is inconsistent (more than one head candidate), `locations` maps
/// the implicated nodes to further tile coordinates whose fragments are
/// folded in, best-effort. Every way of a loaded source tile survives
/// with a non-empty chain whose consecutive pairs all occur in fragments
/// of that way, under metadata copied from one fragment; every loaded
/// source tile's nodes are carried over.
pub fn create_merged_tile(
    index: &Vec<Tile>,
    source_coords: &Vec<TileCoordinate>,
    target_coord: TileCoordinate,
    locations: &IdMap<TileCoordinate>,
) -> (r: DerivedTile)
    requires
        forall|t: int| 0 <= t < index@.len() ==> (#[trigger] index@[t]).wf(),
        locations.wf(),
    ensures
        r.wf(),
        r.coordinate == target_coord,
        forall|id: Seq<char>| r.nodes.spec_has(id) ==> index_has_node(index@, id),
        forall|id: Seq<char>| r.ways.spec_has(id) ==> index_has_way(index@, id),
        forall|t: int, e: int|
            #![trigger index@[t].nodes.entries@[e]]
            (first_tile_at(index@, source_coords@, t) && 0 <= e
                < index@[t].nodes.entries@.len()) ==> r.nodes.spec_has(
                index@[t].nodes.entries@[e].0@,
            ),
        forall|t: int, w: int|
            #![trigger index@[t].ways.entries@[w]]
            (first_tile_at(index@, source_coords@, t) && 0 <= w < index@[t].ways.entries@.len())
                ==> r.ways.spec_has(index@[t].ways.entries@[w].0@),
        forall|wi: int|
            #![trigger r.ways.entries@[wi]]
            0 <= wi < r.ways.entries@.len() ==> {
                &&& r.ways.entries@[wi].1.nodes@.len() >= 1
                &&& r.ways.entries@[wi].1.id@ == r.ways.entries@[wi].0@
                &&& r.ways.entries@[wi].1.distances is None
                &&& chain_follows_fragments(
                    index@,
                    r.ways.entries@[wi].0@,
                    r.ways.entries@[wi].1.nodes@,
                )
                &&& metadata_from_fragment(index@, r.ways.entries@[wi].0@, r.ways.entries@[wi].1)
            },
{
    let mut way_proxies: IdMap<WayProxy> = IdMap::new();
    let mut way_examples: IdMap<Way> = IdMap::new();
    let mut all_nodes: IdMap<Node> = IdMap::new();

    let mut sc: usize = 0;
    while sc < source_coords.len()
        invariant
            forall|t: int| 0 <= t < index@.len() ==> (#[trigger] index@[t]).wf(),
            0 <= sc <= source_coords@.len(),
            way_proxies.wf(),
            way_examples.wf(),
            all_nodes.wf(),
            forall|id: Seq<char>| way_proxies.spec_has(id) ==> index_has_way(index@, id),
            forall|id: Seq<char>| way_examples.spec_has(id) ==> index_has_way(index@, id),
            forall|id: Seq<char>| all_nodes.spec_has(id) ==> index_has_node(index@, id),
            forall|id: Seq<char>|
                way_proxies.spec_has(id) ==> proxy_from_fragments(
                    index@,
                    id,
                    #[trigger] way_proxies.spec_get(id),
                ),
            forall|id: Seq<char>|
                way_examples.spec_has(id) ==> metadata_from_fragment(
                    index@,
                    id,
                    #[trigger] way_examples.spec_get(id),
                ),
            forall|id: Seq<char>| way_proxies.spec_has(id) ==> way_examples.spec_has(id),
            forall|t: int, e: int|
                #![trigger index@[t].nodes.entries@[e]]
                (first_tile_prefix(index@, source_coords@, t, sc as int) && 0 <= e
                    < index@[t].nodes.entries@.len()) ==> all_nodes.spec_has(
                    index@[t].nodes.entries@[e].0@,
                ),
            forall|t: int, w: int|
                #![trigger index@[t].ways.entries@[w]]
                (first_tile_prefix(index@, source_coords@, t, sc as int) && 0 <= w
                    < index@[t].ways.entries@.len()) ==> (way_proxies.spec_has(
                    index@[t].ways.entries@[w].0@,
                ) && way_examples.spec_has(index@[t].ways.entries@[w].0@)),
        decreases source_coords@.len() - sc,
    {
        match find_tile(index, &source_coords[sc]) {
            Option::Some(ti) => {
                fold_tile(
                    index,
                    ti,
                    &mut way_proxies,
                    &mut way_examples,
                    &mut all_nodes,
                );
                proof {
                    lemma_first_prefix_step(
                        index@,
                        source_coords@,
                        sc as int,
                        Option::Some(ti as int),
                    );
                }
            },
            Option::None => {
                proof {
                    lemma_first_prefix_step(index@, source_coords@, sc as int, Option::None);
                }
            },
        }
        sc = sc + 1;
    }

    let ghost wp = way_proxies;
    proof {
        assert forall|k: int|
            0 <= k < wp.entries@.len() implies proxy_from_fragments(
            index@,
            (#[trigger] wp.entries@[k]).0@,
            wp.entries@[k].1,
        ) && way_examples.spec_has(wp.entries@[k].0@) by {
            let id = wp.entries@[k].0@;
            assert(wp.entries@[k].0@ == id);
            assert(wp.spec_has(id));
            let ki = crate::idmap::key_index(wp.entries@, id);
            assert(0 <= ki < wp.entries@.len() && wp.entries@[ki].0@ == id);
            assert(ki == k);
            assert(wp.spec_get(id) == wp.entries@[k].1);
        }
    }
    let mut all_ways: IdMap<Way> = IdMap::new();
    let mut entries: Vec<(String, WayProxy)> = way_proxies.entries;
    let ghost e0 = entries@;
    let ghost mut consumed: int = 0;
    while entries.len() > 0
        invariant
            forall|t: int| 0 <= t < index@.len() ==> (#[trigger] index@[t]).wf(),
            locations.wf(),
            all_nodes.wf(),
            all_ways.wf(),
            forall|id: Seq<char>| all_nodes.spec_has(id) ==> index_has_node(index@, id),
            forall|id: Seq<char>| all_ways.spec_has(id) ==> index_has_way(index@, id),
            0 <= consumed <= e0.len(),
            entries@ == e0.subrange(consumed, e0.len() as int),
            crate::idmap::distinct_keys(e0),
            way_examples.wf(),
            forall|id: Seq<char>|
                way_examples.spec_has(id) ==> metadata_from_fragment(
                    index@,
                    id,
                    #[trigger] way_examples.spec_get(id),
                ),
            forall|id: Seq<char>| way_examples.spec_has(id) ==> index_has_way(index@, id),
            forall|k: int|
                0 <= k < e0.len() ==> proxy_from_fragments(
                    index@,
                    (#[trigger] e0[k]).0@,
                    e0[k].1,
                ) && way_examples.spec_has(e0[k].0@),
            forall|p: int| 0 <= p < consumed ==> all_ways.spec_has((#[trigger] e0[p]).0@),
            forall|id: Seq<char>|
                all_ways.spec_has(id) ==> exists|p: int|
                    0 <= p < consumed && (#[trigger] e0[p]).0@ == id,
            forall|wi: int|
                #![trigger all_ways.entries@[wi]]
                0 <= wi < all_ways.entries@.len() ==> {
                    &&& all_ways.entries@[wi].1.nodes@.len() >= 1
                    &&& all_ways.entries@[wi].1.id@ == all_ways.entries@[wi].0@
                    &&& all_ways.entries@[wi].1.distances is None
                    &&& chain_follows_fragments(
                        index@,
                        all_ways.entries@[wi].0@,
                        all_ways.entries@[wi].1.nodes@,
                    )
                    &&& metadata_from_fragment(
                        index@,
                        all_ways.entries@[wi].0@,
                        all_ways.entries@[wi].1,
                    )
                },
            forall|t: int, e: int|
                #![trigger index@[t].nodes.entries@[e]]
                (first_tile_at(index@, source_coords@, t) && 0 <= e
                    < index@[t].nodes.entries@.len()) ==> all_nodes.spec_has(
                    index@[t].nodes.entries@[e].0@,
                ),
        decreases entries@.len(),
    {
        proof {
            assert(entries@[0] == e0[consumed]);
        }
        let (way_id, mut proxy) = entries.remove(0);
        proof {
            assert(entries@ =~= e0.subrange(consumed + 1, e0.len() as int));
            consumed = consumed + 1;
            assert(way_id@ == e0[consumed - 1].0@);
            assert(proxy_from_fragments(index@, way_id@, proxy));
        }

        let mut processed: Vec<TileCoordinate> = Vec::new();
        let mut sc: usize = 0;
        while sc < source_coords.len()
            invariant
                0 <= sc <= source_coords@.len(),
            decreases source_coords@.len() - sc,
        {
            processed.push(source_coords[sc]);
            sc = sc + 1;
        }

        let mut budget: usize = locations.len();
        while budget > 0
            invariant
                forall|t: int| 0 <= t < index@.len() ==> (#[trigger] index@[t]).wf(),
                locations.wf(),
                all_nodes.wf(),
                proxy.wf(),
                proxy_from_fragments(index@, way_id@, proxy),
                forall|id: Seq<char>| all_nodes.spec_has(id) ==> index_has_node(index@, id),
                forall|t: int, e: int|
                    #![trigger index@[t].nodes.entries@[e]]
                    (first_tile_at(index@, source_coords@, t) && 0 <= e
                        < index@[t].nodes.entries@.len()) ==> all_nodes.spec_has(
                        index@[t].nodes.entries@[e].0@,
                    ),
            decreases budget,
        {
            let implicated = match proxy.check_integrity() {
                Result::Ok(_) => {
                    break ;
                },
                Result::Err(nodes) => nodes,
            };

            let mut tile_coords: Vec<TileCoordinate> = Vec::new();
            let mut ni: usize = 0;
            while ni < implicated.len()
                invariant
                    locations.wf(),
                    0 <= ni <= implicated@.len(),
                decreases implicated@.len() - ni,
            {
                match locations.find(&implicated[ni]) {
                    Option::Some(li) => {
                        let coord = locations.at(li).1;
                        if !coords_contain(&processed, &coord) && !coords_contain(
                            &tile_coords,
                            &coord,
                        ) {
                            tile_coords.push(coord);
                        }
                    },
                    Option::None => {},
                }
                ni = ni + 1;
            }
            if tile_coords.len() == 0 {
                break ;
            }

            let mut ci: usize = 0;
            while ci < tile_coords.len()
                invariant
                    forall|t: int| 0 <= t < index@.len() ==> (#[trigger] index@[t]).wf(),
                    0 <= ci <= tile_coords@.len(),
                    all_nodes.wf(),
                    proxy.wf(),
                    proxy_from_fragments(index@, way_id@, proxy),
                    forall|id: Seq<char>| all_nodes.spec_has(id) ==> index_has_node(index@, id),
                    forall|t: int, e: int|
                        #![trigger index@[t].nodes.entries@[e]]
                        (first_tile_at(index@, source_coords@, t) && 0 <= e
                            < index@[t].nodes.entries@.len()) ==> all_nodes.spec_has(
                            index@[t].nodes.entries@[e].0@,
                        ),
                decreases tile_coords@.len() - ci,
            {
                match find_tile(index, &tile_coords[ci]) {
                    Option::Some(ti) => {
                        let tile = &index[ti];
                        match tile.ways.find(&way_id) {
                            Option::Some(wi2) => {
                                let way = &tile.ways.at(wi2).1;
                                let ghost p_before = proxy;
                                proxy.add_way(way);
                                proof {
                                    lemma_fold_keeps_fragments(
                                        index@,
                                        way_id@,
                                        p_before,
                                        proxy,
                                        ti as int,
                                        wi2 as int,
                                    );
                                }
                                let mut nj: usize = 0;
                                while nj < way.nodes.len()
                                    invariant
                                        forall|t: int|
                                            0 <= t < index@.len() ==> (
                                            #[trigger] index@[t]).wf(),
                                        0 <= ti < index@.len(),
                                        tile == &index@[ti as int],
                                        0 <= wi2 < tile.ways.entries@.len(),
                                        way == &tile.ways.entries@[wi2 as int].1,
                                        0 <= nj <= way.nodes@.len(),
                                        all_nodes.wf(),
                                        forall|id: Seq<char>|
                                            all_nodes.spec_has(id) ==> index_has_node(index@, id),
                                        forall|t: int, e: int|
                                            #![trigger index@[t].nodes.entries@[e]]
                                            (first_tile_at(index@, source_coords@, t) && 0 <= e
                                                < index@[t].nodes.entries@.len())
                                                ==> all_nodes.spec_has(
                                                index@[t].nodes.entries@[e].0@,
                                            ),
                                    decreases way.nodes@.len() - nj,
                                {
                                    match tile.nodes.find(&way.nodes[nj]) {
                                        Option::Some(nidx) => {
                                            let node = tile.nodes.at(nidx).1.clone_node();
                                            all_nodes.insert(way.nodes[nj].clone(), node);
                                            proof {
                                                assert(index@[ti as int].nodes.spec_has(
                                                    way.nodes@[nj as int]@,
                                                ));
                                            }
                                        },
                                        Option::None => {},
                                    }
                                    nj = nj + 1;
                                }
                            },
                            Option::None => {},
                        }
                        processed.push(tile_coords[ci]);
                    },
                    Option::None => {
                        processed.push(tile_coords[ci]);
                    },
                }
                ci = ci + 1;
            }
            budget = budget - 1;
        }

        let chain = proxy.get_node_ids();
        proof {
            assert(chain@.len() >= 1) by {
                assert(proxy.first_candidates.spec_len() >= 1);
            }
            assert(way_examples.spec_has(way_id@)) by {
                assert(e0[consumed - 1].0@ == way_id@);
            }
        }
        if chain.len() > 0 {
            match way_examples.find(&way_id) {
                Option::Some(ei) => {
                    let example = &way_examples.at(ei).1;
                    let new_way = Way::new(
                        way_id.clone(),
                        chain,
                        Option::None,
                        example.max_speed,
                        example.tags.clone_tags(),
                        crate::transit::clone_strings(&example.undefined_tags),
                    );
                    proof {
                        assert(metadata_from_fragment(index@, way_id@, *example)) by {
                            assert(way_examples.spec_get(way_id@) == way_examples.entries@[
                            ei as int].1);
                        }
                        assert(metadata_from_fragment(index@, way_id@, new_way)) by {
                            let (t, wi) = choose|t: int, wi: int|
                                #![trigger index@[t].ways.entries@[wi]]
                                {
                                    &&& 0 <= t < index@.len()
                                    &&& 0 <= wi < index@[t].ways.entries@.len()
                                    &&& index@[t].ways.entries@[wi].0@ == way_id@
                                    &&& example.max_speed == index@[t].ways.entries@[
                                    wi].1.max_speed
                                    &&& example.tags.entries@ == index@[t].ways.entries@[
                                    wi].1.tags.entries@
                                    &&& example.undefined_tags@ == index@[t].ways.entries@[
                                    wi].1.undefined_tags@
                                };
                        }
                        assert(chain_follows_fragments(index@, way_id@, new_way.nodes@)) by {
                            assert forall|k: int|
                                0 <= k < new_way.nodes@.len() - 1 implies fragment_pair(
                                index@,
                                way_id@,
                                (#[trigger] new_way.nodes@[k])@,
                                new_way.nodes@[k + 1]@,
                            ) by {
                                assert(proxy_from_fragments(index@, way_id@, proxy));
                            }
                        }
                        assert(!all_ways.spec_has(way_id@)) by {
                            if all_ways.spec_has(way_id@) {
                                let p = choose|p: int|
                                    0 <= p < consumed - 1 + 1 && (#[trigger] e0[p]).0@ == way_id@;
                                assert(e0[p].0@ == e0[consumed - 1].0@);
                            }
                        }
                    }
                    let ghost aw0 = all_ways;
                    all_ways.insert(way_id.clone(), new_way);
                    proof {
                        assert(all_ways.entries@ == aw0.entries@.push((way_id, new_way)));
                        assert forall|id: Seq<char>|
                            all_ways.spec_has(id) implies exists|p: int|
                            0 <= p < consumed && (#[trigger] e0[p]).0@ == id by {
                            if id == way_id@ {
                                assert(e0[consumed - 1].0@ == id);
                            } else {
                                assert(aw0.spec_has(id));
                            }
                        }
                    }
                },
                Option::None => {
                    proof {
                        assert(false);
                    }
                },
            }
        }
    }

    proof {
        assert forall|t: int, w: int|
            #![trigger index@[t].ways.entries@[w]]
            (first_tile_at(index@, source_coords@, t) && 0 <= w
                < index@[t].ways.entries@.len()) implies all_ways.spec_has(
            index@[t].ways.entries@[w].0@,
        ) by {
            assert(first_tile_prefix(index@, source_coords@, t, source_coords@.len() as int));
            assert(wp.spec_has(index@[t].ways.entries@[w].0@));
            let ki = crate::idmap::key_index(wp.entries@, index@[t].ways.entries@[w].0@);
            assert(0 <= ki < e0.len() && e0[ki].0@ == index@[t].ways.entries@[w].0@);
            assert(all_ways.spec_has(e0[ki].0@));
        }
        assert forall|t: int, e: int|
            #![trigger index@[t].nodes.entries@[e]]
            (first_tile_at(index@, source_coords@, t) && 0 <= e
                < index@[t].nodes.entries@.len()) implies all_nodes.spec_has(
            index@[t].nodes.entries@[e].0@,
        ) by {
            assert(first_tile_prefix(index@, source_coords@, t, source_coords@.len() as int));
        }
    }
    DerivedTile::new(target_coord, all_nodes, all_ways)
}

/// Like [`first_tile_at`], restricted to the first `sc` source
/// coordinates.
pub open spec fn first_tile_prefix(
    index: Seq<Tile>,
    coords: Seq<TileCoordinate>,
    t: int,
    sc: int,
) -> bool {
    &&& 0 <= t < index.len()
    &&& exists|sc2: int| 0 <= sc2 < sc && index[t].coordinate == (#[trigger] coords[sc2])
    &&& forall|t2: int| 0 <= t2 < t ==> (#[trigger] index[t2]).coordinate != index[t].coordinate
}

/// One step of the source loop: the tiles loaded among the first
/// `sc + 1` coordinates are those among the first `sc` plus, when the
/// lookup found one, that tile.
proof fn lemma_first_prefix_step(
    index: Seq<Tile>,
    coords: Seq<TileCoordinate>,
    sc: int,
    found: Option<int>,
)
    requires
        0 <= sc < coords.len(),
        match found {
            Option::Some(ti) => 0 <= ti < index.len() && index[ti].coordinate == coords[sc]
                && forall|t2: int| 0 <= t2 < ti ==> (#[trigger] index[t2]).coordinate
                != coords[sc],
            Option::None => forall|t2: int|
                0 <= t2 < index.len() ==> (#[trigger] index[t2]).coordinate != coords[sc],
        },
    ensures
        forall|t: int|
            #![trigger index[t].coordinate]
            first_tile_prefix(index, coords, t, sc + 1) ==> (first_tile_prefix(
                index,
                coords,
                t,
                sc,
            ) || (found matches Option::Some(ti) && t == ti)),
{
    assert forall|t: int|
        #![trigger index[t].coordinate]
        first_tile_prefix(index, coords, t, sc + 1) implies (first_tile_prefix(
        index,
        coords,
        t,
        sc,
    ) || (found matches Option::Some(ti) && t == ti)) by {
        let sc2 = choose|sc2: int| 0 <= sc2 < sc + 1 && index[t].coordinate == (#[trigger] coords[sc2]);
        if sc2 < sc {
            assert(first_tile_prefix(index, coords, t, sc));
        } else {
            match found {
                Option::Some(ti) => {
                    if t < ti {
                        assert(index[t].coordinate != coords[sc]);
                        assert(false);
                    } else if ti < t {
                        assert(index[ti].coordinate != index[t].coordinate);
                        assert(false);
                    }
                },
                Option::None => {
                    assert(index[t].coordinate != coords[sc]);
                    assert(false);
                },
            }
        }
    }
}

/// Folding one more fragment of the same way keeps every successor entry
/// a fragment pair.
proof fn lemma_fold_keeps_fragments(
    index: Seq<Tile>,
    id: Seq<char>,
    before: WayProxy,
    after: WayProxy,
    ti: int,
    wi: int,
)
    requires
        0 <= ti < index.len(),
        0 <= wi < index[ti].ways.entries@.len(),
        index[ti].ways.entries@[wi].0@ == id,
        index[ti].wf(),
        before.wf(),
        after.wf(),
        forall|a: Seq<char>|
            #![trigger before.chains.spec_has(a)]
            before.chains.spec_has(a) ==> fragment_pair(index, id, a, before.chains.spec_get(a)@),
        // What add_way on the fragment guarantees:
        forall|a: Seq<char>|
            after.chains.spec_has(a) ==> (before.chains.spec_has(a) && after.chains.spec_get(a)
                == before.chains.spec_get(a)) || exists|i: int|
                0 <= i < index[ti].ways.entries@[wi].1.nodes@.len() - 1 && (
                #[trigger] index[ti].ways.entries@[wi].1.nodes@[i])@ == a
                    && after.chains.spec_get(a)@ == index[ti].ways.entries@[wi].1.nodes@[i + 1]@,
        index[ti].ways.entries@[wi].1.nodes@.len() >= 2,
        after.first_candidates.spec_has(index[ti].ways.entries@[wi].1.nodes@[0]@),
    ensures
        proxy_from_fragments(index, id, after),
{
    assert(after.first_candidates.spec_len() >= 1) by {
        let a = choose|a: int|
            0 <= a < after.first_candidates.items@.len() && after.first_candidates.items@[a]@
                == index[ti].ways.entries@[wi].1.nodes@[0]@;
    }
    assert forall|a: Seq<char>|
        #![trigger after.chains.spec_has(a)]
        after.chains.spec_has(a) implies fragment_pair(
        index,
        id,
        a,
        after.chains.spec_get(a)@,
    ) by {
        if !(before.chains.spec_has(a) && after.chains.spec_get(a) == before.chains.spec_get(
            a,
        )) {
            let i = choose|i: int|
                0 <= i < index[ti].ways.entries@[wi].1.nodes@.len() - 1 && (
                #[trigger] index[ti].ways.entries@[wi].1.nodes@[i])@ == a
                    && after.chains.spec_get(a)@ == index[ti].ways.entries@[wi].1.nodes@[i + 1]@;
        }
    }
}

/// Folds one tile of the index into the accumulators: all its nodes into
/// the node pool, each of its ways as metadata example and into its id's
/// proxy.
fn fold_tile(
    index: &Vec<Tile>,
    ti: usize,
    way_proxies: &mut IdMap<WayProxy>,
    way_examples: &mut IdMap<Way>,
    all_nodes: &mut IdMap<Node>,
)
    requires
        forall|t: int| 0 <= t < index@.len() ==> (#[trigger] index@[t]).wf(),
        (ti as int) < index@.len(),
        old(way_proxies).wf(),
        old(way_examples).wf(),
        old(all_nodes).wf(),
        forall|id: Seq<char>| old(way_proxies).spec_has(id) ==> index_has_way(index@, id),
        forall|id: Seq<char>| old(way_examples).spec_has(id) ==> index_has_way(index@, id),
        forall|id: Seq<char>| old(all_nodes).spec_has(id) ==> index_has_node(index@, id),
        forall|id: Seq<char>|
            old(way_proxies).spec_has(id) ==> proxy_from_fragments(
                index@,
                id,
                #[trigger] old(way_proxies).spec_get(id),
            ),
        forall|id: Seq<char>|
            old(way_examples).spec_has(id) ==> metadata_from_fragment(
                index@,
                id,
                #[trigger] old(way_examples).spec_get(id),
            ),
    ensures
        final(way_proxies).wf(),
        final(way_examples).wf(),
        final(all_nodes).wf(),
        forall|id: Seq<char>| final(way_proxies).spec_has(id) ==> index_has_way(index@, id),
        forall|id: Seq<char>| final(way_examples).spec_has(id) ==> index_has_way(index@, id),
        forall|id: Seq<char>| final(all_nodes).spec_has(id) ==> index_has_node(index@, id),
        forall|id: Seq<char>|
            final(way_proxies).spec_has(id) ==> proxy_from_fragments(
                index@,
                id,
                #[trigger] final(way_proxies).spec_get(id),
            ),
        forall|id: Seq<char>|
            final(way_examples).spec_has(id) ==> metadata_from_fragment(
                index@,
                id,
                #[trigger] final(way_examples).spec_get(id),
            ),
        forall|id: Seq<char>|
            old(way_proxies).spec_has(id) ==> final(way_proxies).spec_has(id),
        forall|id: Seq<char>|
            old(way_examples).spec_has(id) ==> final(way_examples).spec_has(id),
        forall|id: Seq<char>| old(all_nodes).spec_has(id) ==> final(all_nodes).spec_has(id),
        forall|id: Seq<char>|
            final(way_proxies).spec_has(id) ==> (old(way_proxies).spec_has(id)
                || final(way_examples).spec_has(id)),
        forall|e: int|
            0 <= e < index@[ti as int].nodes.entries@.len() ==> final(all_nodes).spec_has(
                (#[trigger] index@[ti as int].nodes.entries@[e]).0@,
            ),
        forall|w: int|
            0 <= w < index@[ti as int].ways.entries@.len() ==> (final(way_proxies).spec_has(
                (#[trigger] index@[ti as int].ways.entries@[w]).0@,
            ) && final(way_examples).spec_has(index@[ti as int].ways.entries@[w].0@)),
{
    let tile = &index[ti];
    let mut ni: usize = 0;
    while ni < tile.nodes.len()
        invariant
            forall|t: int| 0 <= t < index@.len() ==> (#[trigger] index@[t]).wf(),
            0 <= ti < index@.len(),
            tile == &index@[ti as int],
            0 <= ni <= tile.nodes.entries@.len(),
            all_nodes.wf(),
            forall|id: Seq<char>| all_nodes.spec_has(id) ==> index_has_node(index@, id),
            forall|id: Seq<char>|
                old(all_nodes).spec_has(id) ==> all_nodes.spec_has(id),
            forall|e: int|
                0 <= e < ni ==> all_nodes.spec_has(
                    (#[trigger] index@[ti as int].nodes.entries@[e]).0@,
                ),
        decreases tile.nodes.entries@.len() - ni,
    {
        let entry = tile.nodes.at(ni);
        all_nodes.insert(entry.0.clone(), entry.1.clone_node());
        proof {
            assert(index@[ti as int].nodes.spec_has(tile.nodes.entries@[ni as int].0@));
        }
        ni = ni + 1;
    }

    let mut wi: usize = 0;
    while wi < tile.ways.len()
        invariant
            forall|t: int| 0 <= t < index@.len() ==> (#[trigger] index@[t]).wf(),
            0 <= ti < index@.len(),
            tile == &index@[ti as int],
            0 <= wi <= tile.ways.entries@.len(),
            way_proxies.wf(),
            way_examples.wf(),
            forall|id: Seq<char>| way_proxies.spec_has(id) ==> index_has_way(index@, id),
            forall|id: Seq<char>| way_examples.spec_has(id) ==> index_has_way(index@, id),
            forall|id: Seq<char>|
                way_proxies.spec_has(id) ==> proxy_from_fragments(
                    index@,
                    id,
                    #[trigger] way_proxies.spec_get(id),
                ),
            forall|id: Seq<char>|
                way_examples.spec_has(id) ==> metadata_from_fragment(
                    index@,
                    id,
                    #[trigger] way_examples.spec_get(id),
                ),
            forall|id: Seq<char>|
                old(way_proxies).spec_has(id) ==> way_proxies.spec_has(id),
            forall|id: Seq<char>|
                old(way_examples).spec_has(id) ==> way_examples.spec_has(id),
            forall|id: Seq<char>|
                way_proxies.spec_has(id) ==> (old(way_proxies).spec_has(id)
                    || way_examples.spec_has(id)),
            forall|w: int|
                0 <= w < wi ==> (way_proxies.spec_has(
                    (#[trigger] index@[ti as int].ways.entries@[w]).0@,
                ) && way_examples.spec_has(index@[ti as int].ways.entries@[w].0@)),
        decreases tile.ways.entries@.len() - wi,
    {
        let way_id = tile.ways.at(wi).0.clone();
        let way = &tile.ways.at(wi).1;
        let example = way.clone_way();
        proof {
            assert(index@[ti as int].ways.entries@[wi as int].0@ == way_id@);
            assert(metadata_from_fragment(index@, way_id@, example));
        }
        way_examples.insert(way_id.clone(), example);
        let mut proxy = match way_proxies.remove(&way_id) {
            Option::Some(p) => p,
            Option::None => WayProxy::new(),
        };
        let ghost p_before = proxy;
        proxy.add_way(way);
        proof {
            assert(way.nodes@.len() >= 2);
            assert(proxy.first_candidates.spec_has(way.nodes@[0]@));
            lemma_fold_keeps_fragments(
                index@,
                way_id@,
                p_before,
                proxy,
                ti as int,
                wi as int,
            );
        }
        way_proxies.insert(way_id.clone(), proxy);
        proof {
            assert(index@[ti as int].ways.spec_has(tile.ways.entries@[wi as int].0@));
            assert(way_proxies.spec_get(way_id@) == proxy);
        }
        wi = wi + 1;
    }
}


} // verus!
