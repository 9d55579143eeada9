//! The weighted directed graph over node ids, and its one-to-many
//! shortest-path engine.
//!
//! Each distinct node id gets a dense 0-based label on first sighting;
//! the adjacency list maps a label to its outgoing edges. Labels are
//! never persisted: they are indices into `ids`.
use vstd::prelude::*;
use crate::idmap::{seq_has_id, distinct_ids, id_index, IdSet};
use crate::way::WeightedSegment;
use crate::queue::{queue_entries, queue_new, queue_push, queue_pop_min};

verus! {

/// An id sequence extended by one sighting: unchanged if the id is
/// already present, else the id appended with the next dense label.
pub open spec fn sight_id(ids: Seq<String>, id: String) -> Seq<String> {
    if seq_has_id(ids, id@) {
        ids
    } else {
        ids.push(id)
    }
}

/// The id sequence after sighting the first `k` segments' endpoints in
/// order, source before target.
pub open spec fn sighted_ids(ids: Seq<String>, segments: Seq<crate::way::WeightedSegment>, k: int) -> Seq<
    String,
>
    decreases k,
{
    if k <= 0 || k > segments.len() {
        ids
    } else {
        sight_id(
            sight_id(sighted_ids(ids, segments, k - 1), segments[k - 1].segment.from),
            segments[k - 1].segment.to,
        )
    }
}

/// The total number of edges over all adjacency rows.
pub open spec fn total_edges(adj: Seq<Vec<Edge>>) -> int
    decreases adj.len(),
{
    if adj.len() == 0 {
        0
    } else {
        total_edges(adj.drop_last()) + adj.last()@.len()
    }
}

/// Appending an empty row changes no edge count; pointwise-equal rows
/// have equal counts.
proof fn lemma_total_edges_ext(a1: Seq<Vec<Edge>>, a2: Seq<Vec<Edge>>)
    requires
        a1.len() <= a2.len(),
        forall|i: int| 0 <= i < a1.len() ==> a2[i] == a1[i],
        forall|i: int| a1.len() <= i < a2.len() ==> (#[trigger] a2[i])@.len() == 0,
    ensures
        total_edges(a2) == total_edges(a1),
    decreases a2.len(),
{
    if a2.len() > a1.len() {
        lemma_total_edges_ext(a1, a2.drop_last());
    } else if a2.len() > 0 {
        lemma_total_edges_ext(a1.drop_last(), a2.drop_last());
        assert(a2.last() == a1.last());
    } else {
        assert(total_edges(a2) == 0);
    }
}

/// Extending one row by one edge raises the total by one.
proof fn lemma_total_edges_grow(a1: Seq<Vec<Edge>>, a2: Seq<Vec<Edge>>, i: int)
    requires
        a1.len() == a2.len(),
        0 <= i < a1.len(),
        forall|j: int| 0 <= j < a1.len() && j != i ==> a2[j] == a1[j],
        a2[i]@.len() == a1[i]@.len() + 1,
    ensures
        total_edges(a2) == total_edges(a1) + 1,
    decreases a1.len(),
{
    if i == a1.len() - 1 {
        assert(a2.drop_last() =~= a1.drop_last());
        lemma_total_edges_ext(a1.drop_last(), a2.drop_last());
    } else {
        lemma_total_edges_grow(a1.drop_last(), a2.drop_last(), i);
        assert(a2.last() == a1.last());
    }
}

/// An outgoing edge: the target label and the strictly positive cost.
pub struct Edge {
    pub cost: u64,
    pub node: usize,
}

/// The graph: `ids[l]` is the node id labeled `l`, `adj_list[l]` its
/// outgoing edges.
pub struct Graph {
    pub ids: Vec<String>,
    pub adj_list: Vec<Vec<Edge>>,
}

impl Graph {
    /// The number of labeled nodes.
    pub open spec fn n(&self) -> int {
        self.ids@.len() as int
    }

    /// Labels are dense, ids distinct, every edge target in range and
    /// every cost strictly positive.
    pub open spec fn wf(&self) -> bool {
        &&& distinct_ids(self.ids@)
        &&& self.adj_list@.len() == self.ids@.len()
        &&& forall|i: int, j: int|
            0 <= i < self.adj_list@.len() && 0 <= j < self.adj_list@[i]@.len() ==> ((
            #[trigger] self.adj_list@[i]@[j]).node < self.ids@.len() && self.adj_list@[i]@[j].cost
                >= 1)
    }

    /// Whether a node with id contents `id` is labeled.
    pub open spec fn spec_has_node(&self, id: Seq<char>) -> bool {
        seq_has_id(self.ids@, id)
    }

    /// The label of the node with id contents `id`.
    pub open spec fn spec_label(&self, id: Seq<char>) -> int {
        id_index(self.ids@, id)
    }

    /// Whether an edge from label `u` to label `v` of cost `w` exists.
    pub open spec fn spec_edge(&self, u: int, v: int, w: u64) -> bool {
        &&& 0 <= u < self.adj_list@.len()
        &&& exists|j: int|
            0 <= j < self.adj_list@[u]@.len() && (#[trigger] self.adj_list@[u]@[j]).node == v
                && self.adj_list@[u]@[j].cost == w
    }

    /// Whether an edge between the nodes with these id contents exists.
    pub open spec fn spec_edge_ids(&self, a: Seq<char>, b: Seq<char>, w: u64) -> bool {
        exists|u: int, v: int|
            {
                &&& 0 <= u < self.ids@.len()
                &&& 0 <= v < self.ids@.len()
                &&& (#[trigger] self.ids@[u])@ == a
                &&& (#[trigger] self.ids@[v])@ == b
                &&& self.spec_edge(u, v, w)
            }
    }

    /// Builds a graph holding exactly the given weighted segments: each
    /// distinct endpoint labeled once in first-sighting order, and one
    /// edge per input segment.
    pub fn new(segments: Vec<WeightedSegment>) -> (r: Graph)
        requires
            forall|k: int| 0 <= k < segments@.len() ==> (#[trigger] segments@[k]).weight >= 1,
        ensures
            r.wf(),
            forall|x: Seq<char>|
                r.spec_has_node(x) <==> exists|k: int|
                    0 <= k < segments@.len() && ((#[trigger] segments@[k]).segment.from@ == x
                        || segments@[k].segment.to@ == x),
            forall|a: Seq<char>, b: Seq<char>, w: u64|
                r.spec_edge_ids(a, b, w) <==> exists|k: int|
                    0 <= k < segments@.len() && ((#[trigger] segments@[k]).segment.from@ == a
                        && segments@[k].segment.to@ == b && segments@[k].weight == w),
            r.ids@ == sighted_ids(Seq::<String>::empty(), segments@, segments@.len() as int),
            total_edges(r.adj_list@) == segments@.len(),
    {
        let mut graph = Graph { ids: Vec::new(), adj_list: Vec::new() };
        proof {
            assert(total_edges(graph.adj_list@) == 0);
        }
        graph.add_edges(segments);
        graph
    }

    /// Labels `id`, assigning the next dense label on first sighting.
    pub fn get_label_mut(&mut self, id: &String) -> (r: usize)
        requires
            old(self).wf(),
        ensures
            final(self).wf(),
            r < final(self).ids@.len(),
            final(self).ids@[r as int]@ == id@,
            old(self).spec_has_node(id@) ==> *final(self) == *old(self),
            !old(self).spec_has_node(id@) ==> {
                &&& final(self).ids@ == old(self).ids@.push(*id)
                &&& r == old(self).ids@.len()
                &&& final(self).adj_list@.len() == old(self).adj_list@.len() + 1
                &&& forall|i: int|
                    0 <= i < old(self).adj_list@.len() ==> final(self).adj_list@[i] == old(
                        self,
                    ).adj_list@[i]
                &&& final(self).adj_list@[old(self).adj_list@.len() as int]@.len() == 0
            },
    {
        let mut i: usize = 0;
        while i < self.ids.len()
            invariant
                *self == *old(self),
                old(self).wf(),
                0 <= i <= self.ids@.len(),
                forall|j: int| 0 <= j < i ==> self.ids@[j]@ != id@,
            decreases self.ids@.len() - i,
        {
            if self.ids[i] == *id {
                return i;
            }
            i = i + 1;
        }
        let result = self.adj_list.len();
        self.ids.push(id.clone());
        self.adj_list.push(Vec::new());
        result
    }

    /// The label of `id`, if `id` has been sighted.
    pub fn get_label(&self, id: &String) -> (r: Option<usize>)
        requires
            self.wf(),
        ensures
            match r {
                Option::Some(l) => l < self.ids@.len() && self.ids@[l as int]@ == id@
                    && self.spec_has_node(id@) && l == self.spec_label(id@),
                Option::None => !self.spec_has_node(id@),
            },
    {
        let mut i: usize = 0;
        while i < self.ids.len()
            invariant
                self.wf(),
                0 <= i <= self.ids@.len(),
                forall|j: int| 0 <= j < i ==> self.ids@[j]@ != id@,
            decreases self.ids@.len() - i,
        {
            if self.ids[i] == *id {
                proof {
                    let k = id_index(self.ids@, id@);
                    assert(0 <= k < self.ids@.len() && self.ids@[k]@ == id@);
                    assert(k == i as int);
                }
                return Some(i);
            }
            i = i + 1;
        }
        None
    }

    /// Adds one directed edge per segment, labeling unseen endpoints:
    /// afterwards the graph holds exactly its old nodes and edges plus
    /// the segments' endpoints and edges.
    pub fn add_edges(&mut self, segments: Vec<WeightedSegment>)
        requires
            old(self).wf(),
            forall|k: int| 0 <= k < segments@.len() ==> (#[trigger] segments@[k]).weight >= 1,
        ensures
            final(self).wf(),
            forall|x: Seq<char>| #![trigger final(self).spec_has_node(x)]
                final(self).spec_has_node(x) <==> old(self).spec_has_node(x) || exists|k: int|
                    0 <= k < segments@.len() && ((#[trigger] segments@[k]).segment.from@ == x
                        || segments@[k].segment.to@ == x),
            forall|a: Seq<char>, b: Seq<char>, w: u64| #![trigger final(self).spec_edge_ids(a, b, w)]
                final(self).spec_edge_ids(a, b, w) <==> old(self).spec_edge_ids(a, b, w) || exists|
                    k: int,
                |
                    0 <= k < segments@.len() && ((#[trigger] segments@[k]).segment.from@ == a
                        && segments@[k].segment.to@ == b && segments@[k].weight == w),
            final(self).ids@.len() >= old(self).ids@.len(),
            forall|i: int|
                0 <= i < old(self).ids@.len() ==> final(self).ids@[i] == old(self).ids@[i],
            final(self).ids@ == sighted_ids(old(self).ids@, segments@, segments@.len() as int),
            total_edges(final(self).adj_list@) == total_edges(old(self).adj_list@)
                + segments@.len(),
    {
        let ghost g0 = *old(self);
        let mut k: usize = 0;
        while k < segments.len()
            invariant
                self.wf(),
                g0.wf(),
                forall|k2: int|
                    0 <= k2 < segments@.len() ==> (#[trigger] segments@[k2]).weight >= 1,
                0 <= k <= segments@.len(),
                self.ids@.len() >= g0.ids@.len(),
                forall|i: int| 0 <= i < g0.ids@.len() ==> self.ids@[i] == g0.ids@[i],
                forall|x: Seq<char>| #![trigger self.spec_has_node(x)]
                    self.spec_has_node(x) <==> g0.spec_has_node(x) || exists|k2: int|
                        0 <= k2 < k && ((#[trigger] segments@[k2]).segment.from@ == x
                            || segments@[k2].segment.to@ == x),
                forall|a: Seq<char>, b: Seq<char>, w: u64| #![trigger self.spec_edge_ids(a, b, w)]
                    self.spec_edge_ids(a, b, w) <==> g0.spec_edge_ids(a, b, w) || exists|k2: int|
                        0 <= k2 < k && ((#[trigger] segments@[k2]).segment.from@ == a
                            && segments@[k2].segment.to@ == b && segments@[k2].weight == w),
                self.ids@ == sighted_ids(g0.ids@, segments@, k as int),
                total_edges(self.adj_list@) == total_edges(g0.adj_list@) + k,
            decreases segments@.len() - k,
        {
            let ghost before = *self;
            let from_label = self.get_label_mut(&segments[k].segment.from);
            let ghost mid1 = *self;
            let to_label = self.get_label_mut(&segments[k].segment.to);
            let ghost mid2 = *self;
            proof {
                lemma_grow_preserves_edges(before, mid1);
                lemma_grow_preserves_edges(mid1, mid2);
            }
            proof {
                assert(mid1.ids@ == sight_id(before.ids@, segments@[k as int].segment.from)) by {
                    if before.spec_has_node(segments@[k as int].segment.from@) {
                    } else {
                        assert(mid1.ids@ =~= before.ids@.push(segments@[k as int].segment.from));
                    }
                }
                assert(mid2.ids@ == sight_id(mid1.ids@, segments@[k as int].segment.to)) by {
                    if mid1.spec_has_node(segments@[k as int].segment.to@) {
                    } else {
                        assert(mid2.ids@ =~= mid1.ids@.push(segments@[k as int].segment.to));
                    }
                }
                lemma_total_edges_ext(before.adj_list@, mid1.adj_list@);
                lemma_total_edges_ext(mid1.adj_list@, mid2.adj_list@);
            }
            let weight = segments[k].weight;
            let edge = Edge { node: to_label, cost: weight };
            self.adj_list[from_label].push(edge);
            proof {
                lemma_total_edges_grow(mid2.adj_list@, self.adj_list@, from_label as int);
                assert(self.ids@ == sighted_ids(g0.ids@, segments@, k + 1));
                let fromv = segments@[k as int].segment.from@;
                let tov = segments@[k as int].segment.to@;
                lemma_push_edge(mid2, *self, from_label, to_label, weight);
                lemma_id_set_extend(before.ids@, mid1.ids@, fromv);
                lemma_id_set_extend(mid1.ids@, mid2.ids@, tov);
                assert(mid1.ids@[from_label as int]@ == fromv);
                assert(mid2.ids@[to_label as int]@ == tov);
                assert(mid1.spec_has_node(fromv));
                assert(mid2.spec_has_node(tov));
                assert(self.ids@ == mid2.ids@);
                assert forall|x: Seq<char>|
                    self.spec_has_node(x) <==> (before.spec_has_node(x) || x == fromv || x
                        == tov) by {}
                assert forall|x: Seq<char>| #![trigger self.spec_has_node(x)]
                    self.spec_has_node(x) <==> g0.spec_has_node(x) || exists|k2: int|
                        0 <= k2 < k + 1 && ((#[trigger] segments@[k2]).segment.from@ == x
                            || segments@[k2].segment.to@ == x) by {
                    if self.spec_has_node(x) {
                        if before.spec_has_node(x) {
                            if !g0.spec_has_node(x) {
                                let k2 = choose|k2: int|
                                    0 <= k2 < k && ((#[trigger] segments@[k2]).segment.from@ == x
                                        || segments@[k2].segment.to@ == x);
                                assert(0 <= k2 < k + 1 && ((segments@[k2]).segment.from@ == x
                                    || segments@[k2].segment.to@ == x));
                            }
                        } else {
                            assert(x == fromv || x == tov);
                            assert(0 <= k < k + 1 && ((segments@[k as int]).segment.from@ == x
                                || segments@[k as int].segment.to@ == x));
                        }
                    }
                    if g0.spec_has_node(x) {
                        assert(before.spec_has_node(x));
                        assert(self.spec_has_node(x));
                    }
                    if exists|k2: int|
                        0 <= k2 < k + 1 && ((#[trigger] segments@[k2]).segment.from@ == x
                            || segments@[k2].segment.to@ == x) {
                        let k2 = choose|k2: int|
                            0 <= k2 < k + 1 && ((#[trigger] segments@[k2]).segment.from@ == x
                                || segments@[k2].segment.to@ == x);
                        if k2 < k {
                            assert(exists|k3: int|
                                0 <= k3 < k && ((#[trigger] segments@[k3]).segment.from@ == x
                                    || segments@[k3].segment.to@ == x));
                            assert(before.spec_has_node(x));
                            assert(self.spec_has_node(x));
                        } else {
                            assert(x == fromv || x == tov);
                            assert(self.spec_has_node(x));
                        }
                    }
                }
                assert forall|a: Seq<char>, b: Seq<char>, w: u64| #![trigger self.spec_edge_ids(a, b, w)]
                    self.spec_edge_ids(a, b, w) <==> g0.spec_edge_ids(a, b, w) || exists|k2: int|
                        0 <= k2 < k + 1 && ((#[trigger] segments@[k2]).segment.from@ == a
                            && segments@[k2].segment.to@ == b && segments@[k2].weight == w) by {
                    if self.spec_edge_ids(a, b, w) {
                        if mid2.spec_edge_ids(a, b, w) {
                            assert(before.spec_edge_ids(a, b, w));
                            if !g0.spec_edge_ids(a, b, w) {
                                let k2 = choose|k2: int|
                                    0 <= k2 < k && ((#[trigger] segments@[k2]).segment.from@ == a
                                        && segments@[k2].segment.to@ == b && segments@[k2].weight
                                        == w);
                                assert(0 <= k2 < k + 1 && ((segments@[k2]).segment.from@ == a
                                    && segments@[k2].segment.to@ == b && segments@[k2].weight
                                    == w));
                            }
                        } else {
                            assert(a == mid2.ids@[from_label as int]@ && b == mid2.ids@[to_label as int]@
                                && w == weight);
                            assert(0 <= k < k + 1 && ((segments@[k as int]).segment.from@ == a
                                && segments@[k as int].segment.to@ == b
                                && segments@[k as int].weight == w));
                        }
                    }
                    if g0.spec_edge_ids(a, b, w) {
                        assert(before.spec_edge_ids(a, b, w));
                        assert(mid2.spec_edge_ids(a, b, w));
                        assert(self.spec_edge_ids(a, b, w));
                    }
                    if exists|k2: int|
                        0 <= k2 < k + 1 && ((#[trigger] segments@[k2]).segment.from@ == a
                            && segments@[k2].segment.to@ == b && segments@[k2].weight == w) {
                        let k2 = choose|k2: int|
                            0 <= k2 < k + 1 && ((#[trigger] segments@[k2]).segment.from@ == a
                                && segments@[k2].segment.to@ == b && segments@[k2].weight == w);
                        if k2 < k {
                            assert(exists|k3: int|
                                0 <= k3 < k && ((#[trigger] segments@[k3]).segment.from@ == a
                                    && segments@[k3].segment.to@ == b && segments@[k3].weight
                                    == w));
                            assert(before.spec_edge_ids(a, b, w));
                            assert(mid2.spec_edge_ids(a, b, w));
                        } else {
                            assert(a == fromv && b == tov && w == weight);
                            assert(a == mid2.ids@[from_label as int]@);
                            assert(b == mid2.ids@[to_label as int]@);
                            assert(self.spec_edge_ids(a, b, w));
                        }
                    }
                }
            }
            k = k + 1;
        }
    }
}

/// The sentinel distance of a node the search has not reached.
pub const INFINITY: u64 = u64::MAX;

/// The sum of a distance array, for the termination measure of the
/// search: every relaxation strictly lowers it.
pub open spec fn sum_dist(s: Seq<u64>) -> int
    decreases s.len(),
{
    if s.len() == 0 {
        0
    } else {
        sum_dist(s.drop_last()) + s.last()
    }
}

proof fn lemma_sum_dist_nonneg(s: Seq<u64>)
    ensures
        sum_dist(s) >= 0,
    decreases s.len(),
{
    if s.len() > 0 {
        lemma_sum_dist_nonneg(s.drop_last());
    }
}

proof fn lemma_sum_dist_update(s: Seq<u64>, i: int, v: u64)
    requires
        0 <= i < s.len(),
    ensures
        sum_dist(s.update(i, v)) == sum_dist(s) - s[i] + v,
    decreases s.len(),
{
    let s2 = s.update(i, v);
    if i == s.len() - 1 {
        assert(s2.drop_last() =~= s.drop_last());
    } else {
        assert(s2.drop_last() =~= s.drop_last().update(i, v));
        lemma_sum_dist_update(s.drop_last(), i, v);
    }
}

/// How many entries of `s` are still false: the targets not yet settled.
pub open spec fn count_false(s: Seq<bool>) -> int
    decreases s.len(),
{
    if s.len() == 0 {
        0
    } else {
        count_false(s.drop_last()) + (if s.last() {
            0int
        } else {
            1int
        })
    }
}

proof fn lemma_count_false_nonneg(s: Seq<bool>)
    ensures
        count_false(s) >= 0,
    decreases s.len(),
{
    if s.len() > 0 {
        lemma_count_false_nonneg(s.drop_last());
    }
}

proof fn lemma_count_false_update_true(s: Seq<bool>, i: int)
    requires
        0 <= i < s.len(),
        !s[i],
    ensures
        count_false(s.update(i, true)) == count_false(s) - 1,
    decreases s.len(),
{
    let s2 = s.update(i, true);
    if i == s.len() - 1 {
        assert(s2.drop_last() =~= s.drop_last());
    } else {
        assert(s2.drop_last() =~= s.drop_last().update(i, true));
        lemma_count_false_update_true(s.drop_last(), i);
    }
    lemma_count_false_nonneg(s.drop_last());
}

impl Graph {
    /// A walk through the graph: `nodes` visits `weights.len() + 1`
    /// labels, each step along an edge of the stated weight.
    pub open spec fn valid_walk(&self, nodes: Seq<int>, weights: Seq<u64>, from: int, to: int) -> bool {
        &&& nodes.len() == weights.len() + 1
        &&& nodes[0] == from
        &&& nodes[nodes.len() - 1] == to
        &&& 0 <= to < self.n()
        &&& forall|i: int|
            0 <= i < weights.len() ==> 0 <= #[trigger] nodes[i] < self.n() && self.spec_edge(
                nodes[i],
                nodes[i + 1],
                weights[i],
            )
    }

    /// Some walk from `from` to `to` costs exactly `c`.
    pub open spec fn has_walk(&self, from: int, to: int, c: int) -> bool {
        exists|nodes: Seq<int>, weights: Seq<u64>|
            self.valid_walk(nodes, weights, from, to) && sum_dist(weights) == c
    }

    /// Every walk from `from` to `to` costs at least `d`: `d` is a lower
    /// bound on the true shortest-path distance.
    pub open spec fn walk_minimal(&self, from: int, to: int, d: int) -> bool {
        forall|nodes: Seq<int>, weights: Seq<u64>|
            #![trigger self.valid_walk(nodes, weights, from, to)]
            self.valid_walk(nodes, weights, from, to) ==> sum_dist(weights) >= d
    }

    /// The set `s` holds the id of every node of some cheapest walk from
    /// `from` to `to`: a shortest path between the two survives in `s`
    /// whole.
    pub open spec fn set_covers_shortest(&self, from: int, to: int, s: IdSet) -> bool {
        exists|nodes: Seq<int>, weights: Seq<u64>|
            {
                &&& #[trigger] self.valid_walk(nodes, weights, from, to)
                &&& self.walk_minimal(from, to, sum_dist(weights))
                &&& forall|p: int| 0 <= p < nodes.len() ==> s.spec_has(self.ids@[nodes[p]]@)
            }
    }

    /// Every edge out of a settled node has been relaxed: its target is
    /// already at least as close, unless the sum leaves the integer
    /// range.
    pub open spec fn all_relaxed(&self, settled: Set<int>, dist: Seq<u64>) -> bool {
        forall|u: int, v: int, w: u64|
            #![trigger settled.contains(u), self.spec_edge(u, v, w)]
            settled.contains(u) && self.spec_edge(u, v, w) && 0 <= v < self.n() ==> (dist[u] + w
                >= INFINITY || dist[v] <= dist[u] + w)
    }

    /// Every reached node is settled or still queued.
    pub open spec fn reached_covered(&self, settled: Set<int>, q: Map<usize, u64>, dist: Seq<u64>) -> bool {
        forall|v: int|
            0 <= v < self.n() && #[trigger] dist[v] != INFINITY ==> settled.contains(v)
                || q.dom().contains(v as usize)
    }

    /// Every settled node is in range and reached.
    pub open spec fn settled_reached(&self, settled: Set<int>, dist: Seq<u64>) -> bool {
        forall|u: int|
            #[trigger] settled.contains(u) ==> 0 <= u < self.n() && dist[u] != INFINITY
    }

    /// Settled distances are final: no walk beats them.
    pub open spec fn settled_minimal(&self, from: int, settled: Set<int>, dist: Seq<u64>) -> bool {
        forall|u: int, nodes: Seq<int>, weights: Seq<u64>|
            #![trigger settled.contains(u), self.valid_walk(nodes, weights, from, u)]
            settled.contains(u) && self.valid_walk(nodes, weights, from, u) ==> sum_dist(weights)
                >= dist[u]
    }

    /// Every reached node's distance is the cost of some actual walk.
    pub open spec fn reached_sound(&self, from: int, dist: Seq<u64>) -> bool {
        forall|v: int|
            0 <= v < self.n() && #[trigger] dist[v] != INFINITY ==> self.has_walk(
                from,
                v,
                dist[v] as int,
            )
    }

    /// Every reached node other than the source is at least one step
    /// away: edge costs are strictly positive.
    pub open spec fn dist_positive(&self, from: int, dist: Seq<u64>) -> bool {
        forall|v: int|
            0 <= v < self.n() && v != from && #[trigger] dist[v] != INFINITY ==> dist[v] >= 1
    }

    /// No settled node is still queued.
    pub open spec fn settled_off_queue(&self, settled: Set<int>, q: Map<usize, u64>) -> bool {
        forall|u: int| #[trigger] settled.contains(u) ==> !q.dom().contains(u as usize)
    }

    /// The first `j` edges of `u`'s adjacency row have been relaxed.
    pub open spec fn row_relaxed(&self, u: int, dist: Seq<u64>, j: int) -> bool {
        forall|j2: int|
            0 <= j2 < j && j2 < self.adj_list@[u]@.len() ==> {
                let e = #[trigger] self.adj_list@[u]@[j2];
                dist[u] + e.cost >= INFINITY || dist[e.node as int] <= dist[u] + e.cost
            }
    }

    /// The frontier agrees with the distance array: every queued label
    /// is in range, reached, and queued at exactly its tentative distance.
    pub open spec fn queue_synced(&self, q: Map<usize, u64>, dist: Seq<u64>) -> bool {
        forall|k: usize| #![trigger q.dom().contains(k)]
            q.dom().contains(k) ==> ((k as int) < self.n() && dist[k as int] != INFINITY && q[k]
                == dist[k as int])
    }

    /// The shape of a one-to-many query result: one predecessor and one
    /// tentative distance per node. The source is its own predecessor at
    /// distance zero; an unreached node points back at the source; every
    /// reached node is entered over a real edge from a strictly closer
    /// predecessor, so that walking predecessors from any node reaches
    /// the source.
    pub open spec fn pred_tree_wf(&self, from: int, prev: Seq<usize>, dist: Seq<u64>) -> bool {
        &&& prev.len() == self.n()
        &&& dist.len() == self.n()
        &&& 0 <= from < self.n()
        &&& dist[from] == 0
        &&& prev[from] as int == from
        &&& forall|v: int| 0 <= v < self.n() ==> (#[trigger] prev[v]) < self.n()
        &&& forall|v: int|
            0 <= v < self.n() && #[trigger] dist[v] == INFINITY ==> prev[v] as int == from
        &&& forall|v: int|
            0 <= v < self.n() && v != from && #[trigger] dist[v] != INFINITY ==> (dist[
                prev[v] as int
            ] < dist[v] && exists|w: u64|
                self.spec_edge(prev[v] as int, v, w) && dist[prev[v] as int] + w <= dist[v])
    }

    /// One-to-many shortest path by cost-ordered frontier search:
    /// standard relaxation over a min-priority frontier, stopping early
    /// once every target has been settled. Returns the predecessor array
    /// (defaulting to `from`) and the distance array (`INFINITY` where
    /// unreached): every reached distance is the cost of a real walk,
    /// and no walk to any target costs less than the target's distance.
    #[verifier::rlimit(100)]
    pub fn query_one_to_many(&self, from: usize, targets: &Vec<usize>) -> (r: (Vec<usize>, Vec<
        u64,
    >))
        requires
            self.wf(),
            (from as int) < self.n(),
            forall|i: int| 0 <= i < targets@.len() ==> (#[trigger] targets@[i] as int) < self.n(),
        ensures
            self.pred_tree_wf(from as int, r.0@, r.1@),
            r.1@[from as int] == 0,
            self.reached_sound(from as int, r.1@),
            forall|i: int|
                0 <= i < targets@.len() ==> self.walk_minimal(
                    from as int,
                    #[trigger] targets@[i] as int,
                    r.1@[targets@[i] as int] as int,
                ),
    {
        let n = self.adj_list.len();
        let mut dist: Vec<u64> = Vec::new();
        let mut prev: Vec<usize> = Vec::new();
        let mut i: usize = 0;
        while i < n
            invariant
                n == self.n(),
                0 <= i <= n,
                dist@.len() == i,
                prev@.len() == i,
                forall|j: int| 0 <= j < i ==> dist@[j] == INFINITY,
                forall|j: int| 0 <= j < i ==> prev@[j] == from,
            decreases n - i,
        {
            dist.push(INFINITY);
            prev.push(from);
            i = i + 1;
        }

        let mut done: Vec<bool> = Vec::new();
        let mut t: usize = 0;
        while t < targets.len()
            invariant
                0 <= t <= targets@.len(),
                done@.len() == t,
                forall|j: int| 0 <= j < t ==> done@[j] == false,
            decreases targets@.len() - t,
        {
            done.push(false);
            t = t + 1;
        }
        let mut remaining: usize = targets.len();
        proof {
            lemma_count_false_all(done@);
        }

        dist.set(from, 0);
        let mut queue = queue_new();
        queue_push(&mut queue, from, 0);
        let ghost mut settled: Set<int> = Set::empty();

        proof {
            lemma_sum_dist_nonneg(dist@);
            lemma_walk_single(self, from as int);
        }

        loop
            invariant
                self.wf(),
                (from as int) < self.n(),
                n == self.n(),
                forall|i2: int|
                    0 <= i2 < targets@.len() ==> (#[trigger] targets@[i2] as int) < self.n(),
                self.pred_tree_wf(from as int, prev@, dist@),
                queue_entries(queue).dom().finite(),
                self.queue_synced(queue_entries(queue), dist@),
                self.all_relaxed(settled, dist@),
                self.reached_covered(settled, queue_entries(queue), dist@),
                self.settled_reached(settled, dist@),
                self.settled_minimal(from as int, settled, dist@),
                self.reached_sound(from as int, dist@),
                self.dist_positive(from as int, dist@),
                self.settled_off_queue(settled, queue_entries(queue)),
                done@.len() == targets@.len(),
                remaining == count_false(done@),
                forall|idx: int|
                    0 <= idx < done@.len() && #[trigger] done@[idx] ==> settled.contains(
                        targets@[idx] as int,
                    ),
            ensures
                self.pred_tree_wf(from as int, prev@, dist@),
                self.reached_sound(from as int, dist@),
                dist@[from as int] == 0,
                forall|i2: int|
                    0 <= i2 < targets@.len() ==> self.walk_minimal(
                        from as int,
                        #[trigger] targets@[i2] as int,
                        dist@[targets@[i2] as int] as int,
                    ),
            decreases 2 * sum_dist(dist@) + queue_entries(queue).dom().len(),
        {
            proof {
                lemma_sum_dist_nonneg(dist@);
            }
            let ghost qstart = queue_entries(queue);
            let popped = queue_pop_min(&mut queue);
            match popped {
                Option::None => {
                    // The frontier is exhausted: every unsettled node is
                    // unreachable, so no walk beats any distance.
                    proof {
                        assert forall|i2: int|
                            0 <= i2 < targets@.len() implies self.walk_minimal(
                            from as int,
                            #[trigger] targets@[i2] as int,
                            dist@[targets@[i2] as int] as int,
                        ) by {
                            let tgt = targets@[i2] as int;
                            if settled.contains(tgt) {
                                assert forall|nodes: Seq<int>, weights: Seq<u64>|
                                    #![trigger self.valid_walk(nodes, weights, from as int, tgt)]
                                    self.valid_walk(
                                        nodes,
                                        weights,
                                        from as int,
                                        tgt,
                                    ) implies sum_dist(weights) >= dist@[tgt] by {
                                    lemma_settled_minimal_instance(
                                        self,
                                        from as int,
                                        settled,
                                        dist@,
                                        tgt,
                                        nodes,
                                        weights,
                                    );
                                }
                            } else {
                                assert(dist@[tgt] == INFINITY);
                                assert forall|nodes: Seq<int>, weights: Seq<u64>|
                                    #![trigger self.valid_walk(nodes, weights, from as int, tgt)]
                                    self.valid_walk(
                                        nodes,
                                        weights,
                                        from as int,
                                        tgt,
                                    ) implies sum_dist(weights) >= dist@[tgt] by {
                                    assert(settled.contains(from as int));
                                    lemma_walk_frontier(
                                        self,
                                        settled,
                                        dist@,
                                        queue_entries(queue),
                                        nodes,
                                        weights,
                                        0,
                                    );
                                }
                            }
                        }
                    }
                    break ;
                },
                Option::Some((position, cost)) => {
                    let ghost q_after_pop = queue_entries(queue);
                    let ghost m_after_pop = 2 * sum_dist(dist@) + q_after_pop.dom().len();
                    proof {
                        vstd::set::axiom_set_remove_len(qstart.dom(), position);
                        assert(q_after_pop.dom() =~= qstart.dom().remove(position));
                        assert(q_after_pop.dom().len() == qstart.dom().len() - 1);
                        assert(m_after_pop < 2 * sum_dist(dist@) + qstart.dom().len());
                        lemma_synced_instance(self, qstart, dist@, position);
                        assert(cost == dist@[position as int]);
                        assert(!settled.contains(position as int));

                        // The popped node's distance is final: any walk
                        // to it passes the frontier at no lower cost.
                        assert forall|nodes: Seq<int>, weights: Seq<u64>|
                            #![trigger self.valid_walk(nodes, weights, from as int, position as int)]
                            self.valid_walk(
                                nodes,
                                weights,
                                from as int,
                                position as int,
                            ) implies sum_dist(weights) >= cost by {
                            lemma_sum_dist_nonneg(weights);
                            if position == from {
                                assert(cost == 0);
                            } else {
                                assert(settled.contains(from as int)) by {
                                    if !settled.contains(from as int) {
                                        assert(dist@[from as int] == 0);
                                        assert(qstart.dom().contains(from));
                                        assert(cost <= qstart[from]);
                                        lemma_synced_instance(self, qstart, dist@, from);
                                        assert(cost == 0);
                                        assert(dist@[position as int] >= 1);
                                    }
                                }
                                lemma_walk_frontier(
                                    self,
                                    settled,
                                    dist@,
                                    qstart,
                                    nodes,
                                    weights,
                                    0,
                                );
                                if exists|k: usize|
                                    #[trigger] qstart.dom().contains(k) && qstart[k] <= sum_dist(
                                        weights,
                                    ) {
                                    let k = choose|k: usize|
                                        #[trigger] qstart.dom().contains(k) && qstart[k]
                                            <= sum_dist(weights);
                                    assert(cost <= qstart[k]);
                                }
                            }
                        }

                        settled = settled.insert(position as int);
                        assert(self.settled_reached(settled, dist@));
                        assert(self.settled_minimal(from as int, settled, dist@)) by {
                            assert forall|u: int, nodes: Seq<int>, weights: Seq<u64>|
                                #![trigger settled.contains(u), self.valid_walk(nodes, weights, from as int, u)]
                                settled.contains(u) && self.valid_walk(
                                    nodes,
                                    weights,
                                    from as int,
                                    u,
                                ) implies sum_dist(weights) >= dist@[u] by {
                                if u != position as int {
                                    lemma_settled_minimal_instance(
                                        self,
                                        from as int,
                                        settled.remove(position as int),
                                        dist@,
                                        u,
                                        nodes,
                                        weights,
                                    );
                                }
                            }
                        }
                        assert(self.reached_covered(settled, q_after_pop, dist@));
                        assert(self.settled_off_queue(settled, q_after_pop));
                    }

                    let num_edges = self.adj_list[position].len();
                    let mut j: usize = 0;
                    while j < num_edges
                        invariant
                            self.wf(),
                            (from as int) < self.n(),
                            n == self.n(),
                            (position as int) < self.n(),
                            num_edges == self.adj_list@[position as int]@.len(),
                            cost < INFINITY,
                            dist@[position as int] == cost,
                            settled.contains(position as int),
                            self.pred_tree_wf(from as int, prev@, dist@),
                            queue_entries(queue).dom().finite(),
                            self.queue_synced(queue_entries(queue), dist@),
                            self.all_relaxed(settled.remove(position as int), dist@),
                            self.row_relaxed(position as int, dist@, j as int),
                            self.reached_covered(settled, queue_entries(queue), dist@),
                            self.settled_reached(settled, dist@),
                            self.settled_minimal(from as int, settled, dist@),
                            self.reached_sound(from as int, dist@),
                            self.dist_positive(from as int, dist@),
                            self.settled_off_queue(settled, queue_entries(queue)),
                            2 * sum_dist(dist@) + queue_entries(queue).dom().len()
                                <= m_after_pop,
                        decreases num_edges - j,
                    {
                        let edge_node = self.adj_list[position][j].node;
                        let edge_cost = self.adj_list[position][j].cost;
                        if edge_cost < u64::MAX - cost {
                            let next_cost = cost + edge_cost;
                            if next_cost < dist[edge_node] {
                                let ghost dist0 = dist@;
                                let ghost q0 = queue_entries(queue);
                                proof {
                                    lemma_sum_dist_update(dist@, edge_node as int, next_cost);
                                    assert(self.spec_edge(
                                        position as int,
                                        edge_node as int,
                                        edge_cost,
                                    )) by {
                                        assert(self.adj_list@[position as int]@[j as int].node
                                            == edge_node);
                                    }
                                    // The target of an improving edge cannot
                                    // already be settled.
                                    assert(!settled.contains(edge_node as int)) by {
                                        if settled.contains(edge_node as int) {
                                            assert(self.has_walk(
                                                from as int,
                                                position as int,
                                                cost as int,
                                            ));
                                            lemma_walk_append(
                                                self,
                                                from as int,
                                                position as int,
                                                edge_node as int,
                                                edge_cost,
                                                cost as int,
                                            );
                                            let (nodes, weights) = choose|
                                                nodes: Seq<int>,
                                                weights: Seq<u64>,
                                            |
                                                self.valid_walk(
                                                    nodes,
                                                    weights,
                                                    from as int,
                                                    edge_node as int,
                                                ) && sum_dist(weights) == cost + edge_cost;
                                            lemma_settled_minimal_instance(
                                                self,
                                                from as int,
                                                settled,
                                                dist@,
                                                edge_node as int,
                                                nodes,
                                                weights,
                                            );
                                        }
                                    }
                                }
                                dist.set(edge_node, next_cost);
                                prev.set(edge_node, position);
                                queue_push(&mut queue, edge_node, next_cost);
                                proof {
                                    lemma_relax_preserves_tree(
                                        self,
                                        from as int,
                                        prev@,
                                        dist@,
                                        dist0,
                                        position as int,
                                        edge_node as int,
                                        edge_cost,
                                        next_cost,
                                    );
                                    vstd::set::axiom_set_insert_len(q0.dom(), edge_node);
                                    assert(queue_entries(queue).dom() =~= q0.dom().insert(
                                        edge_node,
                                    ));
                                    assert(queue_entries(queue).dom().len() <= q0.dom().len()
                                        + 1);
                                    assert(sum_dist(dist@) <= sum_dist(dist0) - 1);
                                    assert(self.queue_synced(queue_entries(queue), dist@)) by {
                                        assert forall|k: usize|
                                            queue_entries(queue).dom().contains(k) implies ((
                                        k as int) < self.n() && dist@[k as int] != INFINITY
                                            && queue_entries(queue)[k] == dist@[k as int]) by {
                                            if k != edge_node {
                                                assert(q0.dom().contains(k));
                                                lemma_synced_instance(self, q0, dist0, k);
                                            }
                                        }
                                    }
                                    // The update touches no settled node.
                                    assert forall|u: int|
                                        #[trigger] settled.contains(u) implies dist@[u] == dist0[
                                    u] by {}
                                    assert(self.all_relaxed(settled.remove(position as int), dist@))
                                        by {
                                        assert forall|u: int, v: int, w: u64|
                                            #![trigger settled.remove(position as int).contains(u), self.spec_edge(u, v, w)]
                                            settled.remove(position as int).contains(u)
                                                && self.spec_edge(u, v, w) && 0 <= v
                                                < self.n() implies (dist@[u] + w >= INFINITY
                                                || dist@[v] <= dist@[u] + w) by {
                                            assert(dist@[u] == dist0[u]);
                                            assert(dist@[v] <= dist0[v]);
                                        }
                                    }
                                    assert(self.row_relaxed(position as int, dist@, j + 1)) by {
                                        assert forall|j2: int|
                                            0 <= j2 < j + 1 && j2 < self.adj_list@[
                                            position as int]@.len() implies {
                                            let e = #[trigger] self.adj_list@[position as int]@[
                                            j2];
                                            dist@[position as int] + e.cost >= INFINITY || dist@[
                                            e.node as int] <= dist@[position as int] + e.cost
                                        } by {
                                            let e = self.adj_list@[position as int]@[j2];
                                            if j2 < j {
                                                assert(dist0[e.node as int] >= dist@[
                                                e.node as int]);
                                            } else {
                                                assert(e.node == edge_node && e.cost == edge_cost);
                                            }
                                        }
                                    }
                                    assert(self.settled_minimal(from as int, settled, dist@)) by {
                                        assert forall|u: int, nodes: Seq<int>, weights: Seq<u64>|
                                            #![trigger settled.contains(u), self.valid_walk(nodes, weights, from as int, u)]
                                            settled.contains(u) && self.valid_walk(
                                                nodes,
                                                weights,
                                                from as int,
                                                u,
                                            ) implies sum_dist(weights) >= dist@[u] by {
                                            lemma_settled_minimal_instance(
                                                self,
                                                from as int,
                                                settled,
                                                dist0,
                                                u,
                                                nodes,
                                                weights,
                                            );
                                            assert(dist@[u] == dist0[u]);
                                        }
                                    }
                                    assert(self.reached_sound(from as int, dist@)) by {
                                        assert(self.has_walk(
                                            from as int,
                                            position as int,
                                            cost as int,
                                        ));
                                        lemma_walk_append(
                                            self,
                                            from as int,
                                            position as int,
                                            edge_node as int,
                                            edge_cost,
                                            cost as int,
                                        );
                                        assert forall|v: int|
                                            0 <= v < self.n() && #[trigger] dist@[v]
                                                != INFINITY implies self.has_walk(
                                            from as int,
                                            v,
                                            dist@[v] as int,
                                        ) by {
                                            if v != edge_node as int {
                                                assert(dist@[v] == dist0[v]);
                                            }
                                        }
                                    }
                                }
                            }
                        }
                        j = j + 1;
                    }
                    proof {
                        assert(self.all_relaxed(settled, dist@)) by {
                            assert forall|u: int, v: int, w: u64|
                                #![trigger settled.contains(u), self.spec_edge(u, v, w)]
                                settled.contains(u) && self.spec_edge(u, v, w) && 0 <= v
                                    < self.n() implies (dist@[u] + w >= INFINITY || dist@[v]
                                <= dist@[u] + w) by {
                                if u == position as int {
                                    let j2 = choose|j2: int|
                                        0 <= j2 < self.adj_list@[u]@.len() && (
                                        #[trigger] self.adj_list@[u]@[j2]).node == v
                                            && self.adj_list@[u]@[j2].cost == w;
                                    assert(self.adj_list@[position as int]@[j2].node as int == v);
                                } else {
                                    assert(settled.remove(position as int).contains(u));
                                }
                            }
                        }
                        lemma_sum_dist_nonneg(dist@);
                    }

                    let mut idx: usize = 0;
                    while idx < targets.len()
                        invariant
                            0 <= idx <= targets@.len(),
                            done@.len() == targets@.len(),
                            remaining == count_false(done@),
                            settled.contains(position as int),
                            forall|idx2: int|
                                0 <= idx2 < done@.len() && #[trigger] done@[idx2]
                                    ==> settled.contains(targets@[idx2] as int),
                        decreases targets@.len() - idx,
                    {
                        if targets[idx] == position && !done[idx] {
                            proof {
                                lemma_count_false_update_true(done@, idx as int);
                                lemma_count_false_nonneg(done@.update(idx as int, true));
                            }
                            done.set(idx, true);
                            remaining = remaining - 1;
                        }
                        idx = idx + 1;
                    }
                    if remaining == 0 {
                        // Every target is settled: all their distances
                        // are final.
                        proof {
                            lemma_count_false_zero(done@);
                            assert forall|i2: int|
                                0 <= i2 < targets@.len() implies self.walk_minimal(
                                from as int,
                                #[trigger] targets@[i2] as int,
                                dist@[targets@[i2] as int] as int,
                            ) by {
                                let tgt = targets@[i2] as int;
                                assert(done@[i2]);
                                assert(settled.contains(tgt));
                                assert forall|nodes: Seq<int>, weights: Seq<u64>|
                                    #![trigger self.valid_walk(nodes, weights, from as int, tgt)]
                                    self.valid_walk(
                                        nodes,
                                        weights,
                                        from as int,
                                        tgt,
                                    ) implies sum_dist(weights) >= dist@[tgt] by {
                                    lemma_settled_minimal_instance(
                                        self,
                                        from as int,
                                        settled,
                                        dist@,
                                        tgt,
                                        nodes,
                                        weights,
                                    );
                                }
                            }
                        }
                        break ;
                    }
                },
            }
        }
        (prev, dist)
    }
}

impl Graph {
    /// Inserts into `known_nodes` every node on the found path from
    /// `from` to each reachable id of `to`, both endpoints included, by
    /// walking the predecessor chains of a one-to-many query. Ids that
    /// the graph never labeled are skipped silently; nothing is ever
    /// removed; a missing source leaves the set untouched. Every labeled
    /// target, and `from` itself when any target is labeled, ends up in
    /// the set, and for each labeled target either a whole cheapest walk
    /// from the source survives in the set, or every walk to it costs at
    /// least `INFINITY`.
    pub fn necessary_nodes(&self, from: &String, to: &Vec<String>, known_nodes: &mut IdSet)
        requires
            self.wf(),
            old(known_nodes).wf(),
        ensures
            final(known_nodes).wf(),
            forall|id: Seq<char>|
                old(known_nodes).spec_has(id) ==> final(known_nodes).spec_has(id),
            forall|id: Seq<char>|
                final(known_nodes).spec_has(id) ==> old(known_nodes).spec_has(id)
                    || self.spec_has_node(id),
            !self.spec_has_node(from@) ==> *final(known_nodes) == *old(known_nodes),
            self.spec_has_node(from@) ==> (forall|i: int|
                0 <= i < to@.len() && self.spec_has_node((#[trigger] to@[i])@)
                    ==> final(known_nodes).spec_has(to@[i]@)),
            (self.spec_has_node(from@) && exists|i: int|
                0 <= i < to@.len() && self.spec_has_node((#[trigger] to@[i])@))
                ==> final(known_nodes).spec_has(from@),
            self.spec_has_node(from@) ==> (forall|i: int|
                0 <= i < to@.len() && self.spec_has_node((#[trigger] to@[i])@)
                    ==> (self.set_covers_shortest(
                    self.spec_label(from@),
                    self.spec_label(to@[i]@),
                    *final(known_nodes),
                ) || self.walk_minimal(
                    self.spec_label(from@),
                    self.spec_label(to@[i]@),
                    INFINITY as int,
                ))),
    {
        let from_label = match self.get_label(from) {
            Option::None => {
                return ;
            },
            Option::Some(l) => l,
        };
        let ghost fl = from_label as int;

        let mut target_labels: Vec<usize> = Vec::new();
        let mut i: usize = 0;
        while i < to.len()
            invariant
                self.wf(),
                0 <= i <= to@.len(),
                forall|j: int|
                    0 <= j < target_labels@.len() ==> (#[trigger] target_labels@[j] as int)
                        < self.n(),
                forall|j: int|
                    #![trigger to@[j]]
                    0 <= j < i && self.spec_has_node(to@[j]@) ==> exists|k: int|
                        0 <= k < target_labels@.len() && (#[trigger] target_labels@[k]) as int
                            == self.spec_label(to@[j]@),
            decreases to@.len() - i,
        {
            match self.get_label(&to[i]) {
                Option::Some(l) => {
                    let ghost tl0 = target_labels@;
                    target_labels.push(l);
                    proof {
                        assert forall|j: int|
                            #![trigger to@[j]]
                            0 <= j < i + 1 && self.spec_has_node(to@[j]@) implies exists|k: int|
                            0 <= k < target_labels@.len() && (#[trigger] target_labels@[k]) as int
                                == self.spec_label(to@[j]@) by {
                            if j < i {
                                let k = choose|k: int|
                                    0 <= k < tl0.len() && (#[trigger] tl0[k]) as int
                                        == self.spec_label(to@[j]@);
                                assert(target_labels@[k] == tl0[k]);
                            } else {
                                assert(target_labels@[tl0.len() as int] == l);
                            }
                        }
                    }
                },
                Option::None => {},
            }
            i = i + 1;
        }

        let (tree, dist) = self.query_one_to_many(from_label, &target_labels);

        let ghost k0 = *old(known_nodes);
        let mut i: usize = 0;
        while i < to.len()
            invariant
                self.wf(),
                (from_label as int) < self.n(),
                fl == from_label as int,
                fl == self.spec_label(from@),
                self.ids@[from_label as int]@ == from@,
                self.pred_tree_wf(from_label as int, tree@, dist@),
                dist@[fl] == 0,
                forall|j: int|
                    #![trigger to@[j]]
                    0 <= j < to@.len() && self.spec_has_node(to@[j]@) ==> exists|k: int|
                        0 <= k < target_labels@.len() && (#[trigger] target_labels@[k]) as int
                            == self.spec_label(to@[j]@),
                forall|j: int|
                    0 <= j < target_labels@.len() ==> self.walk_minimal(
                        fl,
                        #[trigger] target_labels@[j] as int,
                        dist@[target_labels@[j] as int] as int,
                    ),
                known_nodes.wf(),
                0 <= i <= to@.len(),
                forall|id: Seq<char>| k0.spec_has(id) ==> known_nodes.spec_has(id),
                forall|id: Seq<char>|
                    known_nodes.spec_has(id) ==> k0.spec_has(id) || self.spec_has_node(id),
                forall|j: int|
                    0 <= j < i && self.spec_has_node((#[trigger] to@[j])@) ==> known_nodes.spec_has(
                        to@[j]@,
                    ),
                (exists|j: int| 0 <= j < i && self.spec_has_node((#[trigger] to@[j])@))
                    ==> known_nodes.spec_has(from@),
                forall|j: int|
                    #![trigger to@[j]]
                    0 <= j < i && self.spec_has_node(to@[j]@) ==> (self.set_covers_shortest(
                        fl,
                        self.spec_label(to@[j]@),
                        *known_nodes,
                    ) || self.walk_minimal(fl, self.spec_label(to@[j]@), INFINITY as int)),
            decreases to@.len() - i,
        {
            let ghost k_start = *known_nodes;
            match self.get_label(&to[i]) {
                Option::Some(target_label) => {
                    let ghost gt = target_label as int;
                    proof {
                        assert(gt == self.spec_label(to@[i as int]@));
                        let k = choose|k: int|
                            0 <= k < target_labels@.len() && (#[trigger] target_labels@[k]) as int
                                == self.spec_label(to@[i as int]@);
                        assert(self.walk_minimal(fl, gt, dist@[gt] as int));
                    }
                    let mut current: usize = target_label;
                    let ghost mut gw_nodes: Seq<int> = seq![target_label as int];
                    let ghost mut gw_weights: Seq<u64> = Seq::empty();
                    known_nodes.insert(self.ids[current].clone());
                    while tree[current] != from_label
                        invariant
                            self.wf(),
                            (from_label as int) < self.n(),
                            self.pred_tree_wf(from_label as int, tree@, dist@),
                            (current as int) < self.n(),
                            (target_label as int) < self.n(),
                            gt == target_label as int,
                            known_nodes.wf(),
                            forall|id: Seq<char>| k0.spec_has(id) ==> known_nodes.spec_has(id),
                            forall|id: Seq<char>|
                                k_start.spec_has(id) ==> known_nodes.spec_has(id),
                            forall|id: Seq<char>|
                                known_nodes.spec_has(id) ==> k0.spec_has(id) || self.spec_has_node(
                                    id,
                                ),
                            forall|j: int|
                                0 <= j < i && self.spec_has_node((#[trigger] to@[j])@)
                                    ==> known_nodes.spec_has(to@[j]@),
                            (exists|j: int| 0 <= j < i && self.spec_has_node((#[trigger] to@[j])@))
                                ==> known_nodes.spec_has(from@),
                            known_nodes.spec_has(self.ids@[target_label as int]@),
                            gw_nodes.len() == gw_weights.len() + 1,
                            gw_nodes[0] == current as int,
                            gw_nodes[gw_nodes.len() - 1] == gt,
                            forall|p: int|
                                0 <= p < gw_weights.len() ==> 0 <= #[trigger] gw_nodes[p]
                                    < self.n() && self.spec_edge(
                                    gw_nodes[p],
                                    gw_nodes[p + 1],
                                    gw_weights[p],
                                ),
                            dist@[gt] != INFINITY ==> (dist@[current as int] != INFINITY
                                && sum_dist(gw_weights) + dist@[current as int] <= dist@[gt]),
                            forall|p: int|
                                0 <= p < gw_nodes.len() ==> known_nodes.spec_has(
                                    self.ids@[#[trigger] gw_nodes[p]]@,
                                ),
                        decreases dist@[current as int],
                    {
                        proof {
                            assert(current as int != from_label as int);
                            assert(dist@[current as int] != INFINITY);
                        }
                        let ghost c_old = current as int;
                        let ghost nodes0 = gw_nodes;
                        let ghost weights0 = gw_weights;
                        current = tree[current];
                        known_nodes.insert(self.ids[current].clone());
                        proof {
                            let w = choose|w: u64|
                                self.spec_edge(current as int, c_old, w) && dist@[current as int]
                                    + w <= dist@[c_old];
                            gw_nodes = seq![current as int] + nodes0;
                            gw_weights = seq![w] + weights0;
                            assert(gw_weights.subrange(1, gw_weights.len() as int) =~= weights0);
                            lemma_sum_dist_head(gw_weights);
                            assert forall|p: int|
                                0 <= p < gw_weights.len() implies 0 <= #[trigger] gw_nodes[p]
                                < self.n() && self.spec_edge(
                                gw_nodes[p],
                                gw_nodes[p + 1],
                                gw_weights[p],
                            ) by {
                                if p > 0 {
                                    assert(gw_nodes[p] == nodes0[p - 1]);
                                    assert(gw_nodes[p + 1] == nodes0[p]);
                                    assert(gw_weights[p] == weights0[p - 1]);
                                }
                            }
                            assert forall|p: int|
                                0 <= p < gw_nodes.len() implies known_nodes.spec_has(
                                self.ids@[#[trigger] gw_nodes[p]]@,
                            ) by {
                                if p > 0 {
                                    assert(gw_nodes[p] == nodes0[p - 1]);
                                }
                            }
                        }
                    }
                    known_nodes.insert(self.ids[from_label].clone());
                    proof {
                        assert(known_nodes.spec_has(to@[i as int]@));
                        assert(known_nodes.spec_has(from@));
                        if dist@[gt] != INFINITY {
                            let (fw_nodes, fw_weights): (Seq<int>, Seq<u64>) = if current as int
                                == fl {
                                (gw_nodes, gw_weights)
                            } else {
                                assert(dist@[current as int] != INFINITY);
                                assert(current as int != fl);
                                let w = choose|w: u64|
                                    self.spec_edge(fl, current as int, w) && dist@[fl] + w
                                        <= dist@[current as int];
                                (seq![fl] + gw_nodes, seq![w] + gw_weights)
                            };
                            if current as int != fl {
                                assert(fw_weights.subrange(1, fw_weights.len() as int)
                                    =~= gw_weights);
                                lemma_sum_dist_head(fw_weights);
                                assert forall|p: int|
                                    0 <= p < fw_weights.len() implies 0 <= #[trigger] fw_nodes[p]
                                    < self.n() && self.spec_edge(
                                    fw_nodes[p],
                                    fw_nodes[p + 1],
                                    fw_weights[p],
                                ) by {
                                    if p > 0 {
                                        assert(fw_nodes[p] == gw_nodes[p - 1]);
                                        assert(fw_nodes[p + 1] == gw_nodes[p]);
                                        assert(fw_weights[p] == gw_weights[p - 1]);
                                    }
                                }
                            }
                            assert(self.valid_walk(fw_nodes, fw_weights, fl, gt));
                            assert(sum_dist(fw_weights) <= dist@[gt]);
                            assert(sum_dist(fw_weights) >= dist@[gt]);
                            assert(self.walk_minimal(fl, gt, sum_dist(fw_weights)));
                            assert forall|p: int|
                                0 <= p < fw_nodes.len() implies known_nodes.spec_has(
                                self.ids@[#[trigger] fw_nodes[p]]@,
                            ) by {
                                if current as int != fl && p > 0 {
                                    assert(fw_nodes[p] == gw_nodes[p - 1]);
                                }
                            }
                            assert(self.set_covers_shortest(fl, gt, *known_nodes));
                        }
                        assert forall|j: int|
                            #![trigger to@[j]]
                            0 <= j < i + 1 && self.spec_has_node(to@[j]@) implies (
                        self.set_covers_shortest(fl, self.spec_label(to@[j]@), *known_nodes)
                            || self.walk_minimal(
                            fl,
                            self.spec_label(to@[j]@),
                            INFINITY as int,
                        )) by {
                            if j < i {
                                if self.set_covers_shortest(
                                    fl,
                                    self.spec_label(to@[j]@),
                                    k_start,
                                ) {
                                    lemma_covers_monotone(
                                        self,
                                        fl,
                                        self.spec_label(to@[j]@),
                                        k_start,
                                        *known_nodes,
                                    );
                                }
                            } else {
                                if dist@[gt] != INFINITY {
                                } else {
                                    assert(self.walk_minimal(fl, gt, dist@[gt] as int));
                                }
                            }
                        }
                    }
                },
                Option::None => {},
            }
            i = i + 1;
        }
    }
}

/// A whole covered cheapest walk survives any growth of the set.
pub proof fn lemma_covers_monotone(g: &Graph, from: int, to: int, s1: IdSet, s2: IdSet)
    requires
        g.set_covers_shortest(from, to, s1),
        forall|id: Seq<char>| s1.spec_has(id) ==> s2.spec_has(id),
    ensures
        g.set_covers_shortest(from, to, s2),
{
    let (nodes, weights) = choose|nodes: Seq<int>, weights: Seq<u64>|
        {
            &&& #[trigger] g.valid_walk(nodes, weights, from, to)
            &&& g.walk_minimal(from, to, sum_dist(weights))
            &&& forall|p: int| 0 <= p < nodes.len() ==> s1.spec_has(g.ids@[nodes[p]]@)
        };
    assert forall|p: int| 0 <= p < nodes.len() implies s2.spec_has(g.ids@[nodes[p]]@) by {
        assert(s1.spec_has(g.ids@[nodes[p]]@));
    }
}

/// One instance of the frontier agreement, for use under nested
/// quantifiers.
proof fn lemma_synced_instance(g: &Graph, q: Map<usize, u64>, dist: Seq<u64>, k: usize)
    requires
        g.queue_synced(q, dist),
        q.dom().contains(k),
    ensures
        (k as int) < g.n(),
        dist[k as int] != INFINITY,
        q[k] == dist[k as int],
{
}

/// The one-node walk from a node to itself costs nothing.
proof fn lemma_walk_single(g: &Graph, from: int)
    requires
        0 <= from < g.n(),
    ensures
        g.has_walk(from, from, 0),
{
    let nodes: Seq<int> = seq![from];
    let weights: Seq<u64> = Seq::empty();
    assert(g.valid_walk(nodes, weights, from, from));
    assert(sum_dist(weights) == 0);
}

/// Extending a walk by one edge adds that edge's weight.
proof fn lemma_walk_append(g: &Graph, from: int, u: int, v: int, w: u64, c: int)
    requires
        g.wf(),
        g.has_walk(from, u, c),
        0 <= u < g.n(),
        0 <= v < g.n(),
        g.spec_edge(u, v, w),
    ensures
        g.has_walk(from, v, c + w),
{
    let (nodes, weights) = choose|nodes: Seq<int>, weights: Seq<u64>|
        g.valid_walk(nodes, weights, from, u) && sum_dist(weights) == c;
    let nodes2 = nodes.push(v);
    let weights2 = weights.push(w);
    assert(weights2.drop_last() =~= weights);
    assert forall|i: int|
        0 <= i < weights2.len() implies 0 <= #[trigger] nodes2[i] < g.n() && g.spec_edge(
        nodes2[i],
        nodes2[i + 1],
        weights2[i],
    ) by {
        if i < weights.len() {
            assert(nodes2[i] == nodes[i] && nodes2[i + 1] == nodes[i + 1]);
        } else {
            assert(nodes2[i] == nodes[nodes.len() - 1] && nodes2[i + 1] == v);
        }
    }
    assert(g.valid_walk(nodes2, weights2, from, v));
    assert(sum_dist(weights2) == c + w);
}

/// One instance of walk minimality over a settled node.
proof fn lemma_settled_minimal_instance(
    g: &Graph,
    from: int,
    settled: Set<int>,
    dist: Seq<u64>,
    u: int,
    nodes: Seq<int>,
    weights: Seq<u64>,
)
    requires
        g.settled_minimal(from, settled, dist),
        settled.contains(u),
        g.valid_walk(nodes, weights, from, u),
    ensures
        sum_dist(weights) >= dist[u],
{
}

/// The sum of a weight sequence equals its head plus the sum of its
/// tail.
proof fn lemma_sum_dist_head(s: Seq<u64>)
    requires
        s.len() >= 1,
    ensures
        sum_dist(s) == s[0] + sum_dist(s.subrange(1, s.len() as int)),
    decreases s.len(),
{
    if s.len() == 1 {
        assert(s.drop_last() =~= Seq::<u64>::empty());
        assert(s.subrange(1, 1) =~= Seq::<u64>::empty());
    } else {
        lemma_sum_dist_head(s.drop_last());
        assert(s.drop_last().subrange(1, s.drop_last().len() as int) =~= s.subrange(
            1,
            s.len() as int,
        ).drop_last());
        assert(s.drop_last()[0] == s[0]);
        assert(sum_dist(s) == sum_dist(s.drop_last()) + s[s.len() - 1]);
        assert(s.subrange(1, s.len() as int).last() == s[s.len() - 1]);
    }
}

/// While the walk runs through settled nodes whose distances are below
/// the running bound, either the frontier holds a label at most the
/// bound plus the rest of the walk, or that total leaves the integer
/// range.
proof fn lemma_walk_frontier(
    g: &Graph,
    settled: Set<int>,
    dist: Seq<u64>,
    q: Map<usize, u64>,
    nodes: Seq<int>,
    weights: Seq<u64>,
    b: int,
)
    requires
        g.wf(),
        dist.len() == g.n(),
        g.queue_synced(q, dist),
        g.all_relaxed(settled, dist),
        g.reached_covered(settled, q, dist),
        g.settled_reached(settled, dist),
        nodes.len() == weights.len() + 1,
        forall|i: int|
            0 <= i < weights.len() ==> 0 <= #[trigger] nodes[i] < g.n() && g.spec_edge(
                nodes[i],
                nodes[i + 1],
                weights[i],
            ),
        0 <= nodes[nodes.len() - 1] < g.n(),
        settled.contains(nodes[0]),
        dist[nodes[0]] <= b,
        !settled.contains(nodes[nodes.len() - 1]),
    ensures
        (exists|k: usize|
            #[trigger] q.dom().contains(k) && q[k] <= b + sum_dist(weights)) || b + sum_dist(
            weights,
        ) >= INFINITY,
    decreases weights.len(),
{
    lemma_sum_dist_nonneg(weights);
    let n0 = nodes[0];
    let n1 = nodes[1];
    let w0 = weights[0];
    lemma_sum_dist_head(weights);
    let rest_weights = weights.subrange(1, weights.len() as int);
    lemma_sum_dist_nonneg(rest_weights);
    if dist[n0] + w0 >= INFINITY {
        assert(b + sum_dist(weights) >= INFINITY);
    } else {
        assert(dist[n1] <= dist[n0] + w0) by {
            assert(settled.contains(n0) && g.spec_edge(n0, n1, w0));
            assert(0 <= n1 < g.n()) by {
                if weights.len() > 1 {
                } else {
                    assert(n1 == nodes[nodes.len() - 1]);
                }
            }
        }
        if settled.contains(n1) {
            let rest_nodes = nodes.subrange(1, nodes.len() as int);
            assert(rest_nodes.len() == rest_weights.len() + 1);
            assert(rest_nodes[0] == n1);
            assert(rest_nodes[rest_nodes.len() - 1] == nodes[nodes.len() - 1]);
            assert forall|i: int|
                0 <= i < rest_weights.len() implies 0 <= #[trigger] rest_nodes[i] < g.n()
                && g.spec_edge(rest_nodes[i], rest_nodes[i + 1], rest_weights[i]) by {
                assert(rest_nodes[i] == nodes[i + 1] && rest_nodes[i + 1] == nodes[i + 2]
                    && rest_weights[i] == weights[i + 1]);
            }
            lemma_walk_frontier(g, settled, dist, q, rest_nodes, rest_weights, b + w0);
        } else {
            assert(dist[n1] != INFINITY);
            assert(q.dom().contains(n1 as usize));
            lemma_synced_instance(g, q, dist, n1 as usize);
            assert(q[n1 as usize] == dist[n1]);
            assert(q[n1 as usize] <= b + sum_dist(weights));
        }
    }
}

/// An all-true array has no false entries left.
proof fn lemma_count_false_zero(s: Seq<bool>)
    requires
        count_false(s) == 0,
    ensures
        forall|j: int| 0 <= j < s.len() ==> s[j],
    decreases s.len(),
{
    if s.len() > 0 {
        lemma_count_false_nonneg(s.drop_last());
        lemma_count_false_zero(s.drop_last());
        assert forall|j: int| 0 <= j < s.len() implies s[j] by {
            if j < s.len() - 1 {
                assert(s.drop_last()[j]);
            }
        }
    }
}

/// A relaxation step keeps the predecessor tree well-formed: the updated
/// node now enters over the relaxed edge, every other node is untouched
/// or only had its predecessor's distance lowered.
proof fn lemma_relax_preserves_tree(
    g: &Graph,
    from: int,
    prev: Seq<usize>,
    dist: Seq<u64>,
    dist0: Seq<u64>,
    position: int,
    next: int,
    edge_cost: u64,
    next_cost: u64,
)
    requires
        g.wf(),
        0 <= position < g.n(),
        0 <= next < g.n(),
        dist0.len() == g.n(),
        dist == dist0.update(next, next_cost),
        exists|p0: Seq<usize>|
            g.pred_tree_wf(from, p0, dist0) && prev == p0.update(next, position as usize),
        g.spec_edge(position, next, edge_cost),
        dist0[position] != INFINITY,
        next_cost == dist0[position] + edge_cost,
        next_cost < dist0[next],
        next_cost < INFINITY,
    ensures
        g.pred_tree_wf(from, prev, dist),
{
    let p0 = choose|p0: Seq<usize>|
        g.pred_tree_wf(from, p0, dist0) && prev == p0.update(next, position as usize);
    assert(edge_cost >= 1) by {
        let j = choose|j: int|
            0 <= j < g.adj_list@[position]@.len() && (#[trigger] g.adj_list@[position]@[j]).node
                == next && g.adj_list@[position]@[j].cost == edge_cost;
    }
    assert(next != from);
    assert(dist[from] == 0);
    assert(prev[from] as int == from);
    assert forall|v: int|
        0 <= v < g.n() && v != from && #[trigger] dist[v] != INFINITY implies (dist[
        prev[v] as int] < dist[v] && exists|w: u64|
            g.spec_edge(prev[v] as int, v, w) && dist[prev[v] as int] + w <= dist[v]) by {
        if v == next {
            assert(prev[v] as int == position);
            assert(dist[position] == dist0[position]);
            assert(dist[prev[v] as int] + edge_cost <= dist[v]);
        } else {
            assert(dist[v] == dist0[v]);
            assert(prev[v] == p0[v]);
            let w = choose|w: u64|
                g.spec_edge(p0[v] as int, v, w) && dist0[p0[v] as int] + w <= dist0[v];
            assert(dist[p0[v] as int] <= dist0[p0[v] as int]);
            assert(g.spec_edge(prev[v] as int, v, w) && dist[prev[v] as int] + w <= dist[v]);
        }
    }
}

/// A fresh all-false array has as many false entries as its length.
proof fn lemma_count_false_all(s: Seq<bool>)
    requires
        forall|j: int| 0 <= j < s.len() ==> s[j] == false,
    ensures
        count_false(s) == s.len(),
    decreases s.len(),
{
    if s.len() > 0 {
        lemma_count_false_all(s.drop_last());
    }
}

/// Extending an id sequence by copies of one id adds exactly that id to
/// its membership.
proof fn lemma_id_set_extend(s1: Seq<String>, s2: Seq<String>, idv: Seq<char>)
    requires
        s2.len() >= s1.len(),
        forall|i: int| 0 <= i < s1.len() ==> s2[i] == s1[i],
        forall|i: int| s1.len() <= i < s2.len() ==> (#[trigger] s2[i])@ == idv,
    ensures
        forall|x: Seq<char>|
            seq_has_id(s2, x) <==> (seq_has_id(s1, x) || (s2.len() > s1.len() && x == idv)),
{
    assert forall|x: Seq<char>|
        seq_has_id(s2, x) <==> (seq_has_id(s1, x) || (s2.len() > s1.len() && x == idv)) by {
        if seq_has_id(s2, x) {
            let i = choose|i: int| 0 <= i < s2.len() && s2[i]@ == x;
            if i < s1.len() {
                assert(s1[i]@ == x);
            }
        }
        if seq_has_id(s1, x) {
            let i = choose|i: int| 0 <= i < s1.len() && s1[i]@ == x;
            assert(s2[i]@ == x);
        }
        if s2.len() > s1.len() && x == idv {
            assert(s2[s1.len() as int]@ == x);
        }
    }
}

/// Growing a graph by unseen, edgeless nodes changes no edge.
proof fn lemma_grow_preserves_edges(g1: Graph, g2: Graph)
    requires
        g1.wf(),
        g2.wf(),
        g2.ids@.len() >= g1.ids@.len(),
        forall|i: int| 0 <= i < g1.ids@.len() ==> g2.ids@[i] == g1.ids@[i],
        forall|i: int| 0 <= i < g1.adj_list@.len() ==> g2.adj_list@[i] == g1.adj_list@[i],
        forall|i: int|
            g1.adj_list@.len() <= i < g2.adj_list@.len() ==> (#[trigger] g2.adj_list@[i])@.len()
                == 0,
    ensures
        forall|a: Seq<char>, b: Seq<char>, w: u64|
            g2.spec_edge_ids(a, b, w) <==> g1.spec_edge_ids(a, b, w),
{
    assert forall|a: Seq<char>, b: Seq<char>, w: u64|
        g2.spec_edge_ids(a, b, w) <==> g1.spec_edge_ids(a, b, w) by {
        if g1.spec_edge_ids(a, b, w) {
            let (u, v) = choose|u: int, v: int|
                {
                    &&& 0 <= u < g1.ids@.len()
                    &&& 0 <= v < g1.ids@.len()
                    &&& (#[trigger] g1.ids@[u])@ == a
                    &&& (#[trigger] g1.ids@[v])@ == b
                    &&& g1.spec_edge(u, v, w)
                };
            assert(g2.ids@[u]@ == a && g2.ids@[v]@ == b);
            let j = choose|j: int|
                0 <= j < g1.adj_list@[u]@.len() && (#[trigger] g1.adj_list@[u]@[j]).node == v
                    && g1.adj_list@[u]@[j].cost == w;
            assert(g2.adj_list@[u]@[j].node == v && g2.adj_list@[u]@[j].cost == w);
            assert(g2.spec_edge(u, v, w));
        }
        if g2.spec_edge_ids(a, b, w) {
            let (u, v) = choose|u: int, v: int|
                {
                    &&& 0 <= u < g2.ids@.len()
                    &&& 0 <= v < g2.ids@.len()
                    &&& (#[trigger] g2.ids@[u])@ == a
                    &&& (#[trigger] g2.ids@[v])@ == b
                    &&& g2.spec_edge(u, v, w)
                };
            let j = choose|j: int|
                0 <= j < g2.adj_list@[u]@.len() && (#[trigger] g2.adj_list@[u]@[j]).node == v
                    && g2.adj_list@[u]@[j].cost == w;
            assert(u < g1.adj_list@.len());
            assert(g1.adj_list@[u]@[j].node == v && g1.adj_list@[u]@[j].cost == w);
            assert(v < g1.ids@.len()) by {
                assert(g1.adj_list@[u]@[j].node < g1.ids@.len());
            }
            assert(g1.ids@[u]@ == a && g1.ids@[v]@ == b);
            assert(g1.spec_edge(u, v, w));
        }
    }
}

/// Appending one edge to one row adds exactly that edge.
proof fn lemma_push_edge(g1: Graph, g2: Graph, fl: usize, tl: usize, w: u64)
    requires
        g1.wf(),
        fl < g1.adj_list@.len(),
        tl < g1.ids@.len(),
        w >= 1,
        g2.ids@ == g1.ids@,
        g2.adj_list@.len() == g1.adj_list@.len(),
        forall|i: int| 0 <= i < g1.adj_list@.len() && i != fl ==> g2.adj_list@[i] == g1.adj_list@[i],
        g2.adj_list@[fl as int]@ == g1.adj_list@[fl as int]@.push(Edge { node: tl, cost: w }),
    ensures
        g2.wf(),
        forall|a: Seq<char>, b: Seq<char>, w2: u64|
            g2.spec_edge_ids(a, b, w2) <==> g1.spec_edge_ids(a, b, w2) || (a == g1.ids@[fl as int]@
                && b == g1.ids@[tl as int]@ && w2 == w),
{
    assert(g2.wf()) by {
        assert forall|i: int, j: int|
            0 <= i < g2.adj_list@.len() && 0 <= j < g2.adj_list@[i]@.len() implies ((
        #[trigger] g2.adj_list@[i]@[j]).node < g2.ids@.len() && g2.adj_list@[i]@[j].cost >= 1) by {
            if i == fl as int && j == g1.adj_list@[fl as int]@.len() {
            } else {
                assert(g2.adj_list@[i]@[j] == g1.adj_list@[i]@[j]);
            }
        }
    }
    assert forall|a: Seq<char>, b: Seq<char>, w2: u64|
        g2.spec_edge_ids(a, b, w2) <==> (g1.spec_edge_ids(a, b, w2) || (a == g1.ids@[fl as int]@ && b
            == g1.ids@[tl as int]@ && w2 == w)) by {
        if g1.spec_edge_ids(a, b, w2) {
            let (u, v) = choose|u: int, v: int|
                {
                    &&& 0 <= u < g1.ids@.len()
                    &&& 0 <= v < g1.ids@.len()
                    &&& (#[trigger] g1.ids@[u])@ == a
                    &&& (#[trigger] g1.ids@[v])@ == b
                    &&& g1.spec_edge(u, v, w2)
                };
            let j = choose|j: int|
                0 <= j < g1.adj_list@[u]@.len() && (#[trigger] g1.adj_list@[u]@[j]).node == v
                    && g1.adj_list@[u]@[j].cost == w2;
            assert(g2.adj_list@[u]@[j].node == v && g2.adj_list@[u]@[j].cost == w2);
            assert(g2.spec_edge(u, v, w2));
            assert(g2.spec_edge_ids(a, b, w2));
        }
        if a == g1.ids@[fl as int]@ && b == g1.ids@[tl as int]@ && w2 == w {
            let j = g1.adj_list@[fl as int]@.len() as int;
            assert(g2.adj_list@[fl as int]@[j].node == tl && g2.adj_list@[fl as int]@[j].cost == w);
            assert(g2.spec_edge(fl as int, tl as int, w));
            assert(g2.spec_edge_ids(a, b, w2));
        }
        if g2.spec_edge_ids(a, b, w2) {
            let (u, v) = choose|u: int, v: int|
                {
                    &&& 0 <= u < g2.ids@.len()
                    &&& 0 <= v < g2.ids@.len()
                    &&& (#[trigger] g2.ids@[u])@ == a
                    &&& (#[trigger] g2.ids@[v])@ == b
                    &&& g2.spec_edge(u, v, w2)
                };
            let j = choose|j: int|
                0 <= j < g2.adj_list@[u]@.len() && (#[trigger] g2.adj_list@[u]@[j]).node == v
                    && g2.adj_list@[u]@[j].cost == w2;
            if u == fl as int && j == g1.adj_list@[fl as int]@.len() {
                assert(v == tl && w2 == w);
                assert(a == g1.ids@[fl as int]@ && b == g1.ids@[tl as int]@);
            } else {
                assert(g1.adj_list@[u]@[j].node == v && g1.adj_list@[u]@[j].cost == w2);
                assert(g1.spec_edge(u, v, w2));
                assert(g1.spec_edge_ids(a, b, w2));
            }
        }
    }
}

} // verus!
