//! End-to-end checks of the routing-tile reduction library on small,
//! hand-built networks.
use routable_tiles::binary::create_binary_tile;
use routable_tiles::cli::area::Areas;
use routable_tiles::cli::profile::Profiles;
use routable_tiles::cli::task::Task;
use routable_tiles::contract::{contract_way, create_contracted_tile, get_node_degrees};
use routable_tiles::coords::{adjacent_tiles, union_bbox, Bbox, TileCoordinate};
use routable_tiles::graph::Graph;
use routable_tiles::idmap::{IdMap, IdSet};
use routable_tiles::io::{get_bicycle_profile_path, get_car_profile_path, get_pedestrian_profile_path};
use routable_tiles::merge::{create_merged_tile, WayProxy};
use routable_tiles::node::Node;
use routable_tiles::profile::{Conclusion, Condition, Profile, Rule};
use routable_tiles::prune::create_profile_tile;
use routable_tiles::tile::{Tile, TileError, WayDistances};
use routable_tiles::transit::{create_transit_tile, get_edge_nodes, necessary_node_set};
use routable_tiles::way::{Segment, Way, WeightedSegment};

fn empty_tags() -> IdMap<String> {
    IdMap::new()
}

fn mk_node(id: &str, lat: i64, long: i64) -> Node {
    Node::new(id.to_string(), lat, long, empty_tags(), Vec::new())
}

fn mk_way(id: &str, nodes: &[&str]) -> Way {
    Way::new(
        id.to_string(),
        nodes.iter().map(|n| n.to_string()).collect(),
        None,
        None,
        empty_tags(),
        Vec::new(),
    )
}

fn empty_profile() -> Profile {
    Profile {
        max_speed: None,
        access_rules: Vec::new(),
        oneway_rules: Vec::new(),
        speed_rules: Vec::new(),
        priority_rules: Vec::new(),
        obstacle_rules: Vec::new(),
        obstacle_time_rules: Vec::new(),
    }
}

fn unconditional_rule(conclusion: Conclusion) -> Rule {
    Rule { condition: None, conclusion }
}

fn no_conclusion() -> Conclusion {
    Conclusion {
        has_access: None,
        is_oneway: None,
        has_speed: None,
        is_obstacle: None,
        has_obstacle_time: None,
        has_priority: None,
    }
}

/// Great-circle distance in meters between two points in microdegrees,
/// as the library's callers compute it before handing distances in.
fn haversine_m(lat1: i64, long1: i64, lat2: i64, long2: i64) -> u64 {
    let to_rad = |micro: i64| (micro as f64 / 1_000_000.0).to_radians();
    let (p1, l1, p2, l2) = (to_rad(lat1), to_rad(long1), to_rad(lat2), to_rad(long2));
    let a = ((p2 - p1) / 2.0).sin().powi(2) + p1.cos() * p2.cos() * ((l2 - l1) / 2.0).sin().powi(2);
    let c = 2.0 * a.sqrt().atan2((1.0 - a).sqrt());
    (6371.0 * c * 1000.0).round() as u64
}

fn seg_dists(tile: &Tile) -> WayDistances {
    let mut per_way = Vec::new();
    for wi in 0..tile.ways.len() {
        let way = &tile.ways.at(wi).1;
        let mut d = Vec::new();
        for i in 0..way.nodes.len() - 1 {
            let a = &tile.nodes.at(tile.nodes.find(&way.nodes[i]).unwrap()).1;
            let b = &tile.nodes.at(tile.nodes.find(&way.nodes[i + 1]).unwrap()).1;
            d.push(haversine_m(a.lat, a.long, b.lat, b.long));
        }
        per_way.push(d);
    }
    WayDistances { per_way }
}

fn abc_tile() -> Tile {
    let mut nodes: IdMap<Node> = IdMap::new();
    nodes.insert("a".to_string(), mk_node("a", 0, 0));
    nodes.insert("b".to_string(), mk_node("b", 0, 1_000_000));
    nodes.insert("c".to_string(), mk_node("c", 0, 2_000_000));
    let mut ways: IdMap<Way> = IdMap::new();
    ways.insert("w".to_string(), mk_way("w", &["a", "b", "c"]));
    Tile::new(TileCoordinate::new(1, 1, 14), nodes, ways)
}

#[test]
fn segments_of_three_node_way() {
    let way = mk_way("w", &["a", "b", "c"]);
    let segs = way.get_segments();
    assert_eq!(segs.len(), 2);
    assert_eq!(segs[0].from, "a");
    assert_eq!(segs[0].to, "b");
    assert_eq!(segs[1].from, "b");
    assert_eq!(segs[1].to, "c");

    let reversed = mk_way("w", &["c", "b", "a"]);
    let rsegs = reversed.get_segments();
    assert_eq!(rsegs.len(), segs.len());
    for i in 0..segs.len() {
        let mirror = &segs[segs.len() - 1 - i];
        assert_eq!(rsegs[i].from, mirror.to);
        assert_eq!(rsegs[i].to, mirror.from);
    }
}

#[test]
fn cost_is_at_least_one() {
    let profile = empty_profile();
    let way = mk_way("w", &["a", "b"]);
    let node = mk_node("b", 0, 0);
    // Zero distance still costs one millisecond.
    assert_eq!(profile.get_cost(&node, &way, 0), 1);
    // A tiny distance is floored at one as well.
    assert!(profile.get_cost(&node, &way, 1) >= 1);
}

#[test]
fn cost_formula_exact() {
    // Default speed is 5 km/h (stored as 5000), so each meter takes
    // 3_600_000 / 5_000 = 720 ms.
    let profile = empty_profile();
    let way = mk_way("w", &["a", "b"]);
    let node = mk_node("b", 0, 0);
    assert_eq!(profile.get_cost(&node, &way, 100), 72_000);
    assert_eq!(profile.get_duration(&way, 100), 72_000);

    // A priority of 2.0 (stored as 2000) halves the cost.
    let mut priority = no_conclusion();
    priority.has_priority = Some(2000);
    let mut p2 = empty_profile();
    p2.priority_rules.push(unconditional_rule(priority));
    assert_eq!(p2.get_cost(&node, &way, 100), 36_000);

    // Obstacle time at the destination is added before weighting.
    let mut obstacle = no_conclusion();
    obstacle.has_obstacle_time = Some(30_000);
    let mut p3 = empty_profile();
    p3.obstacle_time_rules.push(unconditional_rule(obstacle));
    assert_eq!(p3.get_cost(&node, &way, 100), 102_000);
}

#[test]
fn speed_rules_and_limits() {
    let mut speed = no_conclusion();
    speed.has_speed = Some(50_000);
    let mut p = empty_profile();
    p.speed_rules.push(unconditional_rule(speed));
    let way = mk_way("w", &["a", "b"]);
    assert_eq!(p.get_speed(&way), 50_000);

    // The way's own maximum caps the rule's speed.
    let mut limited = mk_way("w", &["a", "b"]);
    limited.max_speed = Some(30_000);
    assert_eq!(p.get_speed(&limited), 30_000);

    // Without any rule the default of 5 km/h applies.
    let p0 = empty_profile();
    assert_eq!(p0.get_speed(&way), 5_000);
    assert_eq!(p0.get_default_speed(), 5_000);
    assert_eq!(p0.get_max_speed(), 300_000);
}

#[test]
fn two_way_yields_four_segments() {
    // Nodes at (0,0), (0,1 degree), (0,2 degrees), one two-way way.
    let tile = abc_tile();
    let profile = empty_profile();
    let dists = seg_dists(&tile);
    let d_ab = dists.per_way[0][0];
    let d_bc = dists.per_way[0][1];

    let segs = tile.get_weighted_segments(&profile, &dists).unwrap();
    assert_eq!(segs.len(), 4);
    // Per pair: the reversed segment first, then the forward one.
    assert_eq!(segs[0].segment.from, "b");
    assert_eq!(segs[0].segment.to, "a");
    assert_eq!(segs[1].segment.from, "a");
    assert_eq!(segs[1].segment.to, "b");
    assert_eq!(segs[2].segment.from, "c");
    assert_eq!(segs[2].segment.to, "b");
    assert_eq!(segs[3].segment.from, "b");
    assert_eq!(segs[3].segment.to, "c");
    // Cost is distance over speed in milliseconds: 720 ms per meter at
    // the default 5 km/h.
    assert_eq!(segs[0].weight, d_ab * 720);
    assert_eq!(segs[1].weight, d_ab * 720);
    assert_eq!(segs[2].weight, d_bc * 720);
    assert_eq!(segs[3].weight, d_bc * 720);
}

#[test]
fn one_way_yields_two_segments() {
    let tile = abc_tile();
    let mut oneway = no_conclusion();
    oneway.is_oneway = Some(true);
    let mut profile = empty_profile();
    profile.oneway_rules.push(unconditional_rule(oneway));
    let dists = seg_dists(&tile);
    let segs = tile.get_weighted_segments(&profile, &dists).unwrap();
    assert_eq!(segs.len(), 2);
    assert_eq!(segs[0].segment.from, "a");
    assert_eq!(segs[0].segment.to, "b");
    assert_eq!(segs[1].segment.from, "b");
    assert_eq!(segs[1].segment.to, "c");
}

#[test]
fn obstacles_drop_segments() {
    let mut tile = abc_tile();
    let mut tags = IdMap::new();
    tags.insert("osm:barrier".to_string(), "osm:Gate".to_string());
    let blocked = Node::new("b".to_string(), 0, 1_000_000, tags, Vec::new());
    tile.nodes.insert("b".to_string(), blocked);

    let mut obstacle = no_conclusion();
    obstacle.is_obstacle = Some(true);
    let mut profile = empty_profile();
    profile.obstacle_rules.push(Rule {
        condition: Some(Condition {
            key: Some("osm:barrier".to_string()),
            value: Some("osm:Gate".to_string()),
        }),
        conclusion: obstacle,
    });
    let dists = seg_dists(&tile);
    let segs = tile.get_weighted_segments(&profile, &dists).unwrap();
    // Both pairs touch the blocked node, so nothing survives.
    assert_eq!(segs.len(), 0);
}

#[test]
fn corrupted_tile_is_reported() {
    let mut nodes: IdMap<Node> = IdMap::new();
    nodes.insert("a".to_string(), mk_node("a", 0, 0));
    let mut ways: IdMap<Way> = IdMap::new();
    ways.insert("w".to_string(), mk_way("w", &["a", "missing"]));
    let tile = Tile::new(TileCoordinate::new(1, 1, 14), nodes, ways);
    let profile = empty_profile();
    let dists = WayDistances { per_way: vec![vec![10]] };
    assert_eq!(
        tile.get_weighted_segments(&profile, &dists).unwrap_err(),
        TileError::CorruptedTile
    );
    let bounds = Bbox { east: 10, north: 10, west: -10, south: -10 };
    assert!(create_transit_tile(&tile, &bounds, &profile, &dists).is_err());
    assert!(create_profile_tile(&tile, &profile).is_err());
}

#[test]
fn query_settles_source_at_zero() {
    let segments = vec![
        WeightedSegment::new(Segment::new("a".to_string(), "b".to_string()), 5),
        WeightedSegment::new(Segment::new("b".to_string(), "c".to_string()), 7),
    ];
    let graph = Graph::new(segments);
    let a = graph.get_label(&"a".to_string()).unwrap();
    let (prev, dist) = graph.query_one_to_many(a, &vec![a]);
    assert_eq!(dist[a], 0);
    assert_eq!(prev[a], a);

    // The source is trivially included in its own necessary-node set.
    let mut known = IdSet::new();
    graph.necessary_nodes(&"a".to_string(), &vec!["a".to_string()], &mut known);
    assert!(known.contains(&"a".to_string()));
}

#[test]
fn query_finds_shortest_distances() {
    // a -> b cost 5, b -> c cost 7, a -> c direct cost 20: the path
    // through b wins.
    let segments = vec![
        WeightedSegment::new(Segment::new("a".to_string(), "b".to_string()), 5),
        WeightedSegment::new(Segment::new("b".to_string(), "c".to_string()), 7),
        WeightedSegment::new(Segment::new("a".to_string(), "c".to_string()), 20),
    ];
    let graph = Graph::new(segments);
    let a = graph.get_label(&"a".to_string()).unwrap();
    let b = graph.get_label(&"b".to_string()).unwrap();
    let c = graph.get_label(&"c".to_string()).unwrap();
    let (prev, dist) = graph.query_one_to_many(a, &vec![b, c]);
    assert_eq!(dist[a], 0);
    assert_eq!(dist[b], 5);
    assert_eq!(dist[c], 12);
    assert_eq!(prev[c], b);
    assert_eq!(prev[b], a);
}

#[test]
fn necessary_nodes_walks_shortest_path() {
    let segments = vec![
        WeightedSegment::new(Segment::new("a".to_string(), "b".to_string()), 5),
        WeightedSegment::new(Segment::new("b".to_string(), "c".to_string()), 7),
        WeightedSegment::new(Segment::new("a".to_string(), "c".to_string()), 20),
    ];
    let graph = Graph::new(segments);
    let mut known = IdSet::new();
    graph.necessary_nodes(&"a".to_string(), &vec!["c".to_string()], &mut known);
    // The interior node of the winning path is recorded too.
    assert!(known.contains(&"a".to_string()));
    assert!(known.contains(&"b".to_string()));
    assert!(known.contains(&"c".to_string()));
}

#[test]
fn extraction_is_deterministic_and_covers_boundary() {
    let tile = abc_tile();
    let profile = empty_profile();
    let dists = seg_dists(&tile);
    // A box that leaves nodes a and c outside: both are boundary nodes.
    let bounds = Bbox { east: 1_500_000, north: 500_000, west: 500_000, south: -500_000 };

    let segs = tile.get_weighted_segments(&profile, &dists).unwrap();
    let graph = Graph::new(segs);
    let edge = get_edge_nodes(&tile, &bounds);
    assert!(edge.contains(&"a".to_string()));
    assert!(edge.contains(&"c".to_string()));
    assert!(!edge.contains(&"b".to_string()));

    let n1 = necessary_node_set(&graph, &edge);
    // Every labeled boundary node is necessary.
    assert!(n1.contains(&"a".to_string()));
    assert!(n1.contains(&"c".to_string()));
    // And so is the interior node their shortest path crosses.
    assert!(n1.contains(&"b".to_string()));

    // Same tile and profile on a repeat run: the same set, in the same
    // order.
    let segs2 = tile.get_weighted_segments(&profile, &dists).unwrap();
    let n2 = necessary_node_set(&Graph::new(segs2), &edge);
    assert_eq!(n1.len(), n2.len());
    for i in 0..n1.len() {
        assert_eq!(n1.at(i), n2.at(i));
    }
}

#[test]
fn transit_tile_keeps_through_route() {
    // P9-style boundary scenario: c lies outside the box, b is adjacent
    // to it; the through-route a..c must survive whole.
    let tile = abc_tile();
    let profile = empty_profile();
    let dists = seg_dists(&tile);
    let bounds = Bbox { east: 1_500_000, north: 500_000, west: 500_000, south: -500_000 };
    let derived = create_transit_tile(&tile, &bounds, &profile, &dists).unwrap();
    assert!(derived.ways.contains_key(&"w".to_string()));
    let kept = &derived.ways.at(derived.ways.find(&"w".to_string()).unwrap()).1;
    assert_eq!(kept.nodes, vec!["a".to_string(), "b".to_string(), "c".to_string()]);
    assert!(derived.nodes.contains_key(&"a".to_string()));
    assert!(derived.nodes.contains_key(&"b".to_string()));
    assert!(derived.nodes.contains_key(&"c".to_string()));
}

#[test]
fn transit_tile_drops_unvisited_spur() {
    // A spur way hanging off the through-route, fully inside the box,
    // serves no boundary pair and disappears.
    let mut tile = abc_tile();
    tile.nodes.insert("s".to_string(), mk_node("s", 500_000, 1_000_000));
    tile.ways.insert("spur".to_string(), mk_way("spur", &["b", "s"]));
    let profile = empty_profile();
    let dists = seg_dists(&tile);
    let bounds = Bbox { east: 1_500_000, north: 600_000, west: 500_000, south: -500_000 };
    let derived = create_transit_tile(&tile, &bounds, &profile, &dists).unwrap();
    assert!(derived.ways.contains_key(&"w".to_string()));
    assert!(!derived.ways.contains_key(&"spur".to_string()));
    assert!(!derived.nodes.contains_key(&"s".to_string()));
}

#[test]
fn contraction_preserves_total_distance() {
    let way = mk_way("w", &["a", "b", "c", "d"]);
    let mut useful = IdSet::new();
    useful.insert("a".to_string());
    useful.insert("d".to_string());
    let seg_dist = vec![5u64, 7, 9];
    let contracted = contract_way(&way, &useful, &seg_dist);
    assert_eq!(contracted.nodes, vec!["a".to_string(), "d".to_string()]);
    let d = contracted.distances.as_ref().unwrap();
    assert_eq!(d.len(), 1);
    assert_eq!(d.iter().sum::<u64>(), 21);

    // Keeping an interior node splits the distance without losing any.
    let mut useful2 = IdSet::new();
    useful2.insert("c".to_string());
    useful2.insert("d".to_string());
    let contracted2 = contract_way(&way, &useful2, &seg_dist);
    assert_eq!(contracted2.nodes, vec!["a".to_string(), "c".to_string(), "d".to_string()]);
    let d2 = contracted2.distances.as_ref().unwrap();
    assert_eq!(d2, &vec![12u64, 9]);
    assert_eq!(d2.iter().sum::<u64>(), 21);
}

#[test]
fn contracted_tile_keeps_decision_nodes() {
    // b has degree 2 (two ways meet there), so contraction keeps it.
    let mut tile = abc_tile();
    tile.nodes.insert("s".to_string(), mk_node("s", 500_000, 1_000_000));
    tile.ways.insert("spur".to_string(), mk_way("spur", &["b", "s"]));
    let degrees = get_node_degrees(&tile);
    let b_idx = degrees.find(&"b".to_string()).unwrap();
    assert_eq!(degrees.at(b_idx).1, 2);

    let bounds = Bbox { east: 3_000_000, north: 1_000_000, west: -1_000_000, south: -1_000_000 };
    let dists = seg_dists(&tile);
    let contracted = create_contracted_tile(&tile, &bounds, &dists).unwrap();
    assert!(contracted.nodes.contains_key(&"a".to_string()));
    assert!(contracted.nodes.contains_key(&"b".to_string()));
    assert!(contracted.nodes.contains_key(&"c".to_string()));
    assert_eq!(contracted.ways.len(), 2);
}

#[test]
fn merge_restitches_fragments() {
    // Four sibling tiles each hold one boundary-contiguous fragment of
    // way W; the merge yields one way with the full node sequence.
    let parent = TileCoordinate::new(1, 1, 13);
    let children = parent.get_children();
    let node_names = ["n1", "n2", "n3", "n4", "n5"];
    let mut index: Vec<Tile> = Vec::new();
    for (i, pair) in [("n1", "n2"), ("n2", "n3"), ("n3", "n4"), ("n4", "n5")].iter().enumerate() {
        let mut nodes: IdMap<Node> = IdMap::new();
        for (j, name) in node_names.iter().enumerate() {
            nodes.insert(name.to_string(), mk_node(name, 0, (j as i64) * 1_000));
        }
        let mut ways: IdMap<Way> = IdMap::new();
        ways.insert("w".to_string(), mk_way("w", &[pair.0, pair.1]));
        index.push(Tile::new(children[i], nodes, ways));
    }
    let source_coords: Vec<TileCoordinate> = children.to_vec();
    let locations: IdMap<TileCoordinate> = IdMap::new();
    let merged = create_merged_tile(&index, &source_coords, parent, &locations);
    assert_eq!(merged.coordinate, parent);
    assert!(merged.ways.contains_key(&"w".to_string()));
    let stitched = &merged.ways.at(merged.ways.find(&"w".to_string()).unwrap()).1;
    let expected: Vec<String> = node_names.iter().map(|n| n.to_string()).collect();
    assert_eq!(stitched.nodes, expected);
}

#[test]
fn way_proxy_integrity() {
    let mut proxy = WayProxy::new();
    proxy.add_way(&mk_way("w", &["a", "b"]));
    proxy.add_way(&mk_way("w", &["c", "d"]));
    // Two chains that do not connect: two head candidates remain.
    let err = proxy.check_integrity().unwrap_err();
    assert!(err.contains(&"a".to_string()));
    assert!(err.contains(&"d".to_string()));

    proxy.add_way(&mk_way("w", &["b", "c"]));
    assert!(proxy.check_integrity().is_ok());
    assert_eq!(
        proxy.get_node_ids(),
        vec!["a".to_string(), "b".to_string(), "c".to_string(), "d".to_string()]
    );
}

#[test]
fn binary_tile_labels_and_edges() {
    let tile = abc_tile();
    let profile = empty_profile();
    let dists = seg_dists(&tile);
    let wt = create_binary_tile(&tile, &profile, &dists).unwrap();
    assert_eq!(wt.locations.len(), 3);
    assert_eq!(wt.labels.len(), 3);
    // Labels are dense and follow node order.
    for k in 0..3 {
        assert_eq!(wt.labels.at(k).1, k);
        assert_eq!(&wt.locations[k].id, &wt.labels.at(k).0);
    }
    // Two node pairs, both directions.
    assert_eq!(wt.edges.len(), 4);
    let d_ab = dists.per_way[0][0];
    assert_eq!(wt.edges[1].weight, d_ab * 720);
}

#[test]
fn profile_tile_prunes_tags() {
    let mut tile = abc_tile();
    let mut tags = IdMap::new();
    tags.insert("osm:highway".to_string(), "osm:Residential".to_string());
    tags.insert("osm:surface".to_string(), "osm:Asphalt".to_string());
    tags.insert("osm:name".to_string(), "Main Street".to_string());
    let way = Way::new(
        "w".to_string(),
        vec!["a".to_string(), "b".to_string(), "c".to_string()],
        None,
        None,
        tags,
        Vec::new(),
    );
    tile.ways.insert("w".to_string(), way);

    let mut access = no_conclusion();
    access.has_access = Some(true);
    let mut profile = empty_profile();
    profile.access_rules.push(Rule {
        condition: Some(Condition {
            key: Some("osm:highway".to_string()),
            value: Some("osm:Residential".to_string()),
        }),
        conclusion: access,
    });

    let concepts = profile.get_used_concepts();
    assert!(concepts.contains(&"osm:highway".to_string()));
    assert!(concepts.contains(&"osm:Residential".to_string()));
    assert!(!concepts.contains(&"osm:surface".to_string()));

    let derived = create_profile_tile(&tile, &profile).unwrap();
    let kept = &derived.ways.at(derived.ways.find(&"w".to_string()).unwrap()).1;
    assert!(kept.tags.contains_key(&"osm:highway".to_string()));
    assert!(kept.tags.contains_key(&"osm:name".to_string()));
    assert!(!kept.tags.contains_key(&"osm:surface".to_string()));
    assert_eq!(derived.nodes.len(), 3);
}

#[test]
fn profile_tile_drops_inaccessible_ways() {
    let tile = abc_tile();
    let mut no_access = no_conclusion();
    no_access.has_access = Some(false);
    let mut profile = empty_profile();
    profile.access_rules.push(unconditional_rule(no_access));
    let derived = create_profile_tile(&tile, &profile).unwrap();
    assert_eq!(derived.ways.len(), 0);
    assert_eq!(derived.nodes.len(), 0);
}

#[test]
fn profile_wf_checks() {
    let mut p = empty_profile();
    assert!(p.is_wf());
    // A priority rule lacking its conclusion makes the profile invalid.
    p.priority_rules.push(unconditional_rule(no_conclusion()));
    assert!(!p.is_wf());
}

#[test]
fn tile_coordinates_and_rings() {
    let c = TileCoordinate::new(2, 3, 7);
    let children = c.get_children();
    assert_eq!(children[0], TileCoordinate::new(4, 6, 8));
    assert_eq!(children[3], TileCoordinate::new(5, 7, 8));

    // One zoom step: the tile covers 2x2 tiles, surrounded by a ring of
    // 12 tiles.
    let ring = adjacent_tiles(&c, 8);
    assert_eq!(ring.len(), 12);
    assert!(ring.contains(&TileCoordinate::new(3, 5, 8)));
    assert!(ring.contains(&TileCoordinate::new(6, 8, 8)));
    assert!(!ring.contains(&TileCoordinate::new(4, 6, 8)));

    // At the same zoom the ring is just the eight neighbors.
    let same = adjacent_tiles(&c, 7);
    assert_eq!(same.len(), 8);
}

#[test]
fn bbox_union_and_membership() {
    let boxes = vec![
        Bbox { east: 10, north: 5, west: -3, south: -8 },
        Bbox { east: 4, north: 9, west: 1, south: -2 },
    ];
    let u = union_bbox(&boxes);
    assert_eq!(u, Bbox { east: 10, north: 9, west: -3, south: -8 });
    assert!(u.contains(0, 0));
    assert!(!u.contains(11, 0));
}

#[test]
fn parser_round_trips() {
    assert_eq!(Areas::from_str("belgium"), Some(Areas::Belgium));
    assert_eq!(Areas::from_str("dummy"), Some(Areas::Dummy));
    assert_eq!(Areas::from_str("mars"), None);
    assert_eq!(Profiles::from_str("car"), Some(Profiles::Car));
    assert_eq!(Profiles::from_str("boat"), None);
    assert_eq!(Task::from_str("merge"), Some(Task::Merge));
    assert_eq!(Task::from_str("reduce_padded_transit"), Some(Task::ReducePaddedTransit));
    assert_eq!(Task::from_str("nonsense"), None);
    assert_eq!(Task::Merge.label(), "merge");
    assert_eq!(Task::ReduceProfile.label(), "reduce_profile");
}

#[test]
fn profile_paths() {
    assert_eq!(get_car_profile_path(), "./car.jsonld");
    assert_eq!(get_pedestrian_profile_path(), "./pedestrian.jsonld");
    assert_eq!(get_bicycle_profile_path(), "./bicycle.jsonld");
}

#[test]
fn io_error_shapes() {
    let e1 = routable_tiles::io::profile::Error::NotAFile;
    assert_eq!(e1, routable_tiles::io::profile::Error::NotAFile);
    let e2 = routable_tiles::io::tiles::Error::NotAFile("/gone".to_string());
    match e2 {
        routable_tiles::io::tiles::Error::NotAFile(p) => assert_eq!(p, "/gone"),
        _ => panic!("wrong variant"),
    }
}

#[test]
fn graph_labels_are_dense_and_stable() {
    let segments = vec![
        WeightedSegment::new(Segment::new("x".to_string(), "y".to_string()), 3),
        WeightedSegment::new(Segment::new("y".to_string(), "x".to_string()), 3),
    ];
    let mut graph = Graph::new(segments);
    assert_eq!(graph.get_label(&"x".to_string()), Some(0));
    assert_eq!(graph.get_label(&"y".to_string()), Some(1));
    assert_eq!(graph.get_label(&"z".to_string()), None);
    // Re-labeling an existing id returns its old label.
    assert_eq!(graph.get_label_mut(&"x".to_string()), 0);
    assert_eq!(graph.get_label_mut(&"z".to_string()), 2);
}

#[test]
fn unreachable_target_stays_at_infinity() {
    // Only a -> b exists; from b nothing is reachable.
    let segments = vec![WeightedSegment::new(
        Segment::new("a".to_string(), "b".to_string()),
        5,
    )];
    let graph = Graph::new(segments);
    let a = graph.get_label(&"a".to_string()).unwrap();
    let b = graph.get_label(&"b".to_string()).unwrap();
    let (prev, dist) = graph.query_one_to_many(b, &vec![a]);
    assert_eq!(dist[b], 0);
    assert_eq!(dist[a], routable_tiles::graph::INFINITY);
    // Unreached nodes point back at the source.
    assert_eq!(prev[a], b);
}

#[test]
fn unreachable_boundary_pair_contributes_endpoints_only() {
    let segments = vec![WeightedSegment::new(
        Segment::new("a".to_string(), "b".to_string()),
        5,
    )];
    let graph = Graph::new(segments);
    let mut known = IdSet::new();
    graph.necessary_nodes(&"b".to_string(), &vec!["a".to_string()], &mut known);
    // The pair is unreachable: only the two endpoints are recorded, and
    // the batch goes on without an error.
    assert!(known.contains(&"a".to_string()));
    assert!(known.contains(&"b".to_string()));
    assert_eq!(known.len(), 2);
}
