use scooter_routing::graph::HighwayType;
use scooter_routing::pbf::{classify_way, raised_layer, tag_map, GraphBuilder, MaxSpeed, WayAttrs};

fn tags(pairs: &[(&str, &str)]) -> scooter_routing::pbf::TagMap {
    let v: Vec<(String, String)> = pairs.iter().map(|(k, v)| (k.to_string(), v.to_string())).collect();
    tag_map(&v)
}

#[test]
fn tag_map_later_value_wins() {
    let t = tags(&[("highway", "primary"), ("name", "A"), ("highway", "residential")]);
    assert_eq!(t.get("highway").map(|s| s.as_str()), Some("residential"));
    assert_eq!(t.get("name").map(|s| s.as_str()), Some("A"));
    assert!(t.get("oneway").is_none());
    assert!(t.has_value("name", "A"));
    assert!(!t.has_value("name", "B"));
}

#[test]
fn classify_skips_non_roads() {
    assert_eq!(classify_way(&tags(&[("name", "x")]), None), None);
    for hw in ["footway", "pedestrian", "path", "cycleway", "track", "bridleway", "steps", "corridor",
        "elevator", "proposed", "construction", "raceway"] {
        assert_eq!(classify_way(&tags(&[("highway", hw)]), None), None);
    }
    assert_eq!(classify_way(&tags(&[("highway", "primary"), ("access", "no")]), None), None);
    assert_eq!(classify_way(&tags(&[("highway", "primary"), ("vehicle", "no")]), None), None);
    assert_eq!(classify_way(&tags(&[("highway", "primary"), ("motor_vehicle", "no")]), None), None);
    assert!(classify_way(&tags(&[("highway", "primary"), ("access", "yes")]), None).is_some());
}

#[test]
fn classify_attributes() {
    let a = classify_way(&tags(&[("highway", "residential"), ("oneway", "yes")]), None).unwrap();
    assert_eq!(a, WayAttrs { highway: HighwayType::Residential, oneway: true, motorroad: false, speed: 15 });
    let b = classify_way(&tags(&[("highway", "primary")]), Some(MaxSpeed { at_least_80: false, half_kmh: 25 })).unwrap();
    assert_eq!(b.speed, 25);
    assert!(!b.oneway);
    let c = classify_way(&tags(&[("highway", "unknown_kind")]), None).unwrap();
    assert_eq!(c.highway, HighwayType::Other);
    assert_eq!(c.speed, 25);
}

#[test]
fn classify_voie_rapide() {
    // Trunk closed to pedestrians and cyclists.
    let a = classify_way(&tags(&[("highway", "trunk"), ("foot", "no"), ("bicycle", "no")]), None).unwrap();
    assert!(a.motorroad);
    // Only one of the two is not enough.
    let b = classify_way(&tags(&[("highway", "trunk"), ("foot", "no")]), None).unwrap();
    assert!(!b.motorroad);
    // Trunk on a bridge or a raised layer.
    assert!(classify_way(&tags(&[("highway", "trunk"), ("bridge", "viaduct")]), None).unwrap().motorroad);
    assert!(classify_way(&tags(&[("highway", "trunk"), ("bridge", "yes")]), None).unwrap().motorroad);
    assert!(classify_way(&tags(&[("highway", "trunk"), ("layer", "1")]), None).unwrap().motorroad);
    assert!(classify_way(&tags(&[("highway", "trunk"), ("layer", "02")]), None).unwrap().motorroad);
    assert!(classify_way(&tags(&[("highway", "trunk"), ("layer", "+1")]), None).unwrap().motorroad);
    // Not a bridge, not raised: a plain trunk stays open.
    assert!(!classify_way(&tags(&[("highway", "trunk"), ("bridge", "no")]), None).unwrap().motorroad);
    assert!(!classify_way(&tags(&[("highway", "trunk"), ("layer", "-1")]), None).unwrap().motorroad);
    assert!(!classify_way(&tags(&[("highway", "trunk"), ("layer", "0")]), None).unwrap().motorroad);
    assert!(!classify_way(&tags(&[("highway", "trunk"), ("layer", "")]), None).unwrap().motorroad);
    // A bridge that is not a trunk road is not flagged.
    assert!(!classify_way(&tags(&[("highway", "primary"), ("bridge", "yes")]), None).unwrap().motorroad);
    // Trunk signposted at 80 or more.
    assert!(classify_way(&tags(&[("highway", "trunk")]), Some(MaxSpeed { at_least_80: true, half_kmh: 40 })).unwrap().motorroad);
    assert!(!classify_way(&tags(&[("highway", "trunk")]), Some(MaxSpeed { at_least_80: false, half_kmh: 35 })).unwrap().motorroad);
    // Trunk links are not caught by the heuristic.
    assert!(!classify_way(&tags(&[("highway", "trunk_link"), ("foot", "no"), ("bicycle", "no")]), None).unwrap().motorroad);
    // motorroad=yes on any class.
    assert!(classify_way(&tags(&[("highway", "primary"), ("motorroad", "yes")]), None).unwrap().motorroad);
    // A plain trunk stays open.
    let plain = classify_way(&tags(&[("highway", "trunk")]), None).unwrap();
    assert!(!plain.motorroad);
    assert_eq!(plain.speed, 45);
}

fn builder_with_coords() -> GraphBuilder {
    let mut b = GraphBuilder::new();
    b.add_coordinate(10, 437_000_000, 72_600_000);
    b.add_coordinate(11, 437_010_000, 72_600_000);
    b.add_coordinate(12, 437_020_000, 72_600_000);
    b
}

#[test]
fn builder_two_way_road() {
    let mut b = builder_with_coords();
    let t = tags(&[("highway", "residential")]);
    b.add_way(&t, &vec![10, 11, 12], None, &vec![Some(22), Some(23)]);
    let g = b.finish();
    assert_eq!(g.nodes.len(), 3);
    assert_eq!(g.nodes[0].osm_id, 10);
    assert_eq!(g.nodes[2].lat, 437_020_000);
    assert_eq!(g.adjacency[0].len(), 1);
    assert_eq!(g.adjacency[1].len(), 2);
    assert_eq!(g.adjacency[2].len(), 1);
    assert_eq!(g.adjacency[0][0].to, 1);
    assert_eq!(g.adjacency[0][0].length, 22);
    assert_eq!(g.adjacency[1][0].to, 0);
    assert_eq!(g.adjacency[1][1].to, 2);
    assert_eq!(g.adjacency[1][1].length, 23);
    assert_eq!(g.adjacency[1][1].speed, 15);
    assert!(!g.adjacency[1][0].oneway);
}

#[test]
fn builder_oneway_and_gaps() {
    let mut b = builder_with_coords();
    let t = tags(&[("highway", "primary"), ("oneway", "yes")]);
    // Node 99 has no coordinates; the second segment is too short.
    b.add_way(&t, &vec![10, 99, 11, 12], None, &vec![Some(5), Some(5), None]);
    let g = b.finish();
    assert_eq!(g.nodes.len(), 3);
    assert_eq!(g.nodes[1].osm_id, 11);
    assert!(g.adjacency.iter().all(|a| a.is_empty()));
}

#[test]
fn builder_reuses_nodes_and_skips_ways() {
    let mut b = builder_with_coords();
    b.add_way(&tags(&[("highway", "footway")]), &vec![10, 11], None, &vec![Some(3)]);
    assert_eq!(b.graph.nodes.len(), 0);
    b.add_way(&tags(&[("highway", "service")]), &vec![10], None, &vec![]);
    assert_eq!(b.graph.nodes.len(), 0);
    b.add_way(&tags(&[("highway", "service"), ("oneway", "yes")]), &vec![11, 10], None, &vec![Some(3)]);
    b.add_way(&tags(&[("highway", "service"), ("oneway", "yes")]), &vec![10, 12], None, &vec![Some(4)]);
    let g = b.finish();
    assert_eq!(g.nodes.len(), 3);
    assert_eq!(g.nodes[0].osm_id, 11);
    assert_eq!(g.nodes[1].osm_id, 10);
    assert_eq!(g.nodes[2].osm_id, 12);
    assert_eq!(g.adjacency[0][0].to, 1);
    assert_eq!(g.adjacency[1][0].to, 2);
    assert_eq!(g.adjacency[1][0].length, 4);
}

#[test]
fn builder_flags_expressway_edges() {
    let mut b = builder_with_coords();
    let t = tags(&[("highway", "trunk"), ("foot", "no"), ("bicycle", "no")]);
    b.add_way(&t, &vec![10, 11], None, &vec![Some(40)]);
    let g = b.finish();
    assert!(g.adjacency[0][0].motorroad);
    assert!(g.adjacency[1][0].motorroad);
    assert_eq!(g.adjacency[0][0].speed, 45);
}

#[test]
fn builder_adds_each_osm_node_once() {
    let mut b = builder_with_coords();
    // A closed way comes back to its first node.
    b.add_way(&tags(&[("highway", "residential")]), &vec![10, 11, 12, 10], None, &vec![Some(2), Some(3), Some(4)]);
    b.add_way(&tags(&[("highway", "residential")]), &vec![12, 11], None, &vec![Some(3)]);
    assert_eq!(b.graph.nodes.len(), 3);
    for id in [10i64, 11, 12] {
        let idx = *b.node_ids.get(&id).unwrap();
        assert_eq!(b.graph.nodes[idx as usize].osm_id, id);
    }
    let g = b.finish();
    // Node 10 has edges to 11 and, closing the loop, back from 12.
    assert_eq!(g.adjacency[0].len(), 2);
    assert_eq!(g.adjacency[0][1].to, 2);
}

#[test]
fn raised_layers() {
    assert!(raised_layer("1"));
    assert!(raised_layer("3"));
    assert!(raised_layer("10"));
    assert!(raised_layer("001"));
    assert!(!raised_layer("0"));
    assert!(!raised_layer("00"));
    assert!(!raised_layer("-1"));
    assert!(!raised_layer(""));
    assert!(!raised_layer("1.5"));
    assert!(!raised_layer("yes"));
    assert!(raised_layer("+1"));
    assert!(raised_layer("+12"));
    assert!(!raised_layer("+0"));
    assert!(!raised_layer("+"));
    assert!(!raised_layer("++1"));
    assert!(!raised_layer("1+"));
}
