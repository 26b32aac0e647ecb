use scooter_routing::spatial::snap_entry;
use scooter_routing::api::{
    answer_route, answer_snapped, default_profile, file_extension, mime_type, profile_for, static_file_path, url_encode, AppState,
    RouteAnswer,
};
use scooter_routing::graph::{HighwayType, RoadGraph};
use scooter_routing::profile::{Profile, VehicleType};
use scooter_routing::queue::MinQueue;
use scooter_routing::routing::route;

fn two_way(g: &mut RoadGraph, a: u32, b: u32, length: u16, h: HighwayType) {
    let speed = (h.base_speed() / 2) as u8;
    g.add_edge_raw(a, b, length, speed, h, false, false);
    g.add_edge_raw(b, a, length, speed, h, false, false);
}

/// 0 -- 1 -- 3 over residential streets, 0 -- 3 directly over a longer
/// street, and 0 -- 2 -- 3 over a motorway.
fn sample_graph() -> RoadGraph {
    let mut g = RoadGraph::new();
    g.add_node(1, 437_000_000, 72_600_000);
    g.add_node(2, 437_010_000, 72_600_000);
    g.add_node(3, 437_000_000, 72_610_000);
    g.add_node(4, 437_020_000, 72_600_000);
    two_way(&mut g, 0, 1, 20, HighwayType::Residential);
    two_way(&mut g, 1, 3, 30, HighwayType::Residential);
    two_way(&mut g, 0, 3, 100, HighwayType::Residential);
    two_way(&mut g, 0, 2, 1, HighwayType::Motorway);
    two_way(&mut g, 2, 3, 1, HighwayType::Motorway);
    g
}

fn zero(_: u32) -> u64 {
    0
}

#[test]
fn route_takes_residential_streets() {
    let g = sample_graph();
    let spatial = g.build_spatial_index();
    let p = Profile::for_vehicle(VehicleType::Scooter50);
    let r = route(&g, 0, 3, &p, &spatial, zero).unwrap();
    assert!(r.found);
    assert_eq!(r.path, vec![(72_600_000, 437_000_000), (72_600_000, 437_010_000), (72_600_000, 437_020_000)]);
    // 100 m + 150 m = 250 m.
    assert_eq!(r.distance_hm, 3);
    assert_eq!(r.duration_min, 0);
}

#[test]
fn route_never_uses_motorways() {
    let g = sample_graph();
    let spatial = g.build_spatial_index();
    let p = Profile::for_vehicle(VehicleType::Voiturette);
    // Node 2 is reachable only by motorway.
    assert!(route(&g, 0, 2, &p, &spatial, zero).is_none());
    assert!(route(&g, 2, 0, &p, &spatial, |_| 7).is_none());
}

#[test]
fn route_to_itself() {
    let g = sample_graph();
    let spatial = g.build_spatial_index();
    let p = Profile::for_vehicle(VehicleType::Scooter50);
    let r = route(&g, 1, 1, &p, &spatial, zero).unwrap();
    assert_eq!(r.path, vec![(72_600_000, 437_010_000)]);
    assert_eq!(r.distance_hm, 0);
    assert_eq!(r.duration_min, 0);
}

#[test]
fn route_blocks_motorroads_and_respects_oneway() {
    let mut g = RoadGraph::new();
    g.add_node(1, 0, 0);
    g.add_node(2, 0, 10);
    g.add_node(3, 0, 20);
    g.add_edge_raw(0, 1, 10, 45, HighwayType::Trunk, false, true);
    g.add_edge_raw(1, 2, 10, 15, HighwayType::Residential, true, false);
    let spatial = g.build_spatial_index();
    let p = Profile::for_vehicle(VehicleType::Scooter50);
    assert!(route(&g, 0, 2, &p, &spatial, zero).is_none());
    assert!(route(&g, 1, 2, &p, &spatial, zero).is_some());
    assert!(route(&g, 2, 1, &p, &spatial, zero).is_none());
    let open = Profile { name: String::from("open"), max_speed_kmh: 45, block_motorway: true, block_motorroad: false };
    assert!(route(&g, 0, 2, &open, &spatial, zero).is_some());
}

#[test]
fn route_summary_formulas() {
    let mut g = RoadGraph::new();
    g.add_node(1, 0, 0);
    g.add_node(2, 0, 100);
    g.add_node(3, 0, 200);
    g.add_edge_raw(0, 1, 400, 15, HighwayType::Residential, true, false);
    g.add_edge_raw(1, 2, 415, 15, HighwayType::Residential, true, false);
    let spatial = g.build_spatial_index();
    let p = Profile::for_vehicle(VehicleType::Scooter50);
    let r = route(&g, 0, 2, &p, &spatial, |v| if v == 2 { 0 } else { 1_000 }).unwrap();
    // 2000 m + 2075 m = 4075 m: 40.75 -> 41 tenths of a km, 5.43 -> 5 minutes at 45 km/h.
    assert_eq!(r.distance_hm, 41);
    assert_eq!(r.duration_min, 5);
    assert_eq!(r.path.len(), 3);
}

#[test]
fn route_distance_counts_first_edge_between_nodes() {
    let mut g = RoadGraph::new();
    g.add_node(1, 0, 0);
    g.add_node(2, 0, 100);
    g.add_edge_raw(0, 1, 100, 55, HighwayType::Motorway, true, false);
    g.add_edge_raw(0, 1, 10, 15, HighwayType::Residential, true, false);
    let spatial = g.build_spatial_index();
    let p = Profile::for_vehicle(VehicleType::Scooter50);
    let r = route(&g, 0, 1, &p, &spatial, zero).unwrap();
    // The residential edge is ridden, but the first edge from 0 to 1 (500 m) is measured.
    assert_eq!(r.distance_hm, 5);
    assert_eq!(r.duration_min, 1);
}

#[test]
fn nearest_node_within_range() {
    let g = sample_graph();
    let t = g.build_spatial_index();
    assert_eq!(g.nearest_node(&t, 437_010_100, 72_600_000, 500), Some(1));
    assert_eq!(g.nearest_node(&t, 437_019_000, 72_600_100, 500), Some(3));
    // About 556 m north of node 3.
    assert_eq!(g.nearest_node(&t, 437_070_000, 72_600_000, 500), None);
    assert_eq!(g.nearest_node(&t, 437_070_000, 72_600_000, 600), Some(3));
    let empty = RoadGraph::new();
    let te = empty.build_spatial_index();
    assert_eq!(empty.nearest_node(&te, 0, 0, 500), None);
}

fn no_estimate(_: u32, _: u32, _: u32) -> u64 {
    0
}

#[test]
fn answer_route_outcomes() {
    let state = AppState::new(sample_graph());
    match answer_route(&state, 437_000_000, 72_600_000, 437_020_000, 72_600_000, "voiturette", no_estimate) {
        RouteAnswer::Found { result, max_speed_kmh, profile } => {
            assert_eq!(max_speed_kmh, 70);
            assert_eq!(profile, "voiturette");
            assert_eq!(result.path.len(), 3);
        },
        _ => panic!("expected a route"),
    }
    match answer_route(&state, 437_000_000, 72_600_000, 437_020_000, 72_600_000, "bus", no_estimate) {
        RouteAnswer::Found { max_speed_kmh, profile, .. } => {
            assert_eq!(max_speed_kmh, 45);
            assert_eq!(profile, "scooter");
        },
        _ => panic!("expected a route"),
    }
    assert!(matches!(
        answer_route(&state, 447_000_000, 72_600_000, 437_020_000, 72_600_000, "scooter", no_estimate),
        RouteAnswer::NoDeparture
    ));
    assert!(matches!(
        answer_route(&state, 437_000_000, 72_600_000, 427_000_000, 72_600_000, "scooter", no_estimate),
        RouteAnswer::NoArrival
    ));
    assert!(matches!(
        answer_route(&state, 437_000_000, 72_600_000, 437_000_000, 72_610_000, "scooter", no_estimate),
        RouteAnswer::NoRoute
    ));
}

#[test]
fn profile_names() {
    assert_eq!(default_profile(), "scooter");
    assert_eq!(profile_for("voiturette").max_speed_kmh, 70);
    assert_eq!(profile_for("scooter").name, "scooter");
    assert_eq!(profile_for("").name, "scooter");
}

#[test]
fn url_encoding() {
    assert_eq!(url_encode("abc_XYZ.09-~"), "abc_XYZ.09-~");
    assert_eq!(url_encode("a b"), "a+b");
    assert_eq!(url_encode("[out:json];"), "%5Bout%3Ajson%5D%3B");
    assert_eq!(url_encode("\"highway\"=\"trunk\""), "%22highway%22%3D%22trunk%22");
    assert_eq!(url_encode("é"), "%E9");
    assert_eq!(url_encode("€"), "%AC");
    assert_eq!(url_encode(""), "");
}

#[test]
fn mime_types() {
    assert_eq!(mime_type("svg"), "image/svg+xml");
    assert_eq!(mime_type("json"), "application/manifest+json");
    assert_eq!(mime_type("js"), "application/javascript");
    assert_eq!(mime_type("css"), "text/css");
    assert_eq!(mime_type("png"), "image/png");
    assert_eq!(mime_type("html"), "application/octet-stream");
}

#[test]
fn min_queue_order() {
    let mut q = MinQueue::new();
    for (k, n) in [(5u128, 1u32), (3, 2), (9, 3), (3, 4), (1, 5), (7, 6)] {
        q.push(k, n);
    }
    assert_eq!(q.len(), 6);
    let mut keys = Vec::new();
    while let Some((k, _)) = q.pop() {
        keys.push(k);
    }
    assert_eq!(keys, vec![1, 3, 3, 5, 7, 9]);
    assert_eq!(q.pop(), None);
}

#[test]
fn faster_profile_prefers_quicker_roads() {
    // 0 -- 1 over 500 m of trunk road, or 0 -- 2 -- 1 over 2 x 125 m of
    // residential street.
    let mut g = RoadGraph::new();
    g.add_node(1, 437_000_000, 72_600_000);
    g.add_node(2, 437_050_000, 72_600_000);
    g.add_node(3, 437_020_000, 72_620_000);
    two_way(&mut g, 0, 1, 100, HighwayType::Trunk);
    two_way(&mut g, 0, 2, 25, HighwayType::Residential);
    two_way(&mut g, 2, 1, 25, HighwayType::Residential);
    let spatial = g.build_spatial_index();
    // Scooter: 500 m at 25 km/h takes longer than 250 m at 14 km/h.
    let s = Profile::for_vehicle(VehicleType::Scooter50);
    let rs = route(&g, 0, 1, &s, &spatial, zero).unwrap();
    assert_eq!(rs.path.len(), 3);
    assert_eq!(rs.distance_hm, 3);
    // Licence-free car: 500 m at 35 km/h beats 250 m at 16 km/h.
    let v = Profile::for_vehicle(VehicleType::Voiturette);
    let rv = route(&g, 0, 1, &v, &spatial, zero).unwrap();
    assert_eq!(rv.path, vec![(72_600_000, 437_000_000), (72_600_000, 437_050_000)]);
    assert_eq!(rv.distance_hm, 5);
}

#[test]
fn static_paths_and_extensions() {
    assert_eq!(static_file_path("/app.js"), "app.js");
    assert_eq!(static_file_path("//icons/a.svg"), "icons/a.svg");
    assert_eq!(static_file_path("plain"), "plain");
    assert_eq!(static_file_path("///"), "");
    assert_eq!(static_file_path("a/b/"), "a/b/");
    assert_eq!(file_extension("icons/logo.svg"), "svg");
    assert_eq!(file_extension("archive.tar.gz"), "gz");
    assert_eq!(file_extension("README"), "README");
    assert_eq!(file_extension("dir.v2/file"), "v2/file");
    assert_eq!(file_extension("trailing."), "");
    assert_eq!(file_extension("café.é"), "é");
    assert_eq!(mime_type(file_extension(static_file_path("/icons.json"))), "application/manifest+json");
    assert_eq!(mime_type(file_extension(static_file_path("/svg"))), "image/svg+xml");
}

#[test]
fn duration_follows_profile_top_speed() {
    let mut g = RoadGraph::new();
    g.add_node(1, 437_000_000, 72_600_000);
    g.add_node(2, 437_000_000, 72_600_000);
    // 6 km of primary road.
    g.add_edge_raw(0, 1, 1200, 45, HighwayType::Primary, true, false);
    let spatial = g.build_spatial_index();
    let v = Profile::for_vehicle(VehicleType::Voiturette);
    let rv = route(&g, 0, 1, &v, &spatial, zero).unwrap();
    // 6 km at 70 km/h: 5.14 -> 5 minutes.
    assert_eq!(rv.duration_min, 5);
    assert_eq!(rv.distance_hm, 60);
    let s = Profile::for_vehicle(VehicleType::Scooter50);
    let rs = route(&g, 0, 1, &s, &spatial, zero).unwrap();
    // 6 km at 45 km/h: 8 minutes.
    assert_eq!(rs.duration_min, 8);
    let stopped = Profile { name: String::from("stopped"), max_speed_kmh: 0, block_motorway: true, block_motorroad: true };
    assert!(route(&g, 0, 1, &stopped, &spatial, zero).is_none());
    assert_eq!(route(&g, 1, 1, &stopped, &spatial, zero).unwrap().duration_min, 0);
}

#[test]
fn blocked_edges_change_nothing() {
    let g = sample_graph();
    let mut g2 = sample_graph();
    // Add a motorway shortcut and a motorroad shortcut that no profile may ride.
    g2.add_edge_raw(0, 3, 1, 55, HighwayType::Motorway, false, false);
    g2.add_edge_raw(0, 1, 1, 15, HighwayType::Residential, false, true);
    g2.add_edge_raw(1, 3, 1, 15, HighwayType::Trunk, false, true);
    let t = g.build_spatial_index();
    let t2 = g2.build_spatial_index();
    for v in [VehicleType::Scooter50, VehicleType::Voiturette] {
        let p = Profile::for_vehicle(v);
        for (from, to) in [(0u32, 3u32), (3, 0), (0, 2), (1, 1)] {
            let a = route(&g, from, to, &p, &t, zero);
            let b = route(&g2, from, to, &p, &t2, zero);
            match (a, b) {
                (None, None) => {}
                (Some(a), Some(b)) => {
                    assert_eq!(a.path, b.path);
                    assert_eq!(a.distance_hm, b.distance_hm);
                    assert_eq!(a.duration_min, b.duration_min);
                }
                _ => panic!("blocked edges changed whether a route exists"),
            }
        }
    }
}

fn form_decode(s: &str) -> String {
    let cs: Vec<char> = s.chars().collect();
    let mut out = String::new();
    let mut i = 0;
    while i < cs.len() {
        if cs[i] == '+' {
            out.push(' ');
            i += 1;
        } else if cs[i] == '%' && i + 2 < cs.len() {
            let code = u8::from_str_radix(&s[i + 1..i + 3], 16).unwrap();
            out.push(code as char);
            i += 3;
        } else {
            out.push(cs[i]);
            i += 1;
        }
    }
    out
}

#[test]
fn url_encoding_round_trip_and_length() {
    let samples = [
        "",
        "abc",
        "a b/c",
        "[out:json][timeout:15];(way[\"highway\"=\"motorway\"](43.6,7.2,43.7,7.3););out body;>;out skel qt;",
        "100% + 50% = ~150%",
        "~_.-",
    ];
    for s in samples {
        let e = url_encode(s);
        assert_eq!(form_decode(&e), s);
        let escaped = s
            .chars()
            .filter(|c| !(c.is_ascii_alphanumeric() || "_.-~ ".contains(*c)))
            .count();
        assert_eq!(e.chars().count(), s.chars().count() + 2 * escaped);
        assert!(e.chars().all(|c| c.is_ascii_alphanumeric() || "_.-~+%".contains(c)));
    }
}

#[test]
fn snapping_an_entry() {
    assert_eq!(snap_entry(None, 437_000_000, 72_600_000, 500), None);
    // The entry is (lon, lat, node); 0.001 degree of latitude is about 111 m.
    let e = Some((72_600_000i128, 437_010_000i128, 7u32));
    assert_eq!(snap_entry(e, 437_000_000, 72_600_000, 500), Some(7));
    assert_eq!(snap_entry(e, 437_000_000, 72_600_000, 100), None);
    assert_eq!(snap_entry(e, 437_010_000, 72_600_000, 0), Some(7));
}

#[test]
fn answers_for_snapped_ends() {
    let state = AppState::new(sample_graph());
    assert!(matches!(answer_snapped(&state, None, Some(3), "scooter", no_estimate), RouteAnswer::NoDeparture));
    assert!(matches!(answer_snapped(&state, None, None, "scooter", no_estimate), RouteAnswer::NoDeparture));
    assert!(matches!(answer_snapped(&state, Some(0), None, "scooter", no_estimate), RouteAnswer::NoArrival));
    // Node 2 is reachable only by motorway.
    assert!(matches!(answer_snapped(&state, Some(0), Some(2), "voiturette", no_estimate), RouteAnswer::NoRoute));
    match answer_snapped(&state, Some(0), Some(3), "scooter", no_estimate) {
        RouteAnswer::Found { result, max_speed_kmh, profile } => {
            assert_eq!(max_speed_kmh, 45);
            assert_eq!(profile, "scooter");
            assert_eq!(result.path.len(), 3);
            assert_eq!(result.distance_hm, 3);
        },
        _ => panic!("expected a route"),
    }
}
