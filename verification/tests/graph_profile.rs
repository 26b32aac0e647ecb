use scooter_routing::graph::{GraphNode, HighwayType, RoadEdge, RoadGraph};
use scooter_routing::profile::{Profile, VehicleType};

#[test]
fn highway_from_str_known_values() {
    let cases = [
        ("motorway", HighwayType::Motorway),
        ("motorway_link", HighwayType::MotorwayLink),
        ("trunk", HighwayType::Trunk),
        ("trunk_link", HighwayType::TrunkLink),
        ("primary", HighwayType::Primary),
        ("primary_link", HighwayType::PrimaryLink),
        ("secondary", HighwayType::Secondary),
        ("secondary_link", HighwayType::SecondaryLink),
        ("tertiary", HighwayType::Tertiary),
        ("tertiary_link", HighwayType::TertiaryLink),
        ("residential", HighwayType::Residential),
        ("living_street", HighwayType::LivingStreet),
        ("service", HighwayType::Service),
        ("unclassified", HighwayType::Unclassified),
        ("road", HighwayType::Road),
    ];
    for (s, h) in cases {
        assert_eq!(HighwayType::from_str(s), h);
    }
}

#[test]
fn highway_from_str_other_values() {
    assert_eq!(HighwayType::from_str("footway"), HighwayType::Other);
    assert_eq!(HighwayType::from_str(""), HighwayType::Other);
    assert_eq!(HighwayType::from_str("Motorway"), HighwayType::Other);
    assert_eq!(HighwayType::from_str("motorway "), HighwayType::Other);
}

#[test]
fn highway_class_predicates() {
    assert!(HighwayType::Motorway.is_motorway());
    assert!(HighwayType::MotorwayLink.is_motorway());
    assert!(!HighwayType::Trunk.is_motorway());
    assert!(HighwayType::Trunk.is_trunk());
    assert!(HighwayType::TrunkLink.is_trunk());
    assert!(!HighwayType::Primary.is_trunk());
}

#[test]
fn highway_base_speeds() {
    assert_eq!(HighwayType::Motorway.base_speed(), 110);
    assert_eq!(HighwayType::TrunkLink.base_speed(), 90);
    assert_eq!(HighwayType::Primary.base_speed(), 80);
    assert_eq!(HighwayType::SecondaryLink.base_speed(), 70);
    assert_eq!(HighwayType::Tertiary.base_speed(), 50);
    assert_eq!(HighwayType::Residential.base_speed(), 30);
    assert_eq!(HighwayType::LivingStreet.base_speed(), 20);
    assert_eq!(HighwayType::Service.base_speed(), 30);
    assert_eq!(HighwayType::Road.base_speed(), 50);
    assert_eq!(HighwayType::Other.base_speed(), 50);
}

#[test]
fn edge_units() {
    let e = RoadEdge { to: 1, length: 7, speed: 25, highway: HighwayType::Primary, oneway: false, motorroad: false };
    assert_eq!(e.length_m(), 35);
    assert_eq!(e.speed_kmh(), 50);
    let max = RoadEdge { to: 0, length: u16::MAX, speed: u8::MAX, highway: HighwayType::Other, oneway: true, motorroad: true };
    assert_eq!(max.length_m(), 327_675);
    assert_eq!(max.speed_kmh(), 510);
}

#[test]
fn graph_nodes_and_edges() {
    let mut g = RoadGraph::new();
    assert_eq!(g.add_node(100, 437_030_000, 72_660_000), 0);
    assert_eq!(g.add_node(101, 436_950_000, 72_730_000), 1);
    g.add_edge_raw(0, 1, 20, 15, HighwayType::Residential, true, false);
    assert_eq!(g.nodes.len(), 2);
    assert_eq!(g.nodes[1], GraphNode { osm_id: 101, lat: 436_950_000, lon: 72_730_000 });
    assert_eq!(g.adjacency[0].len(), 1);
    assert_eq!(g.adjacency[1].len(), 0);
    assert_eq!(g.adjacency[0][0].to, 1);
    assert_eq!(g.adjacency[0][0].length, 20);
    assert!(g.adjacency[0][0].oneway);
}

#[test]
fn vehicle_profiles() {
    let s = Profile::for_vehicle(VehicleType::Scooter50);
    assert_eq!(s.name, "scooter");
    assert_eq!(s.max_speed_kmh, 45);
    assert!(s.block_motorway && s.block_motorroad);
    let v = Profile::for_vehicle(VehicleType::Voiturette);
    assert_eq!(v.name, "voiturette");
    assert_eq!(v.max_speed_kmh, 70);
    assert!(v.block_motorway && v.block_motorroad);
}

#[test]
fn road_blocking() {
    let s = Profile::for_vehicle(VehicleType::Scooter50);
    assert!(s.is_road_blocked(&HighwayType::Motorway, false));
    assert!(s.is_road_blocked(&HighwayType::MotorwayLink, false));
    assert!(s.is_road_blocked(&HighwayType::Trunk, true));
    assert!(s.is_road_blocked(&HighwayType::Residential, true));
    assert!(!s.is_road_blocked(&HighwayType::Trunk, false));
    let open = Profile { name: String::from("open"), max_speed_kmh: 45, block_motorway: false, block_motorroad: false };
    assert!(!open.is_road_blocked(&HighwayType::Motorway, true));
}

#[test]
fn allowed_speeds() {
    let s = Profile::for_vehicle(VehicleType::Scooter50);
    let v = Profile::for_vehicle(VehicleType::Voiturette);
    assert_eq!(s.allowed_speed(&HighwayType::Motorway, 0), None);
    assert_eq!(v.allowed_speed(&HighwayType::MotorwayLink, 100), None);
    assert_eq!(s.allowed_speed(&HighwayType::Trunk, 0), Some(25));
    assert_eq!(v.allowed_speed(&HighwayType::Trunk, 0), Some(35));
    assert_eq!(s.allowed_speed(&HighwayType::Primary, 90), Some(18));
    assert_eq!(v.allowed_speed(&HighwayType::Secondary, 90), Some(22));
    assert_eq!(s.allowed_speed(&HighwayType::Tertiary, 0), Some(15));
    assert_eq!(v.allowed_speed(&HighwayType::Tertiary, 0), Some(18));
    assert_eq!(s.allowed_speed(&HighwayType::Residential, 0), Some(14));
    assert_eq!(v.allowed_speed(&HighwayType::Residential, 0), Some(16));
    assert_eq!(s.allowed_speed(&HighwayType::LivingStreet, 0), Some(10));
    assert_eq!(v.allowed_speed(&HighwayType::LivingStreet, 0), Some(10));
    assert_eq!(s.allowed_speed(&HighwayType::Service, 0), Some(12));
    assert_eq!(v.allowed_speed(&HighwayType::Service, 0), Some(14));
    assert_eq!(s.allowed_speed(&HighwayType::Road, 0), Some(14));
    assert_eq!(v.allowed_speed(&HighwayType::Other, 0), Some(16));
    // A slower road speed caps the result.
    assert_eq!(v.allowed_speed(&HighwayType::Trunk, 20), Some(20));
    // A slow vehicle is capped by its own top speed.
    let slow = Profile { name: String::from("slow"), max_speed_kmh: 8, block_motorway: true, block_motorroad: true };
    assert_eq!(slow.allowed_speed(&HighwayType::Trunk, 0), Some(8));
    // Above 50 km/h counts as fast; exactly 50 does not.
    let fifty = Profile { name: String::from("fifty"), max_speed_kmh: 50, block_motorway: true, block_motorroad: true };
    assert_eq!(fifty.allowed_speed(&HighwayType::Trunk, 0), Some(25));
}

const ALL_CLASSES: [HighwayType; 16] = [
    HighwayType::Motorway,
    HighwayType::MotorwayLink,
    HighwayType::Trunk,
    HighwayType::TrunkLink,
    HighwayType::Primary,
    HighwayType::PrimaryLink,
    HighwayType::Secondary,
    HighwayType::SecondaryLink,
    HighwayType::Tertiary,
    HighwayType::TertiaryLink,
    HighwayType::Residential,
    HighwayType::LivingStreet,
    HighwayType::Service,
    HighwayType::Unclassified,
    HighwayType::Road,
    HighwayType::Other,
];

#[test]
fn profiles_share_restrictions() {
    let s = Profile::for_vehicle(VehicleType::Scooter50);
    let v = Profile::for_vehicle(VehicleType::Voiturette);
    for h in ALL_CLASSES {
        for motorroad in [false, true] {
            assert_eq!(s.is_road_blocked(&h, motorroad), v.is_road_blocked(&h, motorroad));
        }
    }
}

#[test]
fn faster_profile_never_slower() {
    let s = Profile::for_vehicle(VehicleType::Scooter50);
    let v = Profile::for_vehicle(VehicleType::Voiturette);
    for h in ALL_CLASSES {
        for road_speed in [0u32, 10, 20, 30, 50, 90, 130] {
            match (s.allowed_speed(&h, road_speed), v.allowed_speed(&h, road_speed)) {
                (None, None) => {}
                (Some(slow), Some(fast)) => assert!(fast >= slow),
                other => panic!("usable for one profile only: {:?}", other),
            }
        }
    }
}

#[test]
fn graph_well_formedness_check() {
    let mut g = RoadGraph::new();
    assert!(g.is_well_formed());
    g.add_node(1, 0, 0);
    g.add_node(2, 0, 10);
    g.add_edge_raw(0, 1, 3, 15, HighwayType::Residential, false, false);
    assert!(g.is_well_formed());
    g.add_edge_raw(1, 2, 3, 15, HighwayType::Residential, false, false);
    assert!(!g.is_well_formed());
    let h = RoadGraph { nodes: vec![GraphNode { osm_id: 1, lat: 0, lon: 0 }], adjacency: vec![] };
    assert!(!h.is_well_formed());
}
