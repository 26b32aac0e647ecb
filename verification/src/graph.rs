//! The road graph: highway classes, nodes in fixed-point coordinates and
//! compact directed edges kept in adjacency lists.

use vstd::prelude::*;
use crate::text::str_eq;

verus! {

/// Compact highway class of an OpenStreetMap way.
#[derive(Debug, Clone, Copy, PartialEq, Eq, Structural)]
pub enum HighwayType {
    Motorway,
    MotorwayLink,
    Trunk,
    TrunkLink,
    Primary,
    PrimaryLink,
    Secondary,
    SecondaryLink,
    Tertiary,
    TertiaryLink,
    Residential,
    LivingStreet,
    Service,
    Unclassified,
    Road,
    Other,
}

/// The class that an OSM `highway=` value names; any other value is `Other`.
pub open spec fn highway_of(s: Seq<char>) -> HighwayType {
    if s == "motorway"@ {
        HighwayType::Motorway
    } else if s == "motorway_link"@ {
        HighwayType::MotorwayLink
    } else if s == "trunk"@ {
        HighwayType::Trunk
    } else if s == "trunk_link"@ {
        HighwayType::TrunkLink
    } else if s == "primary"@ {
        HighwayType::Primary
    } else if s == "primary_link"@ {
        HighwayType::PrimaryLink
    } else if s == "secondary"@ {
        HighwayType::Secondary
    } else if s == "secondary_link"@ {
        HighwayType::SecondaryLink
    } else if s == "tertiary"@ {
        HighwayType::Tertiary
    } else if s == "tertiary_link"@ {
        HighwayType::TertiaryLink
    } else if s == "residential"@ {
        HighwayType::Residential
    } else if s == "living_street"@ {
        HighwayType::LivingStreet
    } else if s == "service"@ {
        HighwayType::Service
    } else if s == "unclassified"@ {
        HighwayType::Unclassified
    } else if s == "road"@ {
        HighwayType::Road
    } else {
        HighwayType::Other
    }
}

impl HighwayType {
    pub open spec fn spec_is_motorway(self) -> bool {
        self == HighwayType::Motorway || self == HighwayType::MotorwayLink
    }

    pub open spec fn spec_is_trunk(self) -> bool {
        self == HighwayType::Trunk || self == HighwayType::TrunkLink
    }

    /// Fallback speed of the class in km/h.
    pub open spec fn spec_base_speed(self) -> u32 {
        match self {
            HighwayType::Motorway | HighwayType::MotorwayLink => 110,
            HighwayType::Trunk | HighwayType::TrunkLink => 90,
            HighwayType::Primary | HighwayType::PrimaryLink => 80,
            HighwayType::Secondary | HighwayType::SecondaryLink => 70,
            HighwayType::Tertiary | HighwayType::TertiaryLink => 50,
            HighwayType::Residential => 30,
            HighwayType::LivingStreet => 20,
            HighwayType::Service => 30,
            HighwayType::Unclassified | HighwayType::Road => 50,
            HighwayType::Other => 50,
        }
    }

    /// Parses an OSM `highway=` value.
    pub fn from_str(s: &str) -> (h: HighwayType)
        ensures
            h == highway_of(s@),
    {
        proof {
            reveal_strlit("motorway");
            reveal_strlit("motorway_link");
            reveal_strlit("trunk");
            reveal_strlit("trunk_link");
            reveal_strlit("primary");
            reveal_strlit("primary_link");
            reveal_strlit("secondary");
            reveal_strlit("secondary_link");
            reveal_strlit("tertiary");
            reveal_strlit("tertiary_link");
            reveal_strlit("residential");
            reveal_strlit("living_street");
            reveal_strlit("service");
            reveal_strlit("unclassified");
            reveal_strlit("road");
        }
        if str_eq(s, "motorway") {
            HighwayType::Motorway
        } else if str_eq(s, "motorway_link") {
            HighwayType::MotorwayLink
        } else if str_eq(s, "trunk") {
            HighwayType::Trunk
        } else if str_eq(s, "trunk_link") {
            HighwayType::TrunkLink
        } else if str_eq(s, "primary") {
            HighwayType::Primary
        } else if str_eq(s, "primary_link") {
            HighwayType::PrimaryLink
        } else if str_eq(s, "secondary") {
            HighwayType::Secondary
        } else if str_eq(s, "secondary_link") {
            HighwayType::SecondaryLink
        } else if str_eq(s, "tertiary") {
            HighwayType::Tertiary
        } else if str_eq(s, "tertiary_link") {
            HighwayType::TertiaryLink
        } else if str_eq(s, "residential") {
            HighwayType::Residential
        } else if str_eq(s, "living_street") {
            HighwayType::LivingStreet
        } else if str_eq(s, "service") {
            HighwayType::Service
        } else if str_eq(s, "unclassified") {
            HighwayType::Unclassified
        } else if str_eq(s, "road") {
            HighwayType::Road
        } else {
            HighwayType::Other
        }
    }

    pub fn is_motorway(&self) -> (b: bool)
        ensures
            b == self.spec_is_motorway(),
    {
        match self {
            HighwayType::Motorway | HighwayType::MotorwayLink => true,
            _ => false,
        }
    }

    pub fn is_trunk(&self) -> (b: bool)
        ensures
            b == self.spec_is_trunk(),
    {
        match self {
            HighwayType::Trunk | HighwayType::TrunkLink => true,
            _ => false,
        }
    }

    /// Fallback speed of the class in km/h.
    pub fn base_speed(&self) -> (s: u32)
        ensures
            s == self.spec_base_speed(),
    {
        match self {
            HighwayType::Motorway | HighwayType::MotorwayLink => 110,
            HighwayType::Trunk | HighwayType::TrunkLink => 90,
            HighwayType::Primary | HighwayType::PrimaryLink => 80,
            HighwayType::Secondary | HighwayType::SecondaryLink => 70,
            HighwayType::Tertiary | HighwayType::TertiaryLink => 50,
            HighwayType::Residential => 30,
            HighwayType::LivingStreet => 20,
            HighwayType::Service => 30,
            HighwayType::Unclassified | HighwayType::Road => 50,
            HighwayType::Other => 50,
        }
    }
}

/// A node of the road graph. Coordinates are in units of 1e-7 degree,
/// the fixed-point precision in which OpenStreetMap stores them.
#[derive(Debug, Clone, Copy, PartialEq, Eq, Structural)]
pub struct GraphNode {
    pub osm_id: i64,
    pub lat: i32,
    pub lon: i32,
}

/// A directed edge of the road graph.
#[derive(Debug, Clone, Copy, PartialEq, Eq, Structural)]
pub struct RoadEdge {
    pub to: u32,
    /// Length in steps of 5 m.
    pub length: u16,
    /// Speed in steps of 2 km/h.
    pub speed: u8,
    pub highway: HighwayType,
    pub oneway: bool,
    pub motorroad: bool,
}

impl RoadEdge {
    pub open spec fn spec_length_m(self) -> nat {
        self.length as nat * 5
    }

    pub open spec fn spec_speed_kmh(self) -> nat {
        self.speed as nat * 2
    }

    /// Length of the edge in meters.
    pub fn length_m(&self) -> (m: u32)
        ensures
            m == self.spec_length_m(),
    {
        self.length as u32 * 5
    }

    /// Speed of the edge in km/h.
    pub fn speed_kmh(&self) -> (k: u32)
        ensures
            k == self.spec_speed_kmh(),
    {
        self.speed as u32 * 2
    }
}

/// The road graph: one adjacency list of outgoing edges per node.
pub struct RoadGraph {
    pub nodes: Vec<GraphNode>,
    pub adjacency: Vec<Vec<RoadEdge>>,
}

impl RoadGraph {
    /// The adjacency lists as sequences.
    pub open spec fn adj(&self) -> Seq<Seq<RoadEdge>> {
        self.adjacency@.map_values(|v: Vec<RoadEdge>| v@)
    }

    /// One adjacency list per node, every edge ends at a node, and every
    /// node index fits in a `u32`.
    pub open spec fn wf(&self) -> bool {
        &&& self.adjacency@.len() == self.nodes@.len()
        &&& self.nodes@.len() <= u32::MAX
        &&& forall|u: int, i: int|
            0 <= u < self.adj().len() && 0 <= i < self.adj()[u].len() ==> (#[trigger] self.adj()[u][i]).to
                < self.nodes@.len()
    }

    pub fn new() -> (g: RoadGraph)
        ensures
            g.nodes@ == Seq::<GraphNode>::empty(),
            g.adj() == Seq::<Seq<RoadEdge>>::empty(),
            g.wf(),
    {
        let g = RoadGraph { nodes: Vec::new(), adjacency: Vec::new() };
        assert(g.adj() =~= Seq::<Seq<RoadEdge>>::empty());
        g
    }

    /// Appends a node without edges and returns its index.
    pub fn add_node(&mut self, osm_id: i64, lat: i32, lon: i32) -> (idx: u32)
        requires
            old(self).nodes@.len() < u32::MAX,
        ensures
            idx == old(self).nodes@.len(),
            final(self).nodes@ == old(self).nodes@.push(GraphNode { osm_id, lat, lon }),
            final(self).adj() == old(self).adj().push(Seq::<RoadEdge>::empty()),
            old(self).wf() ==> final(self).wf(),
    {
        let idx = self.nodes.len() as u32;
        self.nodes.push(GraphNode { osm_id, lat, lon });
        self.adjacency.push(Vec::new());
        proof {
            assert(self.adj() =~= old(self).adj().push(Seq::<RoadEdge>::empty()));
            if old(self).wf() {
                assert forall|u: int, i: int|
                    0 <= u < self.adj().len() && 0 <= i < self.adj()[u].len() implies (
                    #[trigger] self.adj()[u][i]).to < self.nodes@.len() by {
                    assert(u < old(self).adj().len());
                    assert(self.adj()[u] == old(self).adj()[u]);
                }
            }
        }
        idx
    }

    /// Appends an edge to the adjacency list of `from`. Length and speed
    /// come already quantized (steps of 5 m and of 2 km/h).
    pub fn add_edge_raw(
        &mut self,
        from: u32,
        to: u32,
        length: u16,
        speed: u8,
        highway: HighwayType,
        oneway: bool,
        motorroad: bool,
    )
        requires
            (from as int) < old(self).adjacency@.len(),
        ensures
            final(self).nodes@ == old(self).nodes@,
            final(self).adj() == old(self).adj().update(
                from as int,
                old(self).adj()[from as int].push(
                    RoadEdge { to, length, speed, highway, oneway, motorroad },
                ),
            ),
            old(self).wf() && (to as int) < old(self).nodes@.len() ==> final(self).wf(),
    {
        let e = RoadEdge { to, length, speed, highway, oneway, motorroad };
        self.adjacency[from as usize].push(e);
        proof {
            assert(self.adj() =~= old(self).adj().update(
                from as int,
                old(self).adj()[from as int].push(e),
            ));
            if old(self).wf() && (to as int) < old(self).nodes@.len() {
                assert forall|u: int, i: int|
                    0 <= u < self.adj().len() && 0 <= i < self.adj()[u].len() implies (
                    #[trigger] self.adj()[u][i]).to < self.nodes@.len() by {
                    if u != from as int {
                        assert(self.adj()[u] == old(self).adj()[u]);
                    } else if i < old(self).adj()[u].len() {
                        assert(self.adj()[u][i] == old(self).adj()[u][i]);
                    }
                }
            }
        }
    }
    /// Checks `wf`, for a graph that comes from outside the library.
    pub fn is_well_formed(&self) -> (b: bool)
        ensures
            b == self.wf(),
    {
        let n = self.nodes.len();
        if self.adjacency.len() != n || n > 0xffff_ffffusize {
            return false;
        }
        let mut u: usize = 0;
        while u < n
            invariant
                n == self.nodes@.len(),
                n == self.adjacency@.len(),
                n <= u32::MAX,
                0 <= u <= n,
                forall|x: int, i: int|
                    0 <= x < u && 0 <= i < self.adj()[x].len() ==> (#[trigger] self.adj()[x][i]).to < n,
            decreases n - u,
        {
            let edges = &self.adjacency[u];
            let mut i: usize = 0;
            while i < edges.len()
                invariant
                    n == self.nodes@.len(),
                    n == self.adjacency@.len(),
                    0 <= u < n,
                    edges@ == self.adj()[u as int],
                    0 <= i <= edges@.len(),
                    forall|j: int| 0 <= j < i ==> (#[trigger] edges@[j]).to < n,
                decreases edges@.len() - i,
            {
                if edges[i].to as usize >= n {
                    proof {
                        assert(self.adj()[u as int][i as int] == edges@[i as int]);
                    }
                    return false;
                }
                i = i + 1;
            }
            proof {
                assert forall|x: int, k: int|
                    0 <= x < u + 1 && 0 <= k < self.adj()[x].len() implies (#[trigger] self.adj()[x][k]).to < n by {
                    if x == u as int {
                        assert(self.adj()[x][k] == edges@[k]);
                    }
                }
            }
            u = u + 1;
        }
        true
    }
}

} // verus!
