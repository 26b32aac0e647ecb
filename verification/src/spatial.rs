//! Nearest-node lookup over an r-tree of node positions.

use vstd::prelude::*;
use vstd::multiset::Multiset;
use rstar::RTree;
use rstar::primitives::GeomWithData;
use crate::graph::{GraphNode, RoadGraph};

verus! {

broadcast use vstd::multiset::group_multiset_axioms;

/// An r-tree of node positions `[lon, lat]` (units of 1e-7 degree) tagged
/// with the node's index. The tree is private to this module: what it holds
/// is `tree_points`, and it is built and searched only through
/// `tree_bulk_load` and `tree_nearest`.
#[verifier::external_body]
pub struct SpatialIndex {
    tree: RTree<GeomWithData<[i128; 2], u32>>,
}

/// The entries an r-tree of node positions holds, as `(lon, lat, node)`.
pub uninterp spec fn tree_points(t: SpatialIndex) -> Multiset<(i128, i128, u32)>;

/// Squared planar distance between an entry and a query point, in the
/// coordinates' own units.
pub open spec fn dist2(p: (i128, i128, u32), lon: i32, lat: i32) -> int {
    (p.0 - lon) * (p.0 - lon) + (p.1 - lat) * (p.1 - lat)
}

/// `p` is held by the tree and no held entry is closer to `(lon, lat)`.
pub open spec fn is_nearest(pts: Multiset<(i128, i128, u32)>, p: (i128, i128, u32), lon: i32, lat: i32) -> bool {
    &&& pts.count(p) > 0
    &&& forall|y: (i128, i128, u32)| pts.count(y) > 0 ==> dist2(p, lon, lat) <= dist2(y, lon, lat)
}

/// Every entry's coordinates lie within the range of an `i32`-sized
/// coordinate (so that squared distances cannot overflow).
pub open spec fn coords_bounded(pts: Multiset<(i128, i128, u32)>) -> bool {
    forall|p: (i128, i128, u32)|
        pts.count(p) > 0 ==> -0x1_0000_0000 <= p.0 <= 0x1_0000_0000 && -0x1_0000_0000 <= p.1 <= 0x1_0000_0000
}

/// `(lon, lat, index)` of every node.
pub open spec fn node_points(nodes: Seq<GraphNode>) -> Seq<(i128, i128, u32)> {
    Seq::new(nodes.len(), |i: int| (nodes[i].lon as i128, nodes[i].lat as i128, i as u32))
}

/// The entries for a sequence of nodes have bounded coordinates.
pub proof fn lemma_node_points_bounded(nodes: Seq<GraphNode>)
    ensures
        coords_bounded(node_points(nodes).to_multiset()),
{
    broadcast use vstd::seq_lib::group_to_multiset_ensures;
    assert forall|p: (i128, i128, u32)| node_points(nodes).to_multiset().count(p) > 0 implies -0x1_0000_0000 <= p.0
        <= 0x1_0000_0000 && -0x1_0000_0000 <= p.1 <= 0x1_0000_0000 by {
        assert(node_points(nodes).contains(p));
        let i = choose|i: int| 0 <= i < node_points(nodes).len() && node_points(nodes)[i] == p;
        assert(p == (nodes[i].lon as i128, nodes[i].lat as i128, i as u32));
    }
}

/// Builds an r-tree holding the given entries.
///
/// Calls `rstar::RTree::bulk_load`; trusted to return a tree that holds
/// exactly the entries it was given.
#[verifier::external_body]
fn tree_bulk_load(points: Vec<(i32, i32, u32)>) -> (t: SpatialIndex)
    ensures
        tree_points(t) == points@.map_values(|p: (i32, i32, u32)| (p.0 as i128, p.1 as i128, p.2)).to_multiset(),
{
    SpatialIndex {
        tree: RTree::bulk_load(
            points.into_iter().map(|(x, y, d)| GeomWithData::new([x as i128, y as i128], d)).collect(),
        ),
    }
}

/// The entry that `rstar::RTree::nearest_neighbor` returns for the query
/// `(lon, lat)` on the tree `t`.
pub uninterp spec fn nearest_entry(t: SpatialIndex, lon: i32, lat: i32) -> Option<(i128, i128, u32)>;

/// Looks up the entry nearest to `(lon, lat)`.
///
/// Calls `rstar::RTree::nearest_neighbor`; trusted to return `None` exactly
/// when the tree is empty and otherwise an entry of the tree at the smallest
/// squared distance. Which of several equally near entries comes back is
/// decided by rstar's deterministic search over the tree, so it is named
/// (`nearest_entry`) rather than stated.
#[verifier::external_body]
fn tree_nearest(t: &SpatialIndex, lon: i32, lat: i32) -> (r: Option<(i128, i128, u32)>)
    ensures
        r == nearest_entry(*t, lon, lat),
        r is None <==> tree_points(*t).len() == 0,
        r matches Some(p) ==> is_nearest(tree_points(*t), p, lon, lat),
{
    t.tree.nearest_neighbor(&[lon as i128, lat as i128]).map(|g| (g.geom()[0], g.geom()[1], g.data))
}

/// Whether a node at `(nlon, nlat)` lies within `max_dist_m` meters of
/// `(lon, lat)`, with 111 320 m per degree of latitude and 0.72 of that per
/// degree of longitude, coordinates in units of 1e-7 degree.
pub open spec fn within_range(nlon: int, nlat: int, lon: int, lat: int, max_dist_m: nat) -> bool {
    let dy = (lat - nlat) * 1_113_200;
    let dx = (lon - nlon) * 801_504;
    dy * dy + dx * dx <= (max_dist_m * 100_000_000) * (max_dist_m * 100_000_000)
}

fn in_range(nlon: i128, nlat: i128, lon: i32, lat: i32, max_dist_m: u32) -> (b: bool)
    requires
        -0x1_0000_0000 <= nlon <= 0x1_0000_0000,
        -0x1_0000_0000 <= nlat <= 0x1_0000_0000,
    ensures
        b == within_range(nlon as int, nlat as int, lon as int, lat as int, max_dist_m as nat),
{
    let a: i128 = lat as i128 - nlat;
    let b: i128 = lon as i128 - nlon;
    proof {
        assert(-0x2_0000_0000 * 1_113_200 <= a * 1_113_200 <= 0x2_0000_0000 * 1_113_200) by (nonlinear_arith)
            requires
                -0x2_0000_0000 <= a <= 0x2_0000_0000,
        ;
        assert(-0x2_0000_0000 * 801_504 <= b * 801_504 <= 0x2_0000_0000 * 801_504) by (nonlinear_arith)
            requires
                -0x2_0000_0000 <= b <= 0x2_0000_0000,
        ;
    }
    let dy: i128 = a * 1_113_200;
    let dx: i128 = b * 801_504;
    let m: i128 = max_dist_m as i128 * 100_000_000;
    proof {
        assert(0 <= dy * dy <= 0x40_0000_0000_0000 * 0x40_0000_0000_0000) by (nonlinear_arith)
            requires
                -0x40_0000_0000_0000 <= dy <= 0x40_0000_0000_0000,
        ;
        assert(0 <= dx * dx <= 0x40_0000_0000_0000 * 0x40_0000_0000_0000) by (nonlinear_arith)
            requires
                -0x40_0000_0000_0000 <= dx <= 0x40_0000_0000_0000,
        ;
        assert(0 <= m * m <= 0x800_0000_0000_0000 * 0x800_0000_0000_0000) by (nonlinear_arith)
            requires
                0 <= m <= 0x800_0000_0000_0000,
        ;
    }
    dy * dy + dx * dx <= m * m
}

/// The node that a nearest entry snaps `(lat, lon)` to: its node when it
/// lies within `max_dist_m` meters, `None` when there is no entry or it is
/// farther.
pub open spec fn snap_of(e: Option<(i128, i128, u32)>, lat: i32, lon: i32, max_dist_m: u32) -> Option<u32> {
    match e {
        None => None,
        Some(p) => if within_range(p.0 as int, p.1 as int, lon as int, lat as int, max_dist_m as nat) {
            Some(p.2)
        } else {
            None
        },
    }
}

/// Snaps `(lat, lon)` to the node of the nearest entry found, if it lies
/// within `max_dist_m` meters.
pub fn snap_entry(nearest: Option<(i128, i128, u32)>, lat: i32, lon: i32, max_dist_m: u32) -> (r: Option<u32>)
    requires
        nearest matches Some(p) ==> -0x1_0000_0000 <= p.0 <= 0x1_0000_0000 && -0x1_0000_0000 <= p.1 <= 0x1_0000_0000,
    ensures
        r == snap_of(nearest, lat, lon, max_dist_m),
{
    match nearest {
        None => None,
        Some(p) => {
            if in_range(p.0, p.1, lon, lat, max_dist_m) {
                Some(p.2)
            } else {
                None
            }
        },
    }
}

impl RoadGraph {
    /// Builds the r-tree of all node positions.
    pub fn build_spatial_index(&self) -> (t: SpatialIndex)
        requires
            self.nodes@.len() <= u32::MAX,
        ensures
            tree_points(t) == node_points(self.nodes@).to_multiset(),
            coords_bounded(tree_points(t)),
    {
        let n = self.nodes.len();
        let mut points: Vec<(i32, i32, u32)> = Vec::new();
        let mut i: usize = 0;
        while i < n
            invariant
                n == self.nodes@.len(),
                n <= u32::MAX,
                0 <= i <= n,
                points@.len() == i,
                forall|k: int| 0 <= k < i ==> #[trigger] points@[k] == (self.nodes@[k].lon, self.nodes@[k].lat, k as u32),
            decreases n - i,
        {
            let nd = self.nodes[i];
            points.push((nd.lon, nd.lat, i as u32));
            i = i + 1;
        }
        proof {
            assert(points@.map_values(|p: (i32, i32, u32)| (p.0 as i128, p.1 as i128, p.2)) =~= node_points(self.nodes@));
            lemma_node_points_bounded(self.nodes@);
        }
        tree_bulk_load(points)
    }

    /// The node nearest to `(lat, lon)` (units of 1e-7 degree) if it lies
    /// within `max_dist_m` meters; `None` when the tree is empty or the
    /// nearest node is farther.
    pub fn nearest_node(&self, tree: &SpatialIndex, lat: i32, lon: i32, max_dist_m: u32) -> (r: Option<u32>)
        requires
            coords_bounded(tree_points(*tree)),
        ensures
            r == snap_of(nearest_entry(*tree, lon, lat), lat, lon, max_dist_m),
            r matches Some(idx) ==> exists|x: i128, y: i128|
                is_nearest(tree_points(*tree), (x, y, idx), lon, lat) && within_range(x as int, y as int, lon as int, lat as int, max_dist_m as nat),
            r is None ==> tree_points(*tree).len() == 0 || exists|p: (i128, i128, u32)|
                is_nearest(tree_points(*tree), p, lon, lat) && !within_range(p.0 as int, p.1 as int, lon as int, lat as int, max_dist_m as nat),
    {
        let e = tree_nearest(tree, lon, lat);
        snap_entry(e, lat, lon, max_dist_m)
    }
}

} // verus!
