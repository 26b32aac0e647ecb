//! A* search over the road graph under a vehicle profile, and the summary of
//! the route it finds.

use vstd::prelude::*;
use vstd::multiset::Multiset;
use crate::graph::{GraphNode, RoadEdge, RoadGraph};
use crate::profile::Profile;
use crate::queue::MinQueue;
use crate::spatial::SpatialIndex;

verus! {

broadcast use vstd::multiset::group_multiset_axioms;

/// A route found by the search.
pub struct RouteResult {
    pub found: bool,
    /// Length of the route in tenths of a kilometer, rounded half up.
    pub distance_hm: u64,
    /// Riding time in minutes at the profile's top speed, rounded half up.
    pub duration_min: u64,
    /// `(lon, lat)` of each node of the route, in units of 1e-7 degree.
    pub path: Vec<(i32, i32)>,
}

// ---------------------------------------------------------------------------
// Costs and walks
// ---------------------------------------------------------------------------

/// Time in microseconds to ride `length` steps of 5 m at `speed` km/h, rounded down.
pub open spec fn travel_us(length: u16, speed: u32) -> nat
    recommends
        speed > 0,
{
    (18_000_000 * length as nat) / (speed as nat)
}

/// Time in microseconds over an edge under a profile, or `None` when the
/// profile may not use it.
pub open spec fn edge_time(p: Profile, e: RoadEdge) -> Option<nat> {
    if p.spec_is_road_blocked(e.highway, e.motorroad) {
        None
    } else {
        match p.spec_allowed_speed(e.highway, (e.speed as nat * 2) as u32) {
            None => None,
            Some(s) => if s == 0 {
                None
            } else {
                Some(travel_us(e.length, s))
            },
        }
    }
}

/// `u -> v` through edge `j` of `u`, which the profile may use.
pub open spec fn step_ok(g: RoadGraph, p: Profile, u: u32, j: int, v: u32) -> bool {
    &&& (u as int) < g.adj().len()
    &&& 0 <= j < g.adj()[u as int].len()
    &&& g.adj()[u as int][j].to == v
    &&& edge_time(p, g.adj()[u as int][j]) is Some
}

/// `nodes` is a walk that follows, at step `i`, edge `eidx[i]` of `nodes[i]`.
pub open spec fn is_walk(g: RoadGraph, p: Profile, nodes: Seq<u32>, eidx: Seq<int>) -> bool {
    &&& nodes.len() == eidx.len() + 1
    &&& forall|i: int| 0 <= i < eidx.len() ==> #[trigger] step_ok(g, p, nodes[i], eidx[i], nodes[i + 1])
}

/// Total travel time of a walk, in microseconds.
pub open spec fn walk_cost(g: RoadGraph, p: Profile, nodes: Seq<u32>, eidx: Seq<int>) -> nat
    decreases eidx.len(),
{
    if eidx.len() == 0 {
        0
    } else {
        let i = eidx.len() - 1;
        walk_cost(g, p, nodes.drop_last(), eidx.drop_last()) + edge_time(
            p,
            g.adj()[nodes[i] as int][eidx[i]],
        ).unwrap()
    }
}

/// A walk from `from` to `to` that the profile may ride.
pub open spec fn is_route(g: RoadGraph, p: Profile, from: u32, to: u32, nodes: Seq<u32>, eidx: Seq<int>) -> bool {
    &&& is_walk(g, p, nodes, eidx)
    &&& nodes[0] == from
    &&& nodes.last() == to
}

/// Length in meters of the first edge of `es`, from position `k` on, that
/// ends at `b`; 0 when there is none.
pub open spec fn first_len_from(es: Seq<RoadEdge>, b: u32, k: int) -> nat
    decreases es.len() - k,
{
    if k < 0 || k >= es.len() {
        0
    } else if es[k].to == b {
        es[k].spec_length_m()
    } else {
        first_len_from(es, b, k + 1)
    }
}

/// Length in meters of a node sequence, each hop measured by the first edge
/// between the two nodes.
pub open spec fn path_length_m(g: RoadGraph, nodes: Seq<u32>) -> nat
    decreases nodes.len(),
{
    if nodes.len() < 2 {
        0
    } else {
        let n = nodes.len();
        path_length_m(g, nodes.drop_last()) + first_len_from(g.adj()[nodes[n - 2] as int], nodes[n - 1], 0)
    }
}

/// `(lon, lat)` of each node.
pub open spec fn coords(g: RoadGraph, nodes: Seq<u32>) -> Seq<(i32, i32)> {
    nodes.map_values(|v: u32| (g.nodes@[v as int].lon, g.nodes@[v as int].lat))
}

/// Minutes to ride `len_m` meters at `speed` km/h, rounded half up. A
/// profile whose top speed is 0 rides no edge, so its routes have no length
/// and take no time.
pub open spec fn minutes_at(len_m: nat, speed: u32) -> nat {
    if speed == 0 {
        0
    } else {
        (6 * len_m + 50 * speed as nat) / (100 * speed as nat)
    }
}

/// What the search returns for a route through `nodes` under a profile
/// whose top speed is `speed` km/h.
pub open spec fn summary_of(g: RoadGraph, speed: u32, nodes: Seq<u32>, r: RouteResult) -> bool {
    &&& r.found
    &&& r.path@ == coords(g, nodes)
    &&& r.distance_hm == (path_length_m(g, nodes) + 50) / 100
    &&& r.duration_min == minutes_at(path_length_m(g, nodes), speed)
}

/// No node occurs twice.
pub open spec fn distinct_nodes(nodes: Seq<u32>) -> bool {
    forall|i: int, j: int| 0 <= i < j < nodes.len() ==> nodes[i] != nodes[j]
}

// ---------------------------------------------------------------------------
// Search state
// ---------------------------------------------------------------------------

/// Priority key of a node reached at cost `d` with estimate `h`: their sum,
/// capped at `u128::MAX`.
pub open spec fn fresh_key(d: u128, h: u64) -> u128 {
    if d + h > u128::MAX {
        u128::MAX
    } else {
        (d + h) as u128
    }
}

/// The queue holds the entry pushed when `v` got its current cost.
pub open spec fn fresh(q: Multiset<(u128, u32)>, dist: Seq<u128>, hv: Seq<u64>, v: int) -> bool {
    q.count((fresh_key(dist[v], hv[v]), v as u32)) > 0
}

/// Every usable edge out of `u` leads to a node whose cost is at most the
/// cost of `u` plus the edge's time.
pub open spec fn closed_at(g: RoadGraph, p: Profile, dist: Seq<u128>, u: int) -> bool {
    forall|j: int|
        0 <= j < g.adj()[u].len() && (#[trigger] edge_time(p, g.adj()[u][j])) is Some ==> dist[g.adj()[u][j].to as int]
            <= dist[u] + edge_time(p, g.adj()[u][j]).unwrap()
}

/// Ranking in which every node comes after the predecessor it was reached from.
pub open spec fn ranks_below(dist: Seq<u128>, stamp: Seq<nat>, a: int, b: int) -> bool {
    dist[a] < dist[b] || (dist[a] == dist[b] && stamp[a] < stamp[b])
}

/// A reached node other than the start records a predecessor, the usable
/// edge it came by, and a cost no smaller than the predecessor's plus that edge.
pub open spec fn parent_ok(
    g: RoadGraph,
    p: Profile,
    from: u32,
    dist: Seq<u128>,
    came: Seq<u32>,
    stamp: Seq<nat>,
    by_edge: Seq<int>,
    v: int,
) -> bool {
    v != from as int && dist[v] < u128::MAX ==> {
        let u = came[v];
        &&& step_ok(g, p, u, by_edge[v], v as u32)
        &&& dist[u as int] + edge_time(p, g.adj()[u as int][by_edge[v]]).unwrap() <= dist[v]
        &&& ranks_below(dist, stamp, u as int, v)
    }
}

pub open spec fn search_inv(
    g: RoadGraph,
    p: Profile,
    from: u32,
    to: u32,
    dist: Seq<u128>,
    came: Seq<u32>,
    q: Multiset<(u128, u32)>,
    stamp: Seq<nat>,
    by_edge: Seq<int>,
    clock: nat,
    hv: Seq<u64>,
    busy: int,
) -> bool {
    let n = g.nodes@.len();
    &&& dist.len() == n
    &&& came.len() == n
    &&& stamp.len() == n
    &&& by_edge.len() == n
    &&& hv.len() == n
    &&& (from as int) < n
    &&& (to as int) < n
    &&& dist[from as int] == 0
    &&& forall|v: int| 0 <= v < n ==> #[trigger] parent_ok(g, p, from, dist, came, stamp, by_edge, v)
    &&& forall|v: int| 0 <= v < n ==> #[trigger] stamp[v] < clock
    &&& forall|e: (u128, u32)|
        #[trigger] q.count(e) > 0 ==> (e.1 as int) < n && dist[e.1 as int] < u128::MAX && dist[e.1 as int] <= e.0
    &&& dist[to as int] < u128::MAX ==> fresh(q, dist, hv, to as int)
    &&& forall|u: int|
        0 <= u < n && u != busy && dist[u] < u128::MAX && !fresh(q, dist, hv, u) ==> #[trigger] closed_at(
            g,
            p,
            dist,
            u,
        )
}

/// Sum of a sequence of costs; it bounds how often costs can still drop.
pub open spec fn cost_sum(s: Seq<u128>) -> nat
    decreases s.len(),
{
    if s.len() == 0 {
        0
    } else {
        cost_sum(s.drop_last()) + s.last() as nat
    }
}

proof fn lemma_cost_sum_update(s: Seq<u128>, i: int, v: u128)
    requires
        0 <= i < s.len(),
    ensures
        cost_sum(s.update(i, v)) + s[i] == cost_sum(s) + v,
    decreases s.len(),
{
    let t = s.update(i, v);
    if i == s.len() - 1 {
        assert(t.drop_last() =~= s.drop_last());
    } else {
        lemma_cost_sum_update(s.drop_last(), i, v);
        assert(t.drop_last() =~= s.drop_last().update(i, v));
    }
}

/// The most time an edge can take, in microseconds: 65 535 steps of 5 m at
/// 1 km/h.
pub open spec fn max_edge_us() -> nat {
    1_179_630_000_000
}

/// Nodes with a finite cost.
pub open spec fn reached(dist: Seq<u128>) -> Set<int> {
    Set::new(|v: int| 0 <= v < dist.len() && dist[v] < u128::MAX)
}

/// Every finite cost is at most one longest edge for each other node with
/// a finite cost: costs never come near `u128::MAX`.
pub open spec fn costs_bounded(dist: Seq<u128>) -> bool {
    forall|v: int| 0 <= v < dist.len() && dist[v] < u128::MAX ==> dist[v] <= max_edge_us() * (reached(dist).len() - 1)
}

proof fn lemma_reached_bounded(dist: Seq<u128>)
    ensures
        reached(dist).finite(),
        reached(dist).len() <= dist.len(),
{
    vstd::set_lib::lemma_int_range(0, dist.len() as int);
    assert(reached(dist).subset_of(vstd::set_lib::set_int_range(0, dist.len() as int)));
    vstd::set_lib::lemma_len_subset(reached(dist), vstd::set_lib::set_int_range(0, dist.len() as int));
}

proof fn lemma_edge_time_bounded(p: Profile, e: RoadEdge)
    requires
        edge_time(p, e) is Some,
    ensures
        edge_time(p, e)->0 <= max_edge_us(),
{
    let s = p.spec_allowed_speed(e.highway, (e.speed as nat * 2) as u32)->0;
    vstd::arithmetic::div_mod::lemma_div_is_ordered_by_denominator(18_000_000 * e.length as int, 1, s as int);
}

/// A node with a finite cost, left by an edge that takes at most
/// `max_edge_us()`, leads to a cost that cannot overflow.
proof fn lemma_cost_room(dist: Seq<u128>, u: int, t: nat)
    requires
        costs_bounded(dist),
        dist.len() <= u32::MAX,
        0 <= u < dist.len(),
        dist[u] < u128::MAX,
        t <= max_edge_us(),
    ensures
        dist[u] + t <= max_edge_us() * reached(dist).len(),
        dist[u] + t < u128::MAX,
{
    lemma_reached_bounded(dist);
}

/// Lowering the cost of `v` to `nc`, the cost of `u` plus one edge, keeps
/// the costs bounded.
proof fn lemma_relax_bounded(dist: Seq<u128>, u: int, v: int, nc: u128, t: nat)
    requires
        costs_bounded(dist),
        dist.len() <= u32::MAX,
        0 <= u < dist.len(),
        0 <= v < dist.len(),
        dist[u] < u128::MAX,
        t <= max_edge_us(),
        nc == dist[u] + t,
        nc < dist[v],
    ensures
        costs_bounded(dist.update(v, nc)),
{
    let d2 = dist.update(v, nc);
    lemma_reached_bounded(dist);
    lemma_cost_room(dist, u, t);
    let l = reached(dist).len();
    if dist[v] == u128::MAX {
        assert(reached(d2) =~= reached(dist).insert(v));
        assert(!reached(dist).contains(v));
        assert(reached(d2).len() == l + 1);
    } else {
        assert(reached(d2) =~= reached(dist));
    }
    assert forall|x: int| 0 <= x < d2.len() && d2[x] < u128::MAX implies d2[x] <= max_edge_us() * (reached(d2).len()
        - 1) by {
        if x != v {
            assert(dist[x] <= max_edge_us() * (l - 1));
        }
    }
}

/// Once every node with a finite cost has all its edges relaxed, every node
/// along a walk from the start has a finite cost.
proof fn lemma_walk_reached(g: RoadGraph, p: Profile, from: u32, dist: Seq<u128>, nodes: Seq<u32>, eidx: Seq<int>)
    requires
        g.wf(),
        dist.len() == g.nodes@.len(),
        (from as int) < g.nodes@.len(),
        dist[from as int] < u128::MAX,
        costs_bounded(dist),
        is_walk(g, p, nodes, eidx),
        nodes[0] == from,
        forall|u: int| 0 <= u < g.nodes@.len() && dist[u] < u128::MAX ==> #[trigger] closed_at(g, p, dist, u),
    ensures
        dist[nodes.last() as int] < u128::MAX,
    decreases eidx.len(),
{
    if eidx.len() > 0 {
        let k = eidx.len() - 1;
        let nodes0 = nodes.drop_last();
        let eidx0 = eidx.drop_last();
        assert forall|i: int| 0 <= i < eidx0.len() implies #[trigger] step_ok(g, p, nodes0[i], eidx0[i], nodes0[i + 1]) by {
            assert(step_ok(g, p, nodes[i], eidx[i], nodes[i + 1]));
        }
        lemma_walk_reached(g, p, from, dist, nodes0, eidx0);
        assert(step_ok(g, p, nodes[k], eidx[k], nodes[k + 1]));
        let u = nodes[k] as int;
        assert(nodes0.last() == nodes[k]);
        assert(closed_at(g, p, dist, u));
        let e = g.adj()[u][eidx[k]];
        assert(edge_time(p, e) is Some);
        lemma_edge_time_bounded(p, e);
        lemma_cost_room(dist, u, edge_time(p, e)->0);
    }
}

/// The usable edges out of `u` with index below `j` are relaxed.
pub open spec fn closed_upto(g: RoadGraph, p: Profile, dist: Seq<u128>, u: int, j: int) -> bool {
    forall|k: int|
        0 <= k < j && k < g.adj()[u].len() && (#[trigger] edge_time(p, g.adj()[u][k])) is Some
            ==> dist[g.adj()[u][k].to as int] <= dist[u] + edge_time(p, g.adj()[u][k]).unwrap()
}

/// Taking an entry for `u` off the queue keeps the search invariant with
/// `u` as the node being expanded.
proof fn lemma_pop(
    g: RoadGraph,
    p: Profile,
    from: u32,
    to: u32,
    dist: Seq<u128>,
    came: Seq<u32>,
    q: Multiset<(u128, u32)>,
    stamp: Seq<nat>,
    by_edge: Seq<int>,
    clock: nat,
    hv: Seq<u64>,
    e: (u128, u32),
)
    requires
        g.wf(),
        search_inv(g, p, from, to, dist, came, q, stamp, by_edge, clock, hv, -1),
        q.count(e) > 0,
        e.1 != to,
    ensures
        search_inv(g, p, from, to, dist, came, q.remove(e), stamp, by_edge, clock, hv, e.1 as int),
{
    let q2 = q.remove(e);
    let n = g.nodes@.len();
    assert forall|x: (u128, u32)| #[trigger] q2.count(x) > 0 implies (x.1 as int) < n && dist[x.1 as int] < u128::MAX
        && dist[x.1 as int] <= x.0 by {
        assert(q.count(x) > 0);
    }
    assert(fresh(q, dist, hv, to as int) ==> fresh(q2, dist, hv, to as int));
    assert forall|u: int|
        0 <= u < n && u != e.1 as int && dist[u] < u128::MAX && !fresh(q2, dist, hv, u) implies #[trigger] closed_at(
        g,
        p,
        dist,
        u,
    ) by {
        assert(!fresh(q, dist, hv, u));
    }
}

/// Lowering the cost of `v` through edge `j` of `u`, and queueing `v` with
/// estimate `hval`, keeps the search invariant and extends the relaxed
/// prefix of `u`'s edges.
proof fn lemma_relax(
    g: RoadGraph,
    p: Profile,
    from: u32,
    to: u32,
    dist: Seq<u128>,
    came: Seq<u32>,
    q: Multiset<(u128, u32)>,
    stamp: Seq<nat>,
    by_edge: Seq<int>,
    clock: nat,
    hv: Seq<u64>,
    u: u32,
    j: int,
    nc: u128,
    hval: u64,
)
    requires
        g.wf(),
        (u as int) < g.nodes@.len(),
        search_inv(g, p, from, to, dist, came, q, stamp, by_edge, clock, hv, u as int),
        closed_upto(g, p, dist, u as int, j),
        0 <= j < g.adj()[u as int].len(),
        edge_time(p, g.adj()[u as int][j]) is Some,
        nc == dist[u as int] + edge_time(p, g.adj()[u as int][j]).unwrap(),
        nc < dist[g.adj()[u as int][j].to as int],
    ensures
        ({
            let v = g.adj()[u as int][j].to as int;
            let dist2 = dist.update(v, nc);
            &&& search_inv(
                g,
                p,
                from,
                to,
                dist2,
                came.update(v, u),
                q.insert((fresh_key(nc, hval), v as u32)),
                stamp.update(v, clock),
                by_edge.update(v, j),
                clock + 1,
                hv.update(v, hval),
                u as int,
            )
            &&& closed_upto(g, p, dist2, u as int, j + 1)
            &&& dist2[u as int] == dist[u as int]
            &&& cost_sum(dist2) < cost_sum(dist)
        }),
{
    let n = g.nodes@.len();
    let v = g.adj()[u as int][j].to as int;
    let w = edge_time(p, g.adj()[u as int][j]).unwrap();
    let key = fresh_key(nc, hval);
    let dist2 = dist.update(v, nc);
    let came2 = came.update(v, u);
    let q2 = q.insert((key, v as u32));
    let stamp2 = stamp.update(v, clock);
    let by_edge2 = by_edge.update(v, j);
    let hv2 = hv.update(v, hval);
    assert(v != u as int);
    assert(v != from as int);
    lemma_cost_sum_update(dist, v, nc);
    assert forall|x: int| 0 <= x < n implies #[trigger] parent_ok(g, p, from, dist2, came2, stamp2, by_edge2, x) by {
        if x == v {
            assert(step_ok(g, p, u, j, v as u32));
        } else {
            assert(parent_ok(g, p, from, dist, came, stamp, by_edge, x));
        }
    }
    assert forall|x: int| 0 <= x < n implies #[trigger] stamp2[x] < clock + 1 by {
        assert(x != v ==> stamp[x] < clock);
    }
    assert forall|e: (u128, u32)| #[trigger] q2.count(e) > 0 implies (e.1 as int) < n && dist2[e.1 as int] < u128::MAX
        && dist2[e.1 as int] <= e.0 by {
        if e != (key, v as u32) {
            assert(q.count(e) > 0);
        }
    }
    assert(fresh(q2, dist2, hv2, v));
    assert forall|x: int| 0 <= x < n && x != v && fresh(q, dist, hv, x) implies fresh(q2, dist2, hv2, x) by {
    }
    assert forall|x: int|
        0 <= x < n && x != u as int && dist2[x] < u128::MAX && !fresh(q2, dist2, hv2, x) implies #[trigger] closed_at(
        g,
        p,
        dist2,
        x,
    ) by {
        assert(x != v);
        assert(!fresh(q, dist, hv, x));
        assert(closed_at(g, p, dist, x));
        assert forall|k: int|
            0 <= k < g.adj()[x].len() && (#[trigger] edge_time(p, g.adj()[x][k])) is Some implies dist2[g.adj()[x][k].to as int]
                <= dist2[x] + edge_time(p, g.adj()[x][k]).unwrap() by {
        }
    }
    assert forall|k: int|
        0 <= k < j + 1 && k < g.adj()[u as int].len() && (#[trigger] edge_time(p, g.adj()[u as int][k])) is Some
            implies dist2[g.adj()[u as int][k].to as int] <= dist2[u as int] + edge_time(p, g.adj()[u as int][k]).unwrap() by {
    }
    assert(dist2[from as int] == 0);
    assert(dist2[to as int] < u128::MAX ==> fresh(q2, dist2, hv2, to as int));
    assert(search_inv(g, p, from, to, dist2, came2, q2, stamp2, by_edge2, clock + 1, hv2, u as int));
}

proof fn lemma_first_len_bound(es: Seq<RoadEdge>, b: u32, k: int)
    ensures
        first_len_from(es, b, k) <= 327675,
    decreases es.len() - k,
{
    if 0 <= k < es.len() && es[k].to != b {
        lemma_first_len_bound(es, b, k + 1);
    }
}

proof fn lemma_distinct_bounded(s: Seq<u32>, n: int)
    requires
        0 <= n,
        forall|i: int, j: int| 0 <= i < j < s.len() ==> s[i] != s[j],
        forall|i: int| 0 <= i < s.len() ==> (s[i] as int) < n,
    ensures
        s.len() <= n,
{
    let t = s.map_values(|x: u32| x as int);
    assert(t.no_duplicates()) by {
        assert forall|i: int, j: int| 0 <= i < t.len() && 0 <= j < t.len() && i != j implies t[i] != t[j] by {
            if i < j {
                assert(s[i] != s[j]);
            } else {
                assert(s[j] != s[i]);
            }
        }
    }
    t.unique_seq_to_set();
    vstd::set_lib::lemma_int_range(0, n);
    assert(t.to_set().subset_of(vstd::set_lib::set_int_range(0, n))) by {
        assert forall|x: int| t.to_set().contains(x) implies vstd::set_lib::set_int_range(0, n).contains(x) by {
            assert(t.contains(x));
            let i = choose|i: int| 0 <= i < t.len() && t[i] == x;
            assert(s[i] as int == x);
        }
    }
    vstd::set_lib::lemma_len_subset(t.to_set(), vstd::set_lib::set_int_range(0, n));
}

/// The cost of a walk's first `i` steps, plus step `i`, is the cost of its
/// first `i + 1` steps.
proof fn lemma_prefix_step(g: RoadGraph, p: Profile, nodes: Seq<u32>, eidx: Seq<int>, i: int)
    requires
        nodes.len() == eidx.len() + 1,
        0 <= i < eidx.len(),
    ensures
        walk_cost(g, p, nodes.take(i + 2), eidx.take(i + 1)) == walk_cost(g, p, nodes.take(i + 1), eidx.take(i))
            + edge_time(p, g.adj()[nodes[i] as int][eidx[i]]).unwrap(),
{
    let a = nodes.take(i + 2);
    let b = eidx.take(i + 1);
    assert(a.drop_last() =~= nodes.take(i + 1));
    assert(b.drop_last() =~= eidx.take(i));
}

/// Each step of the walk goes from a node's recorded predecessor to the
/// node, and never enters `start`.
pub open spec fn follows_predecessors(start: u32, came: Seq<u32>, nodes: Seq<u32>) -> bool {
    forall|t: int|
        #![trigger nodes[t]]
        0 <= t < nodes.len() - 1 ==> nodes[t + 1] != start && came[nodes[t + 1] as int] == nodes[t]
}

/// The recorded edge into each node after the first.
pub open spec fn recorded_edges(by_edge: Seq<int>, nodes: Seq<u32>) -> Seq<int> {
    Seq::new((nodes.len() - 1) as nat, |t: int| by_edge[nodes[t + 1] as int])
}

/// Along a chain of recorded predecessors, the cost of the walk up to a node
/// is at most that node's recorded cost.
proof fn lemma_chain_cost(
    g: RoadGraph,
    p: Profile,
    start: u32,
    dist: Seq<u128>,
    came: Seq<u32>,
    stamp: Seq<nat>,
    by_edge: Seq<int>,
    nodes: Seq<u32>,
    eidx: Seq<int>,
    k: int,
)
    requires
        nodes.len() == eidx.len() + 1,
        0 <= k <= eidx.len(),
        dist.len() == g.nodes@.len(),
        forall|t: int| 0 <= t < nodes.len() ==> (nodes[t] as int) < g.nodes@.len() && dist[nodes[t] as int] < u128::MAX,
        follows_predecessors(start, came, nodes),
        eidx == recorded_edges(by_edge, nodes),
        forall|v: int| 0 <= v < g.nodes@.len() ==> #[trigger] parent_ok(g, p, start, dist, came, stamp, by_edge, v),
    ensures
        walk_cost(g, p, nodes.take(k + 1), eidx.take(k)) <= dist[nodes[k] as int],
    decreases k,
{
    if k == 0 {
        assert(eidx.take(0).len() == 0);
    } else {
        lemma_chain_cost(g, p, start, dist, came, stamp, by_edge, nodes, eidx, k - 1);
        lemma_prefix_step(g, p, nodes, eidx, k - 1);
        assert(nodes[k] != start && came[nodes[k] as int] == nodes[k - 1]);
        assert(eidx[k - 1] == by_edge[nodes[k] as int]);
        assert(parent_ok(g, p, start, dist, came, stamp, by_edge, nodes[k] as int));
    }
}

/// A walk's cost is the cost of its first `i` steps plus the cost of the rest.
proof fn lemma_walk_split(g: RoadGraph, p: Profile, nodes: Seq<u32>, eidx: Seq<int>, i: int)
    requires
        nodes.len() == eidx.len() + 1,
        0 <= i <= eidx.len(),
    ensures
        walk_cost(g, p, nodes, eidx) == walk_cost(g, p, nodes.take(i + 1), eidx.take(i)) + walk_cost(
            g,
            p,
            nodes.skip(i),
            eidx.skip(i),
        ),
    decreases eidx.len(),
{
    let m = eidx.len();
    if i == m {
        assert(nodes.take(i + 1) =~= nodes);
        assert(eidx.take(i) =~= eidx);
        assert(eidx.skip(i).len() == 0);
    } else {
        let n0 = nodes.drop_last();
        let e0 = eidx.drop_last();
        lemma_walk_split(g, p, n0, e0, i);
        assert(n0.take(i + 1) =~= nodes.take(i + 1));
        assert(e0.take(i) =~= eidx.take(i));
        let sn = nodes.skip(i);
        let se = eidx.skip(i);
        assert(sn.drop_last() =~= n0.skip(i));
        assert(se.drop_last() =~= e0.skip(i));
        assert(sn[se.len() - 1] == nodes[m - 1]);
        assert(se[se.len() - 1] == eidx[m - 1]);
    }
}

/// `h` never overestimates: every value it returns for a node is at most the
/// cost of any walk from that node to `to`.
pub open spec fn admissible<F: Fn(u32) -> u64>(g: RoadGraph, p: Profile, h: F, to: u32) -> bool {
    forall|nodes: Seq<u32>, eidx: Seq<int>, hu: u64|
        #![trigger is_walk(g, p, nodes, eidx), call_ensures(h, (nodes[0],), hu)]
        is_walk(g, p, nodes, eidx) && nodes.last() == to && call_ensures(h, (nodes[0],), hu) ==> hu as int
            <= walk_cost(g, p, nodes, eidx)
}

/// With an admissible estimate, the queue always holds an entry whose key is
/// at most the cost of any route to `to`: either the fresh entry of the last
/// node along the route whose cost is already no more than the route's, or
/// (when that node is settled) one further along.
proof fn lemma_frontier<F: Fn(u32) -> u64>(
    g: RoadGraph,
    p: Profile,
    from: u32,
    to: u32,
    dist: Seq<u128>,
    came: Seq<u32>,
    q: Multiset<(u128, u32)>,
    stamp: Seq<nat>,
    by_edge: Seq<int>,
    clock: nat,
    hv: Seq<u64>,
    h: F,
    nodes: Seq<u32>,
    eidx: Seq<int>,
    i: int,
)
    requires
        g.wf(),
        search_inv(g, p, from, to, dist, came, q, stamp, by_edge, clock, hv, -1),
        forall|v: int| 0 <= v < g.nodes@.len() && dist[v] < u128::MAX ==> call_ensures(h, (v as u32,), #[trigger] hv[v]),
        admissible(g, p, h, to),
        is_route(g, p, from, to, nodes, eidx),
        walk_cost(g, p, nodes, eidx) < u128::MAX,
        0 <= i <= eidx.len(),
        dist[nodes[i] as int] <= walk_cost(g, p, nodes.take(i + 1), eidx.take(i)),
    ensures
        exists|e: (u128, u32)| q.count(e) > 0 && e.0 <= walk_cost(g, p, nodes, eidx),
    decreases eidx.len() - i,
{
    let m = eidx.len();
    let n = g.nodes@.len();
    lemma_walk_split(g, p, nodes, eidx, i);
    let x = nodes[i];
    if i < m {
        assert(step_ok(g, p, nodes[i], eidx[i], nodes[i + 1]));
    }
    assert((x as int) < n);
    if fresh(q, dist, hv, x as int) {
        let sn = nodes.skip(i);
        let se = eidx.skip(i);
        assert forall|t: int| 0 <= t < se.len() implies #[trigger] step_ok(g, p, sn[t], se[t], sn[t + 1]) by {
            assert(step_ok(g, p, nodes[i + t], eidx[i + t], nodes[i + t + 1]));
        }
        assert(is_walk(g, p, sn, se));
        assert(sn[0] == x);
        assert(call_ensures(h, (x,), hv[x as int]));
        let e = (fresh_key(dist[x as int], hv[x as int]), x);
        assert(q.count(e) > 0);
    } else {
        assert(x != to);
        assert(i < m);
        assert(closed_at(g, p, dist, x as int));
        assert(edge_time(p, g.adj()[x as int][eidx[i]]) is Some);
        lemma_prefix_step(g, p, nodes, eidx, i);
        lemma_frontier(g, p, from, to, dist, came, q, stamp, by_edge, clock, hv, h, nodes, eidx, i + 1);
    }
}

/// Follows the recorded predecessors from `goal` back to `start` and sums up
/// the route.
#[verifier::spinoff_prover]
fn reconstruct(
    graph: &RoadGraph,
    profile: &Profile,
    came_from: Vec<u32>,
    start: u32,
    goal: u32,
    Ghost(dist): Ghost<Seq<u128>>,
    Ghost(stamp): Ghost<Seq<nat>>,
    Ghost(by_edge): Ghost<Seq<int>>,
) -> (r: RouteResult)
    requires
        graph.wf(),
        (start as int) < graph.nodes@.len(),
        (goal as int) < graph.nodes@.len(),
        dist.len() == graph.nodes@.len(),
        came_from@.len() == graph.nodes@.len(),
        stamp.len() == graph.nodes@.len(),
        by_edge.len() == graph.nodes@.len(),
        dist[goal as int] < u128::MAX,
        forall|v: int|
            0 <= v < graph.nodes@.len() ==> #[trigger] parent_ok(*graph, *profile, start, dist, came_from@, stamp, by_edge, v),
    ensures
        exists|nodes: Seq<u32>, eidx: Seq<int>|
            is_route(*graph, *profile, start, goal, nodes, eidx) && summary_of(*graph, profile.max_speed_kmh, nodes, r)
                && distinct_nodes(nodes) && walk_cost(
                *graph,
                *profile,
                nodes,
                eidx,
            ) <= dist[goal as int],
{
    let ghost g = *graph;
    let ghost p = *profile;
    let ghost came = came_from@;
    let ghost n = graph.nodes@.len();
    // Walk back from the goal.
    let mut back: Vec<u32> = Vec::new();
    let mut current = goal;
    let mut done = false;
    while !done
        invariant
            (current as int) < n,
            dist[current as int] < u128::MAX,
            back@.len() == 0 ==> current == goal && !done,
            back@.len() > 0 ==> back@[0] == goal,
            forall|i: int| 0 <= i < back@.len() ==> (back@[i] as int) < n && dist[back@[i] as int] < u128::MAX,
            forall|i: int| 0 <= i < back@.len() - 1 ==> back@[i] != start && #[trigger] back@[i + 1] == came[back@[i] as int],
            !done && back@.len() > 0 ==> back@.last() != start && current == came[back@.last() as int],
            done ==> back@.len() > 0 && back@.last() == start,
            !done ==> forall|i: int| 0 <= i < back@.len() ==> ranks_below(dist, stamp, current as int, #[trigger] back@[i] as int),
            forall|i: int, j: int| 0 <= i < j < back@.len() ==> ranks_below(dist, stamp, #[trigger] back@[j] as int, #[trigger] back@[i] as int),
            forall|v: int| 0 <= v < n ==> #[trigger] parent_ok(g, p, start, dist, came, stamp, by_edge, v),
            came == came_from@,
            dist.len() == n,
            stamp.len() == n,
            by_edge.len() == n,
            came.len() == n,
            g.wf(),
            g == *graph,
            p == *profile,
            n == graph.nodes@.len(),
        decreases (if done { 0int } else { 1int }), dist[current as int], stamp[current as int],
    {
        let ghost old_back = back@;
        back.push(current);
        proof {
            assert forall|i: int| 0 <= i < back@.len() - 1 implies back@[i] != start && #[trigger] back@[i + 1]
                == came[back@[i] as int] by {
                if i < old_back.len() - 1 {
                    assert(back@[i + 1] == old_back[i + 1]);
                } else {
                    assert(back@[i] == old_back.last());
                }
            }
        }
        if current == start {
            done = true;
        } else {
            let c = came_from[current as usize];
            proof {
                assert(parent_ok(g, p, start, dist, came, stamp, by_edge, current as int));
                assert(step_ok(g, p, c, by_edge[current as int], current));
            }
            current = c;
        }
    }
    let len = back.len();
    proof {
        assert forall|i: int, j: int| 0 <= i < j < back@.len() implies back@[i] != back@[j] by {
            assert(ranks_below(dist, stamp, back@[j] as int, back@[i] as int));
        }
        lemma_distinct_bounded(back@, n as int);
    }
    // Put the nodes in travel order and collect their coordinates.
    let mut fwd: Vec<u32> = Vec::new();
    let mut path: Vec<(i32, i32)> = Vec::new();
    let mut k: usize = 0;
    while k < len
        invariant
            len == back@.len(),
            0 <= k <= len,
            fwd@.len() == k,
            forall|i: int| 0 <= i < k ==> fwd@[i] == back@[len - 1 - i],
            forall|i: int| 0 <= i < back@.len() ==> (back@[i] as int) < n,
            graph.nodes@.len() == n,
            path@ == coords(*graph, fwd@),
        decreases len - k,
    {
        let v = back[len - 1 - k];
        let gn = graph.nodes[v as usize];
        fwd.push(v);
        path.push((gn.lon, gn.lat));
        proof {
            assert(coords(*graph, fwd@) =~= coords(*graph, fwd@.drop_last()).push((gn.lon, gn.lat)));
            assert(fwd@.drop_last() =~= fwd@.subrange(0, k as int));
        }
        k = k + 1;
    }
    // Sum the hop lengths, each measured by the first edge between the two nodes.
    let mut total: u64 = 0;
    let mut i: usize = 0;
    while i + 1 < len
        invariant
            len == fwd@.len(),
            len >= 1,
            len <= n,
            n <= u32::MAX,
            0 <= i < len,
            forall|t: int| 0 <= t < len ==> (fwd@[t] as int) < n,
            graph.wf(),
            n == graph.nodes@.len(),
            total == path_length_m(*graph, fwd@.subrange(0, i as int + 1)),
            total <= 327675 * i,
        decreases len - i,
    {
        let a = fwd[i];
        let b = fwd[i + 1];
        let es = &graph.adjacency[a as usize];
        let mut e: usize = 0;
        let mut hop: u32 = 0;
        let mut found = false;
        while e < es.len() && !found
            invariant
                (a as int) < graph.adj().len(),
                es@ == graph.adj()[a as int],
                0 <= e <= es@.len(),
                found ==> hop == first_len_from(es@, b, 0),
                !found ==> first_len_from(es@, b, 0) == first_len_from(es@, b, e as int),
                !found ==> hop == 0,
            decreases es@.len() - e,
        {
            if es[e].to == b {
                hop = es[e].length_m();
                found = true;
            }
            e = e + 1;
        }
        proof {
            lemma_first_len_bound(es@, b, 0);
            let s1 = fwd@.subrange(0, i as int + 2);
            assert(s1.drop_last() =~= fwd@.subrange(0, i as int + 1));
            assert(i * 327675 + 327675 <= u64::MAX) by (nonlinear_arith)
                requires
                    i + 1 < len,
                    len <= u32::MAX,
            ;
        }
        total = total + hop as u64;
        i = i + 1;
    }
    proof {
        assert(fwd@.subrange(0, len as int) =~= fwd@);
    }
    let distance_hm = (total + 50) / 100;
    let speed = profile.max_speed_kmh as u64;
    let duration_min = if speed == 0 {
        0
    } else {
        proof {
            assert(total <= 327675 * 0xffff_ffffu64) by (nonlinear_arith)
                requires
                    total <= 327675 * i,
                    i <= 0xffff_ffff,
            ;
        }
        (6 * total + 50 * speed) / (100 * speed)
    };
    let r = RouteResult { found: true, distance_hm, duration_min, path };
    proof {
        let nodes = fwd@;
        let eidx = recorded_edges(by_edge, nodes);
        assert forall|t: int| 0 <= t < eidx.len() implies #[trigger] step_ok(g, p, nodes[t], eidx[t], nodes[t + 1]) by {
            let x = len - 2 - t;
            assert(nodes[t + 1] == back@[x]);
            assert(nodes[t] == back@[x + 1]);
            assert(back@[x + 1] == came[back@[x] as int]);
            assert(parent_ok(g, p, start, dist, came, stamp, by_edge, back@[x] as int));
        }
        assert(nodes[0] == start);
        assert(nodes.last() == goal);
        assert(is_route(g, p, start, goal, nodes, eidx));
        assert(summary_of(g, p.max_speed_kmh, nodes, r));
        assert(distinct_nodes(nodes)) by {
            assert forall|a: int, b: int| 0 <= a < b < nodes.len() implies nodes[a] != nodes[b] by {
                assert(nodes[a] == back@[len - 1 - a]);
                assert(nodes[b] == back@[len - 1 - b]);
            }
        }
        assert(follows_predecessors(start, came, nodes)) by {
            assert forall|t: int| #![trigger nodes[t]] 0 <= t < nodes.len() - 1 implies nodes[t + 1] != start
                && came[nodes[t + 1] as int] == nodes[t] by {
                let x = len - 2 - t;
                assert(nodes[t + 1] == back@[x]);
                assert(nodes[t] == back@[x + 1]);
                assert(back@[x] != start);
                assert(back@[x + 1] == came[back@[x] as int]);
            }
        }
        lemma_chain_cost(g, p, start, dist, came, stamp, by_edge, nodes, eidx, eidx.len() as int);
        assert(nodes.take(eidx.len() as int + 1) =~= nodes);
        assert(eidx.take(eidx.len() as int) =~= eidx);
    }
    r
}

/// Time in microseconds to ride edge `e` under `profile`, or `None` when the
/// profile may not use it.
fn edge_travel_us(profile: &Profile, e: &RoadEdge) -> (r: Option<u64>)
    ensures
        match edge_time(*profile, *e) {
            None => r is None,
            Some(t) => r == Some(t as u64) && t <= max_edge_us(),
        },
{
    if profile.is_road_blocked(&e.highway, e.motorroad) {
        return None;
    }
    match profile.allowed_speed(&e.highway, e.speed_kmh()) {
        None => None,
        Some(speed) => {
            if speed == 0 {
                None
            } else {
                let len = e.length as u64;
                proof {
                    assert(18_000_000 * len <= 18_000_000 * 65535) by (nonlinear_arith)
                        requires
                            len <= 65535,
                    ;
                    assert((18_000_000 * len as nat) / (speed as nat) <= 18_000_000 * len as nat) by (nonlinear_arith)
                        requires
                            speed > 0,
                    ;
                }
                Some((18_000_000u64 * len) / (speed as u64))
            }
        },
    }
}

/// A* search for a route from `from` to `to` that the profile may ride.
///
/// Edges are weighed by their travel time in microseconds at the speed the
/// profile allows there. `heuristic(v)` estimates the remaining time from `v`
/// and steers the order in which nodes are expanded. Whatever it returns, a
/// route found is a walk from `from` to `to` over edges the profile may use,
/// and `None` is returned exactly when there is no such walk. When the
/// estimate never exceeds the time of a walk to `to`, the route found is a
/// fastest one.
pub fn route(
    graph: &RoadGraph,
    from: u32,
    to: u32,
    profile: &Profile,
    _spatial: &SpatialIndex,
    heuristic: impl Fn(u32) -> u64,
) -> (r: Option<RouteResult>)
    requires
        graph.wf(),
        (from as int) < graph.nodes@.len(),
        (to as int) < graph.nodes@.len(),
        forall|v: u32| (v as int) < graph.nodes@.len() ==> heuristic.requires((v,)),
    ensures
        match r {
            Some(res) => exists|nodes: Seq<u32>, eidx: Seq<int>|
                {
                    &&& is_route(*graph, *profile, from, to, nodes, eidx)
                    &&& summary_of(*graph, profile.max_speed_kmh, nodes, res)
                    &&& distinct_nodes(nodes)
                    &&& admissible(*graph, *profile, heuristic, to) ==> forall|nodes2: Seq<u32>, eidx2: Seq<int>|
                        is_route(*graph, *profile, from, to, nodes2, eidx2) ==> walk_cost(
                            *graph,
                            *profile,
                            nodes,
                            eidx,
                        ) <= walk_cost(*graph, *profile, nodes2, eidx2)
                },
            None => forall|nodes: Seq<u32>, eidx: Seq<int>| !is_route(*graph, *profile, from, to, nodes, eidx),
        },
{
    let ghost g = *graph;
    let ghost p = *profile;
    let n = graph.nodes.len();
    let mut came_from: Vec<u32> = Vec::new();
    let mut cost: Vec<u128> = Vec::new();
    let mut k: usize = 0;
    while k < n
        invariant
            0 <= k <= n,
            came_from@.len() == k,
            cost@.len() == k,
            forall|i: int| 0 <= i < k ==> cost@[i] == u128::MAX,
        decreases n - k,
    {
        came_from.push(u32::MAX);
        cost.push(u128::MAX);
        k = k + 1;
    }
    cost.set(from as usize, 0);
    let mut heap = MinQueue::new();
    let h0 = heuristic(from);
    heap.push(h0 as u128, from);
    let ghost mut stamp: Seq<nat> = Seq::new(n as nat, |i: int| 0nat);
    let ghost mut by_edge: Seq<int> = Seq::new(n as nat, |i: int| 0int);
    let ghost mut hv: Seq<u64> = Seq::new(n as nat, |i: int| 0u64).update(from as int, h0);
    let ghost mut clock: nat = 1;
    proof {
        assert forall|v: int| 0 <= v < n implies #[trigger] parent_ok(g, p, from, cost@, came_from@, stamp, by_edge, v) by {
        }
        assert(fresh_key(0, h0) == h0);
        assert forall|e: (u128, u32)| #[trigger] heap@.count(e) > 0 implies (e.1 as int) < n && cost@[e.1 as int]
            < u128::MAX && cost@[e.1 as int] <= e.0 by {
            assert(e == (h0 as u128, from));
        }
        assert(fresh(heap@, cost@, hv, from as int));
        assert(search_inv(g, p, from, to, cost@, came_from@, heap@, stamp, by_edge, clock, hv, -1));
        assert(reached(cost@) =~= set![from as int]);
        assert(costs_bounded(cost@));
    }
    loop
        invariant
            g == *graph,
            p == *profile,
            graph.wf(),
            n == graph.nodes@.len(),
            heap.wf(),
            search_inv(g, p, from, to, cost@, came_from@, heap@, stamp, by_edge, clock, hv, -1),
            costs_bounded(cost@),
            forall|v: u32| (v as int) < graph.nodes@.len() ==> heuristic.requires((v,)),
            forall|v: int| 0 <= v < n && cost@[v] < u128::MAX ==> call_ensures(heuristic, (v as u32,), #[trigger] hv[v]),
        decreases cost_sum(cost@) + heap@.len(),
    {
        let ghost m0 = cost_sum(cost@) + heap@.len();
        let ghost q0 = heap@;
        match heap.pop() {
            None => {
                proof {
                    assert forall|u: int| 0 <= u < n && cost@[u] < u128::MAX implies #[trigger] closed_at(g, p, cost@, u) by {
                        assert(!fresh(heap@, cost@, hv, u));
                    }
                    assert forall|nodes: Seq<u32>, eidx: Seq<int>| !is_route(g, p, from, to, nodes, eidx) by {
                        if is_route(g, p, from, to, nodes, eidx) {
                            lemma_walk_reached(g, p, from, cost@, nodes, eidx);
                            assert(!fresh(heap@, cost@, hv, to as int));
                        }
                    }
                }
                return None;
            },
            Some(entry) => {
                let node = entry.1;
                if node == to {
                    let res = reconstruct(
                        graph,
                        profile,
                        came_from,
                        from,
                        to,
                        Ghost(cost@),
                        Ghost(stamp),
                        Ghost(by_edge),
                    );
                    proof {
                        let (nodes, eidx) = choose|nodes: Seq<u32>, eidx: Seq<int>|
                            is_route(g, p, from, to, nodes, eidx) && summary_of(g, p.max_speed_kmh, nodes, res) && distinct_nodes(nodes)
                                && walk_cost(
                                g,
                                p,
                                nodes,
                                eidx,
                            ) <= cost@[to as int];
                        if admissible(g, p, heuristic, to) {
                            assert forall|nodes2: Seq<u32>, eidx2: Seq<int>|
                                is_route(g, p, from, to, nodes2, eidx2) implies walk_cost(g, p, nodes, eidx)
                                <= walk_cost(g, p, nodes2, eidx2) by {
                                if walk_cost(g, p, nodes2, eidx2) < u128::MAX {
                                    assert(nodes2.take(1).len() == 1);
                                    assert(eidx2.take(0).len() == 0);
                                    lemma_frontier(
                                        g,
                                        p,
                                        from,
                                        to,
                                        cost@,
                                        came_from@,
                                        q0,
                                        stamp,
                                        by_edge,
                                        clock,
                                        hv,
                                        heuristic,
                                        nodes2,
                                        eidx2,
                                        0,
                                    );
                                    let e = choose|e: (u128, u32)| q0.count(e) > 0 && e.0 <= walk_cost(g, p, nodes2, eidx2);
                                    assert(entry.0 <= e.0);
                                    assert(q0.count(entry) > 0);
                                }
                            }
                        }
                    }
                    return Some(res);
                }
                proof {
                    lemma_pop(g, p, from, to, cost@, came_from@, q0, stamp, by_edge, clock, hv, entry);
                }
                let cur = cost[node as usize];
                let edges = &graph.adjacency[node as usize];
                let mut j: usize = 0;
                while j < edges.len()
                    invariant
                        g == *graph,
                        p == *profile,
                        graph.wf(),
                        n == graph.nodes@.len(),
                        (node as int) < n,
                        edges@ == g.adj()[node as int],
                        0 <= j <= edges@.len(),
                        heap.wf(),
                        search_inv(g, p, from, to, cost@, came_from@, heap@, stamp, by_edge, clock, hv, node as int),
                        closed_upto(g, p, cost@, node as int, j as int),
                        cost@[node as int] == cur,
                        cur < u128::MAX,
                        costs_bounded(cost@),
                        cost_sum(cost@) + heap@.len() < m0,
                        forall|v: u32| (v as int) < graph.nodes@.len() ==> heuristic.requires((v,)),
                        forall|v: int| 0 <= v < n && cost@[v] < u128::MAX ==> call_ensures(heuristic, (v as u32,), #[trigger] hv[v]),
                    decreases edges@.len() - j,
                {
                    let e = edges[j];
                    proof {
                        assert(e == g.adj()[node as int][j as int]);
                        assert((e.to as int) < n);
                    }
                    match edge_travel_us(profile, &e) {
                        None => {},
                        Some(t) => {
                            proof {
                                lemma_cost_room(cost@, node as int, t as nat);
                            }
                            let nc: u128 = cur + t as u128;
                            let v = e.to;
                            if nc < cost[v as usize] {
                                let hres = heuristic(v);
                                proof {
                                    lemma_reached_bounded(cost@);
                                    assert(nc <= max_edge_us() * 0xffff_ffffnat) by (nonlinear_arith)
                                        requires
                                            nc <= max_edge_us() * reached(cost@).len(),
                                            reached(cost@).len() <= 0xffff_ffff,
                                    ;
                                }
                                let est: u128 = nc + hres as u128;
                                proof {
                                    lemma_relax_bounded(cost@, node as int, v as int, nc, t as nat);
                                    lemma_relax(
                                        g,
                                        p,
                                        from,
                                        to,
                                        cost@,
                                        came_from@,
                                        heap@,
                                        stamp,
                                        by_edge,
                                        clock,
                                        hv,
                                        node,
                                        j as int,
                                        nc,
                                        hres,
                                    );
                                }
                                cost.set(v as usize, nc);
                                came_from.set(v as usize, node);
                                heap.push(est, v);
                                proof {
                                    stamp = stamp.update(v as int, clock);
                                    by_edge = by_edge.update(v as int, j as int);
                                    hv = hv.update(v as int, hres);
                                    clock = clock + 1;
                                }
                            }
                        },
                    }
                    j = j + 1;
                }
                proof {
                    assert forall|u: int|
                        0 <= u < n && u != -1 && cost@[u] < u128::MAX && !fresh(heap@, cost@, hv, u) implies #[trigger] closed_at(
                        g,
                        p,
                        cost@,
                        u,
                    ) by {
                        if u != node as int {
                        }
                    }
                }
            },
        }
    }
}

} // verus!
