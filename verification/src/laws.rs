//! Properties that hold across the library: what slow vehicles may never
//! ride, and how tagged ways turn into blocked or open edges.

use vstd::prelude::*;
use crate::graph::{HighwayType, RoadEdge, RoadGraph, highway_of};
use crate::routing::RouteResult;
use crate::profile::{Profile, min_u32};
use crate::routing::{
    coords, edge_time, first_len_from, is_route, is_walk, path_length_m, step_ok, summary_of, travel_us, walk_cost,
};
use crate::spatial::within_range;
use crate::api::{decode_form, encode_char, encode_chars, escaped_count, hex_char, hex_value, is_form_char, is_unreserved};
use crate::pbf::{GraphBuilder, MaxSpeed, WayAttrs, on_bridge, raised, seg_edges, tag_is, way_attrs, way_edges};

verus! {

proof fn lemma_trunk_class()
    ensures
        highway_of("trunk"@) == HighwayType::Trunk,
{
    reveal_strlit("trunk");
    reveal_strlit("motorway");
    reveal_strlit("motorway_link");
    assert("trunk"@.len() == 5);
    assert("motorway"@.len() == 8);
    assert("motorway_link"@.len() == 13);
}

/// No profile ever rides a motorway or motorway link: such an edge has no
/// travel time.
pub proof fn law_motorway_never_usable(p: Profile, e: RoadEdge)
    requires
        e.highway.spec_is_motorway(),
    ensures
        edge_time(p, e) is None,
{
}

/// A profile that blocks motorroads never rides an edge flagged as one.
pub proof fn law_motorroad_never_usable(p: Profile, e: RoadEdge)
    requires
        p.block_motorroad,
        e.motorroad,
    ensures
        edge_time(p, e) is None,
{
}

/// Every edge of a route is neither a motorway nor, for a profile that
/// blocks them, a motorroad.
pub proof fn law_route_avoids_fast_roads(g: RoadGraph, p: Profile, from: u32, to: u32, nodes: Seq<u32>, eidx: Seq<int>)
    requires
        is_route(g, p, from, to, nodes, eidx),
    ensures
        forall|i: int|
            0 <= i < eidx.len() ==> {
                let e = #[trigger] g.adj()[nodes[i] as int][eidx[i]];
                &&& !e.highway.spec_is_motorway()
                &&& p.block_motorroad ==> !e.motorroad
            },
{
    assert forall|i: int| 0 <= i < eidx.len() implies {
        let e = #[trigger] g.adj()[nodes[i] as int][eidx[i]];
        &&& !e.highway.spec_is_motorway()
        &&& p.block_motorroad ==> !e.motorroad
    } by {
        assert(step_ok(g, p, nodes[i], eidx[i], nodes[i + 1]));
    }
}

/// The speed used on a usable road never exceeds the vehicle's top speed,
/// nor the road's own speed when that is known.
pub proof fn law_allowed_speed_bounded(p: Profile, h: HighwayType, road_speed: u32)
    requires
        p.spec_allowed_speed(h, road_speed) is Some,
    ensures
        p.spec_allowed_speed(h, road_speed)->0 <= p.max_speed_kmh,
        road_speed > 0 ==> p.spec_allowed_speed(h, road_speed)->0 <= road_speed,
        !h.spec_is_motorway(),
{
}

/// Every edge that a way adds carries the way's class, speed and motorroad
/// flag.
pub proof fn law_way_edges_carry_attrs(
    m: Map<i64, u32>,
    coords: Map<i64, (i32, i32)>,
    refs: Seq<i64>,
    lengths: Seq<Option<u16>>,
    a: WayAttrs,
    k: nat,
)
    ensures
        forall|i: int|
            0 <= i < way_edges(m, coords, refs, lengths, a, k).len() ==> {
                let e = (#[trigger] way_edges(m, coords, refs, lengths, a, k)[i]).1;
                e.highway == a.highway && e.speed == a.speed && e.motorroad == a.motorroad
            },
    decreases k,
{
    if k > 0 {
        law_way_edges_carry_attrs(m, coords, refs, lengths, a, (k - 1) as nat);
        let w = way_edges(m, coords, refs, lengths, a, (k - 1) as nat);
        let s = seg_edges(m, coords, refs, lengths, a, k - 1);
        assert forall|i: int| 0 <= i < way_edges(m, coords, refs, lengths, a, k).len() implies {
            let e = (#[trigger] way_edges(m, coords, refs, lengths, a, k)[i]).1;
            e.highway == a.highway && e.speed == a.speed && e.motorroad == a.motorroad
        } by {
            if i >= w.len() {
                assert(way_edges(m, coords, refs, lengths, a, k)[i] == s[i - w.len()]);
            } else {
                assert(way_edges(m, coords, refs, lengths, a, k)[i] == w[i]);
            }
        }
    }
}

/// A trunk road closed to pedestrians and cyclists is an expressway: its
/// edges are flagged as motorroads, so vehicles that avoid motorroads cannot
/// use them.
pub proof fn law_trunk_without_foot_or_bicycle_is_blocked(
    t: Map<Seq<char>, Seq<char>>,
    maxspeed: Option<MaxSpeed>,
    p: Profile,
)
    requires
        way_attrs(t, maxspeed) is Some,
        tag_is(t, "highway"@, "trunk"@),
        tag_is(t, "foot"@, "no"@),
        tag_is(t, "bicycle"@, "no"@),
        p.block_motorroad,
    ensures
        way_attrs(t, maxspeed)->0.motorroad,
        p.spec_is_road_blocked(way_attrs(t, maxspeed)->0.highway, way_attrs(t, maxspeed)->0.motorroad),
{
    lemma_trunk_class();
}

/// A trunk road on a bridge or on a raised layer is blocked for vehicles
/// that avoid motorroads.
pub proof fn law_elevated_trunk_is_blocked(t: Map<Seq<char>, Seq<char>>, maxspeed: Option<MaxSpeed>, p: Profile)
    requires
        way_attrs(t, maxspeed) is Some,
        tag_is(t, "highway"@, "trunk"@),
        on_bridge(t) || raised(t),
        p.block_motorroad,
    ensures
        way_attrs(t, maxspeed)->0.motorroad,
        p.spec_is_road_blocked(way_attrs(t, maxspeed)->0.highway, way_attrs(t, maxspeed)->0.motorroad),
{
    lemma_trunk_class();
}

/// A way tagged `motorroad=yes` is blocked for vehicles that avoid
/// motorroads, whatever its class.
pub proof fn law_motorroad_tag_is_blocked(t: Map<Seq<char>, Seq<char>>, maxspeed: Option<MaxSpeed>, p: Profile)
    requires
        way_attrs(t, maxspeed) is Some,
        tag_is(t, "motorroad"@, "yes"@),
        p.block_motorroad,
    ensures
        way_attrs(t, maxspeed)->0.motorroad,
        p.spec_is_road_blocked(way_attrs(t, maxspeed)->0.highway, way_attrs(t, maxspeed)->0.motorroad),
{
}

/// A trunk road signposted at 80 km/h or more is blocked for vehicles that
/// avoid motorroads.
pub proof fn law_fast_trunk_is_blocked(t: Map<Seq<char>, Seq<char>>, m: MaxSpeed, p: Profile)
    requires
        way_attrs(t, Some(m)) is Some,
        tag_is(t, "highway"@, "trunk"@),
        m.at_least_80,
        p.block_motorroad,
    ensures
        way_attrs(t, Some(m))->0.motorroad,
        p.spec_is_road_blocked(way_attrs(t, Some(m))->0.highway, way_attrs(t, Some(m))->0.motorroad),
{
    lemma_trunk_class();
}

/// A plain trunk road, without `motorroad=yes`, not closed to both
/// pedestrians and cyclists, on no bridge nor raised layer and signposted below
/// 80 km/h, stays open to a profile that only blocks motorways and
/// motorroads.
pub proof fn law_plain_trunk_stays_open(t: Map<Seq<char>, Seq<char>>, maxspeed: Option<MaxSpeed>, p: Profile)
    requires
        way_attrs(t, maxspeed) is Some,
        tag_is(t, "highway"@, "trunk"@),
        !tag_is(t, "motorroad"@, "yes"@),
        !(tag_is(t, "foot"@, "no"@) && tag_is(t, "bicycle"@, "no"@)),
        !on_bridge(t),
        !raised(t),
        !(maxspeed matches Some(m) && m.at_least_80),
    ensures
        !way_attrs(t, maxspeed)->0.motorroad,
        !p.spec_is_road_blocked(way_attrs(t, maxspeed)->0.highway, way_attrs(t, maxspeed)->0.motorroad),
{
    lemma_trunk_class();
}

/// Profiles that block the same kinds of road block the same roads,
/// whatever their top speeds.
pub proof fn law_profiles_block_same_roads(p: Profile, q: Profile, h: HighwayType, motorroad: bool)
    requires
        p.block_motorway == q.block_motorway,
        p.block_motorroad == q.block_motorroad,
    ensures
        p.spec_is_road_blocked(h, motorroad) == q.spec_is_road_blocked(h, motorroad),
{
}

/// Of two profiles with the same restrictions, the one with the higher top
/// speed may ride every edge the other may ride, in no more time.
pub proof fn law_faster_profile_edge(p: Profile, q: Profile, e: RoadEdge)
    requires
        p.block_motorway == q.block_motorway,
        p.block_motorroad == q.block_motorroad,
        p.max_speed_kmh >= q.max_speed_kmh,
        edge_time(q, e) is Some,
    ensures
        edge_time(p, e) is Some,
        edge_time(p, e)->0 <= edge_time(q, e)->0,
{
    let rs = (e.speed as nat * 2) as u32;
    let sp = p.spec_allowed_speed(e.highway, rs)->0;
    let sq = q.spec_allowed_speed(e.highway, rs)->0;
    assert(sp >= sq);
    vstd::arithmetic::div_mod::lemma_div_is_ordered_by_denominator(
        18_000_000 * e.length as int,
        sq as int,
        sp as int,
    );
    assert(travel_us(e.length, sp) <= travel_us(e.length, sq));
}

/// Of two profiles with the same restrictions, the one with the higher top
/// speed may ride every walk the other may ride, in no more time.
pub proof fn law_faster_profile_walk(g: RoadGraph, p: Profile, q: Profile, nodes: Seq<u32>, eidx: Seq<int>)
    requires
        p.block_motorway == q.block_motorway,
        p.block_motorroad == q.block_motorroad,
        p.max_speed_kmh >= q.max_speed_kmh,
        is_walk(g, q, nodes, eidx),
    ensures
        is_walk(g, p, nodes, eidx),
        walk_cost(g, p, nodes, eidx) <= walk_cost(g, q, nodes, eidx),
    decreases eidx.len(),
{
    assert forall|i: int| 0 <= i < eidx.len() implies #[trigger] step_ok(g, p, nodes[i], eidx[i], nodes[i + 1]) by {
        assert(step_ok(g, q, nodes[i], eidx[i], nodes[i + 1]));
        law_faster_profile_edge(p, q, g.adj()[nodes[i] as int][eidx[i]]);
    }
    if eidx.len() > 0 {
        let k = eidx.len() - 1;
        let n0 = nodes.drop_last();
        let e0 = eidx.drop_last();
        assert forall|i: int| 0 <= i < e0.len() implies #[trigger] step_ok(g, q, n0[i], e0[i], n0[i + 1]) by {
            assert(step_ok(g, q, nodes[i], eidx[i], nodes[i + 1]));
        }
        law_faster_profile_walk(g, p, q, n0, e0);
        assert(step_ok(g, q, nodes[k], eidx[k], nodes[k + 1]));
        law_faster_profile_edge(p, q, g.adj()[nodes[k] as int][eidx[k]]);
    }
}

/// The graph builder never adds an OSM node twice: distinct graph nodes
/// carry distinct OSM ids.
pub proof fn law_builder_nodes_distinct(b: GraphBuilder)
    requires
        b.wf(),
    ensures
        forall|i: int, j: int|
            0 <= i < j < b.graph.nodes@.len() ==> #[trigger] b.graph.nodes@[i].osm_id != #[trigger] b.graph.nodes@[j].osm_id,
{
    assert forall|i: int, j: int| 0 <= i < j < b.graph.nodes@.len() implies #[trigger] b.graph.nodes@[i].osm_id
        != #[trigger] b.graph.nodes@[j].osm_id by {
        assert(b.node_ids@[b.graph.nodes@[i].osm_id] == i);
        assert(b.node_ids@[b.graph.nodes@[j].osm_id] == j);
    }
}

proof fn lemma_hex_round_trip(n: nat)
    requires
        n < 16,
    ensures
        hex_value(hex_char(n)) == Some(n),
        is_form_char(hex_char(n)),
{
}

proof fn lemma_encode_concat(a: Seq<char>, b: Seq<char>)
    ensures
        encode_chars(a + b) == encode_chars(a) + encode_chars(b),
    decreases b.len(),
{
    if b.len() == 0 {
        assert(a + b =~= a);
        assert(encode_chars(a) + encode_chars(b) =~= encode_chars(a));
    } else {
        lemma_encode_concat(a, b.drop_last());
        assert((a + b).drop_last() =~= a + b.drop_last());
        assert((a + b).last() == b.last());
        assert(encode_chars(a) + encode_chars(b.drop_last()) + encode_char(b.last()) =~= encode_chars(a) + (
        encode_chars(b.drop_last()) + encode_char(b.last())));
    }
}

proof fn lemma_decode_one(c: char, rest: Seq<char>)
    requires
        (c as nat) < 128,
    ensures
        decode_form(encode_char(c) + rest) == seq![c] + decode_form(rest),
{
    let e = encode_char(c) + rest;
    if is_unreserved(c) {
        assert(e.drop_first() =~= rest);
    } else if c == ' ' {
        assert(e.drop_first() =~= rest);
    } else {
        let b = (c as u32) as nat % 256;
        assert(b == c as nat);
        lemma_hex_round_trip(b / 16);
        lemma_hex_round_trip(b % 16);
        assert(e[0] == '%');
        assert(e[1] == hex_char(b / 16));
        assert(e[2] == hex_char(b % 16));
        assert(e.skip(3) =~= rest);
        assert(16 * (b / 16) + b % 16 == b);
        assert((b as char) == c);
    }
}

/// Decoding a form-encoded ASCII string gives the string back.
pub proof fn law_url_encode_round_trip(s: Seq<char>)
    requires
        forall|i: int| 0 <= i < s.len() ==> (#[trigger] s[i] as nat) < 128,
    ensures
        decode_form(encode_chars(s)) == s,
    decreases s.len(),
{
    if s.len() > 0 {
        let rest = s.drop_first();
        assert forall|i: int| 0 <= i < rest.len() implies (#[trigger] rest[i] as nat) < 128 by {
            assert(rest[i] == s[i + 1]);
        }
        law_url_encode_round_trip(rest);
        assert(s =~= seq![s[0]] + rest);
        lemma_encode_concat(seq![s[0]], rest);
        let one = seq![s[0]];
        assert(one.last() == s[0]);
        assert(one.drop_last() =~= Seq::<char>::empty());
        assert(encode_chars(one.drop_last()).len() == 0);
        assert(encode_chars(one) =~= encode_chars(one.drop_last()) + encode_char(s[0]));
        assert(encode_chars(one) =~= encode_char(s[0]));
        assert((s[0] as nat) < 128);
        lemma_decode_one(s[0], encode_chars(rest));
    }
}

/// Form encoding adds two characters for every character it escapes with
/// `%`, and keeps the length of every other character.
pub proof fn law_url_encode_length(s: Seq<char>)
    ensures
        encode_chars(s).len() == s.len() + 2 * escaped_count(s),
    decreases s.len(),
{
    if s.len() > 0 {
        law_url_encode_length(s.drop_last());
    }
}

/// Form encoding yields only unreserved characters, `+`, `%` and upper-case
/// hex digits.
pub proof fn law_url_encode_alphabet(s: Seq<char>)
    ensures
        forall|i: int| 0 <= i < encode_chars(s).len() ==> is_form_char(#[trigger] encode_chars(s)[i]),
    decreases s.len(),
{
    if s.len() > 0 {
        law_url_encode_alphabet(s.drop_last());
        let a = encode_chars(s.drop_last());
        let c = s.last();
        let e = encode_char(c);
        if !is_unreserved(c) && c != ' ' {
            let b = (c as u32) as nat % 256;
            lemma_hex_round_trip(b / 16);
            lemma_hex_round_trip(b % 16);
        }
        assert forall|j: int| 0 <= j < e.len() implies is_form_char(#[trigger] e[j]) by {
        }
        assert forall|i: int| 0 <= i < encode_chars(s).len() implies is_form_char(#[trigger] encode_chars(s)[i]) by {
            if i < a.len() {
                assert(encode_chars(s)[i] == a[i]);
            } else {
                assert(encode_chars(s)[i] == e[i - a.len()]);
            }
        }
    }
}

/// `g2` is `g` with edges appended to its adjacency lists, each of which the
/// profile blocks.
pub open spec fn adds_only_blocked_edges(g: RoadGraph, g2: RoadGraph, p: Profile) -> bool {
    &&& g2.nodes@ == g.nodes@
    &&& g2.adj().len() == g.adj().len()
    &&& forall|u: int| 0 <= u < g.adj().len() ==> g.adj()[u].len() <= #[trigger] g2.adj()[u].len()
    &&& forall|u: int, j: int|
        0 <= u < g.adj().len() && 0 <= j < g.adj()[u].len() ==> #[trigger] g2.adj()[u][j] == g.adj()[u][j]
    &&& forall|u: int, j: int|
        0 <= u < g.adj().len() && g.adj()[u].len() <= j < g2.adj()[u].len() ==> p.spec_is_road_blocked(
            #[trigger] g2.adj()[u][j].highway,
            g2.adj()[u][j].motorroad,
        )
}

proof fn lemma_step_same(g: RoadGraph, g2: RoadGraph, p: Profile, u: u32, j: int, v: u32)
    requires
        adds_only_blocked_edges(g, g2, p),
    ensures
        step_ok(g2, p, u, j, v) == step_ok(g, p, u, j, v),
{
    if (u as int) < g.adj().len() && 0 <= j < g2.adj()[u as int].len() {
        if j < g.adj()[u as int].len() {
            assert(g2.adj()[u as int][j] == g.adj()[u as int][j]);
        } else {
            assert(p.spec_is_road_blocked(g2.adj()[u as int][j].highway, g2.adj()[u as int][j].motorroad));
        }
    }
}

proof fn lemma_walk_cost_same(g: RoadGraph, g2: RoadGraph, p: Profile, nodes: Seq<u32>, eidx: Seq<int>)
    requires
        adds_only_blocked_edges(g, g2, p),
        is_walk(g, p, nodes, eidx),
    ensures
        walk_cost(g2, p, nodes, eidx) == walk_cost(g, p, nodes, eidx),
    decreases eidx.len(),
{
    if eidx.len() > 0 {
        let k = eidx.len() - 1;
        let n0 = nodes.drop_last();
        let e0 = eidx.drop_last();
        assert forall|i: int| 0 <= i < e0.len() implies #[trigger] step_ok(g, p, n0[i], e0[i], n0[i + 1]) by {
            assert(step_ok(g, p, nodes[i], eidx[i], nodes[i + 1]));
        }
        lemma_walk_cost_same(g, g2, p, n0, e0);
        assert(step_ok(g, p, nodes[k], eidx[k], nodes[k + 1]));
        assert(g2.adj()[nodes[k] as int][eidx[k]] == g.adj()[nodes[k] as int][eidx[k]]);
    }
}

proof fn lemma_first_len_prefix(es: Seq<RoadEdge>, es2: Seq<RoadEdge>, b: u32, k: int, m: int)
    requires
        es.len() <= es2.len(),
        forall|j: int| 0 <= j < es.len() ==> #[trigger] es2[j] == es[j],
        0 <= k <= m < es.len(),
        es[m].to == b,
    ensures
        first_len_from(es2, b, k) == first_len_from(es, b, k),
    decreases m - k,
{
    assert(es2[k] == es[k]);
    if es[k].to != b {
        lemma_first_len_prefix(es, es2, b, k + 1, m);
    }
}

proof fn lemma_path_length_same(g: RoadGraph, g2: RoadGraph, p: Profile, nodes: Seq<u32>, eidx: Seq<int>)
    requires
        adds_only_blocked_edges(g, g2, p),
        is_walk(g, p, nodes, eidx),
    ensures
        path_length_m(g2, nodes) == path_length_m(g, nodes),
    decreases eidx.len(),
{
    if eidx.len() > 0 {
        let k = eidx.len() - 1;
        let n0 = nodes.drop_last();
        let e0 = eidx.drop_last();
        assert forall|i: int| 0 <= i < e0.len() implies #[trigger] step_ok(g, p, n0[i], e0[i], n0[i + 1]) by {
            assert(step_ok(g, p, nodes[i], eidx[i], nodes[i + 1]));
        }
        lemma_path_length_same(g, g2, p, n0, e0);
        assert(step_ok(g, p, nodes[k], eidx[k], nodes[k + 1]));
        let u = nodes[k] as int;
        assert(nodes.len() - 2 == k);
        assert forall|j: int| 0 <= j < g.adj()[u].len() implies #[trigger] g2.adj()[u][j] == g.adj()[u][j] by {
        }
        assert(g.adj()[u].len() <= g2.adj()[u].len());
        lemma_first_len_prefix(g.adj()[u], g2.adj()[u], nodes[k + 1], 0, eidx[k]);
    }
}

/// Edges that the profile blocks never change what a search may answer:
/// adding them to a graph leaves the same routes, with the same travel
/// times, lengths and coordinates, so the same results meet `route`'s
/// contract on both graphs.
pub proof fn law_blocked_edges_change_nothing(
    g: RoadGraph,
    g2: RoadGraph,
    p: Profile,
    from: u32,
    to: u32,
    nodes: Seq<u32>,
    eidx: Seq<int>,
)
    requires
        adds_only_blocked_edges(g, g2, p),
    ensures
        is_route(g2, p, from, to, nodes, eidx) == is_route(g, p, from, to, nodes, eidx),
        is_route(g, p, from, to, nodes, eidx) ==> {
            &&& walk_cost(g2, p, nodes, eidx) == walk_cost(g, p, nodes, eidx)
            &&& path_length_m(g2, nodes) == path_length_m(g, nodes)
            &&& coords(g2, nodes) == coords(g, nodes)
            &&& forall|speed: u32, r: RouteResult| summary_of(g2, speed, nodes, r) == summary_of(g, speed, nodes, r)
        },
{
    if is_walk(g, p, nodes, eidx) {
        assert forall|i: int| 0 <= i < eidx.len() implies #[trigger] step_ok(g2, p, nodes[i], eidx[i], nodes[i + 1]) by {
            assert(step_ok(g, p, nodes[i], eidx[i], nodes[i + 1]));
            lemma_step_same(g, g2, p, nodes[i], eidx[i], nodes[i + 1]);
        }
    }
    if is_walk(g2, p, nodes, eidx) {
        assert forall|i: int| 0 <= i < eidx.len() implies #[trigger] step_ok(g, p, nodes[i], eidx[i], nodes[i + 1]) by {
            assert(step_ok(g2, p, nodes[i], eidx[i], nodes[i + 1]));
            lemma_step_same(g, g2, p, nodes[i], eidx[i], nodes[i + 1]);
        }
    }
    if is_route(g, p, from, to, nodes, eidx) {
        lemma_walk_cost_same(g, g2, p, nodes, eidx);
        lemma_path_length_same(g, g2, p, nodes, eidx);
        assert(coords(g2, nodes) =~= coords(g, nodes));
    }
}

/// The motorway classes are the only ones no profile rides: every other
/// class gets a speed, and at least 10 km/h when neither the vehicle's top
/// speed nor the road's own known speed is below that.
pub proof fn law_allowed_speed_defined(p: Profile, h: HighwayType, road_speed: u32)
    ensures
        p.spec_allowed_speed(h, road_speed) is None <==> (h == HighwayType::Motorway || h
            == HighwayType::MotorwayLink),
        p.spec_allowed_speed(h, road_speed) is Some && p.max_speed_kmh >= 10 && (road_speed == 0 || road_speed >= 10)
            ==> p.spec_allowed_speed(h, road_speed)->0 >= 10,
{
}

/// A profile closes a road only because it is a motorway (when the profile
/// blocks those) or flagged as a motorroad (when the profile blocks those);
/// and it closes every such road.
pub proof fn law_blocked_exactly_fast_roads(p: Profile, h: HighwayType, motorroad: bool)
    ensures
        p.spec_is_road_blocked(h, motorroad) <==> ((p.block_motorway && (h == HighwayType::Motorway || h
            == HighwayType::MotorwayLink)) || (p.block_motorroad && motorroad)),
{
}

/// An edge that is neither a motorway nor a motorroad can be ridden by any
/// profile with a positive top speed, whatever its class.
pub proof fn law_plain_edges_usable(p: Profile, e: RoadEdge)
    requires
        e.highway != HighwayType::Motorway,
        e.highway != HighwayType::MotorwayLink,
        !e.motorroad,
        p.max_speed_kmh > 0,
    ensures
        edge_time(p, e) is Some,
{
}

/// A node is within range of a query point exactly when its planar distance,
/// with 111 320 m per degree of latitude and 0.72 of that per degree of
/// longitude, is at most `max_dist_m` meters. Both offsets count, in
/// coordinates of 1e-7 degree (squared here, both sides scaled by 10^18).
pub proof fn law_snap_distance(nlon: int, nlat: int, lon: int, lat: int, max_dist_m: nat)
    ensures
        within_range(nlon, nlat, lon, lat, max_dist_m) <==> (lat - nlat) * (lat - nlat) * 111_320 * 111_320 * 10_000
            + (lon - nlon) * (lon - nlon) * 111_320 * 111_320 * 72 * 72 <= max_dist_m * max_dist_m
            * 1_000_000_000_000_000_000,
{
    let a = lat - nlat;
    let b = lon - nlon;
    let d = max_dist_m as int;
    assert((a * 1_113_200) * (a * 1_113_200) * 100 == a * a * 111_320 * 111_320 * 10_000) by (nonlinear_arith);
    assert((b * 801_504) * (b * 801_504) * 100 == b * b * 111_320 * 111_320 * 72 * 72) by (nonlinear_arith);
    assert((d * 100_000_000) * (d * 100_000_000) * 100 == d * d * 1_000_000_000_000_000_000) by (nonlinear_arith);
}

/// A query point due east or west of a node, farther from it than
/// `max_dist_m` meters at 0.72 x 111 320 m per degree of longitude, is not
/// within range of it.
pub proof fn law_snap_counts_longitude(nlon: int, lon: int, lat: int, max_dist_m: nat)
    requires
        (lon - nlon) * (lon - nlon) * 111_320 * 111_320 * 72 * 72 > max_dist_m * max_dist_m
            * 1_000_000_000_000_000_000,
    ensures
        !within_range(nlon, lat, lon, lat, max_dist_m),
{
    law_snap_distance(nlon, lat, lon, lat, max_dist_m);
}

/// A drivable way is one-way exactly when it is tagged `oneway=yes`; any
/// other value, `oneway=no` among them, or no such tag leaves it two-way.
pub proof fn law_oneway_only_when_tagged_yes(t: Map<Seq<char>, Seq<char>>, maxspeed: Option<MaxSpeed>)
    requires
        way_attrs(t, maxspeed) is Some,
    ensures
        way_attrs(t, maxspeed)->0.oneway <==> (t.contains_key("oneway"@) && t["oneway"@] == "yes"@),
{
}

/// Every edge that the first `k` segments of a way add joins the two ends of
/// one of those segments, in one direction or the other, and carries that
/// segment's length.
pub proof fn law_way_edges_lengths(
    m: Map<i64, u32>,
    coords: Map<i64, (i32, i32)>,
    refs: Seq<i64>,
    lengths: Seq<Option<u16>>,
    a: WayAttrs,
    k: nat,
)
    ensures
        forall|x: int|
            #![trigger way_edges(m, coords, refs, lengths, a, k)[x]]
            0 <= x < way_edges(m, coords, refs, lengths, a, k).len() ==> exists|i: int|
                0 <= i < k && i < lengths.len() && #[trigger] lengths[i] == Some(
                    way_edges(m, coords, refs, lengths, a, k)[x].1.length,
                ) && {
                    let (f, e) = way_edges(m, coords, refs, lengths, a, k)[x];
                    (f == m[refs[i]] && e.to == m[refs[i + 1]]) || (f == m[refs[i + 1]] && e.to == m[refs[i]])
                },
    decreases k,
{
    if k > 0 {
        law_way_edges_lengths(m, coords, refs, lengths, a, (k - 1) as nat);
        let w = way_edges(m, coords, refs, lengths, a, (k - 1) as nat);
        let sg = seg_edges(m, coords, refs, lengths, a, k - 1);
        let wk = way_edges(m, coords, refs, lengths, a, k);
        assert(wk == w + sg);
        assert forall|x: int| #![trigger wk[x]] 0 <= x < wk.len() implies exists|i: int|
            0 <= i < k && i < lengths.len() && #[trigger] lengths[i] == Some(wk[x].1.length) && {
                let (f, e) = wk[x];
                (f == m[refs[i]] && e.to == m[refs[i + 1]]) || (f == m[refs[i + 1]] && e.to == m[refs[i]])
            } by {
            if x < w.len() {
                assert(wk[x] == w[x]);
            } else {
                assert(wk[x] == sg[x - w.len()]);
                let i = k - 1;
                assert(lengths[i] == Some(wk[x].1.length));
            }
        }
    }
}

/// A two-way way adds the reverse of every edge it adds, with the same
/// length.
pub proof fn law_two_way_edges_pair_up(
    m: Map<i64, u32>,
    coords: Map<i64, (i32, i32)>,
    refs: Seq<i64>,
    lengths: Seq<Option<u16>>,
    a: WayAttrs,
    k: nat,
)
    requires
        !a.oneway,
    ensures
        forall|x: int|
            #![trigger way_edges(m, coords, refs, lengths, a, k)[x]]
            0 <= x < way_edges(m, coords, refs, lengths, a, k).len() ==> exists|y: int|
                0 <= y < way_edges(m, coords, refs, lengths, a, k).len() && {
                    let (f, e) = way_edges(m, coords, refs, lengths, a, k)[x];
                    let (f2, e2) = #[trigger] way_edges(m, coords, refs, lengths, a, k)[y];
                    f2 == e.to && e2.to == f && e2.length == e.length
                },
    decreases k,
{
    if k > 0 {
        law_two_way_edges_pair_up(m, coords, refs, lengths, a, (k - 1) as nat);
        let w = way_edges(m, coords, refs, lengths, a, (k - 1) as nat);
        let sg = seg_edges(m, coords, refs, lengths, a, k - 1);
        let wk = way_edges(m, coords, refs, lengths, a, k);
        assert(wk == w + sg);
        assert forall|x: int| #![trigger wk[x]] 0 <= x < wk.len() implies exists|y: int|
            0 <= y < wk.len() && {
                let (f, e) = wk[x];
                let (f2, e2) = #[trigger] wk[y];
                f2 == e.to && e2.to == f && e2.length == e.length
            } by {
            if x < w.len() {
                assert(wk[x] == w[x]);
                let y = choose|y: int|
                    0 <= y < w.len() && {
                        let (f, e) = w[x];
                        let (f2, e2) = #[trigger] w[y];
                        f2 == e.to && e2.to == f && e2.length == e.length
                    };
                assert(wk[y] == w[y]);
            } else {
                let z = x - w.len();
                assert(wk[x] == sg[z]);
                let y = w.len() + (1 - z);
                assert(wk[y] == sg[1 - z]);
            }
        }
    }
}

/// Only trunk roads are ever flagged as expressways from their other tags:
/// a drivable way of another class, not tagged `motorroad=yes`, is never
/// flagged as a motorroad.
pub proof fn law_non_trunk_not_flagged(t: Map<Seq<char>, Seq<char>>, maxspeed: Option<MaxSpeed>)
    requires
        way_attrs(t, maxspeed) is Some,
        t["highway"@] != "trunk"@,
        !(t.contains_key("motorroad"@) && t["motorroad"@] == "yes"@),
    ensures
        !way_attrs(t, maxspeed)->0.motorroad,
{
}

} // verus!
