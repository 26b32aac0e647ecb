//! Turning OpenStreetMap ways into road-graph edges: the tag table of a way,
//! the classification of drivable ways, and the graph builder.

use vstd::prelude::*;
use std::collections::HashMap;
use crate::text::str_eq;
use crate::graph::{GraphNode, HighwayType, RoadEdge, RoadGraph, highway_of};

verus! {

broadcast use vstd::std_specs::hash::group_hash_axioms;

// ---------------------------------------------------------------------------
// Tags
// ---------------------------------------------------------------------------

/// The map that a list of `(key, value)` pairs describes when a later pair
/// overrides an earlier one with the same key.
pub open spec fn pairs_map(s: Seq<(Seq<char>, Seq<char>)>) -> Map<Seq<char>, Seq<char>>
    decreases s.len(),
{
    if s.len() == 0 {
        Map::empty()
    } else {
        pairs_map(s.drop_last()).insert(s.last().0, s.last().1)
    }
}

pub open spec fn pair_views(s: Seq<(String, String)>) -> Seq<(Seq<char>, Seq<char>)> {
    s.map_values(|p: (String, String)| (p.0@, p.1@))
}

/// The tags of an OSM element, one value per key.
pub struct TagMap {
    entries: Vec<(String, String)>,
}

proof fn lemma_pairs_map_lookup(s: Seq<(Seq<char>, Seq<char>)>, i: int)
    requires
        0 <= i < s.len(),
        forall|a: int, b: int| 0 <= a < b < s.len() ==> s[a].0 != s[b].0,
    ensures
        pairs_map(s).contains_key(s[i].0),
        pairs_map(s)[s[i].0] == s[i].1,
    decreases s.len(),
{
    if i < s.len() - 1 {
        lemma_pairs_map_lookup(s.drop_last(), i);
    }
}

proof fn lemma_pairs_map_absent(s: Seq<(Seq<char>, Seq<char>)>, k: Seq<char>)
    requires
        forall|a: int| 0 <= a < s.len() ==> s[a].0 != k,
    ensures
        !pairs_map(s).contains_key(k),
    decreases s.len(),
{
    if s.len() > 0 {
        lemma_pairs_map_absent(s.drop_last(), k);
    }
}

proof fn lemma_pairs_map_update(s: Seq<(Seq<char>, Seq<char>)>, i: int, v: Seq<char>)
    requires
        0 <= i < s.len(),
        forall|a: int, b: int| 0 <= a < b < s.len() ==> s[a].0 != s[b].0,
    ensures
        pairs_map(s.update(i, (s[i].0, v))) == pairs_map(s).insert(s[i].0, v),
    decreases s.len(),
{
    let t = s.update(i, (s[i].0, v));
    if i == s.len() - 1 {
        assert(t.drop_last() =~= s.drop_last());
    } else {
        lemma_pairs_map_update(s.drop_last(), i, v);
        assert(t.drop_last() =~= s.drop_last().update(i, (s[i].0, v)));
        assert(s.last().0 != s[i].0);
        assert(pairs_map(t) =~= pairs_map(s).insert(s[i].0, v));
    }
}

impl TagMap {
    pub closed spec fn entries_view(&self) -> Seq<(Seq<char>, Seq<char>)> {
        pair_views(self.entries@)
    }

    /// The value of each key.
    pub closed spec fn view(&self) -> Map<Seq<char>, Seq<char>> {
        pairs_map(self.entries_view())
    }

    /// No key occurs twice.
    pub closed spec fn wf(&self) -> bool {
        forall|a: int, b: int| 0 <= a < b < self.entries@.len() ==> self.entries@[a].0@ != self.entries@[b].0@
    }

    /// The value of `key`, if the element has that tag.
    pub fn get(&self, key: &str) -> (r: Option<&String>)
        requires
            self.wf(),
        ensures
            r is Some <==> self@.contains_key(key@),
            r matches Some(v) ==> v@ == self@[key@],
    {
        let n = self.entries.len();
        let mut i: usize = 0;
        while i < n
            invariant
                n == self.entries@.len(),
                0 <= i <= n,
                self.wf(),
                forall|a: int| 0 <= a < i ==> self.entries@[a].0@ != key@,
            decreases n - i,
        {
            if str_eq(self.entries[i].0.as_str(), key) {
                proof {
                    lemma_pairs_map_lookup(self.entries_view(), i as int);
                }
                return Some(&self.entries[i].1);
            }
            i = i + 1;
        }
        proof {
            lemma_pairs_map_absent(self.entries_view(), key@);
        }
        None
    }

    /// Whether the value of `key` is exactly `value`.
    pub fn has_value(&self, key: &str, value: &str) -> (b: bool)
        requires
            self.wf(),
        ensures
            b == (self@.contains_key(key@) && self@[key@] == value@),
    {
        match self.get(key) {
            Some(v) => str_eq(v.as_str(), value),
            None => false,
        }
    }
}

/// Collects the tags of an element; a later pair with the same key
/// overrides an earlier one.
pub fn tag_map(pairs: &Vec<(String, String)>) -> (t: TagMap)
    ensures
        t.wf(),
        t@ == pairs_map(pair_views(pairs@)),
{
    let mut entries: Vec<(String, String)> = Vec::new();
    let n = pairs.len();
    let mut i: usize = 0;
    while i < n
        invariant
            n == pairs@.len(),
            0 <= i <= n,
            forall|a: int, b: int| 0 <= a < b < entries@.len() ==> entries@[a].0@ != entries@[b].0@,
            pairs_map(pair_views(entries@)) == pairs_map(pair_views(pairs@.subrange(0, i as int))),
        decreases n - i,
    {
        let k = pairs[i].0.clone();
        let v = pairs[i].1.clone();
        let ghost old_entries = entries@;
        let m = entries.len();
        let mut j: usize = 0;
        let mut found = false;
        while j < m && !found
            invariant
                m == entries@.len(),
                entries@ == old_entries,
                0 <= j <= m,
                found ==> j > 0 && entries@[j - 1].0@ == k@,
                !found ==> forall|a: int| 0 <= a < j ==> entries@[a].0@ != k@,
            decreases m - j + (if found { 0int } else { 1int }),
        {
            if entries[j].0 == k {
                found = true;
            }
            j = j + 1;
        }
        proof {
            let pv = pair_views(pairs@.subrange(0, i as int + 1));
            assert(pv.drop_last() =~= pair_views(pairs@.subrange(0, i as int)));
            assert(pv.last() == (k@, v@));
        }
        if found {
            let idx = j - 1;
            entries.set(idx, (k, v));
            proof {
                let ev = pair_views(old_entries);
                lemma_pairs_map_update(ev, idx as int, v@);
                assert(pair_views(entries@) =~= ev.update(idx as int, (ev[idx as int].0, v@)));
            }
        } else {
            entries.push((k, v));
            proof {
                assert(pair_views(entries@).drop_last() =~= pair_views(old_entries));
            }
        }
        i = i + 1;
    }
    proof {
        assert(pairs@.subrange(0, n as int) =~= pairs@);
    }
    TagMap { entries }
}

// ---------------------------------------------------------------------------
// Drivable ways
// ---------------------------------------------------------------------------

/// A way's `maxspeed` tag read as a number: whether it is 80 km/h or more,
/// and the speed in steps of 2 km/h (rounded, at most 255).
#[derive(Debug, Clone, Copy, PartialEq, Eq, Structural)]
pub struct MaxSpeed {
    pub at_least_80: bool,
    pub half_kmh: u8,
}

/// What the edges of a drivable way carry.
#[derive(Debug, Clone, Copy, PartialEq, Eq, Structural)]
pub struct WayAttrs {
    pub highway: HighwayType,
    pub oneway: bool,
    /// Closed to slow vehicles: tagged `motorroad=yes`, or a trunk road that
    /// looks like an expressway.
    pub motorroad: bool,
    /// Speed in steps of 2 km/h.
    pub speed: u8,
}

/// `highway=` values of ways that carry no motor traffic.
pub open spec fn is_skipped_highway(s: Seq<char>) -> bool {
    ||| s == "footway"@
    ||| s == "pedestrian"@
    ||| s == "path"@
    ||| s == "cycleway"@
    ||| s == "track"@
    ||| s == "bridleway"@
    ||| s == "steps"@
    ||| s == "corridor"@
    ||| s == "elevator"@
    ||| s == "proposed"@
    ||| s == "construction"@
    ||| s == "raceway"@
}

pub open spec fn tag_is(t: Map<Seq<char>, Seq<char>>, k: Seq<char>, v: Seq<char>) -> bool {
    t.contains_key(k) && t[k] == v
}

/// Where the digits of a `layer=` value start: after a leading `+`, if any.
pub open spec fn layer_digits_start(v: Seq<char>) -> int {
    if v.len() > 0 && v[0] == '+' {
        1
    } else {
        0
    }
}

/// A `layer=` value that puts a way above the ground: a positive whole
/// number, written with or without a `+` sign.
pub open spec fn is_raised_layer(v: Seq<char>) -> bool {
    let s = layer_digits_start(v);
    &&& v.len() > s
    &&& forall|i: int| s <= i < v.len() ==> '0' <= #[trigger] v[i] <= '9'
    &&& exists|i: int| s <= i < v.len() && #[trigger] v[i] != '0'
}

/// The way is on a bridge: it has a `bridge=` tag whose value is not `no`
/// (OSM marks every kind of bridge, `yes`, `viaduct` and the others, that way).
pub open spec fn on_bridge(t: Map<Seq<char>, Seq<char>>) -> bool {
    t.contains_key("bridge"@) && t["bridge"@] != "no"@
}

/// The way is raised above the ground by a positive `layer=`.
pub open spec fn raised(t: Map<Seq<char>, Seq<char>>) -> bool {
    t.contains_key("layer"@) && is_raised_layer(t["layer"@])
}

/// A trunk road that is an expressway in all but its tags: closed to
/// pedestrians and cyclists, on a bridge or a raised layer, or signposted at
/// 80 km/h or more.
pub open spec fn is_voie_rapide(t: Map<Seq<char>, Seq<char>>, h: HighwayType, maxspeed: Option<MaxSpeed>) -> bool {
    h == HighwayType::Trunk && ((tag_is(t, "foot"@, "no"@) && tag_is(t, "bicycle"@, "no"@)) || on_bridge(t)
        || raised(t) || (maxspeed matches Some(m) && m.at_least_80))
}

/// Whether a `layer=` value is a positive whole number.
pub fn raised_layer(v: &str) -> (b: bool)
    ensures
        b == is_raised_layer(v@),
{
    let mut plus = false;
    let mut digits = true;
    let mut nonzero = false;
    let mut any = false;
    let mut first = true;
    for c in it: v.chars()
        invariant
            it.seq() == v@,
            first == (it.index() == 0),
            plus == (it.index() > 0 && v@[0] == '+'),
            any == (it.index() > (if plus { 1int } else { 0int })),
            digits == (forall|i: int|
                (if plus { 1int } else { 0int }) <= i < it.index() ==> '0' <= #[trigger] v@[i] <= '9'),
            nonzero == (exists|i: int| (if plus { 1int } else { 0int }) <= i < it.index() && #[trigger] v@[i] != '0'),
    {
        if first && c == '+' {
            plus = true;
        } else {
            any = true;
            if !('0' <= c && c <= '9') {
                digits = false;
            }
            if c != '0' {
                nonzero = true;
            }
        }
        first = false;
    }
    any && digits && nonzero
}

/// The attributes of a way's edges, or `None` when the way is not a road
/// that motor vehicles may use.
pub open spec fn way_attrs(t: Map<Seq<char>, Seq<char>>, maxspeed: Option<MaxSpeed>) -> Option<WayAttrs> {
    if !t.contains_key("highway"@) {
        None
    } else if is_skipped_highway(t["highway"@]) {
        None
    } else if tag_is(t, "access"@, "no"@) || tag_is(t, "vehicle"@, "no"@) || tag_is(t, "motor_vehicle"@, "no"@) {
        None
    } else {
        let h = highway_of(t["highway"@]);
        Some(
            WayAttrs {
                highway: h,
                oneway: tag_is(t, "oneway"@, "yes"@),
                motorroad: tag_is(t, "motorroad"@, "yes"@) || is_voie_rapide(t, h, maxspeed),
                speed: match maxspeed {
                    Some(m) => m.half_kmh,
                    None => (h.spec_base_speed() / 2) as u8,
                },
            },
        )
    }
}

/// Classifies a way from its tags and its parsed `maxspeed` tag.
pub fn classify_way(tags: &TagMap, maxspeed: Option<MaxSpeed>) -> (r: Option<WayAttrs>)
    requires
        tags.wf(),
    ensures
        r == way_attrs(tags@, maxspeed),
{
    let hw = match tags.get("highway") {
        Some(h) => h.as_str(),
        None => return None,
    };
    if str_eq(hw, "footway") || str_eq(hw, "pedestrian") || str_eq(hw, "path") || str_eq(hw, "cycleway")
        || str_eq(hw, "track") || str_eq(hw, "bridleway") || str_eq(hw, "steps") || str_eq(hw, "corridor")
        || str_eq(hw, "elevator") || str_eq(hw, "proposed") || str_eq(hw, "construction") || str_eq(
        hw,
        "raceway",
    ) {
        return None;
    }
    if tags.has_value("access", "no") || tags.has_value("vehicle", "no") || tags.has_value("motor_vehicle", "no") {
        return None;
    }
    let highway = HighwayType::from_str(hw);
    let motorroad = tags.has_value("motorroad", "yes");
    let oneway = tags.has_value("oneway", "yes");
    let fast = match maxspeed {
        Some(m) => m.at_least_80,
        None => false,
    };
    let bridge = match tags.get("bridge") {
        Some(b) => !str_eq(b.as_str(), "no"),
        None => false,
    };
    let raised = match tags.get("layer") {
        Some(l) => raised_layer(l.as_str()),
        None => false,
    };
    let voie_rapide = highway == HighwayType::Trunk && ((tags.has_value("foot", "no") && tags.has_value(
        "bicycle",
        "no",
    )) || bridge || raised || fast);
    let speed: u8 = match maxspeed {
        Some(m) => m.half_kmh,
        None => (highway.base_speed() / 2) as u8,
    };
    Some(WayAttrs { highway, oneway, motorroad: motorroad || voie_rapide, speed })
}

// ---------------------------------------------------------------------------
// Graph builder
// ---------------------------------------------------------------------------

/// Gives graph indices to the referenced nodes, left to right: a node with
/// known coordinates and no index yet gets the next free index. Returns the
/// extended index map and the OSM ids of the new nodes in order.
pub open spec fn assign_nodes(
    ids: Map<i64, u32>,
    next: nat,
    coords: Map<i64, (i32, i32)>,
    refs: Seq<i64>,
) -> (Map<i64, u32>, Seq<i64>)
    decreases refs.len(),
{
    if refs.len() == 0 {
        (ids, Seq::empty())
    } else {
        let (m, new) = assign_nodes(ids, next, coords, refs.drop_last());
        let id = refs.last();
        if coords.contains_key(id) && !m.contains_key(id) {
            (m.insert(id, (next + new.len()) as u32), new.push(id))
        } else {
            (m, new)
        }
    }
}

/// Graph nodes for the given OSM ids.
pub open spec fn new_nodes(coords: Map<i64, (i32, i32)>, ids: Seq<i64>) -> Seq<GraphNode> {
    ids.map_values(|id: i64| GraphNode { osm_id: id, lat: coords[id].0, lon: coords[id].1 })
}

/// The edges that segment `i` of a way adds, as `(from, edge)`: none when
/// an end has no coordinates or the segment has no length (too short);
/// otherwise the forward edge, and the backward edge too unless the way is
/// one-way.
pub open spec fn seg_edges(
    m: Map<i64, u32>,
    coords: Map<i64, (i32, i32)>,
    refs: Seq<i64>,
    lengths: Seq<Option<u16>>,
    a: WayAttrs,
    i: int,
) -> Seq<(u32, RoadEdge)> {
    if coords.contains_key(refs[i]) && coords.contains_key(refs[i + 1]) && i < lengths.len()
        && lengths[i] is Some {
        let f = m[refs[i]];
        let t = m[refs[i + 1]];
        let l = lengths[i]->0;
        let fwd = (
            f,
            RoadEdge { to: t, length: l, speed: a.speed, highway: a.highway, oneway: a.oneway, motorroad: a.motorroad },
        );
        if a.oneway {
            seq![fwd]
        } else {
            seq![
                fwd,
                (
                    t,
                    RoadEdge {
                        to: f,
                        length: l,
                        speed: a.speed,
                        highway: a.highway,
                        oneway: false,
                        motorroad: a.motorroad,
                    },
                ),
            ]
        }
    } else {
        Seq::empty()
    }
}

/// The edges of the first `k` segments of a way, in order.
pub open spec fn way_edges(
    m: Map<i64, u32>,
    coords: Map<i64, (i32, i32)>,
    refs: Seq<i64>,
    lengths: Seq<Option<u16>>,
    a: WayAttrs,
    k: nat,
) -> Seq<(u32, RoadEdge)>
    decreases k,
{
    if k == 0 {
        Seq::empty()
    } else {
        way_edges(m, coords, refs, lengths, a, (k - 1) as nat) + seg_edges(m, coords, refs, lengths, a, k - 1)
    }
}

/// Appends each `(from, edge)` to the adjacency list of `from`, in order.
pub open spec fn apply_edges(adj: Seq<Seq<RoadEdge>>, es: Seq<(u32, RoadEdge)>) -> Seq<Seq<RoadEdge>>
    decreases es.len(),
{
    if es.len() == 0 {
        adj
    } else {
        let a = apply_edges(adj, es.drop_last());
        let (f, e) = es.last();
        a.update(f as int, a[f as int].push(e))
    }
}

pub open spec fn empty_lists(n: nat) -> Seq<Seq<RoadEdge>> {
    Seq::new(n, |i: int| Seq::<RoadEdge>::empty())
}

/// Builds the road graph from node coordinates and ways.
pub struct GraphBuilder {
    /// `(lat, lon)` of every OSM node seen, in units of 1e-7 degree.
    pub coords: HashMap<i64, (i32, i32)>,
    /// Graph index of every OSM node already in the graph.
    pub node_ids: HashMap<i64, u32>,
    pub graph: RoadGraph,
}

proof fn lemma_apply_push(adj: Seq<Seq<RoadEdge>>, es: Seq<(u32, RoadEdge)>, x: (u32, RoadEdge))
    ensures
        apply_edges(adj, es.push(x)) == apply_edges(adj, es).update(
            x.0 as int,
            apply_edges(adj, es)[x.0 as int].push(x.1),
        ),
{
    assert(es.push(x).drop_last() =~= es);
}

impl GraphBuilder {
    /// The graph is well formed, and the index map pairs each OSM id with
    /// the one graph node that carries it.
    pub open spec fn wf(&self) -> bool {
        &&& self.graph.wf()
        &&& forall|id: i64| #[trigger] self.node_ids@.contains_key(id) ==> {
            &&& (self.node_ids@[id] as int) < self.graph.nodes@.len()
            &&& self.graph.nodes@[self.node_ids@[id] as int].osm_id == id
        }
        &&& forall|i: int| 0 <= i < self.graph.nodes@.len() ==> {
            &&& self.node_ids@.contains_key(#[trigger] self.graph.nodes@[i].osm_id)
            &&& self.node_ids@[self.graph.nodes@[i].osm_id] == i
        }
    }

    pub fn new() -> (b: GraphBuilder)
        ensures
            b.wf(),
            b.coords@ == Map::<i64, (i32, i32)>::empty(),
            b.node_ids@ == Map::<i64, u32>::empty(),
            b.graph.nodes@ == Seq::<GraphNode>::empty(),
    {
        GraphBuilder { coords: HashMap::new(), node_ids: HashMap::new(), graph: RoadGraph::new() }
    }

    /// Records the coordinates of an OSM node (a later record replaces an earlier one).
    pub fn add_coordinate(&mut self, id: i64, lat: i32, lon: i32)
        ensures
            final(self).coords@ == old(self).coords@.insert(id, (lat, lon)),
            final(self).node_ids@ == old(self).node_ids@,
            final(self).graph.nodes@ == old(self).graph.nodes@,
            final(self).graph.adj() == old(self).graph.adj(),
            final(self).wf() == old(self).wf(),
    {
        self.coords.insert(id, (lat, lon));
        proof {
            assert(self.graph == old(self).graph);
            assert(self.node_ids == old(self).node_ids);
        }
    }

    /// Adds the road edges of one way. `refs` are the way's node ids in
    /// order; `lengths[i]` is the length of the segment from `refs[i]` to
    /// `refs[i + 1]` in steps of 5 m, `None` when the segment is too short to
    /// count (or unknown). A way that is not a drivable road, or that has
    /// fewer than two nodes, changes nothing.
    pub fn add_way(&mut self, tags: &TagMap, refs: &Vec<i64>, maxspeed: Option<MaxSpeed>, lengths: &Vec<Option<u16>>)
        requires
            old(self).wf(),
            tags.wf(),
            way_attrs(tags@, maxspeed) is Some && refs@.len() >= 2 ==> old(self).graph.nodes@.len() + refs@.len()
                <= u32::MAX,
        ensures
            final(self).wf(),
            final(self).coords@ == old(self).coords@,
            match way_attrs(tags@, maxspeed) {
                Some(a) if refs@.len() >= 2 => {
                    let (m, new) = assign_nodes(
                        old(self).node_ids@,
                        old(self).graph.nodes@.len(),
                        old(self).coords@,
                        refs@,
                    );
                    &&& final(self).node_ids@ == m
                    &&& final(self).graph.nodes@ == old(self).graph.nodes@ + new_nodes(old(self).coords@, new)
                    &&& final(self).graph.adj() == apply_edges(
                        old(self).graph.adj() + empty_lists(new.len()),
                        way_edges(m, old(self).coords@, refs@, lengths@, a, (refs@.len() - 1) as nat),
                    )
                },
                _ => {
                    &&& final(self).node_ids@ == old(self).node_ids@
                    &&& final(self).graph.nodes@ == old(self).graph.nodes@
                    &&& final(self).graph.adj() == old(self).graph.adj()
                },
            },
    {
        let attrs = match classify_way(tags, maxspeed) {
            None => return ,
            Some(a) => a,
        };
        if refs.len() < 2 {
            return ;
        }
        let ghost ids0 = old(self).node_ids@;
        let ghost n0 = old(self).graph.nodes@.len();
        let ghost coords = self.coords@;
        let ghost nodes0 = old(self).graph.nodes@;
        let ghost adj0 = old(self).graph.adj();
        let ghost mut new: Seq<i64> = Seq::empty();
        let mut indices: Vec<Option<u32>> = Vec::new();
        let n = refs.len();
        let mut i: usize = 0;
        while i < n
            invariant
                n == refs@.len(),
                0 <= i <= n,
                n0 + n <= u32::MAX,
                nodes0.len() == n0,
                self.coords@ == coords,
                (self.node_ids@, new) == assign_nodes(ids0, n0, coords, refs@.subrange(0, i as int)),
                new.len() <= i,
                self.graph.nodes@ == nodes0 + new_nodes(coords, new),
                self.graph.adj() == adj0 + empty_lists(new.len()),
                self.wf(),
                indices@.len() == i,
                forall|k: int| 0 <= k < i ==> #[trigger] indices@[k] == (if coords.contains_key(refs@[k]) {
                    Some(self.node_ids@[refs@[k]])
                } else {
                    None
                }),
                forall|k: int| 0 <= k < i && coords.contains_key(refs@[k]) ==> self.node_ids@.contains_key(#[trigger] refs@[k]),
            decreases n - i,
        {
            let id = refs[i];
            let ghost ids_before = self.node_ids@;
            let ghost nodes_before = self.graph.nodes@;
            proof {
                let r1 = refs@.subrange(0, i as int + 1);
                assert(r1.drop_last() =~= refs@.subrange(0, i as int));
                assert(r1.last() == id);
            }
            match self.coords.get(&id) {
                None => {
                    indices.push(None);
                },
                Some(c) => {
                    let (lat, lon) = *c;
                    match self.node_ids.get(&id) {
                        Some(idx) => {
                            indices.push(Some(*idx));
                        },
                        None => {
                            proof {
                                assert(new_nodes(coords, new).len() == new.len());
                                assert(nodes0.len() == n0);
                                assert(self.graph.nodes@.len() == n0 + new.len());
                            }
                            let idx = self.graph.add_node(id, lat, lon);
                            self.node_ids.insert(id, idx);
                            indices.push(Some(idx));
                            proof {
                                new = new.push(id);
                                assert(new_nodes(coords, new) =~= new_nodes(coords, new.drop_last()).push(
                                    GraphNode { osm_id: id, lat, lon },
                                ));
                                assert(new.drop_last() =~= new.subrange(0, new.len() - 1));
                                assert(self.graph.adj() =~= adj0 + empty_lists(new.len()));
                                assert forall|x: i64| #[trigger] self.node_ids@.contains_key(x) implies (
                                self.node_ids@[x] as int) < self.graph.nodes@.len() && self.graph.nodes@[self.node_ids@[x] as int].osm_id == x by {
                                    if x != id {
                                        assert(ids_before.contains_key(x));
                                    }
                                }
                                assert forall|k: int| 0 <= k < self.graph.nodes@.len() implies self.node_ids@.contains_key(
                                    #[trigger] self.graph.nodes@[k].osm_id) && self.node_ids@[self.graph.nodes@[k].osm_id] == k by {
                                    if k < self.graph.nodes@.len() - 1 {
                                        assert(self.graph.nodes@[k] == nodes_before[k]);
                                    }
                                }
                            }
                        },
                    }
                },
            }
            proof {
                let r1 = refs@.subrange(0, i as int + 1);
                assert(assign_nodes(ids0, n0, coords, r1) == (self.node_ids@, new));
                assert forall|k: int| 0 <= k < i + 1 implies #[trigger] indices@[k] == (if coords.contains_key(refs@[k]) {
                    Some(self.node_ids@[refs@[k]])
                } else {
                    None
                }) by {
                    if k < i && coords.contains_key(refs@[k]) {
                        assert(ids_before.contains_key(refs@[k]));
                    }
                }
            }
            i = i + 1;
        }
        proof {
            assert(refs@.subrange(0, n as int) =~= refs@);
        }
        let ghost m = self.node_ids@;
        let ghost base = adj0 + empty_lists(new.len());
        let mut s: usize = 0;
        while s + 1 < n
            invariant
                n == refs@.len(),
                n >= 2,
                0 <= s < n,
                indices@.len() == n,
                self.coords@ == coords,
                self.node_ids@ == m,
                self.wf(),
                forall|k: int| 0 <= k < n ==> #[trigger] indices@[k] == (if coords.contains_key(refs@[k]) {
                    Some(m[refs@[k]])
                } else {
                    None
                }),
                forall|k: int| 0 <= k < n && coords.contains_key(refs@[k]) ==> m.contains_key(#[trigger] refs@[k]),
                self.graph.nodes@ == nodes0 + new_nodes(coords, new),
                self.graph.adj() == apply_edges(base, way_edges(m, coords, refs@, lengths@, attrs, s as nat)),
            decreases n - s,
        {
            let ghost w = way_edges(m, coords, refs@, lengths@, attrs, s as nat);
            let ghost sg = seg_edges(m, coords, refs@, lengths@, attrs, s as int);
            proof {
                assert(way_edges(m, coords, refs@, lengths@, attrs, (s + 1) as nat) == w + sg);
            }
            match (indices[s], indices[s + 1]) {
                (Some(f), Some(t)) => {
                    if s < lengths.len() {
                        match lengths[s] {
                            Some(l) => {
                                proof {
                                    assert(m.contains_key(refs@[s as int]));
                                    assert(m.contains_key(refs@[s as int + 1]));
                                }
                                self.graph.add_edge_raw(f, t, l, attrs.speed, attrs.highway, attrs.oneway, attrs.motorroad);
                                proof {
                                    lemma_apply_push(base, w, sg[0]);
                                    assert(w.push(sg[0]) =~= w + sg.subrange(0, 1));
                                }
                                if !attrs.oneway {
                                    self.graph.add_edge_raw(t, f, l, attrs.speed, attrs.highway, false, attrs.motorroad);
                                    proof {
                                        lemma_apply_push(base, w + sg.subrange(0, 1), sg[1]);
                                        assert((w + sg.subrange(0, 1)).push(sg[1]) =~= w + sg);
                                    }
                                } else {
                                    proof {
                                        assert(sg.subrange(0, 1) =~= sg);
                                    }
                                }
                            },
                            None => {
                                proof {
                                    assert(w + sg =~= w);
                                }
                            },
                        }
                    } else {
                        proof {
                            assert(w + sg =~= w);
                        }
                    }
                },
                _ => {
                    proof {
                        assert(w + sg =~= w);
                    }
                },
            }
            s = s + 1;
        }
    }

    /// The graph built so far.
    pub fn finish(self) -> (g: RoadGraph)
        requires
            self.wf(),
        ensures
            g.wf(),
            g.nodes@ == self.graph.nodes@,
            g.adj() == self.graph.adj(),
    {
        self.graph
    }
}

} // verus!
