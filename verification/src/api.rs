//! The request logic of the HTTP service: choosing the profile, snapping the
//! endpoints to the graph, routing, and encoding query strings.

use vstd::prelude::*;
use vstd::string::StrSliceExecFns;
use crate::text::str_eq;
use crate::graph::RoadGraph;
use crate::profile::{Profile, VehicleType};
use crate::routing::{RouteResult, route, is_route, is_walk, summary_of, distinct_nodes, walk_cost, admissible};
use crate::spatial::{
    SpatialIndex, tree_points, node_points, is_nearest, within_range, lemma_node_points_bounded, nearest_entry, snap_of,
};
use crate::laws::law_faster_profile_walk;

verus! {

/// Appends a character to a string.
///
/// Calls `String::push`; trusted to append exactly `c`.
#[verifier::external_body]
fn push_char(s: &mut String, c: char)
    ensures
        final(s)@ == old(s)@.push(c),
{
    s.push(c);
}

/// Upper-case hexadecimal digit of `n`.
pub open spec fn hex_char(n: nat) -> char {
    if n < 10 {
        (('0' as nat) + n) as char
    } else {
        (('A' as nat) + n - 10) as char
    }
}

/// Characters kept as they are in a form-encoded value.
pub open spec fn is_unreserved(c: char) -> bool {
    ('A' <= c && c <= 'Z') || ('a' <= c && c <= 'z') || ('0' <= c && c <= '9') || c == '_' || c == '.' || c
        == '-' || c == '~'
}

/// Form encoding of one character: unreserved characters stay, a space
/// becomes `+`, anything else becomes `%` and two hex digits of the low byte
/// of its code point.
pub open spec fn encode_char(c: char) -> Seq<char> {
    if is_unreserved(c) {
        seq![c]
    } else if c == ' ' {
        seq!['+']
    } else {
        let b = (c as u32) as nat % 256;
        seq!['%', hex_char(b / 16), hex_char(b % 16)]
    }
}

pub open spec fn encode_chars(s: Seq<char>) -> Seq<char>
    decreases s.len(),
{
    if s.len() == 0 {
        Seq::empty()
    } else {
        encode_chars(s.drop_last()) + encode_char(s.last())
    }
}

/// Value of an upper-case hexadecimal digit.
pub open spec fn hex_value(c: char) -> Option<nat> {
    if '0' <= c && c <= '9' {
        Some((c as nat - '0' as nat) as nat)
    } else if 'A' <= c && c <= 'F' {
        Some((c as nat - 'A' as nat + 10) as nat)
    } else {
        None
    }
}

/// Form decoding of a value whose `%` escapes stand for ASCII characters:
/// `+` is a space, `%` and two hex digits stand for the character with that
/// code, anything else stands for itself.
pub open spec fn decode_form(s: Seq<char>) -> Seq<char>
    decreases s.len(),
{
    if s.len() == 0 {
        Seq::empty()
    } else if s[0] == '+' {
        seq![' '] + decode_form(s.drop_first())
    } else if s[0] == '%' && s.len() >= 3 && hex_value(s[1]) is Some && hex_value(s[2]) is Some {
        seq![(16 * hex_value(s[1])->0 + hex_value(s[2])->0) as char] + decode_form(s.skip(3))
    } else {
        seq![s[0]] + decode_form(s.drop_first())
    }
}

/// Number of characters of `s` that form encoding escapes with `%`.
pub open spec fn escaped_count(s: Seq<char>) -> nat
    decreases s.len(),
{
    if s.len() == 0 {
        0
    } else {
        escaped_count(s.drop_last()) + if is_unreserved(s.last()) || s.last() == ' ' {
            0nat
        } else {
            1nat
        }
    }
}

/// Characters that can occur in a form-encoded value: unreserved ones, `+`,
/// `%` and upper-case hex digits.
pub open spec fn is_form_char(c: char) -> bool {
    is_unreserved(c) || c == '+' || c == '%' || hex_value(c) is Some
}

fn hex_digit(n: u32) -> (c: char)
    requires
        n < 16,
    ensures
        c == hex_char(n as nat),
{
    if n < 10 {
        (('0' as u32 + n) as u8) as char
    } else {
        (('A' as u32 + n - 10) as u8) as char
    }
}

/// Encodes a string for an `application/x-www-form-urlencoded` body.
pub fn url_encode(s: &str) -> (r: String)
    ensures
        r@ == encode_chars(s@),
{
    let mut out = String::new();
    for c in it: s.chars()
        invariant
            it.seq() == s@,
            out@ == encode_chars(s@.take(it.index() as int)),
    {
        proof {
            let k = it.index() as int;
            assert(s@.take(k + 1).drop_last() =~= s@.take(k));
        }
        if ('A' <= c && c <= 'Z') || ('a' <= c && c <= 'z') || ('0' <= c && c <= '9') || c == '_' || c == '.'
            || c == '-' || c == '~' {
            push_char(&mut out, c);
        } else if c == ' ' {
            push_char(&mut out, '+');
        } else {
            let b: u32 = (c as u32) % 256;
            proof {
                assert(b as nat == (c as u32) as nat % 256);
                assert(encode_char(c) == seq!['%', hex_char((b / 16) as nat), hex_char((b % 16) as nat)]);
            }
            push_char(&mut out, '%');
            push_char(&mut out, hex_digit(b / 16));
            push_char(&mut out, hex_digit(b % 16));
        }
    }
    proof {
        assert(s@.take(s@.len() as int) =~= s@);
    }
    out
}

/// Where nodes are snapped to: at most this many meters from the query point.
pub const SNAP_DISTANCE_M: u32 = 500;

/// The graph and its spatial index, shared by all requests.
pub struct AppState {
    pub graph: RoadGraph,
    pub spatial: SpatialIndex,
}

proof fn lemma_snapped_in_graph(state: &AppState, lat: i32, lon: i32, idx: u32)
    requires
        state.wf(),
        snaps_to(state.spatial, lat, lon, idx),
    ensures
        (idx as int) < state.graph.nodes@.len(),
{
    broadcast use vstd::seq_lib::group_to_multiset_ensures;
    let (x, y) = choose|x: i128, y: i128|
        #[trigger] is_nearest(tree_points(state.spatial), (x, y, idx), lon, lat) && within_range(
            x as int,
            y as int,
            lon as int,
            lat as int,
            SNAP_DISTANCE_M as nat,
        );
    let p = (x, y, idx);
    assert(node_points(state.graph.nodes@).contains(p));
    let i = choose|i: int| 0 <= i < node_points(state.graph.nodes@).len() && node_points(state.graph.nodes@)[i] == p;
    assert(p.2 == i as u32);
}

impl AppState {
    /// The graph is well formed and the index holds exactly its nodes.
    pub open spec fn wf(&self) -> bool {
        &&& self.graph.wf()
        &&& tree_points(self.spatial) == node_points(self.graph.nodes@).to_multiset()
    }

    /// Indexes the graph's nodes.
    pub fn new(graph: RoadGraph) -> (s: AppState)
        requires
            graph.wf(),
        ensures
            s.wf(),
            s.graph.nodes@ == graph.nodes@,
            s.graph.adj() == graph.adj(),
    {
        let spatial = graph.build_spatial_index();
        AppState { graph, spatial }
    }
}

/// The profile a request names when it gives none.
pub fn default_profile() -> (s: String)
    ensures
        s@ == "scooter"@,
{
    String::from_str("scooter")
}

/// Top speed of the profile that a request's `profile=` value selects:
/// `voiturette` selects the licence-free car, anything else the scooter.
pub open spec fn requested_speed(name: Seq<char>) -> u32 {
    if name == "voiturette"@ {
        70
    } else {
        45
    }
}

pub open spec fn requested_label(name: Seq<char>) -> Seq<char> {
    if name == "voiturette"@ {
        "voiturette"@
    } else {
        "scooter"@
    }
}

/// The profile that a request's `profile=` value selects.
pub fn profile_for(name: &str) -> (p: Profile)
    ensures
        p.name@ == requested_label(name@),
        p.max_speed_kmh == requested_speed(name@),
        p.block_motorway,
        p.block_motorroad,
{
    if str_eq(name, "voiturette") {
        Profile::for_vehicle(VehicleType::Voiturette)
    } else {
        Profile::for_vehicle(VehicleType::Scooter50)
    }
}

/// A node the query point snaps to: a nearest node, within range.
pub open spec fn snaps_to(t: SpatialIndex, lat: i32, lon: i32, idx: u32) -> bool {
    exists|x: i128, y: i128|
        #[trigger] is_nearest(tree_points(t), (x, y, idx), lon, lat) && within_range(
            x as int,
            y as int,
            lon as int,
            lat as int,
            SNAP_DISTANCE_M as nat,
        )
}

/// The node that a query point snaps to: the node of the nearest entry the
/// index returns, if that lies within `SNAP_DISTANCE_M`.
pub open spec fn snapped(t: SpatialIndex, lat: i32, lon: i32) -> Option<u32> {
    snap_of(nearest_entry(t, lon, lat), lat, lon, SNAP_DISTANCE_M)
}

/// A profile with the given top speed that blocks motorways and motorroads.
pub open spec fn blocking_profile(p: Profile, speed: u32) -> bool {
    p.max_speed_kmh == speed && p.block_motorway && p.block_motorroad
}

/// `h(v, to, speed)` never overestimates the time of a walk from `v` to `to`.
pub open spec fn estimates_admissible<F: Fn(u32, u32, u32) -> u64>(g: RoadGraph, p: Profile, h: F, to: u32, speed: u32) -> bool {
    forall|nodes: Seq<u32>, eidx: Seq<int>, hu: u64|
        #![trigger is_walk(g, p, nodes, eidx), call_ensures(h, (nodes[0], to, speed), hu)]
        is_walk(g, p, nodes, eidx) && nodes.last() == to && call_ensures(h, (nodes[0], to, speed), hu) ==> hu as int
            <= walk_cost(g, p, nodes, eidx)
}

/// The answer to a route request.
pub enum RouteAnswer {
    NoDeparture,
    NoArrival,
    NoRoute,
    Found { result: RouteResult, max_speed_kmh: u32, profile: String },
}

/// The answer owed to a route request whose ends snapped to `from` and `to`:
/// no departure, no arrival, no route under a profile of the requested
/// speed that blocks motorways and motorroads, or a route found with its
/// summary, fastest when the estimate never overestimates.
pub open spec fn answer_ok<F: Fn(u32, u32, u32) -> u64>(
    g: RoadGraph,
    from: Option<u32>,
    to: Option<u32>,
    name: Seq<char>,
    h: F,
    a: RouteAnswer,
) -> bool {
    let speed = requested_speed(name);
    match from {
        None => a is NoDeparture,
        Some(f) => match to {
            None => a is NoArrival,
            Some(d) => match a {
                RouteAnswer::NoRoute => forall|p: Profile, nodes: Seq<u32>, eidx: Seq<int>|
                    blocking_profile(p, speed) ==> !is_route(g, p, f, d, nodes, eidx),
                RouteAnswer::Found { result, max_speed_kmh, profile } => {
                    &&& max_speed_kmh == speed
                    &&& profile@ == requested_label(name)
                    &&& exists|p: Profile, nodes: Seq<u32>, eidx: Seq<int>|
                        {
                            &&& blocking_profile(p, speed)
                            &&& is_route(g, p, f, d, nodes, eidx)
                            &&& summary_of(g, speed, nodes, result)
                            &&& distinct_nodes(nodes)
                            &&& estimates_admissible(g, p, h, d, speed) ==> forall|nodes2: Seq<u32>, eidx2: Seq<int>|
                                is_route(g, p, f, d, nodes2, eidx2) ==> walk_cost(g, p, nodes, eidx) <= walk_cost(
                                    g,
                                    p,
                                    nodes2,
                                    eidx2,
                                )
                        }
                },
                _ => false,
            },
        },
    }
}

/// Answers a route request whose departure snapped to `from` and arrival to
/// `to` (`None` where no node was near enough): picks the profile and
/// searches. `heuristic(v, target, max_speed_kmh)` estimates the time in
/// microseconds from node `v` to `target`.
pub fn answer_snapped(
    state: &AppState,
    from: Option<u32>,
    to: Option<u32>,
    profile_name: &str,
    heuristic: impl Fn(u32, u32, u32) -> u64,
) -> (a: RouteAnswer)
    requires
        state.wf(),
        forall|v: u32, t: u32, m: u32| heuristic.requires((v, t, m)),
        from matches Some(f) ==> (f as int) < state.graph.nodes@.len(),
        to matches Some(d) ==> (d as int) < state.graph.nodes@.len(),
    ensures
        answer_ok(state.graph, from, to, profile_name@, heuristic, a),
{
    let from_idx = match from {
        None => return RouteAnswer::NoDeparture,
        Some(f) => f,
    };
    let to_idx = match to {
        None => return RouteAnswer::NoArrival,
        Some(d) => d,
    };
    let profile = profile_for(profile_name);
    let speed = profile.max_speed_kmh;
    let estimate = &heuristic;
    let h = move |v: u32| -> (r: u64)
        requires
            estimate.requires((v, to_idx, speed)),
        ensures
            call_ensures(estimate, (v, to_idx, speed), r),
        { estimate(v, to_idx, speed) };
    let found = route(&state.graph, from_idx, to_idx, &profile, &state.spatial, h);
    let ghost g = state.graph;
    proof {
        assert(blocking_profile(profile, speed));
    }
    match found {
        None => {
            proof {
                assert forall|p: Profile, nodes: Seq<u32>, eidx: Seq<int>|
                    blocking_profile(p, speed) implies !is_route(g, p, from_idx, to_idx, nodes, eidx) by {
                    if is_route(g, p, from_idx, to_idx, nodes, eidx) {
                        law_faster_profile_walk(g, profile, p, nodes, eidx);
                        assert(is_route(g, profile, from_idx, to_idx, nodes, eidx));
                    }
                }
            }
            RouteAnswer::NoRoute
        },
        Some(result) => {
            proof {
                let (nodes, eidx) = choose|nodes: Seq<u32>, eidx: Seq<int>|
                    {
                        &&& is_route(g, profile, from_idx, to_idx, nodes, eidx)
                        &&& summary_of(g, profile.max_speed_kmh, nodes, result)
                        &&& distinct_nodes(nodes)
                        &&& admissible(g, profile, h, to_idx) ==> forall|nodes2: Seq<u32>, eidx2: Seq<int>|
                            is_route(g, profile, from_idx, to_idx, nodes2, eidx2) ==> walk_cost(
                                g,
                                profile,
                                nodes,
                                eidx,
                            ) <= walk_cost(g, profile, nodes2, eidx2)
                    };
                assert(is_route(g, profile, from_idx, to_idx, nodes, eidx));
                if estimates_admissible(g, profile, heuristic, to_idx, speed) {
                    assert forall|n2: Seq<u32>, e2: Seq<int>, hu: u64|
                        is_walk(g, profile, n2, e2) && n2.last() == to_idx && call_ensures(h, (n2[0],), hu) implies hu as int
                        <= walk_cost(g, profile, n2, e2) by {
                        assert(call_ensures(heuristic, (n2[0], to_idx, speed), hu));
                    }
                    assert(admissible(g, profile, h, to_idx));
                }
            }
            RouteAnswer::Found { result, max_speed_kmh: profile.max_speed_kmh, profile: profile.name }
        },
    }
}

/// Answers a route request: snaps both ends to the graph (the arrival only
/// once the departure has snapped), picks the profile and searches.
/// Coordinates are in units of 1e-7 degree; `heuristic(v, target,
/// max_speed_kmh)` estimates the time in microseconds from node `v` to
/// `target`.
pub fn answer_route(
    state: &AppState,
    from_lat: i32,
    from_lon: i32,
    to_lat: i32,
    to_lon: i32,
    profile_name: &str,
    heuristic: impl Fn(u32, u32, u32) -> u64,
) -> (a: RouteAnswer)
    requires
        state.wf(),
        forall|v: u32, t: u32, m: u32| heuristic.requires((v, t, m)),
    ensures
        answer_ok(
            state.graph,
            snapped(state.spatial, from_lat, from_lon),
            snapped(state.spatial, to_lat, to_lon),
            profile_name@,
            heuristic,
            a,
        ),
{
    proof {
        lemma_node_points_bounded(state.graph.nodes@);
    }
    let from_idx = state.graph.nearest_node(&state.spatial, from_lat, from_lon, SNAP_DISTANCE_M);
    if from_idx.is_none() {
        return RouteAnswer::NoDeparture;
    }
    let to_idx = state.graph.nearest_node(&state.spatial, to_lat, to_lon, SNAP_DISTANCE_M);
    proof {
        if let Some(f) = from_idx {
            assert(snaps_to(state.spatial, from_lat, from_lon, f));
            lemma_snapped_in_graph(state, from_lat, from_lon, f);
        }
        if let Some(d) = to_idx {
            assert(snaps_to(state.spatial, to_lat, to_lon, d));
            lemma_snapped_in_graph(state, to_lat, to_lon, d);
        }
    }
    answer_snapped(state, from_idx, to_idx, profile_name, heuristic)
}

/// `s` without the slashes it starts with.
pub open spec fn without_leading_slashes(s: Seq<char>) -> Seq<char>
    decreases s.len(),
{
    if s.len() > 0 && s[0] == '/' {
        without_leading_slashes(s.drop_first())
    } else {
        s
    }
}

/// The part of `s` after its last dot; all of `s` when it has none.
pub open spec fn extension_of(s: Seq<char>) -> Seq<char>
    decreases s.len(),
{
    if s.len() == 0 {
        s
    } else if s.last() == '.' {
        Seq::empty()
    } else {
        extension_of(s.drop_last()).push(s.last())
    }
}

proof fn lemma_without_leading_slashes(s: Seq<char>, k: int)
    requires
        0 <= k <= s.len(),
        forall|j: int| 0 <= j < k ==> s[j] == '/',
        k == s.len() || s[k] != '/',
    ensures
        without_leading_slashes(s) == s.subrange(k, s.len() as int),
    decreases k,
{
    if k == 0 {
        assert(s.subrange(0, s.len() as int) =~= s);
    } else {
        let t = s.drop_first();
        assert forall|j: int| 0 <= j < k - 1 implies t[j] == '/' by {
            assert(t[j] == s[j + 1]);
        }
        lemma_without_leading_slashes(t, k - 1);
        assert(t.subrange(k - 1, t.len() as int) =~= s.subrange(k, s.len() as int));
    }
}

/// The path of a requested static file, relative to the static directory:
/// the request path without its leading slashes.
pub fn static_file_path(path: &str) -> (r: &str)
    ensures
        r@ == without_leading_slashes(path@),
{
    let n = path.unicode_len();
    let mut k: usize = 0;
    let mut leading = true;
    let mut i: usize = 0;
    for c in it: path.chars()
        invariant
            it.seq() == path@,
            n == path@.len(),
            i == it.index(),
            0 <= k <= i,
            forall|j: int| 0 <= j < k ==> path@[j] == '/',
            leading ==> k == i,
            !leading ==> k < i && path@[k as int] != '/',
    {
        if leading && c == '/' {
            k = k + 1;
        } else {
            leading = false;
        }
        i = i + 1;
    }
    proof {
        lemma_without_leading_slashes(path@, k as int);
    }
    path.substring_char(k, n)
}

/// The extension of a file path: what follows its last dot, or the whole
/// path when it has none.
pub fn file_extension(path: &str) -> (r: &str)
    ensures
        r@ == extension_of(path@),
{
    let n = path.unicode_len();
    let mut start: usize = 0;
    let mut i: usize = 0;
    for c in it: path.chars()
        invariant
            it.seq() == path@,
            n == path@.len(),
            i == it.index(),
            0 <= start <= i,
            extension_of(path@.take(i as int)) == path@.subrange(start as int, i as int),
    {
        proof {
            assert(path@.take(i + 1).drop_last() =~= path@.take(i as int));
            assert(path@.take(i + 1).last() == c);
        }
        if c == '.' {
            start = i + 1;
            proof {
                assert(path@.subrange(start as int, start as int) =~= Seq::<char>::empty());
            }
        } else {
            proof {
                assert(path@.subrange(start as int, i + 1) =~= path@.subrange(start as int, i as int).push(c));
            }
        }
        i = i + 1;
    }
    proof {
        assert(path@.take(n as int) =~= path@);
    }
    path.substring_char(start, n)
}

/// Content type served for a file extension.
pub open spec fn mime_of(ext: Seq<char>) -> Seq<char> {
    if ext == "svg"@ {
        "image/svg+xml"@
    } else if ext == "json"@ {
        "application/manifest+json"@
    } else if ext == "js"@ {
        "application/javascript"@
    } else if ext == "css"@ {
        "text/css"@
    } else if ext == "png"@ {
        "image/png"@
    } else {
        "application/octet-stream"@
    }
}

/// Content type served for a file extension.
pub fn mime_type(ext: &str) -> (m: &'static str)
    ensures
        m@ == mime_of(ext@),
{
    if str_eq(ext, "svg") {
        "image/svg+xml"
    } else if str_eq(ext, "json") {
        "application/manifest+json"
    } else if str_eq(ext, "js") {
        "application/javascript"
    } else if str_eq(ext, "css") {
        "text/css"
    } else if str_eq(ext, "png") {
        "image/png"
    } else {
        "application/octet-stream"
    }
}

} // verus!
