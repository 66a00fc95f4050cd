//! The route service: builds the road graph from the map-data collaborator's
//! node and way records, snaps waypoints to the nearest reachable node, and
//! answers multi-waypoint route queries, with optional carpool splicing.

use vstd::prelude::*;
use vstd::string::StringExecFns;
use crate::geo::{distance, distance_t, valid_coord, Kmh, TransportKind};
use crate::graph::{
    empty_result, lemma_below_all, lemma_below_elems, lemma_below_push, lemma_route_lists,
    lemma_teardown_exact, links_below, lists_consistent, node_data_eq, node_fields_eq,
    good_graph, links_in_range, mirror_of, node_restored, route_ok, walk_ok, MapPoint, Node,
    NodeId, NodeKind, NodeLink, PathResult, RoadGraph, RouteError, ROAD_TO_CAR,
};

verus! {

/// A way of the raw map data: an ordered chain of node ids under one road
/// type tag.
pub struct MapWay {
    pub id: u64,
    pub highway_type: String,
    pub node_ids: Vec<u64>,
}

/// A carpool schedule: a ride along an ordered list of points, departing
/// the first point at `start_at` (seconds).
pub struct PlainMapCarPath {
    pub id: u64,
    pub start_at: i64,
    pub path: Vec<MapPoint>,
}

/// Road-type tags marking pedestrian-only infrastructure.
pub open spec fn spec_is_pedestrian(s: Seq<char>) -> bool {
    ||| s == "footway"@
    ||| s == "construction"@
    ||| s == "bridleway"@
    ||| s == "steps"@
    ||| s == "corridor"@
    ||| s == "path"@
    ||| s == "cycleway"@
}

/// The mode a way's road-type tag classifies to: foot-only for the
/// pedestrian set, car-capable otherwise.
pub open spec fn spec_road_kind(s: Seq<char>) -> TransportKind {
    if spec_is_pedestrian(s) {
        TransportKind::Foot
    } else {
        TransportKind::Car
    }
}

/// Classifies a road-type tag into the mode its edges will carry.
pub fn road_kind_of_highway(s: &String) -> (r: TransportKind)
    ensures
        r == spec_road_kind(s@),
{
    let ped = s.eq(&String::from_str("footway")) || s.eq(&String::from_str("construction"))
        || s.eq(&String::from_str("bridleway")) || s.eq(&String::from_str("steps")) || s.eq(
        &String::from_str("corridor"),
    ) || s.eq(&String::from_str("path")) || s.eq(&String::from_str("cycleway"));
    if ped {
        TransportKind::Foot
    } else {
        TransportKind::Car
    }
}

/// A link the requested mode can use when deciding whether a node is on
/// the network: foot uses every edge, car only car-capable ones.
pub open spec fn spec_mode_match(kind: TransportKind, link_kind: TransportKind) -> bool {
    kind is Foot || link_kind is Car
}

/// Node `i` is incident to at least one edge usable in the mode.
pub open spec fn node_reachable(nodes: Seq<Node>, i: int, kind: TransportKind) -> bool {
    exists|j: int|
        0 <= j < nodes[i].nodes@.len() && spec_mode_match(
            kind,
            (#[trigger] nodes[i].nodes@[j]).kind,
        )
}

/// Some permanent node is reachable in the mode.
pub open spec fn has_reachable(g: RoadGraph, kind: TransportKind) -> bool {
    exists|i: int| 0 <= i < g.perm_len() && #[trigger] node_reachable(g.nodes@, i, kind)
}

/// Squared planar coordinate distance, used only for waypoint snapping.
pub open spec fn spec_sq_dist(p: MapPoint, n: Node) -> int {
    (p.lat - n.lat) * (p.lat - n.lat) + (p.lon - n.lon) * (p.lon - n.lon)
}

/// What the snap of waypoint `p` returns: the closest mode-reachable
/// permanent node by squared planar distance, or nothing when no permanent
/// node is reachable in the mode.
pub open spec fn closest_ok(g: RoadGraph, kind: TransportKind, p: MapPoint, r: Option<
    NodeId,
>) -> bool {
    match r {
        Some(nid) => {
            &&& (nid.0 as int) < g.perm_len()
            &&& node_reachable(g.nodes@, nid.0 as int, kind)
            &&& forall|x: int|
                0 <= x < g.perm_len() && #[trigger] node_reachable(g.nodes@, x, kind)
                    ==> spec_sq_dist(p, g.nodes@[nid.0 as int]) <= spec_sq_dist(p, g.nodes@[x])
        },
        None => forall|x: int| 0 <= x < g.perm_len() ==> !(#[trigger] node_reachable(
            g.nodes@,
            x,
            kind,
        )),
    }
}

/// The graph `a` carries exactly the data of `b`: same nodes link for
/// link, same id index, same transient count.
pub open spec fn graph_preserved(a: RoadGraph, b: RoadGraph) -> bool {
    &&& a.nodes@.len() == b.nodes@.len()
    &&& forall|i: int| 0 <= i < b.nodes@.len() ==> node_data_eq(#[trigger] a.nodes@[i], b.nodes@[i])
    &&& a.node_map@ == b.node_map@
    &&& a.additional_nodes_num == b.additional_nodes_num
    &&& a.etas@.len() == b.etas@.len()
}

/// Every graph node was made from one of the loaded map points.
pub open spec fn point_matches(n: Node, p: MapPoint) -> bool {
    &&& n.id == p.id
    &&& n.lat == p.lat
    &&& n.lon == p.lon
    &&& n.kind is Plain
}

/// The node was built from one of the given map points.
pub open spec fn node_from_points(n: Node, pts: Seq<MapPoint>) -> bool {
    exists|j: int| 0 <= j < pts.len() && point_matches(n, #[trigger] pts[j])
}

/// Every graph node was built from one of the given map points.
pub open spec fn nodes_from_points(gnodes: Seq<Node>, pts: Seq<MapPoint>) -> bool {
    forall|i: int| 0 <= i < gnodes.len() ==> node_from_points(#[trigger] gnodes[i], pts)
}

/// Every link of every node measures the great-circle distance between its
/// two endpoints' coordinates: the mark of a graph built purely from map
/// data, where the builder prices each edge by geography.
pub open spec fn edges_measure_geo(nodes: Seq<Node>) -> bool {
    forall|i: int, j: int|
        0 <= i < nodes.len() && 0 <= j < nodes[i].nodes@.len() ==> {
            let l = #[trigger] nodes[i].nodes@[j];
            &&& (l.node.0 as int) < nodes.len()
            &&& (l.len as int) == crate::geo::spec_distance_cm(
                nodes[i].lat as int,
                nodes[i].lon as int,
                nodes[l.node.0 as int].lat as int,
                nodes[l.node.0 as int].lon as int,
            )
        }
}

/// On a graph whose edges measure geography, a returned single-hop route
/// between two road nodes covers exactly the great-circle distance between
/// its endpoints, in exactly that distance converted at the query mode's
/// speed.
pub proof fn lemma_single_hop_measures_geo(
    nodes: Seq<Node>,
    mode: TransportKind,
    start: int,
    end: int,
    pr: PathResult,
    trace: Seq<usize>,
)
    requires
        edges_measure_geo(nodes),
        route_ok(nodes, mode, start, end, pr, trace),
        pr.points@.len() == 2,
        nodes[start].kind is Plain,
        nodes[end].kind is Plain,
    ensures
        pr.total_distance as int == crate::geo::spec_distance_cm(
            nodes[end].lat as int,
            nodes[end].lon as int,
            nodes[start].lat as int,
            nodes[start].lon as int,
        ),
        pr.total_time as int == crate::geo::spec_travel_time_ms(
            pr.total_distance as int,
            crate::geo::spec_speed_kmh(mode),
        ),
{
    crate::graph::lemma_single_hop_route(nodes, mode, start, end, pr, trace);
    let j = choose|j: int|
        0 <= j < nodes[end].nodes@.len() && ((#[trigger] nodes[end].nodes@[j]).node.0 as int)
            == start && pr.total_distance == nodes[end].nodes@[j].len && pr.total_time as int
            == crate::geo::spec_travel_time_ms(
            nodes[end].nodes@[j].len as int,
            crate::geo::spec_speed_kmh(mode),
        );
    assert((nodes[end].nodes@[j].len as int) == crate::geo::spec_distance_cm(
        nodes[end].lat as int,
        nodes[end].lon as int,
        nodes[start].lat as int,
        nodes[start].lon as int,
    ));
}

/// Number of map points with in-range coordinates: exactly the nodes the
/// builder registers.
pub open spec fn count_in_range(pts: Seq<MapPoint>) -> int
    decreases pts.len(),
{
    if pts.len() == 0 {
        0
    } else {
        count_in_range(pts.drop_last()) + if point_coord_ok(pts.last()) {
            1int
        } else {
            0int
        }
    }
}

proof fn lemma_count_take_succ(pts: Seq<MapPoint>, i: int)
    requires
        0 <= i < pts.len(),
    ensures
        count_in_range(pts.take(i + 1)) == count_in_range(pts.take(i)) + if point_coord_ok(
            pts[i],
        ) {
            1int
        } else {
            0int
        },
{
    assert(pts.take(i + 1).drop_last() =~= pts.take(i));
    assert(pts.take(i + 1).last() == pts[i]);
}

/// Node `a` holds a link to `b` carrying the given mode (its length is
/// then fixed by `edges_measure_geo` to the geo distance of the
/// endpoints).
pub open spec fn wired(nodes: Seq<Node>, a: int, b: int, kind: TransportKind) -> bool {
    exists|j: int|
        0 <= j < nodes[a].nodes@.len() && ((#[trigger] nodes[a].nodes@[j]).node.0 as int) == b
            && nodes[a].nodes@[j].kind == kind
}

/// Consecutive pair `k` of way `w`: whenever both of its ids are loaded
/// and name distinct nodes, the two nodes are wired both ways with the
/// way's classification.
pub open spec fn way_pair_wired(g: RoadGraph, w: MapWay, k: int) -> bool {
    let ida = w.node_ids@[k - 1];
    let idb = w.node_ids@[k];
    (g.node_map@.contains_key(ida) && g.node_map@.contains_key(idb) && g.node_map@[ida].0
        != g.node_map@[idb].0) ==> {
        &&& wired(
            g.nodes@,
            g.node_map@[ida].0 as int,
            g.node_map@[idb].0 as int,
            spec_road_kind(w.highway_type@),
        )
        &&& wired(
            g.nodes@,
            g.node_map@[idb].0 as int,
            g.node_map@[ida].0 as int,
            spec_road_kind(w.highway_type@),
        )
    }
}

/// Link `l` of node `a` is the one consecutive pair `k` of way `w`
/// induces: both ids loaded, naming distinct nodes, one end `a`, the
/// other the link's target, with the way's classification (the length is
/// fixed separately by `edges_measure_geo`).
pub open spec fn link_from_way_pair(
    nmap: Map<u64, NodeId>,
    w: MapWay,
    k: int,
    a: int,
    l: NodeLink,
) -> bool {
    let ida = w.node_ids@[k - 1];
    let idb = w.node_ids@[k];
    &&& 1 <= k < w.node_ids@.len()
    &&& nmap.contains_key(ida)
    &&& nmap.contains_key(idb)
    &&& nmap[ida].0 != nmap[idb].0
    &&& l.kind == spec_road_kind(w.highway_type@)
    &&& ((a == nmap[ida].0 as int && l.node == nmap[idb]) || (a == nmap[idb].0 as int && l.node
        == nmap[ida]))
}

/// Some consecutive pair of some way induces the link.
pub open spec fn link_induced(
    nmap: Map<u64, NodeId>,
    ways: Seq<MapWay>,
    a: int,
    l: NodeLink,
) -> bool {
    exists|wi: int, k: int|
        0 <= wi < ways.len() && #[trigger] link_from_way_pair(nmap, ways[wi], k, a, l)
}

/// Every link of every node is induced by some consecutive pair of some
/// way: the builder wires nothing else.
pub open spec fn links_from_ways(nodes: Seq<Node>, nmap: Map<u64, NodeId>, ways: Seq<MapWay>) -> bool {
    forall|a: int, j: int|
        0 <= a < nodes.len() && 0 <= j < nodes[a].nodes@.len() ==> link_induced(
            nmap,
            ways,
            a,
            #[trigger] nodes[a].nodes@[j],
        )
}

/// Total number of directed links over all nodes.
pub open spec fn degree_sum(nodes: Seq<Node>) -> int
    decreases nodes.len(),
{
    if nodes.len() == 0 {
        0
    } else {
        degree_sum(nodes.drop_last()) + nodes.last().nodes@.len()
    }
}

/// Consecutive pair `k` of way `w` makes the builder wire an edge: both
/// ids loaded and naming distinct nodes.
pub open spec fn pair_active(nmap: Map<u64, NodeId>, w: MapWay, k: int) -> bool {
    &&& nmap.contains_key(w.node_ids@[k - 1])
    &&& nmap.contains_key(w.node_ids@[k])
    &&& nmap[w.node_ids@[k - 1]].0 != nmap[w.node_ids@[k]].0
}

/// Number of active consecutive pairs among the first `upto` positions of
/// way `w`.
pub open spec fn active_pairs_in_way(nmap: Map<u64, NodeId>, w: MapWay, upto: int) -> int
    decreases upto,
{
    if upto <= 1 {
        0
    } else {
        active_pairs_in_way(nmap, w, upto - 1) + if pair_active(nmap, w, upto - 1) {
            1int
        } else {
            0int
        }
    }
}

/// Number of active consecutive pairs over the first `upto` ways.
pub open spec fn active_pairs(nmap: Map<u64, NodeId>, ways: Seq<MapWay>, upto: int) -> int
    decreases upto,
{
    if upto <= 0 {
        0
    } else {
        active_pairs(nmap, ways, upto - 1) + active_pairs_in_way(
            nmap,
            ways[upto - 1],
            ways[upto - 1].node_ids@.len() as int,
        )
    }
}

/// A graph of isolated nodes has no links at all.
proof fn lemma_degree_sum_empty(nodes: Seq<Node>)
    requires
        forall|i: int| 0 <= i < nodes.len() ==> (#[trigger] nodes[i]).nodes@.len() == 0,
    ensures
        degree_sum(nodes) == 0,
    decreases nodes.len(),
{
    if nodes.len() > 0 {
        lemma_degree_sum_empty(nodes.drop_last());
    }
}

/// Equal link counts node for node give an equal total.
proof fn lemma_degree_sum_len_eq(n1: Seq<Node>, n2: Seq<Node>)
    requires
        n2.len() == n1.len(),
        forall|i: int|
            0 <= i < n1.len() ==> (#[trigger] n2[i]).nodes@.len() == n1[i].nodes@.len(),
    ensures
        degree_sum(n2) == degree_sum(n1),
    decreases n1.len(),
{
    if n1.len() > 0 {
        assert forall|i: int|
            0 <= i < n1.len() - 1 implies (#[trigger] n2.drop_last()[i]).nodes@.len()
            == n1.drop_last()[i].nodes@.len() by {
            assert(n2[i].nodes@.len() == n1[i].nodes@.len());
        }
        lemma_degree_sum_len_eq(n1.drop_last(), n2.drop_last());
    }
}

/// Pushing one link onto one node raises the total link count by one.
proof fn lemma_degree_sum_one(n1: Seq<Node>, n2: Seq<Node>, a: int)
    requires
        n2.len() == n1.len(),
        0 <= a < n1.len(),
        n2[a].nodes@.len() == n1[a].nodes@.len() + 1,
        forall|i: int|
            0 <= i < n1.len() && i != a ==> (#[trigger] n2[i]).nodes@.len()
                == n1[i].nodes@.len(),
    ensures
        degree_sum(n2) == degree_sum(n1) + 1,
    decreases n1.len(),
{
    let m = n1.len() - 1;
    if a == m {
        assert forall|i: int|
            0 <= i < m implies (#[trigger] n2.drop_last()[i]).nodes@.len() == n1.drop_last()[
        i].nodes@.len() by {
            assert(n2[i].nodes@.len() == n1[i].nodes@.len());
        }
        lemma_degree_sum_len_eq(n1.drop_last(), n2.drop_last());
    } else {
        assert forall|i: int|
            0 <= i < m && i != a implies (#[trigger] n2.drop_last()[i]).nodes@.len()
            == n1.drop_last()[i].nodes@.len() by {
            assert(n2[i].nodes@.len() == n1[i].nodes@.len());
        }
        lemma_degree_sum_one(n1.drop_last(), n2.drop_last(), a);
    }
}

/// Wiring one active pair keeps every link induced by some pair and
/// advances the link total by exactly two.
proof fn lemma_connect_counts(
    n1: Seq<Node>,
    n2: Seq<Node>,
    nmap: Map<u64, NodeId>,
    ways: Seq<MapWay>,
    wi: int,
    k: int,
    na: NodeId,
    nb: NodeId,
    d: u32,
    kd: TransportKind,
)
    requires
        links_from_ways(n1, nmap, ways),
        n2.len() == n1.len(),
        (na.0 as int) < n1.len(),
        (nb.0 as int) < n1.len(),
        na.0 != nb.0,
        forall|i: int|
            0 <= i < n1.len() && i != na.0 as int && i != nb.0 as int ==> node_data_eq(
                #[trigger] n2[i],
                n1[i],
            ),
        n2[na.0 as int].nodes@ == n1[na.0 as int].nodes@.push(
            NodeLink { node: nb, len: d, kind: kd },
        ),
        n2[nb.0 as int].nodes@ == n1[nb.0 as int].nodes@.push(
            NodeLink { node: na, len: d, kind: kd },
        ),
        0 <= wi < ways.len(),
        1 <= k < ways[wi].node_ids@.len(),
        nmap.contains_key(ways[wi].node_ids@[k - 1]),
        nmap.contains_key(ways[wi].node_ids@[k]),
        nmap[ways[wi].node_ids@[k - 1]] == na,
        nmap[ways[wi].node_ids@[k]] == nb,
        kd == spec_road_kind(ways[wi].highway_type@),
    ensures
        links_from_ways(n2, nmap, ways),
        degree_sum(n2) == degree_sum(n1) + 2,
        pair_active(nmap, ways[wi], k),
{
    assert forall|a: int, j: int|
        0 <= a < n2.len() && 0 <= j < n2[a].nodes@.len() implies link_induced(
        nmap,
        ways,
        a,
        #[trigger] n2[a].nodes@[j],
    ) by {
        let l = n2[a].nodes@[j];
        if a == na.0 as int && j == n1[a].nodes@.len() {
            assert(l == (NodeLink { node: nb, len: d, kind: kd }));
            assert(link_from_way_pair(nmap, ways[wi], k, a, l));
        } else if a == nb.0 as int && j == n1[a].nodes@.len() {
            assert(l == (NodeLink { node: na, len: d, kind: kd }));
            assert(link_from_way_pair(nmap, ways[wi], k, a, l));
        } else {
            if a != na.0 as int && a != nb.0 as int {
                assert(node_data_eq(n2[a], n1[a]));
            }
            assert(l == n1[a].nodes@[j]);
            assert(link_induced(nmap, ways, a, l));
        }
    }
    let mid = n1.update(na.0 as int, n2[na.0 as int]);
    assert(mid[na.0 as int].nodes@.len() == n1[na.0 as int].nodes@.len() + 1);
    lemma_degree_sum_one(n1, mid, na.0 as int);
    assert(n2[nb.0 as int].nodes@.len() == mid[nb.0 as int].nodes@.len() + 1);
    assert forall|x: int|
        0 <= x < mid.len() && x != nb.0 as int implies (#[trigger] n2[x]).nodes@.len() == mid[
    x].nodes@.len() by {
        if x != na.0 as int {
            assert(node_data_eq(n2[x], n1[x]));
        }
    }
    lemma_degree_sum_one(mid, n2, nb.0 as int);
}

/// `a` extends `b`: the links of `b`, in place, possibly followed by more.
pub open spec fn links_extend(a: Seq<NodeLink>, b: Seq<NodeLink>) -> bool {
    b.len() <= a.len() && forall|j: int| 0 <= j < b.len() ==> a[j] == (#[trigger] b[j])
}

/// Wiring survives any mutation that only appends links.
proof fn lemma_pair_wired_extend(g1: RoadGraph, g2: RoadGraph, w: MapWay, k: int)
    requires
        way_pair_wired(g1, w, k),
        g2.node_map@ == g1.node_map@,
        g2.nodes@.len() == g1.nodes@.len(),
        forall|kk: u64|
            #[trigger] g1.node_map@.contains_key(kk) ==> (g1.node_map@[kk].0 as int)
                < g1.nodes@.len(),
        forall|i: int|
            0 <= i < g1.nodes@.len() ==> links_extend(
                (#[trigger] g2.nodes@[i]).nodes@,
                g1.nodes@[i].nodes@,
            ),
    ensures
        way_pair_wired(g2, w, k),
{
    let ida = w.node_ids@[k - 1];
    let idb = w.node_ids@[k];
    if g1.node_map@.contains_key(ida) && g1.node_map@.contains_key(idb) && g1.node_map@[ida].0
        != g1.node_map@[idb].0 {
        let a = g1.node_map@[ida].0 as int;
        let b = g1.node_map@[idb].0 as int;
        assert(0 <= a < g1.nodes@.len());
        assert(0 <= b < g1.nodes@.len());
        let kd = spec_road_kind(w.highway_type@);
        assert(links_extend(g2.nodes@[a].nodes@, g1.nodes@[a].nodes@));
        assert(links_extend(g2.nodes@[b].nodes@, g1.nodes@[b].nodes@));
        let j1 = choose|j: int|
            0 <= j < g1.nodes@[a].nodes@.len() && ((#[trigger] g1.nodes@[a].nodes@[j]).node.0
                as int) == b && g1.nodes@[a].nodes@[j].kind == kd;
        assert(g2.nodes@[a].nodes@[j1] == g1.nodes@[a].nodes@[j1]);
        assert(wired(g2.nodes@, a, b, kd));
        let j2 = choose|j: int|
            0 <= j < g1.nodes@[b].nodes@.len() && ((#[trigger] g1.nodes@[b].nodes@[j]).node.0
                as int) == a && g1.nodes@[b].nodes@[j].kind == kd;
        assert(g2.nodes@[b].nodes@[j2] == g1.nodes@[b].nodes@[j2]);
        assert(wired(g2.nodes@, b, a, kd));
    }
}

/// The id index points at a node carrying that external id.
pub open spec fn ids_indexed(g: RoadGraph) -> bool {
    forall|k: u64|
        #[trigger] g.node_map@.contains_key(k) ==> (g.node_map@[k].0 as int) < g.nodes@.len()
            && g.nodes@[g.node_map@[k].0 as int].id == k
}

/// Internally consistent stitched route lists: equal lengths, cumulative
/// lists that start at zero and never decrease, totals equal to the last
/// entries. Stitched routes are only non-strictly monotone: an unreachable
/// middle segment contributes nothing.
pub open spec fn lists_monotone(pr: PathResult) -> bool {
    let k = pr.points@.len() as int;
    &&& pr.eta_list@.len() == k
    &&& pr.distance_list@.len() == k
    &&& k >= 1
    &&& pr.eta_list@[0] == 0
    &&& pr.distance_list@[0] == 0
    &&& pr.total_time == pr.eta_list@[k - 1]
    &&& pr.total_distance == pr.distance_list@[k - 1]
    &&& forall|m: int| 0 <= m < k - 1 ==> #[trigger] pr.eta_list@[m] <= pr.eta_list@[m + 1]
    &&& forall|m: int|
        0 <= m < k - 1 ==> #[trigger] pr.distance_list@[m] <= pr.distance_list@[m + 1]
}

/// Total time of a chain of stitched segments: the segments' totals
/// summed saturating, in order.
pub open spec fn stitch_total_time(segs: Seq<PathResult>) -> u64
    decreases segs.len(),
{
    if segs.len() == 0 {
        0
    } else {
        crate::graph::spec_sat_add(stitch_total_time(segs.drop_last()), segs.last().total_time)
    }
}

/// Total distance of a chain of stitched segments: the segments' totals
/// summed saturating, in order.
pub open spec fn stitch_total_distance(segs: Seq<PathResult>) -> u64
    decreases segs.len(),
{
    if segs.len() == 0 {
        0
    } else {
        crate::graph::spec_sat_add(
            stitch_total_distance(segs.drop_last()),
            segs.last().total_distance,
        )
    }
}

/// Point list of a stitched route: the first snapped point, then each
/// segment's points after its duplicated boundary point. An empty
/// (unreachable) segment contributes nothing.
pub open spec fn stitch_points(first: MapPoint, segs: Seq<PathResult>) -> Seq<MapPoint>
    decreases segs.len(),
{
    if segs.len() == 0 {
        seq![first]
    } else {
        let b = stitch_points(first, segs.drop_last());
        if segs.last().points@.len() == 0 {
            b
        } else {
            b + segs.last().points@.skip(1)
        }
    }
}

/// Cumulative times of a stitched route: zero for the first point, then
/// each segment's cumulative times re-based, saturating, onto the total
/// time accumulated before it.
pub open spec fn stitch_etas(segs: Seq<PathResult>) -> Seq<u64>
    decreases segs.len(),
{
    if segs.len() == 0 {
        seq![0u64]
    } else {
        let b = stitch_etas(segs.drop_last());
        let t = stitch_total_time(segs.drop_last());
        if segs.last().points@.len() == 0 {
            b
        } else {
            b + segs.last().eta_list@.skip(1).map_values(
                |e: u64| crate::graph::spec_sat_add(t, e),
            )
        }
    }
}

/// Cumulative distances of a stitched route, re-based like the times.
pub open spec fn stitch_dists(segs: Seq<PathResult>) -> Seq<u64>
    decreases segs.len(),
{
    if segs.len() == 0 {
        seq![0u64]
    } else {
        let b = stitch_dists(segs.drop_last());
        let d = stitch_total_distance(segs.drop_last());
        if segs.last().points@.len() == 0 {
            b
        } else {
            b + segs.last().distance_list@.skip(1).map_values(
                |e: u64| crate::graph::spec_sat_add(d, e),
            )
        }
    }
}

/// The route carries exactly the data stitched from the first snapped
/// point and the given per-pair segments.
pub open spec fn matches_stitch(pr: PathResult, first: MapPoint, segs: Seq<PathResult>) -> bool {
    &&& pr.total_time == stitch_total_time(segs)
    &&& pr.total_distance == stitch_total_distance(segs)
    &&& pr.points@ == stitch_points(first, segs)
    &&& pr.eta_list@ == stitch_etas(segs)
    &&& pr.distance_list@ == stitch_dists(segs)
}

/// What one per-pair search over `nodes` may answer: empty only when no
/// admissible walk joins the pair, otherwise an exactly priced route from
/// `a` to `b`; in either case no admissible walk beats its total time.
pub open spec fn seg_search_ok(
    nodes: Seq<Node>,
    mode: TransportKind,
    a: NodeId,
    b: NodeId,
    seg: PathResult,
) -> bool {
    &&& (empty_result(seg) || (exists|trace: Seq<usize>|
        route_ok(nodes, mode, a.0 as int, b.0 as int, seg, trace)))
    &&& (empty_result(seg) ==> !(exists|walk: Seq<usize>, times: Seq<u64>|
        walk_ok(nodes, mode, walk, times, a.0 as int, b.0 as int)))
    &&& (forall|walk: Seq<usize>, times: Seq<u64>|
        walk_ok(nodes, mode, walk, times, a.0 as int, b.0 as int) ==> !empty_result(seg) && (
        seg.total_time as int) <= times[times.len() - 1] as int)
}

/// The full shape of a multi-waypoint by-car answer: every waypoint
/// snapped to its nearest car-reachable node, one optimal per-pair search
/// between consecutive snaps, and the result exactly those segments
/// stitched in order onto the first snapped point.
pub open spec fn stitched_route_ok(
    g: RoadGraph,
    pts: Seq<MapPoint>,
    snaps: Seq<NodeId>,
    segs: Seq<PathResult>,
    pr: PathResult,
) -> bool {
    &&& snaps.len() == pts.len()
    &&& forall|m: int|
        0 <= m < pts.len() ==> closest_ok(g, TransportKind::Car, pts[m], Some(#[trigger] snaps[m]))
    &&& segs.len() == pts.len() - 1
    &&& forall|m: int|
        0 <= m < segs.len() ==> seg_search_ok(
            g.nodes@,
            TransportKind::Car,
            snaps[m],
            snaps[m + 1],
            #[trigger] segs[m],
        )
    &&& (snaps[0].0 as int) < g.nodes@.len()
    &&& matches_stitch(pr, crate::graph::spec_point_of(g.nodes@[snaps[0].0 as int]), segs)
}

/// Being a good graph (mirrored equal-length links, none of length zero,
/// plain ids unique, car neighbors' ids apart) is a property of the node
/// data alone, so it survives a data-preserving copy.
proof fn lemma_good_graph_data_eq(n1: Seq<Node>, n2: Seq<Node>)
    requires
        good_graph(n1),
        links_in_range(n1),
        n2.len() == n1.len(),
        forall|i: int| 0 <= i < n1.len() ==> node_data_eq(#[trigger] n2[i], n1[i]),
    ensures
        good_graph(n2),
{
    assert forall|i: int, j: int|
        0 <= i < n2.len() && 0 <= j < n2[i].nodes@.len() implies (#[trigger] n2[i].nodes@[
    j]).len >= 1 by {
        assert(node_data_eq(n2[i], n1[i]));
        assert(n1[i].nodes@[j].len >= 1);
    }
    assert forall|i: int, j: int|
        0 <= i < n2.len() && 0 <= j < n2[i].nodes@.len() implies mirror_of(
        n2,
        i,
        #[trigger] n2[i].nodes@[j],
    ) by {
        assert(node_data_eq(n2[i], n1[i]));
        let l = n1[i].nodes@[j];
        assert(mirror_of(n1, i, l));
        assert((l.node.0 as int) < n1.len());
        let k = choose|k: int|
            0 <= k < n1[l.node.0 as int].nodes@.len() && ((#[trigger] n1[l.node.0 as
                int].nodes@[k]).node.0 as int) == i && n1[l.node.0 as int].nodes@[k].len == l.len
                && n1[l.node.0 as int].nodes@[k].kind == l.kind;
        assert(node_data_eq(n2[l.node.0 as int], n1[l.node.0 as int]));
        assert(n2[l.node.0 as int].nodes@[k] == n1[l.node.0 as int].nodes@[k]);
        assert(mirror_of(n2, i, n2[i].nodes@[j]));
    }
    assert forall|i: int, j: int|
        0 <= i < n2.len() && 0 <= j < n2.len() && i != j && (#[trigger] n2[i]).kind is Plain && (
        #[trigger] n2[j]).kind is Plain implies n2[i].id != n2[j].id by {
        assert(node_data_eq(n2[i], n1[i]));
        assert(node_data_eq(n2[j], n1[j]));
    }
    assert forall|c: int, ja: int, jb: int|
        0 <= c < n2.len() && n2[c].kind is Car && 0 <= ja < n2[c].nodes@.len() && 0 <= jb < n2[
        c].nodes@.len() && ((#[trigger] n2[c].nodes@[ja]).node.0 as int) < n2.len() && ((
        #[trigger] n2[c].nodes@[jb]).node.0 as int) < n2.len() && n2[n2[c].nodes@[ja].node.0 as
            int].kind is Plain && n2[n2[c].nodes@[jb].node.0 as int].kind
            is Car implies n2[n2[c].nodes@[ja].node.0 as int].id != n2[n2[c].nodes@[jb].node.0 as
        int].id by {
        assert(node_data_eq(n2[c], n1[c]));
        let a = n2[c].nodes@[ja].node.0 as int;
        let b = n2[c].nodes@[jb].node.0 as int;
        assert(node_data_eq(n2[a], n1[a]));
        assert(node_data_eq(n2[b], n1[b]));
        assert(n1[c].nodes@[ja] == n2[c].nodes@[ja]);
        assert(n1[c].nodes@[jb] == n2[c].nodes@[jb]);
        assert(n1[n1[c].nodes@[ja].node.0 as int].id != n1[n1[c].nodes@[jb].node.0 as int].id);
    }
}

/// `p` is the waypoint of one of the given nodes.
pub open spec fn point_on_graph(p: MapPoint, nodes: Seq<Node>) -> bool {
    exists|i: int|
        0 <= i < nodes.len() && p == crate::graph::spec_point_of(#[trigger] nodes[i])
}

/// Every listed point is the waypoint of a node of the graph.
pub open spec fn points_on_graph(pts: Seq<MapPoint>, nodes: Seq<Node>) -> bool {
    forall|m: int| 0 <= m < pts.len() ==> point_on_graph(#[trigger] pts[m], nodes)
}

/// `n` is a car node made from one of the offered schedule points: same
/// id and coordinates, carrying that schedule's id.
pub open spec fn node_from_schedule(n: Node, cps: Seq<PlainMapCarPath>) -> bool {
    exists|c: int, q: int|
        0 <= c < cps.len() && 0 <= q < cps[c].path@.len() && n.id == (
        #[trigger] cps[c].path@[q]).id && n.lat == cps[c].path@[q].lat && n.lon == cps[
            c].path@[q].lon && (n.kind matches NodeKind::Car { path_id, .. } && path_id == cps[
            c].id)
}

/// Every node appended beyond the permanent prefix is a car node made
/// from one of the offered schedule points.
pub open spec fn transients_from(g: RoadGraph, perm: int, cps: Seq<PlainMapCarPath>) -> bool {
    forall|i: int|
        perm <= i < g.nodes@.len() ==> node_from_schedule(#[trigger] g.nodes@[i], cps)
}

/// Schedule provenance survives any mutation that keeps node data.
proof fn lemma_transients_fields_eq(
    g1: RoadGraph,
    g2: RoadGraph,
    perm: int,
    cps: Seq<PlainMapCarPath>,
)
    requires
        transients_from(g1, perm, cps),
        g2.nodes@.len() == g1.nodes@.len(),
        forall|i: int|
            perm <= i < g1.nodes@.len() ==> node_fields_eq(
                #[trigger] g2.nodes@[i],
                g1.nodes@[i],
            ),
    ensures
        transients_from(g2, perm, cps),
{
    assert forall|i: int| perm <= i < g2.nodes@.len() implies node_from_schedule(
        #[trigger] g2.nodes@[i],
        cps,
    ) by {
        assert(node_from_schedule(g1.nodes@[i], cps));
        let (c, q) = choose|c: int, q: int|
            0 <= c < cps.len() && 0 <= q < cps[c].path@.len() && g1.nodes@[i].id == (
            #[trigger] cps[c].path@[q]).id && g1.nodes@[i].lat == cps[c].path@[q].lat
                && g1.nodes@[i].lon == cps[c].path@[q].lon && (g1.nodes@[i].kind matches
            NodeKind::Car { path_id, .. } && path_id == cps[c].id);
        assert(node_fields_eq(g2.nodes@[i], g1.nodes@[i]));
    }
}

/// Schedule provenance of a single node survives a data-preserving copy.
proof fn lemma_node_from_schedule_fields(n1: Node, n2: Node, cps: Seq<PlainMapCarPath>)
    requires
        node_from_schedule(n1, cps),
        node_fields_eq(n2, n1),
    ensures
        node_from_schedule(n2, cps),
{
    let (c, q) = choose|c: int, q: int|
        0 <= c < cps.len() && 0 <= q < cps[c].path@.len() && n1.id == (
        #[trigger] cps[c].path@[q]).id && n1.lat == cps[c].path@[q].lat && n1.lon == cps[
            c].path@[q].lon && (n1.kind matches NodeKind::Car { path_id, .. } && path_id == cps[
            c].id);
}

/// `p` is the waypoint of a car node made from one of the offered
/// schedule points: its coordinates and id, tagged with the schedule's id.
pub open spec fn point_from_schedule(p: MapPoint, cps: Seq<PlainMapCarPath>) -> bool {
    exists|c: int, q: int|
        0 <= c < cps.len() && 0 <= q < cps[c].path@.len() && p.id == (
        #[trigger] cps[c].path@[q]).id && p.lat == cps[c].path@[q].lat && p.lon == cps[
            c].path@[q].lon && p.path_id == Some(cps[c].id)
}

/// Every listed point comes from the loaded graph or from one of the
/// offered schedules.
pub open spec fn points_from_query(
    pts: Seq<MapPoint>,
    nodes: Seq<Node>,
    cps: Seq<PlainMapCarPath>,
) -> bool {
    forall|m: int|
        0 <= m < pts.len() ==> point_on_graph(#[trigger] pts[m], nodes) || point_from_schedule(
            pts[m],
            cps,
        )
}

/// Total number of scheduled points over all carpool schedules.
pub open spec fn total_sched_points(cps: Seq<PlainMapCarPath>) -> int
    decreases cps.len(),
{
    if cps.len() == 0 {
        0
    } else {
        total_sched_points(cps.drop_last()) + cps.last().path@.len()
    }
}

proof fn lemma_total_nonneg(cps: Seq<PlainMapCarPath>)
    ensures
        total_sched_points(cps) >= 0,
    decreases cps.len(),
{
    if cps.len() > 0 {
        lemma_total_nonneg(cps.drop_last());
    }
}

proof fn lemma_total_take_succ(cps: Seq<PlainMapCarPath>, c: int)
    requires
        0 <= c < cps.len(),
    ensures
        total_sched_points(cps.take(c + 1)) == total_sched_points(cps.take(c))
            + cps[c].path@.len(),
{
    assert(cps.take(c + 1).drop_last() =~= cps.take(c));
    assert(cps.take(c + 1).last() == cps[c]);
}

proof fn lemma_total_prefix(cps: Seq<PlainMapCarPath>, c: int)
    requires
        0 <= c <= cps.len(),
    ensures
        total_sched_points(cps.take(c)) <= total_sched_points(cps),
    decreases cps.len() - c,
{
    if c == cps.len() {
        assert(cps.take(c) =~= cps);
    } else {
        lemma_total_take_succ(cps, c);
        lemma_total_prefix(cps, c + 1);
    }
}

proof fn lemma_total_mono(cps: Seq<PlainMapCarPath>, a: int, b: int)
    requires
        0 <= a <= b <= cps.len(),
    ensures
        total_sched_points(cps.take(a)) <= total_sched_points(cps.take(b)),
    decreases b - a,
{
    if a < b {
        lemma_total_take_succ(cps, a);
        lemma_total_mono(cps, a + 1, b);
    }
}

/// A spliced transient's exact state survives any mutation that keeps
/// that node's data.
proof fn lemma_sched_spliced_data_eq(
    n1: Seq<Node>,
    n2: Seq<Node>,
    nmap: Map<u64, NodeId>,
    perm: int,
    start_at: int,
    cps: Seq<PlainMapCarPath>,
    c: int,
    q: int,
)
    requires
        sched_spliced(n1, nmap, perm, start_at, cps, c, q),
        n2.len() >= n1.len(),
        node_data_eq(n2[sched_node_idx(perm, cps, c, q)], n1[sched_node_idx(perm, cps, c, q)]),
        forall|i: int|
            0 <= i < perm ==> links_extend((#[trigger] n2[i]).nodes@, n1[i].nodes@),
    ensures
        sched_spliced(n2, nmap, perm, start_at, cps, c, q),
{
    let ti = sched_node_idx(perm, cps, c, q);
    let road = nmap[cps[c].path@[q].id].0 as int;
    let j = choose|j: int|
        0 <= j < n1[road].nodes@.len() && (#[trigger] n1[road].nodes@[j]) == (NodeLink {
            node: NodeId(ti as usize),
            len: ROAD_TO_CAR,
            kind: TransportKind::Foot,
        });
    assert(n2[road].nodes@[j] == n1[road].nodes@[j]);
    assert(road_mirror_at(n2, road, ti));
}

/// An open transient's exact state survives any mutation that keeps that
/// node's data.
proof fn lemma_sched_open_data_eq(
    n1: Seq<Node>,
    n2: Seq<Node>,
    nmap: Map<u64, NodeId>,
    perm: int,
    start_at: int,
    cps: Seq<PlainMapCarPath>,
    c: int,
    q: int,
)
    requires
        sched_open(n1, nmap, perm, start_at, cps, c, q),
        n2.len() >= n1.len(),
        node_data_eq(n2[sched_node_idx(perm, cps, c, q)], n1[sched_node_idx(perm, cps, c, q)]),
        forall|i: int|
            0 <= i < perm ==> links_extend((#[trigger] n2[i]).nodes@, n1[i].nodes@),
    ensures
        sched_open(n2, nmap, perm, start_at, cps, c, q),
{
    let ti = sched_node_idx(perm, cps, c, q);
    let road = nmap[cps[c].path@[q].id].0 as int;
    let j = choose|j: int|
        0 <= j < n1[road].nodes@.len() && (#[trigger] n1[road].nodes@[j]) == (NodeLink {
            node: NodeId(ti as usize),
            len: ROAD_TO_CAR,
            kind: TransportKind::Foot,
        });
    assert(n2[road].nodes@[j] == n1[road].nodes@[j]);
    assert(road_mirror_at(n2, road, ti));
}

/// A road node's mirror link survives any mutation that only appends to
/// its adjacency.
proof fn lemma_road_mirror_extend(n1: Seq<Node>, n2: Seq<Node>, road: int, ti: int)
    requires
        road_mirror_at(n1, road, ti),
        0 <= road < n1.len(),
        n2.len() >= n1.len(),
        links_extend(n2[road].nodes@, n1[road].nodes@),
    ensures
        road_mirror_at(n2, road, ti),
{
    let j = choose|j: int|
        0 <= j < n1[road].nodes@.len() && (#[trigger] n1[road].nodes@[j]) == (NodeLink {
            node: NodeId(ti as usize),
            len: ROAD_TO_CAR,
            kind: TransportKind::Foot,
        });
    assert(n2[road].nodes@[j] == n1[road].nodes@[j]);
}

/// The road-mirror shape of the permanent nodes' extra links survives any
/// mutation that keeps permanent data and transient fields.
proof fn lemma_perm_links_preserved(n1: Seq<Node>, n2: Seq<Node>, nmap: Map<u64, NodeId>, perm: int)
    requires
        perm_links_road_mirrors(n1, nmap, perm),
        perm <= n1.len(),
        n2.len() >= n1.len(),
        forall|i: int| 0 <= i < perm ==> node_data_eq(#[trigger] n2[i], n1[i]),
        forall|t: int|
            perm <= t < n1.len() ==> (#[trigger] n2[t]).id == n1[t].id && (n1[t].kind is Car
                ==> n2[t].kind is Car),
    ensures
        perm_links_road_mirrors(n2, nmap, perm),
{
    assert forall|i: int, j: int|
        0 <= i < perm && 0 <= j < n2[i].nodes@.len() && (((#[trigger] n2[i].nodes@[j]).node.0
            as int) >= perm) implies ({
        let t = n2[i].nodes@[j].node.0 as int;
        &&& n2[i].nodes@[j].len == ROAD_TO_CAR
        &&& n2[i].nodes@[j].kind is Foot
        &&& t < n2.len()
        &&& n2[t].kind is Car
        &&& nmap.contains_key(n2[t].id)
        &&& (nmap[n2[t].id].0 as int) == i
    }) by {
        assert(node_data_eq(n2[i], n1[i]));
        assert(n2[i].nodes@[j] == n1[i].nodes@[j]);
        let t = n1[i].nodes@[j].node.0 as int;
        assert(t < n1.len());
        assert(n2[t].id == n1[t].id);
        assert(n2[t].kind is Car);
    }
}

/// Appending the road mirror of a freshly spliced car node keeps the
/// road-mirror shape of the permanent nodes' extra links.
proof fn lemma_perm_links_push_road(
    n1: Seq<Node>,
    n2: Seq<Node>,
    nmap: Map<u64, NodeId>,
    perm: int,
    road: usize,
    t: usize,
)
    requires
        perm_links_road_mirrors(n1, nmap, perm),
        perm <= n1.len(),
        n2.len() == n1.len(),
        0 <= (road as int) < perm,
        perm <= (t as int) < n1.len(),
        forall|i: int|
            0 <= i < perm && i != road as int ==> node_data_eq(#[trigger] n2[i], n1[i]),
        forall|i: int| perm <= i < n1.len() ==> node_fields_eq(#[trigger] n2[i], n1[i]),
        node_fields_eq(n2[road as int], n1[road as int]),
        n2[road as int].nodes@ == n1[road as int].nodes@.push(
            NodeLink { node: NodeId(t), len: ROAD_TO_CAR, kind: TransportKind::Foot },
        ),
        n2[t as int].kind is Car,
        nmap.contains_key(n2[t as int].id),
        (nmap[n2[t as int].id].0 as int) == road as int,
    ensures
        perm_links_road_mirrors(n2, nmap, perm),
{
    assert forall|i: int, j: int|
        0 <= i < perm && 0 <= j < n2[i].nodes@.len() && (((#[trigger] n2[i].nodes@[j]).node.0
            as int) >= perm) implies ({
        let tt = n2[i].nodes@[j].node.0 as int;
        &&& n2[i].nodes@[j].len == ROAD_TO_CAR
        &&& n2[i].nodes@[j].kind is Foot
        &&& tt < n2.len()
        &&& n2[tt].kind is Car
        &&& nmap.contains_key(n2[tt].id)
        &&& (nmap[n2[tt].id].0 as int) == i
    }) by {
        if i == road as int && j == n1[road as int].nodes@.len() {
            assert(n2[i].nodes@[j] == (NodeLink {
                node: NodeId(t),
                len: ROAD_TO_CAR,
                kind: TransportKind::Foot,
            }));
            assert((n2[i].nodes@[j].node.0 as int) == t as int);
        } else {
            if i == road as int {
                assert(n2[i].nodes@[j] == n1[i].nodes@[j]);
            } else {
                assert(node_data_eq(n2[i], n1[i]));
                assert(n2[i].nodes@[j] == n1[i].nodes@[j]);
            }
            let tt = n1[i].nodes@[j].node.0 as int;
            assert(n1[i].nodes@[j].len == ROAD_TO_CAR && n1[i].nodes@[j].kind is Foot && tt
                < n1.len() && n1[tt].kind is Car && nmap.contains_key(n1[tt].id) && (nmap[n1[
            tt].id].0 as int) == i);
            assert(perm <= tt);
            assert(node_fields_eq(n2[tt], n1[tt]));
            assert(n2[tt].kind is Car);
            assert(n2[tt].id == n1[tt].id);
        }
    }
}

/// The permanent prefix of `a` carries the data of `base` plus only links
/// pointing into the transient region.
pub open spec fn prefix_intact(a: RoadGraph, base: RoadGraph) -> bool {
    &&& forall|i: int|
        0 <= i < base.nodes@.len() ==> node_fields_eq(#[trigger] a.nodes@[i], base.nodes@[i])
    &&& forall|i: int|
        0 <= i < base.nodes@.len() ==> links_below(
            (#[trigger] a.nodes@[i]).nodes@,
            base.nodes@.len() as int,
        ) == base.nodes@[i].nodes@
}

/// A prefix-preserving mutation (one that leaves every permanent node's
/// data untouched) keeps the permanent prefix intact.
proof fn lemma_prefix_intact_data_eq(a: RoadGraph, b: RoadGraph, base: RoadGraph)
    requires
        prefix_intact(b, base),
        a.nodes@.len() >= base.nodes@.len(),
        forall|i: int|
            0 <= i < base.nodes@.len() ==> node_data_eq(#[trigger] a.nodes@[i], b.nodes@[i]),
    ensures
        prefix_intact(a, base),
{
    assert forall|i: int| 0 <= i < base.nodes@.len() implies node_fields_eq(
        #[trigger] a.nodes@[i],
        base.nodes@[i],
    ) && links_below((a.nodes@[i]).nodes@, base.nodes@.len() as int) == base.nodes@[i].nodes@ by {
        assert(node_data_eq(a.nodes@[i], b.nodes@[i]));
        assert(node_fields_eq(b.nodes@[i], base.nodes@[i]));
        assert(links_below(b.nodes@[i].nodes@, base.nodes@.len() as int) == base.nodes@[i].nodes@);
    }
}

/// Great-circle distance in centimeters between schedule points `q - 1`
/// and `q` of one carpool schedule.
pub open spec fn spec_hop_cm(cp: PlainMapCarPath, q: int) -> int {
    crate::geo::spec_distance_cm(
        cp.path@[q - 1].lat as int,
        cp.path@[q - 1].lon as int,
        cp.path@[q].lat as int,
        cp.path@[q].lon as int,
    )
}

/// Scheduled arrival time in milliseconds of point `q` of schedule `cp`,
/// relative to the query departure `start_at` (seconds): the schedule's
/// start offset, plus its point-to-point car travel times at 50 km/h,
/// accumulated in order and clamped at the top of the i64 range.
pub open spec fn spec_sched_eta(cp: PlainMapCarPath, start_at: int, q: int) -> int
    decreases q,
{
    if q <= 0 {
        (cp.start_at - start_at) * 1000
    } else {
        let prev = spec_sched_eta(cp, start_at, q - 1);
        let hop = crate::geo::spec_travel_time_ms(spec_hop_cm(cp, q), 50);
        if prev + hop > i64::MAX {
            i64::MAX as int
        } else {
            prev + hop
        }
    }
}

/// Arena index of the transient car node made for point `q` of schedule
/// `c`: the permanent arena, then every schedule's points in order.
pub open spec fn sched_node_idx(perm: int, cps: Seq<PlainMapCarPath>, c: int, q: int) -> int {
    perm + total_sched_points(cps.take(c)) + q
}

/// The links of that transient node while its successor is not yet
/// spliced: the flat-penalty foot link to its own road node, then, past
/// the first point, the car link back to its predecessor.
pub open spec fn sched_node_links_open(
    perm: int,
    nmap: Map<u64, NodeId>,
    cps: Seq<PlainMapCarPath>,
    c: int,
    q: int,
) -> Seq<NodeLink> {
    let road = NodeLink {
        node: nmap[cps[c].path@[q].id],
        len: ROAD_TO_CAR,
        kind: TransportKind::Foot,
    };
    let back = NodeLink {
        node: NodeId((sched_node_idx(perm, cps, c, q) - 1) as usize),
        len: spec_hop_cm(cps[c], q) as u32,
        kind: TransportKind::Car,
    };
    if q == 0 {
        seq![road]
    } else {
        seq![road, back]
    }
}

/// The exact links of that transient node once its schedule is fully
/// spliced: the open links, then the car link on to its successor where
/// one exists.
pub open spec fn sched_node_links(
    perm: int,
    nmap: Map<u64, NodeId>,
    cps: Seq<PlainMapCarPath>,
    c: int,
    q: int,
) -> Seq<NodeLink> {
    let on = NodeLink {
        node: NodeId((sched_node_idx(perm, cps, c, q) + 1) as usize),
        len: spec_hop_cm(cps[c], q + 1) as u32,
        kind: TransportKind::Car,
    };
    if q == cps[c].path@.len() - 1 {
        sched_node_links_open(perm, nmap, cps, c, q)
    } else {
        sched_node_links_open(perm, nmap, cps, c, q).push(on)
    }
}

/// The transient car node of point `q` of schedule `c` carries exactly
/// the point's identity, the accumulated timetable, and the full splice
/// wiring.
pub open spec fn sched_spliced(
    nodes: Seq<Node>,
    nmap: Map<u64, NodeId>,
    perm: int,
    start_at: int,
    cps: Seq<PlainMapCarPath>,
    c: int,
    q: int,
) -> bool {
    let ti = sched_node_idx(perm, cps, c, q);
    let p = cps[c].path@[q];
    &&& perm <= ti < nodes.len()
    &&& nodes[ti].id == p.id
    &&& nodes[ti].lat == p.lat
    &&& nodes[ti].lon == p.lon
    &&& nodes[ti].kind == (NodeKind::Car {
        eta: spec_sched_eta(cps[c], start_at, q) as i64,
        free_seats: 255u8,
        path_id: cps[c].id,
    })
    &&& nmap.contains_key(p.id)
    &&& (nmap[p.id].0 as int) < perm
    &&& nodes[ti].nodes@ == sched_node_links(perm, nmap, cps, c, q)
    &&& road_mirror_at(nodes, nmap[p.id].0 as int, ti)
}

/// The permanent road node holds the mirror of a transient's road link.
pub open spec fn road_mirror_at(nodes: Seq<Node>, road: int, ti: int) -> bool {
    exists|j: int|
        0 <= j < nodes[road].nodes@.len() && (#[trigger] nodes[road].nodes@[j]) == (NodeLink {
            node: NodeId(ti as usize),
            len: ROAD_TO_CAR,
            kind: TransportKind::Foot,
        })
}

/// The same node while its schedule is still being spliced: identity and
/// timetable in place, successor link not yet there.
pub open spec fn sched_open(
    nodes: Seq<Node>,
    nmap: Map<u64, NodeId>,
    perm: int,
    start_at: int,
    cps: Seq<PlainMapCarPath>,
    c: int,
    q: int,
) -> bool {
    let ti = sched_node_idx(perm, cps, c, q);
    let p = cps[c].path@[q];
    &&& perm <= ti < nodes.len()
    &&& nodes[ti].id == p.id
    &&& nodes[ti].lat == p.lat
    &&& nodes[ti].lon == p.lon
    &&& nodes[ti].kind == (NodeKind::Car {
        eta: spec_sched_eta(cps[c], start_at, q) as i64,
        free_seats: 255u8,
        path_id: cps[c].id,
    })
    &&& nmap.contains_key(p.id)
    &&& (nmap[p.id].0 as int) < perm
    &&& nodes[ti].nodes@ == sched_node_links_open(perm, nmap, cps, c, q)
    &&& road_mirror_at(nodes, nmap[p.id].0 as int, ti)
}

/// Every link a permanent node gained during splicing is the mirror of a
/// transient car node's road link: flat foot penalty, pointing at a car
/// node whose schedule point snapped onto this very node.
pub open spec fn perm_links_road_mirrors(nodes: Seq<Node>, nmap: Map<u64, NodeId>, perm: int) -> bool {
    forall|i: int, j: int|
        0 <= i < perm && 0 <= j < nodes[i].nodes@.len() && (((#[trigger] nodes[i].nodes@[j]).node.0
            as int) >= perm) ==> {
            let t = nodes[i].nodes@[j].node.0 as int;
            &&& nodes[i].nodes@[j].len == ROAD_TO_CAR
            &&& nodes[i].nodes@[j].kind is Foot
            &&& t < nodes.len()
            &&& nodes[t].kind is Car
            &&& nmap.contains_key(nodes[t].id)
            &&& (nmap[nodes[t].id].0 as int) == i
        }
}

/// The spliced graph a carpool query searches: the permanent graph kept
/// intact, its only new links the mirrors of the transients' road links,
/// plus one transient car node per schedule point at a fixed index,
/// carrying the accumulated timetable and the exact splice wiring.
pub open spec fn splice_ok(
    s: RoadGraph,
    base: RoadGraph,
    start_at: int,
    cps: Seq<PlainMapCarPath>,
) -> bool {
    let perm = base.nodes@.len() as int;
    &&& s.node_map@ == base.node_map@
    &&& s.nodes@.len() == perm + total_sched_points(cps)
    &&& s.additional_nodes_num as int == total_sched_points(cps)
    &&& prefix_intact(s, base)
    &&& perm_links_road_mirrors(s.nodes@, base.node_map@, perm)
    &&& forall|c: int, q: int|
        0 <= c < cps.len() && 0 <= q < cps[c].path@.len() ==> #[trigger] sched_spliced(
            s.nodes@,
            base.node_map@,
            perm,
            start_at,
            cps,
            c,
            q,
        )
}

/// Everything the carpool answer states of the spliced graph `s` it
/// searched: the two waypoints snapped onto it, the result admissible and
/// exactly priced over it, no admissible walk on it beating the result,
/// emptiness a proof that its snapped endpoints are not connected, and no
/// failure at all when `s` is a good graph.
pub open spec fn carpool_query_ok(
    s: RoadGraph,
    base: RoadGraph,
    start_at: int,
    cps: Seq<PlainMapCarPath>,
    pts: Seq<MapPoint>,
    n1: NodeId,
    n2: NodeId,
    r: Result<PathResult, RouteError>,
) -> bool {
    &&& splice_ok(s, base, start_at, cps)
    &&& closest_ok(s, TransportKind::Foot, pts[0], Some(n1))
    &&& closest_ok(s, TransportKind::Foot, pts[1], Some(n2))
    &&& (good_graph(s.nodes@) ==> r is Ok)
    &&& match r {
        Ok(pr) => {
            &&& (empty_result(pr) || (exists|trace: Seq<usize>|
                route_ok(s.nodes@, TransportKind::Foot, n1.0 as int, n2.0 as int, pr, trace)))
            &&& (empty_result(pr) ==> !(exists|walk: Seq<usize>, times: Seq<u64>|
                walk_ok(s.nodes@, TransportKind::Foot, walk, times, n1.0 as int, n2.0 as int)))
            &&& (forall|walk: Seq<usize>, times: Seq<u64>|
                walk_ok(s.nodes@, TransportKind::Foot, walk, times, n1.0 as int, n2.0 as int)
                    ==> !empty_result(pr) && (pr.total_time as int) <= times[times.len() - 1]
                    as int)
        },
        Err(e) => e is InconsistentPath,
    }
}

/// Some carpool schedule names a map node id that is not loaded.
pub open spec fn some_sched_id_missing(g: RoadGraph, cps: Seq<PlainMapCarPath>) -> bool {
    exists|c: int, p: int|
        0 <= c < cps.len() && 0 <= p < cps[c].path@.len() && !g.node_map@.contains_key(
            (#[trigger] cps[c].path@[p]).id,
        )
}

/// The waypoint has coordinates in the valid degree range.
pub open spec fn point_coord_ok(p: MapPoint) -> bool {
    valid_coord(p.lat as int, p.lon as int)
}

fn point_in_range(p: &MapPoint) -> (r: bool)
    ensures
        r == point_coord_ok(*p),
{
    p.lat >= -900_000_000 && p.lat <= 900_000_000 && p.lon >= -1_800_000_000 && p.lon
        <= 1_800_000_000
}

/// Squared planar distance between a waypoint and a node.
fn sq_dist(p: &MapPoint, n: &Node) -> (d: i128)
    requires
        point_coord_ok(*p),
        valid_coord(n.lat as int, n.lon as int),
    ensures
        d == spec_sq_dist(*p, *n),
{
    let dlat: i128 = (p.lat as i128) - (n.lat as i128);
    let dlon: i128 = (p.lon as i128) - (n.lon as i128);
    proof {
        assert(dlat * dlat <= 3_600_000_000 * 3_600_000_000) by (nonlinear_arith)
            requires
                -3_600_000_000 <= dlat <= 3_600_000_000,
        ;
        assert(dlon * dlon <= 3_600_000_000 * 3_600_000_000) by (nonlinear_arith)
            requires
                -3_600_000_000 <= dlon <= 3_600_000_000,
        ;
        assert(dlat * dlat >= 0) by (nonlinear_arith);
        assert(dlon * dlon >= 0) by (nonlinear_arith);
    }
    dlat * dlat + dlon * dlon
}

/// Whether the node touches an edge usable in the mode.
fn has_mode_link(n: &Node, kind: TransportKind) -> (r: bool)
    ensures
        r == exists|j: int|
            0 <= j < n.nodes@.len() && spec_mode_match(kind, (#[trigger] n.nodes@[j]).kind),
{
    let deg = n.nodes.len();
    let mut j: usize = 0;
    while j < deg
        invariant
            j <= deg,
            deg == n.nodes@.len(),
            forall|m: int| 0 <= m < j ==> !spec_mode_match(kind, (#[trigger] n.nodes@[m]).kind),
        decreases deg - j,
    {
        if kind.is_foot() || n.nodes[j].kind.is_car() {
            proof {
                assert(spec_mode_match(kind, n.nodes@[j as int].kind));
            }
            return true;
        }
        j = j + 1;
    }
    false
}

/// The engine: the built road graph and the queries over it.
pub struct MapService {
    pub graph: RoadGraph,
}

impl MapService {
    pub fn new() -> (s: Self)
        ensures
            s.graph.wf(),
            s.graph.nodes@.len() == 0,
            s.graph.additional_nodes_num == 0,
            s.graph.all_unreached(),
            s.graph.node_map@ == Map::<u64, NodeId>::empty(),
            ids_indexed(s.graph),
    {
        MapService { graph: RoadGraph::new() }
    }

    /// Whether any permanent node of the graph touches an edge usable in
    /// the mode; only such nodes are candidates for waypoint snapping.
    pub fn has_reachable_node(&self, kind: TransportKind) -> (r: bool)
        requires
            self.graph.wf(),
        ensures
            r == has_reachable(self.graph, kind),
    {
        let perm: usize = self.graph.nodes.len() - (self.graph.additional_nodes_num as usize);
        let mut i: usize = 0;
        while i < perm
            invariant
                perm == self.graph.perm_len(),
                self.graph.wf(),
                i <= perm,
                forall|x: int| 0 <= x < i ==> !(#[trigger] node_reachable(
                    self.graph.nodes@,
                    x,
                    kind,
                )),
            decreases perm - i,
        {
            if has_mode_link(&self.graph.nodes[i], kind) {
                proof {
                    assert(node_reachable(self.graph.nodes@, i as int, kind));
                }
                return true;
            }
            i = i + 1;
        }
        false
    }

    /// Builds a fresh graph from the map-data collaborator's output: one
    /// permanent plain node per map point (points with out-of-range
    /// coordinates are skipped), then one two-way edge per consecutive pair
    /// of each way's node chain, with the great-circle distance as length
    /// and the way's road-type classification as mode. Pairs naming an
    /// unknown or identical node are skipped, as are ways with fewer than
    /// two nodes. The wiring is exact from both sides: every active pair
    /// is wired both ways, every link is induced by some active pair, and
    /// the total link count is twice the number of active pairs, so no
    /// edge is duplicated or invented.
    #[verifier::rlimit(100)]
    pub fn load(&mut self, nodes: &Vec<MapPoint>, ways: &Vec<MapWay>)
        ensures
            final(self).graph.wf(),
            final(self).graph.additional_nodes_num == 0,
            final(self).graph.all_unreached(),
            ids_indexed(final(self).graph),
            final(self).graph.nodes@.len() == count_in_range(nodes@),
            nodes_from_points(final(self).graph.nodes@, nodes@),
            edges_measure_geo(final(self).graph.nodes@),
            forall|wi: int, k: int|
                #![trigger ways@[wi].node_ids@[k]]
                0 <= wi < ways@.len() && 1 <= k < ways@[wi].node_ids@.len() ==> way_pair_wired(
                    final(self).graph,
                    ways@[wi],
                    k,
                ),
            forall|j: int|
                0 <= j < nodes@.len() && point_coord_ok(#[trigger] nodes@[j])
                    ==> final(self).graph.node_map@.contains_key(nodes@[j].id),
            links_from_ways(final(self).graph.nodes@, final(self).graph.node_map@, ways@),
            degree_sum(final(self).graph.nodes@) == 2 * active_pairs(
                final(self).graph.node_map@,
                ways@,
                ways@.len() as int,
            ),
    {
        self.graph = RoadGraph::new();
        let n_nodes = nodes.len();
        let mut ni: usize = 0;
        while ni < n_nodes
            invariant
                self.graph.wf(),
                self.graph.additional_nodes_num == 0,
                self.graph.all_unreached(),
                ids_indexed(self.graph),
                n_nodes == nodes@.len(),
                ni <= n_nodes,
                self.graph.nodes@.len() == count_in_range(nodes@.take(ni as int)),
                nodes_from_points(self.graph.nodes@, nodes@),
                edges_measure_geo(self.graph.nodes@),
                forall|x: int|
                    0 <= x < self.graph.nodes@.len() ==> (
                    #[trigger] self.graph.nodes@[x]).nodes@.len() == 0,
                forall|j: int|
                    0 <= j < ni && point_coord_ok(#[trigger] nodes@[j])
                        ==> self.graph.node_map@.contains_key(nodes@[j].id),
            decreases n_nodes - ni,
        {
            let p: MapPoint = nodes[ni];
            proof {
                lemma_count_take_succ(nodes@, ni as int);
            }
            if point_in_range(&p) {
                let ghost pre = self.graph;
                let added = self.graph.add_map_point(&p);
                proof {
                    assert(point_matches(self.graph.nodes@[pre.nodes@.len() as int], nodes@[
                    ni as int]));
                    assert forall|x: int|
                        0 <= x < self.graph.nodes@.len() implies (
                    #[trigger] self.graph.nodes@[x]).nodes@.len() == 0 by {
                        if x < pre.nodes@.len() {
                            assert(node_data_eq(self.graph.nodes@[x], pre.nodes@[x]));
                        }
                    }
                    assert forall|i: int|
                        0 <= i < self.graph.nodes@.len() implies node_from_points(
                        #[trigger] self.graph.nodes@[i],
                        nodes@,
                    ) by {
                        if i < pre.nodes@.len() {
                            assert(node_from_points(pre.nodes@[i], nodes@));
                            let j = choose|j: int|
                                0 <= j < nodes@.len() && point_matches(
                                    pre.nodes@[i],
                                    #[trigger] nodes@[j],
                                );
                            assert(node_data_eq(self.graph.nodes@[i], pre.nodes@[i]));
                            assert(point_matches(self.graph.nodes@[i], nodes@[j]));
                        } else {
                            assert(point_matches(self.graph.nodes@[i], nodes@[ni as int]));
                        }
                    }
                    assert forall|k: u64| #[trigger] self.graph.node_map@.contains_key(
                        k,
                    ) implies (self.graph.node_map@[k].0 as int) < self.graph.nodes@.len()
                        && self.graph.nodes@[self.graph.node_map@[k].0 as int].id == k by {
                        if k != p.id {
                            assert(pre.node_map@.contains_key(k));
                            assert(node_data_eq(
                                self.graph.nodes@[pre.node_map@[k].0 as int],
                                pre.nodes@[pre.node_map@[k].0 as int],
                            ));
                        }
                    }
                    assert forall|i: int, j: int|
                        0 <= i < self.graph.nodes@.len() && 0 <= j
                            < self.graph.nodes@[i].nodes@.len() implies ({
                        let l = #[trigger] self.graph.nodes@[i].nodes@[j];
                        &&& (l.node.0 as int) < self.graph.nodes@.len()
                        &&& (l.len as int) == crate::geo::spec_distance_cm(
                            self.graph.nodes@[i].lat as int,
                            self.graph.nodes@[i].lon as int,
                            self.graph.nodes@[l.node.0 as int].lat as int,
                            self.graph.nodes@[l.node.0 as int].lon as int,
                        )
                    }) by {
                        assert(i < pre.nodes@.len());
                        assert(node_data_eq(self.graph.nodes@[i], pre.nodes@[i]));
                        let l = pre.nodes@[i].nodes@[j];
                        assert((l.node.0 as int) < pre.nodes@.len());
                        assert(node_data_eq(
                            self.graph.nodes@[l.node.0 as int],
                            pre.nodes@[l.node.0 as int],
                        ));
                    }
                }
            }
            ni = ni + 1;
        }
        proof {
            assert(nodes@.take(n_nodes as int) =~= nodes@);
            lemma_degree_sum_empty(self.graph.nodes@);
        }
        let ghost built = self.graph;
        let n_ways = ways.len();
        let mut wi: usize = 0;
        while wi < n_ways
            invariant
                self.graph.wf(),
                self.graph.additional_nodes_num == 0,
                self.graph.all_unreached(),
                ids_indexed(self.graph),
                n_ways == ways@.len(),
                wi <= n_ways,
                self.graph.nodes@.len() == built.nodes@.len(),
                self.graph.node_map@ == built.node_map@,
                forall|i: int|
                    0 <= i < self.graph.nodes@.len() ==> node_fields_eq(
                        #[trigger] self.graph.nodes@[i],
                        built.nodes@[i],
                    ),
                nodes_from_points(built.nodes@, nodes@),
                edges_measure_geo(self.graph.nodes@),
                links_from_ways(self.graph.nodes@, self.graph.node_map@, ways@),
                degree_sum(self.graph.nodes@) == 2 * active_pairs(
                    self.graph.node_map@,
                    ways@,
                    wi as int,
                ),
                forall|wi2: int, k2: int|
                    #![trigger ways@[wi2].node_ids@[k2]]
                    0 <= wi2 < wi && 1 <= k2 < ways@[wi2].node_ids@.len() ==> way_pair_wired(
                        self.graph,
                        ways@[wi2],
                        k2,
                    ),
            decreases n_ways - wi,
        {
            let way_kind = road_kind_of_highway(&ways[wi].highway_type);
            let n_chain = ways[wi].node_ids.len();
            if n_chain >= 2 {
                let mut k: usize = 1;
                while k < n_chain
                    invariant
                        self.graph.wf(),
                        self.graph.additional_nodes_num == 0,
                        self.graph.all_unreached(),
                        ids_indexed(self.graph),
                        wi < ways@.len(),
                        n_chain == ways@[wi as int].node_ids@.len(),
                        1 <= k <= n_chain,
                        self.graph.nodes@.len() == built.nodes@.len(),
                        self.graph.node_map@ == built.node_map@,
                        way_kind == spec_road_kind(ways@[wi as int].highway_type@),
                        forall|i: int|
                            0 <= i < self.graph.nodes@.len() ==> node_fields_eq(
                                #[trigger] self.graph.nodes@[i],
                                built.nodes@[i],
                            ),
                        edges_measure_geo(self.graph.nodes@),
                        links_from_ways(self.graph.nodes@, self.graph.node_map@, ways@),
                        degree_sum(self.graph.nodes@) == 2 * (active_pairs(
                            self.graph.node_map@,
                            ways@,
                            wi as int,
                        ) + active_pairs_in_way(
                            self.graph.node_map@,
                            ways@[wi as int],
                            k as int,
                        )),
                        forall|wi2: int, k2: int|
                            #![trigger ways@[wi2].node_ids@[k2]]
                            0 <= wi2 < wi && 1 <= k2 < ways@[wi2].node_ids@.len()
                                ==> way_pair_wired(self.graph, ways@[wi2], k2),
                        forall|k2: int|
                            #![trigger ways@[wi as int].node_ids@[k2]]
                            1 <= k2 < k ==> way_pair_wired(self.graph, ways@[wi as int], k2),
                    decreases n_chain - k,
                {
                    let a = self.graph.node_id_by_osm_id(ways[wi].node_ids[k - 1]);
                    let b = self.graph.node_id_by_osm_id(ways[wi].node_ids[k]);
                    match (a, b) {
                        (Some(na), Some(nb)) => {
                            if na.0 != nb.0 {
                                proof {
                                    assert(self.graph.node_wf(na.0 as int));
                                    assert(self.graph.node_wf(nb.0 as int));
                                }
                                let alat = self.graph.nodes[na.0].lat;
                                let alon = self.graph.nodes[na.0].lon;
                                let blat = self.graph.nodes[nb.0].lat;
                                let blon = self.graph.nodes[nb.0].lon;
                                let d = distance(alat, alon, blat, blon);
                                let ghost s_c = self.graph;
                                self.graph.connect_two_way(na, nb, d, way_kind);
                                proof {
                                    crate::geo::lemma_distance_symmetric(
                                        alat as int,
                                        alon as int,
                                        blat as int,
                                        blon as int,
                                    );
                                    assert forall|i: int, j: int|
                                        0 <= i < self.graph.nodes@.len() && 0 <= j
                                            < self.graph.nodes@[i].nodes@.len() implies ({
                                        let l = #[trigger] self.graph.nodes@[i].nodes@[j];
                                        &&& (l.node.0 as int) < self.graph.nodes@.len()
                                        &&& (l.len as int) == crate::geo::spec_distance_cm(
                                            self.graph.nodes@[i].lat as int,
                                            self.graph.nodes@[i].lon as int,
                                            self.graph.nodes@[l.node.0 as int].lat as int,
                                            self.graph.nodes@[l.node.0 as int].lon as int,
                                        )
                                    }) by {
                                        assert(node_fields_eq(
                                            self.graph.nodes@[i],
                                            s_c.nodes@[i],
                                        ));
                                        let l = self.graph.nodes@[i].nodes@[j];
                                        if i == na.0 as int && j == s_c.nodes@[i].nodes@.len() {
                                            assert(l.node.0 == nb.0 && l.len == d);
                                        } else if i == nb.0 as int && j == s_c.nodes@[
                                        i].nodes@.len() {
                                            assert(l.node.0 == na.0 && l.len == d);
                                        } else {
                                            assert(l == s_c.nodes@[i].nodes@[j]);
                                            assert((l.node.0 as int) < s_c.nodes@.len());
                                        }
                                        assert(node_fields_eq(
                                            self.graph.nodes@[l.node.0 as int],
                                            s_c.nodes@[l.node.0 as int],
                                        ));
                                    }
                                    assert forall|i: int|
                                        0 <= i < s_c.nodes@.len() implies links_extend(
                                        (#[trigger] self.graph.nodes@[i]).nodes@,
                                        s_c.nodes@[i].nodes@,
                                    ) by {
                                        if i != na.0 as int && i != nb.0 as int {
                                            assert(node_data_eq(
                                                self.graph.nodes@[i],
                                                s_c.nodes@[i],
                                            ));
                                        }
                                    }
                                    assert forall|kk: u64|
                                        #[trigger] s_c.node_map@.contains_key(kk) implies (
                                    s_c.node_map@[kk].0 as int) < s_c.nodes@.len() by {}
                                    assert forall|wi2: int, k2: int|
                                        #![trigger ways@[wi2].node_ids@[k2]]
                                        0 <= wi2 < wi && 1 <= k2 < ways@[wi2].node_ids@.len()
                                            implies way_pair_wired(
                                        self.graph,
                                        ways@[wi2],
                                        k2,
                                    ) by {
                                        lemma_pair_wired_extend(
                                            s_c,
                                            self.graph,
                                            ways@[wi2],
                                            k2,
                                        );
                                    }
                                    assert forall|k2: int|
                                        #![trigger ways@[wi as int].node_ids@[k2]]
                                        1 <= k2 < k implies way_pair_wired(
                                        self.graph,
                                        ways@[wi as int],
                                        k2,
                                    ) by {
                                        lemma_pair_wired_extend(
                                            s_c,
                                            self.graph,
                                            ways@[wi as int],
                                            k2,
                                        );
                                    }
                                    // The pair just connected is wired by
                                    // the two links pushed.
                                    assert(self.graph.node_map@.contains_key(
                                        ways@[wi as int].node_ids@[k - 1],
                                    ) && self.graph.node_map@[ways@[wi as int].node_ids@[k
                                        - 1]] == na);
                                    assert(self.graph.node_map@.contains_key(
                                        ways@[wi as int].node_ids@[k as int],
                                    ) && self.graph.node_map@[ways@[wi as int].node_ids@[
                                    k as int]] == nb);
                                    assert(self.graph.nodes@[na.0 as int].nodes@[s_c.nodes@[
                                    na.0 as int].nodes@.len() as int] == (NodeLink {
                                        node: nb,
                                        len: d,
                                        kind: way_kind,
                                    }));
                                    assert(wired(
                                        self.graph.nodes@,
                                        na.0 as int,
                                        nb.0 as int,
                                        way_kind,
                                    ));
                                    assert(self.graph.nodes@[nb.0 as int].nodes@[s_c.nodes@[
                                    nb.0 as int].nodes@.len() as int] == (NodeLink {
                                        node: na,
                                        len: d,
                                        kind: way_kind,
                                    }));
                                    assert(wired(
                                        self.graph.nodes@,
                                        nb.0 as int,
                                        na.0 as int,
                                        way_kind,
                                    ));
                                    assert(way_pair_wired(
                                        self.graph,
                                        ways@[wi as int],
                                        k as int,
                                    ));
                                    // The two links just pushed are induced
                                    // by this very pair, and the link total
                                    // advances in step with the pair count.
                                    lemma_connect_counts(
                                        s_c.nodes@,
                                        self.graph.nodes@,
                                        self.graph.node_map@,
                                        ways@,
                                        wi as int,
                                        k as int,
                                        na,
                                        nb,
                                        d,
                                        way_kind,
                                    );
                                    assert(active_pairs_in_way(
                                        self.graph.node_map@,
                                        ways@[wi as int],
                                        k + 1,
                                    ) == active_pairs_in_way(
                                        self.graph.node_map@,
                                        ways@[wi as int],
                                        k as int,
                                    ) + 1);
                                }
                            } else {
                                proof {
                                    assert(self.graph.node_map@[ways@[wi as int].node_ids@[k
                                        - 1]].0 == self.graph.node_map@[ways@[wi as
                                        int].node_ids@[k as int]].0);
                                    assert(way_pair_wired(
                                        self.graph,
                                        ways@[wi as int],
                                        k as int,
                                    ));
                                    assert(!pair_active(
                                        self.graph.node_map@,
                                        ways@[wi as int],
                                        k as int,
                                    ));
                                    assert(active_pairs_in_way(
                                        self.graph.node_map@,
                                        ways@[wi as int],
                                        k + 1,
                                    ) == active_pairs_in_way(
                                        self.graph.node_map@,
                                        ways@[wi as int],
                                        k as int,
                                    ));
                                }
                            }
                        },
                        _ => {
                            proof {
                                assert(!(self.graph.node_map@.contains_key(
                                    ways@[wi as int].node_ids@[k - 1],
                                ) && self.graph.node_map@.contains_key(
                                    ways@[wi as int].node_ids@[k as int],
                                )));
                                assert(way_pair_wired(self.graph, ways@[wi as int], k as int));
                                assert(!pair_active(
                                    self.graph.node_map@,
                                    ways@[wi as int],
                                    k as int,
                                ));
                                assert(active_pairs_in_way(
                                    self.graph.node_map@,
                                    ways@[wi as int],
                                    k + 1,
                                ) == active_pairs_in_way(
                                    self.graph.node_map@,
                                    ways@[wi as int],
                                    k as int,
                                ));
                            }
                        },
                    }
                    k = k + 1;
                }
            }
            wi = wi + 1;
        }
        proof {
            assert forall|i: int|
                0 <= i < self.graph.nodes@.len() implies node_from_points(
                #[trigger] self.graph.nodes@[i],
                nodes@,
            ) by {
                assert(node_from_points(built.nodes@[i], nodes@));
                let j = choose|j: int|
                    0 <= j < nodes@.len() && point_matches(built.nodes@[i], #[trigger] nodes@[j]);
                assert(node_fields_eq(self.graph.nodes@[i], built.nodes@[i]));
                assert(point_matches(self.graph.nodes@[i], nodes@[j]));
            }
            assert(nodes_from_points(self.graph.nodes@, nodes@));
        }
    }

    /// For each waypoint, the nearest permanent node reachable in the
    /// mode, by squared planar coordinate distance; the earliest-added
    /// node wins ties.
    fn get_closest_list(&self, points: &Vec<MapPoint>, kind: TransportKind) -> (r: Vec<
        Option<NodeId>,
    >)
        requires
            self.graph.wf(),
            forall|i: int| 0 <= i < points@.len() ==> point_coord_ok(#[trigger] points@[i]),
        ensures
            r@.len() == points@.len(),
            forall|i: int|
                0 <= i < points@.len() ==> closest_ok(self.graph, kind, points@[i], #[trigger] r@[i]),
    {
        let perm: usize = self.graph.nodes.len() - (self.graph.additional_nodes_num as usize);
        let mut out: Vec<Option<NodeId>> = Vec::new();
        let n_points = points.len();
        let mut pi: usize = 0;
        while pi < n_points
            invariant
                self.graph.wf(),
                perm == self.graph.perm_len(),
                n_points == points@.len(),
                forall|i: int| 0 <= i < points@.len() ==> point_coord_ok(#[trigger] points@[i]),
                pi <= n_points,
                out@.len() == pi,
                forall|i: int|
                    0 <= i < pi ==> closest_ok(self.graph, kind, points@[i], #[trigger] out@[i]),
            decreases n_points - pi,
        {
            let p: MapPoint = points[pi];
            let mut best: Option<NodeId> = None;
            let mut best_d: i128 = 0;
            let mut idx: usize = 0;
            while idx < perm
                invariant
                    self.graph.wf(),
                    perm == self.graph.perm_len(),
                    point_coord_ok(p),
                    idx <= perm,
                    match best {
                        Some(nid) => (nid.0 as int) < perm && node_reachable(
                            self.graph.nodes@,
                            nid.0 as int,
                            kind,
                        ) && best_d == spec_sq_dist(p, self.graph.nodes@[nid.0 as int]) && (
                        forall|x: int|
                            0 <= x < idx && #[trigger] node_reachable(self.graph.nodes@, x, kind)
                                ==> best_d <= spec_sq_dist(p, self.graph.nodes@[x])),
                        None => forall|x: int| 0 <= x < idx ==> !(#[trigger] node_reachable(
                            self.graph.nodes@,
                            x,
                            kind,
                        )),
                    },
                decreases perm - idx,
            {
                proof {
                    assert(self.graph.node_wf(idx as int));
                }
                if has_mode_link(&self.graph.nodes[idx], kind) {
                    let d = sq_dist(&p, &self.graph.nodes[idx]);
                    let better = match best {
                        Option::None => true,
                        Option::Some(_) => best_d > d,
                    };
                    if better {
                        best = Some(NodeId(idx));
                        best_d = d;
                    }
                }
                idx = idx + 1;
            }
            out.push(best);
            pi = pi + 1;
        }
        out
    }

    /// Answers a multi-waypoint by-car route: each waypoint snaps to the
    /// nearest car-reachable node, the per-pair searches run in order, and
    /// the segments are stitched into one route, re-basing each segment's
    /// cumulative time and distance onto the running totals and dropping
    /// the duplicated boundary point. An unreachable segment contributes
    /// nothing. The graph leaves exactly as it entered. The contract
    /// exhibits the snapped nodes and the per-pair segments
    /// (`stitched_route_ok`): each segment optimal between its snaps and
    /// empty only on unreachability, and the answer exactly their stitch,
    /// so a single waypoint yields just its snapped point with zero
    /// totals.
    pub fn build_path_rust(&mut self, points: &Vec<MapPoint>) -> (r: Result<
        PathResult,
        RouteError,
    >)
        requires
            old(self).graph.wf(),
            old(self).graph.additional_nodes_num == 0,
            old(self).graph.all_unreached(),
            points@.len() >= 1,
            forall|i: int| 0 <= i < points@.len() ==> point_coord_ok(#[trigger] points@[i]),
            has_reachable(old(self).graph, TransportKind::Car),
        ensures
            final(self).graph.wf(),
            final(self).graph.all_unreached(),
            graph_preserved(final(self).graph, old(self).graph),
            good_graph(old(self).graph.nodes@) ==> r is Ok,
            match r {
                Ok(pr) => {
                    &&& lists_monotone(pr)
                    &&& points_on_graph(pr.points@, old(self).graph.nodes@)
                    &&& exists|snaps: Seq<NodeId>, segs: Seq<PathResult>|
                        #[trigger] stitched_route_ok(old(self).graph, points@, snaps, segs, pr)
                },
                Err(e) => e is InconsistentPath,
            },
    {
        let ghost g0 = self.graph;
        let closest = self.get_closest_list(points, TransportKind::Car);
        proof {
            assert forall|m: int| 0 <= m < points@.len() implies (#[trigger] closest@[m])
                is Some by {
                if closest@[m] is None {
                    let wi = choose|x: int|
                        0 <= x < g0.perm_len() && #[trigger] node_reachable(
                            g0.nodes@,
                            x,
                            TransportKind::Car,
                        );
                    assert(false);
                }
            }
        }
        let ghost snaps: Seq<NodeId> = Seq::new(points@.len(), |m: int| closest@[m]->Some_0);
        proof {
            assert forall|m: int| 0 <= m < points@.len() implies closest@[m] == Some(
                #[trigger] snaps[m],
            ) by {
                assert(closest@[m] is Some);
            }
        }
        let first: NodeId = match closest[0] {
            Some(nid) => nid,
            None => {
                proof {
                    let wi = choose|i: int|
                        0 <= i < g0.perm_len() && #[trigger] node_reachable(
                            g0.nodes@,
                            i,
                            TransportKind::Car,
                        );
                    assert(false);
                }
                vstd::pervasive::unreached()
            },
        };
        let mut result = PathResult {
            total_time: 0,
            total_distance: 0,
            points: Vec::new(),
            eta_list: Vec::new(),
            distance_list: Vec::new(),
        };
        result.points.push(MapPoint::from_node(self.graph.node(first)));
        result.eta_list.push(0);
        result.distance_list.push(0);
        let ghost first_pt = crate::graph::spec_point_of(g0.nodes@[first.0 as int]);
        let ghost mut segs: Seq<PathResult> = Seq::empty();
        proof {
            assert(closest_ok(g0, TransportKind::Car, points@[0], Some(first)));
            assert(result.points@[0] == crate::graph::spec_point_of(
                g0.nodes@[first.0 as int],
            ));
            assert(point_on_graph(result.points@[0], g0.nodes@));
            assert(points_on_graph(result.points@, g0.nodes@));
            assert(snaps[0] == first);
            assert(result.points@ =~= stitch_points(first_pt, segs));
            assert(result.eta_list@ =~= stitch_etas(segs));
            assert(result.distance_list@ =~= stitch_dists(segs));
            assert(matches_stitch(result, first_pt, segs));
        }
        let mut prev: NodeId = first;
        let n_pts = points.len();
        let mut i: usize = 1;
        while i < n_pts
            invariant
                self.graph.wf(),
                self.graph.additional_nodes_num == 0,
                self.graph.all_unreached(),
                graph_preserved(self.graph, g0),
                g0 == old(self).graph,
                g0.wf(),
                g0.additional_nodes_num == 0,
                n_pts == points@.len(),
                1 <= i <= n_pts,
                closest@.len() == points@.len(),
                forall|m: int|
                    0 <= m < points@.len() ==> closest_ok(
                        g0,
                        TransportKind::Car,
                        points@[m],
                        #[trigger] closest@[m],
                    ),
                has_reachable(g0, TransportKind::Car),
                prev.0 < self.graph.nodes@.len(),
                result.points@.len() == result.eta_list@.len(),
                result.points@.len() == result.distance_list@.len(),
                result.points@.len() >= 1,
                first.0 < g0.nodes@.len(),
                closest_ok(g0, TransportKind::Car, points@[0], Some(first)),
                result.points@[0] == crate::graph::spec_point_of(g0.nodes@[first.0 as int]),
                points_on_graph(result.points@, g0.nodes@),
                result.eta_list@[0] == 0,
                result.distance_list@[0] == 0,
                result.total_time == result.eta_list@[result.eta_list@.len() - 1],
                result.total_distance == result.distance_list@[result.distance_list@.len() - 1],
                forall|m: int|
                    0 <= m < result.eta_list@.len() - 1 ==> #[trigger] result.eta_list@[m]
                        <= result.eta_list@[m + 1],
                forall|m: int|
                    0 <= m < result.distance_list@.len() - 1 ==> #[trigger] result.distance_list@[m]
                        <= result.distance_list@[m + 1],
                snaps.len() == points@.len(),
                forall|m: int|
                    0 <= m < points@.len() ==> closest@[m] == Some(#[trigger] snaps[m]),
                snaps[0] == first,
                prev == snaps[i - 1],
                segs.len() == i - 1,
                forall|m: int|
                    0 <= m < segs.len() ==> seg_search_ok(
                        g0.nodes@,
                        TransportKind::Car,
                        snaps[m],
                        snaps[m + 1],
                        #[trigger] segs[m],
                    ),
                first_pt == crate::graph::spec_point_of(g0.nodes@[first.0 as int]),
                matches_stitch(result, first_pt, segs),
            decreases n_pts - i,
        {
            let curr: NodeId = match closest[i] {
                Some(nid) => nid,
                None => {
                    proof {
                        let wi = choose|x: int|
                            0 <= x < g0.perm_len() && #[trigger] node_reachable(
                                g0.nodes@,
                                x,
                                TransportKind::Car,
                            );
                        assert(false);
                    }
                    vstd::pervasive::unreached()
                },
            };
            proof {
                assert(closest@[i as int] == Some(snaps[i as int]));
                assert(curr == snaps[i as int]);
            }
            let ghost pre = self.graph;
            let seg = match self.graph.shortest_path(prev, curr, TransportKind::Car) {
                Ok(s) => s,
                Err(e) => {
                    proof {
                        lemma_teardown_exact(pre, self.graph);
                        assert forall|m: int|
                            0 <= m < g0.nodes@.len() implies node_data_eq(
                            #[trigger] self.graph.nodes@[m],
                            g0.nodes@[m],
                        ) by {
                            assert(node_data_eq(self.graph.nodes@[m], pre.nodes@[m]));
                            assert(node_data_eq(pre.nodes@[m], g0.nodes@[m]));
                        }
                        assert(self.graph.nodes@.len() == g0.nodes@.len());
                        assert(self.graph.node_map@ == g0.node_map@);
                        assert(self.graph.additional_nodes_num == g0.additional_nodes_num);
                        assert(self.graph.etas@.len() == g0.etas@.len());
                        assert(graph_preserved(self.graph, g0));
                        if good_graph(g0.nodes@) {
                            assert forall|i2: int, j2: int|
                                0 <= i2 < g0.nodes@.len() && 0 <= j2 < g0.nodes@[
                            i2].nodes@.len() implies ((#[trigger] g0.nodes@[i2].nodes@[
                            j2]).node.0 as int) < g0.nodes@.len() by {
                                assert(g0.node_wf(i2));
                                assert(g0.link_wf(i2, j2));
                            }
                            lemma_good_graph_data_eq(g0.nodes@, pre.nodes@);
                            assert(false);
                        }
                    }
                    return Err(e);
                },
            };
            proof {
                lemma_teardown_exact(pre, self.graph);
                assert forall|m: int|
                    0 <= m < g0.nodes@.len() implies node_data_eq(
                    #[trigger] self.graph.nodes@[m],
                    g0.nodes@[m],
                ) by {
                    assert(node_data_eq(self.graph.nodes@[m], pre.nodes@[m]));
                    assert(node_data_eq(pre.nodes@[m], g0.nodes@[m]));
                }
                if seg.points@.len() > 0 {
                    let trace = choose|trace: Seq<usize>|
                        route_ok(
                            pre.nodes@,
                            TransportKind::Car,
                            prev.0 as int,
                            curr.0 as int,
                            seg,
                            trace,
                        );
                    lemma_route_lists(
                        pre.nodes@,
                        TransportKind::Car,
                        prev.0 as int,
                        curr.0 as int,
                        seg,
                        trace,
                    );
                    assert forall|m2: int|
                        0 <= m2 < seg.points@.len() implies point_on_graph(
                        #[trigger] seg.points@[m2],
                        g0.nodes@,
                    ) by {
                        assert(seg.points@[m2] == crate::graph::spec_point_of(
                            pre.nodes@[trace[m2] as int],
                        ));
                        assert(node_data_eq(
                            pre.nodes@[trace[m2] as int],
                            g0.nodes@[trace[m2] as int],
                        ));
                        assert(seg.points@[m2] == crate::graph::spec_point_of(
                            g0.nodes@[trace[m2] as int],
                        ));
                    }
                }
                assert(points_on_graph(seg.points@, g0.nodes@));
                // The per-pair answer keeps its meaning over the original
                // node data: route validity, absence and optimality all
                // transfer along the data-preserving restore.
                assert forall|m: int| 0 <= m < g0.nodes@.len() implies node_data_eq(
                    g0.nodes@[m],
                    #[trigger] pre.nodes@[m],
                ) by {
                    assert(node_data_eq(pre.nodes@[m], g0.nodes@[m]));
                }
                if !empty_result(seg) {
                    let trace = choose|trace: Seq<usize>|
                        route_ok(
                            pre.nodes@,
                            TransportKind::Car,
                            prev.0 as int,
                            curr.0 as int,
                            seg,
                            trace,
                        );
                    crate::graph::lemma_route_ok_data_eq(
                        pre.nodes@,
                        g0.nodes@,
                        TransportKind::Car,
                        prev.0 as int,
                        curr.0 as int,
                        seg,
                        trace,
                    );
                } else {
                    if exists|walk: Seq<usize>, times: Seq<u64>|
                        walk_ok(
                            g0.nodes@,
                            TransportKind::Car,
                            walk,
                            times,
                            prev.0 as int,
                            curr.0 as int,
                        ) {
                        let (w, ts) = choose|w: Seq<usize>, ts: Seq<u64>|
                            walk_ok(
                                g0.nodes@,
                                TransportKind::Car,
                                w,
                                ts,
                                prev.0 as int,
                                curr.0 as int,
                            );
                        crate::graph::lemma_walk_ok_data_eq(
                            g0.nodes@,
                            pre.nodes@,
                            TransportKind::Car,
                            w,
                            ts,
                            prev.0 as int,
                            curr.0 as int,
                        );
                        assert(false);
                    }
                }
                assert forall|w: Seq<usize>, ts: Seq<u64>|
                    walk_ok(
                        g0.nodes@,
                        TransportKind::Car,
                        w,
                        ts,
                        prev.0 as int,
                        curr.0 as int,
                    ) implies !empty_result(seg) && (seg.total_time as int) <= ts[ts.len() - 1]
                    as int by {
                    crate::graph::lemma_walk_ok_data_eq(
                        g0.nodes@,
                        pre.nodes@,
                        TransportKind::Car,
                        w,
                        ts,
                        prev.0 as int,
                        curr.0 as int,
                    );
                }
                assert(seg_search_ok(g0.nodes@, TransportKind::Car, prev, curr, seg));
            }
            let prev_tt = result.total_time;
            let prev_td = result.total_distance;
            let segk = seg.points.len();
            let ghost base_len = result.points@.len();
            let ghost b_points = result.points@;
            let ghost b_etas = result.eta_list@;
            let ghost b_dists = result.distance_list@;
            if segk > 0 {
                let mut si: usize = 1;
                proof {
                    assert(result.points@ =~= b_points + seg.points@.subrange(1, 1));
                    assert(result.eta_list@ =~= b_etas + seg.eta_list@.subrange(1, 1).map_values(
                        |e: u64| crate::graph::spec_sat_add(prev_tt, e),
                    ));
                    assert(result.distance_list@ =~= b_dists + seg.distance_list@.subrange(
                        1,
                        1,
                    ).map_values(|e: u64| crate::graph::spec_sat_add(prev_td, e)));
                }
                while si < segk
                    invariant
                        1 <= si <= segk,
                        seg.points@.len() == seg.eta_list@.len(),
                        seg.points@.len() == seg.distance_list@.len(),
                        result.points@ == b_points + seg.points@.subrange(1, si as int),
                        result.eta_list@ == b_etas + seg.eta_list@.subrange(
                            1,
                            si as int,
                        ).map_values((|e: u64| crate::graph::spec_sat_add(prev_tt, e))),
                        result.distance_list@ == b_dists + seg.distance_list@.subrange(
                            1,
                            si as int,
                        ).map_values((|e: u64| crate::graph::spec_sat_add(prev_td, e))),
                        segk == seg.points@.len(),
                        lists_consistent(seg),
                        points_on_graph(seg.points@, g0.nodes@),
                        points_on_graph(result.points@, g0.nodes@),
                        result.points@[0] == crate::graph::spec_point_of(
                            g0.nodes@[first.0 as int],
                        ),
                        first.0 < g0.nodes@.len(),
                        result.points@.len() == base_len + si - 1,
                        base_len >= 1,
                        result.points@.len() == result.eta_list@.len(),
                        result.points@.len() == result.distance_list@.len(),
                        result.eta_list@[0] == 0,
                        result.distance_list@[0] == 0,
                        forall|m: int|
                            0 <= m < result.eta_list@.len() - 1 ==> #[trigger] result.eta_list@[m]
                                <= result.eta_list@[m + 1],
                        forall|m: int|
                            0 <= m < result.distance_list@.len() - 1
                                ==> #[trigger] result.distance_list@[m] <= result.distance_list@[m
                                + 1],
                        result.eta_list@[result.eta_list@.len() - 1] == (if si == 1 {
                            prev_tt
                        } else {
                            crate::graph::spec_sat_add(prev_tt, seg.eta_list@[si - 1])
                        }),
                        result.distance_list@[result.distance_list@.len() - 1] == (if si == 1 {
                            prev_td
                        } else {
                            crate::graph::spec_sat_add(prev_td, seg.distance_list@[si - 1])
                        }),
                    decreases segk - si,
                {
                    let ghost rp0 = result.points@;
                    result.points.push(seg.points[si]);
                    result.eta_list.push(prev_tt.saturating_add(seg.eta_list[si]));
                    result.distance_list.push(prev_td.saturating_add(seg.distance_list[si]));
                    proof {
                        assert forall|m2: int|
                            0 <= m2 < result.points@.len() implies point_on_graph(
                            #[trigger] result.points@[m2],
                            g0.nodes@,
                        ) by {
                            if m2 < rp0.len() {
                                assert(result.points@[m2] == rp0[m2]);
                                assert(point_on_graph(rp0[m2], g0.nodes@));
                            } else {
                                assert(result.points@[m2] == seg.points@[si as int]);
                                assert(point_on_graph(seg.points@[si as int], g0.nodes@));
                            }
                        }
                        assert(result.points@ =~= b_points + seg.points@.subrange(
                            1,
                            si + 1,
                        ));
                        assert(result.eta_list@ =~= b_etas + seg.eta_list@.subrange(
                            1,
                            si + 1,
                        ).map_values((|e: u64| crate::graph::spec_sat_add(prev_tt, e))));
                        assert(result.distance_list@ =~= b_dists + seg.distance_list@.subrange(
                            1,
                            si + 1,
                        ).map_values((|e: u64| crate::graph::spec_sat_add(prev_td, e))));
                    }
                    si = si + 1;
                }
            }
            result.total_time = prev_tt.saturating_add(seg.total_time);
            result.total_distance = prev_td.saturating_add(seg.total_distance);
            proof {
                let segs2 = segs.push(seg);
                assert(segs2.drop_last() =~= segs);
                assert(segs2.last() == seg);
                assert(stitch_total_time(segs2) == crate::graph::spec_sat_add(
                    stitch_total_time(segs),
                    seg.total_time,
                ));
                assert(stitch_total_distance(segs2) == crate::graph::spec_sat_add(
                    stitch_total_distance(segs),
                    seg.total_distance,
                ));
                assert(stitch_total_time(segs) == prev_tt);
                assert(stitch_total_distance(segs) == prev_td);
                if segk == 0 {
                    // A length-zero answer is the all-empty value, whose
                    // totals add nothing.
                    assert(empty_result(seg));
                    assert(crate::graph::spec_sat_add(prev_tt, 0) == prev_tt);
                    assert(crate::graph::spec_sat_add(prev_td, 0) == prev_td);
                    assert(result.points@ == stitch_points(first_pt, segs2));
                    assert(result.eta_list@ == stitch_etas(segs2));
                    assert(result.distance_list@ == stitch_dists(segs2));
                } else {
                    assert(seg.points@.subrange(1, segk as int) =~= seg.points@.skip(1));
                    assert(seg.eta_list@.subrange(1, segk as int) =~= seg.eta_list@.skip(1));
                    assert(seg.distance_list@.subrange(1, segk as int) =~= seg.distance_list@.skip(
                        1,
                    ));
                    assert(b_points == stitch_points(first_pt, segs));
                    assert(result.points@ =~= stitch_points(first_pt, segs2));
                    assert(result.eta_list@ =~= stitch_etas(segs2));
                    assert(result.distance_list@ =~= stitch_dists(segs2));
                }
                segs = segs2;
                assert(matches_stitch(result, first_pt, segs));
            }
            prev = curr;
            i = i + 1;
        }
        proof {
            assert(stitched_route_ok(g0, points@, snaps, segs, result));
        }
        Ok(result)
    }

    /// Answers a two-waypoint on-foot route that may ride the offered
    /// carpool schedules: each schedule is spliced into the graph as
    /// transient car nodes carrying its accumulated timetable, wired to
    /// their road nodes with flat-penalty foot links and to each other with
    /// car links; the two waypoints snap to the nearest foot-reachable
    /// permanent nodes; and a foot-mode search runs, free to board a car
    /// whose schedule permits. Every transient node is torn down before
    /// returning, whatever the outcome: the permanent graph leaves exactly
    /// as it entered. A schedule point naming an unloaded map node id
    /// fails the whole query up front; schedules with no points are
    /// skipped. The contract exhibits the spliced graph itself
    /// (`splice_ok` pins every transient's index, timetable and wiring)
    /// and states the answer over it: exactly priced and admissible, no
    /// admissible walk faster, empty only when the snapped endpoints are
    /// not connected on it, and no failure at all when it is a good
    /// graph.
    #[verifier::rlimit(100)]
    #[verifier::spinoff_prover]
    pub fn build_path_using_cars_rust(
        &mut self,
        start_at: i64,
        points: &Vec<MapPoint>,
        car_paths: &Vec<PlainMapCarPath>,
    ) -> (r: Result<PathResult, RouteError>)
        requires
            old(self).graph.wf(),
            old(self).graph.additional_nodes_num == 0,
            old(self).graph.all_unreached(),
            points@.len() >= 2,
            forall|i: int| 0 <= i < points@.len() ==> point_coord_ok(#[trigger] points@[i]),
            forall|c: int, p: int|
                0 <= c < car_paths@.len() && 0 <= p < car_paths@[c].path@.len()
                    ==> point_coord_ok(#[trigger] car_paths@[c].path@[p]),
            -1_000_000_000_000 <= start_at <= 1_000_000_000_000,
            forall|c: int|
                0 <= c < car_paths@.len() ==> -1_000_000_000_000 <= (
                #[trigger] car_paths@[c]).start_at <= 1_000_000_000_000,
            total_sched_points(car_paths@) < 0xFFFF_FFFF,
            has_reachable(old(self).graph, TransportKind::Foot),
        ensures
            final(self).graph.wf(),
            final(self).graph.all_unreached(),
            graph_preserved(final(self).graph, old(self).graph),
            some_sched_id_missing(old(self).graph, car_paths@) <==> (r matches Err(
                RouteError::NodeNotFound { .. },
            )),
            car_paths@.len() == 0 && good_graph(old(self).graph.nodes@) ==> r is Ok,
            car_paths@.len() == 0 ==> (match r {
                Ok(pr) => empty_result(pr) ==> (exists|n1: NodeId, n2: NodeId|
                    #![trigger closest_ok(
                        old(self).graph,
                        TransportKind::Foot,
                        points@[0],
                        Some(n1),
                    ), closest_ok(
                        old(self).graph,
                        TransportKind::Foot,
                        points@[1],
                        Some(n2),
                    )]
                    closest_ok(old(self).graph, TransportKind::Foot, points@[0], Some(n1))
                        && closest_ok(old(self).graph, TransportKind::Foot, points@[1], Some(n2))
                        && !(exists|walk: Seq<usize>, times: Seq<u64>|
                        walk_ok(
                            old(self).graph.nodes@,
                            TransportKind::Foot,
                            walk,
                            times,
                            n1.0 as int,
                            n2.0 as int,
                        ))),
                _ => true,
            }),
            match r {
                Ok(pr) => {
                    &&& (empty_result(pr) || lists_consistent(pr))
                    &&& points_from_query(pr.points@, old(self).graph.nodes@, car_paths@)
                    &&& (!empty_result(pr) ==> point_on_graph(
                        pr.points@[0],
                        old(self).graph.nodes@,
                    ) && point_on_graph(
                        pr.points@[pr.points@.len() - 1],
                        old(self).graph.nodes@,
                    ))
                },
                Err(RouteError::NodeNotFound { id }) => !old(
                    self,
                ).graph.node_map@.contains_key(id),
                Err(e) => e is InconsistentPath,
            },
            !some_sched_id_missing(old(self).graph, car_paths@) ==> (exists|
                s: RoadGraph,
                n1: NodeId,
                n2: NodeId,
            |
                #[trigger] carpool_query_ok(
                    s,
                    old(self).graph,
                    start_at as int,
                    car_paths@,
                    points@,
                    n1,
                    n2,
                    r,
                )),
    {
        let ghost g0 = self.graph;
        let n_cp = car_paths.len();
        let mut c: usize = 0;
        while c < n_cp
            invariant
                g0 == old(self).graph,
                g0.wf(),
                g0.all_unreached(),
                self.graph == g0,
                n_cp == car_paths@.len(),
                c <= n_cp,
                forall|cc: int, pp: int|
                    0 <= cc < c && 0 <= pp < car_paths@[cc].path@.len()
                        ==> g0.node_map@.contains_key((#[trigger] car_paths@[cc].path@[pp]).id),
            decreases n_cp - c,
        {
            let m = car_paths[c].path.len();
            let mut p: usize = 0;
            while p < m
                invariant
                    g0 == old(self).graph,
                    g0.wf(),
                    g0.all_unreached(),
                    self.graph == g0,
                    n_cp == car_paths@.len(),
                    c < n_cp,
                    m == car_paths@[c as int].path@.len(),
                    p <= m,
                    forall|pp: int|
                        0 <= pp < p ==> g0.node_map@.contains_key(
                            (#[trigger] car_paths@[c as int].path@[pp]).id,
                        ),
                decreases m - p,
            {
                let id = car_paths[c].path[p].id;
                if self.graph.node_id_by_osm_id(id).is_none() {
                    proof {
                        assert(!g0.node_map@.contains_key(id));
                        assert(car_paths@[c as int].path@[p as int].id == id);
                        assert(some_sched_id_missing(g0, car_paths@));
                        assert forall|i: int| 0 <= i < g0.nodes@.len() implies node_data_eq(
                            #[trigger] self.graph.nodes@[i],
                            g0.nodes@[i],
                        ) by {}
                        assert(graph_preserved(self.graph, g0));
                    }
                    return Err(RouteError::NodeNotFound { id });
                }
                p = p + 1;
            }
            c = c + 1;
        }
        proof {
            assert(!some_sched_id_missing(g0, car_paths@)) by {
                if some_sched_id_missing(g0, car_paths@) {
                    let (cc, pp) = choose|cc: int, pp: int|
                        0 <= cc < car_paths@.len() && 0 <= pp < car_paths@[cc].path@.len()
                            && !g0.node_map@.contains_key((#[trigger] car_paths@[cc].path@[pp]).id);
                    assert(g0.node_map@.contains_key(car_paths@[cc].path@[pp].id));
                }
            }
            assert forall|i: int| 0 <= i < g0.nodes@.len() implies node_fields_eq(
                #[trigger] self.graph.nodes@[i],
                g0.nodes@[i],
            ) && links_below((self.graph.nodes@[i]).nodes@, g0.nodes@.len() as int)
                == g0.nodes@[i].nodes@ by {
                assert(g0.node_wf(i));
                assert forall|k: int| 0 <= k < g0.node_links(i).len() implies ((
                #[trigger] g0.node_links(i)[k]).node.0 as int) < g0.nodes@.len() by {
                    assert(g0.link_wf(i, k));
                }
                lemma_below_all(g0.nodes@[i].nodes@, g0.nodes@.len() as int);
            }
            assert(prefix_intact(self.graph, g0));
            assert forall|i: int, j: int|
                0 <= i < g0.nodes@.len() && 0 <= j < self.graph.nodes@[i].nodes@.len() implies ((
            #[trigger] self.graph.nodes@[i].nodes@[j]).node.0 as int) < g0.nodes@.len() by {
                assert(g0.node_wf(i));
                assert(g0.link_wf(i, j));
            }
            assert(perm_links_road_mirrors(
                self.graph.nodes@,
                g0.node_map@,
                g0.nodes@.len() as int,
            ));
        }
        let mut c2: usize = 0;
        while c2 < n_cp
            invariant
                g0 == old(self).graph,
                g0.wf(),
                g0.additional_nodes_num == 0,
                n_cp == car_paths@.len(),
                c2 <= n_cp,
                -1_000_000_000_000 <= start_at <= 1_000_000_000_000,
                forall|cc: int, pp: int|
                    0 <= cc < car_paths@.len() && 0 <= pp < car_paths@[cc].path@.len()
                        ==> point_coord_ok(#[trigger] car_paths@[cc].path@[pp]),
                forall|cc: int|
                    0 <= cc < car_paths@.len() ==> -1_000_000_000_000 <= (
                    #[trigger] car_paths@[cc]).start_at <= 1_000_000_000_000,
                forall|cc: int, pp: int|
                    0 <= cc < car_paths@.len() && 0 <= pp < car_paths@[cc].path@.len()
                        ==> g0.node_map@.contains_key((#[trigger] car_paths@[cc].path@[pp]).id),
                total_sched_points(car_paths@) < 0xFFFF_FFFF,
                self.graph.wf(),
                self.graph.all_unreached(),
                self.graph.node_map@ == g0.node_map@,
                self.graph.perm_len() == g0.nodes@.len(),
                self.graph.additional_nodes_num as int == total_sched_points(
                    car_paths@.take(c2 as int),
                ),
                prefix_intact(self.graph, g0),
                transients_from(self.graph, g0.nodes@.len() as int, car_paths@),
                perm_links_road_mirrors(
                    self.graph.nodes@,
                    g0.node_map@,
                    g0.nodes@.len() as int,
                ),
                forall|c: int, q: int|
                    0 <= c < c2 && 0 <= q < car_paths@[c].path@.len() ==> #[trigger] sched_spliced(
                        self.graph.nodes@,
                        g0.node_map@,
                        g0.nodes@.len() as int,
                        start_at as int,
                        car_paths@,
                        c,
                        q,
                    ),
                car_paths@.len() == 0 ==> self.graph == g0,
            decreases n_cp - c2,
        {
            let plen = car_paths[c2].path.len();
            proof {
                lemma_total_take_succ(car_paths@, c2 as int);
                lemma_total_prefix(car_paths@, c2 as int + 1);
                lemma_total_nonneg(car_paths@.take(c2 as int));
            }
            if plen > 0 {
                let first_point: MapPoint = car_paths[c2].path[0];
                let diff: i64 = car_paths[c2].start_at - start_at;
                let mut prev_car_eta: i64 = diff * 1000;
                let ghost s_add0 = self.graph;
                let mut prev_node = self.graph.add_car_map_point_at(
                    &first_point,
                    255,
                    car_paths[c2].id,
                    prev_car_eta,
                );
                proof {
                    lemma_prefix_intact_data_eq(self.graph, s_add0, g0);
                    assert forall|i: int|
                        g0.nodes@.len() <= i < self.graph.nodes@.len() implies node_from_schedule(
                        #[trigger] self.graph.nodes@[i],
                        car_paths@,
                    ) by {
                        if i < s_add0.nodes@.len() {
                            assert(node_from_schedule(s_add0.nodes@[i], car_paths@));
                            assert(node_data_eq(self.graph.nodes@[i], s_add0.nodes@[i]));
                            lemma_node_from_schedule_fields(
                                s_add0.nodes@[i],
                                self.graph.nodes@[i],
                                car_paths@,
                            );
                        } else {
                            assert(self.graph.nodes@[i].id == car_paths@[c2 as int].path@[0].id
                                && self.graph.nodes@[i].lat == car_paths@[c2 as
                                int].path@[0].lat && self.graph.nodes@[i].lon == car_paths@[
                            c2 as int].path@[0].lon);
                            assert(self.graph.nodes@[i].kind == (NodeKind::Car {
                                eta: prev_car_eta,
                                free_seats: 255,
                                path_id: car_paths@[c2 as int].id,
                            }));
                        }
                    }
                    assert(transients_from(self.graph, g0.nodes@.len() as int, car_paths@));
                    assert forall|i: int| 0 <= i < g0.nodes@.len() implies links_extend(
                        (#[trigger] self.graph.nodes@[i]).nodes@,
                        s_add0.nodes@[i].nodes@,
                    ) by {
                        assert(node_data_eq(self.graph.nodes@[i], s_add0.nodes@[i]));
                    }
                    assert forall|c: int, q: int|
                        0 <= c < c2 && 0 <= q < car_paths@[c].path@.len() implies
                        #[trigger] sched_spliced(
                        self.graph.nodes@,
                        g0.node_map@,
                        g0.nodes@.len() as int,
                        start_at as int,
                        car_paths@,
                        c,
                        q,
                    ) by {
                        assert(sched_spliced(
                            s_add0.nodes@,
                            g0.node_map@,
                            g0.nodes@.len() as int,
                            start_at as int,
                            car_paths@,
                            c,
                            q,
                        ));
                        let ti = sched_node_idx(g0.nodes@.len() as int, car_paths@, c, q);
                        assert(node_data_eq(self.graph.nodes@[ti], s_add0.nodes@[ti]));
                        lemma_sched_spliced_data_eq(
                            s_add0.nodes@,
                            self.graph.nodes@,
                            g0.node_map@,
                            g0.nodes@.len() as int,
                            start_at as int,
                            car_paths@,
                            c,
                            q,
                        );
                    }
                    assert forall|t: int|
                        g0.nodes@.len() <= t < s_add0.nodes@.len() implies (
                    #[trigger] self.graph.nodes@[t]).id == s_add0.nodes@[t].id && (
                    s_add0.nodes@[t].kind is Car ==> self.graph.nodes@[t].kind is Car) by {
                        assert(node_data_eq(self.graph.nodes@[t], s_add0.nodes@[t]));
                    }
                    lemma_perm_links_preserved(
                        s_add0.nodes@,
                        self.graph.nodes@,
                        g0.node_map@,
                        g0.nodes@.len() as int,
                    );
                    assert((prev_node.0 as int) == sched_node_idx(
                        g0.nodes@.len() as int,
                        car_paths@,
                        c2 as int,
                        0,
                    ));
                    // The first point's timetable entry is the schedule's
                    // start offset from the query departure.
                    assert(spec_sched_eta(car_paths@[c2 as int], start_at as int, 0)
                        == prev_car_eta as int);
                    assert(self.graph.nodes@[prev_node.0 as int].kind == (NodeKind::Car {
                        eta: spec_sched_eta(car_paths@[c2 as int], start_at as int, 0) as i64,
                        free_seats: 255u8,
                        path_id: car_paths@[c2 as int].id,
                    }));
                }
                let road0: NodeId = match self.graph.node_id_by_osm_id(first_point.id) {
                    Some(x) => x,
                    None => {
                        proof {
                            assert(g0.node_map@.contains_key(car_paths@[c2 as int].path@[0].id));
                            assert(false);
                        }
                        vstd::pervasive::unreached()
                    },
                };
                let ghost s_con0 = self.graph;
                self.graph.connect_two_way(prev_node, road0, ROAD_TO_CAR, TransportKind::Foot);
                proof {
                    assert forall|i: int| 0 <= i < g0.nodes@.len() implies node_fields_eq(
                        #[trigger] self.graph.nodes@[i],
                        g0.nodes@[i],
                    ) && links_below(
                        (self.graph.nodes@[i]).nodes@,
                        g0.nodes@.len() as int,
                    ) == g0.nodes@[i].nodes@ by {
                        if i == road0.0 {
                            lemma_below_push(
                                s_con0.nodes@[i].nodes@,
                                crate::graph::NodeLink {
                                    node: prev_node,
                                    len: ROAD_TO_CAR,
                                    kind: TransportKind::Foot,
                                },
                                g0.nodes@.len() as int,
                            );
                        } else {
                            assert(node_data_eq(self.graph.nodes@[i], s_con0.nodes@[i]));
                        }
                        assert(node_fields_eq(s_con0.nodes@[i], g0.nodes@[i]));
                        assert(links_below(s_con0.nodes@[i].nodes@, g0.nodes@.len() as int)
                            == g0.nodes@[i].nodes@);
                    }
                    assert(prefix_intact(self.graph, g0));
                    assert forall|i: int|
                        g0.nodes@.len() <= i < self.graph.nodes@.len() implies node_fields_eq(
                        #[trigger] self.graph.nodes@[i],
                        s_con0.nodes@[i],
                    ) by {
                        if i != prev_node.0 as int && i != road0.0 as int {
                            assert(node_data_eq(self.graph.nodes@[i], s_con0.nodes@[i]));
                        }
                    }
                    lemma_transients_fields_eq(
                        s_con0,
                        self.graph,
                        g0.nodes@.len() as int,
                        car_paths@,
                    );
                    assert forall|i: int| 0 <= i < g0.nodes@.len() implies links_extend(
                        (#[trigger] self.graph.nodes@[i]).nodes@,
                        s_con0.nodes@[i].nodes@,
                    ) by {
                        if i != road0.0 as int {
                            assert(node_data_eq(self.graph.nodes@[i], s_con0.nodes@[i]));
                        }
                    }
                    assert forall|c: int, q: int|
                        0 <= c < c2 && 0 <= q < car_paths@[c].path@.len() implies
                        #[trigger] sched_spliced(
                        self.graph.nodes@,
                        g0.node_map@,
                        g0.nodes@.len() as int,
                        start_at as int,
                        car_paths@,
                        c,
                        q,
                    ) by {
                        assert(sched_spliced(
                            s_con0.nodes@,
                            g0.node_map@,
                            g0.nodes@.len() as int,
                            start_at as int,
                            car_paths@,
                            c,
                            q,
                        ));
                        let ti = sched_node_idx(g0.nodes@.len() as int, car_paths@, c, q);
                        lemma_total_take_succ(car_paths@, c);
                        lemma_total_mono(car_paths@, c + 1, c2 as int);
                        assert(ti < prev_node.0 as int);
                        assert(ti != road0.0 as int);
                        assert(node_data_eq(self.graph.nodes@[ti], s_con0.nodes@[ti]));
                        lemma_sched_spliced_data_eq(
                            s_con0.nodes@,
                            self.graph.nodes@,
                            g0.node_map@,
                            g0.nodes@.len() as int,
                            start_at as int,
                            car_paths@,
                            c,
                            q,
                        );
                    }
                    assert(self.graph.nodes@[prev_node.0 as int].kind is Car);
                    lemma_perm_links_push_road(
                        s_con0.nodes@,
                        self.graph.nodes@,
                        g0.node_map@,
                        g0.nodes@.len() as int,
                        road0.0,
                        prev_node.0,
                    );
                    // The fresh car node now carries exactly its open
                    // splice wiring: the single road link.
                    assert(s_con0.nodes@[prev_node.0 as int].nodes@.len() == 0);
                    assert(road0 == g0.node_map@[car_paths@[c2 as int].path@[0].id]);
                    assert(self.graph.nodes@[prev_node.0 as int].nodes@
                        =~= sched_node_links_open(
                        g0.nodes@.len() as int,
                        g0.node_map@,
                        car_paths@,
                        c2 as int,
                        0,
                    ));
                    assert(self.graph.nodes@[road0.0 as int].nodes@[s_con0.nodes@[road0.0 as
                        int].nodes@.len() as int] == (NodeLink {
                        node: prev_node,
                        len: ROAD_TO_CAR,
                        kind: TransportKind::Foot,
                    }));
                    assert(NodeId((prev_node.0 as int) as usize) == prev_node);
                    assert(road_mirror_at(
                        self.graph.nodes@,
                        road0.0 as int,
                        prev_node.0 as int,
                    ));
                    assert(sched_open(
                        self.graph.nodes@,
                        g0.node_map@,
                        g0.nodes@.len() as int,
                        start_at as int,
                        car_paths@,
                        c2 as int,
                        0,
                    ));
                }
                let mut p2: usize = 1;
                let mut prev_point: MapPoint = first_point;
                while p2 < plen
                    invariant
                        g0 == old(self).graph,
                        g0.wf(),
                        g0.additional_nodes_num == 0,
                        n_cp == car_paths@.len(),
                        c2 < n_cp,
                        plen == car_paths@[c2 as int].path@.len(),
                        1 <= p2 <= plen,
                        forall|cc: int, pp: int|
                            0 <= cc < car_paths@.len() && 0 <= pp < car_paths@[cc].path@.len()
                                ==> point_coord_ok(#[trigger] car_paths@[cc].path@[pp]),
                        forall|cc: int, pp: int|
                            0 <= cc < car_paths@.len() && 0 <= pp < car_paths@[cc].path@.len()
                                ==> g0.node_map@.contains_key(
                                (#[trigger] car_paths@[cc].path@[pp]).id,
                            ),
                        total_sched_points(car_paths@) < 0xFFFF_FFFF,
                        total_sched_points(car_paths@.take(c2 + 1)) == total_sched_points(
                            car_paths@.take(c2 as int),
                        ) + plen,
                        total_sched_points(car_paths@.take(c2 + 1)) <= total_sched_points(
                            car_paths@,
                        ),
                        total_sched_points(car_paths@.take(c2 as int)) >= 0,
                        self.graph.wf(),
                        self.graph.all_unreached(),
                        self.graph.node_map@ == g0.node_map@,
                        self.graph.perm_len() == g0.nodes@.len(),
                        self.graph.additional_nodes_num as int == total_sched_points(
                            car_paths@.take(c2 as int),
                        ) + p2,
                        prefix_intact(self.graph, g0),
                        transients_from(self.graph, g0.nodes@.len() as int, car_paths@),
                        prev_node.0 < self.graph.nodes@.len(),
                        (prev_node.0 as int) >= g0.nodes@.len(),
                        prev_point == car_paths@[c2 as int].path@[p2 - 1],
                        (prev_node.0 as int) == sched_node_idx(
                            g0.nodes@.len() as int,
                            car_paths@,
                            c2 as int,
                            p2 - 1,
                        ),
                        prev_car_eta as int == spec_sched_eta(
                            car_paths@[c2 as int],
                            start_at as int,
                            p2 - 1,
                        ),
                        perm_links_road_mirrors(
                            self.graph.nodes@,
                            g0.node_map@,
                            g0.nodes@.len() as int,
                        ),
                        forall|c: int, q: int|
                            0 <= c < c2 && 0 <= q < car_paths@[c].path@.len()
                                ==> #[trigger] sched_spliced(
                                self.graph.nodes@,
                                g0.node_map@,
                                g0.nodes@.len() as int,
                                start_at as int,
                                car_paths@,
                                c,
                                q,
                            ),
                        forall|q: int|
                            0 <= q < p2 - 1 ==> #[trigger] sched_spliced(
                                self.graph.nodes@,
                                g0.node_map@,
                                g0.nodes@.len() as int,
                                start_at as int,
                                car_paths@,
                                c2 as int,
                                q,
                            ),
                        sched_open(
                            self.graph.nodes@,
                            g0.node_map@,
                            g0.nodes@.len() as int,
                            start_at as int,
                            car_paths@,
                            c2 as int,
                            p2 - 1,
                        ),
                    decreases plen - p2,
                {
                    let curr_point: MapPoint = car_paths[c2].path[p2];
                    let d: u32 = distance(
                        prev_point.lat,
                        prev_point.lon,
                        curr_point.lat,
                        curr_point.lon,
                    );
                    let t: u64 = distance_t(
                        prev_point.lat,
                        prev_point.lon,
                        curr_point.lat,
                        curr_point.lon,
                        Kmh(50),
                    );
                    let t_i: i64 = t as i64;
                    let curr_car_eta: i64 = if prev_car_eta > i64::MAX - t_i {
                        i64::MAX
                    } else {
                        prev_car_eta + t_i
                    };
                    proof {
                        // The accumulated timetable entry of this point.
                        assert(spec_hop_cm(car_paths@[c2 as int], p2 as int)
                            == crate::geo::spec_distance_cm(
                            prev_point.lat as int,
                            prev_point.lon as int,
                            curr_point.lat as int,
                            curr_point.lon as int,
                        ));
                        assert(t_i as int == crate::geo::spec_travel_time_ms(
                            spec_hop_cm(car_paths@[c2 as int], p2 as int),
                            50,
                        ));
                        assert(curr_car_eta as int == spec_sched_eta(
                            car_paths@[c2 as int],
                            start_at as int,
                            p2 as int,
                        ));
                        assert(d as int == spec_hop_cm(car_paths@[c2 as int], p2 as int));
                    }
                    let ghost s_add = self.graph;
                    let curr_node = self.graph.add_car_map_point_at(
                        &curr_point,
                        255,
                        car_paths[c2].id,
                        curr_car_eta,
                    );
                    proof {
                        lemma_prefix_intact_data_eq(self.graph, s_add, g0);
                        assert forall|i: int|
                            g0.nodes@.len() <= i
                                < self.graph.nodes@.len() implies node_from_schedule(
                            #[trigger] self.graph.nodes@[i],
                            car_paths@,
                        ) by {
                            if i < s_add.nodes@.len() {
                                assert(node_from_schedule(s_add.nodes@[i], car_paths@));
                                assert(node_data_eq(self.graph.nodes@[i], s_add.nodes@[i]));
                                lemma_node_from_schedule_fields(
                                    s_add.nodes@[i],
                                    self.graph.nodes@[i],
                                    car_paths@,
                                );
                            } else {
                                assert(self.graph.nodes@[i].id == car_paths@[c2 as int].path@[
                                p2 as int].id && self.graph.nodes@[i].lat == car_paths@[c2 as
                                    int].path@[p2 as int].lat && self.graph.nodes@[i].lon
                                    == car_paths@[c2 as int].path@[p2 as int].lon);
                                assert(self.graph.nodes@[i].kind == (NodeKind::Car {
                                    eta: curr_car_eta,
                                    free_seats: 255,
                                    path_id: car_paths@[c2 as int].id,
                                }));
                            }
                        }
                        assert(transients_from(self.graph, g0.nodes@.len() as int, car_paths@));
                        assert forall|i: int| 0 <= i < g0.nodes@.len() implies links_extend(
                            (#[trigger] self.graph.nodes@[i]).nodes@,
                            s_add.nodes@[i].nodes@,
                        ) by {
                            assert(node_data_eq(self.graph.nodes@[i], s_add.nodes@[i]));
                        }
                        assert forall|c: int, q: int|
                            0 <= c < c2 && 0 <= q < car_paths@[c].path@.len() implies
                            #[trigger] sched_spliced(
                            self.graph.nodes@,
                            g0.node_map@,
                            g0.nodes@.len() as int,
                            start_at as int,
                            car_paths@,
                            c,
                            q,
                        ) by {
                            assert(sched_spliced(
                                s_add.nodes@,
                                g0.node_map@,
                                g0.nodes@.len() as int,
                                start_at as int,
                                car_paths@,
                                c,
                                q,
                            ));
                            let ti = sched_node_idx(g0.nodes@.len() as int, car_paths@, c, q);
                            assert(node_data_eq(self.graph.nodes@[ti], s_add.nodes@[ti]));
                            lemma_sched_spliced_data_eq(
                                s_add.nodes@,
                                self.graph.nodes@,
                                g0.node_map@,
                                g0.nodes@.len() as int,
                                start_at as int,
                                car_paths@,
                                c,
                                q,
                            );
                        }
                        assert forall|q: int|
                            0 <= q < p2 - 1 implies #[trigger] sched_spliced(
                            self.graph.nodes@,
                            g0.node_map@,
                            g0.nodes@.len() as int,
                            start_at as int,
                            car_paths@,
                            c2 as int,
                            q,
                        ) by {
                            assert(sched_spliced(
                                s_add.nodes@,
                                g0.node_map@,
                                g0.nodes@.len() as int,
                                start_at as int,
                                car_paths@,
                                c2 as int,
                                q,
                            ));
                            let ti = sched_node_idx(g0.nodes@.len() as int, car_paths@, c2 as int, q);
                            assert(node_data_eq(self.graph.nodes@[ti], s_add.nodes@[ti]));
                            lemma_sched_spliced_data_eq(
                                s_add.nodes@,
                                self.graph.nodes@,
                                g0.node_map@,
                                g0.nodes@.len() as int,
                                start_at as int,
                                car_paths@,
                                c2 as int,
                                q,
                            );
                        }
                        assert(node_data_eq(
                            self.graph.nodes@[prev_node.0 as int],
                            s_add.nodes@[prev_node.0 as int],
                        ));
                        lemma_sched_open_data_eq(
                            s_add.nodes@,
                            self.graph.nodes@,
                            g0.node_map@,
                            g0.nodes@.len() as int,
                            start_at as int,
                            car_paths@,
                            c2 as int,
                            p2 - 1,
                        );
                        assert forall|t: int|
                            g0.nodes@.len() <= t < s_add.nodes@.len() implies (
                        #[trigger] self.graph.nodes@[t]).id == s_add.nodes@[t].id && (
                        s_add.nodes@[t].kind is Car ==> self.graph.nodes@[t].kind is Car) by {
                            assert(node_data_eq(self.graph.nodes@[t], s_add.nodes@[t]));
                        }
                        lemma_perm_links_preserved(
                            s_add.nodes@,
                            self.graph.nodes@,
                            g0.node_map@,
                            g0.nodes@.len() as int,
                        );
                        assert((curr_node.0 as int) == sched_node_idx(
                            g0.nodes@.len() as int,
                            car_paths@,
                            c2 as int,
                            p2 as int,
                        ));
                        assert(self.graph.nodes@[curr_node.0 as int].kind == (NodeKind::Car {
                            eta: spec_sched_eta(car_paths@[c2 as int], start_at as int, p2 as int)
                                as i64,
                            free_seats: 255u8,
                            path_id: car_paths@[c2 as int].id,
                        }));
                    }
                    let road: NodeId = match self.graph.node_id_by_osm_id(curr_point.id) {
                        Some(x) => x,
                        None => {
                            proof {
                                assert(g0.node_map@.contains_key(
                                    car_paths@[c2 as int].path@[p2 as int].id,
                                ));
                                assert(false);
                            }
                            vstd::pervasive::unreached()
                        },
                    };
                    let ghost s_con = self.graph;
                    self.graph.connect_two_way(curr_node, road, ROAD_TO_CAR, TransportKind::Foot);
                    proof {
                        assert forall|i: int| 0 <= i < g0.nodes@.len() implies node_fields_eq(
                            #[trigger] self.graph.nodes@[i],
                            g0.nodes@[i],
                        ) && links_below(
                            (self.graph.nodes@[i]).nodes@,
                            g0.nodes@.len() as int,
                        ) == g0.nodes@[i].nodes@ by {
                            if i == road.0 {
                                lemma_below_push(
                                    s_con.nodes@[i].nodes@,
                                    crate::graph::NodeLink {
                                        node: curr_node,
                                        len: ROAD_TO_CAR,
                                        kind: TransportKind::Foot,
                                    },
                                    g0.nodes@.len() as int,
                                );
                            } else {
                                assert(node_data_eq(self.graph.nodes@[i], s_con.nodes@[i]));
                            }
                            assert(node_fields_eq(s_con.nodes@[i], g0.nodes@[i]));
                            assert(links_below(s_con.nodes@[i].nodes@, g0.nodes@.len() as int)
                                == g0.nodes@[i].nodes@);
                        }
                        assert(prefix_intact(self.graph, g0));
                        assert forall|i: int|
                            g0.nodes@.len() <= i
                                < self.graph.nodes@.len() implies node_fields_eq(
                            #[trigger] self.graph.nodes@[i],
                            s_con.nodes@[i],
                        ) by {
                            if i != curr_node.0 as int && i != road.0 as int {
                                assert(node_data_eq(self.graph.nodes@[i], s_con.nodes@[i]));
                            }
                        }
                        lemma_transients_fields_eq(
                            s_con,
                            self.graph,
                            g0.nodes@.len() as int,
                            car_paths@,
                        );
                        assert forall|i: int| 0 <= i < g0.nodes@.len() implies links_extend(
                            (#[trigger] self.graph.nodes@[i]).nodes@,
                            s_con.nodes@[i].nodes@,
                        ) by {
                            if i != road.0 as int {
                                assert(node_data_eq(self.graph.nodes@[i], s_con.nodes@[i]));
                            }
                        }
                        assert forall|c: int, q: int|
                            0 <= c < c2 && 0 <= q < car_paths@[c].path@.len() implies
                            #[trigger] sched_spliced(
                            self.graph.nodes@,
                            g0.node_map@,
                            g0.nodes@.len() as int,
                            start_at as int,
                            car_paths@,
                            c,
                            q,
                        ) by {
                            assert(sched_spliced(
                                s_con.nodes@,
                                g0.node_map@,
                                g0.nodes@.len() as int,
                                start_at as int,
                                car_paths@,
                                c,
                                q,
                            ));
                            let ti = sched_node_idx(g0.nodes@.len() as int, car_paths@, c, q);
                            lemma_total_take_succ(car_paths@, c);
                            lemma_total_mono(car_paths@, c + 1, c2 as int);
                            assert(ti != curr_node.0 as int);
                            assert(ti != road.0 as int);
                            assert(node_data_eq(self.graph.nodes@[ti], s_con.nodes@[ti]));
                            lemma_sched_spliced_data_eq(
                                s_con.nodes@,
                                self.graph.nodes@,
                                g0.node_map@,
                                g0.nodes@.len() as int,
                                start_at as int,
                                car_paths@,
                                c,
                                q,
                            );
                        }
                        assert forall|q: int|
                            0 <= q < p2 - 1 implies #[trigger] sched_spliced(
                            self.graph.nodes@,
                            g0.node_map@,
                            g0.nodes@.len() as int,
                            start_at as int,
                            car_paths@,
                            c2 as int,
                            q,
                        ) by {
                            assert(sched_spliced(
                                s_con.nodes@,
                                g0.node_map@,
                                g0.nodes@.len() as int,
                                start_at as int,
                                car_paths@,
                                c2 as int,
                                q,
                            ));
                            let ti = sched_node_idx(g0.nodes@.len() as int, car_paths@, c2 as int, q);
                            assert(ti != curr_node.0 as int);
                            assert(ti != road.0 as int);
                            assert(node_data_eq(self.graph.nodes@[ti], s_con.nodes@[ti]));
                            lemma_sched_spliced_data_eq(
                                s_con.nodes@,
                                self.graph.nodes@,
                                g0.node_map@,
                                g0.nodes@.len() as int,
                                start_at as int,
                                car_paths@,
                                c2 as int,
                                q,
                            );
                        }
                        assert(node_data_eq(
                            self.graph.nodes@[prev_node.0 as int],
                            s_con.nodes@[prev_node.0 as int],
                        ));
                        lemma_sched_open_data_eq(
                            s_con.nodes@,
                            self.graph.nodes@,
                            g0.node_map@,
                            g0.nodes@.len() as int,
                            start_at as int,
                            car_paths@,
                            c2 as int,
                            p2 - 1,
                        );
                        assert(self.graph.nodes@[curr_node.0 as int].kind is Car);
                        lemma_perm_links_push_road(
                            s_con.nodes@,
                            self.graph.nodes@,
                            g0.node_map@,
                            g0.nodes@.len() as int,
                            road.0,
                            curr_node.0,
                        );
                        // The fresh car node holds exactly its road link.
                        assert(s_con.nodes@[curr_node.0 as int].nodes@.len() == 0);
                        assert(road == g0.node_map@[car_paths@[c2 as int].path@[p2 as int].id]);
                        assert(self.graph.nodes@[curr_node.0 as int].nodes@ =~= seq![
                            NodeLink {
                                node: g0.node_map@[car_paths@[c2 as int].path@[p2 as int].id],
                                len: ROAD_TO_CAR,
                                kind: TransportKind::Foot,
                            },
                        ]);
                        assert(self.graph.nodes@[road.0 as int].nodes@[s_con.nodes@[road.0 as
                            int].nodes@.len() as int] == (NodeLink {
                            node: curr_node,
                            len: ROAD_TO_CAR,
                            kind: TransportKind::Foot,
                        }));
                        assert(NodeId((curr_node.0 as int) as usize) == curr_node);
                        assert(road_mirror_at(
                            self.graph.nodes@,
                            road.0 as int,
                            curr_node.0 as int,
                        ));
                    }
                    let ghost s_con2 = self.graph;
                    self.graph.connect_two_way(curr_node, prev_node, d, TransportKind::Car);
                    proof {
                        assert forall|i: int| 0 <= i < g0.nodes@.len() implies node_data_eq(
                            #[trigger] self.graph.nodes@[i],
                            s_con2.nodes@[i],
                        ) by {
                            assert(i != curr_node.0 && i != prev_node.0);
                        }
                        lemma_prefix_intact_data_eq(self.graph, s_con2, g0);
                        assert forall|i: int|
                            g0.nodes@.len() <= i
                                < self.graph.nodes@.len() implies node_fields_eq(
                            #[trigger] self.graph.nodes@[i],
                            s_con2.nodes@[i],
                        ) by {
                            if i != curr_node.0 as int && i != prev_node.0 as int {
                                assert(node_data_eq(self.graph.nodes@[i], s_con2.nodes@[i]));
                            }
                        }
                        lemma_transients_fields_eq(
                            s_con2,
                            self.graph,
                            g0.nodes@.len() as int,
                            car_paths@,
                        );
                        assert forall|i: int| 0 <= i < g0.nodes@.len() implies links_extend(
                            (#[trigger] self.graph.nodes@[i]).nodes@,
                            s_con2.nodes@[i].nodes@,
                        ) by {
                            assert(node_data_eq(self.graph.nodes@[i], s_con2.nodes@[i]));
                        }
                        assert forall|c: int, q: int|
                            0 <= c < c2 && 0 <= q < car_paths@[c].path@.len() implies
                            #[trigger] sched_spliced(
                            self.graph.nodes@,
                            g0.node_map@,
                            g0.nodes@.len() as int,
                            start_at as int,
                            car_paths@,
                            c,
                            q,
                        ) by {
                            assert(sched_spliced(
                                s_con2.nodes@,
                                g0.node_map@,
                                g0.nodes@.len() as int,
                                start_at as int,
                                car_paths@,
                                c,
                                q,
                            ));
                            let ti = sched_node_idx(g0.nodes@.len() as int, car_paths@, c, q);
                            lemma_total_take_succ(car_paths@, c);
                            lemma_total_mono(car_paths@, c + 1, c2 as int);
                            assert(ti != curr_node.0 as int);
                            assert(ti != prev_node.0 as int);
                            assert(node_data_eq(self.graph.nodes@[ti], s_con2.nodes@[ti]));
                            lemma_sched_spliced_data_eq(
                                s_con2.nodes@,
                                self.graph.nodes@,
                                g0.node_map@,
                                g0.nodes@.len() as int,
                                start_at as int,
                                car_paths@,
                                c,
                                q,
                            );
                        }
                        assert forall|q: int|
                            0 <= q < p2 - 1 implies #[trigger] sched_spliced(
                            self.graph.nodes@,
                            g0.node_map@,
                            g0.nodes@.len() as int,
                            start_at as int,
                            car_paths@,
                            c2 as int,
                            q,
                        ) by {
                            assert(sched_spliced(
                                s_con2.nodes@,
                                g0.node_map@,
                                g0.nodes@.len() as int,
                                start_at as int,
                                car_paths@,
                                c2 as int,
                                q,
                            ));
                            let ti = sched_node_idx(g0.nodes@.len() as int, car_paths@, c2 as int, q);
                            assert(ti != curr_node.0 as int);
                            assert(ti != prev_node.0 as int);
                            assert(node_data_eq(self.graph.nodes@[ti], s_con2.nodes@[ti]));
                            lemma_sched_spliced_data_eq(
                                s_con2.nodes@,
                                self.graph.nodes@,
                                g0.node_map@,
                                g0.nodes@.len() as int,
                                start_at as int,
                                car_paths@,
                                c2 as int,
                                q,
                            );
                        }
                        assert forall|t: int|
                            g0.nodes@.len() <= t < s_con2.nodes@.len() implies (
                        #[trigger] self.graph.nodes@[t]).id == s_con2.nodes@[t].id && (
                        s_con2.nodes@[t].kind is Car ==> self.graph.nodes@[t].kind is Car) by {
                            if t != curr_node.0 as int && t != prev_node.0 as int {
                                assert(node_data_eq(self.graph.nodes@[t], s_con2.nodes@[t]));
                            }
                        }
                        lemma_perm_links_preserved(
                            s_con2.nodes@,
                            self.graph.nodes@,
                            g0.node_map@,
                            g0.nodes@.len() as int,
                        );
                        // The predecessor's splice is now complete: its
                        // car link on to this point closes its wiring.
                        assert(self.graph.nodes@[prev_node.0 as int].nodes@
                            == s_con2.nodes@[prev_node.0 as int].nodes@.push(
                            NodeLink { node: curr_node, len: d, kind: TransportKind::Car },
                        ));
                        assert((sched_node_idx(
                            g0.nodes@.len() as int,
                            car_paths@,
                            c2 as int,
                            p2 - 1,
                        ) + 1) == curr_node.0 as int);
                        assert(NodeId((sched_node_idx(
                            g0.nodes@.len() as int,
                            car_paths@,
                            c2 as int,
                            p2 - 1,
                        ) + 1) as usize) == curr_node);
                        assert((spec_hop_cm(car_paths@[c2 as int], p2 as int) as u32) == d);
                        assert(self.graph.nodes@[prev_node.0 as int].nodes@
                            =~= sched_node_links(
                            g0.nodes@.len() as int,
                            g0.node_map@,
                            car_paths@,
                            c2 as int,
                            p2 - 1,
                        ));
                        assert(sched_open(
                            s_con2.nodes@,
                            g0.node_map@,
                            g0.nodes@.len() as int,
                            start_at as int,
                            car_paths@,
                            c2 as int,
                            p2 - 1,
                        ));
                        lemma_road_mirror_extend(
                            s_con2.nodes@,
                            self.graph.nodes@,
                            g0.node_map@[car_paths@[c2 as int].path@[p2 - 1].id].0 as int,
                            sched_node_idx(
                                g0.nodes@.len() as int,
                                car_paths@,
                                c2 as int,
                                p2 - 1,
                            ),
                        );
                        assert(sched_spliced(
                            self.graph.nodes@,
                            g0.node_map@,
                            g0.nodes@.len() as int,
                            start_at as int,
                            car_paths@,
                            c2 as int,
                            p2 - 1,
                        ));
                        // The fresh car node now holds its open wiring:
                        // the road link, then the car link back.
                        assert(self.graph.nodes@[curr_node.0 as int].nodes@
                            == s_con2.nodes@[curr_node.0 as int].nodes@.push(
                            NodeLink { node: prev_node, len: d, kind: TransportKind::Car },
                        ));
                        assert(NodeId((sched_node_idx(
                            g0.nodes@.len() as int,
                            car_paths@,
                            c2 as int,
                            p2 as int,
                        ) - 1) as usize) == prev_node);
                        assert(self.graph.nodes@[curr_node.0 as int].nodes@
                            =~= sched_node_links_open(
                            g0.nodes@.len() as int,
                            g0.node_map@,
                            car_paths@,
                            c2 as int,
                            p2 as int,
                        ));
                        assert(road_mirror_at(
                            s_con2.nodes@,
                            road.0 as int,
                            curr_node.0 as int,
                        ));
                        lemma_road_mirror_extend(
                            s_con2.nodes@,
                            self.graph.nodes@,
                            road.0 as int,
                            curr_node.0 as int,
                        );
                        assert(sched_open(
                            self.graph.nodes@,
                            g0.node_map@,
                            g0.nodes@.len() as int,
                            start_at as int,
                            car_paths@,
                            c2 as int,
                            p2 as int,
                        ));
                    }
                    prev_node = curr_node;
                    prev_car_eta = curr_car_eta;
                    prev_point = curr_point;
                    p2 = p2 + 1;
                }
                proof {
                    // The schedule's last point has no successor: its open
                    // wiring is already its full wiring.
                    assert(sched_node_links(
                        g0.nodes@.len() as int,
                        g0.node_map@,
                        car_paths@,
                        c2 as int,
                        plen - 1,
                    ) == sched_node_links_open(
                        g0.nodes@.len() as int,
                        g0.node_map@,
                        car_paths@,
                        c2 as int,
                        plen - 1,
                    ));
                    assert(sched_spliced(
                        self.graph.nodes@,
                        g0.node_map@,
                        g0.nodes@.len() as int,
                        start_at as int,
                        car_paths@,
                        c2 as int,
                        plen - 1,
                    ));
                    assert forall|q: int|
                        0 <= q < car_paths@[c2 as int].path@.len() implies #[trigger] sched_spliced(
                        self.graph.nodes@,
                        g0.node_map@,
                        g0.nodes@.len() as int,
                        start_at as int,
                        car_paths@,
                        c2 as int,
                        q,
                    ) by {
                        if q < plen - 1 {
                            assert(sched_spliced(
                                self.graph.nodes@,
                                g0.node_map@,
                                g0.nodes@.len() as int,
                                start_at as int,
                                car_paths@,
                                c2 as int,
                                q,
                            ));
                        }
                    }
                }
            }
            c2 = c2 + 1;
        }
        proof {
            assert(car_paths@.take(n_cp as int) =~= car_paths@);
            assert(splice_ok(self.graph, g0, start_at as int, car_paths@));
        }
        let closest = self.get_closest_list(points, TransportKind::Foot);
        proof {
            assert forall|pi: int| 0 <= pi < 2 implies (#[trigger] closest@[pi]) is Some by {
                if closest@[pi] is None {
                    let wi = choose|i: int|
                        0 <= i < g0.perm_len() && #[trigger] node_reachable(
                            g0.nodes@,
                            i,
                            TransportKind::Foot,
                        );
                    let wj = choose|j: int|
                        0 <= j < g0.nodes@[wi].nodes@.len() && spec_mode_match(
                            TransportKind::Foot,
                            (#[trigger] g0.nodes@[wi].nodes@[j]).kind,
                        );
                    assert(links_below(self.graph.nodes@[wi].nodes@, g0.nodes@.len() as int)
                        == g0.nodes@[wi].nodes@);
                    lemma_below_elems(self.graph.nodes@[wi].nodes@, g0.nodes@.len() as int);
                    let wk = choose|k: int|
                        0 <= k < self.graph.nodes@[wi].nodes@.len() && self.graph.nodes@[
                        wi].nodes@[k] == (#[trigger] links_below(
                            self.graph.nodes@[wi].nodes@,
                            g0.nodes@.len() as int,
                        )[wj]);
                    assert(spec_mode_match(
                        TransportKind::Foot,
                        self.graph.nodes@[wi].nodes@[wk].kind,
                    ));
                    assert(node_reachable(self.graph.nodes@, wi, TransportKind::Foot));
                    assert(false);
                }
            }
        }
        let n1: NodeId = match closest[0] {
            Some(x) => x,
            None => {
                proof {
                    assert(closest@[0] is Some);
                }
                vstd::pervasive::unreached()
            },
        };
        let n2: NodeId = match closest[1] {
            Some(x) => x,
            None => {
                proof {
                    assert(closest@[1] is Some);
                }
                vstd::pervasive::unreached()
            },
        };
        let ghost spliced = self.graph;
        let res = self.graph.shortest_path(n1, n2, TransportKind::Foot);
        proof {
            assert forall|i: int| 0 <= i < g0.nodes@.len() implies node_data_eq(
                #[trigger] self.graph.nodes@[i],
                g0.nodes@[i],
            ) by {
                assert(node_restored(
                    self.graph.nodes@[i],
                    spliced.nodes@[i],
                    spliced.perm_len(),
                ));
                assert(spliced.perm_len() == g0.nodes@.len());
                assert(links_below(spliced.nodes@[i].nodes@, g0.nodes@.len() as int)
                    == g0.nodes@[i].nodes@);
                assert(node_fields_eq(spliced.nodes@[i], g0.nodes@[i]));
            }
            assert(self.graph.nodes@.len() == g0.nodes@.len());
            assert(self.graph.node_map@ == g0.node_map@);
            assert(self.graph.additional_nodes_num == g0.additional_nodes_num);
            assert(self.graph.etas@.len() == g0.etas@.len());
            assert(graph_preserved(self.graph, g0));
            if car_paths@.len() == 0 {
                assert(spliced == g0);
            }
        }
        match res {
            Ok(pr) => {
                proof {
                    if car_paths@.len() == 0 && empty_result(pr) {
                        assert(spliced == g0);
                        assert(closest_ok(g0, TransportKind::Foot, points@[0], Some(n1)));
                        assert(closest_ok(g0, TransportKind::Foot, points@[1], Some(n2)));
                        assert(!(exists|walk: Seq<usize>, times: Seq<u64>|
                            walk_ok(
                                g0.nodes@,
                                TransportKind::Foot,
                                walk,
                                times,
                                n1.0 as int,
                                n2.0 as int,
                            )));
                    }
                    if !empty_result(pr) {
                        let trace = choose|trace: Seq<usize>|
                            route_ok(
                                spliced.nodes@,
                                TransportKind::Foot,
                                n1.0 as int,
                                n2.0 as int,
                                pr,
                                trace,
                            );
                        lemma_route_lists(
                            spliced.nodes@,
                            TransportKind::Foot,
                            n1.0 as int,
                            n2.0 as int,
                            pr,
                            trace,
                        );
                        let kk = pr.points@.len() as int;
                        assert(pr.points@[0] == crate::graph::spec_point_of(
                            spliced.nodes@[n1.0 as int],
                        ));
                        assert(node_fields_eq(spliced.nodes@[n1.0 as int], g0.nodes@[n1.0 as
                            int]));
                        assert(pr.points@[0] == crate::graph::spec_point_of(
                            g0.nodes@[n1.0 as int],
                        ));
                        assert(point_on_graph(pr.points@[0], g0.nodes@));
                        assert(pr.points@[kk - 1] == crate::graph::spec_point_of(
                            spliced.nodes@[n2.0 as int],
                        ));
                        assert(node_fields_eq(spliced.nodes@[n2.0 as int], g0.nodes@[n2.0 as
                            int]));
                        assert(pr.points@[kk - 1] == crate::graph::spec_point_of(
                            g0.nodes@[n2.0 as int],
                        ));
                        assert(point_on_graph(pr.points@[kk - 1], g0.nodes@));
                    }
                    assert(carpool_query_ok(
                        spliced,
                        g0,
                        start_at as int,
                        car_paths@,
                        points@,
                        n1,
                        n2,
                        Result::<PathResult, RouteError>::Ok(pr),
                    ));
                }
                Ok(pr)
            },
            Err(e) => {
                proof {
                    assert(carpool_query_ok(
                        spliced,
                        g0,
                        start_at as int,
                        car_paths@,
                        points@,
                        n1,
                        n2,
                        Result::<PathResult, RouteError>::Err(e),
                    ));
                }
                Err(e)
            },
        }
    }
}

} // verus!
