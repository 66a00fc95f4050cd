//! The road-graph arena: dense node storage with an id index, permanent and
//! transient node insertion, two-way edge wiring, exact transient teardown,
//! and the time-dependent shortest-path search.

use vstd::prelude::*;
use std::collections::HashMap;
use crate::geo::{valid_coord, Kmh, TransportKind};

verus! {

broadcast use vstd::std_specs::hash::group_hash_axioms;

/// Flat boarding/alighting time penalty in milliseconds; also the length in
/// centimeters given to the links that splice a car node onto the road.
pub const ROAD_TO_CAR: u32 = 1000;

/// Sentinel arrival time of a node the current search has not reached.
pub const UNREACHED: u64 = u64::MAX;

/// Dense index of a node in the arena, valid only until the arena's node
/// array changes length.
#[derive(Copy, Clone, Debug, PartialEq, Eq, Structural)]
pub struct NodeId(pub usize);

/// What a node is: an ordinary road node, or a transient car node carrying
/// the fixed schedule time at which the vehicle is at this point.
#[derive(Copy, Clone, Debug, PartialEq, Eq, Structural)]
pub enum NodeKind {
    Plain,
    Car { eta: i64, free_seats: u8, path_id: u64 },
}

/// Directed adjacency from its owning node, with length in centimeters and
/// the transport mode the edge was classified as.
#[derive(Copy, Clone, Debug, PartialEq, Eq, Structural)]
pub struct NodeLink {
    pub node: NodeId,
    /// distance in cm
    pub len: u32,
    pub kind: TransportKind,
}

/// A node of the road graph. Coordinates are 1e-7 degrees.
#[derive(Debug)]
pub struct Node {
    /// Outgoing links; a two-way connection is one link on each endpoint.
    pub nodes: Vec<NodeLink>,
    pub kind: NodeKind,
    pub id: u64,
    pub lon: i64,
    pub lat: i64,
}

/// A geographic waypoint handed in and out of the engine. Coordinates are
/// 1e-7 degrees; `path_id` names the carpool schedule for car points.
#[derive(Copy, Clone, Debug, PartialEq)]
pub struct MapPoint {
    pub id: u64,
    pub lat: i64,
    pub lon: i64,
    pub path_id: Option<u64>,
}

/// The waypoint a node answers queries with.
pub open spec fn spec_point_of(n: Node) -> MapPoint {
    MapPoint {
        id: n.id,
        lat: n.lat,
        lon: n.lon,
        path_id: match n.kind {
            NodeKind::Plain => None,
            NodeKind::Car { path_id, .. } => Some(path_id),
        },
    }
}

impl MapPoint {
    /// The waypoint of a graph node, carrying its schedule id if it is a
    /// car node.
    pub fn from_node(n: &Node) -> (p: MapPoint)
        ensures
            p == spec_point_of(*n),
    {
        MapPoint {
            id: n.id,
            lat: n.lat,
            lon: n.lon,
            path_id: match n.kind {
                NodeKind::Plain => None,
                NodeKind::Car { path_id, .. } => Some(path_id),
            },
        }
    }
}

/// An ordered route: points from origin to destination with cumulative
/// elapsed milliseconds and centimeters per point, and the grand totals.
/// An unreachable query yields the all-empty, all-zero value.
#[derive(Debug)]
pub struct PathResult {
    pub total_time: u64,
    pub total_distance: u64,
    pub points: Vec<MapPoint>,
    pub eta_list: Vec<u64>,
    pub distance_list: Vec<u64>,
}

/// The conditions a query can fail on.
#[derive(Copy, Clone, Debug, PartialEq, Eq, Structural)]
pub enum RouteError {
    /// A waypoint or schedule point names a map node id that is not loaded.
    NodeNotFound { id: u64 },
    /// The backward walk could not account for a settled arrival time: an
    /// internal consistency failure of relaxation or reconstruction.
    InconsistentPath,
}

/// Two nodes carry the same data (the adjacency lists compared as sequences).
pub open spec fn node_data_eq(a: Node, b: Node) -> bool {
    &&& a.id == b.id
    &&& a.lat == b.lat
    &&& a.lon == b.lon
    &&& a.kind == b.kind
    &&& a.nodes@ == b.nodes@
}

/// Some link of `links` points at node index `target`.
pub open spec fn has_link_to(links: Seq<NodeLink>, target: int) -> bool {
    exists|k: int| 0 <= k < links.len() && (#[trigger] links[k]).node.0 == target
}

/// The links of `links` whose target index is below `bound`.
pub open spec fn links_below(links: Seq<NodeLink>, bound: int) -> Seq<NodeLink>
    decreases links.len(),
{
    if links.len() == 0 {
        Seq::empty()
    } else if (links.last().node.0 as int) < bound {
        links_below(links.drop_last(), bound).push(links.last())
    } else {
        links_below(links.drop_last(), bound)
    }
}

/// The links of `links` whose target index is not `t`.
pub open spec fn links_except(links: Seq<NodeLink>, t: int) -> Seq<NodeLink>
    decreases links.len(),
{
    if links.len() == 0 {
        Seq::empty()
    } else if (links.last().node.0 as int) != t {
        links_except(links.drop_last(), t).push(links.last())
    } else {
        links_except(links.drop_last(), t)
    }
}

/// Nodes `a` and `b` agree on everything but the adjacency list.
pub open spec fn node_fields_eq(a: Node, b: Node) -> bool {
    &&& a.id == b.id
    &&& a.lat == b.lat
    &&& a.lon == b.lon
    &&& a.kind == b.kind
}

/// Node `n` is node `o` with its adjacency restricted to targets below
/// `bound`.
pub open spec fn node_restored(n: Node, o: Node, bound: int) -> bool {
    &&& node_fields_eq(n, o)
    &&& n.nodes@ == links_below(o.nodes@, bound)
}

/// One of the first `j` links of `pl` points at node index `i`.
pub open spec fn covered(pl: Seq<NodeLink>, j: int, i: int) -> bool {
    exists|k: int| 0 <= k < j && (#[trigger] pl[k]).node.0 == i
}

proof fn lemma_except_push(s: Seq<NodeLink>, l: NodeLink, t: int)
    ensures
        links_except(s.push(l), t) == if (l.node.0 as int) != t {
            links_except(s, t).push(l)
        } else {
            links_except(s, t)
        },
{
    assert(s.push(l).drop_last() =~= s);
    assert(s.push(l).last() == l);
}

pub proof fn lemma_below_push(s: Seq<NodeLink>, l: NodeLink, b: int)
    ensures
        links_below(s.push(l), b) == if (l.node.0 as int) < b {
            links_below(s, b).push(l)
        } else {
            links_below(s, b)
        },
{
    assert(s.push(l).drop_last() =~= s);
    assert(s.push(l).last() == l);
}

/// Every kept link misses `t` and occurs in the original list.
proof fn lemma_except_elems(s: Seq<NodeLink>, t: int)
    ensures
        links_except(s, t).len() <= s.len(),
        forall|m: int|
            0 <= m < links_except(s, t).len() ==> ((#[trigger] links_except(s, t)[m]).node.0
                as int) != t,
        forall|m: int|
            0 <= m < links_except(s, t).len() ==> exists|k: int|
                0 <= k < s.len() && s[k] == (#[trigger] links_except(s, t)[m]),
    decreases s.len(),
{
    if s.len() > 0 {
        lemma_except_elems(s.drop_last(), t);
        assert forall|m: int|
            0 <= m < links_except(s, t).len() implies exists|k: int|
            0 <= k < s.len() && s[k] == (#[trigger] links_except(s, t)[m]) by {
            let e = links_except(s.drop_last(), t);
            if m < e.len() {
                let k = choose|k: int| 0 <= k < s.drop_last().len() && s.drop_last()[k] == e[m];
                assert(s[k] == links_except(s, t)[m]);
            } else {
                assert(links_except(s, t)[m] == s.last());
                assert(s[s.len() - 1] == links_except(s, t)[m]);
            }
        }
    }
}

/// A list without links to `t` is left unchanged by removing them.
proof fn lemma_except_noop(s: Seq<NodeLink>, t: int)
    requires
        forall|k: int| 0 <= k < s.len() ==> ((#[trigger] s[k]).node.0 as int) != t,
    ensures
        links_except(s, t) == s,
    decreases s.len(),
{
    if s.len() > 0 {
        lemma_except_noop(s.drop_last(), t);
        assert(s.drop_last().push(s.last()) =~= s);
    }
}

/// Removing links to `t` twice is the same as removing them once.
proof fn lemma_except_idempotent(s: Seq<NodeLink>, t: int)
    ensures
        links_except(links_except(s, t), t) == links_except(s, t),
{
    lemma_except_elems(s, t);
    lemma_except_noop(links_except(s, t), t);
}

/// Every kept link of the restriction occurs in the original list.
pub proof fn lemma_below_elems(s: Seq<NodeLink>, b: int)
    ensures
        links_below(s, b).len() <= s.len(),
        forall|m: int|
            0 <= m < links_below(s, b).len() ==> ((#[trigger] links_below(s, b)[m]).node.0
                as int) < b,
        forall|m: int|
            0 <= m < links_below(s, b).len() ==> exists|k: int|
                0 <= k < s.len() && s[k] == (#[trigger] links_below(s, b)[m]),
    decreases s.len(),
{
    if s.len() > 0 {
        lemma_below_elems(s.drop_last(), b);
        assert forall|m: int|
            0 <= m < links_below(s, b).len() implies exists|k: int|
            0 <= k < s.len() && s[k] == (#[trigger] links_below(s, b)[m]) by {
            let e = links_below(s.drop_last(), b);
            if m < e.len() {
                let k = choose|k: int| 0 <= k < s.drop_last().len() && s.drop_last()[k] == e[m];
                assert(s[k] == links_below(s, b)[m]);
            } else {
                assert(links_below(s, b)[m] == s.last());
                assert(s[s.len() - 1] == links_below(s, b)[m]);
            }
        }
    }
}

/// A list with every target below `b` is left unchanged by the restriction.
pub proof fn lemma_below_all(s: Seq<NodeLink>, b: int)
    requires
        forall|k: int| 0 <= k < s.len() ==> ((#[trigger] s[k]).node.0 as int) < b,
    ensures
        links_below(s, b) == s,
    decreases s.len(),
{
    if s.len() > 0 {
        lemma_below_all(s.drop_last(), b);
        assert(s.drop_last().push(s.last()) =~= s);
    }
}

/// Removing links to `t` from a list restricted below `t + 1` restricts it
/// below `t`.
proof fn lemma_below_except(s: Seq<NodeLink>, t: int)
    ensures
        links_except(links_below(s, t + 1), t) == links_below(s, t),
    decreases s.len(),
{
    if s.len() > 0 {
        lemma_below_except(s.drop_last(), t);
        let l = s.last();
        if (l.node.0 as int) < t + 1 {
            lemma_except_push(links_below(s.drop_last(), t + 1), l, t);
        }
    }
}

/// A link toward `i != t` survives the removal of links toward `t`.
proof fn lemma_except_has_link(s: Seq<NodeLink>, t: int, i: int)
    requires
        has_link_to(s, i),
        i != t,
    ensures
        has_link_to(links_except(s, t), i),
    decreases s.len(),
{
    let k = choose|k: int| 0 <= k < s.len() && (#[trigger] s[k]).node.0 == i;
    if k < s.len() - 1 {
        assert(s.drop_last()[k].node.0 == i);
        assert(has_link_to(s.drop_last(), i));
        lemma_except_has_link(s.drop_last(), t, i);
        let e = links_except(s.drop_last(), t);
        let m = choose|m: int| 0 <= m < e.len() && (#[trigger] e[m]).node.0 == i;
        if (s.last().node.0 as int) != t {
            assert(links_except(s, t)[m].node.0 == i);
        } else {
            assert(links_except(s, t)[m].node.0 == i);
        }
    } else {
        assert(s.last().node.0 == i);
        let e = links_except(s, t);
        assert(e[e.len() - 1].node.0 == i);
    }
}

/// Copies `links` without the links whose target is `target`.
fn links_without(links: &Vec<NodeLink>, target: usize) -> (out: Vec<NodeLink>)
    ensures
        out@ == links_except(links@, target as int),
{
    let n: usize = links.len();
    let mut out: Vec<NodeLink> = Vec::new();
    let mut i: usize = 0;
    while i < n
        invariant
            i <= n,
            n == links@.len(),
            out@ == links_except(links@.take(i as int), target as int),
        decreases n - i,
    {
        let l = links[i];
        proof {
            lemma_except_push(links@.take(i as int), l, target as int);
            assert(links@.take(i as int).push(l) =~= links@.take(i + 1));
        }
        if l.node.0 != target {
            out.push(l);
        }
        i = i + 1;
    }
    proof {
        assert(links@.take(n as int) =~= links@);
    }
    out
}

/// The arena owning all graph nodes: a dense node array, an external-id
/// index over the permanent nodes, a parallel scratch array of best-known
/// arrival times, and the count of transient nodes currently appended.
pub struct RoadGraph {
    pub node_map: HashMap<u64, NodeId>,
    pub nodes: Vec<Node>,
    /// Best arrival time found so far by the current search, per node;
    /// `UNREACHED` for every node between queries.
    pub etas: Vec<u64>,
    pub additional_nodes_num: u32,
}

impl RoadGraph {
    /// Adjacency list of node `i`.
    pub open spec fn node_links(&self, i: int) -> Seq<NodeLink> {
        self.nodes@[i].nodes@
    }

    /// Number of permanent (non-transient) nodes.
    pub open spec fn perm_len(&self) -> int {
        self.nodes@.len() - self.additional_nodes_num
    }

    /// Link `j` of node `i` stays inside the arena and has a symmetric
    /// partner on its target.
    pub open spec fn link_wf(&self, i: int, j: int) -> bool {
        let l = self.node_links(i)[j];
        &&& (l.node.0 as int) < self.nodes@.len()
        &&& has_link_to(self.node_links(l.node.0 as int), i)
    }

    /// Node `i` has valid coordinates and well-formed links.
    pub open spec fn node_wf(&self, i: int) -> bool {
        &&& valid_coord(self.nodes@[i].lat as int, self.nodes@[i].lon as int)
        &&& forall|j: int| 0 <= j < self.node_links(i).len() ==> self.link_wf(i, j)
    }

    /// The arena invariant: the eta scratch array tracks the node array,
    /// transient nodes are a suffix, every link is internal and symmetric,
    /// and the id index points into the permanent prefix.
    pub open spec fn wf(&self) -> bool {
        &&& self.etas@.len() == self.nodes@.len()
        &&& self.additional_nodes_num as int <= self.nodes@.len()
        &&& forall|i: int| 0 <= i < self.nodes@.len() ==> #[trigger] self.node_wf(i)
        &&& forall|k: u64|
            self.node_map@.contains_key(k) ==> (#[trigger] self.node_map@[k]).0
                < self.perm_len()
    }

    /// Every node's arrival time is reset to the unreached sentinel.
    pub open spec fn all_unreached(&self) -> bool {
        forall|i: int| 0 <= i < self.etas@.len() ==> self.etas@[i] == UNREACHED
    }

    pub fn new() -> (g: Self)
        ensures
            g.wf(),
            g.nodes@.len() == 0,
            g.etas@.len() == 0,
            g.node_map@ == Map::<u64, NodeId>::empty(),
            g.additional_nodes_num == 0,
            g.all_unreached(),
    {
        RoadGraph {
            node_map: HashMap::new(),
            nodes: Vec::new(),
            etas: Vec::new(),
            additional_nodes_num: 0,
        }
    }

    /// Shared access to a node by index.
    pub fn node(&self, id: NodeId) -> (n: &Node)
        requires
            id.0 < self.nodes@.len(),
        ensures
            *n == self.nodes@[id.0 as int],
    {
        &self.nodes[id.0]
    }

    /// Mutable access to a node by index. The caller is responsible for
    /// keeping the arena well formed.
    pub fn node_mut(&mut self, id: NodeId) -> (n: &mut Node)
        requires
            id.0 < old(self).nodes@.len(),
        ensures
            *n == old(self).nodes@[id.0 as int],
            final(self).nodes@ == old(self).nodes@.update(id.0 as int, *final(n)),
            final(self).etas@ == old(self).etas@,
            final(self).node_map@ == old(self).node_map@,
            final(self).additional_nodes_num == old(self).additional_nodes_num,
    {
        &mut self.nodes[id.0]
    }

    /// Appends a permanent node, registering its external id, and returns
    /// its dense index.
    pub fn add_node(&mut self, node: Node) -> (r: NodeId)
        requires
            old(self).wf(),
            old(self).additional_nodes_num == 0,
            node.nodes@.len() == 0,
            valid_coord(node.lat as int, node.lon as int),
        ensures
            final(self).wf(),
            final(self).additional_nodes_num == 0,
            r.0 == old(self).nodes@.len(),
            final(self).nodes@.len() == old(self).nodes@.len() + 1,
            final(self).etas@ == old(self).etas@.push(UNREACHED),
            forall|i: int|
                0 <= i < old(self).nodes@.len() ==> node_data_eq(
                    #[trigger] final(self).nodes@[i],
                    old(self).nodes@[i],
                ),
            node_data_eq(final(self).nodes@[old(self).nodes@.len() as int], node),
            final(self).node_map@ == old(self).node_map@.insert(
                node.id,
                NodeId(old(self).nodes@.len() as usize),
            ),
            old(self).all_unreached() ==> final(self).all_unreached(),
    {
        let id = NodeId(self.nodes.len());
        self.node_map.insert(node.id, id);
        self.nodes.push(node);
        self.etas.push(UNREACHED);
        proof {
            let newg = *self;
            let n = newg.nodes@.len() as int;
            assert forall|i: int| 0 <= i < n implies #[trigger] newg.node_wf(i) by {
                if i < n - 1 {
                    assert(old(self).node_wf(i));
                    assert(newg.node_links(i) == old(self).node_links(i));
                    assert forall|j: int|
                        0 <= j < newg.node_links(i).len() implies newg.link_wf(i, j) by {
                        assert(old(self).link_wf(i, j));
                        let l = old(self).node_links(i)[j];
                        assert(newg.node_links(l.node.0 as int) == old(self).node_links(
                            l.node.0 as int,
                        ));
                    }
                } else {
                    assert(newg.node_links(i).len() == 0);
                }
            }
        }
        id
    }

    /// Appends a permanent plain road node for a waypoint.
    pub fn add_map_point(&mut self, p: &MapPoint) -> (r: NodeId)
        requires
            old(self).wf(),
            old(self).additional_nodes_num == 0,
            valid_coord(p.lat as int, p.lon as int),
        ensures
            final(self).wf(),
            final(self).additional_nodes_num == 0,
            r.0 == old(self).nodes@.len(),
            final(self).nodes@.len() == old(self).nodes@.len() + 1,
            final(self).etas@ == old(self).etas@.push(UNREACHED),
            forall|i: int|
                0 <= i < old(self).nodes@.len() ==> node_data_eq(
                    #[trigger] final(self).nodes@[i],
                    old(self).nodes@[i],
                ),
            ({
                let n = final(self).nodes@[old(self).nodes@.len() as int];
                n.id == p.id && n.lat == p.lat && n.lon == p.lon && n.kind is Plain
                    && n.nodes@.len() == 0
            }),
            final(self).node_map@ == old(self).node_map@.insert(
                p.id,
                NodeId(old(self).nodes@.len() as usize),
            ),
            old(self).all_unreached() ==> final(self).all_unreached(),
    {
        self.add_node(
            Node {
                nodes: Vec::new(),
                id: p.id,
                kind: NodeKind::Plain,
                lat: p.lat,
                lon: p.lon,
            },
        )
    }

    /// Appends a transient car node for a scheduled vehicle position; its
    /// fixed schedule time is set afterwards with `set_car_node_eta`.
    pub fn add_car_map_point(&mut self, p: &MapPoint, free_seats: u8, path_id: u64) -> (r: NodeId)
        requires
            old(self).wf(),
            old(self).additional_nodes_num < u32::MAX,
            valid_coord(p.lat as int, p.lon as int),
        ensures
            final(self).wf(),
            final(self).additional_nodes_num == old(self).additional_nodes_num + 1,
            r.0 == old(self).nodes@.len(),
            final(self).nodes@.len() == old(self).nodes@.len() + 1,
            final(self).etas@ == old(self).etas@.push(UNREACHED),
            forall|i: int|
                0 <= i < old(self).nodes@.len() ==> node_data_eq(
                    #[trigger] final(self).nodes@[i],
                    old(self).nodes@[i],
                ),
            ({
                let n = final(self).nodes@[old(self).nodes@.len() as int];
                n.id == p.id && n.lat == p.lat && n.lon == p.lon && n.kind == (NodeKind::Car {
                    eta: 0,
                    free_seats,
                    path_id,
                }) && n.nodes@.len() == 0
            }),
            final(self).node_map@ == old(self).node_map@,
            old(self).all_unreached() ==> final(self).all_unreached(),
    {
        self.additional_nodes_num = self.additional_nodes_num + 1;
        self.nodes.push(
            Node {
                nodes: Vec::new(),
                id: p.id,
                kind: NodeKind::Car { eta: 0, free_seats, path_id },
                lat: p.lat,
                lon: p.lon,
            },
        );
        self.etas.push(UNREACHED);
        let r = NodeId(self.nodes.len() - 1);
        proof {
            let newg = *self;
            let n = newg.nodes@.len() as int;
            assert forall|i: int| 0 <= i < n implies #[trigger] newg.node_wf(i) by {
                if i < n - 1 {
                    assert(old(self).node_wf(i));
                    assert(newg.node_links(i) == old(self).node_links(i));
                    assert forall|j: int|
                        0 <= j < newg.node_links(i).len() implies newg.link_wf(i, j) by {
                        assert(old(self).link_wf(i, j));
                        let l = old(self).node_links(i)[j];
                        assert(newg.node_links(l.node.0 as int) == old(self).node_links(
                            l.node.0 as int,
                        ));
                    }
                } else {
                    assert(newg.node_links(i).len() == 0);
                }
            }
        }
        r
    }

    /// Appends a transient car node already carrying its fixed schedule
    /// time.
    pub fn add_car_map_point_at(
        &mut self,
        p: &MapPoint,
        free_seats: u8,
        path_id: u64,
        eta: i64,
    ) -> (r: NodeId)
        requires
            old(self).wf(),
            old(self).additional_nodes_num < u32::MAX,
            valid_coord(p.lat as int, p.lon as int),
        ensures
            final(self).wf(),
            final(self).additional_nodes_num == old(self).additional_nodes_num + 1,
            r.0 == old(self).nodes@.len(),
            final(self).nodes@.len() == old(self).nodes@.len() + 1,
            final(self).etas@ == old(self).etas@.push(UNREACHED),
            forall|i: int|
                0 <= i < old(self).nodes@.len() ==> node_data_eq(
                    #[trigger] final(self).nodes@[i],
                    old(self).nodes@[i],
                ),
            ({
                let n = final(self).nodes@[old(self).nodes@.len() as int];
                n.id == p.id && n.lat == p.lat && n.lon == p.lon && n.kind == (NodeKind::Car {
                    eta,
                    free_seats,
                    path_id,
                }) && n.nodes@.len() == 0
            }),
            final(self).node_map@ == old(self).node_map@,
            old(self).all_unreached() ==> final(self).all_unreached(),
    {
        let r = self.add_car_map_point(p, free_seats, path_id);
        let ghost mid = *self;
        self.set_car_node_eta(r, eta);
        proof {
            assert forall|i: int| 0 <= i < old(self).nodes@.len() implies node_data_eq(
                #[trigger] self.nodes@[i],
                old(self).nodes@[i],
            ) by {
                assert(i != r.0);
                assert(node_data_eq(self.nodes@[i], mid.nodes@[i]));
                assert(node_data_eq(mid.nodes@[i], old(self).nodes@[i]));
            }
            assert(self.etas@ == mid.etas@);
        }
        r
    }

    /// Overwrites the fixed schedule time of a car node; a plain node is
    /// left unchanged.
    pub fn set_car_node_eta(&mut self, id: NodeId, eta: i64)
        requires
            old(self).wf(),
            id.0 < old(self).nodes@.len(),
        ensures
            final(self).wf(),
            final(self).nodes@.len() == old(self).nodes@.len(),
            final(self).etas@ == old(self).etas@,
            final(self).node_map@ == old(self).node_map@,
            final(self).additional_nodes_num == old(self).additional_nodes_num,
            forall|i: int|
                0 <= i < old(self).nodes@.len() && i != id.0 ==> node_data_eq(
                    #[trigger] final(self).nodes@[i],
                    old(self).nodes@[i],
                ),
            ({
                let n = final(self).nodes@[id.0 as int];
                let o = old(self).nodes@[id.0 as int];
                n.id == o.id && n.lat == o.lat && n.lon == o.lon && n.nodes@ == o.nodes@
                    && n.kind == (match o.kind {
                    NodeKind::Car { free_seats, path_id, .. } => NodeKind::Car {
                        eta,
                        free_seats,
                        path_id,
                    },
                    NodeKind::Plain => NodeKind::Plain,
                })
            }),
    {
        let n = &mut self.nodes[id.0];
        match n.kind {
            NodeKind::Car { free_seats, path_id, .. } => {
                n.kind = NodeKind::Car { eta, free_seats, path_id };
            },
            NodeKind::Plain => {},
        }
        proof {
            let newg = *self;
            let n_all = newg.nodes@.len() as int;
            assert forall|i: int| 0 <= i < n_all implies #[trigger] newg.node_wf(i) by {
                assert(old(self).node_wf(i));
                assert(newg.node_links(i) == old(self).node_links(i));
                assert forall|j: int|
                    0 <= j < newg.node_links(i).len() implies newg.link_wf(i, j) by {
                    assert(old(self).link_wf(i, j));
                    let l = old(self).node_links(i)[j];
                    assert(newg.node_links(l.node.0 as int) == old(self).node_links(
                        l.node.0 as int,
                    ));
                }
            }
        }
    }

    /// Wires a two-way connection: one link appended on each endpoint, with
    /// equal length and mode.
    pub fn connect_two_way(&mut self, n1_id: NodeId, n2_id: NodeId, len: u32, road_kind: TransportKind)
        requires
            old(self).wf(),
            n1_id.0 < old(self).nodes@.len(),
            n2_id.0 < old(self).nodes@.len(),
            n1_id.0 != n2_id.0,
        ensures
            final(self).wf(),
            final(self).nodes@.len() == old(self).nodes@.len(),
            final(self).etas@ == old(self).etas@,
            final(self).node_map@ == old(self).node_map@,
            final(self).additional_nodes_num == old(self).additional_nodes_num,
            forall|i: int|
                0 <= i < old(self).nodes@.len() && i != n1_id.0 && i != n2_id.0 ==> node_data_eq(
                    #[trigger] final(self).nodes@[i],
                    old(self).nodes@[i],
                ),
            ({
                let n = final(self).nodes@[n1_id.0 as int];
                let o = old(self).nodes@[n1_id.0 as int];
                n.id == o.id && n.lat == o.lat && n.lon == o.lon && n.kind == o.kind && n.nodes@
                    == o.nodes@.push(NodeLink { node: n2_id, len, kind: road_kind })
            }),
            ({
                let n = final(self).nodes@[n2_id.0 as int];
                let o = old(self).nodes@[n2_id.0 as int];
                n.id == o.id && n.lat == o.lat && n.lon == o.lon && n.kind == o.kind && n.nodes@
                    == o.nodes@.push(NodeLink { node: n1_id, len, kind: road_kind })
            }),
    {
        let n1 = &mut self.nodes[n1_id.0];
        n1.nodes.push(NodeLink { node: n2_id, len, kind: road_kind });
        let n2 = &mut self.nodes[n2_id.0];
        n2.nodes.push(NodeLink { node: n1_id, len, kind: road_kind });
        proof {
            let newg = *self;
            let oldg = *old(self);
            let n_all = newg.nodes@.len() as int;
            let a = n1_id.0 as int;
            let b = n2_id.0 as int;
            assert(newg.node_links(a) == oldg.node_links(a).push(
                NodeLink { node: n2_id, len, kind: road_kind },
            ));
            assert(newg.node_links(b) == oldg.node_links(b).push(
                NodeLink { node: n1_id, len, kind: road_kind },
            ));
            assert forall|i: int| 0 <= i < n_all implies #[trigger] newg.node_wf(i) by {
                assert(oldg.node_wf(i));
                assert forall|j: int|
                    0 <= j < newg.node_links(i).len() implies newg.link_wf(i, j) by {
                    let links = newg.node_links(i);
                    let l = links[j];
                    if i == a && j == oldg.node_links(a).len() {
                        assert(l.node.0 == b);
                        let tlinks = newg.node_links(b);
                        assert(tlinks[oldg.node_links(b).len() as int].node.0 == a);
                        assert(has_link_to(tlinks, a));
                    } else if i == b && j == oldg.node_links(b).len() {
                        assert(l.node.0 == a);
                        let tlinks = newg.node_links(a);
                        assert(tlinks[oldg.node_links(a).len() as int].node.0 == b);
                        assert(has_link_to(tlinks, b));
                    } else {
                        assert(l == oldg.node_links(i)[j]);
                        assert(oldg.link_wf(i, j));
                        let t = l.node.0 as int;
                        let k = choose|k: int|
                            0 <= k < oldg.node_links(t).len() && (#[trigger] oldg.node_links(
                                t,
                            )[k]).node.0 == i;
                        assert(newg.node_links(t)[k].node.0 == i);
                        assert(has_link_to(newg.node_links(t), i));
                    }
                }
            }
        }
    }

    /// Pops every transient node in reverse insertion order, removing each
    /// link any remaining node holds toward it, and resets every arrival
    /// time to the unreached sentinel. The permanent prefix keeps exactly
    /// its links into the permanent prefix: a graph that had no transients
    /// and no dangling links comes back identical.
    fn reset_graph(&mut self)
        requires
            old(self).wf(),
        ensures
            final(self).wf(),
            final(self).additional_nodes_num == 0,
            final(self).nodes@.len() == old(self).perm_len(),
            final(self).etas@.len() == old(self).perm_len(),
            final(self).node_map@ == old(self).node_map@,
            final(self).all_unreached(),
            forall|i: int|
                0 <= i < old(self).perm_len() ==> node_restored(
                    #[trigger] final(self).nodes@[i],
                    old(self).nodes@[i],
                    old(self).perm_len(),
                ),
    {
        let ghost g0 = *old(self);
        proof {
            assert forall|i: int| 0 <= i < self.nodes@.len() implies node_restored(
                #[trigger] self.nodes@[i],
                g0.nodes@[i],
                self.nodes@.len() as int,
            ) by {
                assert(g0.node_wf(i));
                assert forall|k: int| 0 <= k < g0.node_links(i).len() implies ((
                #[trigger] g0.node_links(i)[k]).node.0 as int) < g0.nodes@.len() as int by {
                    assert(g0.link_wf(i, k));
                }
                lemma_below_all(g0.node_links(i), g0.nodes@.len() as int);
                assert(self.nodes@[i].nodes@ == links_below(g0.nodes@[i].nodes@,
                self.nodes@.len() as int));
            }
        }
        while self.additional_nodes_num > 0
            invariant
                self.wf(),
                self.perm_len() == g0.perm_len(),
                self.additional_nodes_num <= g0.additional_nodes_num,
                self.nodes@.len() == g0.perm_len() + self.additional_nodes_num,
                self.node_map@ == g0.node_map@,
                forall|i: int|
                    0 <= i < self.nodes@.len() ==> node_restored(
                        #[trigger] self.nodes@[i],
                        g0.nodes@[i],
                        self.nodes@.len() as int,
                    ),
            decreases self.additional_nodes_num,
        {
            let ghost s0 = *self;
            let t: usize = self.nodes.len() - 1;
            let popped = self.nodes.pop().unwrap();
            let _popped_eta = self.etas.pop();
            self.additional_nodes_num = self.additional_nodes_num - 1;
            let ghost pre = *self;
            proof {
                assert(popped.nodes@ == s0.node_links(t as int));
                assert forall|i: int| 0 <= i < t implies pre.node_links(i) == s0.node_links(i)
                    && node_data_eq(pre.nodes@[i], s0.nodes@[i]) by {}
            }
            let mut j: usize = 0;
            while j < popped.nodes.len()
                invariant
                    j <= popped.nodes@.len(),
                    t < pre.nodes@.len() + 1,
                    self.nodes@.len() == pre.nodes@.len(),
                    self.etas@ == pre.etas@,
                    self.node_map@ == pre.node_map@,
                    self.additional_nodes_num == pre.additional_nodes_num,
                    forall|i: int|
                        0 <= i < self.nodes@.len() ==> node_fields_eq(
                            #[trigger] self.nodes@[i],
                            pre.nodes@[i],
                        ),
                    forall|i: int|
                        0 <= i < self.nodes@.len() ==> #[trigger] self.node_links(i) == (
                        if covered(popped.nodes@, j as int, i) {
                            links_except(pre.node_links(i), t as int)
                        } else {
                            pre.node_links(i)
                        }),
                decreases popped.nodes@.len() - j,
            {
                let tgt: usize = popped.nodes[j].node.0;
                if tgt < self.nodes.len() {
                    let ghost cur = *self;
                    let newlinks = links_without(&self.nodes[tgt].nodes, t);
                    let nref = &mut self.nodes[tgt];
                    nref.nodes = newlinks;
                    proof {
                        assert(self.nodes@ == cur.nodes@.update(
                            tgt as int,
                            self.nodes@[tgt as int],
                        ));
                        assert(node_fields_eq(self.nodes@[tgt as int], cur.nodes@[tgt as int]));
                        assert(self.node_links(tgt as int) == links_except(
                            cur.node_links(tgt as int),
                            t as int,
                        ));
                        if covered(popped.nodes@, j as int, tgt as int) {
                            lemma_except_idempotent(pre.node_links(tgt as int), t as int);
                        }
                        assert(self.node_links(tgt as int) == links_except(
                            pre.node_links(tgt as int),
                            t as int,
                        ));
                        assert forall|i: int|
                            0 <= i < self.nodes@.len() implies #[trigger] self.node_links(i) == (
                        if covered(popped.nodes@, j + 1, i) {
                            links_except(pre.node_links(i), t as int)
                        } else {
                            pre.node_links(i)
                        }) by {
                            if i != tgt {
                                assert(self.node_links(i) == cur.node_links(i));
                                if covered(popped.nodes@, j + 1, i) {
                                    let k = choose|k: int|
                                        0 <= k < j + 1 && (#[trigger] popped.nodes@[k]).node.0
                                            == i;
                                    assert(k < j);
                                    assert(covered(popped.nodes@, j as int, i));
                                }
                            }
                        }
                    }
                } else {
                    proof {
                        assert forall|i: int|
                            0 <= i < self.nodes@.len() implies #[trigger] self.node_links(i) == (
                        if covered(popped.nodes@, j + 1, i) {
                            links_except(pre.node_links(i), t as int)
                        } else {
                            pre.node_links(i)
                        }) by {
                            if covered(popped.nodes@, j + 1, i) && !covered(
                                popped.nodes@,
                                j as int,
                                i,
                            ) {
                                let k = choose|k: int|
                                    0 <= k < j + 1 && (#[trigger] popped.nodes@[k]).node.0 == i;
                                assert(k == j);
                                assert(false);
                            }
                        }
                    }
                }
                j = j + 1;
            }
            proof {
                let tt = t as int;
                // Every remaining node now holds exactly its links away from t.
                assert forall|i: int| 0 <= i < self.nodes@.len() implies #[trigger] self
                    .node_links(i) == links_except(pre.node_links(i), tt) by {
                    if !covered(popped.nodes@, popped.nodes@.len() as int, i) {
                        // Symmetry of the pre-pop state: a link i -> t would
                        // have a partner among the popped node's links.
                        assert forall|k: int|
                            0 <= k < pre.node_links(i).len() implies ((
                        #[trigger] pre.node_links(i)[k]).node.0 as int) != tt by {
                            if (pre.node_links(i)[k].node.0 as int) == tt {
                                assert(s0.node_links(i) == pre.node_links(i));
                                assert(s0.node_wf(i));
                                assert(s0.link_wf(i, k));
                                assert(has_link_to(s0.node_links(tt), i));
                                let m = choose|m: int|
                                    0 <= m < s0.node_links(tt).len() && (
                                    #[trigger] s0.node_links(tt)[m]).node.0 == i;
                                assert(covered(popped.nodes@, popped.nodes@.len() as int, i));
                                assert(false);
                            }
                        }
                        lemma_except_noop(pre.node_links(i), tt);
                    }
                }
                // Relate back to the original graph: one more index dropped.
                assert forall|i: int| 0 <= i < self.nodes@.len() implies node_restored(
                    #[trigger] self.nodes@[i],
                    g0.nodes@[i],
                    self.nodes@.len() as int,
                ) by {
                    assert(self.nodes@.len() as int == tt);
                    assert(node_restored(s0.nodes@[i], g0.nodes@[i], s0.nodes@.len() as int));
                    assert(s0.node_links(i) == links_below(g0.node_links(i), tt + 1));
                    assert(pre.node_links(i) == s0.node_links(i));
                    assert(self.node_links(i) == links_except(pre.node_links(i), tt));
                    lemma_below_except(g0.node_links(i), tt);
                    assert(self.node_links(i) == links_below(g0.node_links(i), tt));
                    assert(self.nodes@[i].nodes@ == links_below(g0.nodes@[i].nodes@, tt));
                    assert(node_fields_eq(self.nodes@[i], pre.nodes@[i]));
                    assert(node_fields_eq(pre.nodes@[i], s0.nodes@[i]));
                    assert(node_fields_eq(s0.nodes@[i], g0.nodes@[i]));
                }
                // Re-establish well-formedness.
                assert forall|i: int| 0 <= i < self.nodes@.len() implies #[trigger] self.node_wf(
                    i,
                ) by {
                    assert(s0.node_wf(i));
                    assert forall|k: int|
                        0 <= k < self.node_links(i).len() implies self.link_wf(i, k) by {
                        let l = self.node_links(i)[k];
                        lemma_except_elems(pre.node_links(i), tt);
                        let m = choose|m: int|
                            0 <= m < pre.node_links(i).len() && (#[trigger] pre.node_links(
                                i,
                            )[m]) == l;
                        assert(s0.link_wf(i, m));
                        assert((l.node.0 as int) < s0.nodes@.len());
                        assert((l.node.0 as int) != tt);
                        let x = l.node.0 as int;
                        assert(has_link_to(s0.node_links(x), i));
                        assert(self.node_links(x) == links_except(pre.node_links(x), tt));
                        lemma_except_has_link(s0.node_links(x), tt, i);
                    }
                }
            }
        }
        let n_perm: usize = self.etas.len();
        let ghost before_reset = *self;
        let mut i: usize = 0;
        while i < n_perm
            invariant
                i <= n_perm,
                n_perm == self.etas@.len(),
                self.nodes@ == before_reset.nodes@,
                self.node_map@ == before_reset.node_map@,
                self.additional_nodes_num == before_reset.additional_nodes_num,
                self.etas@.len() == before_reset.etas@.len(),
                forall|k: int| 0 <= k < i ==> self.etas@[k] == UNREACHED,
            decreases n_perm - i,
        {
            self.etas[i] = UNREACHED;
            i = i + 1;
        }
        proof {
            assert forall|i2: int| 0 <= i2 < self.nodes@.len() implies #[trigger] self.node_wf(
                i2,
            ) by {
                assert(before_reset.node_wf(i2));
                assert forall|j2: int|
                    0 <= j2 < self.node_links(i2).len() implies self.link_wf(i2, j2) by {
                    assert(before_reset.link_wf(i2, j2));
                }
            }
        }
    }

    /// Dense index of the permanent node with the given external map id.
    pub fn node_id_by_osm_id(&self, id: u64) -> (r: Option<NodeId>)
        ensures
            match r {
                Some(nid) => self.node_map@.contains_key(id) && nid == self.node_map@[id],
                None => !self.node_map@.contains_key(id),
            },
    {
        match self.node_map.get(&id) {
            Some(nid) => Some(*nid),
            None => None,
        }
    }
}

/// Whether the requested travel mode may traverse a link: foot walks every
/// edge; car needs a car-capable edge, but may always transfer between a
/// plain road node and a car node, whatever the edge's tag.
pub open spec fn spec_link_allowed(
    mode: TransportKind,
    link_kind: TransportKind,
    from_kind: NodeKind,
    to_kind: NodeKind,
) -> bool {
    ||| mode is Foot
    ||| link_kind is Car
    ||| ((from_kind is Plain) != (to_kind is Plain))
}

fn link_allowed(mode: TransportKind, link_kind: TransportKind, from_kind: &NodeKind, to_kind: &NodeKind) -> (r: bool)
    ensures
        r == spec_link_allowed(mode, link_kind, *from_kind, *to_kind),
{
    if mode.is_foot() {
        true
    } else if link_kind.is_car() {
        true
    } else {
        let fp = matches!(from_kind, NodeKind::Plain);
        let tp = matches!(to_kind, NodeKind::Plain);
        fp != tp
    }
}

/// The scheduled arrival time a car node carries (zero for a plain node).
pub open spec fn car_sched(k: NodeKind) -> int {
    match k {
        NodeKind::Plain => 0,
        NodeKind::Car { eta, .. } => eta as int,
    }
}

/// Cost in milliseconds of relaxing from a settled node into a neighbor:
/// road-to-road at the mode's speed, boarding a car only at or before its
/// scheduled time for the remaining wait plus the flat penalty, leaving a
/// car for the flat penalty, riding car-to-car at car speed. `None` means
/// the step is impossible (the car has already left).
pub open spec fn spec_step_cost(
    mode: TransportKind,
    from_kind: NodeKind,
    from_eta: u64,
    to_kind: NodeKind,
    link_len: u32,
) -> Option<int> {
    match from_kind {
        NodeKind::Plain => match to_kind {
            NodeKind::Plain => Some(
                crate::geo::spec_travel_time_ms(link_len as int, crate::geo::spec_speed_kmh(mode)),
            ),
            NodeKind::Car { eta: sched, .. } => if from_eta as int <= sched as int {
                Some(ROAD_TO_CAR as int + sched - from_eta)
            } else {
                None
            },
        },
        NodeKind::Car { .. } => match to_kind {
            NodeKind::Plain => Some(ROAD_TO_CAR as int),
            NodeKind::Car { .. } => Some(crate::geo::spec_travel_time_ms(link_len as int, 50)),
        },
    }
}

/// Boarding-time law: a priced step from a plain road node onto a car node
/// exists only when the traveler's settled time is at or before the car's
/// scheduled time, and then costs exactly the remaining wait plus the flat
/// boarding penalty.
pub proof fn lemma_boarding_needs_schedule(
    mode: TransportKind,
    from_kind: NodeKind,
    from_eta: u64,
    to_kind: NodeKind,
    link_len: u32,
)
    requires
        from_kind is Plain,
        to_kind is Car,
        spec_step_cost(mode, from_kind, from_eta, to_kind, link_len) is Some,
    ensures
        from_eta as int <= car_sched(to_kind),
        spec_step_cost(mode, from_kind, from_eta, to_kind, link_len) == Some(
            ROAD_TO_CAR as int + car_sched(to_kind) - from_eta,
        ),
{
}

fn step_cost(mode: TransportKind, from_kind: &NodeKind, from_eta: u64, to_kind: &NodeKind, link_len: u32) -> (r: Option<u64>)
    ensures
        ({
            let sc = spec_step_cost(mode, *from_kind, from_eta, *to_kind, link_len);
            match r {
                Some(c) => sc == Some(c as int),
                None => sc is None,
            }
        }),
{
    match from_kind {
        NodeKind::Plain => match to_kind {
            NodeKind::Plain => Some(crate::geo::travel_time_ms(link_len, mode.get_speed())),
            NodeKind::Car { eta, .. } => {
                let sched: i64 = *eta;
                if sched >= 0 && from_eta <= sched as u64 {
                    Some((ROAD_TO_CAR as u64) + ((sched as u64) - from_eta))
                } else {
                    None
                }
            },
        },
        NodeKind::Car { .. } => match to_kind {
            NodeKind::Plain => Some(ROAD_TO_CAR as u64),
            NodeKind::Car { .. } => Some(crate::geo::travel_time_ms(link_len, Kmh(50))),
        },
    }
}

/// Addition on u64 clamped at the top of the range.
pub open spec fn spec_sat_add(a: u64, b: u64) -> u64 {
    if a + b > u64::MAX {
        u64::MAX
    } else {
        (a + b) as u64
    }
}

/// Every link of every node stays inside the arena.
pub open spec fn links_in_range(nodes: Seq<Node>) -> bool {
    forall|i: int, j: int|
        0 <= i < nodes.len() && 0 <= j < nodes[i].nodes@.len() ==> ((
        #[trigger] nodes[i].nodes@[j]).node.0 as int) < nodes.len()
}

/// Every node carries valid coordinates.
pub open spec fn coords_ok(nodes: Seq<Node>) -> bool {
    forall|i: int|
        0 <= i < nodes.len() ==> valid_coord(
            (#[trigger] nodes[i]).lat as int,
            nodes[i].lon as int,
        )
}

/// A priced forward step of a route: the later node holds a link back to
/// the earlier one whose length accounts for the distance delta and whose
/// step cost accounts exactly for the arrival-time delta.
pub open spec fn step_ok_via(
    nodes: Seq<Node>,
    mode: TransportKind,
    prev: int,
    curr: int,
    eta_prev: u64,
    eta_curr: u64,
    dist_prev: u64,
    dist_curr: u64,
    l: NodeLink,
) -> bool {
    &&& (l.node.0 as int) == prev
    &&& spec_link_allowed(mode, l.kind, nodes[prev].kind, nodes[curr].kind)
    &&& eta_prev < eta_curr
    &&& spec_step_cost(mode, nodes[prev].kind, eta_prev, nodes[curr].kind, l.len) == Some(
        eta_curr - eta_prev,
    )
    &&& dist_curr == spec_sat_add(dist_prev, l.len as u64)
}

pub open spec fn step_ok(
    nodes: Seq<Node>,
    mode: TransportKind,
    prev: int,
    curr: int,
    eta_prev: u64,
    eta_curr: u64,
    dist_prev: u64,
    dist_curr: u64,
) -> bool {
    exists|j: int|
        0 <= j < nodes[curr].nodes@.len() && step_ok_via(
            nodes,
            mode,
            prev,
            curr,
            eta_prev,
            eta_curr,
            dist_prev,
            dist_curr,
            #[trigger] nodes[curr].nodes@[j],
        )
}

/// A structurally valid route through `nodes` from `start` to `end`: the
/// witness `trace` lists the node index behind every returned point, the
/// cumulative lists start at zero and are accounted for step by step, and
/// the totals equal the last entries.
pub open spec fn route_ok(
    nodes: Seq<Node>,
    mode: TransportKind,
    start: int,
    end: int,
    pr: PathResult,
    trace: Seq<usize>,
) -> bool {
    let k = pr.points@.len() as int;
    &&& trace.len() == k
    &&& pr.eta_list@.len() == k
    &&& pr.distance_list@.len() == k
    &&& k >= 1
    &&& (trace[0] as int) == start
    &&& (trace[k - 1] as int) == end
    &&& pr.eta_list@[0] == 0
    &&& pr.distance_list@[0] == 0
    &&& pr.total_time == pr.eta_list@[k - 1]
    &&& pr.total_distance == pr.distance_list@[k - 1]
    &&& forall|m: int| 0 <= m < k ==> (#[trigger] trace[m] as int) < nodes.len()
    &&& forall|m: int|
        0 <= m < k ==> pr.points@[m] == spec_point_of(nodes[#[trigger] trace[m] as int])
    &&& forall|m: int|
        0 <= m < k - 1 ==> step_ok(
            nodes,
            mode,
            trace[m] as int,
            #[trigger] trace[m + 1] as int,
            pr.eta_list@[m],
            pr.eta_list@[m + 1],
            pr.distance_list@[m],
            pr.distance_list@[m + 1],
        )
}

/// A torn-down graph whose source had no transient nodes and no dangling
/// links comes back with every node equal to its original, link for link.
pub proof fn lemma_teardown_exact(pre: RoadGraph, post: RoadGraph)
    requires
        pre.wf(),
        pre.additional_nodes_num == 0,
        post.nodes@.len() == pre.perm_len(),
        forall|i: int|
            0 <= i < pre.perm_len() ==> node_restored(
                #[trigger] post.nodes@[i],
                pre.nodes@[i],
                pre.perm_len(),
            ),
    ensures
        forall|i: int|
            0 <= i < pre.nodes@.len() ==> node_data_eq(#[trigger] post.nodes@[i], pre.nodes@[i]),
{
    assert forall|i: int| 0 <= i < pre.nodes@.len() implies node_data_eq(
        #[trigger] post.nodes@[i],
        pre.nodes@[i],
    ) by {
        assert(pre.node_wf(i));
        assert forall|k: int| 0 <= k < pre.node_links(i).len() implies ((
        #[trigger] pre.node_links(i)[k]).node.0 as int) < pre.perm_len() by {
            assert(pre.link_wf(i, k));
        }
        lemma_below_all(pre.node_links(i), pre.perm_len());
        assert(post.nodes@[i].nodes@ == pre.node_links(i));
    }
}

/// Internally consistent route lists: equal lengths, cumulative lists that
/// start at zero and never decrease, totals equal to the last entries.
pub open spec fn lists_consistent(pr: PathResult) -> bool {
    let k = pr.points@.len() as int;
    &&& pr.eta_list@.len() == k
    &&& pr.distance_list@.len() == k
    &&& k >= 1
    &&& pr.eta_list@[0] == 0
    &&& pr.distance_list@[0] == 0
    &&& pr.total_time == pr.eta_list@[k - 1]
    &&& pr.total_distance == pr.distance_list@[k - 1]
    &&& forall|m: int| 0 <= m < k - 1 ==> #[trigger] pr.eta_list@[m] < pr.eta_list@[m + 1]
    &&& forall|m: int|
        0 <= m < k - 1 ==> #[trigger] pr.distance_list@[m] <= pr.distance_list@[m + 1]
}

/// A structurally valid route has internally consistent lists.
#[verifier::rlimit(60)]
pub proof fn lemma_route_lists(
    nodes: Seq<Node>,
    mode: TransportKind,
    start: int,
    end: int,
    pr: PathResult,
    trace: Seq<usize>,
)
    requires
        route_ok(nodes, mode, start, end, pr, trace),
    ensures
        lists_consistent(pr),
{
    let k = pr.points@.len() as int;
    assert forall|m: int|
        0 <= m < k - 1 implies #[trigger] pr.eta_list@[m] < pr.eta_list@[m + 1] by {
        lemma_route_step(nodes, mode, start, end, pr, trace, m);
    }
    assert forall|m: int|
        0 <= m < k - 1 implies #[trigger] pr.distance_list@[m] <= pr.distance_list@[m + 1] by {
        lemma_route_step(nodes, mode, start, end, pr, trace, m);
    }
}

/// One step of a structurally valid route raises the arrival time and does
/// not lower the cumulative distance.
proof fn lemma_route_step(
    nodes: Seq<Node>,
    mode: TransportKind,
    start: int,
    end: int,
    pr: PathResult,
    trace: Seq<usize>,
    m: int,
)
    requires
        route_ok(nodes, mode, start, end, pr, trace),
        0 <= m < pr.points@.len() - 1,
    ensures
        pr.eta_list@[m] < pr.eta_list@[m + 1],
        pr.distance_list@[m] <= pr.distance_list@[m + 1],
{
    assert(step_ok(
            nodes,
            mode,
            trace[m] as int,
            trace[m + 1] as int,
            pr.eta_list@[m],
            pr.eta_list@[m + 1],
            pr.distance_list@[m],
            pr.distance_list@[m + 1],
        ));
        let j = choose|j: int|
            0 <= j < nodes[trace[m + 1] as int].nodes@.len() && step_ok_via(
                nodes,
                mode,
                trace[m] as int,
                trace[m + 1] as int,
                pr.eta_list@[m],
                pr.eta_list@[m + 1],
                pr.distance_list@[m],
                pr.distance_list@[m + 1],
                #[trigger] nodes[trace[m + 1] as int].nodes@[j],
            );
}

/// Boarding-time law over whole routes: wherever a returned route steps
/// from a plain road node onto a car node, the road node's arrival time is
/// at or before the car's scheduled time — no route boards a vehicle that
/// has already left.
pub proof fn lemma_route_boarding(
    nodes: Seq<Node>,
    mode: TransportKind,
    start: int,
    end: int,
    pr: PathResult,
    trace: Seq<usize>,
    m: int,
)
    requires
        route_ok(nodes, mode, start, end, pr, trace),
        0 <= m < pr.points@.len() - 1,
        nodes[trace[m] as int].kind is Plain,
        nodes[trace[m + 1] as int].kind is Car,
    ensures
        pr.eta_list@[m] as int <= car_sched(nodes[trace[m + 1] as int].kind),
{
    assert(step_ok(
        nodes,
        mode,
        trace[m] as int,
        trace[m + 1] as int,
        pr.eta_list@[m],
        pr.eta_list@[m + 1],
        pr.distance_list@[m],
        pr.distance_list@[m + 1],
    ));
    let j = choose|j: int|
        0 <= j < nodes[trace[m + 1] as int].nodes@.len() && step_ok_via(
            nodes,
            mode,
            trace[m] as int,
            trace[m + 1] as int,
            pr.eta_list@[m],
            pr.eta_list@[m + 1],
            pr.distance_list@[m],
            pr.distance_list@[m + 1],
            #[trigger] nodes[trace[m + 1] as int].nodes@[j],
        );
    lemma_boarding_needs_schedule(
        mode,
        nodes[trace[m] as int].kind,
        pr.eta_list@[m],
        nodes[trace[m + 1] as int].kind,
        nodes[trace[m + 1] as int].nodes@[j].len,
    );
}

/// One step of a structurally valid route, extracted at a given position.
proof fn lemma_route_step_at(
    nodes: Seq<Node>,
    mode: TransportKind,
    start: int,
    end: int,
    pr: PathResult,
    trace: Seq<usize>,
    m: int,
)
    requires
        route_ok(nodes, mode, start, end, pr, trace),
        0 <= m < pr.points@.len() - 1,
    ensures
        step_ok(
            nodes,
            mode,
            trace[m] as int,
            trace[m + 1] as int,
            pr.eta_list@[m],
            pr.eta_list@[m + 1],
            pr.distance_list@[m],
            pr.distance_list@[m + 1],
        ),
{
}

/// Single-hop pricing law: a returned route of exactly two road points is
/// priced as one edge — its total distance is the length of a link the
/// destination holds back to the origin, and its total time is exactly
/// that length converted at the query mode's speed.
pub proof fn lemma_single_hop_route(
    nodes: Seq<Node>,
    mode: TransportKind,
    start: int,
    end: int,
    pr: PathResult,
    trace: Seq<usize>,
)
    requires
        route_ok(nodes, mode, start, end, pr, trace),
        pr.points@.len() == 2,
        nodes[start].kind is Plain,
        nodes[end].kind is Plain,
    ensures
        exists|j: int|
            0 <= j < nodes[end].nodes@.len() && ((#[trigger] nodes[end].nodes@[j]).node.0 as int)
                == start && pr.total_distance == nodes[end].nodes@[j].len
                && pr.total_time as int == crate::geo::spec_travel_time_ms(
                nodes[end].nodes@[j].len as int,
                crate::geo::spec_speed_kmh(mode),
            ),
{
    lemma_route_step_at(nodes, mode, start, end, pr, trace, 0);
    assert(trace[0int + 1] == trace[1]);
    assert(step_ok(
        nodes,
        mode,
        trace[0] as int,
        trace[1] as int,
        pr.eta_list@[0],
        pr.eta_list@[1],
        pr.distance_list@[0],
        pr.distance_list@[1],
    ));
    let j = choose|j: int|
        0 <= j < nodes[trace[1] as int].nodes@.len() && step_ok_via(
            nodes,
            mode,
            trace[0] as int,
            trace[1] as int,
            pr.eta_list@[0],
            pr.eta_list@[1],
            pr.distance_list@[0],
            pr.distance_list@[1],
            #[trigger] nodes[trace[1] as int].nodes@[j],
        );
    let l = nodes[end].nodes@[j];
    assert(pr.total_distance == spec_sat_add(0, l.len as u64));
    assert(pr.total_distance == l.len);
    assert(spec_step_cost(mode, nodes[start].kind, 0, nodes[end].kind, l.len) == Some(
        pr.total_time as int,
    ));
}

/// The all-empty, all-zero result of an unreachable query.
pub open spec fn empty_result(pr: PathResult) -> bool {
    &&& pr.points@.len() == 0
    &&& pr.eta_list@.len() == 0
    &&& pr.distance_list@.len() == 0
    &&& pr.total_time == 0
    &&& pr.total_distance == 0
}

/// One admissible forward step of a time-respecting walk, taken over a
/// specific link of the source node: the mode may traverse the link and
/// the step cost at the source's time prices the arrival exactly.
pub open spec fn walk_step_via(
    nodes: Seq<Node>,
    mode: TransportKind,
    u: int,
    v: int,
    eta_u: u64,
    eta_v: u64,
    l: NodeLink,
) -> bool {
    &&& (l.node.0 as int) == v
    &&& spec_link_allowed(mode, l.kind, nodes[u].kind, nodes[v].kind)
    &&& spec_step_cost(mode, nodes[u].kind, eta_u, nodes[v].kind, l.len) == Some(
        eta_v - eta_u,
    )
}

pub open spec fn walk_step_ok(
    nodes: Seq<Node>,
    mode: TransportKind,
    u: int,
    v: int,
    eta_u: u64,
    eta_v: u64,
) -> bool {
    exists|j: int|
        0 <= j < nodes[u].nodes@.len() && walk_step_via(
            nodes,
            mode,
            u,
            v,
            eta_u,
            eta_v,
            #[trigger] nodes[u].nodes@[j],
        )
}

/// A time-respecting walk from `start` to `end`: node indices with their
/// accrued arrival times below the unreached sentinel, departing at time
/// zero, every step admissible for the mode at its time.
pub open spec fn walk_ok(
    nodes: Seq<Node>,
    mode: TransportKind,
    walk: Seq<usize>,
    times: Seq<u64>,
    start: int,
    end: int,
) -> bool {
    &&& walk.len() == times.len()
    &&& walk.len() >= 1
    &&& (walk[0] as int) == start
    &&& (walk[walk.len() - 1] as int) == end
    &&& times[0] == 0
    &&& forall|m: int| 0 <= m < walk.len() ==> (#[trigger] walk[m] as int) < nodes.len()
    &&& forall|m: int| 0 <= m < times.len() ==> #[trigger] times[m] < UNREACHED
    &&& forall|m: int|
        0 <= m < walk.len() - 1 ==> walk_step_ok(
            nodes,
            mode,
            walk[m] as int,
            #[trigger] walk[m + 1] as int,
            times[m],
            times[m + 1],
        )
}

/// Every link is at least one centimeter long, so every step of a walk
/// costs at least one millisecond.
pub open spec fn no_zero_links(nodes: Seq<Node>) -> bool {
    forall|i: int, j: int|
        0 <= i < nodes.len() && 0 <= j < nodes[i].nodes@.len() ==> (#[trigger] nodes[i].nodes@[
        j]).len >= 1
}

/// Every link has a mirror on its target of equal length and mode: the
/// two-way edges the builder and the carpool splice create.
pub open spec fn links_mirrored(nodes: Seq<Node>) -> bool {
    forall|i: int, j: int|
        0 <= i < nodes.len() && 0 <= j < nodes[i].nodes@.len() ==> mirror_of(
            nodes,
            i,
            #[trigger] nodes[i].nodes@[j],
        )
}

/// The target of `l` holds a link back to `i` of the same length and mode.
pub open spec fn mirror_of(nodes: Seq<Node>, i: int, l: NodeLink) -> bool {
    exists|k: int|
        0 <= k < nodes[l.node.0 as int].nodes@.len() && ((#[trigger] nodes[l.node.0 as
            int].nodes@[k]).node.0 as int) == i && nodes[l.node.0 as int].nodes@[k].len == l.len
            && nodes[l.node.0 as int].nodes@[k].kind == l.kind
}

/// No two plain road nodes carry the same external id. Transient car
/// nodes deliberately reuse the id of the schedule point they were made
/// from, so uniqueness is asked of plain nodes only.
pub open spec fn unique_plain_ids(nodes: Seq<Node>) -> bool {
    forall|i: int, j: int|
        0 <= i < nodes.len() && 0 <= j < nodes.len() && i != j && (#[trigger] nodes[i]).kind
            is Plain && (#[trigger] nodes[j]).kind is Plain ==> nodes[i].id != nodes[j].id
}

/// At a car node, a plain neighbor never shares its external id with a
/// car neighbor. The backward scan's bounce guard matches plain
/// candidates by id, so under this condition it can only ever name the
/// plain node the walk actually came through.
pub open spec fn car_neighbor_ids_distinct(nodes: Seq<Node>) -> bool {
    forall|c: int, ja: int, jb: int|
        0 <= c < nodes.len() && nodes[c].kind is Car && 0 <= ja < nodes[c].nodes@.len() && 0 <= jb
            < nodes[c].nodes@.len() && ((#[trigger] nodes[c].nodes@[ja]).node.0 as int)
            < nodes.len() && ((#[trigger] nodes[c].nodes@[jb]).node.0 as int) < nodes.len()
            && nodes[nodes[c].nodes@[ja].node.0 as int].kind is Plain && nodes[nodes[c].nodes@[
        jb].node.0 as int].kind is Car ==> nodes[nodes[c].nodes@[ja].node.0 as int].id
            != nodes[nodes[c].nodes@[jb].node.0 as int].id
}

/// A graph on which backward reconstruction provably cannot fail: links
/// mirrored with equal lengths, none of length zero, plain ids unique,
/// and no car node whose plain and car neighbors share an id.
pub open spec fn good_graph(nodes: Seq<Node>) -> bool {
    &&& no_zero_links(nodes)
    &&& links_mirrored(nodes)
    &&& unique_plain_ids(nodes)
    &&& car_neighbor_ids_distinct(nodes)
}

/// Structural route validity is a property of the nodes' data alone, so
/// it transfers across any data-preserving copy of the arena.
pub proof fn lemma_route_ok_data_eq(
    n1: Seq<Node>,
    n2: Seq<Node>,
    mode: TransportKind,
    start: int,
    end: int,
    pr: PathResult,
    trace: Seq<usize>,
)
    requires
        route_ok(n1, mode, start, end, pr, trace),
        n2.len() == n1.len(),
        forall|i: int| 0 <= i < n1.len() ==> node_data_eq(#[trigger] n2[i], n1[i]),
    ensures
        route_ok(n2, mode, start, end, pr, trace),
{
    let k = pr.points@.len() as int;
    assert forall|m: int| 0 <= m < k implies pr.points@[m] == spec_point_of(
        n2[#[trigger] trace[m] as int],
    ) by {
        assert(node_data_eq(n2[trace[m] as int], n1[trace[m] as int]));
    }
    assert forall|m: int| 0 <= m < k - 1 implies step_ok(
        n2,
        mode,
        trace[m] as int,
        #[trigger] trace[m + 1] as int,
        pr.eta_list@[m],
        pr.eta_list@[m + 1],
        pr.distance_list@[m],
        pr.distance_list@[m + 1],
    ) by {
        let prev = trace[m] as int;
        let curr = trace[m + 1] as int;
        assert(step_ok(
            n1,
            mode,
            prev,
            curr,
            pr.eta_list@[m],
            pr.eta_list@[m + 1],
            pr.distance_list@[m],
            pr.distance_list@[m + 1],
        ));
        let j = choose|j: int|
            0 <= j < n1[curr].nodes@.len() && step_ok_via(
                n1,
                mode,
                prev,
                curr,
                pr.eta_list@[m],
                pr.eta_list@[m + 1],
                pr.distance_list@[m],
                pr.distance_list@[m + 1],
                #[trigger] n1[curr].nodes@[j],
            );
        assert(node_data_eq(n2[curr], n1[curr]));
        assert(node_data_eq(n2[prev], n1[prev]));
        assert(n2[curr].nodes@[j] == n1[curr].nodes@[j]);
        assert(step_ok_via(
            n2,
            mode,
            prev,
            curr,
            pr.eta_list@[m],
            pr.eta_list@[m + 1],
            pr.distance_list@[m],
            pr.distance_list@[m + 1],
            n2[curr].nodes@[j],
        ));
    }
}

/// Admissibility of a time-respecting walk is a property of the nodes'
/// data alone, so it transfers across any data-preserving copy.
pub proof fn lemma_walk_ok_data_eq(
    n1: Seq<Node>,
    n2: Seq<Node>,
    mode: TransportKind,
    walk: Seq<usize>,
    times: Seq<u64>,
    start: int,
    end: int,
)
    requires
        walk_ok(n1, mode, walk, times, start, end),
        n2.len() == n1.len(),
        forall|i: int| 0 <= i < n1.len() ==> node_data_eq(#[trigger] n2[i], n1[i]),
    ensures
        walk_ok(n2, mode, walk, times, start, end),
{
    assert forall|m: int| 0 <= m < walk.len() - 1 implies walk_step_ok(
        n2,
        mode,
        walk[m] as int,
        #[trigger] walk[m + 1] as int,
        times[m],
        times[m + 1],
    ) by {
        let u = walk[m] as int;
        let v = walk[m + 1] as int;
        assert(walk_step_ok(n1, mode, u, v, times[m], times[m + 1]));
        let j = choose|j: int|
            0 <= j < n1[u].nodes@.len() && walk_step_via(
                n1,
                mode,
                u,
                v,
                times[m],
                times[m + 1],
                #[trigger] n1[u].nodes@[j],
            );
        assert(node_data_eq(n2[u], n1[u]));
        assert(node_data_eq(n2[v], n1[v]));
        assert(n2[u].nodes@[j] == n1[u].nodes@[j]);
        assert(walk_step_via(n2, mode, u, v, times[m], times[m + 1], n2[u].nodes@[j]));
    }
}

/// A priced step over a link of at least one centimeter takes at least one
/// millisecond, whatever the mode: the flat penalties are 1000 ms, and at
/// the fastest speed (50 km/h) one centimeter still rounds to one.
proof fn lemma_step_cost_pos(
    mode: TransportKind,
    from_kind: NodeKind,
    from_eta: u64,
    to_kind: NodeKind,
    link_len: u32,
)
    requires
        link_len >= 1,
        spec_step_cost(mode, from_kind, from_eta, to_kind, link_len) is Some,
    ensures
        spec_step_cost(mode, from_kind, from_eta, to_kind, link_len)->Some_0 >= 1,
{
    let kmh = crate::geo::spec_speed_kmh(mode);
    assert((link_len as int * 72 + kmh) / (2 * kmh) >= 1) by (nonlinear_arith)
        requires
            link_len >= 1,
            1 <= kmh <= 50,
    ;
    assert((link_len as int * 72 + 50) / 100 >= 1) by (nonlinear_arith)
        requires
            link_len >= 1,
    ;
}

/// Some time-respecting walk from `start` arrives at `u` at exactly `t`.
pub open spec fn reaches(nodes: Seq<Node>, mode: TransportKind, start: int, u: int, t: u64) -> bool {
    exists|walk: Seq<usize>, times: Seq<u64>|
        walk_ok(nodes, mode, walk, times, start, u) && times[times.len() - 1] == t
}

/// The trivial walk: a node reaches itself at time zero.
proof fn lemma_reaches_start(nodes: Seq<Node>, mode: TransportKind, s: usize)
    requires
        (s as int) < nodes.len(),
    ensures
        reaches(nodes, mode, s as int, s as int, 0),
{
    let w: Seq<usize> = seq![s];
    let ts: Seq<u64> = seq![0u64];
    assert(walk_ok(nodes, mode, w, ts, s as int, s as int));
    assert(ts[ts.len() - 1] == 0);
}

/// A walk extends by one admissible step.
proof fn lemma_reaches_extend(
    nodes: Seq<Node>,
    mode: TransportKind,
    start: int,
    u: usize,
    t_u: u64,
    v: usize,
    t_v: u64,
)
    requires
        reaches(nodes, mode, start, u as int, t_u),
        walk_step_ok(nodes, mode, u as int, v as int, t_u, t_v),
        (v as int) < nodes.len(),
        t_v < UNREACHED,
    ensures
        reaches(nodes, mode, start, v as int, t_v),
{
    let (w, ts) = choose|w: Seq<usize>, ts: Seq<u64>|
        walk_ok(nodes, mode, w, ts, start, u as int) && ts[ts.len() - 1] == t_u;
    let w2 = w.push(v);
    let ts2 = ts.push(t_v);
    assert(w2[w2.len() - 1] == v);
    assert(w2[0] == w[0]);
    assert(ts2[0] == ts[0]);
    assert forall|m: int| 0 <= m < w2.len() implies (#[trigger] w2[m] as int) < nodes.len() by {
        if m < w.len() {
            assert(w2[m] == w[m]);
        }
    }
    assert forall|m: int| 0 <= m < ts2.len() implies #[trigger] ts2[m] < UNREACHED by {
        if m < ts.len() {
            assert(ts2[m] == ts[m]);
        }
    }
    assert forall|m: int|
        0 <= m < w2.len() - 1 implies walk_step_ok(
        nodes,
        mode,
        w2[m] as int,
        #[trigger] w2[m + 1] as int,
        ts2[m],
        ts2[m + 1],
    ) by {
        if m < w.len() - 1 {
            assert(walk_step_ok(nodes, mode, w[m] as int, w[m + 1] as int, ts[m], ts[m + 1]));
            assert(w2[m] == w[m] && w2[m + 1] == w[m + 1] && ts2[m] == ts[m] && ts2[m + 1]
                == ts[m + 1]);
        } else {
            assert(w2[m] == w[w.len() - 1] && (w2[m] as int) == u as int);
            assert(ts2[m] == ts[ts.len() - 1] && ts2[m] == t_u);
            assert(w2[m + 1] == v && ts2[m + 1] == t_v);
        }
    }
    assert(walk_ok(nodes, mode, w2, ts2, start, v as int));
    assert(ts2[ts2.len() - 1] == t_v);
}

/// Link `j` of node `u` has been relaxed against departure time `e`: if
/// the mode may traverse it and its step cost at `e` is priced, the
/// target's best arrival time is no worse than taking it.
pub open spec fn link_relaxed(
    nodes: Seq<Node>,
    mode: TransportKind,
    etas: Seq<u64>,
    u: int,
    e: u64,
    j: int,
) -> bool {
    let l = nodes[u].nodes@[j];
    spec_link_allowed(mode, l.kind, nodes[u].kind, nodes[l.node.0 as int].kind)
        ==> match spec_step_cost(mode, nodes[u].kind, e, nodes[l.node.0 as int].kind, l.len) {
        Some(c) => (etas[l.node.0 as int] as int) <= e + c,
        None => true,
    }
}

/// Node `u` has been fully expanded against departure time `e`.
pub open spec fn expanded_ok(
    nodes: Seq<Node>,
    mode: TransportKind,
    etas: Seq<u64>,
    u: int,
    e: u64,
) -> bool {
    forall|j: int| 0 <= j < nodes[u].nodes@.len() ==> #[trigger] link_relaxed(
        nodes,
        mode,
        etas,
        u,
        e,
        j,
    )
}

/// The queue holds an entry for node `u` pushed at arrival time `e`.
spec fn in_queue(q: Seq<QueueEntry>, u: int, e: u64) -> bool {
    exists|k: int| 0 <= k < q.len() && ((#[trigger] q[k]).node as int) == u && q[k].eta == e
}

proof fn lemma_in_queue_after_swap_remove(
    q_old: Seq<QueueEntry>,
    q_new: Seq<QueueEntry>,
    best: int,
    u: int,
    e: u64,
)
    requires
        0 <= best < q_old.len(),
        q_new == q_old.update(best, q_old.last()).drop_last(),
        in_queue(q_old, u, e),
        !((q_old[best].node as int) == u && q_old[best].eta == e),
    ensures
        in_queue(q_new, u, e),
{
    let k = choose|k: int|
        0 <= k < q_old.len() && ((#[trigger] q_old[k]).node as int) == u && q_old[k].eta == e;
    if k == q_old.len() - 1 {
        assert((q_new[best].node as int) == u && q_new[best].eta == e);
    } else {
        assert((q_new[k].node as int) == u && q_new[k].eta == e);
    }
}

proof fn lemma_in_queue_push(q: Seq<QueueEntry>, entry: QueueEntry, u: int, e: u64)
    requires
        in_queue(q, u, e),
    ensures
        in_queue(q.push(entry), u, e),
{
    let k = choose|k: int|
        0 <= k < q.len() && ((#[trigger] q[k]).node as int) == u && q[k].eta == e;
    assert((q.push(entry)[k].node as int) == u && q.push(entry)[k].eta == e);
}

/// The settled-time lower bound behind the completeness claim: once the
/// queue has drained, every node with a best time has been fully expanded
/// against it, so the best times refute any cheaper time-respecting walk:
/// along such a walk every node is reached at or before the walk's time.
proof fn lemma_walk_reached(
    nodes: Seq<Node>,
    mode: TransportKind,
    etas: Seq<u64>,
    expanded_at: Map<int, u64>,
    walk: Seq<usize>,
    times: Seq<u64>,
    start: int,
    end: int,
    m: int,
)
    requires
        walk_ok(nodes, mode, walk, times, start, end),
        0 <= m < walk.len(),
        etas.len() == nodes.len(),
        0 <= start < nodes.len(),
        etas[start] == 0,
        forall|u: int|
            0 <= u < nodes.len() && #[trigger] etas[u] != UNREACHED ==> expanded_at.contains_key(
                u,
            ) && expanded_at[u] == etas[u],
        forall|u: int|
            #[trigger] expanded_at.contains_key(u) ==> 0 <= u < nodes.len() && expanded_ok(
                nodes,
                mode,
                etas,
                u,
                expanded_at[u],
            ),
    ensures
        (etas[walk[m] as int] as int) <= times[m] as int,
        etas[walk[m] as int] != UNREACHED,
    decreases m,
{
    if m == 0 {
    } else {
        lemma_walk_reached(nodes, mode, etas, expanded_at, walk, times, start, end, m - 1);
        let u = walk[m - 1] as int;
        let v = walk[m] as int;
        assert(walk_step_ok(nodes, mode, u, walk[m - 1 + 1] as int, times[m - 1], times[m - 1
            + 1]));
        assert(walk[m - 1 + 1] == walk[m]);
        let j = choose|j: int|
            0 <= j < nodes[u].nodes@.len() && walk_step_via(
                nodes,
                mode,
                u,
                v,
                times[m - 1],
                times[m],
                #[trigger] nodes[u].nodes@[j],
            );
        let l = nodes[u].nodes@[j];
        assert(expanded_at.contains_key(u) && expanded_at[u] == etas[u]);
        assert(link_relaxed(nodes, mode, etas, u, etas[u], j));
        match nodes[u].kind {
            NodeKind::Plain => match nodes[v].kind {
                NodeKind::Plain => {},
                NodeKind::Car { .. } => {
                    // Boarding is still possible at the earlier time, and
                    // arrives at the same fixed moment.
                },
            },
            NodeKind::Car { .. } => {},
        }
        assert((etas[v] as int) <= times[m] as int);
    }
}

/// The settled times form a relaxation fixpoint: every reached node has
/// every admissible link relaxed against its own settled time.
pub open spec fn etas_fixpoint(nodes: Seq<Node>, mode: TransportKind, etas: Seq<u64>) -> bool {
    forall|u: int|
        0 <= u < nodes.len() && #[trigger] etas[u] != UNREACHED ==> expanded_ok(
            nodes,
            mode,
            etas,
            u,
            etas[u],
        )
}

/// Every reached node's settled time is realized by some walk.
pub open spec fn etas_sound(
    nodes: Seq<Node>,
    mode: TransportKind,
    etas: Seq<u64>,
    start: int,
) -> bool {
    forall|u: int|
        0 <= u < nodes.len() && #[trigger] etas[u] != UNREACHED ==> reaches(
            nodes,
            mode,
            start,
            u,
            etas[u],
        )
}

/// Fixpoint settled times bound every walk from below: along any
/// time-respecting walk, every node is reached at or before the walk's
/// time there.
proof fn lemma_walk_bounded(
    nodes: Seq<Node>,
    mode: TransportKind,
    etas: Seq<u64>,
    walk: Seq<usize>,
    times: Seq<u64>,
    start: int,
    end: int,
    m: int,
)
    requires
        walk_ok(nodes, mode, walk, times, start, end),
        0 <= m < walk.len(),
        etas.len() == nodes.len(),
        0 <= start < nodes.len(),
        etas[start] == 0,
        etas_fixpoint(nodes, mode, etas),
    ensures
        (etas[walk[m] as int] as int) <= times[m] as int,
        etas[walk[m] as int] != UNREACHED,
    decreases m,
{
    if m == 0 {
    } else {
        lemma_walk_bounded(nodes, mode, etas, walk, times, start, end, m - 1);
        let u = walk[m - 1] as int;
        let v = walk[m] as int;
        assert(walk_step_ok(nodes, mode, u, walk[m - 1 + 1] as int, times[m - 1], times[m - 1
            + 1]));
        assert(walk[m - 1 + 1] == walk[m]);
        let j = choose|j: int|
            0 <= j < nodes[u].nodes@.len() && walk_step_via(
                nodes,
                mode,
                u,
                v,
                times[m - 1],
                times[m],
                #[trigger] nodes[u].nodes@[j],
            );
        assert(expanded_ok(nodes, mode, etas, u, etas[u]));
        assert(link_relaxed(nodes, mode, etas, u, etas[u], j));
        assert((etas[v] as int) <= times[m] as int);
    }
}

/// Sum of all entries of the arrival-time array; the termination measure
/// of the search loop, which only ever lowers entries.
spec fn sum_etas(s: Seq<u64>) -> int
    decreases s.len(),
{
    if s.len() == 0 {
        0
    } else {
        sum_etas(s.drop_last()) + s.last()
    }
}

proof fn lemma_sum_nonneg(s: Seq<u64>)
    ensures
        sum_etas(s) >= 0,
    decreases s.len(),
{
    if s.len() > 0 {
        lemma_sum_nonneg(s.drop_last());
    }
}

proof fn lemma_sum_update(s: Seq<u64>, i: int, v: u64)
    requires
        0 <= i < s.len(),
    ensures
        sum_etas(s.update(i, v)) == sum_etas(s) - s[i] + v,
    decreases s.len(),
{
    if i == s.len() - 1 {
        assert(s.update(i, v).drop_last() =~= s.drop_last());
        assert(s.update(i, v).last() == v);
    } else {
        assert(s.update(i, v).drop_last() =~= s.drop_last().update(i, v));
        assert(s.update(i, v).last() == s.last());
        lemma_sum_update(s.drop_last(), i, v);
    }
}

/// An entry of the search queue: priority (arrival plus heuristic), the
/// arrival time the node had when the entry was pushed (an entry is stale
/// once the node has been improved), and the node.
#[derive(Copy, Clone)]
struct QueueEntry {
    cost: u64,
    eta: u64,
    node: usize,
}

/// Index of a cheapest entry.
fn min_cost_index(queue: &Vec<QueueEntry>) -> (r: usize)
    requires
        queue@.len() > 0,
    ensures
        r < queue@.len(),
        forall|k: int| 0 <= k < queue@.len() ==> queue@[r as int].cost <= (#[trigger] queue@[k]).cost,
{
    let mut best: usize = 0;
    let mut i: usize = 1;
    while i < queue.len()
        invariant
            best < i <= queue@.len(),
            forall|k: int| 0 <= k < i ==> queue@[best as int].cost <= (#[trigger] queue@[k]).cost,
        decreases queue@.len() - i,
    {
        if queue[i].cost < queue[best].cost {
            best = i;
        }
        i = i + 1;
    }
    best
}

/// A copy of `v` in reverse order.
fn reversed<T: Copy>(v: &Vec<T>) -> (out: Vec<T>)
    ensures
        out@.len() == v@.len(),
        forall|i: int| 0 <= i < v@.len() ==> #[trigger] out@[i] == v@[v@.len() - 1 - i],
{
    let mut out: Vec<T> = Vec::new();
    let mut i: usize = v.len();
    while i > 0
        invariant
            i <= v@.len(),
            out@.len() == v@.len() - i,
            forall|m: int| 0 <= m < out@.len() ==> #[trigger] out@[m] == v@[v@.len() - 1 - m],
        decreases i,
    {
        i = i - 1;
        out.push(v[i]);
    }
    out
}

impl RoadGraph {
    /// Converts one settled predecessor relation of the backward walk into
    /// one priced forward step of the returned route.
    proof fn lemma_pred_to_step(
        &self,
        mode: TransportKind,
        ci: int,
        pi: int,
        llen: u32,
        eta_p: u64,
        eta_c: u64,
        dist_p: u64,
        dist_c: u64,
    )
        requires
            self.pred_ok(mode, ci, pi, llen),
            0 <= ci < self.nodes@.len(),
            eta_p == self.etas@[pi],
            eta_c == self.etas@[ci],
            dist_c == spec_sat_add(dist_p, llen as u64),
        ensures
            step_ok(self.nodes@, mode, pi, ci, eta_p, eta_c, dist_p, dist_c),
    {
        let j = choose|j: int|
            0 <= j < self.node_links(ci).len() && ((#[trigger] self.node_links(ci)[j]).node.0
                as int) == pi && self.node_links(ci)[j].len == llen && spec_link_allowed(
                mode,
                self.node_links(ci)[j].kind,
                self.nodes@[pi].kind,
                self.nodes@[ci].kind,
            );
        assert(step_ok_via(
            self.nodes@,
            mode,
            pi,
            ci,
            eta_p,
            eta_c,
            dist_p,
            dist_c,
            self.nodes@[ci].nodes@[j],
        ));
    }

    /// A valid settled predecessor relation for the backward walk: node
    /// `curr` holds a link of length `llen` back to `p`, whose settled time
    /// is strictly earlier and accounts exactly for the step cost.
    spec fn pred_ok(&self, mode: TransportKind, curr: int, p: int, llen: u32) -> bool {
        &&& 0 <= p < self.nodes@.len()
        &&& self.etas@[p] < self.etas@[curr]
        &&& exists|j: int|
            0 <= j < self.node_links(curr).len() && ((#[trigger] self.node_links(curr)[j]).node.0
                as int) == p && self.node_links(curr)[j].len == llen && spec_link_allowed(
                mode,
                self.node_links(curr)[j].kind,
                self.nodes@[p].kind,
                self.nodes@[curr].kind,
            )
        &&& spec_step_cost(
            mode,
            self.nodes@[p].kind,
            self.etas@[p],
            self.nodes@[curr].kind,
            llen,
        ) == Some(self.etas@[curr] - self.etas@[p])
    }

    /// The acceptance test of the backward scan at node `curr` for link
    /// `j`: a strictly earlier settled neighbor whose step cost accounts
    /// exactly for the time difference, traversable in the mode, and not
    /// excluded by the bounce guard (the id of the point just emitted).
    spec fn scan_hit(&self, mode: TransportKind, curr: int, j: int, guard: Option<u64>) -> bool {
        let l = self.node_links(curr)[j];
        let p = l.node.0 as int;
        &&& self.etas@[p] < self.etas@[curr]
        &&& spec_link_allowed(mode, l.kind, self.nodes@[p].kind, self.nodes@[curr].kind)
        &&& spec_step_cost(
            mode,
            self.nodes@[p].kind,
            self.etas@[p],
            self.nodes@[curr].kind,
            l.len,
        ) == Some(self.etas@[curr] - self.etas@[p])
        &&& !(self.nodes@[curr].kind is Car && self.nodes@[p].kind is Plain && guard == Some(
            self.nodes@[p].id,
        ))
    }

    /// On a good graph whose settled times are a sound relaxation
    /// fixpoint, a reached node away from time zero always offers the
    /// backward scan a hit: the mirror of the last link of a walk that
    /// realizes its settled time. The bounce guard cannot exclude it when
    /// it names only a node settled strictly later.
    proof fn lemma_scan_has_hit(
        &self,
        mode: TransportKind,
        start: usize,
        curr: usize,
        guard: Option<u64>,
    )
        requires
            (start as int) < self.nodes@.len(),
            (curr as int) < self.nodes@.len(),
            self.etas@.len() == self.nodes@.len(),
            self.etas@[start as int] == 0,
            etas_fixpoint(self.nodes@, mode, self.etas@),
            etas_sound(self.nodes@, mode, self.etas@, start as int),
            good_graph(self.nodes@),
            self.etas@[curr as int] != UNREACHED,
            self.etas@[curr as int] != 0,
            match guard {
                Some(gid) => exists|x: int|
                    0 <= x < self.nodes@.len() && (#[trigger] self.nodes@[x]).id == gid
                        && self.etas@[x] > self.etas@[curr as int] && has_link_to(
                        self.node_links(curr as int),
                        x,
                    ),
                None => true,
            },
        ensures
            exists|j: int|
                0 <= j < self.node_links(curr as int).len() && #[trigger] self.scan_hit(
                    mode,
                    curr as int,
                    j,
                    guard,
                ),
    {
        let nodes = self.nodes@;
        let etas = self.etas@;
        let ci = curr as int;
        assert(reaches(nodes, mode, start as int, ci, etas[ci]));
        let (w, ts) = choose|w: Seq<usize>, ts: Seq<u64>|
            walk_ok(nodes, mode, w, ts, start as int, ci) && ts[ts.len() - 1] == etas[ci];
        if w.len() == 1 {
            assert(ts[0] == 0);
            assert(false);
        }
        let ll = w.len() as int;
        let m = ll - 2;
        assert(walk_step_ok(nodes, mode, w[m] as int, w[m + 1] as int, ts[m], ts[m + 1]));
        assert(w[m + 1] == w[ll - 1]);
        assert((w[m + 1] as int) == ci);
        assert(ts[m + 1] == etas[ci]);
        let up = w[m] as int;
        let jp = choose|jp: int|
            0 <= jp < nodes[up].nodes@.len() && walk_step_via(
                nodes,
                mode,
                up,
                ci,
                ts[m],
                ts[m + 1],
                #[trigger] nodes[up].nodes@[jp],
            );
        let lp = nodes[up].nodes@[jp];
        lemma_walk_bounded(nodes, mode, etas, w, ts, start as int, ci, m);
        assert((etas[up] as int) <= ts[m] as int);
        assert(expanded_ok(nodes, mode, etas, up, etas[up]));
        assert(link_relaxed(nodes, mode, etas, up, etas[up], jp));
        assert(lp.len >= 1);
        // The step cost at the settled time squeezes to an exact account.
        match nodes[up].kind {
            NodeKind::Plain => match nodes[ci].kind {
                NodeKind::Plain => {
                    lemma_step_cost_pos(mode, nodes[up].kind, etas[up], nodes[ci].kind, lp.len);
                },
                NodeKind::Car { .. } => {},
            },
            NodeKind::Car { .. } => match nodes[ci].kind {
                NodeKind::Plain => {},
                NodeKind::Car { .. } => {
                    lemma_step_cost_pos(mode, nodes[up].kind, etas[up], nodes[ci].kind, lp.len);
                },
            },
        }
        assert(spec_step_cost(mode, nodes[up].kind, etas[up], nodes[ci].kind, lp.len) == Some(
            etas[ci] - etas[up],
        ));
        assert(etas[up] < etas[ci]);
        // The mirror of that link sits on `curr` and is the hit.
        assert(mirror_of(nodes, up, lp));
        let k = choose|k: int|
            0 <= k < nodes[ci].nodes@.len() && ((#[trigger] nodes[ci].nodes@[k]).node.0 as int)
                == up && nodes[ci].nodes@[k].len == lp.len && nodes[ci].nodes@[k].kind == lp.kind;
        if nodes[ci].kind is Car && nodes[up].kind is Plain && guard == Some(nodes[up].id) {
            let gid = nodes[up].id;
            let x = choose|x: int|
                0 <= x < nodes.len() && (#[trigger] nodes[x]).id == gid && etas[x] > etas[ci]
                    && has_link_to(self.node_links(ci), x);
            assert(x != up);
            if nodes[x].kind is Plain {
                // Two distinct plain nodes would share the guard id.
                assert(nodes[x].id != nodes[up].id);
                assert(false);
            } else {
                // The guard names a car neighbor of `curr`; its plain
                // neighbor `up` cannot carry the same id.
                assert(nodes[x].kind is Car);
                let jb = choose|jb: int|
                    0 <= jb < nodes[ci].nodes@.len() && ((#[trigger] nodes[ci].nodes@[jb]).node.0
                        as int) == x;
                assert((nodes[ci].nodes@[k].node.0 as int) == up);
                assert(nodes[nodes[ci].nodes@[k].node.0 as int].kind is Plain);
                assert(nodes[nodes[ci].nodes@[jb].node.0 as int].kind is Car);
                assert(nodes[up].id != nodes[x].id);
                assert(false);
            }
        }
        assert(self.scan_hit(mode, ci, k, guard));
    }

    /// Walks backward from the destination's settled arrival time to the
    /// origin, stepping to a neighbor whose settled time exactly accounts
    /// for the step cost, then emits the route in forward order. Failing to
    /// find such a neighbor, or bottoming out at a node other than the
    /// origin, is an internal consistency failure and is reported as such.
    #[verifier::rlimit(100)]
    #[verifier::spinoff_prover]
    fn reconstruct(&self, start: NodeId, end: NodeId, kind: TransportKind) -> (r: Result<
        PathResult,
        RouteError,
    >)
        requires
            self.wf(),
            start.0 < self.nodes@.len(),
            end.0 < self.nodes@.len(),
            self.etas@[start.0 as int] == 0,
            self.etas@[end.0 as int] != UNREACHED,
            etas_fixpoint(self.nodes@, kind, self.etas@),
            etas_sound(self.nodes@, kind, self.etas@, start.0 as int),
        ensures
            match r {
                Ok(pr) => pr.total_time == self.etas@[end.0 as int] && (exists|trace: Seq<usize>|
                    route_ok(self.nodes@, kind, start.0 as int, end.0 as int, pr, trace)),
                Err(e) => e is InconsistentPath,
            },
            good_graph(self.nodes@) ==> r is Ok,
    {
        let n = self.nodes.len();
        let mut curr: usize = end.0;
        let mut rev_points: Vec<MapPoint> = Vec::new();
        let mut rev_etas: Vec<u64> = Vec::new();
        let mut rev_lens: Vec<u32> = Vec::new();
        let mut rev_idx: Vec<usize> = Vec::new();
        rev_points.push(MapPoint::from_node(&self.nodes[curr]));
        rev_etas.push(self.etas[curr]);
        rev_idx.push(curr);
        while self.etas[curr] != 0
            invariant
                self.wf(),
                n == self.nodes@.len(),
                start.0 < n,
                end.0 < n,
                curr < n,
                self.etas@[curr as int] != UNREACHED,
                self.etas@[start.0 as int] == 0,
                etas_fixpoint(self.nodes@, kind, self.etas@),
                etas_sound(self.nodes@, kind, self.etas@, start.0 as int),
                rev_idx@.len() == rev_points@.len(),
                rev_idx@.len() == rev_etas@.len(),
                rev_idx@.len() == rev_lens@.len() + 1,
                rev_idx@[0] == end.0,
                rev_idx@[rev_idx@.len() - 1] == curr,
                forall|m: int| 0 <= m < rev_idx@.len() ==> (#[trigger] rev_idx@[m]) < n,
                forall|m: int|
                    0 <= m < rev_idx@.len() ==> #[trigger] rev_etas@[m] == self.etas@[rev_idx@[m] as int],
                forall|m: int|
                    0 <= m < rev_idx@.len() ==> #[trigger] rev_points@[m] == spec_point_of(
                        self.nodes@[rev_idx@[m] as int],
                    ),
                forall|m: int|
                    0 <= m < rev_lens@.len() ==> self.pred_ok(
                        kind,
                        #[trigger] rev_idx@[m] as int,
                        rev_idx@[m + 1] as int,
                        rev_lens@[m],
                    ),
            decreases self.etas@[curr as int],
        {
            let deg = self.nodes[curr].nodes.len();
            let curr_eta = self.etas[curr];
            let curr_kind = self.nodes[curr].kind;
            let ghost guard: Option<u64> = if rev_points@.len() >= 2 {
                Some(rev_points@[rev_points@.len() - 2].id)
            } else {
                None
            };
            let mut step: Option<(usize, u32)> = None;
            let mut li: usize = 0;
            while li < deg && step.is_none()
                invariant
                    self.wf(),
                    n == self.nodes@.len(),
                    curr < n,
                    deg == self.node_links(curr as int).len(),
                    curr_eta == self.etas@[curr as int],
                    curr_kind == self.nodes@[curr as int].kind,
                    li <= deg,
                    guard == (if rev_points@.len() >= 2 {
                        Some(rev_points@[rev_points@.len() - 2].id)
                    } else {
                        None
                    }),
                    match step {
                        Some(pl) => pl.0 < n && self.pred_ok(kind, curr as int, pl.0 as int, pl.1),
                        None => forall|j: int|
                            0 <= j < li ==> !(#[trigger] self.scan_hit(
                                kind,
                                curr as int,
                                j,
                                guard,
                            )),
                    },
                decreases deg - li,
            {
                let link = self.nodes[curr].nodes[li];
                let p = link.node.0;
                proof {
                    assert(self.node_wf(curr as int));
                    assert(self.link_wf(curr as int, li as int));
                }
                let p_eta = self.etas[p];
                proof {
                    assert(self.node_links(curr as int)[li as int] == link);
                }
                if p_eta < curr_eta {
                    let p_kind = self.nodes[p].kind;
                    if link_allowed(kind, link.kind, &p_kind, &curr_kind) {
                        match step_cost(kind, &p_kind, p_eta, &curr_kind, link.len) {
                            Some(c) => {
                                if curr_eta - p_eta == c {
                                    let mut bounce = false;
                                    if matches!(curr_kind, NodeKind::Car { .. }) && matches!(
                                        p_kind,
                                        NodeKind::Plain,
                                    ) && rev_points.len() >= 2 {
                                        bounce = self.nodes[p].id == rev_points[rev_points.len()
                                            - 2].id;
                                    }
                                    if !bounce {
                                        proof {
                                            let ci = curr as int;
                                            assert(self.node_links(ci)[li as int] == link);
                                            assert((self.node_links(ci)[li as int].node.0
                                                as int) == p as int && self.node_links(ci)[
                                            li as int].len == link.len && spec_link_allowed(
                                                kind,
                                                self.node_links(ci)[li as int].kind,
                                                self.nodes@[p as int].kind,
                                                self.nodes@[ci].kind,
                                            ));
                                            assert(self.pred_ok(kind, ci, p as int, link.len));
                                        }
                                        step = Some((p, link.len));
                                    } else {
                                        proof {
                                            assert(guard == Some(self.nodes@[p as int].id));
                                            assert(!self.scan_hit(kind, curr as int, li as int, guard));
                                        }
                                    }
                                } else {
                                    proof {
                                        assert(!self.scan_hit(kind, curr as int, li as int, guard));
                                    }
                                }
                            },
                            None => {
                                proof {
                                    assert(!self.scan_hit(kind, curr as int, li as int, guard));
                                }
                            },
                        }
                    } else {
                        proof {
                            assert(!self.scan_hit(kind, curr as int, li as int, guard));
                        }
                    }
                } else {
                    proof {
                        assert(!self.scan_hit(kind, curr as int, li as int, guard));
                    }
                }
                proof {
                    if step is None {
                        assert forall|j: int|
                            0 <= j < li + 1 implies !(#[trigger] self.scan_hit(
                            kind,
                            curr as int,
                            j,
                            guard,
                        )) by {
                            if j == li {
                                assert(!self.scan_hit(kind, curr as int, li as int, guard));
                            }
                        }
                    }
                }
                li = li + 1;
            }
            match step {
                Some((p, llen)) => {
                    rev_lens.push(llen);
                    rev_points.push(MapPoint::from_node(&self.nodes[p]));
                    rev_etas.push(self.etas[p]);
                    rev_idx.push(p);
                    curr = p;
                },
                None => {
                    proof {
                        if good_graph(self.nodes@) {
                            let lm = rev_idx@.len() as int;
                            if rev_points@.len() >= 2 {
                                let x = rev_idx@[lm - 2] as int;
                                assert(self.pred_ok(
                                    kind,
                                    rev_idx@[lm - 2] as int,
                                    rev_idx@[lm - 2 + 1] as int,
                                    rev_lens@[lm - 2],
                                ));
                                assert(rev_idx@[lm - 2 + 1] == rev_idx@[lm - 1]);
                                assert(self.etas@[x] > self.etas@[curr as int]);
                                assert(rev_points@[lm - 2] == spec_point_of(self.nodes@[x]));
                                assert(self.nodes@[x].id == rev_points@[lm - 2].id);
                                // The guard node holds the recorded link to
                                // `curr`; its mirror makes `x` a link target
                                // of `curr`.
                                let jx = choose|jx: int|
                                    0 <= jx < self.node_links(x).len() && ((
                                    #[trigger] self.node_links(x)[jx]).node.0 as int) == curr
                                        as int && self.node_links(x)[jx].len == rev_lens@[lm - 2];
                                assert(mirror_of(self.nodes@, x, self.nodes@[x].nodes@[jx]));
                                let jm = choose|jm: int|
                                    0 <= jm < self.nodes@[curr as int].nodes@.len() && ((
                                    #[trigger] self.nodes@[curr as int].nodes@[jm]).node.0
                                        as int) == x;
                                assert(has_link_to(self.node_links(curr as int), x));
                            }
                            self.lemma_scan_has_hit(kind, start.0, curr, guard);
                            let j = choose|j: int|
                                0 <= j < self.node_links(curr as int).len()
                                    && #[trigger] self.scan_hit(kind, curr as int, j, guard);
                            assert(false);
                        }
                    }
                    return Err(RouteError::InconsistentPath);
                },
            }
        }
        if curr != start.0 {
            proof {
                if good_graph(self.nodes@) {
                    assert(self.etas@[curr as int] == 0);
                    assert(reaches(self.nodes@, kind, start.0 as int, curr as int, 0));
                    let (w, ts) = choose|w: Seq<usize>, ts: Seq<u64>|
                        walk_ok(self.nodes@, kind, w, ts, start.0 as int, curr as int) && ts[
                        ts.len() - 1] == 0;
                    if w.len() == 1 {
                        assert((w[0] as int) == start.0 as int);
                        assert(false);
                    } else {
                        let ll = w.len() as int;
                        let m = ll - 2;
                        assert(walk_step_ok(
                            self.nodes@,
                            kind,
                            w[m] as int,
                            w[m + 1] as int,
                            ts[m],
                            ts[m + 1],
                        ));
                        let jp = choose|jp: int|
                            0 <= jp < self.nodes@[w[m] as int].nodes@.len() && walk_step_via(
                                self.nodes@,
                                kind,
                                w[m] as int,
                                w[m + 1] as int,
                                ts[m],
                                ts[m + 1],
                                #[trigger] self.nodes@[w[m] as int].nodes@[jp],
                            );
                        let lp = self.nodes@[w[m] as int].nodes@[jp];
                        assert(lp.len >= 1);
                        lemma_step_cost_pos(
                            kind,
                            self.nodes@[w[m] as int].kind,
                            ts[m],
                            self.nodes@[w[m + 1] as int].kind,
                            lp.len,
                        );
                        assert(ts[m + 1] >= 1);
                        assert(ts[ll - 1] == 0);
                        assert(false);
                    }
                }
            }
            return Err(RouteError::InconsistentPath);
        }
        let k = rev_idx.len();
        let points = reversed(&rev_points);
        let eta_list = reversed(&rev_etas);
        let mut distance_list: Vec<u64> = Vec::new();
        distance_list.push(0u64);
        let mut f: usize = 1;
        while f < k
            invariant
                1 <= f <= k,
                k == rev_lens@.len() + 1,
                distance_list@.len() == f,
                distance_list@[0] == 0,
                forall|m: int|
                    0 <= m < f - 1 ==> #[trigger] distance_list@[m + 1] == spec_sat_add(
                        distance_list@[m],
                        rev_lens@[k - 2 - m] as u64,
                    ),
            decreases k - f,
        {
            let l: u32 = rev_lens[k - 1 - f];
            let prev_d: u64 = distance_list[f - 1];
            distance_list.push(prev_d.saturating_add(l as u64));
            f = f + 1;
        }
        let total_time: u64 = eta_list[k - 1];
        let total_distance: u64 = distance_list[k - 1];
        let pr = PathResult { total_time, total_distance, points, eta_list, distance_list };
        let ghost trace = Seq::new(rev_idx@.len(), |m: int| rev_idx@[rev_idx@.len() - 1 - m]);
        proof {
            let kk = k as int;
            assert(trace.len() == kk);
            assert(pr.points@.len() == kk);
            assert((trace[0] as int) == start.0 as int);
            assert((trace[kk - 1] as int) == end.0 as int);
            assert(pr.eta_list@[0] == rev_etas@[kk - 1]);
            assert(pr.eta_list@[0] == 0);
            assert forall|m: int| 0 <= m < kk implies (#[trigger] trace[m] as int) < n as int by {
                assert(trace[m] == rev_idx@[kk - 1 - m]);
            }
            assert forall|m: int| 0 <= m < kk implies pr.points@[m] == spec_point_of(
                self.nodes@[#[trigger] trace[m] as int],
            ) by {
                assert(pr.points@[m] == rev_points@[kk - 1 - m]);
                assert(trace[m] == rev_idx@[kk - 1 - m]);
            }
            assert forall|m: int| 0 <= m < kk - 1 implies step_ok(
                self.nodes@,
                kind,
                trace[m] as int,
                #[trigger] trace[m + 1] as int,
                pr.eta_list@[m],
                pr.eta_list@[m + 1],
                pr.distance_list@[m],
                pr.distance_list@[m + 1],
            ) by {
                let s = kk - 2 - m;
                assert(trace[m + 1] == rev_idx@[s]);
                assert(trace[m] == rev_idx@[s + 1]);
                assert(self.pred_ok(kind, rev_idx@[s] as int, rev_idx@[s + 1] as int, rev_lens@[s]));
                let ci = rev_idx@[s] as int;
                let pi = rev_idx@[s + 1] as int;
                assert(pr.eta_list@[m] == rev_etas@[kk - 1 - m]);
                assert(pr.eta_list@[m + 1] == rev_etas@[kk - 2 - m]);
                assert(pr.eta_list@[m] == self.etas@[pi]);
                assert(pr.eta_list@[m + 1] == self.etas@[ci]);
                assert(pr.distance_list@[m + 1] == spec_sat_add(
                    pr.distance_list@[m],
                    rev_lens@[s] as u64,
                ));
                self.lemma_pred_to_step(
                    kind,
                    ci,
                    pi,
                    rev_lens@[s],
                    pr.eta_list@[m],
                    pr.eta_list@[m + 1],
                    pr.distance_list@[m],
                    pr.distance_list@[m + 1],
                );
            }
            assert(route_ok(self.nodes@, kind, start.0 as int, end.0 as int, pr, trace));
            assert(exists|tr: Seq<usize>|
                route_ok(self.nodes@, kind, start.0 as int, end.0 as int, pr, tr));
            assert(pr.total_time == rev_etas@[0]);
            assert(pr.total_time == self.etas@[rev_idx@[0] as int]);
            assert(pr.total_time == self.etas@[end.0 as int]);
        }
        let res: Result<PathResult, RouteError> = Ok(pr);
        proof {
            assert(res is Ok);
            assert(res->Ok_0 == pr);
            assert(route_ok(self.nodes@, kind, start.0 as int, end.0 as int, res->Ok_0, trace));
        }
        res
    }

    /// Mode-aware, heuristic-guided shortest-arrival-time search from
    /// `start` to `end`, followed by backward path reconstruction. The
    /// queue priority is the settled time plus the straight-line time to
    /// the destination at car speed; the queue is drained completely, so
    /// the settled times are exact whatever the rounded heuristic does. A
    /// returned route is a genuine chain of edges priced step by step and
    /// no slower than any admissible walk; an empty result is a proof of
    /// absence: no time-respecting walk from `start` to `end` exists at
    /// all. On a graph with mirrored equal-length links, no zero-length
    /// links and unique ids, the query cannot fail. Whatever the outcome,
    /// the search state is reset and every transient node torn down before
    /// returning, so the permanent graph leaves exactly as it entered.
    pub fn shortest_path(&mut self, start: NodeId, end: NodeId, kind: TransportKind) -> (r: Result<
        PathResult,
        RouteError,
    >)
        requires
            old(self).wf(),
            start.0 < old(self).nodes@.len(),
            end.0 < old(self).nodes@.len(),
            old(self).all_unreached(),
        ensures
            final(self).wf(),
            final(self).additional_nodes_num == 0,
            final(self).nodes@.len() == old(self).perm_len(),
            final(self).etas@.len() == old(self).perm_len(),
            final(self).node_map@ == old(self).node_map@,
            final(self).all_unreached(),
            forall|i: int|
                0 <= i < old(self).perm_len() ==> node_restored(
                    #[trigger] final(self).nodes@[i],
                    old(self).nodes@[i],
                    old(self).perm_len(),
                ),
            (!(exists|walk: Seq<usize>, times: Seq<u64>|
                walk_ok(old(self).nodes@, kind, walk, times, start.0 as int, end.0 as int)))
                ==> (match r {
                Ok(pr) => empty_result(pr),
                Err(_) => false,
            }),
            good_graph(old(self).nodes@) ==> r is Ok,
            match r {
                Ok(pr) => {
                    &&& (empty_result(pr) || (exists|trace: Seq<usize>|
                        route_ok(old(self).nodes@, kind, start.0 as int, end.0 as int, pr, trace)))
                    &&& (empty_result(pr) ==> !(exists|walk: Seq<usize>, times: Seq<u64>|
                        walk_ok(
                            old(self).nodes@,
                            kind,
                            walk,
                            times,
                            start.0 as int,
                            end.0 as int,
                        )))
                    &&& (forall|walk: Seq<usize>, times: Seq<u64>|
                        walk_ok(old(self).nodes@, kind, walk, times, start.0 as int, end.0 as int)
                            ==> !empty_result(pr) && (pr.total_time as int) <= times[times.len()
                            - 1] as int)
                },
                Err(e) => e is InconsistentPath,
            },
    {
        let ghost g0 = *old(self);
        let n = self.nodes.len();
        proof {
            assert forall|i: int, j: int|
                0 <= i < g0.nodes@.len() && 0 <= j < g0.nodes@[i].nodes@.len() implies ((
            #[trigger] g0.nodes@[i].nodes@[j]).node.0 as int) < g0.nodes@.len() by {
                assert(g0.node_wf(i));
                assert(g0.link_wf(i, j));
            }
            assert forall|i: int| 0 <= i < g0.nodes@.len() implies valid_coord(
                (#[trigger] g0.nodes@[i]).lat as int,
                g0.nodes@[i].lon as int,
            ) by {
                assert(g0.node_wf(i));
            }
            assert(links_in_range(g0.nodes@));
            assert(coords_ok(g0.nodes@));
        }
        let end_lat = self.nodes[end.0].lat;
        let end_lon = self.nodes[end.0].lon;
        self.etas[start.0] = 0;
        let mut queue: Vec<QueueEntry> = Vec::new();
        let h0 = crate::geo::distance_t(
            self.nodes[start.0].lat,
            self.nodes[start.0].lon,
            end_lat,
            end_lon,
            Kmh(50),
        );
        queue.push(QueueEntry { cost: h0, eta: 0, node: start.0 });
        // Ghost record of the arrival time against which each node was
        // last fully expanded. Together with the queue it carries the
        // completeness argument: a reached node either still has a live
        // queue entry or has already relaxed all its links.
        let ghost mut expanded_at: Map<int, u64> = Map::empty();
        proof {
            assert(in_queue(queue@, start.0 as int, 0)) by {
                assert((queue@[0].node as int) == start.0 as int && queue@[0].eta == 0);
            }
            assert forall|u: int|
                0 <= u < n && #[trigger] self.etas@[u]
                    != UNREACHED implies in_queue(queue@, u, self.etas@[u])
                || (expanded_at.contains_key(u) && expanded_at[u] == self.etas@[u]) by {
                if u != start.0 as int {
                    assert(g0.etas@[u] == UNREACHED);
                }
            }
            lemma_reaches_start(g0.nodes@, kind, start.0);
            assert forall|u: int|
                0 <= u < n && #[trigger] self.etas@[u] != UNREACHED implies reaches(
                g0.nodes@,
                kind,
                start.0 as int,
                u,
                self.etas@[u],
            ) by {
                if u != start.0 as int {
                    assert(g0.etas@[u] == UNREACHED);
                }
            }
        }
        while queue.len() > 0
            invariant
                self.nodes@ == g0.nodes@,
                self.node_map@ == g0.node_map@,
                self.additional_nodes_num == g0.additional_nodes_num,
                self.etas@.len() == g0.etas@.len(),
                g0.etas@.len() == g0.nodes@.len(),
                n == g0.nodes@.len(),
                links_in_range(g0.nodes@),
                coords_ok(g0.nodes@),
                start.0 < n,
                end.0 < n,
                end_lat == g0.nodes@[end.0 as int].lat,
                end_lon == g0.nodes@[end.0 as int].lon,
                self.etas@[start.0 as int] == 0,
                forall|q: int| 0 <= q < queue@.len() ==> (#[trigger] queue@[q]).node < n,
                forall|q: int| 0 <= q < queue@.len() ==> (#[trigger] queue@[q]).eta != UNREACHED,
                forall|u: int|
                    0 <= u < n && #[trigger] self.etas@[u] != UNREACHED
                        ==> in_queue(queue@, u, self.etas@[u]) || (expanded_at.contains_key(u)
                        && expanded_at[u] == self.etas@[u]),
                forall|u: int|
                    0 <= u < n && #[trigger] self.etas@[u] != UNREACHED ==> reaches(
                        g0.nodes@,
                        kind,
                        start.0 as int,
                        u,
                        self.etas@[u],
                    ),
                forall|u: int|
                    #[trigger] expanded_at.contains_key(u) ==> 0 <= u < n && expanded_ok(
                        g0.nodes@,
                        kind,
                        self.etas@,
                        u,
                        expanded_at[u],
                    ),
            decreases sum_etas(self.etas@), queue@.len(),
        {
            proof {
                lemma_sum_nonneg(self.etas@);
            }
            let best = min_cost_index(&queue);
            let ghost q_pre = queue@;
            let entry = queue.swap_remove(best);
            if entry.eta != self.etas[entry.node] {
                proof {
                    assert forall|u: int|
                        0 <= u < n && #[trigger] self.etas@[u]
                            != UNREACHED implies in_queue(queue@, u, self.etas@[u])
                        || (expanded_at.contains_key(u) && expanded_at[u] == self.etas@[u]) by {
                        if in_queue(q_pre, u, self.etas@[u]) && !(expanded_at.contains_key(u)
                            && expanded_at[u] == self.etas@[u]) {
                            if (q_pre[best as int].node as int) == u && q_pre[best as int].eta
                                == self.etas@[u] {
                                assert(false);
                            }
                            lemma_in_queue_after_swap_remove(
                                q_pre,
                                queue@,
                                best as int,
                                u,
                                self.etas@[u],
                            );
                        }
                    }
                }
                continue;
            }
            let curr = entry.node;
            let curr_eta = self.etas[curr];
            let curr_kind = self.nodes[curr].kind;
            let deg = self.nodes[curr].nodes.len();
            let ghost sum0 = sum_etas(self.etas@);
            let ghost qlen0 = queue@.len();
            proof {
                assert(self.etas@[curr as int] == curr_eta);
                assert(reaches(g0.nodes@, kind, start.0 as int, curr as int, curr_eta));
                assert forall|u: int|
                    0 <= u < n && u != curr as int && #[trigger] self.etas@[u]
                        != UNREACHED implies in_queue(queue@, u, self.etas@[u])
                    || (expanded_at.contains_key(u) && expanded_at[u] == self.etas@[u]) by {
                    if in_queue(q_pre, u, self.etas@[u]) && !(expanded_at.contains_key(u)
                        && expanded_at[u] == self.etas@[u]) {
                        lemma_in_queue_after_swap_remove(
                            q_pre,
                            queue@,
                            best as int,
                            u,
                            self.etas@[u],
                        );
                    }
                }
            }
            let mut li: usize = 0;
            while li < deg
                invariant
                    self.nodes@ == g0.nodes@,
                    self.node_map@ == g0.node_map@,
                    self.additional_nodes_num == g0.additional_nodes_num,
                    self.etas@.len() == g0.etas@.len(),
                    g0.etas@.len() == g0.nodes@.len(),
                    n == g0.nodes@.len(),
                    links_in_range(g0.nodes@),
                    coords_ok(g0.nodes@),
                    start.0 < n,
                    end.0 < n,
                    end_lat == g0.nodes@[end.0 as int].lat,
                    end_lon == g0.nodes@[end.0 as int].lon,
                    self.etas@[start.0 as int] == 0,
                    curr < n,
                    curr_kind == g0.nodes@[curr as int].kind,
                    curr_eta != UNREACHED,
                    deg == g0.nodes@[curr as int].nodes@.len(),
                    li <= deg,
                    forall|q: int| 0 <= q < queue@.len() ==> (#[trigger] queue@[q]).node < n,
                    forall|q: int| 0 <= q < queue@.len() ==> (#[trigger] queue@[q]).eta != UNREACHED,
                    forall|u: int|
                        0 <= u < n && u != curr as int
                            && #[trigger] self.etas@[u] != UNREACHED ==> in_queue(
                            queue@,
                            u,
                            self.etas@[u],
                        ) || (expanded_at.contains_key(u) && expanded_at[u] == self.etas@[u]),
                    self.etas@[curr as int] == curr_eta || in_queue(
                        queue@,
                        curr as int,
                        self.etas@[curr as int],
                    ),
                    reaches(g0.nodes@, kind, start.0 as int, curr as int, curr_eta),
                    forall|u: int|
                        0 <= u < n && #[trigger] self.etas@[u] != UNREACHED ==> reaches(
                            g0.nodes@,
                            kind,
                            start.0 as int,
                            u,
                            self.etas@[u],
                        ),
                    forall|u: int|
                        #[trigger] expanded_at.contains_key(u) ==> 0 <= u < n && expanded_ok(
                            g0.nodes@,
                            kind,
                            self.etas@,
                            u,
                            expanded_at[u],
                        ),
                    forall|j: int|
                        0 <= j < li ==> #[trigger] link_relaxed(
                            g0.nodes@,
                            kind,
                            self.etas@,
                            curr as int,
                            curr_eta,
                            j,
                        ),
                    sum_etas(self.etas@) >= 0,
                    sum_etas(self.etas@) <= sum0,
                    sum_etas(self.etas@) == sum0 ==> queue@.len() == qlen0,
                decreases deg - li,
            {
                let link = self.nodes[curr].nodes[li];
                let tgt = link.node.0;
                proof {
                    assert(g0.nodes@[curr as int].nodes@[li as int] == link);
                    assert((link.node.0 as int) < n as int);
                }
                let next_kind = self.nodes[tgt].kind;
                let ghost etas0 = self.etas@;
                let ghost queue0 = queue@;
                if link_allowed(kind, link.kind, &curr_kind, &next_kind) {
                    match step_cost(kind, &curr_kind, curr_eta, &next_kind, link.len) {
                        Some(c) => {
                            let cand = curr_eta.saturating_add(c);
                            if cand < self.etas[tgt] {
                                proof {
                                    let pre_etas = self.etas@;
                                    lemma_sum_update(pre_etas, tgt as int, cand);
                                }
                                let ghost pre_etas = self.etas@;
                                self.etas[tgt] = cand;
                                proof {
                                    assert(self.etas@ == pre_etas.update(tgt as int, cand));
                                    assert(sum_etas(self.etas@) < sum_etas(pre_etas));
                                    lemma_sum_nonneg(self.etas@);
                                }
                                proof {
                                    assert(valid_coord(
                                        g0.nodes@[tgt as int].lat as int,
                                        g0.nodes@[tgt as int].lon as int,
                                    ));
                                }
                                let h = crate::geo::distance_t(
                                    self.nodes[tgt].lat,
                                    self.nodes[tgt].lon,
                                    end_lat,
                                    end_lon,
                                    Kmh(50),
                                );
                                let prio = cand.saturating_add(h);
                                queue.push(QueueEntry { cost: prio, eta: cand, node: tgt });
                                proof {
                                    assert(queue@ == queue0.push(
                                        QueueEntry { cost: prio, eta: cand, node: tgt },
                                    ));
                                    assert(in_queue(queue@, tgt as int, cand)) by {
                                        assert((queue@[queue0.len() as int].node as int)
                                            == tgt as int && queue@[queue0.len() as int].eta
                                            == cand);
                                    }
                                    assert forall|u: int|
                                        0 <= u < n && u != curr as int
                                            && #[trigger] self.etas@[u] != UNREACHED implies
                                        in_queue(queue@, u, self.etas@[u])
                                        || (expanded_at.contains_key(u) && expanded_at[u]
                                            == self.etas@[u]) by {
                                        if u == tgt as int {
                                        } else {
                                            assert(self.etas@[u] == etas0[u]);
                                            if in_queue(queue0, u, etas0[u]) {
                                                lemma_in_queue_push(
                                                    queue0,
                                                    QueueEntry { cost: prio, eta: cand, node: tgt },
                                                    u,
                                                    etas0[u],
                                                );
                                            }
                                        }
                                    }
                                    if tgt == curr {
                                    } else {
                                        if etas0[curr as int] != curr_eta && in_queue(
                                            queue0,
                                            curr as int,
                                            etas0[curr as int],
                                        ) {
                                            lemma_in_queue_push(
                                                queue0,
                                                QueueEntry { cost: prio, eta: cand, node: tgt },
                                                curr as int,
                                                etas0[curr as int],
                                            );
                                        }
                                    }
                                    assert forall|u: int|
                                        #[trigger] expanded_at.contains_key(u) implies 0 <= u < n
                                        && expanded_ok(
                                        g0.nodes@,
                                        kind,
                                        self.etas@,
                                        u,
                                        expanded_at[u],
                                    ) by {
                                        assert(expanded_ok(
                                            g0.nodes@,
                                            kind,
                                            etas0,
                                            u,
                                            expanded_at[u],
                                        ));
                                        assert forall|j: int|
                                            0 <= j < g0.nodes@[u].nodes@.len() implies
                                            #[trigger] link_relaxed(
                                            g0.nodes@,
                                            kind,
                                            self.etas@,
                                            u,
                                            expanded_at[u],
                                            j,
                                        ) by {
                                            assert(link_relaxed(
                                                g0.nodes@,
                                                kind,
                                                etas0,
                                                u,
                                                expanded_at[u],
                                                j,
                                            ));
                                            let l2 = g0.nodes@[u].nodes@[j];
                                            if (l2.node.0 as int) == tgt as int {
                                                assert(self.etas@[tgt as int] == cand);
                                                assert(cand < etas0[tgt as int]);
                                            } else {
                                                assert(self.etas@[l2.node.0 as int] == etas0[
                                                l2.node.0 as int]);
                                            }
                                        }
                                    }
                                    assert forall|j: int|
                                        0 <= j < li + 1 implies #[trigger] link_relaxed(
                                        g0.nodes@,
                                        kind,
                                        self.etas@,
                                        curr as int,
                                        curr_eta,
                                        j,
                                    ) by {
                                        if j < li {
                                            assert(link_relaxed(
                                                g0.nodes@,
                                                kind,
                                                etas0,
                                                curr as int,
                                                curr_eta,
                                                j,
                                            ));
                                            let l2 = g0.nodes@[curr as int].nodes@[j];
                                            if (l2.node.0 as int) == tgt as int {
                                                assert(cand < etas0[tgt as int]);
                                            }
                                        } else {
                                            assert(g0.nodes@[curr as int].nodes@[li as int]
                                                == link);
                                            assert(self.etas@[tgt as int] == cand);
                                            assert((cand as int) <= curr_eta + c);
                                        }
                                    }
                                    assert((cand as int) == curr_eta + c && cand < UNREACHED);
                                    assert(walk_step_via(
                                        g0.nodes@,
                                        kind,
                                        curr as int,
                                        tgt as int,
                                        curr_eta,
                                        cand,
                                        g0.nodes@[curr as int].nodes@[li as int],
                                    ));
                                    assert(walk_step_ok(
                                        g0.nodes@,
                                        kind,
                                        curr as int,
                                        tgt as int,
                                        curr_eta,
                                        cand,
                                    ));
                                    lemma_reaches_extend(
                                        g0.nodes@,
                                        kind,
                                        start.0 as int,
                                        curr,
                                        curr_eta,
                                        tgt,
                                        cand,
                                    );
                                    assert forall|u: int|
                                        0 <= u < n && #[trigger] self.etas@[u]
                                            != UNREACHED implies reaches(
                                        g0.nodes@,
                                        kind,
                                        start.0 as int,
                                        u,
                                        self.etas@[u],
                                    ) by {
                                        if u != tgt as int {
                                            assert(self.etas@[u] == etas0[u]);
                                        }
                                    }
                                }
                            } else {
                                proof {
                                    assert forall|j: int|
                                        0 <= j < li + 1 implies #[trigger] link_relaxed(
                                        g0.nodes@,
                                        kind,
                                        self.etas@,
                                        curr as int,
                                        curr_eta,
                                        j,
                                    ) by {
                                        if j == li {
                                            assert(g0.nodes@[curr as int].nodes@[li as int]
                                                == link);
                                            assert((self.etas@[tgt as int] as int) <= cand
                                                as int);
                                            assert((cand as int) <= curr_eta + c);
                                        }
                                    }
                                }
                            }
                        },
                        None => {
                            proof {
                                assert forall|j: int|
                                    0 <= j < li + 1 implies #[trigger] link_relaxed(
                                    g0.nodes@,
                                    kind,
                                    self.etas@,
                                    curr as int,
                                    curr_eta,
                                    j,
                                ) by {
                                    if j == li {
                                        assert(g0.nodes@[curr as int].nodes@[li as int] == link);
                                    }
                                }
                            }
                        },
                    }
                } else {
                    proof {
                        assert forall|j: int|
                            0 <= j < li + 1 implies #[trigger] link_relaxed(
                            g0.nodes@,
                            kind,
                            self.etas@,
                            curr as int,
                            curr_eta,
                            j,
                        ) by {
                            if j == li {
                                assert(g0.nodes@[curr as int].nodes@[li as int] == link);
                                assert(!spec_link_allowed(
                                    kind,
                                    link.kind,
                                    g0.nodes@[curr as int].kind,
                                    g0.nodes@[tgt as int].kind,
                                ));
                            }
                        }
                    }
                }
                li = li + 1;
            }
            proof {
                assert(expanded_ok(g0.nodes@, kind, self.etas@, curr as int, curr_eta));
                let ea0 = expanded_at;
                expanded_at = expanded_at.insert(curr as int, curr_eta);
                assert forall|u: int|
                    #[trigger] expanded_at.contains_key(u) implies 0 <= u < n && expanded_ok(
                    g0.nodes@,
                    kind,
                    self.etas@,
                    u,
                    expanded_at[u],
                ) by {
                    if u != curr as int {
                        assert(ea0.contains_key(u) && expanded_at[u] == ea0[u]);
                    }
                }
                assert forall|u: int|
                    0 <= u < n && #[trigger] self.etas@[u]
                        != UNREACHED implies in_queue(queue@, u, self.etas@[u])
                    || (expanded_at.contains_key(u) && expanded_at[u] == self.etas@[u]) by {
                    if u == curr as int {
                        if self.etas@[curr as int] == curr_eta {
                            assert(expanded_at[curr as int] == curr_eta);
                        }
                    }
                }
            }
        }
        proof {
            assert forall|i: int| 0 <= i < self.nodes@.len() implies #[trigger] self.node_wf(
                i,
            ) by {
                assert(g0.node_wf(i));
                assert(self.node_links(i) == g0.node_links(i));
                assert forall|j: int|
                    0 <= j < self.node_links(i).len() implies self.link_wf(i, j) by {
                    assert(g0.link_wf(i, j));
                    let l = g0.node_links(i)[j];
                    assert(self.node_links(l.node.0 as int) == g0.node_links(l.node.0 as int));
                }
            }
            assert(self.wf());
        }
        let ghost best_end: u64 = self.etas@[end.0 as int];
        proof {
            // The queue has drained, so every reached node has been fully
            // expanded against its final time: the settled times are a
            // relaxation fixpoint, and so a lower bound on the final time
            // of every admissible walk.
            assert(queue@.len() == 0);
            assert forall|u: int|
                0 <= u < n && #[trigger] self.etas@[u] != UNREACHED implies
                expanded_at.contains_key(u) && expanded_at[u] == self.etas@[u] by {
                if in_queue(queue@, u, self.etas@[u]) {
                    let k = choose|k: int|
                        0 <= k < queue@.len() && ((#[trigger] queue@[k]).node as int) == u
                            && queue@[k].eta == self.etas@[u];
                    assert(false);
                }
            }
            assert forall|walk: Seq<usize>, times: Seq<u64>|
                walk_ok(g0.nodes@, kind, walk, times, start.0 as int, end.0 as int) implies (
            best_end as int) <= times[times.len() - 1] as int && best_end != UNREACHED by {
                lemma_walk_reached(
                    g0.nodes@,
                    kind,
                    self.etas@,
                    expanded_at,
                    walk,
                    times,
                    start.0 as int,
                    end.0 as int,
                    walk.len() as int - 1,
                );
            }
        }
        let res: Result<PathResult, RouteError> = if self.etas[end.0] == UNREACHED {
            proof {
                if exists|walk: Seq<usize>, times: Seq<u64>|
                    walk_ok(g0.nodes@, kind, walk, times, start.0 as int, end.0 as int) {
                    let (walk, times) = choose|walk: Seq<usize>, times: Seq<u64>|
                        walk_ok(g0.nodes@, kind, walk, times, start.0 as int, end.0 as int);
                    assert(best_end != UNREACHED);
                    assert(false);
                }
            }
            Ok(
                PathResult {
                    total_time: 0,
                    total_distance: 0,
                    points: Vec::new(),
                    eta_list: Vec::new(),
                    distance_list: Vec::new(),
                },
            )
        } else {
            proof {
                assert forall|u: int|
                    0 <= u < self.nodes@.len() && #[trigger] self.etas@[u]
                        != UNREACHED implies expanded_ok(
                    self.nodes@,
                    kind,
                    self.etas@,
                    u,
                    self.etas@[u],
                ) by {
                    assert(expanded_at.contains_key(u) && expanded_at[u] == self.etas@[u]);
                    assert(expanded_ok(g0.nodes@, kind, self.etas@, u, self.etas@[u]));
                }
                assert(etas_fixpoint(self.nodes@, kind, self.etas@));
                assert forall|u: int|
                    0 <= u < self.nodes@.len() && #[trigger] self.etas@[u]
                        != UNREACHED implies reaches(
                    self.nodes@,
                    kind,
                    start.0 as int,
                    u,
                    self.etas@[u],
                ) by {
                    assert(reaches(g0.nodes@, kind, start.0 as int, u, self.etas@[u]));
                }
                assert(etas_sound(self.nodes@, kind, self.etas@, start.0 as int));
            }
            let r2 = self.reconstruct(start, end, kind);
            proof {
                assert(self.etas@[end.0 as int] == best_end && best_end != UNREACHED);
                assert(reaches(g0.nodes@, kind, start.0 as int, end.0 as int, best_end));
                let (w0, ts0) = choose|w0: Seq<usize>, ts0: Seq<u64>|
                    walk_ok(g0.nodes@, kind, w0, ts0, start.0 as int, end.0 as int) && ts0[
                    ts0.len() - 1] == best_end;
                assert(walk_ok(g0.nodes@, kind, w0, ts0, start.0 as int, end.0 as int));
                if r2 is Ok {
                    let pr2 = r2->Ok_0;
                    let tr = choose|tr: Seq<usize>|
                        route_ok(self.nodes@, kind, start.0 as int, end.0 as int, pr2, tr);
                    assert(pr2.points@.len() >= 1);
                    assert(pr2.total_time == best_end);
                }
            }
            r2
        };
        self.reset_graph();
        res
    }
}

} // verus!
