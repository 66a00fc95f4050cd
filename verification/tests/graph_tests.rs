use map_service::graph::{NodeId, RoadGraph};
use map_service::{MapPoint, TransportKind};

fn plain_point(id: u64, lat: i64, lon: i64) -> MapPoint {
    MapPoint { id, lat, lon, path_id: None }
}

/// A line graph A - B - C with foot edges of 100 cm and 200 cm; every node
/// at the same spot so the heuristic plays no role.
fn line_graph() -> (RoadGraph, NodeId, NodeId, NodeId) {
    let mut g = RoadGraph::new();
    let a = g.add_map_point(&plain_point(1, 0, 0));
    let b = g.add_map_point(&plain_point(2, 0, 0));
    let c = g.add_map_point(&plain_point(3, 0, 0));
    g.connect_two_way(a, b, 100, TransportKind::Foot);
    g.connect_two_way(b, c, 200, TransportKind::Foot);
    (g, a, b, c)
}

#[test]
fn single_edge_round_trip() {
    // A direct query across one two-way edge returns the single hop with
    // the edge's own length and its conversion to time, both ways.
    let mut g = RoadGraph::new();
    let a = g.add_map_point(&plain_point(1, 0, 0));
    let b = g.add_map_point(&plain_point(2, 0, 0));
    g.connect_two_way(a, b, 452, TransportKind::Foot);

    let there = g.shortest_path(a, b, TransportKind::Foot).unwrap();
    assert_eq!(there.total_distance, 452);
    assert_eq!(there.total_time, 3254);
    assert_eq!(there.points.len(), 2);
    assert_eq!(there.points[0].id, 1);
    assert_eq!(there.points[1].id, 2);
    assert_eq!(there.eta_list, vec![0, 3254]);
    assert_eq!(there.distance_list, vec![0, 452]);

    let back = g.shortest_path(b, a, TransportKind::Foot).unwrap();
    assert_eq!(back.total_distance, 452);
    assert_eq!(back.total_time, 3254);
    assert_eq!(back.points[0].id, 2);
    assert_eq!(back.points[1].id, 1);
}

#[test]
fn three_node_line() {
    let (mut g, a, _b, c) = line_graph();
    let pr = g.shortest_path(a, c, TransportKind::Foot).unwrap();
    assert_eq!(pr.points.len(), 3);
    assert_eq!(pr.points[0].id, 1);
    assert_eq!(pr.points[1].id, 2);
    assert_eq!(pr.points[2].id, 3);
    assert_eq!(pr.distance_list, vec![0, 100, 300]);
    assert_eq!(pr.eta_list, vec![0, 720, 2160]);
    assert_eq!(pr.total_distance, 300);
    assert_eq!(pr.total_time, 2160);
}

#[test]
fn unreachable_returns_empty() {
    let (mut g, a, _b, _c) = line_graph();
    let d = g.add_map_point(&plain_point(4, 0, 0));
    let pr = g.shortest_path(a, d, TransportKind::Foot).unwrap();
    assert!(pr.points.is_empty());
    assert!(pr.eta_list.is_empty());
    assert!(pr.distance_list.is_empty());
    assert_eq!(pr.total_time, 0);
    assert_eq!(pr.total_distance, 0);
}

#[test]
fn triangle_inequality_of_query_times() {
    // A complete triangle; the searched time A->C never exceeds the sum of
    // the times A->B and B->C.
    let mut g = RoadGraph::new();
    let a = g.add_map_point(&plain_point(1, 0, 0));
    let b = g.add_map_point(&plain_point(2, 0, 0));
    let c = g.add_map_point(&plain_point(3, 0, 0));
    g.connect_two_way(a, b, 100, TransportKind::Foot);
    g.connect_two_way(b, c, 200, TransportKind::Foot);
    g.connect_two_way(a, c, 500, TransportKind::Foot);

    let t_ab = g.shortest_path(a, b, TransportKind::Foot).unwrap().total_time;
    let t_bc = g.shortest_path(b, c, TransportKind::Foot).unwrap().total_time;
    let t_ac = g.shortest_path(a, c, TransportKind::Foot).unwrap().total_time;
    assert!(t_ac <= t_ab + t_bc, "{} > {} + {}", t_ac, t_ab, t_bc);
    // Here the two-hop detour is the optimum.
    assert_eq!(t_ac, 2160);
    assert_eq!(t_ab + t_bc, 2160);
}

#[test]
fn car_mode_ignores_foot_only_edges() {
    // The only edge is foot-classified: a car query cannot use it.
    let mut g = RoadGraph::new();
    let a = g.add_map_point(&plain_point(1, 0, 0));
    let b = g.add_map_point(&plain_point(2, 0, 0));
    g.connect_two_way(a, b, 452, TransportKind::Foot);
    let pr = g.shortest_path(a, b, TransportKind::Car).unwrap();
    assert!(pr.points.is_empty());
    assert_eq!(pr.total_time, 0);

    // A foot query walks car-capable edges freely.
    let mut g2 = RoadGraph::new();
    let a2 = g2.add_map_point(&plain_point(1, 0, 0));
    let b2 = g2.add_map_point(&plain_point(2, 0, 0));
    g2.connect_two_way(a2, b2, 452, TransportKind::Car);
    let pr2 = g2.shortest_path(a2, b2, TransportKind::Foot).unwrap();
    assert_eq!(pr2.total_distance, 452);
}

#[test]
fn boarding_only_before_schedule() {
    // A car node scheduled at 5000 ms can be boarded from a road node
    // settled at 0: the cost is the wait plus the flat penalty.
    let mut g = RoadGraph::new();
    let a = g.add_map_point(&plain_point(1, 0, 0));
    let car = g.add_car_map_point(&plain_point(1, 0, 0), 255, 77);
    g.set_car_node_eta(car, 5000);
    g.connect_two_way(car, a, 1000, TransportKind::Foot);
    let pr = g.shortest_path(a, car, TransportKind::Foot).unwrap();
    assert_eq!(pr.points.len(), 2);
    assert_eq!(pr.total_time, 6000);
    assert_eq!(pr.points[1].path_id, Some(77));
    // The transient car node is gone again.
    assert_eq!(g.nodes.len(), 1);
    assert_eq!(g.additional_nodes_num, 0);

    // A car that left before the traveler arrived is never boarded.
    let car2 = g.add_car_map_point(&plain_point(1, 0, 0), 255, 77);
    g.set_car_node_eta(car2, -5);
    g.connect_two_way(car2, a, 1000, TransportKind::Foot);
    let pr2 = g.shortest_path(a, car2, TransportKind::Foot).unwrap();
    assert!(pr2.points.is_empty());
    assert_eq!(g.nodes.len(), 1);
}

#[test]
fn teardown_restores_permanent_edges() {
    // Splicing a transient node onto a permanent one and querying leaves
    // the permanent adjacency exactly as before.
    let (mut g, a, b, _c) = line_graph();
    let before_deg_a = g.node(a).nodes.len();
    let before_deg_b = g.node(b).nodes.len();
    let car = g.add_car_map_point(&plain_point(9, 0, 0), 255, 5);
    g.set_car_node_eta(car, 100);
    g.connect_two_way(car, a, 1000, TransportKind::Foot);
    g.connect_two_way(car, b, 1000, TransportKind::Foot);
    assert_eq!(g.nodes.len(), 4);
    let _ = g.shortest_path(a, b, TransportKind::Foot).unwrap();
    assert_eq!(g.nodes.len(), 3);
    assert_eq!(g.additional_nodes_num, 0);
    assert_eq!(g.node(a).nodes.len(), before_deg_a);
    assert_eq!(g.node(b).nodes.len(), before_deg_b);
}

#[test]
fn detour_is_taken_when_faster() {
    // A direct edge of 1000 cm against a two-hop detour of 100 + 100 cm:
    // the returned route is the faster detour, not the direct hop.
    let mut g = RoadGraph::new();
    let a = g.add_map_point(&plain_point(1, 0, 0));
    let b = g.add_map_point(&plain_point(2, 0, 0));
    let c = g.add_map_point(&plain_point(3, 0, 0));
    g.connect_two_way(a, b, 1000, TransportKind::Foot);
    g.connect_two_way(a, c, 100, TransportKind::Foot);
    g.connect_two_way(c, b, 100, TransportKind::Foot);
    let pr = g.shortest_path(a, b, TransportKind::Foot).unwrap();
    assert_eq!(
        pr.points.iter().map(|p| p.id).collect::<Vec<_>>(),
        vec![1, 3, 2]
    );
    assert_eq!(pr.total_time, 1440);
    assert_eq!(pr.total_distance, 200);
}

#[test]
fn zero_cost_edge_is_surfaced_as_inconsistency() {
    // A zero-length edge settles the neighbor at time zero too; the
    // backward walk then bottoms out away from the origin, which is
    // reported as an internal inconsistency rather than a truncated route.
    let mut g = RoadGraph::new();
    let a = g.add_map_point(&plain_point(1, 0, 0));
    let b = g.add_map_point(&plain_point(2, 0, 0));
    g.connect_two_way(a, b, 0, TransportKind::Foot);
    let res = g.shortest_path(a, b, TransportKind::Foot);
    assert_eq!(res.unwrap_err(), map_service::RouteError::InconsistentPath);
    // The graph is still reset for the next query.
    assert_eq!(g.nodes.len(), 2);
    assert_eq!(g.additional_nodes_num, 0);
}

#[test]
fn lookup_by_external_id() {
    let (g, a, b, c) = line_graph();
    assert_eq!(g.node_id_by_osm_id(1), Some(a));
    assert_eq!(g.node_id_by_osm_id(2), Some(b));
    assert_eq!(g.node_id_by_osm_id(3), Some(c));
    assert_eq!(g.node_id_by_osm_id(4), None);
}
