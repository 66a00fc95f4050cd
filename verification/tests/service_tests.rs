use map_service::service::road_kind_of_highway;
use map_service::{
    distance, travel_time_ms, Kmh, MapPoint, MapService, MapWay, PlainMapCarPath, RouteError,
    TransportKind,
};

fn plain_point(id: u64, lat: i64, lon: i64) -> MapPoint {
    MapPoint { id, lat, lon, path_id: None }
}

fn way(id: u64, tag: &str, node_ids: Vec<u64>) -> MapWay {
    MapWay { id, highway_type: tag.to_string(), node_ids }
}

#[test]
fn highway_classification() {
    for tag in ["footway", "construction", "bridleway", "steps", "corridor", "path", "cycleway"] {
        assert!(road_kind_of_highway(&tag.to_string()).is_foot(), "{}", tag);
    }
    for tag in ["residential", "primary", "motorway", "service", ""] {
        assert!(road_kind_of_highway(&tag.to_string()).is_car(), "{}", tag);
    }
}

#[test]
fn load_builds_reachable_graph() {
    let mut svc = MapService::new();
    let nodes = vec![
        plain_point(1, 0, 0),
        plain_point(2, 100_000, 0),
        plain_point(3, 200_000, 0),
    ];
    let ways = vec![way(10, "residential", vec![1, 2, 3])];
    svc.load(&nodes, &ways);
    assert_eq!(svc.graph.nodes.len(), 3);
    assert!(svc.has_reachable_node(TransportKind::Car));
    assert!(svc.has_reachable_node(TransportKind::Foot));
}

#[test]
fn load_skips_degenerate_ways_and_unknown_nodes() {
    let mut svc = MapService::new();
    let nodes = vec![plain_point(1, 0, 0), plain_point(2, 100_000, 0)];
    let ways = vec![
        way(10, "residential", vec![1]),        // fewer than two nodes
        way(11, "residential", vec![1, 99]),    // unknown reference
        way(12, "residential", vec![1, 1]),     // degenerate pair
    ];
    svc.load(&nodes, &ways);
    assert_eq!(svc.graph.nodes.len(), 2);
    assert!(!svc.has_reachable_node(TransportKind::Foot));
}

#[test]
fn footway_edges_are_foot_only() {
    let mut svc = MapService::new();
    let nodes = vec![plain_point(1, 0, 0), plain_point(2, 100_000, 0)];
    let ways = vec![way(10, "footway", vec![1, 2])];
    svc.load(&nodes, &ways);
    assert!(svc.has_reachable_node(TransportKind::Foot));
    assert!(!svc.has_reachable_node(TransportKind::Car));
}

#[test]
fn build_path_over_loaded_way() {
    let mut svc = MapService::new();
    let nodes = vec![plain_point(1, 0, 0), plain_point(2, 100_000, 0)];
    let ways = vec![way(10, "residential", vec![1, 2])];
    svc.load(&nodes, &ways);

    let query = vec![plain_point(100, 1, 1), plain_point(101, 99_999, 1)];
    let pr = svc.build_path_rust(&query).unwrap();
    let edge = distance(0, 0, 100_000, 0);
    assert_eq!(pr.points.len(), 2);
    assert_eq!(pr.points[0].id, 1);
    assert_eq!(pr.points[1].id, 2);
    assert_eq!(pr.total_distance, edge as u64);
    assert_eq!(pr.total_time, travel_time_ms(edge, Kmh(50)));
    // The graph is back in its resting state.
    assert_eq!(svc.graph.nodes.len(), 2);
    assert_eq!(svc.graph.additional_nodes_num, 0);
}

#[test]
fn build_path_stitches_segments() {
    let mut svc = MapService::new();
    let nodes = vec![
        plain_point(1, 0, 0),
        plain_point(2, 100_000, 0),
        plain_point(3, 200_000, 0),
    ];
    let ways = vec![way(10, "residential", vec![1, 2, 3])];
    svc.load(&nodes, &ways);

    let query = vec![
        plain_point(100, 0, 0),
        plain_point(101, 100_000, 0),
        plain_point(102, 200_000, 0),
    ];
    let pr = svc.build_path_rust(&query).unwrap();
    let d01 = distance(0, 0, 100_000, 0) as u64;
    let d12 = distance(100_000, 0, 200_000, 0) as u64;
    assert_eq!(pr.points.len(), 3);
    assert_eq!(pr.total_distance, d01 + d12);
    assert_eq!(pr.distance_list, vec![0, d01, d01 + d12]);
    assert_eq!(
        pr.points.iter().map(|p| p.id).collect::<Vec<_>>(),
        vec![1, 2, 3]
    );
}

#[test]
fn carpool_ride_beats_walking() {
    // A long foot edge between two road nodes, and a carpool driving the
    // same stretch shortly after the traveler sets out.
    let mut svc = MapService::new();
    let a = svc.graph.add_map_point(&plain_point(1, 0, 0));
    let c = svc.graph.add_map_point(&plain_point(3, 100_000, 0));
    svc.graph.connect_two_way(a, c, 100_000, TransportKind::Foot);
    let foot_time = travel_time_ms(100_000, Kmh(5));
    assert_eq!(foot_time, 720_000);

    let nodes_before = svc.graph.nodes.len();
    let query = vec![plain_point(100, 0, 0), plain_point(101, 100_000, 0)];
    let schedule = PlainMapCarPath {
        id: 77,
        start_at: 5,
        path: vec![plain_point(1, 0, 0), plain_point(3, 100_000, 0)],
    };
    let pr = svc
        .build_path_using_cars_rust(0, &query, &vec![schedule])
        .unwrap();

    let d = distance(0, 0, 100_000, 0);
    let t_car = travel_time_ms(d, Kmh(50));
    // Board at the scheduled 5000 ms plus the flat penalty, ride, alight.
    assert_eq!(pr.points.len(), 4);
    assert_eq!(pr.eta_list, vec![0, 6000, 6000 + t_car, 7000 + t_car]);
    assert_eq!(
        pr.distance_list,
        vec![0, 1000, 1000 + d as u64, 2000 + d as u64]
    );
    assert_eq!(pr.total_time, 7000 + t_car);
    assert!(pr.total_time < foot_time);
    assert_eq!(
        pr.points.iter().map(|p| p.path_id).collect::<Vec<_>>(),
        vec![None, Some(77), Some(77), None]
    );
    // Transient teardown is exact: the node count is unchanged.
    assert_eq!(svc.graph.nodes.len(), nodes_before);
    assert_eq!(svc.graph.additional_nodes_num, 0);

    // Without the schedule the same query walks.
    let on_foot = svc
        .build_path_using_cars_rust(0, &query, &vec![])
        .unwrap();
    assert_eq!(on_foot.total_time, foot_time);
    assert_eq!(on_foot.points.len(), 2);
}

#[test]
fn load_with_duplicate_node_ids_keeps_lookup_consistent() {
    // Two map points under the same id: the id index points at one of
    // them, and routing still works over the way that references it.
    let mut svc = MapService::new();
    let nodes = vec![
        plain_point(1, 0, 0),
        plain_point(1, 5, 5),
        plain_point(2, 100_000, 0),
    ];
    let ways = vec![way(10, "residential", vec![1, 2])];
    svc.load(&nodes, &ways);
    assert_eq!(svc.graph.nodes.len(), 3);
    let nid = svc.graph.node_id_by_osm_id(1).unwrap();
    assert_eq!(svc.graph.node(nid).id, 1);
    let query = vec![plain_point(100, 4, 4), plain_point(101, 99_999, 0)];
    let pr = svc.build_path_rust(&query).unwrap();
    assert_eq!(pr.points.len(), 2);
}

#[test]
fn carpool_departing_too_late_is_not_taken() {
    // The car drives the stretch only after the walker would already be
    // there: the returned route walks.
    let mut svc = MapService::new();
    let a = svc.graph.add_map_point(&plain_point(1, 0, 0));
    let c = svc.graph.add_map_point(&plain_point(3, 100_000, 0));
    svc.graph.connect_two_way(a, c, 100_000, TransportKind::Foot);

    let query = vec![plain_point(100, 0, 0), plain_point(101, 100_000, 0)];
    let schedule = PlainMapCarPath {
        id: 77,
        start_at: 1_000,
        path: vec![plain_point(1, 0, 0), plain_point(3, 100_000, 0)],
    };
    let pr = svc
        .build_path_using_cars_rust(0, &query, &vec![schedule])
        .unwrap();
    assert_eq!(pr.points.len(), 2);
    assert_eq!(pr.total_time, 720_000);
    assert!(pr.points.iter().all(|p| p.path_id.is_none()));
    assert_eq!(svc.graph.nodes.len(), 2);
}

#[test]
fn carpool_unreachable_without_schedules_is_empty() {
    // Two separate road components and no schedules to bridge them: the
    // query comes back empty, with the graph untouched.
    let mut svc = MapService::new();
    let a = svc.graph.add_map_point(&plain_point(1, 0, 0));
    let b = svc.graph.add_map_point(&plain_point(2, 50_000, 0));
    svc.graph.connect_two_way(a, b, 50_000, TransportKind::Foot);
    let c = svc.graph.add_map_point(&plain_point(3, 100_000, 0));
    let d = svc.graph.add_map_point(&plain_point(4, 150_000, 0));
    svc.graph.connect_two_way(c, d, 50_000, TransportKind::Foot);

    let query = vec![plain_point(100, 0, 0), plain_point(101, 150_000, 0)];
    let pr = svc.build_path_using_cars_rust(0, &query, &vec![]).unwrap();
    assert!(pr.points.is_empty());
    assert_eq!(pr.total_time, 0);
    assert_eq!(pr.total_distance, 0);
    assert_eq!(svc.graph.nodes.len(), 4);
}

#[test]
fn carpool_unknown_schedule_point_fails_fast() {
    let mut svc = MapService::new();
    let a = svc.graph.add_map_point(&plain_point(1, 0, 0));
    let c = svc.graph.add_map_point(&plain_point(3, 100_000, 0));
    svc.graph.connect_two_way(a, c, 100_000, TransportKind::Foot);

    let query = vec![plain_point(100, 0, 0), plain_point(101, 100_000, 0)];
    let schedule = PlainMapCarPath {
        id: 77,
        start_at: 5,
        path: vec![plain_point(1, 0, 0), plain_point(99, 100_000, 0)],
    };
    let res = svc.build_path_using_cars_rust(0, &query, &vec![schedule]);
    assert_eq!(res.unwrap_err(), RouteError::NodeNotFound { id: 99 });
    assert_eq!(svc.graph.nodes.len(), 2);
    assert_eq!(svc.graph.additional_nodes_num, 0);
}

#[test]
fn carpool_empty_schedule_is_skipped() {
    let mut svc = MapService::new();
    let a = svc.graph.add_map_point(&plain_point(1, 0, 0));
    let c = svc.graph.add_map_point(&plain_point(3, 100_000, 0));
    svc.graph.connect_two_way(a, c, 100_000, TransportKind::Foot);

    let query = vec![plain_point(100, 0, 0), plain_point(101, 100_000, 0)];
    let schedule = PlainMapCarPath { id: 77, start_at: 5, path: vec![] };
    let pr = svc
        .build_path_using_cars_rust(0, &query, &vec![schedule])
        .unwrap();
    assert_eq!(pr.points.len(), 2);
    assert_eq!(pr.total_time, 720_000);
    assert_eq!(svc.graph.nodes.len(), 2);
}
