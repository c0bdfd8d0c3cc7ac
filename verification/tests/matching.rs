use transit_import::finalized::{FinalizedStop, FinalizedStopTime, NetworkPosition};
use transit_import::geometry::Point;
use transit_import::matching::{
    build_index, finalize_stop, locate, match_route, match_routes, nearest_edge, Hit,
    DEFAULT_TOLERANCE,
};
use transit_import::network::{is_eligible, measure, Edge, EdgeKind, Measure};
use transit_import::report::Report;
use transit_import::transit::{RawStop, RawStopTime, RawTransitRoute, RawTrip, ShapePoint};

fn pt(x: i32, y: i32) -> Point {
    Point { x, y }
}

fn edge(id: &str, kind: EdgeKind, line: &[(i32, i32)]) -> Edge {
    Edge { id: id.to_string(), kind, geometry: line.iter().map(|&(x, y)| pt(x, y)).collect() }
}

fn raw_stop(id: &str, x: i32, y: i32) -> RawStop {
    RawStop {
        id: id.to_string(),
        code: format!("code {}", id),
        name: format!("name {}", id),
        description: format!("about {}", id),
        position: pt(x, y),
    }
}

fn final_stop(id: &str, edge_id: &str, offset: u64) -> FinalizedStop {
    FinalizedStop {
        id: id.to_string(),
        code: format!("code {}", id),
        name: format!("name {}", id),
        description: format!("about {}", id),
        network_position: NetworkPosition { edge_id: edge_id.to_string(), offset },
    }
}

fn raw_call(stop: RawStop, sequence: u64) -> RawStopTime {
    RawStopTime {
        arrival_time: "09:00:00".to_string(),
        departure_time: "09:01:00".to_string(),
        stop,
        stop_sequence: sequence,
        pickup_type: 0,
        drop_off_type: 1,
    }
}

fn raw_route(id: &str, stops: Vec<RawStop>, trips: Vec<RawTrip>) -> RawTransitRoute {
    RawTransitRoute {
        id: id.to_string(),
        long_name: "long".to_string(),
        short_name: "short".to_string(),
        description: "described".to_string(),
        stops,
        trips,
    }
}

fn raw_trip(id: &str, calls: Vec<RawStopTime>) -> RawTrip {
    RawTrip {
        service_id: "WEEKDAY".to_string(),
        id: id.to_string(),
        headsign: "Downtown".to_string(),
        direction_id: 0,
        shape: vec![ShapePoint { position: pt(1, 2), sequence: 1 }],
        stop_times: calls,
    }
}

/// A street along the x axis, a bus lane above it, and a footpath between.
fn streets() -> Vec<Edge> {
    vec![
        edge("walk", EdgeKind::Walking, &[(0, 20), (1000, 20)]),
        edge("main", EdgeKind::Driving, &[(0, 0), (1000, 0)]),
        edge("park", EdgeKind::Parking, &[(0, 5), (1000, 5)]),
        edge("bus", EdgeKind::Bus, &[(0, 100), (1000, 100)]),
        edge("bike", EdgeKind::Biking, &[(0, 30), (1000, 30)]),
    ]
}

#[test]
fn transit_runs_on_driving_and_bus_lanes() {
    assert!(is_eligible(EdgeKind::Driving));
    assert!(is_eligible(EdgeKind::Bus));
    assert!(!is_eligible(EdgeKind::Walking));
    assert!(!is_eligible(EdgeKind::Biking));
    assert!(!is_eligible(EdgeKind::Parking));
    let edges = streets();
    let ids: Vec<&str> = build_index(&edges).iter().map(|e| e.id.as_str()).collect();
    assert_eq!(ids, vec!["main", "bus"]);
}

#[test]
fn a_point_is_measured_against_a_line() {
    let line = vec![pt(0, 0), pt(3, 4), pt(3, 104)];
    // Nearest on the second segment at (3, 54): 5 units along the first, 50 along the second.
    assert_eq!(measure(pt(10, 54), &line), Some(Measure { distance2: 49, offset: 55 }));
    assert_eq!(measure(pt(0, 0), &line), Some(Measure { distance2: 0, offset: 0 }));
    assert_eq!(measure(pt(3, 4), &line), Some(Measure { distance2: 0, offset: 5 }));
    assert_eq!(measure(pt(3, 104), &line), Some(Measure { distance2: 0, offset: 105 }));
    assert_eq!(measure(pt(3, 200), &line), Some(Measure { distance2: 96 * 96, offset: 105 }));
    assert_eq!(measure(pt(-3, -4), &line), Some(Measure { distance2: 25, offset: 0 }));
}

#[test]
fn a_line_of_one_point_is_that_point_and_a_line_without_points_is_none() {
    assert_eq!(measure(pt(3, 4), &vec![pt(0, 0)]), Some(Measure { distance2: 25, offset: 0 }));
    assert_eq!(measure(pt(3, 4), &vec![]), None);
}

#[test]
fn of_equally_near_segments_the_first_is_taken() {
    // A square path; the centre is equally far from all four sides.
    let line = vec![pt(0, 0), pt(10, 0), pt(10, 10), pt(0, 10), pt(0, 0)];
    assert_eq!(measure(pt(5, 5), &line), Some(Measure { distance2: 25, offset: 5 }));
    assert_eq!(measure(pt(9, 5), &line), Some(Measure { distance2: 1, offset: 15 }));
}

#[test]
fn segment_lengths_are_rounded_down_to_whole_units() {
    let line = vec![pt(0, 0), pt(1, 1), pt(2, 2), pt(12, 2)];
    // Each diagonal step is 1.41 units long and counts as 1.
    assert_eq!(measure(pt(7, 0), &line), Some(Measure { distance2: 4, offset: 7 }));
}

#[test]
fn the_nearest_eligible_edge_is_found() {
    let edges = streets();
    let index = build_index(&edges);
    assert_eq!(
        nearest_edge(pt(500, 10), &index),
        Some(Hit { edge: 0, measure: Measure { distance2: 100, offset: 500 } })
    );
    assert_eq!(
        nearest_edge(pt(250, 90), &index),
        Some(Hit { edge: 1, measure: Measure { distance2: 100, offset: 250 } })
    );
    assert_eq!(nearest_edge(pt(0, 0), &vec![]), None);
}

#[test]
fn edges_without_a_line_are_passed_over() {
    let edges = vec![
        edge("empty", EdgeKind::Driving, &[]),
        edge("far", EdgeKind::Driving, &[(0, 900), (10, 900)]),
        edge("void", EdgeKind::Bus, &[]),
    ];
    let index = build_index(&edges);
    assert_eq!(nearest_edge(pt(0, 0), &index).unwrap().edge, 1);
    let none = vec![edge("empty", EdgeKind::Driving, &[])];
    assert_eq!(nearest_edge(pt(0, 0), &build_index(&none)), None);
    assert_eq!(locate(pt(0, 0), &build_index(&none), u64::MAX), None);
}

#[test]
fn of_equally_near_edges_the_identifier_that_comes_first_wins() {
    let edges = vec![
        edge("lane-b", EdgeKind::Driving, &[(0, 10), (100, 10)]),
        edge("lane-a", EdgeKind::Driving, &[(0, -10), (100, -10)]),
        edge("lane-c", EdgeKind::Bus, &[(0, 10), (100, 10)]),
    ];
    let index = build_index(&edges);
    assert_eq!(locate(pt(50, 0), &index, 50), Some(NetworkPosition { edge_id: "lane-a".to_string(), offset: 50 }));
    let turned: Vec<Edge> = edges.iter().rev().cloned().collect();
    assert_eq!(
        locate(pt(50, 0), &build_index(&turned), 50),
        Some(NetworkPosition { edge_id: "lane-a".to_string(), offset: 50 })
    );
    assert_eq!(locate(pt(50, 1), &index, 50), Some(NetworkPosition { edge_id: "lane-b".to_string(), offset: 50 }));
}

#[test]
fn a_stop_500_units_from_the_nearest_edge_is_dropped_at_tolerance_50() {
    let edges = streets();
    let index = build_index(&edges);
    // 600 units above the street, 500 above the bus lane.
    let route = raw_route("R", vec![raw_stop("S", 300, 600)], vec![]);
    let out = match_route(&route, &index, 50);
    assert_eq!(out.route, None);
    assert_eq!(
        out.reports,
        vec![
            Report::UnmatchedStop { stop_id: "S".to_string(), route_id: "R".to_string() },
            Report::RouteUnroutable { route_id: "R".to_string() },
        ]
    );
    assert_eq!(finalize_stop(&raw_stop("S", 300, 600), &index, 50), None);
    assert_eq!(finalize_stop(&raw_stop("S", 300, 600), &index, 499), None);
    assert_eq!(finalize_stop(&raw_stop("S", 300, 600), &index, 500), Some(final_stop("S", "bus", 300)));
}

#[test]
fn a_stop_10_units_from_the_nearest_edge_is_matched_at_tolerance_50() {
    let edges = streets();
    let index = build_index(&edges);
    let route = raw_route("R", vec![raw_stop("S", 300, -10)], vec![]);
    let out = match_route(&route, &index, 50);
    assert_eq!(out.reports, vec![]);
    let found = out.route.unwrap();
    assert_eq!(found.stops, vec![final_stop("S", "main", 300)]);
    assert_eq!(found.id, "R");
    assert_eq!(found.long_name, "long");
    assert_eq!(found.short_name, "short");
    assert_eq!(found.description, "described");
}

#[test]
fn the_tolerance_is_met_at_exactly_its_distance() {
    let edges = streets();
    let index = build_index(&edges);
    assert_eq!(DEFAULT_TOLERANCE, 50);
    assert!(locate(pt(10, -50), &index, DEFAULT_TOLERANCE).is_some());
    assert!(locate(pt(10, -51), &index, DEFAULT_TOLERANCE).is_none());
    assert!(locate(pt(10, 0), &index, 0).is_some());
    assert!(locate(pt(10, 1), &index, 0).is_none());
    assert!(locate(pt(i32::MIN, i32::MIN), &index, u64::MAX).is_some());
}

#[test]
fn a_point_on_an_edge_is_matched_to_it_at_distance_zero() {
    let edges = vec![
        edge("other", EdgeKind::Driving, &[(0, 50), (100, 50)]),
        edge("slope", EdgeKind::Bus, &[(0, 0), (40, 30), (100, 30)]),
    ];
    let index = build_index(&edges);
    for p in [pt(0, 0), pt(4, 3), pt(20, 15), pt(40, 30), pt(77, 30), pt(100, 30)] {
        let hit = nearest_edge(p, &index).unwrap();
        assert_eq!(hit.edge, 1);
        assert_eq!(hit.measure.distance2, 0);
        assert_eq!(locate(p, &index, 0).unwrap().edge_id, "slope");
    }
    assert_eq!(locate(pt(20, 15), &index, 0), Some(NetworkPosition { edge_id: "slope".to_string(), offset: 25 }));
    assert_eq!(locate(pt(77, 30), &index, 0), Some(NetworkPosition { edge_id: "slope".to_string(), offset: 87 }));
}

#[test]
fn an_unmatched_stop_is_dropped_from_the_stops_and_from_every_trip() {
    let edges = streets();
    let index = build_index(&edges);
    let near = raw_stop("NEAR", 100, 10);
    let far = raw_stop("FAR", 100, 900);
    let also = raw_stop("ALSO", 200, 95);
    let route = raw_route(
        "R",
        vec![also.clone(), far.clone(), near.clone()],
        vec![
            raw_trip("t1", vec![raw_call(near.clone(), 1), raw_call(far.clone(), 2), raw_call(also.clone(), 3)]),
            raw_trip("t2", vec![raw_call(far.clone(), 1)]),
            raw_trip("t3", vec![]),
        ],
    );
    let out = match_route(&route, &index, 50);
    assert_eq!(
        out.reports,
        vec![Report::UnmatchedStop { stop_id: "FAR".to_string(), route_id: "R".to_string() }]
    );
    let found = out.route.unwrap();
    assert_eq!(found.stops, vec![final_stop("ALSO", "bus", 200), final_stop("NEAR", "main", 100)]);
    let call = |stop: FinalizedStop, sequence: u64| FinalizedStopTime {
        arrival_time: "09:00:00".to_string(),
        departure_time: "09:01:00".to_string(),
        stop,
        stop_sequence: sequence,
        pickup_type: 0,
        drop_off_type: 1,
    };
    assert_eq!(
        found.trips[0].stop_times,
        vec![call(final_stop("NEAR", "main", 100), 1), call(final_stop("ALSO", "bus", 200), 3)]
    );
    assert_eq!(found.trips[1].stop_times, vec![]);
    assert_eq!(found.trips[2].stop_times, vec![]);
    assert_eq!(found.trips.len(), 3);
    assert_eq!(found.trips[0].id, "t1");
    assert_eq!(found.trips[0].service_id, "WEEKDAY");
    assert_eq!(found.trips[0].headsign, "Downtown");
    assert_eq!(found.trips[0].direction_id, 0);
    assert_eq!(found.trips[0].shape, vec![ShapePoint { position: pt(1, 2), sequence: 1 }]);
    for stop in found.stops.iter() {
        assert!(stop.id != "FAR");
    }
    for trip in found.trips.iter() {
        for call in trip.stop_times.iter() {
            assert!(call.stop.id != "FAR");
        }
    }
}

#[test]
fn a_route_without_stops_is_unroutable() {
    let edges = streets();
    let out = match_route(&raw_route("EMPTY", vec![], vec![raw_trip("t", vec![])]), &build_index(&edges), 50);
    assert_eq!(out.route, None);
    assert_eq!(out.reports, vec![Report::RouteUnroutable { route_id: "EMPTY".to_string() }]);
}

#[test]
fn routes_are_matched_in_their_order_and_unroutable_ones_left_out() {
    let edges = streets();
    let routes = vec![
        raw_route("R1", vec![raw_stop("A", 10, 10), raw_stop("B", 20, 400)], vec![]),
        raw_route("R2", vec![raw_stop("C", 10, 400)], vec![]),
        raw_route("R3", vec![raw_stop("D", 30, 110)], vec![]),
    ];
    let out = match_routes(&routes, &edges, 50);
    let ids: Vec<&str> = out.routes.iter().map(|r| r.id.as_str()).collect();
    assert_eq!(ids, vec!["R1", "R3"]);
    assert_eq!(out.routes[0].stops, vec![final_stop("A", "main", 10)]);
    assert_eq!(out.routes[1].stops, vec![final_stop("D", "bus", 30)]);
    assert_eq!(
        out.reports,
        vec![
            Report::UnmatchedStop { stop_id: "B".to_string(), route_id: "R1".to_string() },
            Report::UnmatchedStop { stop_id: "C".to_string(), route_id: "R2".to_string() },
            Report::RouteUnroutable { route_id: "R2".to_string() },
        ]
    );
}

#[test]
fn only_eligible_edges_take_stops() {
    let edges = streets();
    // The footpath is 5 units away, the street 25.
    let out = match_routes(&vec![raw_route("R", vec![raw_stop("S", 500, 25)], vec![])], &edges, 50);
    assert_eq!(out.routes[0].stops, vec![final_stop("S", "main", 500)]);
    let paths = vec![edge("walk", EdgeKind::Walking, &[(0, 20), (1000, 20)])];
    let none = match_routes(&vec![raw_route("R", vec![raw_stop("S", 500, 25)], vec![])], &paths, 50);
    assert!(none.routes.is_empty());
}

#[test]
fn matching_gives_the_same_result_every_time() {
    let edges = streets();
    let routes = vec![raw_route("R1", vec![raw_stop("A", 10, 50), raw_stop("B", 20, 400)], vec![])];
    assert_eq!(match_routes(&routes, &edges, 50), match_routes(&routes, &edges, 50));
}
