use transit_import::consolidate::{
    canonical_stops, choose_service, choose_trip, consolidate, consolidate_route,
    count_known_calls, count_service, find_stop, lookup_stop, route_trips, service_trips,
    trip_calls, trip_shape, Feed, NoViableTrip,
};
use transit_import::geometry::Point;
use transit_import::order::{insert_stop, order_shape};
use transit_import::projection::Envelope;
use transit_import::records::{RouteRecord, ShapeRecord, StopRecord, StopTimeRecord, TripRecord};
use transit_import::report::{Entity, Report};
use transit_import::select::{is_preferred, pick_best, Candidate};
use transit_import::transit::{RawStop, RawStopTime, ShapePoint};

fn route(id: &str) -> RouteRecord {
    RouteRecord {
        route_id: id.to_string(),
        short_name: format!("{} short", id),
        long_name: format!("{} long", id),
        description: format!("{} described", id),
        route_type: 3,
    }
}

fn stop(id: &str, lon: i64, lat: i64) -> StopRecord {
    StopRecord {
        stop_id: id.to_string(),
        code: format!("code {}", id),
        name: format!("name {}", id),
        description: format!("about {}", id),
        lat,
        lon,
    }
}

fn trip(route_id: &str, service_id: &str, trip_id: &str, shape_id: &str) -> TripRecord {
    TripRecord {
        route_id: route_id.to_string(),
        service_id: service_id.to_string(),
        trip_id: trip_id.to_string(),
        headsign: format!("to {}", trip_id),
        direction_id: 1,
        block_id: "block".to_string(),
        shape_id: shape_id.to_string(),
    }
}

fn call(trip_id: &str, stop_id: &str, sequence: u64) -> StopTimeRecord {
    StopTimeRecord {
        trip_id: trip_id.to_string(),
        arrival_time: format!("08:{:02}:00", sequence),
        departure_time: format!("08:{:02}:30", sequence),
        stop_id: stop_id.to_string(),
        stop_sequence: sequence,
        pickup_type: 0,
        drop_off_type: 0,
    }
}

fn shape(shape_id: &str, lon: i64, lat: i64, sequence: u64) -> ShapeRecord {
    ShapeRecord { shape_id: shape_id.to_string(), lat, lon, sequence }
}

fn raw_stop(id: &str, x: i32, y: i32) -> RawStop {
    RawStop {
        id: id.to_string(),
        code: format!("code {}", id),
        name: format!("name {}", id),
        description: format!("about {}", id),
        position: Point { x, y },
    }
}

/// A map of 1000 by 1000 units over 1000 by 1000 units of coordinate.
fn square() -> Envelope {
    Envelope::new(0, 0, 1000, 1000, 1000, 1000).unwrap()
}

/// Route A runs under WEEKDAY with three trips and under WEEKEND with one;
/// route B has no trip; route C has a trip that calls at no known stop.
fn city() -> Feed {
    Feed {
        routes: vec![route("A"), route("B"), route("C")],
        stops: vec![
            stop("S1", 100, 900),
            stop("S2", 200, 800),
            stop("S3", 300, 700),
            stop("S4", 400, 600),
            stop("FAR", 5000, 5000),
        ],
        trips: vec![
            trip("A", "WEEKDAY", "t1", "sh1"),
            trip("A", "WEEKEND", "t4", "sh1"),
            trip("A", "WEEKDAY", "t2", "sh2"),
            trip("C", "WEEKDAY", "c1", "none"),
            trip("A", "WEEKDAY", "t3", "none"),
        ],
        stop_times: vec![
            call("t1", "S1", 1),
            call("t1", "S4", 2),
            call("t2", "S3", 1),
            call("t2", "S1", 2),
            call("t2", "S2", 3),
            call("t2", "GHOST", 4),
            call("t3", "S2", 1),
            call("t4", "S1", 1),
            call("t4", "S2", 2),
            call("t4", "S3", 3),
            call("t4", "S4", 4),
            call("c1", "GHOST", 1),
            call("c1", "PHANTOM", 2),
            call("t2", "FAR", 5),
            call("t2", "S3", 6),
        ],
        shapes: vec![
            shape("sh1", 100, 900, 2),
            shape("sh2", 10, 10, 1),
            shape("sh1", 50, 950, 1),
            shape("sh1", 9000, 0, 3),
            shape("sh1", 400, 600, 2),
        ],
    }
}

#[test]
fn the_candidate_with_the_greatest_count_is_picked() {
    let c = vec![
        Candidate { id: "x", count: 1 },
        Candidate { id: "y", count: 3 },
        Candidate { id: "z", count: 2 },
    ];
    assert_eq!(pick_best(&c), Some(1));
    assert_eq!(pick_best(&vec![]), None);
    assert_eq!(pick_best(&vec![Candidate { id: "only", count: 0 }]), Some(0));
}

#[test]
fn ties_go_to_the_identifier_that_comes_first() {
    let c = vec![
        Candidate { id: "m", count: 2 },
        Candidate { id: "b", count: 2 },
        Candidate { id: "z", count: 2 },
        Candidate { id: "a", count: 1 },
    ];
    assert_eq!(pick_best(&c), Some(1));
    let again = vec![
        Candidate { id: "b", count: 2 },
        Candidate { id: "m", count: 2 },
        Candidate { id: "b", count: 2 },
    ];
    assert_eq!(pick_best(&again), Some(0));
    assert!(is_preferred(&c[1], &c[0]));
    assert!(!is_preferred(&c[0], &c[1]));
    assert!(is_preferred(&c[0], &c[3]));
    assert!(!is_preferred(&c[1], &c[1]));
}

#[test]
fn selection_does_not_depend_on_the_order_of_the_candidates() {
    let ids = ["k", "c", "x", "a", "q"];
    let counts = [4usize, 7, 7, 2, 7];
    let mut chosen = Vec::new();
    for shift in 0..ids.len() {
        let c: Vec<Candidate> = (0..ids.len())
            .map(|i| Candidate { id: ids[(i + shift) % ids.len()], count: counts[(i + shift) % ids.len()] })
            .collect();
        chosen.push(c[pick_best(&c).unwrap()].id);
    }
    assert_eq!(chosen, vec!["c", "c", "c", "c", "c"]);
}

#[test]
fn the_trips_of_a_route_are_collected_in_feed_order() {
    let feed = city();
    let ids: Vec<&str> = route_trips(&feed.trips, "A").iter().map(|t| t.trip_id.as_str()).collect();
    assert_eq!(ids, vec!["t1", "t4", "t2", "t3"]);
    assert!(route_trips(&feed.trips, "B").is_empty());
    assert!(route_trips(&feed.trips, "a").is_empty());
}

#[test]
fn the_service_with_the_most_trips_is_chosen() {
    let feed = city();
    let of_a = route_trips(&feed.trips, "A");
    assert_eq!(count_service(&of_a, "WEEKDAY"), 3);
    assert_eq!(count_service(&of_a, "WEEKEND"), 1);
    assert_eq!(count_service(&of_a, "HOLIDAY"), 0);
    assert_eq!(choose_service(&of_a), Some("WEEKDAY"));
    assert_eq!(choose_service(&route_trips(&feed.trips, "B")), None);
    let kept: Vec<&str> = service_trips(&of_a, "WEEKDAY").iter().map(|t| t.trip_id.as_str()).collect();
    assert_eq!(kept, vec!["t1", "t2", "t3"]);
}

#[test]
fn services_with_as_many_trips_are_told_apart_by_identifier() {
    let trips = vec![
        trip("R", "SUMMER", "a", "s"),
        trip("R", "AUTUMN", "b", "s"),
        trip("R", "SUMMER", "c", "s"),
        trip("R", "AUTUMN", "d", "s"),
        trip("R", "WINTER", "e", "s"),
    ];
    assert_eq!(choose_service(&route_trips(&trips, "R")), Some("AUTUMN"));
    let turned: Vec<TripRecord> = trips.iter().rev().cloned().collect();
    assert_eq!(choose_service(&route_trips(&turned, "R")), Some("AUTUMN"));
}

#[test]
fn the_trip_with_the_most_known_calls_stands_for_the_route() {
    let feed = city();
    assert_eq!(count_known_calls(&feed.stop_times, &feed.stops, "t1"), 2);
    // Of the six calls of t2 one is at a stop that the feed does not know.
    assert_eq!(count_known_calls(&feed.stop_times, &feed.stops, "t2"), 5);
    assert_eq!(count_known_calls(&feed.stop_times, &feed.stops, "t3"), 1);
    assert_eq!(count_known_calls(&feed.stop_times, &feed.stops, "c1"), 0);
    let kept = service_trips(&route_trips(&feed.trips, "A"), "WEEKDAY");
    let chosen = choose_trip(&kept, &feed.stop_times, &feed.stops).unwrap();
    assert_eq!(chosen.id, "t2");
    assert_eq!(chosen.count, 5);
    assert!(choose_trip(&vec![], &feed.stop_times, &feed.stops).is_none());
}

#[test]
fn trips_with_as_many_calls_are_told_apart_by_identifier() {
    let trips = vec![trip("R", "W", "t9", "s"), trip("R", "W", "t10", "s"), trip("R", "W", "t2", "s")];
    let stops = vec![stop("S", 1, 1)];
    let stop_times = vec![call("t9", "S", 1), call("t10", "S", 1), call("t2", "S", 1)];
    let all: Vec<&TripRecord> = trips.iter().collect();
    assert_eq!(choose_trip(&all, &stop_times, &stops).unwrap().id, "t10");
}

#[test]
fn an_identifier_stands_for_the_first_stop_that_carries_it() {
    let stops = vec![stop("S1", 1, 1), stop("S2", 2, 2), stop("S1", 9, 9)];
    assert_eq!(find_stop(&stops, "S1"), Some(&stops[0]));
    assert_eq!(find_stop(&stops, "S2"), Some(&stops[1]));
    assert_eq!(find_stop(&stops, "S3"), None);
    assert_eq!(lookup_stop(&stops, &square(), "S1"), Some(raw_stop("S1", 1, 999)));
    assert_eq!(lookup_stop(&stops, &square(), "S3"), None);
    assert_eq!(lookup_stop(&vec![stop("OUT", 1001, 5)], &square(), "OUT"), None);
}

#[test]
fn stops_are_kept_in_the_order_of_their_identifiers_with_none_twice() {
    let mut list: Vec<RawStop> = Vec::new();
    for (id, x) in [("S3", 3), ("S1", 1), ("S2", 2), ("S1", 7), ("S10", 10), ("S3", 8)] {
        insert_stop(&mut list, raw_stop(id, x, 0));
    }
    assert_eq!(list, vec![raw_stop("S1", 1, 0), raw_stop("S10", 10, 0), raw_stop("S2", 2, 0), raw_stop("S3", 3, 0)]);
}

#[test]
fn stops_called_at_in_the_order_s3_s1_s2_come_out_as_s1_s2_s3() {
    let feed = city();
    let stops = canonical_stops(&feed.stop_times, &feed.stops, &square(), "t2");
    assert_eq!(stops, vec![raw_stop("S1", 100, 100), raw_stop("S2", 200, 200), raw_stop("S3", 300, 300)]);
    assert!(canonical_stops(&feed.stop_times, &feed.stops, &square(), "c1").is_empty());
}

#[test]
fn shape_points_come_in_the_order_of_their_sequence_numbers() {
    let p = |x: i32, sequence: u64| ShapePoint { position: Point { x, y: 0 }, sequence };
    assert_eq!(
        order_shape(vec![p(1, 5), p(2, 3), p(3, 5), p(4, 1), p(5, 3), p(6, 5)]),
        vec![p(4, 1), p(2, 3), p(5, 3), p(1, 5), p(3, 5), p(6, 5)]
    );
    assert_eq!(order_shape(vec![]), vec![]);
    assert_eq!(order_shape(vec![p(1, 1), p(2, 2), p(3, 3)]), vec![p(1, 1), p(2, 2), p(3, 3)]);
    assert_eq!(order_shape(vec![p(3, 3), p(2, 2), p(1, 1)]), vec![p(1, 1), p(2, 2), p(3, 3)]);
}

#[test]
fn the_shape_of_a_trip_is_projected_and_ordered() {
    let feed = city();
    let p = |x: i32, y: i32, sequence: u64| ShapePoint { position: Point { x, y }, sequence };
    // The point at sequence 3 lies outside the envelope and is left out.
    assert_eq!(
        trip_shape(&feed.shapes, &square(), "sh1"),
        vec![p(50, 50, 1), p(100, 100, 2), p(400, 400, 2)]
    );
    assert_eq!(trip_shape(&feed.shapes, &square(), "sh2"), vec![p(10, 990, 1)]);
    assert_eq!(trip_shape(&feed.shapes, &square(), "none"), vec![]);
}

#[test]
fn the_calls_of_a_trip_carry_copies_of_their_stops() {
    let feed = city();
    let calls = trip_calls(&feed.stop_times, &feed.stops, &square(), "t2");
    let made = |stop: RawStop, sequence: u64| RawStopTime {
        arrival_time: format!("08:{:02}:00", sequence),
        departure_time: format!("08:{:02}:30", sequence),
        stop,
        stop_sequence: sequence,
        pickup_type: 0,
        drop_off_type: 0,
    };
    // The calls at the unknown stop and at the stop outside the envelope are left out.
    assert_eq!(
        calls,
        vec![
            made(raw_stop("S3", 300, 300), 1),
            made(raw_stop("S1", 100, 100), 2),
            made(raw_stop("S2", 200, 200), 3),
            made(raw_stop("S3", 300, 300), 6),
        ]
    );
}

#[test]
fn a_route_is_consolidated_under_its_chosen_service() {
    let feed = city();
    let a = consolidate_route(&feed.routes[0], &feed, &square()).unwrap();
    assert_eq!(a.id, "A");
    assert_eq!(a.long_name, "A long");
    assert_eq!(a.short_name, "A short");
    assert_eq!(a.description, "A described");
    assert_eq!(a.stops, vec![raw_stop("S1", 100, 100), raw_stop("S2", 200, 200), raw_stop("S3", 300, 300)]);
    let trips: Vec<(&str, &str, usize, usize)> = a
        .trips
        .iter()
        .map(|t| (t.id.as_str(), t.service_id.as_str(), t.stop_times.len(), t.shape.len()))
        .collect();
    assert_eq!(trips, vec![("t1", "WEEKDAY", 2, 3), ("t2", "WEEKDAY", 4, 1), ("t3", "WEEKDAY", 1, 0)]);
    assert_eq!(a.trips[0].headsign, "to t1");
    assert_eq!(a.trips[0].direction_id, 1);
    // A trip keeps calls at stops that are not among the route's canonical stops.
    assert_eq!(a.trips[0].stop_times[1].stop, raw_stop("S4", 400, 400));
}

#[test]
fn a_route_without_a_trip_has_no_viable_trip() {
    let feed = city();
    assert_eq!(
        consolidate_route(&feed.routes[1], &feed, &square()),
        Err(NoViableTrip { route_id: "B".to_string() })
    );
}

#[test]
fn a_route_whose_trips_call_at_no_known_stop_has_no_viable_trip() {
    let feed = city();
    assert_eq!(
        consolidate_route(&feed.routes[2], &feed, &square()),
        Err(NoViableTrip { route_id: "C".to_string() })
    );
}

#[test]
fn a_feed_is_consolidated_route_by_route() {
    let feed = city();
    let out = consolidate(&feed, &square());
    let ids: Vec<&str> = out.routes.iter().map(|r| r.id.as_str()).collect();
    assert_eq!(ids, vec!["A"]);
    assert_eq!(out.routes[0], consolidate_route(&feed.routes[0], &feed, &square()).unwrap());
    assert_eq!(
        out.reports,
        vec![
            Report::PointOutOfBounds { of: Entity::Stop, id: "FAR".to_string(), lon: 5000, lat: 5000 },
            Report::PointOutOfBounds { of: Entity::Shape, id: "sh1".to_string(), lon: 9000, lat: 0 },
            Report::NoViableTrip { route_id: "B".to_string() },
            Report::NoViableTrip { route_id: "C".to_string() },
        ]
    );
}

#[test]
fn a_route_whose_stops_all_lie_outside_keeps_its_trips_and_no_stop() {
    let feed = Feed {
        routes: vec![route("R")],
        stops: vec![stop("OUT", -5, 5)],
        trips: vec![trip("R", "W", "t", "s")],
        stop_times: vec![call("t", "OUT", 1)],
        shapes: vec![],
    };
    let r = consolidate_route(&feed.routes[0], &feed, &square()).unwrap();
    assert!(r.stops.is_empty());
    assert_eq!(r.trips.len(), 1);
    assert!(r.trips[0].stop_times.is_empty());
}

#[test]
fn consolidation_gives_the_same_result_every_time() {
    let feed = city();
    assert_eq!(consolidate(&feed, &square()), consolidate(&feed, &square()));
}

#[test]
fn an_empty_feed_has_no_routes_and_no_reports() {
    let feed = Feed { routes: vec![], stops: vec![], trips: vec![], stop_times: vec![], shapes: vec![] };
    let out = consolidate(&feed, &square());
    assert!(out.routes.is_empty());
    assert!(out.reports.is_empty());
}
