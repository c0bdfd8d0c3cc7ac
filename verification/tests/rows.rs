use transit_import::consolidate::{assemble_trip, place_stop, warn_of_shapes, warn_of_stops, Feed};
use transit_import::feed::{
    read_coord, read_count, read_text, route_columns, route_from_row, shape_columns,
    shape_from_row, stop_columns, stop_from_row, stop_time_columns, stop_time_from_row,
    table_error, trip_columns, trip_from_row, FeedError, Resource, RowError,
};
use transit_import::finalized::{FinalizedStop, FinalizedStopTime, NetworkPosition};
use transit_import::geometry::Point;
use transit_import::matching::{build_index, finalize_calls, finalize_trip};
use transit_import::network::{Edge, EdgeKind};
use transit_import::projection::Envelope;
use transit_import::records::{ShapeRecord, StopRecord, StopTimeRecord, TripRecord};
use transit_import::report::{Entity, Report};
use transit_import::transit::{RawStop, RawStopTime, RawTrip, ShapePoint};

fn row(fields: &[&str]) -> Vec<String> {
    fields.iter().map(|f| f.to_string()).collect()
}

#[test]
fn fields_are_read_from_their_columns() {
    let r = row(&["A", "17", "47.5", "x"]);
    assert_eq!(read_text(&r, Some(0)), Ok("A".to_string()));
    assert_eq!(read_text(&r, Some(3)), Ok("x".to_string()));
    assert_eq!(read_text(&r, Some(4)), Err(RowError::Malformed));
    assert_eq!(read_text(&r, None), Err(RowError::Malformed));
    assert_eq!(read_count(&r, Some(1)), Ok(17));
    assert_eq!(read_count(&r, Some(0)), Err(RowError::Malformed));
    assert_eq!(read_count(&r, Some(2)), Err(RowError::Malformed));
    assert_eq!(read_count(&r, None), Err(RowError::Malformed));
    assert_eq!(read_coord(&r, Some(2)), Ok(475_000_000));
    assert_eq!(read_coord(&r, Some(1)), Ok(170_000_000));
    assert_eq!(read_coord(&r, Some(3)), Err(RowError::Coordinate { text: "x".to_string() }));
    assert_eq!(read_coord(&r, Some(9)), Err(RowError::Malformed));
}

#[test]
fn a_faulty_row_makes_the_error_of_its_table() {
    assert_eq!(
        table_error(Resource::Trips, 7, RowError::Malformed),
        FeedError::MalformedRow { resource: Resource::Trips, row: 7 }
    );
    assert_eq!(
        table_error(Resource::Shapes, 0, RowError::Coordinate { text: "n/a".to_string() }),
        FeedError::MalformedCoordinate { resource: Resource::Shapes, row: 0, text: "n/a".to_string() }
    );
}

#[test]
fn the_columns_of_each_resource_are_found() {
    let c = route_columns(&row(&["route_type", "route_id", "junk", "long_name"]));
    assert_eq!((c.route_id, c.short_name, c.long_name, c.description, c.route_type), (Some(1), None, Some(3), None, Some(0)));
    let c = stop_columns(&row(&["stop_id", "stop_code", "stop_name", "stop_desc", "stop_lat", "stop_lon"]));
    assert_eq!((c.stop_id, c.code, c.name, c.description, c.lat, c.lon), (Some(0), Some(1), Some(2), Some(3), Some(4), Some(5)));
    let c = trip_columns(&row(&["route_id", "service_id", "trip_id", "headsign", "direction_id", "block_id", "shape_id"]));
    assert_eq!(
        (c.route_id, c.service_id, c.trip_id, c.headsign, c.direction_id, c.block_id, c.shape_id),
        (Some(0), Some(1), Some(2), Some(3), Some(4), Some(5), Some(6))
    );
    let c = stop_time_columns(&row(&["drop_off_type", "pickup_type", "stop_sequence", "stop_id", "departure_time", "arrival_time", "trip_id"]));
    assert_eq!(
        (c.trip_id, c.arrival_time, c.departure_time, c.stop_id, c.stop_sequence, c.pickup_type, c.drop_off_type),
        (Some(6), Some(5), Some(4), Some(3), Some(2), Some(1), Some(0))
    );
    let c = shape_columns(&row(&["shape_id", "lat", "shape_pt_lon", "sequence", "shape_pt_sequence"]));
    assert_eq!((c.shape_id, c.lat, c.lon, c.sequence), (Some(0), Some(1), Some(2), None));
}

#[test]
fn rows_decode_into_records() {
    let c = route_columns(&row(&["route_id", "short_name", "long_name", "description", "route_type"]));
    let r = route_from_row(&row(&["A", "1", "Alder", "", "3"]), &c).unwrap();
    assert_eq!((r.route_id.as_str(), r.short_name.as_str(), r.long_name.as_str(), r.description.as_str(), r.route_type), ("A", "1", "Alder", "", 3));
    assert_eq!(route_from_row(&row(&["A", "1", "Alder", ""]), &c), Err(RowError::Malformed));
    assert_eq!(route_from_row(&row(&["A", "1", "Alder", "", "-3"]), &c), Err(RowError::Malformed));

    let c = stop_columns(&row(&["stop_id", "code", "name", "description", "lat", "lon"]));
    assert_eq!(
        stop_from_row(&row(&["S", "c", "n", "d", "1.5", "-2.5"]), &c),
        Ok(StopRecord {
            stop_id: "S".to_string(),
            code: "c".to_string(),
            name: "n".to_string(),
            description: "d".to_string(),
            lat: 15_000_000,
            lon: -25_000_000,
        })
    );
    assert_eq!(
        stop_from_row(&row(&["S", "c", "n", "d", "1.5", "2,5"]), &c),
        Err(RowError::Coordinate { text: "2,5".to_string() })
    );

    let c = trip_columns(&row(&["route_id", "service_id", "trip_id", "headsign", "direction_id", "block_id", "shape_id"]));
    assert_eq!(
        trip_from_row(&row(&["A", "W", "t", "h", "1", "b", "s"]), &c),
        Ok(TripRecord {
            route_id: "A".to_string(),
            service_id: "W".to_string(),
            trip_id: "t".to_string(),
            headsign: "h".to_string(),
            direction_id: 1,
            block_id: "b".to_string(),
            shape_id: "s".to_string(),
        })
    );

    let c = stop_time_columns(&row(&["trip_id", "arrival_time", "departure_time", "stop_id", "stop_sequence", "pickup_type", "drop_off_type"]));
    assert_eq!(
        stop_time_from_row(&row(&["t", "a", "d", "S", "4", "1", "2"]), &c),
        Ok(StopTimeRecord {
            trip_id: "t".to_string(),
            arrival_time: "a".to_string(),
            departure_time: "d".to_string(),
            stop_id: "S".to_string(),
            stop_sequence: 4,
            pickup_type: 1,
            drop_off_type: 2,
        })
    );

    let c = shape_columns(&row(&["shape_id", "lat", "lon", "sequence"]));
    assert_eq!(
        shape_from_row(&row(&["s", "0.5", "0.25", "9"]), &c),
        Ok(ShapeRecord { shape_id: "s".to_string(), lat: 5_000_000, lon: 2_500_000, sequence: 9 })
    );
    assert_eq!(shape_from_row(&row(&["s", "0.5", "0.25", "nine"]), &c), Err(RowError::Malformed));
}

fn stop(id: &str, lon: i64, lat: i64) -> StopRecord {
    StopRecord {
        stop_id: id.to_string(),
        code: "c".to_string(),
        name: "n".to_string(),
        description: "d".to_string(),
        lat,
        lon,
    }
}

#[test]
fn a_stop_is_put_on_the_map_or_left_out() {
    let env = Envelope::new(0, 0, 100, 200, 1000, 1000).unwrap();
    assert_eq!(
        place_stop(&stop("S", 25, 50), &env),
        Some(RawStop {
            id: "S".to_string(),
            code: "c".to_string(),
            name: "n".to_string(),
            description: "d".to_string(),
            position: Point { x: 250, y: 750 },
        })
    );
    assert_eq!(place_stop(&stop("S", 25, 201), &env), None);
}

#[test]
fn points_outside_the_envelope_are_reported_in_feed_order() {
    let env = Envelope::new(0, 0, 100, 100, 10, 10).unwrap();
    let mut reports = vec![Report::NoViableTrip { route_id: "kept".to_string() }];
    warn_of_stops(&vec![stop("in", 5, 5), stop("west", -1, 5), stop("north", 5, 101)], &env, &mut reports);
    warn_of_shapes(
        &vec![
            ShapeRecord { shape_id: "s".to_string(), lat: 5, lon: 500, sequence: 1 },
            ShapeRecord { shape_id: "s".to_string(), lat: 5, lon: 50, sequence: 2 },
        ],
        &env,
        &mut reports,
    );
    assert_eq!(
        reports,
        vec![
            Report::NoViableTrip { route_id: "kept".to_string() },
            Report::PointOutOfBounds { of: Entity::Stop, id: "west".to_string(), lon: -1, lat: 5 },
            Report::PointOutOfBounds { of: Entity::Stop, id: "north".to_string(), lon: 5, lat: 101 },
            Report::PointOutOfBounds { of: Entity::Shape, id: "s".to_string(), lon: 500, lat: 5 },
        ]
    );
}

#[test]
fn a_trip_is_assembled_from_the_feed() {
    let env = Envelope::new(0, 0, 100, 100, 100, 100).unwrap();
    let record = TripRecord {
        route_id: "A".to_string(),
        service_id: "W".to_string(),
        trip_id: "t".to_string(),
        headsign: "North".to_string(),
        direction_id: 1,
        block_id: "b".to_string(),
        shape_id: "s".to_string(),
    };
    let feed = Feed {
        routes: vec![],
        stops: vec![stop("S", 10, 10)],
        trips: vec![record.clone()],
        stop_times: vec![StopTimeRecord {
            trip_id: "t".to_string(),
            arrival_time: "a".to_string(),
            departure_time: "d".to_string(),
            stop_id: "S".to_string(),
            stop_sequence: 1,
            pickup_type: 2,
            drop_off_type: 3,
        }],
        shapes: vec![
            ShapeRecord { shape_id: "s".to_string(), lat: 20, lon: 20, sequence: 2 },
            ShapeRecord { shape_id: "s".to_string(), lat: 10, lon: 10, sequence: 1 },
        ],
    };
    let trip = assemble_trip(&record, &feed, &env);
    assert_eq!(
        trip,
        RawTrip {
            service_id: "W".to_string(),
            id: "t".to_string(),
            headsign: "North".to_string(),
            direction_id: 1,
            shape: vec![
                ShapePoint { position: Point { x: 10, y: 90 }, sequence: 1 },
                ShapePoint { position: Point { x: 20, y: 80 }, sequence: 2 },
            ],
            stop_times: vec![RawStopTime {
                arrival_time: "a".to_string(),
                departure_time: "d".to_string(),
                stop: RawStop {
                    id: "S".to_string(),
                    code: "c".to_string(),
                    name: "n".to_string(),
                    description: "d".to_string(),
                    position: Point { x: 10, y: 90 },
                },
                stop_sequence: 1,
                pickup_type: 2,
                drop_off_type: 3,
            }],
        }
    );
    let edges = vec![Edge {
        id: "e".to_string(),
        kind: EdgeKind::Bus,
        geometry: vec![Point { x: 0, y: 100 }, Point { x: 100, y: 100 }],
    }];
    let index = build_index(&edges);
    let bound = finalize_trip(&trip, &index, 10);
    assert_eq!(bound.shape, trip.shape);
    assert_eq!(
        bound.stop_times,
        vec![FinalizedStopTime {
            arrival_time: "a".to_string(),
            departure_time: "d".to_string(),
            stop: FinalizedStop {
                id: "S".to_string(),
                code: "c".to_string(),
                name: "n".to_string(),
                description: "d".to_string(),
                network_position: NetworkPosition { edge_id: "e".to_string(), offset: 10 },
            },
            stop_sequence: 1,
            pickup_type: 2,
            drop_off_type: 3,
        }]
    );
    assert_eq!(finalize_calls(&trip.stop_times, &index, 9), vec![]);
}
