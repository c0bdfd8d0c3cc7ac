//! The five kinds of record that a feed holds, one per tabular resource.

use vstd::prelude::*;

verus! {

/// A route as the feed lists it.
#[derive(Clone, Debug, PartialEq, Eq)]
pub struct RouteRecord {
    pub route_id: String,
    pub short_name: String,
    pub long_name: String,
    pub description: String,
    pub route_type: u64,
}

/// A stop as the feed lists it. Coordinates count units of 1e-7 degrees.
#[derive(Clone, Debug, PartialEq, Eq)]
pub struct StopRecord {
    pub stop_id: String,
    pub code: String,
    pub name: String,
    pub description: String,
    pub lat: i64,
    pub lon: i64,
}

/// A trip as the feed lists it.
#[derive(Clone, Debug, PartialEq, Eq)]
pub struct TripRecord {
    pub route_id: String,
    pub service_id: String,
    pub trip_id: String,
    pub headsign: String,
    pub direction_id: u64,
    pub block_id: String,
    pub shape_id: String,
}

/// One call of a trip at a stop, as the feed lists it.
#[derive(Clone, Debug, PartialEq, Eq)]
pub struct StopTimeRecord {
    pub trip_id: String,
    pub arrival_time: String,
    pub departure_time: String,
    pub stop_id: String,
    pub stop_sequence: u64,
    pub pickup_type: u64,
    pub drop_off_type: u64,
}

/// One point of a shape, as the feed lists it.
#[derive(Clone, Debug, PartialEq, Eq)]
pub struct ShapeRecord {
    pub shape_id: String,
    pub lat: i64,
    pub lon: i64,
    pub sequence: u64,
}

/// What a [`RouteRecord`] holds, with its texts as sequences of characters.
pub struct RouteRecordView {
    pub route_id: Seq<char>,
    pub short_name: Seq<char>,
    pub long_name: Seq<char>,
    pub description: Seq<char>,
    pub route_type: u64,
}

/// What a [`StopRecord`] holds, with its texts as sequences of characters.
pub struct StopRecordView {
    pub stop_id: Seq<char>,
    pub code: Seq<char>,
    pub name: Seq<char>,
    pub description: Seq<char>,
    pub lat: i64,
    pub lon: i64,
}

/// What a [`TripRecord`] holds, with its texts as sequences of characters.
pub struct TripRecordView {
    pub route_id: Seq<char>,
    pub service_id: Seq<char>,
    pub trip_id: Seq<char>,
    pub headsign: Seq<char>,
    pub direction_id: u64,
    pub block_id: Seq<char>,
    pub shape_id: Seq<char>,
}

/// What a [`StopTimeRecord`] holds, with its texts as sequences of characters.
pub struct StopTimeRecordView {
    pub trip_id: Seq<char>,
    pub arrival_time: Seq<char>,
    pub departure_time: Seq<char>,
    pub stop_id: Seq<char>,
    pub stop_sequence: u64,
    pub pickup_type: u64,
    pub drop_off_type: u64,
}

/// What a [`ShapeRecord`] holds, with its texts as sequences of characters.
pub struct ShapeRecordView {
    pub shape_id: Seq<char>,
    pub lat: i64,
    pub lon: i64,
    pub sequence: u64,
}

impl View for RouteRecord {
    type V = RouteRecordView;

    open spec fn view(&self) -> RouteRecordView {
        RouteRecordView {
            route_id: self.route_id@,
            short_name: self.short_name@,
            long_name: self.long_name@,
            description: self.description@,
            route_type: self.route_type,
        }
    }
}

impl DeepView for RouteRecord {
    type V = RouteRecordView;

    open spec fn deep_view(&self) -> RouteRecordView {
        self@
    }
}

impl View for StopRecord {
    type V = StopRecordView;

    open spec fn view(&self) -> StopRecordView {
        StopRecordView {
            stop_id: self.stop_id@,
            code: self.code@,
            name: self.name@,
            description: self.description@,
            lat: self.lat,
            lon: self.lon,
        }
    }
}

impl DeepView for StopRecord {
    type V = StopRecordView;

    open spec fn deep_view(&self) -> StopRecordView {
        self@
    }
}

impl View for TripRecord {
    type V = TripRecordView;

    open spec fn view(&self) -> TripRecordView {
        TripRecordView {
            route_id: self.route_id@,
            service_id: self.service_id@,
            trip_id: self.trip_id@,
            headsign: self.headsign@,
            direction_id: self.direction_id,
            block_id: self.block_id@,
            shape_id: self.shape_id@,
        }
    }
}

impl DeepView for TripRecord {
    type V = TripRecordView;

    open spec fn deep_view(&self) -> TripRecordView {
        self@
    }
}

impl View for StopTimeRecord {
    type V = StopTimeRecordView;

    open spec fn view(&self) -> StopTimeRecordView {
        StopTimeRecordView {
            trip_id: self.trip_id@,
            arrival_time: self.arrival_time@,
            departure_time: self.departure_time@,
            stop_id: self.stop_id@,
            stop_sequence: self.stop_sequence,
            pickup_type: self.pickup_type,
            drop_off_type: self.drop_off_type,
        }
    }
}

impl DeepView for StopTimeRecord {
    type V = StopTimeRecordView;

    open spec fn deep_view(&self) -> StopTimeRecordView {
        self@
    }
}

impl View for ShapeRecord {
    type V = ShapeRecordView;

    open spec fn view(&self) -> ShapeRecordView {
        ShapeRecordView {
            shape_id: self.shape_id@,
            lat: self.lat,
            lon: self.lon,
            sequence: self.sequence,
        }
    }
}

impl DeepView for ShapeRecord {
    type V = ShapeRecordView;

    open spec fn deep_view(&self) -> ShapeRecordView {
        self@
    }
}

} // verus!
