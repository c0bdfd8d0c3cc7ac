//! Transit routes as they stand after consolidation: stops with a position
//! on the map, trips with their shape and their calls, and nothing yet that
//! refers to the road network.

use crate::geometry::Point;
use vstd::prelude::*;

verus! {

/// A stop with its position on the map.
#[derive(Clone, Debug, PartialEq, Eq)]
pub struct RawStop {
    pub id: String,
    pub code: String,
    pub name: String,
    pub description: String,
    pub position: Point,
}

/// One call of a trip at a stop. The stop is a copy of its own.
#[derive(Clone, Debug, PartialEq, Eq)]
pub struct RawStopTime {
    pub arrival_time: String,
    pub departure_time: String,
    pub stop: RawStop,
    pub stop_sequence: u64,
    pub pickup_type: u64,
    pub drop_off_type: u64,
}

/// One point of the line that a trip follows.
#[derive(Clone, Copy, Debug, PartialEq, Eq)]
pub struct ShapePoint {
    pub position: Point,
    pub sequence: u64,
}

/// One scheduled run of a route.
#[derive(Clone, Debug, PartialEq, Eq)]
pub struct RawTrip {
    pub service_id: String,
    pub id: String,
    pub headsign: String,
    pub direction_id: u64,
    pub shape: Vec<ShapePoint>,
    pub stop_times: Vec<RawStopTime>,
}

/// A route with its canonical stops and the trips of its chosen service.
#[derive(Clone, Debug, PartialEq, Eq)]
pub struct RawTransitRoute {
    pub id: String,
    pub long_name: String,
    pub short_name: String,
    pub description: String,
    pub stops: Vec<RawStop>,
    pub trips: Vec<RawTrip>,
}

/// What a [`RawStop`] holds, with its texts as sequences of characters.
pub struct RawStopView {
    pub id: Seq<char>,
    pub code: Seq<char>,
    pub name: Seq<char>,
    pub description: Seq<char>,
    pub position: Point,
}

/// What a [`RawStopTime`] holds, with its texts as sequences of characters.
pub struct RawStopTimeView {
    pub arrival_time: Seq<char>,
    pub departure_time: Seq<char>,
    pub stop: RawStopView,
    pub stop_sequence: u64,
    pub pickup_type: u64,
    pub drop_off_type: u64,
}

/// What a [`RawTrip`] holds, with its texts as sequences of characters.
pub struct RawTripView {
    pub service_id: Seq<char>,
    pub id: Seq<char>,
    pub headsign: Seq<char>,
    pub direction_id: u64,
    pub shape: Seq<ShapePoint>,
    pub stop_times: Seq<RawStopTimeView>,
}

/// What a [`RawTransitRoute`] holds, with its texts as sequences of characters.
pub struct RawTransitRouteView {
    pub id: Seq<char>,
    pub long_name: Seq<char>,
    pub short_name: Seq<char>,
    pub description: Seq<char>,
    pub stops: Seq<RawStopView>,
    pub trips: Seq<RawTripView>,
}

impl View for RawStop {
    type V = RawStopView;

    open spec fn view(&self) -> RawStopView {
        RawStopView {
            id: self.id@,
            code: self.code@,
            name: self.name@,
            description: self.description@,
            position: self.position,
        }
    }
}

impl DeepView for RawStop {
    type V = RawStopView;

    open spec fn deep_view(&self) -> RawStopView {
        self@
    }
}

impl View for RawStopTime {
    type V = RawStopTimeView;

    open spec fn view(&self) -> RawStopTimeView {
        RawStopTimeView {
            arrival_time: self.arrival_time@,
            departure_time: self.departure_time@,
            stop: self.stop@,
            stop_sequence: self.stop_sequence,
            pickup_type: self.pickup_type,
            drop_off_type: self.drop_off_type,
        }
    }
}

impl DeepView for RawStopTime {
    type V = RawStopTimeView;

    open spec fn deep_view(&self) -> RawStopTimeView {
        self@
    }
}

impl View for RawTrip {
    type V = RawTripView;

    open spec fn view(&self) -> RawTripView {
        RawTripView {
            service_id: self.service_id@,
            id: self.id@,
            headsign: self.headsign@,
            direction_id: self.direction_id,
            shape: self.shape@,
            stop_times: self.stop_times.deep_view(),
        }
    }
}

impl DeepView for RawTrip {
    type V = RawTripView;

    open spec fn deep_view(&self) -> RawTripView {
        self@
    }
}

impl View for RawTransitRoute {
    type V = RawTransitRouteView;

    open spec fn view(&self) -> RawTransitRouteView {
        RawTransitRouteView {
            id: self.id@,
            long_name: self.long_name@,
            short_name: self.short_name@,
            description: self.description@,
            stops: self.stops.deep_view(),
            trips: self.trips.deep_view(),
        }
    }
}

impl DeepView for RawTransitRoute {
    type V = RawTransitRouteView;

    open spec fn deep_view(&self) -> RawTransitRouteView {
        self@
    }
}

} // verus!
