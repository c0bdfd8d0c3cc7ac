//! Transit routes whose stops are bound to the road network.

use crate::transit::ShapePoint;
use vstd::prelude::*;

verus! {

/// A place on the road network: an edge, and how far along it.
#[derive(Clone, Debug, PartialEq, Eq)]
pub struct NetworkPosition {
    pub edge_id: String,
    pub offset: u64,
}

/// A stop with its place on the road network.
#[derive(Clone, Debug, PartialEq, Eq)]
pub struct FinalizedStop {
    pub id: String,
    pub code: String,
    pub name: String,
    pub description: String,
    pub network_position: NetworkPosition,
}

/// One call of a trip at a stop. The stop is a copy of its own.
#[derive(Clone, Debug, PartialEq, Eq)]
pub struct FinalizedStopTime {
    pub arrival_time: String,
    pub departure_time: String,
    pub stop: FinalizedStop,
    pub stop_sequence: u64,
    pub pickup_type: u64,
    pub drop_off_type: u64,
}

/// One scheduled run of a route.
#[derive(Clone, Debug, PartialEq, Eq)]
pub struct FinalizedTrip {
    pub service_id: String,
    pub id: String,
    pub headsign: String,
    pub direction_id: u64,
    pub shape: Vec<ShapePoint>,
    pub stop_times: Vec<FinalizedStopTime>,
}

/// A route whose stops all have a place on the road network.
#[derive(Clone, Debug, PartialEq, Eq)]
pub struct FinalizedTransitRoute {
    pub id: String,
    pub long_name: String,
    pub short_name: String,
    pub description: String,
    pub stops: Vec<FinalizedStop>,
    pub trips: Vec<FinalizedTrip>,
}

/// What a [`NetworkPosition`] holds, with its texts as sequences of characters.
pub struct NetworkPositionView {
    pub edge_id: Seq<char>,
    pub offset: u64,
}

/// What a [`FinalizedStop`] holds, with its texts as sequences of characters.
pub struct FinalizedStopView {
    pub id: Seq<char>,
    pub code: Seq<char>,
    pub name: Seq<char>,
    pub description: Seq<char>,
    pub network_position: NetworkPositionView,
}

/// What a [`FinalizedStopTime`] holds, with its texts as sequences of characters.
pub struct FinalizedStopTimeView {
    pub arrival_time: Seq<char>,
    pub departure_time: Seq<char>,
    pub stop: FinalizedStopView,
    pub stop_sequence: u64,
    pub pickup_type: u64,
    pub drop_off_type: u64,
}

/// What a [`FinalizedTrip`] holds, with its texts as sequences of characters.
pub struct FinalizedTripView {
    pub service_id: Seq<char>,
    pub id: Seq<char>,
    pub headsign: Seq<char>,
    pub direction_id: u64,
    pub shape: Seq<ShapePoint>,
    pub stop_times: Seq<FinalizedStopTimeView>,
}

/// What a [`FinalizedTransitRoute`] holds, with its texts as sequences of characters.
pub struct FinalizedTransitRouteView {
    pub id: Seq<char>,
    pub long_name: Seq<char>,
    pub short_name: Seq<char>,
    pub description: Seq<char>,
    pub stops: Seq<FinalizedStopView>,
    pub trips: Seq<FinalizedTripView>,
}

impl View for NetworkPosition {
    type V = NetworkPositionView;

    open spec fn view(&self) -> NetworkPositionView {
        NetworkPositionView { edge_id: self.edge_id@, offset: self.offset }
    }
}

impl View for FinalizedStop {
    type V = FinalizedStopView;

    open spec fn view(&self) -> FinalizedStopView {
        FinalizedStopView {
            id: self.id@,
            code: self.code@,
            name: self.name@,
            description: self.description@,
            network_position: self.network_position@,
        }
    }
}

impl DeepView for FinalizedStop {
    type V = FinalizedStopView;

    open spec fn deep_view(&self) -> FinalizedStopView {
        self@
    }
}

impl View for FinalizedStopTime {
    type V = FinalizedStopTimeView;

    open spec fn view(&self) -> FinalizedStopTimeView {
        FinalizedStopTimeView {
            arrival_time: self.arrival_time@,
            departure_time: self.departure_time@,
            stop: self.stop@,
            stop_sequence: self.stop_sequence,
            pickup_type: self.pickup_type,
            drop_off_type: self.drop_off_type,
        }
    }
}

impl DeepView for FinalizedStopTime {
    type V = FinalizedStopTimeView;

    open spec fn deep_view(&self) -> FinalizedStopTimeView {
        self@
    }
}

impl View for FinalizedTrip {
    type V = FinalizedTripView;

    open spec fn view(&self) -> FinalizedTripView {
        FinalizedTripView {
            service_id: self.service_id@,
            id: self.id@,
            headsign: self.headsign@,
            direction_id: self.direction_id,
            shape: self.shape@,
            stop_times: self.stop_times.deep_view(),
        }
    }
}

impl DeepView for FinalizedTrip {
    type V = FinalizedTripView;

    open spec fn deep_view(&self) -> FinalizedTripView {
        self@
    }
}

impl View for FinalizedTransitRoute {
    type V = FinalizedTransitRouteView;

    open spec fn view(&self) -> FinalizedTransitRouteView {
        FinalizedTransitRouteView {
            id: self.id@,
            long_name: self.long_name@,
            short_name: self.short_name@,
            description: self.description@,
            stops: self.stops.deep_view(),
            trips: self.trips.deep_view(),
        }
    }
}

impl DeepView for FinalizedTransitRoute {
    type V = FinalizedTransitRouteView;

    open spec fn deep_view(&self) -> FinalizedTransitRouteView {
        self@
    }
}

} // verus!
