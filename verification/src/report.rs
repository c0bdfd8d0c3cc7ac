//! What a run reports of the things that it left out.

use vstd::prelude::*;

verus! {

/// The kinds of thing that have a coordinate.
#[derive(Clone, Copy, Debug, PartialEq, Eq)]
pub enum Entity {
    Stop,
    Shape,
}

/// One thing that a run left out, and why. None of them ends the run.
#[derive(Clone, Debug, PartialEq, Eq)]
pub enum Report {
    /// A stop or a point of a shape lies outside the map's envelope, and is
    /// left out wherever the feed refers to it.
    PointOutOfBounds { of: Entity, id: String, lon: i64, lat: i64 },
    /// A route has no trip, or no trip of its service calls at a known stop.
    NoViableTrip { route_id: String },
    /// No eligible edge lies within the tolerance of a stop.
    UnmatchedStop { stop_id: String, route_id: String },
    /// None of a route's stops found an edge.
    RouteUnroutable { route_id: String },
}

/// What a [`Report`] holds, with its texts as sequences of characters.
pub enum ReportView {
    PointOutOfBounds { of: Entity, id: Seq<char>, lon: i64, lat: i64 },
    NoViableTrip { route_id: Seq<char> },
    UnmatchedStop { stop_id: Seq<char>, route_id: Seq<char> },
    RouteUnroutable { route_id: Seq<char> },
}

impl View for Report {
    type V = ReportView;

    open spec fn view(&self) -> ReportView {
        match *self {
            Report::PointOutOfBounds { of, id, lon, lat } => ReportView::PointOutOfBounds {
                of,
                id: id@,
                lon,
                lat,
            },
            Report::NoViableTrip { route_id } => ReportView::NoViableTrip { route_id: route_id@ },
            Report::UnmatchedStop { stop_id, route_id } => ReportView::UnmatchedStop {
                stop_id: stop_id@,
                route_id: route_id@,
            },
            Report::RouteUnroutable { route_id } => ReportView::RouteUnroutable {
                route_id: route_id@,
            },
        }
    }
}

impl DeepView for Report {
    type V = ReportView;

    open spec fn deep_view(&self) -> ReportView {
        self@
    }
}

} // verus!
