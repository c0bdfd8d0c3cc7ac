//! The run as a whole: every feed source is read and consolidated, and the
//! routes of all sources are matched to the road network at once.

use crate::consolidate::{
    consolidate, consolidated_routes, consolidation_reports, Consolidation, Feed, FeedView,
};
use crate::feed::{
    decodes_to, read_routes, read_shapes, read_stop_times, read_stops, read_trips,
    routes_of_text, shapes_of_text, stop_times_of_text, stops_of_text, trips_of_text, FeedError,
    FeedErrorView, Resource,
};
use crate::finalized::FinalizedTransitRoute;
use crate::matching::{
    all_in_order, all_raw_in_order, eligible_edges, match_routes, matched_routes,
    matching_reports, Matching,
};
use crate::network::Edge;
use crate::order::ids_ascending;
use crate::projection::{Envelope, EnvelopeView};
use crate::records::{RouteRecord, ShapeRecord, StopRecord, StopTimeRecord, TripRecord};
use crate::report::{Report, ReportView};
use crate::transit::{RawTransitRoute, RawTransitRouteView};
use vstd::prelude::*;

verus! {

/// What reading the five resources of one feed gave: the text of each, or
/// nothing where it could not be read.
#[derive(Clone, Debug, PartialEq, Eq)]
pub struct FeedSource {
    pub routes: Option<Vec<u8>>,
    pub stops: Option<Vec<u8>>,
    pub stop_times: Option<Vec<u8>>,
    pub trips: Option<Vec<u8>>,
    pub shapes: Option<Vec<u8>>,
}

/// What a [`FeedSource`] holds, with the text of each resource as a sequence of bytes.
pub struct FeedSourceView {
    pub routes: Option<Seq<u8>>,
    pub stops: Option<Seq<u8>>,
    pub stop_times: Option<Seq<u8>>,
    pub trips: Option<Seq<u8>>,
    pub shapes: Option<Seq<u8>>,
}

/// The bytes of a resource, if it was read.
pub open spec fn text_of(resource: Option<Vec<u8>>) -> Option<Seq<u8>> {
    match resource {
        Some(v) => Some(v@),
        None => None,
    }
}

impl View for FeedSource {
    type V = FeedSourceView;

    open spec fn view(&self) -> FeedSourceView {
        FeedSourceView {
            routes: text_of(self.routes),
            stops: text_of(self.stops),
            stop_times: text_of(self.stop_times),
            trips: text_of(self.trips),
            shapes: text_of(self.shapes),
        }
    }
}

impl DeepView for FeedSource {
    type V = FeedSourceView;

    open spec fn deep_view(&self) -> FeedSourceView {
        self@
    }
}

/// A feed source that cannot be read, and why. It ends the run.
#[derive(Clone, Debug, PartialEq, Eq)]
pub struct ImportError {
    /// The place of the source among the sources of the run.
    pub source: usize,
    pub error: FeedError,
}

/// The consolidated routes of every source of a run.
#[derive(Clone, Debug, PartialEq, Eq)]
pub struct Gathering {
    /// The routes of the sources, in the order of the sources and in each
    /// source in the order of its feed.
    pub routes: Vec<RawTransitRoute>,
    /// What consolidation reported of each source, in the order of the sources.
    pub reports: Vec<Report>,
}

/// What a run hands out.
#[derive(Clone, Debug, PartialEq, Eq)]
pub struct Import {
    /// The routes bound to the network, in the order of the sources and in
    /// each source in the order of its feed.
    pub routes: Vec<FinalizedTransitRoute>,
    /// What consolidation reported of each source, then what matching
    /// reported of each route.
    pub reports: Vec<Report>,
}

/// What a resource holds: the failure to read it, or what its text decodes to.
pub open spec fn held<R>(
    text: Option<Seq<u8>>,
    resource: Resource,
    decoded: spec_fn(Seq<u8>) -> Result<Seq<R>, FeedErrorView>,
) -> Result<Seq<R>, FeedErrorView> {
    match text {
        Some(data) => decoded(data),
        None => Err(FeedErrorView::IoFailure { resource }),
    }
}

/// The feed that a source holds. The resources are read in the order routes,
/// stops, stop times, trips, shapes, and the first that fails fails the feed.
pub open spec fn feed_of_source(s: FeedSourceView) -> Result<FeedView, FeedErrorView> {
    let routes = held(s.routes, Resource::Routes, |d: Seq<u8>| routes_of_text(d));
    let stops = held(s.stops, Resource::Stops, |d: Seq<u8>| stops_of_text(d));
    let stop_times = held(s.stop_times, Resource::StopTimes, |d: Seq<u8>| stop_times_of_text(d));
    let trips = held(s.trips, Resource::Trips, |d: Seq<u8>| trips_of_text(d));
    let shapes = held(s.shapes, Resource::Shapes, |d: Seq<u8>| shapes_of_text(d));
    if routes is Err {
        Err(routes->Err_0)
    } else if stops is Err {
        Err(stops->Err_0)
    } else if stop_times is Err {
        Err(stop_times->Err_0)
    } else if trips is Err {
        Err(trips->Err_0)
    } else if shapes is Err {
        Err(shapes->Err_0)
    } else {
        Ok(
            FeedView {
                routes: routes->Ok_0,
                stops: stops->Ok_0,
                trips: trips->Ok_0,
                stop_times: stop_times->Ok_0,
                shapes: shapes->Ok_0,
            },
        )
    }
}

/// Whether source `i` is the first that cannot be read.
pub open spec fn is_first_failure(sources: Seq<FeedSourceView>, i: int) -> bool {
    &&& 0 <= i < sources.len()
    &&& feed_of_source(sources[i]) is Err
    &&& forall|j: int| 0 <= j < i ==> feed_of_source(#[trigger] sources[j]) is Ok
}

/// Whether every source can be read.
pub open spec fn all_readable(sources: Seq<FeedSourceView>) -> bool {
    forall|j: int| 0 <= j < sources.len() ==> feed_of_source(#[trigger] sources[j]) is Ok
}

/// The consolidated routes of the sources, one source after the other.
pub open spec fn gathered_routes(sources: Seq<FeedSourceView>, env: EnvelopeView) -> Seq<
    RawTransitRouteView,
>
    decreases sources.len(),
{
    if sources.len() == 0 {
        Seq::empty()
    } else {
        gathered_routes(sources.drop_last(), env) + consolidated_routes(
            feed_of_source(sources.last())->Ok_0,
            env,
        )
    }
}

/// What consolidation reports of the sources, one source after the other.
pub open spec fn gathered_reports(sources: Seq<FeedSourceView>, env: EnvelopeView) -> Seq<ReportView>
    decreases sources.len(),
{
    if sources.len() == 0 {
        Seq::empty()
    } else {
        gathered_reports(sources.drop_last(), env) + consolidation_reports(
            feed_of_source(sources.last())->Ok_0,
            env,
        )
    }
}

/// Reads the routes of a source.
fn routes_in(source: &FeedSource) -> (r: Result<Vec<RouteRecord>, FeedError>)
    ensures
        decodes_to(r, held(source@.routes, Resource::Routes, |d: Seq<u8>| routes_of_text(d))),
{
    match &source.routes {
        Some(data) => read_routes(data.as_slice()),
        None => Err(FeedError::IoFailure { resource: Resource::Routes }),
    }
}

/// Reads the stops of a source.
fn stops_in(source: &FeedSource) -> (r: Result<Vec<StopRecord>, FeedError>)
    ensures
        decodes_to(r, held(source@.stops, Resource::Stops, |d: Seq<u8>| stops_of_text(d))),
{
    match &source.stops {
        Some(data) => read_stops(data.as_slice()),
        None => Err(FeedError::IoFailure { resource: Resource::Stops }),
    }
}

/// Reads the stop times of a source.
fn stop_times_in(source: &FeedSource) -> (r: Result<Vec<StopTimeRecord>, FeedError>)
    ensures
        decodes_to(
            r,
            held(source@.stop_times, Resource::StopTimes, |d: Seq<u8>| stop_times_of_text(d)),
        ),
{
    match &source.stop_times {
        Some(data) => read_stop_times(data.as_slice()),
        None => Err(FeedError::IoFailure { resource: Resource::StopTimes }),
    }
}

/// Reads the trips of a source.
fn trips_in(source: &FeedSource) -> (r: Result<Vec<TripRecord>, FeedError>)
    ensures
        decodes_to(r, held(source@.trips, Resource::Trips, |d: Seq<u8>| trips_of_text(d))),
{
    match &source.trips {
        Some(data) => read_trips(data.as_slice()),
        None => Err(FeedError::IoFailure { resource: Resource::Trips }),
    }
}

/// Reads the shapes of a source.
fn shapes_in(source: &FeedSource) -> (r: Result<Vec<ShapeRecord>, FeedError>)
    ensures
        decodes_to(r, held(source@.shapes, Resource::Shapes, |d: Seq<u8>| shapes_of_text(d))),
{
    match &source.shapes {
        Some(data) => read_shapes(data.as_slice()),
        None => Err(FeedError::IoFailure { resource: Resource::Shapes }),
    }
}

/// Reads the feed of a source: its five resources in their order, up to the
/// first that fails.
pub fn read_feed(source: &FeedSource) -> (r: Result<Feed, FeedError>)
    ensures
        match r {
            Ok(feed) => feed_of_source(source@) == Ok::<FeedView, FeedErrorView>(feed@),
            Err(e) => feed_of_source(source@) == Err::<FeedView, FeedErrorView>(e@),
        },
{
    let routes = match routes_in(source) {
        Ok(v) => v,
        Err(e) => {
            return Err(e);
        },
    };
    let stops = match stops_in(source) {
        Ok(v) => v,
        Err(e) => {
            return Err(e);
        },
    };
    let stop_times = match stop_times_in(source) {
        Ok(v) => v,
        Err(e) => {
            return Err(e);
        },
    };
    let trips = match trips_in(source) {
        Ok(v) => v,
        Err(e) => {
            return Err(e);
        },
    };
    let shapes = match shapes_in(source) {
        Ok(v) => v,
        Err(e) => {
            return Err(e);
        },
    };
    Ok(Feed { routes, stops, trips, stop_times, shapes })
}

/// Reads and consolidates every feed source, one after the other. A source
/// that cannot be read ends the run; a route without a viable trip is only
/// left out.
pub fn import_gtfs(sources: &Vec<FeedSource>, env: &Envelope) -> (r: Result<Gathering, ImportError>)
    ensures
        match r {
            Ok(g) => {
                &&& all_readable(sources.deep_view())
                &&& g.routes.deep_view() == gathered_routes(sources.deep_view(), env@)
                &&& g.reports.deep_view() == gathered_reports(sources.deep_view(), env@)
                &&& all_raw_in_order(g.routes.deep_view())
            },
            Err(e) => {
                &&& is_first_failure(sources.deep_view(), e.source as int)
                &&& feed_of_source(sources.deep_view()[e.source as int]) == Err::<
                    FeedView,
                    FeedErrorView,
                >(e.error@)
            },
        },
{
    let ghost all = sources.deep_view();
    let mut routes: Vec<RawTransitRoute> = Vec::new();
    let mut reports: Vec<Report> = Vec::new();
    let mut i: usize = 0;
    proof {
        assert(all.take(0) =~= Seq::<FeedSourceView>::empty());
        assert(routes.deep_view() =~= gathered_routes(all.take(0), env@));
        assert(reports.deep_view() =~= gathered_reports(all.take(0), env@));
    }
    while i < sources.len()
        invariant
            0 <= i <= sources.len(),
            all == sources.deep_view(),
            forall|j: int| 0 <= j < i ==> feed_of_source(#[trigger] all[j]) is Ok,
            routes.deep_view() == gathered_routes(all.take(i as int), env@),
            reports.deep_view() == gathered_reports(all.take(i as int), env@),
            all_raw_in_order(routes.deep_view()),
        decreases sources.len() - i,
    {
        assert(all[i as int] == sources[i as int]@);
        let feed = match read_feed(&sources[i]) {
            Ok(feed) => feed,
            Err(error) => {
                return Err(ImportError { source: i, error });
            },
        };
        let ghost routes_before = routes.deep_view();
        let ghost reports_before = reports.deep_view();
        let Consolidation { routes: mut found, reports: mut told } = consolidate(&feed, env);
        let ghost added_routes = found.deep_view();
        let ghost added_reports = told.deep_view();
        routes.append(&mut found);
        reports.append(&mut told);
        proof {
            assert(routes.deep_view() =~= routes_before + added_routes);
            assert forall|k: int| 0 <= k < routes.len() implies ids_ascending(
                #[trigger] routes.deep_view()[k].stops,
            ) by {
                if k < routes_before.len() {
                    assert(routes.deep_view()[k] == routes_before[k]);
                } else {
                    assert(routes.deep_view()[k] == added_routes[k - routes_before.len()]);
                }
            }
            assert(reports.deep_view() =~= reports_before + added_reports);
            assert(all.take(i + 1).drop_last() =~= all.take(i as int));
            assert(all.take(i + 1).last() == all[i as int]);
        }
        i += 1;
    }
    assert(all.take(i as int) =~= all);
    Ok(Gathering { routes, reports })
}

/// Runs the whole pipeline: reads and consolidates every feed source, then
/// matches the stops of all routes to the road network at once.
pub fn import_and_match(
    sources: &Vec<FeedSource>,
    env: &Envelope,
    edges: &Vec<Edge>,
    tolerance: u64,
) -> (r: Result<Import, ImportError>)
    ensures
        match r {
            Ok(out) => {
                &&& all_readable(sources.deep_view())
                &&& out.routes.deep_view() == matched_routes(
                    gathered_routes(sources.deep_view(), env@),
                    eligible_edges(edges.deep_view()),
                    tolerance,
                )
                &&& out.reports.deep_view() == gathered_reports(sources.deep_view(), env@)
                    + matching_reports(
                    gathered_routes(sources.deep_view(), env@),
                    eligible_edges(edges.deep_view()),
                    tolerance,
                )
                &&& all_in_order(out.routes.deep_view())
            },
            Err(e) => {
                &&& is_first_failure(sources.deep_view(), e.source as int)
                &&& feed_of_source(sources.deep_view()[e.source as int]) == Err::<
                    FeedView,
                    FeedErrorView,
                >(e.error@)
            },
        },
{
    let Gathering { routes: raw, reports: mut reports } = match import_gtfs(sources, env) {
        Ok(g) => g,
        Err(e) => {
            return Err(e);
        },
    };
    let ghost before = reports.deep_view();
    let Matching { routes, reports: mut told } = match_routes(&raw, edges, tolerance);
    let ghost added = told.deep_view();
    reports.append(&mut told);
    assert(reports.deep_view() =~= before + added);
    Ok(Import { routes, reports })
}

} // verus!
