//! Matching of stops to the road network: every stop is bound to the nearest
//! eligible edge, if one lies within the tolerance.

use crate::finalized::{
    FinalizedStop, FinalizedStopTime, FinalizedStopTimeView, FinalizedStopView,
    FinalizedTransitRoute, FinalizedTransitRouteView, FinalizedTrip, FinalizedTripView,
    NetworkPosition, NetworkPositionView,
};
use crate::geometry::{on_segment, Point};
use crate::ident::{
    id_before, id_less, lemma_id_before_asymmetric, lemma_id_before_irreflexive,
    lemma_id_before_total, lemma_id_before_transitive,
};
use crate::network::{
    eligible, is_eligible, lemma_point_on_line, measure, measured, Edge, EdgeView, Measure,
};
use crate::order::ids_ascending;
use crate::report::{Report, ReportView};
use crate::transit::{
    RawStop, RawStopTime, RawStopTimeView, RawStopView, RawTransitRoute, RawTransitRouteView,
    RawTrip, RawTripView,
};
use vstd::prelude::*;

verus! {

/// The tolerance of a map that counts in metres: a stop finds no edge that
/// lies farther from it.
pub const DEFAULT_TOLERANCE: u64 = 50;

/// The nearest edge to a point: its place among the edges asked, and the
/// point's measure against it.
#[derive(Clone, Copy, Debug, PartialEq, Eq)]
pub struct Hit {
    pub edge: usize,
    pub measure: Measure,
}

/// The edges that carry transit, in the order of the network.
pub open spec fn eligible_edges(edges: Seq<EdgeView>) -> Seq<EdgeView> {
    edges.filter(|e: EdgeView| eligible(e.kind))
}

/// Whether an edge at one distance is nearer than another: the distance is
/// smaller, or the same with the identifier that comes first.
pub open spec fn nearer(da: u128, a: Seq<char>, db: u128, b: Seq<char>) -> bool {
    da < db || (da == db && id_before(a, b))
}

/// Whether edges `i` and `j` have a line, and `i` is nearer to `p` than `j`.
pub open spec fn nearer_edge(p: Point, index: Seq<EdgeView>, i: int, j: int) -> bool {
    measured(p, index[i].geometry) is Some && measured(p, index[j].geometry) is Some && nearer(
        measured(p, index[i].geometry)->0.distance2,
        index[i].id,
        measured(p, index[j].geometry)->0.distance2,
        index[j].id,
    )
}

/// Whether edge `i` is the nearest to `p`: no edge is nearer than it, and it
/// is nearer than every edge that stands before it.
pub open spec fn is_nearest_edge(p: Point, index: Seq<EdgeView>, i: int) -> bool {
    &&& 0 <= i < index.len()
    &&& measured(p, index[i].geometry) is Some
    &&& forall|j: int| 0 <= j < index.len() ==> !#[trigger] nearer_edge(p, index, j, i)
    &&& forall|j: int|
        0 <= j < i && measured(p, index[j].geometry) is Some ==> #[trigger] nearer_edge(
            p,
            index,
            i,
            j,
        )
}

/// The nearest edge to `p`; none where no edge has a line.
pub open spec fn nearest(p: Point, index: Seq<EdgeView>) -> Option<Hit> {
    if exists|i: int| is_nearest_edge(p, index, i) {
        let i = choose|i: int| is_nearest_edge(p, index, i);
        Some(Hit { edge: i as usize, measure: measured(p, index[i].geometry)->0 })
    } else {
        None
    }
}

/// Whether a measure lies within the tolerance.
pub open spec fn within(m: Measure, tolerance: u64) -> bool {
    m.distance2 <= tolerance * tolerance
}

/// The place that a point finds on the network: on its nearest edge, where
/// that lies within the tolerance.
pub open spec fn position_of(p: Point, index: Seq<EdgeView>, tolerance: u64) -> Option<
    NetworkPositionView,
> {
    match nearest(p, index) {
        Some(hit) => if within(hit.measure, tolerance) {
            Some(
                NetworkPositionView {
                    edge_id: index[hit.edge as int].id,
                    offset: hit.measure.offset,
                },
            )
        } else {
            None
        },
        None => None,
    }
}

/// Nearness is transitive.
pub proof fn lemma_nearer_transitive(
    da: u128,
    a: Seq<char>,
    db: u128,
    b: Seq<char>,
    dc: u128,
    c: Seq<char>,
)
    requires
        nearer(da, a, db, b),
        nearer(db, b, dc, c),
    ensures
        nearer(da, a, dc, c),
{
    if da == db && db == dc {
        lemma_id_before_transitive(a, b, c);
    }
}

/// Of two edges one is nearer, or they have the same distance and
/// identifier; never both are nearer.
pub proof fn lemma_nearer_total(da: u128, a: Seq<char>, db: u128, b: Seq<char>)
    ensures
        nearer(da, a, db, b) || nearer(db, b, da, a) || (da == db && a == b),
        !(nearer(da, a, db, b) && nearer(db, b, da, a)),
        !nearer(da, a, da, a),
{
    lemma_id_before_total(a, b);
    lemma_id_before_irreflexive(a);
    if id_before(a, b) {
        lemma_id_before_asymmetric(a, b);
    }
}

/// A point has one nearest edge at most: which edge a stop is bound to
/// depends on nothing but the stop and the edges.
pub proof fn lemma_nearest_edge_unique(p: Point, index: Seq<EdgeView>, i: int, j: int)
    requires
        is_nearest_edge(p, index, i),
        is_nearest_edge(p, index, j),
    ensures
        i == j,
{
    if i < j {
        assert(nearer_edge(p, index, j, i));
        assert(!nearer_edge(p, index, j, i));
    } else if j < i {
        assert(nearer_edge(p, index, i, j));
        assert(!nearer_edge(p, index, i, j));
    }
}

/// Collects the edges that carry transit: the index that every stop is
/// matched against.
pub fn build_index<'a>(edges: &'a Vec<Edge>) -> (r: Vec<&'a Edge>)
    ensures
        r.deep_view() == eligible_edges(edges.deep_view()),
{
    let ghost all = edges.deep_view();
    let ghost pred = |e: EdgeView| eligible(e.kind);
    let mut out: Vec<&'a Edge> = Vec::new();
    let mut i: usize = 0;
    proof {
        reveal(Seq::filter);
        assert(all.take(0) =~= Seq::<EdgeView>::empty());
        assert(out.deep_view() =~= all.take(0).filter(pred));
    }
    while i < edges.len()
        invariant
            0 <= i <= edges.len(),
            all == edges.deep_view(),
            pred == |e: EdgeView| eligible(e.kind),
            out.deep_view() == all.take(i as int).filter(pred),
        decreases edges.len() - i,
    {
        let ghost before = out.deep_view();
        proof {
            assert(all[i as int] == edges[i as int]@);
            assert(all.take(i + 1) =~= all.take(i as int).push(all[i as int]));
            all.take(i as int).lemma_filter_push(all[i as int], pred);
        }
        if is_eligible(edges[i].kind) {
            out.push(&edges[i]);
            assert(out.deep_view() =~= before.push(all[i as int]));
        }
        i += 1;
    }
    assert(all.take(i as int) =~= all);
    out
}

/// Finds the nearest edge to a point. Of two edges at the same distance the
/// one whose identifier comes first is the nearer.
pub fn nearest_edge(p: Point, index: &Vec<&Edge>) -> (r: Option<Hit>)
    ensures
        r == nearest(p, index.deep_view()),
        r matches Some(hit) ==> is_nearest_edge(p, index.deep_view(), hit.edge as int),
{
    let ghost all = index.deep_view();
    let mut best: Option<Hit> = None;
    let mut i: usize = 0;
    while i < index.len()
        invariant
            0 <= i <= index.len(),
            all == index.deep_view(),
            match best {
                Some(hit) => {
                    &&& hit.edge < i
                    &&& measured(p, all[hit.edge as int].geometry) == Some(hit.measure)
                    &&& forall|j: int| 0 <= j < i ==> !#[trigger] nearer_edge(p, all, j, hit.edge as int)
                    &&& forall|j: int|
                        0 <= j < hit.edge && measured(p, all[j].geometry) is Some
                            ==> #[trigger] nearer_edge(p, all, hit.edge as int, j)
                },
                None => forall|j: int| 0 <= j < i ==> measured(p, #[trigger] all[j].geometry) is None,
            },
        decreases index.len() - i,
    {
        assert(all[i as int] == index[i as int]@);
        match measure(p, &index[i].geometry) {
            Some(m) => {
                let better = match best {
                    Some(hit) => {
                        assert(all[hit.edge as int] == index[hit.edge as int]@);
                        m.distance2 < hit.measure.distance2 || (m.distance2
                            == hit.measure.distance2 && id_less(
                            index[i].id.as_str(),
                            index[hit.edge].id.as_str(),
                        ))
                    },
                    None => true,
                };
                proof {
                    lemma_nearer_total(m.distance2, all[i as int].id, m.distance2, all[i as int].id);
                }
                if better {
                    proof {
                        assert forall|j: int| 0 <= j < i + 1 implies !#[trigger] nearer_edge(
                            p,
                            all,
                            j,
                            i as int,
                        ) by {
                            if j < i && nearer_edge(p, all, j, i as int) {
                                match best {
                                    Some(hit) => {
                                        let dj = measured(p, all[j].geometry)->0.distance2;
                                        lemma_nearer_transitive(
                                            dj,
                                            all[j].id,
                                            m.distance2,
                                            all[i as int].id,
                                            hit.measure.distance2,
                                            all[hit.edge as int].id,
                                        );
                                        assert(nearer_edge(p, all, j, hit.edge as int));
                                    },
                                    None => {
                                        assert(measured(p, all[j].geometry) is None);
                                    },
                                }
                            }
                        }
                        assert forall|j: int|
                            0 <= j < i && measured(
                                p,
                                all[j].geometry,
                            ) is Some implies #[trigger] nearer_edge(p, all, i as int, j) by {
                            match best {
                                Some(hit) => {
                                    let dj = measured(p, all[j].geometry)->0.distance2;
                                    lemma_nearer_total(
                                        dj,
                                        all[j].id,
                                        hit.measure.distance2,
                                        all[hit.edge as int].id,
                                    );
                                    assert(!nearer_edge(p, all, j, hit.edge as int));
                                    if nearer(
                                        hit.measure.distance2,
                                        all[hit.edge as int].id,
                                        dj,
                                        all[j].id,
                                    ) {
                                        lemma_nearer_transitive(
                                            m.distance2,
                                            all[i as int].id,
                                            hit.measure.distance2,
                                            all[hit.edge as int].id,
                                            dj,
                                            all[j].id,
                                        );
                                    }
                                },
                                None => {
                                    assert(measured(p, all[j].geometry) is None);
                                },
                            }
                        }
                    }
                    best = Some(Hit { edge: i, measure: m });
                } else {
                    proof {
                        let hit = best->0;
                        assert(!nearer_edge(p, all, i as int, hit.edge as int));
                    }
                }
            },
            None => {
                proof {
                    match best {
                        Some(hit) => {
                            assert(!nearer_edge(p, all, i as int, hit.edge as int));
                        },
                        None => {},
                    }
                }
            },
        }
        i += 1;
    }
    proof {
        match best {
            Some(hit) => {
                assert(is_nearest_edge(p, all, hit.edge as int));
                let w = choose|w: int| is_nearest_edge(p, all, w);
                lemma_nearest_edge_unique(p, all, w, hit.edge as int);
            },
            None => {
                assert forall|w: int| !is_nearest_edge(p, all, w) by {
                    if 0 <= w < all.len() {
                        assert(measured(p, all[w].geometry) is None);
                    }
                }
            },
        }
    }
    best
}

/// Finds the place of a point on the network, if an edge lies within the
/// tolerance.
pub fn locate(p: Point, index: &Vec<&Edge>, tolerance: u64) -> (r: Option<NetworkPosition>)
    ensures
        match r {
            Some(at) => position_of(p, index.deep_view(), tolerance) == Some(at@),
            None => position_of(p, index.deep_view(), tolerance) is None,
        },
{
    match nearest_edge(p, index) {
        Some(hit) => {
            assert(index.deep_view()[hit.edge as int] == index[hit.edge as int]@);
            assert(tolerance * tolerance <= 0xffff_ffff_ffff_ffff * 0xffff_ffff_ffff_ffff)
                by (nonlinear_arith)
                requires
                    0 <= tolerance <= 0xffff_ffff_ffff_ffff,
            ;
            if hit.measure.distance2 <= (tolerance as u128) * (tolerance as u128) {
                Some(
                    NetworkPosition {
                        edge_id: index[hit.edge].id.clone(),
                        offset: hit.measure.offset,
                    },
                )
            } else {
                None
            }
        },
        None => None,
    }
}

/// A stop bound to the network; nothing where no edge lies within the
/// tolerance of it.
pub open spec fn finalized_stop(s: RawStopView, index: Seq<EdgeView>, tolerance: u64) -> Option<
    FinalizedStopView,
> {
    match position_of(s.position, index, tolerance) {
        Some(at) => Some(
            FinalizedStopView {
                id: s.id,
                code: s.code,
                name: s.name,
                description: s.description,
                network_position: at,
            },
        ),
        None => None,
    }
}

/// A call with its stop bound to the network; nothing where the stop finds
/// no edge.
pub open spec fn finalized_call(c: RawStopTimeView, index: Seq<EdgeView>, tolerance: u64) -> Option<
    FinalizedStopTimeView,
> {
    match finalized_stop(c.stop, index, tolerance) {
        Some(stop) => Some(
            FinalizedStopTimeView {
                arrival_time: c.arrival_time,
                departure_time: c.departure_time,
                stop,
                stop_sequence: c.stop_sequence,
                pickup_type: c.pickup_type,
                drop_off_type: c.drop_off_type,
            },
        ),
        None => None,
    }
}

/// The stops of a list that find an edge, bound to it, in the order they had.
pub open spec fn finalized_stops(stops: Seq<RawStopView>, index: Seq<EdgeView>, tolerance: u64) -> Seq<
    FinalizedStopView,
> {
    stops.filter_map(|s: RawStopView| finalized_stop(s, index, tolerance))
}

/// The calls of a trip whose stops find an edge, in the order they had.
pub open spec fn finalized_calls(calls: Seq<RawStopTimeView>, index: Seq<EdgeView>, tolerance: u64) -> Seq<
    FinalizedStopTimeView,
> {
    calls.filter_map(|c: RawStopTimeView| finalized_call(c, index, tolerance))
}

/// A trip with its calls bound to the network.
pub open spec fn finalized_trip(t: RawTripView, index: Seq<EdgeView>, tolerance: u64) -> FinalizedTripView {
    FinalizedTripView {
        service_id: t.service_id,
        id: t.id,
        headsign: t.headsign,
        direction_id: t.direction_id,
        shape: t.shape,
        stop_times: finalized_calls(t.stop_times, index, tolerance),
    }
}

/// A route with its stops bound to the network.
pub open spec fn finalized_route(r: RawTransitRouteView, index: Seq<EdgeView>, tolerance: u64) -> FinalizedTransitRouteView {
    FinalizedTransitRouteView {
        id: r.id,
        long_name: r.long_name,
        short_name: r.short_name,
        description: r.description,
        stops: finalized_stops(r.stops, index, tolerance),
        trips: r.trips.map_values(|t: RawTripView| finalized_trip(t, index, tolerance)),
    }
}

/// A route is routable where at least one of its stops finds an edge.
pub open spec fn routable(r: RawTransitRouteView, index: Seq<EdgeView>, tolerance: u64) -> bool {
    finalized_stops(r.stops, index, tolerance).len() > 0
}

/// One report for each stop of a route that finds no edge.
pub open spec fn unmatched_stops(r: RawTransitRouteView, index: Seq<EdgeView>, tolerance: u64) -> Seq<
    ReportView,
> {
    r.stops.filter_map(
        |s: RawStopView|
            if finalized_stop(s, index, tolerance) is None {
                Some(ReportView::UnmatchedStop { stop_id: s.id, route_id: r.id })
            } else {
                None
            },
    )
}

/// What matching reports of a route: the stops that find no edge and, where
/// none is left, the route itself.
pub open spec fn route_reports(r: RawTransitRouteView, index: Seq<EdgeView>, tolerance: u64) -> Seq<
    ReportView,
> {
    if routable(r, index, tolerance) {
        unmatched_stops(r, index, tolerance)
    } else {
        unmatched_stops(r, index, tolerance).push(ReportView::RouteUnroutable { route_id: r.id })
    }
}

/// Binds a stop to the network.
pub fn finalize_stop(stop: &RawStop, index: &Vec<&Edge>, tolerance: u64) -> (r: Option<FinalizedStop>)
    ensures
        match r {
            Some(f) => finalized_stop(stop@, index.deep_view(), tolerance) == Some(f@),
            None => finalized_stop(stop@, index.deep_view(), tolerance) is None,
        },
{
    match locate(stop.position, index, tolerance) {
        Some(network_position) => Some(
            FinalizedStop {
                id: stop.id.clone(),
                code: stop.code.clone(),
                name: stop.name.clone(),
                description: stop.description.clone(),
                network_position,
            },
        ),
        None => None,
    }
}

/// Binds the calls of a trip to the network, and leaves out those whose stop
/// finds no edge.
pub fn finalize_calls(calls: &Vec<RawStopTime>, index: &Vec<&Edge>, tolerance: u64) -> (r: Vec<
    FinalizedStopTime,
>)
    ensures
        r.deep_view() == finalized_calls(calls.deep_view(), index.deep_view(), tolerance),
{
    let ghost all = calls.deep_view();
    let ghost f = |c: RawStopTimeView| finalized_call(c, index.deep_view(), tolerance);
    let mut out: Vec<FinalizedStopTime> = Vec::new();
    let mut i: usize = 0;
    proof {
        assert(all.take(0) =~= Seq::<RawStopTimeView>::empty());
        assert(out.deep_view() =~= all.take(0).filter_map(f));
    }
    while i < calls.len()
        invariant
            0 <= i <= calls.len(),
            all == calls.deep_view(),
            f == |c: RawStopTimeView| finalized_call(c, index.deep_view(), tolerance),
            out.deep_view() == all.take(i as int).filter_map(f),
        decreases calls.len() - i,
    {
        let c = &calls[i];
        let ghost before = out.deep_view();
        proof {
            assert(all[i as int] == c@);
            all.lemma_filter_map_take_succ(f, i as int);
        }
        match finalize_stop(&c.stop, index, tolerance) {
            Some(stop) => {
                let call = FinalizedStopTime {
                    arrival_time: c.arrival_time.clone(),
                    departure_time: c.departure_time.clone(),
                    stop,
                    stop_sequence: c.stop_sequence,
                    pickup_type: c.pickup_type,
                    drop_off_type: c.drop_off_type,
                };
                let ghost added = call@;
                out.push(call);
                assert(f(all[i as int]) == Some(added));
                assert(out.deep_view() =~= before + seq![added]);
            },
            None => {
                assert(before + Seq::<FinalizedStopTimeView>::empty() =~= before);
            },
        }
        i += 1;
    }
    assert(all.take(i as int) =~= all);
    out
}

/// Binds a trip to the network.
pub fn finalize_trip(trip: &RawTrip, index: &Vec<&Edge>, tolerance: u64) -> (r: FinalizedTrip)
    ensures
        r@ == finalized_trip(trip@, index.deep_view(), tolerance),
{
    let shape = trip.shape.clone();
    assert(shape@ =~= trip.shape@);
    FinalizedTrip {
        service_id: trip.service_id.clone(),
        id: trip.id.clone(),
        headsign: trip.headsign.clone(),
        direction_id: trip.direction_id,
        shape,
        stop_times: finalize_calls(&trip.stop_times, index, tolerance),
    }
}

/// What matching makes of one route.
#[derive(Clone, Debug, PartialEq, Eq)]
pub struct RouteMatch {
    /// The route bound to the network; nothing where none of its stops found
    /// an edge.
    pub route: Option<FinalizedTransitRoute>,
    /// The stops that found no edge and, where none is left, the route.
    pub reports: Vec<Report>,
}

/// Matches the stops of a route to the network. A stop that finds no edge
/// within the tolerance is left out of the route's stops and of every trip's
/// calls, and reported; a route that keeps no stop is left out and reported.
pub fn match_route(route: &RawTransitRoute, index: &Vec<&Edge>, tolerance: u64) -> (r: RouteMatch)
    ensures
        r.reports.deep_view() == route_reports(route@, index.deep_view(), tolerance),
        match r.route {
            Some(f) => routable(route@, index.deep_view(), tolerance) && f@ == finalized_route(
                route@,
                index.deep_view(),
                tolerance,
            ),
            None => !routable(route@, index.deep_view(), tolerance),
        },
        ids_ascending(route@.stops) ==> (r.route matches Some(f) ==> stops_in_order(f@.stops)),
{
    let ghost edges = index.deep_view();
    let ghost all = route@.stops;
    proof {
        if ids_ascending(all) {
            lemma_finalized_stops_in_order(all, edges, tolerance);
        }
    }
    let ghost keep = |s: RawStopView| finalized_stop(s, edges, tolerance);
    let ghost warn = |s: RawStopView|
        if finalized_stop(s, edges, tolerance) is None {
            Some(ReportView::UnmatchedStop { stop_id: s.id, route_id: route@.id })
        } else {
            None
        };
    let mut stops: Vec<FinalizedStop> = Vec::new();
    let mut reports: Vec<Report> = Vec::new();
    let mut i: usize = 0;
    proof {
        assert(all.take(0) =~= Seq::<RawStopView>::empty());
        assert(stops.deep_view() =~= all.take(0).filter_map(keep));
        assert(reports.deep_view() =~= all.take(0).filter_map(warn));
    }
    while i < route.stops.len()
        invariant
            0 <= i <= route.stops.len(),
            edges == index.deep_view(),
            all == route@.stops,
            keep == |s: RawStopView| finalized_stop(s, edges, tolerance),
            warn == |s: RawStopView|
                if finalized_stop(s, edges, tolerance) is None {
                    Some(ReportView::UnmatchedStop { stop_id: s.id, route_id: route@.id })
                } else {
                    None
                },
            stops.deep_view() == all.take(i as int).filter_map(keep),
            reports.deep_view() == all.take(i as int).filter_map(warn),
        decreases route.stops.len() - i,
    {
        let s = &route.stops[i];
        let ghost stops_before = stops.deep_view();
        let ghost reports_before = reports.deep_view();
        proof {
            assert(all[i as int] == s@);
            all.lemma_filter_map_take_succ(keep, i as int);
            all.lemma_filter_map_take_succ(warn, i as int);
        }
        match finalize_stop(s, index, tolerance) {
            Some(stop) => {
                let ghost added = stop@;
                stops.push(stop);
                assert(keep(all[i as int]) == Some(added));
                assert(stops.deep_view() =~= stops_before + seq![added]);
                assert(reports_before + Seq::<ReportView>::empty() =~= reports_before);
            },
            None => {
                let report = Report::UnmatchedStop {
                    stop_id: s.id.clone(),
                    route_id: route.id.clone(),
                };
                let ghost added = report@;
                reports.push(report);
                assert(warn(all[i as int]) == Some(added));
                assert(reports.deep_view() =~= reports_before + seq![added]);
                assert(stops_before + Seq::<FinalizedStopView>::empty() =~= stops_before);
            },
        }
        i += 1;
    }
    assert(all.take(i as int) =~= all);
    if stops.len() == 0 {
        let ghost reports_before = reports.deep_view();
        let report = Report::RouteUnroutable { route_id: route.id.clone() };
        let ghost added = report@;
        reports.push(report);
        assert(reports.deep_view() =~= reports_before.push(added));
        return RouteMatch { route: None, reports };
    }
    let ghost raw_trips = route@.trips;
    let mut trips: Vec<FinalizedTrip> = Vec::new();
    let mut k: usize = 0;
    while k < route.trips.len()
        invariant
            0 <= k <= route.trips.len(),
            edges == index.deep_view(),
            raw_trips == route@.trips,
            trips.len() == k,
            forall|j: int|
                0 <= j < k ==> #[trigger] trips.deep_view()[j] == finalized_trip(
                    raw_trips[j],
                    edges,
                    tolerance,
                ),
        decreases route.trips.len() - k,
    {
        assert(raw_trips[k as int] == route.trips[k as int]@);
        let ghost before = trips.deep_view();
        let trip = finalize_trip(&route.trips[k], index, tolerance);
        let ghost added = trip@;
        trips.push(trip);
        assert(trips.deep_view() =~= before.push(added));
        k += 1;
    }
    assert(trips.deep_view() =~= raw_trips.map_values(
        |t: RawTripView| finalized_trip(t, edges, tolerance),
    ));
    let finalized = FinalizedTransitRoute {
        id: route.id.clone(),
        long_name: route.long_name.clone(),
        short_name: route.short_name.clone(),
        description: route.description.clone(),
        stops,
        trips,
    };
    RouteMatch { route: Some(finalized), reports }
}

/// What matching makes of a list of routes.
#[derive(Clone, Debug, PartialEq, Eq)]
pub struct Matching {
    /// The routable routes bound to the network, in the order they had.
    pub routes: Vec<FinalizedTransitRoute>,
    /// What each route reported, in the order of the routes.
    pub reports: Vec<Report>,
}

/// The routable routes of a list, bound to the network, in the order they had.
pub open spec fn matched_routes(routes: Seq<RawTransitRouteView>, index: Seq<EdgeView>, tolerance: u64) -> Seq<
    FinalizedTransitRouteView,
> {
    routes.filter_map(
        |r: RawTransitRouteView|
            if routable(r, index, tolerance) {
                Some(finalized_route(r, index, tolerance))
            } else {
                None
            },
    )
}

/// What matching reports of a list of routes: the reports of each route, in
/// the order of the routes.
pub open spec fn matching_reports(routes: Seq<RawTransitRouteView>, index: Seq<EdgeView>, tolerance: u64) -> Seq<
    ReportView,
>
    decreases routes.len(),
{
    if routes.len() == 0 {
        Seq::empty()
    } else {
        matching_reports(routes.drop_last(), index, tolerance) + route_reports(
            routes.last(),
            index,
            tolerance,
        )
    }
}

/// Matches the stops of every route to the network. The index of eligible
/// edges is built once and serves every stop.
pub fn match_routes(routes: &Vec<RawTransitRoute>, edges: &Vec<Edge>, tolerance: u64) -> (r: Matching)
    ensures
        r.routes.deep_view() == matched_routes(
            routes.deep_view(),
            eligible_edges(edges.deep_view()),
            tolerance,
        ),
        r.reports.deep_view() == matching_reports(
            routes.deep_view(),
            eligible_edges(edges.deep_view()),
            tolerance,
        ),
        all_raw_in_order(routes.deep_view()) ==> all_in_order(r.routes.deep_view()),
{
    let index = build_index(edges);
    let ghost net = index.deep_view();
    let ghost all = routes.deep_view();
    let ghost f = |r: RawTransitRouteView|
        if routable(r, net, tolerance) {
            Some(finalized_route(r, net, tolerance))
        } else {
            None
        };
    let mut out: Vec<FinalizedTransitRoute> = Vec::new();
    let mut reports: Vec<Report> = Vec::new();
    let mut i: usize = 0;
    proof {
        assert(all.take(0) =~= Seq::<RawTransitRouteView>::empty());
        assert(out.deep_view() =~= all.take(0).filter_map(f));
        assert(reports.deep_view() =~= matching_reports(all.take(0), net, tolerance));
    }
    while i < routes.len()
        invariant
            0 <= i <= routes.len(),
            net == index.deep_view(),
            all == routes.deep_view(),
            f == |r: RawTransitRouteView|
                if routable(r, net, tolerance) {
                    Some(finalized_route(r, net, tolerance))
                } else {
                    None
                },
            out.deep_view() == all.take(i as int).filter_map(f),
            reports.deep_view() == matching_reports(all.take(i as int), net, tolerance),
        decreases routes.len() - i,
    {
        let ghost routes_before = out.deep_view();
        let ghost reports_before = reports.deep_view();
        proof {
            assert(all[i as int] == routes[i as int]@);
            all.lemma_filter_map_take_succ(f, i as int);
            assert(all.take(i + 1).drop_last() =~= all.take(i as int));
            assert(all.take(i + 1).last() == all[i as int]);
        }
        let matched = match_route(&routes[i], &index, tolerance);
        let RouteMatch { route, reports: mut told } = matched;
        let ghost added_reports = told.deep_view();
        reports.append(&mut told);
        assert(reports.deep_view() =~= reports_before + added_reports);
        match route {
            Some(finalized) => {
                let ghost added = finalized@;
                out.push(finalized);
                assert(f(all[i as int]) == Some(added));
                assert(out.deep_view() =~= routes_before + seq![added]);
            },
            None => {
                assert(routes_before + Seq::<FinalizedTransitRouteView>::empty()
                    =~= routes_before);
            },
        }
        i += 1;
    }
    assert(all.take(i as int) =~= all);
    proof {
        if all_raw_in_order(all) {
            lemma_matched_routes_in_order(all, net, tolerance);
        }
    }
    Matching { routes: out, reports }
}

/// Whether finalized stops stand in the order of their identifiers, each
/// identifier before the next.
pub open spec fn stops_in_order(s: Seq<FinalizedStopView>) -> bool {
    forall|i: int, j: int| 0 <= i < j < s.len() ==> id_before(s[i].id, s[j].id)
}

/// Finalized stops in the order of their identifiers carry no identifier twice.
pub proof fn lemma_stops_in_order_differ(s: Seq<FinalizedStopView>, i: int, j: int)
    requires
        stops_in_order(s),
        0 <= i < s.len(),
        0 <= j < s.len(),
        i != j,
    ensures
        s[i].id != s[j].id,
{
    if i < j {
        assert(id_before(s[i].id, s[j].id));
        lemma_id_before_irreflexive(s[i].id);
    } else {
        assert(id_before(s[j].id, s[i].id));
        lemma_id_before_irreflexive(s[j].id);
    }
}

/// Matching keeps the order of a route's stops: where the stops of a route
/// stand in the order of their identifiers, with none twice, its finalized
/// stops do so too.
pub proof fn lemma_finalized_stops_in_order(stops: Seq<RawStopView>, index: Seq<EdgeView>, tolerance: u64)
    requires
        ids_ascending(stops),
    ensures
        stops_in_order(finalized_stops(stops, index, tolerance)),
    decreases stops.len(),
{
    let f = |s: RawStopView| finalized_stop(s, index, tolerance);
    let out = stops.filter_map(f);
    if stops.len() > 0 {
        let rest = stops.drop_last();
        let last = stops.last();
        let before = rest.filter_map(f);
        assert(ids_ascending(rest)) by {
            assert forall|i: int, j: int| 0 <= i < j < rest.len() implies id_before(
                rest[i].id,
                rest[j].id,
            ) by {
                assert(rest[i] == stops[i] && rest[j] == stops[j]);
            }
        }
        lemma_finalized_stops_in_order(rest, index, tolerance);
        if f(last) is Some {
            assert(out == before + seq![f(last)->0]);
            assert forall|i: int, j: int| 0 <= i < j < out.len() implies id_before(
                out[i].id,
                out[j].id,
            ) by {
                if j < before.len() {
                    assert(out[i] == before[i] && out[j] == before[j]);
                } else {
                    assert(out[i] == before[i]);
                    assert(before.contains(before[i]));
                    rest.lemma_filter_map_contains(f, before[i]);
                    let t = choose|t: RawStopView| #[trigger]
                        rest.contains(t) && f(t) == Some(before[i]);
                    let m = choose|m: int| 0 <= m < rest.len() && rest[m] == t;
                    assert(rest[m] == stops[m]);
                    assert(id_before(stops[m].id, stops[stops.len() - 1].id));
                }
            }
        } else {
            assert(out == before);
        }
    }
}

/// Whether an edge of the index lies within the tolerance of a point.
pub open spec fn has_edge_within(p: Point, index: Seq<EdgeView>, tolerance: u64) -> bool {
    exists|i: int|
        0 <= i < index.len() && measured(p, #[trigger] index[i].geometry) is Some && within(
            measured(p, index[i].geometry)->0,
            tolerance,
        )
}

/// Among the first `n` edges the nearest one, if one of them has a line.
proof fn lemma_first_nearest_edge(p: Point, index: Seq<EdgeView>, n: int) -> (r: Option<int>)
    requires
        0 <= n <= index.len(),
    ensures
        match r {
            Some(k) => {
                &&& 0 <= k < n
                &&& measured(p, index[k].geometry) is Some
                &&& forall|j: int| 0 <= j < n ==> !#[trigger] nearer_edge(p, index, j, k)
                &&& forall|j: int|
                    0 <= j < k && measured(p, index[j].geometry) is Some
                        ==> #[trigger] nearer_edge(p, index, k, j)
            },
            None => forall|j: int| 0 <= j < n ==> measured(p, #[trigger] index[j].geometry) is None,
        },
    decreases n,
{
    if n == 0 {
        None
    } else {
        let before = lemma_first_nearest_edge(p, index, n - 1);
        let i = n - 1;
        if measured(p, index[i].geometry) is None {
            before
        } else {
            let di = measured(p, index[i].geometry)->0.distance2;
            lemma_nearer_total(di, index[i].id, di, index[i].id);
            match before {
                None => Some(i),
                Some(k) => {
                    let dk = measured(p, index[k].geometry)->0.distance2;
                    if nearer(di, index[i].id, dk, index[k].id) {
                        assert forall|j: int| 0 <= j < n implies !#[trigger] nearer_edge(
                            p,
                            index,
                            j,
                            i,
                        ) by {
                            if j < i && nearer_edge(p, index, j, i) {
                                let dj = measured(p, index[j].geometry)->0.distance2;
                                lemma_nearer_transitive(
                                    dj,
                                    index[j].id,
                                    di,
                                    index[i].id,
                                    dk,
                                    index[k].id,
                                );
                                assert(nearer_edge(p, index, j, k));
                            }
                        }
                        assert forall|j: int|
                            0 <= j < i && measured(
                                p,
                                index[j].geometry,
                            ) is Some implies #[trigger] nearer_edge(p, index, i, j) by {
                            let dj = measured(p, index[j].geometry)->0.distance2;
                            lemma_nearer_total(dj, index[j].id, dk, index[k].id);
                            assert(!nearer_edge(p, index, j, k));
                            if nearer(dk, index[k].id, dj, index[j].id) {
                                lemma_nearer_transitive(
                                    di,
                                    index[i].id,
                                    dk,
                                    index[k].id,
                                    dj,
                                    index[j].id,
                                );
                            }
                        }
                        Some(i)
                    } else {
                        assert(!nearer_edge(p, index, i, k));
                        Some(k)
                    }
                },
            }
        }
    }
}

/// A stop finds a place exactly where an edge of the index lies within the
/// tolerance of it: a stop that lies farther than the tolerance from every
/// edge finds none.
pub proof fn lemma_position_iff_edge_within(p: Point, index: Seq<EdgeView>, tolerance: u64)
    ensures
        position_of(p, index, tolerance) is Some <==> has_edge_within(p, index, tolerance),
{
    if position_of(p, index, tolerance) is Some {
        let i = choose|i: int| is_nearest_edge(p, index, i);
        assert(measured(p, index[i].geometry) is Some);
    }
    if has_edge_within(p, index, tolerance) {
        let i = choose|i: int|
            0 <= i < index.len() && measured(p, #[trigger] index[i].geometry) is Some && within(
                measured(p, index[i].geometry)->0,
                tolerance,
            );
        let found = lemma_first_nearest_edge(p, index, index.len() as int);
        let k = found->0;
        assert(is_nearest_edge(p, index, k));
        let w = choose|w: int| is_nearest_edge(p, index, w);
        lemma_nearest_edge_unique(p, index, w, k);
        assert(!nearer_edge(p, index, i, k));
    }
}

/// Whether a finalized stop is made of a stop of the list from whose
/// position an edge lies within the tolerance.
pub open spec fn made_of_near_stop(
    f: FinalizedStopView,
    stops: Seq<RawStopView>,
    index: Seq<EdgeView>,
    tolerance: u64,
) -> bool {
    exists|s: RawStopView|
        stops.contains(s) && finalized_stop(s, index, tolerance) == Some(f) && has_edge_within(
            s.position,
            index,
            tolerance,
        )
}

/// Whether a finalized call is made of a call of the list from whose stop an
/// edge lies within the tolerance.
pub open spec fn made_of_near_call(
    f: FinalizedStopTimeView,
    calls: Seq<RawStopTimeView>,
    index: Seq<EdgeView>,
    tolerance: u64,
) -> bool {
    exists|c: RawStopTimeView|
        calls.contains(c) && finalized_call(c, index, tolerance) == Some(f) && has_edge_within(
            c.stop.position,
            index,
            tolerance,
        )
}

/// Every stop of a finalized route, in its list of stops and in the calls of
/// its trips, is made of a stop from whose position an edge lies within the
/// tolerance. A stop that lies farther from every edge is in neither.
pub proof fn lemma_finalized_stops_are_near(r: RawTransitRouteView, index: Seq<EdgeView>, tolerance: u64)
    ensures
        forall|k: int|
            0 <= k < finalized_route(r, index, tolerance).stops.len() ==> made_of_near_stop(
                #[trigger] finalized_route(r, index, tolerance).stops[k],
                r.stops,
                index,
                tolerance,
            ),
        forall|t: int, k: int|
            0 <= t < r.trips.len() && 0 <= k < finalized_route(
                r,
                index,
                tolerance,
            ).trips[t].stop_times.len() ==> made_of_near_call(
                #[trigger] finalized_route(r, index, tolerance).trips[t].stop_times[k],
                r.trips[t].stop_times,
                index,
                tolerance,
            ),
{
    let out = finalized_route(r, index, tolerance);
    let keep = |s: RawStopView| finalized_stop(s, index, tolerance);
    assert forall|k: int| 0 <= k < out.stops.len() implies made_of_near_stop(
        #[trigger] out.stops[k],
        r.stops,
        index,
        tolerance,
    ) by {
        assert(out.stops.contains(out.stops[k]));
        r.stops.lemma_filter_map_contains(keep, out.stops[k]);
        let s = choose|s: RawStopView| #[trigger] r.stops.contains(s) && keep(s) == Some(out.stops[k]);
        lemma_position_iff_edge_within(s.position, index, tolerance);
    }
    assert forall|t: int, k: int|
        0 <= t < r.trips.len() && 0 <= k < out.trips[t].stop_times.len() implies made_of_near_call(
        #[trigger] out.trips[t].stop_times[k],
        r.trips[t].stop_times,
        index,
        tolerance,
    ) by {
        let calls = r.trips[t].stop_times;
        let held = |c: RawStopTimeView| finalized_call(c, index, tolerance);
        let made = out.trips[t].stop_times;
        assert(made == calls.filter_map(held));
        assert(made.contains(made[k]));
        calls.lemma_filter_map_contains(held, made[k]);
        let c = choose|c: RawStopTimeView| #[trigger] calls.contains(c) && held(c) == Some(made[k]);
        lemma_position_iff_edge_within(c.stop.position, index, tolerance);
    }
}

/// A point that lies on a segment of an edge finds a place whatever the
/// tolerance: its nearest edge is at the distance zero, and is that edge
/// unless another edge through the point has an identifier that comes first.
pub proof fn lemma_point_on_edge_is_matched(
    p: Point,
    index: Seq<EdgeView>,
    i: int,
    k: int,
    tolerance: u64,
)
    requires
        index.len() <= usize::MAX,
        0 <= i < index.len(),
        0 <= k,
        k + 1 < index[i].geometry.len(),
        on_segment(p, index[i].geometry[k], index[i].geometry[k + 1]),
    ensures
        nearest(p, index) is Some,
        nearest(p, index)->0.measure.distance2 == 0,
        !id_before(index[i].id, index[nearest(p, index)->0.edge as int].id),
        position_of(p, index, tolerance) is Some,
{
    lemma_point_on_line(p, index[i].geometry, k);
    let found = lemma_first_nearest_edge(p, index, index.len() as int);
    let n = found->0;
    assert(is_nearest_edge(p, index, n));
    let w = choose|w: int| is_nearest_edge(p, index, w);
    lemma_nearest_edge_unique(p, index, w, n);
    assert(!nearer_edge(p, index, i, n));
    assert(0 <= tolerance * tolerance) by (nonlinear_arith)
        requires
            0 <= tolerance,
    ;
}

/// Whether the stops of every route stand in the order of their identifiers.
pub open spec fn all_raw_in_order(routes: Seq<RawTransitRouteView>) -> bool {
    forall|k: int| 0 <= k < routes.len() ==> ids_ascending(#[trigger] routes[k].stops)
}

/// Whether the stops of every finalized route stand in the order of their
/// identifiers, with no identifier twice.
pub open spec fn all_in_order(routes: Seq<FinalizedTransitRouteView>) -> bool {
    forall|k: int| 0 <= k < routes.len() ==> stops_in_order(#[trigger] routes[k].stops)
}

/// Where the stops of every route stand in the order of their identifiers,
/// the stops of every matched route do so too.
pub proof fn lemma_matched_routes_in_order(
    routes: Seq<RawTransitRouteView>,
    index: Seq<EdgeView>,
    tolerance: u64,
)
    requires
        all_raw_in_order(routes),
    ensures
        all_in_order(matched_routes(routes, index, tolerance)),
{
    let f = |r: RawTransitRouteView|
        if routable(r, index, tolerance) {
            Some(finalized_route(r, index, tolerance))
        } else {
            None
        };
    let out = routes.filter_map(f);
    assert forall|k: int| 0 <= k < out.len() implies stops_in_order(#[trigger] out[k].stops) by {
        assert(out.contains(out[k]));
        routes.lemma_filter_map_contains(f, out[k]);
        let r = choose|r: RawTransitRouteView| #[trigger] routes.contains(r) && f(r) == Some(out[k]);
        let m = choose|m: int| 0 <= m < routes.len() && routes[m] == r;
        assert(ids_ascending(routes[m].stops));
        lemma_finalized_stops_in_order(r.stops, index, tolerance);
    }
}

} // verus!
