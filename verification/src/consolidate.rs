//! Consolidation of a feed: for every route the service under which it runs
//! most often, the trip of that service that calls at the most known stops,
//! the stops of that trip as the route's canonical stops, and all trips of the
//! service with their shapes and calls.

use crate::ident::same_text;
use crate::records::{
    RouteRecord, RouteRecordView, ShapeRecord, ShapeRecordView, StopRecord, StopRecordView,
    StopTimeRecord, StopTimeRecordView, TripRecord, TripRecordView,
};
use crate::order::{
    found_in, has_id, ids_ascending, insert_stop, is_ordering_of,
    lemma_ascending_unique, lemma_ordering_unique, order_shape,
};
use crate::projection::{projected, Envelope, EnvelopeView};
use crate::report::{Entity, Report, ReportView};
use crate::select::{choice, is_choice, pick_best, Candidate, CandidateView};
use crate::transit::{
    RawStop, RawStopTime, RawStopTimeView, RawStopView, RawTransitRoute, RawTransitRouteView,
    RawTrip, RawTripView, ShapePoint,
};
use vstd::prelude::*;

verus! {

/// The records of one feed.
#[derive(Clone, Debug, PartialEq, Eq)]
pub struct Feed {
    pub routes: Vec<RouteRecord>,
    pub stops: Vec<StopRecord>,
    pub trips: Vec<TripRecord>,
    pub stop_times: Vec<StopTimeRecord>,
    pub shapes: Vec<ShapeRecord>,
}

/// What a [`Feed`] holds, record by record.
pub struct FeedView {
    pub routes: Seq<RouteRecordView>,
    pub stops: Seq<StopRecordView>,
    pub trips: Seq<TripRecordView>,
    pub stop_times: Seq<StopTimeRecordView>,
    pub shapes: Seq<ShapeRecordView>,
}

impl View for Feed {
    type V = FeedView;

    open spec fn view(&self) -> FeedView {
        FeedView {
            routes: self.routes.deep_view(),
            stops: self.stops.deep_view(),
            trips: self.trips.deep_view(),
            stop_times: self.stop_times.deep_view(),
            shapes: self.shapes.deep_view(),
        }
    }
}

/// The trips that refer to a route, in the order of the feed.
pub open spec fn trips_of_route(trips: Seq<TripRecordView>, route_id: Seq<char>) -> Seq<
    TripRecordView,
> {
    trips.filter(|t: TripRecordView| t.route_id == route_id)
}

/// The trips that run under a service, in the order they stand in.
pub open spec fn with_service(trips: Seq<TripRecordView>, service_id: Seq<char>) -> Seq<
    TripRecordView,
> {
    trips.filter(|t: TripRecordView| t.service_id == service_id)
}

/// One candidate for each trip of the route: its service, and the number of
/// the route's trips that run under that service.
pub open spec fn service_candidates(route_trips: Seq<TripRecordView>) -> Seq<CandidateView> {
    Seq::new(
        route_trips.len(),
        |i: int|
            CandidateView {
                id: route_trips[i].service_id,
                count: with_service(route_trips, route_trips[i].service_id).len(),
            },
    )
}

/// The service under which a route runs most often; among services with the
/// same number of trips the one whose identifier comes first.
pub open spec fn chosen_service(route_trips: Seq<TripRecordView>) -> Option<Seq<char>> {
    match choice(service_candidates(route_trips)) {
        Some(i) => Some(route_trips[i as int].service_id),
        None => None,
    }
}

/// Whether the feed lists a stop with the identifier.
pub open spec fn knows(stops: Seq<StopRecordView>, id: Seq<char>) -> bool {
    exists|k: int| 0 <= k < stops.len() && stops[k].stop_id == id
}

/// Whether stop `k` is the first that carries the identifier.
pub open spec fn is_first_stop(stops: Seq<StopRecordView>, id: Seq<char>, k: int) -> bool {
    &&& 0 <= k < stops.len()
    &&& stops[k].stop_id == id
    &&& forall|j: int| 0 <= j < k ==> stops[j].stop_id != id
}

/// The stop that an identifier stands for: the first that the feed lists
/// with it.
pub open spec fn stop_of(stops: Seq<StopRecordView>, id: Seq<char>) -> Option<StopRecordView> {
    if exists|k: int| is_first_stop(stops, id, k) {
        Some(stops[choose|k: int| is_first_stop(stops, id, k)])
    } else {
        None
    }
}

/// The calls of a trip at stops that the feed knows.
pub open spec fn known_calls(
    stop_times: Seq<StopTimeRecordView>,
    stops: Seq<StopRecordView>,
    trip_id: Seq<char>,
) -> Seq<StopTimeRecordView> {
    stop_times.filter(|c: StopTimeRecordView| c.trip_id == trip_id && knows(stops, c.stop_id))
}

/// One candidate for each trip: its identifier, and the number of its calls at
/// known stops.
pub open spec fn trip_candidates(
    trips: Seq<TripRecordView>,
    stop_times: Seq<StopTimeRecordView>,
    stops: Seq<StopRecordView>,
) -> Seq<CandidateView> {
    Seq::new(
        trips.len(),
        |i: int|
            CandidateView {
                id: trips[i].trip_id,
                count: known_calls(stop_times, stops, trips[i].trip_id).len(),
            },
    )
}

/// The trip that stands for its route: the one with the most calls at known
/// stops, and among equals the one whose identifier comes first. It comes
/// with the number of those calls.
pub open spec fn representative(
    trips: Seq<TripRecordView>,
    stop_times: Seq<StopTimeRecordView>,
    stops: Seq<StopRecordView>,
) -> Option<CandidateView> {
    match choice(trip_candidates(trips, stop_times, stops)) {
        Some(i) => Some(trip_candidates(trips, stop_times, stops)[i as int]),
        None => None,
    }
}

/// Collects the trips that refer to a route.
pub fn route_trips<'a>(trips: &'a Vec<TripRecord>, route_id: &str) -> (r: Vec<&'a TripRecord>)
    ensures
        r.deep_view() == trips_of_route(trips.deep_view(), route_id@),
{
    let ghost all = trips.deep_view();
    let ghost pred = |t: TripRecordView| t.route_id == route_id@;
    let mut out: Vec<&'a TripRecord> = Vec::new();
    let mut i: usize = 0;
    proof {
        reveal(Seq::filter);
        assert(all.take(0) =~= Seq::<TripRecordView>::empty());
        assert(out.deep_view() =~= all.take(0).filter(pred));
    }
    while i < trips.len()
        invariant
            0 <= i <= trips.len(),
            all == trips.deep_view(),
            pred == |t: TripRecordView| t.route_id == route_id@,
            out.deep_view() == all.take(i as int).filter(pred),
        decreases trips.len() - i,
    {
        let ghost before = out.deep_view();
        proof {
            assert(all[i as int] == trips[i as int]@);
            assert(all.take(i + 1) =~= all.take(i as int).push(all[i as int]));
            all.take(i as int).lemma_filter_push(all[i as int], pred);
        }
        if same_text(trips[i].route_id.as_str(), route_id) {
            out.push(&trips[i]);
            assert(out.deep_view() =~= before.push(all[i as int]));
        }
        i += 1;
    }
    assert(all.take(i as int) =~= all);
    out
}

/// Collects the trips that run under a service.
pub fn service_trips<'a>(trips: &Vec<&'a TripRecord>, service_id: &str) -> (r: Vec<&'a TripRecord>)
    ensures
        r.deep_view() == with_service(trips.deep_view(), service_id@),
{
    let ghost all = trips.deep_view();
    let ghost pred = |t: TripRecordView| t.service_id == service_id@;
    let mut out: Vec<&'a TripRecord> = Vec::new();
    let mut i: usize = 0;
    proof {
        reveal(Seq::filter);
        assert(all.take(0) =~= Seq::<TripRecordView>::empty());
        assert(out.deep_view() =~= all.take(0).filter(pred));
    }
    while i < trips.len()
        invariant
            0 <= i <= trips.len(),
            all == trips.deep_view(),
            pred == |t: TripRecordView| t.service_id == service_id@,
            out.deep_view() == all.take(i as int).filter(pred),
        decreases trips.len() - i,
    {
        let ghost before = out.deep_view();
        proof {
            assert(all[i as int] == trips[i as int]@);
            assert(all.take(i + 1) =~= all.take(i as int).push(all[i as int]));
            all.take(i as int).lemma_filter_push(all[i as int], pred);
        }
        if same_text(trips[i].service_id.as_str(), service_id) {
            out.push(trips[i]);
            assert(out.deep_view() =~= before.push(all[i as int]));
        }
        i += 1;
    }
    assert(all.take(i as int) =~= all);
    out
}

/// Counts the trips that run under a service.
pub fn count_service(trips: &Vec<&TripRecord>, service_id: &str) -> (n: usize)
    ensures
        n == with_service(trips.deep_view(), service_id@).len(),
{
    let ghost all = trips.deep_view();
    let ghost pred = |t: TripRecordView| t.service_id == service_id@;
    let mut n: usize = 0;
    let mut i: usize = 0;
    proof {
        reveal(Seq::filter);
        assert(all.take(0) =~= Seq::<TripRecordView>::empty());
    }
    while i < trips.len()
        invariant
            0 <= i <= trips.len(),
            all == trips.deep_view(),
            pred == |t: TripRecordView| t.service_id == service_id@,
            n == all.take(i as int).filter(pred).len(),
            n <= i,
        decreases trips.len() - i,
    {
        proof {
            assert(all[i as int] == trips[i as int]@);
            assert(all.take(i + 1) =~= all.take(i as int).push(all[i as int]));
            all.take(i as int).lemma_filter_push(all[i as int], pred);
        }
        if same_text(trips[i].service_id.as_str(), service_id) {
            n += 1;
        }
        i += 1;
    }
    assert(all.take(i as int) =~= all);
    n
}

/// Chooses the service of a route from the route's trips.
pub fn choose_service<'a>(trips: &Vec<&'a TripRecord>) -> (r: Option<&'a str>)
    ensures
        match r {
            Some(s) => chosen_service(trips.deep_view()) == Some(s@),
            None => chosen_service(trips.deep_view()) is None,
        },
        r is None <==> trips.len() == 0,
{
    let ghost all = trips.deep_view();
    let ghost wanted = service_candidates(all);
    let mut candidates: Vec<Candidate<'a>> = Vec::new();
    let mut i: usize = 0;
    while i < trips.len()
        invariant
            0 <= i <= trips.len(),
            all == trips.deep_view(),
            wanted == service_candidates(all),
            candidates.len() == i,
            forall|k: int| 0 <= k < i ==> #[trigger] candidates[k]@ == wanted[k],
        decreases trips.len() - i,
    {
        assert(all[i as int] == trips[i as int]@);
        let id: &'a str = trips[i].service_id.as_str();
        let count = count_service(trips, id);
        candidates.push(Candidate { id, count });
        i += 1;
    }
    assert(candidates.deep_view() =~= wanted);
    match pick_best(&candidates) {
        Some(k) => {
            assert(all[k as int] == trips[k as int]@);
            Some(trips[k].service_id.as_str())
        },
        None => None,
    }
}

/// Finds the first stop that the feed lists with an identifier.
pub fn find_stop<'a>(stops: &'a Vec<StopRecord>, id: &str) -> (r: Option<&'a StopRecord>)
    ensures
        match r {
            Some(s) => stop_of(stops.deep_view(), id@) == Some(s@) && s@.stop_id == id@,
            None => stop_of(stops.deep_view(), id@) is None,
        },
        r is Some <==> knows(stops.deep_view(), id@),
{
    let ghost all = stops.deep_view();
    let mut k: usize = 0;
    while k < stops.len()
        invariant
            0 <= k <= stops.len(),
            all == stops.deep_view(),
            forall|j: int| 0 <= j < k ==> all[j].stop_id != id@,
        decreases stops.len() - k,
    {
        assert(all[k as int] == stops[k as int]@);
        if same_text(stops[k].stop_id.as_str(), id) {
            proof {
                assert(is_first_stop(all, id@, k as int));
                let w = choose|w: int| is_first_stop(all, id@, w);
                if w < k {
                    assert(all[w].stop_id != id@);
                } else if k < w {
                    assert(all[k as int].stop_id != id@);
                }
            }
            return Some(&stops[k]);
        }
        k += 1;
    }
    proof {
        assert forall|w: int| !is_first_stop(all, id@, w) by {}
    }
    None
}

/// Counts the calls of a trip at stops that the feed knows.
pub fn count_known_calls(stop_times: &Vec<StopTimeRecord>, stops: &Vec<StopRecord>, trip_id: &str) -> (n:
    usize)
    ensures
        n == known_calls(stop_times.deep_view(), stops.deep_view(), trip_id@).len(),
{
    let ghost all = stop_times.deep_view();
    let ghost listed = stops.deep_view();
    let ghost pred = |c: StopTimeRecordView| c.trip_id == trip_id@ && knows(listed, c.stop_id);
    let mut n: usize = 0;
    let mut i: usize = 0;
    proof {
        reveal(Seq::filter);
        assert(all.take(0) =~= Seq::<StopTimeRecordView>::empty());
    }
    while i < stop_times.len()
        invariant
            0 <= i <= stop_times.len(),
            all == stop_times.deep_view(),
            listed == stops.deep_view(),
            pred == |c: StopTimeRecordView| c.trip_id == trip_id@ && knows(listed, c.stop_id),
            n == all.take(i as int).filter(pred).len(),
            n <= i,
        decreases stop_times.len() - i,
    {
        proof {
            assert(all[i as int] == stop_times[i as int]@);
            assert(all.take(i + 1) =~= all.take(i as int).push(all[i as int]));
            all.take(i as int).lemma_filter_push(all[i as int], pred);
        }
        if same_text(stop_times[i].trip_id.as_str(), trip_id) {
            if find_stop(stops, stop_times[i].stop_id.as_str()).is_some() {
                n += 1;
            }
        }
        i += 1;
    }
    assert(all.take(i as int) =~= all);
    n
}

/// Chooses the trip that stands for its route, and counts its calls at known
/// stops.
pub fn choose_trip<'a>(
    trips: &Vec<&'a TripRecord>,
    stop_times: &Vec<StopTimeRecord>,
    stops: &Vec<StopRecord>,
) -> (r: Option<Candidate<'a>>)
    ensures
        match r {
            Some(c) => representative(
                trips.deep_view(),
                stop_times.deep_view(),
                stops.deep_view(),
            ) == Some(c@),
            None => representative(trips.deep_view(), stop_times.deep_view(), stops.deep_view())
                is None,
        },
        r is None <==> trips.len() == 0,
{
    let ghost all = trips.deep_view();
    let ghost wanted = trip_candidates(all, stop_times.deep_view(), stops.deep_view());
    let mut candidates: Vec<Candidate<'a>> = Vec::new();
    let mut i: usize = 0;
    while i < trips.len()
        invariant
            0 <= i <= trips.len(),
            all == trips.deep_view(),
            wanted == trip_candidates(all, stop_times.deep_view(), stops.deep_view()),
            candidates.len() == i,
            forall|k: int| 0 <= k < i ==> #[trigger] candidates[k]@ == wanted[k],
        decreases trips.len() - i,
    {
        assert(all[i as int] == trips[i as int]@);
        let id: &'a str = trips[i].trip_id.as_str();
        let count = count_known_calls(stop_times, stops, id);
        candidates.push(Candidate { id, count });
        i += 1;
    }
    assert(candidates.deep_view() =~= wanted);
    match pick_best(&candidates) {
        Some(k) => {
            assert(wanted[k as int] == candidates[k as int]@);
            Some(candidates[k])
        },
        None => None,
    }
}

/// A stop of the feed on the map; nothing where it lies outside the envelope.
pub open spec fn raw_stop_of(s: StopRecordView, env: EnvelopeView) -> Option<RawStopView> {
    match projected(env, s.lon as int, s.lat as int) {
        Some(p) => Some(
            RawStopView {
                id: s.stop_id,
                code: s.code,
                name: s.name,
                description: s.description,
                position: p,
            },
        ),
        None => None,
    }
}

/// The stop that an identifier stands for, on the map; nothing where the feed
/// does not know the identifier or the stop lies outside the envelope.
pub open spec fn placed_stop(stops: Seq<StopRecordView>, env: EnvelopeView, id: Seq<char>) -> Option<
    RawStopView,
> {
    match stop_of(stops, id) {
        Some(s) => raw_stop_of(s, env),
        None => None,
    }
}

/// A call with a copy of its stop; nothing where the stop has no place.
pub open spec fn call_of(
    c: StopTimeRecordView,
    stops: Seq<StopRecordView>,
    env: EnvelopeView,
) -> Option<RawStopTimeView> {
    match placed_stop(stops, env, c.stop_id) {
        Some(stop) => Some(
            RawStopTimeView {
                arrival_time: c.arrival_time,
                departure_time: c.departure_time,
                stop,
                stop_sequence: c.stop_sequence,
                pickup_type: c.pickup_type,
                drop_off_type: c.drop_off_type,
            },
        ),
        None => None,
    }
}

/// The calls of a trip, in the order of the feed, those left out whose stop
/// has no place.
pub open spec fn calls_of_trip(
    stop_times: Seq<StopTimeRecordView>,
    stops: Seq<StopRecordView>,
    env: EnvelopeView,
    trip_id: Seq<char>,
) -> Seq<RawStopTimeView> {
    stop_times.filter_map(
        |c: StopTimeRecordView|
            if c.trip_id == trip_id {
                call_of(c, stops, env)
            } else {
                None
            },
    )
}

/// A point of a shape on the map; nothing where it lies outside the envelope.
pub open spec fn shape_point_of(s: ShapeRecordView, env: EnvelopeView) -> Option<ShapePoint> {
    match projected(env, s.lon as int, s.lat as int) {
        Some(p) => Some(ShapePoint { position: p, sequence: s.sequence }),
        None => None,
    }
}

/// The points of a shape on the map, in the order of the feed.
pub open spec fn shape_points(shapes: Seq<ShapeRecordView>, env: EnvelopeView, shape_id: Seq<char>) -> Seq<
    ShapePoint,
> {
    shapes.filter_map(
        |s: ShapeRecordView|
            if s.shape_id == shape_id {
                shape_point_of(s, env)
            } else {
                None
            },
    )
}

/// Whether `t` is the trip that the feed describes by `rec`.
pub open spec fn is_trip_of(t: RawTripView, rec: TripRecordView, feed: FeedView, env: EnvelopeView) -> bool {
    &&& t.service_id == rec.service_id
    &&& t.id == rec.trip_id
    &&& t.headsign == rec.headsign
    &&& t.direction_id == rec.direction_id
    &&& is_ordering_of(t.shape, shape_points(feed.shapes, env, rec.shape_id))
    &&& t.stop_times == calls_of_trip(feed.stop_times, feed.stops, env, rec.trip_id)
}

/// Whether a trip calls at the stop with the identifier.
pub open spec fn calls_at(stop_times: Seq<StopTimeRecordView>, trip_id: Seq<char>, id: Seq<char>) -> bool {
    exists|k: int|
        0 <= k < stop_times.len() && #[trigger] stop_times[k].trip_id == trip_id
            && stop_times[k].stop_id == id
}

/// Whether `result` holds the canonical stops of a route: every stop with a
/// place at which the representative trip calls, once, in the order of the
/// identifiers.
pub open spec fn is_canonical(
    result: Seq<RawStopView>,
    stop_times: Seq<StopTimeRecordView>,
    stops: Seq<StopRecordView>,
    env: EnvelopeView,
    trip_id: Seq<char>,
) -> bool {
    &&& ids_ascending(result)
    &&& forall|k: int|
        0 <= k < result.len() ==> calls_at(stop_times, trip_id, #[trigger] result[k].id)
            && placed_stop(stops, env, result[k].id) == Some(result[k])
    &&& forall|id: Seq<char>|
        calls_at(stop_times, trip_id, id) && placed_stop(stops, env, id) is Some ==> has_id(
            result,
            id,
        )
}

/// Puts a stop of the feed on the map.
pub fn place_stop(stop: &StopRecord, env: &Envelope) -> (r: Option<RawStop>)
    ensures
        match r {
            Some(v) => raw_stop_of(stop@, env@) == Some(v@),
            None => raw_stop_of(stop@, env@) is None,
        },
{
    match env.project(stop.lon, stop.lat) {
        Ok(position) => Some(
            RawStop {
                id: stop.stop_id.clone(),
                code: stop.code.clone(),
                name: stop.name.clone(),
                description: stop.description.clone(),
                position,
            },
        ),
        Err(_) => None,
    }
}

/// Looks up the stop that an identifier stands for and puts it on the map.
pub fn lookup_stop(stops: &Vec<StopRecord>, env: &Envelope, id: &str) -> (r: Option<RawStop>)
    ensures
        match r {
            Some(v) => placed_stop(stops.deep_view(), env@, id@) == Some(v@) && v@.id == id@,
            None => placed_stop(stops.deep_view(), env@, id@) is None,
        },
{
    match find_stop(stops, id) {
        Some(stop) => place_stop(stop, env),
        None => None,
    }
}

/// Collects the calls of a trip, each with a copy of its stop.
pub fn trip_calls(
    stop_times: &Vec<StopTimeRecord>,
    stops: &Vec<StopRecord>,
    env: &Envelope,
    trip_id: &str,
) -> (r: Vec<RawStopTime>)
    ensures
        r.deep_view() == calls_of_trip(stop_times.deep_view(), stops.deep_view(), env@, trip_id@),
{
    let ghost all = stop_times.deep_view();
    let ghost listed = stops.deep_view();
    let ghost f = |c: StopTimeRecordView|
        if c.trip_id == trip_id@ {
            call_of(c, listed, env@)
        } else {
            None
        };
    let mut out: Vec<RawStopTime> = Vec::new();
    let mut i: usize = 0;
    proof {
        assert(all.take(0) =~= Seq::<StopTimeRecordView>::empty());
        assert(out.deep_view() =~= all.take(0).filter_map(f));
    }
    while i < stop_times.len()
        invariant
            0 <= i <= stop_times.len(),
            all == stop_times.deep_view(),
            listed == stops.deep_view(),
            f == |c: StopTimeRecordView|
                if c.trip_id == trip_id@ {
                    call_of(c, listed, env@)
                } else {
                    None
                },
            out.deep_view() == all.take(i as int).filter_map(f),
        decreases stop_times.len() - i,
    {
        let ghost before = out.deep_view();
        let c = &stop_times[i];
        proof {
            assert(all[i as int] == c@);
            all.lemma_filter_map_take_succ(f, i as int);
        }
        if same_text(c.trip_id.as_str(), trip_id) {
            match lookup_stop(stops, env, c.stop_id.as_str()) {
                Some(stop) => {
                    let call = RawStopTime {
                        arrival_time: c.arrival_time.clone(),
                        departure_time: c.departure_time.clone(),
                        stop,
                        stop_sequence: c.stop_sequence,
                        pickup_type: c.pickup_type,
                        drop_off_type: c.drop_off_type,
                    };
                    assert(f(all[i as int]) == Some(call@));
                    out.push(call);
                    assert(out.deep_view() =~= before + seq![f(all[i as int])->0]);
                },
                None => {
                    assert(before + Seq::<RawStopTimeView>::empty() =~= before);
                },
            }
        } else {
            assert(before + Seq::<RawStopTimeView>::empty() =~= before);
        }
        i += 1;
    }
    assert(all.take(i as int) =~= all);
    out
}

/// Collects the points of a shape and orders them by their sequence numbers.
pub fn trip_shape(shapes: &Vec<ShapeRecord>, env: &Envelope, shape_id: &str) -> (r: Vec<ShapePoint>)
    ensures
        is_ordering_of(r@, shape_points(shapes.deep_view(), env@, shape_id@)),
{
    let ghost all = shapes.deep_view();
    let ghost f = |s: ShapeRecordView|
        if s.shape_id == shape_id@ {
            shape_point_of(s, env@)
        } else {
            None
        };
    let mut out: Vec<ShapePoint> = Vec::new();
    let mut i: usize = 0;
    proof {
        assert(all.take(0) =~= Seq::<ShapeRecordView>::empty());
        assert(out@ =~= all.take(0).filter_map(f));
    }
    while i < shapes.len()
        invariant
            0 <= i <= shapes.len(),
            all == shapes.deep_view(),
            f == |s: ShapeRecordView|
                if s.shape_id == shape_id@ {
                    shape_point_of(s, env@)
                } else {
                    None
                },
            out@ == all.take(i as int).filter_map(f),
        decreases shapes.len() - i,
    {
        let ghost before = out@;
        let s = &shapes[i];
        proof {
            assert(all[i as int] == s@);
            all.lemma_filter_map_take_succ(f, i as int);
        }
        if same_text(s.shape_id.as_str(), shape_id) {
            match env.project(s.lon, s.lat) {
                Ok(position) => {
                    out.push(ShapePoint { position, sequence: s.sequence });
                    assert(out@ =~= before + seq![f(all[i as int])->0]);
                },
                Err(_) => {
                    assert(before + Seq::<ShapePoint>::empty() =~= before);
                },
            }
        } else {
            assert(before + Seq::<ShapePoint>::empty() =~= before);
        }
        i += 1;
    }
    assert(all.take(i as int) =~= all);
    order_shape(out)
}

/// Assembles a trip with its shape and its calls.
pub fn assemble_trip(rec: &TripRecord, feed: &Feed, env: &Envelope) -> (t: RawTrip)
    ensures
        is_trip_of(t@, rec@, feed@, env@),
{
    RawTrip {
        service_id: rec.service_id.clone(),
        id: rec.trip_id.clone(),
        headsign: rec.headsign.clone(),
        direction_id: rec.direction_id,
        shape: trip_shape(&feed.shapes, env, rec.shape_id.as_str()),
        stop_times: trip_calls(&feed.stop_times, &feed.stops, env, rec.trip_id.as_str()),
    }
}

/// Collects the canonical stops of a route from the calls of its
/// representative trip.
pub fn canonical_stops(
    stop_times: &Vec<StopTimeRecord>,
    stops: &Vec<StopRecord>,
    env: &Envelope,
    trip_id: &str,
) -> (r: Vec<RawStop>)
    ensures
        is_canonical(r.deep_view(), stop_times.deep_view(), stops.deep_view(), env@, trip_id@),
{
    let ghost all = stop_times.deep_view();
    let ghost listed = stops.deep_view();
    let mut out: Vec<RawStop> = Vec::new();
    let mut i: usize = 0;
    while i < stop_times.len()
        invariant
            0 <= i <= stop_times.len(),
            all == stop_times.deep_view(),
            listed == stops.deep_view(),
            ids_ascending(out.deep_view()),
            forall|k: int|
                0 <= k < out.len() ==> calls_at(all, trip_id@, #[trigger] out.deep_view()[k].id)
                    && placed_stop(listed, env@, out.deep_view()[k].id) == Some(
                    out.deep_view()[k],
                ),
            forall|m: int|
                0 <= m < i && #[trigger] all[m].trip_id == trip_id@ && placed_stop(
                    listed,
                    env@,
                    all[m].stop_id,
                ) is Some ==> has_id(out.deep_view(), all[m].stop_id),
        decreases stop_times.len() - i,
    {
        let c = &stop_times[i];
        let ghost before = out.deep_view();
        assert(all[i as int] == c@);
        if same_text(c.trip_id.as_str(), trip_id) {
            match lookup_stop(stops, env, c.stop_id.as_str()) {
                Some(stop) => {
                    let ghost added = stop@;
                    insert_stop(&mut out, stop);
                    proof {
                        let after = out.deep_view();
                        if has_id(before, added.id) {
                            assert(after == before);
                        } else {
                            let at = choose|at: int|
                                0 <= at <= before.len() && after == #[trigger] before.insert(
                                    at,
                                    added,
                                );
                            assert forall|k: int| 0 <= k < after.len() implies calls_at(
                                all,
                                trip_id@,
                                #[trigger] after[k].id,
                            ) && placed_stop(listed, env@, after[k].id) == Some(after[k]) by {
                                if k < at {
                                    assert(after[k] == before[k]);
                                } else if k == at {
                                    assert(after[k] == added);
                                    assert(all[i as int].trip_id == trip_id@);
                                } else {
                                    assert(after[k] == before[k - 1]);
                                }
                            }
                            assert forall|m: int|
                                0 <= m < i + 1 && #[trigger] all[m].trip_id == trip_id@
                                    && placed_stop(
                                    listed,
                                    env@,
                                    all[m].stop_id,
                                ) is Some implies has_id(after, all[m].stop_id) by {
                                if m < i {
                                    let w = choose|w: int|
                                        0 <= w < before.len() && before[w].id == all[m].stop_id;
                                    if w < at {
                                        assert(after[w] == before[w]);
                                    } else {
                                        assert(after[w + 1] == before[w]);
                                    }
                                } else {
                                    assert(after[at] == added);
                                }
                            }
                        }
                    }
                },
                None => {},
            }
        }
        i += 1;
    }
    proof {
        let result = out.deep_view();
        assert forall|id: Seq<char>|
            calls_at(all, trip_id@, id) && placed_stop(listed, env@, id) is Some implies has_id(
            result,
            id,
        ) by {
            let k = choose|k: int|
                0 <= k < all.len() && #[trigger] all[k].trip_id == trip_id@ && all[k].stop_id
                    == id;
            assert(has_id(result, all[k].stop_id));
        }
    }
    out
}

/// A route that has no trip to stand for it.
#[derive(Clone, Debug, PartialEq, Eq)]
pub struct NoViableTrip {
    pub route_id: String,
}

/// The trips that a route keeps: those of its chosen service.
pub open spec fn kept_trips(trips: Seq<TripRecordView>, route_id: Seq<char>) -> Seq<TripRecordView> {
    let of_route = trips_of_route(trips, route_id);
    match chosen_service(of_route) {
        Some(service_id) => with_service(of_route, service_id),
        None => Seq::empty(),
    }
}

/// The trip that stands for a route, with the number of its calls at known
/// stops.
pub open spec fn route_representative(feed: FeedView, route_id: Seq<char>) -> Option<CandidateView> {
    representative(kept_trips(feed.trips, route_id), feed.stop_times, feed.stops)
}

/// A route is viable where it has a trip, and the trip that stands for it
/// calls at a stop that the feed knows.
pub open spec fn viable(feed: FeedView, route_id: Seq<char>) -> bool {
    match route_representative(feed, route_id) {
        Some(c) => c.count > 0,
        None => false,
    }
}

/// Whether `r` is the consolidated form of `route`.
pub open spec fn is_route_of(
    r: RawTransitRouteView,
    route: RouteRecordView,
    feed: FeedView,
    env: EnvelopeView,
) -> bool {
    let kept = kept_trips(feed.trips, route.route_id);
    &&& r.id == route.route_id
    &&& r.long_name == route.long_name
    &&& r.short_name == route.short_name
    &&& r.description == route.description
    &&& route_representative(feed, route.route_id) matches Some(c) && is_canonical(
        r.stops,
        feed.stop_times,
        feed.stops,
        env,
        c.id,
    )
    &&& r.trips.len() == kept.len()
    &&& forall|i: int| 0 <= i < kept.len() ==> is_trip_of(#[trigger] r.trips[i], kept[i], feed, env)
}

/// Consolidates one route of a feed, or says that no trip can stand for it.
pub fn consolidate_route(route: &RouteRecord, feed: &Feed, env: &Envelope) -> (r: Result<
    RawTransitRoute,
    NoViableTrip,
>)
    ensures
        match r {
            Ok(t) => viable(feed@, route@.route_id) && is_route_of(t@, route@, feed@, env@)
                && ids_ascending(t@.stops),
            Err(e) => !viable(feed@, route@.route_id) && e.route_id@ == route@.route_id,
        },
{
    let of_route = route_trips(&feed.trips, route.route_id.as_str());
    let kept = match choose_service(&of_route) {
        Some(service_id) => service_trips(&of_route, service_id),
        None => Vec::new(),
    };
    assert(kept.deep_view() =~= kept_trips(feed@.trips, route@.route_id));
    let chosen = match choose_trip(&kept, &feed.stop_times, &feed.stops) {
        Some(c) => c,
        None => {
            return Err(NoViableTrip { route_id: route.route_id.clone() });
        },
    };
    if chosen.count == 0 {
        return Err(NoViableTrip { route_id: route.route_id.clone() });
    }
    let stops = canonical_stops(&feed.stop_times, &feed.stops, env, chosen.id);
    let mut trips: Vec<RawTrip> = Vec::new();
    let mut i: usize = 0;
    let ghost records = kept.deep_view();
    while i < kept.len()
        invariant
            0 <= i <= kept.len(),
            records == kept.deep_view(),
            trips.len() == i,
            forall|k: int|
                0 <= k < i ==> is_trip_of(#[trigger] trips.deep_view()[k], records[k], feed@, env@),
        decreases kept.len() - i,
    {
        assert(records[i as int] == kept[i as int]@);
        let ghost before = trips.deep_view();
        let trip = assemble_trip(kept[i], feed, env);
        let ghost added = trip@;
        trips.push(trip);
        assert(trips.deep_view() =~= before.push(added));
        i += 1;
    }
    Ok(
        RawTransitRoute {
            id: route.route_id.clone(),
            long_name: route.long_name.clone(),
            short_name: route.short_name.clone(),
            description: route.description.clone(),
            stops,
            trips,
        },
    )
}

/// What consolidation makes of a feed.
#[derive(Clone, Debug, PartialEq, Eq)]
pub struct Consolidation {
    /// The viable routes, in the order of the feed.
    pub routes: Vec<RawTransitRoute>,
    /// What was left out: the stops and the shape points outside the envelope,
    /// then the routes without a viable trip.
    pub reports: Vec<Report>,
}

/// The routes of a feed that are viable.
pub open spec fn viable_routes(feed: FeedView) -> Seq<RouteRecordView> {
    feed.routes.filter(|r: RouteRecordView| viable(feed, r.route_id))
}

/// One report for each stop of the feed that lies outside the envelope.
pub open spec fn stop_warnings(stops: Seq<StopRecordView>, env: EnvelopeView) -> Seq<ReportView> {
    stops.filter_map(
        |s: StopRecordView|
            if projected(env, s.lon as int, s.lat as int) is None {
                Some(
                    ReportView::PointOutOfBounds {
                        of: Entity::Stop,
                        id: s.stop_id,
                        lon: s.lon,
                        lat: s.lat,
                    },
                )
            } else {
                None
            },
    )
}

/// One report for each shape point of the feed that lies outside the envelope.
pub open spec fn shape_warnings(shapes: Seq<ShapeRecordView>, env: EnvelopeView) -> Seq<ReportView> {
    shapes.filter_map(
        |s: ShapeRecordView|
            if projected(env, s.lon as int, s.lat as int) is None {
                Some(
                    ReportView::PointOutOfBounds {
                        of: Entity::Shape,
                        id: s.shape_id,
                        lon: s.lon,
                        lat: s.lat,
                    },
                )
            } else {
                None
            },
    )
}

/// One report for each route of the feed that is not viable.
pub open spec fn route_failures(feed: FeedView) -> Seq<ReportView> {
    feed.routes.filter_map(
        |r: RouteRecordView|
            if viable(feed, r.route_id) {
                None
            } else {
                Some(ReportView::NoViableTrip { route_id: r.route_id })
            },
    )
}

/// Whether `routes` holds the consolidated form of every viable route of a
/// feed, in the order of the feed.
pub open spec fn is_consolidated(
    routes: Seq<RawTransitRouteView>,
    feed: FeedView,
    env: EnvelopeView,
) -> bool {
    &&& routes.len() == viable_routes(feed).len()
    &&& forall|i: int|
        0 <= i < routes.len() ==> is_route_of(#[trigger] routes[i], viable_routes(feed)[i], feed, env)
}

/// The consolidated routes of a feed.
pub open spec fn consolidated_routes(feed: FeedView, env: EnvelopeView) -> Seq<RawTransitRouteView> {
    choose|routes: Seq<RawTransitRouteView>| is_consolidated(routes, feed, env)
}

/// What consolidation reports of a feed: the stops and the shape points
/// outside the envelope, then the routes without a viable trip.
pub open spec fn consolidation_reports(feed: FeedView, env: EnvelopeView) -> Seq<ReportView> {
    stop_warnings(feed.stops, env) + shape_warnings(feed.shapes, env) + route_failures(feed)
}

/// A route has one list of canonical stops only.
pub proof fn lemma_canonical_unique(
    a: Seq<RawStopView>,
    b: Seq<RawStopView>,
    stop_times: Seq<StopTimeRecordView>,
    stops: Seq<StopRecordView>,
    env: EnvelopeView,
    trip_id: Seq<char>,
)
    requires
        is_canonical(a, stop_times, stops, env, trip_id),
        is_canonical(b, stop_times, stops, env, trip_id),
    ensures
        a == b,
{
    assert forall|i: int| 0 <= i < a.len() implies found_in(#[trigger] a[i], b) by {
        assert(calls_at(stop_times, trip_id, a[i].id));
        assert(has_id(b, a[i].id));
        let j = choose|j: int| 0 <= j < b.len() && b[j].id == a[i].id;
        assert(placed_stop(stops, env, b[j].id) == Some(b[j]));
    }
    assert forall|i: int| 0 <= i < b.len() implies found_in(#[trigger] b[i], a) by {
        assert(calls_at(stop_times, trip_id, b[i].id));
        assert(has_id(a, b[i].id));
        let j = choose|j: int| 0 <= j < a.len() && a[j].id == b[i].id;
        assert(placed_stop(stops, env, a[j].id) == Some(a[j]));
    }
    lemma_ascending_unique(a, b);
}

/// The feed describes one trip only by a trip record.
pub proof fn lemma_trip_unique(
    a: RawTripView,
    b: RawTripView,
    rec: TripRecordView,
    feed: FeedView,
    env: EnvelopeView,
)
    requires
        is_trip_of(a, rec, feed, env),
        is_trip_of(b, rec, feed, env),
    ensures
        a == b,
{
    lemma_ordering_unique(a.shape, b.shape);
}

/// A route has one consolidated form only.
pub proof fn lemma_route_unique(
    a: RawTransitRouteView,
    b: RawTransitRouteView,
    route: RouteRecordView,
    feed: FeedView,
    env: EnvelopeView,
)
    requires
        is_route_of(a, route, feed, env),
        is_route_of(b, route, feed, env),
    ensures
        a == b,
{
    let c = route_representative(feed, route.route_id)->0;
    lemma_canonical_unique(a.stops, b.stops, feed.stop_times, feed.stops, env, c.id);
    let kept = kept_trips(feed.trips, route.route_id);
    assert forall|i: int| 0 <= i < kept.len() implies a.trips[i] == b.trips[i] by {
        lemma_trip_unique(a.trips[i], b.trips[i], kept[i], feed, env);
    }
    assert(a.trips =~= b.trips);
}

/// A feed has one consolidated form only: the same records give the same
/// routes, with the same service and the same trip standing for each.
pub proof fn lemma_consolidated_unique(
    a: Seq<RawTransitRouteView>,
    b: Seq<RawTransitRouteView>,
    feed: FeedView,
    env: EnvelopeView,
)
    requires
        is_consolidated(a, feed, env),
        is_consolidated(b, feed, env),
    ensures
        a == b,
        a == consolidated_routes(feed, env),
{
    assert forall|i: int| 0 <= i < a.len() implies a[i] == b[i] by {
        lemma_route_unique(a[i], b[i], viable_routes(feed)[i], feed, env);
    }
    assert(a =~= b);
    let w = consolidated_routes(feed, env);
    assert(is_consolidated(w, feed, env));
    assert forall|i: int| 0 <= i < a.len() implies a[i] == w[i] by {
        lemma_route_unique(a[i], w[i], viable_routes(feed)[i], feed, env);
    }
    assert(a =~= w);
}

/// Reports the stops of a feed that lie outside the envelope.
pub fn warn_of_stops(stops: &Vec<StopRecord>, env: &Envelope, reports: &mut Vec<Report>)
    ensures
        final(reports).deep_view() == old(reports).deep_view() + stop_warnings(
            stops.deep_view(),
            env@,
        ),
{
    let ghost all = stops.deep_view();
    let ghost start = reports.deep_view();
    let ghost f = |s: StopRecordView|
        if projected(env@, s.lon as int, s.lat as int) is None {
            Some(
                ReportView::PointOutOfBounds {
                    of: Entity::Stop,
                    id: s.stop_id,
                    lon: s.lon,
                    lat: s.lat,
                },
            )
        } else {
            None
        };
    let mut i: usize = 0;
    proof {
        assert(all.take(0) =~= Seq::<StopRecordView>::empty());
        assert(reports.deep_view() =~= start + all.take(0).filter_map(f));
    }
    while i < stops.len()
        invariant
            0 <= i <= stops.len(),
            all == stops.deep_view(),
            f == |s: StopRecordView|
                if projected(env@, s.lon as int, s.lat as int) is None {
                    Some(
                        ReportView::PointOutOfBounds {
                            of: Entity::Stop,
                            id: s.stop_id,
                            lon: s.lon,
                            lat: s.lat,
                        },
                    )
                } else {
                    None
                },
            reports.deep_view() == start + all.take(i as int).filter_map(f),
        decreases stops.len() - i,
    {
        let s = &stops[i];
        let ghost before = reports.deep_view();
        proof {
            assert(all[i as int] == s@);
            all.lemma_filter_map_take_succ(f, i as int);
        }
        match env.project(s.lon, s.lat) {
            Ok(_) => {
                assert(before =~= start + (all.take(i as int).filter_map(f) + Seq::<
                    ReportView,
                >::empty()));
            },
            Err(_) => {
                let report = Report::PointOutOfBounds {
                    of: Entity::Stop,
                    id: s.stop_id.clone(),
                    lon: s.lon,
                    lat: s.lat,
                };
                let ghost added = report@;
                reports.push(report);
                assert(f(all[i as int]) == Some(added));
                assert(reports.deep_view() =~= before.push(added));
                assert(before.push(added) =~= start + (all.take(i as int).filter_map(f)
                    + seq![added]));
            },
        }
        i += 1;
    }
    assert(all.take(i as int) =~= all);
}

/// Reports the shape points of a feed that lie outside the envelope.
pub fn warn_of_shapes(shapes: &Vec<ShapeRecord>, env: &Envelope, reports: &mut Vec<Report>)
    ensures
        final(reports).deep_view() == old(reports).deep_view() + shape_warnings(
            shapes.deep_view(),
            env@,
        ),
{
    let ghost all = shapes.deep_view();
    let ghost start = reports.deep_view();
    let ghost f = |s: ShapeRecordView|
        if projected(env@, s.lon as int, s.lat as int) is None {
            Some(
                ReportView::PointOutOfBounds {
                    of: Entity::Shape,
                    id: s.shape_id,
                    lon: s.lon,
                    lat: s.lat,
                },
            )
        } else {
            None
        };
    let mut i: usize = 0;
    proof {
        assert(all.take(0) =~= Seq::<ShapeRecordView>::empty());
        assert(reports.deep_view() =~= start + all.take(0).filter_map(f));
    }
    while i < shapes.len()
        invariant
            0 <= i <= shapes.len(),
            all == shapes.deep_view(),
            f == |s: ShapeRecordView|
                if projected(env@, s.lon as int, s.lat as int) is None {
                    Some(
                        ReportView::PointOutOfBounds {
                            of: Entity::Shape,
                            id: s.shape_id,
                            lon: s.lon,
                            lat: s.lat,
                        },
                    )
                } else {
                    None
                },
            reports.deep_view() == start + all.take(i as int).filter_map(f),
        decreases shapes.len() - i,
    {
        let s = &shapes[i];
        let ghost before = reports.deep_view();
        proof {
            assert(all[i as int] == s@);
            all.lemma_filter_map_take_succ(f, i as int);
        }
        match env.project(s.lon, s.lat) {
            Ok(_) => {
                assert(before =~= start + (all.take(i as int).filter_map(f) + Seq::<
                    ReportView,
                >::empty()));
            },
            Err(_) => {
                let report = Report::PointOutOfBounds {
                    of: Entity::Shape,
                    id: s.shape_id.clone(),
                    lon: s.lon,
                    lat: s.lat,
                };
                let ghost added = report@;
                reports.push(report);
                assert(f(all[i as int]) == Some(added));
                assert(reports.deep_view() =~= before.push(added));
                assert(before.push(added) =~= start + (all.take(i as int).filter_map(f)
                    + seq![added]));
            },
        }
        i += 1;
    }
    assert(all.take(i as int) =~= all);
}

/// Consolidates every route of a feed. A route without a viable trip is left
/// out and reported; the others are not touched by it.
pub fn consolidate(feed: &Feed, env: &Envelope) -> (c: Consolidation)
    ensures
        is_consolidated(c.routes.deep_view(), feed@, env@),
        c.routes.deep_view() == consolidated_routes(feed@, env@),
        c.reports.deep_view() == consolidation_reports(feed@, env@),
{
    let mut reports: Vec<Report> = Vec::new();
    warn_of_stops(&feed.stops, env, &mut reports);
    warn_of_shapes(&feed.shapes, env, &mut reports);
    let ghost warnings = reports.deep_view();
    assert(warnings =~= stop_warnings(feed@.stops, env@) + shape_warnings(feed@.shapes, env@));
    let ghost all = feed@.routes;
    let ghost good = |r: RouteRecordView| viable(feed@, r.route_id);
    let ghost bad = |r: RouteRecordView|
        if viable(feed@, r.route_id) {
            None
        } else {
            Some(ReportView::NoViableTrip { route_id: r.route_id })
        };
    let mut routes: Vec<RawTransitRoute> = Vec::new();
    let mut i: usize = 0;
    proof {
        reveal(Seq::filter);
        assert(all.take(0) =~= Seq::<RouteRecordView>::empty());
        assert(reports.deep_view() =~= warnings + all.take(0).filter_map(bad));
    }
    while i < feed.routes.len()
        invariant
            0 <= i <= feed.routes.len(),
            all == feed@.routes,
            good == |r: RouteRecordView| viable(feed@, r.route_id),
            bad == |r: RouteRecordView|
                if viable(feed@, r.route_id) {
                    None
                } else {
                    Some(ReportView::NoViableTrip { route_id: r.route_id })
                },
            routes.len() == all.take(i as int).filter(good).len(),
            forall|k: int|
                0 <= k < routes.len() ==> is_route_of(
                    #[trigger] routes.deep_view()[k],
                    all.take(i as int).filter(good)[k],
                    feed@,
                    env@,
                ),
            reports.deep_view() == warnings + all.take(i as int).filter_map(bad),
        decreases feed.routes.len() - i,
    {
        let route = &feed.routes[i];
        let ghost routes_before = routes.deep_view();
        let ghost reports_before = reports.deep_view();
        proof {
            assert(all[i as int] == route@);
            assert(all.take(i + 1) =~= all.take(i as int).push(all[i as int]));
            all.take(i as int).lemma_filter_push(all[i as int], good);
            all.lemma_filter_map_take_succ(bad, i as int);
        }
        match consolidate_route(route, feed, env) {
            Ok(consolidated) => {
                let ghost added = consolidated@;
                routes.push(consolidated);
                proof {
                    assert(routes.deep_view() =~= routes_before.push(added));
                    assert(reports_before =~= warnings + (all.take(i as int).filter_map(bad)
                        + Seq::<ReportView>::empty()));
                }
            },
            Err(e) => {
                let report = Report::NoViableTrip { route_id: e.route_id };
                let ghost added = report@;
                reports.push(report);
                proof {
                    assert(bad(all[i as int]) == Some(added));
                    assert(reports.deep_view() =~= reports_before.push(added));
                    assert(reports_before.push(added) =~= warnings + (all.take(
                        i as int,
                    ).filter_map(bad) + seq![added]));
                }
            },
        }
        i += 1;
    }
    assert(all.take(i as int) =~= all);
    proof {
        lemma_consolidated_unique(routes.deep_view(), routes.deep_view(), feed@, env@);
    }
    Consolidation { routes, reports }
}

/// What a function makes of an element of a sequence stands in what it makes
/// of the sequence.
proof fn lemma_filter_map_keeps<A, B>(s: Seq<A>, f: spec_fn(A) -> Option<B>, i: int)
    requires
        0 <= i < s.len(),
        f(s[i]) is Some,
    ensures
        s.filter_map(f).contains(f(s[i])->0),
    decreases s.len(),
{
    let out = s.filter_map(f);
    let rest = s.drop_last();
    if i == s.len() - 1 {
        assert(out == rest.filter_map(f) + seq![f(s[i])->0]);
        assert(out[out.len() - 1] == f(s[i])->0);
    } else {
        lemma_filter_map_keeps(rest, f, i);
        let before = rest.filter_map(f);
        let w = choose|w: int| 0 <= w < before.len() && before[w] == f(s[i])->0;
        if f(s.last()) is Some {
            assert(out == before + seq![f(s.last())->0]);
        } else {
            assert(out == before);
        }
        assert(out[w] == f(s[i])->0);
    }
}

/// A route none of whose trips calls at a stop that the feed knows is not
/// viable: it is in no consolidated form of the feed, and is reported.
pub proof fn lemma_route_without_calls_is_left_out(
    feed: FeedView,
    env: EnvelopeView,
    i: int,
    routes: Seq<RawTransitRouteView>,
)
    requires
        0 <= i < feed.routes.len(),
        forall|k: int|
            0 <= k < feed.trips.len() && #[trigger] feed.trips[k].route_id
                == feed.routes[i].route_id ==> known_calls(
                feed.stop_times,
                feed.stops,
                feed.trips[k].trip_id,
            ).len() == 0,
        is_consolidated(routes, feed, env),
    ensures
        !viable(feed, feed.routes[i].route_id),
        forall|k: int| 0 <= k < routes.len() ==> (#[trigger] routes[k]).id != feed.routes[i].route_id,
        consolidation_reports(feed, env).contains(
            ReportView::NoViableTrip { route_id: feed.routes[i].route_id },
        ),
{
    let route_id = feed.routes[i].route_id;
    if viable(feed, route_id) {
        let kept = kept_trips(feed.trips, route_id);
        let of_route = trips_of_route(feed.trips, route_id);
        let candidates = trip_candidates(kept, feed.stop_times, feed.stops);
        let w = choose|w: int| is_choice(candidates, w);
        assert(0 <= w < kept.len());
        let service_id = chosen_service(of_route)->0;
        let by_service = |t: TripRecordView| t.service_id == service_id;
        let by_route = |t: TripRecordView| t.route_id == route_id;
        assert(kept.contains(kept[w]));
        of_route.lemma_filter_contains_rev(by_service, kept[w]);
        feed.trips.lemma_filter_contains_rev(by_route, kept[w]);
        let m = choose|m: int| 0 <= m < of_route.len() && of_route[m] == kept[w];
        feed.trips.lemma_filter_pred(by_route, m);
        let k = choose|k: int| 0 <= k < feed.trips.len() && feed.trips[k] == kept[w];
        assert(feed.trips[k].route_id == route_id);
    }
    let good = |r: RouteRecordView| viable(feed, r.route_id);
    assert forall|k: int| 0 <= k < routes.len() implies (#[trigger] routes[k]).id != route_id by {
        feed.routes.lemma_filter_pred(good, k);
        assert(is_route_of(routes[k], viable_routes(feed)[k], feed, env));
    }
    let bad = |r: RouteRecordView|
        if viable(feed, r.route_id) {
            None
        } else {
            Some(ReportView::NoViableTrip { route_id: r.route_id })
        };
    lemma_filter_map_keeps(feed.routes, bad, i);
    let told = route_failures(feed);
    let note = ReportView::NoViableTrip { route_id };
    let w = choose|w: int| 0 <= w < told.len() && told[w] == note;
    let before = stop_warnings(feed.stops, env) + shape_warnings(feed.shapes, env);
    assert(consolidation_reports(feed, env)[before.len() + w] == note);
}

} // verus!
