//! Decoding of the feed's tables into typed records.
//!
//! A table's first row names its columns. A field is found by its name, which
//! may carry the resource's prefix (`short_name` or `route_short_name`). Every
//! field of a record is required: a row that lacks one, or holds text that is
//! no number where one is due, fails the whole table.

use crate::decimal::{coord_in, count_in, parse_coord, parse_count};
use crate::table::{cell, column_of, csv_records, find_column, get_cell, read_table};
use crate::records::{
    RouteRecord, RouteRecordView, ShapeRecord, ShapeRecordView, StopRecord, StopRecordView,
    StopTimeRecord, StopTimeRecordView, TripRecord, TripRecordView,
};
use vstd::prelude::*;

verus! {

/// The five tabular resources of a feed.
#[derive(Clone, Copy, Debug, PartialEq, Eq)]
pub enum Resource {
    Routes,
    Stops,
    StopTimes,
    Trips,
    Shapes,
}

/// Why a feed cannot be read.
#[derive(Clone, Debug, PartialEq, Eq)]
pub enum FeedError {
    /// The resource could not be read at all.
    IoFailure { resource: Resource },
    /// The resource's text is no table.
    MalformedTable { resource: Resource },
    /// A data row lacks a field, or a count in it is no number. Rows are
    /// counted from zero, the header left out.
    MalformedRow { resource: Resource, row: usize },
    /// A coordinate in a data row is no decimal.
    MalformedCoordinate { resource: Resource, row: usize, text: String },
}

/// What a [`FeedError`] holds, with its texts as sequences of characters.
pub enum FeedErrorView {
    IoFailure { resource: Resource },
    MalformedTable { resource: Resource },
    MalformedRow { resource: Resource, row: usize },
    MalformedCoordinate { resource: Resource, row: usize, text: Seq<char> },
}

impl View for FeedError {
    type V = FeedErrorView;

    open spec fn view(&self) -> FeedErrorView {
        match *self {
            FeedError::IoFailure { resource } => FeedErrorView::IoFailure { resource },
            FeedError::MalformedTable { resource } => FeedErrorView::MalformedTable { resource },
            FeedError::MalformedRow { resource, row } => FeedErrorView::MalformedRow {
                resource,
                row,
            },
            FeedError::MalformedCoordinate { resource, row, text } => {
                FeedErrorView::MalformedCoordinate { resource, row, text: text@ }
            },
        }
    }
}

/// Why a row cannot be decoded.
#[derive(Clone, Debug, PartialEq, Eq)]
pub enum RowError {
    /// A field is missing, or a count is no number.
    Malformed,
    /// A coordinate is no decimal.
    Coordinate { text: String },
}

/// What a [`RowError`] holds, with its text as a sequence of characters.
pub enum RowFault {
    Malformed,
    Coordinate { text: Seq<char> },
}

impl View for RowError {
    type V = RowFault;

    open spec fn view(&self) -> RowFault {
        match *self {
            RowError::Malformed => RowFault::Malformed,
            RowError::Coordinate { text } => RowFault::Coordinate { text: text@ },
        }
    }
}

/// The text in a column of a row.
pub open spec fn text_at(row: Seq<Seq<char>>, column: Option<usize>) -> Result<
    Seq<char>,
    RowFault,
> {
    match cell(row, column) {
        Some(text) => Ok(text),
        None => Err(RowFault::Malformed),
    }
}

/// The count in a column of a row.
pub open spec fn count_at(row: Seq<Seq<char>>, column: Option<usize>) -> Result<u64, RowFault> {
    match cell(row, column) {
        Some(text) => match count_in(text) {
            Some(v) => Ok(v),
            None => Err(RowFault::Malformed),
        },
        None => Err(RowFault::Malformed),
    }
}

/// The coordinate in a column of a row.
pub open spec fn coord_at(row: Seq<Seq<char>>, column: Option<usize>) -> Result<i64, RowFault> {
    match cell(row, column) {
        Some(text) => match coord_in(text) {
            Some(v) => Ok(v),
            None => Err(RowFault::Coordinate { text }),
        },
        None => Err(RowFault::Malformed),
    }
}

/// The error that a faulty row makes of its table.
pub open spec fn row_error(resource: Resource, row: usize, fault: RowFault) -> FeedErrorView {
    match fault {
        RowFault::Malformed => FeedErrorView::MalformedRow { resource, row },
        RowFault::Coordinate { text } => FeedErrorView::MalformedCoordinate { resource, row, text },
    }
}

/// Whether row `i` is the first that failed to decode.
pub open spec fn is_first_fault<R>(decoded: Seq<Result<R, RowFault>>, i: int) -> bool {
    &&& 0 <= i < decoded.len()
    &&& decoded[i] is Err
    &&& forall|j: int| 0 <= j < i ==> decoded[j] is Ok
}

/// The records of a table whose rows all decode; else the error of the first
/// row that does not.
pub open spec fn collected<R>(resource: Resource, decoded: Seq<Result<R, RowFault>>) -> Result<
    Seq<R>,
    FeedErrorView,
> {
    if exists|i: int| is_first_fault(decoded, i) {
        let i = choose|i: int| is_first_fault(decoded, i);
        Err(row_error(resource, i as usize, decoded[i]->Err_0))
    } else {
        Ok(Seq::new(decoded.len(), |k: int| decoded[k]->Ok_0))
    }
}

/// Where row `i` is the first to fail, the table fails with its error.
pub proof fn lemma_collected_fault<R>(
    resource: Resource,
    decoded: Seq<Result<R, RowFault>>,
    i: int,
)
    requires
        is_first_fault(decoded, i),
    ensures
        collected(resource, decoded) == Err::<Seq<R>, FeedErrorView>(
            row_error(resource, i as usize, decoded[i]->Err_0),
        ),
{
    let w = choose|w: int| is_first_fault(decoded, w);
    if w < i {
        assert(decoded[w] is Ok);
    } else if i < w {
        assert(decoded[i] is Ok);
    }
}

/// Where every row decodes, the table holds their records.
pub proof fn lemma_collected_all<R>(
    resource: Resource,
    decoded: Seq<Result<R, RowFault>>,
    records: Seq<R>,
)
    requires
        records.len() == decoded.len(),
        forall|k: int| 0 <= k < decoded.len() ==> decoded[k] == Ok::<R, RowFault>(records[k]),
    ensures
        collected(resource, decoded) == Ok::<Seq<R>, FeedErrorView>(records),
{
    assert forall|i: int| !is_first_fault(decoded, i) by {
        if 0 <= i < decoded.len() {
            assert(decoded[i] is Ok);
        }
    }
    assert(records =~= Seq::new(decoded.len(), |k: int| decoded[k]->Ok_0));
}

/// Reads the text in a column of a row.
pub fn read_text(row: &Vec<String>, column: Option<usize>) -> (r: Result<String, RowError>)
    ensures
        match r {
            Ok(v) => text_at(row.deep_view(), column) == Ok::<Seq<char>, RowFault>(v@),
            Err(e) => text_at(row.deep_view(), column) == Err::<Seq<char>, RowFault>(e@),
        },
{
    match get_cell(row, column) {
        Some(text) => Ok(text.to_owned()),
        None => Err(RowError::Malformed),
    }
}

/// Reads the count in a column of a row.
pub fn read_count(row: &Vec<String>, column: Option<usize>) -> (r: Result<u64, RowError>)
    ensures
        match r {
            Ok(v) => count_at(row.deep_view(), column) == Ok::<u64, RowFault>(v),
            Err(e) => count_at(row.deep_view(), column) == Err::<u64, RowFault>(e@),
        },
{
    match get_cell(row, column) {
        Some(text) => match parse_count(text) {
            Some(v) => Ok(v),
            None => Err(RowError::Malformed),
        },
        None => Err(RowError::Malformed),
    }
}

/// Reads the coordinate in a column of a row.
pub fn read_coord(row: &Vec<String>, column: Option<usize>) -> (r: Result<i64, RowError>)
    ensures
        match r {
            Ok(v) => coord_at(row.deep_view(), column) == Ok::<i64, RowFault>(v),
            Err(e) => coord_at(row.deep_view(), column) == Err::<i64, RowFault>(e@),
        },
{
    match get_cell(row, column) {
        Some(text) => match parse_coord(text) {
            Ok(v) => Ok(v),
            Err(e) => Err(RowError::Coordinate { text: e.text }),
        },
        None => Err(RowError::Malformed),
    }
}

/// The error that a faulty row makes of its table.
pub fn table_error(resource: Resource, row: usize, fault: RowError) -> (r: FeedError)
    ensures
        r@ == row_error(resource, row, fault@),
{
    match fault {
        RowError::Malformed => FeedError::MalformedRow { resource, row },
        RowError::Coordinate { text } => FeedError::MalformedCoordinate { resource, row, text },
    }
}

/// Whether what a decoder returned is what the table holds.
pub open spec fn decodes_to<R: DeepView>(
    r: Result<Vec<R>, FeedError>,
    held: Result<Seq<R::V>, FeedErrorView>,
) -> bool {
    match r {
        Ok(v) => held == Ok::<Seq<R::V>, FeedErrorView>(v.deep_view()),
        Err(e) => held == Err::<Seq<R::V>, FeedErrorView>(e@),
    }
}

/// Where the fields of a route stand in a table.
#[derive(Clone, Copy)]
pub struct RouteColumns {
    pub route_id: Option<usize>,
    pub short_name: Option<usize>,
    pub long_name: Option<usize>,
    pub description: Option<usize>,
    pub route_type: Option<usize>,
}

/// The columns that a header gives to the fields of a route.
pub open spec fn route_columns_of(header: Seq<Seq<char>>) -> RouteColumns {
    RouteColumns {
        route_id: column_of(header, "route_id"@, "route_id"@),
        short_name: column_of(header, "short_name"@, "route_short_name"@),
        long_name: column_of(header, "long_name"@, "route_long_name"@),
        description: column_of(header, "description"@, "route_desc"@),
        route_type: column_of(header, "route_type"@, "route_type"@),
    }
}

/// Finds the columns of a route's fields in a header.
pub fn route_columns(header: &Vec<String>) -> (c: RouteColumns)
    ensures
        c == route_columns_of(header.deep_view()),
{
    RouteColumns {
        route_id: find_column(header, "route_id", "route_id"),
        short_name: find_column(header, "short_name", "route_short_name"),
        long_name: find_column(header, "long_name", "route_long_name"),
        description: find_column(header, "description", "route_desc"),
        route_type: find_column(header, "route_type", "route_type"),
    }
}

/// The route that a row writes; the fault of its first field that fails.
pub open spec fn route_of_row(row: Seq<Seq<char>>, c: RouteColumns) -> Result<RouteRecordView, RowFault> {
    let route_id = text_at(row, c.route_id);
    let short_name = text_at(row, c.short_name);
    let long_name = text_at(row, c.long_name);
    let description = text_at(row, c.description);
    let route_type = count_at(row, c.route_type);
    if route_id is Err {
        Err(route_id->Err_0)
    } else if short_name is Err {
        Err(short_name->Err_0)
    } else if long_name is Err {
        Err(long_name->Err_0)
    } else if description is Err {
        Err(description->Err_0)
    } else if route_type is Err {
        Err(route_type->Err_0)
    } else {
        Ok(
            RouteRecordView {
                route_id: route_id->Ok_0,
                short_name: short_name->Ok_0,
                long_name: long_name->Ok_0,
                description: description->Ok_0,
                route_type: route_type->Ok_0,
            },
        )
    }
}

/// Decodes one row into a route.
pub fn route_from_row(row: &Vec<String>, c: &RouteColumns) -> (r: Result<RouteRecord, RowError>)
    ensures
        match r {
            Ok(v) => route_of_row(row.deep_view(), *c) == Ok::<RouteRecordView, RowFault>(v@),
            Err(e) => route_of_row(row.deep_view(), *c) == Err::<RouteRecordView, RowFault>(e@),
        },
{
    let route_id = match read_text(row, c.route_id) {
        Ok(v) => v,
        Err(e) => {
            return Err(e);
        },
    };
    let short_name = match read_text(row, c.short_name) {
        Ok(v) => v,
        Err(e) => {
            return Err(e);
        },
    };
    let long_name = match read_text(row, c.long_name) {
        Ok(v) => v,
        Err(e) => {
            return Err(e);
        },
    };
    let description = match read_text(row, c.description) {
        Ok(v) => v,
        Err(e) => {
            return Err(e);
        },
    };
    let route_type = match read_count(row, c.route_type) {
        Ok(v) => v,
        Err(e) => {
            return Err(e);
        },
    };
    Ok(RouteRecord { route_id, short_name, long_name, description, route_type })
}

/// What each data row of a table decodes to, as a route.
pub open spec fn route_rows(rows: Seq<Seq<Seq<char>>>) -> Seq<Result<RouteRecordView, RowFault>> {
    Seq::new((rows.len() - 1) as nat, |k: int| route_of_row(rows[k + 1], route_columns_of(rows[0])))
}

/// The routes that a table holds. A table without a header row holds none.
pub open spec fn routes_of_table(rows: Seq<Seq<Seq<char>>>) -> Result<Seq<RouteRecordView>, FeedErrorView> {
    if rows.len() == 0 {
        Ok(Seq::empty())
    } else {
        collected(Resource::Routes, route_rows(rows))
    }
}

/// Decodes the rows of a table into routes, or fails with the first faulty row.
pub fn decode_routes(rows: &Vec<Vec<String>>) -> (r: Result<Vec<RouteRecord>, FeedError>)
    ensures
        decodes_to(r, routes_of_table(rows.deep_view())),
{
    let mut records: Vec<RouteRecord> = Vec::new();
    if rows.len() == 0 {
        assert(records.deep_view() =~= Seq::<RouteRecordView>::empty());
        return Ok(records);
    }
    let ghost table = rows.deep_view();
    let ghost decoded = route_rows(table);
    let c = route_columns(&rows[0]);
    assert(table[0] == rows[0].deep_view());
    let mut i: usize = 1;
    while i < rows.len()
        invariant
            1 <= i <= rows.len(),
            table == rows.deep_view(),
            decoded == route_rows(table),
            c == route_columns_of(table[0]),
            records.len() == i - 1,
            forall|k: int|
                0 <= k < i - 1 ==> #[trigger] decoded[k] == Ok::<
                    RouteRecordView,
                    RowFault,
                >(records[k]@),
        decreases rows.len() - i,
    {
        assert(table[i as int] == rows[i as int].deep_view());
        assert(decoded[i - 1] == route_of_row(table[i as int], c));
        match route_from_row(&rows[i], &c) {
            Ok(record) => {
                records.push(record);
            },
            Err(fault) => {
                proof {
                    assert(is_first_fault(decoded, i - 1));
                    lemma_collected_fault(Resource::Routes, decoded, i - 1);
                }
                return Err(table_error(Resource::Routes, i - 1, fault));
            },
        }
        i += 1;
    }
    proof {
        let views = records.deep_view();
        assert forall|k: int| 0 <= k < decoded.len() implies decoded[k] == Ok::<
            RouteRecordView,
            RowFault,
        >(views[k]) by {
            assert(views[k] == records[k]@);
        }
        lemma_collected_all(Resource::Routes, decoded, views);
    }
    Ok(records)
}

/// The routes that a document holds.
pub open spec fn routes_of_text(data: Seq<u8>) -> Result<Seq<RouteRecordView>, FeedErrorView> {
    match csv_records(data) {
        Some(rows) => routes_of_table(rows),
        None => Err(FeedErrorView::MalformedTable { resource: Resource::Routes }),
    }
}

/// Reads the routes of a feed from the text of their resource.
pub fn read_routes(data: &[u8]) -> (r: Result<Vec<RouteRecord>, FeedError>)
    ensures
        decodes_to(r, routes_of_text(data@)),
{
    match read_table(data) {
        Some(rows) => decode_routes(&rows),
        None => Err(FeedError::MalformedTable { resource: Resource::Routes }),
    }
}

/// Where the fields of a stop stand in a table.
#[derive(Clone, Copy)]
pub struct StopColumns {
    pub stop_id: Option<usize>,
    pub code: Option<usize>,
    pub name: Option<usize>,
    pub description: Option<usize>,
    pub lat: Option<usize>,
    pub lon: Option<usize>,
}

/// The columns that a header gives to the fields of a stop.
pub open spec fn stop_columns_of(header: Seq<Seq<char>>) -> StopColumns {
    StopColumns {
        stop_id: column_of(header, "stop_id"@, "stop_id"@),
        code: column_of(header, "code"@, "stop_code"@),
        name: column_of(header, "name"@, "stop_name"@),
        description: column_of(header, "description"@, "stop_desc"@),
        lat: column_of(header, "lat"@, "stop_lat"@),
        lon: column_of(header, "lon"@, "stop_lon"@),
    }
}

/// Finds the columns of a stop's fields in a header.
pub fn stop_columns(header: &Vec<String>) -> (c: StopColumns)
    ensures
        c == stop_columns_of(header.deep_view()),
{
    StopColumns {
        stop_id: find_column(header, "stop_id", "stop_id"),
        code: find_column(header, "code", "stop_code"),
        name: find_column(header, "name", "stop_name"),
        description: find_column(header, "description", "stop_desc"),
        lat: find_column(header, "lat", "stop_lat"),
        lon: find_column(header, "lon", "stop_lon"),
    }
}

/// The stop that a row writes; the fault of its first field that fails.
pub open spec fn stop_of_row(row: Seq<Seq<char>>, c: StopColumns) -> Result<StopRecordView, RowFault> {
    let stop_id = text_at(row, c.stop_id);
    let code = text_at(row, c.code);
    let name = text_at(row, c.name);
    let description = text_at(row, c.description);
    let lat = coord_at(row, c.lat);
    let lon = coord_at(row, c.lon);
    if stop_id is Err {
        Err(stop_id->Err_0)
    } else if code is Err {
        Err(code->Err_0)
    } else if name is Err {
        Err(name->Err_0)
    } else if description is Err {
        Err(description->Err_0)
    } else if lat is Err {
        Err(lat->Err_0)
    } else if lon is Err {
        Err(lon->Err_0)
    } else {
        Ok(
            StopRecordView {
                stop_id: stop_id->Ok_0,
                code: code->Ok_0,
                name: name->Ok_0,
                description: description->Ok_0,
                lat: lat->Ok_0,
                lon: lon->Ok_0,
            },
        )
    }
}

/// Decodes one row into a stop.
pub fn stop_from_row(row: &Vec<String>, c: &StopColumns) -> (r: Result<StopRecord, RowError>)
    ensures
        match r {
            Ok(v) => stop_of_row(row.deep_view(), *c) == Ok::<StopRecordView, RowFault>(v@),
            Err(e) => stop_of_row(row.deep_view(), *c) == Err::<StopRecordView, RowFault>(e@),
        },
{
    let stop_id = match read_text(row, c.stop_id) {
        Ok(v) => v,
        Err(e) => {
            return Err(e);
        },
    };
    let code = match read_text(row, c.code) {
        Ok(v) => v,
        Err(e) => {
            return Err(e);
        },
    };
    let name = match read_text(row, c.name) {
        Ok(v) => v,
        Err(e) => {
            return Err(e);
        },
    };
    let description = match read_text(row, c.description) {
        Ok(v) => v,
        Err(e) => {
            return Err(e);
        },
    };
    let lat = match read_coord(row, c.lat) {
        Ok(v) => v,
        Err(e) => {
            return Err(e);
        },
    };
    let lon = match read_coord(row, c.lon) {
        Ok(v) => v,
        Err(e) => {
            return Err(e);
        },
    };
    Ok(StopRecord { stop_id, code, name, description, lat, lon })
}

/// What each data row of a table decodes to, as a stop.
pub open spec fn stop_rows(rows: Seq<Seq<Seq<char>>>) -> Seq<Result<StopRecordView, RowFault>> {
    Seq::new((rows.len() - 1) as nat, |k: int| stop_of_row(rows[k + 1], stop_columns_of(rows[0])))
}

/// The stops that a table holds. A table without a header row holds none.
pub open spec fn stops_of_table(rows: Seq<Seq<Seq<char>>>) -> Result<Seq<StopRecordView>, FeedErrorView> {
    if rows.len() == 0 {
        Ok(Seq::empty())
    } else {
        collected(Resource::Stops, stop_rows(rows))
    }
}

/// Decodes the rows of a table into stops, or fails with the first faulty row.
pub fn decode_stops(rows: &Vec<Vec<String>>) -> (r: Result<Vec<StopRecord>, FeedError>)
    ensures
        decodes_to(r, stops_of_table(rows.deep_view())),
{
    let mut records: Vec<StopRecord> = Vec::new();
    if rows.len() == 0 {
        assert(records.deep_view() =~= Seq::<StopRecordView>::empty());
        return Ok(records);
    }
    let ghost table = rows.deep_view();
    let ghost decoded = stop_rows(table);
    let c = stop_columns(&rows[0]);
    assert(table[0] == rows[0].deep_view());
    let mut i: usize = 1;
    while i < rows.len()
        invariant
            1 <= i <= rows.len(),
            table == rows.deep_view(),
            decoded == stop_rows(table),
            c == stop_columns_of(table[0]),
            records.len() == i - 1,
            forall|k: int|
                0 <= k < i - 1 ==> #[trigger] decoded[k] == Ok::<
                    StopRecordView,
                    RowFault,
                >(records[k]@),
        decreases rows.len() - i,
    {
        assert(table[i as int] == rows[i as int].deep_view());
        assert(decoded[i - 1] == stop_of_row(table[i as int], c));
        match stop_from_row(&rows[i], &c) {
            Ok(record) => {
                records.push(record);
            },
            Err(fault) => {
                proof {
                    assert(is_first_fault(decoded, i - 1));
                    lemma_collected_fault(Resource::Stops, decoded, i - 1);
                }
                return Err(table_error(Resource::Stops, i - 1, fault));
            },
        }
        i += 1;
    }
    proof {
        let views = records.deep_view();
        assert forall|k: int| 0 <= k < decoded.len() implies decoded[k] == Ok::<
            StopRecordView,
            RowFault,
        >(views[k]) by {
            assert(views[k] == records[k]@);
        }
        lemma_collected_all(Resource::Stops, decoded, views);
    }
    Ok(records)
}

/// The stops that a document holds.
pub open spec fn stops_of_text(data: Seq<u8>) -> Result<Seq<StopRecordView>, FeedErrorView> {
    match csv_records(data) {
        Some(rows) => stops_of_table(rows),
        None => Err(FeedErrorView::MalformedTable { resource: Resource::Stops }),
    }
}

/// Reads the stops of a feed from the text of their resource.
pub fn read_stops(data: &[u8]) -> (r: Result<Vec<StopRecord>, FeedError>)
    ensures
        decodes_to(r, stops_of_text(data@)),
{
    match read_table(data) {
        Some(rows) => decode_stops(&rows),
        None => Err(FeedError::MalformedTable { resource: Resource::Stops }),
    }
}

/// Where the fields of a trip stand in a table.
#[derive(Clone, Copy)]
pub struct TripColumns {
    pub route_id: Option<usize>,
    pub service_id: Option<usize>,
    pub trip_id: Option<usize>,
    pub headsign: Option<usize>,
    pub direction_id: Option<usize>,
    pub block_id: Option<usize>,
    pub shape_id: Option<usize>,
}

/// The columns that a header gives to the fields of a trip.
pub open spec fn trip_columns_of(header: Seq<Seq<char>>) -> TripColumns {
    TripColumns {
        route_id: column_of(header, "route_id"@, "route_id"@),
        service_id: column_of(header, "service_id"@, "service_id"@),
        trip_id: column_of(header, "trip_id"@, "trip_id"@),
        headsign: column_of(header, "headsign"@, "trip_headsign"@),
        direction_id: column_of(header, "direction_id"@, "direction_id"@),
        block_id: column_of(header, "block_id"@, "block_id"@),
        shape_id: column_of(header, "shape_id"@, "shape_id"@),
    }
}

/// Finds the columns of a trip's fields in a header.
pub fn trip_columns(header: &Vec<String>) -> (c: TripColumns)
    ensures
        c == trip_columns_of(header.deep_view()),
{
    TripColumns {
        route_id: find_column(header, "route_id", "route_id"),
        service_id: find_column(header, "service_id", "service_id"),
        trip_id: find_column(header, "trip_id", "trip_id"),
        headsign: find_column(header, "headsign", "trip_headsign"),
        direction_id: find_column(header, "direction_id", "direction_id"),
        block_id: find_column(header, "block_id", "block_id"),
        shape_id: find_column(header, "shape_id", "shape_id"),
    }
}

/// The trip that a row writes; the fault of its first field that fails.
pub open spec fn trip_of_row(row: Seq<Seq<char>>, c: TripColumns) -> Result<TripRecordView, RowFault> {
    let route_id = text_at(row, c.route_id);
    let service_id = text_at(row, c.service_id);
    let trip_id = text_at(row, c.trip_id);
    let headsign = text_at(row, c.headsign);
    let direction_id = count_at(row, c.direction_id);
    let block_id = text_at(row, c.block_id);
    let shape_id = text_at(row, c.shape_id);
    if route_id is Err {
        Err(route_id->Err_0)
    } else if service_id is Err {
        Err(service_id->Err_0)
    } else if trip_id is Err {
        Err(trip_id->Err_0)
    } else if headsign is Err {
        Err(headsign->Err_0)
    } else if direction_id is Err {
        Err(direction_id->Err_0)
    } else if block_id is Err {
        Err(block_id->Err_0)
    } else if shape_id is Err {
        Err(shape_id->Err_0)
    } else {
        Ok(
            TripRecordView {
                route_id: route_id->Ok_0,
                service_id: service_id->Ok_0,
                trip_id: trip_id->Ok_0,
                headsign: headsign->Ok_0,
                direction_id: direction_id->Ok_0,
                block_id: block_id->Ok_0,
                shape_id: shape_id->Ok_0,
            },
        )
    }
}

/// Decodes one row into a trip.
pub fn trip_from_row(row: &Vec<String>, c: &TripColumns) -> (r: Result<TripRecord, RowError>)
    ensures
        match r {
            Ok(v) => trip_of_row(row.deep_view(), *c) == Ok::<TripRecordView, RowFault>(v@),
            Err(e) => trip_of_row(row.deep_view(), *c) == Err::<TripRecordView, RowFault>(e@),
        },
{
    let route_id = match read_text(row, c.route_id) {
        Ok(v) => v,
        Err(e) => {
            return Err(e);
        },
    };
    let service_id = match read_text(row, c.service_id) {
        Ok(v) => v,
        Err(e) => {
            return Err(e);
        },
    };
    let trip_id = match read_text(row, c.trip_id) {
        Ok(v) => v,
        Err(e) => {
            return Err(e);
        },
    };
    let headsign = match read_text(row, c.headsign) {
        Ok(v) => v,
        Err(e) => {
            return Err(e);
        },
    };
    let direction_id = match read_count(row, c.direction_id) {
        Ok(v) => v,
        Err(e) => {
            return Err(e);
        },
    };
    let block_id = match read_text(row, c.block_id) {
        Ok(v) => v,
        Err(e) => {
            return Err(e);
        },
    };
    let shape_id = match read_text(row, c.shape_id) {
        Ok(v) => v,
        Err(e) => {
            return Err(e);
        },
    };
    Ok(TripRecord { route_id, service_id, trip_id, headsign, direction_id, block_id, shape_id })
}

/// What each data row of a table decodes to, as a trip.
pub open spec fn trip_rows(rows: Seq<Seq<Seq<char>>>) -> Seq<Result<TripRecordView, RowFault>> {
    Seq::new((rows.len() - 1) as nat, |k: int| trip_of_row(rows[k + 1], trip_columns_of(rows[0])))
}

/// The trips that a table holds. A table without a header row holds none.
pub open spec fn trips_of_table(rows: Seq<Seq<Seq<char>>>) -> Result<Seq<TripRecordView>, FeedErrorView> {
    if rows.len() == 0 {
        Ok(Seq::empty())
    } else {
        collected(Resource::Trips, trip_rows(rows))
    }
}

/// Decodes the rows of a table into trips, or fails with the first faulty row.
pub fn decode_trips(rows: &Vec<Vec<String>>) -> (r: Result<Vec<TripRecord>, FeedError>)
    ensures
        decodes_to(r, trips_of_table(rows.deep_view())),
{
    let mut records: Vec<TripRecord> = Vec::new();
    if rows.len() == 0 {
        assert(records.deep_view() =~= Seq::<TripRecordView>::empty());
        return Ok(records);
    }
    let ghost table = rows.deep_view();
    let ghost decoded = trip_rows(table);
    let c = trip_columns(&rows[0]);
    assert(table[0] == rows[0].deep_view());
    let mut i: usize = 1;
    while i < rows.len()
        invariant
            1 <= i <= rows.len(),
            table == rows.deep_view(),
            decoded == trip_rows(table),
            c == trip_columns_of(table[0]),
            records.len() == i - 1,
            forall|k: int|
                0 <= k < i - 1 ==> #[trigger] decoded[k] == Ok::<
                    TripRecordView,
                    RowFault,
                >(records[k]@),
        decreases rows.len() - i,
    {
        assert(table[i as int] == rows[i as int].deep_view());
        assert(decoded[i - 1] == trip_of_row(table[i as int], c));
        match trip_from_row(&rows[i], &c) {
            Ok(record) => {
                records.push(record);
            },
            Err(fault) => {
                proof {
                    assert(is_first_fault(decoded, i - 1));
                    lemma_collected_fault(Resource::Trips, decoded, i - 1);
                }
                return Err(table_error(Resource::Trips, i - 1, fault));
            },
        }
        i += 1;
    }
    proof {
        let views = records.deep_view();
        assert forall|k: int| 0 <= k < decoded.len() implies decoded[k] == Ok::<
            TripRecordView,
            RowFault,
        >(views[k]) by {
            assert(views[k] == records[k]@);
        }
        lemma_collected_all(Resource::Trips, decoded, views);
    }
    Ok(records)
}

/// The trips that a document holds.
pub open spec fn trips_of_text(data: Seq<u8>) -> Result<Seq<TripRecordView>, FeedErrorView> {
    match csv_records(data) {
        Some(rows) => trips_of_table(rows),
        None => Err(FeedErrorView::MalformedTable { resource: Resource::Trips }),
    }
}

/// Reads the trips of a feed from the text of their resource.
pub fn read_trips(data: &[u8]) -> (r: Result<Vec<TripRecord>, FeedError>)
    ensures
        decodes_to(r, trips_of_text(data@)),
{
    match read_table(data) {
        Some(rows) => decode_trips(&rows),
        None => Err(FeedError::MalformedTable { resource: Resource::Trips }),
    }
}

/// Where the fields of a stop time stand in a table.
#[derive(Clone, Copy)]
pub struct StopTimeColumns {
    pub trip_id: Option<usize>,
    pub arrival_time: Option<usize>,
    pub departure_time: Option<usize>,
    pub stop_id: Option<usize>,
    pub stop_sequence: Option<usize>,
    pub pickup_type: Option<usize>,
    pub drop_off_type: Option<usize>,
}

/// The columns that a header gives to the fields of a stop time.
pub open spec fn stop_time_columns_of(header: Seq<Seq<char>>) -> StopTimeColumns {
    StopTimeColumns {
        trip_id: column_of(header, "trip_id"@, "trip_id"@),
        arrival_time: column_of(header, "arrival_time"@, "arrival_time"@),
        departure_time: column_of(header, "departure_time"@, "departure_time"@),
        stop_id: column_of(header, "stop_id"@, "stop_id"@),
        stop_sequence: column_of(header, "stop_sequence"@, "stop_sequence"@),
        pickup_type: column_of(header, "pickup_type"@, "pickup_type"@),
        drop_off_type: column_of(header, "drop_off_type"@, "drop_off_type"@),
    }
}

/// Finds the columns of a stop time's fields in a header.
pub fn stop_time_columns(header: &Vec<String>) -> (c: StopTimeColumns)
    ensures
        c == stop_time_columns_of(header.deep_view()),
{
    StopTimeColumns {
        trip_id: find_column(header, "trip_id", "trip_id"),
        arrival_time: find_column(header, "arrival_time", "arrival_time"),
        departure_time: find_column(header, "departure_time", "departure_time"),
        stop_id: find_column(header, "stop_id", "stop_id"),
        stop_sequence: find_column(header, "stop_sequence", "stop_sequence"),
        pickup_type: find_column(header, "pickup_type", "pickup_type"),
        drop_off_type: find_column(header, "drop_off_type", "drop_off_type"),
    }
}

/// The stop time that a row writes; the fault of its first field that fails.
pub open spec fn stop_time_of_row(row: Seq<Seq<char>>, c: StopTimeColumns) -> Result<StopTimeRecordView, RowFault> {
    let trip_id = text_at(row, c.trip_id);
    let arrival_time = text_at(row, c.arrival_time);
    let departure_time = text_at(row, c.departure_time);
    let stop_id = text_at(row, c.stop_id);
    let stop_sequence = count_at(row, c.stop_sequence);
    let pickup_type = count_at(row, c.pickup_type);
    let drop_off_type = count_at(row, c.drop_off_type);
    if trip_id is Err {
        Err(trip_id->Err_0)
    } else if arrival_time is Err {
        Err(arrival_time->Err_0)
    } else if departure_time is Err {
        Err(departure_time->Err_0)
    } else if stop_id is Err {
        Err(stop_id->Err_0)
    } else if stop_sequence is Err {
        Err(stop_sequence->Err_0)
    } else if pickup_type is Err {
        Err(pickup_type->Err_0)
    } else if drop_off_type is Err {
        Err(drop_off_type->Err_0)
    } else {
        Ok(
            StopTimeRecordView {
                trip_id: trip_id->Ok_0,
                arrival_time: arrival_time->Ok_0,
                departure_time: departure_time->Ok_0,
                stop_id: stop_id->Ok_0,
                stop_sequence: stop_sequence->Ok_0,
                pickup_type: pickup_type->Ok_0,
                drop_off_type: drop_off_type->Ok_0,
            },
        )
    }
}

/// Decodes one row into a stop time.
pub fn stop_time_from_row(row: &Vec<String>, c: &StopTimeColumns) -> (r: Result<StopTimeRecord, RowError>)
    ensures
        match r {
            Ok(v) => stop_time_of_row(row.deep_view(), *c) == Ok::<StopTimeRecordView, RowFault>(v@),
            Err(e) => stop_time_of_row(row.deep_view(), *c) == Err::<StopTimeRecordView, RowFault>(e@),
        },
{
    let trip_id = match read_text(row, c.trip_id) {
        Ok(v) => v,
        Err(e) => {
            return Err(e);
        },
    };
    let arrival_time = match read_text(row, c.arrival_time) {
        Ok(v) => v,
        Err(e) => {
            return Err(e);
        },
    };
    let departure_time = match read_text(row, c.departure_time) {
        Ok(v) => v,
        Err(e) => {
            return Err(e);
        },
    };
    let stop_id = match read_text(row, c.stop_id) {
        Ok(v) => v,
        Err(e) => {
            return Err(e);
        },
    };
    let stop_sequence = match read_count(row, c.stop_sequence) {
        Ok(v) => v,
        Err(e) => {
            return Err(e);
        },
    };
    let pickup_type = match read_count(row, c.pickup_type) {
        Ok(v) => v,
        Err(e) => {
            return Err(e);
        },
    };
    let drop_off_type = match read_count(row, c.drop_off_type) {
        Ok(v) => v,
        Err(e) => {
            return Err(e);
        },
    };
    Ok(StopTimeRecord { trip_id, arrival_time, departure_time, stop_id, stop_sequence, pickup_type, drop_off_type })
}

/// What each data row of a table decodes to, as a stop time.
pub open spec fn stop_time_rows(rows: Seq<Seq<Seq<char>>>) -> Seq<Result<StopTimeRecordView, RowFault>> {
    Seq::new((rows.len() - 1) as nat, |k: int| stop_time_of_row(rows[k + 1], stop_time_columns_of(rows[0])))
}

/// The stop_times that a table holds. A table without a header row holds none.
pub open spec fn stop_times_of_table(rows: Seq<Seq<Seq<char>>>) -> Result<Seq<StopTimeRecordView>, FeedErrorView> {
    if rows.len() == 0 {
        Ok(Seq::empty())
    } else {
        collected(Resource::StopTimes, stop_time_rows(rows))
    }
}

/// Decodes the rows of a table into stop_times, or fails with the first faulty row.
pub fn decode_stop_times(rows: &Vec<Vec<String>>) -> (r: Result<Vec<StopTimeRecord>, FeedError>)
    ensures
        decodes_to(r, stop_times_of_table(rows.deep_view())),
{
    let mut records: Vec<StopTimeRecord> = Vec::new();
    if rows.len() == 0 {
        assert(records.deep_view() =~= Seq::<StopTimeRecordView>::empty());
        return Ok(records);
    }
    let ghost table = rows.deep_view();
    let ghost decoded = stop_time_rows(table);
    let c = stop_time_columns(&rows[0]);
    assert(table[0] == rows[0].deep_view());
    let mut i: usize = 1;
    while i < rows.len()
        invariant
            1 <= i <= rows.len(),
            table == rows.deep_view(),
            decoded == stop_time_rows(table),
            c == stop_time_columns_of(table[0]),
            records.len() == i - 1,
            forall|k: int|
                0 <= k < i - 1 ==> #[trigger] decoded[k] == Ok::<
                    StopTimeRecordView,
                    RowFault,
                >(records[k]@),
        decreases rows.len() - i,
    {
        assert(table[i as int] == rows[i as int].deep_view());
        assert(decoded[i - 1] == stop_time_of_row(table[i as int], c));
        match stop_time_from_row(&rows[i], &c) {
            Ok(record) => {
                records.push(record);
            },
            Err(fault) => {
                proof {
                    assert(is_first_fault(decoded, i - 1));
                    lemma_collected_fault(Resource::StopTimes, decoded, i - 1);
                }
                return Err(table_error(Resource::StopTimes, i - 1, fault));
            },
        }
        i += 1;
    }
    proof {
        let views = records.deep_view();
        assert forall|k: int| 0 <= k < decoded.len() implies decoded[k] == Ok::<
            StopTimeRecordView,
            RowFault,
        >(views[k]) by {
            assert(views[k] == records[k]@);
        }
        lemma_collected_all(Resource::StopTimes, decoded, views);
    }
    Ok(records)
}

/// The stop_times that a document holds.
pub open spec fn stop_times_of_text(data: Seq<u8>) -> Result<Seq<StopTimeRecordView>, FeedErrorView> {
    match csv_records(data) {
        Some(rows) => stop_times_of_table(rows),
        None => Err(FeedErrorView::MalformedTable { resource: Resource::StopTimes }),
    }
}

/// Reads the stop_times of a feed from the text of their resource.
pub fn read_stop_times(data: &[u8]) -> (r: Result<Vec<StopTimeRecord>, FeedError>)
    ensures
        decodes_to(r, stop_times_of_text(data@)),
{
    match read_table(data) {
        Some(rows) => decode_stop_times(&rows),
        None => Err(FeedError::MalformedTable { resource: Resource::StopTimes }),
    }
}

/// Where the fields of a shape point stand in a table.
#[derive(Clone, Copy)]
pub struct ShapeColumns {
    pub shape_id: Option<usize>,
    pub lat: Option<usize>,
    pub lon: Option<usize>,
    pub sequence: Option<usize>,
}

/// The columns that a header gives to the fields of a shape point.
pub open spec fn shape_columns_of(header: Seq<Seq<char>>) -> ShapeColumns {
    ShapeColumns {
        shape_id: column_of(header, "shape_id"@, "shape_id"@),
        lat: column_of(header, "lat"@, "shape_pt_lat"@),
        lon: column_of(header, "lon"@, "shape_pt_lon"@),
        sequence: column_of(header, "sequence"@, "shape_pt_sequence"@),
    }
}

/// Finds the columns of a shape point's fields in a header.
pub fn shape_columns(header: &Vec<String>) -> (c: ShapeColumns)
    ensures
        c == shape_columns_of(header.deep_view()),
{
    ShapeColumns {
        shape_id: find_column(header, "shape_id", "shape_id"),
        lat: find_column(header, "lat", "shape_pt_lat"),
        lon: find_column(header, "lon", "shape_pt_lon"),
        sequence: find_column(header, "sequence", "shape_pt_sequence"),
    }
}

/// The shape point that a row writes; the fault of its first field that fails.
pub open spec fn shape_of_row(row: Seq<Seq<char>>, c: ShapeColumns) -> Result<ShapeRecordView, RowFault> {
    let shape_id = text_at(row, c.shape_id);
    let lat = coord_at(row, c.lat);
    let lon = coord_at(row, c.lon);
    let sequence = count_at(row, c.sequence);
    if shape_id is Err {
        Err(shape_id->Err_0)
    } else if lat is Err {
        Err(lat->Err_0)
    } else if lon is Err {
        Err(lon->Err_0)
    } else if sequence is Err {
        Err(sequence->Err_0)
    } else {
        Ok(
            ShapeRecordView {
                shape_id: shape_id->Ok_0,
                lat: lat->Ok_0,
                lon: lon->Ok_0,
                sequence: sequence->Ok_0,
            },
        )
    }
}

/// Decodes one row into a shape point.
pub fn shape_from_row(row: &Vec<String>, c: &ShapeColumns) -> (r: Result<ShapeRecord, RowError>)
    ensures
        match r {
            Ok(v) => shape_of_row(row.deep_view(), *c) == Ok::<ShapeRecordView, RowFault>(v@),
            Err(e) => shape_of_row(row.deep_view(), *c) == Err::<ShapeRecordView, RowFault>(e@),
        },
{
    let shape_id = match read_text(row, c.shape_id) {
        Ok(v) => v,
        Err(e) => {
            return Err(e);
        },
    };
    let lat = match read_coord(row, c.lat) {
        Ok(v) => v,
        Err(e) => {
            return Err(e);
        },
    };
    let lon = match read_coord(row, c.lon) {
        Ok(v) => v,
        Err(e) => {
            return Err(e);
        },
    };
    let sequence = match read_count(row, c.sequence) {
        Ok(v) => v,
        Err(e) => {
            return Err(e);
        },
    };
    Ok(ShapeRecord { shape_id, lat, lon, sequence })
}

/// What each data row of a table decodes to, as a shape point.
pub open spec fn shape_rows(rows: Seq<Seq<Seq<char>>>) -> Seq<Result<ShapeRecordView, RowFault>> {
    Seq::new((rows.len() - 1) as nat, |k: int| shape_of_row(rows[k + 1], shape_columns_of(rows[0])))
}

/// The shapes that a table holds. A table without a header row holds none.
pub open spec fn shapes_of_table(rows: Seq<Seq<Seq<char>>>) -> Result<Seq<ShapeRecordView>, FeedErrorView> {
    if rows.len() == 0 {
        Ok(Seq::empty())
    } else {
        collected(Resource::Shapes, shape_rows(rows))
    }
}

/// Decodes the rows of a table into shapes, or fails with the first faulty row.
pub fn decode_shapes(rows: &Vec<Vec<String>>) -> (r: Result<Vec<ShapeRecord>, FeedError>)
    ensures
        decodes_to(r, shapes_of_table(rows.deep_view())),
{
    let mut records: Vec<ShapeRecord> = Vec::new();
    if rows.len() == 0 {
        assert(records.deep_view() =~= Seq::<ShapeRecordView>::empty());
        return Ok(records);
    }
    let ghost table = rows.deep_view();
    let ghost decoded = shape_rows(table);
    let c = shape_columns(&rows[0]);
    assert(table[0] == rows[0].deep_view());
    let mut i: usize = 1;
    while i < rows.len()
        invariant
            1 <= i <= rows.len(),
            table == rows.deep_view(),
            decoded == shape_rows(table),
            c == shape_columns_of(table[0]),
            records.len() == i - 1,
            forall|k: int|
                0 <= k < i - 1 ==> #[trigger] decoded[k] == Ok::<
                    ShapeRecordView,
                    RowFault,
                >(records[k]@),
        decreases rows.len() - i,
    {
        assert(table[i as int] == rows[i as int].deep_view());
        assert(decoded[i - 1] == shape_of_row(table[i as int], c));
        match shape_from_row(&rows[i], &c) {
            Ok(record) => {
                records.push(record);
            },
            Err(fault) => {
                proof {
                    assert(is_first_fault(decoded, i - 1));
                    lemma_collected_fault(Resource::Shapes, decoded, i - 1);
                }
                return Err(table_error(Resource::Shapes, i - 1, fault));
            },
        }
        i += 1;
    }
    proof {
        let views = records.deep_view();
        assert forall|k: int| 0 <= k < decoded.len() implies decoded[k] == Ok::<
            ShapeRecordView,
            RowFault,
        >(views[k]) by {
            assert(views[k] == records[k]@);
        }
        lemma_collected_all(Resource::Shapes, decoded, views);
    }
    Ok(records)
}

/// The shapes that a document holds.
pub open spec fn shapes_of_text(data: Seq<u8>) -> Result<Seq<ShapeRecordView>, FeedErrorView> {
    match csv_records(data) {
        Some(rows) => shapes_of_table(rows),
        None => Err(FeedErrorView::MalformedTable { resource: Resource::Shapes }),
    }
}

/// Reads the shapes of a feed from the text of their resource.
pub fn read_shapes(data: &[u8]) -> (r: Result<Vec<ShapeRecord>, FeedError>)
    ensures
        decodes_to(r, shapes_of_text(data@)),
{
    match read_table(data) {
        Some(rows) => decode_shapes(&rows),
        None => Err(FeedError::MalformedTable { resource: Resource::Shapes }),
    }
}

} // verus!
