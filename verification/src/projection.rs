//! The map's geographic envelope, and the projection of geographic
//! coordinates into the map's plane.
//!
//! A longitude is laid off from the western edge towards the east, a latitude
//! from the northern edge towards the south, each in proportion to the
//! envelope's extent in map units.

use crate::geometry::{lemma_part_of_bounds, part_of, Point};
use vstd::prelude::*;

verus! {

/// The geographic rectangle that a map covers, with its extent in map units.
pub struct Envelope {
    min_lon: i64,
    min_lat: i64,
    max_lon: i64,
    max_lat: i64,
    width: i32,
    height: i32,
}

/// What an envelope holds, as numbers.
pub struct EnvelopeView {
    pub min_lon: int,
    pub min_lat: int,
    pub max_lon: int,
    pub max_lat: int,
    pub width: int,
    pub height: int,
}

/// A coordinate that lies outside the envelope.
#[derive(Clone, Copy, Debug, PartialEq, Eq)]
pub struct PointOutOfBounds {
    pub lon: i64,
    pub lat: i64,
}

/// An envelope spans a stretch of longitude and of latitude, and has an extent.
pub open spec fn valid_envelope(e: EnvelopeView) -> bool {
    &&& e.min_lon < e.max_lon
    &&& e.min_lat < e.max_lat
    &&& 0 <= e.width
    &&& 0 <= e.height
}

/// Whether a coordinate lies within the envelope, its edges included.
pub open spec fn inside(e: EnvelopeView, lon: int, lat: int) -> bool {
    e.min_lon <= lon <= e.max_lon && e.min_lat <= lat <= e.max_lat
}

/// Where a coordinate comes to lie on the map; nowhere if it is outside.
pub open spec fn projected(e: EnvelopeView, lon: int, lat: int) -> Option<Point> {
    if inside(e, lon, lat) {
        Some(
            Point {
                x: part_of(e.width, lon - e.min_lon, e.max_lon - e.min_lon) as i32,
                y: (e.height - part_of(e.height, lat - e.min_lat, e.max_lat - e.min_lat)) as i32,
            },
        )
    } else {
        None
    }
}

impl View for Envelope {
    type V = EnvelopeView;

    closed spec fn view(&self) -> EnvelopeView {
        EnvelopeView {
            min_lon: self.min_lon as int,
            min_lat: self.min_lat as int,
            max_lon: self.max_lon as int,
            max_lat: self.max_lat as int,
            width: self.width as int,
            height: self.height as int,
        }
    }
}

impl Envelope {
    #[verifier::type_invariant]
    closed spec fn well_formed(self) -> bool {
        valid_envelope(self@)
    }

    /// An envelope from its corners and its extent, where they make one.
    pub fn new(
        min_lon: i64,
        min_lat: i64,
        max_lon: i64,
        max_lat: i64,
        width: i32,
        height: i32,
    ) -> (r: Option<Envelope>)
        ensures
            r is Some <==> min_lon < max_lon && min_lat < max_lat && 0 <= width && 0 <= height,
            r matches Some(e) ==> e@ == (EnvelopeView {
                min_lon: min_lon as int,
                min_lat: min_lat as int,
                max_lon: max_lon as int,
                max_lat: max_lat as int,
                width: width as int,
                height: height as int,
            }),
    {
        if min_lon < max_lon && min_lat < max_lat && 0 <= width && 0 <= height {
            Some(Envelope { min_lon, min_lat, max_lon, max_lat, width, height })
        } else {
            None
        }
    }

    /// The extent from west to east, in map units.
    pub fn width(&self) -> (r: i32)
        ensures
            r == self@.width,
            valid_envelope(self@),
    {
        proof {
            use_type_invariant(self);
        }
        self.width
    }

    /// The extent from north to south, in map units.
    pub fn height(&self) -> (r: i32)
        ensures
            r == self@.height,
            valid_envelope(self@),
    {
        proof {
            use_type_invariant(self);
        }
        self.height
    }

    /// Projects a coordinate into the map's plane, or says that it lies
    /// outside the envelope.
    pub fn project(&self, lon: i64, lat: i64) -> (r: Result<Point, PointOutOfBounds>)
        ensures
            match r {
                Ok(p) => projected(self@, lon as int, lat as int) == Some(p) && 0 <= p.x
                    <= self@.width && 0 <= p.y <= self@.height,
                Err(e) => projected(self@, lon as int, lat as int) is None && e
                    == (PointOutOfBounds { lon, lat }),
            },
    {
        proof {
            use_type_invariant(self);
        }
        if lon < self.min_lon || lon > self.max_lon || lat < self.min_lat || lat > self.max_lat {
            return Err(PointOutOfBounds { lon, lat });
        }
        let x = share(self.width, lon, self.min_lon, self.max_lon);
        let y = share(self.height, lat, self.min_lat, self.max_lat);
        Ok(Point { x, y: self.height - y })
    }
}

/// The part of `extent` that `at - low` is of `high - low`.
fn share(extent: i32, at: i64, low: i64, high: i64) -> (r: i32)
    requires
        0 <= extent,
        low <= at <= high,
        low < high,
    ensures
        r == part_of(extent as int, at - low, high - low),
        0 <= r <= extent,
{
    let off: u128 = (at as i128 - low as i128) as u128;
    let span: u128 = (high as i128 - low as i128) as u128;
    proof {
        lemma_part_of_bounds(extent as int, off as int, span as int);
        assert(extent * off <= 0x8000_0000 * 0x1_0000_0000_0000_0000) by (nonlinear_arith)
            requires
                0 <= extent <= 0x8000_0000,
                0 <= off <= 0x1_0000_0000_0000_0000,
        ;
    }
    let q: u128 = (extent as u128) * off / span;
    q as i32
}

} // verus!
