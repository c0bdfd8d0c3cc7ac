//! Transit feed import.
//!
//! A feed describes the routes of a transit agency in five tables: routes,
//! stops, trips, stop times and shapes. A run of this library
//!
//! 1. decodes the tables into typed records ([`table`], [`feed`], [`records`]),
//! 2. consolidates the records route by route: it chooses the service under
//!    which a route runs most often and the trip that stands for the route,
//!    collects the route's canonical stops, and assembles every trip of the
//!    chosen service with its shape and its calls ([`consolidate`],
//!    [`select`], [`order`], [`transit`]),
//! 3. matches every stop to the nearest eligible edge of a road network, if
//!    one lies within a tolerance ([`network`], [`matching`], [`finalized`]),
//!
//! and reports what it had to leave out ([`report`]). [`pipeline`] runs the
//! three steps over any number of feed sources.
//!
//! All coordinates are integers. Geographic coordinates count units of 1e-7
//! degrees ([`decimal`]); the map's envelope lays them off in map units
//! ([`projection`]), and distances on the map are measured in those
//! ([`geometry`]). Identifiers are texts, ordered by their bytes ([`ident`]).

pub mod consolidate;
pub mod decimal;
pub mod feed;
pub mod finalized;
pub mod geometry;
pub mod ident;
pub mod matching;
pub mod network;
pub mod order;
pub mod pipeline;
pub mod projection;
pub mod records;
pub mod report;
pub mod select;
pub mod table;
pub mod transit;
