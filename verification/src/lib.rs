//! A road-network routing engine.
//!
//! Map data (nodes with coordinates, ways chaining them) is compiled into an
//! in-memory graph of timed, mode-tagged edges; shortest-arrival-time queries
//! between geographic waypoints are answered for on-foot and by-car travel,
//! including a carpool mode that temporarily splices scheduled vehicle
//! positions into the graph as time-anchored virtual nodes.
//!
//! Coordinates are carried as fixed-point integers (degrees scaled by 1e7),
//! lengths in whole centimeters and times in whole milliseconds, so that the
//! whole pipeline is exact integer arithmetic.

pub mod geo;
pub mod graph;
pub mod service;
pub mod utils;

pub use geo::{distance, distance_t, travel_time_ms, Kmh, TransportKind};
pub use graph::{MapPoint, NodeId, NodeKind, PathResult, RouteError};
pub use service::{MapService, MapWay, PlainMapCarPath};
pub use utils::u64_parse;
