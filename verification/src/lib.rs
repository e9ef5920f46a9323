//! Core of a paragliding logbook: decodes IGC flight-recorder text into a
//! typed trace, finds the takeoff/landing window, simplifies the trace within
//! a geometric tolerance, derives duration and distance, and keeps the
//! in-memory logbook tables that the persistence layer mirrors.
//!
//! Coordinates are held in thousandths of a minute of arc (the exact
//! resolution of the record format), times in seconds of the day; nothing in
//! the library uses floating point. Geodesic distances come from an outside
//! crate through a single trusted wrapper.

pub mod geo;
pub mod igc;
pub mod logbook;
pub mod metrics;
pub mod phase;
pub mod point;
pub mod simplify;
pub mod tables;
pub mod text;
pub mod trace;
