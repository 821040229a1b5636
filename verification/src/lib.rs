//! A weekly-timetable combination engine.
//!
//! A catalog of course sections, each occupying half-hour blocks across the
//! five weekdays, is compiled into a table of pairwise conflicts between the
//! distinct occupancy patterns.  Queries then expand fixed, required and
//! selected course codes into every conflict-free combination of sections.

pub mod bits;
pub mod errors;
pub mod subject;
pub mod sorting;
pub mod combinator;
pub mod laws;
pub mod filter;
pub mod query;
pub mod share;
pub mod response;
pub mod rank;
