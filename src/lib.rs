//! Per-route timetables extracted from a transit feed: which services run on
//! a given date, and unification of stop names that differ only by
//! diacritics or case.

pub mod date;
pub mod dedup;
pub mod dedup_laws;
pub mod extract;
pub mod service;
pub mod text;
pub mod timetable;
