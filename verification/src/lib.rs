//! Ingestion engine for WorkRave activity-statistics exports.
//!
//! The library turns the line-oriented `historystats` text format into a
//! validated, date-indexed record of daily input-activity statistics and
//! projects that record into per-metric time series suitable for charting.
//!
//! The crate is organised leaf-first:
//!
//! - [`text`] holds the character-level grammar: trimming, splitting a line
//!   into space-separated tokens, and reading unsigned decimal integers.
//! - [`calendar`] models calendar dates and minute-precision timestamps as
//!   plain integers, together with the proleptic day ordinal used to key and
//!   order the history.
//! - [`workrave`] holds the record types, the line decoders, the unit
//!   normalizer, and the date-keyed history store with its load and merge
//!   operations.
//! - [`series`] projects a history store into date-ascending per-metric
//!   series.

pub mod calendar;
pub mod series;
pub mod text;
pub mod workrave;
