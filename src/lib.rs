//! Uptime monitoring core: a periodic health-check scheduler, a time-bucket
//! aggregator that turns raw pass/fail samples into dense uptime series, and
//! an incident extractor.
//!
//! Timestamps are whole seconds since the Unix epoch, in UTC.

pub mod bucket;
pub mod error;
pub mod incident;
pub mod aggregate;
pub mod scheduler;
pub mod website;
