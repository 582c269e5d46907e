#![verifier::loop_isolation(false)]
//! A verified core for a media-catalog crawler: title and URL parsing,
//! a de-duplicated metadata ledger with species-based filename numbering,
//! a CSV persistence format with a proved round trip, and the pure decision
//! logic (pagination, retry/backoff, rate limiting) of the download pipeline.
pub mod text;
pub mod title;
pub mod ledger;
pub mod csvio;
pub mod links;
pub mod schedule;
