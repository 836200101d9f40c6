//! Shell-history analytics: ingest command history in two native formats,
//! keep a de-duplicated canonical log per source, count leading-token
//! frequency, and rank the result for display.

pub mod aggregate;
pub mod rank;
pub mod source;
pub mod store;
pub mod text;
