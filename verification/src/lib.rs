//! A single-user inventory library: product records are stored under their
//! name, several records may share one name, and the records under one name
//! form an ordered bucket that callers disambiguate by a 1-based position.

pub mod laws;
pub mod product;
pub mod store;
