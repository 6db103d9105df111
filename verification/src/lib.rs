//! Verified URI pattern extraction.
//!
//! Given a template such as `/dynamic/resource/{id}/{name}` and a concrete
//! path-like string, the library checks the string against the template's
//! literal segments, binds each `{name}` placeholder to a typed scalar value
//! coerced from the matching segment, and decodes the resulting parameter set
//! into a caller-declared target shape: a keyed record or a positional tuple.
//!
//! The pipeline is `split -> match -> decode`; each stage's failure
//! short-circuits the rest, and every call is independent and deterministic.
//! The single entry point is [`extract::Path::extract`].

pub mod calculator;
pub mod error;
pub mod extract;
pub mod params;
pub mod scalar;
pub mod segment;
pub mod shape;
