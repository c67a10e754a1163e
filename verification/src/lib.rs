//! The HTTP reply boundary of a bindle server: wrapping serializable values
//! as TOML responses, classifying storage failures into HTTP statuses, and
//! building structured TOML error bodies.

pub mod diag;
pub mod http;
pub mod invoice;
pub mod reply;
pub mod storage;
pub mod toml_fmt;
