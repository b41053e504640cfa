//! Confinement of request paths to a served root directory, and the decisions
//! of a static-file directive: which file to open and which response to send.

pub mod path;
pub mod serve;
