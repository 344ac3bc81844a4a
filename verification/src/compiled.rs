//! What compiled operators build on.
pub mod pull;
