//! Validation of structured messages against per-field constraint rules.
//!
//! A [`registry::Registry`] owns a pool of schema descriptors. Validating a
//! message compiles, once per schema, an ordered plan of steps (caching it by
//! schema id, and compiling every schema the plan refers to in the same pass),
//! and then runs the cached plan of the message's schema against the message.
pub mod error;
pub mod laws;
pub mod message;
pub mod plan;
pub mod registry;
pub mod run;
pub mod schema;
