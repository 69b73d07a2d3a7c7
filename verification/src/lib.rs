//! Generic target resolution: a catalog of named build targets, a capability
//! trait that each platform's catalog type implements, and a resolution
//! algorithm that turns caller-supplied target names into catalog entries,
//! with a fallback policy for the empty request and a structured error for an
//! unknown name.

pub mod catalog;
pub mod target;
