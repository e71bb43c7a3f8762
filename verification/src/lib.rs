//! A bidirectional multimap: a many-to-many relation between left and right
//! keys that can be looked up from either side.
//!
//! `relation` holds the mathematical model, `multimap` the container that
//! implements it over two hash indexes, and `laws` what follows for every
//! state of the model.

pub mod laws;
pub mod multimap;
pub mod relation;

pub use multimap::MbiMap;
pub use relation::Relation;
