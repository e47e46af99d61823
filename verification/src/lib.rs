//! A directory-scoped key/value store: values are attached to one directory
//! and seen from every directory below it, the nearest definition winning.

pub mod keys;
pub mod bindings;
pub mod model;
pub mod store;
pub mod path;
pub mod resolve;
pub mod projector;
pub mod codec;
