//! An index of versioned schema documents: version parsing and ordering,
//! version resolution, keyword search over parsed documents, and a
//! navigation stack of visited resources.

pub mod version;
pub mod model;
pub mod filename;
pub mod registry;
pub mod search;
pub mod position;
