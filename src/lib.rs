//! Storage layer of a package-repository benchmark: the package model, its
//! decoding from flat field maps, ranking, dependency statistics and the
//! record layouts and query texts of the three supported stores.

pub mod commands;
pub mod error;
pub mod model;
pub mod numeric;
pub mod occurrences;
pub mod query;
pub mod ranking;
pub mod redis_layout;
pub mod response;
pub mod text;
