//! A movie catalog built on a prepend-only singly-linked collection.
//!
//! The collection (`list`) stores values in reverse insertion order; the
//! catalog (`movies`) parses delimited text rows into movie records and
//! answers three read-only queries by traversing the collection.

pub mod list;
pub mod movies;
pub mod parse;
pub mod render;
