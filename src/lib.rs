//! Extracts the lines of a document that lie in kept regions, where regions are opened and
//! closed by tag lines and nest.

pub mod engine;
pub mod laws;
pub mod tags;
pub mod text;

pub use engine::TagError;
pub use tags::{TagType, Tags};
