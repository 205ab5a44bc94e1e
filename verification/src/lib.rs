//! A small task-list library: a line-oriented codec that reads and writes a
//! flat text representation of tasks, and an ordered in-memory store that
//! mediates between a presentation layer and that text form.

pub mod codec;
pub mod store;
pub mod text;
pub mod vector;
