//! A task tracker whose data is a plain checklist document: a verified
//! classifier for its lines, the operations that change it, and the pass
//! that brings it to its canonical layout.

pub mod config;
pub mod document;
pub mod line;
pub mod listing;
pub mod normalize;
pub mod task;
