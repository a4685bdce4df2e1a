//! A small task tracker: an in-memory collection of to-do records with
//! create / read / update / delete / list operations, a derived summary,
//! and a textual storage format that round-trips exactly.

pub mod task;
pub mod codec;
pub mod task_manager;
