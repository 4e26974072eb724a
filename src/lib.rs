//! A todo-list collection: entries keyed by their normalized description,
//! ids handed out by a counter, and the CSV form of the whole, with lookup,
//! update and removal by id or by description.
pub mod command;
pub mod csv;
pub mod error;
pub mod laws;
pub mod text;
pub mod todo;
