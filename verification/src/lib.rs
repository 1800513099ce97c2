//! Notebooks of editable text cells, and the store that keeps them.
//!
//! - [`notebook`]: the notebook as an editing session holds it, a name and a
//!   list of text cells, with the edits that a session makes.
//! - [`model`]: the state of the store as mathematics, two relations and two
//!   sequences, and each operation as a function on that state.
//! - [`store`]: the store in memory, each operation proved against the model.
//! - [`plan`]: a save written out as the statements that carry it out.
//! - [`access`] and [`service`]: who may touch which notebook, and the
//!   operations that a client asks for.
//! - [`laws`]: what holds of the operations taken together.
//! - [`error`]: the ways in which an operation fails.

pub mod access;
pub mod error;
pub mod laws;
pub mod model;
pub mod notebook;
pub mod plan;
mod rows;
pub mod service;
pub mod store;
