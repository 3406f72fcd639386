//! Messages of plain data for types that are not plain data themselves.
//!
//! A message type may have `bool`, `usize`, `isize`, `Option` and one-byte enum
//! fields. Its wire form has a plain numeric field, or two, for each of them.

pub mod codec;
pub mod declaration;
pub mod forms;
pub mod laws;
pub mod plan;
pub mod plan_laws;
pub mod types;
pub mod view_laws;
